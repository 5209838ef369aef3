use vstd::prelude::*;
use crate::bf_types::{CH_CLOSE, CH_OPEN, CH_SUB};
use crate::brackets::{depth, lemma_partner, matched};
use crate::laws::steps::{lemma_clear_loop, moved_to};
use crate::machine::{Config, Signal, Snapshot, act_step, steps};
use crate::ops::{Op, byte_deltas};
use crate::semantics::{byte_act, op_act, source_acts};

verus! {

/// The three bytes of the clear idiom.
pub open spec fn clear_idiom() -> Seq<u8> {
    seq![CH_OPEN, CH_SUB, CH_CLOSE]
}

/// The clear idiom is what it replaces. Run as the loop that it is, from
/// any tape, `[-]` ends after one step and two for each unit of the current
/// cell, with that cell at zero and everything else as it was: which is
/// what the single clear operation leaves.
pub proof fn law_clear_is_loop(input: Seq<u8>, c: Config)
    requires
        c.state.tape.wf(),
        c.state.pc == 0,
    ensures
        steps(source_acts(clear_idiom()), input, c, (2 * c.state.tape.cell() + 1) as nat) == Some(
            moved_to(c, 3, c.state.tape.put(0)),
        ),
        act_step(op_act(seq![Op::Zero], 0), c.state, c.next(input)) == (
            Snapshot { pc: 1, tape: c.state.tape.put(0) },
            Signal::Step,
        ),
{
    let src = clear_idiom();
    let d = byte_deltas(src);
    let f = source_acts(src);
    assert(depth(d, 0) == 0);
    assert(depth(d, 1) == depth(d, 0) + d[0]);
    assert(depth(d, 2) == depth(d, 1) + d[1]);
    assert(depth(d, 3) == depth(d, 2) + d[2]);
    assert(matched(d, 0, 2));
    lemma_partner(d, 0, 2);
    assert(f[0] == byte_act(src, 0));
    assert(f[1] == byte_act(src, 1));
    assert(f[2] == byte_act(src, 2));
    lemma_clear_loop(f, input, c);
}

} // verus!
