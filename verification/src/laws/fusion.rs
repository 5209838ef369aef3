use vstd::prelude::*;
use crate::bf_types::{CH_ADD, CH_LEFT, CH_RIGHT, is_run_byte};
use crate::laws::frontend::lemma_wrap;
use crate::laws::steps::{lemma_bump_cycle, lemma_unit_bumps, lemma_unit_moves, moved_to};
use crate::machine::{Act, Config, Snapshot, act_step, steps};
use crate::ops::{run_ops};
use crate::semantics::{op_act};
use crate::tape::TapeView;

verus! {

/// What one byte of a run does.
pub open spec fn unit_act(ch: u8) -> Act {
    if ch == CH_LEFT {
        Act::Left(1)
    } else if ch == CH_RIGHT {
        Act::Right(1)
    } else if ch == CH_ADD {
        Act::Add(1)
    } else {
        Act::Sub(1)
    }
}

/// The tape after the operation that a run of `n` bytes `ch` is fused
/// into, or the tape itself if the run is fused into nothing.
pub open spec fn fused_tape(ch: u8, n: nat, t: TapeView) -> TapeView {
    let ops = run_ops(ch, n);
    if ops.len() == 0 {
        t
    } else {
        act_step(op_act(ops, 0), Snapshot { pc: 0, tape: t }, None).0.tape
    }
}

/// Fusion is transparent. A run of `n` equal bytes, taken as `n` single
/// operations one after the other, leaves the tape that the one fused
/// operation leaves, however often the cell wraps around on the way.
///
/// For a run of moves this holds where the whole move stays on the tape.
pub proof fn law_fusion_transparent(acts: Seq<Act>, input: Seq<u8>, c: Config, ch: u8, n: nat)
    requires
        is_run_byte(ch),
        1 <= n <= usize::MAX,
        c.state.tape.wf(),
        0 <= c.state.pc,
        c.state.pc + n <= acts.len(),
        forall|k: int| c.state.pc <= k < c.state.pc + n ==> acts[k] == unit_act(ch),
        ch == CH_LEFT ==> c.state.tape.in_range(-(n as int)),
        ch == CH_RIGHT ==> c.state.tape.in_range(n as int),
    ensures
        steps(acts, input, c, n) == Some(
            moved_to(c, c.state.pc + n, fused_tape(ch, n, c.state.tape)),
        ),
{
    let t = c.state.tape;
    if ch == CH_LEFT || ch == CH_RIGHT {
        lemma_unit_moves(acts, input, c, n, ch == CH_RIGHT);
    } else {
        lemma_unit_bumps(acts, input, c, n, ch == CH_ADD);
        lemma_wrap(t.cell(), n as int);
        if n % 256 == 0 {
            lemma_bump_cycle(t, n as int);
            lemma_bump_cycle(t, -(n as int));
        }
    }
}

} // verus!
