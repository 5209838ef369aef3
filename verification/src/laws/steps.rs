use vstd::prelude::*;
use crate::machine::{Act, Config, Snapshot, steps, turn};
use crate::tape::{TapeView, sub_wrap};

verus! {

/// The configuration `c` at another position and with another tape.
pub open spec fn moved_to(c: Config, pc: int, tape: TapeView) -> Config {
    Config { state: Snapshot { pc, tape }, taken: c.taken, out: c.out, limit: c.limit }
}

/// The tape with `by` added to the current cell, wrapping at 256 in either
/// direction.
pub open spec fn bump(t: TapeView, by: int) -> TapeView {
    t.put(((t.cell() + by) % 256) as u8)
}

/// Adding a multiple of 256 changes nothing.
pub proof fn lemma_bump_cycle(t: TapeView, by: int)
    requires
        t.wf(),
        by % 256 == 0,
    ensures
        bump(t, by) == t,
{
    assert(bump(t, by).cells =~= t.cells);
}

/// `n` positions that each do nothing are passed in `n` steps.
pub proof fn lemma_skips(acts: Seq<Act>, input: Seq<u8>, c: Config, n: nat)
    requires
        0 <= c.state.pc,
        c.state.pc + n <= acts.len(),
        forall|k: int| c.state.pc <= k < c.state.pc + n ==> acts[k] == Act::Skip,
    ensures
        steps(acts, input, c, n) == Some(moved_to(c, c.state.pc + n, c.state.tape)),
    decreases n,
{
    if n > 0 {
        let (s, sig) = turn(acts, input, c);
        assert(acts[c.state.pc] == Act::Skip);
        lemma_skips(acts, input, c.advance(s, sig), (n - 1) as nat);
    }
}

/// `n` single increments, or decrements, taken one at a time, change the
/// current cell by `n` modulo 256 and nothing else.
pub proof fn lemma_unit_bumps(acts: Seq<Act>, input: Seq<u8>, c: Config, n: nat, up: bool)
    requires
        c.state.tape.wf(),
        0 <= c.state.pc,
        c.state.pc + n <= acts.len(),
        forall|k: int|
            c.state.pc <= k < c.state.pc + n ==> acts[k] == if up {
                Act::Add(1)
            } else {
                Act::Sub(1)
            },
    ensures
        steps(acts, input, c, n) == Some(
            moved_to(
                c,
                c.state.pc + n,
                bump(
                    c.state.tape,
                    if up {
                        n as int
                    } else {
                        -(n as int)
                    },
                ),
            ),
        ),
    decreases n,
{
    let t = c.state.tape;
    if n == 0 {
        lemma_bump_cycle(t, 0);
    } else {
        let (s, sig) = turn(acts, input, c);
        let c1 = c.advance(s, sig);
        assert(acts[c.state.pc] == if up {
            Act::Add(1)
        } else {
            Act::Sub(1)
        });
        lemma_unit_bumps(acts, input, c1, (n - 1) as nat, up);
        let by1: int = if up {
            1
        } else {
            -1
        };
        let rest: int = if up {
            n - 1
        } else {
            -(n - 1)
        };
        assert(c1.state.tape == bump(t, by1));
        assert(bump(bump(t, by1), rest).cells =~= bump(t, by1 + rest).cells);
    }
}

/// `n` single moves in one direction, taken one at a time, move the pointer
/// by `n` if the tape reaches that far.
pub proof fn lemma_unit_moves(acts: Seq<Act>, input: Seq<u8>, c: Config, n: nat, forward: bool)
    requires
        c.state.tape.wf(),
        0 <= c.state.pc,
        c.state.pc + n <= acts.len(),
        forall|k: int|
            c.state.pc <= k < c.state.pc + n ==> acts[k] == if forward {
                Act::Right(1)
            } else {
                Act::Left(1)
            },
        c.state.tape.in_range(
            if forward {
                n as int
            } else {
                -(n as int)
            },
        ),
    ensures
        steps(acts, input, c, n) == Some(
            moved_to(
                c,
                c.state.pc + n,
                c.state.tape.shift(
                    if forward {
                        n as int
                    } else {
                        -(n as int)
                    },
                ),
            ),
        ),
    decreases n,
{
    let t = c.state.tape;
    if n == 0 {
        assert(t.shift(0) == t);
    } else {
        let (s, sig) = turn(acts, input, c);
        let c1 = c.advance(s, sig);
        assert(acts[c.state.pc] == if forward {
            Act::Right(1)
        } else {
            Act::Left(1)
        });
        lemma_unit_moves(acts, input, c1, (n - 1) as nat, forward);
    }
}

/// The loop `[-]` at `p`, entered after its open with a cell that is not
/// zero, leaves through its close with the cell at zero after two steps for
/// each unit of the cell.
pub proof fn lemma_clear_rounds(acts: Seq<Act>, input: Seq<u8>, c: Config, p: int)
    requires
        c.state.tape.wf(),
        0 <= p,
        p + 3 <= acts.len(),
        acts[p + 1] == Act::Sub(1),
        acts[p + 2] == Act::IfNonZero(p + 1),
        c.state.pc == p + 1,
        c.state.tape.cell() >= 1,
    ensures
        steps(acts, input, c, (2 * c.state.tape.cell()) as nat) == Some(
            moved_to(c, p + 3, c.state.tape.put(0)),
        ),
    decreases c.state.tape.cell(),
{
    let t = c.state.tape;
    let v = t.cell();
    let (s1, sig1) = turn(acts, input, c);
    let c1 = c.advance(s1, sig1);
    let (s2, sig2) = turn(acts, input, c1);
    let c2 = c1.advance(s2, sig2);
    assert(c1 == moved_to(c, p + 2, t.put(sub_wrap(v, 1))));
    assert(sub_wrap(v, 1) == v - 1);
    assert(steps(acts, input, c, (2 * v) as nat) == steps(acts, input, c1, (2 * v - 1) as nat));
    assert(steps(acts, input, c1, (2 * v - 1) as nat) == steps(acts, input, c2, (2 * v - 2) as nat));
    if v == 1 {
        assert(c2 == moved_to(c, p + 3, t.put(0)));
    } else {
        assert(c2 == moved_to(c, p + 1, t.put((v - 1) as u8)));
        lemma_clear_rounds(acts, input, c2, p);
        assert(t.put((v - 1) as u8).put(0).cells =~= t.put(0).cells);
    }
}

/// The loop `[-]`, entered at its open, is left with the cell at zero and
/// everything else as it was, after one step and two for each unit of the cell.
pub proof fn lemma_clear_loop(acts: Seq<Act>, input: Seq<u8>, c: Config)
    requires
        c.state.tape.wf(),
        0 <= c.state.pc,
        c.state.pc + 3 <= acts.len(),
        acts[c.state.pc] == Act::IfZero(c.state.pc + 3),
        acts[c.state.pc + 1] == Act::Sub(1),
        acts[c.state.pc + 2] == Act::IfNonZero(c.state.pc + 1),
    ensures
        steps(acts, input, c, (2 * c.state.tape.cell() + 1) as nat) == Some(
            moved_to(c, c.state.pc + 3, c.state.tape.put(0)),
        ),
{
    let t = c.state.tape;
    let v = t.cell();
    let p = c.state.pc;
    let (s1, sig1) = turn(acts, input, c);
    let c1 = c.advance(s1, sig1);
    assert(steps(acts, input, c, (2 * v + 1) as nat) == steps(acts, input, c1, (2 * v) as nat));
    if v == 0 {
        assert(t.put(0).cells =~= t.cells);
        assert(c1 == moved_to(c, p + 3, t.put(0)));
    } else {
        assert(c1 == moved_to(c, p + 1, t));
        lemma_clear_rounds(acts, input, c1, p);
    }
}

} // verus!
