use vstd::prelude::*;
use crate::brackets::{balanced, depth, lemma_close_exists, lemma_open_exists, lemma_partner, lemma_verdicts, matched, never_negative, verdict};
use crate::interpreter::interp_6::{clear_from, is_clear_loop, pass_code};
use crate::laws::frontend::lemma_one_step;
use crate::laws::simulate::{lemma_too_little_fuel, sane};
use crate::laws::steps::{lemma_clear_loop, moved_to};
use crate::machine::{Act, Config, Signal, finished, lemma_output_grows, lemma_run_after_steps, lemma_starts_self, lemma_steps_add, run_spec, starts, steps, turn};
use crate::ops::{Op, lex_spec, op_delta, op_deltas};
use crate::semantics::{lexed_code, op_act, ops_acts, run_code_within};

verus! {

/// Position `k` is part of a loop that only subtracts one.
pub open spec fn in_triple(ops: Seq<Op>, k: int) -> bool {
    is_clear_loop(ops, k) || is_clear_loop(ops, k - 1) || is_clear_loop(ops, k - 2)
}

/// Position `k` is inside such a loop, after its open.
pub open spec fn inside(ops: Seq<Op>, k: int) -> bool {
    is_clear_loop(ops, k - 1) || is_clear_loop(ops, k - 2)
}

/// The operation at `k` after the pass.
pub open spec fn cleared_at(ops: Seq<Op>, k: int) -> Op {
    if in_triple(ops, k) {
        Op::Zero
    } else {
        ops[k]
    }
}

/// The pass replaces exactly the operations of the loops that only
/// subtract one, each by a clear.
pub proof fn lemma_cleared_from(ops: Seq<Op>, i: int)
    requires
        0 <= i <= ops.len(),
        !inside(ops, i),
    ensures
        clear_from(ops, i) == Seq::new((ops.len() - i) as nat, |x: int| cleared_at(ops, i + x)),
    decreases ops.len() - i,
{
    let want = Seq::new((ops.len() - i) as nat, |x: int| cleared_at(ops, i + x));
    if i >= ops.len() {
        assert(clear_from(ops, i) =~= want);
    } else if is_clear_loop(ops, i) {
        lemma_cleared_from(ops, i + 3);
        assert(clear_from(ops, i) =~= want);
    } else {
        lemma_cleared_from(ops, i + 1);
        assert(clear_from(ops, i) =~= want);
    }
}

/// The pass keeps the length, and the operations outside the loops it replaces.
pub proof fn lemma_cleared(ops: Seq<Op>)
    ensures
        clear_from(ops, 0).len() == ops.len(),
        forall|k: int| 0 <= k < ops.len() ==> #[trigger] clear_from(ops, 0)[k] == cleared_at(ops, k),
{
    lemma_cleared_from(ops, 0);
}

/// After the pass the depth is what it was, but for the inside of the loops
/// that are gone.
pub proof fn lemma_cleared_depth(ops: Seq<Op>, k: int)
    requires
        0 <= k <= ops.len(),
    ensures
        depth(op_deltas(clear_from(ops, 0)), k) == depth(op_deltas(ops), k) - if inside(ops, k) {
            1int
        } else {
            0int
        },
    decreases k,
{
    lemma_cleared(ops);
    if k > 0 {
        lemma_cleared_depth(ops, k - 1);
        let out = clear_from(ops, 0);
        assert(op_deltas(out)[k - 1] == op_delta(out[k - 1]));
        assert(op_deltas(ops)[k - 1] == op_delta(ops[k - 1]));
        assert(out[k - 1] == cleared_at(ops, k - 1));
    }
}

/// The pass keeps the loops balanced or not, and what is wrong first.
pub proof fn lemma_cleared_verdict(ops: Seq<Op>)
    ensures
        verdict(op_deltas(clear_from(ops, 0))) == verdict(op_deltas(ops)),
{
    let out = clear_from(ops, 0);
    let d = op_deltas(ops);
    let e = op_deltas(out);
    let n = ops.len() as int;
    lemma_cleared(ops);
    lemma_verdicts(d);
    lemma_verdicts(e);
    lemma_cleared_depth(ops, n);
    if never_negative(d, n) {
        assert forall|k: int| 0 <= k <= n implies #[trigger] depth(e, k) >= 0 by {
            lemma_cleared_depth(ops, k);
            if is_clear_loop(ops, k - 1) {
                assert(depth(d, k) == depth(d, k - 1) + d[k - 1]);
                assert(depth(d, k - 1) >= 0);
            } else if is_clear_loop(ops, k - 2) {
                assert(depth(d, k) == depth(d, k - 1) + d[k - 1]);
                assert(depth(d, k - 1) == depth(d, k - 2) + d[k - 2]);
                assert(depth(d, k - 2) >= 0);
            }
        }
    }
    if never_negative(e, n) {
        assert forall|k: int| 0 <= k <= n implies #[trigger] depth(d, k) >= 0 by {
            lemma_cleared_depth(ops, k);
            assert(depth(e, k) >= 0);
        }
    }
}

/// A loop that the pass leaves alone is the same loop afterwards.
pub proof fn lemma_cleared_matched(ops: Seq<Op>, i: int, j: int)
    requires
        matched(op_deltas(ops), i, j),
        !in_triple(ops, i),
    ensures
        matched(op_deltas(clear_from(ops, 0)), i, j),
        !in_triple(ops, j),
{
    let out = clear_from(ops, 0);
    let d = op_deltas(ops);
    let e = op_deltas(out);
    lemma_cleared(ops);
    assert(d[i] == op_delta(ops[i]));
    assert(d[j] == op_delta(ops[j]));
    assert(ops[i] is LBrack);
    assert(ops[j] is RBrack);
    if is_clear_loop(ops, j - 2) {
        assert(depth(d, j - 1) == depth(d, j - 2) + d[j - 2]);
        assert(depth(d, j) == depth(d, j - 1) + d[j - 1]);
        assert(depth(d, j + 1) == depth(d, j) + d[j]);
        assert(d[j - 2] == op_delta(ops[j - 2]));
        assert(d[j - 1] == op_delta(ops[j - 1]));
        assert(i < j - 2);
        assert(depth(d, j - 2) > depth(d, i));
    }
    assert(!in_triple(ops, j));
    assert(e[i] == op_delta(out[i]));
    assert(e[j] == op_delta(out[j]));
    lemma_cleared_depth(ops, i);
    lemma_cleared_depth(ops, j + 1);
    assert forall|k: int| i < k <= j implies #[trigger] depth(e, k) > depth(e, i) by {
        lemma_cleared_depth(ops, k);
        if is_clear_loop(ops, k - 1) {
            assert(depth(d, k) == depth(d, k - 1) + d[k - 1]);
            assert(d[k - 1] == op_delta(ops[k - 1]));
            assert(depth(d, k - 1) > depth(d, i));
        } else if is_clear_loop(ops, k - 2) {
            assert(depth(d, k) == depth(d, k - 1) + d[k - 1]);
            assert(depth(d, k - 1) == depth(d, k - 2) + d[k - 2]);
            assert(d[k - 1] == op_delta(ops[k - 1]));
            assert(d[k - 2] == op_delta(ops[k - 2]));
            assert(depth(d, k - 2) > depth(d, i));
        }
    }
}

/// Outside the loops that the pass replaces, every position means after the
/// pass what it meant before.
pub proof fn lemma_cleared_act(ops: Seq<Op>, k: int)
    requires
        balanced(op_deltas(ops)),
        0 <= k < ops.len(),
        !in_triple(ops, k),
    ensures
        ops_acts(clear_from(ops, 0))[k] == ops_acts(ops)[k],
        match ops_acts(ops)[k] {
            Act::IfZero(t) => 0 < t <= ops.len() && !inside(ops, t),
            Act::IfNonZero(t) => 0 < t <= ops.len() && !inside(ops, t),
            _ => true,
        },
{
    let out = clear_from(ops, 0);
    let d = op_deltas(ops);
    let e = op_deltas(out);
    lemma_cleared(ops);
    assert(out[k] == ops[k]);
    assert(d[k] == op_delta(ops[k]));
    match ops[k] {
        Op::LBrack(_) => {
            let j = lemma_close_exists(d, k);
            lemma_partner(d, k, j);
            lemma_cleared_matched(ops, k, j);
            lemma_partner(e, k, j);
            assert(d[j] == op_delta(ops[j]));
        },
        Op::RBrack(_) => {
            let i = lemma_open_exists(d, k);
            lemma_partner(d, i, k);
            assert(d[i] == op_delta(ops[i]));
            assert(ops[i] is LBrack);
            if in_triple(ops, i) {
                assert(is_clear_loop(ops, i));
                assert(depth(d, i + 1) == depth(d, i) + d[i]);
                assert(depth(d, i + 2) == depth(d, i + 1) + d[i + 1]);
                assert(depth(d, i + 3) == depth(d, i + 2) + d[i + 2]);
                assert(d[i + 1] == op_delta(ops[i + 1]));
                assert(d[i + 2] == op_delta(ops[i + 2]));
                if k > i + 2 {
                    assert(depth(d, i + 3) > depth(d, i));
                }
            }
            lemma_cleared_matched(ops, i, k);
            lemma_partner(e, i, k);
        },
        _ => {},
    }
}

/// A configuration that is not inside a loop that the pass replaces.
pub open spec fn outside(ops: Seq<Op>, c: Config) -> bool {
    sane(c, ops.len() as int) && !inside(ops, c.state.pc)
}

/// Three clears in a row leave what one leaves.
pub proof fn lemma_three_clears(acts: Seq<Act>, input: Seq<u8>, c: Config)
    requires
        0 <= c.state.pc,
        c.state.pc + 3 <= acts.len(),
        c.state.tape.wf(),
        acts[c.state.pc] == Act::Clear,
        acts[c.state.pc + 1] == Act::Clear,
        acts[c.state.pc + 2] == Act::Clear,
    ensures
        steps(acts, input, c, 3) == Some(moved_to(c, c.state.pc + 3, c.state.tape.put(0))),
{
    let t = c.state.tape.put(0);
    let p = c.state.pc;
    let c1 = moved_to(c, p + 1, t);
    let c2 = moved_to(c, p + 2, t);
    let c3 = moved_to(c, p + 3, t);
    assert(t.put(0).cells =~= t.cells);
    lemma_one_step(acts, input, c);
    lemma_one_step(acts, input, c1);
    lemma_one_step(acts, input, c2);
    assert(steps(acts, input, c, 1) == Some(c1));
    assert(steps(acts, input, c1, 1) == Some(c2));
    assert(steps(acts, input, c2, 1) == Some(c3));
    lemma_steps_add(acts, input, c, 1, 1);
    lemma_steps_add(acts, input, c, 2, 1);
}

/// The loop that the pass replaces, run as a loop, leaves what the three
/// clears leave.
pub proof fn lemma_triple_loop(ops: Seq<Op>, input: Seq<u8>, c: Config)
    requires
        outside(ops, c),
        is_clear_loop(ops, c.state.pc),
    ensures
        steps(ops_acts(ops), input, c, (2 * c.state.tape.cell() + 1) as nat) == Some(
            moved_to(c, c.state.pc + 3, c.state.tape.put(0)),
        ),
        steps(ops_acts(clear_from(ops, 0)), input, c, 3) == Some(
            moved_to(c, c.state.pc + 3, c.state.tape.put(0)),
        ),
        outside(ops, moved_to(c, c.state.pc + 3, c.state.tape.put(0))),
{
    let d = op_deltas(ops);
    let p = c.state.pc;
    let a = ops_acts(ops);
    let b = ops_acts(clear_from(ops, 0));
    lemma_cleared(ops);
    assert(d[p] == op_delta(ops[p]));
    assert(d[p + 1] == op_delta(ops[p + 1]));
    assert(d[p + 2] == op_delta(ops[p + 2]));
    assert(depth(d, p + 1) == depth(d, p) + d[p]);
    assert(depth(d, p + 2) == depth(d, p + 1) + d[p + 1]);
    assert(depth(d, p + 3) == depth(d, p + 2) + d[p + 2]);
    assert(matched(d, p, p + 2));
    lemma_partner(d, p, p + 2);
    assert(a[p] == op_act(ops, p));
    assert(a[p + 1] == op_act(ops, p + 1));
    assert(a[p + 2] == op_act(ops, p + 2));
    lemma_clear_loop(a, input, c);
    assert(b[p] == op_act(clear_from(ops, 0), p));
    assert(b[p + 1] == op_act(clear_from(ops, 0), p + 1));
    assert(b[p + 2] == op_act(clear_from(ops, 0), p + 2));
    lemma_three_clears(b, input, c);
}

/// A run of the operations after the pass that comes to an end is matched
/// by a run of the operations before it that ends in the same configuration.
pub proof fn lemma_pass_forward(ops: Seq<Op>, input: Seq<u8>, c: Config, fuel: nat) -> (ff: nat)
    requires
        balanced(op_deltas(ops)),
        outside(ops, c),
        finished(run_spec(ops_acts(clear_from(ops, 0)), input, c, fuel)),
    ensures
        finished(run_spec(ops_acts(ops), input, c, ff)),
        run_spec(ops_acts(ops), input, c, ff) == run_spec(
            ops_acts(clear_from(ops, 0)),
            input,
            c,
            fuel,
        ),
    decreases fuel,
{
    let a = ops_acts(ops);
    let b = ops_acts(clear_from(ops, 0));
    let p = c.state.pc;
    lemma_cleared(ops);
    if p >= ops.len() {
        0
    } else if is_clear_loop(ops, p) {
        lemma_triple_loop(ops, input, c);
        let c2 = moved_to(c, p + 3, c.state.tape.put(0));
        let m = (2 * c.state.tape.cell() + 1) as nat;
        if fuel < 3 {
            lemma_too_little_fuel(b, input, c, 3, fuel);
        }
        lemma_run_after_steps(b, input, c, 3, (fuel - 3) as nat);
        let rest = lemma_pass_forward(ops, input, c2, (fuel - 3) as nat);
        lemma_run_after_steps(a, input, c, m, rest);
        (m + rest) as nat
    } else {
        lemma_cleared_act(ops, p);
        assert(!(a[p] is Stop));
        let (s, sig) = turn(a, input, c);
        match sig {
            Signal::Fault(e) => 1,
            _ => {
                let c2 = c.advance(s, sig);
                assert(outside(ops, c2));
                let rest = lemma_pass_forward(ops, input, c2, (fuel - 1) as nat);
                (1 + rest) as nat
            },
        }
    }
}

/// If the run of the operations before the pass comes to an end, so does
/// the run of the operations after it.
pub proof fn lemma_pass_backward(ops: Seq<Op>, input: Seq<u8>, c: Config, ff: nat) -> (fuel: nat)
    requires
        balanced(op_deltas(ops)),
        outside(ops, c),
        finished(run_spec(ops_acts(ops), input, c, ff)),
    ensures
        finished(run_spec(ops_acts(clear_from(ops, 0)), input, c, fuel)),
    decreases ff,
{
    let a = ops_acts(ops);
    let b = ops_acts(clear_from(ops, 0));
    let p = c.state.pc;
    lemma_cleared(ops);
    if p >= ops.len() {
        0
    } else if is_clear_loop(ops, p) {
        lemma_triple_loop(ops, input, c);
        let c2 = moved_to(c, p + 3, c.state.tape.put(0));
        let m = (2 * c.state.tape.cell() + 1) as nat;
        if ff < m {
            lemma_too_little_fuel(a, input, c, m, ff);
        }
        lemma_run_after_steps(a, input, c, m, (ff - m) as nat);
        let rest = lemma_pass_backward(ops, input, c2, (ff - m) as nat);
        lemma_run_after_steps(b, input, c, 3, rest);
        (3 + rest) as nat
    } else {
        lemma_cleared_act(ops, p);
        assert(!(a[p] is Stop));
        let (s, sig) = turn(a, input, c);
        match sig {
            Signal::Fault(e) => 1,
            _ => {
                let c2 = c.advance(s, sig);
                assert(outside(ops, c2));
                let rest = lemma_pass_backward(ops, input, c2, (ff - 1) as nat);
                (1 + rest) as nat
            },
        }
    }
}

/// A run of the three-pass interpreter that comes to an end is matched by a
/// run of the fused operations that ends in the same configuration.
pub proof fn lemma_pass_to_lexed(src: Seq<u8>, input: Seq<u8>, room: Option<nat>, fuel: nat) -> (ff: nat)
    requires
        finished(run_code_within(pass_code(src), input, room, fuel)),
    ensures
        finished(run_code_within(lexed_code(src, true, false), input, room, ff)),
        run_code_within(lexed_code(src, true, false), input, room, ff) == run_code_within(pass_code(src), input, room, fuel),
{
    let ops = lex_spec(src, true, false);
    lemma_cleared_verdict(ops);
    lemma_verdicts(op_deltas(ops));
    if balanced(op_deltas(ops)) {
        lemma_pass_forward(ops, input, Config::start_within(room), fuel)
    } else {
        0
    }
}

/// A run of the fused operations that comes to an end is matched by a run
/// of the three-pass interpreter that comes to an end.
pub proof fn lemma_lexed_to_pass(src: Seq<u8>, input: Seq<u8>, room: Option<nat>, ff: nat) -> (fuel: nat)
    requires
        finished(run_code_within(lexed_code(src, true, false), input, room, ff)),
    ensures
        finished(run_code_within(pass_code(src), input, room, fuel)),
{
    let ops = lex_spec(src, true, false);
    lemma_cleared_verdict(ops);
    lemma_verdicts(op_deltas(ops));
    if balanced(op_deltas(ops)) {
        lemma_pass_backward(ops, input, Config::start_within(room), ff)
    } else {
        0
    }
}

/// What the run after the pass has written, the run before it has written
/// too, after enough steps.
pub proof fn lemma_pass_forward_start(ops: Seq<Op>, input: Seq<u8>, c: Config, fuel: nat) -> (ff: nat)
    requires
        balanced(op_deltas(ops)),
        outside(ops, c),
    ensures
        starts(
            run_spec(ops_acts(clear_from(ops, 0)), input, c, fuel).0.out,
            run_spec(ops_acts(ops), input, c, ff).0.out,
        ),
    decreases fuel,
{
    let a = ops_acts(ops);
    let b = ops_acts(clear_from(ops, 0));
    let p = c.state.pc;
    lemma_cleared(ops);
    lemma_starts_self(c.out);
    if p >= ops.len() || fuel == 0 {
        0
    } else if is_clear_loop(ops, p) {
        lemma_triple_loop(ops, input, c);
        let c2 = moved_to(c, p + 3, c.state.tape.put(0));
        let m = (2 * c.state.tape.cell() + 1) as nat;
        if fuel < 3 {
            lemma_output_grows(b, input, c, fuel, (3 - fuel) as nat);
            lemma_run_after_steps(b, input, c, 3, 0);
            0
        } else {
            lemma_run_after_steps(b, input, c, 3, (fuel - 3) as nat);
            let rest = lemma_pass_forward_start(ops, input, c2, (fuel - 3) as nat);
            lemma_run_after_steps(a, input, c, m, rest);
            (m + rest) as nat
        }
    } else {
        lemma_cleared_act(ops, p);
        assert(!(a[p] is Stop));
        let (s, sig) = turn(a, input, c);
        match sig {
            Signal::Fault(e) => 0,
            _ => {
                let c2 = c.advance(s, sig);
                assert(outside(ops, c2));
                let rest = lemma_pass_forward_start(ops, input, c2, (fuel - 1) as nat);
                (1 + rest) as nat
            },
        }
    }
}

/// What the run before the pass has written, the run after it has written
/// too, after enough steps.
pub proof fn lemma_pass_backward_start(ops: Seq<Op>, input: Seq<u8>, c: Config, ff: nat) -> (fuel: nat)
    requires
        balanced(op_deltas(ops)),
        outside(ops, c),
    ensures
        starts(
            run_spec(ops_acts(ops), input, c, ff).0.out,
            run_spec(ops_acts(clear_from(ops, 0)), input, c, fuel).0.out,
        ),
    decreases ff,
{
    let a = ops_acts(ops);
    let b = ops_acts(clear_from(ops, 0));
    let p = c.state.pc;
    lemma_cleared(ops);
    lemma_starts_self(c.out);
    if p >= ops.len() || ff == 0 {
        0
    } else if is_clear_loop(ops, p) {
        lemma_triple_loop(ops, input, c);
        let c2 = moved_to(c, p + 3, c.state.tape.put(0));
        let m = (2 * c.state.tape.cell() + 1) as nat;
        if ff < m {
            lemma_output_grows(a, input, c, ff, (m - ff) as nat);
            lemma_run_after_steps(a, input, c, m, 0);
            0
        } else {
            lemma_run_after_steps(a, input, c, m, (ff - m) as nat);
            let rest = lemma_pass_backward_start(ops, input, c2, (ff - m) as nat);
            lemma_run_after_steps(b, input, c, 3, rest);
            (3 + rest) as nat
        }
    } else {
        lemma_cleared_act(ops, p);
        assert(!(a[p] is Stop));
        let (s, sig) = turn(a, input, c);
        match sig {
            Signal::Fault(e) => 0,
            _ => {
                let c2 = c.advance(s, sig);
                assert(outside(ops, c2));
                let rest = lemma_pass_backward_start(ops, input, c2, (ff - 1) as nat);
                (1 + rest) as nat
            },
        }
    }
}

/// What the three-pass interpreter has written, the run of the fused
/// operations has written too, after enough steps.
pub proof fn lemma_pass_to_lexed_start(src: Seq<u8>, input: Seq<u8>, room: Option<nat>, fuel: nat) -> (ff: nat)
    ensures
        starts(
            run_code_within(pass_code(src), input, room, fuel).0.out,
            run_code_within(lexed_code(src, true, false), input, room, ff).0.out,
        ),
{
    let ops = lex_spec(src, true, false);
    lemma_cleared_verdict(ops);
    lemma_verdicts(op_deltas(ops));
    if balanced(op_deltas(ops)) {
        lemma_pass_forward_start(ops, input, Config::start_within(room), fuel)
    } else {
        lemma_starts_self(Config::start_within(room).out);
        0
    }
}

/// What the run of the fused operations has written, the three-pass
/// interpreter has written too, after enough steps.
pub proof fn lemma_lexed_to_pass_start(src: Seq<u8>, input: Seq<u8>, room: Option<nat>, ff: nat) -> (fuel: nat)
    ensures
        starts(
            run_code_within(lexed_code(src, true, false), input, room, ff).0.out,
            run_code_within(pass_code(src), input, room, fuel).0.out,
        ),
{
    let ops = lex_spec(src, true, false);
    lemma_cleared_verdict(ops);
    lemma_verdicts(op_deltas(ops));
    if balanced(op_deltas(ops)) {
        lemma_pass_backward_start(ops, input, Config::start_within(room), ff)
    } else {
        lemma_starts_self(Config::start_within(room).out);
        0
    }
}

} // verus!
