use vstd::prelude::*;
use crate::brackets::{balanced, is_delta_seq, lemma_close_exists, lemma_close_unique, lemma_open_exists, lemma_partner, matched};
use crate::errors::RunError;
use crate::jit::image::{plan_act, plan_acts};
use crate::jit::plan::{Instr, body, head_of, lemma_moves_plain, moves, piece, plan_spec, rank, tail_of};
use crate::laws::frontend::{lemma_mirror_fault, lemma_mirror_step, lemma_one_step};
use crate::laws::simulate::{faults_after, halts_after, lift, mirrored, sane, simulates};
use crate::laws::steps::moved_to;
use crate::machine::{Act, Config, Signal, halted, lemma_steps_add, steps, turn};
use crate::ops::{Op, op_delta, op_deltas};
use crate::semantics::{op_act, ops_acts};

verus! {

/// Where in the plan the commands of operation `k` start.
pub open spec fn ppos(ops: Seq<Op>, k: int, limit: nat) -> int {
    1 + body(ops, k, limit).len() as int
}

/// Where in the plan each operation starts, with the place of the leave for
/// the position after the last.
pub open spec fn plan_map(ops: Seq<Op>, limit: nat) -> Seq<int> {
    Seq::new(ops.len() + 1, |k: int| ppos(ops, k, limit))
}

/// No move is by zero cells.
pub open spec fn moves_positive(ops: Seq<Op>) -> bool {
    forall|k: int|
        0 <= k < ops.len() ==> match #[trigger] ops[k] {
            Op::Left(n) => n >= 1,
            Op::Right(n) => n >= 1,
            _ => true,
        }
}

/// What a move command does.
pub open spec fn move_act(x: Instr) -> Act {
    match x {
        Instr::Retreat(c) => Act::Left(c as int),
        Instr::Advance(c) => Act::Right(c as int),
        _ => Act::Skip,
    }
}

/// The commands of the first operations stay where they are when more follow.
pub proof fn lemma_body_grows(ops: Seq<Op>, k: int, n: int, limit: nat)
    requires
        0 <= k <= n,
    ensures
        body(ops, k, limit).len() <= body(ops, n, limit).len(),
        forall|x: int|
            0 <= x < body(ops, k, limit).len() ==> #[trigger] body(ops, n, limit)[x] == body(
                ops,
                k,
                limit,
            )[x],
    decreases n - k,
{
    if k < n {
        lemma_body_grows(ops, k, n - 1, limit);
    }
}

/// The plan holds the commands of operation `k` from `ppos(k)` on.
pub proof fn lemma_plan_at(ops: Seq<Op>, k: int, j: int, limit: nat)
    requires
        0 <= k < ops.len(),
        0 <= j < piece(ops, k, limit).len(),
    ensures
        0 < ppos(ops, k, limit) + j < plan_spec(ops, limit).len() - 1,
        plan_spec(ops, limit)[ppos(ops, k, limit) + j] == piece(ops, k, limit)[j],
        ppos(ops, k + 1, limit) == ppos(ops, k, limit) + piece(ops, k, limit).len(),
        plan_acts(plan_spec(ops, limit))[ppos(ops, k, limit) + j] == plan_act(
            plan_spec(ops, limit),
            ppos(ops, k, limit) + j,
        ),
{
    let n = ops.len() as int;
    lemma_body_grows(ops, k + 1, n, limit);
    let x = body(ops, k, limit).len() + j;
    assert(body(ops, k + 1, limit) == body(ops, k, limit) + piece(ops, k, limit));
    assert(body(ops, n, limit)[x] == body(ops, k + 1, limit)[x]);
}

/// The ends of the plan.
pub proof fn lemma_plan_ends(ops: Seq<Op>, limit: nat)
    ensures
        plan_spec(ops, limit).len() == body(ops, ops.len() as int, limit).len() + 2,
        plan_spec(ops, limit)[0] == Instr::Enter,
        plan_spec(ops, limit)[plan_spec(ops, limit).len() - 1] == Instr::Leave,
        ppos(ops, ops.len() as int, limit) == plan_spec(ops, limit).len() - 1,
        ppos(ops, 0, limit) == 1,
{
}

/// Every place of the plan between the entry and the leave belongs to an
/// operation.
pub proof fn lemma_locate(ops: Seq<Op>, p: int, n: int, limit: nat) -> (r: (int, int))
    requires
        0 <= n <= ops.len(),
        1 <= p < ppos(ops, n, limit),
    ensures
        0 <= r.0 < n,
        0 <= r.1 < piece(ops, r.0, limit).len(),
        p == ppos(ops, r.0, limit) + r.1,
    decreases n,
{
    assert(n > 0);
    if p >= ppos(ops, n - 1, limit) {
        (n - 1, p - ppos(ops, n - 1, limit))
    } else {
        lemma_locate(ops, p, n - 1, limit)
    }
}

/// Loops get their numbers in the order in which they open.
pub proof fn lemma_rank_strict(d: Seq<int>, i1: int, i2: int)
    requires
        0 <= i1 < i2,
        d[i1] == 1,
    ensures
        rank(d, i1) < rank(d, i2),
    decreases i2 - i1,
{
    if i1 + 1 < i2 {
        lemma_rank_strict(d, i1, i2 - 1);
    }
}

/// A loop number is at most the number of operations before the loop.
pub proof fn lemma_rank_bound(d: Seq<int>, k: int)
    requires
        0 <= k,
    ensures
        rank(d, k) <= k,
    decreases k,
{
    if k > 0 {
        lemma_rank_bound(d, k - 1);
    }
}

/// The head and the tail of a loop are in the plan where the loop's
/// delimiters have their commands, and nowhere else.
pub proof fn lemma_loop_places(ops: Seq<Op>, limit: nat, i: int, j: int)
    requires
        ops.len() <= usize::MAX,
        balanced(op_deltas(ops)),
        matched(op_deltas(ops), i, j),
    ensures
        head_of(plan_spec(ops, limit), rank(op_deltas(ops), i) as int) == ppos(ops, i, limit),
        tail_of(plan_spec(ops, limit), rank(op_deltas(ops), i) as int) == ppos(ops, j, limit),
        piece(ops, i, limit) == seq![Instr::LoopHead(rank(op_deltas(ops), i) as usize)],
        piece(ops, j, limit) == seq![Instr::LoopTail(rank(op_deltas(ops), i) as usize)],
{
    let e = op_deltas(ops);
    let plan = plan_spec(ops, limit);
    let id = rank(e, i);
    lemma_partner(e, i, j);
    lemma_rank_bound(e, i);
    assert(e[i] == op_delta(ops[i]));
    assert(e[j] == op_delta(ops[j]));
    assert(ops[i] is LBrack);
    assert(ops[j] is RBrack);
    lemma_plan_at(ops, i, 0, limit);
    lemma_plan_at(ops, j, 0, limit);
    lemma_plan_ends(ops, limit);
    let h = head_of(plan, id as int);
    let t = tail_of(plan, id as int);
    assert(plan[h] == Instr::LoopHead(id as usize));
    assert(plan[t] == Instr::LoopTail(id as usize));
    let (hk, hj) = lemma_locate(ops, h, ops.len() as int, limit);
    lemma_plan_at(ops, hk, hj, limit);
    lemma_piece_kinds(ops, hk, limit);
    assert(ops[hk] is LBrack);
    lemma_rank_bound(e, hk);
    assert(e[hk] == op_delta(ops[hk]));
    if hk < i {
        lemma_rank_strict(e, hk, i);
    } else if i < hk {
        lemma_rank_strict(e, i, hk);
    }
    let (tk, tj) = lemma_locate(ops, t, ops.len() as int, limit);
    lemma_plan_at(ops, tk, tj, limit);
    lemma_piece_kinds(ops, tk, limit);
    assert(ops[tk] is RBrack);
    assert(e[tk] == op_delta(ops[tk]));
    let ti = lemma_open_exists(e, tk);
    lemma_partner(e, ti, tk);
    lemma_rank_bound(e, ti);
    if ti < i {
        lemma_rank_strict(e, ti, i);
    } else if i < ti {
        lemma_rank_strict(e, i, ti);
    }
    lemma_close_unique(e, i, j, tk);
}

/// Only a loop open has a head among its commands, and only a loop close a
/// tail; each has one command.
pub proof fn lemma_piece_kinds(ops: Seq<Op>, k: int, limit: nat)
    requires
        0 <= k < ops.len(),
    ensures
        forall|j: int|
            0 <= j < piece(ops, k, limit).len() ==> (#[trigger] piece(ops, k, limit)[j] is LoopHead
                ==> ops[k] is LBrack && j == 0) && (piece(ops, k, limit)[j] is LoopTail ==> ops[k] is RBrack
                && j == 0) && !(piece(ops, k, limit)[j] is Enter) && !(piece(ops, k, limit)[j] is Leave),
        is_delta_seq(op_deltas(ops)),
{
    match ops[k] {
        Op::Left(n) => {
            lemma_moves_plain(false, n as nat, limit);
        },
        Op::Right(n) => {
            lemma_moves_plain(true, n as nat, limit);
        },
        _ => {},
    }
}

/// The commands of a move that stays on the tape move the pointer by the
/// whole amount.
pub proof fn lemma_chunks_run(
    fine: Seq<Act>,
    input: Seq<u8>,
    fc: Config,
    n: nat,
    limit: nat,
    forward: bool,
)
    requires
        fc.state.tape.wf(),
        0 <= fc.state.pc,
        1 <= limit <= u32::MAX,
        fc.state.pc + moves(forward, n, limit).len() <= fine.len(),
        forall|j: int|
            0 <= j < moves(forward, n, limit).len() ==> fine[fc.state.pc + j] == move_act(
                #[trigger] moves(forward, n, limit)[j],
            ),
        fc.state.tape.in_range(
            if forward {
                n as int
            } else {
                -(n as int)
            },
        ),
    ensures
        steps(fine, input, fc, moves(forward, n, limit).len()) == Some(
            moved_to(
                fc,
                fc.state.pc + moves(forward, n, limit).len(),
                fc.state.tape.shift(
                    if forward {
                        n as int
                    } else {
                        -(n as int)
                    },
                ),
            ),
        ),
        n >= 1 ==> moves(forward, n, limit).len() >= 1,
    decreases n,
{
    let t = fc.state.tape;
    if n == 0 {
        assert(t.shift(0) == t);
    } else {
        let c = if n <= limit {
            n
        } else {
            limit
        };
        let all = moves(forward, n, limit);
        let rest = moves(forward, (n - c) as nat, limit);
        assert(all.len() == 1 + rest.len());
        assert(fine[fc.state.pc + 0] == move_act(all[0]));
        let by: int = if forward {
            c as int
        } else {
            -(c as int)
        };
        let fc1 = moved_to(fc, fc.state.pc + 1, t.shift(by));
        lemma_one_step(fine, input, fc);
        assert(steps(fine, input, fc, 1) == Some(fc1));
        assert forall|j: int| 0 <= j < rest.len() implies fine[fc1.state.pc + j] == move_act(
            #[trigger] rest[j],
        ) by {
            assert(all[j + 1] == rest[j]);
        }
        lemma_chunks_run(fine, input, fc1, (n - c) as nat, limit, forward);
        lemma_steps_add(fine, input, fc, 1, rest.len());
    }
}

/// The commands of a move that would leave the tape fault with the memory
/// error, on the first of them that does not fit.
pub proof fn lemma_chunks_fault(
    fine: Seq<Act>,
    input: Seq<u8>,
    fc: Config,
    n: nat,
    limit: nat,
    forward: bool,
) -> (m: nat)
    requires
        fc.state.tape.wf(),
        0 <= fc.state.pc,
        1 <= limit <= u32::MAX,
        fc.state.pc + moves(forward, n, limit).len() <= fine.len(),
        forall|j: int|
            0 <= j < moves(forward, n, limit).len() ==> fine[fc.state.pc + j] == move_act(
                #[trigger] moves(forward, n, limit)[j],
            ),
        !fc.state.tape.in_range(
            if forward {
                n as int
            } else {
                -(n as int)
            },
        ),
    ensures
        faults_after(fine, input, fc, m, RunError::Memory),
    decreases n,
{
    let t = fc.state.tape;
    assert(n > 0);
    let c = if n <= limit {
        n
    } else {
        limit
    };
    let all = moves(forward, n, limit);
    let rest = moves(forward, (n - c) as nat, limit);
    assert(all.len() == 1 + rest.len());
    assert(fine[fc.state.pc + 0] == move_act(all[0]));
    let by: int = if forward {
        c as int
    } else {
        -(c as int)
    };
    if t.in_range(by) {
        let fc1 = moved_to(fc, fc.state.pc + 1, t.shift(by));
        lemma_one_step(fine, input, fc);
        assert(steps(fine, input, fc, 1) == Some(fc1));
        assert forall|j: int| 0 <= j < rest.len() implies fine[fc1.state.pc + j] == move_act(
            #[trigger] rest[j],
        ) by {
            assert(all[j + 1] == rest[j]);
        }
        let m1 = lemma_chunks_fault(fine, input, fc1, (n - c) as nat, limit, forward);
        lemma_steps_add(fine, input, fc, 1, m1);
        (1 + m1) as nat
    } else {
        assert(steps(fine, input, fc, 0) == Some(fc));
        0
    }
}

/// What the case lemmas start from: a balanced operation sequence of a
/// length that a machine can hold, without empty moves, and a configuration
/// at operation `k`.
pub open spec fn at_plan_op(ops: Seq<Op>, limit: nat, c: Config, k: int) -> bool {
    &&& ops.len() <= usize::MAX
    &&& 1 <= limit <= u32::MAX
    &&& balanced(op_deltas(ops))
    &&& moves_positive(ops)
    &&& sane(c, ops.len() as int)
    &&& c.state.pc == k
    &&& 0 <= k < ops.len()
}

/// The facts about operation `k` that every case needs.
pub proof fn lemma_at_plan(ops: Seq<Op>, limit: nat, c: Config, k: int)
    requires
        at_plan_op(ops, limit, c, k),
    ensures
        ops_acts(ops)[k] == op_act(ops, k),
        !halted(ops_acts(ops), c.state),
        plan_map(ops, limit)[k] == ppos(ops, k, limit),
        lift(plan_map(ops, limit), c) == moved_to(c, ppos(ops, k, limit), c.state.tape),
        ppos(ops, k + 1, limit) == ppos(ops, k, limit) + piece(ops, k, limit).len(),
        0 < ppos(ops, k, limit),
        ppos(ops, k + 1, limit) < plan_spec(ops, limit).len(),
        plan_acts(plan_spec(ops, limit)).len() == plan_spec(ops, limit).len(),
{
    assert(!(ops_acts(ops)[k] is Stop));
    lemma_body_grows(ops, k + 1, ops.len() as int, limit);
    lemma_plan_ends(ops, limit);
}

/// A configuration at another operation, lifted.
proof fn lemma_lift_plan(ops: Seq<Op>, limit: nat, c2: Config)
    requires
        0 <= c2.state.pc <= ops.len(),
    ensures
        lift(plan_map(ops, limit), c2) == moved_to(
            c2,
            ppos(ops, c2.state.pc, limit),
            c2.state.tape,
        ),
{
}

/// An operation that neither moves nor jumps is mirrored by its one command.
pub proof fn lemma_plan_simple(ops: Seq<Op>, limit: nat, input: Seq<u8>, c: Config, k: int)
    requires
        at_plan_op(ops, limit, c, k),
        ops[k] is Add || ops[k] is Sub || ops[k] is Zero || ops[k] is Output || ops[k] is Input,
    ensures
        mirrored(ops_acts(ops), plan_acts(plan_spec(ops, limit)), plan_map(ops, limit), input, c),
{
    lemma_at_plan(ops, limit, c, k);
    let a = ops_acts(ops);
    let plan = plan_spec(ops, limit);
    let f = plan_acts(plan);
    let pm = plan_map(ops, limit);
    let fc = lift(pm, c);
    let pk = ppos(ops, k, limit);
    lemma_plan_at(ops, k, 0, limit);
    assert(f[pk] == a[k]);
    assert(fc.next(input) == c.next(input));
    let (s, sig) = turn(a, input, c);
    let (fs, fsig) = turn(f, input, fc);
    assert(fsig == sig);
    match sig {
        Signal::Fault(e) => {
            assert(steps(f, input, fc, 0) == Some(fc));
            assert(faults_after(f, input, fc, 0, e));
            lemma_mirror_fault(a, f, pm, input, c, 0, e);
        },
        _ => {
            let c2 = c.advance(s, sig);
            lemma_one_step(f, input, fc);
            lemma_lift_plan(ops, limit, c2);
            assert(steps(f, input, fc, 1) == Some(lift(pm, c2)));
            lemma_mirror_step(a, f, pm, input, c, 1);
        },
    }
}

/// A move is mirrored by its commands, whether it stays on the tape or not.
pub proof fn lemma_plan_move(ops: Seq<Op>, limit: nat, input: Seq<u8>, c: Config, k: int)
    requires
        at_plan_op(ops, limit, c, k),
        ops[k] is Left || ops[k] is Right,
    ensures
        mirrored(ops_acts(ops), plan_acts(plan_spec(ops, limit)), plan_map(ops, limit), input, c),
{
    lemma_at_plan(ops, limit, c, k);
    let a = ops_acts(ops);
    let plan = plan_spec(ops, limit);
    let f = plan_acts(plan);
    let pm = plan_map(ops, limit);
    let fc = lift(pm, c);
    let pk = ppos(ops, k, limit);
    let t = c.state.tape;
    let forward = ops[k] is Right;
    let n: nat = match ops[k] {
        Op::Left(n) => n as nat,
        Op::Right(n) => n as nat,
        _ => 0,
    };
    let by: int = if forward {
        n as int
    } else {
        -(n as int)
    };
    let mv = moves(forward, n, limit);
    assert(piece(ops, k, limit) == mv);
    assert(n >= 1);
    lemma_moves_plain(forward, n, limit);
    assert forall|j: int| 0 <= j < mv.len() implies f[fc.state.pc + j] == move_act(#[trigger] mv[j]) by {
        lemma_plan_at(ops, k, j, limit);
        lemma_move_kinds(forward, n, limit, j);
    }
    assert(a[k] == if forward {
        Act::Right(n as int)
    } else {
        Act::Left(n as int)
    });
    if t.in_range(by) {
        lemma_chunks_run(f, input, fc, n, limit, forward);
        let c2 = moved_to(c, k + 1, t.shift(by));
        assert(turn(a, input, c) == (c2.state, Signal::Step));
        lemma_lift_plan(ops, limit, c2);
        assert(steps(f, input, fc, mv.len()) == Some(lift(pm, c2)));
        lemma_mirror_step(a, f, pm, input, c, mv.len());
    } else {
        let m = lemma_chunks_fault(f, input, fc, n, limit, forward);
        assert(turn(a, input, c).1 == Signal::Fault(RunError::Memory));
        lemma_mirror_fault(a, f, pm, input, c, m, RunError::Memory);
    }
}

/// The commands of a move are moves in its direction.
pub proof fn lemma_move_kinds(forward: bool, n: nat, limit: nat, j: int)
    requires
        0 <= j < moves(forward, n, limit).len(),
    ensures
        forward ==> moves(forward, n, limit)[j] is Advance,
        !forward ==> moves(forward, n, limit)[j] is Retreat,
    decreases n,
{
    if n == 0 || limit == 0 {
    } else {
        let c = if n <= limit {
            n
        } else {
            limit
        };
        if j > 0 {
            lemma_move_kinds(forward, (n - c) as nat, limit, j - 1);
            assert(moves(forward, n, limit)[j] == moves(forward, (n - c) as nat, limit)[j - 1]);
        }
    }
}

/// A loop delimiter is mirrored by its command: both jump, to places that
/// stand for each other, or both go on.
pub proof fn lemma_plan_jump(ops: Seq<Op>, limit: nat, input: Seq<u8>, c: Config, k: int)
    requires
        at_plan_op(ops, limit, c, k),
        ops[k] is LBrack || ops[k] is RBrack,
    ensures
        mirrored(ops_acts(ops), plan_acts(plan_spec(ops, limit)), plan_map(ops, limit), input, c),
{
    lemma_at_plan(ops, limit, c, k);
    let a = ops_acts(ops);
    let plan = plan_spec(ops, limit);
    let f = plan_acts(plan);
    let pm = plan_map(ops, limit);
    let fc = lift(pm, c);
    let pk = ppos(ops, k, limit);
    let t = c.state.tape;
    let e = op_deltas(ops);
    lemma_piece_kinds(ops, k, limit);
    assert(e[k] == op_delta(ops[k]));
    let open = ops[k] is LBrack;
    let other: int = if open {
        lemma_close_exists(e, k)
    } else {
        lemma_open_exists(e, k)
    };
    let i: int = if open {
        k
    } else {
        other
    };
    let j: int = if open {
        other
    } else {
        k
    };
    lemma_partner(e, i, j);
    lemma_loop_places(ops, limit, i, j);
    lemma_rank_bound(e, i);
    lemma_plan_at(ops, k, 0, limit);
    lemma_plan_at(ops, other, 0, limit);
    let jump = open == (t.cell() == 0);
    let to: int = if jump {
        other + 1
    } else {
        k + 1
    };
    assert(a[k] == if open {
        Act::IfZero(other + 1)
    } else {
        Act::IfNonZero(other + 1)
    });
    assert(f[pk] == if open {
        Act::IfZero(ppos(ops, other, limit) + 1)
    } else {
        Act::IfNonZero(ppos(ops, other, limit) + 1)
    });
    let c2 = moved_to(c, to, t);
    assert(turn(a, input, c) == (c2.state, Signal::Step));
    lemma_one_step(f, input, fc);
    lemma_lift_plan(ops, limit, c2);
    assert(steps(f, input, fc, 1) == Some(lift(pm, c2)));
    lemma_mirror_step(a, f, pm, input, c, 1);
}

/// The plan of a balanced operation sequence does what the operations do.
pub proof fn lemma_plan_simulates(ops: Seq<Op>, limit: nat, input: Seq<u8>)
    requires
        ops.len() <= usize::MAX,
        1 <= limit <= u32::MAX,
        balanced(op_deltas(ops)),
        moves_positive(ops),
    ensures
        simulates(ops_acts(ops), plan_acts(plan_spec(ops, limit)), plan_map(ops, limit), input),
{
    let a = ops_acts(ops);
    let plan = plan_spec(ops, limit);
    let f = plan_acts(plan);
    let pm = plan_map(ops, limit);
    assert forall|c: Config| sane(c, a.len() as int) implies #[trigger] mirrored(a, f, pm, input, c) by {
        let k = c.state.pc;
        if k == ops.len() {
            lemma_plan_ends(ops, limit);
            let fc = lift(pm, c);
            assert(f[fc.state.pc] == plan_act(plan, fc.state.pc));
            assert(steps(f, input, fc, 0) == Some(fc));
            assert(halts_after(f, input, fc, 0));
        } else {
            match ops[k] {
                Op::Left(_) => lemma_plan_move(ops, limit, input, c, k),
                Op::Right(_) => lemma_plan_move(ops, limit, input, c, k),
                Op::LBrack(_) => lemma_plan_jump(ops, limit, input, c, k),
                Op::RBrack(_) => lemma_plan_jump(ops, limit, input, c, k),
                _ => lemma_plan_simple(ops, limit, input, c, k),
            }
        }
    }
}

} // verus!
