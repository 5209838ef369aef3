use vstd::prelude::*;
use crate::bf_types::{BF_MEMORY_SIZE, CH_ADD, CH_CLOSE, CH_IN, CH_LEFT, CH_OPEN, CH_OUT, CH_RIGHT, CH_SUB, is_run_byte};
use crate::brackets::{balanced, depth, is_delta_seq, lemma_close_exists, lemma_open_exists, lemma_partner, matched};
use crate::errors::RunError;
use crate::laws::balance::{lemma_matched_kept, lemma_verdict_kept};
use crate::laws::layout::{here, lemma_pos, lemma_skip, lemma_width, pos, skip_neutral, width};
use crate::laws::simulate::{faults_after, halts_after, lift, mirrored, sane, simulates};
use crate::laws::steps::{bump, lemma_bump_cycle, lemma_clear_loop, lemma_skips, lemma_unit_bumps, lemma_unit_moves, moved_to};
use crate::machine::{Act, Config, Signal, halted, lemma_steps_add, steps, turn};
use crate::ops::{Op, byte_deltas, lemma_run_len_bound, lex_from, op_deltas, run_ops, run_width};
use crate::semantics::{byte_act, op_act, ops_acts, source_acts};
use crate::tape::{add_wrap, sub_wrap};

verus! {

/// Where in the source each operation of the front-end is made, with the
/// end of the source for the position after the last.
pub open spec fn pos_map(src: Seq<u8>, fuse: bool, clear: bool) -> Seq<int> {
    Seq::new(lex_from(src, 0, fuse, clear).len() + 1, |k: int| pos(src, k as nat, fuse, clear))
}

/// Bytes of which the front-end makes no operation change nothing when
/// they are run: a byte that is no instruction, or a run of cell changes
/// that adds up to a multiple of 256.
pub proof fn lemma_neutral_segment(src: Seq<u8>, input: Seq<u8>, c: Config, fuse: bool, clear: bool)
    requires
        c.state.tape.wf(),
        0 <= c.state.pc < src.len(),
        here(src, c.state.pc, fuse, clear).len() == 0,
    ensures
        steps(source_acts(src), input, c, width(src, c.state.pc, fuse, clear) as nat) == Some(
            moved_to(c, c.state.pc + width(src, c.state.pc, fuse, clear), c.state.tape),
        ),
{
    let b = c.state.pc;
    let f = source_acts(src);
    lemma_width(src, b, fuse, clear);
    let w = width(src, b, fuse, clear);
    let c0 = src[b];
    if is_run_byte(c0) {
        lemma_run_bytes(src, b, fuse, clear);
        let up = c0 == CH_ADD;
        assert forall|k: int| b <= k < b + w implies f[k] == if up {
            Act::Add(1)
        } else {
            Act::Sub(1)
        } by {
            assert(f[k] == byte_act(src, b));
        }
        lemma_unit_bumps(f, input, c, w as nat, up);
        lemma_bump_cycle(c.state.tape, w);
        lemma_bump_cycle(c.state.tape, -w);
    } else {
        assert(f[b] == byte_act(src, b));
        lemma_skips(f, input, c, 1);
    }
}

/// The source, run byte by byte, gets over the bytes between two operations
/// without changing anything.
pub proof fn lemma_neutral_walk(src: Seq<u8>, input: Seq<u8>, c: Config, fuse: bool, clear: bool)
    requires
        c.state.tape.wf(),
        0 <= c.state.pc <= src.len(),
    ensures
        steps(
            source_acts(src),
            input,
            c,
            (skip_neutral(src, c.state.pc, fuse, clear) - c.state.pc) as nat,
        ) == Some(moved_to(c, skip_neutral(src, c.state.pc, fuse, clear), c.state.tape)),
    decreases src.len() - c.state.pc,
{
    let b = c.state.pc;
    let f = source_acts(src);
    lemma_skip(src, b, fuse, clear);
    if b < src.len() && here(src, b, fuse, clear).len() == 0 {
        lemma_width(src, b, fuse, clear);
        let w = width(src, b, fuse, clear);
        let mid = moved_to(c, b + w, c.state.tape);
        lemma_neutral_segment(src, input, c, fuse, clear);
        lemma_neutral_walk(src, input, mid, fuse, clear);
        lemma_skip(src, b + w, fuse, clear);
        lemma_steps_add(f, input, c, w as nat, (skip_neutral(src, b + w, fuse, clear) - (b + w)) as nat);
    }
}

/// After `n` steps that end in `mid`, the source gets over the bytes up to
/// the next operation without changing anything.
pub proof fn lemma_then_walk(
    src: Seq<u8>,
    input: Seq<u8>,
    c: Config,
    n: nat,
    mid: Config,
    fuse: bool,
    clear: bool,
)
    requires
        steps(source_acts(src), input, c, n) == Some(mid),
        mid.state.tape.wf(),
        0 <= mid.state.pc <= src.len(),
    ensures
        steps(
            source_acts(src),
            input,
            c,
            (n + skip_neutral(src, mid.state.pc, fuse, clear) - mid.state.pc) as nat,
        ) == Some(moved_to(mid, skip_neutral(src, mid.state.pc, fuse, clear), mid.state.tape)),
        skip_neutral(src, mid.state.pc, fuse, clear) >= mid.state.pc,
{
    lemma_skip(src, mid.state.pc, fuse, clear);
    lemma_neutral_walk(src, input, mid, fuse, clear);
    lemma_steps_add(
        source_acts(src),
        input,
        c,
        n,
        (skip_neutral(src, mid.state.pc, fuse, clear) - mid.state.pc) as nat,
    );
}

/// What the case lemmas start from: a balanced source of a length that a
/// machine can hold, and a configuration at operation `k`.
pub open spec fn at_op(src: Seq<u8>, fuse: bool, clear: bool, c: Config, k: int) -> bool {
    &&& src.len() <= usize::MAX
    &&& balanced(byte_deltas(src))
    &&& sane(c, lex_from(src, 0, fuse, clear).len() as int)
    &&& c.state.pc == k
    &&& 0 <= k < lex_from(src, 0, fuse, clear).len()
}

/// The facts about operation `k` that every case needs.
pub proof fn lemma_at(src: Seq<u8>, fuse: bool, clear: bool, c: Config, k: int)
    requires
        at_op(src, fuse, clear, c, k),
    ensures
        0 <= pos(src, k as nat, fuse, clear) < src.len(),
        here(src, pos(src, k as nat, fuse, clear), fuse, clear) == seq![
            lex_from(src, 0, fuse, clear)[k],
        ],
        pos(src, (k + 1) as nat, fuse, clear) == skip_neutral(
            src,
            pos(src, k as nat, fuse, clear) + width(src, pos(src, k as nat, fuse, clear), fuse, clear),
            fuse,
            clear,
        ),
        1 <= width(src, pos(src, k as nat, fuse, clear), fuse, clear) <= src.len() - pos(
            src,
            k as nat,
            fuse,
            clear,
        ),
        pos_map(src, fuse, clear)[k] == pos(src, k as nat, fuse, clear),
        pos_map(src, fuse, clear)[k + 1] == pos(src, (k + 1) as nat, fuse, clear),
        ops_acts(lex_from(src, 0, fuse, clear))[k] == op_act(lex_from(src, 0, fuse, clear), k),
        !halted(ops_acts(lex_from(src, 0, fuse, clear)), c.state),
        lift(pos_map(src, fuse, clear), c) == moved_to(
            c,
            pos(src, k as nat, fuse, clear),
            c.state.tape,
        ),
        !halted(source_acts(src), lift(pos_map(src, fuse, clear), c).state),
        source_acts(src)[pos(src, k as nat, fuse, clear)] == byte_act(
            src,
            pos(src, k as nat, fuse, clear),
        ),
        balanced(op_deltas(lex_from(src, 0, fuse, clear))),
{
    lemma_pos(src, k as nat, fuse, clear);
    lemma_width(src, pos(src, k as nat, fuse, clear), fuse, clear);
    lemma_verdict_kept(src, fuse, clear);
    let l = lex_from(src, 0, fuse, clear);
    let a = ops_acts(l);
    assert(!(a[k] is Stop));
    let f = source_acts(src);
    let b = pos(src, k as nat, fuse, clear);
    assert(f[b] == byte_act(src, b));
    assert(!(f[b] is Stop));
}

/// A configuration at another operation, lifted.
proof fn lemma_lift_at(src: Seq<u8>, fuse: bool, clear: bool, c2: Config)
    requires
        0 <= c2.state.pc <= lex_from(src, 0, fuse, clear).len(),
    ensures
        lift(pos_map(src, fuse, clear), c2) == moved_to(
            c2,
            pos(src, c2.state.pc as nat, fuse, clear),
            c2.state.tape,
        ),
{
}

/// A coarse step that goes through is mirrored if the fine program gets
/// to the configuration that stands for where it ends.
pub proof fn lemma_mirror_step(
    coarse: Seq<Act>,
    fine: Seq<Act>,
    pm: Seq<int>,
    input: Seq<u8>,
    c: Config,
    m: nat,
)
    requires
        !halted(coarse, c.state),
        !(turn(coarse, input, c).1 is Fault),
        sane(
            c.advance(
                turn(coarse, input, c).0,
                turn(coarse, input, c).1,
            ),
            coarse.len() as int,
        ),
        m >= 1,
        steps(fine, input, lift(pm, c), m) == Some(
            lift(
                pm,
                c.advance(
                    turn(coarse, input, c).0,
                    turn(coarse, input, c).1,
                ),
            ),
        ),
    ensures
        mirrored(coarse, fine, pm, input, c),
{
}

/// A coarse step that faults is mirrored if the fine program gets to the
/// same fault without reading or writing.
pub proof fn lemma_mirror_fault(
    coarse: Seq<Act>,
    fine: Seq<Act>,
    pm: Seq<int>,
    input: Seq<u8>,
    c: Config,
    m: nat,
    e: RunError,
)
    requires
        !halted(coarse, c.state),
        turn(coarse, input, c).1 == Signal::Fault(e),
        faults_after(fine, input, lift(pm, c), m, e),
    ensures
        mirrored(coarse, fine, pm, input, c),
{
}

/// The bytes of a run all mean what its first byte means.
pub proof fn lemma_run_bytes(src: Seq<u8>, b: int, fuse: bool, clear: bool)
    requires
        0 <= b < src.len(),
        is_run_byte(src[b]),
    ensures
        width(src, b, fuse, clear) == run_width(src, b, fuse),
        b + width(src, b, fuse, clear) <= src.len(),
        here(src, b, fuse, clear) == run_ops(src[b], width(src, b, fuse, clear) as nat),
        forall|q: int|
            b <= q < b + width(src, b, fuse, clear) ==> #[trigger] source_acts(src)[q] == byte_act(
                src,
                b,
            ),
{
    lemma_run_len_bound(src, b + 1, src[b]);
    assert forall|q: int| b <= q < b + width(src, b, fuse, clear) implies #[trigger] source_acts(
        src,
    )[q] == byte_act(src, b) by {
        assert(src[q] == src[b]);
        assert(source_acts(src)[q] == byte_act(src, q));
    }
}

/// A move that stays on the tape is mirrored by its bytes.
pub proof fn lemma_case_move(src: Seq<u8>, input: Seq<u8>, fuse: bool, clear: bool, c: Config, k: int)
    requires
        at_op(src, fuse, clear, c, k),
        src[pos(src, k as nat, fuse, clear)] == CH_LEFT || src[pos(src, k as nat, fuse, clear)]
            == CH_RIGHT,
        c.state.tape.in_range(
            if src[pos(src, k as nat, fuse, clear)] == CH_RIGHT {
                width(src, pos(src, k as nat, fuse, clear), fuse, clear)
            } else {
                -width(src, pos(src, k as nat, fuse, clear), fuse, clear)
            },
        ),
    ensures
        mirrored(ops_acts(lex_from(src, 0, fuse, clear)), source_acts(src), pos_map(src, fuse, clear), input, c),
{
    lemma_at(src, fuse, clear, c, k);
    let l = lex_from(src, 0, fuse, clear);
    let a = ops_acts(l);
    let f = source_acts(src);
    let pm = pos_map(src, fuse, clear);
    let b = pos(src, k as nat, fuse, clear);
    let w = width(src, b, fuse, clear);
    let t = c.state.tape;
    let fc = lift(pm, c);
    lemma_run_bytes(src, b, fuse, clear);
    let forward = src[b] == CH_RIGHT;
    let by: int = if forward {
        w
    } else {
        -w
    };
    assert(run_ops(src[b], w as nat)[0] == l[k]);
    assert(a[k] == if forward {
        Act::Right(w)
    } else {
        Act::Left(w)
    });
    lemma_unit_moves(f, input, fc, w as nat, forward);
    let mid = moved_to(fc, b + w, t.shift(by));
    lemma_then_walk(src, input, fc, w as nat, mid, fuse, clear);
    let c2 = moved_to(c, k + 1, t.shift(by));
    assert(turn(a, input, c) == (c2.state, Signal::Step));
    lemma_lift_at(src, fuse, clear, c2);
    let m = (w + pos(src, (k + 1) as nat, fuse, clear) - (b + w)) as nat;
    assert(steps(f, input, fc, m) == Some(lift(pm, c2)));
    lemma_mirror_step(a, f, pm, input, c, m);
}

/// A move that would leave the tape is mirrored by its bytes: they move the
/// pointer to the edge and fault there.
pub proof fn lemma_case_move_off(
    src: Seq<u8>,
    input: Seq<u8>,
    fuse: bool,
    clear: bool,
    c: Config,
    k: int,
)
    requires
        at_op(src, fuse, clear, c, k),
        src[pos(src, k as nat, fuse, clear)] == CH_LEFT || src[pos(src, k as nat, fuse, clear)]
            == CH_RIGHT,
        !c.state.tape.in_range(
            if src[pos(src, k as nat, fuse, clear)] == CH_RIGHT {
                width(src, pos(src, k as nat, fuse, clear), fuse, clear)
            } else {
                -width(src, pos(src, k as nat, fuse, clear), fuse, clear)
            },
        ),
    ensures
        mirrored(ops_acts(lex_from(src, 0, fuse, clear)), source_acts(src), pos_map(src, fuse, clear), input, c),
{
    lemma_at(src, fuse, clear, c, k);
    let l = lex_from(src, 0, fuse, clear);
    let a = ops_acts(l);
    let f = source_acts(src);
    let pm = pos_map(src, fuse, clear);
    let b = pos(src, k as nat, fuse, clear);
    let w = width(src, b, fuse, clear);
    let t = c.state.tape;
    let fc = lift(pm, c);
    lemma_run_bytes(src, b, fuse, clear);
    let forward = src[b] == CH_RIGHT;
    assert(run_ops(src[b], w as nat)[0] == l[k]);
    assert(a[k] == if forward {
        Act::Right(w)
    } else {
        Act::Left(w)
    });
    let part: int = if forward {
        BF_MEMORY_SIZE - 1 - t.cp
    } else {
        t.cp
    };
    let pby: int = if forward {
        part
    } else {
        -part
    };
    assert(0 <= part < w);
    assert forall|q: int| b <= q < b + part implies f[q] == if forward {
        Act::Right(1)
    } else {
        Act::Left(1)
    } by {
        assert(f[q] == byte_act(src, b));
    }
    lemma_unit_moves(f, input, fc, part as nat, forward);
    let stuck = moved_to(fc, b + part, t.shift(pby));
    assert(steps(f, input, fc, part as nat) == Some(stuck));
    assert(f[b + part] == byte_act(src, b));
    assert(turn(f, input, stuck).1 == Signal::Fault(RunError::Memory));
    assert(faults_after(f, input, fc, part as nat, RunError::Memory));
    assert(turn(a, input, c).1 == Signal::Fault(RunError::Memory));
    lemma_mirror_fault(a, f, pm, input, c, part as nat, RunError::Memory);
}

/// Changing a cell by `w` modulo 256 is changing it by `w`.
pub proof fn lemma_wrap(v: u8, w: int)
    requires
        w >= 0,
    ensures
        add_wrap(v, (w % 256) as u8) == ((v + w) % 256) as u8,
        sub_wrap(v, (w % 256) as u8) == ((v - w) % 256) as u8,
{
    let r = w % 256;
    let q = w / 256;
    assert(w == 256 * q + r);
    assert((v + r) % 256 == (v + r + 256 * q) % 256) by {
        vstd::arithmetic::div_mod::lemma_mod_multiples_vanish(q, v + r, 256);
    }
    assert((v - r) % 256 == (v - r - 256 * q) % 256) by {
        vstd::arithmetic::div_mod::lemma_mod_multiples_vanish(-q, v - r, 256);
    }
}

/// A cell change is mirrored by its bytes.
pub proof fn lemma_case_bump(src: Seq<u8>, input: Seq<u8>, fuse: bool, clear: bool, c: Config, k: int)
    requires
        at_op(src, fuse, clear, c, k),
        src[pos(src, k as nat, fuse, clear)] == CH_ADD || src[pos(src, k as nat, fuse, clear)]
            == CH_SUB,
    ensures
        mirrored(ops_acts(lex_from(src, 0, fuse, clear)), source_acts(src), pos_map(src, fuse, clear), input, c),
{
    lemma_at(src, fuse, clear, c, k);
    let l = lex_from(src, 0, fuse, clear);
    let a = ops_acts(l);
    let f = source_acts(src);
    let pm = pos_map(src, fuse, clear);
    let b = pos(src, k as nat, fuse, clear);
    let w = width(src, b, fuse, clear);
    let t = c.state.tape;
    let fc = lift(pm, c);
    lemma_run_bytes(src, b, fuse, clear);
    let up = src[b] == CH_ADD;
    let by: int = if up {
        w
    } else {
        -w
    };
    assert(run_ops(src[b], w as nat).len() == 1);
    assert(w % 256 != 0);
    assert(run_ops(src[b], w as nat)[0] == l[k]);
    let n = (w % 256) as u8;
    assert(a[k] == if up {
        Act::Add(n)
    } else {
        Act::Sub(n)
    });
    assert forall|q: int| b <= q < b + w implies f[q] == if up {
        Act::Add(1)
    } else {
        Act::Sub(1)
    } by {
        assert(f[q] == byte_act(src, b));
    }
    lemma_unit_bumps(f, input, fc, w as nat, up);
    let mid = moved_to(fc, b + w, bump(t, by));
    lemma_wrap(t.cell(), w);
    lemma_then_walk(src, input, fc, w as nat, mid, fuse, clear);
    let c2 = moved_to(c, k + 1, bump(t, by));
    assert(turn(a, input, c) == (c2.state, Signal::Step));
    lemma_lift_at(src, fuse, clear, c2);
    let m = (w + pos(src, (k + 1) as nat, fuse, clear) - (b + w)) as nat;
    assert(steps(f, input, fc, m) == Some(lift(pm, c2)));
    lemma_mirror_step(a, f, pm, input, c, m);
}

/// One step that goes through.
pub proof fn lemma_one_step(acts: Seq<Act>, input: Seq<u8>, c: Config)
    requires
        !halted(acts, c.state),
        !(turn(acts, input, c).1 is Fault),
    ensures
        steps(acts, input, c, 1) == Some(
            c.advance(
                turn(acts, input, c).0,
                turn(acts, input, c).1,
            ),
        ),
{
    reveal_with_fuel(steps, 2);
}

/// The deltas of operations and of bytes are deltas.
pub proof fn lemma_deltas(src: Seq<u8>, ops: Seq<Op>)
    ensures
        is_delta_seq(byte_deltas(src)),
        is_delta_seq(op_deltas(ops)),
{
}

/// The clear idiom is mirrored by its three bytes, run as a loop.
pub proof fn lemma_case_clear(src: Seq<u8>, input: Seq<u8>, fuse: bool, clear: bool, c: Config, k: int)
    requires
        at_op(src, fuse, clear, c, k),
        clear,
        crate::ops::is_clear_idiom(src, pos(src, k as nat, fuse, clear)),
    ensures
        mirrored(ops_acts(lex_from(src, 0, fuse, clear)), source_acts(src), pos_map(src, fuse, clear), input, c),
{
    lemma_at(src, fuse, clear, c, k);
    let l = lex_from(src, 0, fuse, clear);
    let a = ops_acts(l);
    let f = source_acts(src);
    let pm = pos_map(src, fuse, clear);
    let b = pos(src, k as nat, fuse, clear);
    let t = c.state.tape;
    let fc = lift(pm, c);
    let d = byte_deltas(src);
    assert(here(src, b, fuse, clear)[0] == l[k]);
    assert(a[k] == Act::Clear);
    assert(depth(d, b + 1) == depth(d, b) + d[b]);
    assert(depth(d, b + 2) == depth(d, b + 1) + d[b + 1]);
    assert(depth(d, b + 3) == depth(d, b + 2) + d[b + 2]);
    assert(matched(d, b, b + 2));
    lemma_partner(d, b, b + 2);
    assert(f[b] == byte_act(src, b));
    assert(f[b + 1] == byte_act(src, b + 1));
    assert(f[b + 2] == byte_act(src, b + 2));
    lemma_clear_loop(f, input, fc);
    let mid = moved_to(fc, b + 3, t.put(0));
    let n = (2 * t.cell() + 1) as nat;
    lemma_then_walk(src, input, fc, n, mid, fuse, clear);
    let c2 = moved_to(c, k + 1, t.put(0));
    assert(turn(a, input, c) == (c2.state, Signal::Step));
    lemma_lift_at(src, fuse, clear, c2);
    let m = (n + pos(src, (k + 1) as nat, fuse, clear) - (b + 3)) as nat;
    assert(steps(f, input, fc, m) == Some(lift(pm, c2)));
    lemma_mirror_step(a, f, pm, input, c, m);
}

/// A loop open is mirrored by its byte: both go on into the loop, or both
/// go to just after the close.
pub proof fn lemma_case_open(src: Seq<u8>, input: Seq<u8>, fuse: bool, clear: bool, c: Config, k: int)
    requires
        at_op(src, fuse, clear, c, k),
        lex_from(src, 0, fuse, clear)[k] is LBrack,
    ensures
        mirrored(ops_acts(lex_from(src, 0, fuse, clear)), source_acts(src), pos_map(src, fuse, clear), input, c),
{
    lemma_at(src, fuse, clear, c, k);
    let l = lex_from(src, 0, fuse, clear);
    let a = ops_acts(l);
    let f = source_acts(src);
    let pm = pos_map(src, fuse, clear);
    let b = pos(src, k as nat, fuse, clear);
    let t = c.state.tape;
    let fc = lift(pm, c);
    let d = byte_deltas(src);
    let e = op_deltas(l);
    lemma_deltas(src, l);
    assert(e[k] == 1);
    let j = lemma_close_exists(e, k);
    lemma_partner(e, k, j);
    lemma_matched_kept(src, k as nat, j as nat, fuse, clear);
    let pj = pos(src, j as nat, fuse, clear);
    lemma_partner(d, b, pj);
    lemma_pos(src, j as nat, fuse, clear);
    assert(a[k] == Act::IfZero(j + 1));
    assert(f[b] == Act::IfZero(pj + 1));
    let to: int = if t.cell() == 0 {
        j + 1
    } else {
        k + 1
    };
    let fto: int = if t.cell() == 0 {
        pj + 1
    } else {
        b + 1
    };
    let c2 = moved_to(c, to, t);
    let mid = moved_to(fc, fto, t);
    assert(turn(a, input, c) == (c2.state, Signal::Step));
    lemma_one_step(f, input, fc);
    assert(steps(f, input, fc, 1) == Some(mid));
    lemma_then_walk(src, input, fc, 1, mid, fuse, clear);
    lemma_lift_at(src, fuse, clear, c2);
    assert(pos(src, to as nat, fuse, clear) == skip_neutral(src, fto, fuse, clear));
    let m = (1 + pos(src, to as nat, fuse, clear) - fto) as nat;
    assert(steps(f, input, fc, m) == Some(lift(pm, c2)));
    lemma_mirror_step(a, f, pm, input, c, m);
}

/// A loop close is mirrored by its byte: both go back to just after the
/// open, or both go on.
pub proof fn lemma_case_close(src: Seq<u8>, input: Seq<u8>, fuse: bool, clear: bool, c: Config, k: int)
    requires
        at_op(src, fuse, clear, c, k),
        lex_from(src, 0, fuse, clear)[k] is RBrack,
    ensures
        mirrored(ops_acts(lex_from(src, 0, fuse, clear)), source_acts(src), pos_map(src, fuse, clear), input, c),
{
    lemma_at(src, fuse, clear, c, k);
    let l = lex_from(src, 0, fuse, clear);
    let a = ops_acts(l);
    let f = source_acts(src);
    let pm = pos_map(src, fuse, clear);
    let b = pos(src, k as nat, fuse, clear);
    let t = c.state.tape;
    let fc = lift(pm, c);
    let d = byte_deltas(src);
    let e = op_deltas(l);
    lemma_deltas(src, l);
    assert(e[k] == -1);
    let i = lemma_open_exists(e, k);
    lemma_partner(e, i, k);
    lemma_matched_kept(src, i as nat, k as nat, fuse, clear);
    let pi = pos(src, i as nat, fuse, clear);
    lemma_partner(d, pi, b);
    lemma_pos(src, i as nat, fuse, clear);
    assert(a[k] == Act::IfNonZero(i + 1));
    assert(f[b] == Act::IfNonZero(pi + 1));
    let to: int = if t.cell() != 0 {
        i + 1
    } else {
        k + 1
    };
    let fto: int = if t.cell() != 0 {
        pi + 1
    } else {
        b + 1
    };
    let c2 = moved_to(c, to, t);
    let mid = moved_to(fc, fto, t);
    assert(turn(a, input, c) == (c2.state, Signal::Step));
    lemma_one_step(f, input, fc);
    assert(steps(f, input, fc, 1) == Some(mid));
    lemma_then_walk(src, input, fc, 1, mid, fuse, clear);
    lemma_lift_at(src, fuse, clear, c2);
    assert(pos(src, to as nat, fuse, clear) == skip_neutral(src, fto, fuse, clear));
    let m = (1 + pos(src, to as nat, fuse, clear) - fto) as nat;
    assert(steps(f, input, fc, m) == Some(lift(pm, c2)));
    lemma_mirror_step(a, f, pm, input, c, m);
}

/// A byte transfer is mirrored by its byte.
pub proof fn lemma_case_io(src: Seq<u8>, input: Seq<u8>, fuse: bool, clear: bool, c: Config, k: int)
    requires
        at_op(src, fuse, clear, c, k),
        src[pos(src, k as nat, fuse, clear)] == CH_OUT || src[pos(src, k as nat, fuse, clear)]
            == CH_IN,
    ensures
        mirrored(ops_acts(lex_from(src, 0, fuse, clear)), source_acts(src), pos_map(src, fuse, clear), input, c),
{
    lemma_at(src, fuse, clear, c, k);
    let l = lex_from(src, 0, fuse, clear);
    let a = ops_acts(l);
    let f = source_acts(src);
    let pm = pos_map(src, fuse, clear);
    let b = pos(src, k as nat, fuse, clear);
    let t = c.state.tape;
    let fc = lift(pm, c);
    assert(here(src, b, fuse, clear)[0] == l[k]);
    assert(a[k] == f[b]);
    assert(fc.next(input) == c.next(input));
    let (s, sig) = turn(a, input, c);
    let (fs, fsig) = turn(f, input, fc);
    assert(fsig == sig);
    match sig {
        Signal::Fault(e) => {
            assert(steps(f, input, fc, 0) == Some(fc));
            assert(faults_after(f, input, fc, 0, e));
            lemma_mirror_fault(a, f, pm, input, c, 0, e);
        },
        _ => {
            let c2 = c.advance(s, sig);
            let mid = fc.advance(fs, fsig);
            lemma_one_step(f, input, fc);
            lemma_then_walk(src, input, fc, 1, mid, fuse, clear);
            lemma_lift_at(src, fuse, clear, c2);
            let m = (1 + pos(src, (k + 1) as nat, fuse, clear) - (b + 1)) as nat;
            assert(steps(f, input, fc, m) == Some(lift(pm, c2)));
            lemma_mirror_step(a, f, pm, input, c, m);
        },
    }
}

/// Whatever the operations of a balanced source do next, its bytes do too.
pub proof fn lemma_lex_mirrored(src: Seq<u8>, input: Seq<u8>, fuse: bool, clear: bool, c: Config)
    requires
        src.len() <= usize::MAX,
        balanced(byte_deltas(src)),
        sane(c, lex_from(src, 0, fuse, clear).len() as int),
    ensures
        mirrored(ops_acts(lex_from(src, 0, fuse, clear)), source_acts(src), pos_map(src, fuse, clear), input, c),
{
    let l = lex_from(src, 0, fuse, clear);
    let a = ops_acts(l);
    let f = source_acts(src);
    let pm = pos_map(src, fuse, clear);
    let k = c.state.pc;
    if k == l.len() {
        lemma_pos(src, k as nat, fuse, clear);
        let fc = lift(pm, c);
        assert(steps(f, input, fc, 0) == Some(fc));
        assert(halts_after(f, input, fc, 0));
    } else {
        lemma_at(src, fuse, clear, c, k);
        let b = pos(src, k as nat, fuse, clear);
        let c0 = src[b];
        assert(here(src, b, fuse, clear)[0] == l[k]);
        if c0 == CH_LEFT || c0 == CH_RIGHT {
            let w = width(src, b, fuse, clear);
            if c.state.tape.in_range(
                if c0 == CH_RIGHT {
                    w
                } else {
                    -w
                },
            ) {
                lemma_case_move(src, input, fuse, clear, c, k);
            } else {
                lemma_case_move_off(src, input, fuse, clear, c, k);
            }
        } else if c0 == CH_ADD || c0 == CH_SUB {
            lemma_case_bump(src, input, fuse, clear, c, k);
        } else if c0 == CH_OPEN {
            if clear && crate::ops::is_clear_idiom(src, b) {
                lemma_case_clear(src, input, fuse, clear, c, k);
            } else {
                lemma_case_open(src, input, fuse, clear, c, k);
            }
        } else if c0 == CH_CLOSE {
            lemma_case_close(src, input, fuse, clear, c, k);
        } else {
            lemma_case_io(src, input, fuse, clear, c, k);
        }
    }
}

/// The bytes of a balanced source do what the operations made of it do.
pub proof fn lemma_lex_simulates(src: Seq<u8>, input: Seq<u8>, fuse: bool, clear: bool)
    requires
        src.len() <= usize::MAX,
        balanced(byte_deltas(src)),
    ensures
        simulates(ops_acts(lex_from(src, 0, fuse, clear)), source_acts(src), pos_map(src, fuse, clear), input),
{
    let l = lex_from(src, 0, fuse, clear);
    let a = ops_acts(l);
    let f = source_acts(src);
    let pm = pos_map(src, fuse, clear);
    assert forall|c: Config| sane(c, a.len() as int) implies #[trigger] mirrored(a, f, pm, input, c) by {
        lemma_lex_mirrored(src, input, fuse, clear, c);
    }
}

} // verus!
