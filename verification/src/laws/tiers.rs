use vstd::prelude::*;
use crate::brackets::{balanced, lemma_verdicts};
use crate::jit::image::{plan_acts, plan_code};
use crate::jit::plan::plan_spec;
use crate::laws::backend::{lemma_plan_ends, lemma_plan_simulates, moves_positive, plan_map};
use crate::laws::balance::lemma_verdict_kept;
use crate::laws::frontend::{lemma_lex_simulates, lemma_neutral_walk, lemma_one_step, pos_map};
use crate::laws::layout::{here, lemma_pos, lemma_width, pos};
use crate::laws::simulate::{lemma_backward, lemma_forward, lemma_start_backward, lemma_start_forward, lemma_too_little_fuel, lift, same_end};
use crate::machine::{Config, finished, lemma_more_fuel, lemma_run_after_steps, lemma_starts_self, starts, steps};
use crate::ops::{Op, sized};
use crate::ops::{byte_deltas, lex_from, lex_spec, op_deltas};
use crate::semantics::{lexed_code, ops_acts, run_code_within, source_acts, source_code};

verus! {

/// A run of the operations that comes to an end is matched by a run of the
/// source bytes that ends alike.
pub proof fn lemma_lexed_to_source(src: Seq<u8>, input: Seq<u8>, room: Option<nat>, fuse: bool, clear: bool, fuel: nat) -> (enough: nat)
    requires
        src.len() <= usize::MAX,
        finished(run_code_within(lexed_code(src, fuse, clear), input, room, fuel)),
    ensures
        finished(run_code_within(source_code(src), input, room, enough)),
        same_end(
            run_code_within(lexed_code(src, fuse, clear), input, room, fuel),
            run_code_within(source_code(src), input, room, enough),
        ),
{
    let l = lex_from(src, 0, fuse, clear);
    lemma_verdict_kept(src, fuse, clear);
    lemma_verdicts(byte_deltas(src));
    if balanced(byte_deltas(src)) {
        let a = ops_acts(l);
        let f = source_acts(src);
        let pm = pos_map(src, fuse, clear);
        lemma_lex_simulates(src, input, fuse, clear);
        let ff = lemma_forward(a, f, pm, input, Config::start_within(room), fuel);
        lemma_pos(src, 0, fuse, clear);
        lemma_neutral_walk(src, input, Config::start_within(room), fuse, clear);
        let lead = pos(src, 0, fuse, clear);
        assert(steps(f, input, Config::start_within(room), lead as nat) == Some(lift(pm, Config::start_within(room))));
        lemma_run_after_steps(f, input, Config::start_within(room), lead as nat, ff);
        (lead + ff) as nat
    } else {
        0
    }
}

/// If the run of the source bytes comes to an end within `fuel` steps, so
/// does the run of the operations.
pub proof fn lemma_source_to_lexed(src: Seq<u8>, input: Seq<u8>, room: Option<nat>, fuse: bool, clear: bool, fuel: nat)
    requires
        src.len() <= usize::MAX,
        finished(run_code_within(source_code(src), input, room, fuel)),
    ensures
        finished(run_code_within(lexed_code(src, fuse, clear), input, room, fuel)),
{
    let l = lex_from(src, 0, fuse, clear);
    lemma_verdict_kept(src, fuse, clear);
    lemma_verdicts(byte_deltas(src));
    if balanced(byte_deltas(src)) {
        let a = ops_acts(l);
        let f = source_acts(src);
        let pm = pos_map(src, fuse, clear);
        lemma_lex_simulates(src, input, fuse, clear);
        lemma_pos(src, 0, fuse, clear);
        lemma_neutral_walk(src, input, Config::start_within(room), fuse, clear);
        let lead = pos(src, 0, fuse, clear);
        assert(steps(f, input, Config::start_within(room), lead as nat) == Some(lift(pm, Config::start_within(room))));
        if fuel < lead {
            lemma_too_little_fuel(f, input, Config::start_within(room), lead as nat, fuel);
        } else {
            lemma_run_after_steps(f, input, Config::start_within(room), lead as nat, (fuel - lead) as nat);
            lemma_backward(a, f, pm, input, Config::start_within(room), (fuel - lead) as nat);
            lemma_more_fuel(a, input, Config::start_within(room), (fuel - lead) as nat, lead as nat);
        }
    }
}

/// What the front-end makes keeps to the ranges of the data model: no move
/// is by zero cells and no cell change by zero; and there are no more
/// operations than source bytes.
pub proof fn lemma_lex_positive(src: Seq<u8>, fuse: bool, clear: bool)
    requires
        src.len() <= usize::MAX,
    ensures
        sized(lex_spec(src, fuse, clear)),
        moves_positive(lex_spec(src, fuse, clear)),
        lex_spec(src, fuse, clear).len() <= src.len(),
{
    let l = lex_from(src, 0, fuse, clear);
    assert forall|k: int| 0 <= k < l.len() implies match #[trigger] l[k] {
        Op::Left(n) => n >= 1,
        Op::Right(n) => n >= 1,
        Op::Add(n) => n >= 1,
        Op::Sub(n) => n >= 1,
        _ => true,
    } by {
        lemma_pos(src, k as nat, fuse, clear);
        let b = pos(src, k as nat, fuse, clear);
        lemma_width(src, b, fuse, clear);
        assert(here(src, b, fuse, clear)[0] == l[k]);
    }
    lemma_lex_short(src, l.len(), fuse, clear);
    lemma_pos(src, l.len(), fuse, clear);
}

/// Operation `k` starts at byte `k` or later.
pub proof fn lemma_lex_short(src: Seq<u8>, k: nat, fuse: bool, clear: bool)
    requires
        k <= lex_from(src, 0, fuse, clear).len(),
    ensures
        k <= pos(src, k, fuse, clear),
    decreases k,
{
    lemma_pos(src, k, fuse, clear);
    if k > 0 {
        lemma_lex_short(src, (k - 1) as nat, fuse, clear);
        lemma_pos(src, (k - 1) as nat, fuse, clear);
        lemma_width(src, pos(src, (k - 1) as nat, fuse, clear), fuse, clear);
    }
}

/// A run of the operations that comes to an end is matched by a run of the
/// plan compiled from them that ends alike.
pub proof fn lemma_lexed_to_plan(src: Seq<u8>, input: Seq<u8>, room: Option<nat>, limit: nat, fuel: nat) -> (enough: nat)
    requires
        src.len() <= usize::MAX,
        1 <= limit <= u32::MAX,
        finished(run_code_within(lexed_code(src, true, true), input, room, fuel)),
    ensures
        finished(run_code_within(plan_code(src, limit), input, room, enough)),
        same_end(
            run_code_within(lexed_code(src, true, true), input, room, fuel),
            run_code_within(plan_code(src, limit), input, room, enough),
        ),
{
    let l = lex_spec(src, true, true);
    lemma_verdicts(op_deltas(l));
    if balanced(op_deltas(l)) {
        let a = ops_acts(l);
        let f = plan_acts(plan_spec(l, limit));
        let pm = plan_map(l, limit);
        lemma_lex_positive(src, true, true);
        lemma_plan_simulates(l, limit, input);
        let ff = lemma_forward(a, f, pm, input, Config::start_within(room), fuel);
        lemma_plan_ends(l, limit);
        lemma_one_step(f, input, Config::start_within(room));
        assert(steps(f, input, Config::start_within(room), 1) == Some(lift(pm, Config::start_within(room))));
        lemma_run_after_steps(f, input, Config::start_within(room), 1, ff);
        (1 + ff) as nat
    } else {
        0
    }
}

/// If the run of the plan comes to an end within `fuel` steps, so does the
/// run of the operations it was compiled from.
pub proof fn lemma_plan_to_lexed(src: Seq<u8>, input: Seq<u8>, room: Option<nat>, limit: nat, fuel: nat)
    requires
        src.len() <= usize::MAX,
        1 <= limit <= u32::MAX,
        finished(run_code_within(plan_code(src, limit), input, room, fuel)),
    ensures
        finished(run_code_within(lexed_code(src, true, true), input, room, fuel)),
{
    let l = lex_spec(src, true, true);
    lemma_verdicts(op_deltas(l));
    if balanced(op_deltas(l)) {
        let a = ops_acts(l);
        let f = plan_acts(plan_spec(l, limit));
        let pm = plan_map(l, limit);
        lemma_lex_positive(src, true, true);
        lemma_plan_simulates(l, limit, input);
        lemma_plan_ends(l, limit);
        lemma_one_step(f, input, Config::start_within(room));
        assert(steps(f, input, Config::start_within(room), 1) == Some(lift(pm, Config::start_within(room))));
        if fuel < 1 {
            lemma_too_little_fuel(f, input, Config::start_within(room), 1, fuel);
        } else {
            lemma_run_after_steps(f, input, Config::start_within(room), 1, (fuel - 1) as nat);
            lemma_backward(a, f, pm, input, Config::start_within(room), (fuel - 1) as nat);
            lemma_more_fuel(a, input, Config::start_within(room), (fuel - 1) as nat, 1);
        }
    }
}

/// What the run of the operations has written, the run of the source bytes
/// has written too, after enough steps.
pub proof fn lemma_lexed_to_source_start(
    src: Seq<u8>,
    input: Seq<u8>,
    room: Option<nat>,
    fuse: bool,
    clear: bool,
    fuel: nat,
) -> (enough: nat)
    requires
        src.len() <= usize::MAX,
    ensures
        starts(
            run_code_within(lexed_code(src, fuse, clear), input, room, fuel).0.out,
            run_code_within(source_code(src), input, room, enough).0.out,
        ),
{
    lemma_verdict_kept(src, fuse, clear);
    lemma_verdicts(byte_deltas(src));
    if balanced(byte_deltas(src)) {
        lemma_lex_simulates(src, input, fuse, clear);
        lemma_pos(src, 0, fuse, clear);
        lemma_neutral_walk(src, input, Config::start_within(room), fuse, clear);
        lemma_start_forward(
            ops_acts(lex_from(src, 0, fuse, clear)),
            source_acts(src),
            pos_map(src, fuse, clear),
            input,
            room,
            pos(src, 0, fuse, clear) as nat,
            fuel,
        )
    } else {
        lemma_starts_self(Config::start_within(room).out);
        0
    }
}

/// What the run of the source bytes has written, the run of the operations
/// has written too, after enough steps.
pub proof fn lemma_source_to_lexed_start(
    src: Seq<u8>,
    input: Seq<u8>,
    room: Option<nat>,
    fuse: bool,
    clear: bool,
    fuel: nat,
) -> (enough: nat)
    requires
        src.len() <= usize::MAX,
    ensures
        starts(
            run_code_within(source_code(src), input, room, fuel).0.out,
            run_code_within(lexed_code(src, fuse, clear), input, room, enough).0.out,
        ),
{
    lemma_verdict_kept(src, fuse, clear);
    lemma_verdicts(byte_deltas(src));
    if balanced(byte_deltas(src)) {
        lemma_lex_simulates(src, input, fuse, clear);
        lemma_pos(src, 0, fuse, clear);
        lemma_neutral_walk(src, input, Config::start_within(room), fuse, clear);
        lemma_start_backward(
            ops_acts(lex_from(src, 0, fuse, clear)),
            source_acts(src),
            pos_map(src, fuse, clear),
            input,
            room,
            pos(src, 0, fuse, clear) as nat,
            fuel,
        )
    } else {
        lemma_starts_self(Config::start_within(room).out);
        0
    }
}

/// What the run of the operations has written, the run of the plan has
/// written too, after enough steps.
pub proof fn lemma_lexed_to_plan_start(src: Seq<u8>, input: Seq<u8>, room: Option<nat>, limit: nat, fuel: nat) -> (enough: nat)
    requires
        src.len() <= usize::MAX,
        1 <= limit <= u32::MAX,
    ensures
        starts(
            run_code_within(lexed_code(src, true, true), input, room, fuel).0.out,
            run_code_within(plan_code(src, limit), input, room, enough).0.out,
        ),
{
    let l = lex_spec(src, true, true);
    lemma_verdicts(op_deltas(l));
    if balanced(op_deltas(l)) {
        let f = plan_acts(plan_spec(l, limit));
        lemma_lex_positive(src, true, true);
        lemma_plan_simulates(l, limit, input);
        lemma_plan_ends(l, limit);
        lemma_one_step(f, input, Config::start_within(room));
        lemma_start_forward(ops_acts(l), f, plan_map(l, limit), input, room, 1, fuel)
    } else {
        lemma_starts_self(Config::start_within(room).out);
        0
    }
}

/// What the run of the plan has written, the run of the operations has
/// written too, after enough steps.
pub proof fn lemma_plan_to_lexed_start(src: Seq<u8>, input: Seq<u8>, room: Option<nat>, limit: nat, fuel: nat) -> (enough: nat)
    requires
        src.len() <= usize::MAX,
        1 <= limit <= u32::MAX,
    ensures
        starts(
            run_code_within(plan_code(src, limit), input, room, fuel).0.out,
            run_code_within(lexed_code(src, true, true), input, room, enough).0.out,
        ),
{
    let l = lex_spec(src, true, true);
    lemma_verdicts(op_deltas(l));
    if balanced(op_deltas(l)) {
        let f = plan_acts(plan_spec(l, limit));
        lemma_lex_positive(src, true, true);
        lemma_plan_simulates(l, limit, input);
        lemma_plan_ends(l, limit);
        lemma_one_step(f, input, Config::start_within(room));
        lemma_start_backward(ops_acts(l), f, plan_map(l, limit), input, room, 1, fuel)
    } else {
        lemma_starts_self(Config::start_within(room).out);
        0
    }
}

} // verus!
