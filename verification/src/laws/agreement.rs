use vstd::prelude::*;
use crate::brackets::{balanced, lemma_verdicts, verdict};
use crate::errors::{CompileError, RunError};
use crate::interpreter::interp_6::pass_code;
use crate::jit::image::{plan_acts, plan_code};
use crate::jit::plan::{Instr, plan_spec};
use crate::jit::{aarch64_jit, x64_jit};
use crate::laws::backend::{lemma_locate, lemma_piece_kinds, lemma_plan_at, lemma_plan_ends};
use crate::laws::balance::lemma_verdict_kept;
use crate::laws::passes::{lemma_cleared_verdict, lemma_lexed_to_pass, lemma_lexed_to_pass_start, lemma_pass_to_lexed, lemma_pass_to_lexed_start};
use crate::laws::simulate::same_end;
use crate::laws::tiers::{lemma_lexed_to_plan, lemma_lexed_to_plan_start, lemma_lexed_to_source, lemma_lexed_to_source_start, lemma_plan_to_lexed, lemma_plan_to_lexed_start, lemma_source_to_lexed, lemma_source_to_lexed_start};
use crate::machine::{Act, Config, finished, lemma_end_unique, lemma_more_fuel, lemma_output_grows, lemma_starts_chain, lemma_starts_self, run_spec, starts};
use crate::ops::{byte_deltas, lex_spec};
use crate::semantics::{lexed_code, run_code_within, source_code};

verus! {

/// The ways in which a source text can be run.
pub enum Backend {
    /// Byte by byte.
    Raw,
    /// Operation by operation, loop partners searched for.
    Plain,
    /// Operation by operation, loop delimiters linked.
    Low,
    /// Fused runs.
    Medium,
    /// Fused runs and the clear idiom.
    High,
    /// Fused runs, then the pass that clears, in three passes.
    Passes,
    /// The plan compiled for x64.
    X64,
    /// The plan compiled for aarch64.
    Aarch64,
}

/// What `src` means to a backend.
pub open spec fn backend_code(b: Backend, src: Seq<u8>) -> Result<Seq<Act>, CompileError> {
    match b {
        Backend::Raw => source_code(src),
        Backend::Plain => lexed_code(src, false, false),
        Backend::Low => lexed_code(src, false, false),
        Backend::Medium => lexed_code(src, true, false),
        Backend::High => lexed_code(src, true, true),
        Backend::Passes => pass_code(src),
        Backend::X64 => plan_code(src, x64_jit::MOVE_LIMIT as nat),
        Backend::Aarch64 => plan_code(src, aarch64_jit::MOVE_LIMIT as nat),
    }
}

/// The run of `src` on `input` by a backend, with `fuel` steps at most.
pub open spec fn backend_run(b: Backend, src: Seq<u8>, input: Seq<u8>, room: Option<nat>, fuel: nat) -> (
    Config,
    Result<(), RunError>,
) {
    run_code_within(backend_code(b, src), input, room, fuel)
}

/// How a run ends does not depend on the fuel, as long as it is enough.
pub proof fn lemma_code_end_unique(
    code: Result<Seq<Act>, CompileError>,
    input: Seq<u8>,
    room: Option<nat>,
    f1: nat,
    f2: nat,
)
    requires
        finished(run_code_within(code, input, room, f1)),
        finished(run_code_within(code, input, room, f2)),
    ensures
        run_code_within(code, input, room, f1) == run_code_within(code, input, room, f2),
{
    match code {
        Ok(acts) => {
            lemma_end_unique(acts, input, Config::start_within(room), f1, f2);
        },
        Err(_) => {},
    }
}

/// A run by any backend that comes to an end is matched by a byte-by-byte
/// run that ends alike.
pub proof fn lemma_to_source(b: Backend, src: Seq<u8>, input: Seq<u8>, room: Option<nat>, fuel: nat) -> (f2: nat)
    requires
        src.len() <= usize::MAX,
        finished(backend_run(b, src, input, room, fuel)),
    ensures
        finished(run_code_within(source_code(src), input, room, f2)),
        same_end(backend_run(b, src, input, room, fuel), run_code_within(source_code(src), input, room, f2)),
{
    match b {
        Backend::Raw => fuel,
        Backend::Plain => lemma_lexed_to_source(src, input, room, false, false, fuel),
        Backend::Low => lemma_lexed_to_source(src, input, room, false, false, fuel),
        Backend::Medium => lemma_lexed_to_source(src, input, room, true, false, fuel),
        Backend::High => lemma_lexed_to_source(src, input, room, true, true, fuel),
        Backend::Passes => {
            let ff = lemma_pass_to_lexed(src, input, room, fuel);
            lemma_lexed_to_source(src, input, room, true, false, ff)
        },
        _ => {
            let limit: nat = if b is X64 {
                x64_jit::MOVE_LIMIT as nat
            } else {
                aarch64_jit::MOVE_LIMIT as nat
            };
            lemma_plan_to_lexed(src, input, room, limit, fuel);
            let f3 = lemma_lexed_to_plan(src, input, room, limit, fuel);
            lemma_code_end_unique(plan_code(src, limit), input, room, fuel, f3);
            lemma_lexed_to_source(src, input, room, true, true, fuel)
        },
    }
}

/// A byte-by-byte run that comes to an end is matched by a run of any
/// backend that comes to an end.
pub proof fn lemma_from_source(b: Backend, src: Seq<u8>, input: Seq<u8>, room: Option<nat>, fuel: nat) -> (f2: nat)
    requires
        src.len() <= usize::MAX,
        finished(run_code_within(source_code(src), input, room, fuel)),
    ensures
        finished(backend_run(b, src, input, room, f2)),
{
    match b {
        Backend::Raw => fuel,
        Backend::Plain => {
            lemma_source_to_lexed(src, input, room, false, false, fuel);
            fuel
        },
        Backend::Low => {
            lemma_source_to_lexed(src, input, room, false, false, fuel);
            fuel
        },
        Backend::Medium => {
            lemma_source_to_lexed(src, input, room, true, false, fuel);
            fuel
        },
        Backend::High => {
            lemma_source_to_lexed(src, input, room, true, true, fuel);
            fuel
        },
        Backend::Passes => {
            lemma_source_to_lexed(src, input, room, true, false, fuel);
            lemma_lexed_to_pass(src, input, room, fuel)
        },
        _ => {
            let limit: nat = if b is X64 {
                x64_jit::MOVE_LIMIT as nat
            } else {
                aarch64_jit::MOVE_LIMIT as nat
            };
            lemma_source_to_lexed(src, input, room, true, true, fuel);
            lemma_lexed_to_plan(src, input, room, limit, fuel)
        },
    }
}

/// Every backend agrees with every other. Two runs of one source on one
/// input that both come to an end, by whatever backends and with whatever
/// fuel, end with the same verdict, after writing the same bytes and
/// reading the same number of input bytes; if they finished, they also
/// leave the same tape.
pub proof fn law_backends_agree(
    a: Backend,
    b: Backend,
    src: Seq<u8>,
    input: Seq<u8>,
    room: Option<nat>,
    fa: nat,
    fb: nat,
)
    requires
        src.len() <= usize::MAX,
        finished(backend_run(a, src, input, room, fa)),
        finished(backend_run(b, src, input, room, fb)),
    ensures
        same_end(backend_run(a, src, input, room, fa), backend_run(b, src, input, room, fb)),
{
    let sa = lemma_to_source(a, src, input, room, fa);
    let sb = lemma_to_source(b, src, input, room, fb);
    lemma_code_end_unique(source_code(src), input, room, sa, sb);
}

/// A run that comes to an end with one backend comes to an end with every
/// other, given enough fuel, and then ends alike.
pub proof fn law_backends_end_together(
    a: Backend,
    b: Backend,
    src: Seq<u8>,
    input: Seq<u8>,
    room: Option<nat>,
    fa: nat,
) -> (fb: nat)
    requires
        src.len() <= usize::MAX,
        finished(backend_run(a, src, input, room, fa)),
    ensures
        finished(backend_run(b, src, input, room, fb)),
        same_end(backend_run(a, src, input, room, fa), backend_run(b, src, input, room, fb)),
{
    let sa = lemma_to_source(a, src, input, room, fa);
    let fb = lemma_from_source(b, src, input, room, sa);
    law_backends_agree(a, b, src, input, room, fa, fb);
    fb
}

/// What a run by any backend has written, the byte-by-byte run has written
/// too, after enough steps.
pub proof fn lemma_to_source_start(b: Backend, src: Seq<u8>, input: Seq<u8>, room: Option<nat>, fuel: nat) -> (enough: nat)
    requires
        src.len() <= usize::MAX,
    ensures
        starts(
            backend_run(b, src, input, room, fuel).0.out,
            run_code_within(source_code(src), input, room, enough).0.out,
        ),
{
    let out = backend_run(b, src, input, room, fuel).0.out;
    match b {
        Backend::Raw => {
            lemma_starts_self(out);
            fuel
        },
        Backend::Plain => lemma_lexed_to_source_start(src, input, room, false, false, fuel),
        Backend::Low => lemma_lexed_to_source_start(src, input, room, false, false, fuel),
        Backend::Medium => lemma_lexed_to_source_start(src, input, room, true, false, fuel),
        Backend::High => lemma_lexed_to_source_start(src, input, room, true, true, fuel),
        Backend::Passes => {
            let mid = lemma_pass_to_lexed_start(src, input, room, fuel);
            let end = lemma_lexed_to_source_start(src, input, room, true, false, mid);
            lemma_starts_chain(
                out,
                run_code_within(lexed_code(src, true, false), input, room, mid).0.out,
                run_code_within(source_code(src), input, room, end).0.out,
            );
            end
        },
        _ => {
            let limit: nat = if b is X64 {
                x64_jit::MOVE_LIMIT as nat
            } else {
                aarch64_jit::MOVE_LIMIT as nat
            };
            let mid = lemma_plan_to_lexed_start(src, input, room, limit, fuel);
            let end = lemma_lexed_to_source_start(src, input, room, true, true, mid);
            lemma_starts_chain(
                out,
                run_code_within(lexed_code(src, true, true), input, room, mid).0.out,
                run_code_within(source_code(src), input, room, end).0.out,
            );
            end
        },
    }
}

/// What the byte-by-byte run has written, a run by any backend has written
/// too, after enough steps.
pub proof fn lemma_from_source_start(b: Backend, src: Seq<u8>, input: Seq<u8>, room: Option<nat>, fuel: nat) -> (enough: nat)
    requires
        src.len() <= usize::MAX,
    ensures
        starts(
            run_code_within(source_code(src), input, room, fuel).0.out,
            backend_run(b, src, input, room, enough).0.out,
        ),
{
    let out = run_code_within(source_code(src), input, room, fuel).0.out;
    match b {
        Backend::Raw => {
            lemma_starts_self(out);
            fuel
        },
        Backend::Plain => lemma_source_to_lexed_start(src, input, room, false, false, fuel),
        Backend::Low => lemma_source_to_lexed_start(src, input, room, false, false, fuel),
        Backend::Medium => lemma_source_to_lexed_start(src, input, room, true, false, fuel),
        Backend::High => lemma_source_to_lexed_start(src, input, room, true, true, fuel),
        Backend::Passes => {
            let mid = lemma_source_to_lexed_start(src, input, room, true, false, fuel);
            let end = lemma_lexed_to_pass_start(src, input, room, mid);
            lemma_starts_chain(
                out,
                run_code_within(lexed_code(src, true, false), input, room, mid).0.out,
                run_code_within(pass_code(src), input, room, end).0.out,
            );
            end
        },
        _ => {
            let limit: nat = if b is X64 {
                x64_jit::MOVE_LIMIT as nat
            } else {
                aarch64_jit::MOVE_LIMIT as nat
            };
            let mid = lemma_source_to_lexed_start(src, input, room, true, true, fuel);
            let end = lemma_lexed_to_plan_start(src, input, room, limit, mid);
            lemma_starts_chain(
                out,
                run_code_within(lexed_code(src, true, true), input, room, mid).0.out,
                run_code_within(plan_code(src, limit), input, room, end).0.out,
            );
            end
        },
    }
}

/// The backends write the same bytes in the same order, whether a run comes
/// to an end or not: whatever one backend has written after any number of
/// steps, every other has written too after enough steps of its own.
pub proof fn law_outputs_agree(a: Backend, b: Backend, src: Seq<u8>, input: Seq<u8>, room: Option<nat>, fa: nat) -> (fb: nat)
    requires
        src.len() <= usize::MAX,
    ensures
        starts(backend_run(a, src, input, room, fa).0.out, backend_run(b, src, input, room, fb).0.out),
{
    let mid = lemma_to_source_start(a, src, input, room, fa);
    let fb = lemma_from_source_start(b, src, input, room, mid);
    lemma_starts_chain(
        backend_run(a, src, input, room, fa).0.out,
        run_code_within(source_code(src), input, room, mid).0.out,
        backend_run(b, src, input, room, fb).0.out,
    );
    fb
}

/// What a run has written when it is abandoned is the start of what every
/// run of the same source on the same input has written when it comes to an
/// end, by whatever backend.
pub proof fn law_output_is_a_start(
    a: Backend,
    b: Backend,
    src: Seq<u8>,
    input: Seq<u8>,
    room: Option<nat>,
    fa: nat,
    fb: nat,
)
    requires
        src.len() <= usize::MAX,
        finished(backend_run(b, src, input, room, fb)),
    ensures
        starts(backend_run(a, src, input, room, fa).0.out, backend_run(b, src, input, room, fb).0.out),
{
    let enough = law_backends_end_together(b, a, src, input, room, fb);
    let end = backend_run(a, src, input, room, enough).0.out;
    let now = backend_run(a, src, input, room, fa).0.out;
    match backend_code(a, src) {
        Ok(acts) => {
            if fa <= enough {
                lemma_output_grows(acts, input, Config::start_within(room), fa, (enough - fa) as nat);
            } else {
                lemma_more_fuel(acts, input, Config::start_within(room), enough, (fa - enough) as nat);
                assert(now =~= end.subrange(0, now.len() as int));
            }
        },
        Err(_) => {
            assert(now =~= end.subrange(0, now.len() as int));
        },
    }
}

/// A source is accepted exactly when its loops are balanced, by every
/// backend alike. A source that is not accepted is refused with the
/// structural error that names what is wrong first, and its run reads
/// nothing, writes nothing and takes no step.
pub proof fn law_accepted_iff_balanced(b: Backend, src: Seq<u8>, input: Seq<u8>, room: Option<nat>, fuel: nat)
    ensures
        backend_code(b, src) is Ok <==> balanced(byte_deltas(src)),
        !balanced(byte_deltas(src)) ==> verdict(byte_deltas(src)) is Err && backend_run(
            b,
            src,
            input,
            room,
            fuel,
        ) == (Config::start_within(room), Err::<(), _>(RunError::Compile(verdict(byte_deltas(src))->Err_0))),
{
    lemma_verdicts(byte_deltas(src));
    lemma_verdict_kept(src, false, false);
    lemma_verdict_kept(src, true, false);
    lemma_verdict_kept(src, true, true);
    lemma_cleared_verdict(lex_spec(src, true, false));
}

/// A compiled plan has exactly one entry point, at its start, and exactly
/// one leave, at its end.
pub proof fn law_one_entry(src: Seq<u8>, limit: nat, p: int)
    requires
        0 <= p < plan_spec(lex_spec(src, true, true), limit).len(),
    ensures
        plan_spec(lex_spec(src, true, true), limit)[p] == Instr::Enter <==> p == 0,
        plan_spec(lex_spec(src, true, true), limit)[p] == Instr::Leave <==> p == plan_spec(
            lex_spec(src, true, true),
            limit,
        ).len() - 1,
{
    let ops = lex_spec(src, true, true);
    lemma_plan_ends(ops, limit);
    if 0 < p < plan_spec(ops, limit).len() - 1 {
        let (k, j) = lemma_locate(ops, p, ops.len() as int, limit);
        lemma_plan_at(ops, k, j, limit);
        lemma_piece_kinds(ops, k, limit);
    }
}

/// Compiling the same source again gives the same plan, and so the same
/// run on every input.
pub proof fn law_compile_repeatable(
    src: Seq<u8>,
    limit: nat,
    first: Seq<Instr>,
    second: Seq<Instr>,
    input: Seq<u8>,
    room: Option<nat>,
    fuel: nat,
)
    requires
        first == plan_spec(lex_spec(src, true, true), limit),
        second == plan_spec(lex_spec(src, true, true), limit),
    ensures
        first == second,
        run_spec(plan_acts(first), input, Config::start_within(room), fuel) == run_spec(
            plan_acts(second),
            input,
            Config::start_within(room),
            fuel,
        ),
{
}

} // verus!
