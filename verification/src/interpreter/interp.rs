use vstd::prelude::*;
use crate::errors::CompileError;
use crate::interpreter::{interp_1, interp_2, interp_3, interp_4, interp_5};
use crate::machine::{Act, Outcome};
use crate::semantics::{lexed_code, run_code, source_code};

verus! {

/// How much work is done on a program before it runs.
#[derive(Clone, Copy, Debug, PartialEq, Eq, Structural)]
pub enum OptimizationLevel {
    /// Source bytes are run as they are.
    Raw,
    /// Operations, with loop partners searched for at run time.
    Plain,
    /// Operations with linked loop delimiters.
    Low,
    /// Fused runs and linked loop delimiters.
    Medium,
    /// Fused runs, the clear idiom, and linked loop delimiters.
    High,
}

/// What `src` means at a given level.
pub open spec fn level_code(level: OptimizationLevel, src: Seq<u8>) -> Result<
    Seq<Act>,
    CompileError,
> {
    match level {
        OptimizationLevel::Raw => source_code(src),
        OptimizationLevel::Plain => lexed_code(src, false, false),
        OptimizationLevel::Low => lexed_code(src, false, false),
        OptimizationLevel::Medium => lexed_code(src, true, false),
        OptimizationLevel::High => lexed_code(src, true, true),
    }
}

/// The level that is used when none is asked for.
pub open spec fn level_or_default(level: Option<OptimizationLevel>) -> OptimizationLevel {
    match level {
        Some(l) => l,
        None => OptimizationLevel::High,
    }
}

/// Runs `prog` on `input` for at most `fuel` steps with the interpreter of
/// the given level, or of the highest level if none is given.
pub fn run(
    prog: &[u8],
    optimization_level: Option<OptimizationLevel>,
    input: &[u8],
    fuel: u64,
) -> (o: Outcome)
    ensures
        o.is(
            run_code(
                level_code(level_or_default(optimization_level), prog@),
                input@,
                fuel as nat,
            ),
        ),
{
    let ol = match optimization_level {
        Some(l) => l,
        None => OptimizationLevel::High,
    };
    match ol {
        OptimizationLevel::Raw => interp_1::run(prog, input, fuel),
        OptimizationLevel::Plain => interp_2::run(prog, input, fuel),
        OptimizationLevel::Low => interp_3::run(prog, input, fuel),
        OptimizationLevel::Medium => interp_4::run(prog, input, fuel),
        OptimizationLevel::High => interp_5::run(prog, input, fuel),
    }
}

} // verus!
