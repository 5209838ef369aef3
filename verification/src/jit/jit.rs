use vstd::prelude::*;
use crate::errors::{RunError};
use crate::jit::image::plan_code;
use crate::jit::{aarch64_jit, x64_jit};
use crate::machine::{Config, Outcome};
use crate::semantics::run_code;

verus! {

/// The architectures that a host may have, as far as code generation goes.
#[derive(Clone, Copy, Debug, PartialEq, Eq, Structural)]
pub enum Arch {
    X64,
    Aarch64,
    /// Any architecture without a backend.
    Other,
}

/// What a run on `arch` leaves behind.
pub open spec fn run_on(arch: Arch, src: Seq<u8>, input: Seq<u8>, fuel: nat) -> (
    Config,
    Result<(), RunError>,
) {
    match arch {
        Arch::X64 => run_code(plan_code(src, x64_jit::MOVE_LIMIT as nat), input, fuel),
        Arch::Aarch64 => run_code(plan_code(src, aarch64_jit::MOVE_LIMIT as nat), input, fuel),
        Arch::Other => (Config::start(), Err(RunError::UnsupportedArch)),
    }
}

/// Compiles and runs `prog` with the backend of `arch`. An architecture
/// without a backend is an error, and nothing runs.
pub fn run(arch: Arch, prog: &[u8], input: &[u8], fuel: u64) -> (o: Outcome)
    ensures
        o.is(run_on(arch, prog@, input@, fuel as nat)),
{
    match arch {
        Arch::X64 => x64_jit::run(prog, input, fuel),
        Arch::Aarch64 => aarch64_jit::run(prog, input, fuel),
        Arch::Other => Outcome::refused(RunError::UnsupportedArch),
    }
}

} // verus!
