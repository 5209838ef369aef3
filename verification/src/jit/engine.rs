use vstd::prelude::*;
use crate::errors::{CompileError, RunError};
use crate::jit::jit::Arch;
use crate::jit::{aarch64_jit, x64_jit};

verus! {

/// Where one run of the execution engine stands.
#[derive(Clone, Copy, Debug, PartialEq, Eq, Structural)]
pub enum Phase {
    /// Nothing has been compiled.
    Unbuilt,
    /// The plan exists; no native code has been made executable.
    Compiled,
    /// The native entry point has been called and has not returned.
    Executing,
    /// The native code returned the success status.
    Succeeded,
    /// The run ended without success, for this reason.
    Failed(RunError),
}

/// What happened outside the engine since the last phase.
#[derive(Clone, Copy, Debug, PartialEq, Eq, Structural)]
pub enum Event {
    /// Compilation ended with a plan.
    Built,
    /// Compilation ended with a structural error.
    Refused(CompileError),
    /// The code buffer was made executable, or could not be.
    Finalized(bool),
    /// The native code returned with this status.
    Returned(u8),
}

/// What a status returned by the generated code of `arch` means.
pub open spec fn status_meaning(arch: Arch, status: u8) -> Result<(), RunError> {
    match arch {
        Arch::X64 => x64_jit::outcome_spec(status),
        Arch::Aarch64 => aarch64_jit::outcome_spec(status),
        Arch::Other => Err(RunError::UnsupportedArch),
    }
}

/// The phase that follows `phase` on `event`. An event that does not belong
/// to the phase changes nothing.
pub open spec fn next_phase(arch: Arch, phase: Phase, event: Event) -> Phase {
    match (phase, event) {
        (Phase::Unbuilt, Event::Built) => if arch == Arch::Other {
            Phase::Failed(RunError::UnsupportedArch)
        } else {
            Phase::Compiled
        },
        (Phase::Unbuilt, Event::Refused(e)) => if arch == Arch::Other {
            Phase::Failed(RunError::UnsupportedArch)
        } else {
            Phase::Failed(RunError::Compile(e))
        },
        (Phase::Compiled, Event::Finalized(ok)) => if ok {
            Phase::Executing
        } else {
            Phase::Failed(RunError::Backend)
        },
        (Phase::Executing, Event::Returned(status)) => match status_meaning(arch, status) {
            Ok(_) => Phase::Succeeded,
            Err(e) => Phase::Failed(e),
        },
        _ => phase,
    }
}

/// No phase is skipped: a run executes only after it was compiled, and
/// succeeds only after it executed.
pub proof fn law_no_phase_skipped(arch: Arch, phase: Phase, event: Event)
    ensures
        next_phase(arch, phase, event) == Phase::Compiled ==> phase == Phase::Unbuilt || phase
            == Phase::Compiled,
        next_phase(arch, phase, event) == Phase::Executing ==> phase == Phase::Compiled || phase
            == Phase::Executing,
        next_phase(arch, phase, event) == Phase::Succeeded ==> phase == Phase::Executing || phase
            == Phase::Succeeded,
        phase is Failed ==> next_phase(arch, phase, event) == phase,
        phase == Phase::Succeeded ==> next_phase(arch, phase, event) == phase,
{
}

/// The execution engine of one run: it decides, from what the surroundings
/// report, whether the run may go on and how it ended.
#[derive(Clone, Copy, Debug, PartialEq, Eq, Structural)]
pub struct Engine {
    pub arch: Arch,
    pub phase: Phase,
}

impl Engine {
    /// An engine for `arch` that has built nothing yet.
    pub fn new(arch: Arch) -> (e: Engine)
        ensures
            e == (Engine { arch, phase: Phase::Unbuilt }),
    {
        Engine { arch, phase: Phase::Unbuilt }
    }

    /// Says what the status means that the generated code of this engine's
    /// architecture returned.
    pub fn outcome(&self, status: u8) -> (r: Result<(), RunError>)
        ensures
            r == status_meaning(self.arch, status),
    {
        match self.arch {
            Arch::X64 => x64_jit::outcome(status),
            Arch::Aarch64 => aarch64_jit::outcome(status),
            Arch::Other => Err(RunError::UnsupportedArch),
        }
    }

    /// The engine after `event`.
    pub fn advance(self, event: Event) -> (e: Engine)
        ensures
            e.arch == self.arch,
            e.phase == next_phase(self.arch, self.phase, event),
    {
        let phase = match (self.phase, event) {
            (Phase::Unbuilt, Event::Built) => {
                match self.arch {
                    Arch::Other => Phase::Failed(RunError::UnsupportedArch),
                    _ => Phase::Compiled,
                }
            },
            (Phase::Unbuilt, Event::Refused(e)) => {
                match self.arch {
                    Arch::Other => Phase::Failed(RunError::UnsupportedArch),
                    _ => Phase::Failed(RunError::Compile(e)),
                }
            },
            (Phase::Compiled, Event::Finalized(ok)) => {
                if ok {
                    Phase::Executing
                } else {
                    Phase::Failed(RunError::Backend)
                }
            },
            (Phase::Executing, Event::Returned(status)) => {
                match self.outcome(status) {
                    Ok(_) => Phase::Succeeded,
                    Err(e) => Phase::Failed(e),
                }
            },
            (p, _) => p,
        };
        Engine { arch: self.arch, phase }
    }

    /// Whether the native entry point may be called now.
    pub fn may_execute(&self) -> (b: bool)
        ensures
            b == (self.phase == Phase::Executing),
    {
        match self.phase {
            Phase::Executing => true,
            _ => false,
        }
    }
}

} // verus!
