use vstd::prelude::*;

verus! {

/// A structural error found before any code runs.
#[derive(Clone, Copy, Debug, PartialEq, Eq, Structural)]
pub enum CompileError {
    /// A loop-close with no loop-open before it.
    UnmatchedClose,
    /// A loop-open that is never closed.
    UnmatchedOpen,
}

/// Why a run did not succeed.
#[derive(Clone, Copy, Debug, PartialEq, Eq, Structural)]
pub enum RunError {
    /// The source has unbalanced loop delimiters.
    Compile(CompileError),
    /// A byte transfer failed: the input is exhausted or the output refused a write.
    Io,
    /// The data pointer would have left the tape.
    Memory,
    /// The step budget ran out before the program finished.
    StepLimit,
    /// No backend exists for the host architecture.
    UnsupportedArch,
    /// The code buffer could not be made executable.
    Backend,
    /// Generated code returned a status that no backend defines.
    Unknown(u8),
}

impl CompileError {
    /// The wording of the error.
    pub open spec fn message_spec(self) -> Seq<char> {
        match self {
            CompileError::UnmatchedClose => "] without matching ["@,
            CompileError::UnmatchedOpen => "[ without matching ]"@,
        }
    }

    /// The wording of the error, for a person to read.
    pub fn message(&self) -> (m: &'static str)
        ensures
            m@ == self.message_spec(),
    {
        match self {
            CompileError::UnmatchedClose => "] without matching [",
            CompileError::UnmatchedOpen => "[ without matching ]",
        }
    }
}

impl RunError {
    /// The wording of the error.
    pub open spec fn message_spec(self) -> Seq<char> {
        match self {
            RunError::Compile(e) => e.message_spec(),
            RunError::Io => "IO error"@,
            RunError::Memory => "Memory Error"@,
            RunError::StepLimit => "Step limit reached"@,
            RunError::UnsupportedArch => "Architecture not supported!"@,
            RunError::Backend => "Assembler finalize error"@,
            RunError::Unknown(_) => "Unknown Error"@,
        }
    }

    /// The wording of the error, for a person to read. An unknown status is
    /// not part of it.
    pub fn message(&self) -> (m: &'static str)
        ensures
            m@ == self.message_spec(),
    {
        match self {
            RunError::Compile(e) => e.message(),
            RunError::Io => "IO error",
            RunError::Memory => "Memory Error",
            RunError::StepLimit => "Step limit reached",
            RunError::UnsupportedArch => "Architecture not supported!",
            RunError::Backend => "Assembler finalize error",
            RunError::Unknown(_) => "Unknown Error",
        }
    }
}

} // verus!
