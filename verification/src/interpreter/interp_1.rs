use vstd::prelude::*;
use vstd::slice::slice_to_vec;
use crate::errors::{CompileError, RunError};
use crate::interpreter::vm::SourceMachine;
use crate::machine::{Machine, Outcome, Snapshot, drive};
use crate::scan::check;
use crate::semantics::{run_code, source_code};

verus! {

/// Makes a machine that runs `prog` byte by byte, after checking that its
/// loops are balanced.
pub fn load(prog: &[u8]) -> (r: Result<SourceMachine, CompileError>)
    ensures
        match r {
            Ok(m) => source_code(prog@) == Ok::<_, CompileError>(m.acts()) && m.program() == prog@
                && m.state() == Snapshot::start(),
            Err(e) => source_code(prog@) == Err::<Seq<crate::machine::Act>, _>(e),
        },
{
    let src = slice_to_vec(prog);
    match check(&src) {
        Ok(()) => Ok(SourceMachine::from_balanced(src)),
        Err(e) => Err(e),
    }
}

/// Runs `prog` on `input` for at most `fuel` steps, one source byte per
/// step, searching for the partner of a loop delimiter whenever it jumps.
pub fn run(prog: &[u8], input: &[u8], fuel: u64) -> (o: Outcome)
    ensures
        o.is(run_code(source_code(prog@), input@, fuel as nat)),
{
    match load(prog) {
        Ok(m) => {
            let (_, o) = drive(m, input, fuel);
            o
        },
        Err(e) => Outcome::refused(RunError::Compile(e)),
    }
}

} // verus!
