use vstd::prelude::*;
use crate::brackets::{balanced, lemma_verdicts, verdict};
use crate::errors::{CompileError, RunError};
use crate::jit::image::{Image, plan_code};
use crate::jit::plan::{Program, emit, plan_spec, rank};
use crate::laws::balance::lemma_verdict_kept;
use crate::machine::{Machine, Outcome, drive};
use crate::ops::{OpSequence, byte_deltas, lex, lex_spec, op_deltas};
use crate::semantics::run_code;

pub use crate::jit::state::State;

verus! {

/// Largest pointer move that one command may hold: what fits two
/// 12-bit immediates, one of them shifted.
pub const MOVE_LIMIT: u32 = 0xFF_FFFF;

/// Status that generated code returns when the program finished.
pub const STATUS_OK: u8 = 0;

/// Status that generated code returns when a byte transfer failed.
pub const STATUS_IO: u8 = 2;

/// Status that generated code returns when the data pointer would have left
/// the tape.
pub const STATUS_MEMORY: u8 = 1;

/// Front-end of the back-end: fuses runs and the clear idiom. Loop
/// delimiters stay unlinked; the emitter pairs them with its label stack.
pub fn parse(prog_src: &[u8]) -> (r: Result<OpSequence, &'static str>)
    ensures
        r matches Ok(ops) && ops@ == lex_spec(prog_src@, true, true),
{
    Ok(lex(prog_src, true, true))
}

/// Compiles a source text into the plan from which the native code is
/// emitted. Succeeds exactly when the loops are balanced; the plan then has
/// one entry point, at its start.
pub fn compile(prog: &[u8]) -> (r: Result<Program, CompileError>)
    ensures
        r is Ok <==> balanced(byte_deltas(prog@)),
        r matches Err(e) ==> verdict(byte_deltas(prog@)) == Err::<(), _>(e),
        match r {
            Ok(p) => verdict(op_deltas(lex_spec(prog@, true, true))) is Ok && p.code() == plan_spec(
                lex_spec(prog@, true, true),
                MOVE_LIMIT as nat,
            ) && p.loops() == rank(
                op_deltas(lex_spec(prog@, true, true)),
                lex_spec(prog@, true, true).len() as int,
            ),
            Err(e) => verdict(op_deltas(lex_spec(prog@, true, true))) == Err::<(), _>(e),
        },
{
    proof {
        lemma_verdict_kept(prog@, true, true);
        lemma_verdicts(byte_deltas(prog@));
    }
    let bf_ops = lex(prog, true, true);
    emit(&bf_ops, MOVE_LIMIT)
}

/// What a status returned by generated code means.
pub open spec fn outcome_spec(status: u8) -> Result<(), RunError> {
    if status == STATUS_OK {
        Ok(())
    } else if status == STATUS_IO {
        Err(RunError::Io)
    } else if status == STATUS_MEMORY {
        Err(RunError::Memory)
    } else {
        Err(RunError::Unknown(status))
    }
}

/// Says what the status that generated code returned means.
pub fn outcome(status: u8) -> (r: Result<(), RunError>)
    ensures
        r == outcome_spec(status),
{
    if status == STATUS_OK {
        Ok(())
    } else if status == STATUS_IO {
        Err(RunError::Io)
    } else if status == STATUS_MEMORY {
        Err(RunError::Memory)
    } else {
        Err(RunError::Unknown(status))
    }
}

/// Splits a pointer move into the two 12-bit immediates of an add or
/// subtract pair: the low part, and the part that is shifted left by 12.
pub fn split_move(amount: u32) -> (r: (u32, u32))
    ensures
        r.0 + r.1 * 4096 == amount,
        r.0 < 4096,
        amount <= MOVE_LIMIT ==> r.1 < 4096,
{
    (amount % 4096, amount / 4096)
}

/// Compiles `prog` and runs the plan on `input` held in memory, command by
/// command, for at most `fuel` commands. This is what the native code made
/// from the plan does when it is called; emitting and calling that code is
/// left to the program around the library.
pub fn run(prog: &[u8], input: &[u8], fuel: u64) -> (o: Outcome)
    ensures
        o.is(run_code(plan_code(prog@, MOVE_LIMIT as nat), input@, fuel as nat)),
{
    match compile(prog) {
        Ok(program) => {
            let image = Image::finalize(program);
            let (_, o) = drive(image, input, fuel);
            o
        },
        Err(e) => Outcome::refused(RunError::Compile(e)),
    }
}

} // verus!
