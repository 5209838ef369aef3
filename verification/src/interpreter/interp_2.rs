use vstd::prelude::*;
use crate::brackets::{balanced, lemma_verdicts, verdict};
use crate::errors::{CompileError, RunError};
use crate::interpreter::vm::OpMachine;
use crate::laws::balance::lemma_verdict_kept;
use crate::machine::{Act, Machine, Outcome, Snapshot, drive};
use crate::ops::{OpSequence, byte_deltas, lex, lex_spec, op_deltas};
use crate::scan::check;
use crate::semantics::{lexed_code, run_code};

verus! {

/// Turns source bytes into operations, one per instruction byte, and checks
/// that the loops are balanced. The loop delimiters stay unlinked.
pub fn parse(prog: &[u8]) -> (r: Result<OpSequence, CompileError>)
    ensures
        r is Ok <==> balanced(byte_deltas(prog@)),
        r matches Err(e) ==> verdict(byte_deltas(prog@)) == Err::<(), _>(e),
        match r {
            Ok(ops) => verdict(op_deltas(ops@)) is Ok && ops@ == lex_spec(prog@, false, false),
            Err(e) => verdict(op_deltas(lex_spec(prog@, false, false))) == Err::<(), _>(e),
        },
{
    proof {
        lemma_verdict_kept(prog@, false, false);
        lemma_verdicts(byte_deltas(prog@));
    }
    let ops = lex(prog, false, false);
    match check(&ops) {
        Ok(()) => Ok(ops),
        Err(e) => Err(e),
    }
}

/// Makes a machine that runs the operations of `prog` and searches for the
/// partner of a loop delimiter whenever it jumps.
pub fn load(prog: &[u8]) -> (r: Result<OpMachine, CompileError>)
    ensures
        r is Ok <==> balanced(byte_deltas(prog@)),
        r matches Err(e) ==> verdict(byte_deltas(prog@)) == Err::<(), _>(e),
        match r {
            Ok(m) => lexed_code(prog@, false, false) == Ok::<_, CompileError>(m.acts())
                && m.state() == Snapshot::start(),
            Err(e) => lexed_code(prog@, false, false) == Err::<Seq<Act>, _>(e),
        },
{
    proof {
        lemma_verdict_kept(prog@, false, false);
        lemma_verdicts(byte_deltas(prog@));
    }
    match parse(prog) {
        Ok(ops) => {
            proof {
                lemma_verdicts(op_deltas(ops@));
            }
            Ok(OpMachine::from_balanced(ops))
        },
        Err(e) => Err(e),
    }
}

/// Runs `prog` on `input` for at most `fuel` operations.
pub fn run(prog: &[u8], input: &[u8], fuel: u64) -> (o: Outcome)
    ensures
        o.is(run_code(lexed_code(prog@, false, false), input@, fuel as nat)),
{
    match load(prog) {
        Ok(m) => {
            let (_, o) = drive(m, input, fuel);
            o
        },
        Err(e) => Outcome::refused(RunError::Compile(e)),
    }
}

} // verus!
