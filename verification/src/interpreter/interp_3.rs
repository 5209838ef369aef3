use vstd::prelude::*;
use crate::brackets::{balanced, lemma_verdicts, verdict};
use crate::errors::{CompileError, RunError};
use crate::interpreter::vm::OpMachine;
use crate::laws::balance::lemma_verdict_kept;
use crate::machine::{Act, Machine, Outcome, Snapshot, drive};
use crate::ops::{OpSequence, byte_deltas, lex, lex_spec, op_deltas};
use crate::resolver::{lemma_shape_deltas, link, linked, same_shape};
use crate::semantics::{lemma_shape_acts, lexed_code, run_code};

verus! {

/// Turns source bytes into operations, one per instruction byte, and gives
/// every loop delimiter the index of its partner.
pub fn parse(prog: &[u8]) -> (r: Result<OpSequence, CompileError>)
    ensures
        r is Ok <==> balanced(byte_deltas(prog@)),
        r matches Err(e) ==> verdict(byte_deltas(prog@)) == Err::<(), _>(e),
        match r {
            Ok(ops) => verdict(op_deltas(lex_spec(prog@, false, false))) is Ok && same_shape(
                lex_spec(prog@, false, false),
                ops@,
            ) && linked(ops@),
            Err(e) => verdict(op_deltas(lex_spec(prog@, false, false))) == Err::<(), _>(e),
        },
{
    proof {
        lemma_verdict_kept(prog@, false, false);
        lemma_verdicts(byte_deltas(prog@));
    }
    let ops = lex(prog, false, false);
    proof {
        lemma_verdicts(op_deltas(ops@));
    }
    link(ops)
}

/// Makes a machine that runs the linked operations of `prog`.
pub fn load(prog: &[u8]) -> (r: Result<OpMachine, CompileError>)
    ensures
        r is Ok <==> balanced(byte_deltas(prog@)),
        r matches Err(e) ==> verdict(byte_deltas(prog@)) == Err::<(), _>(e),
        match r {
            Ok(m) => lexed_code(prog@, false, false) == Ok::<_, CompileError>(m.acts())
                && m.state() == Snapshot::start(),
            Err(e) => lexed_code(prog@, false, false) == Err::<Seq<Act>, _>(e),
        },
{
    proof {
        lemma_verdict_kept(prog@, false, false);
        lemma_verdicts(byte_deltas(prog@));
    }
    match parse(prog) {
        Ok(ops) => {
            proof {
                let raw = lex_spec(prog@, false, false);
                lemma_verdicts(op_deltas(raw));
                lemma_shape_deltas(raw, ops@);
                lemma_shape_acts(raw, ops@);
            }
            Ok(OpMachine::from_linked(ops))
        },
        Err(e) => Err(e),
    }
}

/// Runs `prog` on `input` for at most `fuel` operations.
pub fn run(prog: &[u8], input: &[u8], fuel: u64) -> (o: Outcome)
    ensures
        o.is(run_code(lexed_code(prog@, false, false), input@, fuel as nat)),
{
    match load(prog) {
        Ok(m) => {
            let (_, o) = drive(m, input, fuel);
            o
        },
        Err(e) => Outcome::refused(RunError::Compile(e)),
    }
}

} // verus!
