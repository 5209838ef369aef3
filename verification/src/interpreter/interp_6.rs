use vstd::prelude::*;
use crate::brackets::{balanced, lemma_verdicts, verdict};
use crate::errors::{CompileError, RunError};
use crate::interpreter::vm::OpMachine;
use crate::laws::balance::lemma_verdict_kept;
use crate::laws::passes::lemma_cleared_verdict;
use crate::machine::{Act, Machine, Outcome, Snapshot, drive};
use crate::ops::{Op, OpSequence, byte_deltas, lex, lex_spec, op_deltas};
use crate::resolver::{lemma_shape_deltas, link, linked, same_shape};
use crate::semantics::{guarded, lemma_shape_acts, ops_acts, run_code};

verus! {

/// The three operations at `i` are a loop that only subtracts one.
pub open spec fn is_clear_loop(ops: Seq<Op>, i: int) -> bool {
    0 <= i && i + 2 < ops.len() && ops[i] is LBrack && ops[i + 1] == Op::Sub(1) && ops[i + 2] is RBrack
}

/// The operations from `i` on, with every loop that only subtracts one
/// replaced by three clears, so that no index moves.
pub open spec fn clear_from(ops: Seq<Op>, i: int) -> Seq<Op>
    decreases ops.len() - i,
{
    if i < 0 || i >= ops.len() {
        Seq::empty()
    } else if is_clear_loop(ops, i) {
        seq![Op::Zero, Op::Zero, Op::Zero] + clear_from(ops, i + 3)
    } else {
        seq![ops[i]] + clear_from(ops, i + 1)
    }
}

/// The operations that this interpreter runs: fused runs, then the pass that
/// clears.
pub open spec fn pass_ops(src: Seq<u8>) -> Seq<Op> {
    clear_from(lex_spec(src, true, false), 0)
}

/// What a source text means to this interpreter.
pub open spec fn pass_code(src: Seq<u8>) -> Result<Seq<Act>, CompileError> {
    guarded(op_deltas(pass_ops(src)), ops_acts(pass_ops(src)))
}

/// Replaces every loop that only subtracts one by three clears.
pub fn clear_pass(ops: &Vec<Op>) -> (out: Vec<Op>)
    ensures
        out@ == clear_from(ops@, 0),
{
    let mut out: Vec<Op> = Vec::new();
    let n = ops.len();
    let mut i: usize = 0;
    while i < n
        invariant
            i <= n,
            n == ops.len(),
            out@ + clear_from(ops@, i as int) == clear_from(ops@, 0),
        decreases n - i,
    {
        let ghost before = out@;
        let ghost here = clear_from(ops@, i as int);
        let mut hit = false;
        if n - i > 2 {
            let a = ops[i];
            let b = ops[i + 1];
            let c = ops[i + 2];
            hit = match (a, b, c) {
                (Op::LBrack(_), Op::Sub(k), Op::RBrack(_)) => k == 1,
                _ => false,
            };
        }
        assert(hit == is_clear_loop(ops@, i as int));
        if hit {
            out.push(Op::Zero);
            out.push(Op::Zero);
            out.push(Op::Zero);
            assert(out@ + clear_from(ops@, i + 3) =~= before + here);
            i = i + 3;
        } else {
            out.push(ops[i]);
            assert(out@ + clear_from(ops@, i + 1) =~= before + here);
            i = i + 1;
        }
    }
    assert(out@ + Seq::<Op>::empty() =~= out@);
    out
}

/// Turns source bytes into operations in three passes: fuse the runs,
/// replace the loops that only subtract one, link the loop delimiters.
pub fn parse(prog: &[u8]) -> (r: Result<OpSequence, CompileError>)
    ensures
        r is Ok <==> balanced(byte_deltas(prog@)),
        r matches Err(e) ==> verdict(byte_deltas(prog@)) == Err::<(), _>(e),
        match r {
            Ok(ops) => verdict(op_deltas(pass_ops(prog@))) is Ok && same_shape(pass_ops(prog@), ops@)
                && linked(ops@),
            Err(e) => verdict(op_deltas(pass_ops(prog@))) == Err::<(), _>(e),
        },
{
    proof {
        lemma_verdict_kept(prog@, true, false);
        lemma_verdicts(byte_deltas(prog@));
        lemma_cleared_verdict(lex_spec(prog@, true, false));
    }
    let fused = lex(prog, true, false);
    let cleared = clear_pass(&fused);
    proof {
        lemma_verdicts(op_deltas(cleared@));
    }
    link(cleared)
}

/// Makes a machine that runs the operations of `prog`.
pub fn load(prog: &[u8]) -> (r: Result<OpMachine, CompileError>)
    ensures
        r is Ok <==> balanced(byte_deltas(prog@)),
        r matches Err(e) ==> verdict(byte_deltas(prog@)) == Err::<(), _>(e),
        match r {
            Ok(m) => pass_code(prog@) == Ok::<_, CompileError>(m.acts()) && m.state()
                == Snapshot::start(),
            Err(e) => pass_code(prog@) == Err::<Seq<Act>, _>(e),
        },
{
    proof {
        lemma_verdict_kept(prog@, true, false);
        lemma_verdicts(byte_deltas(prog@));
        lemma_cleared_verdict(lex_spec(prog@, true, false));
    }
    match parse(prog) {
        Ok(ops) => {
            proof {
                let raw = pass_ops(prog@);
                lemma_verdicts(op_deltas(raw));
                lemma_shape_deltas(raw, ops@);
                lemma_shape_acts(raw, ops@);
            }
            Ok(OpMachine::from_linked(ops))
        },
        Err(e) => Err(e),
    }
}

/// Runs `prog` on `input` for at most `fuel` operations.
pub fn run(prog: &[u8], input: &[u8], fuel: u64) -> (o: Outcome)
    ensures
        o.is(run_code(pass_code(prog@), input@, fuel as nat)),
{
    match load(prog) {
        Ok(m) => {
            let (_, o) = drive(m, input, fuel);
            o
        },
        Err(e) => Outcome::refused(RunError::Compile(e)),
    }
}

} // verus!
