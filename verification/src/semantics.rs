use vstd::prelude::*;
use crate::bf_types::{CH_ADD, CH_CLOSE, CH_IN, CH_LEFT, CH_OPEN, CH_OUT, CH_RIGHT, CH_SUB};
use crate::brackets::{partner, verdict};
use crate::errors::{CompileError, RunError};
use crate::machine::{Act, Config, run_spec};
use crate::ops::{Op, byte_deltas, lex_spec, op_deltas};
use crate::resolver::{lemma_shape_deltas, same_shape};

verus! {

/// What the operation at `k` means. A loop delimiter jumps to the position
/// after its partner, whatever index it carries.
pub open spec fn op_act(ops: Seq<Op>, k: int) -> Act {
    match ops[k] {
        Op::Left(n) => Act::Left(n as int),
        Op::Right(n) => Act::Right(n as int),
        Op::Add(n) => Act::Add(n),
        Op::Sub(n) => Act::Sub(n),
        Op::Zero => Act::Clear,
        Op::LBrack(_) => Act::IfZero(partner(op_deltas(ops), k) + 1),
        Op::RBrack(_) => Act::IfNonZero(partner(op_deltas(ops), k) + 1),
        Op::Output => Act::Put,
        Op::Input => Act::Get,
    }
}

/// What an operation sequence means, position by position.
pub open spec fn ops_acts(ops: Seq<Op>) -> Seq<Act> {
    Seq::new(ops.len(), |k: int| op_act(ops, k))
}

/// What the source byte at `k` means. A byte that is no instruction is skipped.
pub open spec fn byte_act(src: Seq<u8>, k: int) -> Act {
    let c = src[k];
    if c == CH_LEFT {
        Act::Left(1)
    } else if c == CH_RIGHT {
        Act::Right(1)
    } else if c == CH_ADD {
        Act::Add(1)
    } else if c == CH_SUB {
        Act::Sub(1)
    } else if c == CH_OPEN {
        Act::IfZero(partner(byte_deltas(src), k) + 1)
    } else if c == CH_CLOSE {
        Act::IfNonZero(partner(byte_deltas(src), k) + 1)
    } else if c == CH_OUT {
        Act::Put
    } else if c == CH_IN {
        Act::Get
    } else {
        Act::Skip
    }
}

/// What a source text means, byte by byte.
pub open spec fn source_acts(src: Seq<u8>) -> Seq<Act> {
    Seq::new(src.len(), |k: int| byte_act(src, k))
}

/// A program that is run only if its loops are balanced.
pub open spec fn guarded(d: Seq<int>, acts: Seq<Act>) -> Result<Seq<Act>, CompileError> {
    match verdict(d) {
        Ok(_) => Ok(acts),
        Err(e) => Err(e),
    }
}

/// What a source text means when it is run byte by byte.
pub open spec fn source_code(src: Seq<u8>) -> Result<Seq<Act>, CompileError> {
    guarded(byte_deltas(src), source_acts(src))
}

/// What a source text means when it is run through the front-end.
pub open spec fn lexed_code(src: Seq<u8>, fuse: bool, clear: bool) -> Result<
    Seq<Act>,
    CompileError,
> {
    let ops = lex_spec(src, fuse, clear);
    guarded(op_deltas(ops), ops_acts(ops))
}

/// A whole run with an output that holds `room` bytes at most, if that is
/// not `None`: a refused program leaves nothing behind, an accepted one runs
/// from the start for at most `fuel` steps.
pub open spec fn run_code_within(
    code: Result<Seq<Act>, CompileError>,
    input: Seq<u8>,
    room: Option<nat>,
    fuel: nat,
) -> (Config, Result<(), RunError>) {
    match code {
        Ok(acts) => run_spec(acts, input, Config::start_within(room), fuel),
        Err(e) => (Config::start_within(room), Err(RunError::Compile(e))),
    }
}

/// A whole run with no limit to the output.
pub open spec fn run_code(code: Result<Seq<Act>, CompileError>, input: Seq<u8>, fuel: nat) -> (
    Config,
    Result<(), RunError>,
) {
    run_code_within(code, input, None, fuel)
}

/// The partner indices that the delimiters carry do not change what a
/// sequence means.
pub proof fn lemma_shape_acts(a: Seq<Op>, b: Seq<Op>)
    requires
        same_shape(a, b),
    ensures
        ops_acts(a) == ops_acts(b),
{
    lemma_shape_deltas(a, b);
    assert forall|k: int| 0 <= k < a.len() implies op_act(a, k) == op_act(b, k) by {
        let o = a[k];
    }
    assert(ops_acts(a) =~= ops_acts(b));
}

} // verus!
