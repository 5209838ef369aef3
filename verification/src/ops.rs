use vstd::prelude::*;
use crate::bf_types::{CH_ADD, CH_CLOSE, CH_IN, CH_LEFT, CH_OPEN, CH_OUT, CH_RIGHT, CH_SUB, is_run_byte};

verus! {

/// One operation of the intermediate sequence.
///
/// The sequence is flat: nesting is carried only by the partner indices of
/// `LBrack` and `RBrack`.
#[derive(Clone, Copy, Debug, PartialEq, Eq, Structural)]
pub enum Op {
    /// Move the data pointer towards cell zero by a positive count.
    Left(usize),
    /// Move the data pointer away from cell zero by a positive count.
    Right(usize),
    /// Add to the current cell, wrapping at 256. The amount is in `1..=255`.
    Add(u8),
    /// Subtract from the current cell, wrapping at 256. The amount is in `1..=255`.
    Sub(u8),
    /// Store zero in the current cell.
    Zero,
    /// Loop open, with the index of its close once linked.
    LBrack(usize),
    /// Loop close, with the index of its open once linked.
    RBrack(usize),
    /// Write the current cell.
    Output,
    /// Read into the current cell.
    Input,
}

/// Partner index of a loop delimiter that has not been linked yet.
pub const PENDING: usize = usize::MAX;

pub type OpSequence = Vec<Op>;

/// Every count and amount is in its range: a move is by one cell or more,
/// a cell change by 1 to 255.
pub open spec fn sized(ops: Seq<Op>) -> bool {
    forall|k: int|
        0 <= k < ops.len() ==> match #[trigger] ops[k] {
            Op::Left(n) => n >= 1,
            Op::Right(n) => n >= 1,
            Op::Add(n) => n >= 1,
            Op::Sub(n) => n >= 1,
            _ => true,
        }
}

/// Contribution of one operation to the nesting depth.
pub open spec fn op_delta(op: Op) -> int {
    match op {
        Op::LBrack(_) => 1,
        Op::RBrack(_) => -1,
        _ => 0,
    }
}

/// The delta sequence of an operation sequence.
pub open spec fn op_deltas(ops: Seq<Op>) -> Seq<int> {
    Seq::new(ops.len(), |k: int| op_delta(ops[k]))
}

/// Contribution of one source byte to the nesting depth.
pub open spec fn byte_delta(c: u8) -> int {
    if c == CH_OPEN {
        1
    } else if c == CH_CLOSE {
        -1
    } else {
        0
    }
}

/// The delta sequence of a source text.
pub open spec fn byte_deltas(src: Seq<u8>) -> Seq<int> {
    Seq::new(src.len(), |k: int| byte_delta(src[k]))
}

/// Length of the run of bytes equal to `c` that starts at `i`.
pub open spec fn run_len(src: Seq<u8>, i: int, c: u8) -> nat
    decreases src.len() - i,
{
    if 0 <= i < src.len() && src[i] == c {
        1 + run_len(src, i + 1, c)
    } else {
        0
    }
}

/// Number of bytes that the run starting at the run byte `i` takes up: the
/// byte itself and, with `fuse`, every repetition that follows it directly.
pub open spec fn run_width(src: Seq<u8>, i: int, fuse: bool) -> nat {
    1 + if fuse {
        run_len(src, i + 1, src[i])
    } else {
        0
    }
}

/// The operation that a run of `n` bytes `c` stands for: a move by `n`, or a
/// cell change by `n` modulo 256, which is nothing at all when that is zero.
pub open spec fn run_ops(c: u8, n: nat) -> Seq<Op> {
    if c == CH_LEFT {
        seq![Op::Left(n as usize)]
    } else if c == CH_RIGHT {
        seq![Op::Right(n as usize)]
    } else if n % 256 == 0 {
        Seq::empty()
    } else if c == CH_ADD {
        seq![Op::Add((n % 256) as u8)]
    } else {
        seq![Op::Sub((n % 256) as u8)]
    }
}

/// The three bytes at `i` are the clear-cell idiom.
pub open spec fn is_clear_idiom(src: Seq<u8>, i: int) -> bool {
    0 <= i && i + 2 < src.len() && src[i] == CH_OPEN && src[i + 1] == CH_SUB && src[i + 2]
        == CH_CLOSE
}

/// The operations that the source from byte `i` on stands for.
///
/// With `fuse`, a maximal run of one of `<`, `>`, `+`, `-` becomes a single
/// operation; without it each byte is a run of its own. With `clear`, the
/// idiom `[-]` becomes `Zero`, and is looked for before `[` is taken as a
/// loop open. Loop delimiters come out unlinked.
pub open spec fn lex_from(src: Seq<u8>, i: int, fuse: bool, clear: bool) -> Seq<Op>
    decreases src.len() - i,
{
    if i < 0 || i >= src.len() {
        Seq::empty()
    } else {
        let c = src[i];
        if is_run_byte(c) {
            let extra: nat = if fuse {
                run_len(src, i + 1, c)
            } else {
                0
            };
            proof {
                lemma_run_len_bound(src, i + 1, c);
            }
            run_ops(c, 1 + extra) + lex_from(src, i + 1 + extra, fuse, clear)
        } else if c == CH_OPEN {
            if clear && is_clear_idiom(src, i) {
                seq![Op::Zero] + lex_from(src, i + 3, fuse, clear)
            } else {
                seq![Op::LBrack(PENDING)] + lex_from(src, i + 1, fuse, clear)
            }
        } else if c == CH_CLOSE {
            seq![Op::RBrack(PENDING)] + lex_from(src, i + 1, fuse, clear)
        } else if c == CH_OUT {
            seq![Op::Output] + lex_from(src, i + 1, fuse, clear)
        } else if c == CH_IN {
            seq![Op::Input] + lex_from(src, i + 1, fuse, clear)
        } else {
            lex_from(src, i + 1, fuse, clear)
        }
    }
}

/// The operations that a whole source stands for.
pub open spec fn lex_spec(src: Seq<u8>, fuse: bool, clear: bool) -> Seq<Op> {
    lex_from(src, 0, fuse, clear)
}

/// A run that starts at `i` ends inside the source.
pub proof fn lemma_run_len_bound(src: Seq<u8>, i: int, c: u8)
    requires
        0 <= i <= src.len(),
    ensures
        i + run_len(src, i, c) <= src.len(),
        forall|k: int| i <= k < i + run_len(src, i, c) ==> src[k] == c,
        i + run_len(src, i, c) < src.len() ==> src[i + run_len(src, i, c)] != c,
    decreases src.len() - i,
{
    if i < src.len() && src[i] == c {
        lemma_run_len_bound(src, i + 1, c);
    }
}

/// End of the run that starts at the run byte `i`.
fn run_end(src: &[u8], i: usize, fuse: bool) -> (j: usize)
    requires
        i < src.len(),
    ensures
        j == i + run_width(src@, i as int, fuse),
        j <= src.len(),
{
    let c = src[i];
    let mut j: usize = i + 1;
    if fuse {
        while j < src.len() && src[j] == c
            invariant
                i < j <= src.len(),
                run_len(src@, i + 1, c) == (j - i - 1) + run_len(src@, j as int, c),
            decreases src.len() - j,
        {
            j += 1;
        }
    }
    j
}

/// Appends the operation of a run of `n` bytes `c`.
fn push_run(ops: &mut Vec<Op>, c: u8, n: usize)
    requires
        is_run_byte(c),
    ensures
        final(ops)@ == old(ops)@ + run_ops(c, n as nat),
{
    if c == CH_LEFT {
        ops.push(Op::Left(n));
    } else if c == CH_RIGHT {
        ops.push(Op::Right(n));
    } else {
        let m: u8 = (n % 256) as u8;
        if m != 0 {
            if c == CH_ADD {
                ops.push(Op::Add(m));
            } else {
                ops.push(Op::Sub(m));
            }
        }
    }
    assert(ops@ =~= old(ops)@ + run_ops(c, n as nat));
}

/// Front-end: turns source bytes into operations, skipping every byte that is
/// not an instruction.
///
/// A fused move keeps the whole length of its run. A fused cell change is
/// reduced modulo 256 here, not when it is run, and a run that comes to a
/// multiple of 256 leaves no operation at all: so every amount that is
/// found in a sequence is in `1..=255`.
pub fn lex(src: &[u8], fuse: bool, clear: bool) -> (ops: Vec<Op>)
    ensures
        ops@ == lex_spec(src@, fuse, clear),
{
    let mut ops: Vec<Op> = Vec::new();
    let mut i: usize = 0;
    while i < src.len()
        invariant
            i <= src.len(),
            ops@ + lex_from(src@, i as int, fuse, clear) == lex_from(src@, 0, fuse, clear),
        decreases src.len() - i,
    {
        let c = src[i];
        let ghost before = ops@;
        let ghost here = lex_from(src@, i as int, fuse, clear);
        let mut next: usize = i + 1;
        if c == CH_LEFT || c == CH_RIGHT || c == CH_ADD || c == CH_SUB {
            next = run_end(src, i, fuse);
            push_run(&mut ops, c, next - i);
        } else if c == CH_OPEN {
            if clear && src.len() - i > 2 && src[i + 1] == CH_SUB && src[i + 2] == CH_CLOSE {
                ops.push(Op::Zero);
                next = i + 3;
            } else {
                ops.push(Op::LBrack(PENDING));
            }
        } else if c == CH_CLOSE {
            ops.push(Op::RBrack(PENDING));
        } else if c == CH_OUT {
            ops.push(Op::Output);
        } else if c == CH_IN {
            ops.push(Op::Input);
        }
        assert(ops@ + lex_from(src@, next as int, fuse, clear) =~= before + here);
        i = next;
    }
    assert(ops@ + Seq::<Op>::empty() =~= ops@);
    ops
}

} // verus!
