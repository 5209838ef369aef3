use vstd::prelude::*;
use crate::bf_types::{CH_CLOSE, CH_OPEN};
use crate::brackets::{balanced, depth, has_stray_close, has_stray_open, lemma_verdicts, matched, never_negative, verdict};
use crate::errors::CompileError;
use crate::ops::{Op, byte_deltas, op_deltas};

verus! {

/// A program text in which loops are opened and closed.
pub trait Delimited {
    /// The delta sequence of the text.
    spec fn deltas(&self) -> Seq<int>;

    /// Number of positions.
    fn size(&self) -> (n: usize)
        ensures
            n == self.deltas().len(),
    ;

    /// What position `k` does to the nesting depth.
    fn delta(&self, k: usize) -> (d: i8)
        requires
            k < self.deltas().len(),
        ensures
            d == self.deltas()[k as int],
            -1 <= d <= 1,
    ;
}

impl Delimited for Vec<u8> {
    open spec fn deltas(&self) -> Seq<int> {
        byte_deltas(self@)
    }

    fn size(&self) -> (n: usize) {
        self.len()
    }

    fn delta(&self, k: usize) -> (d: i8) {
        let c = self[k];
        if c == CH_OPEN {
            1
        } else if c == CH_CLOSE {
            -1
        } else {
            0
        }
    }
}

impl Delimited for Vec<Op> {
    open spec fn deltas(&self) -> Seq<int> {
        op_deltas(self@)
    }

    fn size(&self) -> (n: usize) {
        self.len()
    }

    fn delta(&self, k: usize) -> (d: i8) {
        match self[k] {
            Op::LBrack(_) => 1,
            Op::RBrack(_) => -1,
            _ => 0,
        }
    }
}

/// Says whether the loops of a text are balanced, and if not, what is wrong
/// first: a close without an open, or else an open left at the end.
pub fn check<D: Delimited>(p: &D) -> (r: Result<(), CompileError>)
    ensures
        r is Ok <==> balanced(p.deltas()),
        r == Err::<(), CompileError>(CompileError::UnmatchedClose) <==> has_stray_close(p.deltas()),
        r == Err::<(), CompileError>(CompileError::UnmatchedOpen) <==> has_stray_open(p.deltas()),
        r == verdict(p.deltas()),
{
    let ghost d = p.deltas();
    proof {
        lemma_verdicts(d);
    }
    let n = p.size();
    let mut level: usize = 0;
    let mut i: usize = 0;
    while i < n
        invariant
            i <= n,
            n == d.len(),
            d == p.deltas(),
            level == depth(d, i as int),
            level <= i,
            never_negative(d, i as int),
        decreases n - i,
    {
        let dl = p.delta(i);
        assert(depth(d, i + 1) == depth(d, i as int) + d[i as int]);
        if dl == 1 {
            level = level + 1;
        } else if dl == -1 {
            if level == 0 {
                proof {
                    lemma_verdicts(d);
                    assert(depth(d, i + 1) < 0);
                    assert(has_stray_close(d));
                }
                return Err(CompileError::UnmatchedClose);
            }
            level = level - 1;
        }
        assert(never_negative(d, i + 1)) by {
            assert forall|k: int| 0 <= k <= i + 1 implies #[trigger] depth(d, k) >= 0 by {}
        }
        i = i + 1;
    }
    if level != 0 {
        Err(CompileError::UnmatchedOpen)
    } else {
        Ok(())
    }
}

/// Finds the close of the loop opened at `i` by walking forward and counting
/// nested loops.
pub(crate) fn find_close<D: Delimited>(p: &D, i: usize) -> (j: usize)
    requires
        balanced(p.deltas()),
        i < p.deltas().len(),
        p.deltas()[i as int] == 1,
    ensures
        matched(p.deltas(), i as int, j as int),
{
    let ghost d = p.deltas();
    let n = p.size();
    let mut level: usize = 1;
    let mut k: usize = i + 1;
    assert(depth(d, i + 1) == depth(d, i as int) + d[i as int]);
    assert(depth(d, i as int) >= 0);
    assert(depth(d, n as int) == 0);
    loop
        invariant
            i < k <= n,
            n == d.len(),
            d == p.deltas(),
            d[i as int] == 1,
            depth(d, i as int) >= 0,
            depth(d, n as int) == 0,
            level >= 1,
            level == depth(d, k as int) - depth(d, i as int),
            level <= k - i,
            forall|m: int| i < m <= k ==> #[trigger] depth(d, m) > depth(d, i as int),
        decreases n - k,
    {
        assert(k < n);
        let dl = p.delta(k);
        assert(depth(d, k + 1) == depth(d, k as int) + d[k as int]);
        if dl == 1 {
            level = level + 1;
        } else if dl == -1 {
            level = level - 1;
            if level == 0 {
                return k;
            }
        }
        k = k + 1;
    }
}

/// Finds the open of the loop closed at `j` by walking backward and counting
/// nested loops.
pub(crate) fn find_open<D: Delimited>(p: &D, j: usize) -> (i: usize)
    requires
        balanced(p.deltas()),
        j < p.deltas().len(),
        p.deltas()[j as int] == -1,
    ensures
        matched(p.deltas(), i as int, j as int),
{
    let ghost d = p.deltas();
    let mut level: usize = 1;
    let mut k: usize = j;
    assert(depth(d, j + 1) == depth(d, j as int) + d[j as int]);
    assert(depth(d, j + 1) >= 0);
    assert(depth(d, 0) == 0);
    loop
        invariant
            k <= j < d.len(),
            d == p.deltas(),
            d[j as int] == -1,
            depth(d, j as int) >= 1,
            depth(d, j + 1) == depth(d, j as int) - 1,
            level >= 1,
            level == 1 + depth(d, k as int) - depth(d, j as int),
            level <= 1 + (j - k),
            forall|m: int| k <= m <= j ==> #[trigger] depth(d, m) >= depth(d, j as int),
        decreases k,
    {
        assert(depth(d, 0) == 0);
        assert(k > 0);
        k = k - 1;
        let dl = p.delta(k);
        assert(depth(d, k + 1) == depth(d, k as int) + d[k as int]);
        if dl == -1 {
            level = level + 1;
        } else if dl == 1 {
            level = level - 1;
            if level == 0 {
                return k;
            }
        }
    }
}

} // verus!
