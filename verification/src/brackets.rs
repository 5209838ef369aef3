use vstd::prelude::*;
use crate::errors::CompileError;

verus! {

/// Nesting depth after the first `k` entries of a delta sequence, in which a
/// loop-open counts `1`, a loop-close `-1` and everything else `0`.
pub open spec fn depth(d: Seq<int>, k: int) -> int
    decreases k,
{
    if k <= 0 {
        0
    } else {
        depth(d, k - 1) + d[k - 1]
    }
}

/// Every entry is `1`, `-1` or `0`.
pub open spec fn is_delta_seq(d: Seq<int>) -> bool {
    forall|k: int| 0 <= k < d.len() ==> -1 <= #[trigger] d[k] <= 1
}

/// No prefix of length at most `n` closes more loops than it opens.
pub open spec fn never_negative(d: Seq<int>, n: int) -> bool {
    forall|k: int| 0 <= k <= n ==> #[trigger] depth(d, k) >= 0
}

/// Loop delimiters are balanced: no close comes before its open, and nothing stays open.
pub open spec fn balanced(d: Seq<int>) -> bool {
    never_negative(d, d.len() as int) && depth(d, d.len() as int) == 0
}

/// Some prefix closes a loop that was never opened.
pub open spec fn has_stray_close(d: Seq<int>) -> bool {
    exists|k: int| 0 <= k <= d.len() && #[trigger] depth(d, k) < 0
}

/// No stray close, but at least one loop is still open at the end.
pub open spec fn has_stray_open(d: Seq<int>) -> bool {
    never_negative(d, d.len() as int) && depth(d, d.len() as int) > 0
}

/// What is wrong with the loops of a text, if anything: the first thing
/// found when reading from the start.
pub open spec fn verdict(d: Seq<int>) -> Result<(), CompileError> {
    if has_stray_close(d) {
        Err(CompileError::UnmatchedClose)
    } else if has_stray_open(d) {
        Err(CompileError::UnmatchedOpen)
    } else {
        Ok(())
    }
}

/// The open at `i` and the close at `j` delimit one loop: the depth returns to
/// its value before `i` for the first time right after `j`.
pub open spec fn matched(d: Seq<int>, i: int, j: int) -> bool {
    &&& 0 <= i < j < d.len()
    &&& d[i] == 1
    &&& d[j] == -1
    &&& depth(d, j + 1) == depth(d, i)
    &&& forall|k: int| i < k <= j ==> #[trigger] depth(d, k) > depth(d, i)
}

/// An open has at most one matching close.
pub proof fn lemma_close_unique(d: Seq<int>, i: int, j1: int, j2: int)
    requires
        matched(d, i, j1),
        matched(d, i, j2),
    ensures
        j1 == j2,
{
    if j1 < j2 {
        assert(depth(d, j1 + 1) > depth(d, i));
    } else if j2 < j1 {
        assert(depth(d, j2 + 1) > depth(d, i));
    }
}

/// A close has at most one matching open.
pub proof fn lemma_open_unique(d: Seq<int>, i1: int, i2: int, j: int)
    requires
        matched(d, i1, j),
        matched(d, i2, j),
    ensures
        i1 == i2,
{
    if i1 < i2 {
        assert(depth(d, i2) > depth(d, i1));
    } else if i2 < i1 {
        assert(depth(d, i1) > depth(d, i2));
    }
}

/// The index that the delimiter at `k` is matched with.
pub open spec fn partner(d: Seq<int>, k: int) -> int {
    if d[k] == 1 {
        choose|j: int| matched(d, k, j)
    } else {
        choose|i: int| matched(d, i, k)
    }
}

/// `partner` names the other end of a matched pair, from either end.
pub proof fn lemma_partner(d: Seq<int>, i: int, j: int)
    requires
        matched(d, i, j),
    ensures
        partner(d, i) == j,
        partner(d, j) == i,
{
    let j2 = choose|j2: int| matched(d, i, j2);
    lemma_close_unique(d, i, j, j2);
    let i2 = choose|i2: int| matched(d, i2, j);
    lemma_open_unique(d, i, i2, j);
}

proof fn lemma_seek_close(d: Seq<int>, i: int, k: int) -> (j: int)
    requires
        balanced(d),
        is_delta_seq(d),
        0 <= i < k <= d.len(),
        d[i] == 1,
        forall|m: int| i < m <= k ==> #[trigger] depth(d, m) > depth(d, i),
    ensures
        matched(d, i, j),
    decreases d.len() - k,
{
    assert(depth(d, d.len() as int) == 0);
    assert(depth(d, i) >= 0);
    assert(depth(d, k) > depth(d, i));
    assert(depth(d, k + 1) == depth(d, k) + d[k]);
    if depth(d, k + 1) == depth(d, i) {
        k
    } else {
        lemma_seek_close(d, i, k + 1)
    }
}

/// In a balanced text every open has a close.
pub proof fn lemma_close_exists(d: Seq<int>, i: int) -> (j: int)
    requires
        balanced(d),
        is_delta_seq(d),
        0 <= i < d.len(),
        d[i] == 1,
    ensures
        matched(d, i, j),
{
    assert(depth(d, i + 1) == depth(d, i) + d[i]);
    lemma_seek_close(d, i, i + 1)
}

proof fn lemma_seek_open(d: Seq<int>, j: int, k: int) -> (i: int)
    requires
        balanced(d),
        is_delta_seq(d),
        0 <= k <= j < d.len(),
        d[j] == -1,
        forall|m: int| k <= m <= j ==> #[trigger] depth(d, m) >= depth(d, j),
    ensures
        matched(d, i, j),
    decreases k,
{
    assert(depth(d, j + 1) == depth(d, j) + d[j]);
    assert(depth(d, j + 1) >= 0);
    assert(depth(d, k) >= depth(d, j));
    assert(depth(d, 0) == 0);
    assert(k > 0);
    assert(depth(d, k) == depth(d, k - 1) + d[k - 1]);
    if depth(d, k - 1) == depth(d, j) - 1 {
        k - 1
    } else {
        lemma_seek_open(d, j, k - 1)
    }
}

/// In a balanced text every close has an open.
pub proof fn lemma_open_exists(d: Seq<int>, j: int) -> (i: int)
    requires
        balanced(d),
        is_delta_seq(d),
        0 <= j < d.len(),
        d[j] == -1,
    ensures
        matched(d, i, j),
{
    lemma_seek_open(d, j, j)
}

/// The three verdicts on a delta sequence exclude each other and leave nothing out.
pub proof fn lemma_verdicts(d: Seq<int>)
    ensures
        balanced(d) || has_stray_close(d) || has_stray_open(d),
        !(balanced(d) && has_stray_close(d)),
        !(balanced(d) && has_stray_open(d)),
        !(has_stray_close(d) && has_stray_open(d)),
        verdict(d) is Ok <==> balanced(d),
{
}

} // verus!
