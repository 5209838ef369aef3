use vstd::prelude::*;
use crate::bf_types::{CH_CLOSE, CH_OPEN};
use crate::brackets::{balanced, depth, lemma_verdicts, matched, never_negative, verdict};
use crate::laws::layout::{here, lemma_depths, lemma_pos, lemma_width, ops_depth, pos, src_depth, width};
use crate::ops::{byte_deltas, lex_from, lex_spec, op_delta, op_deltas};

verus! {

/// Operations come in the order of the places they are made at.
pub proof fn lemma_pos_increases(src: Seq<u8>, i: nat, j: nat, fuse: bool, clear: bool)
    requires
        i < j <= lex_from(src, 0, fuse, clear).len(),
    ensures
        pos(src, i, fuse, clear) < pos(src, j, fuse, clear),
    decreases j - i,
{
    lemma_pos(src, (j - 1) as nat, fuse, clear);
    lemma_width(src, pos(src, (j - 1) as nat, fuse, clear), fuse, clear);
    if i < j - 1 {
        lemma_pos_increases(src, i, (j - 1) as nat, fuse, clear);
    }
}

/// Every byte after the start of operation `i` and up to the start of
/// operation `k` lies between the starts of two neighbours among them.
pub proof fn lemma_block_of(src: Seq<u8>, q: int, i: nat, k: nat, fuse: bool, clear: bool) -> (m: nat)
    requires
        i < k <= lex_from(src, 0, fuse, clear).len(),
        pos(src, i, fuse, clear) < q <= pos(src, k, fuse, clear),
    ensures
        i < m <= k,
        pos(src, (m - 1) as nat, fuse, clear) < q <= pos(src, m, fuse, clear),
    decreases k,
{
    if q > pos(src, (k - 1) as nat, fuse, clear) {
        k
    } else {
        lemma_block_of(src, q, i, (k - 1) as nat, fuse, clear)
    }
}

/// The front-end keeps the loops as they are: what it makes is balanced,
/// has a stray close or has a stray open exactly when the source is or has.
pub proof fn lemma_verdict_kept(src: Seq<u8>, fuse: bool, clear: bool)
    ensures
        verdict(op_deltas(lex_spec(src, fuse, clear))) == verdict(byte_deltas(src)),
        balanced(op_deltas(lex_spec(src, fuse, clear))) <==> balanced(byte_deltas(src)),
{
    let all = lex_from(src, 0, fuse, clear);
    let n = all.len();
    let d = byte_deltas(src);
    let e = op_deltas(all);
    lemma_verdicts(d);
    lemma_verdicts(e);
    lemma_pos(src, n, fuse, clear);
    lemma_depths(src, n, fuse, clear);
    assert(depth(d, src.len() as int) == depth(e, n as int));
    if never_negative(e, n as int) {
        assert forall|q: int| 0 <= q <= src.len() implies #[trigger] depth(d, q) >= 0 by {
            lemma_depths(src, 0, fuse, clear);
            lemma_pos(src, 0, fuse, clear);
            if q > pos(src, 0, fuse, clear) {
                assert(n > 0);
                let m = lemma_block_of(src, q, 0, n, fuse, clear);
                lemma_depths(src, m, fuse, clear);
                assert(src_depth(src, q) >= ops_depth(src, m as int, fuse, clear));
                assert(depth(e, m as int) >= 0);
            } else {
                assert(src_depth(src, q) == 0);
            }
        }
    }
    if never_negative(d, src.len() as int) {
        assert forall|k: int| 0 <= k <= n implies #[trigger] depth(e, k) >= 0 by {
            lemma_pos(src, k as nat, fuse, clear);
            lemma_depths(src, k as nat, fuse, clear);
            assert(depth(d, pos(src, k as nat, fuse, clear)) >= 0);
        }
    }
}

/// A loop in the operations is a loop in the source, at the places where
/// its delimiters are made.
pub proof fn lemma_matched_kept(src: Seq<u8>, i: nat, j: nat, fuse: bool, clear: bool)
    requires
        matched(op_deltas(lex_from(src, 0, fuse, clear)), i as int, j as int),
    ensures
        matched(byte_deltas(src), pos(src, i, fuse, clear), pos(src, j, fuse, clear)),
        src[pos(src, i, fuse, clear)] == CH_OPEN,
        src[pos(src, j, fuse, clear)] == CH_CLOSE,
        width(src, pos(src, i, fuse, clear), fuse, clear) == 1,
        width(src, pos(src, j, fuse, clear), fuse, clear) == 1,
{
    let all = lex_from(src, 0, fuse, clear);
    let d = byte_deltas(src);
    let e = op_deltas(all);
    let pi = pos(src, i, fuse, clear);
    let pj = pos(src, j, fuse, clear);
    lemma_pos(src, i, fuse, clear);
    lemma_pos(src, j, fuse, clear);
    lemma_pos_increases(src, i, j, fuse, clear);
    lemma_depths(src, i, fuse, clear);
    lemma_depths(src, j, fuse, clear);
    assert(e[i as int] == op_delta(all[i as int]));
    assert(e[j as int] == op_delta(all[j as int]));
    assert(here(src, pi, fuse, clear)[0] == all[i as int]);
    assert(here(src, pj, fuse, clear)[0] == all[j as int]);
    assert(all[i as int] is LBrack);
    assert(all[j as int] is RBrack);
    assert(src[pi] == CH_OPEN);
    assert(src[pj] == CH_CLOSE);
    assert(d[pi] == 1);
    assert(d[pj] == -1);
    assert(depth(d, pj + 1) == depth(d, pj) + d[pj]);
    assert(depth(e, (j + 1) as int) == depth(e, j as int) + e[j as int]);
    assert forall|q: int| pi < q <= pj implies #[trigger] depth(d, q) > depth(d, pi) by {
        let m = lemma_block_of(src, q, i, j, fuse, clear);
        lemma_depths(src, m, fuse, clear);
        assert(src_depth(src, q) >= ops_depth(src, m as int, fuse, clear));
        assert(depth(e, m as int) > depth(e, i as int));
    }
}

} // verus!
