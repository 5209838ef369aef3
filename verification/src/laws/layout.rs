use vstd::prelude::*;
use crate::bf_types::{CH_CLOSE, CH_IN, CH_OPEN, CH_OUT, is_run_byte};
use crate::brackets::depth;
use crate::ops::{Op, PENDING, byte_delta, byte_deltas, is_clear_idiom, lemma_run_len_bound, lex_from, op_delta, op_deltas, run_ops, run_width};

verus! {

/// Number of source bytes that the front-end takes up at `i` in one go: a
/// whole run, the clear idiom, or one byte.
pub open spec fn width(src: Seq<u8>, i: int, fuse: bool, clear: bool) -> int {
    if is_run_byte(src[i]) {
        run_width(src, i, fuse) as int
    } else if clear && is_clear_idiom(src, i) {
        3
    } else {
        1
    }
}

/// The operations that the front-end makes of those bytes: one, or none.
pub open spec fn here(src: Seq<u8>, i: int, fuse: bool, clear: bool) -> Seq<Op> {
    let c = src[i];
    if is_run_byte(c) {
        run_ops(c, run_width(src, i, fuse))
    } else if c == CH_OPEN {
        if clear && is_clear_idiom(src, i) {
            seq![Op::Zero]
        } else {
            seq![Op::LBrack(PENDING)]
        }
    } else if c == CH_CLOSE {
        seq![Op::RBrack(PENDING)]
    } else if c == CH_OUT {
        seq![Op::Output]
    } else if c == CH_IN {
        seq![Op::Input]
    } else {
        Seq::empty()
    }
}

/// The front-end goes through the source in steps of `width`, making the
/// operations of `here` at each.
pub proof fn lemma_width(src: Seq<u8>, i: int, fuse: bool, clear: bool)
    requires
        0 <= i < src.len(),
    ensures
        1 <= width(src, i, fuse, clear) <= src.len() - i,
        here(src, i, fuse, clear).len() <= 1,
        lex_from(src, i, fuse, clear) == here(src, i, fuse, clear) + lex_from(
            src,
            i + width(src, i, fuse, clear),
            fuse,
            clear,
        ),
{
    lemma_run_len_bound(src, i + 1, src[i]);
    let c = src[i];
    if is_run_byte(c) {
    } else if c == CH_OPEN {
    } else if c == CH_CLOSE {
    } else if c == CH_OUT {
    } else if c == CH_IN {
    } else {
        assert(Seq::<Op>::empty() + lex_from(src, i + 1, fuse, clear) =~= lex_from(
            src,
            i + 1,
            fuse,
            clear,
        ));
    }
}

/// The first place from `b` on at which the front-end makes an operation, or
/// the end of the source if there is none.
pub open spec fn skip_neutral(src: Seq<u8>, b: int, fuse: bool, clear: bool) -> int
    decreases src.len() - b,
{
    if b < 0 || b >= src.len() {
        src.len() as int
    } else if here(src, b, fuse, clear).len() > 0 {
        b
    } else {
        proof {
            lemma_width(src, b, fuse, clear);
        }
        skip_neutral(src, b + width(src, b, fuse, clear), fuse, clear)
    }
}

/// The place in the source at which operation `k` starts; the end of the
/// source for `k` past the last operation.
pub open spec fn pos(src: Seq<u8>, k: nat, fuse: bool, clear: bool) -> int
    decreases k,
{
    if k == 0 {
        skip_neutral(src, 0, fuse, clear)
    } else {
        let b = pos(src, (k - 1) as nat, fuse, clear);
        if b < 0 || b >= src.len() {
            src.len() as int
        } else {
            skip_neutral(src, b + width(src, b, fuse, clear), fuse, clear)
        }
    }
}

/// The depth does not change over a stretch without loop delimiters.
pub proof fn lemma_flat(d: Seq<int>, a: int, q: int)
    requires
        0 <= a <= q <= d.len(),
        forall|j: int| a <= j < q ==> d[j] == 0,
    ensures
        depth(d, q) == depth(d, a),
    decreases q - a,
{
    if a < q {
        lemma_flat(d, a, q - 1);
    }
}

/// Bytes between two operations make none and leave the depth alone.
pub proof fn lemma_skip(src: Seq<u8>, b: int, fuse: bool, clear: bool)
    requires
        0 <= b <= src.len(),
    ensures
        b <= skip_neutral(src, b, fuse, clear) <= src.len(),
        lex_from(src, b, fuse, clear) == lex_from(src, skip_neutral(src, b, fuse, clear), fuse, clear),
        skip_neutral(src, b, fuse, clear) < src.len() ==> here(
            src,
            skip_neutral(src, b, fuse, clear),
            fuse,
            clear,
        ).len() == 1,
        forall|q: int|
            b <= q < skip_neutral(src, b, fuse, clear) ==> #[trigger] byte_delta(src[q]) == 0,
    decreases src.len() - b,
{
    if b < src.len() {
        lemma_width(src, b, fuse, clear);
        if here(src, b, fuse, clear).len() == 0 {
            let w = width(src, b, fuse, clear);
            lemma_skip(src, b + w, fuse, clear);
            assert(Seq::<Op>::empty() + lex_from(src, b + w, fuse, clear) =~= lex_from(
                src,
                b + w,
                fuse,
                clear,
            ));
            lemma_run_len_bound(src, b + 1, src[b]);
            assert forall|q: int| b <= q < skip_neutral(src, b, fuse, clear) implies #[trigger] byte_delta(
                src[q],
            ) == 0 by {
                if q < b + w {
                    if is_run_byte(src[b]) {
                        assert(src[q] == src[b]);
                    }
                }
            }
        }
    }
}

/// Where the operations are: operation `k` is made at `pos(k)`, and what
/// the front-end makes from there on is the rest of the sequence.
pub proof fn lemma_pos(src: Seq<u8>, k: nat, fuse: bool, clear: bool)
    requires
        k <= lex_from(src, 0, fuse, clear).len(),
    ensures
        0 <= pos(src, k, fuse, clear) <= src.len(),
        lex_from(src, 0, fuse, clear).skip(k as int) == lex_from(src, pos(src, k, fuse, clear), fuse, clear),
        k < lex_from(src, 0, fuse, clear).len() ==> {
            &&& pos(src, k, fuse, clear) < src.len()
            &&& here(src, pos(src, k, fuse, clear), fuse, clear) == seq![
                lex_from(src, 0, fuse, clear)[k as int],
            ]
            &&& pos(src, k, fuse, clear) + width(src, pos(src, k, fuse, clear), fuse, clear) <= pos(
                src,
                k + 1,
                fuse,
                clear,
            )
        },
        k == lex_from(src, 0, fuse, clear).len() ==> pos(src, k, fuse, clear) == src.len(),
    decreases k,
{
    let all = lex_from(src, 0, fuse, clear);
    if k == 0 {
        lemma_skip(src, 0, fuse, clear);
        assert(all.skip(0) =~= all);
    } else {
        lemma_pos(src, (k - 1) as nat, fuse, clear);
        let b = pos(src, (k - 1) as nat, fuse, clear);
        lemma_width(src, b, fuse, clear);
        let w = width(src, b, fuse, clear);
        lemma_skip(src, b + w, fuse, clear);
        let rest = lex_from(src, b + w, fuse, clear);
        assert(all.skip(k - 1) == seq![all[k - 1]] + rest);
        assert(all.skip(k as int) =~= rest) by {
            assert(all.skip(k as int) =~= all.skip(k - 1).skip(1));
        }
    }
    let p = pos(src, k, fuse, clear);
    if p < src.len() {
        lemma_width(src, p, fuse, clear);
        lemma_skip(src, p + width(src, p, fuse, clear), fuse, clear);
        let h = here(src, p, fuse, clear);
        assert(h.len() == 1);
        assert(lex_from(src, p, fuse, clear).len() > 0);
        assert(all.skip(k as int)[0] == h[0]);
        assert(h =~= seq![all[k as int]]);
    } else {
        assert(lex_from(src, p, fuse, clear).len() == 0);
    }
}

/// Depth in the source, before byte `q`.
pub open spec fn src_depth(src: Seq<u8>, q: int) -> int {
    depth(byte_deltas(src), q)
}

/// Depth in the operations that the front-end makes, before operation `k`.
pub open spec fn ops_depth(src: Seq<u8>, k: int, fuse: bool, clear: bool) -> int {
    depth(op_deltas(lex_from(src, 0, fuse, clear)), k)
}

/// Over the bytes of one operation the depth moves as the operation says,
/// and on the way it is never below where it ends.
pub proof fn lemma_segment_depth(src: Seq<u8>, b: int, fuse: bool, clear: bool)
    requires
        0 <= b < src.len(),
        here(src, b, fuse, clear).len() == 1,
    ensures
        src_depth(src, b + width(src, b, fuse, clear)) == src_depth(src, b) + op_delta(
            here(src, b, fuse, clear)[0],
        ),
        forall|q: int|
            b < q <= b + width(src, b, fuse, clear) ==> #[trigger] src_depth(src, q) >= src_depth(
                src,
                b + width(src, b, fuse, clear),
            ),
{
    let d = byte_deltas(src);
    let w = width(src, b, fuse, clear);
    lemma_width(src, b, fuse, clear);
    let c = src[b];
    if is_run_byte(c) {
        lemma_run_len_bound(src, b + 1, c);
        assert forall|q: int| b < q <= b + w implies #[trigger] src_depth(src, q) >= src_depth(
            src,
            b + w,
        ) by {
            assert forall|j: int| b <= j < b + w implies d[j] == 0 by {
                assert(src[j] == c);
            }
            lemma_flat(d, b, q);
            lemma_flat(d, b, b + w);
        }
        assert forall|j: int| b <= j < b + w implies d[j] == 0 by {
            assert(src[j] == c);
        }
        lemma_flat(d, b, b + w);
    } else if clear && is_clear_idiom(src, b) {
        assert(depth(d, b + 1) == depth(d, b) + d[b]);
        assert(depth(d, b + 2) == depth(d, b + 1) + d[b + 1]);
        assert(depth(d, b + 3) == depth(d, b + 2) + d[b + 2]);
    } else {
        assert(depth(d, b + 1) == depth(d, b) + d[b]);
    }
}

/// The depth in the source at the start of an operation is the depth in the
/// operations before it; in between it is never below the depth after the
/// operation that the bytes belong to.
pub proof fn lemma_depths(src: Seq<u8>, k: nat, fuse: bool, clear: bool)
    requires
        k <= lex_from(src, 0, fuse, clear).len(),
    ensures
        src_depth(src, pos(src, k, fuse, clear)) == ops_depth(src, k as int, fuse, clear),
        k == 0 ==> forall|q: int|
            0 <= q <= pos(src, 0, fuse, clear) ==> #[trigger] src_depth(src, q) == 0,
        k > 0 ==> forall|q: int|
            pos(src, (k - 1) as nat, fuse, clear) < q <= pos(src, k, fuse, clear) ==> #[trigger] src_depth(
                src,
                q,
            ) >= ops_depth(src, k as int, fuse, clear),
    decreases k,
{
    let d = byte_deltas(src);
    let all = lex_from(src, 0, fuse, clear);
    if k == 0 {
        lemma_skip(src, 0, fuse, clear);
        assert forall|q: int| 0 <= q <= pos(src, 0, fuse, clear) implies #[trigger] src_depth(src, q)
            == 0 by {
            assert forall|j: int| 0 <= j < q implies d[j] == 0 by {
                assert(byte_delta(src[j]) == 0);
            }
            lemma_flat(d, 0, q);
        }
    } else {
        lemma_depths(src, (k - 1) as nat, fuse, clear);
        lemma_pos(src, (k - 1) as nat, fuse, clear);
        let b = pos(src, (k - 1) as nat, fuse, clear);
        let w = width(src, b, fuse, clear);
        lemma_width(src, b, fuse, clear);
        lemma_segment_depth(src, b, fuse, clear);
        lemma_skip(src, b + w, fuse, clear);
        let e = pos(src, k, fuse, clear);
        assert(op_deltas(all)[k - 1] == op_delta(all[k - 1]));
        assert(ops_depth(src, k as int, fuse, clear) == ops_depth(src, k - 1, fuse, clear) + op_delta(
            all[k - 1],
        ));
        assert(src_depth(src, b + w) == ops_depth(src, k as int, fuse, clear));
        assert forall|q: int| b < q <= e implies #[trigger] src_depth(src, q) >= ops_depth(
            src,
            k as int,
            fuse,
            clear,
        ) by {
            if q > b + w {
                assert forall|j: int| b + w <= j < q implies d[j] == 0 by {
                    assert(byte_delta(src[j]) == 0);
                }
                lemma_flat(d, b + w, q);
            }
        }
        assert forall|j: int| b + w <= j < e implies d[j] == 0 by {
            assert(byte_delta(src[j]) == 0);
        }
        lemma_flat(d, b + w, e);
    }
}

} // verus!
