use vstd::prelude::*;
use crate::brackets::{balanced, depth, has_stray_close, has_stray_open, lemma_close_unique, lemma_open_unique, lemma_verdicts, matched, never_negative, verdict};
use crate::errors::CompileError;
use crate::ops::{Op, op_delta, op_deltas};

verus! {

/// `b` is `a` up to the partner indices of its loop delimiters.
pub open spec fn same_shape(a: Seq<Op>, b: Seq<Op>) -> bool {
    &&& a.len() == b.len()
    &&& forall|k: int|
        0 <= k < a.len() ==> match #[trigger] a[k] {
            Op::LBrack(_) => b[k] is LBrack,
            Op::RBrack(_) => b[k] is RBrack,
            o => b[k] == o,
        }
}

/// The delimiter at `k`, if it is one, holds the index of its partner.
pub open spec fn linked_at(ops: Seq<Op>, k: int) -> bool {
    match ops[k] {
        Op::LBrack(t) => matched(op_deltas(ops), k, t as int),
        Op::RBrack(t) => matched(op_deltas(ops), t as int, k),
        _ => true,
    }
}

/// Every loop delimiter holds the index of its partner, so that a jump
/// needs no search.
pub open spec fn linked(ops: Seq<Op>) -> bool {
    forall|k: int| 0 <= k < ops.len() ==> #[trigger] linked_at(ops, k)
}

/// The open at `t` is the `s`-th loop still open after `i` entries.
pub open spec fn open_at(d: Seq<int>, t: int, s: int, i: int) -> bool {
    &&& 0 <= t < i
    &&& d[t] == 1
    &&& depth(d, t) == s
    &&& forall|k: int| t < k <= i ==> #[trigger] depth(d, k) > s
}

/// What the resolver has done with the entry at `k` so far.
pub open spec fn settled(d: Seq<int>, out: Seq<Op>, pending: Seq<usize>, k: int) -> bool {
    match out[k] {
        Op::LBrack(t) => matched(d, k, t as int) || pending.contains(k as usize),
        Op::RBrack(t) => matched(d, t as int, k),
        _ => true,
    }
}

/// Shapes that agree have the same deltas.
pub proof fn lemma_shape_deltas(a: Seq<Op>, b: Seq<Op>)
    requires
        same_shape(a, b),
    ensures
        op_deltas(a) == op_deltas(b),
{
    assert forall|k: int| 0 <= k < a.len() implies op_delta(a[k]) == op_delta(b[k]) by {
        let o = a[k];
    }
    assert(op_deltas(a) =~= op_deltas(b));
}

/// Linking has one answer: two linked forms of one sequence are the same.
pub proof fn law_link_unique(raw: Seq<Op>, a: Seq<Op>, b: Seq<Op>)
    requires
        same_shape(raw, a),
        linked(a),
        same_shape(raw, b),
        linked(b),
    ensures
        a == b,
{
    lemma_shape_deltas(raw, a);
    lemma_shape_deltas(raw, b);
    let d = op_deltas(raw);
    assert forall|k: int| 0 <= k < a.len() implies a[k] == b[k] by {
        assert(linked_at(a, k));
        assert(linked_at(b, k));
        let o = raw[k];
        match (a[k], b[k]) {
            (Op::LBrack(s), Op::LBrack(t)) => {
                lemma_close_unique(d, k, s as int, t as int);
            },
            (Op::RBrack(s), Op::RBrack(t)) => {
                lemma_open_unique(d, s as int, t as int, k);
            },
            _ => {},
        }
    }
    assert(a =~= b);
}

/// Loop resolver: gives every loop open the index of its close and every
/// close the index of its open, innermost first.
///
/// Fails on the first close that has no open before it, and otherwise at the
/// end if an open was never closed.
pub fn link(ops: Vec<Op>) -> (res: Result<Vec<Op>, CompileError>)
    ensures
        res is Ok <==> balanced(op_deltas(ops@)),
        res == Err::<Vec<Op>, CompileError>(CompileError::UnmatchedClose) <==> has_stray_close(
            op_deltas(ops@),
        ),
        res == Err::<Vec<Op>, CompileError>(CompileError::UnmatchedOpen) <==> has_stray_open(
            op_deltas(ops@),
        ),
        res matches Ok(out) ==> same_shape(ops@, out@) && linked(out@),
        res matches Err(e) ==> verdict(op_deltas(ops@)) == Err::<(), CompileError>(e),
{
    let ghost raw = ops@;
    let ghost d = op_deltas(raw);
    proof {
        lemma_verdicts(d);
    }
    let n = ops.len();
    let mut out = ops;
    let mut stack: Vec<usize> = Vec::new();
    let mut i: usize = 0;
    while i < n
        invariant
            i <= n,
            n == raw.len(),
            raw == ops@,
            d == op_deltas(raw),
            same_shape(raw, out@),
            never_negative(d, i as int),
            stack.len() == depth(d, i as int),
            forall|s: int| 0 <= s < stack.len() ==> open_at(d, #[trigger] stack@[s] as int, s, i as int),
            forall|k: int| 0 <= k < i ==> #[trigger] settled(d, out@, stack@, k),
        decreases n - i,
    {
        let ghost old_out = out@;
        let ghost old_stack = stack@;
        let op = out[i];
        assert(depth(d, i + 1) == depth(d, i as int) + d[i as int]);
        assert(d[i as int] == op_delta(raw[i as int]));
        match op {
            Op::LBrack(_) => {
                stack.push(i);
                assert forall|s: int| 0 <= s < stack.len() implies open_at(
                    d,
                    #[trigger] stack@[s] as int,
                    s,
                    i + 1,
                ) by {
                    if s < old_stack.len() {
                        assert(open_at(d, old_stack[s] as int, s, i as int));
                    }
                }
                assert forall|k: int| 0 <= k < i + 1 implies #[trigger] settled(
                    d,
                    out@,
                    stack@,
                    k,
                ) by {
                    if k < i {
                        assert(settled(d, old_out, old_stack, k));
                        if old_stack.contains(k as usize) {
                            let s = choose|s: int| 0 <= s < old_stack.len() && old_stack[s] == k as usize;
                            assert(stack@[s] == k as usize);
                        }
                    } else {
                        assert(stack@[stack.len() - 1] == i);
                    }
                }
            },
            Op::RBrack(_) => {
                if stack.len() == 0 {
                    proof {
                        lemma_verdicts(d);
                        assert(depth(d, i + 1) < 0);
                        assert(has_stray_close(d));
                    }
                    return Err(CompileError::UnmatchedClose);
                }
                let t = stack.pop().unwrap();
                assert(open_at(d, old_stack[old_stack.len() - 1] as int, old_stack.len() - 1, i as int));
                assert(matched(d, t as int, i as int));
                out.set(t, Op::LBrack(i));
                out.set(i, Op::RBrack(t));
                assert forall|s: int| 0 <= s < stack.len() implies open_at(
                    d,
                    #[trigger] stack@[s] as int,
                    s,
                    i + 1,
                ) by {
                    assert(open_at(d, old_stack[s] as int, s, i as int));
                }
                assert forall|k: int| 0 <= k < i + 1 implies #[trigger] settled(
                    d,
                    out@,
                    stack@,
                    k,
                ) by {
                    if k == i {
                    } else if k == t {
                    } else {
                        assert(settled(d, old_out, old_stack, k));
                        assert(out@[k] == old_out[k]);
                        if old_stack.contains(k as usize) {
                            let s = choose|s: int| 0 <= s < old_stack.len() && old_stack[s] == k as usize;
                            assert(s != old_stack.len() - 1);
                            assert(stack@[s] == k as usize);
                        }
                    }
                }
                assert(same_shape(raw, out@)) by {
                    assert forall|k: int| 0 <= k < raw.len() implies match #[trigger] raw[k] {
                        Op::LBrack(_) => out@[k] is LBrack,
                        Op::RBrack(_) => out@[k] is RBrack,
                        o => out@[k] == o,
                    } by {
                        if k != i && k != t {
                            assert(out@[k] == old_out[k]);
                        }
                    }
                }
            },
            _ => {
                assert forall|s: int| 0 <= s < stack.len() implies open_at(
                    d,
                    #[trigger] stack@[s] as int,
                    s,
                    i + 1,
                ) by {
                    assert(open_at(d, old_stack[s] as int, s, i as int));
                }
                assert forall|k: int| 0 <= k < i + 1 implies #[trigger] settled(
                    d,
                    out@,
                    stack@,
                    k,
                ) by {
                    if k < i {
                        assert(settled(d, old_out, old_stack, k));
                    }
                }
            },
        }
        assert(never_negative(d, i + 1)) by {
            assert forall|k: int| 0 <= k <= i + 1 implies #[trigger] depth(d, k) >= 0 by {}
        }
        i += 1;
    }
    if stack.len() != 0 {
        return Err(CompileError::UnmatchedOpen);
    }
    proof {
        lemma_shape_deltas(raw, out@);
        assert forall|k: int| 0 <= k < out@.len() implies #[trigger] linked_at(out@, k) by {
            assert(settled(d, out@, stack@, k));
            assert(!stack@.contains(k as usize));
        }
    }
    Ok(out)
}

} // verus!
