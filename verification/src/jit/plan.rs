use vstd::prelude::*;
use crate::brackets::{depth, has_stray_close, lemma_partner, lemma_verdicts, matched, never_negative, partner, verdict};
use crate::errors::CompileError;
use crate::ops::{Op, op_delta, op_deltas};
use crate::resolver::open_at;

verus! {

/// One command to a code builder. A back-end turns each into the native
/// instructions of its architecture; the commands themselves are the same
/// for all of them.
#[derive(Clone, Copy, Debug, PartialEq, Eq, Structural)]
pub enum Instr {
    /// The entry point: set up the frame and keep the arguments.
    Enter,
    /// Move the data pointer towards the start of the tape; leave with the
    /// memory status if that takes it off the tape.
    Retreat(u32),
    /// Move the data pointer towards the end of the tape; leave with the
    /// memory status if that takes it off the tape.
    Advance(u32),
    /// Add to the byte at the data pointer.
    AddCell(u8),
    /// Subtract from the byte at the data pointer.
    SubCell(u8),
    /// Store zero at the data pointer.
    ClearCell,
    /// Start of the loop with this number: load the current cell, branch to
    /// the loop's exit label if it is zero, then bind the loop's entry label.
    LoopHead(usize),
    /// End of the loop with this number: load the current cell, branch to the
    /// loop's entry label if it is not zero, then bind the loop's exit label.
    LoopTail(usize),
    /// Call the write routine; leave with the I/O status if it fails.
    Put,
    /// Call the read routine; leave with the I/O status if it fails.
    Get,
    /// Return the success status. The failure exits follow.
    Leave,
}

/// Number of loops opened among the first `k` entries: the number that the
/// next loop to open gets.
pub open spec fn rank(d: Seq<int>, k: int) -> nat
    decreases k,
{
    if k <= 0 {
        0
    } else {
        rank(d, k - 1) + if d[k - 1] == 1 {
            1nat
        } else {
            0nat
        }
    }
}

/// A pointer move by `n`, split into moves of at most `limit` each: as many
/// full ones as fit, then the rest.
pub open spec fn moves(forward: bool, n: nat, limit: nat) -> Seq<Instr>
    decreases n,
{
    if n == 0 || limit == 0 {
        Seq::empty()
    } else {
        let c = if n <= limit {
            n
        } else {
            limit
        };
        seq![
            if forward {
                Instr::Advance(c as u32)
            } else {
                Instr::Retreat(c as u32)
            },
        ] + moves(forward, (n - c) as nat, limit)
    }
}

/// The commands for the operation at `k`. A loop gets the number of loops
/// opened before it; its close carries the same number.
pub open spec fn piece(ops: Seq<Op>, k: int, limit: nat) -> Seq<Instr> {
    let d = op_deltas(ops);
    match ops[k] {
        Op::Left(n) => moves(false, n as nat, limit),
        Op::Right(n) => moves(true, n as nat, limit),
        Op::Add(n) => seq![Instr::AddCell(n)],
        Op::Sub(n) => seq![Instr::SubCell(n)],
        Op::Zero => seq![Instr::ClearCell],
        Op::LBrack(_) => seq![Instr::LoopHead(rank(d, k) as usize)],
        Op::RBrack(_) => seq![Instr::LoopTail(rank(d, partner(d, k)) as usize)],
        Op::Output => seq![Instr::Put],
        Op::Input => seq![Instr::Get],
    }
}

/// The commands for the first `n` operations, in order.
pub open spec fn body(ops: Seq<Op>, n: int, limit: nat) -> Seq<Instr>
    decreases n,
{
    if n <= 0 {
        Seq::empty()
    } else {
        body(ops, n - 1, limit) + piece(ops, n - 1, limit)
    }
}

/// The whole plan for an operation sequence: one entry, the body, one leave.
pub open spec fn plan_spec(ops: Seq<Op>, limit: nat) -> Seq<Instr> {
    seq![Instr::Enter] + body(ops, ops.len() as int, limit) + seq![Instr::Leave]
}

/// Every loop number below `loops` heads exactly one loop and ends exactly
/// one, the end after the head; no other number occurs. There is one entry,
/// at the start, and one leave, at the end.
pub open spec fn well_formed(code: Seq<Instr>, loops: nat) -> bool {
    &&& code.len() >= 2
    &&& code[0] == Instr::Enter
    &&& code[code.len() - 1] == Instr::Leave
    &&& forall|p: int| 0 < p < code.len() ==> #[trigger] code[p] != Instr::Enter
    &&& forall|p: int| 0 <= p < code.len() - 1 ==> #[trigger] code[p] != Instr::Leave
    &&& forall|p: int|
        0 <= p < code.len() ==> match #[trigger] code[p] {
            Instr::LoopHead(id) => id < loops,
            Instr::LoopTail(id) => id < loops,
            _ => true,
        }
    &&& forall|id: int|
        #![trigger head_of(code, id)]
        #![trigger tail_of(code, id)]
        0 <= id < loops ==> 0 < head_of(code, id) < tail_of(code, id) < code.len() && code[head_of(
            code,
            id,
        )] == Instr::LoopHead(id as usize) && code[tail_of(code, id)] == Instr::LoopTail(
            id as usize,
        )
    &&& forall|p: int, q: int|
        0 <= p < code.len() && 0 <= q < code.len() && p != q && (code[p] is LoopHead || code[p] is LoopTail)
            ==> #[trigger] code[p] != #[trigger] code[q]
}

/// Where the loop with number `id` starts.
pub open spec fn head_of(code: Seq<Instr>, id: int) -> int {
    choose|p: int| 0 <= p < code.len() && code[p] == Instr::LoopHead(id as usize)
}

/// Where the loop with number `id` ends.
pub open spec fn tail_of(code: Seq<Instr>, id: int) -> int {
    choose|p: int| 0 <= p < code.len() && code[p] == Instr::LoopTail(id as usize)
}

/// A command that is neither an entry, a leave nor a loop end.
pub open spec fn is_plain(x: Instr) -> bool {
    !(x is Enter || x is Leave || x is LoopHead || x is LoopTail)
}

/// What holds of the commands written so far: `hp` and `tp` say where each
/// loop starts and, once it is closed, ends; `pending` holds the numbers of
/// the loops that are still open, oldest first.
pub open spec fn labelled(
    code: Seq<Instr>,
    next: int,
    pending: Seq<usize>,
    hp: Seq<int>,
    tp: Seq<int>,
) -> bool {
    &&& code.len() >= 1
    &&& code[0] == Instr::Enter
    &&& 0 <= next <= usize::MAX
    &&& hp.len() == next
    &&& tp.len() == next
    &&& forall|p: int| 0 < p < code.len() ==> !(#[trigger] code[p] is Enter) && !(code[p] is Leave)
    &&& forall|p: int|
        0 <= p < code.len() ==> match #[trigger] code[p] {
            Instr::LoopHead(id) => id < next && hp[id as int] == p,
            Instr::LoopTail(id) => id < next && tp[id as int] == p,
            _ => true,
        }
    &&& forall|id: int|
        0 <= id < next ==> {
            &&& 0 < #[trigger] hp[id] < code.len()
            &&& code[hp[id]] == Instr::LoopHead(id as usize)
            &&& tp[id] < code.len()
            &&& tp[id] >= 0 ==> hp[id] < tp[id] && code[tp[id]] == Instr::LoopTail(id as usize)
            &&& tp[id] < 0 <==> pending.contains(id as usize)
        }
    &&& forall|s: int, t: int| 0 <= s < t < pending.len() ==> pending[s] < pending[t]
    &&& forall|s: int| 0 <= s < pending.len() ==> #[trigger] pending[s] < next
}

proof fn lemma_push_plain(
    code: Seq<Instr>,
    x: Instr,
    next: int,
    pending: Seq<usize>,
    hp: Seq<int>,
    tp: Seq<int>,
)
    requires
        labelled(code, next, pending, hp, tp),
        is_plain(x),
    ensures
        labelled(code.push(x), next, pending, hp, tp),
{
    let longer = code.push(x);
    assert forall|p: int| 0 <= p < longer.len() implies match #[trigger] longer[p] {
        Instr::LoopHead(id) => id < next && hp[id as int] == p,
        Instr::LoopTail(id) => id < next && tp[id as int] == p,
        _ => true,
    } by {
        if p < code.len() {
            assert(longer[p] == code[p]);
        }
    }
    assert forall|p: int| 0 < p < longer.len() implies !(#[trigger] longer[p] is Enter) && !(longer[p] is Leave) by {
        if p < code.len() {
            assert(longer[p] == code[p]);
        }
    }
    assert forall|id: int| 0 <= id < next implies {
        &&& 0 < #[trigger] hp[id] < longer.len()
        &&& longer[hp[id]] == Instr::LoopHead(id as usize)
        &&& tp[id] < longer.len()
        &&& tp[id] >= 0 ==> hp[id] < tp[id] && longer[tp[id]] == Instr::LoopTail(id as usize)
        &&& tp[id] < 0 <==> pending.contains(id as usize)
    } by {
        assert(longer[hp[id]] == code[hp[id]]);
        if tp[id] >= 0 {
            assert(longer[tp[id]] == code[tp[id]]);
        }
    }
}

proof fn lemma_append_plain(
    code: Seq<Instr>,
    xs: Seq<Instr>,
    next: int,
    pending: Seq<usize>,
    hp: Seq<int>,
    tp: Seq<int>,
)
    requires
        labelled(code, next, pending, hp, tp),
        forall|k: int| 0 <= k < xs.len() ==> is_plain(#[trigger] xs[k]),
    ensures
        labelled(code + xs, next, pending, hp, tp),
    decreases xs.len(),
{
    if xs.len() == 0 {
        assert(code + xs =~= code);
    } else {
        let init = xs.drop_last();
        lemma_append_plain(code, init, next, pending, hp, tp);
        lemma_push_plain(code + init, xs.last(), next, pending, hp, tp);
        assert((code + init).push(xs.last()) =~= code + xs);
    }
}

pub proof fn lemma_moves_plain(forward: bool, n: nat, limit: nat)
    ensures
        forall|k: int| 0 <= k < moves(forward, n, limit).len() ==> is_plain(#[trigger] moves(forward, n, limit)[k]),
    decreases n,
{
    if n == 0 || limit == 0 {
    } else {
        let c = if n <= limit {
            n
        } else {
            limit
        };
        let rest = moves(forward, (n - c) as nat, limit);
        lemma_moves_plain(forward, (n - c) as nat, limit);
        assert forall|k: int| 0 <= k < moves(forward, n, limit).len() implies is_plain(
            #[trigger] moves(forward, n, limit)[k],
        ) by {
            if k > 0 {
                assert(moves(forward, n, limit)[k] == rest[k - 1]);
            }
        }
    }
}

proof fn lemma_push_head(code: Seq<Instr>, next: int, pending: Seq<usize>, hp: Seq<int>, tp: Seq<int>)
    requires
        labelled(code, next, pending, hp, tp),
        next < usize::MAX,
    ensures
        labelled(
            code.push(Instr::LoopHead(next as usize)),
            next + 1,
            pending.push(next as usize),
            hp.push(code.len() as int),
            tp.push(-1),
        ),
{
    let longer = code.push(Instr::LoopHead(next as usize));
    let rest_pending = pending.push(next as usize);
    let heads2 = hp.push(code.len() as int);
    let tails2 = tp.push(-1);
    assert forall|p: int| 0 <= p < longer.len() implies match #[trigger] longer[p] {
        Instr::LoopHead(id) => id < next + 1 && heads2[id as int] == p,
        Instr::LoopTail(id) => id < next + 1 && tails2[id as int] == p,
        _ => true,
    } by {
        if p < code.len() {
            assert(longer[p] == code[p]);
        }
    }
    assert forall|p: int| 0 < p < longer.len() implies !(#[trigger] longer[p] is Enter) && !(longer[p] is Leave) by {
        if p < code.len() {
            assert(longer[p] == code[p]);
        }
    }
    assert forall|id: int| 0 <= id < next + 1 implies {
        &&& 0 < #[trigger] heads2[id] < longer.len()
        &&& longer[heads2[id]] == Instr::LoopHead(id as usize)
        &&& tails2[id] < longer.len()
        &&& tails2[id] >= 0 ==> heads2[id] < tails2[id] && longer[tails2[id]] == Instr::LoopTail(id as usize)
        &&& tails2[id] < 0 <==> rest_pending.contains(id as usize)
    } by {
        if id < next {
            assert(heads2[id] == hp[id]);
            assert(tails2[id] == tp[id]);
            assert(longer[hp[id]] == code[hp[id]]);
            if tp[id] >= 0 {
                assert(longer[tp[id]] == code[tp[id]]);
                if rest_pending.contains(id as usize) {
                    let s = choose|s: int| 0 <= s < rest_pending.len() && rest_pending[s] == id as usize;
                    assert(s < pending.len());
                    assert(pending[s] == id as usize);
                }
            } else {
                let s = choose|s: int| 0 <= s < pending.len() && pending[s] == id as usize;
                assert(rest_pending[s] == id as usize);
            }
        } else {
            assert(rest_pending[pending.len() as int] == next as usize);
        }
    }
    assert forall|s: int, t: int| 0 <= s < t < rest_pending.len() implies rest_pending[s] < rest_pending[t] by {
        if t < pending.len() {
        } else {
            assert(pending[s] < next);
        }
    }
    assert forall|s: int| 0 <= s < rest_pending.len() implies #[trigger] rest_pending[s] < next + 1 by {
        if s < pending.len() {
            assert(pending[s] < next);
        }
    }
}

proof fn lemma_push_tail(code: Seq<Instr>, next: int, pending: Seq<usize>, hp: Seq<int>, tp: Seq<int>)
    requires
        labelled(code, next, pending, hp, tp),
        pending.len() > 0,
    ensures
        labelled(
            code.push(Instr::LoopTail(pending.last())),
            next,
            pending.drop_last(),
            hp,
            tp.update(pending.last() as int, code.len() as int),
        ),
{
    let id0 = pending.last();
    assert(pending[pending.len() - 1] < next);
    let longer = code.push(Instr::LoopTail(id0));
    let rest_pending = pending.drop_last();
    let tails2 = tp.update(id0 as int, code.len() as int);
    assert(pending.contains(id0));
    assert(0 < hp[id0 as int]);
    assert(tp[id0 as int] < 0);
    assert forall|p: int| 0 <= p < longer.len() implies match #[trigger] longer[p] {
        Instr::LoopHead(id) => id < next && hp[id as int] == p,
        Instr::LoopTail(id) => id < next && tails2[id as int] == p,
        _ => true,
    } by {
        if p < code.len() {
            assert(longer[p] == code[p]);
            match code[p] {
                Instr::LoopTail(id) => {
                    assert(tp[id as int] == p);
                    assert(id != id0);
                },
                _ => {},
            }
        }
    }
    assert forall|p: int| 0 < p < longer.len() implies !(#[trigger] longer[p] is Enter) && !(longer[p] is Leave) by {
        if p < code.len() {
            assert(longer[p] == code[p]);
        }
    }
    assert forall|id: int| 0 <= id < next implies {
        &&& 0 < #[trigger] hp[id] < longer.len()
        &&& longer[hp[id]] == Instr::LoopHead(id as usize)
        &&& tails2[id] < longer.len()
        &&& tails2[id] >= 0 ==> hp[id] < tails2[id] && longer[tails2[id]] == Instr::LoopTail(id as usize)
        &&& tails2[id] < 0 <==> rest_pending.contains(id as usize)
    } by {
        assert(longer[hp[id]] == code[hp[id]]);
        if id == id0 {
            if rest_pending.contains(id as usize) {
                let s = choose|s: int| 0 <= s < rest_pending.len() && rest_pending[s] == id as usize;
                assert(pending[s] < pending[pending.len() - 1]);
            }
        } else {
            assert(tails2[id] == tp[id]);
            if tp[id] >= 0 {
                assert(longer[tp[id]] == code[tp[id]]);
                if rest_pending.contains(id as usize) {
                    let s = choose|s: int| 0 <= s < rest_pending.len() && rest_pending[s] == id as usize;
                    assert(pending[s] == id as usize);
                }
            } else {
                let s = choose|s: int| 0 <= s < pending.len() && pending[s] == id as usize;
                assert(s < pending.len() - 1);
                assert(rest_pending[s] == id as usize);
            }
        }
    }
    assert forall|s: int, t: int| 0 <= s < t < rest_pending.len() implies rest_pending[s] < rest_pending[t] by {
        assert(pending[s] < pending[t]);
    }
    assert forall|s: int| 0 <= s < rest_pending.len() implies #[trigger] rest_pending[s] < next by {
        assert(pending[s] < next);
    }
}

proof fn lemma_finish(code: Seq<Instr>, next: int, hp: Seq<int>, tp: Seq<int>)
    requires
        labelled(code, next, Seq::<usize>::empty(), hp, tp),
    ensures
        well_formed(code.push(Instr::Leave), next as nat),
{
    let longer = code.push(Instr::Leave);
    assert forall|p: int| 0 <= p < longer.len() implies match #[trigger] longer[p] {
        Instr::LoopHead(id) => id < next && hp[id as int] == p,
        Instr::LoopTail(id) => id < next && tp[id as int] == p,
        _ => true,
    } by {
        if p < code.len() {
            assert(longer[p] == code[p]);
        }
    }
    assert forall|p: int| 0 < p < longer.len() implies #[trigger] longer[p] != Instr::Enter by {
        if p < code.len() {
            assert(longer[p] == code[p]);
        }
    }
    assert forall|p: int| 0 <= p < longer.len() - 1 implies #[trigger] longer[p] != Instr::Leave by {
        assert(longer[p] == code[p]);
    }
    assert forall|id: int|
        #![trigger head_of(longer, id)]
        #![trigger tail_of(longer, id)]
        0 <= id < next implies 0 < head_of(longer, id) < tail_of(longer, id) < longer.len() && longer[head_of(
        longer,
        id,
    )] == Instr::LoopHead(id as usize) && longer[tail_of(longer, id)] == Instr::LoopTail(id as usize) by {
        assert(0 < hp[id]);
        assert(!Seq::<usize>::empty().contains(id as usize));
        assert(tp[id] >= 0);
        assert(longer[hp[id]] == code[hp[id]]);
        assert(longer[tp[id]] == code[tp[id]]);
        let h = head_of(longer, id);
        let t = tail_of(longer, id);
        assert(longer[h] == Instr::LoopHead(id as usize));
        assert(longer[t] == Instr::LoopTail(id as usize));
        assert(h == hp[id]);
        assert(t == tp[id]);
    }
    assert forall|p: int, q: int|
        0 <= p < longer.len() && 0 <= q < longer.len() && p != q && (longer[p] is LoopHead || longer[p] is LoopTail)
        implies #[trigger] longer[p] != #[trigger] longer[q] by {
        if longer[p] == longer[q] {
            match longer[p] {
                Instr::LoopHead(id) => {
                    assert(hp[id as int] == p);
                    assert(hp[id as int] == q);
                },
                Instr::LoopTail(id) => {
                    assert(tp[id as int] == p);
                    assert(tp[id as int] == q);
                },
                _ => {},
            }
        }
    }
}

/// A plan: the commands in order and the number of loops, each of which
/// needs an entry and an exit label.
pub struct Program {
    code: Vec<Instr>,
    loops: usize,
}

impl Program {
    #[verifier::type_invariant]
    spec fn inv(&self) -> bool {
        well_formed(self.code@, self.loops as nat)
    }

    /// The commands, in the order in which they are to be emitted.
    pub closed spec fn code(&self) -> Seq<Instr> {
        self.code@
    }

    /// Number of loops; loop numbers run from zero to one below it.
    pub closed spec fn loops(&self) -> nat {
        self.loops as nat
    }

    /// The commands, in the order in which they are to be emitted.
    pub fn instructions(&self) -> (c: &Vec<Instr>)
        ensures
            c@ == self.code(),
            well_formed(self.code(), self.loops()),
    {
        proof {
            use_type_invariant(self);
        }
        &self.code
    }

    /// Index of the entry point among the commands: the one place at which
    /// the code may be entered.
    pub fn entry(&self) -> (at: usize)
        ensures
            at == 0,
            at < self.code().len(),
            self.code()[at as int] == Instr::Enter,
    {
        proof {
            use_type_invariant(self);
        }
        0
    }

    /// Gives up the plan for its commands.
    pub fn into_instructions(self) -> (c: Vec<Instr>)
        ensures
            c@ == self.code(),
            well_formed(self.code(), self.loops()),
    {
        proof {
            use_type_invariant(&self);
        }
        self.code
    }

    /// Number of loops, and so of label pairs to allocate.
    pub fn loop_count(&self) -> (n: usize)
        ensures
            n == self.loops(),
    {
        self.loops
    }
}

/// Appends a pointer move by `n`, split into moves of at most `limit`.
fn push_moves(code: &mut Vec<Instr>, forward: bool, n: usize, limit: u32)
    requires
        limit >= 1,
    ensures
        final(code)@ == old(code)@ + moves(forward, n as nat, limit as nat),
{
    let mut rem: usize = n;
    while rem > 0
        invariant
            limit >= 1,
            code@ + moves(forward, rem as nat, limit as nat) == old(code)@ + moves(
                forward,
                n as nat,
                limit as nat,
            ),
        decreases rem,
    {
        let c: u32 = if rem <= limit as usize {
            rem as u32
        } else {
            limit
        };
        let ghost before = code@;
        let x = if forward {
            Instr::Advance(c)
        } else {
            Instr::Retreat(c)
        };
        code.push(x);
        assert(moves(forward, rem as nat, limit as nat) == seq![x] + moves(
            forward,
            (rem - c) as nat,
            limit as nat,
        ));
        assert(code@ + moves(forward, (rem - c) as nat, limit as nat) =~= before + moves(
            forward,
            rem as nat,
            limit as nat,
        ));
        rem = rem - c as usize;
    }
    assert(code@ + Seq::<Instr>::empty() =~= code@);
}

/// Code emitter: walks the operations and writes the plan, keeping a stack
/// of the loops that are open. A loop gets its number when it opens; its
/// close takes the number of the innermost open loop.
///
/// Fails on a close with no loop open, and at the end if a loop is still open.
pub(crate) fn emit(ops: &Vec<Op>, limit: u32) -> (r: Result<Program, CompileError>)
    requires
        limit >= 1,
    ensures
        match r {
            Ok(p) => verdict(op_deltas(ops@)) is Ok && p.code() == plan_spec(ops@, limit as nat)
                && p.loops() == rank(op_deltas(ops@), ops@.len() as int),
            Err(e) => verdict(op_deltas(ops@)) == Err::<(), _>(e),
        },
{
    let ghost d = op_deltas(ops@);
    let n = ops.len();
    let mut code: Vec<Instr> = Vec::new();
    code.push(Instr::Enter);
    let mut loop_stack: Vec<usize> = Vec::new();
    let mut next: usize = 0;
    let ghost mut opens: Seq<int> = Seq::empty();
    let ghost mut hp: Seq<int> = Seq::empty();
    let ghost mut tp: Seq<int> = Seq::empty();
    let mut i: usize = 0;
    assert(code@ =~= seq![Instr::Enter] + body(ops@, 0, limit as nat));
    while i < n
        invariant
            i <= n,
            n == ops@.len(),
            limit >= 1,
            d == op_deltas(ops@),
            never_negative(d, i as int),
            loop_stack.len() == depth(d, i as int),
            opens.len() == loop_stack.len(),
            forall|s: int|
                0 <= s < opens.len() ==> open_at(d, #[trigger] opens[s], s, i as int) && loop_stack@[s]
                    == rank(d, opens[s]),
            next == rank(d, i as int),
            next <= i,
            code@ == seq![Instr::Enter] + body(ops@, i as int, limit as nat),
            labelled(code@, next as int, loop_stack@, hp, tp),
        decreases n - i,
    {
        let op = ops[i];
        let ghost before = code@;
        let ghost old_opens = opens;
        let ghost old_stack = loop_stack@;
        assert(depth(d, i + 1) == depth(d, i as int) + d[i as int]);
        assert(d[i as int] == op_delta(ops@[i as int]));
        assert(rank(d, i + 1) == rank(d, i as int) + if d[i as int] == 1 {
            1nat
        } else {
            0nat
        });
        match op {
            Op::Left(c) => {
                push_moves(&mut code, false, c, limit);
                proof {
                    lemma_moves_plain(false, c as nat, limit as nat);
                    lemma_append_plain(before, moves(false, c as nat, limit as nat), next as int, loop_stack@, hp, tp);
                }
            },
            Op::Right(c) => {
                push_moves(&mut code, true, c, limit);
                proof {
                    lemma_moves_plain(true, c as nat, limit as nat);
                    lemma_append_plain(before, moves(true, c as nat, limit as nat), next as int, loop_stack@, hp, tp);
                }
            },
            Op::Add(c) => {
                code.push(Instr::AddCell(c));
                proof {
                    lemma_push_plain(before, Instr::AddCell(c), next as int, loop_stack@, hp, tp);
                    assert(code@ =~= before + seq![Instr::AddCell(c)]);
                }
            },
            Op::Sub(c) => {
                code.push(Instr::SubCell(c));
                proof {
                    lemma_push_plain(before, Instr::SubCell(c), next as int, loop_stack@, hp, tp);
                    assert(code@ =~= before + seq![Instr::SubCell(c)]);
                }
            },
            Op::Zero => {
                code.push(Instr::ClearCell);
                proof {
                    lemma_push_plain(before, Instr::ClearCell, next as int, loop_stack@, hp, tp);
                    assert(code@ =~= before + seq![Instr::ClearCell]);
                }
            },
            Op::Output => {
                code.push(Instr::Put);
                proof {
                    lemma_push_plain(before, Instr::Put, next as int, loop_stack@, hp, tp);
                    assert(code@ =~= before + seq![Instr::Put]);
                }
            },
            Op::Input => {
                code.push(Instr::Get);
                proof {
                    lemma_push_plain(before, Instr::Get, next as int, loop_stack@, hp, tp);
                    assert(code@ =~= before + seq![Instr::Get]);
                }
            },
            Op::LBrack(_) => {
                code.push(Instr::LoopHead(next));
                proof {
                    lemma_push_head(before, next as int, loop_stack@, hp, tp);
                    assert(code@ =~= before + seq![Instr::LoopHead(next)]);
                    hp = hp.push(before.len() as int);
                    tp = tp.push(-1);
                    opens = opens.push(i as int);
                }
                loop_stack.push(next);
                next = next + 1;
            },
            Op::RBrack(_) => {
                if loop_stack.len() == 0 {
                    proof {
                        lemma_verdicts(d);
                        assert(depth(d, i + 1) < 0);
                        assert(has_stray_close(d));
                    }
                    return Err(CompileError::UnmatchedClose);
                }
                let id = loop_stack.pop().unwrap();
                let ghost t = old_opens[old_opens.len() - 1];
                proof {
                    assert(open_at(d, t, old_opens.len() - 1, i as int));
                    assert(matched(d, t, i as int));
                    lemma_partner(d, t, i as int);
                    assert(id == old_stack.last());
                    lemma_push_tail(before, next as int, old_stack, hp, tp);
                    tp = tp.update(id as int, before.len() as int);
                    opens = opens.drop_last();
                    assert(loop_stack@ =~= old_stack.drop_last());
                }
                code.push(Instr::LoopTail(id));
                assert(code@ =~= before + seq![Instr::LoopTail(id)]);
            },
        }
        assert(code@ =~= seq![Instr::Enter] + body(ops@, i + 1, limit as nat)) by {
            assert(code@ =~= before + piece(ops@, i as int, limit as nat));
            assert(body(ops@, i + 1, limit as nat) == body(ops@, i as int, limit as nat) + piece(
                ops@,
                i as int,
                limit as nat,
            ));
        }
        assert forall|s: int| 0 <= s < opens.len() implies open_at(d, #[trigger] opens[s], s, i + 1)
            && loop_stack@[s] == rank(d, opens[s]) by {
            if s < old_opens.len() {
                assert(open_at(d, old_opens[s], s, i as int));
                assert(opens[s] == old_opens[s]);
                assert(loop_stack@[s] == old_stack[s]);
            }
        }
        assert(never_negative(d, i + 1)) by {
            assert forall|k: int| 0 <= k <= i + 1 implies #[trigger] depth(d, k) >= 0 by {}
        }
        i = i + 1;
    }
    proof {
        lemma_verdicts(d);
    }
    if loop_stack.len() != 0 {
        return Err(CompileError::UnmatchedOpen);
    }
    let ghost before = code@;
    code.push(Instr::Leave);
    proof {
        assert(loop_stack@ =~= Seq::<usize>::empty());
        lemma_finish(before, next as int, hp, tp);
        assert(code@ =~= plan_spec(ops@, limit as nat));
    }
    Ok(Program { code, loops: next })
}

} // verus!
