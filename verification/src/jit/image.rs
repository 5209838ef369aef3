use vstd::prelude::*;
use crate::errors::{CompileError, RunError};
use crate::jit::plan::{Instr, Program, head_of, plan_spec, tail_of, well_formed};
use crate::machine::{Act, Machine, Signal, Snapshot};
use crate::ops::{lex_spec, op_deltas};
use crate::semantics::guarded;
use crate::tape::{Tape, TapeView};

verus! {

/// What the command at `p` does when it runs. A loop head branches past the
/// end of its loop, a loop end back to just after the head.
pub open spec fn plan_act(code: Seq<Instr>, p: int) -> Act {
    match code[p] {
        Instr::Enter => Act::Skip,
        Instr::Retreat(n) => Act::Left(n as int),
        Instr::Advance(n) => Act::Right(n as int),
        Instr::AddCell(n) => Act::Add(n),
        Instr::SubCell(n) => Act::Sub(n),
        Instr::ClearCell => Act::Clear,
        Instr::LoopHead(id) => Act::IfZero(tail_of(code, id as int) + 1),
        Instr::LoopTail(id) => Act::IfNonZero(head_of(code, id as int) + 1),
        Instr::Put => Act::Put,
        Instr::Get => Act::Get,
        Instr::Leave => Act::Stop,
    }
}

/// What a plan does when it runs, command by command.
pub open spec fn plan_acts(code: Seq<Instr>) -> Seq<Act> {
    Seq::new(code.len(), |p: int| plan_act(code, p))
}

/// What a source text means when it is compiled with moves of at most
/// `limit` and the plan is run.
pub open spec fn plan_code(src: Seq<u8>, limit: nat) -> Result<Seq<Act>, CompileError> {
    let ops = lex_spec(src, true, true);
    guarded(op_deltas(ops), plan_acts(plan_spec(ops, limit)))
}

/// A plan made ready to run: every label is resolved to the place it is
/// bound at, and the tape is allocated. It starts at the plan's one entry.
pub struct Image {
    code: Vec<Instr>,
    heads: Vec<usize>,
    tails: Vec<usize>,
    tape: Tape,
    pc: usize,
}

impl Image {
    #[verifier::type_invariant]
    spec fn inv(&self) -> bool {
        &&& well_formed(self.code@, self.heads.len() as nat)
        &&& self.tails.len() == self.heads.len()
        &&& forall|id: int|
            0 <= id < self.heads.len() ==> #[trigger] self.heads[id] == head_of(self.code@, id)
        &&& forall|id: int|
            0 <= id < self.tails.len() ==> #[trigger] self.tails[id] == tail_of(self.code@, id)
        &&& self.pc <= self.code.len()
    }

    /// The plan that the image was made from.
    pub closed spec fn code(&self) -> Seq<Instr> {
        self.code@
    }

    /// Index of the next command.
    pub closed spec fn position(&self) -> int {
        self.pc as int
    }

    /// The tape as it stands.
    pub closed spec fn tape_view(&self) -> TapeView {
        self.tape@
    }

    /// Resolves the labels of a plan and allocates a blank tape.
    pub fn finalize(program: Program) -> (m: Image)
        ensures
            m.code() == program.code(),
            m.state() == Snapshot::start(),
    {
        let loops = program.loop_count();
        let code = program.into_instructions();
        let mut heads: Vec<usize> = Vec::new();
        let mut tails: Vec<usize> = Vec::new();
        let mut k: usize = 0;
        while k < loops
            invariant
                k <= loops,
                heads.len() == k,
                tails.len() == k,
            decreases loops - k,
        {
            heads.push(0);
            tails.push(0);
            k = k + 1;
        }
        let mut p: usize = 0;
        while p < code.len()
            invariant
                p <= code.len(),
                heads.len() == loops,
                tails.len() == loops,
                well_formed(code@, loops as nat),
                forall|id: int|
                    0 <= id < loops && head_of(code@, id) < p ==> #[trigger] heads[id] == head_of(
                        code@,
                        id,
                    ),
                forall|id: int|
                    0 <= id < loops && tail_of(code@, id) < p ==> #[trigger] tails[id] == tail_of(
                        code@,
                        id,
                    ),
            decreases code.len() - p,
        {
            let ghost old_heads = heads@;
            let ghost old_tails = tails@;
            match code[p] {
                Instr::LoopHead(id) => {
                    assert(code@[head_of(code@, id as int)] == code@[p as int]);
                    heads.set(id, p);
                    assert forall|j: int| 0 <= j < loops && head_of(code@, j) < p + 1 implies #[trigger] heads[j]
                        == head_of(code@, j) by {
                        if j != id {
                            assert(heads[j] == old_heads[j]);
                            assert(code@[head_of(code@, j)] != code@[p as int]);
                        }
                    }
                },
                Instr::LoopTail(id) => {
                    assert(code@[tail_of(code@, id as int)] == code@[p as int]);
                    tails.set(id, p);
                    assert forall|j: int| 0 <= j < loops && tail_of(code@, j) < p + 1 implies #[trigger] tails[j]
                        == tail_of(code@, j) by {
                        if j != id {
                            assert(tails[j] == old_tails[j]);
                            assert(code@[tail_of(code@, j)] != code@[p as int]);
                        }
                    }
                },
                _ => {
                    assert forall|j: int| 0 <= j < loops && head_of(code@, j) < p + 1 implies #[trigger] heads[j]
                        == head_of(code@, j) by {
                        assert(code@[head_of(code@, j)] is LoopHead);
                    }
                    assert forall|j: int| 0 <= j < loops && tail_of(code@, j) < p + 1 implies #[trigger] tails[j]
                        == tail_of(code@, j) by {
                        assert(code@[tail_of(code@, j)] is LoopTail);
                    }
                },
            }
            p = p + 1;
        }
        assert forall|id: int| 0 <= id < heads.len() implies #[trigger] heads[id] == head_of(code@, id) by {
            assert(0 < head_of(code@, id) < code@.len());
        }
        assert forall|id: int| 0 <= id < tails.len() implies #[trigger] tails[id] == tail_of(code@, id) by {
            assert(0 < head_of(code@, id) < tail_of(code@, id));
        }
        Image { code, heads, tails, tape: Tape::new(), pc: 0 }
    }

    /// The tape as it stands.
    pub fn tape(&self) -> (t: &Tape)
        ensures
            t@ == self.state().tape,
    {
        &self.tape
    }
}

impl Machine for Image {
    open spec fn acts(&self) -> Seq<Act> {
        plan_acts(self.code())
    }

    open spec fn state(&self) -> Snapshot {
        Snapshot { pc: self.position(), tape: self.tape_view() }
    }

    fn halted(&self) -> (b: bool) {
        if self.pc >= self.code.len() {
            true
        } else {
            match self.code[self.pc] {
                Instr::Leave => true,
                _ => false,
            }
        }
    }

    fn wants_input(&self) -> (b: bool) {
        if self.pc < self.code.len() {
            match self.code[self.pc] {
                Instr::Get => true,
                _ => false,
            }
        } else {
            false
        }
    }

    fn pending_output(&self) -> (b: Option<u8>) {
        if self.pc < self.code.len() {
            match self.code[self.pc] {
                Instr::Put => Some(self.tape.get()),
                _ => None,
            }
        } else {
            None
        }
    }

    fn step(self, next: Option<u8>) -> (r: (Self, Signal)) {
        proof {
            use_type_invariant(&self);
        }
        if self.pc >= self.code.len() {
            return (self, Signal::Halt);
        }
        let instr = self.code[self.pc];
        let on = self.pc + 1;
        let Image { code, heads, tails, tape, pc } = self;
        match instr {
            Instr::Enter => (Image { code, heads, tails, tape, pc: on }, Signal::Step),
            Instr::Retreat(n) => {
                let (tape, ok) = tape.left(n as usize);
                if ok {
                    (Image { code, heads, tails, tape, pc: on }, Signal::Step)
                } else {
                    (Image { code, heads, tails, tape, pc }, Signal::Fault(RunError::Memory))
                }
            },
            Instr::Advance(n) => {
                let (tape, ok) = tape.right(n as usize);
                if ok {
                    (Image { code, heads, tails, tape, pc: on }, Signal::Step)
                } else {
                    (Image { code, heads, tails, tape, pc }, Signal::Fault(RunError::Memory))
                }
            },
            Instr::AddCell(n) => {
                let tape = tape.add(n);
                (Image { code, heads, tails, tape, pc: on }, Signal::Step)
            },
            Instr::SubCell(n) => {
                let tape = tape.sub(n);
                (Image { code, heads, tails, tape, pc: on }, Signal::Step)
            },
            Instr::ClearCell => {
                let tape = tape.set(0);
                (Image { code, heads, tails, tape, pc: on }, Signal::Step)
            },
            Instr::LoopHead(id) => {
                let to = if tape.get() == 0 {
                    assert(tails@[id as int] == tail_of(code@, id as int));
                    assert(0 < head_of(code@, id as int));
                    tails[id] + 1
                } else {
                    on
                };
                (Image { code, heads, tails, tape, pc: to }, Signal::Step)
            },
            Instr::LoopTail(id) => {
                let to = if tape.get() != 0 {
                    assert(heads@[id as int] == head_of(code@, id as int));
                    assert(0 < head_of(code@, id as int));
                    heads[id] + 1
                } else {
                    on
                };
                (Image { code, heads, tails, tape, pc: to }, Signal::Step)
            },
            Instr::Put => {
                let b = tape.get();
                (Image { code, heads, tails, tape, pc: on }, Signal::Emit(b))
            },
            Instr::Get => match next {
                Some(b) => {
                    let tape = tape.set(b);
                    (Image { code, heads, tails, tape, pc: on }, Signal::Read)
                },
                None => (Image { code, heads, tails, tape, pc }, Signal::Fault(RunError::Io)),
            },
            Instr::Leave => (Image { code, heads, tails, tape, pc }, Signal::Halt),
        }
    }
}

} // verus!
