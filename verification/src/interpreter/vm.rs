use vstd::prelude::*;
use crate::bf_types::{CH_ADD, CH_CLOSE, CH_IN, CH_LEFT, CH_OPEN, CH_OUT, CH_RIGHT, CH_SUB};
use crate::brackets::{balanced, lemma_partner};
use crate::errors::RunError;
use crate::machine::{Act, Machine, Signal, Snapshot};
use crate::ops::{Op, byte_deltas, op_deltas};
use crate::resolver::{linked, linked_at};
use crate::scan::{Delimited, find_close, find_open};
use crate::semantics::{op_act, ops_acts, source_acts};
use crate::tape::{Tape, TapeView};

verus! {

/// A machine that runs an operation sequence.
///
/// It jumps either by the partner index that a loop delimiter carries, or,
/// where the sequence is not linked, by searching for the partner.
pub struct OpMachine {
    ops: Vec<Op>,
    direct: bool,
    tape: Tape,
    pc: usize,
}

impl OpMachine {
    #[verifier::type_invariant]
    spec fn inv(&self) -> bool {
        &&& balanced(op_deltas(self.ops@))
        &&& self.direct ==> linked(self.ops@)
        &&& self.pc <= self.ops.len()
    }

    /// The operation sequence that the machine runs.
    pub closed spec fn program(&self) -> Seq<Op> {
        self.ops@
    }

    /// Index of the next operation.
    pub closed spec fn position(&self) -> int {
        self.pc as int
    }

    /// The tape as it stands.
    pub closed spec fn tape_view(&self) -> TapeView {
        self.tape@
    }

    /// A machine at the start of a linked sequence.
    pub(crate) fn from_linked(ops: Vec<Op>) -> (m: OpMachine)
        requires
            balanced(op_deltas(ops@)),
            linked(ops@),
        ensures
            m.program() == ops@,
            m.state() == Snapshot::start(),
    {
        OpMachine { ops, direct: true, tape: Tape::new(), pc: 0 }
    }

    /// A machine at the start of a balanced sequence whose delimiters it
    /// will match by searching.
    pub(crate) fn from_balanced(ops: Vec<Op>) -> (m: OpMachine)
        requires
            balanced(op_deltas(ops@)),
        ensures
            m.program() == ops@,
            m.state() == Snapshot::start(),
    {
        OpMachine { ops, direct: false, tape: Tape::new(), pc: 0 }
    }

    /// The tape as it stands.
    pub fn tape(&self) -> (t: &Tape)
        ensures
            t@ == self.state().tape,
    {
        &self.tape
    }

    /// The position after the partner of the delimiter at the current position.
    fn jump(&self) -> (t: usize)
        requires
            self.pc < self.ops.len(),
            self.ops[self.pc as int] is LBrack || self.ops[self.pc as int] is RBrack,
        ensures
            t <= self.ops.len(),
            op_act(self.ops@, self.pc as int) == Act::IfZero(t as int) || op_act(
                self.ops@,
                self.pc as int,
            ) == Act::IfNonZero(t as int),
    {
        proof {
            use_type_invariant(self);
        }
        let ghost d = op_deltas(self.ops@);
        match self.ops[self.pc] {
            Op::LBrack(t) => {
                let j = if self.direct {
                    assert(linked_at(self.ops@, self.pc as int));
                    t
                } else {
                    find_close(&self.ops, self.pc)
                };
                proof {
                    lemma_partner(d, self.pc as int, j as int);
                }
                j + 1
            },
            Op::RBrack(t) => {
                let i = if self.direct {
                    assert(linked_at(self.ops@, self.pc as int));
                    t
                } else {
                    find_open(&self.ops, self.pc)
                };
                proof {
                    lemma_partner(d, i as int, self.pc as int);
                }
                i + 1
            },
            _ => 0,
        }
    }
}

impl Machine for OpMachine {
    open spec fn acts(&self) -> Seq<Act> {
        ops_acts(self.program())
    }

    open spec fn state(&self) -> Snapshot {
        Snapshot { pc: self.position(), tape: self.tape_view() }
    }

    fn halted(&self) -> (b: bool) {
        self.pc >= self.ops.len()
    }

    fn wants_input(&self) -> (b: bool) {
        if self.pc < self.ops.len() {
            match self.ops[self.pc] {
                Op::Input => true,
                _ => false,
            }
        } else {
            false
        }
    }

    fn pending_output(&self) -> (b: Option<u8>) {
        if self.pc < self.ops.len() {
            match self.ops[self.pc] {
                Op::Output => Some(self.tape.get()),
                _ => None,
            }
        } else {
            None
        }
    }

    fn step(self, next: Option<u8>) -> (r: (Self, Signal)) {
        proof {
            use_type_invariant(&self);
        }
        if self.pc >= self.ops.len() {
            return (self, Signal::Halt);
        }
        let op = self.ops[self.pc];
        let on = self.pc + 1;
        let direct = self.direct;
        match op {
            Op::Left(n) => {
                let (tape, ok) = self.tape.left(n);
                if ok {
                    (OpMachine { ops: self.ops, direct, tape, pc: on }, Signal::Step)
                } else {
                    (
                        OpMachine { ops: self.ops, direct, tape, pc: self.pc },
                        Signal::Fault(RunError::Memory),
                    )
                }
            },
            Op::Right(n) => {
                let (tape, ok) = self.tape.right(n);
                if ok {
                    (OpMachine { ops: self.ops, direct, tape, pc: on }, Signal::Step)
                } else {
                    (
                        OpMachine { ops: self.ops, direct, tape, pc: self.pc },
                        Signal::Fault(RunError::Memory),
                    )
                }
            },
            Op::Add(n) => {
                let tape = self.tape.add(n);
                (OpMachine { ops: self.ops, direct, tape, pc: on }, Signal::Step)
            },
            Op::Sub(n) => {
                let tape = self.tape.sub(n);
                (OpMachine { ops: self.ops, direct, tape, pc: on }, Signal::Step)
            },
            Op::Zero => {
                let tape = self.tape.set(0);
                (OpMachine { ops: self.ops, direct, tape, pc: on }, Signal::Step)
            },
            Op::LBrack(_) => {
                let pc = if self.tape.get() == 0 {
                    self.jump()
                } else {
                    on
                };
                (OpMachine { ops: self.ops, direct, tape: self.tape, pc }, Signal::Step)
            },
            Op::RBrack(_) => {
                let pc = if self.tape.get() != 0 {
                    self.jump()
                } else {
                    on
                };
                (OpMachine { ops: self.ops, direct, tape: self.tape, pc }, Signal::Step)
            },
            Op::Output => {
                let b = self.tape.get();
                (OpMachine { ops: self.ops, direct, tape: self.tape, pc: on }, Signal::Emit(b))
            },
            Op::Input => match next {
                Some(b) => {
                    let tape = self.tape.set(b);
                    (OpMachine { ops: self.ops, direct, tape, pc: on }, Signal::Read)
                },
                None => (self, Signal::Fault(RunError::Io)),
            },
        }
    }
}

/// A machine that runs source bytes as they are, one byte per step, and
/// finds the partner of a loop delimiter by searching the text.
pub struct SourceMachine {
    src: Vec<u8>,
    tape: Tape,
    pc: usize,
}

impl SourceMachine {
    #[verifier::type_invariant]
    spec fn inv(&self) -> bool {
        &&& balanced(byte_deltas(self.src@))
        &&& self.pc <= self.src.len()
    }

    /// The source text that the machine runs.
    pub closed spec fn program(&self) -> Seq<u8> {
        self.src@
    }

    /// Index of the next byte.
    pub closed spec fn position(&self) -> int {
        self.pc as int
    }

    /// The tape as it stands.
    pub closed spec fn tape_view(&self) -> TapeView {
        self.tape@
    }

    /// A machine at the start of a balanced source text.
    pub(crate) fn from_balanced(src: Vec<u8>) -> (m: SourceMachine)
        requires
            balanced(byte_deltas(src@)),
        ensures
            m.program() == src@,
            m.state() == Snapshot::start(),
    {
        SourceMachine { src, tape: Tape::new(), pc: 0 }
    }

    /// The tape as it stands.
    pub fn tape(&self) -> (t: &Tape)
        ensures
            t@ == self.state().tape,
    {
        &self.tape
    }
}

impl Machine for SourceMachine {
    open spec fn acts(&self) -> Seq<Act> {
        source_acts(self.program())
    }

    open spec fn state(&self) -> Snapshot {
        Snapshot { pc: self.position(), tape: self.tape_view() }
    }

    fn halted(&self) -> (b: bool) {
        self.pc >= self.src.len()
    }

    fn wants_input(&self) -> (b: bool) {
        self.pc < self.src.len() && self.src[self.pc] == CH_IN
    }

    fn pending_output(&self) -> (b: Option<u8>) {
        if self.pc < self.src.len() && self.src[self.pc] == CH_OUT {
            Some(self.tape.get())
        } else {
            None
        }
    }

    fn step(self, next: Option<u8>) -> (r: (Self, Signal)) {
        proof {
            use_type_invariant(&self);
        }
        if self.pc >= self.src.len() {
            return (self, Signal::Halt);
        }
        let ghost d = byte_deltas(self.src@);
        let c = self.src[self.pc];
        let on = self.pc + 1;
        if c == CH_LEFT {
            let (tape, ok) = self.tape.left(1);
            if ok {
                (SourceMachine { src: self.src, tape, pc: on }, Signal::Step)
            } else {
                (SourceMachine { src: self.src, tape, pc: self.pc }, Signal::Fault(RunError::Memory))
            }
        } else if c == CH_RIGHT {
            let (tape, ok) = self.tape.right(1);
            if ok {
                (SourceMachine { src: self.src, tape, pc: on }, Signal::Step)
            } else {
                (SourceMachine { src: self.src, tape, pc: self.pc }, Signal::Fault(RunError::Memory))
            }
        } else if c == CH_ADD {
            let tape = self.tape.add(1);
            (SourceMachine { src: self.src, tape, pc: on }, Signal::Step)
        } else if c == CH_SUB {
            let tape = self.tape.sub(1);
            (SourceMachine { src: self.src, tape, pc: on }, Signal::Step)
        } else if c == CH_OPEN {
            let pc = if self.tape.get() == 0 {
                let j = find_close(&self.src, self.pc);
                proof {
                    lemma_partner(d, self.pc as int, j as int);
                }
                j + 1
            } else {
                on
            };
            (SourceMachine { src: self.src, tape: self.tape, pc }, Signal::Step)
        } else if c == CH_CLOSE {
            let pc = if self.tape.get() != 0 {
                let i = find_open(&self.src, self.pc);
                proof {
                    lemma_partner(d, i as int, self.pc as int);
                }
                i + 1
            } else {
                on
            };
            (SourceMachine { src: self.src, tape: self.tape, pc }, Signal::Step)
        } else if c == CH_OUT {
            let b = self.tape.get();
            (SourceMachine { src: self.src, tape: self.tape, pc: on }, Signal::Emit(b))
        } else if c == CH_IN {
            match next {
                Some(b) => {
                    let tape = self.tape.set(b);
                    (SourceMachine { src: self.src, tape, pc: on }, Signal::Read)
                },
                None => (self, Signal::Fault(RunError::Io)),
            }
        } else {
            (SourceMachine { src: self.src, tape: self.tape, pc: on }, Signal::Step)
        }
    }
}

} // verus!
