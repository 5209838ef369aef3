use vstd::prelude::*;
use crate::bf_types::BF_MEMORY_SIZE;

verus! {

/// Sum of two cell values, wrapping at 256.
pub open spec fn add_wrap(a: u8, b: u8) -> u8 {
    ((a + b) % 256) as u8
}

/// Difference of two cell values, wrapping at 256.
pub open spec fn sub_wrap(a: u8, b: u8) -> u8 {
    ((a - b) % 256) as u8
}

/// The tape as a mathematical value: the cells and the index of the current one.
pub struct TapeView {
    pub cells: Seq<u8>,
    pub cp: int,
}

impl TapeView {
    /// The tape has its fixed length and the pointer is on it.
    pub open spec fn wf(self) -> bool {
        self.cells.len() == BF_MEMORY_SIZE && 0 <= self.cp < BF_MEMORY_SIZE
    }

    /// All cells zero, pointer on the first.
    pub open spec fn blank() -> TapeView {
        TapeView { cells: Seq::new(BF_MEMORY_SIZE as nat, |i: int| 0u8), cp: 0 }
    }

    /// Value of the current cell.
    pub open spec fn cell(self) -> u8 {
        self.cells[self.cp]
    }

    /// The tape with `b` in the current cell.
    pub open spec fn put(self, b: u8) -> TapeView {
        TapeView { cells: self.cells.update(self.cp, b), cp: self.cp }
    }

    /// Moving the pointer by `by` keeps it on the tape.
    pub open spec fn in_range(self, by: int) -> bool {
        0 <= self.cp + by < self.cells.len()
    }

    /// The tape with the pointer moved by `by`.
    pub open spec fn shift(self, by: int) -> TapeView {
        TapeView { cells: self.cells, cp: self.cp + by }
    }
}

/// The memory of a running program: a fixed number of 8-bit cells and a
/// pointer that never leaves them. A move that would take the pointer off
/// the tape is refused and leaves it where it was.
pub struct Tape {
    cells: Vec<u8>,
    cp: usize,
}

impl View for Tape {
    type V = TapeView;

    closed spec fn view(&self) -> TapeView {
        TapeView { cells: self.cells@, cp: self.cp as int }
    }
}

impl Tape {
    #[verifier::type_invariant]
    spec fn inv(&self) -> bool {
        self.cells.len() == BF_MEMORY_SIZE && self.cp < BF_MEMORY_SIZE
    }

    /// A blank tape.
    pub fn new() -> (t: Tape)
        ensures
            t@ == TapeView::blank(),
    {
        let mut cells: Vec<u8> = Vec::new();
        let mut i: usize = 0;
        while i < BF_MEMORY_SIZE
            invariant
                i <= BF_MEMORY_SIZE,
                cells.len() == i,
                forall|k: int| 0 <= k < i ==> cells[k] == 0u8,
            decreases BF_MEMORY_SIZE - i,
        {
            cells.push(0u8);
            i += 1;
        }
        assert(cells@ =~= TapeView::blank().cells);
        Tape { cells, cp: 0 }
    }

    /// Value of the current cell.
    pub fn get(&self) -> (b: u8)
        ensures
            self@.wf(),
            b == self@.cell(),
    {
        proof {
            use_type_invariant(self);
        }
        self.cells[self.cp]
    }

    /// Value of the cell at `index`, if the tape has one there.
    pub fn peek(&self, index: usize) -> (b: Option<u8>)
        ensures
            self@.wf(),
            b == if index < self@.cells.len() {
                Some(self@.cells[index as int])
            } else {
                None
            },
    {
        proof {
            use_type_invariant(self);
        }
        if index < self.cells.len() {
            Some(self.cells[index])
        } else {
            None
        }
    }

    /// Index of the current cell.
    pub fn pointer(&self) -> (p: usize)
        ensures
            self@.wf(),
            p == self@.cp,
    {
        proof {
            use_type_invariant(self);
        }
        self.cp
    }

    /// The tape with `b` stored in the current cell.
    pub fn set(self, b: u8) -> (t: Tape)
        ensures
            t@ == self@.put(b),
            t@.wf(),
    {
        proof {
            use_type_invariant(&self);
        }
        let mut cells = self.cells;
        let cp = self.cp;
        cells.set(cp, b);
        Tape { cells, cp }
    }

    /// The tape with `n` added to the current cell, wrapping at 256.
    pub fn add(self, n: u8) -> (t: Tape)
        ensures
            t@ == self@.put(add_wrap(self@.cell(), n)),
            t@.wf(),
    {
        let v = self.get();
        self.set(((v as u16 + n as u16) % 256) as u8)
    }

    /// The tape with `n` subtracted from the current cell, wrapping at 256.
    pub fn sub(self, n: u8) -> (t: Tape)
        ensures
            t@ == self@.put(sub_wrap(self@.cell(), n)),
            t@.wf(),
    {
        let v = self.get();
        self.set(((v as u16 + 256 - n as u16) % 256) as u8)
    }

    /// Moves the pointer `n` cells towards cell zero, if that many are there;
    /// says whether it did.
    pub fn left(self, n: usize) -> (r: (Tape, bool))
        ensures
            r.1 == self@.in_range(-(n as int)),
            r.0@ == if r.1 {
                self@.shift(-(n as int))
            } else {
                self@
            },
            r.0@.wf(),
    {
        proof {
            use_type_invariant(&self);
        }
        if n <= self.cp {
            let cp = self.cp - n;
            (Tape { cells: self.cells, cp }, true)
        } else {
            (self, false)
        }
    }

    /// Moves the pointer `n` cells away from cell zero, if that many are
    /// there; says whether it did.
    pub fn right(self, n: usize) -> (r: (Tape, bool))
        ensures
            r.1 == self@.in_range(n as int),
            r.0@ == if r.1 {
                self@.shift(n as int)
            } else {
                self@
            },
            r.0@.wf(),
    {
        proof {
            use_type_invariant(&self);
        }
        if n < BF_MEMORY_SIZE - self.cp {
            let cp = self.cp + n;
            (Tape { cells: self.cells, cp }, true)
        } else {
            (self, false)
        }
    }
}

} // verus!
