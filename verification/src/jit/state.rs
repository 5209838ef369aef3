use vstd::prelude::*;

verus! {

/// Status that a byte transfer returns when it succeeded.
pub const TRANSFER_OK: u8 = 0;

/// Status that a byte transfer returns when it failed.
pub const TRANSFER_FAILED: u8 = 1;

/// The streams of one run, held in memory: the input with a cursor, and the
/// output written so far, which may have a limit to what it holds.
///
/// `getchar` and `putchar` are the only way a running program reads or
/// writes. Each moves exactly one byte and reports failure as a status,
/// never in any other way: a read fails when no input is left, a write when
/// the output has no room left.
pub struct State {
    input: Vec<u8>,
    cursor: usize,
    output: Vec<u8>,
    limit: Option<usize>,
}

impl State {
    /// The whole input, read or not.
    pub closed spec fn input(&self) -> Seq<u8> {
        self.input@
    }

    /// How many input bytes have been read.
    pub closed spec fn consumed(&self) -> int {
        if self.cursor <= self.input.len() {
            self.cursor as int
        } else {
            self.input.len() as int
        }
    }

    /// No more is read than there is.
    pub proof fn lemma_consumed_in_range(&self)
        ensures
            0 <= self.consumed() <= self.input().len(),
    {
    }

    /// The bytes written so far.
    pub closed spec fn written(&self) -> Seq<u8> {
        self.output@
    }

    /// The number of bytes that the output holds at most, if it has a limit.
    pub closed spec fn limit(&self) -> Option<nat> {
        match self.limit {
            Some(n) => Some(n as nat),
            None => None,
        }
    }

    /// The output has room for one more byte.
    pub open spec fn has_room(&self) -> bool {
        match self.limit() {
            Some(n) => self.written().len() < n,
            None => true,
        }
    }

    /// Streams over the given input, with `output` as what is already
    /// written, and no limit to the output.
    pub fn new(input: Vec<u8>, output: Vec<u8>) -> (s: State)
        ensures
            s.input() == input@,
            s.consumed() == 0,
            s.written() == output@,
            s.limit() == None::<nat>,
    {
        State { input, cursor: 0, output, limit: None }
    }

    /// Streams over the given input, with `output` as what is already
    /// written, and an output that holds `limit` bytes in all and refuses
    /// every write beyond that.
    pub fn with_limit(input: Vec<u8>, output: Vec<u8>, limit: usize) -> (s: State)
        ensures
            s.input() == input@,
            s.consumed() == 0,
            s.written() == output@,
            s.limit() == Some(limit as nat),
    {
        State { input, cursor: 0, output, limit: Some(limit) }
    }

    /// Reads one byte of input into `cell`. Returns `TRANSFER_FAILED`, and
    /// leaves `cell` and the streams as they were, if no input is left.
    pub fn getchar(&mut self, cell: &mut u8) -> (status: u8)
        ensures
            final(self).input() == old(self).input(),
            final(self).written() == old(self).written(),
            final(self).limit() == old(self).limit(),
            old(self).consumed() < old(self).input().len() ==> status == TRANSFER_OK && *final(cell)
                == old(self).input()[old(self).consumed()] && final(self).consumed() == old(
                self,
            ).consumed() + 1,
            old(self).consumed() >= old(self).input().len() ==> status == TRANSFER_FAILED
                && *final(cell) == *old(cell) && final(self).consumed() == old(self).consumed(),
    {
        if self.cursor < self.input.len() {
            *cell = self.input[self.cursor];
            self.cursor = self.cursor + 1;
            TRANSFER_OK
        } else {
            TRANSFER_FAILED
        }
    }

    /// Writes the byte in `cell` to the output. Returns `TRANSFER_FAILED`,
    /// and leaves the streams as they were, if the output has no room left.
    pub fn putchar(&mut self, cell: &u8) -> (status: u8)
        ensures
            final(self).input() == old(self).input(),
            final(self).consumed() == old(self).consumed(),
            final(self).limit() == old(self).limit(),
            old(self).has_room() ==> status == TRANSFER_OK && final(self).written() == old(
                self,
            ).written().push(*cell),
            !old(self).has_room() ==> status == TRANSFER_FAILED && final(self).written() == old(
                self,
            ).written(),
    {
        let room = match self.limit {
            Some(n) => self.output.len() < n,
            None => true,
        };
        if room {
            self.output.push(*cell);
            TRANSFER_OK
        } else {
            TRANSFER_FAILED
        }
    }

    /// How many input bytes have been read.
    pub fn cursor(&self) -> (n: usize)
        ensures
            n == self.consumed(),
    {
        if self.cursor <= self.input.len() {
            self.cursor
        } else {
            self.input.len()
        }
    }

    /// Ends the run and hands out what was written.
    pub fn into_output(self) -> (out: Vec<u8>)
        ensures
            out@ == self.written(),
    {
        self.output
    }
}

} // verus!
