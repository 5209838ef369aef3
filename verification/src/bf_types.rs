use vstd::prelude::*;

verus! {

/// Number of cells on the tape. Every backend uses the same length.
pub const BF_MEMORY_SIZE: usize = 30000;

/// The eight significant source bytes.
pub const CH_LEFT: u8 = 60;

pub const CH_RIGHT: u8 = 62;

pub const CH_ADD: u8 = 43;

pub const CH_SUB: u8 = 45;

pub const CH_OPEN: u8 = 91;

pub const CH_CLOSE: u8 = 93;

pub const CH_OUT: u8 = 46;

pub const CH_IN: u8 = 44;

/// True for the four bytes whose consecutive repetitions fuse into one operation.
pub open spec fn is_run_byte(c: u8) -> bool {
    c == CH_LEFT || c == CH_RIGHT || c == CH_ADD || c == CH_SUB
}

/// True for the eight bytes that are instructions; every other byte is commentary.
pub open spec fn is_command(c: u8) -> bool {
    is_run_byte(c) || c == CH_OPEN || c == CH_CLOSE || c == CH_OUT || c == CH_IN
}

} // verus!
