//! A toolkit for a tape-machine language of eight instructions.
//!
//! Source bytes go through a front-end ([`ops`]) that skips commentary,
//! fuses runs of repeated instructions and recognises the clear idiom
//! `[-]`; a resolver ([`resolver`]) pairs the loop delimiters; and the
//! result is either interpreted ([`interpreter`]) or compiled into a plan
//! from which a native back-end emits code ([`jit`]). Two generators turn a
//! source into a C or a JavaScript program ([`transpiler`]).
//!
//! Three decisions hold throughout:
//!
//! - The tape has [`bf_types::BF_MEMORY_SIZE`] cells and the data pointer is
//!   checked: a move that would take it off the tape fails with
//!   [`errors::RunError::Memory`] and changes nothing.
//! - Cells are 8 bits wide and wrap around. A fused cell change is reduced
//!   modulo 256 when it is fused.
//! - A source with unbalanced loops is refused before anything runs, by every
//!   interpreter and by the compiler alike.
//!
//! What a program means is defined once ([`machine`], [`semantics`]); every
//! way of running one is proved to agree with every other ([`laws`]).

pub mod bf_types;
pub mod errors;
pub mod brackets;
pub mod ops;
pub mod resolver;
pub mod scan;
pub mod tape;
pub mod machine;
pub mod semantics;
pub mod interpreter;
pub mod transpiler;
pub mod jit;
pub mod laws;
