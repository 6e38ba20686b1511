//! A compiler and interpreter for an eight-command tape language: source text is
//! filtered into instructions, runs of like instructions are fused, loop brackets
//! are resolved into relative jumps, and a tape machine executes the result.

pub mod compile;
pub mod error;
pub mod instr;
pub mod machine;
pub mod optimize;
pub mod resolve;

pub use compile::{compile, lex};
pub use error::Error;
pub use instr::Instr;
pub use machine::{Action, Machine, TAPE_LEN};
pub use optimize::opt;
pub use resolve::resolve_jumps;
