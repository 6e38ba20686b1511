use vstd::prelude::*;

verus! {

/// What can go wrong while compiling or running a program.
#[derive(Copy, Clone, Debug, PartialEq, Eq, Hash, Structural)]
pub enum Error {
    /// A loop is closed that was never opened, or opened and never closed.
    BracketMismatch,
    /// An input instruction was reached after the input stream ended.
    InputExhausted,
    /// The data pointer would leave the tape.
    MemoryFault,
}

} // verus!
