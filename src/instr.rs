use vstd::prelude::*;

verus! {

/// One instruction of the tape machine.
///
/// `Forward` and `Backward` move the data pointer by their count, `Increment` and
/// `Decrement` change the current cell modulo 256, `Output` and `Input` move one byte
/// out of or into the current cell, and `Jump` is a conditional branch by a signed
/// offset. Before resolution a positive `Jump` opens a loop and a negative one closes it.
#[derive(Copy, Clone, Debug, PartialEq, Eq, PartialOrd, Hash, Structural)]
pub enum Instr {
    Forward(usize),
    Backward(usize),
    Increment(u8),
    Decrement(u8),
    Output,
    Input,
    Jump(isize),
}

/// An unresolved jump that opens a loop.
pub open spec fn is_open(i: Instr) -> bool {
    i is Jump && i->Jump_0 > 0
}

/// An unresolved jump that closes a loop.
pub open spec fn is_close(i: Instr) -> bool {
    i is Jump && i->Jump_0 < 0
}

/// An instruction that is never fused with a neighbour: a jump or an I/O step.
pub open spec fn is_barrier(i: Instr) -> bool {
    i is Jump || i is Output || i is Input
}

} // verus!
