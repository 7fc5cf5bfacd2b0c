//! The instructions of a program.

use vstd::prelude::*;

verus! {

/// An instruction on numbered wires. The first number is the wire that is
/// written, except for `Output`, which reads its wire.
#[derive(Clone, Copy, Debug, PartialEq, Eq)]
pub enum Instruction<S> {
    /// Adds a constant to a wire.
    AddConst(usize, usize, S),
    /// Multiplies a wire by a constant.
    MulConst(usize, usize, S),
    /// Adds two wires.
    Add(usize, usize, usize),
    /// Multiplies two wires.
    Mul(usize, usize, usize),
    /// Reads the next element of the branch.
    Branch(usize),
    /// Reads the next element of the input.
    Input(usize),
    /// Makes a wire public.
    Output(usize),
}

} // verus!
