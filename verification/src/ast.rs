//! The instruction set and the program container.

use vstd::prelude::*;

verus! {

/// Target carried by a loop entry whose matching exit is not known yet.
pub const UNRESOLVED: usize = usize::MAX;

/// A single instruction. The eight symbols `<`, `>`, `+`, `-`, `,`, `.`, `[`
/// and `]` each stand for one instruction; fused forms such as `Inc(4)` stand
/// for several equal symbols in a row.
#[derive(Debug, Clone, Copy, PartialEq, Eq, Structural)]
pub enum Instruction {
    /// Moves the data pointer left by the given offset. `<` is `MoveLeft(1)`.
    MoveLeft(usize),
    /// Moves the data pointer right by the given offset. `>` is `MoveRight(1)`.
    MoveRight(usize),
    /// Adds the given value to the current cell, wrapping at 256. `+` is `Inc(1)`.
    Inc(u8),
    /// Subtracts the given value from the current cell, wrapping below 0.
    /// `-` is `Dec(1)`.
    Dec(u8),
    /// Reads one byte of input into the current cell.
    Input,
    /// Writes the current cell as one byte of output.
    Output,
    /// `[`: if the current cell is 0, execution continues behind the
    /// instruction at the given index, which is the matching `LoopExit`.
    LoopEntry(usize),
    /// `]`: if the current cell is not 0, execution continues behind the
    /// instruction at the given index, which is the matching `LoopEntry`.
    LoopExit(usize),
}

impl Instruction {
    /// What the instruction adds to the nesting depth: 1 for a loop entry,
    /// -1 for a loop exit, 0 for the rest.
    pub open spec fn delta(self) -> int {
        match self {
            Instruction::LoopEntry(_) => 1,
            Instruction::LoopExit(_) => -1,
            _ => 0,
        }
    }

    /// True for the two loop instructions.
    pub open spec fn is_bracket(self) -> bool {
        self is LoopEntry || self is LoopExit
    }

    /// Two instructions have the same shape when they are equal up to the
    /// target of a loop instruction.
    pub open spec fn same_shape(self, other: Instruction) -> bool {
        match self {
            Instruction::LoopEntry(_) => other is LoopEntry,
            Instruction::LoopExit(_) => other is LoopExit,
            _ => self == other,
        }
    }
}

/// A program: instructions in order, each addressed by its index.
#[derive(Debug, PartialEq)]
pub struct Program {
    /// The instructions. Loop instructions hold indices into this vector.
    pub instructions: Vec<Instruction>,
}

impl View for Program {
    type V = Seq<Instruction>;

    open spec fn view(&self) -> Seq<Instruction> {
        self.instructions@
    }
}

/// Why a text or an instruction sequence is no program.
#[derive(Debug, Clone, Copy, PartialEq, Eq, Structural)]
pub enum SyntaxError {
    /// The loop exit at this index closes no loop.
    UnbalancedCloser(usize),
    /// The loop entry at this index is never closed.
    UnbalancedOpener(usize),
}

} // verus!
