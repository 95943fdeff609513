//! Definitions shared by all passes: errors, commands and flat instructions.

use vstd::prelude::*;

verus! {

/// The static and dynamic errors of a program.
#[derive(Clone, Copy, Debug, PartialEq, Eq, Structural)]
pub enum Error {
    /// A `[` without a matching `]` (syntax error).
    UnmatchedBegin,
    /// A `]` without a matching `[` (syntax error).
    UnmatchedEnd,
    /// The pointer would move below cell 0 (run-time error).
    PointerUnderflow,
    /// The pointer would move to or past the end of the tape (run-time error).
    PointerOverflow,
}

/// The result type of operations that can fail.
pub type BfResult<T> = Result<T, Error>;

impl Error {
    /// A one-line human-readable description of the error.
    pub fn describe(&self) -> (r: &'static str)
        ensures
            *self == Error::UnmatchedBegin ==> r@ == "unmatched '['"@,
            *self == Error::UnmatchedEnd ==> r@ == "unmatched ']'"@,
            *self == Error::PointerUnderflow ==> r@ == "pointer underflow"@,
            *self == Error::PointerOverflow ==> r@ == "pointer overflow"@,
    {
        match self {
            Error::UnmatchedBegin => "unmatched '['",
            Error::UnmatchedEnd => "unmatched ']'",
            Error::PointerUnderflow => "pointer underflow",
            Error::PointerOverflow => "pointer overflow",
        }
    }
}

/// The eight commands of the language.
#[derive(Clone, Copy, Debug, PartialEq, Eq, Structural)]
pub enum Command {
    /// `>`: move the pointer right.
    Right,
    /// `<`: move the pointer left.
    Left,
    /// `+`: increment the current cell.
    Up,
    /// `-`: decrement the current cell.
    Down,
    /// `,`: read a byte into the current cell.
    In,
    /// `.`: write the current cell.
    Out,
    /// `[`: begin a loop.
    Begin,
    /// `]`: end a loop.
    End,
}

/// The source byte of a command.
pub open spec fn command_byte(c: Command) -> u8 {
    match c {
        Command::Right => 62u8,
        Command::Left => 60u8,
        Command::Up => 43u8,
        Command::Down => 45u8,
        Command::In => 44u8,
        Command::Out => 46u8,
        Command::Begin => 91u8,
        Command::End => 93u8,
    }
}

/// Whether a byte is one of the eight command characters.
pub open spec fn is_command_byte(b: u8) -> bool {
    b == 62u8 || b == 60u8 || b == 43u8 || b == 45u8 || b == 44u8 || b == 46u8 || b == 91u8
        || b == 93u8
}

/// The number of times a command repeats, and the width of jump addresses.
pub type Count = usize;

/// Instructions of the peephole tree and of flat bytecode.
#[derive(Clone, Copy, Debug, PartialEq, Eq, Structural)]
pub enum Instruction {
    /// Move the pointer left by the count.
    Left(Count),
    /// Move the pointer right by the count.
    Right(Count),
    /// Add to the current cell, wrapping modulo 256.
    Add(u8),
    /// Read a byte into the current cell.
    In,
    /// Write the current cell.
    Out,
    /// Jump to the paired `JumpNotZero` at the given index when the cell is 0.
    JumpZero(Count),
    /// Jump back to the paired `JumpZero` at the given index when the cell is not 0.
    JumpNotZero(Count),
    /// Set the current cell to 0 (the loops `[-]` and `[+]`).
    SetZero,
    /// Add the current cell to the cell that far to the right, then zero it.
    OffsetAddRight(Count),
    /// Add the current cell to the cell that far to the left, then zero it.
    OffsetAddLeft(Count),
    /// Move right by the count until the current cell is 0.
    FindZeroRight(Count),
    /// Move left by the count until the current cell is 0.
    FindZeroLeft(Count),
}

impl Instruction {
    /// Whether the instruction is a jump, which only flat bytecode holds.
    pub open spec fn is_jump(self) -> bool {
        self is JumpZero || self is JumpNotZero
    }

    /// A tree instruction: no jump, and every distance is at least one cell.
    pub open spec fn tree_wf(self) -> bool {
        match self {
            Instruction::Left(n) => n >= 1,
            Instruction::Right(n) => n >= 1,
            Instruction::OffsetAddRight(n) => n >= 1,
            Instruction::OffsetAddLeft(n) => n >= 1,
            Instruction::FindZeroRight(n) => n >= 1,
            Instruction::FindZeroLeft(n) => n >= 1,
            Instruction::JumpZero(_) => false,
            Instruction::JumpNotZero(_) => false,
            _ => true,
        }
    }
}

} // verus!
