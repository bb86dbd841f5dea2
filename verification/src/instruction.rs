use vstd::prelude::*;

verus! {

/// One operation of the tape machine.
#[derive(Debug, PartialEq, Eq, Clone, Copy, Structural)]
pub enum Instruction {
    /// Move the data pointer by the given amount, wrapping around the tape.
    Shift(isize),
    /// Add the given amount to the current cell, wrapping around at eight bits.
    Alt(i16),
    /// Write the current cell.
    Out,
    /// Read one byte into the current cell.
    In,
    /// Open a loop.
    Loop,
    /// Close a loop.
    End,
    /// Inert placeholder; never part of a compiled program.
    NoOp,
    /// Set the current cell to zero.
    Clear,
    /// Add the current cell times `mul` to the cell `offset` places away.
    Copy { mul: u8, offset: isize },
}

impl Instruction {
    /// The instruction that a source character stands for, if any.
    pub open spec fn of_char(c: char) -> Option<Instruction> {
        if c == '>' {
            Some(Instruction::Shift(1))
        } else if c == '<' {
            Some(Instruction::Shift(-1isize))
        } else if c == '+' {
            Some(Instruction::Alt(1))
        } else if c == '-' {
            Some(Instruction::Alt(-1i16))
        } else if c == '.' {
            Some(Instruction::Out)
        } else if c == ',' {
            Some(Instruction::In)
        } else if c == '[' {
            Some(Instruction::Loop)
        } else if c == ']' {
            Some(Instruction::End)
        } else {
            None
        }
    }
}

impl TryFrom<char> for Instruction {
    type Error = ();

    /// Converts a source character into its instruction; every other
    /// character is a comment and gives `Err(())`.
    fn try_from(value: char) -> (r: Result<Instruction, ()>) {
        match value {
            '>' => Ok(Instruction::Shift(1)),
            '<' => Ok(Instruction::Shift(-1)),
            '+' => Ok(Instruction::Alt(1)),
            '-' => Ok(Instruction::Alt(-1)),
            '.' => Ok(Instruction::Out),
            ',' => Ok(Instruction::In),
            '[' => Ok(Instruction::Loop),
            ']' => Ok(Instruction::End),
            _ => Err(()),
        }
    }
}

impl vstd::std_specs::convert::TryFromSpecImpl<char> for Instruction {
    open spec fn obeys_try_from_spec() -> bool {
        true
    }

    open spec fn try_from_spec(v: char) -> Result<Instruction, ()> {
        match Instruction::of_char(v) {
            Some(i) => Ok(i),
            None => Err(()),
        }
    }
}

} // verus!
