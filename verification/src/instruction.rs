//! The instruction tree and its mathematical model.

use vstd::prelude::*;

verus! {

/// One instruction of a program, as the mathematical value that contracts speak of.
pub enum Instr {
    /// Move the pointer by `count` cells: rightwards if positive, leftwards if negative.
    MovePointer(int),
    /// Add `count` to the current cell.
    ModifyCell(int),
    /// Emit the current cell.
    Output,
    /// Overwrite the current cell with the next byte of input.
    Input,
    /// Repeat the body while the current cell is not zero.
    Loop(Seq<Instr>),
}

/// One instruction of a program.
#[derive(Debug, PartialEq, Eq)]
pub enum Instruction {
    /// Move the pointer by `count` cells: rightwards if positive, leftwards if negative.
    MovePointer(i64),
    /// Add `count` to the current cell.
    ModifyCell(i64),
    /// Emit the current cell.
    Output,
    /// Overwrite the current cell with the next byte of input.
    Input,
    /// Repeat the body while the current cell is not zero.
    Loop(Vec<Instruction>),
}

impl View for Instruction {
    type V = Instr;

    open spec fn view(&self) -> Instr
        decreases self,
    {
        match self {
            Instruction::MovePointer(n) => Instr::MovePointer(*n as int),
            Instruction::ModifyCell(n) => Instr::ModifyCell(*n as int),
            Instruction::Output => Instr::Output,
            Instruction::Input => Instr::Input,
            Instruction::Loop(body) => Instr::Loop(tree_view(body@)),
        }
    }
}

/// The model of a sequence of instructions: each instruction's model, in order.
pub open spec fn tree_view(ops: Seq<Instruction>) -> Seq<Instr>
    decreases ops,
{
    Seq::new(ops.len(), |i: int| if 0 <= i < ops.len() { ops[i]@ } else { Instr::Output })
}

} // verus!
