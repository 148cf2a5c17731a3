//! Data carried toward the later code-generation stage: pseudo
//! instructions over named variables, and the instruction forms of the
//! assembly surface. No logic of this crate reads them yet.

use vstd::prelude::*;

verus! {

/// A named storage location of the later code-generation stage.
#[derive(Debug)]
pub struct Variable {
    pub name: String,
}

/// An instruction over variables, before register assignment.
#[derive(Debug)]
pub enum PseudoInstruction {
    Call(Variable),
    Return,
    Add(Variable, Variable, Variable),
    Sub(Variable, Variable, Variable),
    Li(Variable, i32),
}

/// An assembly instruction form.
#[derive(Debug)]
pub enum Instruction {
    Add(Operand, Operand, Operand),
    Sub(Operand, Operand, Operand),
    Beqz(Operand, Operand),
}

/// An assembly operand: a direct register number or a name.
#[derive(Debug)]
pub enum Operand {
    Direct(u8),
    Identifier(String),
}

} // verus!
