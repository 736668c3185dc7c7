//! The linear opcode sequence that the checker and the interpreter consume.

use vstd::prelude::*;

verus! {

/// One instruction of the stack-based intermediate representation.
///
/// Operands are taken from the value stack; only jump-like instructions
/// carry immediate payloads (instruction-relative offsets).
#[derive(Debug, Clone, PartialEq)]
pub enum SudiceCode {
    /// Push the literal integer.
    Num(i64),
    /// Pop one operand and add it to the top of the stack.
    Add,
    /// Pop one operand and subtract the top of the stack from it.
    Sub,
    /// Pop one operand and multiply it with the top of the stack.
    Mul,
    /// Pop one operand and divide it by the top of the stack.
    Div,
    /// Top of stack is the face count, the popped operand the die count;
    /// produce an unevaluated vector of sorted die results.
    Roll,
    /// Resample every die equal to the popped operand.
    Reroll,
    /// Resample the lowest n dice, n being the popped operand.
    RerollLowest,
    /// Resample the highest n dice.
    RerollHighest,
    /// Drop the lowest n dice.
    DropLowest,
    /// Drop the highest n dice.
    DropHighest,
    /// Cap every die above the popped operand.
    Ceil,
    /// Raise every die below the popped operand.
    Floor,
    /// Repeat the preceding `offset` instructions and keep the maximum.
    BestOf(usize),
    /// Repeat the preceding `offset` instructions and keep the minimum.
    WorstOf(usize),
    /// Multi-way case on the top of the stack; the offsets are jump
    /// distances to the non-fall-through arms, the last entry being the
    /// length of the whole select body.
    Select(Vec<usize>),
    /// Unconditional forward jump, closing each select arm.
    Jump(usize),
    /// Comparisons collapse both operands and encode true as 1, false as 2.
    Lt,
    Gt,
    Eq,
    Ne,
    /// Boolean connectives; an operand is truthy iff it collapses to 1.
    And,
    Or,
}

/// A complete program: the flat instruction sequence produced by a frontend,
/// immutable thereafter.
#[derive(Debug, Clone, PartialEq)]
pub struct SudiceExpression {
    pub code: Vec<SudiceCode>,
}

} // verus!
