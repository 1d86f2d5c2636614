//! Arithmetic expression evaluation pipeline: text is tokenized, reordered
//! into postfix form by operator precedence, and assembled into a binary
//! expression tree. Every stage is specified and verified; the final
//! floating-point arithmetic is left to the (unverified) caller, which walks
//! the tree the library hands back.
use vstd::prelude::*;

pub mod solver;
pub mod tokens;

verus! {

/// Every way the pipeline can reject an input.
///
/// The first three are input-syntax errors; the last two signal a defect in
/// an earlier stage (a separator token surviving into tree-building, or an
/// operand text that does not parse as a number at evaluation time).
#[derive(Debug, PartialEq, Eq, Clone, Copy)]
pub enum EvalError {
    /// A character outside the expression alphabet, with the character
    /// itself and its position in the input (counted in characters).
    UnrecognizedCharacter { ch: char, pos: usize },
    UnbalancedParentheses,
    MalformedExpression,
    InvalidNumericLiteral,
    InvariantViolation,
}

} // verus!
