//! The failure kinds that converters and the evaluator surface.
//!
//! Every malformed statement or unrepresentable result is reported through
//! one of these kinds, immediately on detection; no partial or default
//! numeric result is ever produced in its place.

use vstd::prelude::*;

verus! {

/// Everything that can go wrong while converting or evaluating a statement.
#[derive(Clone, Copy, PartialEq, Eq, Structural, Debug)]
pub enum MathError {
    /// A right parenthesis had no matching left parenthesis, a left
    /// parenthesis was never closed, or a parenthesis stood where postfix or
    /// prefix form admits none.
    UnbalancedParentheses,
    /// An operator needed more operands than the stack held.
    StackUnderflow,
    /// More than one value remained on the stack after the full scan.
    LeftoverOperands,
    /// A numeric value was needed but the operand was a symbol with no bound
    /// value.
    UnresolvedSymbol,
    /// An operator token has no entry in the operator table.
    UnknownOperator,
    /// Tokenization yielded zero tokens.
    EmptyStatement,
    /// A division or a negative power had a zero divisor.
    DivisionByZero,
    /// A power was asked for with an exponent that is not an integer.
    NonIntegerExponent,
    /// An exact result fell outside the representable rational range.
    Overflow,
}

impl MathError {
    /// A short human-readable description of the failure kind.
    pub fn describe(&self) -> (r: &'static str)
        ensures
            r@.len() > 0,
    {
        let text: &'static str = match self {
            MathError::UnbalancedParentheses => "unbalanced parentheses",
            MathError::StackUnderflow => "operator is missing an operand",
            MathError::LeftoverOperands => "operands are missing an operator",
            MathError::UnresolvedSymbol => "symbol has no bound value",
            MathError::UnknownOperator => "operator has no table entry",
            MathError::EmptyStatement => "statement has no tokens",
            MathError::DivisionByZero => "division by zero",
            MathError::NonIntegerExponent => "exponent is not an integer",
            MathError::Overflow => "result is out of the representable range",
        };
        proof {
            reveal_strlit("unbalanced parentheses");
            reveal_strlit("operator is missing an operand");
            reveal_strlit("operands are missing an operator");
            reveal_strlit("symbol has no bound value");
            reveal_strlit("operator has no table entry");
            reveal_strlit("statement has no tokens");
            reveal_strlit("division by zero");
            reveal_strlit("exponent is not an integer");
            reveal_strlit("result is out of the representable range");
        }
        text
    }
}

} // verus!
