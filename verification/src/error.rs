//! The ways in which tokenizing and evaluating can fail.

use vstd::prelude::*;

verus! {

/// Why a piece of text could not be turned into tokens.
#[derive(Debug, Clone, Copy, PartialEq, Eq, Structural)]
pub enum ParseError {
    /// A symbol is not one of the recognised operator symbols.
    InvalidOperator,
    /// A character or literal is neither a number, an operator nor a
    /// parenthesis with a partner.
    InvalidToken,
    /// Parentheses are nested more deeply than the engine follows.
    NestingTooDeep,
}

/// Why a token sequence could not be evaluated.
#[derive(Debug, Clone, Copy, PartialEq, Eq, Structural)]
pub enum EvalError {
    /// The sequence, or one of its groups, does not hold more values than
    /// operators.
    InvalidExpression,
    /// Groups are nested more deeply than the engine follows.
    NestingTooDeep,
}

} // verus!
