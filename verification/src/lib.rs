//! Expression engine for single-line infix arithmetic.
//!
//! The [`tokenizer`] turns the text of an expression into a sequence of
//! tokens: decimal literals, operators and parenthesised groups, nested to any
//! depth up to a fixed cap. The [`evaluator`] resolves grouping and operator
//! precedence and yields the computation as a postfix program, which a single
//! stack of numbers runs from left to right.
//!
//! Numbers stay decimal literals throughout: the engine decides which
//! operations are performed on which operands and in which order, and leaves
//! the arithmetic itself to whoever runs the program.

pub mod error;
pub mod evaluator;
pub mod laws;
pub mod literal;
pub mod operator;
pub mod program;
pub mod token;
pub mod tokenizer;
