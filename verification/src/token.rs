//! Tokens: the classified units of an expression.

use vstd::prelude::*;

use crate::error::ParseError;
use crate::literal::{chars_of, valid_literal, Literal};
use crate::operator::{operator_of, Operator};

verus! {

/// How deeply groups may be nested. A group that stands directly in an
/// expression is at depth 1.
pub const MAX_NESTING_DEPTH: usize = 64;

/// A unit of an expression: a number, an operator, or a parenthesised
/// sub-expression as the sequence of its own tokens.
#[derive(Debug, PartialEq, Eq)]
pub enum Token {
    /// A number, as the literal that was written.
    Number(Literal),
    /// A binary operator.
    Operator(Operator),
    /// A parenthesised sub-expression.
    Group(Vec<Token>),
    /// A parenthesised sub-expression with a minus sign directly before it:
    /// it stands for the negation of the group's value.
    NegatedGroup(Vec<Token>),
}

/// What a [`Token`] holds, as a mathematical value.
pub ghost enum TokenView {
    Number(Seq<char>),
    Operator(Operator),
    Group(Seq<TokenView>),
    NegatedGroup(Seq<TokenView>),
}

impl View for Token {
    type V = TokenView;

    open spec fn view(&self) -> TokenView
        decreases self,
    {
        match self {
            Token::Number(literal) => TokenView::Number(literal@),
            Token::Operator(op) => TokenView::Operator(*op),
            Token::Group(tokens) => TokenView::Group(view_of(tokens@)),
            Token::NegatedGroup(tokens) => TokenView::NegatedGroup(view_of(tokens@)),
        }
    }
}

/// The views of a sequence of tokens, in order.
pub open spec fn view_of(tokens: Seq<Token>) -> Seq<TokenView>
    decreases tokens,
{
    Seq::new(
        tokens.len(),
        |i: int|
            if 0 <= i < tokens.len() {
                tokens[i]@
            } else {
                arbitrary()
            },
    )
}

/// Whether the numbers of a token sequence are valid literals and its groups
/// are nested at most `budget` deep.
pub open spec fn well_formed(tokens: Seq<TokenView>, budget: nat) -> bool
    decreases tokens,
{
    forall|i: int|
        0 <= i < tokens.len() ==> match #[trigger] tokens[i] {
            TokenView::Number(text) => valid_literal(text),
            TokenView::Operator(_) => true,
            TokenView::Group(inner) => budget > 0 && well_formed(inner, (budget - 1) as nat),
            TokenView::NegatedGroup(inner) => budget > 0 && well_formed(
                inner,
                (budget - 1) as nat,
            ),
        }
}

/// The token that a piece of text spells on its own: an operator where it is
/// one operator symbol, else a number where it is a valid literal.
pub open spec fn token_of(text: Seq<char>) -> Option<TokenView> {
    if text.len() == 1 && operator_of(text[0]) is Some {
        Some(TokenView::Operator(operator_of(text[0])->Some_0))
    } else if valid_literal(text) {
        Some(TokenView::Number(text))
    } else {
        None
    }
}

impl Token {
    /// Reads the token that `text` spells on its own. A parenthesis is no
    /// token, and neither is a group in its text form: those are the
    /// tokenizer's to read.
    pub fn from_str(text: &str) -> (result: Result<Token, ParseError>)
        ensures
            match result {
                Ok(token) => token_of(text@) == Some(token@),
                Err(e) => token_of(text@) is None && e == ParseError::InvalidToken,
            },
    {
        let chars = chars_of(text);
        if chars.len() == 1 {
            match Operator::from_char(chars[0]) {
                Ok(op) => {
                    return Ok(Token::Operator(op));
                },
                Err(_) => {},
            }
        }
        match Literal::from_chars(chars.as_slice()) {
            Ok(literal) => Ok(Token::Number(literal)),
            Err(_) => Err(ParseError::InvalidToken),
        }
    }
}

} // verus!
