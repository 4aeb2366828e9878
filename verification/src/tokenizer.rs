//! The tokenizer: from the text of an expression to its tokens.

use vstd::prelude::*;
use vstd::slice::slice_subrange;

use crate::error::ParseError;
use crate::literal::{char_is_digit, chars_of, is_literal_char, valid_literal, Literal};
use crate::operator::{operator_of, Operator};
use crate::token::{view_of, Token, TokenView, MAX_NESTING_DEPTH};

verus! {

/// Whether the character at `i` is a minus that acts as a sign: one at the
/// very start of the text, or directly after an operator symbol.
pub open spec fn is_sign(s: Seq<char>, i: int) -> bool {
    &&& 0 <= i < s.len()
    &&& s[i] == '-'
    &&& (i == 0 || operator_of(s[i - 1]) is Some)
}

/// Where the run of digits and decimal points that starts at `i` ends: the
/// index of the first character from `i` on that is neither, or the length of
/// the text.
pub open spec fn literal_end(s: Seq<char>, i: int) -> int
    decreases s.len() - i,
{
    if 0 <= i < s.len() && is_literal_char(s[i]) {
        literal_end(s, i + 1)
    } else {
        i
    }
}

/// The index of the parenthesis that closes a group, looking from `i` on
/// with `open` parentheses open. `None` where the text ends first.
pub open spec fn closing(s: Seq<char>, i: int, open: nat) -> Option<int>
    decreases s.len() - i,
{
    if i < 0 || i >= s.len() {
        None
    } else if s[i] == '(' {
        closing(s, i + 1, open + 1)
    } else if s[i] == ')' {
        if open <= 1 {
            Some(i)
        } else {
            closing(s, i + 1, (open - 1) as nat)
        }
    } else {
        closing(s, i + 1, open)
    }
}

/// A run of digits and points ends at or after its start, within the text.
pub proof fn lemma_literal_end_bounds(s: Seq<char>, i: int)
    requires
        0 <= i <= s.len(),
    ensures
        i <= literal_end(s, i) <= s.len(),
        literal_end(s, i) < s.len() ==> !is_literal_char(s[literal_end(s, i)]),
        forall|k: int| i <= k < literal_end(s, i) ==> is_literal_char(#[trigger] s[k]),
    decreases s.len() - i,
{
    if i < s.len() && is_literal_char(s[i]) {
        lemma_literal_end_bounds(s, i + 1);
    }
}

/// The parenthesis that closes a group lies at or after the place from which
/// it was looked for, within the text.
pub proof fn lemma_closing_bounds(s: Seq<char>, i: int, open: nat)
    requires
        0 <= i,
    ensures
        closing(s, i, open) matches Some(at) ==> i <= at < s.len() && s[at] == ')',
    decreases s.len() - i,
{
    if i < s.len() {
        if s[i] == '(' {
            lemma_closing_bounds(s, i + 1, open + 1);
        } else if s[i] == ')' {
            if open > 1 {
                lemma_closing_bounds(s, i + 1, (open - 1) as nat);
            }
        } else {
            lemma_closing_bounds(s, i + 1, open);
        }
    }
}

/// `first`, and after it what `rest` holds; the failure of `rest` where it
/// is one.
pub open spec fn followed_by(first: TokenView, rest: Result<Seq<TokenView>, ParseError>) -> Result<
    Seq<TokenView>,
    ParseError,
> {
    match rest {
        Ok(tokens) => Ok(seq![first] + tokens),
        Err(e) => Err(e),
    }
}

/// The tokens of `s` from index `i` on, where groups may still be nested
/// `budget` deep.
///
/// The text is read from left to right, and the first thing that cannot be
/// read decides the failure:
/// - A sign that does not stand before a parenthesis, a digit or a decimal
///   point starts a literal, which runs as far as digits and points follow.
///   It has to be a valid literal.
/// - A parenthesis, with or without a sign directly before it, starts a
///   group, which runs to the parenthesis that closes it. There has to be
///   one. The text between the two is tokenized on its own, one level
///   deeper.
/// - Any other operator symbol is an operator.
/// - Nothing else is a token.
pub open spec fn tokens_from(s: Seq<char>, i: int, budget: nat) -> Result<
    Seq<TokenView>,
    ParseError,
>
    decreases s.len(), s.len() - i,
{
    if !(0 <= i < s.len()) {
        Ok(Seq::empty())
    } else {
        let negated = is_sign(s, i) && i + 1 < s.len() && s[i + 1] == '(';
        if (is_sign(s, i) && !negated) || is_literal_char(s[i]) {
            let end = literal_end(s, i + 1);
            let text = s.subrange(i, end);
            if valid_literal(text) {
                proof {
                    lemma_literal_end_bounds(s, i + 1);
                }
                followed_by(TokenView::Number(text), tokens_from(s, end, budget))
            } else {
                Err(ParseError::InvalidToken)
            }
        } else if negated || s[i] == '(' {
            let open_at = if negated {
                i + 1
            } else {
                i
            };
            match closing(s, open_at + 1, 1) {
                None => Err(ParseError::InvalidToken),
                Some(close_at) => {
                    if budget == 0 {
                        Err(ParseError::NestingTooDeep)
                    } else {
                        proof {
                            lemma_closing_bounds(s, open_at + 1, 1);
                        }
                        match tokens_from(
                            s.subrange(open_at + 1, close_at),
                            0,
                            (budget - 1) as nat,
                        ) {
                            Err(e) => Err(e),
                            Ok(inner) => followed_by(
                                if negated {
                                    TokenView::NegatedGroup(inner)
                                } else {
                                    TokenView::Group(inner)
                                },
                                tokens_from(s, close_at + 1, budget),
                            ),
                        }
                    }
                },
            }
        } else {
            match operator_of(s[i]) {
                Some(op) => followed_by(TokenView::Operator(op), tokens_from(s, i + 1, budget)),
                None => Err(ParseError::InvalidToken),
            }
        }
    }
}

/// The tokens of an expression, or why it has none.
pub open spec fn tokenization(text: Seq<char>) -> Result<Seq<TokenView>, ParseError> {
    tokens_from(text, 0, MAX_NESTING_DEPTH as nat)
}

/// How many parentheses are open after the first `n` characters: those that
/// were opened less those that were closed.
pub open spec fn open_after(s: Seq<char>, n: int) -> int
    decreases n,
{
    if n <= 0 || n > s.len() {
        0
    } else if s[n - 1] == '(' {
        open_after(s, n - 1) + 1
    } else if s[n - 1] == ')' {
        open_after(s, n - 1) - 1
    } else {
        open_after(s, n - 1)
    }
}

/// Whether the parentheses of a text are balanced: none is closed that was
/// not opened, and none is left open at the end.
pub open spec fn balanced(s: Seq<char>) -> bool {
    &&& forall|n: int| 0 <= n <= s.len() ==> open_after(s, n) >= 0
    &&& open_after(s, s.len() as int) == 0
}

/// What a result of tokenizing holds, as a mathematical value.
pub open spec fn outcome_view(result: Result<Vec<Token>, ParseError>) -> Result<
    Seq<TokenView>,
    ParseError,
> {
    match result {
        Ok(tokens) => Ok(view_of(tokens@)),
        Err(e) => Err(e),
    }
}

/// Tells whether `c` is a digit or the decimal point.
fn char_is_literal(c: char) -> (literal: bool)
    ensures
        literal == is_literal_char(c),
{
    char_is_digit(c) || c == '.'
}

/// Finds where the run of digits and decimal points that starts at `start`
/// ends.
fn find_literal_end(chars: &[char], start: usize) -> (end: usize)
    requires
        start <= chars@.len(),
    ensures
        end == literal_end(chars@, start as int),
        start <= end <= chars@.len(),
{
    let mut end = start;
    while end < chars.len() && char_is_literal(chars[end])
        invariant
            start <= end <= chars@.len(),
            literal_end(chars@, start as int) == literal_end(chars@, end as int),
        decreases chars@.len() - end,
    {
        end += 1;
    }
    end
}

/// Finds the parenthesis that closes the group opened at `open_at`.
fn find_closing(chars: &[char], open_at: usize) -> (found: Option<usize>)
    requires
        open_at < chars@.len(),
    ensures
        match found {
            Some(at) => closing(chars@, open_at + 1, 1) == Some(at as int) && open_at < at
                < chars@.len(),
            None => closing(chars@, open_at + 1, 1) is None,
        },
{
    let length = chars.len();
    let mut open: usize = 1;
    let mut at = open_at + 1;
    while at < length
        invariant
            length == chars@.len(),
            open_at < at <= chars@.len(),
            1 <= open <= at - open_at,
            closing(chars@, open_at + 1, 1) == closing(chars@, at as int, open as nat),
        decreases chars@.len() - at,
    {
        let c = chars[at];
        if c == '(' {
            open += 1;
        } else if c == ')' {
            if open == 1 {
                return Some(at);
            }
            open -= 1;
        }
        at += 1;
    }
    None
}

/// Tokenizes `chars`, where groups may still be nested `budget` deep.
fn tokenize_chars(chars: &[char], budget: usize) -> (result: Result<Vec<Token>, ParseError>)
    ensures
        outcome_view(result) == tokens_from(chars@, 0, budget as nat),
    decreases chars@.len(),
{
    let ghost s = chars@;
    let ghost whole = tokens_from(s, 0, budget as nat);
    let mut tokens: Vec<Token> = Vec::new();
    let mut i: usize = 0;
    assert(seq![] + tokens_from(s, 0, budget as nat)->Ok_0 =~= tokens_from(s, 0, budget as nat)->Ok_0);
    while i < chars.len()
        invariant
            s == chars@,
            i <= s.len(),
            whole == tokens_from(s, 0, budget as nat),
            whole == match tokens_from(s, i as int, budget as nat) {
                Ok(rest) => Ok::<Seq<TokenView>, ParseError>(view_of(tokens@) + rest),
                Err(e) => Err(e),
            },
        decreases s.len() - i,
    {
        let ghost done = view_of(tokens@);
        let c = chars[i];
        let sign = c == '-' && (i == 0 || Operator::from_char(chars[i - 1]).is_ok());
        let negated = sign && i + 1 < chars.len() && chars[i + 1] == '(';
        if (sign && !negated) || char_is_literal(c) {
            let end = find_literal_end(chars, i + 1);
            match Literal::from_chars(slice_subrange(chars, i, end)) {
                Err(e) => {
                    return Err(e);
                },
                Ok(literal) => {
                    tokens.push(Token::Number(literal));
                    proof {
                        let rest = tokens_from(s, end as int, budget as nat);
                        if rest is Ok {
                            assert(view_of(tokens@) + rest->Ok_0 =~= done + (seq![
                                TokenView::Number(s.subrange(i as int, end as int)),
                            ] + rest->Ok_0));
                        }
                    }
                    i = end;
                },
            }
        } else if negated || c == '(' {
            let open_at = if negated {
                i + 1
            } else {
                i
            };
            match find_closing(chars, open_at) {
                None => {
                    return Err(ParseError::InvalidToken);
                },
                Some(close_at) => {
                    if budget == 0 {
                        return Err(ParseError::NestingTooDeep);
                    }
                    match tokenize_chars(slice_subrange(chars, open_at + 1, close_at), budget - 1) {
                        Err(e) => {
                            return Err(e);
                        },
                        Ok(inner) => {
                            let ghost inner_view = view_of(inner@);
                            let token = if negated {
                                Token::NegatedGroup(inner)
                            } else {
                                Token::Group(inner)
                            };
                            tokens.push(token);
                            proof {
                                let rest = tokens_from(s, close_at + 1, budget as nat);
                                if rest is Ok {
                                    assert(view_of(tokens@) + rest->Ok_0 =~= done + (seq![
                                        if negated {
                                            TokenView::NegatedGroup(inner_view)
                                        } else {
                                            TokenView::Group(inner_view)
                                        },
                                    ] + rest->Ok_0));
                                }
                            }
                            i = close_at + 1;
                        },
                    }
                },
            }
        } else {
            match Operator::from_char(c) {
                Err(_) => {
                    return Err(ParseError::InvalidToken);
                },
                Ok(op) => {
                    tokens.push(Token::Operator(op));
                    proof {
                        let rest = tokens_from(s, i + 1, budget as nat);
                        if rest is Ok {
                            assert(view_of(tokens@) + rest->Ok_0 =~= done + (seq![
                                TokenView::Operator(op),
                            ] + rest->Ok_0));
                        }
                    }
                    i += 1;
                },
            }
        }
    }
    assert(view_of(tokens@) + Seq::<TokenView>::empty() =~= view_of(tokens@));
    Ok(tokens)
}

/// Tokenizes an expression.
///
/// The text is taken as it is: whoever calls has removed white space from it,
/// which is no token.
pub fn tokenize(expression: &str) -> (result: Result<Vec<Token>, ParseError>)
    ensures
        outcome_view(result) == tokenization(expression@),
{
    let chars = chars_of(expression);
    tokenize_chars(chars.as_slice(), MAX_NESTING_DEPTH)
}

} // verus!
