//! Decimal literals: the text of a number, held as written.

use vstd::prelude::*;
use vstd::slice::slice_to_vec;

use crate::error::ParseError;

verus! {

/// A decimal digit.
pub open spec fn is_digit(c: char) -> bool {
    '0' <= c && c <= '9'
}

/// A character that the unsigned part of a literal is made of: a digit or the
/// decimal point.
pub open spec fn is_literal_char(c: char) -> bool {
    is_digit(c) || c == '.'
}

/// An unsigned decimal: digits with at most one decimal point before, among
/// or after them, and at least one digit. So `5`, `5.`, `.5` and `0.25` are
/// decimals; `.`, `1.2.3` and the empty text are not.
pub open spec fn is_decimal(body: Seq<char>) -> bool {
    &&& forall|i: int| 0 <= i < body.len() ==> is_literal_char(#[trigger] body[i])
    &&& exists|i: int| 0 <= i < body.len() && is_digit(#[trigger] body[i])
    &&& forall|i: int, j: int|
        #![trigger body[i], body[j]]
        0 <= i < j < body.len() && body[i] == '.' ==> body[j] != '.'
}

/// A literal: an unsigned decimal, or a minus sign followed by one.
pub open spec fn valid_literal(text: Seq<char>) -> bool {
    if text.len() > 0 && text[0] == '-' {
        is_decimal(text.skip(1))
    } else {
        is_decimal(text)
    }
}

/// Tells whether `c` is a decimal digit.
pub fn char_is_digit(c: char) -> (digit: bool)
    ensures
        digit == is_digit(c),
{
    '0' <= c && c <= '9'
}

/// The characters of a piece of text, in order.
pub fn chars_of(text: &str) -> (chars: Vec<char>)
    ensures
        chars@ == text@,
{
    let mut chars: Vec<char> = Vec::new();
    for c in it: text.chars()
        invariant
            chars@ == it.seq().take(it.index() as int),
            it.seq() == text@,
    {
        chars.push(c);
    }
    assert(chars@ == text@);
    chars
}

/// Tells whether `chars`, from `start` on, is an unsigned decimal.
fn decimal_from(chars: &[char], start: usize) -> (decimal: bool)
    requires
        start <= chars@.len(),
    ensures
        decimal == is_decimal(chars@.skip(start as int)),
{
    let ghost body = chars@.skip(start as int);
    let mut seen_digit = false;
    let mut seen_point = false;
    let mut i: usize = start;
    while i < chars.len()
        invariant
            start <= i <= chars@.len(),
            body == chars@.skip(start as int),
            forall|k: int| 0 <= k < i - start ==> is_literal_char(#[trigger] body[k]),
            seen_digit <==> exists|k: int| 0 <= k < i - start && is_digit(#[trigger] body[k]),
            seen_point <==> exists|k: int| 0 <= k < i - start && #[trigger] body[k] == '.',
            forall|k: int, l: int|
                #![trigger body[k], body[l]]
                0 <= k < l < i - start && body[k] == '.' ==> body[l] != '.',
        decreases chars@.len() - i,
    {
        let c = chars[i];
        assert(c == body[i - start]);
        if char_is_digit(c) {
            seen_digit = true;
        } else if c == '.' {
            if seen_point {
                return false;
            }
            seen_point = true;
        } else {
            return false;
        }
        i += 1;
    }
    seen_digit
}

/// The text of a number: an optional minus sign and an unsigned decimal.
///
/// A value of this type always holds a valid literal, so whoever turns it
/// into a number of some kind can do so without expecting failure.
#[derive(Debug, PartialEq, Eq)]
pub struct Literal {
    text: Vec<char>,
}

impl View for Literal {
    type V = Seq<char>;

    closed spec fn view(&self) -> Seq<char> {
        self.text@
    }
}

impl Literal {
    #[verifier::type_invariant]
    spec fn well_formed(&self) -> bool {
        valid_literal(self.text@)
    }

    /// Makes a literal of `chars`, which have to spell one.
    pub fn from_chars(chars: &[char]) -> (result: Result<Literal, ParseError>)
        ensures
            valid_literal(chars@) ==> result is Ok && result->Ok_0@ == chars@,
            !valid_literal(chars@) ==> result == Err::<Literal, ParseError>(
                ParseError::InvalidToken,
            ),
    {
        let start: usize = if chars.len() > 0 && chars[0] == '-' {
            1
        } else {
            0
        };
        assert(chars@.skip(0) == chars@);
        if decimal_from(chars, start) {
            Ok(Literal { text: slice_to_vec(chars) })
        } else {
            Err(ParseError::InvalidToken)
        }
    }

    /// Makes a literal of `text`, which has to spell one.
    pub fn from_str(text: &str) -> (result: Result<Literal, ParseError>)
        ensures
            valid_literal(text@) ==> result is Ok && result->Ok_0@ == text@,
            !valid_literal(text@) ==> result == Err::<Literal, ParseError>(
                ParseError::InvalidToken,
            ),
    {
        let chars = chars_of(text);
        Literal::from_chars(chars.as_slice())
    }

    /// The characters of the literal, as written.
    pub fn chars(&self) -> (chars: &[char])
        ensures
            chars@ == self@,
            valid_literal(chars@),
    {
        proof {
            use_type_invariant(self);
        }
        self.text.as_slice()
    }

    /// Tells whether the literal carries a minus sign.
    pub fn is_negative(&self) -> (negative: bool)
        ensures
            negative == (self@[0] == '-'),
            valid_literal(self@),
    {
        proof {
            use_type_invariant(self);
        }
        self.text[0] == '-'
    }

}

impl Clone for Literal {
    fn clone(&self) -> (copy: Literal)
        ensures
            copy@ == self@,
    {
        proof {
            use_type_invariant(self);
        }
        Literal { text: slice_to_vec(self.text.as_slice()) }
    }
}

} // verus!
