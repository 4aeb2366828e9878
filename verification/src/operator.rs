//! Binary operators, their symbols and their precedence tiers.

use vstd::prelude::*;
use vstd::string::StrSliceExecFns;

use crate::error::ParseError;

verus! {

/// A binary arithmetic operator.
#[derive(Debug, Clone, Copy, PartialEq, Eq, Structural)]
pub enum Operator {
    Add,
    Subtract,
    Multiply,
    Divide,
    Exponent,
}

/// A precedence tier. Operators of a higher tier are applied before those of
/// a lower one; within a tier, the leftmost operator is applied first.
#[derive(Debug, Clone, Copy, PartialEq, Eq, Structural)]
pub enum Tier {
    /// Addition and subtraction: applied last.
    Sum,
    /// Multiplication and division.
    Product,
    /// Exponentiation: applied first.
    Power,
}

/// The operator that a symbol stands for, if it stands for one.
/// Multiplication has two symbols, `*` and `x`.
pub open spec fn operator_of(c: char) -> Option<Operator> {
    if c == '+' {
        Some(Operator::Add)
    } else if c == '-' {
        Some(Operator::Subtract)
    } else if c == '*' || c == 'x' {
        Some(Operator::Multiply)
    } else if c == '/' {
        Some(Operator::Divide)
    } else if c == '^' {
        Some(Operator::Exponent)
    } else {
        None
    }
}

impl Tier {
    /// The rank of the tier: the higher, the earlier its operators are
    /// applied.
    pub open spec fn rank(self) -> nat {
        match self {
            Tier::Sum => 1,
            Tier::Product => 2,
            Tier::Power => 3,
        }
    }
}

impl Operator {
    /// The tier of the operator.
    pub open spec fn spec_tier(self) -> Tier {
        match self {
            Operator::Add | Operator::Subtract => Tier::Sum,
            Operator::Multiply | Operator::Divide => Tier::Product,
            Operator::Exponent => Tier::Power,
        }
    }

    /// The tier of the operator.
    #[verifier::when_used_as_spec(spec_tier)]
    pub fn tier(self) -> (tier: Tier)
        ensures
            tier == self.spec_tier(),
    {
        match self {
            Operator::Add | Operator::Subtract => Tier::Sum,
            Operator::Multiply | Operator::Divide => Tier::Product,
            Operator::Exponent => Tier::Power,
        }
    }

    /// Reads an operator from its symbol.
    pub fn from_char(c: char) -> (result: Result<Operator, ParseError>)
        ensures
            result == match operator_of(c) {
                Some(op) => Ok::<Operator, ParseError>(op),
                None => Err(ParseError::InvalidOperator),
            },
    {
        if c == '+' {
            Ok(Operator::Add)
        } else if c == '-' {
            Ok(Operator::Subtract)
        } else if c == '*' || c == 'x' {
            Ok(Operator::Multiply)
        } else if c == '/' {
            Ok(Operator::Divide)
        } else if c == '^' {
            Ok(Operator::Exponent)
        } else {
            Err(ParseError::InvalidOperator)
        }
    }

    /// Reads an operator from a piece of text, which has to be exactly one
    /// operator symbol.
    pub fn from_str(s: &str) -> (result: Result<Operator, ParseError>)
        ensures
            result == if s@.len() == 1 {
                match operator_of(s@[0]) {
                    Some(op) => Ok::<Operator, ParseError>(op),
                    None => Err(ParseError::InvalidOperator),
                }
            } else {
                Err(ParseError::InvalidOperator)
            },
    {
        let mut chars = s.chars();
        match chars.next() {
            Some(c) => match chars.next() {
                None => Operator::from_char(c),
                Some(_) => Err(ParseError::InvalidOperator),
            },
            None => Err(ParseError::InvalidOperator),
        }
    }
}

} // verus!
