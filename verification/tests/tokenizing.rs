use infix_calc::error::ParseError;
use infix_calc::literal::{char_is_digit, chars_of, Literal};
use infix_calc::operator::{Operator, Tier};
use infix_calc::token::{Token, MAX_NESTING_DEPTH};
use infix_calc::tokenizer::tokenize;

fn number(text: &str) -> Token {
    Token::Number(Literal::from_str(text).unwrap())
}

fn op(operator: Operator) -> Token {
    Token::Operator(operator)
}

fn nested(depth: usize) -> String {
    let mut text = String::new();
    for _ in 0..depth {
        text.push('(');
    }
    text.push('1');
    for _ in 0..depth {
        text.push(')');
    }
    text
}

#[test]
fn operators_are_read_from_their_symbols() {
    assert_eq!(Operator::from_str("+"), Ok(Operator::Add));
    assert_eq!(Operator::from_str("-"), Ok(Operator::Subtract));
    assert_eq!(Operator::from_str("*"), Ok(Operator::Multiply));
    assert_eq!(Operator::from_str("x"), Ok(Operator::Multiply));
    assert_eq!(Operator::from_str("/"), Ok(Operator::Divide));
    assert_eq!(Operator::from_str("^"), Ok(Operator::Exponent));
    assert_eq!(Operator::from_char('x'), Ok(Operator::Multiply));
}

#[test]
fn other_symbols_are_no_operators() {
    assert_eq!(Operator::from_str("%"), Err(ParseError::InvalidOperator));
    assert_eq!(Operator::from_str(""), Err(ParseError::InvalidOperator));
    assert_eq!(Operator::from_str("++"), Err(ParseError::InvalidOperator));
    assert_eq!(Operator::from_str("7"), Err(ParseError::InvalidOperator));
    assert_eq!(Operator::from_str("("), Err(ParseError::InvalidOperator));
    assert_eq!(Operator::from_char('X'), Err(ParseError::InvalidOperator));
}

#[test]
fn operators_have_three_tiers() {
    assert_eq!(Operator::Add.tier(), Tier::Sum);
    assert_eq!(Operator::Subtract.tier(), Tier::Sum);
    assert_eq!(Operator::Multiply.tier(), Tier::Product);
    assert_eq!(Operator::Divide.tier(), Tier::Product);
    assert_eq!(Operator::Exponent.tier(), Tier::Power);
}

#[test]
fn digits_are_told_from_other_characters() {
    assert!(char_is_digit('0'));
    assert!(char_is_digit('9'));
    assert!(!char_is_digit('.'));
    assert!(!char_is_digit('a'));
    assert!(!char_is_digit('/'));
    assert!(!char_is_digit(':'));
}

#[test]
fn text_is_taken_character_by_character() {
    assert_eq!(chars_of("2+3"), vec!['2', '+', '3']);
    assert_eq!(chars_of(""), Vec::<char>::new());
    assert_eq!(chars_of("é1"), vec!['é', '1']);
}

#[test]
fn literals_are_decimals_with_an_optional_sign() {
    for text in ["5", "5.", ".5", "0.25", "-5", "-.5", "-5.", "-0.25", "007", "123456789012345678901234567890.5"] {
        let literal = Literal::from_str(text).unwrap();
        assert_eq!(literal.chars().iter().collect::<String>(), text);
        assert_eq!(literal.is_negative(), text.starts_with('-'));
    }
}

#[test]
fn malformed_literals_are_refused() {
    for text in ["", ".", "-", "-.", "1.2.3", "--5", "5-", "+5", "1e5", "inf", "5 ", "1..2", "-(", "٣"] {
        assert_eq!(Literal::from_str(text), Err(ParseError::InvalidToken), "{:?}", text);
    }
}

#[test]
fn a_literal_is_made_of_characters_as_of_text() {
    assert_eq!(
        Literal::from_chars(&['-', '1', '.', '5']),
        Literal::from_str("-1.5")
    );
    assert_eq!(
        Literal::from_chars(&['1', '-', '5']),
        Err(ParseError::InvalidToken)
    );
    assert_eq!(Literal::from_chars(&[]), Err(ParseError::InvalidToken));
    assert_ne!(Literal::from_str("1.50"), Literal::from_str("1.5"));
}

#[test]
fn a_literal_can_be_copied() {
    let literal = Literal::from_str("-12.5").unwrap();
    let copy = literal.clone();
    assert_eq!(copy, literal);
    assert_eq!(copy.chars(), &['-', '1', '2', '.', '5']);
}

#[test]
fn single_tokens_are_read_from_text() {
    assert_eq!(Token::from_str("+"), Ok(op(Operator::Add)));
    assert_eq!(Token::from_str("-"), Ok(op(Operator::Subtract)));
    assert_eq!(Token::from_str("x"), Ok(op(Operator::Multiply)));
    assert_eq!(Token::from_str("12.5"), Ok(number("12.5")));
    assert_eq!(Token::from_str("-3"), Ok(number("-3")));
    assert_eq!(Token::from_str("7"), Ok(number("7")));
}

#[test]
fn text_that_is_no_single_token_is_refused() {
    for text in ["", "(", ")", ".", "1.2.3", "2+3", "(2)", "a", "--"] {
        assert_eq!(Token::from_str(text), Err(ParseError::InvalidToken), "{:?}", text);
    }
}

#[test]
fn a_sum_is_three_tokens() {
    assert_eq!(
        tokenize("2+3"),
        Ok(vec![number("2"), op(Operator::Add), number("3")])
    );
}

#[test]
fn the_empty_text_has_no_tokens() {
    assert_eq!(tokenize(""), Ok(vec![]));
}

#[test]
fn literals_run_as_far_as_digits_and_points_go() {
    assert_eq!(
        tokenize("12.5*.5/3."),
        Ok(vec![
            number("12.5"),
            op(Operator::Multiply),
            number(".5"),
            op(Operator::Divide),
            number("3."),
        ])
    );
}

#[test]
fn both_multiplication_symbols_are_read() {
    assert_eq!(
        tokenize("2x3*4"),
        Ok(vec![
            number("2"),
            op(Operator::Multiply),
            number("3"),
            op(Operator::Multiply),
            number("4"),
        ])
    );
}

#[test]
fn a_leading_minus_is_the_sign_of_the_literal() {
    assert_eq!(
        tokenize("-2^2"),
        Ok(vec![number("-2"), op(Operator::Exponent), number("2")])
    );
}

#[test]
fn a_minus_after_an_operator_is_the_sign_of_the_literal() {
    assert_eq!(
        tokenize("2--3"),
        Ok(vec![number("2"), op(Operator::Subtract), number("-3")])
    );
    assert_eq!(
        tokenize("2*-3"),
        Ok(vec![number("2"), op(Operator::Multiply), number("-3")])
    );
    assert_eq!(
        tokenize("2x-.5"),
        Ok(vec![number("2"), op(Operator::Multiply), number("-.5")])
    );
}

#[test]
fn a_minus_after_a_value_is_an_operator() {
    assert_eq!(
        tokenize("2-3"),
        Ok(vec![number("2"), op(Operator::Subtract), number("3")])
    );
    assert_eq!(
        tokenize("(2)-3"),
        Ok(vec![
            Token::Group(vec![number("2")]),
            op(Operator::Subtract),
            number("3"),
        ])
    );
    assert_eq!(
        tokenize("2-(3)"),
        Ok(vec![
            number("2"),
            op(Operator::Subtract),
            Token::Group(vec![number("3")]),
        ])
    );
}

#[test]
fn a_group_holds_its_own_tokens() {
    assert_eq!(
        tokenize("(2+3)*4"),
        Ok(vec![
            Token::Group(vec![number("2"), op(Operator::Add), number("3")]),
            op(Operator::Multiply),
            number("4"),
        ])
    );
}

#[test]
fn groups_nest() {
    assert_eq!(
        tokenize("((1)+(2x(3)))"),
        Ok(vec![Token::Group(vec![
            Token::Group(vec![number("1")]),
            op(Operator::Add),
            Token::Group(vec![
                number("2"),
                op(Operator::Multiply),
                Token::Group(vec![number("3")]),
            ]),
        ])])
    );
}

#[test]
fn an_empty_group_is_a_group() {
    assert_eq!(tokenize("()"), Ok(vec![Token::Group(vec![])]));
}

#[test]
fn a_sign_before_a_group_negates_it() {
    assert_eq!(
        tokenize("-(2+3)"),
        Ok(vec![Token::NegatedGroup(vec![
            number("2"),
            op(Operator::Add),
            number("3"),
        ])])
    );
    assert_eq!(
        tokenize("2*-(3)"),
        Ok(vec![
            number("2"),
            op(Operator::Multiply),
            Token::NegatedGroup(vec![number("3")]),
        ])
    );
    assert_eq!(
        tokenize("(-(1))"),
        Ok(vec![Token::Group(vec![Token::NegatedGroup(vec![number(
            "1"
        )])])])
    );
}

#[test]
fn a_sign_is_read_inside_a_group_as_at_the_start() {
    assert_eq!(
        tokenize("(-2)"),
        Ok(vec![Token::Group(vec![number("-2")])])
    );
}

#[test]
fn doubled_operators_are_tokens_all_the_same() {
    assert_eq!(
        tokenize("2++3"),
        Ok(vec![
            number("2"),
            op(Operator::Add),
            op(Operator::Add),
            number("3"),
        ])
    );
    assert_eq!(
        tokenize("+5"),
        Ok(vec![op(Operator::Add), number("5")])
    );
}

#[test]
fn a_sign_without_a_number_is_no_token() {
    assert_eq!(tokenize("-"), Err(ParseError::InvalidToken));
    assert_eq!(tokenize("--5"), Err(ParseError::InvalidToken));
    assert_eq!(tokenize("2*-"), Err(ParseError::InvalidToken));
    assert_eq!(tokenize("2*-+3"), Err(ParseError::InvalidToken));
    assert_eq!(tokenize("-)"), Err(ParseError::InvalidToken));
}

#[test]
fn a_literal_with_two_points_is_no_token() {
    assert_eq!(tokenize("1.2.3"), Err(ParseError::InvalidToken));
    assert_eq!(tokenize("1..2"), Err(ParseError::InvalidToken));
    assert_eq!(tokenize("2+."), Err(ParseError::InvalidToken));
    assert_eq!(tokenize("(1.2.3)"), Err(ParseError::InvalidToken));
}

#[test]
fn other_characters_are_no_tokens() {
    assert_eq!(tokenize("2@3"), Err(ParseError::InvalidToken));
    assert_eq!(tokenize("2 + 3"), Err(ParseError::InvalidToken));
    assert_eq!(tokenize("a"), Err(ParseError::InvalidToken));
    assert_eq!(tokenize("2X3"), Err(ParseError::InvalidToken));
    assert_eq!(tokenize("1e5"), Err(ParseError::InvalidToken));
    assert_eq!(tokenize("(2÷3)"), Err(ParseError::InvalidToken));
}

#[test]
fn an_unclosed_parenthesis_is_a_failure() {
    assert_eq!(tokenize("(2+3"), Err(ParseError::InvalidToken));
    assert_eq!(tokenize("1(2+3"), Err(ParseError::InvalidToken));
    assert_eq!(tokenize("1+(2+3"), Err(ParseError::InvalidToken));
    assert_eq!(tokenize("((2+3)"), Err(ParseError::InvalidToken));
    assert_eq!(tokenize("("), Err(ParseError::InvalidToken));
    assert_eq!(tokenize("-("), Err(ParseError::InvalidToken));
}

#[test]
fn a_stray_closing_parenthesis_is_a_failure() {
    assert_eq!(tokenize("2+3)"), Err(ParseError::InvalidToken));
    assert_eq!(tokenize(")"), Err(ParseError::InvalidToken));
    assert_eq!(tokenize("(2+3))"), Err(ParseError::InvalidToken));
    assert_eq!(tokenize("2)+(3"), Err(ParseError::InvalidToken));
}

#[test]
fn the_first_failure_from_the_left_is_reported() {
    let too_deep = nested(MAX_NESTING_DEPTH + 1);
    assert_eq!(
        tokenize(&format!("1.2.3+{}", too_deep)),
        Err(ParseError::InvalidToken)
    );
    assert_eq!(
        tokenize(&format!("{}+1.2.3", too_deep)),
        Err(ParseError::NestingTooDeep)
    );
    assert_eq!(
        tokenize(&format!("({}", too_deep)),
        Err(ParseError::InvalidToken)
    );
}

#[test]
fn nesting_is_followed_down_to_the_cap() {
    let mut expected = vec![number("1")];
    for _ in 0..MAX_NESTING_DEPTH {
        expected = vec![Token::Group(expected)];
    }
    assert_eq!(tokenize(&nested(MAX_NESTING_DEPTH)), Ok(expected));
}

#[test]
fn nesting_beyond_the_cap_is_a_failure_of_its_own() {
    assert_eq!(
        tokenize(&nested(MAX_NESTING_DEPTH + 1)),
        Err(ParseError::NestingTooDeep)
    );
    assert_eq!(
        tokenize(&nested(10 * MAX_NESTING_DEPTH)),
        Err(ParseError::NestingTooDeep)
    );
}

#[test]
fn tokenizing_twice_gives_the_same_tokens() {
    let text = "-(2+3)*4^-2/(1.5-x)";
    assert_eq!(tokenize(text), tokenize(text));
    let text = "-(2+3)*4^-2/(1.5-.5)";
    assert!(tokenize(text).is_ok());
    assert_eq!(tokenize(text), tokenize(text));
}
