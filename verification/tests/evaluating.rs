use infix_calc::error::EvalError;
use infix_calc::evaluator::evaluate;
use infix_calc::program::Instruction;
use infix_calc::literal::Literal;
use infix_calc::operator::Operator;
use infix_calc::token::{Token, MAX_NESTING_DEPTH};
use infix_calc::tokenizer::tokenize;

fn number(text: &str) -> Token {
    Token::Number(Literal::from_str(text).unwrap())
}

fn push(text: &str) -> Instruction {
    Instruction::Push(Literal::from_str(text).unwrap())
}

fn apply(operator: Operator) -> Instruction {
    Instruction::Apply(operator)
}

fn program(text: &str) -> Result<Vec<Instruction>, EvalError> {
    evaluate(&tokenize(text).unwrap())
}

#[test]
fn a_number_is_pushed() {
    assert_eq!(program("42"), Ok(vec![push("42")]));
    assert_eq!(program("-4.2"), Ok(vec![push("-4.2")]));
}

#[test]
fn a_sum_pushes_both_and_adds() {
    assert_eq!(
        program("2+3"),
        Ok(vec![push("2"), push("3"), apply(Operator::Add)])
    );
}

#[test]
fn products_are_formed_before_sums() {
    assert_eq!(
        program("2+3*4"),
        Ok(vec![
            push("2"),
            push("3"),
            push("4"),
            apply(Operator::Multiply),
            apply(Operator::Add),
        ])
    );
    assert_eq!(
        program("2*3+4"),
        Ok(vec![
            push("2"),
            push("3"),
            apply(Operator::Multiply),
            push("4"),
            apply(Operator::Add),
        ])
    );
}

#[test]
fn powers_are_formed_before_products() {
    assert_eq!(
        program("2*3^4-5"),
        Ok(vec![
            push("2"),
            push("3"),
            push("4"),
            apply(Operator::Exponent),
            apply(Operator::Multiply),
            push("5"),
            apply(Operator::Subtract),
        ])
    );
}

#[test]
fn operators_of_one_tier_are_applied_from_the_left() {
    assert_eq!(
        program("2^3^2"),
        Ok(vec![
            push("2"),
            push("3"),
            apply(Operator::Exponent),
            push("2"),
            apply(Operator::Exponent),
        ])
    );
    assert_eq!(
        program("8/4x2"),
        Ok(vec![
            push("8"),
            push("4"),
            apply(Operator::Divide),
            push("2"),
            apply(Operator::Multiply),
        ])
    );
    assert_eq!(
        program("8-4+2"),
        Ok(vec![
            push("8"),
            push("4"),
            apply(Operator::Subtract),
            push("2"),
            apply(Operator::Add),
        ])
    );
}

#[test]
fn a_group_is_one_value() {
    assert_eq!(
        program("(2+3)*4"),
        Ok(vec![
            push("2"),
            push("3"),
            apply(Operator::Add),
            push("4"),
            apply(Operator::Multiply),
        ])
    );
    assert_eq!(
        program("4*(2+3)"),
        Ok(vec![
            push("4"),
            push("2"),
            push("3"),
            apply(Operator::Add),
            apply(Operator::Multiply),
        ])
    );
}

#[test]
fn a_negated_group_is_negated_after_it_is_computed() {
    assert_eq!(
        program("-(2+3)"),
        Ok(vec![
            push("2"),
            push("3"),
            apply(Operator::Add),
            Instruction::Negate,
        ])
    );
    assert_eq!(
        program("2^-(3)"),
        Ok(vec![
            push("2"),
            push("3"),
            Instruction::Negate,
            apply(Operator::Exponent),
        ])
    );
}

#[test]
fn tokens_made_by_hand_are_evaluated_like_any_others() {
    let tokens = vec![
        number("1"),
        Token::Operator(Operator::Subtract),
        Token::NegatedGroup(vec![
            number("2"),
            Token::Operator(Operator::Divide),
            Token::Group(vec![number("3")]),
        ]),
    ];
    assert_eq!(
        evaluate(&tokens),
        Ok(vec![
            push("1"),
            push("2"),
            push("3"),
            apply(Operator::Divide),
            Instruction::Negate,
            apply(Operator::Subtract),
        ])
    );
}

#[test]
fn values_beyond_the_operators_are_left_out() {
    assert_eq!(program("(2)(3)"), Ok(vec![push("2")]));
    assert_eq!(
        program("2(3)+4"),
        Ok(vec![push("2"), push("3"), apply(Operator::Add)])
    );
    assert_eq!(
        program("(1)(2)(3)*4+5"),
        Ok(vec![
            push("1"),
            push("2"),
            apply(Operator::Multiply),
            push("3"),
            apply(Operator::Add),
        ])
    );
}

#[test]
fn no_tokens_are_no_expression() {
    assert_eq!(evaluate(&[]), Err(EvalError::InvalidExpression));
    assert_eq!(program(""), Err(EvalError::InvalidExpression));
}

#[test]
fn as_many_operators_as_values_are_no_expression() {
    assert_eq!(program("2++3"), Err(EvalError::InvalidExpression));
    assert_eq!(program("2+"), Err(EvalError::InvalidExpression));
    assert_eq!(program("+2"), Err(EvalError::InvalidExpression));
    assert_eq!(program("*"), Err(EvalError::InvalidExpression));
    assert_eq!(program("2+*3"), Err(EvalError::InvalidExpression));
}

#[test]
fn a_group_that_fails_fails_the_whole() {
    assert_eq!(program("1+()"), Err(EvalError::InvalidExpression));
    assert_eq!(program("1+(2+)"), Err(EvalError::InvalidExpression));
    assert_eq!(program("-(2*)"), Err(EvalError::InvalidExpression));
    assert_eq!(program("((1+(+)))"), Err(EvalError::InvalidExpression));
}

#[test]
fn groups_are_followed_down_to_the_cap() {
    let mut tokens = vec![number("1")];
    for _ in 0..MAX_NESTING_DEPTH {
        tokens = vec![Token::Group(tokens)];
    }
    assert_eq!(evaluate(&tokens), Ok(vec![push("1")]));
}

#[test]
fn groups_beyond_the_cap_are_a_failure_of_their_own() {
    let mut tokens = vec![number("1")];
    for _ in 0..MAX_NESTING_DEPTH + 1 {
        tokens = vec![Token::NegatedGroup(tokens)];
    }
    assert_eq!(evaluate(&tokens), Err(EvalError::NestingTooDeep));
}

#[test]
fn the_first_failing_group_from_the_left_decides() {
    let mut deep = vec![number("1")];
    for _ in 0..MAX_NESTING_DEPTH + 1 {
        deep = vec![Token::Group(deep)];
    }
    let mut deep_again = vec![number("1")];
    for _ in 0..MAX_NESTING_DEPTH + 1 {
        deep_again = vec![Token::Group(deep_again)];
    }
    let tokens = vec![Token::Group(vec![]), Token::Group(deep)];
    assert_eq!(evaluate(&tokens), Err(EvalError::InvalidExpression));
    let tokens = vec![Token::Group(deep_again), Token::Group(vec![])];
    assert_eq!(evaluate(&tokens), Err(EvalError::NestingTooDeep));
}

#[test]
fn a_failing_group_is_reported_before_a_surplus_of_operators() {
    let mut deep = vec![number("1")];
    for _ in 0..MAX_NESTING_DEPTH + 1 {
        deep = vec![Token::Group(deep)];
    }
    let tokens = vec![
        Token::Operator(Operator::Add),
        Token::Operator(Operator::Add),
        Token::Group(deep),
    ];
    assert_eq!(evaluate(&tokens), Err(EvalError::NestingTooDeep));
}

#[test]
fn evaluating_twice_gives_the_same_program() {
    let tokens = tokenize("-(2+3)*4^-2/(1.5-.5)").unwrap();
    let first = evaluate(&tokens);
    let second = evaluate(&tokens);
    assert!(first.is_ok());
    assert_eq!(first, second);
    assert_eq!(tokens, tokenize("-(2+3)*4^-2/(1.5-.5)").unwrap());
}

#[test]
fn a_long_chain_is_evaluated_without_nesting() {
    let mut text = String::from("1");
    for _ in 0..20000 {
        text.push_str("+1*2");
    }
    let program = program(&text).unwrap();
    assert_eq!(program.len(), 1 + 20000 * 4);
    assert_eq!(program[0], push("1"));
    assert_eq!(program[1], push("1"));
    assert_eq!(program[2], push("2"));
    assert_eq!(program[3], apply(Operator::Multiply));
    assert_eq!(program[4], apply(Operator::Add));
    assert_eq!(program[program.len() - 1], apply(Operator::Add));
}

#[test]
fn what_the_tokenizer_reads_is_followed_all_the_way_down() {
    let mut text = String::new();
    for _ in 0..MAX_NESTING_DEPTH {
        text.push_str("2*(");
    }
    text.push('1');
    for _ in 0..MAX_NESTING_DEPTH {
        text.push(')');
    }
    let program = program(&text).unwrap();
    assert_eq!(program.len(), 2 * MAX_NESTING_DEPTH + 1);
    assert_eq!(program[0], push("2"));
    assert_eq!(program[MAX_NESTING_DEPTH], push("1"));
    assert_eq!(program[2 * MAX_NESTING_DEPTH], apply(Operator::Multiply));
}

#[test]
fn after_the_passes_one_value_is_left_for_an_alternating_sequence() {
    let program = program("1+2*3^4/5-6").unwrap();
    let pushes = program
        .iter()
        .filter(|instruction| matches!(instruction, Instruction::Push(_)))
        .count();
    let applies = program
        .iter()
        .filter(|instruction| matches!(instruction, Instruction::Apply(_)))
        .count();
    assert_eq!(pushes, 6);
    assert_eq!(applies, 5);
    assert_eq!(
        program,
        vec![
            push("1"),
            push("2"),
            push("3"),
            push("4"),
            apply(Operator::Exponent),
            apply(Operator::Multiply),
            push("5"),
            apply(Operator::Divide),
            apply(Operator::Add),
            push("6"),
            apply(Operator::Subtract),
        ]
    );
}
