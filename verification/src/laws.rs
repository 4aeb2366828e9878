//! What holds of the engine as a whole.

use vstd::prelude::*;

use crate::error::{EvalError, ParseError};
use crate::evaluator::{
    evaluable, evaluation, evaluation_within, next_of_tier, operator_count, partition, reduced,
    reduced_at, reduced_tier, value_count,
};
use crate::literal::{is_literal_char, valid_literal};
use crate::operator::{operator_of, Operator, Tier};
use crate::program::{
    combination, computes, negation, number, postfix, run, Arithmetic, InstructionView, Program,
};
use crate::token::{view_of, well_formed, Token, TokenView, MAX_NESTING_DEPTH};
use crate::tokenizer::{
    balanced, closing, is_sign, lemma_closing_bounds, lemma_literal_end_bounds, literal_end,
    open_after, tokenization, tokens_from,
};

verus! {

/// Over a stretch of text without parentheses, as many stay open as were.
proof fn lemma_open_after_plain(s: Seq<char>, from: int, to: int)
    requires
        0 <= from <= to <= s.len(),
        forall|k: int| from <= k < to ==> #[trigger] s[k] != '(' && s[k] != ')',
    ensures
        open_after(s, to) == open_after(s, from),
    decreases to - from,
{
    if from < to {
        lemma_open_after_plain(s, from, to - 1);
    }
}

/// Between the place from which the end of a group is looked for and the
/// parenthesis that closes it, the group stays open; behind that
/// parenthesis, it is closed.
proof fn lemma_closing_levels(s: Seq<char>, from: int, open: nat)
    requires
        0 <= from,
        open >= 1,
        closing(s, from, open) is Some,
    ensures
        forall|n: int|
            from <= n <= closing(s, from, open)->Some_0 ==> #[trigger] open_after(s, n)
                - open_after(s, from) + open >= 1,
        open_after(s, closing(s, from, open)->Some_0 + 1) == open_after(s, from) - open,
    decreases s.len() - from,
{
    lemma_closing_bounds(s, from, open);
    if s[from] == '(' {
        lemma_closing_levels(s, from + 1, open + 1);
    } else if s[from] == ')' {
        if open > 1 {
            lemma_closing_levels(s, from + 1, (open - 1) as nat);
        }
    } else {
        lemma_closing_levels(s, from + 1, open);
    }
}

/// Where a text has tokens from `from` on, its parentheses are balanced from
/// there on.
proof fn lemma_tokens_from_balanced(s: Seq<char>, from: int, budget: nat)
    requires
        0 <= from <= s.len(),
        tokens_from(s, from, budget) is Ok,
    ensures
        forall|n: int| from <= n <= s.len() ==> #[trigger] open_after(s, n) >= open_after(s, from),
        open_after(s, s.len() as int) == open_after(s, from),
    decreases s.len() - from,
{
    if from < s.len() {
        let negated = is_sign(s, from) && from + 1 < s.len() && s[from + 1] == '(';
        if (is_sign(s, from) && !negated) || is_literal_char(s[from]) {
            let end = literal_end(s, from + 1);
            lemma_literal_end_bounds(s, from + 1);
            lemma_tokens_from_balanced(s, end, budget);
            assert forall|n: int| from <= n <= s.len() implies #[trigger] open_after(s, n)
                >= open_after(s, from) by {
                if n <= end {
                    lemma_open_after_plain(s, from, n);
                } else {
                    lemma_open_after_plain(s, from, end);
                }
            }
            lemma_open_after_plain(s, from, end);
        } else if negated || s[from] == '(' {
            let open_at = if negated {
                from + 1
            } else {
                from
            };
            lemma_closing_bounds(s, open_at + 1, 1);
            let close_at = closing(s, open_at + 1, 1)->Some_0;
            lemma_closing_levels(s, open_at + 1, 1);
            lemma_tokens_from_balanced(s, close_at + 1, budget);
            lemma_open_after_plain(s, from, open_at);
            assert(open_after(s, open_at + 1) == open_after(s, open_at) + 1);
            assert forall|n: int| from <= n <= s.len() implies #[trigger] open_after(s, n)
                >= open_after(s, from) by {
                if n <= open_at {
                    lemma_open_after_plain(s, from, n);
                }
            }
        } else {
            lemma_tokens_from_balanced(s, from + 1, budget);
            lemma_open_after_plain(s, from, from + 1);
        }
    }
}

/// A text whose parentheses are not balanced has no tokens: tokenizing it
/// fails, whatever else it holds.
pub proof fn lemma_unbalanced_text_is_refused(text: Seq<char>)
    requires
        !balanced(text),
    ensures
        tokenization(text) is Err,
{
    if tokenization(text) is Ok {
        lemma_tokens_from_balanced(text, 0, MAX_NESTING_DEPTH as nat);
    }
}

/// Evaluation depends on nothing but what the tokens hold: sequences that
/// hold the same evaluate alike, in whatever number domain and however often
/// it is done.
pub proof fn lemma_evaluation_is_repeatable<V>(
    first: Seq<Token>,
    second: Seq<Token>,
    arith: Arithmetic<V>,
)
    requires
        view_of(first) == view_of(second),
    ensures
        evaluation(view_of(first), arith) == evaluation(view_of(second), arith),
{
}

/// Running two programs one after the other is running the second on what
/// the first leaves.
proof fn lemma_run_in_sequence<V>(
    first: Program,
    second: Program,
    arith: Arithmetic<V>,
    stack: Seq<V>,
)
    ensures
        run(first + second, arith, stack) == match run(first, arith, stack) {
            Some(between) => run(second, arith, between),
            None => None,
        },
    decreases second.len(),
{
    if second.len() == 0 {
        assert(first + second =~= first);
    } else {
        assert((first + second).drop_last() =~= first + second.drop_last());
        lemma_run_in_sequence(first, second.drop_last(), arith, stack);
    }
}

/// The program of a literal computes the number that the literal spells.
proof fn lemma_number_computes<V>(text: Seq<char>, arith: Arithmetic<V>)
    ensures
        computes(number(text), (arith.literal)(text), arith),
{
    assert forall|stack: Seq<V>| #[trigger]
        run(number(text), arith, stack) == Some(stack.push((arith.literal)(text))) by {
        assert(number(text).drop_last() =~= Seq::<InstructionView>::empty());
        assert(run(number(text).drop_last(), arith, stack) == Some(stack));
    }
}

/// The negation of a program computes the negation of what the program
/// computes.
proof fn lemma_negation_computes<V>(program: Program, value: V, arith: Arithmetic<V>)
    requires
        computes(program, value, arith),
    ensures
        computes(negation(program), (arith.negate)(value), arith),
{
    assert forall|stack: Seq<V>| #[trigger]
        run(negation(program), arith, stack) == Some(stack.push((arith.negate)(value))) by {
        assert(negation(program).drop_last() =~= program);
        assert(run(program, arith, stack) == Some(stack.push(value)));
        assert(stack.push(value).drop_last() =~= stack);
    }
}

/// The combination of two programs computes what the operator makes of
/// what the two compute.
proof fn lemma_combination_computes<V>(
    op: Operator,
    left: Program,
    left_value: V,
    right: Program,
    right_value: V,
    arith: Arithmetic<V>,
)
    requires
        computes(left, left_value, arith),
        computes(right, right_value, arith),
    ensures
        computes(
            combination(op, left, right),
            (arith.apply)(op, left_value, right_value),
            arith,
        ),
{
    assert forall|stack: Seq<V>| #[trigger]
        run(combination(op, left, right), arith, stack) == Some(
            stack.push((arith.apply)(op, left_value, right_value)),
        ) by {
        assert(combination(op, left, right).drop_last() =~= left + right);
        lemma_run_in_sequence(left, right, arith, stack);
        assert(run(left, arith, stack) == Some(stack.push(left_value)));
        assert(run(right, arith, stack.push(left_value)) == Some(
            stack.push(left_value).push(right_value),
        ));
        let both = stack.push(left_value).push(right_value);
        assert(both.drop_last().drop_last() =~= stack);
    }
}

/// Whether each of the programs computes the value at its place.
spec fn all_compute<V>(programs: Seq<Program>, values: Seq<V>, arith: Arithmetic<V>) -> bool {
    &&& programs.len() == values.len()
    &&& forall|i: int|
        0 <= i < programs.len() ==> computes(#[trigger] programs[i], values[i], arith)
}

/// A precedence pass over programs and the same pass over the values that
/// they compute remove the same operators, and the programs that are left
/// compute the values that are left.
proof fn lemma_reduced_tier_computes<V>(
    programs: Seq<Program>,
    values: Seq<V>,
    ops: Seq<Operator>,
    tier: Tier,
    arith: Arithmetic<V>,
)
    requires
        all_compute(programs, values, arith),
        ops.len() < values.len(),
    ensures
        reduced_tier(programs, ops, tier, postfix()).1 == reduced_tier(values, ops, tier, arith).1,
        all_compute(
            reduced_tier(programs, ops, tier, postfix()).0,
            reduced_tier(values, ops, tier, arith).0,
            arith,
        ),
        reduced_tier(values, ops, tier, arith).1.len() < reduced_tier(
            values,
            ops,
            tier,
            arith,
        ).0.len(),
    decreases ops.len(),
{
    let at = next_of_tier(ops, 0, tier);
    if 0 <= at < ops.len() && at + 1 < values.len() {
        let fewer_programs = reduced_at(programs, ops, at, postfix());
        let fewer_values = reduced_at(values, ops, at, arith);
        lemma_combination_computes(
            ops[at],
            programs[at],
            values[at],
            programs[at + 1],
            values[at + 1],
            arith,
        );
        assert forall|i: int| 0 <= i < fewer_programs.0.len() implies computes(
            #[trigger] fewer_programs.0[i],
            fewer_values.0[i],
            arith,
        ) by {
            if i < at {
                assert(fewer_programs.0[i] == programs[i]);
            } else if i > at {
                assert(fewer_programs.0[i] == programs[i + 1]);
            }
        }
        lemma_reduced_tier_computes(fewer_programs.0, fewer_values.0, fewer_programs.1, tier, arith);
    }
}

/// The values of a token sequence as programs compute its values in any
/// number domain, and they fail alike.
proof fn lemma_partition_computes<V>(tokens: Seq<TokenView>, budget: nat, arith: Arithmetic<V>)
    ensures
        match partition(tokens, budget, postfix()) {
            Ok((programs, ops)) => partition(tokens, budget, arith) is Ok && partition(
                tokens,
                budget,
                arith,
            )->Ok_0.1 == ops && all_compute(programs, partition(tokens, budget, arith)->Ok_0.0, arith),
            Err(e) => partition(tokens, budget, arith) == Err::<(Seq<V>, Seq<Operator>), EvalError>(
                e,
            ),
        },
    decreases tokens, 0nat,
{
    if tokens.len() > 0 {
        lemma_partition_computes(tokens.drop_last(), budget, arith);
        match tokens.last() {
            TokenView::Number(text) => {
                lemma_number_computes(text, arith);
            },
            TokenView::Operator(op) => {},
            TokenView::Group(inner) => {
                if budget > 0 {
                    lemma_evaluation_within_computes(inner, (budget - 1) as nat, arith);
                }
            },
            TokenView::NegatedGroup(inner) => {
                if budget > 0 {
                    lemma_evaluation_within_computes(inner, (budget - 1) as nat, arith);
                    let program = evaluation_within(inner, (budget - 1) as nat, postfix());
                    let value = evaluation_within(inner, (budget - 1) as nat, arith);
                    if program is Ok {
                        lemma_negation_computes(program->Ok_0, value->Ok_0, arith);
                    }
                }
            },
        }
    }
}

/// The program that a token sequence evaluates to computes what the
/// sequence evaluates to in any number domain, and where there is no
/// program, there is no value either, for the same reason.
proof fn lemma_evaluation_within_computes<V>(
    tokens: Seq<TokenView>,
    budget: nat,
    arith: Arithmetic<V>,
)
    ensures
        match evaluation_within(tokens, budget, postfix()) {
            Ok(program) => evaluation_within(tokens, budget, arith) is Ok && computes(
                program,
                evaluation_within(tokens, budget, arith)->Ok_0,
                arith,
            ),
            Err(e) => evaluation_within(tokens, budget, arith) == Err::<V, EvalError>(e),
        },
    decreases tokens, 1nat,
{
    lemma_partition_computes(tokens, budget, arith);
    if partition(tokens, budget, postfix()) is Ok {
        let (programs, ops) = partition(tokens, budget, postfix())->Ok_0;
        let (values, _) = partition(tokens, budget, arith)->Ok_0;
        if ops.len() < values.len() {
            lemma_reduced_tier_computes(programs, values, ops, Tier::Power, arith);
            let (programs, ops1) = reduced_tier(programs, ops, Tier::Power, postfix());
            let (values, _) = reduced_tier(values, ops, Tier::Power, arith);
            lemma_reduced_tier_computes(programs, values, ops1, Tier::Product, arith);
            let (programs, ops2) = reduced_tier(programs, ops1, Tier::Product, postfix());
            let (values, _) = reduced_tier(values, ops1, Tier::Product, arith);
            lemma_reduced_tier_computes(programs, values, ops2, Tier::Sum, arith);
        }
    }
}

/// The program that the evaluator yields means what the tokens mean: run in
/// any number domain, on any stack, it leaves on top of that stack the value
/// that the token sequence evaluates to in that domain, and never finds too
/// few numbers on the stack. Where the evaluator fails, the token sequence
/// has no value in any domain, for the same reason.
pub proof fn lemma_program_computes_evaluation<V>(tokens: Seq<TokenView>, arith: Arithmetic<V>)
    ensures
        match evaluation(tokens, postfix()) {
            Ok(program) => evaluation(tokens, arith) is Ok && computes(
                program,
                evaluation(tokens, arith)->Ok_0,
                arith,
            ),
            Err(e) => evaluation(tokens, arith) == Err::<V, EvalError>(e),
        },
{
    lemma_evaluation_within_computes(tokens, MAX_NESTING_DEPTH as nat, arith);
}

/// The search for an operator of a tier finds the leftmost one, or none.
proof fn lemma_next_of_tier_is_leftmost(ops: Seq<Operator>, from: int, tier: Tier)
    requires
        0 <= from <= ops.len(),
    ensures
        from <= next_of_tier(ops, from, tier) <= ops.len(),
        next_of_tier(ops, from, tier) < ops.len() ==> ops[next_of_tier(ops, from, tier)].tier()
            == tier,
        forall|k: int| from <= k < next_of_tier(ops, from, tier) ==> (#[trigger] ops[k]).tier() != tier,
    decreases ops.len() - from,
{
    if from < ops.len() && ops[from].tier() != tier {
        lemma_next_of_tier_is_leftmost(ops, from + 1, tier);
    }
}

/// Whether none of the operators is of `tier`.
spec fn none_of_tier(ops: Seq<Operator>, tier: Tier) -> bool {
    forall|k: int| 0 <= k < ops.len() ==> (#[trigger] ops[k]).tier() != tier
}

/// A precedence pass uses up every operator of its tier and one value with
/// each, and brings in no operator of another tier.
proof fn lemma_reduced_tier_uses_up<V>(
    values: Seq<V>,
    ops: Seq<Operator>,
    tier: Tier,
    other: Tier,
    arith: Arithmetic<V>,
)
    requires
        ops.len() < values.len(),
    ensures
        none_of_tier(reduced_tier(values, ops, tier, arith).1, tier),
        none_of_tier(ops, other) ==> none_of_tier(reduced_tier(values, ops, tier, arith).1, other),
        reduced_tier(values, ops, tier, arith).0.len() - reduced_tier(
            values,
            ops,
            tier,
            arith,
        ).1.len() == values.len() - ops.len(),
    decreases ops.len(),
{
    lemma_next_of_tier_is_leftmost(ops, 0, tier);
    let at = next_of_tier(ops, 0, tier);
    if at < ops.len() {
        let (fewer_values, fewer_ops) = reduced_at(values, ops, at, arith);
        lemma_reduced_tier_uses_up(fewer_values, fewer_ops, tier, other, arith);
        if none_of_tier(ops, other) {
            assert forall|k: int| 0 <= k < fewer_ops.len() implies (#[trigger] fewer_ops[k]).tier()
                != other by {
                if k < at {
                    assert(fewer_ops[k] == ops[k]);
                } else {
                    assert(fewer_ops[k] == ops[k + 1]);
                }
            }
        }
    }
}

/// After the three precedence passes no operator is left, and each operator
/// has taken one value with it. So where there was one value more than
/// there were operators, exactly one value is left; and where there were
/// more values than operators, never none.
pub proof fn lemma_passes_use_up_operators<V>(
    values: Seq<V>,
    ops: Seq<Operator>,
    arith: Arithmetic<V>,
)
    requires
        ops.len() < values.len(),
    ensures
        reduced(values, ops, arith).1.len() == 0,
        reduced(values, ops, arith).0.len() == values.len() - ops.len(),
{
    lemma_reduced_tier_uses_up(values, ops, Tier::Power, Tier::Power, arith);
    let (values1, ops1) = reduced_tier(values, ops, Tier::Power, arith);
    lemma_reduced_tier_uses_up(values1, ops1, Tier::Product, Tier::Power, arith);
    let (values2, ops2) = reduced_tier(values1, ops1, Tier::Product, arith);
    lemma_reduced_tier_uses_up(values2, ops2, Tier::Sum, Tier::Power, arith);
    lemma_reduced_tier_uses_up(values2, ops2, Tier::Sum, Tier::Product, arith);
    let (values3, ops3) = reduced_tier(values2, ops2, Tier::Sum, arith);
    if ops3.len() > 0 {
        assert(ops3[0].tier() != Tier::Power);
        assert(ops3[0].tier() != Tier::Product);
        assert(ops3[0].tier() != Tier::Sum);
    }
}

/// Putting a token before a well-formed sequence leaves it well-formed
/// where the token is.
proof fn lemma_well_formed_followed_by(first: TokenView, rest: Seq<TokenView>, budget: nat)
    requires
        well_formed(seq![first], budget),
        well_formed(rest, budget),
    ensures
        well_formed(seq![first] + rest, budget),
{
    let all = seq![first] + rest;
    assert(seq![first][0] == first);
    assert forall|i: int| 0 <= i < all.len() implies match #[trigger] all[i] {
        TokenView::Number(text) => valid_literal(text),
        TokenView::Operator(_) => true,
        TokenView::Group(inner) => budget > 0 && well_formed(inner, (budget - 1) as nat),
        TokenView::NegatedGroup(inner) => budget > 0 && well_formed(inner, (budget - 1) as nat),
    } by {
        if i > 0 {
            assert(all[i] == rest[i - 1]);
        } else {
            assert(all[0] == seq![first][0]);
        }
    }
}

/// What the tokenizer reads is well-formed, and a failure of its own: it
/// never reports an operator as invalid.
proof fn lemma_tokens_from_well_formed(s: Seq<char>, from: int, budget: nat)
    requires
        0 <= from <= s.len(),
    ensures
        tokens_from(s, from, budget) matches Ok(tokens) ==> well_formed(tokens, budget),
        tokens_from(s, from, budget) != Err::<Seq<TokenView>, ParseError>(
            ParseError::InvalidOperator,
        ),
    decreases s.len(), s.len() - from,
{
    if from < s.len() {
        let negated = is_sign(s, from) && from + 1 < s.len() && s[from + 1] == '(';
        if (is_sign(s, from) && !negated) || is_literal_char(s[from]) {
            let end = literal_end(s, from + 1);
            let text = s.subrange(from, end);
            if valid_literal(text) {
                lemma_literal_end_bounds(s, from + 1);
                lemma_tokens_from_well_formed(s, end, budget);
                let rest = tokens_from(s, end, budget);
                if rest is Ok {
                    lemma_well_formed_followed_by(TokenView::Number(text), rest->Ok_0, budget);
                }
            }
        } else if negated || s[from] == '(' {
            let open_at = if negated {
                from + 1
            } else {
                from
            };
            if closing(s, open_at + 1, 1) is Some && budget > 0 {
                lemma_closing_bounds(s, open_at + 1, 1);
                let close_at = closing(s, open_at + 1, 1)->Some_0;
                let inner = tokens_from(s.subrange(open_at + 1, close_at), 0, (budget - 1) as nat);
                lemma_tokens_from_well_formed(
                    s.subrange(open_at + 1, close_at),
                    0,
                    (budget - 1) as nat,
                );
                if inner is Ok {
                    lemma_tokens_from_well_formed(s, close_at + 1, budget);
                    let rest = tokens_from(s, close_at + 1, budget);
                    if rest is Ok {
                        let group = if negated {
                            TokenView::NegatedGroup(inner->Ok_0)
                        } else {
                            TokenView::Group(inner->Ok_0)
                        };
                        lemma_well_formed_followed_by(group, rest->Ok_0, budget);
                    }
                }
            }
        } else {
            lemma_tokens_from_well_formed(s, from + 1, budget);
            let rest = tokens_from(s, from + 1, budget);
            if operator_of(s[from]) is Some && rest is Ok {
                lemma_well_formed_followed_by(
                    TokenView::Operator(operator_of(s[from])->Some_0),
                    rest->Ok_0,
                    budget,
                );
            }
        }
    } else {
        assert(well_formed(Seq::<TokenView>::empty(), budget));
    }
}

/// The tokens of a text are well-formed: its numbers are valid literals,
/// and its groups are nested no deeper than the cap. And a text that has no
/// tokens is never said to hold an invalid operator: what is no token is an
/// invalid token.
pub proof fn lemma_tokenization_is_well_formed(text: Seq<char>)
    ensures
        tokenization(text) matches Ok(tokens) ==> well_formed(tokens, MAX_NESTING_DEPTH as nat),
        tokenization(text) != Err::<Seq<TokenView>, ParseError>(ParseError::InvalidOperator),
{
    lemma_tokens_from_well_formed(text, 0, MAX_NESTING_DEPTH as nat);
}

/// Groups that are nested no deeper than the budget are followed all the
/// way down.
proof fn lemma_well_formed_is_followed<V>(tokens: Seq<TokenView>, budget: nat, arith: Arithmetic<V>)
    requires
        well_formed(tokens, budget),
    ensures
        partition(tokens, budget, arith) != Err::<(Seq<V>, Seq<Operator>), EvalError>(
            EvalError::NestingTooDeep,
        ),
        evaluation_within(tokens, budget, arith) != Err::<V, EvalError>(EvalError::NestingTooDeep),
    decreases tokens,
{
    if tokens.len() > 0 {
        let last = tokens[tokens.len() - 1];
        assert forall|i: int| 0 <= i < tokens.drop_last().len() implies match #[trigger] tokens.drop_last()[i] {
            TokenView::Number(text) => valid_literal(text),
            TokenView::Operator(_) => true,
            TokenView::Group(inner) => budget > 0 && well_formed(inner, (budget - 1) as nat),
            TokenView::NegatedGroup(inner) => budget > 0 && well_formed(
                inner,
                (budget - 1) as nat,
            ),
        } by {
            assert(tokens.drop_last()[i] == tokens[i]);
        }
        lemma_well_formed_is_followed(tokens.drop_last(), budget, arith);
        match last {
            TokenView::Group(inner) => {
                lemma_well_formed_is_followed(inner, (budget - 1) as nat, arith);
            },
            TokenView::NegatedGroup(inner) => {
                lemma_well_formed_is_followed(inner, (budget - 1) as nat, arith);
            },
            _ => {},
        }
    }
}

/// The evaluator follows the groups of whatever the tokenizer has read: on
/// the tokens of a text, evaluation never fails for their depth.
pub proof fn lemma_tokenized_text_is_followed<V>(text: Seq<char>, arith: Arithmetic<V>)
    requires
        tokenization(text) is Ok,
    ensures
        evaluation(tokenization(text)->Ok_0, arith) != Err::<V, EvalError>(
            EvalError::NestingTooDeep,
        ),
{
    lemma_tokenization_is_well_formed(text);
    lemma_well_formed_is_followed(tokenization(text)->Ok_0, MAX_NESTING_DEPTH as nat, arith);
}

/// Whether each group among the tokens can be evaluated, one level deeper.
spec fn groups_evaluable(tokens: Seq<TokenView>, budget: nat) -> bool {
    forall|i: int|
        0 <= i < tokens.len() ==> match #[trigger] tokens[i] {
            TokenView::Number(_) => true,
            TokenView::Operator(_) => true,
            TokenView::Group(inner) => budget > 0 && evaluable(inner, (budget - 1) as nat),
            TokenView::NegatedGroup(inner) => budget > 0 && evaluable(inner, (budget - 1) as nat),
        }
}

/// The values and operators of a token sequence can be told apart where
/// each of its groups can be evaluated, and only there; there are then as
/// many of each as the sequence holds.
proof fn lemma_partition_succeeds<V>(tokens: Seq<TokenView>, budget: nat, arith: Arithmetic<V>)
    ensures
        partition(tokens, budget, arith) is Ok <==> groups_evaluable(tokens, budget),
        partition(tokens, budget, arith) matches Ok((values, ops)) ==> values.len() == value_count(
            tokens,
        ) && ops.len() == operator_count(tokens),
    decreases tokens, 0nat,
{
    if tokens.len() > 0 {
        let front = tokens.drop_last();
        lemma_partition_succeeds(front, budget, arith);
        match tokens.last() {
            TokenView::Group(inner) => {
                if budget > 0 {
                    lemma_evaluation_succeeds(inner, (budget - 1) as nat, arith);
                }
            },
            TokenView::NegatedGroup(inner) => {
                if budget > 0 {
                    lemma_evaluation_succeeds(inner, (budget - 1) as nat, arith);
                }
            },
            _ => {},
        }
        if groups_evaluable(tokens, budget) {
            assert forall|i: int| 0 <= i < front.len() implies match #[trigger] front[i] {
                TokenView::Number(_) => true,
                TokenView::Operator(_) => true,
                TokenView::Group(inner) => budget > 0 && evaluable(inner, (budget - 1) as nat),
                TokenView::NegatedGroup(inner) => budget > 0 && evaluable(
                    inner,
                    (budget - 1) as nat,
                ),
            } by {
                assert(front[i] == tokens[i]);
            }
            assert(tokens[tokens.len() - 1] == tokens.last());
        }
        if partition(tokens, budget, arith) is Ok {
            assert forall|i: int| 0 <= i < tokens.len() implies match #[trigger] tokens[i] {
                TokenView::Number(_) => true,
                TokenView::Operator(_) => true,
                TokenView::Group(inner) => budget > 0 && evaluable(inner, (budget - 1) as nat),
                TokenView::NegatedGroup(inner) => budget > 0 && evaluable(
                    inner,
                    (budget - 1) as nat,
                ),
            } by {
                if i < tokens.len() - 1 {
                    assert(front[i] == tokens[i]);
                }
            }
        }
    }
}

/// A token sequence has a value where it can be evaluated, and only there.
proof fn lemma_evaluation_succeeds<V>(tokens: Seq<TokenView>, budget: nat, arith: Arithmetic<V>)
    ensures
        evaluation_within(tokens, budget, arith) is Ok <==> evaluable(tokens, budget),
    decreases tokens, 1nat,
{
    lemma_partition_succeeds(tokens, budget, arith);
}

/// When evaluation succeeds: a token sequence has a value, in whatever
/// number domain, if and only if it holds more values than operators, and
/// so does each of its groups, none of which lies deeper than the cap.
pub proof fn lemma_evaluation_succeeds_when_evaluable<V>(
    tokens: Seq<TokenView>,
    arith: Arithmetic<V>,
)
    ensures
        evaluation(tokens, arith) is Ok <==> evaluable(tokens, MAX_NESTING_DEPTH as nat),
{
    lemma_evaluation_succeeds(tokens, MAX_NESTING_DEPTH as nat, arith);
}

} // verus!
