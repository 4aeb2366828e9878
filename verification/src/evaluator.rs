//! The evaluator: from tokens to the computation that they stand for.
//!
//! What a token sequence evaluates to is defined for any number domain: its
//! values and operators are told apart, each group being evaluated on its
//! own to one value, and three precedence passes reduce them to one value.
//! The evaluator computes this in the domain of postfix programs, so that
//! its result can be run in any other.

use vstd::prelude::*;

use crate::error::EvalError;
use crate::operator::{Operator, Tier};
use crate::program::{
    combination, negation, number, postfix, program_view, programs_view, Arithmetic, Instruction,
    Program,
};
use crate::token::{view_of, Token, TokenView, MAX_NESTING_DEPTH};

verus! {

/// The index of the leftmost operator of `tier` at or after `from`; the
/// number of operators where there is none.
pub open spec fn next_of_tier(ops: Seq<Operator>, from: int, tier: Tier) -> int
    decreases ops.len() - from,
{
    if from < 0 || from >= ops.len() {
        ops.len() as int
    } else if ops[from].tier() == tier {
        from
    } else {
        next_of_tier(ops, from + 1, tier)
    }
}

/// One reduction: the operator at `at` is applied to the values at `at` and
/// `at + 1`. The result takes the place of the first, the second leaves the
/// values, and the operator leaves the operators.
pub open spec fn reduced_at<V>(
    values: Seq<V>,
    ops: Seq<Operator>,
    at: int,
    arith: Arithmetic<V>,
) -> (Seq<V>, Seq<Operator>) {
    (
        values.update(at, (arith.apply)(ops[at], values[at], values[at + 1])).remove(at + 1),
        ops.remove(at),
    )
}

/// One precedence pass: as long as there is an operator of `tier` with a
/// value on either side, the leftmost one is reduced.
pub open spec fn reduced_tier<V>(
    values: Seq<V>,
    ops: Seq<Operator>,
    tier: Tier,
    arith: Arithmetic<V>,
) -> (Seq<V>, Seq<Operator>)
    decreases ops.len(),
{
    let at = next_of_tier(ops, 0, tier);
    if 0 <= at < ops.len() && at + 1 < values.len() {
        let (fewer_values, fewer_ops) = reduced_at(values, ops, at, arith);
        reduced_tier(fewer_values, fewer_ops, tier, arith)
    } else {
        (values, ops)
    }
}

/// The three precedence passes, highest tier first.
pub open spec fn reduced<V>(values: Seq<V>, ops: Seq<Operator>, arith: Arithmetic<V>) -> (
    Seq<V>,
    Seq<Operator>,
) {
    let (values, ops) = reduced_tier(values, ops, Tier::Power, arith);
    let (values, ops) = reduced_tier(values, ops, Tier::Product, arith);
    reduced_tier(values, ops, Tier::Sum, arith)
}

/// The first of the values that the three precedence passes leave.
pub open spec fn reduction<V>(values: Seq<V>, ops: Seq<Operator>, arith: Arithmetic<V>) -> V {
    reduced(values, ops, arith).0[0]
}

/// The values and the operators of a token sequence, each in order, where
/// groups may still be nested `budget` deep. A number is a value, and so is
/// a group: what its own tokens evaluate to. The first group that fails,
/// from the left, decides the failure.
pub open spec fn partition<V>(tokens: Seq<TokenView>, budget: nat, arith: Arithmetic<V>) -> Result<
    (Seq<V>, Seq<Operator>),
    EvalError,
>
    decreases tokens, 0nat,
{
    if tokens.len() == 0 {
        Ok((Seq::empty(), Seq::empty()))
    } else {
        match partition(tokens.drop_last(), budget, arith) {
            Err(e) => Err(e),
            Ok((values, ops)) => match tokens.last() {
                TokenView::Number(text) => Ok((values.push((arith.literal)(text)), ops)),
                TokenView::Operator(op) => Ok((values, ops.push(op))),
                TokenView::Group(inner) => if budget == 0 {
                    Err(EvalError::NestingTooDeep)
                } else {
                    match evaluation_within(inner, (budget - 1) as nat, arith) {
                        Err(e) => Err(e),
                        Ok(value) => Ok((values.push(value), ops)),
                    }
                },
                TokenView::NegatedGroup(inner) => if budget == 0 {
                    Err(EvalError::NestingTooDeep)
                } else {
                    match evaluation_within(inner, (budget - 1) as nat, arith) {
                        Err(e) => Err(e),
                        Ok(value) => Ok((values.push((arith.negate)(value)), ops)),
                    }
                },
            },
        }
    }
}

/// What a token sequence evaluates to, where groups may still be nested
/// `budget` deep: its values and operators are told apart, there have to be
/// more values than operators, and the three precedence passes reduce them.
pub open spec fn evaluation_within<V>(
    tokens: Seq<TokenView>,
    budget: nat,
    arith: Arithmetic<V>,
) -> Result<V, EvalError>
    decreases tokens, 1nat,
{
    match partition(tokens, budget, arith) {
        Err(e) => Err(e),
        Ok((values, ops)) => if ops.len() >= values.len() {
            Err(EvalError::InvalidExpression)
        } else {
            Ok(reduction(values, ops, arith))
        },
    }
}

/// What a token sequence evaluates to in a number domain, or why it does
/// not.
pub open spec fn evaluation<V>(tokens: Seq<TokenView>, arith: Arithmetic<V>) -> Result<
    V,
    EvalError,
> {
    evaluation_within(tokens, MAX_NESTING_DEPTH as nat, arith)
}

/// How many of the tokens are values: numbers and groups.
pub open spec fn value_count(tokens: Seq<TokenView>) -> nat
    decreases tokens.len(),
{
    if tokens.len() == 0 {
        0
    } else if tokens.last() is Operator {
        value_count(tokens.drop_last())
    } else {
        value_count(tokens.drop_last()) + 1
    }
}

/// How many of the tokens are operators.
pub open spec fn operator_count(tokens: Seq<TokenView>) -> nat
    decreases tokens.len(),
{
    if tokens.len() == 0 {
        0
    } else if tokens.last() is Operator {
        operator_count(tokens.drop_last()) + 1
    } else {
        operator_count(tokens.drop_last())
    }
}

/// Whether a token sequence can be evaluated, with groups nested at most
/// `budget` deep: it holds more values than operators, and so does each of
/// its groups, none of which lies deeper than the budget allows.
pub open spec fn evaluable(tokens: Seq<TokenView>, budget: nat) -> bool
    decreases tokens,
{
    &&& operator_count(tokens) < value_count(tokens)
    &&& forall|i: int|
        0 <= i < tokens.len() ==> match #[trigger] tokens[i] {
            TokenView::Number(_) => true,
            TokenView::Operator(_) => true,
            TokenView::Group(inner) => budget > 0 && evaluable(inner, (budget - 1) as nat),
            TokenView::NegatedGroup(inner) => budget > 0 && evaluable(inner, (budget - 1) as nat),
        }
}

/// What a result of evaluating holds, as a mathematical value.
pub open spec fn outcome_view(result: Result<Vec<Instruction>, EvalError>) -> Result<
    Program,
    EvalError,
> {
    match result {
        Ok(program) => Ok(program_view(program@)),
        Err(e) => Err(e),
    }
}

/// Operators that are not of `tier` are passed over in the search for one
/// that is.
proof fn lemma_next_of_tier_skips(ops: Seq<Operator>, from: int, to: int, tier: Tier)
    requires
        0 <= from <= to <= ops.len(),
        forall|k: int| from <= k < to ==> (#[trigger] ops[k]).tier() != tier,
    ensures
        next_of_tier(ops, from, tier) == next_of_tier(ops, to, tier),
    decreases to - from,
{
    if from < to {
        lemma_next_of_tier_skips(ops, from + 1, to, tier);
    }
}

/// The operators from index `from` on; none where there are no more.
spec fn ops_from(ops: Seq<Operator>, from: int) -> Seq<Operator> {
    if 0 <= from <= ops.len() {
        ops.skip(from)
    } else {
        Seq::empty()
    }
}

/// One precedence pass over `values` and `ops`, in a single sweep from the
/// left: each value joins the one before it where the operator between the
/// two is of `tier`, and starts a value of its own where it is not.
fn reduce_tier(values: Vec<Vec<Instruction>>, ops: &Vec<Operator>, tier: Tier) -> (reduced: (
    Vec<Vec<Instruction>>,
    Vec<Operator>,
))
    requires
        ops@.len() < values@.len(),
    ensures
        (programs_view(reduced.0@), reduced.1@) == reduced_tier(
            programs_view(values@),
            ops@,
            tier,
            postfix(),
        ),
        reduced.1@.len() < reduced.0@.len(),
{
    let ghost all_values = programs_view(values@);
    let ghost all_ops = ops@;
    let count = values.len();
    let mut done_values: Vec<Vec<Instruction>> = Vec::new();
    let mut done_ops: Vec<Operator> = Vec::new();
    let mut current: Vec<Instruction> = Vec::new();
    let mut position: usize = 0;
    for value in it: values
        invariant
            position == it.index(),
            count == it.seq().len(),
            all_values == programs_view(it.seq()),
            all_ops == ops@,
            all_ops.len() < all_values.len(),
            done_ops@.len() <= done_values@.len(),
            position == 0 ==> done_values@.len() == 0,
            position <= all_ops.len() + 1 ==> done_values@.len() == done_ops@.len(),
            forall|k: int| 0 <= k < done_ops@.len() ==> (#[trigger] done_ops@[k]).tier() != tier,
            position > 0 ==> reduced_tier(all_values, all_ops, tier, postfix()) == reduced_tier(
                programs_view(done_values@).push(program_view(current@)) + all_values.skip(
                    position as int,
                ),
                done_ops@ + ops_from(all_ops, position - 1),
                tier,
                postfix(),
            ),
    {
        let ghost k = position as int;
        let ghost before_values = programs_view(done_values@).push(program_view(current@))
            + all_values.skip(k);
        let ghost before_ops = done_ops@ + ops_from(all_ops, k - 1);
        let ghost left = program_view(current@);
        let ghost right = program_view(value@);
        assert(all_values[k] == right);
        if position == 0 {
            current = value;
            assert(programs_view(done_values@).push(program_view(current@)) + all_values.skip(1)
                =~= all_values);
            assert(done_ops@ + ops_from(all_ops, 0) =~= all_ops);
        } else if position - 1 < ops.len() {
            let op = ops[position - 1];
            let ghost a = done_ops@.len() as int;
            assert(before_ops[a] == op);
            if op.tier() == tier {
                let mut value = value;
                current.append(&mut value);
                current.push(Instruction::Apply(op));
                proof {
                    lemma_next_of_tier_skips(before_ops, 0, a, tier);
                    assert(next_of_tier(before_ops, 0, tier) == a);
                    assert(program_view(current@) =~= combination(op, left, right));
                    let after = reduced_at(before_values, before_ops, a, postfix());
                    assert(after.0 =~= programs_view(done_values@).push(program_view(current@))
                        + all_values.skip(k + 1));
                    assert(after.1 =~= done_ops@ + ops_from(all_ops, k));
                }
            } else {
                done_values.push(current);
                done_ops.push(op);
                current = value;
                assert(programs_view(done_values@).push(program_view(current@)) + all_values.skip(
                    k + 1,
                ) =~= before_values);
                assert(done_ops@ + ops_from(all_ops, k) =~= before_ops);
            }
        } else {
            done_values.push(current);
            current = value;
            assert(programs_view(done_values@).push(program_view(current@)) + all_values.skip(
                k + 1,
            ) =~= before_values);
            assert(ops_from(all_ops, k) =~= ops_from(all_ops, k - 1));
        }
        position += 1;
    }
    done_values.push(current);
    proof {
        let n = all_values.len() as int;
        assert(programs_view(done_values@) =~= programs_view(done_values@.drop_last()).push(
            program_view(current@),
        ) + all_values.skip(n));
        assert(done_ops@ + ops_from(all_ops, n - 1) =~= done_ops@);
        lemma_next_of_tier_skips(done_ops@, 0, done_ops@.len() as int, tier);
    }
    (done_values, done_ops)
}

/// Where the first `count` tokens of a sequence cannot be told apart into
/// values and operators, neither can the whole, for the same reason.
proof fn lemma_partition_fails_early<V>(
    tokens: Seq<TokenView>,
    count: int,
    budget: nat,
    arith: Arithmetic<V>,
)
    requires
        0 <= count <= tokens.len(),
        partition(tokens.take(count), budget, arith) is Err,
    ensures
        partition(tokens, budget, arith) == partition(tokens.take(count), budget, arith),
    decreases tokens.len() - count,
{
    if count == tokens.len() {
        assert(tokens.take(count) =~= tokens);
    } else {
        assert(tokens.take(count + 1).drop_last() =~= tokens.take(count));
        lemma_partition_fails_early(tokens, count + 1, budget, arith);
    }
}

/// Evaluates `tokens`, where groups may still be nested `budget` deep.
fn evaluate_within(tokens: &[Token], budget: usize) -> (result: Result<
    Vec<Instruction>,
    EvalError,
>)
    ensures
        outcome_view(result) == evaluation_within(view_of(tokens@), budget as nat, postfix()),
    decreases budget,
{
    let ghost all = view_of(tokens@);
    let mut values: Vec<Vec<Instruction>> = Vec::new();
    let mut ops: Vec<Operator> = Vec::new();
    let mut i: usize = 0;
    assert(all.take(0) =~= Seq::empty());
    assert(programs_view(values@) =~= Seq::empty());
    assert(ops@ =~= Seq::empty());
    while i < tokens.len()
        invariant
            i <= tokens@.len(),
            all == view_of(tokens@),
            partition(all.take(i as int), budget as nat, postfix()) == Ok::<
                (Seq<Program>, Seq<Operator>),
                EvalError,
            >((programs_view(values@), ops@)),
        decreases tokens@.len() - i,
    {
        let ghost before_values = programs_view(values@);
        proof {
            assert(all.take(i + 1).drop_last() =~= all.take(i as int));
            assert(all.take(i + 1).last() == tokens@[i as int]@);
        }
        match &tokens[i] {
            Token::Number(literal) => {
                let mut value: Vec<Instruction> = Vec::new();
                value.push(Instruction::Push(literal.clone()));
                assert(program_view(value@) =~= number(literal@));
                values.push(value);
                assert(programs_view(values@) =~= before_values.push(number(literal@)));
            },
            Token::Operator(op) => {
                ops.push(*op);
            },
            Token::Group(inner) => {
                if budget == 0 {
                    proof {
                        lemma_partition_fails_early(all, i + 1, budget as nat, postfix());
                    }
                    return Err(EvalError::NestingTooDeep);
                }
                match evaluate_within(inner.as_slice(), budget - 1) {
                    Err(e) => {
                        proof {
                            lemma_partition_fails_early(all, i + 1, budget as nat, postfix());
                        }
                        return Err(e);
                    },
                    Ok(value) => {
                        let ghost value_view = program_view(value@);
                        values.push(value);
                        assert(programs_view(values@) =~= before_values.push(value_view));
                    },
                }
            },
            Token::NegatedGroup(inner) => {
                if budget == 0 {
                    proof {
                        lemma_partition_fails_early(all, i + 1, budget as nat, postfix());
                    }
                    return Err(EvalError::NestingTooDeep);
                }
                match evaluate_within(inner.as_slice(), budget - 1) {
                    Err(e) => {
                        proof {
                            lemma_partition_fails_early(all, i + 1, budget as nat, postfix());
                        }
                        return Err(e);
                    },
                    Ok(value) => {
                        let ghost value_view = program_view(value@);
                        let mut value = value;
                        value.push(Instruction::Negate);
                        assert(program_view(value@) =~= negation(value_view));
                        values.push(value);
                        assert(programs_view(values@) =~= before_values.push(
                            negation(value_view),
                        ));
                    },
                }
            },
        }
        i += 1;
    }
    assert(all.take(i as int) =~= all);
    if ops.len() >= values.len() {
        return Err(EvalError::InvalidExpression);
    }
    let (values, ops) = reduce_tier(values, &ops, Tier::Power);
    let (values, ops) = reduce_tier(values, &ops, Tier::Product);
    let (mut values, _) = reduce_tier(values, &ops, Tier::Sum);
    Ok(values.swap_remove(0))
}

/// Evaluates a token sequence: tells which operation is applied to which
/// operands and in which order, as a postfix program.
///
/// Groups are evaluated on their own, each to one value. Then operators of
/// a higher tier are applied before those of a lower one, and among those of
/// one tier the leftmost first.
pub fn evaluate(tokens: &[Token]) -> (result: Result<Vec<Instruction>, EvalError>)
    ensures
        outcome_view(result) == evaluation(view_of(tokens@), postfix()),
{
    evaluate_within(tokens, MAX_NESTING_DEPTH)
}

} // verus!
