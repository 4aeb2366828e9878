//! Postfix programs: the form in which the evaluator hands out a computation.
//!
//! A program is run from left to right on a stack of numbers, which is empty
//! at the start. `Push` puts a number on the stack, `Negate` replaces the
//! topmost number by its negation, and `Apply` takes the two topmost numbers
//! off and puts the result of the operation on, the lower of the two as its
//! left operand. What numbers are and how the operations are computed is up
//! to whoever runs the program: an [`Arithmetic`] says it.

use vstd::prelude::*;

use crate::literal::Literal;
use crate::operator::Operator;

verus! {

/// One step of a postfix program.
#[derive(Debug, Clone, PartialEq, Eq)]
pub enum Instruction {
    /// Puts the number that the literal spells on the stack.
    Push(Literal),
    /// Replaces the topmost number by its negation.
    Negate,
    /// Replaces the two topmost numbers by the result of the operation.
    Apply(Operator),
}

/// What an [`Instruction`] holds, as a mathematical value.
pub ghost enum InstructionView {
    Push(Seq<char>),
    Negate,
    Apply(Operator),
}

impl View for Instruction {
    type V = InstructionView;

    open spec fn view(&self) -> InstructionView {
        match self {
            Instruction::Push(literal) => InstructionView::Push(literal@),
            Instruction::Negate => InstructionView::Negate,
            Instruction::Apply(op) => InstructionView::Apply(*op),
        }
    }
}

/// A postfix program, as a mathematical value.
pub type Program = Seq<InstructionView>;

/// The views of a sequence of instructions, in order.
pub open spec fn program_view(program: Seq<Instruction>) -> Program {
    Seq::new(program.len(), |i: int| program[i]@)
}

/// The views of a sequence of programs, in order.
pub open spec fn programs_view(programs: Seq<Vec<Instruction>>) -> Seq<Program> {
    Seq::new(programs.len(), |i: int| program_view(programs[i]@))
}

/// A number domain: what the number is that a literal spells, what the
/// negation of a number is, and what an operator makes of two numbers.
#[verifier::reject_recursive_types(V)]
pub ghost struct Arithmetic<V> {
    pub literal: spec_fn(Seq<char>) -> V,
    pub negate: spec_fn(V) -> V,
    pub apply: spec_fn(Operator, V, V) -> V,
}

/// The program that puts one number on the stack.
pub open spec fn number(text: Seq<char>) -> Program {
    seq![InstructionView::Push(text)]
}

/// The program that computes the negation of what `value` computes.
pub open spec fn negation(value: Program) -> Program {
    value.push(InstructionView::Negate)
}

/// The program that computes `left`, then `right`, and applies `op` to the
/// two.
pub open spec fn combination(op: Operator, left: Program, right: Program) -> Program {
    (left + right).push(InstructionView::Apply(op))
}

/// The number domain of programs themselves: a number is the program that
/// computes it.
pub open spec fn postfix() -> Arithmetic<Program> {
    Arithmetic {
        literal: |text: Seq<char>| number(text),
        negate: |value: Program| negation(value),
        apply: |op: Operator, left: Program, right: Program| combination(op, left, right),
    }
}

/// The stack after one instruction; `None` where the stack holds too few
/// numbers for it.
pub open spec fn step<V>(stack: Seq<V>, instruction: InstructionView, arith: Arithmetic<V>) -> Option<
    Seq<V>,
> {
    match instruction {
        InstructionView::Push(text) => Some(stack.push((arith.literal)(text))),
        InstructionView::Negate => if stack.len() >= 1 {
            Some(stack.drop_last().push((arith.negate)(stack.last())))
        } else {
            None
        },
        InstructionView::Apply(op) => if stack.len() >= 2 {
            Some(
                stack.drop_last().drop_last().push(
                    (arith.apply)(op, stack[stack.len() - 2], stack.last()),
                ),
            )
        } else {
            None
        },
    }
}

/// The stack after a program has run on `stack`; `None` where some
/// instruction found too few numbers.
pub open spec fn run<V>(program: Program, arith: Arithmetic<V>, stack: Seq<V>) -> Option<Seq<V>>
    decreases program.len(),
{
    if program.len() == 0 {
        Some(stack)
    } else {
        match run(program.drop_last(), arith, stack) {
            Some(before) => step(before, program.last(), arith),
            None => None,
        }
    }
}

/// Whether `program` computes `value`: run on any stack, it leaves the stack
/// as it was, with `value` on top.
pub open spec fn computes<V>(program: Program, value: V, arith: Arithmetic<V>) -> bool {
    forall|stack: Seq<V>| #[trigger] run(program, arith, stack) == Some(stack.push(value))
}

} // verus!
