//! The grammar of the language, as functions from source bytes to models of
//! syntax trees.
//!
//! A parser here takes the bytes that are left and gives what it read with
//! the bytes that remain after it, or nothing. Alternatives are tried in the
//! order in which they are written, and the first that reads something wins.
//!
//! `consuming` keeps a result only where bytes were read. It makes the
//! recursion well founded; the lemmas of `progress` show that it never drops
//! anything.

use crate::ast::{BinaryOperator, ExpressionView, FunctionView, LiteralView, ProgramView, StatementView};
use crate::number::decimal::{ieee_from_decimal, is_digit};
use crate::number::Number;
use vstd::prelude::*;
use vstd::string::StringSliceAdditionalSpecFns;

verus! {

/// How parsing a program fails.
#[derive(Debug, Clone, Copy, PartialEq, Eq, Structural)]
pub enum ParseError {
    /// No statement can be read at byte `position`: at the start of the text,
    /// or just after a newline that follows a statement.
    Statement { position: usize },
    /// The statements end at byte `position`, and what follows is neither the
    /// end of the text nor a newline.
    Trailing { position: usize },
}

/// `result`, if it left fewer bytes than `code` has.
pub open spec fn consuming<T>(result: Option<(T, Seq<u8>)>, code: Seq<u8>) -> Option<(T, Seq<u8>)> {
    match result {
        Some((_, rest)) => if rest.len() < code.len() {
            result
        } else {
            None
        },
        None => None,
    }
}

/// What is left of `code` after `literal`, if `code` starts with it.
pub open spec fn after(code: Seq<u8>, literal: Seq<u8>) -> Option<Seq<u8>> {
    if literal.is_prefix_of(code) {
        Some(code.skip(literal.len() as int))
    } else {
        None
    }
}

/// What is left of `code` after `byte`, if `code` starts with it.
pub open spec fn after_byte(code: Seq<u8>, byte: u8) -> Option<Seq<u8>> {
    if code.len() > 0 && code[0] == byte {
        Some(code.skip(1))
    } else {
        None
    }
}

/// The number of bytes at the start of `code` that all satisfy `wanted`.
pub open spec fn leading(code: Seq<u8>, wanted: spec_fn(u8) -> bool) -> nat
    decreases code.len(),
{
    if code.len() > 0 && wanted(code[0]) {
        1 + leading(code.skip(1), wanted)
    } else {
        0
    }
}

/// Whether `byte` may stand in an identifier: a lower-case letter or `_`.
pub open spec fn is_name_byte(byte: u8) -> bool {
    0x61 <= byte <= 0x7a || byte == 0x5f
}

/// Whether `byte` may stand inside a text literal: anything but `"`.
pub open spec fn is_text_byte(byte: u8) -> bool {
    byte != 0x22
}

/// An identifier: one name byte or more, as many as there are.
pub open spec fn name(code: Seq<u8>) -> Option<(Seq<u8>, Seq<u8>)> {
    let length = leading(code, |byte: u8| is_name_byte(byte));
    if length > 0 {
        Some((code.take(length as int), code.skip(length as int)))
    } else {
        None
    }
}

/// A boolean literal: `true` or `false`.
pub open spec fn boolean(code: Seq<u8>) -> Option<(LiteralView, Seq<u8>)> {
    match after(code, "true".spec_bytes()) {
        Some(rest) => Some((LiteralView::Bool(true), rest)),
        None => match after(code, "false".spec_bytes()) {
            Some(rest) => Some((LiteralView::Bool(false), rest)),
            None => None,
        },
    }
}

/// A number literal: one decimal digit or more, as many as there are.
pub open spec fn number(code: Seq<u8>) -> Option<(LiteralView, Seq<u8>)> {
    let length = leading(code, |byte: u8| is_digit(byte));
    if length > 0 {
        Some(
            (
                LiteralView::Number(Number { bits: ieee_from_decimal(code.take(length as int)) }),
                code.skip(length as int),
            ),
        )
    } else {
        None
    }
}

/// A text literal: `"`, the bytes up to the next `"`, and that `"`. There are
/// no escapes.
pub open spec fn text(code: Seq<u8>) -> Option<(LiteralView, Seq<u8>)> {
    match after_byte(code, 0x22) {
        Some(inner) => {
            let length = leading(inner, |byte: u8| is_text_byte(byte));
            if length < inner.len() {
                Some((LiteralView::Text(inner.take(length as int)), inner.skip(length as int + 1)))
            } else {
                None
            }
        },
        None => None,
    }
}

/// A literal: a boolean, a number or a text, tried in this order.
pub open spec fn literal(code: Seq<u8>) -> Option<(LiteralView, Seq<u8>)> {
    match boolean(code) {
        Some(found) => Some(found),
        None => match number(code) {
            Some(found) => Some(found),
            None => text(code),
        },
    }
}

/// The operator of a binary tier, without the spaces around it: `and`, `or`
/// at tier 4; `==`, `!=` at tier 3; `*`, `/` at tier 2; `+`, `-` at tier 1.
pub open spec fn operator_token(code: Seq<u8>, tier: nat) -> Option<(BinaryOperator, Seq<u8>)> {
    if tier == 4 {
        match after(code, "and".spec_bytes()) {
            Some(rest) => Some((BinaryOperator::And, rest)),
            None => match after(code, "or".spec_bytes()) {
                Some(rest) => Some((BinaryOperator::Or, rest)),
                None => None,
            },
        }
    } else if tier == 3 {
        match after(code, "==".spec_bytes()) {
            Some(rest) => Some((BinaryOperator::Equal, rest)),
            None => match after(code, "!=".spec_bytes()) {
                Some(rest) => Some((BinaryOperator::NotEqual, rest)),
                None => None,
            },
        }
    } else if tier == 2 {
        match after_byte(code, 0x2a) {
            Some(rest) => Some((BinaryOperator::Multiply, rest)),
            None => match after_byte(code, 0x2f) {
                Some(rest) => Some((BinaryOperator::Divide, rest)),
                None => None,
            },
        }
    } else if tier == 1 {
        match after_byte(code, 0x2b) {
            Some(rest) => Some((BinaryOperator::Add, rest)),
            None => match after_byte(code, 0x2d) {
                Some(rest) => Some((BinaryOperator::Subtract, rest)),
                None => None,
            },
        }
    } else {
        None
    }
}

/// The operator of a binary tier with one space before it and one after.
pub open spec fn operator(code: Seq<u8>, tier: nat) -> Option<(BinaryOperator, Seq<u8>)> {
    match after_byte(code, 0x20) {
        Some(inner) => match operator_token(inner, tier) {
            Some((op, rest)) => match after_byte(rest, 0x20) {
                Some(end) => Some((op, end)),
                None => None,
            },
            None => None,
        },
        None => None,
    }
}

/// A primary expression: an array `[e, e, ...]`, a literal or a variable,
/// tried in this order.
pub open spec fn primary(code: Seq<u8>) -> Option<(ExpressionView, Seq<u8>)>
    decreases code.len(), 1nat,
{
    match array(code) {
        Some(found) => Some(found),
        None => match literal(code) {
            Some((value, rest)) => Some((ExpressionView::Literal(value), rest)),
            None => match name(code) {
                Some((variable, rest)) => Some((ExpressionView::Variable(variable), rest)),
                None => None,
            },
        },
    }
}

/// An array literal: `[`, expressions separated by `, `, and `]`.
pub open spec fn array(code: Seq<u8>) -> Option<(ExpressionView, Seq<u8>)>
    decreases code.len(), 0nat,
{
    match after_byte(code, 0x5b) {
        Some(inner) => {
            let (items, rest) = elements(inner);
            match after_byte(rest, 0x5d) {
                Some(end) => Some((ExpressionView::Array(items), end)),
                None => None,
            }
        },
        None => None,
    }
}

/// The arguments of a call: `(`, expressions separated by `, `, and `)`.
pub open spec fn call_arguments(code: Seq<u8>) -> Option<(Seq<ExpressionView>, Seq<u8>)>
    decreases code.len(), 0nat,
{
    match after_byte(code, 0x28) {
        Some(inner) => {
            let (items, rest) = elements(inner);
            match after_byte(rest, 0x29) {
                Some(end) => Some((items, end)),
                None => None,
            }
        },
        None => None,
    }
}

/// Expressions separated by `, `: none, or one and those that follow it.
pub open spec fn elements(code: Seq<u8>) -> (Seq<ExpressionView>, Seq<u8>)
    decreases code.len(), 14nat,
{
    match consuming(expression(code), code) {
        Some((first, rest)) => {
            let (others, end) = more_elements(rest);
            (seq![first] + others, end)
        },
        None => (Seq::empty(), code),
    }
}

/// The expressions that follow the first of a list, each after a `, `. A `, `
/// that no expression follows is not read.
pub open spec fn more_elements(code: Seq<u8>) -> (Seq<ExpressionView>, Seq<u8>)
    decreases code.len(), 14nat,
{
    match after(code, ", ".spec_bytes()) {
        Some(inner) => match consuming(expression(inner), inner) {
            Some((next, rest)) => {
                let (others, end) = more_elements(rest);
                (seq![next] + others, end)
            },
            None => (Seq::empty(), code),
        },
        None => (Seq::empty(), code),
    }
}

/// A method call: a primary expression, `.`, an identifier and arguments.
pub open spec fn method(code: Seq<u8>) -> Option<(ExpressionView, Seq<u8>)>
    decreases code.len(), 2nat,
{
    match consuming(primary(code), code) {
        Some((object, rest)) => match after_byte(rest, 0x2e) {
            Some(inner) => match consuming(name(inner), inner) {
                Some((method, rest)) => match call_arguments(rest) {
                    Some((arguments, end)) => Some(
                        (ExpressionView::MethodCall(Box::new(object), method, arguments), end),
                    ),
                    None => None,
                },
                None => None,
            },
            None => None,
        },
        None => None,
    }
}

/// A member access: a primary expression, `.` and an identifier.
pub open spec fn member(code: Seq<u8>) -> Option<(ExpressionView, Seq<u8>)>
    decreases code.len(), 2nat,
{
    match primary(code) {
        Some((object, rest)) => match after_byte(rest, 0x2e) {
            Some(inner) => match name(inner) {
                Some((member, end)) => Some(
                    (ExpressionView::Member(Box::new(object), member), end),
                ),
                None => None,
            },
            None => None,
        },
        None => None,
    }
}

/// An index: a primary expression, `[`, an expression and `]`.
pub open spec fn index(code: Seq<u8>) -> Option<(ExpressionView, Seq<u8>)>
    decreases code.len(), 2nat,
{
    match consuming(primary(code), code) {
        Some((object, rest)) => match after_byte(rest, 0x5b) {
            Some(inner) => match expression(inner) {
                Some((position, rest)) => match after_byte(rest, 0x5d) {
                    Some(end) => Some(
                        (ExpressionView::Index(Box::new(object), Box::new(position)), end),
                    ),
                    None => None,
                },
                None => None,
            },
            None => None,
        },
        None => None,
    }
}

/// A call: an identifier and arguments.
pub open spec fn call(code: Seq<u8>) -> Option<(ExpressionView, Seq<u8>)>
    decreases code.len(), 2nat,
{
    match consuming(name(code), code) {
        Some((function, rest)) => match call_arguments(rest) {
            Some((arguments, end)) => Some((ExpressionView::Call(function, arguments), end)),
            None => None,
        },
        None => None,
    }
}

/// A postfix expression: a method call, a member access, an index, a call or
/// a primary expression, tried in this order.
pub open spec fn postfix(code: Seq<u8>) -> Option<(ExpressionView, Seq<u8>)>
    decreases code.len(), 3nat,
{
    match method(code) {
        Some(found) => Some(found),
        None => match member(code) {
            Some(found) => Some(found),
            None => match index(code) {
                Some(found) => Some(found),
                None => match call(code) {
                    Some(found) => Some(found),
                    None => primary(code),
                },
            },
        },
    }
}

/// One application of a binary operator of `tier`: an operand of the tier
/// below, the operator between spaces, and another such operand.
pub open spec fn binary(code: Seq<u8>, tier: nat) -> Option<(ExpressionView, Seq<u8>)>
    decreases code.len(), 2 * tier + 3,
{
    if tier == 0 {
        None
    } else {
        match consuming(operand(code, (tier - 1) as nat), code) {
            Some((lhs, rest)) => match operator(rest, tier) {
                Some((op, inner)) => match operand(inner, (tier - 1) as nat) {
                    Some((rhs, end)) => Some(
                        (ExpressionView::BinaryOperator(Box::new(lhs), op, Box::new(rhs)), end),
                    ),
                    None => None,
                },
                None => None,
            },
            None => None,
        }
    }
}

/// An expression of `tier`: one application of an operator of this tier, or
/// else an expression of the tier below. Tier 0 is the postfix expressions;
/// the operators bind the tighter the lower their tier is.
pub open spec fn operand(code: Seq<u8>, tier: nat) -> Option<(ExpressionView, Seq<u8>)>
    decreases code.len(), 2 * tier + 4,
{
    if tier == 0 {
        postfix(code)
    } else {
        match binary(code, tier) {
            Some(found) => Some(found),
            None => operand(code, (tier - 1) as nat),
        }
    }
}

/// An expression: an expression of the highest tier.
pub open spec fn expression(code: Seq<u8>) -> Option<(ExpressionView, Seq<u8>)>
    decreases code.len(), 13nat,
{
    operand(code, 4)
}

/// A `return` statement: `return ` and an expression.
pub open spec fn return_statement(code: Seq<u8>) -> Option<(StatementView, Seq<u8>)> {
    match after(code, "return ".spec_bytes()) {
        Some(inner) => match expression(inner) {
            Some((value, rest)) => Some((StatementView::Return(value), rest)),
            None => None,
        },
        None => None,
    }
}

/// An assignment: an identifier, ` = ` and an expression.
pub open spec fn assign(code: Seq<u8>) -> Option<(StatementView, Seq<u8>)> {
    match name(code) {
        Some((variable, rest)) => match after(rest, " = ".spec_bytes()) {
            Some(inner) => match expression(inner) {
                Some((value, end)) => Some((StatementView::Assign(variable, value), end)),
                None => None,
            },
            None => None,
        },
        None => None,
    }
}

/// A statement that may stand in a block: a `return` or an assignment, tried
/// in this order.
pub open spec fn simple_statement(code: Seq<u8>) -> Option<(StatementView, Seq<u8>)> {
    match return_statement(code) {
        Some(found) => Some(found),
        None => assign(code),
    }
}

/// A block: simple statements, each on a line of its own that starts with
/// four spaces. There is one level of indentation only.
pub open spec fn body(code: Seq<u8>) -> (Seq<StatementView>, Seq<u8>)
    decreases code.len(),
{
    match after(code, "\n    ".spec_bytes()) {
        Some(inner) => match consuming(simple_statement(inner), inner) {
            Some((first, rest)) => {
                let (others, end) = body(rest);
                (seq![first] + others, end)
            },
            None => (Seq::empty(), code),
        },
        None => (Seq::empty(), code),
    }
}

/// Identifiers separated by `, `: none, or one and those that follow it.
pub open spec fn names(code: Seq<u8>) -> (Seq<Seq<u8>>, Seq<u8>) {
    match consuming(name(code), code) {
        Some((first, rest)) => {
            let (others, end) = more_names(rest);
            (seq![first] + others, end)
        },
        None => (Seq::empty(), code),
    }
}

/// The identifiers that follow the first of a list, each after a `, `. A `, `
/// that no identifier follows is not read.
pub open spec fn more_names(code: Seq<u8>) -> (Seq<Seq<u8>>, Seq<u8>)
    decreases code.len(),
{
    match after(code, ", ".spec_bytes()) {
        Some(inner) => match consuming(name(inner), inner) {
            Some((next, rest)) => {
                let (others, end) = more_names(rest);
                (seq![next] + others, end)
            },
            None => (Seq::empty(), code),
        },
        None => (Seq::empty(), code),
    }
}

/// A function definition: `func `, an identifier, the parameters between `(`
/// and `)`, and a block.
pub open spec fn function(code: Seq<u8>) -> Option<(StatementView, Seq<u8>)> {
    match after(code, "func ".spec_bytes()) {
        Some(inner) => match name(inner) {
            Some((function, rest)) => match after_byte(rest, 0x28) {
                Some(inner) => {
                    let (arguments, rest) = names(inner);
                    match after_byte(rest, 0x29) {
                        Some(inner) => {
                            let (statements, end) = body(inner);
                            Some(
                                (
                                    StatementView::Function(
                                        function,
                                        FunctionView { arguments, statements },
                                    ),
                                    end,
                                ),
                            )
                        },
                        None => None,
                    }
                },
                None => None,
            },
            None => None,
        },
        None => None,
    }
}

/// A loop: `while `, an expression and a block.
pub open spec fn while_loop(code: Seq<u8>) -> Option<(StatementView, Seq<u8>)> {
    match after(code, "while ".spec_bytes()) {
        Some(inner) => match expression(inner) {
            Some((condition, rest)) => {
                let (statements, end) = body(rest);
                Some((StatementView::While(condition, statements), end))
            },
            None => None,
        },
        None => None,
    }
}

/// A conditional: `if `, an expression and a block.
pub open spec fn if_statement(code: Seq<u8>) -> Option<(StatementView, Seq<u8>)> {
    match after(code, "if ".spec_bytes()) {
        Some(inner) => match expression(inner) {
            Some((condition, rest)) => {
                let (statements, end) = body(rest);
                Some((StatementView::If(condition, statements), end))
            },
            None => None,
        },
        None => None,
    }
}

/// A statement: a function definition, a loop, a conditional or a simple
/// statement, tried in this order.
pub open spec fn statement(code: Seq<u8>) -> Option<(StatementView, Seq<u8>)> {
    match function(code) {
        Some(found) => Some(found),
        None => match while_loop(code) {
            Some(found) => Some(found),
            None => match if_statement(code) {
                Some(found) => Some(found),
                None => simple_statement(code),
            },
        },
    }
}

/// Statements separated by newlines: one, and after each newline another.
/// Where no statement can be read, the result is what is left at that place.
pub open spec fn statements(code: Seq<u8>) -> Result<(Seq<StatementView>, Seq<u8>), Seq<u8>>
    decreases code.len(),
{
    match consuming(statement(code), code) {
        Some((first, rest)) => match after_byte(rest, 0x0a) {
            Some(inner) => match statements(inner) {
                Ok((others, end)) => Ok((seq![first] + others, end)),
                Err(place) => Err(place),
            },
            None => Ok((seq![first], rest)),
        },
        None => Err(code),
    }
}

/// A program: statements separated by newlines, and nothing after them.
pub open spec fn program(code: Seq<u8>) -> Result<ProgramView, ParseError> {
    match statements(code) {
        Ok((statements, rest)) => if rest.len() == 0 {
            Ok(ProgramView { statements })
        } else {
            Err(ParseError::Trailing { position: (code.len() - rest.len()) as usize })
        },
        Err(place) => Err(ParseError::Statement { position: (code.len() - place.len()) as usize }),
    }
}

} // verus!
