//! What a program means: the evaluator's specification, as functions over the
//! models of the syntax tree and of the values.
//!
//! Fuel makes these functions total. Entering a function's body and entering
//! the body of a loop each take one unit; a call gives its unit back when it
//! returns, a loop gives back its units when it ends. Where a unit is needed
//! and none is left, the result is `RunError::Limit`.

use crate::ast::{BinaryOperator, ExpressionView, FunctionView, LiteralView, ProgramView, StatementView};
use crate::number::arithmetic::{ieee_difference, ieee_product, ieee_quotient, ieee_sum};
use crate::number::{ieee_equal, integer_part, Number};
use crate::number::rounding::nearest_double;
use crate::interpreter::value::{element_of, RunError, ValueView};
use vstd::prelude::*;
use vstd::string::StringSliceAdditionalSpecFns;

verus! {

/// Model of a scope: its variables and its functions, by name.
pub struct StateView {
    pub variables: Map<Seq<u8>, ValueView>,
    pub functions: Map<Seq<u8>, FunctionView>,
}

/// How a sequence of statements ended: at its end, or at a `return`.
pub enum Flow {
    Continuing,
    Returned(ValueView),
}

/// The scope in which a program starts: nothing is bound.
pub open spec fn fresh_state() -> StateView {
    StateView { variables: Map::empty(), functions: Map::empty() }
}

/// The value of a literal.
pub open spec fn literal_value(literal: LiteralView) -> ValueView {
    match literal {
        LiteralView::Bool(value) => ValueView::Bool(value),
        LiteralView::Number(value) => ValueView::Number(value),
        LiteralView::Text(text) => ValueView::Text(text),
    }
}

/// A binary operator applied to two values: the typing table of the language.
/// Every combination that is not listed is a type error.
pub open spec fn binary_value(op: BinaryOperator, lhs: ValueView, rhs: ValueView) -> Result<
    ValueView,
    RunError,
> {
    match (op, lhs, rhs) {
        (BinaryOperator::Add, ValueView::Number(a), ValueView::Number(b)) => Ok(
            ValueView::Number(Number { bits: ieee_sum(a.bits, b.bits) }),
        ),
        (BinaryOperator::Add, ValueView::Text(a), ValueView::Text(b)) => Ok(ValueView::Text(a + b)),
        (BinaryOperator::Subtract, ValueView::Number(a), ValueView::Number(b)) => Ok(
            ValueView::Number(Number { bits: ieee_difference(a.bits, b.bits) }),
        ),
        (BinaryOperator::Multiply, ValueView::Number(a), ValueView::Number(b)) => Ok(
            ValueView::Number(Number { bits: ieee_product(a.bits, b.bits) }),
        ),
        (BinaryOperator::Divide, ValueView::Number(a), ValueView::Number(b)) => Ok(
            ValueView::Number(Number { bits: ieee_quotient(a.bits, b.bits) }),
        ),
        (BinaryOperator::Equal, ValueView::Number(a), ValueView::Number(b)) => Ok(
            ValueView::Bool(ieee_equal(a.bits, b.bits)),
        ),
        (BinaryOperator::Equal, ValueView::Text(a), ValueView::Text(b)) => Ok(
            ValueView::Bool(a == b),
        ),
        (BinaryOperator::NotEqual, ValueView::Number(a), ValueView::Number(b)) => Ok(
            ValueView::Bool(!ieee_equal(a.bits, b.bits)),
        ),
        (BinaryOperator::NotEqual, ValueView::Text(a), ValueView::Text(b)) => Ok(
            ValueView::Bool(a != b),
        ),
        (BinaryOperator::And, ValueView::Bool(a), ValueView::Bool(b)) => Ok(
            ValueView::Bool(a && b),
        ),
        (BinaryOperator::Or, ValueView::Bool(a), ValueView::Bool(b)) => Ok(ValueView::Bool(a || b)),
        _ => Err(RunError::Type),
    }
}

/// The number that counts `count` items.
pub open spec fn count_value(count: nat) -> ValueView {
    ValueView::Number(Number { bits: nearest_double(count) })
}

/// The member `name` of a value: only `length` exists, the number of bytes of
/// a text and the number of elements of an array.
pub open spec fn member_value(object: ValueView, name: Seq<u8>) -> Result<ValueView, RunError> {
    if name == "length".spec_bytes() {
        match object {
            ValueView::Text(text) => Ok(count_value(text.len())),
            ValueView::Array(items) => Ok(count_value(items.len())),
            _ => Err(RunError::Type),
        }
    } else {
        Err(RunError::Type)
    }
}

/// The method `name` of a value, called with `arguments`. A method is found
/// by the kind of the value and the name: only `starts_with` of a text
/// exists, and every other pair is a type error. `starts_with` takes one
/// argument, and another number of them is an arity error, as it is in a call
/// of a function; an argument that is no text is a type error.
pub open spec fn method_value(object: ValueView, name: Seq<u8>, arguments: Seq<ValueView>) -> Result<
    ValueView,
    RunError,
> {
    match object {
        ValueView::Text(text) => if name != "starts_with".spec_bytes() {
            Err(RunError::Type)
        } else if arguments.len() != 1 {
            Err(RunError::Arity)
        } else {
            match arguments[0] {
                ValueView::Text(prefix) => Ok(ValueView::Bool(prefix.is_prefix_of(text))),
                _ => Err(RunError::Type),
            }
        },
        _ => Err(RunError::Type),
    }
}

/// A value indexed by another: an array by a number, whose integer part is the
/// position. A number between minus one and one has the position zero. A
/// number of minus one or less has a negative position, which is out of
/// bounds as a position past the end is; a NaN and the infinities have no
/// integer part and are out of bounds too.
pub open spec fn index_value(array: ValueView, index: ValueView) -> Result<ValueView, RunError> {
    match (array, index) {
        (ValueView::Array(_), ValueView::Number(position)) => match integer_part(position.bits) {
            Some(part) => element_of(array, part),
            None => Err(RunError::Bounds),
        },
        _ => Err(RunError::Type),
    }
}

/// The variables of a call's scope once the first `count` parameters are
/// bound, each `names[i]` to `values[i]` in turn.
pub open spec fn parameters(names: Seq<Seq<u8>>, values: Seq<ValueView>, count: nat) -> Map<
    Seq<u8>,
    ValueView,
>
    decreases count,
{
    if count == 0 {
        Map::empty()
    } else {
        parameters(names, values, (count - 1) as nat).insert(names[count - 1], values[count - 1])
    }
}

/// The value of an expression in a scope.
pub open spec fn evaluation(expression: ExpressionView, state: StateView, fuel: nat) -> Result<
    ValueView,
    RunError,
>
    decreases fuel, 0nat, expression, 0nat,
{
    match expression {
        ExpressionView::Array(items) => match evaluations(items, items.len(), state, fuel) {
            Ok(values) => Ok(ValueView::Array(values)),
            Err(error) => Err(error),
        },
        ExpressionView::BinaryOperator(lhs, op, rhs) => match evaluation(*lhs, state, fuel) {
            Ok(left) => match evaluation(*rhs, state, fuel) {
                Ok(right) => binary_value(op, left, right),
                Err(error) => Err(error),
            },
            Err(error) => Err(error),
        },
        ExpressionView::Call(name, arguments) => if !state.functions.contains_key(name) {
            Err(RunError::Name)
        } else if arguments.len() != state.functions[name].arguments.len() {
            Err(RunError::Arity)
        } else {
            match evaluations(arguments, arguments.len(), state, fuel) {
                Ok(values) => if fuel == 0 {
                    Err(RunError::Limit)
                } else {
                    let function = state.functions[name];
                    let scope = StateView {
                        variables: parameters(function.arguments, values, values.len()),
                        functions: Map::empty(),
                    };
                    match execution(
                        function.statements,
                        function.statements.len(),
                        scope,
                        (fuel - 1) as nat,
                        true,
                    ) {
                        Ok((_, Flow::Returned(value))) => Ok(value),
                        Ok((_, Flow::Continuing)) => Err(RunError::Structure),
                        Err(error) => Err(error),
                    }
                },
                Err(error) => Err(error),
            }
        },
        ExpressionView::Index(array, index) => match evaluation(*array, state, fuel) {
            Ok(items) => match evaluation(*index, state, fuel) {
                Ok(position) => index_value(items, position),
                Err(error) => Err(error),
            },
            Err(error) => Err(error),
        },
        ExpressionView::Literal(literal) => Ok(literal_value(literal)),
        ExpressionView::Member(object, name) => match evaluation(*object, state, fuel) {
            Ok(value) => member_value(value, name),
            Err(error) => Err(error),
        },
        ExpressionView::MethodCall(object, name, arguments) => match evaluation(
            *object,
            state,
            fuel,
        ) {
            Ok(value) => match evaluations(arguments, arguments.len(), state, fuel) {
                Ok(values) => method_value(value, name, values),
                Err(error) => Err(error),
            },
            Err(error) => Err(error),
        },
        ExpressionView::Variable(name) => if state.variables.contains_key(name) {
            Ok(state.variables[name])
        } else {
            Err(RunError::Name)
        },
    }
}

/// The values of the first `count` of `items`, evaluated from left to right;
/// the error of the first that fails.
pub open spec fn evaluations(
    items: Seq<ExpressionView>,
    count: nat,
    state: StateView,
    fuel: nat,
) -> Result<Seq<ValueView>, RunError>
    decreases fuel, 0nat, items, count,
{
    if count == 0 || count > items.len() {
        Ok(Seq::empty())
    } else {
        match evaluations(items, (count - 1) as nat, state, fuel) {
            Ok(values) => match evaluation(items[count - 1], state, fuel) {
                Ok(value) => Ok(values.push(value)),
                Err(error) => Err(error),
            },
            Err(error) => Err(error),
        }
    }
}

/// What one statement does to a scope. `in_function` says whether the
/// statement runs inside a call, where alone `return` is allowed.
pub open spec fn effect(
    statement: StatementView,
    state: StateView,
    fuel: nat,
    in_function: bool,
) -> Result<(StateView, Flow), RunError>
    decreases fuel, 1nat, statement, 1nat,
{
    match statement {
        StatementView::Assign(name, expression) => match evaluation(expression, state, fuel) {
            Ok(value) => Ok(
                (
                    StateView {
                        variables: state.variables.insert(name, value),
                        functions: state.functions,
                    },
                    Flow::Continuing,
                ),
            ),
            Err(error) => Err(error),
        },
        StatementView::Function(name, function) => Ok(
            (
                StateView {
                    variables: state.variables,
                    functions: state.functions.insert(name, function),
                },
                Flow::Continuing,
            ),
        ),
        StatementView::If(condition, body) => match evaluation(condition, state, fuel) {
            Ok(ValueView::Bool(true)) => execution(body, body.len(), state, fuel, in_function),
            Ok(ValueView::Bool(false)) => Ok((state, Flow::Continuing)),
            Ok(_) => Err(RunError::Type),
            Err(error) => Err(error),
        },
        StatementView::Return(expression) => if in_function {
            match evaluation(expression, state, fuel) {
                Ok(value) => Ok((state, Flow::Returned(value))),
                Err(error) => Err(error),
            }
        } else {
            Err(RunError::Structure)
        },
        StatementView::While(condition, body) => iteration(
            condition,
            body,
            state,
            fuel,
            in_function,
        ),
    }
}

/// What the first `count` of `statements` do to a scope, in order: the run
/// stops at the first `return` and at the first error.
pub open spec fn execution(
    statements: Seq<StatementView>,
    count: nat,
    state: StateView,
    fuel: nat,
    in_function: bool,
) -> Result<(StateView, Flow), RunError>
    decreases fuel, 1nat, statements, count,
{
    if count == 0 || count > statements.len() {
        Ok((state, Flow::Continuing))
    } else {
        match execution(statements, (count - 1) as nat, state, fuel, in_function) {
            Ok((reached, Flow::Continuing)) => effect(
                statements[count - 1],
                reached,
                fuel,
                in_function,
            ),
            Ok((reached, Flow::Returned(value))) => Ok((reached, Flow::Returned(value))),
            Err(error) => Err(error),
        }
    }
}

/// What a loop does to a scope: the condition is evaluated before each turn,
/// and a `return` in the body ends the loop.
pub open spec fn iteration(
    condition: ExpressionView,
    body: Seq<StatementView>,
    state: StateView,
    fuel: nat,
    in_function: bool,
) -> Result<(StateView, Flow), RunError>
    decreases fuel, 1nat, StatementView::While(condition, body), 0nat,
{
    match evaluation(condition, state, fuel) {
        Ok(ValueView::Bool(true)) => if fuel == 0 {
            Err(RunError::Limit)
        } else {
            match execution(body, body.len(), state, (fuel - 1) as nat, in_function) {
                Ok((reached, Flow::Continuing)) => iteration(
                    condition,
                    body,
                    reached,
                    (fuel - 1) as nat,
                    in_function,
                ),
                Ok((reached, Flow::Returned(value))) => Ok((reached, Flow::Returned(value))),
                Err(error) => Err(error),
            }
        },
        Ok(ValueView::Bool(false)) => Ok((state, Flow::Continuing)),
        Ok(_) => Err(RunError::Type),
        Err(error) => Err(error),
    }
}

/// The final variables of a program run from a fresh scope.
pub open spec fn program_result(program: ProgramView, fuel: nat) -> Result<
    Map<Seq<u8>, ValueView>,
    RunError,
> {
    match execution(program.statements, program.statements.len(), fresh_state(), fuel, false) {
        Ok((reached, _)) => Ok(reached.variables),
        Err(error) => Err(error),
    }
}

} // verus!
