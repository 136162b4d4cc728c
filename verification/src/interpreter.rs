//! The evaluator: it walks a syntax tree and threads a scope through it.

pub mod bindings;
pub mod semantics;
pub mod theorems;
pub mod value;

use crate::ast::{BinaryOperator, Expression, ExpressionView, Function, Literal, Program, Statement, StatementView};
use crate::ast::{expression_views, lemma_expression_views, lemma_statement_views, statement_views};
use crate::interpreter::bindings::Bindings;
use crate::interpreter::semantics::{
    binary_value,
    count_value,
    effect,
    evaluation,
    evaluations,
    execution,
    fresh_state,
    index_value,
    iteration,
    literal_value,
    member_value,
    method_value,
    parameters,
    program_result,
    Flow,
    StateView,
};
use crate::interpreter::value::{
    element_of,
    lemma_value_views,
    same_bytes,
    value_views,
    RunError,
    Value,
    ValueView,
};
use crate::number::{integer_part, Number};
use vstd::prelude::*;
use vstd::slice::slice_to_vec;

verus! {

/// The model of what an evaluation gave: the value's model, or the error.
pub open spec fn value_result(result: Result<Value, RunError>) -> Result<ValueView, RunError> {
    match result {
        Ok(value) => Ok(value@),
        Err(error) => Err(error),
    }
}

/// The model of how a sequence of statements ended.
pub open spec fn flow_view(flow: Option<Value>) -> Flow {
    match flow {
        Some(value) => Flow::Returned(value@),
        None => Flow::Continuing,
    }
}

/// The bytes of `lhs` followed by those of `rhs`.
pub fn concatenate(lhs: Vec<u8>, rhs: &[u8]) -> (joined: Vec<u8>)
    ensures
        joined@ == lhs@ + rhs@,
{
    let mut joined = lhs;
    let mut i: usize = 0;
    while i < rhs.len()
        invariant
            i <= rhs.len(),
            joined@ == lhs@ + rhs@.take(i as int),
        decreases rhs.len() - i,
    {
        joined.push(rhs[i]);
        proof {
            assert(rhs@.take(i + 1) == rhs@.take(i as int).push(rhs@[i as int]));
            assert(joined@ =~= lhs@ + rhs@.take(i + 1));
        }
        i += 1;
    }
    proof {
        assert(rhs@.take(rhs.len() as int) == rhs@);
    }
    joined
}

/// Whether `text` begins with `prefix`.
pub fn starts_with(text: &[u8], prefix: &[u8]) -> (begins: bool)
    ensures
        begins == prefix@.is_prefix_of(text@),
{
    if prefix.len() > text.len() {
        return false;
    }
    let mut i: usize = 0;
    while i < prefix.len()
        invariant
            prefix.len() <= text.len(),
            i <= prefix.len(),
            forall|j: int| 0 <= j < i ==> prefix@[j] == text@[j],
        decreases prefix.len() - i,
    {
        if prefix[i] != text[i] {
            proof {
                assert(text@.subrange(0, prefix@.len() as int)[i as int] == text@[i as int]);
            }
            return false;
        }
        i += 1;
    }
    proof {
        assert(prefix@ =~= text@.subrange(0, prefix@.len() as int));
    }
    true
}

/// Applies a binary operator to two values.
pub fn apply_binary(op: BinaryOperator, lhs: Value, rhs: Value) -> (result: Result<Value, RunError>)
    ensures
        value_result(result) == binary_value(op, lhs@, rhs@),
{
    match (op, lhs, rhs) {
        (BinaryOperator::Add, Value::Number(a), Value::Number(b)) => Ok(
            Value::Number(a.plus(b)),
        ),
        (BinaryOperator::Add, Value::Text(a), Value::Text(b)) => Ok(
            Value::Text(concatenate(a, b.as_slice())),
        ),
        (BinaryOperator::Subtract, Value::Number(a), Value::Number(b)) => Ok(
            Value::Number(a.minus(b)),
        ),
        (BinaryOperator::Multiply, Value::Number(a), Value::Number(b)) => Ok(
            Value::Number(a.times(b)),
        ),
        (BinaryOperator::Divide, Value::Number(a), Value::Number(b)) => Ok(
            Value::Number(a.over(b)),
        ),
        (BinaryOperator::Equal, Value::Number(a), Value::Number(b)) => Ok(
            Value::Bool(a.equals(b)),
        ),
        (BinaryOperator::Equal, Value::Text(a), Value::Text(b)) => Ok(
            Value::Bool(same_bytes(a.as_slice(), b.as_slice())),
        ),
        (BinaryOperator::NotEqual, Value::Number(a), Value::Number(b)) => Ok(
            Value::Bool(!a.equals(b)),
        ),
        (BinaryOperator::NotEqual, Value::Text(a), Value::Text(b)) => Ok(
            Value::Bool(!same_bytes(a.as_slice(), b.as_slice())),
        ),
        (BinaryOperator::And, Value::Bool(a), Value::Bool(b)) => Ok(Value::Bool(a && b)),
        (BinaryOperator::Or, Value::Bool(a), Value::Bool(b)) => Ok(Value::Bool(a || b)),
        _ => Err(RunError::Type),
    }
}

/// The number that counts `count` items.
pub fn count(items: usize) -> (value: Value)
    ensures
        value@ == count_value(items as nat),
{
    Value::Number(Number::from_natural(items as u64))
}

/// The member `name` of `object`.
pub fn member(object: &Value, name: &[u8]) -> (result: Result<Value, RunError>)
    ensures
        value_result(result) == member_value(object@, name@),
{
    if same_bytes(name, "length".as_bytes()) {
        match object {
            Value::Text(text) => Ok(count(text.len())),
            Value::Array(items) => {
                proof {
                    lemma_value_views(items@);
                }
                Ok(count(items.len()))
            },
            _ => Err(RunError::Type),
        }
    } else {
        Err(RunError::Type)
    }
}

/// The method `name` of `object`, called with `arguments`.
pub fn method(object: &Value, name: &[u8], arguments: &Vec<Value>) -> (result: Result<Value, RunError>)
    ensures
        value_result(result) == method_value(object@, name@, value_views(arguments@)),
{
    proof {
        lemma_value_views(arguments@);
    }
    match object {
        Value::Text(text) => if !same_bytes(name, "starts_with".as_bytes()) {
            Err(RunError::Type)
        } else if arguments.len() != 1 {
            Err(RunError::Arity)
        } else {
            match &arguments[0] {
                Value::Text(prefix) => Ok(
                    Value::Bool(starts_with(text.as_slice(), prefix.as_slice())),
                ),
                _ => Err(RunError::Type),
            }
        },
        _ => Err(RunError::Type),
    }
}

/// The value `array` indexed by the value `position`.
pub fn index(array: &Value, position: &Value) -> (result: Result<Value, RunError>)
    ensures
        value_result(result) == index_value(array@, position@),
{
    match (array, position) {
        (Value::Array(items), Value::Number(number)) => {
            proof {
                lemma_value_views(items@);
            }
            let found = number.position();
            let count = items.len();
            proof {
                assert(value_views(items@).len() == count);
                assert(array@ == ValueView::Array(value_views(items@)));
                assert(position@ == ValueView::Number(*number));
                match integer_part(number.bits) {
                    Some(part) => {
                        if 0 <= part <= u64::MAX {
                            assert(found == Some(part as u64));
                        } else {
                            assert(found is None);
                            assert(element_of(array@, part) == Err::<ValueView, RunError>(
                                RunError::Bounds,
                            ));
                        }
                    },
                    None => {},
                }
            }
            match found {
                Some(place) => if place < count as u64 {
                    match array.element(place as usize) {
                        Ok(item) => Ok(item.clone()),
                        Err(error) => Err(error),
                    }
                } else {
                    Err(RunError::Bounds)
                },
                None => Err(RunError::Bounds),
            }
        },
        _ => Err(RunError::Type),
    }
}

/// A scope: the variables and the functions that are bound in it.
pub struct State<'a> {
    variables: Bindings<Value>,
    functions: Bindings<&'a Function>,
}

impl<'a> View for State<'a> {
    type V = StateView;

    closed spec fn view(&self) -> StateView {
        StateView { variables: self.variables@, functions: self.functions@ }
    }
}

impl<'a> State<'a> {
    /// Well-formedness: that of both sets of bindings.
    pub closed spec fn wf(&self) -> bool {
        self.variables.wf() && self.functions.wf()
    }

    /// A scope in which nothing is bound.
    pub fn new() -> (state: Self)
        ensures
            state.wf(),
            state@ == fresh_state(),
    {
        State { variables: Bindings::new(), functions: Bindings::new() }
    }

    /// The variables of the scope.
    pub fn into_variables(self) -> (variables: Bindings<Value>)
        requires
            self.wf(),
        ensures
            variables.wf(),
            variables@ == self@.variables,
    {
        self.variables
    }
}

/// The value of a literal.
pub fn literal(source: &Literal) -> (value: Value)
    ensures
        value@ == literal_value(source@),
{
    match source {
        Literal::Bool(value) => Value::Bool(*value),
        Literal::Number(value) => Value::Number(*value),
        Literal::Text(text) => Value::Text(slice_to_vec(text.as_slice())),
    }
}

/// The values of `items`, evaluated from left to right in `state`.
pub fn evaluate_all(items: &Vec<Expression>, state: &State, fuel: u64) -> (result: Result<
    Vec<Value>,
    RunError,
>)
    requires
        state.wf(),
    ensures
        match result {
            Ok(values) => evaluations(
                expression_views(items@),
                items@.len(),
                state@,
                fuel as nat,
            ) == Ok::<Seq<ValueView>, RunError>(value_views(values@)),
            Err(error) => evaluations(
                expression_views(items@),
                items@.len(),
                state@,
                fuel as nat,
            ) == Err::<Seq<ValueView>, RunError>(error),
        },
    decreases fuel, 0nat, items, 1nat,
{
    let mut values: Vec<Value> = Vec::new();
    let mut i: usize = 0;
    proof {
        lemma_expression_views(items@);
        lemma_value_views(values@);
        assert(value_views(values@) =~= Seq::<ValueView>::empty());
    }
    while i < items.len()
        invariant
            state.wf(),
            i <= items.len(),
            expression_views(items@).len() == items@.len(),
            forall|j: int|
                0 <= j < items@.len() ==> #[trigger] expression_views(items@)[j] == items@[j]@,
            evaluations(expression_views(items@), i as nat, state@, fuel as nat) == Ok::<
                Seq<ValueView>,
                RunError,
            >(value_views(values@)),
        decreases items.len() - i,
    {
        proof {
            assert(decreases_to!(*items => items@));
            assert(decreases_to!(items@ => items@[i as int]));
        }
        match evaluate(&items[i], state, fuel) {
            Ok(value) => {
                proof {
                    lemma_value_views(values@);
                    lemma_value_views(values@.push(value));
                    assert(value_views(values@.push(value)) =~= value_views(values@).push(value@));
                }
                values.push(value);
            },
            Err(error) => {
                proof {
                    lemma_evaluations_fail(
                        expression_views(items@),
                        (i + 1) as nat,
                        items@.len(),
                        state@,
                        fuel as nat,
                    );
                }
                return Err(error);
            },
        }
        i += 1;
    }
    Ok(values)
}

/// The variables bound by the first parameters do not depend on later values.
pub proof fn lemma_parameters_prefix(
    names: Seq<Seq<u8>>,
    values: Seq<ValueView>,
    more: ValueView,
    count: nat,
)
    requires
        count <= values.len(),
    ensures
        parameters(names, values.push(more), count) == parameters(names, values, count),
    decreases count,
{
    if count > 0 {
        lemma_parameters_prefix(names, values, more, (count - 1) as nat);
    }
}

/// Once a prefix of the items has failed, every longer prefix fails alike.
pub proof fn lemma_evaluations_fail(
    items: Seq<ExpressionView>,
    failed: nat,
    count: nat,
    state: StateView,
    fuel: nat,
)
    requires
        evaluations(items, failed, state, fuel) is Err,
        failed <= count <= items.len(),
    ensures
        evaluations(items, count, state, fuel) == evaluations(items, failed, state, fuel),
    decreases count,
{
    if failed < count {
        lemma_evaluations_fail(items, failed, (count - 1) as nat, state, fuel);
    }
}

/// The value of `expression` in `state`.
#[verifier::loop_isolation(false)]
pub fn evaluate(expression: &Expression, state: &State, fuel: u64) -> (result: Result<
    Value,
    RunError,
>)
    requires
        state.wf(),
    ensures
        value_result(result) == evaluation(expression@, state@, fuel as nat),
    decreases fuel, 0nat, expression, 0nat,
{
    match expression {
        Expression::Array(items) => {
            proof {
                assert(decreases_to!(*expression => expression->Array_0));
            }
            match evaluate_all(items, state, fuel) {
                Ok(values) => Ok(Value::Array(values)),
                Err(error) => Err(error),
            }
        },
        Expression::BinaryOperator(lhs, op, rhs) => {
            let left = match evaluate(lhs, state, fuel) {
                Ok(value) => value,
                Err(error) => { return Err(error); },
            };
            let right = match evaluate(rhs, state, fuel) {
                Ok(value) => value,
                Err(error) => { return Err(error); },
            };
            apply_binary(*op, left, right)
        },
        Expression::Call(name, arguments) => {
            let function: &Function = match state.functions.lookup(name.as_slice()) {
                Some(function) => *function,
                None => { return Err(RunError::Name); },
            };
            if arguments.len() != function.arguments.len() {
                return Err(RunError::Arity);
            }
            let mut scope = State::new();
            let ghost values: Seq<ValueView> = Seq::empty();
            let mut i: usize = 0;
            proof {
                lemma_expression_views(arguments@);
                assert(decreases_to!(*expression => expression->Call_1));
            }
            while i < arguments.len()
                invariant
                    state.wf(),
                    scope.wf(),
                    expression is Call,
                    expression->Call_1 == *arguments,
                    i <= arguments.len(),
                    arguments.len() == function.arguments.len(),
                    expression_views(arguments@).len() == arguments@.len(),
                    forall|j: int|
                        0 <= j < arguments@.len() ==> #[trigger] expression_views(arguments@)[j]
                            == arguments@[j]@,
                    values.len() == i,
                    evaluations(expression_views(arguments@), i as nat, state@, fuel as nat)
                        == Ok::<Seq<ValueView>, RunError>(values),
                    scope@.functions == Map::<Seq<u8>, crate::ast::FunctionView>::empty(),
                    scope@.variables == parameters(function@.arguments, values, i as nat),
                decreases arguments.len() - i,
            {
                proof {
                    assert(decreases_to!(*expression => expression->Call_1));
                    assert(decreases_to!(*arguments => arguments@));
                    assert(decreases_to!(arguments@ => arguments@[i as int]));
                }
                match evaluate(&arguments[i], state, fuel) {
                    Ok(value) => {
                        proof {
                            lemma_parameters_prefix(function@.arguments, values, value@, i as nat);
                            values = values.push(value@);
                            assert(function@.arguments[i as int] == function.arguments@[i as int]@);
                        }
                        scope.variables.insert(function.arguments[i].as_slice(), value);
                    },
                    Err(error) => {
                        proof {
                            lemma_evaluations_fail(
                                expression_views(arguments@),
                                (i + 1) as nat,
                                arguments@.len(),
                                state@,
                                fuel as nat,
                            );
                        }
                        return Err(error);
                    },
                }
                i += 1;
            }
            if fuel == 0 {
                return Err(RunError::Limit);
            }
            proof {
                lemma_statement_views(function.statements@);
            }
            match run_statements(&function.statements, &mut scope, fuel - 1, true) {
                Ok(Some(value)) => Ok(value),
                Ok(None) => Err(RunError::Structure),
                Err(error) => Err(error),
            }
        },
        Expression::Index(array, position) => {
            let items = match evaluate(array, state, fuel) {
                Ok(value) => value,
                Err(error) => { return Err(error); },
            };
            let place = match evaluate(position, state, fuel) {
                Ok(value) => value,
                Err(error) => { return Err(error); },
            };
            index(&items, &place)
        },
        Expression::Literal(value) => Ok(literal(value)),
        Expression::Member(object, name) => {
            match evaluate(object, state, fuel) {
                Ok(value) => member(&value, name.as_slice()),
                Err(error) => Err(error),
            }
        },
        Expression::MethodCall(object, name, arguments) => {
            let receiver = match evaluate(object, state, fuel) {
                Ok(value) => value,
                Err(error) => { return Err(error); },
            };
            proof {
                assert(decreases_to!(*expression => expression->MethodCall_2));
            }
            match evaluate_all(arguments, state, fuel) {
                Ok(values) => method(&receiver, name.as_slice(), &values),
                Err(error) => Err(error),
            }
        },
        Expression::Variable(name) => {
            match state.variables.lookup(name.as_slice()) {
                Some(value) => Ok(value.clone()),
                None => Err(RunError::Name),
            }
        },
    }
}

/// The model of what running statements gave: the scope reached and how the
/// statements ended, or the error.
pub open spec fn run_outcome(result: Result<Option<Value>, RunError>, reached: StateView) -> Result<
    (StateView, Flow),
    RunError,
> {
    match result {
        Ok(flow) => Ok((reached, flow_view(flow))),
        Err(error) => Err(error),
    }
}

/// Once a prefix of the statements has failed or returned, every longer
/// prefix ends alike.
pub proof fn lemma_execution_stops(
    statements: Seq<StatementView>,
    stopped: nat,
    count: nat,
    state: StateView,
    fuel: nat,
    in_function: bool,
)
    requires
        !(execution(statements, stopped, state, fuel, in_function) matches Ok((_, Flow::Continuing))),
        stopped <= count <= statements.len(),
    ensures
        execution(statements, count, state, fuel, in_function) == execution(
            statements,
            stopped,
            state,
            fuel,
            in_function,
        ),
    decreases count,
{
    if stopped < count {
        lemma_execution_stops(statements, stopped, (count - 1) as nat, state, fuel, in_function);
    }
}

/// Runs a loop: `body` as long as `condition` holds.
#[verifier::loop_isolation(false)]
pub fn run_while<'a>(
    condition: &'a Expression,
    body: &'a Vec<Statement>,
    state: &mut State<'a>,
    fuel: u64,
    is_function: bool,
) -> (result: Result<Option<Value>, RunError>)
    requires
        old(state).wf(),
    ensures
        final(state).wf(),
        run_outcome(result, final(state)@) == iteration(
            condition@,
            statement_views(body@),
            old(state)@,
            fuel as nat,
            is_function,
        ),
    decreases fuel, 1nat, body, 2nat,
{
    let ghost entry = state@;
    let mut left = fuel;
    proof {
        lemma_statement_views(body@);
    }
    loop
        invariant
            state.wf(),
            left <= fuel,
            statement_views(body@).len() == body@.len(),
            iteration(condition@, statement_views(body@), entry, fuel as nat, is_function)
                == iteration(condition@, statement_views(body@), state@, left as nat, is_function),
        decreases left,
    {
        let test = match evaluate(condition, state, left) {
            Ok(value) => value,
            Err(error) => { return Err(error); },
        };
        match test {
            Value::Bool(true) => {
                if left == 0 {
                    return Err(RunError::Limit);
                }
                match run_statements(body, state, left - 1, is_function) {
                    Ok(None) => {
                        left = left - 1;
                    },
                    Ok(Some(value)) => { return Ok(Some(value)); },
                    Err(error) => { return Err(error); },
                }
            },
            Value::Bool(false) => { return Ok(None); },
            _ => { return Err(RunError::Type); },
        }
    }
}

/// Runs one statement.
pub fn run_statement<'a>(
    statement: &'a Statement,
    state: &mut State<'a>,
    fuel: u64,
    is_function: bool,
) -> (result: Result<Option<Value>, RunError>)
    requires
        old(state).wf(),
    ensures
        final(state).wf(),
        run_outcome(result, final(state)@) == effect(
            statement@,
            old(state)@,
            fuel as nat,
            is_function,
        ),
    decreases fuel, 1nat, statement, 1nat,
{
    match statement {
        Statement::Assign(name, expression) => {
            match evaluate(expression, state, fuel) {
                Ok(value) => {
                    state.variables.insert(name.as_slice(), value);
                    Ok(None)
                },
                Err(error) => Err(error),
            }
        },
        Statement::Function(name, function) => {
            state.functions.insert(name.as_slice(), function);
            Ok(None)
        },
        Statement::If(condition, body) => {
            let test = match evaluate(condition, state, fuel) {
                Ok(value) => value,
                Err(error) => { return Err(error); },
            };
            match test {
                Value::Bool(true) => {
                    proof {
                        lemma_statement_views(body@);
                        assert(decreases_to!(*statement => statement->If_1));
                    }
                    run_statements(body, state, fuel, is_function)
                },
                Value::Bool(false) => Ok(None),
                _ => Err(RunError::Type),
            }
        },
        Statement::Return(expression) => {
            if is_function {
                match evaluate(expression, state, fuel) {
                    Ok(value) => Ok(Some(value)),
                    Err(error) => Err(error),
                }
            } else {
                Err(RunError::Structure)
            }
        },
        Statement::While(condition, body) => {
            proof {
                assert(decreases_to!(*statement => statement->While_1));
            }
            run_while(condition, body, state, fuel, is_function)
        },
    }
}

/// Runs `statements` in order, up to the first `return` or error.
#[verifier::loop_isolation(false)]
pub fn run_statements<'a>(
    statements: &'a Vec<Statement>,
    state: &mut State<'a>,
    fuel: u64,
    is_function: bool,
) -> (result: Result<Option<Value>, RunError>)
    requires
        old(state).wf(),
    ensures
        final(state).wf(),
        run_outcome(result, final(state)@) == execution(
            statement_views(statements@),
            statements@.len(),
            old(state)@,
            fuel as nat,
            is_function,
        ),
    decreases fuel, 1nat, statements, 3nat,
{
    let ghost entry = state@;
    let mut i: usize = 0;
    proof {
        lemma_statement_views(statements@);
    }
    while i < statements.len()
        invariant
            state.wf(),
            i <= statements.len(),
            statement_views(statements@).len() == statements@.len(),
            forall|j: int|
                0 <= j < statements@.len() ==> #[trigger] statement_views(statements@)[j]
                    == statements@[j]@,
            execution(statement_views(statements@), i as nat, entry, fuel as nat, is_function)
                == Ok::<(StateView, Flow), RunError>((state@, Flow::Continuing)),
        decreases statements.len() - i,
    {
        proof {
            assert(decreases_to!(*statements => statements@));
            assert(decreases_to!(statements@ => statements@[i as int]));
        }
        let ghost before = state@;
        let step = run_statement(&statements[i], state, fuel, is_function);
        proof {
            assert(execution(
                statement_views(statements@),
                (i + 1) as nat,
                entry,
                fuel as nat,
                is_function,
            ) == effect(statements@[i as int]@, before, fuel as nat, is_function));
        }
        match step {
            Ok(None) => {},
            Ok(Some(value)) => {
                proof {
                    lemma_execution_stops(
                        statement_views(statements@),
                        (i + 1) as nat,
                        statements@.len(),
                        entry,
                        fuel as nat,
                        is_function,
                    );
                }
                return Ok(Some(value));
            },
            Err(error) => {
                proof {
                    lemma_execution_stops(
                        statement_views(statements@),
                        (i + 1) as nat,
                        statements@.len(),
                        entry,
                        fuel as nat,
                        is_function,
                    );
                }
                return Err(error);
            },
        }
        i += 1;
    }
    Ok(None)
}

/// The model of what a run gave: the model of the final variables, or the
/// error.
pub open spec fn variables_result(result: Result<Bindings<Value>, RunError>) -> Result<
    Map<Seq<u8>, ValueView>,
    RunError,
> {
    match result {
        Ok(variables) => Ok(variables@),
        Err(error) => Err(error),
    }
}

/// Runs `program` from a fresh scope with `fuel` units of fuel, and gives its
/// final variables.
pub fn run_with_fuel(program: &Program, fuel: u64) -> (result: Result<Bindings<Value>, RunError>)
    ensures
        variables_result(result) == program_result(program@, fuel as nat),
        result matches Ok(variables) ==> variables.wf(),
{
    let mut state = State::new();
    match run_statements(&program.statements, &mut state, fuel, false) {
        Ok(_) => Ok(state.into_variables()),
        Err(error) => Err(error),
    }
}

/// Runs `program` from a fresh scope, with all the fuel there is, and gives
/// its final variables.
pub fn run(program: &Program) -> (result: Result<Bindings<Value>, RunError>)
    ensures
        variables_result(result) == program_result(program@, u64::MAX as nat),
        result matches Ok(variables) ==> variables.wf(),
{
    run_with_fuel(program, u64::MAX)
}

} // verus!
