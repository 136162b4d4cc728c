//! What holds of every run.

use crate::ast::{ExpressionView, ProgramView, StatementView};
use crate::number::{
    integer_part,
    is_nan,
    lemma_negative_names_no_place,
    magnitude,
    Number,
    EXPONENT_OF_ONE,
    LEADING_ONE,
    SIGN,
};
use crate::interpreter::semantics::{
    effect,
    evaluation,
    evaluations,
    execution,
    fresh_state,
    index_value,
    iteration,
    parameters,
    program_result,
    Flow,
    StateView,
};
use crate::interpreter::value::{RunError, ValueView};
use vstd::prelude::*;

verus! {

/// Whether `statement` assigns a literal or a variable to a name.
pub open spec fn is_plain_assignment(statement: StatementView) -> bool {
    statement matches StatementView::Assign(_, value) && (value is Literal || value is Variable)
}

/// Whether `program` consists of assignments of literals and variables only.
pub open spec fn is_plain(program: ProgramView) -> bool {
    forall|i: int|
        0 <= i < program.statements.len() ==> is_plain_assignment(#[trigger] program.statements[i])
}

/// The names that the first `count` of `statements` assign to.
pub open spec fn assigned_names(statements: Seq<StatementView>, count: nat) -> Set<Seq<u8>>
    decreases count,
{
    if count == 0 || count > statements.len() {
        Set::empty()
    } else {
        match statements[count - 1] {
            StatementView::Assign(name, _) => assigned_names(statements, (count - 1) as nat).insert(
                name,
            ),
            _ => assigned_names(statements, (count - 1) as nat),
        }
    }
}

/// However many statements are counted, they assign to finitely many names.
pub proof fn lemma_assigned_names_finite(statements: Seq<StatementView>, count: nat)
    ensures
        assigned_names(statements, count).finite(),
    decreases count,
{
    if count > 0 && count <= statements.len() {
        lemma_assigned_names_finite(statements, (count - 1) as nat);
    }
}

/// Assignments of literals and variables, if they all succeed, bind exactly
/// the names they assign to, define no function, and use no fuel.
pub proof fn lemma_plain_prefix(statements: Seq<StatementView>, count: nat, fuel: nat)
    requires
        count <= statements.len(),
        forall|i: int| 0 <= i < statements.len() ==> is_plain_assignment(#[trigger] statements[i]),
    ensures
        execution(statements, count, fresh_state(), fuel, false) == execution(
            statements,
            count,
            fresh_state(),
            0,
            false,
        ),
        match execution(statements, count, fresh_state(), fuel, false) {
            Ok((reached, flow)) => {
                &&& flow == Flow::Continuing
                &&& reached.functions == fresh_state().functions
                &&& reached.variables.dom() == assigned_names(statements, count)
            },
            Err(_) => true,
        },
    decreases count,
{
    if count > 0 {
        let before = (count - 1) as nat;
        lemma_plain_prefix(statements, before, fuel);
        let statement = statements[count - 1];
        assert(is_plain_assignment(statement));
        let with_fuel = execution(statements, before, fresh_state(), fuel, false);
        assert(execution(statements, count, fresh_state(), fuel, false) == match with_fuel {
            Ok((reached, Flow::Continuing)) => effect(statement, reached, fuel, false),
            Ok((reached, Flow::Returned(value))) => Ok((reached, Flow::Returned(value))),
            Err(error) => Err(error),
        });
        assert(execution(statements, count, fresh_state(), 0, false) == match with_fuel {
            Ok((reached, Flow::Continuing)) => effect(statement, reached, 0, false),
            Ok((reached, Flow::Returned(value))) => Ok((reached, Flow::Returned(value))),
            Err(error) => Err(error),
        });
        match with_fuel {
            Ok((reached, _)) => {
                match statement {
                    StatementView::Assign(name, value) => {
                        assert(evaluation(value, reached, fuel) == evaluation(value, reached, 0));
                        assert(effect(statement, reached, fuel, false) == effect(
                            statement,
                            reached,
                            0,
                            false,
                        ));
                        match evaluation(value, reached, fuel) {
                            Ok(found) => {
                                assert(reached.variables.insert(name, found).dom()
                                    =~= reached.variables.dom().insert(name));
                            },
                            Err(_) => {},
                        }
                    },
                    _ => {},
                }
            },
            Err(_) => {},
        }
    } else {
        assert(fresh_state().variables.dom() =~= Set::<Seq<u8>>::empty());
    }
}

/// A program of assignments of literals and variables, where it succeeds,
/// binds exactly the names it assigns to: its final variables are as many as
/// the distinct names assigned. Its result does not depend on the fuel.
pub proof fn lemma_plain_program_binds_assigned_names(program: ProgramView, fuel: nat)
    requires
        is_plain(program),
    ensures
        program_result(program, fuel) == program_result(program, 0),
        program_result(program, fuel) matches Ok(variables) ==> {
            &&& variables.dom() == assigned_names(program.statements, program.statements.len())
            &&& variables.dom().finite()
            &&& variables.dom().len() == assigned_names(
                program.statements,
                program.statements.len(),
            ).len()
        },
{
    lemma_plain_prefix(program.statements, program.statements.len(), fuel);
    lemma_assigned_names_finite(program.statements, program.statements.len());
}

/// Whether the statement at `position` assigns a literal, or a variable that
/// one of the statements before it assigns to.
pub open spec fn is_closed_assignment(statements: Seq<StatementView>, position: int) -> bool {
    match statements[position] {
        StatementView::Assign(_, ExpressionView::Literal(_)) => true,
        StatementView::Assign(_, ExpressionView::Variable(name)) => assigned_names(
            statements,
            position as nat,
        ).contains(name),
        _ => false,
    }
}

/// Whether `program` consists of assignments of literals and of variables
/// that were assigned before.
pub open spec fn is_closed(program: ProgramView) -> bool {
    forall|i: int|
        0 <= i < program.statements.len() ==> #[trigger] is_closed_assignment(
            program.statements,
            i,
        )
}

/// Assignments of literals and of variables that were assigned before all
/// succeed.
pub proof fn lemma_closed_prefix(statements: Seq<StatementView>, count: nat, fuel: nat)
    requires
        count <= statements.len(),
        forall|i: int| 0 <= i < statements.len() ==> #[trigger] is_closed_assignment(statements, i),
    ensures
        execution(statements, count, fresh_state(), fuel, false) matches Ok((reached, flow))
            && flow == Flow::Continuing && reached.variables.dom() == assigned_names(
            statements,
            count,
        ),
    decreases count,
{
    assert forall|i: int| 0 <= i < statements.len() implies is_plain_assignment(
        #[trigger] statements[i],
    ) by {
        assert(is_closed_assignment(statements, i));
    }
    lemma_plain_prefix(statements, count, fuel);
    if count > 0 {
        let before = (count - 1) as nat;
        lemma_closed_prefix(statements, before, fuel);
        let statement = statements[count - 1];
        assert(is_closed_assignment(statements, count - 1));
        let reached = execution(statements, before, fresh_state(), fuel, false)->Ok_0.0;
        assert(execution(statements, count, fresh_state(), fuel, false) == effect(
            statement,
            reached,
            fuel,
            false,
        ));
        match statement {
            StatementView::Assign(name, value) => {
                assert(evaluation(value, reached, fuel) is Ok);
            },
            _ => {},
        }
    }
}

/// A program of assignments of literals and of variables that were assigned
/// before succeeds, whatever the fuel, and its final variables are exactly
/// the names it assigns to: as many as the distinct names assigned.
pub proof fn lemma_closed_program_succeeds(program: ProgramView, fuel: nat)
    requires
        is_closed(program),
    ensures
        program_result(program, fuel) matches Ok(variables) && variables.dom() == assigned_names(
            program.statements,
            program.statements.len(),
        ) && variables.dom().finite() && variables.dom().len() == assigned_names(
            program.statements,
            program.statements.len(),
        ).len(),
{
    lemma_closed_prefix(program.statements, program.statements.len(), fuel);
    lemma_assigned_names_finite(program.statements, program.statements.len());
}

/// An array gives an element only where the integer part of the index is a
/// position in it, and then the element at that position. Every other number
/// gives a bounds error: one whose integer part is negative, one whose
/// integer part is the length or more, and one that has no integer part.
pub proof fn lemma_index_within_bounds_only(items: Seq<ValueView>, index: Number)
    ensures
        match integer_part(index.bits) {
            Some(part) => if 0 <= part < items.len() {
                index_value(ValueView::Array(items), ValueView::Number(index)) == Ok::<
                    ValueView,
                    RunError,
                >(items[part])
            } else {
                index_value(ValueView::Array(items), ValueView::Number(index)) == Err::<
                    ValueView,
                    RunError,
                >(RunError::Bounds)
            },
            None => index_value(ValueView::Array(items), ValueView::Number(index)) == Err::<
                ValueView,
                RunError,
            >(RunError::Bounds),
        },
{
}

/// An array indexed by a number of minus one or less gives a bounds error.
pub proof fn lemma_negative_index_is_out_of_bounds(items: Seq<ValueView>, index: Number)
    requires
        index.bits >= SIGN,
        !is_nan(index.bits),
        magnitude(index.bits) / LEADING_ONE >= EXPONENT_OF_ONE,
    ensures
        index_value(ValueView::Array(items), ValueView::Number(index)) == Err::<
            ValueView,
            RunError,
        >(RunError::Bounds),
{
    lemma_negative_names_no_place(index.bits);
}

/// Running a program is deterministic: two runs of one program with the same
/// fuel, each from a fresh scope, end alike.
pub proof fn lemma_runs_agree(
    program: ProgramView,
    fuel: nat,
    first: Result<Map<Seq<u8>, ValueView>, RunError>,
    second: Result<Map<Seq<u8>, ValueView>, RunError>,
)
    requires
        first == program_result(program, fuel),
        second == program_result(program, fuel),
    ensures
        first == second,
{
}

/// More fuel changes the value of an expression only where the fuel had run
/// out.
pub proof fn lemma_evaluation_fuel(
    expression: ExpressionView,
    state: StateView,
    fuel: nat,
    more: nat,
)
    requires
        fuel <= more,
        evaluation(expression, state, fuel) != Err::<ValueView, RunError>(RunError::Limit),
    ensures
        evaluation(expression, state, more) == evaluation(expression, state, fuel),
    decreases fuel, 0nat, expression, 0nat,
{
    match expression {
        ExpressionView::Array(items) => {
            lemma_evaluations_fuel(items, items.len(), state, fuel, more);
        },
        ExpressionView::BinaryOperator(lhs, _, rhs) => {
            lemma_evaluation_fuel(*lhs, state, fuel, more);
            if evaluation(*lhs, state, fuel) is Ok {
                lemma_evaluation_fuel(*rhs, state, fuel, more);
            }
        },
        ExpressionView::Call(name, arguments) => {
            if state.functions.contains_key(name) && arguments.len()
                == state.functions[name].arguments.len() {
                lemma_evaluations_fuel(arguments, arguments.len(), state, fuel, more);
                if let Ok(values) = evaluations(arguments, arguments.len(), state, fuel) {
                    let function = state.functions[name];
                    let scope = StateView {
                        variables: parameters(function.arguments, values, values.len()),
                        functions: Map::empty(),
                    };
                    lemma_execution_fuel(
                        function.statements,
                        function.statements.len(),
                        scope,
                        (fuel - 1) as nat,
                        (more - 1) as nat,
                        true,
                    );
                }
            }
        },
        ExpressionView::Index(array, index) => {
            lemma_evaluation_fuel(*array, state, fuel, more);
            if evaluation(*array, state, fuel) is Ok {
                lemma_evaluation_fuel(*index, state, fuel, more);
            }
        },
        ExpressionView::Literal(_) => {},
        ExpressionView::Member(object, _) => {
            lemma_evaluation_fuel(*object, state, fuel, more);
        },
        ExpressionView::MethodCall(object, _, arguments) => {
            lemma_evaluation_fuel(*object, state, fuel, more);
            if evaluation(*object, state, fuel) is Ok {
                lemma_evaluations_fuel(arguments, arguments.len(), state, fuel, more);
            }
        },
        ExpressionView::Variable(_) => {},
    }
}

/// More fuel changes the values of a list of expressions only where the fuel
/// had run out.
pub proof fn lemma_evaluations_fuel(
    items: Seq<ExpressionView>,
    count: nat,
    state: StateView,
    fuel: nat,
    more: nat,
)
    requires
        fuel <= more,
        evaluations(items, count, state, fuel) != Err::<Seq<ValueView>, RunError>(RunError::Limit),
    ensures
        evaluations(items, count, state, more) == evaluations(items, count, state, fuel),
    decreases fuel, 0nat, items, count,
{
    if count > 0 && count <= items.len() {
        lemma_evaluations_fuel(items, (count - 1) as nat, state, fuel, more);
        if evaluations(items, (count - 1) as nat, state, fuel) is Ok {
            lemma_evaluation_fuel(items[count - 1], state, fuel, more);
        }
    }
}

/// More fuel changes what a statement does only where the fuel had run out.
pub proof fn lemma_effect_fuel(
    statement: StatementView,
    state: StateView,
    fuel: nat,
    more: nat,
    in_function: bool,
)
    requires
        fuel <= more,
        effect(statement, state, fuel, in_function) != Err::<(StateView, Flow), RunError>(
            RunError::Limit,
        ),
    ensures
        effect(statement, state, more, in_function) == effect(statement, state, fuel, in_function),
    decreases fuel, 1nat, statement, 1nat,
{
    match statement {
        StatementView::Assign(_, expression) => {
            lemma_evaluation_fuel(expression, state, fuel, more);
        },
        StatementView::Function(_, _) => {},
        StatementView::If(condition, body) => {
            lemma_evaluation_fuel(condition, state, fuel, more);
            if evaluation(condition, state, fuel) == Ok::<ValueView, RunError>(
                ValueView::Bool(true),
            ) {
                lemma_execution_fuel(body, body.len(), state, fuel, more, in_function);
            }
        },
        StatementView::Return(expression) => {
            if in_function {
                lemma_evaluation_fuel(expression, state, fuel, more);
            }
        },
        StatementView::While(condition, body) => {
            lemma_iteration_fuel(condition, body, state, fuel, more, in_function);
        },
    }
}

/// More fuel changes what statements do only where the fuel had run out.
pub proof fn lemma_execution_fuel(
    statements: Seq<StatementView>,
    count: nat,
    state: StateView,
    fuel: nat,
    more: nat,
    in_function: bool,
)
    requires
        fuel <= more,
        execution(statements, count, state, fuel, in_function) != Err::<
            (StateView, Flow),
            RunError,
        >(RunError::Limit),
    ensures
        execution(statements, count, state, more, in_function) == execution(
            statements,
            count,
            state,
            fuel,
            in_function,
        ),
    decreases fuel, 1nat, statements, count,
{
    if count > 0 && count <= statements.len() {
        lemma_execution_fuel(statements, (count - 1) as nat, state, fuel, more, in_function);
        if let Ok((reached, Flow::Continuing)) = execution(
            statements,
            (count - 1) as nat,
            state,
            fuel,
            in_function,
        ) {
            lemma_effect_fuel(statements[count - 1], reached, fuel, more, in_function);
        }
    }
}

/// More fuel changes what a loop does only where the fuel had run out.
pub proof fn lemma_iteration_fuel(
    condition: ExpressionView,
    body: Seq<StatementView>,
    state: StateView,
    fuel: nat,
    more: nat,
    in_function: bool,
)
    requires
        fuel <= more,
        iteration(condition, body, state, fuel, in_function) != Err::<(StateView, Flow), RunError>(
            RunError::Limit,
        ),
    ensures
        iteration(condition, body, state, more, in_function) == iteration(
            condition,
            body,
            state,
            fuel,
            in_function,
        ),
    decreases fuel, 1nat, StatementView::While(condition, body), 0nat,
{
    lemma_evaluation_fuel(condition, state, fuel, more);
    if evaluation(condition, state, fuel) == Ok::<ValueView, RunError>(ValueView::Bool(true)) {
        lemma_execution_fuel(
            body,
            body.len(),
            state,
            (fuel - 1) as nat,
            (more - 1) as nat,
            in_function,
        );
        if let Ok((reached, Flow::Continuing)) = execution(
            body,
            body.len(),
            state,
            (fuel - 1) as nat,
            in_function,
        ) {
            lemma_iteration_fuel(
                condition,
                body,
                reached,
                (fuel - 1) as nat,
                (more - 1) as nat,
                in_function,
            );
        }
    }
}

/// Where a run does not end for want of fuel, more fuel gives the same
/// result: fuel decides only whether a result is reached, never which.
pub proof fn lemma_program_fuel(program: ProgramView, fuel: nat, more: nat)
    requires
        fuel <= more,
        program_result(program, fuel) != Err::<Map<Seq<u8>, ValueView>, RunError>(RunError::Limit),
    ensures
        program_result(program, more) == program_result(program, fuel),
{
    lemma_execution_fuel(
        program.statements,
        program.statements.len(),
        fresh_state(),
        fuel,
        more,
        false,
    );
}

} // verus!
