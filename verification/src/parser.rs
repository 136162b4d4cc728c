//! The parser: from source text to a syntax tree.
//!
//! Each function reads what its counterpart in `grammar` describes, from the
//! bytes it is given, and hands back what it read with the bytes that remain.
//! Where the grammar tries alternatives that begin alike, the common
//! beginning is read once.

pub mod grammar;
pub mod progress;
pub mod tokens;

use crate::ast::{expression_views, lemma_expression_views, lemma_statement_views, name_views, statement_views};
use crate::ast::{BinaryOperator, Expression, Function, Literal, Program, Statement};
use crate::number::decimal::{from_decimal, is_digit};
use crate::parser::grammar::{is_name_byte, is_text_byte, ParseError};
use crate::parser::progress::{
    lemma_expression,
    lemma_leading_is,
    lemma_literals,
    lemma_name,
    lemma_operand,
    lemma_operator,
    lemma_primary,
    lemma_simple_statement,
    lemma_statement,
};
use vstd::prelude::*;
use vstd::slice::slice_to_vec;
use vstd::string::StringSliceAdditionalSpecFns;

verus! {

/// The model of what a parser gave: the model of what it read, with the bytes
/// that remain.
pub open spec fn parsed<T: View>(found: Option<(T, &[u8])>) -> Option<(T::V, Seq<u8>)> {
    match found {
        Some((value, rest)) => Some((value@, rest@)),
        None => None,
    }
}

/// Reads an identifier.
pub fn identifier<'a>(code: &'a [u8]) -> (found: Option<(Vec<u8>, &'a [u8])>)
    ensures
        parsed(found) == grammar::name(code@),
{
    match tokens::identifier_bytes(code) {
        Some((rest, taken)) => {
            proof {
                lemma_leading_is(code@, |byte: u8| is_name_byte(byte), taken@.len());
                assert(code@.take(taken@.len() as int) =~= taken@);
                assert(code@.skip(taken@.len() as int) =~= rest@);
            }
            Some((slice_to_vec(taken), rest))
        },
        None => {
            proof {
                lemma_leading_is(code@, |byte: u8| is_name_byte(byte), 0);
            }
            None
        },
    }
}

/// Reads a boolean literal.
pub fn literal_bool<'a>(code: &'a [u8]) -> (found: Option<(Literal, &'a [u8])>)
    ensures
        parsed(found) == grammar::boolean(code@),
{
    match tokens::tag(code, "true".as_bytes()) {
        Some(rest) => Some((Literal::Bool(true), rest)),
        None => match tokens::tag(code, "false".as_bytes()) {
            Some(rest) => Some((Literal::Bool(false), rest)),
            None => None,
        },
    }
}

/// Reads a number literal.
pub fn literal_number<'a>(code: &'a [u8]) -> (found: Option<(Literal, &'a [u8])>)
    ensures
        parsed(found) == grammar::number(code@),
{
    match tokens::digits(code) {
        Some((rest, taken)) => {
            proof {
                lemma_leading_is(code@, |byte: u8| is_digit(byte), taken@.len());
                assert(code@.take(taken@.len() as int) =~= taken@);
                assert(code@.skip(taken@.len() as int) =~= rest@);
            }
            Some((Literal::Number(from_decimal(taken)), rest))
        },
        None => {
            proof {
                lemma_leading_is(code@, |byte: u8| is_digit(byte), 0);
            }
            None
        },
    }
}

/// Reads a text literal.
pub fn literal_text<'a>(code: &'a [u8]) -> (found: Option<(Literal, &'a [u8])>)
    ensures
        parsed(found) == grammar::text(code@),
{
    let inner = match tokens::byte(code, 0x22) {
        Some(inner) => inner,
        None => { return None; },
    };
    proof {
        lemma_literals();
    }
    match tokens::until(inner, "\"".as_bytes()) {
        Some((rest, taken)) => {
            proof {
                assert(rest@[0] == seq![0x22u8][0]);
                assert forall|i: int| 0 <= i < taken@.len() implies is_text_byte(
                    #[trigger] inner@[i],
                ) by {
                    if inner@[i] == 0x22 {
                        assert(seq![0x22u8] =~= inner@.skip(i).subrange(0, 1));
                    }
                }
                assert(inner@[taken@.len() as int] == rest@[0]);
                lemma_leading_is(inner@, |byte: u8| is_text_byte(byte), taken@.len());
                assert(inner@.take(taken@.len() as int) =~= taken@);
                assert(inner@.skip(taken@.len() as int + 1) =~= rest@.skip(1));
            }
            match tokens::byte(rest, 0x22) {
                Some(end) => Some((Literal::Text(slice_to_vec(taken)), end)),
                None => None,
            }
        },
        None => {
            proof {
                assert forall|i: int| 0 <= i < inner@.len() implies is_text_byte(
                    #[trigger] inner@[i],
                ) by {
                    if inner@[i] == 0x22 {
                        assert(seq![0x22u8] =~= inner@.skip(i).subrange(0, 1));
                    }
                }
                lemma_leading_is(inner@, |byte: u8| is_text_byte(byte), inner@.len());
            }
            None
        },
    }
}

/// Reads a literal.
pub fn literal<'a>(code: &'a [u8]) -> (found: Option<(Literal, &'a [u8])>)
    ensures
        parsed(found) == grammar::literal(code@),
{
    match literal_bool(code) {
        Some(found) => Some(found),
        None => match literal_number(code) {
            Some(found) => Some(found),
            None => literal_text(code),
        },
    }
}

/// The model of what reading an operator gave.
pub open spec fn parsed_operator(found: Option<(BinaryOperator, &[u8])>) -> Option<
    (BinaryOperator, Seq<u8>),
> {
    match found {
        Some((op, rest)) => Some((op, rest@)),
        None => None,
    }
}

/// Reads the operator of a binary tier, without the spaces around it.
pub fn operator_token<'a>(code: &'a [u8], tier: u8) -> (found: Option<(BinaryOperator, &'a [u8])>)
    ensures
        parsed_operator(found) == grammar::operator_token(code@, tier as nat),
{
    if tier == 4 {
        match tokens::tag(code, "and".as_bytes()) {
            Some(rest) => Some((BinaryOperator::And, rest)),
            None => match tokens::tag(code, "or".as_bytes()) {
                Some(rest) => Some((BinaryOperator::Or, rest)),
                None => None,
            },
        }
    } else if tier == 3 {
        match tokens::tag(code, "==".as_bytes()) {
            Some(rest) => Some((BinaryOperator::Equal, rest)),
            None => match tokens::tag(code, "!=".as_bytes()) {
                Some(rest) => Some((BinaryOperator::NotEqual, rest)),
                None => None,
            },
        }
    } else if tier == 2 {
        match tokens::byte(code, 0x2a) {
            Some(rest) => Some((BinaryOperator::Multiply, rest)),
            None => match tokens::byte(code, 0x2f) {
                Some(rest) => Some((BinaryOperator::Divide, rest)),
                None => None,
            },
        }
    } else if tier == 1 {
        match tokens::byte(code, 0x2b) {
            Some(rest) => Some((BinaryOperator::Add, rest)),
            None => match tokens::byte(code, 0x2d) {
                Some(rest) => Some((BinaryOperator::Subtract, rest)),
                None => None,
            },
        }
    } else {
        None
    }
}

/// Reads the operator of a binary tier with the space before it and the space
/// after it.
pub fn operator<'a>(code: &'a [u8], tier: u8) -> (found: Option<(BinaryOperator, &'a [u8])>)
    ensures
        parsed_operator(found) == grammar::operator(code@, tier as nat),
{
    match tokens::byte(code, 0x20) {
        Some(inner) => match operator_token(inner, tier) {
            Some((op, rest)) => match tokens::byte(rest, 0x20) {
                Some(end) => Some((op, end)),
                None => None,
            },
            None => None,
        },
        None => None,
    }
}

/// Reads expressions separated by `, `.
pub fn elements<'a>(code: &'a [u8]) -> (found: (Vec<Expression>, &'a [u8]))
    ensures
        (expression_views(found.0@), found.1@) == grammar::elements(code@),
    decreases code@.len(), 14nat,
{
    let mut items: Vec<Expression> = Vec::new();
    let mut rest = code;
    proof {
        lemma_expression(code@);
        lemma_expression_views(items@);
    }
    match expression(code) {
        Some((first, next)) => {
            proof {
                lemma_expression_views(items@.push(first));
            }
            items.push(first);
            rest = next;
        },
        None => {
            proof {
                assert(expression_views(items@) =~= Seq::<crate::ast::ExpressionView>::empty());
            }
            return (items, code);
        },
    }
    loop
        invariant
            rest@.len() < code@.len(),
            grammar::elements(code@) == (
                expression_views(items@) + grammar::more_elements(rest@).0,
                grammar::more_elements(rest@).1,
            ),
        decreases rest@.len(),
    {
        let inner = match tokens::tag(rest, ", ".as_bytes()) {
            Some(inner) => inner,
            None => {
                proof {
                    assert(expression_views(items@) + Seq::<crate::ast::ExpressionView>::empty()
                        =~= expression_views(items@));
                }
                return (items, rest);
            },
        };
        proof {
            lemma_expression(inner@);
        }
        match expression(inner) {
            Some((next, after)) => {
                proof {
                    lemma_expression_views(items@);
                    lemma_expression_views(items@.push(next));
                    assert(expression_views(items@.push(next)) + grammar::more_elements(after@).0
                        =~= expression_views(items@) + (seq![next@] + grammar::more_elements(
                        after@,
                    ).0));
                }
                items.push(next);
                rest = after;
            },
            None => {
                proof {
                    assert(expression_views(items@) + Seq::<crate::ast::ExpressionView>::empty()
                        =~= expression_views(items@));
                }
                return (items, rest);
            },
        }
    }
}

/// Reads the arguments of a call.
pub fn call_arguments<'a>(code: &'a [u8]) -> (found: Option<(Vec<Expression>, &'a [u8])>)
    ensures
        match found {
            Some((items, rest)) => grammar::call_arguments(code@) == Some(
                (expression_views(items@), rest@),
            ),
            None => grammar::call_arguments(code@) is None,
        },
    decreases code@.len(), 0nat,
{
    match tokens::byte(code, 0x28) {
        Some(inner) => {
            let (items, rest) = elements(inner);
            match tokens::byte(rest, 0x29) {
                Some(end) => Some((items, end)),
                None => None,
            }
        },
        None => None,
    }
}

/// Reads an array literal.
pub fn array<'a>(code: &'a [u8]) -> (found: Option<(Expression, &'a [u8])>)
    ensures
        parsed(found) == grammar::array(code@),
    decreases code@.len(), 0nat,
{
    match tokens::byte(code, 0x5b) {
        Some(inner) => {
            let (items, rest) = elements(inner);
            match tokens::byte(rest, 0x5d) {
                Some(end) => Some((Expression::Array(items), end)),
                None => None,
            }
        },
        None => None,
    }
}

/// Reads a primary expression.
pub fn primary<'a>(code: &'a [u8]) -> (found: Option<(Expression, &'a [u8])>)
    ensures
        parsed(found) == grammar::primary(code@),
    decreases code@.len(), 1nat,
{
    match array(code) {
        Some(found) => Some(found),
        None => match literal(code) {
            Some((value, rest)) => Some((Expression::Literal(value), rest)),
            None => match identifier(code) {
                Some((variable, rest)) => Some((Expression::Variable(variable), rest)),
                None => None,
            },
        },
    }
}

/// Reads a postfix expression: the primary expression is read once, and what
/// follows it decides between the alternatives.
pub fn postfix<'a>(code: &'a [u8]) -> (found: Option<(Expression, &'a [u8])>)
    ensures
        parsed(found) == grammar::postfix(code@),
    decreases code@.len(), 3nat,
{
    proof {
        lemma_primary(code@);
        lemma_name(code@);
    }
    let (object, rest) = match primary(code) {
        Some(found) => found,
        None => { return None; },
    };
    match tokens::byte(rest, 0x2e) {
        Some(inner) => {
            proof {
                lemma_name(inner@);
            }
            match identifier(inner) {
                Some((member, after)) => {
                    return match call_arguments(after) {
                        Some((arguments, end)) => Some(
                            (Expression::MethodCall(Box::new(object), member, arguments), end),
                        ),
                        None => Some((Expression::Member(Box::new(object), member), after)),
                    };
                },
                None => {},
            }
        },
        None => {},
    }
    match tokens::byte(rest, 0x5b) {
        Some(inner) => match expression(inner) {
            Some((position, after)) => match tokens::byte(after, 0x5d) {
                Some(end) => {
                    return Some((Expression::Index(Box::new(object), Box::new(position)), end));
                },
                None => {},
            },
            None => {},
        },
        None => {},
    }
    match identifier(code) {
        Some((function, after)) => match call_arguments(after) {
            Some((arguments, end)) => {
                return Some((Expression::Call(function, arguments), end));
            },
            None => {},
        },
        None => {},
    }
    Some((object, rest))
}

/// Reads an expression of a binary tier: the left operand is read once, and
/// what follows it decides whether an operator is applied.
pub fn binary_expression<'a>(code: &'a [u8], tier: u8) -> (found: Option<(Expression, &'a [u8])>)
    ensures
        parsed(found) == grammar::operand(code@, tier as nat),
    decreases code@.len(), 2 * tier + 4,
{
    if tier == 0 {
        return postfix(code);
    }
    proof {
        lemma_operand(code@, (tier - 1) as nat);
        reveal_with_fuel(grammar::operand, 2);
        reveal_with_fuel(grammar::binary, 2);
    }
    let (lhs, rest) = match binary_expression(code, tier - 1) {
        Some(found) => found,
        None => { return None; },
    };
    match operator(rest, tier) {
        Some((op, inner)) => {
            proof {
                lemma_operator(rest@, tier as nat);
            }
            match binary_expression(inner, tier - 1) {
                Some((rhs, end)) => Some(
                    (Expression::BinaryOperator(Box::new(lhs), op, Box::new(rhs)), end),
                ),
                None => Some((lhs, rest)),
            }
        },
        None => Some((lhs, rest)),
    }
}

/// Reads an expression.
pub fn expression<'a>(code: &'a [u8]) -> (found: Option<(Expression, &'a [u8])>)
    ensures
        parsed(found) == grammar::expression(code@),
    decreases code@.len(), 13nat,
{
    binary_expression(code, 4)
}

/// Reads a `return` statement.
pub fn return_statement<'a>(code: &'a [u8]) -> (found: Option<(Statement, &'a [u8])>)
    ensures
        parsed(found) == grammar::return_statement(code@),
{
    match tokens::tag(code, "return ".as_bytes()) {
        Some(inner) => match expression(inner) {
            Some((value, rest)) => Some((Statement::Return(value), rest)),
            None => None,
        },
        None => None,
    }
}

/// Reads an assignment.
pub fn assign<'a>(code: &'a [u8]) -> (found: Option<(Statement, &'a [u8])>)
    ensures
        parsed(found) == grammar::assign(code@),
{
    match identifier(code) {
        Some((variable, rest)) => match tokens::tag(rest, " = ".as_bytes()) {
            Some(inner) => match expression(inner) {
                Some((value, end)) => Some((Statement::Assign(variable, value), end)),
                None => None,
            },
            None => None,
        },
        None => None,
    }
}

/// Reads a statement that may stand in a block.
pub fn simple_statement<'a>(code: &'a [u8]) -> (found: Option<(Statement, &'a [u8])>)
    ensures
        parsed(found) == grammar::simple_statement(code@),
{
    match return_statement(code) {
        Some(found) => Some(found),
        None => assign(code),
    }
}

/// Reads a block.
pub fn body<'a>(code: &'a [u8]) -> (found: (Vec<Statement>, &'a [u8]))
    ensures
        (statement_views(found.0@), found.1@) == grammar::body(code@),
{
    let mut items: Vec<Statement> = Vec::new();
    let mut rest = code;
    proof {
        lemma_statement_views(items@);
        assert(statement_views(items@) + grammar::body(code@).0 =~= grammar::body(code@).0);
    }
    loop
        invariant
            grammar::body(code@) == (
                statement_views(items@) + grammar::body(rest@).0,
                grammar::body(rest@).1,
            ),
        decreases rest@.len(),
    {
        let inner = match tokens::tag(rest, "\n    ".as_bytes()) {
            Some(inner) => inner,
            None => {
                proof {
                    assert(statement_views(items@) + Seq::<crate::ast::StatementView>::empty()
                        =~= statement_views(items@));
                }
                return (items, rest);
            },
        };
        proof {
            lemma_simple_statement(inner@);
        }
        match simple_statement(inner) {
            Some((next, after)) => {
                proof {
                    lemma_statement_views(items@);
                    lemma_statement_views(items@.push(next));
                    assert(statement_views(items@.push(next)) + grammar::body(after@).0
                        =~= statement_views(items@) + (seq![next@] + grammar::body(after@).0));
                }
                items.push(next);
                rest = after;
            },
            None => {
                proof {
                    assert(statement_views(items@) + Seq::<crate::ast::StatementView>::empty()
                        =~= statement_views(items@));
                }
                return (items, rest);
            },
        }
    }
}

/// Reads identifiers separated by `, `.
pub fn names<'a>(code: &'a [u8]) -> (found: (Vec<Vec<u8>>, &'a [u8]))
    ensures
        (name_views(found.0@), found.1@) == grammar::names(code@),
{
    let mut items: Vec<Vec<u8>> = Vec::new();
    let mut rest = code;
    proof {
        lemma_name(code@);
    }
    match identifier(code) {
        Some((first, next)) => {
            items.push(first);
            rest = next;
        },
        None => {
            proof {
                assert(name_views(items@) =~= Seq::<Seq<u8>>::empty());
            }
            return (items, code);
        },
    }
    proof {
        assert(name_views(items@) =~= seq![items@[0]@]);
    }
    loop
        invariant
            grammar::names(code@) == (
                name_views(items@) + grammar::more_names(rest@).0,
                grammar::more_names(rest@).1,
            ),
        decreases rest@.len(),
    {
        let inner = match tokens::tag(rest, ", ".as_bytes()) {
            Some(inner) => inner,
            None => {
                proof {
                    assert(name_views(items@) + Seq::<Seq<u8>>::empty() =~= name_views(items@));
                }
                return (items, rest);
            },
        };
        proof {
            lemma_name(inner@);
        }
        match identifier(inner) {
            Some((next, after)) => {
                proof {
                    assert(name_views(items@.push(next)) + grammar::more_names(after@).0
                        =~= name_views(items@) + (seq![next@] + grammar::more_names(after@).0));
                }
                items.push(next);
                rest = after;
            },
            None => {
                proof {
                    assert(name_views(items@) + Seq::<Seq<u8>>::empty() =~= name_views(items@));
                }
                return (items, rest);
            },
        }
    }
}

/// Reads a function definition.
pub fn function<'a>(code: &'a [u8]) -> (found: Option<(Statement, &'a [u8])>)
    ensures
        parsed(found) == grammar::function(code@),
{
    let inner = match tokens::tag(code, "func ".as_bytes()) {
        Some(inner) => inner,
        None => { return None; },
    };
    let (name, rest) = match identifier(inner) {
        Some(found) => found,
        None => { return None; },
    };
    let inner = match tokens::byte(rest, 0x28) {
        Some(inner) => inner,
        None => { return None; },
    };
    let (arguments, rest) = names(inner);
    let inner = match tokens::byte(rest, 0x29) {
        Some(inner) => inner,
        None => { return None; },
    };
    let (statements, end) = body(inner);
    Some((Statement::Function(name, Function { arguments, statements }), end))
}

/// Reads a loop.
pub fn while_loop<'a>(code: &'a [u8]) -> (found: Option<(Statement, &'a [u8])>)
    ensures
        parsed(found) == grammar::while_loop(code@),
{
    match tokens::tag(code, "while ".as_bytes()) {
        Some(inner) => match expression(inner) {
            Some((condition, rest)) => {
                let (statements, end) = body(rest);
                Some((Statement::While(condition, statements), end))
            },
            None => None,
        },
        None => None,
    }
}

/// Reads a conditional.
pub fn if_statement<'a>(code: &'a [u8]) -> (found: Option<(Statement, &'a [u8])>)
    ensures
        parsed(found) == grammar::if_statement(code@),
{
    match tokens::tag(code, "if ".as_bytes()) {
        Some(inner) => match expression(inner) {
            Some((condition, rest)) => {
                let (statements, end) = body(rest);
                Some((Statement::If(condition, statements), end))
            },
            None => None,
        },
        None => None,
    }
}

/// Reads a statement.
pub fn statement<'a>(code: &'a [u8]) -> (found: Option<(Statement, &'a [u8])>)
    ensures
        parsed(found) == grammar::statement(code@),
{
    match function(code) {
        Some(found) => Some(found),
        None => match while_loop(code) {
            Some(found) => Some(found),
            None => match if_statement(code) {
                Some(found) => Some(found),
                None => simple_statement(code),
            },
        },
    }
}

/// The model of what parsing a program gave.
pub open spec fn parsed_program(result: Result<Program, ParseError>) -> Result<
    crate::ast::ProgramView,
    ParseError,
> {
    match result {
        Ok(program) => Ok(program@),
        Err(error) => Err(error),
    }
}

/// The statements of `done`, before what `rest` gave.
pub open spec fn following(
    done: Seq<crate::ast::StatementView>,
    rest: Result<(Seq<crate::ast::StatementView>, Seq<u8>), Seq<u8>>,
) -> Result<(Seq<crate::ast::StatementView>, Seq<u8>), Seq<u8>> {
    match rest {
        Ok((others, end)) => Ok((done + others, end)),
        Err(place) => Err(place),
    }
}

/// One statement more in front of a result is one statement more behind
/// those that are done.
pub proof fn lemma_following(
    done: Seq<crate::ast::StatementView>,
    next: crate::ast::StatementView,
    rest: Result<(Seq<crate::ast::StatementView>, Seq<u8>), Seq<u8>>,
)
    ensures
        following(done, following(seq![next], rest)) == following(done.push(next), rest),
{
    match rest {
        Ok((others, end)) => {
            assert(done + (seq![next] + others) =~= done.push(next) + others);
        },
        Err(_) => {},
    }
}

/// Reads a program from its bytes.
pub fn program(code: &[u8]) -> (result: Result<Program, ParseError>)
    ensures
        parsed_program(result) == grammar::program(code@),
        result matches Err(ParseError::Statement { position }) ==> position <= code@.len(),
        result matches Err(ParseError::Trailing { position }) ==> 0 < position < code@.len(),
{
    let mut items: Vec<Statement> = Vec::new();
    let mut rest = code;
    proof {
        lemma_statement_views(items@);
        match grammar::statements(code@) {
            Ok((others, end)) => {
                assert(statement_views(items@) + others =~= others);
            },
            Err(_) => {},
        }
    }
    loop
        invariant
            rest@.len() <= code@.len(),
            grammar::statements(code@) == following(
                statement_views(items@),
                grammar::statements(rest@),
            ),
        decreases rest@.len(),
    {
        let ghost done = statement_views(items@);
        proof {
            lemma_statement(rest@);
        }
        match statement(rest) {
            Some((next, after)) => {
                proof {
                    lemma_statement_views(items@);
                    lemma_statement_views(items@.push(next));
                    assert(statement_views(items@.push(next)) =~= done.push(next@));
                }
                items.push(next);
                match tokens::byte(after, 0x0a) {
                    Some(inner) => {
                        proof {
                            assert(grammar::statements(rest@) == following(
                                seq![next@],
                                grammar::statements(inner@),
                            ));
                            lemma_following(done, next@, grammar::statements(inner@));
                        }
                        rest = inner;
                    },
                    None => {
                        proof {
                            assert(grammar::statements(rest@) == Ok::<
                                (Seq<crate::ast::StatementView>, Seq<u8>),
                                Seq<u8>,
                            >((seq![next@], after@)));
                            assert(done + seq![next@] =~= done.push(next@));
                        }
                        return if after.len() == 0 {
                            Ok(Program { statements: items })
                        } else {
                            Err(ParseError::Trailing { position: code.len() - after.len() })
                        };
                    },
                }
            },
            None => {
                return Err(ParseError::Statement { position: code.len() - rest.len() });
            },
        }
    }
}

/// Parses `code` into a program.
pub fn parse(code: &str) -> (result: Result<Program, ParseError>)
    ensures
        parsed_program(result) == grammar::program(code.spec_bytes()),
        result matches Err(ParseError::Statement { position }) ==> position <= code.spec_bytes().len(),
        result matches Err(ParseError::Trailing { position }) ==> 0 < position
            < code.spec_bytes().len(),
{
    program(code.as_bytes())
}

} // verus!
