//! The syntax tree, and the mathematical model of each of its node types.
//!
//! A tree owns its names and text as UTF-8 bytes. The model of a node (its
//! view) holds sequences where the node holds vectors; contracts are stated
//! over the models.

use crate::number::Number;
use vstd::prelude::*;

verus! {

/// The binary operators of the language.
#[derive(Debug, Clone, Copy, PartialEq, Eq, Structural)]
pub enum BinaryOperator {
    Add,
    Subtract,
    Multiply,
    Divide,
    Equal,
    NotEqual,
    And,
    Or,
}

/// A literal as written in the source.
#[derive(Debug)]
pub enum Literal {
    Bool(bool),
    Number(Number),
    Text(Vec<u8>),
}

/// An expression: a tree that gives a value when evaluated.
#[derive(Debug)]
pub enum Expression {
    Array(Vec<Expression>),
    BinaryOperator(Box<Expression>, BinaryOperator, Box<Expression>),
    Call(Vec<u8>, Vec<Expression>),
    Index(Box<Expression>, Box<Expression>),
    Literal(Literal),
    Member(Box<Expression>, Vec<u8>),
    MethodCall(Box<Expression>, Vec<u8>, Vec<Expression>),
    Variable(Vec<u8>),
}

/// One executable unit of a program.
#[derive(Debug)]
pub enum Statement {
    Assign(Vec<u8>, Expression),
    Function(Vec<u8>, Function),
    If(Expression, Vec<Statement>),
    Return(Expression),
    While(Expression, Vec<Statement>),
}

/// A function definition: parameter names in order, then the body.
#[derive(Debug)]
pub struct Function {
    pub arguments: Vec<Vec<u8>>,
    pub statements: Vec<Statement>,
}

/// A program: its top-level statements in order.
#[derive(Debug)]
pub struct Program {
    pub statements: Vec<Statement>,
}

/// Model of a [`Literal`].
pub enum LiteralView {
    Bool(bool),
    Number(Number),
    Text(Seq<u8>),
}

/// Model of an [`Expression`].
pub enum ExpressionView {
    Array(Seq<ExpressionView>),
    BinaryOperator(Box<ExpressionView>, BinaryOperator, Box<ExpressionView>),
    Call(Seq<u8>, Seq<ExpressionView>),
    Index(Box<ExpressionView>, Box<ExpressionView>),
    Literal(LiteralView),
    Member(Box<ExpressionView>, Seq<u8>),
    MethodCall(Box<ExpressionView>, Seq<u8>, Seq<ExpressionView>),
    Variable(Seq<u8>),
}

/// Model of a [`Statement`].
pub enum StatementView {
    Assign(Seq<u8>, ExpressionView),
    Function(Seq<u8>, FunctionView),
    If(ExpressionView, Seq<StatementView>),
    Return(ExpressionView),
    While(ExpressionView, Seq<StatementView>),
}

/// Model of a [`Function`].
pub struct FunctionView {
    pub arguments: Seq<Seq<u8>>,
    pub statements: Seq<StatementView>,
}

/// Model of a [`Program`].
pub struct ProgramView {
    pub statements: Seq<StatementView>,
}

impl View for Literal {
    type V = LiteralView;

    open spec fn view(&self) -> LiteralView {
        match self {
            Literal::Bool(value) => LiteralView::Bool(*value),
            Literal::Number(value) => LiteralView::Number(*value),
            Literal::Text(text) => LiteralView::Text(text@),
        }
    }
}

/// The models of a sequence of expressions, element by element.
pub open spec fn expression_views(items: Seq<Expression>) -> Seq<ExpressionView>
    decreases items, 0nat,
{
    Seq::new(
        items.len(),
        |i: int|
            if 0 <= i < items.len() {
                items[i]@
            } else {
                arbitrary()
            },
    )
}

/// The model of an expression, boxed to stand inside another's model.
pub open spec fn boxed_view(expression: Expression) -> Box<ExpressionView>
    decreases expression, 1nat,
{
    Box::new(expression.view())
}

impl View for Expression {
    type V = ExpressionView;

    open spec fn view(&self) -> ExpressionView
        decreases self, 0nat,
    {
        match self {
            Expression::Array(items) => ExpressionView::Array(expression_views(items@)),
            Expression::BinaryOperator(lhs, op, rhs) => ExpressionView::BinaryOperator(
                boxed_view(**lhs),
                *op,
                boxed_view(**rhs),
            ),
            Expression::Call(name, arguments) => ExpressionView::Call(
                name@,
                expression_views(arguments@),
            ),
            Expression::Index(array, index) => ExpressionView::Index(
                boxed_view(**array),
                boxed_view(**index),
            ),
            Expression::Literal(literal) => ExpressionView::Literal(literal@),
            Expression::Member(object, name) => ExpressionView::Member(boxed_view(**object), name@),
            Expression::MethodCall(object, name, arguments) => ExpressionView::MethodCall(
                boxed_view(**object),
                name@,
                expression_views(arguments@),
            ),
            Expression::Variable(name) => ExpressionView::Variable(name@),
        }
    }
}

/// The model of a sequence of expressions has their models at their places.
pub proof fn lemma_expression_views(items: Seq<Expression>)
    ensures
        expression_views(items).len() == items.len(),
        forall|i: int| 0 <= i < items.len() ==> #[trigger] expression_views(items)[i] == items[i]@,
{
}

/// The models of a sequence of statements, element by element.
pub open spec fn statement_views(items: Seq<Statement>) -> Seq<StatementView>
    decreases items,
{
    Seq::new(
        items.len(),
        |i: int|
            if 0 <= i < items.len() {
                items[i]@
            } else {
                arbitrary()
            },
    )
}

/// The model of a sequence of statements has their models at their places.
pub proof fn lemma_statement_views(items: Seq<Statement>)
    ensures
        statement_views(items).len() == items.len(),
        forall|i: int| 0 <= i < items.len() ==> #[trigger] statement_views(items)[i] == items[i]@,
{
}

/// The models of a sequence of names: each name's bytes.
pub open spec fn name_views(names: Seq<Vec<u8>>) -> Seq<Seq<u8>> {
    Seq::new(names.len(), |i: int| names[i]@)
}

impl View for Statement {
    type V = StatementView;

    open spec fn view(&self) -> StatementView
        decreases self,
    {
        match self {
            Statement::Assign(name, value) => StatementView::Assign(name@, value@),
            Statement::Function(name, function) => StatementView::Function(name@, function@),
            Statement::If(condition, body) => StatementView::If(
                condition@,
                statement_views(body@),
            ),
            Statement::Return(value) => StatementView::Return(value@),
            Statement::While(condition, body) => StatementView::While(
                condition@,
                statement_views(body@),
            ),
        }
    }
}

impl View for Function {
    type V = FunctionView;

    open spec fn view(&self) -> FunctionView
        decreases self,
    {
        FunctionView {
            arguments: name_views(self.arguments@),
            statements: statement_views(self.statements@),
        }
    }
}

impl View for Program {
    type V = ProgramView;

    open spec fn view(&self) -> ProgramView {
        ProgramView { statements: statement_views(self.statements@) }
    }
}

} // verus!
