//! The concrete syntax tree the parser produces: named variables,
//! multi-parameter abstraction sugar, application lists, numeric and
//! character literals, and `let` statements. The scope resolver turns this
//! tree into the nameless term representation.

use vstd::prelude::*;

verus! {

/// A binder or variable name.
#[derive(Debug, PartialEq)]
pub struct Identifier(pub String);

impl Identifier {
    pub fn new(value: &str) -> (res: Identifier)
        ensures
            res.0@ == value@,
    {
        Identifier(value.to_owned())
    }
}

impl View for Identifier {
    type V = Seq<char>;

    open spec fn view(&self) -> Seq<char> {
        self.0@
    }
}

impl DeepView for Identifier {
    type V = Seq<char>;

    open spec fn deep_view(&self) -> Seq<char> {
        self.0@
    }
}

impl Clone for Identifier {
    /// A clone carries the same name.
    fn clone(&self) -> (res: Self)
        ensures
            res.0@ == self.0@,
    {
        Identifier(self.0.clone())
    }
}

/// A non-negative decimal literal, kept as its digit text.
#[derive(Debug, PartialEq)]
pub struct Number(pub String);

impl Number {
    pub fn new(value: &str) -> (res: Number)
        ensures
            res.0@ == value@,
    {
        Number(value.to_owned())
    }
}

/// A single quoted character literal.
#[derive(Debug, PartialEq)]
pub struct Character(pub char);

impl Character {
    pub fn new(value: char) -> (res: Character)
        ensures
            res.0 == value,
    {
        Character(value)
    }
}

/// A variable occurrence, by name.
#[derive(Debug, PartialEq)]
pub struct VariableExpression {
    pub identifier: Identifier,
}

impl VariableExpression {
    pub fn new(identifier: Identifier) -> (res: VariableExpression)
        ensures
            res.identifier == identifier,
    {
        VariableExpression { identifier }
    }
}

/// An abstraction with the multi-parameter sugar still present:
/// `\x y. E` keeps both parameters and desugars during resolution.
#[derive(Debug, PartialEq)]
pub struct AbstractionExpression {
    pub parameters: Vec<Identifier>,
    pub expression: Box<Expression>,
}

impl AbstractionExpression {
    pub fn new(parameters: Vec<Identifier>, expression: Expression) -> (res: AbstractionExpression)
        ensures
            res.parameters == parameters,
            *res.expression == expression,
    {
        AbstractionExpression { parameters, expression: Box::new(expression) }
    }
}

/// A run of juxtaposed expressions; resolution folds it left-associatively
/// into nested binary applications.
#[derive(Debug, PartialEq)]
pub struct ApplicationExpression {
    pub expressions: Vec<Expression>,
}

impl ApplicationExpression {
    pub fn new(expressions: Vec<Expression>) -> (res: ApplicationExpression)
        ensures
            res.expressions == expressions,
    {
        ApplicationExpression { expressions }
    }
}

/// One parsed expression.
#[derive(Debug, PartialEq)]
pub enum Expression {
    Variable(VariableExpression),
    Abstraction(AbstractionExpression),
    Application(ApplicationExpression),
    Number(Number),
    Character(Character),
}

/// A parsed expression with its texts abstracted to character sequences.
pub enum ExpressionView {
    Variable(Seq<char>),
    Abstraction(Seq<Seq<char>>, Box<ExpressionView>),
    Application(Seq<ExpressionView>),
    Number(Seq<char>),
    Character(char),
}

/// The view of a parsed expression: names and digits become character
/// sequences, parameter and application lists become sequences of views.
pub open spec fn expression_view(e: Expression) -> ExpressionView
    decreases e,
{
    match e {
        Expression::Variable(v) => ExpressionView::Variable(v.identifier.0@),
        Expression::Abstraction(a) => ExpressionView::Abstraction(
            a.parameters.deep_view(),
            Box::new(expression_view(*a.expression)),
        ),
        Expression::Application(a) => ExpressionView::Application(
            Seq::new(
                a.expressions.len() as nat,
                |i: int|
                    if 0 <= i < a.expressions.len() {
                        expression_view(a.expressions[i])
                    } else {
                        ExpressionView::Variable(Seq::empty())
                    },
            ),
        ),
        Expression::Number(n) => ExpressionView::Number(n.0@),
        Expression::Character(c) => ExpressionView::Character(c.0),
    }
}

impl View for Expression {
    type V = ExpressionView;

    open spec fn view(&self) -> ExpressionView {
        expression_view(*self)
    }
}

impl DeepView for Expression {
    type V = ExpressionView;

    open spec fn deep_view(&self) -> ExpressionView {
        expression_view(*self)
    }
}

/// A bare expression standing as a statement.
#[derive(Debug, PartialEq)]
pub struct ExpressionStatement {
    pub expression: Expression,
}

impl ExpressionStatement {
    pub fn new(expression: Expression) -> (res: ExpressionStatement)
        ensures
            res.expression == expression,
    {
        ExpressionStatement { expression }
    }
}

/// `let x = E;`, sugar for applying an abstraction over `x` to `E`.
#[derive(Debug, PartialEq)]
pub struct LetStatement {
    pub variable: Identifier,
    pub expression: Box<Expression>,
}

impl LetStatement {
    pub fn new(variable: Identifier, expression: Expression) -> (res: LetStatement)
        ensures
            res.variable == variable,
            *res.expression == expression,
    {
        LetStatement { variable, expression: Box::new(expression) }
    }
}

/// One statement of a program.
#[derive(Debug, PartialEq)]
pub enum Statement {
    Expression(ExpressionStatement),
    Let(LetStatement),
}

/// A statement with its texts abstracted.
pub enum StatementView {
    Expression(ExpressionView),
    Let(Seq<char>, Box<ExpressionView>),
}

/// The view of a statement.
pub open spec fn statement_view(s: Statement) -> StatementView {
    match s {
        Statement::Expression(es) => StatementView::Expression(expression_view(es.expression)),
        Statement::Let(l) => StatementView::Let(
            l.variable.0@,
            Box::new(expression_view(*l.expression)),
        ),
    }
}

impl View for Statement {
    type V = StatementView;

    open spec fn view(&self) -> StatementView {
        statement_view(*self)
    }
}

impl DeepView for Statement {
    type V = StatementView;

    open spec fn deep_view(&self) -> StatementView {
        statement_view(*self)
    }
}

/// A whole source program: any number of `let` statements and expressions,
/// each ended by a semicolon.
#[derive(Debug, PartialEq)]
pub struct Program(pub Vec<Statement>);

impl View for Program {
    type V = Seq<StatementView>;

    open spec fn view(&self) -> Seq<StatementView> {
        Seq::new(self.0.len() as nat, |i: int| statement_view(self.0[i]))
    }
}

} // verus!
