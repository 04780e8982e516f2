use clumsy::cst::{
    AbstractionExpression, ApplicationExpression, Expression, ExpressionStatement, Identifier,
    LetStatement, Number, Program, Statement, VariableExpression,
};
use clumsy::lexer::Lexer;
use clumsy::parser::{
    parse, parse_abstraction, parse_application, parse_expression, parse_let, parse_parameters,
};

#[test]
fn mod_test_parse_abstraction() {
    let result = parse_abstraction(&mut Lexer::new("\\x y. x"));
    let expected = Ok(AbstractionExpression::new(
        vec![Identifier::new("x"), Identifier::new("y")],
        Expression::Application(ApplicationExpression::new(vec![Expression::Variable(
            VariableExpression::new(Identifier::new("x")),
        )])),
    ));
    assert_eq!(expected, result);
}

#[test]
fn mod_test_parse_application() {
    let result = parse_application(&mut Lexer::new("x y z"));
    let expected = Ok(ApplicationExpression::new(vec![
        Expression::Variable(VariableExpression::new(Identifier::new("x"))),
        Expression::Variable(VariableExpression::new(Identifier::new("y"))),
        Expression::Variable(VariableExpression::new(Identifier::new("z"))),
    ]));
    assert_eq!(expected, result);
}

#[test]
fn mod_test_parse_paratemers() {
    let result = parse_parameters(&mut Lexer::new("x y z"));
    let expected = Ok(vec![
        Identifier::new("x"),
        Identifier::new("y"),
        Identifier::new("z"),
    ]);
    assert_eq!(expected, result);
}

#[test]
fn parser_test_parse_paratemers() {
    let result = parse_parameters(&mut Lexer::new("x y z"));
    let expected = Ok(vec![
        Identifier::new("x"),
        Identifier::new("y"),
        Identifier::new("z"),
    ]);
    assert_eq!(expected, result);
}

#[test]
fn abstraction() {
    let result = parse_abstraction(&mut Lexer::new("\\x y. x")).map(Expression::Abstraction);
    let expected = Ok(Expression::Abstraction(AbstractionExpression::new(
        vec![Identifier::new("x"), Identifier::new("y")],
        Expression::Application(ApplicationExpression::new(vec![Expression::Variable(
            VariableExpression::new(Identifier::new("x")),
        )])),
    )));
    assert_eq!(expected, result);
}

#[test]
fn application() {
    let result = parse_application(&mut Lexer::new("x y z")).map(Expression::Application);
    let expected = Ok(Expression::Application(ApplicationExpression::new(vec![
        Expression::Variable(VariableExpression::new(Identifier::new("x"))),
        Expression::Variable(VariableExpression::new(Identifier::new("y"))),
        Expression::Variable(VariableExpression::new(Identifier::new("z"))),
    ])));
    assert_eq!(expected, result);
}

#[test]
fn test_parse_let() {
    let result = parse_let(&mut Lexer::new("let x = y"));
    let expected = Ok(LetStatement::new(
        Identifier::new("x"),
        Expression::Application(ApplicationExpression::new(vec![Expression::Variable(
            VariableExpression::new(Identifier::new("y")),
        )])),
    ));
    assert_eq!(expected, result);
}

#[test]
fn parse_number_literal() {
    let result = parse_expression(&mut Lexer::new("f 42"));
    let expected = Ok(Expression::Application(ApplicationExpression::new(vec![
        Expression::Variable(VariableExpression::new(Identifier::new("f"))),
        Expression::Number(Number::new("42")),
    ])));
    assert_eq!(expected, result);
}

#[test]
fn parse_whole_program() {
    let result = parse(&mut Lexer::new("let id = \\x. x; id y;"));
    let expected = Ok(Program(vec![
        Statement::Let(LetStatement::new(
            Identifier::new("id"),
            Expression::Abstraction(AbstractionExpression::new(
                vec![Identifier::new("x")],
                Expression::Application(ApplicationExpression::new(vec![Expression::Variable(
                    VariableExpression::new(Identifier::new("x")),
                )])),
            )),
        )),
        Statement::Expression(ExpressionStatement::new(Expression::Application(
            ApplicationExpression::new(vec![
                Expression::Variable(VariableExpression::new(Identifier::new("id"))),
                Expression::Variable(VariableExpression::new(Identifier::new("y"))),
            ]),
        ))),
    ]));
    assert_eq!(expected, result);
}

#[test]
fn parse_rejects_stray_dot() {
    assert!(parse_expression(&mut Lexer::new(". x")).is_err());
}

#[test]
fn parse_rejects_missing_semicolon() {
    assert!(parse(&mut Lexer::new("x y")).is_err());
}

#[test]
fn parse_empty_source_is_empty_program() {
    assert_eq!(parse(&mut Lexer::new("")), Ok(Program(vec![])));
}

#[test]
fn parse_unclosed_parenthesis_fails() {
    assert!(parse_expression(&mut Lexer::new("(x")).is_err());
    assert!(parse_expression(&mut Lexer::new("(x y")).is_err());
}

#[test]
fn parse_abstraction_without_dot_fails() {
    assert!(parse_abstraction(&mut Lexer::new("\\x y x")).is_err());
}
