use clumsy::ast::{check_program, Expression};
use clumsy::cst::{
    AbstractionExpression, ApplicationExpression, Expression as CSTExpression, ExpressionStatement,
    Identifier, LetStatement, Number, Program, Statement, VariableExpression,
};
use clumsy::lexer::Lexer;
use clumsy::parser::parse;

fn variable(index: Option<usize>) -> Expression {
    Expression::Variable { index }
}

fn abstraction(expression: Expression) -> Expression {
    Expression::Abstraction {
        expression: Box::new(expression),
    }
}

fn application(applicand: Expression, argument: Expression) -> Expression {
    Expression::Application {
        applicand: Box::new(applicand),
        argument: Box::new(argument),
    }
}

fn run(source: &str) -> Expression {
    let program = parse(&mut Lexer::new(source)).unwrap();
    assert!(check_program(&program));
    Expression::from_cst_program(&program).evaluate(10_000).result
}

#[test]
fn mod_test_shift() {
    let expected = variable(Some(1));
    let result = variable(Some(0)).shifted(1, 0);
    assert_eq!(expected, result);

    let expected = variable(Some(0));
    let result = variable(Some(0)).shifted(1, 1);
    assert_eq!(expected, result);

    let expected = abstraction(variable(Some(2)));
    let result = abstraction(variable(Some(1))).shifted(1, 0);
    assert_eq!(expected, result);

    let expected = abstraction(variable(Some(0)));
    let result = abstraction(variable(Some(0))).shifted(1, 0);
    assert_eq!(expected, result);

    let expected = application(variable(Some(1)), variable(Some(2)));
    let result = application(variable(Some(0)), variable(Some(1))).shifted(1, 0);
    assert_eq!(expected, result);
}

#[test]
fn mod_test_substitute() {
    let expected = variable(None);
    let result = variable(Some(0)).substituted(0, variable(None));
    assert_eq!(expected, result);

    let expected = variable(Some(1));
    let result = variable(Some(1)).substituted(0, variable(None));
    assert_eq!(expected, result);

    let expected = abstraction(variable(None));
    let result = abstraction(variable(Some(1))).substituted(0, variable(None));
    assert_eq!(expected, result);

    let expected = abstraction(variable(Some(0)));
    let result = abstraction(variable(Some(0))).substituted(0, variable(None));
    assert_eq!(expected, result);

    let expected = application(variable(Some(0)), variable(None));
    let result =
        application(variable(Some(0)), variable(Some(1))).substituted(1, variable(None));
    assert_eq!(expected, result);
}

#[test]
fn shift_by_zero_is_identity() {
    let term = abstraction(application(variable(Some(0)), variable(Some(3))));
    assert_eq!(term.clone().shifted(0, 0), term);
    let term = application(variable(None), variable(Some(7)));
    assert_eq!(term.clone().shifted(0, 2), term);
}

#[test]
fn shift_composes() {
    let term = application(variable(Some(2)), abstraction(variable(Some(5))));
    let twice = term.clone().shifted(3, 1).shifted(2, 1);
    let once = term.shifted(5, 1);
    assert_eq!(twice, once);
}

#[test]
fn mod_translate_abstraction() {
    let result = Expression::from_cst_expression(
        &CSTExpression::Abstraction(AbstractionExpression::new(
            vec![Identifier::new("x"), Identifier::new("x")],
            CSTExpression::Variable(VariableExpression::new(Identifier::new("x"))),
        )),
        &mut Vec::new(),
    );
    let expected = abstraction(abstraction(variable(Some(0))));
    assert_eq!(expected, result);

    let b = Expression::from_cst_expression(
        &CSTExpression::Abstraction(AbstractionExpression::new(
            vec![Identifier::new("x")],
            CSTExpression::Application(ApplicationExpression::new(vec![
                CSTExpression::Abstraction(AbstractionExpression::new(
                    vec![Identifier::new("x")],
                    CSTExpression::Variable(VariableExpression::new(Identifier::new("x"))),
                )),
                CSTExpression::Variable(VariableExpression::new(Identifier::new("x"))),
            ])),
        )),
        &mut Vec::new(),
    );
    let expected = abstraction(application(
        abstraction(variable(Some(0))),
        variable(Some(0)),
    ));
    assert_eq!(expected, b);
}

#[test]
fn mod_translate_application() {
    let a = Expression::from_cst_expression(
        &CSTExpression::Application(ApplicationExpression::new(vec![
            CSTExpression::Variable(VariableExpression::new(Identifier::new("a"))),
            CSTExpression::Variable(VariableExpression::new(Identifier::new("b"))),
            CSTExpression::Variable(VariableExpression::new(Identifier::new("c"))),
        ])),
        &mut Vec::new(),
    );
    let expected = application(application(variable(None), variable(None)), variable(None));
    assert_eq!(expected, a);
}

#[test]
fn mod_translate_let_statement() {
    let expected = application(
        abstraction(variable(Some(0))),
        abstraction(variable(Some(0))),
    );
    let result = Expression::from_cst_program(&Program(vec![
        Statement::Let(LetStatement::new(
            Identifier::new("id"),
            CSTExpression::Abstraction(AbstractionExpression::new(
                vec![Identifier::new("x")],
                CSTExpression::Application(ApplicationExpression::new(vec![
                    CSTExpression::Variable(VariableExpression::new(Identifier::new("x"))),
                ])),
            )),
        )),
        Statement::Expression(ExpressionStatement::new(CSTExpression::Variable(
            VariableExpression::new(Identifier::new("id")),
        ))),
    ]));
    assert_eq!(expected, result);
}

#[test]
fn scope_shadowing_indexes_innermost_binder() {
    let program = parse(&mut Lexer::new("\\x. \\x. x;")).unwrap();
    assert!(check_program(&program));
    let result = Expression::from_cst_program(&program);
    assert_eq!(result, abstraction(abstraction(variable(Some(0)))));
}

#[test]
fn encoding_three_matches_resolved_numeral() {
    let encoded = Expression::from_number(&Number::new("3"));
    let program = parse(&mut Lexer::new("\\f x. f (f (f x));")).unwrap();
    assert!(check_program(&program));
    let resolved = Expression::from_cst_program(&program);
    assert_eq!(encoded, resolved);
}

#[test]
fn encoding_zero_and_characters() {
    let zero = Expression::from_number(&Number::new("0"));
    assert_eq!(zero, abstraction(abstraction(variable(Some(0)))));
    let a = Expression::from_character(&clumsy::cst::Character::new('a'));
    let ninety_seven = Expression::from_number(&Number::new("97"));
    assert_eq!(a, ninety_seven);
}

#[test]
fn beta_reduction_of_identity_application() {
    let result = run("(\\x. x) y;");
    assert_eq!(result, variable(None));
    assert_eq!(result.render(), "None");
}

#[test]
fn weak_head_normal_form_reduces_new_head() {
    // after the outer redex fires, the inner redex is the whole term and
    // reduces as well
    let result = run("(\\x. x) ((\\y. y) z);");
    assert_eq!(result, variable(None));
}

#[test]
fn weak_head_normal_form_keeps_argument_redexes() {
    // a stuck application never visits its argument, so the redex inside
    // the argument survives
    let result = run("c ((\\z. z) a);");
    assert_eq!(
        result,
        application(variable(None), application(abstraction(variable(Some(0))), variable(None)))
    );
}

#[test]
fn constant_function_discards_and_keeps_reducing() {
    // the first argument, an unreduced redex, becomes the whole term and
    // is then itself on the spine, so it reduces
    let result = run("(\\x. \\y. x) ((\\z. z) a) b;");
    assert_eq!(result, variable(None));
}

#[test]
fn evaluation_is_deterministic() {
    let source = "(\\n f x. n f (f x)) 3;";
    let program = parse(&mut Lexer::new(source)).unwrap();
    assert!(check_program(&program));
    let first = Expression::from_cst_program(&program).evaluate(10_000);
    let second = Expression::from_cst_program(&program).evaluate(10_000);
    assert_eq!(first.result, second.result);
    assert_eq!(first.steps, second.steps);
    assert!(first.normal_form);
}

#[test]
fn evaluation_runs_out_of_fuel_on_omega() {
    let source = "(\\x. x x) (\\x. x x);";
    let program = parse(&mut Lexer::new(source)).unwrap();
    assert!(check_program(&program));
    let outcome = Expression::from_cst_program(&program).evaluate(50);
    assert_eq!(outcome.steps, 50);
    assert!(!outcome.normal_form);
}

#[test]
fn church_arithmetic_evaluates() {
    // weak-head reduction applies the first numeral but leaves the inner
    // `3 f x` in argument position untouched
    let sum = run("(\\m n f x. m f (n f x)) 2 3 f x;");
    let church_three = abstraction(abstraction(application(
        variable(Some(1)),
        application(
            variable(Some(1)),
            application(variable(Some(1)), variable(Some(0))),
        ),
    )));
    let expected = application(
        variable(None),
        application(
            variable(None),
            application(application(church_three, variable(None)), variable(None)),
        ),
    );
    assert_eq!(sum, expected);

    let five = run("5 f x;");
    let mut spine = variable(None);
    for _ in 0..5 {
        spine = application(variable(None), spine);
    }
    assert_eq!(five, spine);
}

#[test]
fn renders_canonical_forms() {
    assert_eq!(abstraction(variable(Some(0))).render(), "\\ 0");
    assert_eq!(
        application(abstraction(variable(Some(0))), variable(None)).render(),
        "(\\ 0) None"
    );
    assert_eq!(
        application(
            application(variable(Some(1)), variable(Some(2))),
            abstraction(variable(Some(0))),
        )
        .render(),
        "1 2 (\\ 0)"
    );
    assert_eq!(
        application(variable(None), application(variable(None), variable(None))).render(),
        "None (None None)"
    );
}

#[test]
fn check_program_rejects_bad_programs() {
    let no_statements = Program(vec![]);
    assert!(!check_program(&no_statements));

    let trailing_let = Program(vec![Statement::Let(LetStatement::new(
        Identifier::new("x"),
        CSTExpression::Variable(VariableExpression::new(Identifier::new("y"))),
    ))]);
    assert!(!check_program(&trailing_let));

    let huge_number = Program(vec![Statement::Expression(ExpressionStatement::new(
        CSTExpression::Number(Number::new("99999999999999999999999999999999999999")),
    ))]);
    assert!(!check_program(&huge_number));

    let empty_application = Program(vec![Statement::Expression(ExpressionStatement::new(
        CSTExpression::Application(ApplicationExpression::new(vec![])),
    ))]);
    assert!(!check_program(&empty_application));
}
