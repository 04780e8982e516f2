use clumsy::ast;
use clumsy::cst::Program;
use clumsy::expression::{
    new_abstraction, new_application, new_variable, Abstraction, Application, Expression, Variable,
};
use clumsy::lexer::Lexer;
use clumsy::parser::parse;
use clumsy::translator::{encode, unlambda};

fn named_variable(index: Option<usize>, name: &str) -> Expression {
    Expression::Variable(Variable::new(index, name))
}

fn named_abstraction(name: &str, body: Expression) -> Expression {
    Expression::Abstraction(Abstraction::new(name, body))
}

fn named_application(callee: Expression, argument: Expression) -> Expression {
    Expression::Application(Application::new(callee, argument))
}

#[test]
fn tests_translate_abstraction() {
    let mut a = new_abstraction("x", new_abstraction("x", new_variable("x")));
    a.assign_indices(&mut Vec::new());
    let expected = named_abstraction(
        "x",
        named_abstraction("x", named_variable(Some(0), "x")),
    );
    assert_eq!(expected, a);
}

#[test]
fn expression_translate_abstraction() {
    let mut a = new_abstraction("x", new_abstraction("x", new_variable("x")));
    a.assign_indices(&mut Vec::new());
    let expected = named_abstraction(
        "x",
        named_abstraction("x", named_variable(Some(0), "x")),
    );
    assert_eq!(expected, a);

    let mut b = new_abstraction(
        "x",
        new_application(
            new_abstraction("x", new_variable("x")),
            new_variable("x"),
        ),
    );
    b.assign_indices(&mut Vec::new());
    let expected = named_abstraction(
        "x",
        named_application(
            named_abstraction("x", named_variable(Some(0), "x")),
            named_variable(Some(0), "x"),
        ),
    );
    assert_eq!(expected, b);
}

#[test]
fn expression_translate_application() {
    let mut a = new_application(
        new_application(new_variable("a"), new_variable("b")),
        new_variable("c"),
    );
    a.assign_indices(&mut Vec::new());
    let expected = named_application(
        named_application(
            named_variable(None, "a"),
            named_variable(None, "b"),
        ),
        named_variable(None, "c"),
    );
    assert_eq!(expected, a);
}

#[test]
fn expression_test_shift() {
    let expected = named_variable(Some(1), "x");
    let result = named_variable(Some(0), "x").shifted(1, 0);
    assert_eq!(expected, result);

    let expected = named_variable(Some(0), "x");
    let result = named_variable(Some(0), "x").shifted(1, 1);
    assert_eq!(expected, result);

    let expected = named_abstraction("x", named_variable(Some(2), "y"));
    let result = named_abstraction("x", named_variable(Some(1), "y")).shifted(1, 0);
    assert_eq!(expected, result);

    let expected = named_abstraction("x", named_variable(Some(0), "x"));
    let result = named_abstraction("x", named_variable(Some(0), "x")).shifted(1, 0);
    assert_eq!(expected, result);

    let expected = named_application(
        named_variable(Some(1), "x"),
        named_variable(Some(2), "y"),
    );
    let result = named_application(
        named_variable(Some(0), "x"),
        named_variable(Some(1), "y"),
    )
    .shifted(1, 0);
    assert_eq!(expected, result);
}

#[test]
fn expression_test_substitute() {
    let expected = named_variable(None, "a");
    let result = named_variable(Some(0), "x").substituted(0, named_variable(None, "a"));
    assert_eq!(expected, result);

    let expected = named_variable(Some(1), "x");
    let result = named_variable(Some(1), "x").substituted(0, named_variable(None, "a"));
    assert_eq!(expected, result);

    let expected = named_abstraction("x", named_variable(None, "a"));
    let result = named_abstraction("x", named_variable(Some(1), "y"))
        .substituted(0, named_variable(None, "a"));
    assert_eq!(expected, result);

    let expected = named_abstraction("x", named_variable(Some(0), "x"));
    let result = named_abstraction("x", named_variable(Some(0), "x"))
        .substituted(0, named_variable(None, "a"));
    assert_eq!(expected, result);

    let expected = named_application(
        named_variable(Some(0), "x"),
        named_variable(None, "a"),
    );
    let result = named_application(
        named_variable(Some(0), "x"),
        named_variable(Some(1), "y"),
    )
    .substituted(1, named_variable(None, "a"));
    assert_eq!(expected, result);
}

#[test]
fn variable_from_cst_resolves_against_scope() {
    let scopes = vec!["outer".to_owned(), "x".to_owned(), "inner".to_owned()];
    let occurrence = clumsy::cst::VariableExpression::new(clumsy::cst::Identifier::new("x"));
    let resolved = Variable::from_cst(&occurrence, &scopes);
    assert_eq!(resolved, Variable::new(Some(1), "x"));
    let free = clumsy::cst::VariableExpression::new(clumsy::cst::Identifier::new("q"));
    assert_eq!(Variable::from_cst(&free, &scopes), Variable::new(None, "q"));
}

#[test]
fn is_name_occurs_free_tracks_the_binder() {
    let used = Abstraction::new("x", named_variable(Some(0), "x"));
    assert!(used.is_name_occurs_free());
    let shadowed = Abstraction::new(
        "x",
        named_abstraction("x", named_variable(Some(0), "x")),
    );
    assert!(!shadowed.is_name_occurs_free());
    let free = Abstraction::new("x", named_variable(None, "y"));
    assert!(!free.is_name_occurs_free());
}

#[test]
fn translate_identity_gives_skk() {
    let mut identity = new_abstraction("x", new_variable("x"));
    identity.assign_indices(&mut Vec::new());
    let translated = encode(identity);
    assert_eq!(unlambda(&translated), "``skk");
}

#[test]
fn translate_eta_reduces_wrappers() {
    // \x. c x, with c free, eta-reduces to c rather than taking a k wrapper
    let mut wrapped = new_abstraction("x", new_application(new_variable("c"), new_variable("x")));
    wrapped.assign_indices(&mut Vec::new());
    assert_eq!(unlambda(&encode(wrapped)), "c");
}

#[test]
fn translate_constant_function_uses_k() {
    let mut constant = new_abstraction("x", new_abstraction("y", new_variable("x")));
    constant.assign_indices(&mut Vec::new());
    assert_eq!(unlambda(&encode(constant)), "k");
}

#[test]
fn translate_application_distributes_through_s() {
    // \x. x x needs the distribution rule on both sides
    let mut self_application =
        new_abstraction("x", new_application(new_variable("x"), new_variable("x")));
    self_application.assign_indices(&mut Vec::new());
    assert_eq!(unlambda(&encode(self_application)), "``s``skk``skk");
}

/// The source text of a combinator term, for feeding back to the parser.
fn combinator_source(e: &Expression) -> String {
    match e {
        Expression::Variable(v) => v.name.clone(),
        Expression::Application(a) => format!(
            "({} {})",
            combinator_source(&a.callee),
            combinator_source(&a.argument)
        ),
        Expression::Abstraction(_) => panic!("combinator terms hold no abstraction"),
    }
}

fn evaluate_source(source: &str) -> ast::Expression {
    let program: Program = parse(&mut Lexer::new(source)).unwrap();
    assert!(ast::check_program(&program));
    ast::Expression::from_cst_program(&program)
        .evaluate(100_000)
        .result
}

#[test]
fn combinator_round_trip_identity() {
    // evaluating t and reducing its combinator translation under the S and
    // K rules reach the same normal form
    let direct = evaluate_source("(\\x. x) y;");

    let mut named = new_application(
        new_abstraction("x", new_variable("x")),
        new_variable("y"),
    );
    named.assign_indices(&mut Vec::new());
    let translated = encode(named);
    let combinator_program = format!(
        "let s = \\a b c. a c (b c); let k = \\a b. a; {};",
        combinator_source(&translated)
    );
    let through_combinators = evaluate_source(&combinator_program);
    assert_eq!(direct, through_combinators);
}

#[test]
fn combinator_round_trip_constant() {
    let direct = evaluate_source("(\\x. \\y. x) p q;");

    let mut named = new_application(
        new_application(
            new_abstraction("x", new_abstraction("y", new_variable("x"))),
            new_variable("p"),
        ),
        new_variable("q"),
    );
    named.assign_indices(&mut Vec::new());
    let translated = encode(named);
    let combinator_program = format!(
        "let s = \\a b c. a c (b c); let k = \\a b. a; {};",
        combinator_source(&translated)
    );
    let through_combinators = evaluate_source(&combinator_program);
    assert_eq!(direct, through_combinators);
}
