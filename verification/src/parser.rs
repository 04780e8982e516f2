//! The recursive-descent grammar over the token stream: expressions are
//! abstractions (`\x y. E`), applications (juxtaposition, folded to the
//! left), parenthesized expressions, names, and literals; statements are
//! expressions or `let x = E`, each ended by a semicolon.

use crate::cst;
use crate::cst::{
    AbstractionExpression, ApplicationExpression, Character, Expression, ExpressionStatement,
    Identifier, LetStatement, Number, Program, Statement, VariableExpression,
};
use crate::lexer::{
    lemma_next_monotone, lemma_peek_monotone, lemma_wf_bounds, next_spec, peek_spec, remaining,
    Lexer, LexerView,
};
use crate::token::{Token, TokenKind, TokenKindView};
use vstd::prelude::*;
use vstd::string::StringExecFns;

verus! {

/// Whether a token may start an expression.
pub open spec fn starts_expression(k: TokenKindView) -> bool {
    match k {
        TokenKindView::Lambda => true,
        TokenKindView::LeftBracket => true,
        TokenKindView::Identifier(..) => true,
        TokenKindView::Number(..) => true,
        TokenKindView::Character(..) => true,
        _ => false,
    }
}

/// Whether a token may start a statement.
pub open spec fn starts_statement(k: TokenKindView) -> bool {
    starts_expression(k) || k is Let
}

/// A kind and its view are the same shape.
proof fn lemma_kind_shape(k: TokenKind)
    ensures
        k is LeftBracket <==> k@ is LeftBracket,
        k is RightBracket <==> k@ is RightBracket,
        k is Lambda <==> k@ is Lambda,
        k is Dot <==> k@ is Dot,
        k is Equal <==> k@ is Equal,
        k is Semicolon <==> k@ is Semicolon,
        k is Let <==> k@ is Let,
        k is Identifier <==> k@ is Identifier,
        k is Number <==> k@ is Number,
        k is Character <==> k@ is Character,
        k is Eof <==> k@ is Eof,
        k is InvalidCharacter <==> k@ is InvalidCharacter,
{
    match k {
        TokenKind::LeftBracket => {},
        TokenKind::RightBracket => {},
        TokenKind::Lambda => {},
        TokenKind::Dot => {},
        TokenKind::Equal => {},
        TokenKind::Semicolon => {},
        TokenKind::Let => {},
        TokenKind::Identifier(..) => {},
        TokenKind::Number(..) => {},
        TokenKind::Character(..) => {},
        TokenKind::Eof => {},
        TokenKind::InvalidCharacter(..) => {},
    }
}

/// A kind that is not an `Identifier` does not look like one through its
/// view either.
proof fn lemma_not_identifier(k: TokenKind)
    requires
        !(k matches TokenKind::Identifier(..)),
    ensures
        !(k@ matches TokenKindView::Identifier(..)),
{
    match k {
        TokenKind::LeftBracket => {},
        TokenKind::RightBracket => {},
        TokenKind::Lambda => {},
        TokenKind::Dot => {},
        TokenKind::Equal => {},
        TokenKind::Semicolon => {},
        TokenKind::Let => {},
        TokenKind::Identifier(..) => {},
        TokenKind::Number(..) => {},
        TokenKind::Character(..) => {},
        TokenKind::Eof => {},
        TokenKind::InvalidCharacter(..) => {},
    }
}

/// The view of an application node is the views of its parts.
proof fn lemma_application_view(a: cst::ApplicationExpression)
    ensures
        cst::expression_view(cst::Expression::Application(a)) == cst::ExpressionView::Application(
            a.expressions.deep_view(),
        ),
{
    assert(cst::expression_view(cst::Expression::Application(a))
        matches cst::ExpressionView::Application(items) && items =~= a.expressions.deep_view());
}

/// The error text `Expected <kind>, found <token>`.
fn expectation_error(expected: &TokenKind, found: &Token) -> (res: String) {
    let mut message = "Expected ".to_owned();
    let expected_text = expected.render();
    message.append(expected_text.as_str());
    message.append(", found ");
    let found_text = found.render();
    message.append(found_text.as_str());
    message
}

/// Consumes one token and demands that it be `expected`: any other token
/// is an error, with the stream left just past it.
pub fn expect(lexer: &mut Lexer, expected: &TokenKind) -> (res: Result<(), String>)
    requires
        old(lexer).wf(),
    ensures
        final(lexer).wf(),
        final(lexer)@ == next_spec(old(lexer)@).1,
        res is Ok <==> next_spec(old(lexer)@).0.token_type == expected@,
{
    let found = lexer.next();
    if found.get_type() == expected {
        Ok(())
    } else {
        Err(expectation_error(expected, &found))
    }
}

/// Consumes one token, which must be an identifier; returns its name.
pub fn parse_identifier(lexer: &mut Lexer) -> (res: Result<Identifier, String>)
    requires
        old(lexer).wf(),
    ensures
        final(lexer).wf(),
        final(lexer)@ == next_spec(old(lexer)@).1,
        match res {
            Ok(id) => next_spec(old(lexer)@).0.token_type == TokenKindView::Identifier(id.0@),
            Err(..) => !(next_spec(old(lexer)@).0.token_type matches TokenKindView::Identifier(..)),
        },
{
    let found = lexer.next();
    match found {
        Token { token_type: TokenKind::Identifier(name), .. } => Ok(Identifier(name)),
        found => {
            let mut message = "Expected identifier, found ".to_owned();
            let found_text = found.render();
            message.append(found_text.as_str());
            Err(message)
        },
    }
}

/// Consumes one token, which must be a number literal; returns its digits.
pub fn parse_number(lexer: &mut Lexer) -> (res: Result<Number, String>)
    requires
        old(lexer).wf(),
    ensures
        final(lexer).wf(),
        final(lexer)@ == next_spec(old(lexer)@).1,
        match res {
            Ok(n) => next_spec(old(lexer)@).0.token_type == TokenKindView::Number(n.0@),
            Err(..) => !(next_spec(old(lexer)@).0.token_type matches TokenKindView::Number(..)),
        },
{
    let found = lexer.next();
    match found {
        Token { token_type: TokenKind::Number(digits), .. } => Ok(Number(digits)),
        found => {
            let mut message = "Expected number, found ".to_owned();
            let found_text = found.render();
            message.append(found_text.as_str());
            Err(message)
        },
    }
}

/// Consumes one token, which must be a character literal.
pub fn parse_character(lexer: &mut Lexer) -> (res: Result<Character, String>)
    requires
        old(lexer).wf(),
    ensures
        final(lexer).wf(),
        final(lexer)@ == next_spec(old(lexer)@).1,
        match res {
            Ok(c) => next_spec(old(lexer)@).0.token_type == TokenKindView::Character(c.0),
            Err(..) => !(next_spec(old(lexer)@).0.token_type matches TokenKindView::Character(..)),
        },
{
    let found = lexer.next();
    match found {
        Token { token_type: TokenKind::Character(c), .. } => Ok(Character(c)),
        found => {
            let mut message = "Expected character, found ".to_owned();
            let found_text = found.render();
            message.append(found_text.as_str());
            Err(message)
        },
    }
}

/// The names of the identifier run at the front of the stream, and the
/// state after it (the token that ended the run is held as lookahead).
pub open spec fn parameters_spec(v: LexerView) -> (Seq<Seq<char>>, LexerView)
    decreases remaining(v),
        via parameters_spec_decreases
{
    if v.position <= v.text.len() {
        match next_spec(v).0.token_type {
            TokenKindView::Identifier(name) => {
                let (rest, after) = parameters_spec(next_spec(v).1);
                (seq![name] + rest, after)
            },
            _ => (Seq::empty(), peek_spec(v).1),
        }
    } else {
        (Seq::empty(), peek_spec(v).1)
    }
}

#[via_fn]
proof fn parameters_spec_decreases(v: LexerView) {
    if v.position <= v.text.len() {
        lemma_next_monotone(v);
    }
}

/// Reads the maximal run of identifiers: the parameter list of an
/// abstraction. Never fails; the token after the run stays unconsumed.
pub fn parse_parameters(lexer: &mut Lexer) -> (res: Result<Vec<Identifier>, String>)
    requires
        old(lexer).wf(),
    ensures
        final(lexer).wf(),
        final(lexer)@ == parameters_spec(old(lexer)@).1,
        res matches Ok(ids) && ids.deep_view() == parameters_spec(old(lexer)@).0,
{
    let ghost orig = lexer@;
    let mut parameters: Vec<Identifier> = Vec::new();
    proof {
        lemma_wf_bounds(*lexer);
    }
    loop
        invariant
            orig == old(lexer)@,
            lexer.wf(),
            lexer@.position <= lexer@.text.len(),
            parameters_spec(orig).0 == parameters.deep_view() + parameters_spec(lexer@).0,
            parameters_spec(orig).1 == parameters_spec(lexer@).1,
        decreases remaining(lexer@),
    {
        let ghost before = lexer@;
        let token = lexer.peek();
        proof {
            lemma_peek_monotone(before);
            lemma_next_monotone(before);
        }
        match token.get_type() {
            TokenKind::Identifier(..) => {},
            _ => {
                proof {
                    lemma_not_identifier(token.token_type);
                    assert(parameters.deep_view() + Seq::<Seq<char>>::empty() =~= parameters
                        .deep_view());
                }
                return Ok(parameters);
            },
        }
        let id = match parse_identifier(lexer) {
            Ok(id) => id,
            Err(message) => {
                return Err(message);
            },
        };
        proof {
            assert(next_spec(peek_spec(before).1).1 == next_spec(before).1);
            lemma_next_monotone(before);
        }
        let ghost name = id.0@;
        parameters.push(id);
        proof {
            assert(parameters.deep_view() =~= parameters.deep_view().subrange(
                0,
                parameters.deep_view().len() - 1,
            ) + seq![name]);
            assert((parameters.deep_view().subrange(0, parameters.deep_view().len() - 1) + seq![
                name,
            ]) + parameters_spec(lexer@).0 =~= parameters.deep_view().subrange(
                0,
                parameters.deep_view().len() - 1,
            ) + (seq![name] + parameters_spec(lexer@).0));
        }
    }
}

/// What parsing one expression yields: the view of the tree it builds (or
/// nothing, on a token stream the grammar refuses) and the lexer state
/// left behind. An expression is an abstraction after a lambda, an
/// application run after any other expression starter, and an error
/// otherwise.
pub open spec fn expression_spec(v: LexerView) -> (Option<cst::ExpressionView>, LexerView)
    decreases remaining(v), 4int,
        via expression_spec_decreases
{
    if v.position > v.text.len() {
        (None, v)
    } else {
        let upcoming = next_spec(v).0.token_type;
        if upcoming is Lambda {
            match abstraction_spec(peek_spec(v).1) {
                (Some((parameters, body)), after) => (
                    Some(cst::ExpressionView::Abstraction(parameters, Box::new(body))),
                    after,
                ),
                (None, after) => (None, after),
            }
        } else if starts_expression(upcoming) {
            match application_spec(peek_spec(v).1) {
                (Some(items), after) => (Some(cst::ExpressionView::Application(items)), after),
                (None, after) => (None, after),
            }
        } else {
            (None, peek_spec(v).1)
        }
    }
}

#[via_fn]
proof fn expression_spec_decreases(v: LexerView) {
    if v.position <= v.text.len() {
        lemma_peek_monotone(v);
    }
}

/// What parsing an abstraction yields: a lambda, the parameter run, a dot,
/// and a body expression.
pub open spec fn abstraction_spec(v: LexerView) -> (
    Option<(Seq<Seq<char>>, cst::ExpressionView)>,
    LexerView,
)
    decreases remaining(v), 0int,
{
    if v.position > v.text.len() {
        (None, v)
    } else {
        let lambda = next_spec(v).0.token_type;
        let after_lambda = next_spec(v).1;
        if !(lambda is Lambda) {
            (None, after_lambda)
        } else {
            let (parameters, after_parameters) = parameters_spec(after_lambda);
            let dot = next_spec(after_parameters).0.token_type;
            let after_dot = next_spec(after_parameters).1;
            if !(dot is Dot) {
                (None, after_dot)
            } else if remaining(after_dot) < remaining(v) {
                match expression_spec(after_dot) {
                    (Some(body), after) => (Some((parameters, body)), after),
                    (None, after) => (None, after),
                }
            } else {
                (None, after_dot)
            }
        }
    }
}

/// What parsing an application run yields: the expression views read until
/// a token that cannot start one.
pub open spec fn application_spec(v: LexerView) -> (Option<Seq<cst::ExpressionView>>, LexerView)
    decreases remaining(v), 3int,
{
    application_items_spec(v)
}

/// The elements of an application run, one at a time.
pub open spec fn application_items_spec(v: LexerView) -> (
    Option<Seq<cst::ExpressionView>>,
    LexerView,
)
    decreases remaining(v), 2int,
{
    if v.position > v.text.len() {
        (None, v)
    } else if !starts_expression(next_spec(v).0.token_type) {
        (Some(Seq::empty()), peek_spec(v).1)
    } else {
        match element_spec(v) {
            (Some(element), after_element) => {
                if remaining(after_element) < remaining(v) {
                    match application_items_spec(after_element) {
                        (Some(rest), after) => (Some(seq![element] + rest), after),
                        (None, after) => (None, after),
                    }
                } else {
                    (None, after_element)
                }
            },
            (None, after_element) => (None, after_element),
        }
    }
}

/// One element of an application run: a name, a literal, a parenthesized
/// expression, or an abstraction.
pub open spec fn element_spec(v: LexerView) -> (Option<cst::ExpressionView>, LexerView)
    decreases remaining(v), 1int,
        via element_spec_decreases
{
    if v.position > v.text.len() {
        (None, v)
    } else {
        let upcoming = next_spec(v).0.token_type;
        let after_token = next_spec(v).1;
        match upcoming {
            TokenKindView::Identifier(name) => (
                Some(cst::ExpressionView::Variable(name)),
                after_token,
            ),
            TokenKindView::Number(digits) => (
                Some(cst::ExpressionView::Number(digits)),
                after_token,
            ),
            TokenKindView::Character(c) => (Some(cst::ExpressionView::Character(c)), after_token),
            TokenKindView::LeftBracket => {
                match expression_spec(after_token) {
                    (Some(inner), after_inner) => {
                        let closing = next_spec(after_inner).0.token_type;
                        let after_closing = next_spec(after_inner).1;
                        if closing is RightBracket {
                            (Some(inner), after_closing)
                        } else {
                            (None, after_closing)
                        }
                    },
                    (None, after_inner) => (None, after_inner),
                }
            },
            TokenKindView::Lambda => {
                match abstraction_spec(peek_spec(v).1) {
                    (Some((parameters, body)), after) => (
                        Some(cst::ExpressionView::Abstraction(parameters, Box::new(body))),
                        after,
                    ),
                    (None, after) => (None, after),
                }
            },
            _ => (None, peek_spec(v).1),
        }
    }
}

#[via_fn]
proof fn element_spec_decreases(v: LexerView) {
    if v.position <= v.text.len() {
        lemma_next_monotone(v);
        lemma_peek_monotone(v);
    }
}

/// What parsing `let x = E` yields: the bound name and the bound
/// expression.
pub open spec fn let_spec(v: LexerView) -> (Option<(Seq<char>, cst::ExpressionView)>, LexerView)
    decreases remaining(v), 5int,
{
    if v.position > v.text.len() {
        (None, v)
    } else {
        let keyword = next_spec(v).0.token_type;
        let after_keyword = next_spec(v).1;
        if !(keyword is Let) {
            (None, after_keyword)
        } else {
            let name = next_spec(after_keyword).0.token_type;
            let after_name = next_spec(after_keyword).1;
            match name {
                TokenKindView::Identifier(bound) => {
                    let equals = next_spec(after_name).0.token_type;
                    let after_equals = next_spec(after_name).1;
                    if !(equals is Equal) {
                        (None, after_equals)
                    } else if remaining(after_equals) < remaining(v) {
                        match expression_spec(after_equals) {
                            (Some(body), after) => (Some((bound, body)), after),
                            (None, after) => (None, after),
                        }
                    } else {
                        (None, after_equals)
                    }
                },
                _ => (None, after_name),
            }
        }
    }
}

/// What parsing one statement yields: a `let` or an expression, ended by a
/// semicolon.
pub open spec fn statement_spec(v: LexerView) -> (Option<cst::StatementView>, LexerView)
    decreases remaining(v), 6int,
        via statement_spec_decreases
{
    if v.position > v.text.len() {
        (None, v)
    } else {
        let upcoming = next_spec(v).0.token_type;
        let body: (Option<cst::StatementView>, LexerView) = if upcoming is Let {
            match let_spec(peek_spec(v).1) {
                (Some((bound, expression)), after) => (
                    Some(cst::StatementView::Let(bound, Box::new(expression))),
                    after,
                ),
                (None, after) => (None, after),
            }
        } else if starts_expression(upcoming) {
            match expression_spec(peek_spec(v).1) {
                (Some(expression), after) => (
                    Some(cst::StatementView::Expression(expression)),
                    after,
                ),
                (None, after) => (None, after),
            }
        } else {
            (None, peek_spec(v).1)
        };
        match body {
            (Some(statement), after_body) => {
                let semicolon = next_spec(after_body).0.token_type;
                let after_semicolon = next_spec(after_body).1;
                if semicolon is Semicolon {
                    (Some(statement), after_semicolon)
                } else {
                    (None, after_semicolon)
                }
            },
            (None, after_body) => (None, after_body),
        }
    }
}

#[via_fn]
proof fn statement_spec_decreases(v: LexerView) {
    if v.position <= v.text.len() {
        lemma_peek_monotone(v);
    }
}

/// What parsing a whole program yields: statements read while a token that
/// can start one is in view; the ending token stays unconsumed.
pub open spec fn program_spec(v: LexerView) -> (Option<Seq<cst::StatementView>>, LexerView)
    decreases remaining(v), 7int,
        via program_spec_decreases
{
    if v.position > v.text.len() {
        (None, v)
    } else if !starts_statement(next_spec(v).0.token_type) {
        (Some(Seq::empty()), peek_spec(v).1)
    } else {
        match statement_spec(peek_spec(v).1) {
            (Some(statement), after_statement) => {
                if remaining(after_statement) < remaining(v) {
                    match program_spec(after_statement) {
                        (Some(rest), after) => (Some(seq![statement] + rest), after),
                        (None, after) => (None, after),
                    }
                } else {
                    (None, after_statement)
                }
            },
            (None, after_statement) => (None, after_statement),
        }
    }
}

#[via_fn]
proof fn program_spec_decreases(v: LexerView) {
    if v.position <= v.text.len() {
        lemma_peek_monotone(v);
    }
}

/// Reading the parameter run never raises the measure and never touches
/// the text.
proof fn lemma_parameters_monotone(v: LexerView)
    requires
        v.position <= v.text.len(),
    ensures
        remaining(parameters_spec(v).1) <= remaining(v),
        parameters_spec(v).1.position <= parameters_spec(v).1.text.len(),
        parameters_spec(v).1.text == v.text,
    decreases remaining(v),
{
    lemma_next_monotone(v);
    lemma_peek_monotone(v);
    match next_spec(v).0.token_type {
        TokenKindView::Identifier(name) => {
            lemma_parameters_monotone(next_spec(v).1);
        },
        _ => {},
    }
}

/// Parses one expression: an abstraction when the stream starts with a
/// lambda, otherwise an application run; any other leading token is an
/// error. On success at least one token was consumed.
pub fn parse_expression(lexer: &mut Lexer) -> (res: Result<Expression, String>)
    requires
        old(lexer).wf(),
    ensures
        final(lexer).wf(),
        final(lexer)@ == expression_spec(old(lexer)@).1,
        match res {
            Ok(e) => expression_spec(old(lexer)@).0 == Some(e@),
            Err(..) => expression_spec(old(lexer)@).0 is None,
        },
        final(lexer)@.text == old(lexer)@.text,
        remaining(final(lexer)@) <= remaining(old(lexer)@),
        res is Ok ==> remaining(final(lexer)@) < remaining(old(lexer)@),
        !starts_expression(next_spec(old(lexer)@).0.token_type) ==> res is Err,
    decreases remaining(old(lexer)@), 2int,
{
    let ghost before = lexer@;
    proof {
        lemma_wf_bounds(*lexer);
        lemma_peek_monotone(before);
        lemma_next_monotone(before);
    }
    let token = lexer.peek();
    proof {
        lemma_kind_shape(token.token_type);
    }
    match token.get_type() {
        TokenKind::Lambda => {
            proof {
                lemma_peek_monotone(peek_spec(before).1);
            }
            match parse_abstraction(lexer) {
                Ok(abstraction) => Ok(Expression::Abstraction(abstraction)),
                Err(message) => Err(message),
            }
        },
        TokenKind::LeftBracket | TokenKind::Identifier(..) | TokenKind::Number(..)
            | TokenKind::Character(..) => {
            match parse_application(lexer) {
                Ok(application) => {
                    proof {
                        lemma_application_view(application);
                    }
                    Ok(Expression::Application(application))
                },
                Err(message) => Err(message),
            }
        },
        _ => {
            let mut message = "Expected '\\', '(' or identifier, found ".to_owned();
            let found_text = token.render();
            message.append(found_text.as_str());
            Err(message)
        },
    }
}

/// Parses an abstraction: a lambda, its parameters, a dot, and its body.
/// On success at least one token was consumed.
pub fn parse_abstraction(lexer: &mut Lexer) -> (res: Result<AbstractionExpression, String>)
    requires
        old(lexer).wf(),
    ensures
        final(lexer).wf(),
        final(lexer)@ == abstraction_spec(old(lexer)@).1,
        match res {
            Ok(a) => abstraction_spec(old(lexer)@).0 == Some(
                (a.parameters.deep_view(), a.expression@),
            ),
            Err(..) => abstraction_spec(old(lexer)@).0 is None,
        },
        final(lexer)@.text == old(lexer)@.text,
        remaining(final(lexer)@) <= remaining(old(lexer)@),
        res is Ok ==> remaining(final(lexer)@) < remaining(old(lexer)@),
    decreases remaining(old(lexer)@), 0int,
{
    let ghost before = lexer@;
    proof {
        lemma_wf_bounds(*lexer);
        lemma_next_monotone(before);
    }
    match expect(lexer, &TokenKind::Lambda) {
        Ok(..) => {},
        Err(message) => {
            return Err(message);
        },
    }
    let ghost after_lambda = lexer@;
    proof {
        lemma_parameters_monotone(after_lambda);
    }
    let parameters = match parse_parameters(lexer) {
        Ok(parameters) => parameters,
        Err(message) => {
            return Err(message);
        },
    };
    let ghost after_parameters = lexer@;
    proof {
        lemma_next_monotone(after_parameters);
    }
    match expect(lexer, &TokenKind::Dot) {
        Ok(..) => {},
        Err(message) => {
            return Err(message);
        },
    }
    proof {
        // the lambda was consumed, so the body starts strictly further in
        assert(remaining(lexer@) < remaining(before));
    }
    let expression = match parse_expression(lexer) {
        Ok(expression) => expression,
        Err(message) => {
            return Err(message);
        },
    };
    Ok(AbstractionExpression::new(parameters, expression))
}

/// Parses an application run: names, literals, parenthesized expressions
/// and abstractions, juxtaposed until a token that cannot start one. The
/// run may be empty when nothing fits; when the stream starts with an
/// expression token, success carries at least one element and consumes at
/// least one token.
#[verifier::rlimit(60)]
pub fn parse_application(lexer: &mut Lexer) -> (res: Result<ApplicationExpression, String>)
    requires
        old(lexer).wf(),
    ensures
        final(lexer).wf(),
        final(lexer)@ == application_spec(old(lexer)@).1,
        match res {
            Ok(a) => application_spec(old(lexer)@).0 == Some(a.expressions.deep_view()),
            Err(..) => application_spec(old(lexer)@).0 is None,
        },
        final(lexer)@.text == old(lexer)@.text,
        remaining(final(lexer)@) <= remaining(old(lexer)@),
        res is Ok && starts_expression(next_spec(old(lexer)@).0.token_type) ==> remaining(
            final(lexer)@,
        ) < remaining(old(lexer)@),
        res matches Ok(a) ==> (starts_expression(next_spec(old(lexer)@).0.token_type)
            ==> a.expressions@.len() >= 1),
    decreases remaining(old(lexer)@), 1int,
{
    let ghost before = lexer@;
    proof {
        lemma_wf_bounds(*lexer);
    }
    let mut expressions: Vec<Expression> = Vec::new();
    let ghost first_starts = starts_expression(next_spec(before).0.token_type);
    proof {
        assert(expressions.deep_view() =~= Seq::<cst::ExpressionView>::empty());
        match application_items_spec(before).0 {
            Some(rest) => {
                assert(expressions.deep_view() + rest =~= rest);
            },
            None => {},
        }
    }
    loop
        invariant
            lexer.wf(),
            before == old(lexer)@,
            first_starts == starts_expression(next_spec(before).0.token_type),
            lexer@.text == before.text,
            remaining(lexer@) <= remaining(before),
            expressions@.len() == 0 ==> lexer@ == before,
            expressions@.len() >= 1 ==> remaining(lexer@) < remaining(before),
            application_items_spec(before).1 == application_items_spec(lexer@).1,
            application_items_spec(before).0 == (match application_items_spec(lexer@).0 {
                Some(rest) => Some(expressions.deep_view() + rest),
                None => None,
            }),
        decreases remaining(lexer@), 0int,
    {
        let ghost loop_start = lexer@;
        proof {
            lemma_wf_bounds(*lexer);
            lemma_peek_monotone(loop_start);
            lemma_next_monotone(loop_start);
        }
        let token = lexer.peek();
        proof {
            lemma_kind_shape(token.token_type);
        }
        let element = match token.get_type() {
            TokenKind::Identifier(..) => {
                match parse_identifier(lexer) {
                    Ok(identifier) => Expression::Variable(VariableExpression::new(identifier)),
                    Err(message) => {
                        proof {
                            assert(false);
                        }
                        return Err(message);
                    },
                }
            },
            TokenKind::Number(..) => {
                match parse_number(lexer) {
                    Ok(number) => Expression::Number(number),
                    Err(message) => {
                        proof {
                            assert(false);
                        }
                        return Err(message);
                    },
                }
            },
            TokenKind::Character(..) => {
                match parse_character(lexer) {
                    Ok(character) => Expression::Character(character),
                    Err(message) => {
                        proof {
                            assert(false);
                        }
                        return Err(message);
                    },
                }
            },
            TokenKind::LeftBracket => {
                match expect(lexer, &TokenKind::LeftBracket) {
                    Ok(..) => {},
                    Err(message) => {
                        proof {
                            assert(false);
                        }
                        return Err(message);
                    },
                }
                proof {
                    lemma_wf_bounds(*lexer);
                }
                let inner = match parse_expression(lexer) {
                    Ok(inner) => inner,
                    Err(message) => {
                        proof {
                            assert(element_spec(loop_start) == (
                                None::<cst::ExpressionView>,
                                lexer@,
                            ));
                            assert(application_items_spec(loop_start) == (
                                None::<Seq<cst::ExpressionView>>,
                                lexer@,
                            ));
                        }
                        return Err(message);
                    },
                };
                proof {
                    lemma_wf_bounds(*lexer);
                    lemma_next_monotone(lexer@);
                }
                match expect(lexer, &TokenKind::RightBracket) {
                    Ok(..) => {},
                    Err(message) => {
                        proof {
                            assert(element_spec(loop_start) == (
                                None::<cst::ExpressionView>,
                                lexer@,
                            ));
                            assert(application_items_spec(loop_start) == (
                                None::<Seq<cst::ExpressionView>>,
                                lexer@,
                            ));
                        }
                        return Err(message);
                    },
                }
                inner
            },
            TokenKind::Lambda => {
                proof {
                    lemma_peek_monotone(loop_start);
                }
                match parse_abstraction(lexer) {
                    Ok(abstraction) => Expression::Abstraction(abstraction),
                    Err(message) => {
                        proof {
                            assert(element_spec(loop_start) == (
                                None::<cst::ExpressionView>,
                                lexer@,
                            ));
                            assert(application_items_spec(loop_start) == (
                                None::<Seq<cst::ExpressionView>>,
                                lexer@,
                            ));
                        }
                        return Err(message);
                    },
                }
            },
            _ => {
                proof {
                    match application_items_spec(lexer@).0 {
                        Some(rest) => {
                            assert(expressions.deep_view() + rest =~= expressions.deep_view());
                        },
                        None => {},
                    }
                }
                return Ok(ApplicationExpression::new(expressions));
            },
        };
        proof {
            assert(element_spec(loop_start) == (Some(element@), lexer@));
            assert(remaining(lexer@) < remaining(loop_start));
            let continued = application_items_spec(lexer@);
            assert(application_items_spec(loop_start).1 == continued.1);
            match continued.0 {
                Some(rest) => {
                    assert(application_items_spec(loop_start).0 == Some(seq![element@] + rest));
                },
                None => {
                    assert(application_items_spec(loop_start).0 is None);
                },
            }
        }
        let ghost element_view = element@;
        expressions.push(element);
        proof {
            assert(expressions.deep_view() =~= expressions.deep_view().subrange(
                0,
                expressions.deep_view().len() - 1,
            ).push(element_view));
            match application_items_spec(lexer@).0 {
                Some(rest) => {
                    assert(expressions.deep_view() + rest =~= expressions.deep_view().subrange(
                        0,
                        expressions.deep_view().len() - 1,
                    ) + (seq![element_view] + rest));
                },
                None => {},
            }
        }
    }
}

/// Parses `let x = E`: the keyword, the bound name, an equals sign, and
/// the bound expression, per `let_spec`.
pub fn parse_let(lexer: &mut Lexer) -> (res: Result<LetStatement, String>)
    requires
        old(lexer).wf(),
    ensures
        final(lexer).wf(),
        final(lexer)@ == let_spec(old(lexer)@).1,
        match res {
            Ok(l) => let_spec(old(lexer)@).0 == Some((l.variable@, l.expression@)),
            Err(..) => let_spec(old(lexer)@).0 is None,
        },
        final(lexer)@.text == old(lexer)@.text,
        remaining(final(lexer)@) <= remaining(old(lexer)@),
        res is Ok ==> remaining(final(lexer)@) < remaining(old(lexer)@),
{
    let ghost before = lexer@;
    proof {
        lemma_wf_bounds(*lexer);
        lemma_next_monotone(before);
    }
    match expect(lexer, &TokenKind::Let) {
        Ok(..) => {},
        Err(message) => {
            return Err(message);
        },
    }
    proof {
        lemma_wf_bounds(*lexer);
        lemma_next_monotone(lexer@);
    }
    let variable = match parse_identifier(lexer) {
        Ok(variable) => variable,
        Err(message) => {
            return Err(message);
        },
    };
    proof {
        lemma_wf_bounds(*lexer);
        lemma_next_monotone(lexer@);
    }
    match expect(lexer, &TokenKind::Equal) {
        Ok(..) => {},
        Err(message) => {
            return Err(message);
        },
    }
    proof {
        // the keyword was consumed, so the bound expression starts
        // strictly further in
        assert(remaining(lexer@) < remaining(before));
    }
    let expression = match parse_expression(lexer) {
        Ok(expression) => expression,
        Err(message) => {
            return Err(message);
        },
    };
    Ok(LetStatement::new(variable, expression))
}

/// Parses one statement: an expression or a `let`, ended by a semicolon,
/// per `statement_spec`.
pub fn parse_statement(lexer: &mut Lexer) -> (res: Result<Statement, String>)
    requires
        old(lexer).wf(),
    ensures
        final(lexer).wf(),
        final(lexer)@ == statement_spec(old(lexer)@).1,
        match res {
            Ok(st) => statement_spec(old(lexer)@).0 == Some(st@),
            Err(..) => statement_spec(old(lexer)@).0 is None,
        },
        final(lexer)@.text == old(lexer)@.text,
        remaining(final(lexer)@) <= remaining(old(lexer)@),
        res is Ok ==> remaining(final(lexer)@) < remaining(old(lexer)@),
        !starts_statement(next_spec(old(lexer)@).0.token_type) ==> res is Err,
{
    let ghost before = lexer@;
    proof {
        lemma_wf_bounds(*lexer);
        lemma_peek_monotone(before);
        lemma_next_monotone(before);
    }
    let token = lexer.peek();
    proof {
        lemma_kind_shape(token.token_type);
    }
    let statement = match token.get_type() {
        TokenKind::Let => {
            proof {
                lemma_peek_monotone(peek_spec(before).1);
            }
            match parse_let(lexer) {
                Ok(let_statement) => Statement::Let(let_statement),
                Err(message) => {
                    return Err(message);
                },
            }
        },
        TokenKind::Lambda | TokenKind::LeftBracket | TokenKind::Identifier(..)
            | TokenKind::Number(..) | TokenKind::Character(..) => {
            match parse_expression(lexer) {
                Ok(expression) => Statement::Expression(ExpressionStatement::new(expression)),
                Err(message) => {
                    return Err(message);
                },
            }
        },
        _ => {
            let mut message = "Expected '\\', '(', 'let' or identifier, found ".to_owned();
            let found_text = token.render();
            message.append(found_text.as_str());
            return Err(message);
        },
    };
    proof {
        lemma_wf_bounds(*lexer);
        lemma_next_monotone(lexer@);
    }
    match expect(lexer, &TokenKind::Semicolon) {
        Ok(..) => Ok(statement),
        Err(message) => Err(message),
    }
}

/// The view of a program is the views of its statements.
proof fn lemma_program_view(p: Program)
    ensures
        p@ == p.0.deep_view(),
{
    assert(p@ =~= p.0.deep_view());
}

/// Parses a whole program, per `program_spec`: statements while a token
/// that can start one is in view. A token that starts no statement (the
/// end of input included) ends the program without being consumed.
#[verifier::rlimit(60)]
pub fn parse(lexer: &mut Lexer) -> (res: Result<Program, String>)
    requires
        old(lexer).wf(),
    ensures
        final(lexer).wf(),
        final(lexer)@ == program_spec(old(lexer)@).1,
        match res {
            Ok(p) => program_spec(old(lexer)@).0 == Some(p@),
            Err(..) => program_spec(old(lexer)@).0 is None,
        },
        final(lexer)@.text == old(lexer)@.text,
        res is Ok ==> (final(lexer)@.peeked matches Some(t) && !starts_statement(t.token_type)),
{
    let ghost before = lexer@;
    let mut statements: Vec<Statement> = Vec::new();
    proof {
        lemma_wf_bounds(*lexer);
        assert(statements.deep_view() =~= Seq::<cst::StatementView>::empty());
        match program_spec(before).0 {
            Some(rest) => {
                assert(statements.deep_view() + rest =~= rest);
            },
            None => {},
        }
    }
    loop
        invariant
            lexer.wf(),
            before == old(lexer)@,
            lexer@.text == before.text,
            remaining(lexer@) <= remaining(before),
            program_spec(before).1 == program_spec(lexer@).1,
            program_spec(before).0 == (match program_spec(lexer@).0 {
                Some(rest) => Some(statements.deep_view() + rest),
                None => None,
            }),
        decreases remaining(lexer@), 0int,
    {
        let ghost loop_start = lexer@;
        proof {
            lemma_wf_bounds(*lexer);
            lemma_peek_monotone(loop_start);
        }
        let token = lexer.peek();
        proof {
            lemma_kind_shape(token.token_type);
        }
        let continue_parsing = match token.get_type() {
            TokenKind::Lambda | TokenKind::LeftBracket | TokenKind::Let | TokenKind::Identifier(..)
                | TokenKind::Number(..) | TokenKind::Character(..) => true,
            _ => false,
        };
        if !continue_parsing {
            let program = Program(statements);
            proof {
                lemma_program_view(program);
                match program_spec(lexer@).0 {
                    Some(rest) => {
                        assert(program.0.deep_view() + rest =~= program.0.deep_view());
                    },
                    None => {},
                }
            }
            return Ok(program);
        }
        let statement = match parse_statement(lexer) {
            Ok(statement) => statement,
            Err(message) => {
                return Err(message);
            },
        };
        proof {
            assert(statement_spec(peek_spec(loop_start).1) == (Some(statement@), lexer@));
            assert(remaining(lexer@) < remaining(loop_start));
            let continued = program_spec(lexer@);
            assert(program_spec(loop_start).1 == continued.1);
            match continued.0 {
                Some(rest) => {
                    assert(program_spec(loop_start).0 == Some(seq![statement@] + rest));
                },
                None => {
                    assert(program_spec(loop_start).0 is None);
                },
            }
        }
        let ghost statement_view = statement@;
        statements.push(statement);
        proof {
            assert(statements.deep_view() =~= statements.deep_view().subrange(
                0,
                statements.deep_view().len() - 1,
            ).push(statement_view));
            match program_spec(lexer@).0 {
                Some(rest) => {
                    assert(statements.deep_view() + rest =~= statements.deep_view().subrange(
                        0,
                        statements.deep_view().len() - 1,
                    ) + (seq![statement_view] + rest));
                },
                None => {},
            }
        }
    }
}

} // verus!
