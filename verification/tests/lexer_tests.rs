use clumsy::lexer::Lexer;
use clumsy::token::{Token, TokenKind, TokenType};

#[test]
fn lexer_lexer_test() {
    let mut lexer = Lexer::new("(\\foo\nbarBaz_2000'*'//@@@@\n.)42^");
    let results = vec![
        Token::new(TokenKind::LeftBracket, 0, 0),
        Token::new(TokenKind::Lambda, 0, 1),
        Token::new(TokenKind::Identifier("foo".to_owned()), 0, 4),
        Token::new(TokenKind::Identifier("barBaz_2000".to_owned()), 1, 10),
        Token::new(TokenKind::Character('*'), 1, 13),
        Token::new(TokenKind::Dot, 2, 0),
        Token::new(TokenKind::RightBracket, 2, 1),
        Token::new(TokenKind::Number("42".to_owned()), 2, 3),
        Token::new(TokenKind::InvalidCharacter('^'), 2, 4),
    ];
    for result in results {
        let expected = lexer.next();
        assert_eq!(expected, result);
    }
    assert_eq!(lexer.next().get_type(), &TokenKind::Eof);
}

#[test]
fn mod_lexer_test() {
    let mut lexer = Lexer::new("(\\foo\nbarBaz_2000//@@@@\n.)^");
    let mut results = vec![
        Token::new(TokenType::LeftBracket, 0, 0),
        Token::new(TokenType::Lambda, 0, 1),
        Token::new(TokenType::Identifier("foo".to_owned()), 0, 4),
        Token::new(TokenType::Identifier("barBaz_2000".to_owned()), 1, 10),
        Token::new(TokenType::Dot, 2, 0),
        Token::new(TokenType::RightBracket, 2, 1),
        Token::new(TokenType::InvalidCharacter('^'), 2, 2),
    ]
    .into_iter();
    loop {
        let expected = lexer.next();
        if expected.get_type() == &TokenType::Eof {
            break;
        }
        let result = results.next().unwrap();
        assert_eq!(expected, result);
    }
    assert!(results.next().is_none());
}

#[test]
fn tests_lexer_test() {
    assert_eq!(
        Lexer::new("x").next(),
        Token::new(TokenType::Identifier("x".to_owned()), 0, 0)
    );
    assert_eq!(
        Lexer::new("(").next(),
        Token::new(TokenType::LeftBracket, 0, 0)
    );
    assert_eq!(
        Lexer::new(")").next(),
        Token::new(TokenType::RightBracket, 0, 0)
    );
    assert_eq!(Lexer::new(".").next(), Token::new(TokenType::Dot, 0, 0));
    assert_eq!(Lexer::new("\\").next(), Token::new(TokenType::Lambda, 0, 0));
    assert_eq!(
        Lexer::new("?").next(),
        Token::new(TokenType::InvalidCharacter('?'), 0, 0)
    );
}

#[test]
fn token_test_token_display() {
    for (token, result) in &[
        (Token::new(TokenType::LeftBracket, 0, 0), "'('"),
        (Token::new(TokenType::RightBracket, 0, 0), "')'"),
        (Token::new(TokenType::Lambda, 0, 0), r"'\'"),
        (Token::new(TokenType::Dot, 0, 0), "'.'"),
        (Token::new(TokenType::Equal, 0, 0), "'='"),
        (Token::new(TokenType::Semicolon, 0, 0), "';'"),
        (Token::new(TokenType::Let, 0, 0), "'let'"),
        (
            Token::new(TokenType::Identifier("x".to_owned()), 0, 0),
            r#""x""#,
        ),
        (Token::new(TokenType::Eof, 0, 0), "EOF"),
        (Token::new(TokenType::InvalidCharacter('?'), 0, 0), "'?'"),
    ] {
        assert_eq!(token.render(), format!("{} (0:0)", result));
    }
}

#[test]
fn token_display_character_and_number() {
    assert_eq!(
        Token::new(TokenKind::Character('*'), 1, 13).render(),
        "'*' (1:13)"
    );
    assert_eq!(
        Token::new(TokenKind::Number("42".to_owned()), 2, 3).render(),
        "\"42\" (2:3)"
    );
}

#[test]
fn lexer_let_keyword_and_words() {
    let mut lexer = Lexer::new("let lettuce _x");
    assert_eq!(lexer.next(), Token::new(TokenKind::Let, 0, 2));
    assert_eq!(
        lexer.next(),
        Token::new(TokenKind::Identifier("lettuce".to_owned()), 0, 10)
    );
    assert_eq!(
        lexer.next(),
        Token::new(TokenKind::Identifier("_x".to_owned()), 0, 13)
    );
    assert_eq!(lexer.next().get_type(), &TokenKind::Eof);
}

#[test]
fn lexer_empty_source_is_eof() {
    let mut lexer = Lexer::new("");
    assert_eq!(lexer.next(), Token::new(TokenKind::Eof, 0, 0));
    assert_eq!(lexer.next().get_type(), &TokenKind::Eof);
}

#[test]
fn lexer_comment_without_newline_runs_to_eof() {
    let mut lexer = Lexer::new("x //trailing comment");
    assert_eq!(
        lexer.next(),
        Token::new(TokenKind::Identifier("x".to_owned()), 0, 0)
    );
    assert_eq!(lexer.next().get_type(), &TokenKind::Eof);
}

#[test]
fn lexer_single_slash_is_invalid() {
    let mut lexer = Lexer::new("/x");
    assert_eq!(lexer.next(), Token::new(TokenKind::InvalidCharacter('/'), 0, 0));
    assert_eq!(
        lexer.next(),
        Token::new(TokenKind::Identifier("x".to_owned()), 0, 1)
    );
}

#[test]
fn lexer_character_literals() {
    let mut lexer = Lexer::new("'a'");
    assert_eq!(lexer.next(), Token::new(TokenKind::Character('a'), 0, 2));
    let mut empty_quotes = Lexer::new("''");
    assert_eq!(
        empty_quotes.next(),
        Token::new(TokenKind::InvalidCharacter('\''), 0, 1)
    );
    let mut unclosed = Lexer::new("'ab");
    assert_eq!(
        unclosed.next(),
        Token::new(TokenKind::InvalidCharacter('b'), 0, 2)
    );
}

#[test]
fn lexer_character_literal_may_hold_a_newline() {
    let mut lexer = Lexer::new("'\n'");
    assert_eq!(lexer.next(), Token::new(TokenKind::Character('\n'), 1, 0));
    let mut unclosed = Lexer::new("'a\n");
    assert_eq!(
        unclosed.next(),
        Token::new(TokenKind::InvalidCharacter('\n'), 1, 0)
    );
}

#[test]
fn lexer_peek_does_not_consume() {
    let mut lexer = Lexer::new("x y");
    let peeked = lexer.peek();
    let taken = lexer.next();
    assert_eq!(peeked, taken);
    assert_eq!(
        lexer.next(),
        Token::new(TokenKind::Identifier("y".to_owned()), 0, 2)
    );
}
