//! Lexical tokens: kinds, source positions, and their canonical text.

use crate::render::{decimal, render_usize};
use vstd::prelude::*;
use vstd::string::StringExecFns;

verus! {

/// What a token is: punctuation, the `let` keyword, a name, a literal, the
/// end of input, or a character the lexer does not accept.
#[derive(Debug)]
pub enum TokenKind {
    LeftBracket,
    RightBracket,
    Lambda,
    Dot,
    Equal,
    Semicolon,
    Let,
    Identifier(String),
    Number(String),
    Character(char),
    Eof,
    InvalidCharacter(char),
}

/// The other name this crate's token kinds go by.
pub type TokenType = TokenKind;

/// A token kind with its text payloads abstracted to character sequences.
pub enum TokenKindView {
    LeftBracket,
    RightBracket,
    Lambda,
    Dot,
    Equal,
    Semicolon,
    Let,
    Identifier(Seq<char>),
    Number(Seq<char>),
    Character(char),
    Eof,
    InvalidCharacter(char),
}

impl View for TokenKind {
    type V = TokenKindView;

    open spec fn view(&self) -> TokenKindView {
        match self {
            TokenKind::LeftBracket => TokenKindView::LeftBracket,
            TokenKind::RightBracket => TokenKindView::RightBracket,
            TokenKind::Lambda => TokenKindView::Lambda,
            TokenKind::Dot => TokenKindView::Dot,
            TokenKind::Equal => TokenKindView::Equal,
            TokenKind::Semicolon => TokenKindView::Semicolon,
            TokenKind::Let => TokenKindView::Let,
            TokenKind::Identifier(s) => TokenKindView::Identifier(s@),
            TokenKind::Number(s) => TokenKindView::Number(s@),
            TokenKind::Character(c) => TokenKindView::Character(*c),
            TokenKind::Eof => TokenKindView::Eof,
            TokenKind::InvalidCharacter(c) => TokenKindView::InvalidCharacter(*c),
        }
    }
}

impl Clone for TokenKind {
    /// A clone is the same kind with the same text.
    fn clone(&self) -> (res: Self)
        ensures
            res@ == self@,
    {
        match self {
            TokenKind::LeftBracket => TokenKind::LeftBracket,
            TokenKind::RightBracket => TokenKind::RightBracket,
            TokenKind::Lambda => TokenKind::Lambda,
            TokenKind::Dot => TokenKind::Dot,
            TokenKind::Equal => TokenKind::Equal,
            TokenKind::Semicolon => TokenKind::Semicolon,
            TokenKind::Let => TokenKind::Let,
            TokenKind::Identifier(s) => TokenKind::Identifier(s.clone()),
            TokenKind::Number(s) => TokenKind::Number(s.clone()),
            TokenKind::Character(c) => TokenKind::Character(*c),
            TokenKind::Eof => TokenKind::Eof,
            TokenKind::InvalidCharacter(c) => TokenKind::InvalidCharacter(*c),
        }
    }
}

impl PartialEq for TokenKind {
    /// Two kinds are equal when they are the same kind with the same text.
    fn eq(&self, other: &TokenKind) -> (res: bool) {
        match (self, other) {
            (TokenKind::LeftBracket, TokenKind::LeftBracket) => true,
            (TokenKind::RightBracket, TokenKind::RightBracket) => true,
            (TokenKind::Lambda, TokenKind::Lambda) => true,
            (TokenKind::Dot, TokenKind::Dot) => true,
            (TokenKind::Equal, TokenKind::Equal) => true,
            (TokenKind::Semicolon, TokenKind::Semicolon) => true,
            (TokenKind::Let, TokenKind::Let) => true,
            (TokenKind::Identifier(a), TokenKind::Identifier(b)) => a.eq(b),
            (TokenKind::Number(a), TokenKind::Number(b)) => a.eq(b),
            (TokenKind::Character(a), TokenKind::Character(b)) => a == b,
            (TokenKind::Eof, TokenKind::Eof) => true,
            (TokenKind::InvalidCharacter(a), TokenKind::InvalidCharacter(b)) => a == b,
            _ => false,
        }
    }
}

impl vstd::std_specs::cmp::PartialEqSpecImpl for TokenKind {
    open spec fn obeys_eq_spec() -> bool {
        true
    }

    open spec fn eq_spec(&self, other: &TokenKind) -> bool {
        self@ == other@
    }
}

/// The canonical text of a token kind: punctuation quoted, names and
/// numbers double-quoted, characters single-quoted.
pub open spec fn kind_text(k: TokenKindView) -> Seq<char> {
    match k {
        TokenKindView::LeftBracket => "'('"@,
        TokenKindView::RightBracket => "')'"@,
        TokenKindView::Lambda => "'\\'"@,
        TokenKindView::Dot => "'.'"@,
        TokenKindView::Equal => "'='"@,
        TokenKindView::Semicolon => "';'"@,
        TokenKindView::Let => "'let'"@,
        TokenKindView::Identifier(s) => "\""@ + s + "\""@,
        TokenKindView::Number(s) => "\""@ + s + "\""@,
        TokenKindView::Character(c) => "'"@ + seq![c] + "'"@,
        TokenKindView::Eof => "EOF"@,
        TokenKindView::InvalidCharacter(c) => "'"@ + seq![c] + "'"@,
    }
}

impl TokenKind {
    /// The canonical text of this kind, per `kind_text`.
    pub fn render(&self) -> (res: String)
        ensures
            res@ == kind_text(self@),
    {
        match self {
            TokenKind::LeftBracket => "'('".to_owned(),
            TokenKind::RightBracket => "')'".to_owned(),
            TokenKind::Lambda => "'\\'".to_owned(),
            TokenKind::Dot => "'.'".to_owned(),
            TokenKind::Equal => "'='".to_owned(),
            TokenKind::Semicolon => "';'".to_owned(),
            TokenKind::Let => "'let'".to_owned(),
            TokenKind::Identifier(s) => {
                let mut out = "\"".to_owned();
                out.append(s.as_str());
                out.append("\"");
                out
            },
            TokenKind::Number(s) => {
                let mut out = "\"".to_owned();
                out.append(s.as_str());
                out.append("\"");
                out
            },
            TokenKind::Character(c) => {
                let mut out = "'".to_owned();
                out.append(char_text(*c).as_str());
                out.append("'");
                out
            },
            TokenKind::Eof => "EOF".to_owned(),
            TokenKind::InvalidCharacter(c) => {
                let mut out = "'".to_owned();
                out.append(char_text(*c).as_str());
                out.append("'");
                out
            },
        }
    }
}

/// The one-character string holding `c`.
fn char_text(c: char) -> (res: String)
    ensures
        res@ == seq![c],
{
    let mut out = String::new();
    crate::render::push_char(&mut out, c);
    proof {
        assert(Seq::<char>::empty().push(c) =~= seq![c]);
    }
    out
}

/// A token: its kind and the line and column it ended on.
#[derive(Debug)]
pub struct Token {
    pub token_type: TokenKind,
    pub line: usize,
    pub column: usize,
}

/// A token with its kind abstracted.
pub struct TokenView {
    pub token_type: TokenKindView,
    pub line: nat,
    pub column: nat,
}

impl View for Token {
    type V = TokenView;

    open spec fn view(&self) -> TokenView {
        TokenView { token_type: self.token_type@, line: self.line as nat, column: self.column as nat }
    }
}

impl Clone for Token {
    /// A clone is the same token: kind, line and column.
    fn clone(&self) -> (res: Self)
        ensures
            res@ == self@,
    {
        Token { token_type: self.token_type.clone(), line: self.line, column: self.column }
    }
}

impl PartialEq for Token {
    /// Two tokens are equal when kind, line and column all agree.
    fn eq(&self, other: &Token) -> (res: bool) {
        self.token_type == other.token_type && self.line == other.line && self.column
            == other.column
    }
}

impl vstd::std_specs::cmp::PartialEqSpecImpl for Token {
    open spec fn obeys_eq_spec() -> bool {
        true
    }

    open spec fn eq_spec(&self, other: &Token) -> bool {
        self@ == other@
    }
}

/// The canonical text of a token: its kind, then `(line:column)`.
pub open spec fn token_text(t: TokenView) -> Seq<char> {
    kind_text(t.token_type) + " ("@ + decimal(t.line) + ":"@ + decimal(t.column) + ")"@
}

impl Token {
    pub fn new(token_type: TokenKind, line: usize, column: usize) -> (res: Token)
        ensures
            res.token_type == token_type,
            res.line == line,
            res.column == column,
    {
        Token { token_type, line, column }
    }

    pub fn get_type(&self) -> (res: &TokenKind)
        ensures
            *res == self.token_type,
    {
        &self.token_type
    }

    pub fn line(&self) -> (res: usize)
        ensures
            res == self.line,
    {
        self.line
    }

    pub fn column(&self) -> (res: usize)
        ensures
            res == self.column,
    {
        self.column
    }

    /// The canonical text of this token, per `token_text`.
    pub fn render(&self) -> (res: String)
        ensures
            res@ == token_text(self@),
    {
        let mut out = self.token_type.render();
        out.append(" (");
        let line = render_usize(self.line);
        out.append(line.as_str());
        out.append(":");
        let column = render_usize(self.column);
        out.append(column.as_str());
        out.append(")");
        out
    }
}

} // verus!
