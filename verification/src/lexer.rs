//! The lexer: a cursor over the source text that hands out one token at a
//! time, tracking the line and column each token ends on. Whitespace and
//! `//` comments are skipped; words, numbers and quoted characters are read
//! greedily; any other character becomes an `InvalidCharacter` token.

use crate::token::{Token, TokenKind, TokenKindView, TokenView};
use vstd::prelude::*;
use vstd::string::StrSliceExecFns;

verus! {

/// Whether `c` is ASCII whitespace.
pub open spec fn is_space(c: char) -> bool {
    c == ' ' || c == '\t' || c == '\n' || c == '\r' || c == '\x0c'
}

/// Whether `c` may start a word: an ASCII letter or an underscore.
pub open spec fn is_word_start(c: char) -> bool {
    ('a' <= c && c <= 'z') || ('A' <= c && c <= 'Z') || c == '_'
}

/// Whether `c` may continue a word: a letter, a digit or an underscore.
pub open spec fn is_word_char(c: char) -> bool {
    is_word_start(c) || ('0' <= c && c <= '9')
}

/// Whether `c` is a decimal digit.
pub open spec fn is_digit_char(c: char) -> bool {
    '0' <= c && c <= '9'
}

/// `n + 1`, stopped at `usize::MAX`: positions past the end of input keep
/// advancing the column counter, which must not leave `usize`.
pub open spec fn sat_inc(n: nat) -> nat {
    if n >= usize::MAX {
        usize::MAX as nat
    } else {
        n + 1
    }
}

/// `n + k`, stopped at `usize::MAX`.
pub open spec fn sat_add(n: nat, k: nat) -> nat {
    if n + k >= usize::MAX {
        usize::MAX as nat
    } else {
        n + k
    }
}

/// `n - 1`, stopped at 0.
pub open spec fn sat_dec(n: nat) -> nat {
    if n == 0 {
        0
    } else {
        (n - 1) as nat
    }
}

/// The first position at or after `i` whose character does not continue a
/// word (or the end of the text).
pub open spec fn word_end(text: Seq<char>, i: nat) -> nat
    decreases text.len() - i,
{
    if i >= text.len() || !is_word_char(text[i as int]) {
        i
    } else {
        word_end(text, i + 1)
    }
}

/// The first position at or after `i` whose character is not a digit.
pub open spec fn digits_end(text: Seq<char>, i: nat) -> nat
    decreases text.len() - i,
{
    if i >= text.len() || !is_digit_char(text[i as int]) {
        i
    } else {
        digits_end(text, i + 1)
    }
}

/// The first newline at or after `i` (or the end of the text).
pub open spec fn newline_at(text: Seq<char>, i: nat) -> nat
    decreases text.len() - i,
{
    if i >= text.len() || text[i as int] == '\n' {
        i
    } else {
        newline_at(text, i + 1)
    }
}

/// What one scan of the source produces: the token, and the cursor state
/// after it.
pub struct ScanResult {
    pub token: TokenView,
    pub position: nat,
    pub line: nat,
    pub column: nat,
}

/// A token view at the line/column pair reached.
pub open spec fn scan_token(kind: TokenKindView, line: nat, column: nat) -> TokenView {
    TokenView { token_type: kind, line, column: sat_dec(column) }
}

/// The lexer's small-step behaviour as one function: from a cursor
/// (position, line, column) over `text`, the next token and the cursor
/// after it. Whitespace and comments are consumed and scanning continues;
/// every other case produces a token. The column counts characters
/// consumed on the current line, and a token carries the position of its
/// last character; past the end of input, each scan still advances the
/// column (stopped at `usize::MAX`) and yields `Eof`.
pub open spec fn scan(text: Seq<char>, pos: nat, line: nat, col: nat) -> ScanResult
    decreases text.len() - pos,
        via scan_decreases
{
    if pos >= text.len() {
        let column = sat_inc(col);
        ScanResult { token: scan_token(TokenKindView::Eof, line, column), position: pos, line, column }
    } else {
        let c = text[pos as int];
        let column = sat_inc(col);
        if c == '(' {
            ScanResult {
                token: scan_token(TokenKindView::LeftBracket, line, column),
                position: pos + 1,
                line,
                column,
            }
        } else if c == ')' {
            ScanResult {
                token: scan_token(TokenKindView::RightBracket, line, column),
                position: pos + 1,
                line,
                column,
            }
        } else if c == '\\' {
            ScanResult {
                token: scan_token(TokenKindView::Lambda, line, column),
                position: pos + 1,
                line,
                column,
            }
        } else if c == '.' {
            ScanResult {
                token: scan_token(TokenKindView::Dot, line, column),
                position: pos + 1,
                line,
                column,
            }
        } else if c == '=' {
            ScanResult {
                token: scan_token(TokenKindView::Equal, line, column),
                position: pos + 1,
                line,
                column,
            }
        } else if c == ';' {
            ScanResult {
                token: scan_token(TokenKindView::Semicolon, line, column),
                position: pos + 1,
                line,
                column,
            }
        } else if c == '/' {
            if pos + 1 < text.len() && text[pos + 1int] == '/' {
                let nl = newline_at(text, pos + 1);
                if nl < text.len() {
                    scan(text, nl + 1, sat_inc(line), 0)
                } else {
                    let after = sat_add(col, (text.len() - pos) as nat);
                    let column = sat_inc(after);
                    ScanResult {
                        token: scan_token(TokenKindView::Eof, line, column),
                        position: text.len(),
                        line,
                        column,
                    }
                }
            } else {
                ScanResult {
                    token: scan_token(TokenKindView::InvalidCharacter('/'), line, column),
                    position: pos + 1,
                    line,
                    column,
                }
            }
        } else if c == '\n' {
            scan(text, pos + 1, sat_inc(line), 0)
        } else if is_space(c) {
            scan(text, pos + 1, line, column)
        } else if is_word_start(c) {
            let end = word_end(text, pos + 1);
            let word = text.subrange(pos as int, end as int);
            let column = sat_add(col, (end - pos) as nat);
            let kind = if word == "let"@ {
                TokenKindView::Let
            } else {
                TokenKindView::Identifier(word)
            };
            ScanResult { token: scan_token(kind, line, column), position: end, line, column }
        } else if is_digit_char(c) {
            let end = digits_end(text, pos + 1);
            let number = text.subrange(pos as int, end as int);
            let column = sat_add(col, (end - pos) as nat);
            ScanResult {
                token: scan_token(TokenKindView::Number(number), line, column),
                position: end,
                line,
                column,
            }
        } else if c == '\'' {
            scan_character(text, pos + 1, line, column)
        } else {
            ScanResult {
                token: scan_token(TokenKindView::InvalidCharacter(c), line, column),
                position: pos + 1,
                line,
                column,
            }
        }
    }
}

#[via_fn]
proof fn scan_decreases(text: Seq<char>, pos: nat, line: nat, col: nat) {
    if pos < text.len() && text[pos as int] == '/' && pos + 1 < text.len() && text[pos + 1int]
        == '/' {
        lemma_newline_at_bounds(text, (pos + 1) as nat);
    }
}

/// The rest of a character literal, after its opening quote: the quoted
/// character must be followed by a closing quote; a quote right away, or
/// any other character in place of the closing quote, is invalid; input
/// that ends inside the literal yields `Eof`.
pub open spec fn scan_character(text: Seq<char>, pos: nat, line: nat, col: nat) -> ScanResult {
    if pos >= text.len() {
        let column = sat_inc(col);
        ScanResult { token: scan_token(TokenKindView::Eof, line, column), position: pos, line, column }
    } else {
        let quoted = text[pos as int];
        let (line2, col2): (nat, nat) = if quoted == '\n' {
            (sat_inc(line), 0)
        } else {
            (line, sat_inc(col))
        };
        if quoted == '\'' {
            ScanResult {
                token: scan_token(TokenKindView::InvalidCharacter('\''), line2, col2),
                position: pos + 1,
                line: line2,
                column: col2,
            }
        } else if pos + 1 >= text.len() {
            let column = sat_inc(col2);
            ScanResult {
                token: scan_token(TokenKindView::Eof, line2, column),
                position: pos + 1,
                line: line2,
                column,
            }
        } else {
            let closing = text[pos + 1int];
            let (line3, col3): (nat, nat) = if closing == '\n' {
                (sat_inc(line2), 0)
            } else {
                (line2, sat_inc(col2))
            };
            let kind = if closing == '\'' {
                TokenKindView::Character(quoted)
            } else {
                TokenKindView::InvalidCharacter(closing)
            };
            ScanResult {
                token: scan_token(kind, line3, col3),
                position: pos + 2,
                line: line3,
                column: col3,
            }
        }
    }
}

/// `word_end` stays inside the text, moves only forward, covers only word
/// characters, and stops at a non-word character.
proof fn lemma_word_end_bounds(text: Seq<char>, i: nat)
    requires
        i <= text.len(),
    ensures
        i <= word_end(text, i) <= text.len(),
        forall|j: int| i <= j < word_end(text, i) ==> is_word_char(#[trigger] text[j]),
        word_end(text, i) < text.len() ==> !is_word_char(text[word_end(text, i) as int]),
    decreases text.len() - i,
{
    if i < text.len() && is_word_char(text[i as int]) {
        lemma_word_end_bounds(text, i + 1);
    }
}

/// `digits_end` stays inside the text, moves only forward, covers only
/// digits, and stops at a non-digit.
proof fn lemma_digits_end_bounds(text: Seq<char>, i: nat)
    requires
        i <= text.len(),
    ensures
        i <= digits_end(text, i) <= text.len(),
        forall|j: int| i <= j < digits_end(text, i) ==> is_digit_char(#[trigger] text[j]),
        digits_end(text, i) < text.len() ==> !is_digit_char(text[digits_end(text, i) as int]),
    decreases text.len() - i,
{
    if i < text.len() && is_digit_char(text[i as int]) {
        lemma_digits_end_bounds(text, i + 1);
    }
}

/// `newline_at` stays inside the text, passes only over other characters,
/// and stops at a newline.
proof fn lemma_newline_at_bounds(text: Seq<char>, i: nat)
    requires
        i <= text.len(),
    ensures
        i <= newline_at(text, i) <= text.len(),
        forall|j: int| i <= j < newline_at(text, i) ==> #[trigger] text[j] != '\n',
        newline_at(text, i) < text.len() ==> text[newline_at(text, i) as int] == '\n',
    decreases text.len() - i,
{
    if i < text.len() && text[i as int] != '\n' {
        lemma_newline_at_bounds(text, i + 1);
    }
}

/// A scan never moves the cursor backwards or out of the text, and any
/// token but `Eof` consumes at least one character.
pub proof fn lemma_scan_progress(text: Seq<char>, pos: nat, line: nat, col: nat)
    requires
        pos <= text.len(),
    ensures
        pos <= scan(text, pos, line, col).position <= text.len(),
        !(scan(text, pos, line, col).token.token_type is Eof) ==> scan(
            text,
            pos,
            line,
            col,
        ).position > pos,
    decreases text.len() - pos,
{
    if pos < text.len() {
        let c = text[pos as int];
        if c == '/' && pos + 1 < text.len() && text[pos + 1int] == '/' {
            lemma_newline_at_bounds(text, pos + 1);
            let nl = newline_at(text, pos + 1);
            if nl < text.len() {
                lemma_scan_progress(text, nl + 1, sat_inc(line), 0);
            }
        } else if c == '\n' {
            lemma_scan_progress(text, pos + 1, sat_inc(line), 0);
        } else if is_space(c) {
            lemma_scan_progress(text, pos + 1, line, sat_inc(col));
        } else if is_word_start(c) {
            lemma_word_end_bounds(text, pos + 1);
        } else if is_digit_char(c) {
            lemma_digits_end_bounds(text, pos + 1);
        }
    }
}

/// Whether `c` is ASCII whitespace, per `is_space`.
fn space_char(c: char) -> (res: bool)
    ensures
        res == is_space(c),
{
    c == ' ' || c == '\t' || c == '\n' || c == '\r' || c == '\x0c'
}

/// Whether `c` may start a word, per `is_word_start`.
fn word_start_char(c: char) -> (res: bool)
    ensures
        res == is_word_start(c),
{
    ('a' <= c && c <= 'z') || ('A' <= c && c <= 'Z') || c == '_'
}

/// Whether `c` may continue a word, per `is_word_char`.
fn word_char(c: char) -> (res: bool)
    ensures
        res == is_word_char(c),
{
    word_start_char(c) || ('0' <= c && c <= '9')
}

/// Whether `c` is a decimal digit, per `is_digit_char`.
fn digit_char(c: char) -> (res: bool)
    ensures
        res == is_digit_char(c),
{
    '0' <= c && c <= '9'
}

/// Whether `s` is exactly the keyword `let`.
fn keyword_let(s: &str) -> (res: bool)
    ensures
        res == (s@ == "let"@),
{
    proof {
        reveal_strlit("let");
    }
    if s.unicode_len() != 3 {
        return false;
    }
    let res = s.get_char(0) == 'l' && s.get_char(1) == 'e' && s.get_char(2) == 't';
    proof {
        if res {
            assert(s@ =~= "let"@);
        }
    }
    res
}

/// The lexer: the source text and a cursor over it, with one token of
/// lookahead.
pub struct Lexer {
    text: String,
    length: usize,
    position: usize,
    line: usize,
    column: usize,
    peeked: Option<Token>,
}

/// The lexer's state: the text, the cursor, and the stored lookahead.
pub struct LexerView {
    pub text: Seq<char>,
    pub position: nat,
    pub line: nat,
    pub column: nat,
    pub peeked: Option<TokenView>,
}

impl View for Lexer {
    type V = LexerView;

    closed spec fn view(&self) -> LexerView {
        LexerView {
            text: self.text@,
            position: self.position as nat,
            line: self.line as nat,
            column: self.column as nat,
            peeked: match self.peeked {
                Some(t) => Some(t@),
                None => None,
            },
        }
    }
}

/// What `next` returns and leaves behind: the stored lookahead if there is
/// one, otherwise one scan of the text.
pub open spec fn next_spec(v: LexerView) -> (TokenView, LexerView) {
    match v.peeked {
        Some(t) => (t, LexerView { peeked: None, ..v }),
        None => {
            let s = scan(v.text, v.position, v.line, v.column);
            (
                s.token,
                LexerView {
                    text: v.text,
                    position: s.position,
                    line: s.line,
                    column: s.column,
                    peeked: None,
                },
            )
        },
    }
}

/// What `peek` returns and leaves behind: the token `next` would return,
/// stored as the lookahead with the cursor moved past it.
pub open spec fn peek_spec(v: LexerView) -> (TokenView, LexerView) {
    let (t, after) = next_spec(v);
    (t, LexerView { peeked: Some(t), ..after })
}

/// The characters not yet handed out, counting a stored lookahead as one
/// unless it is `Eof`: the measure a parser recursion goes down by.
pub open spec fn remaining(v: LexerView) -> nat {
    if v.position <= v.text.len() {
        (v.text.len() - v.position + match v.peeked {
            Some(t) => if t.token_type is Eof {
                0nat
            } else {
                1nat
            },
            None => 0nat,
        }) as nat
    } else {
        0
    }
}

/// A well-formed lexer's cursor lies inside its text.
pub proof fn lemma_wf_bounds(l: Lexer)
    requires
        l.wf(),
    ensures
        l@.position <= l@.text.len(),
{
}

/// `next` never raises the measure, and lowers it strictly unless the
/// token it hands out is `Eof`.
pub proof fn lemma_next_monotone(v: LexerView)
    requires
        v.position <= v.text.len(),
    ensures
        remaining(next_spec(v).1) <= remaining(v),
        !(next_spec(v).0.token_type is Eof) ==> remaining(next_spec(v).1) < remaining(v),
        next_spec(v).1.position <= next_spec(v).1.text.len(),
{
    match v.peeked {
        Some(t) => {},
        None => {
            lemma_scan_progress(v.text, v.position, v.line, v.column);
        },
    }
}

/// `peek` never raises the measure.
pub proof fn lemma_peek_monotone(v: LexerView)
    requires
        v.position <= v.text.len(),
    ensures
        remaining(peek_spec(v).1) <= remaining(v),
        peek_spec(v).1.position <= peek_spec(v).1.text.len(),
        remaining(next_spec(peek_spec(v).1).1) <= remaining(next_spec(v).1),
        next_spec(peek_spec(v).1).0 == next_spec(v).0,
        next_spec(peek_spec(v).1).1 == next_spec(v).1,
    decreases 0int,
{
    match v.peeked {
        Some(t) => {},
        None => {
            lemma_scan_progress(v.text, v.position, v.line, v.column);
        },
    }
}

impl Lexer {
    /// The cursor lies inside the text and the cached length is right.
    pub closed spec fn wf(&self) -> bool {
        self.length == self.text@.len() && self.position <= self.length
    }

    /// A lexer at the start of `source`: line 0, column 0, no lookahead.
    pub fn new(source: &str) -> (lexer: Lexer)
        ensures
            lexer.wf(),
            lexer@ == (LexerView {
                text: source@,
                position: 0,
                line: 0,
                column: 0,
                peeked: None::<TokenView>,
            }),
    {
        let text = source.to_owned();
        let length = text.as_str().unicode_len();
        Lexer { text, length, position: 0, line: 0, column: 0, peeked: None }
    }

    /// The next token, per `next_spec`: the stored lookahead if any,
    /// otherwise the next token of the text, consuming it.
    pub fn next(&mut self) -> (token: Token)
        requires
            old(self).wf(),
        ensures
            final(self).wf(),
            token@ == next_spec(old(self)@).0,
            final(self)@ == next_spec(old(self)@).1,
    {
        match self.peeked.take() {
            Some(token) => {
                return token;
            },
            None => {},
        }
        loop
            invariant
                self.wf(),
                self.peeked is None,
                self@.text == old(self)@.text,
                old(self)@.peeked is None,
                scan(self@.text, self@.position, self@.line, self@.column) == scan(
                    old(self)@.text,
                    old(self)@.position,
                    old(self)@.line,
                    old(self)@.column,
                ),
            decreases self@.text.len() - self@.position,
        {
            let ghost text = self@.text;
            let ghost pos0 = self@.position;
            let ghost line0 = self@.line;
            let ghost col0 = self@.column;
            if self.position >= self.length {
                let column = self.column.saturating_add(1);
                self.column = column;
                return Token::new(TokenKind::Eof, self.line, column.saturating_sub(1));
            }
            let c = self.text.as_str().get_char(self.position);
            if c == '(' || c == ')' || c == '\\' || c == '.' || c == '=' || c == ';' {
                let column = self.column.saturating_add(1);
                self.column = column;
                self.position = self.position + 1;
                let kind = if c == '(' {
                    TokenKind::LeftBracket
                } else if c == ')' {
                    TokenKind::RightBracket
                } else if c == '\\' {
                    TokenKind::Lambda
                } else if c == '.' {
                    TokenKind::Dot
                } else if c == '=' {
                    TokenKind::Equal
                } else {
                    TokenKind::Semicolon
                };
                return Token::new(kind, self.line, column.saturating_sub(1));
            }
            if c == '/' {
                let slash_follows = self.position + 1 < self.length && self.text.as_str().get_char(
                    self.position + 1,
                ) == '/';
                if !slash_follows {
                    let column = self.column.saturating_add(1);
                    self.column = column;
                    self.position = self.position + 1;
                    return Token::new(
                        TokenKind::InvalidCharacter('/'),
                        self.line,
                        column.saturating_sub(1),
                    );
                }
                let mut p = self.position + 1;
                while p < self.length && self.text.as_str().get_char(p) != '\n'
                    invariant
                        self.wf(),
                        pos0 + 1 <= p <= self.length,
                        self@.text == text,
                        self@.position == pos0,
                        newline_at(text, (pos0 + 1) as nat) == newline_at(text, p as nat),
                    decreases self@.text.len() - p,
                {
                    p = p + 1;
                }
                proof {
                    lemma_newline_at_bounds(text, (pos0 + 1) as nat);
                    assert(newline_at(text, (pos0 + 1) as nat) == p);
                }
                if p < self.length {
                    self.position = p + 1;
                    self.line = self.line.saturating_add(1);
                    self.column = 0;
                } else {
                    let after = self.column.saturating_add(self.length - self.position);
                    let column = after.saturating_add(1);
                    self.position = self.length;
                    self.column = column;
                    return Token::new(TokenKind::Eof, self.line, column.saturating_sub(1));
                }
            } else if c == '\n' {
                self.position = self.position + 1;
                self.line = self.line.saturating_add(1);
                self.column = 0;
            } else if space_char(c) {
                self.position = self.position + 1;
                self.column = self.column.saturating_add(1);
            } else if word_start_char(c) {
                let start = self.position;
                let mut end = start + 1;
                while end < self.length && word_char(self.text.as_str().get_char(end))
                    invariant
                        self.wf(),
                        start + 1 <= end <= self.length,
                        self@.text == text,
                        self@.position == start,
                        word_end(text, (start + 1) as nat) == word_end(text, end as nat),
                    decreases self@.text.len() - end,
                {
                    end = end + 1;
                }
                proof {
                    lemma_word_end_bounds(text, (start + 1) as nat);
                    assert(word_end(text, (start + 1) as nat) == end);
                }
                let word = self.text.as_str().substring_char(start, end);
                let kind = if keyword_let(word) {
                    TokenKind::Let
                } else {
                    TokenKind::Identifier(word.to_owned())
                };
                let column = self.column.saturating_add(end - start);
                self.column = column;
                self.position = end;
                return Token::new(kind, self.line, column.saturating_sub(1));
            } else if digit_char(c) {
                let start = self.position;
                let mut end = start + 1;
                while end < self.length && digit_char(self.text.as_str().get_char(end))
                    invariant
                        self.wf(),
                        start + 1 <= end <= self.length,
                        self@.text == text,
                        self@.position == start,
                        digits_end(text, (start + 1) as nat) == digits_end(text, end as nat),
                    decreases self@.text.len() - end,
                {
                    end = end + 1;
                }
                proof {
                    lemma_digits_end_bounds(text, (start + 1) as nat);
                    assert(digits_end(text, (start + 1) as nat) == end);
                }
                let number = self.text.as_str().substring_char(start, end);
                let kind = TokenKind::Number(number.to_owned());
                let column = self.column.saturating_add(end - start);
                self.column = column;
                self.position = end;
                return Token::new(kind, self.line, column.saturating_sub(1));
            } else if c == '\'' {
                let column = self.column.saturating_add(1);
                self.column = column;
                self.position = self.position + 1;
                return self.scan_character_tail();
            } else {
                let column = self.column.saturating_add(1);
                self.column = column;
                self.position = self.position + 1;
                return Token::new(TokenKind::InvalidCharacter(c), self.line, column.saturating_sub(1));
            }
        }
    }

    /// The rest of a character literal, after its opening quote was
    /// consumed, per `scan_character`.
    fn scan_character_tail(&mut self) -> (token: Token)
        requires
            old(self).wf(),
            old(self).peeked is None,
        ensures
            final(self).wf(),
            final(self)@.text == old(self)@.text,
            final(self)@.peeked is None,
            token@ == scan_character(
                old(self)@.text,
                old(self)@.position,
                old(self)@.line,
                old(self)@.column,
            ).token,
            final(self)@.position == scan_character(
                old(self)@.text,
                old(self)@.position,
                old(self)@.line,
                old(self)@.column,
            ).position,
            final(self)@.line == scan_character(
                old(self)@.text,
                old(self)@.position,
                old(self)@.line,
                old(self)@.column,
            ).line,
            final(self)@.column == scan_character(
                old(self)@.text,
                old(self)@.position,
                old(self)@.line,
                old(self)@.column,
            ).column,
    {
        if self.position >= self.length {
            let column = self.column.saturating_add(1);
            self.column = column;
            return Token::new(TokenKind::Eof, self.line, column.saturating_sub(1));
        }
        let quoted = self.text.as_str().get_char(self.position);
        self.position = self.position + 1;
        if quoted == '\n' {
            self.line = self.line.saturating_add(1);
            self.column = 0;
        } else {
            self.column = self.column.saturating_add(1);
        }
        if quoted == '\'' {
            let column = self.column;
            return Token::new(
                TokenKind::InvalidCharacter('\''),
                self.line,
                column.saturating_sub(1),
            );
        }
        if self.position >= self.length {
            let column = self.column.saturating_add(1);
            self.column = column;
            return Token::new(TokenKind::Eof, self.line, column.saturating_sub(1));
        }
        let closing = self.text.as_str().get_char(self.position);
        self.position = self.position + 1;
        if closing == '\n' {
            self.line = self.line.saturating_add(1);
            self.column = 0;
        } else {
            self.column = self.column.saturating_add(1);
        }
        let kind = if closing == '\'' {
            TokenKind::Character(quoted)
        } else {
            TokenKind::InvalidCharacter(closing)
        };
        Token::new(kind, self.line, self.column.saturating_sub(1))
    }

    /// The token `next` would return, without consuming it, per
    /// `peek_spec`: the token is read once and stored.
    pub fn peek(&mut self) -> (token: Token)
        requires
            old(self).wf(),
        ensures
            final(self).wf(),
            token@ == peek_spec(old(self)@).0,
            final(self)@ == peek_spec(old(self)@).1,
    {
        match &self.peeked {
            Some(token) => {
                let copy = token.clone();
                return copy;
            },
            None => {},
        }
        let token = self.next();
        let copy = token.clone();
        self.peeked = Some(copy);
        token
    }
}

} // verus!
