//! Lexical analysis: a single-pass scanner over the source bytes with one
//! lookahead character, producing the ordered token sequence the parser
//! consumes.
//!
//! The scanner is byte-oriented, as the input encoding is ASCII: each input
//! byte is one source character, and a `(line, column)` coordinate is
//! tracked, incremented on every advance and reset on a newline.  The whole
//! scan is specified by [`lex_from`], a specification-level scanner over the
//! byte sequence, and [`Lexer::tokenise`] is proved to return exactly its
//! result.
//!
//! Grammar decisions (the scanner is deliberately permissive):
//! - a run starting with a digit consumes a maximal run of ASCII
//!   alphanumerics and must parse as a base-10 signed 32-bit integer,
//!   otherwise the whole scan fails with an illegal-syntax error at the start
//!   of the run;
//! - a run starting with a letter consumes a maximal run of bytes up to the
//!   next space, tab, newline or NUL; the word `return` becomes the keyword,
//!   anything else a declaration name;
//! - `//` consumes the rest of the line as a comment token; a single `/` is
//!   the division operator;
//! - a NUL byte (or the end of the input) ends the scan with a single `EOF`
//!   token; any other unrecognized byte aborts the scan with an
//!   illegal-syntax error at its exact coordinate.

use vstd::prelude::*;
use vstd::utf8::encode_utf8;

use crate::error::{Error, ErrorV};

verus! {

// =========================
//  Tokens
// =========================

/// The keywords of the language.
#[derive(Debug, Clone, Copy, PartialEq, Eq)]
pub enum KeywordKind {
    RETURN,
}

/// The closed set of lexical categories.
#[allow(non_camel_case_types)]
#[derive(Debug, PartialEq)]
pub enum TokenKind {
    INT(i32),
    DECL_NAME(String),
    KEYWORD(KeywordKind),
    COMMENT(String),
    PLUS,
    MINUS,
    MUL,
    DIV,
    EQUALS,
    SEMICOLON,
    LPAREN,
    RPAREN,
    CURLY_LPAREN,
    CURLY_RPAREN,
    EOF,
}

/// The mathematical model of a [`TokenKind`]: text payloads as character
/// sequences.
pub ghost enum TokenKindV {
    Int(i32),
    DeclName(Seq<char>),
    Keyword(KeywordKind),
    Comment(Seq<char>),
    Plus,
    Minus,
    Mul,
    Div,
    Equals,
    Semicolon,
    LParen,
    RParen,
    CurlyLParen,
    CurlyRParen,
    Eof,
}

impl View for TokenKind {
    type V = TokenKindV;

    open spec fn view(&self) -> TokenKindV {
        match self {
            TokenKind::INT(x) => TokenKindV::Int(*x),
            TokenKind::DECL_NAME(s) => TokenKindV::DeclName(s@),
            TokenKind::KEYWORD(k) => TokenKindV::Keyword(*k),
            TokenKind::COMMENT(s) => TokenKindV::Comment(s@),
            TokenKind::PLUS => TokenKindV::Plus,
            TokenKind::MINUS => TokenKindV::Minus,
            TokenKind::MUL => TokenKindV::Mul,
            TokenKind::DIV => TokenKindV::Div,
            TokenKind::EQUALS => TokenKindV::Equals,
            TokenKind::SEMICOLON => TokenKindV::Semicolon,
            TokenKind::LPAREN => TokenKindV::LParen,
            TokenKind::RPAREN => TokenKindV::RParen,
            TokenKind::CURLY_LPAREN => TokenKindV::CurlyLParen,
            TokenKind::CURLY_RPAREN => TokenKindV::CurlyRParen,
            TokenKind::EOF => TokenKindV::Eof,
        }
    }
}

impl Clone for TokenKind {
    fn clone(&self) -> (res: Self)
        ensures
            res == *self,
    {
        match self {
            TokenKind::INT(x) => TokenKind::INT(*x),
            TokenKind::DECL_NAME(s) => TokenKind::DECL_NAME(s.clone()),
            TokenKind::KEYWORD(k) => TokenKind::KEYWORD(*k),
            TokenKind::COMMENT(s) => TokenKind::COMMENT(s.clone()),
            TokenKind::PLUS => TokenKind::PLUS,
            TokenKind::MINUS => TokenKind::MINUS,
            TokenKind::MUL => TokenKind::MUL,
            TokenKind::DIV => TokenKind::DIV,
            TokenKind::EQUALS => TokenKind::EQUALS,
            TokenKind::SEMICOLON => TokenKind::SEMICOLON,
            TokenKind::LPAREN => TokenKind::LPAREN,
            TokenKind::RPAREN => TokenKind::RPAREN,
            TokenKind::CURLY_LPAREN => TokenKind::CURLY_LPAREN,
            TokenKind::CURLY_RPAREN => TokenKind::CURLY_RPAREN,
            TokenKind::EOF => TokenKind::EOF,
        }
    }
}

/// A classified lexical unit with its source position.  The coordinate is
/// `(line, column)`, both starting at 1; tokens longer than one character
/// carry the coordinate reached after scanning them.
#[derive(Debug, PartialEq)]
pub struct Token {
    pub kind: TokenKind,
    pub filepath: String,
    pub coord: (u32, u32),
}

/// The mathematical model of a [`Token`].
pub ghost struct TokenV {
    pub kind: TokenKindV,
    pub filepath: Seq<char>,
    pub coord: (int, int),
}

impl View for Token {
    type V = TokenV;

    open spec fn view(&self) -> TokenV {
        TokenV {
            kind: self.kind@,
            filepath: self.filepath@,
            coord: (self.coord.0 as int, self.coord.1 as int),
        }
    }
}

impl Clone for Token {
    fn clone(&self) -> (res: Self)
        ensures
            res == *self,
    {
        Token { kind: self.kind.clone(), filepath: self.filepath.clone(), coord: self.coord }
    }
}

impl Token {
    pub fn new(kind: TokenKind, filepath: String, coord: (u32, u32)) -> (t: Self)
        ensures
            t == (Token { kind, filepath, coord }),
    {
        Self { kind, filepath, coord }
    }
}

/// The views of a token sequence.
pub open spec fn tokens_view(ts: Seq<Token>) -> Seq<TokenV> {
    ts.map(|i: int, t: Token| t@)
}

pub proof fn lemma_tokens_view_push(ts: Seq<Token>, t: Token)
    ensures
        tokens_view(ts.push(t)) == tokens_view(ts).push(t@),
{
    let a = tokens_view(ts.push(t));
    let b = tokens_view(ts).push(t@);
    assert(a.len() == b.len());
    assert forall|i: int| 0 <= i < a.len() implies a[i] == b[i] by {
        if i < ts.len() {
            assert(ts.push(t)[i] == ts[i]);
        } else {
            assert(ts.push(t)[i] == t);
        }
    }
    assert(a =~= b);
}

// =========================
//  Character classes
// =========================

/// The byte at position `i`, with the NUL sentinel past the end.
pub open spec fn byte_at(s: Seq<u8>, i: int) -> u8 {
    if 0 <= i < s.len() {
        s[i]
    } else {
        0
    }
}

/// Whitespace skipped between tokens: space, tab, newline.
pub open spec fn is_ws(b: u8) -> bool {
    b == 32 || b == 9 || b == 10
}

pub open spec fn is_digit(b: u8) -> bool {
    48 <= b <= 57
}

pub open spec fn is_alpha(b: u8) -> bool {
    (65 <= b <= 90) || (97 <= b <= 122)
}

pub open spec fn is_alnum(b: u8) -> bool {
    is_digit(b) || is_alpha(b)
}

/// The bytes that end a word run: space, tab, newline, NUL.
pub open spec fn is_word_stop(b: u8) -> bool {
    b == 32 || b == 9 || b == 10 || b == 0
}

/// The line after scanning past byte `b`.
pub open spec fn next_line(b: u8, line: int) -> int {
    if b == 10 {
        line + 1
    } else {
        line
    }
}

/// The column after scanning past byte `b`.
pub open spec fn next_col(b: u8, col: int) -> int {
    if b == 10 {
        1
    } else {
        col + 1
    }
}

/// The bytes of a run read as characters, one per byte.
pub open spec fn chars_of(s: Seq<u8>) -> Seq<char> {
    s.map(|i: int, b: u8| b as char)
}

// =========================
//  Runs
// =========================

/// The end of the maximal alphanumeric run starting at `i`.
pub open spec fn alnum_run_end(s: Seq<u8>, i: int) -> int
    decreases s.len() - i,
{
    if i < s.len() && is_alnum(s[i]) {
        alnum_run_end(s, i + 1)
    } else {
        i
    }
}

/// The end of the maximal word run starting at `i`: everything up to the
/// next whitespace or NUL byte.
pub open spec fn word_run_end(s: Seq<u8>, i: int) -> int
    decreases s.len() - i,
{
    if i < s.len() && !is_word_stop(s[i]) {
        word_run_end(s, i + 1)
    } else {
        i
    }
}

/// The end of a comment's text starting at `i`: everything up to the next
/// newline or NUL byte.
pub open spec fn comment_run_end(s: Seq<u8>, i: int) -> int
    decreases s.len() - i,
{
    if i < s.len() && s[i] != 10 && s[i] != 0 {
        comment_run_end(s, i + 1)
    } else {
        i
    }
}

pub proof fn lemma_alnum_run_end(s: Seq<u8>, i: int)
    requires
        0 <= i <= s.len(),
    ensures
        i <= alnum_run_end(s, i) <= s.len(),
        forall|j: int| i <= j < alnum_run_end(s, i) ==> is_alnum(#[trigger] s[j]),
        alnum_run_end(s, i) < s.len() ==> !is_alnum(s[alnum_run_end(s, i)]),
        i < s.len() && is_alnum(s[i]) ==> alnum_run_end(s, i) > i,
    decreases s.len() - i,
{
    if i < s.len() && is_alnum(s[i]) {
        lemma_alnum_run_end(s, i + 1);
    }
}

/// The run end is the unique position with the run's characterization, so an
/// executable scan that stops at the first non-member finds it.
pub proof fn lemma_alnum_run_end_unique(s: Seq<u8>, i: int, j: int)
    requires
        0 <= i <= j <= s.len(),
        forall|k: int| i <= k < j ==> is_alnum(#[trigger] s[k]),
        j == s.len() || !is_alnum(s[j]),
    ensures
        alnum_run_end(s, i) == j,
    decreases j - i,
{
    if i < j {
        lemma_alnum_run_end_unique(s, i + 1, j);
    }
}

pub proof fn lemma_word_run_end(s: Seq<u8>, i: int)
    requires
        0 <= i <= s.len(),
    ensures
        i <= word_run_end(s, i) <= s.len(),
        forall|j: int| i <= j < word_run_end(s, i) ==> !is_word_stop(#[trigger] s[j]),
        i < s.len() && !is_word_stop(s[i]) ==> word_run_end(s, i) > i,
    decreases s.len() - i,
{
    if i < s.len() && !is_word_stop(s[i]) {
        lemma_word_run_end(s, i + 1);
    }
}

pub proof fn lemma_word_run_end_unique(s: Seq<u8>, i: int, j: int)
    requires
        0 <= i <= j <= s.len(),
        forall|k: int| i <= k < j ==> !is_word_stop(#[trigger] s[k]),
        j == s.len() || is_word_stop(s[j]),
    ensures
        word_run_end(s, i) == j,
    decreases j - i,
{
    if i < j {
        lemma_word_run_end_unique(s, i + 1, j);
    }
}

pub proof fn lemma_comment_run_end(s: Seq<u8>, i: int)
    requires
        0 <= i <= s.len(),
    ensures
        i <= comment_run_end(s, i) <= s.len(),
    decreases s.len() - i,
{
    if i < s.len() && s[i] != 10 && s[i] != 0 {
        lemma_comment_run_end(s, i + 1);
    }
}

pub proof fn lemma_comment_run_end_unique(s: Seq<u8>, i: int, j: int)
    requires
        0 <= i <= j <= s.len(),
        forall|k: int| i <= k < j ==> #[trigger] s[k] != 10 && s[k] != 0,
        j == s.len() || s[j] == 10 || s[j] == 0,
    ensures
        comment_run_end(s, i) == j,
    decreases j - i,
{
    if i < j {
        lemma_comment_run_end_unique(s, i + 1, j);
    }
}

// =========================
//  Integer literals
// =========================

/// The value of a run of decimal digit bytes, most significant first.
pub open spec fn digits_val(s: Seq<u8>) -> int
    decreases s.len(),
{
    if s.len() == 0 {
        0
    } else {
        digits_val(s.drop_last()) * 10 + s.last() - 48
    }
}

pub open spec fn all_digits(s: Seq<u8>) -> bool {
    forall|i: int| 0 <= i < s.len() ==> is_digit(#[trigger] s[i])
}

/// When an alphanumeric run is a valid `i32` literal: all digits, value in
/// range.
pub open spec fn int_run_ok(s: Seq<u8>) -> bool {
    all_digits(s) && digits_val(s) <= 0x7fff_ffff
}

pub proof fn lemma_digits_val_nonneg(s: Seq<u8>)
    requires
        all_digits(s),
    ensures
        digits_val(s) >= 0,
    decreases s.len(),
{
    if s.len() > 0 {
        assert(all_digits(s.drop_last())) by {
            assert(forall|i: int|
                0 <= i < s.len() - 1 ==> #[trigger] s.drop_last()[i] == s[i]);
        }
        lemma_digits_val_nonneg(s.drop_last());
    }
}

pub proof fn lemma_digits_val_nonneg_if(s: Seq<u8>)
    ensures
        all_digits(s) ==> digits_val(s) >= 0,
{
    if all_digits(s) {
        lemma_digits_val_nonneg(s);
    }
}

// =========================
//  The specification scanner
// =========================

/// The outcome of a scan: the tokens produced before the scan ended, and the
/// error that aborted it, if any.  A successful scan ends with exactly one
/// `Eof` token and no error.
pub ghost struct LexOut {
    pub tokens: Seq<TokenV>,
    pub err: Option<ErrorV>,
}

/// One produced token in front of the rest of a scan's outcome.
pub open spec fn lex_prepend(t: TokenV, rest: LexOut) -> LexOut {
    LexOut { tokens: seq![t] + rest.tokens, err: rest.err }
}

/// The specification scanner: scans `s` from byte position `pos` at
/// coordinate `(line, col)`, producing tokens in encounter order.
pub open spec fn lex_from(s: Seq<u8>, fp: Seq<char>, pos: int, line: int, col: int) -> LexOut
    decreases s.len() - pos + 1,
{
    let b = byte_at(s, pos);
    if b == 0 {
        LexOut {
            tokens: seq![TokenV { kind: TokenKindV::Eof, filepath: fp, coord: (line, col) }],
            err: None,
        }
    } else if is_ws(b) {
        lex_from(s, fp, pos + 1, next_line(b, line), next_col(b, col))
    } else if is_digit(b) {
        let e = alnum_run_end(s, pos);
        proof {
            lemma_alnum_run_end(s, pos);
        }
        let run = s.subrange(pos, e);
        if int_run_ok(run) {
            let tok = TokenV {
                kind: TokenKindV::Int(digits_val(run) as i32),
                filepath: fp,
                coord: (line, col + (e - pos)),
            };
            lex_prepend(tok, lex_from(s, fp, e, line, col + (e - pos)))
        } else {
            LexOut {
                tokens: seq![],
                err: Some(
                    ErrorV::IllegalSyntax {
                        found: chars_of(run),
                        filepath: fp,
                        coord: (line, col),
                    },
                ),
            }
        }
    } else if is_alpha(b) {
        let e = word_run_end(s, pos);
        proof {
            lemma_word_run_end(s, pos);
        }
        let run = s.subrange(pos, e);
        let wcol = col + (e - pos);
        let kind = if chars_of(run) == "return"@ {
            TokenKindV::Keyword(KeywordKind::RETURN)
        } else {
            TokenKindV::DeclName(chars_of(run))
        };
        let tok = TokenV { kind, filepath: fp, coord: (line, wcol) };
        // the scanner steps once more here, past the byte that ended the word
        let b2 = byte_at(s, e);
        lex_prepend(tok, lex_from(s, fp, e + 1, next_line(b2, line), next_col(b2, wcol)))
    } else if b == 47 {
        if byte_at(s, pos + 1) == 47 {
            let e = comment_run_end(s, pos + 2);
            proof {
                lemma_comment_run_end(s, pos + 2);
            }
            let run = s.subrange(pos + 2, e);
            let ccol = col + (e - pos);
            let tok = TokenV { kind: TokenKindV::Comment(chars_of(run)), filepath: fp, coord: (
                line,
                ccol,
            ) };
            // likewise, past the newline or NUL that ended the comment
            let b2 = byte_at(s, e);
            lex_prepend(tok, lex_from(s, fp, e + 1, next_line(b2, line), next_col(b2, ccol)))
        } else {
            let tok = TokenV { kind: TokenKindV::Div, filepath: fp, coord: (line, col) };
            lex_prepend(tok, lex_from(s, fp, pos + 1, line, col + 1))
        }
    } else if b == 43 || b == 45 || b == 42 || b == 61 || b == 59 || b == 40 || b == 41 || b == 123
        || b == 125 {
        let kind = if b == 43 {
            TokenKindV::Plus
        } else if b == 45 {
            TokenKindV::Minus
        } else if b == 42 {
            TokenKindV::Mul
        } else if b == 61 {
            TokenKindV::Equals
        } else if b == 59 {
            TokenKindV::Semicolon
        } else if b == 40 {
            TokenKindV::LParen
        } else if b == 41 {
            TokenKindV::RParen
        } else if b == 123 {
            TokenKindV::CurlyLParen
        } else {
            TokenKindV::CurlyRParen
        };
        let tok = TokenV { kind, filepath: fp, coord: (line, col) };
        lex_prepend(tok, lex_from(s, fp, pos + 1, line, col + 1))
    } else {
        LexOut {
            tokens: seq![],
            err: Some(
                ErrorV::IllegalSyntax {
                    found: seq![b as char],
                    filepath: fp,
                    coord: (line, col),
                },
            ),
        }
    }
}

// =========================
//  Character class tests
// =========================

fn is_digit_exec(b: u8) -> (r: bool)
    ensures
        r == is_digit(b),
{
    48 <= b && b <= 57
}

fn is_alnum_exec(b: u8) -> (r: bool)
    ensures
        r == is_alnum(b),
{
    (48 <= b && b <= 57) || (65 <= b && b <= 90) || (97 <= b && b <= 122)
}

fn is_word_stop_exec(b: u8) -> (r: bool)
    ensures
        r == is_word_stop(b),
{
    b == 32 || b == 9 || b == 10 || b == 0
}

#[verifier::loop_isolation(false)]
fn clone_tokens(v: &Vec<Token>) -> (r: Vec<Token>)
    ensures
        r@ == v@,
{
    let mut r: Vec<Token> = Vec::new();
    let mut i: usize = 0;
    while i < v.len()
        invariant
            i <= v.len(),
            r@ == v@.subrange(0, i as int),
        decreases v.len() - i,
    {
        r.push(v[i].clone());
        assert(r@ =~= v@.subrange(0, i + 1 as int));
        i = i + 1;
    }
    assert(r@ =~= v@);
    r
}

// =========================
//  The lexer
// =========================

/// The single-pass scanner.  `tokens` accumulates the produced tokens in
/// encounter order; that order is the contract the parser depends on.
pub struct Lexer {
    pub input: String,
    pub current_char: u8,
    pub pos: usize,
    pub tokens: Vec<Token>,
    // for error handling
    pub filepath: String,
    pub line: u32,
    pub col: u32,
}

impl Lexer {
    /// The source bytes being scanned.
    pub open spec fn bytes(&self) -> Seq<u8> {
        encode_utf8(self.input@)
    }

    pub open spec fn filepath_view(&self) -> Seq<char> {
        self.filepath@
    }

    /// The scanner's well-formedness: the lookahead byte matches the scan
    /// position, and the coordinate stays small enough that advancing cannot
    /// overflow.
    pub open spec fn wf(&self) -> bool {
        &&& self.bytes().len() + 8 < 0xffff_ffff
        &&& self.pos <= self.bytes().len()
        &&& self.current_char == byte_at(self.bytes(), self.pos as int)
        &&& 1 <= self.line
        &&& 1 <= self.col
        &&& (self.pos < self.bytes().len() ==> self.line + self.col <= self.pos + 2)
        &&& (self.pos == self.bytes().len() ==> self.line + self.col <= self.pos + 3)
    }

    /// A fresh scanner over `input`, positioned at coordinate `(1, 1)`.
    pub fn new(input: String, filepath: String) -> (l: Self)
        requires
            encode_utf8(input@).len() + 8 < 0xffff_ffff,
        ensures
            l.wf(),
            l.input == input,
            l.filepath == filepath,
            l.pos == 0,
            l.line == 1,
            l.col == 1,
            l.tokens@ == Seq::<Token>::empty(),
    {
        let mut l = Self {
            input,
            current_char: 0,
            pos: 0,
            tokens: Vec::new(),
            filepath,
            line: 1,
            col: 1,
        };
        l.get_current_char();
        assert(l.tokens@ =~= Seq::<Token>::empty());
        l
    }

    fn get_current_char(&mut self)
        requires
            old(self).pos <= old(self).bytes().len(),
        ensures
            *final(self) == (Lexer {
                current_char: byte_at(old(self).bytes(), old(self).pos as int),
                ..*old(self)
            }),
    {
        let bs = self.input.as_str().as_bytes();
        let c = if self.pos < bs.len() {
            bs[self.pos]
        } else {
            0
        };
        self.current_char = c;
    }

    /// Steps past the current character: the position moves forward (staying
    /// at the end once there), the column advances, and a newline starts the
    /// next line.
    fn advance(&mut self)
        requires
            old(self).wf(),
            old(self).line + old(self).col <= old(self).pos + 2,
        ensures
            final(self).wf(),
            final(self).input == old(self).input,
            final(self).filepath == old(self).filepath,
            final(self).tokens == old(self).tokens,
            final(self).pos as int == if old(self).pos < old(self).bytes().len() {
                old(self).pos + 1
            } else {
                old(self).pos as int
            },
            final(self).line as int == next_line(old(self).current_char, old(self).line as int),
            final(self).col as int == next_col(old(self).current_char, old(self).col as int),
            final(self).current_char == byte_at(final(self).bytes(), final(self).pos as int),
    {
        if self.current_char == 10 {
            self.line = self.line + 1;
            self.col = 1;
        } else {
            self.col = self.col + 1;
        }
        let n: usize = self.input.as_str().len();
        if self.pos < n {
            self.pos = self.pos + 1;
        }
        self.get_current_char();
    }

    /// Pushes a token carrying the current coordinate, then advances once.
    fn push_token(&mut self, kind: TokenKind)
        requires
            old(self).wf(),
            old(self).line + old(self).col <= old(self).pos + 2,
        ensures
            final(self).wf(),
            final(self).input == old(self).input,
            final(self).filepath == old(self).filepath,
            final(self).tokens@ == old(self).tokens@.push(
                Token {
                    kind,
                    filepath: old(self).filepath,
                    coord: (old(self).line, old(self).col),
                },
            ),
            final(self).pos as int == if old(self).pos < old(self).bytes().len() {
                old(self).pos + 1
            } else {
                old(self).pos as int
            },
            final(self).line as int == next_line(old(self).current_char, old(self).line as int),
            final(self).col as int == next_col(old(self).current_char, old(self).col as int),
            final(self).current_char == byte_at(final(self).bytes(), final(self).pos as int),
    {
        let tok = Token::new(kind, self.filepath.clone(), (self.line, self.col));
        self.tokens.push(tok);
        self.advance();
    }

    /// Scans a maximal alphanumeric run as a base-10 `i32` literal.  A run
    /// that is not a valid literal (a stray letter, or a value out of range)
    /// is a lexical error at the start of the run.
    #[verifier::loop_isolation(false)]
    fn num_token(&mut self) -> (r: Result<Token, Error>)
        requires
            old(self).wf(),
            old(self).line + old(self).col <= old(self).pos + 2,
            is_digit(old(self).current_char),
        ensures
            final(self).wf(),
            final(self).input == old(self).input,
            final(self).filepath == old(self).filepath,
            final(self).tokens == old(self).tokens,
            ({
                let s = old(self).bytes();
                let start = old(self).pos as int;
                let e = alnum_run_end(s, start);
                let run = s.subrange(start, e);
                &&& final(self).pos == e
                &&& final(self).line == old(self).line
                &&& final(self).col as int == old(self).col + (e - start)
                &&& final(self).current_char == byte_at(s, e)
                &&& match r {
                    Ok(t) => int_run_ok(run) && t@ == (TokenV {
                        kind: TokenKindV::Int(digits_val(run) as i32),
                        filepath: old(self).filepath@,
                        coord: (old(self).line as int, old(self).col + (e - start)),
                    }),
                    Err(er) => !int_run_ok(run) && er@ == (ErrorV::IllegalSyntax {
                        found: chars_of(run),
                        filepath: old(self).filepath@,
                        coord: (old(self).line as int, old(self).col as int),
                    }),
                }
            }),
    {
        let ghost s = self.bytes();
        let ghost start = self.pos as int;
        let start_line = self.line;
        let start_col = self.col;
        let mut num_str = String::new();
        let mut acc: u64 = 0;
        let mut bad = false;

        proof {
            assert(num_str@ =~= chars_of(s.subrange(start, start)));
            assert(s.subrange(start, start) =~= Seq::<u8>::empty());
        }
        while is_alnum_exec(self.current_char)
            invariant
                self.wf(),
                self.input == old(self).input,
                self.filepath == old(self).filepath,
                self.tokens == old(self).tokens,
                s == self.bytes(),
                start <= self.pos <= s.len(),
                forall|j: int| start <= j < self.pos ==> is_alnum(#[trigger] s[j]),
                self.line == old(self).line,
                self.col as int == old(self).col + (self.pos - start),
                self.current_char == byte_at(s, self.pos as int),
                num_str@ == chars_of(s.subrange(start, self.pos as int)),
                bad == !all_digits(s.subrange(start, self.pos as int)),
                acc <= 0x8000_0000,
                !bad ==> ({
                    let v = digits_val(s.subrange(start, self.pos as int));
                    &&& (v <= 0x7fff_ffff ==> acc == v)
                    &&& (v > 0x7fff_ffff ==> acc == 0x8000_0000)
                }),
            decreases s.len() - self.pos,
    {
            let b = self.current_char;
            proof {
                assert(is_alnum(b));
                assert(b != 0);
                assert(self.pos < s.len());
                assert(start <= self.pos);
            }
            let ghost run = s.subrange(start, self.pos as int);
            let ghost run2 = s.subrange(start, self.pos + 1 as int);
            proof {
                assert(run2.len() == self.pos + 1 - start);
                assert(run2.drop_last() =~= run);
                assert(run2.last() == b);
                lemma_digits_val_nonneg_if(run);
            }
            num_str.push(b as char);
            if is_digit_exec(b) {
                let raw: u64 = acc * 10 + ((b - 48) as u64);
                if raw > 0x7fff_ffff {
                    proof {
                        if !bad {
                            // once out of range, appending digits keeps it out
                            assert(digits_val(run2) == digits_val(run) * 10 + b - 48);
                            assert(digits_val(run2) > 0x7fff_ffff);
                        }
                    }
                    acc = 0x8000_0000;
                } else {
                    acc = raw;
                }
            } else {
                bad = true;
            }
            proof {
                assert(chars_of(run2) =~= chars_of(run).push(b as char));
                assert(all_digits(run2) == (all_digits(run) && is_digit(b)));
            }
            self.advance();
            proof {
                assert(s.subrange(start, self.pos as int) == run2);
            }
        }
        proof {
            lemma_alnum_run_end_unique(s, start, self.pos as int);
        }
        let ghost run = s.subrange(start, self.pos as int);
        if !bad && acc <= 0x7fff_ffff {
            proof {
                lemma_digits_val_nonneg_if(run);
            }
            let tok = Token::new(
                TokenKind::INT(acc as i32),
                self.filepath.clone(),
                (self.line, self.col),
            );
            Ok(tok)
        } else {
            proof {
                if !bad {
                    assert(digits_val(run) > 0x7fff_ffff);
                }
            }
            Err(
                Error::IllegalSyntaxError {
                    found: num_str,
                    filepath: self.filepath.clone(),
                    coord: (start_line, start_col),
                },
            )
        }
    }

    /// Scans a maximal run of non-whitespace bytes as a word.
    #[verifier::loop_isolation(false)]
    fn get_current_word(&mut self) -> (r: String)
        requires
            old(self).wf(),
            old(self).line + old(self).col <= old(self).pos + 2,
        ensures
            final(self).wf(),
            final(self).input == old(self).input,
            final(self).filepath == old(self).filepath,
            final(self).tokens == old(self).tokens,
            ({
                let s = old(self).bytes();
                let start = old(self).pos as int;
                let e = word_run_end(s, start);
                &&& final(self).pos == e
                &&& final(self).line == old(self).line
                &&& final(self).col as int == old(self).col + (e - start)
                &&& final(self).current_char == byte_at(s, e)
                &&& r@ == chars_of(s.subrange(start, e))
            }),
    {
        let ghost s = self.bytes();
        let ghost start = self.pos as int;
        let mut ret = String::new();
        proof {
            assert(ret@ =~= chars_of(s.subrange(start, start)));
            assert(s.subrange(start, start) =~= Seq::<u8>::empty());
        }
        while !is_word_stop_exec(self.current_char)
            invariant
                self.wf(),
                self.input == old(self).input,
                self.filepath == old(self).filepath,
                self.tokens == old(self).tokens,
                s == self.bytes(),
                start <= self.pos <= s.len(),
                forall|j: int| start <= j < self.pos ==> !is_word_stop(#[trigger] s[j]),
                self.line == old(self).line,
                self.col as int == old(self).col + (self.pos - start),
                self.current_char == byte_at(s, self.pos as int),
                ret@ == chars_of(s.subrange(start, self.pos as int)),
            decreases s.len() - self.pos,
        {
            let b = self.current_char;
            let ghost run = s.subrange(start, self.pos as int);
            let ghost run2 = s.subrange(start, self.pos + 1 as int);
            ret.push(b as char);
            proof {
                assert(chars_of(run2) =~= chars_of(run).push(b as char));
            }
            self.advance();
            proof {
                assert(s.subrange(start, self.pos as int) == run2);
            }
        }
        proof {
            lemma_word_run_end_unique(s, start, self.pos as int);
        }
        ret
    }

    /// Scans a word and classifies it: `return` becomes the keyword, any
    /// other word a declaration name.
    fn check_keyword(&mut self)
        requires
            old(self).wf(),
            old(self).line + old(self).col <= old(self).pos + 2,
            is_alpha(old(self).current_char),
        ensures
            final(self).wf(),
            final(self).input == old(self).input,
            final(self).filepath == old(self).filepath,
            ({
                let s = old(self).bytes();
                let start = old(self).pos as int;
                let e = word_run_end(s, start);
                let run = s.subrange(start, e);
                let wcol = old(self).col + (e - start);
                let b2 = byte_at(s, e);
                let kv = if chars_of(run) == "return"@ {
                    TokenKindV::Keyword(KeywordKind::RETURN)
                } else {
                    TokenKindV::DeclName(chars_of(run))
                };
                &&& tokens_view(final(self).tokens@) == tokens_view(old(self).tokens@).push(
                    TokenV {
                        kind: kv,
                        filepath: old(self).filepath@,
                        coord: (old(self).line as int, wcol),
                    },
                )
                &&& final(self).pos as int == if e < s.len() {
                    e + 1
                } else {
                    e
                }
                &&& final(self).line as int == next_line(b2, old(self).line as int)
                &&& final(self).col as int == next_col(b2, wcol)
                &&& final(self).current_char == byte_at(s, final(self).pos as int)
            }),
    {
        let ghost old_tokens = self.tokens@;
        let current_word = self.get_current_word();
        let ret_word = String::from_str("return");
        if current_word == ret_word {
            self.push_token(TokenKind::KEYWORD(KeywordKind::RETURN));
        } else {
            self.variable_declaration(current_word);
        }
        proof {
            assert(tokens_view(self.tokens@) =~= tokens_view(old_tokens).push(
                self.tokens@.last()@,
            ));
        }
    }

    fn variable_declaration(&mut self, name: String)
        requires
            old(self).wf(),
            old(self).line + old(self).col <= old(self).pos + 2,
        ensures
            final(self).wf(),
            final(self).input == old(self).input,
            final(self).filepath == old(self).filepath,
            final(self).tokens@ == old(self).tokens@.push(
                Token {
                    kind: TokenKind::DECL_NAME(name),
                    filepath: old(self).filepath,
                    coord: (old(self).line, old(self).col),
                },
            ),
            final(self).pos as int == if old(self).pos < old(self).bytes().len() {
                old(self).pos + 1
            } else {
                old(self).pos as int
            },
            final(self).line as int == next_line(old(self).current_char, old(self).line as int),
            final(self).col as int == next_col(old(self).current_char, old(self).col as int),
            final(self).current_char == byte_at(final(self).bytes(), final(self).pos as int),
    {
        self.push_token(TokenKind::DECL_NAME(name));
    }

    /// On `//`, scans the rest of the line as a comment token; on a single
    /// `/`, emits the division operator for just that character.
    #[verifier::loop_isolation(false)]
    fn comment(&mut self)
        requires
            old(self).wf(),
            old(self).line + old(self).col <= old(self).pos + 2,
            old(self).current_char == 47,
        ensures
            final(self).wf(),
            final(self).input == old(self).input,
            final(self).filepath == old(self).filepath,
            ({
                let s = old(self).bytes();
                let start = old(self).pos as int;
                let line0 = old(self).line as int;
                let col0 = old(self).col as int;
                if byte_at(s, start + 1) == 47 {
                    let e = comment_run_end(s, start + 2);
                    let run = s.subrange(start + 2, e);
                    let ccol = col0 + (e - start);
                    let b2 = byte_at(s, e);
                    &&& tokens_view(final(self).tokens@) == tokens_view(old(self).tokens@).push(
                        TokenV {
                            kind: TokenKindV::Comment(chars_of(run)),
                            filepath: old(self).filepath@,
                            coord: (line0, ccol),
                        },
                    )
                    &&& final(self).pos as int == if e < s.len() {
                        e + 1
                    } else {
                        e
                    }
                    &&& final(self).line as int == next_line(b2, line0)
                    &&& final(self).col as int == next_col(b2, ccol)
                    &&& final(self).current_char == byte_at(s, final(self).pos as int)
                } else {
                    &&& tokens_view(final(self).tokens@) == tokens_view(old(self).tokens@).push(
                        TokenV {
                            kind: TokenKindV::Div,
                            filepath: old(self).filepath@,
                            coord: (line0, col0),
                        },
                    )
                    &&& final(self).pos == start + 1
                    &&& final(self).line as int == line0
                    &&& final(self).col as int == col0 + 1
                    &&& final(self).current_char == byte_at(s, final(self).pos as int)
                }
            }),
    {
        let ghost s = self.bytes();
        let ghost old_tokens = self.tokens@;
        let start_line = self.line;
        let start_col = self.col;
        self.advance();
        if self.current_char == 47 {
            self.advance();
            let ghost cstart = self.pos as int;
            let mut text = String::new();
            proof {
                assert(text@ =~= chars_of(s.subrange(cstart, cstart)));
                assert(s.subrange(cstart, cstart) =~= Seq::<u8>::empty());
            }
            while self.current_char != 10 && self.current_char != 0
                invariant
                    self.wf(),
                    self.input == old(self).input,
                    self.filepath == old(self).filepath,
                    self.tokens == old(self).tokens,
                    s == self.bytes(),
                    cstart <= self.pos <= s.len(),
                    forall|j: int| cstart <= j < self.pos ==> #[trigger] s[j] != 10 && s[j] != 0,
                    self.line == old(self).line,
                    self.col as int == old(self).col + (self.pos - old(self).pos),
                    self.current_char == byte_at(s, self.pos as int),
                    text@ == chars_of(s.subrange(cstart, self.pos as int)),
                decreases s.len() - self.pos,
            {
                let b = self.current_char;
                let ghost run = s.subrange(cstart, self.pos as int);
                let ghost run2 = s.subrange(cstart, self.pos + 1 as int);
                text.push(b as char);
                proof {
                    assert(chars_of(run2) =~= chars_of(run).push(b as char));
                }
                self.advance();
                proof {
                    assert(s.subrange(cstart, self.pos as int) == run2);
                }
            }
            proof {
                lemma_comment_run_end_unique(s, cstart, self.pos as int);
            }
            self.push_token(TokenKind::COMMENT(text));
            proof {
                assert(tokens_view(self.tokens@) =~= tokens_view(old_tokens).push(
                    self.tokens@.last()@,
                ));
            }
        } else {
            let tok = Token::new(TokenKind::DIV, self.filepath.clone(), (start_line, start_col));
            self.tokens.push(tok);
            proof {
                assert(tokens_view(self.tokens@) =~= tokens_view(old_tokens).push(
                    self.tokens@.last()@,
                ));
            }
        }
    }

    /// Scans the whole input from the current position.  On success the
    /// returned sequence is exactly the tokens of the specification scanner
    /// [`lex_from`], ending in one `EOF` token; on failure the error is the
    /// scanner's, and `self.tokens` holds exactly the tokens scanned before
    /// the failure.
    #[verifier::rlimit(60)]
    #[verifier::loop_isolation(false)]
    pub fn tokenise(&mut self) -> (r: Result<Vec<Token>, Error>)
        requires
            old(self).wf(),
        ensures
            final(self).wf(),
            final(self).input == old(self).input,
            final(self).filepath == old(self).filepath,
            ({
                let out = lex_from(
                    old(self).bytes(),
                    old(self).filepath@,
                    old(self).pos as int,
                    old(self).line as int,
                    old(self).col as int,
                );
                &&& tokens_view(final(self).tokens@) == tokens_view(old(self).tokens@) + out.tokens
                &&& match r {
                    Ok(ts) => out.err is None && ts@ == final(self).tokens@,
                    Err(e) => out.err == Some(e@),
                }
            }),
    {
        self.get_current_char();
        let ghost s = self.bytes();
        let ghost fp = self.filepath@;
        let ghost base = tokens_view(self.tokens@);
        let ghost out0 = lex_from(s, fp, self.pos as int, self.line as int, self.col as int);
        let ghost mut acc: Seq<TokenV> = Seq::empty();
        proof {
            assert(tokens_view(self.tokens@) =~= base + acc);
            assert(out0.tokens =~= acc + out0.tokens);
        }
        loop
            invariant
                self.wf(),
                self.input == old(self).input,
                self.filepath == old(self).filepath,
                s == self.bytes(),
                fp == self.filepath@,
                tokens_view(self.tokens@) == base + acc,
                ({
                    let cur = lex_from(s, fp, self.pos as int, self.line as int, self.col as int);
                    &&& out0.tokens == acc + cur.tokens
                    &&& out0.err == cur.err
                }),
            decreases s.len() - self.pos + 1,
        {
            let ghost pos0 = self.pos as int;
            let ghost line0 = self.line as int;
            let ghost col0 = self.col as int;
            let ghost cur = lex_from(s, fp, pos0, line0, col0);
            let ghost toks0 = self.tokens@;
            match self.current_char {
                32 | 9 | 10 => {
                    self.advance();
                },
                48..=57 => {
                    let token = match self.num_token() {
                        Ok(t) => t,
                        Err(e) => {
                            proof {
                                assert(out0.tokens =~= acc);
                            }
                            return Err(e);
                        },
                    };
                    proof {
                        lemma_alnum_run_end(s, pos0);
                    }
                    self.tokens.push(token);
                    proof {
                        lemma_tokens_view_push(toks0, self.tokens@.last());
                        acc = acc.push(self.tokens@.last()@);
                        assert(tokens_view(self.tokens@) =~= base + acc);
                        let rest = lex_from(
                            s,
                            fp,
                            self.pos as int,
                            self.line as int,
                            self.col as int,
                        );
                        assert(cur.tokens =~= seq![self.tokens@.last()@] + rest.tokens);
                        assert(out0.tokens =~= acc + rest.tokens);
                    }
                },
                97..=122 | 65..=90 => {
                    proof {
                        lemma_word_run_end(s, pos0);
                    }
                    self.check_keyword();
                    proof {
                        let e = word_run_end(s, pos0);
                        let run = s.subrange(pos0, e);
                        let wcol = col0 + (e - pos0);
                        let b2 = byte_at(s, e);
                        let kv = if chars_of(run) == "return"@ {
                            TokenKindV::Keyword(KeywordKind::RETURN)
                        } else {
                            TokenKindV::DeclName(chars_of(run))
                        };
                        let tokv = TokenV { kind: kv, filepath: fp, coord: (line0, wcol) };
                        let n: int = self.tokens@.len() as int;
                        assert(tokens_view(self.tokens@).len() == n);
                        assert(tokens_view(self.tokens@)[n - 1] == self.tokens@[n - 1]@);
                        assert(tokens_view(self.tokens@)[n - 1] == tokv);
                        assert(self.tokens@.last()@ == tokv);
                        acc = acc.push(tokv);
                        assert(tokens_view(self.tokens@) =~= base + acc);
                        assert(self.line as int == next_line(b2, line0));
                        assert(self.col as int == next_col(b2, wcol));
                        assert(cur == lex_prepend(
                            tokv,
                            lex_from(s, fp, e + 1, next_line(b2, line0), next_col(b2, wcol)),
                        ));
                        if e == s.len() {
                            assert(lex_from(s, fp, e + 1, self.line as int, self.col as int)
                                == lex_from(s, fp, e, self.line as int, self.col as int));
                        }
                        let rest = lex_from(
                            s,
                            fp,
                            self.pos as int,
                            self.line as int,
                            self.col as int,
                        );
                        assert(cur.tokens =~= seq![self.tokens@.last()@] + rest.tokens);
                        assert(out0.tokens =~= acc + rest.tokens);
                    }
                },
                43 => {
                    self.push_token(TokenKind::PLUS);
                    proof {
                        lemma_tokens_view_push(toks0, self.tokens@.last());
                        acc = acc.push(self.tokens@.last()@);
                        assert(tokens_view(self.tokens@) =~= base + acc);
                        let rest = lex_from(
                            s,
                            fp,
                            self.pos as int,
                            self.line as int,
                            self.col as int,
                        );
                        assert(cur.tokens =~= seq![self.tokens@.last()@] + rest.tokens);
                        assert(out0.tokens =~= acc + rest.tokens);
                    }
                },
                45 => {
                    self.push_token(TokenKind::MINUS);
                    proof {
                        lemma_tokens_view_push(toks0, self.tokens@.last());
                        acc = acc.push(self.tokens@.last()@);
                        assert(tokens_view(self.tokens@) =~= base + acc);
                        let rest = lex_from(
                            s,
                            fp,
                            self.pos as int,
                            self.line as int,
                            self.col as int,
                        );
                        assert(cur.tokens =~= seq![self.tokens@.last()@] + rest.tokens);
                        assert(out0.tokens =~= acc + rest.tokens);
                    }
                },
                42 => {
                    self.push_token(TokenKind::MUL);
                    proof {
                        lemma_tokens_view_push(toks0, self.tokens@.last());
                        acc = acc.push(self.tokens@.last()@);
                        assert(tokens_view(self.tokens@) =~= base + acc);
                        let rest = lex_from(
                            s,
                            fp,
                            self.pos as int,
                            self.line as int,
                            self.col as int,
                        );
                        assert(cur.tokens =~= seq![self.tokens@.last()@] + rest.tokens);
                        assert(out0.tokens =~= acc + rest.tokens);
                    }
                },
                47 => {
                    proof {
                        if pos0 + 2 <= s.len() {
                            lemma_comment_run_end(s, pos0 + 2);
                        }
                    }
                    self.comment();
                    proof {
                        let tokv = if byte_at(s, pos0 + 1) == 47 {
                            let e = comment_run_end(s, pos0 + 2);
                            let run = s.subrange(pos0 + 2, e);
                            TokenV {
                                kind: TokenKindV::Comment(chars_of(run)),
                                filepath: fp,
                                coord: (line0, col0 + (e - pos0)),
                            }
                        } else {
                            TokenV { kind: TokenKindV::Div, filepath: fp, coord: (line0, col0) }
                        };
                        let n: int = self.tokens@.len() as int;
                        assert(tokens_view(self.tokens@).len() == n);
                        assert(tokens_view(self.tokens@)[n - 1] == self.tokens@[n - 1]@);
                        assert(tokens_view(self.tokens@)[n - 1] == tokv);
                        assert(self.tokens@.last()@ == tokv);
                        acc = acc.push(tokv);
                        assert(tokens_view(self.tokens@) =~= base + acc);
                        if byte_at(s, pos0 + 1) == 47 {
                            let e = comment_run_end(s, pos0 + 2);
                            if e == s.len() {
                                assert(lex_from(s, fp, e + 1, self.line as int, self.col as int)
                                    == lex_from(s, fp, e, self.line as int, self.col as int));
                            }
                        }
                        let rest = lex_from(
                            s,
                            fp,
                            self.pos as int,
                            self.line as int,
                            self.col as int,
                        );
                        assert(cur.tokens =~= seq![self.tokens@.last()@] + rest.tokens);
                        assert(out0.tokens =~= acc + rest.tokens);
                    }
                },
                61 => {
                    self.push_token(TokenKind::EQUALS);
                    proof {
                        lemma_tokens_view_push(toks0, self.tokens@.last());
                        acc = acc.push(self.tokens@.last()@);
                        assert(tokens_view(self.tokens@) =~= base + acc);
                        let rest = lex_from(
                            s,
                            fp,
                            self.pos as int,
                            self.line as int,
                            self.col as int,
                        );
                        assert(cur.tokens =~= seq![self.tokens@.last()@] + rest.tokens);
                        assert(out0.tokens =~= acc + rest.tokens);
                    }
                },
                59 => {
                    self.push_token(TokenKind::SEMICOLON);
                    proof {
                        lemma_tokens_view_push(toks0, self.tokens@.last());
                        acc = acc.push(self.tokens@.last()@);
                        assert(tokens_view(self.tokens@) =~= base + acc);
                        let rest = lex_from(
                            s,
                            fp,
                            self.pos as int,
                            self.line as int,
                            self.col as int,
                        );
                        assert(cur.tokens =~= seq![self.tokens@.last()@] + rest.tokens);
                        assert(out0.tokens =~= acc + rest.tokens);
                    }
                },
                40 => {
                    self.push_token(TokenKind::LPAREN);
                    proof {
                        lemma_tokens_view_push(toks0, self.tokens@.last());
                        acc = acc.push(self.tokens@.last()@);
                        assert(tokens_view(self.tokens@) =~= base + acc);
                        let rest = lex_from(
                            s,
                            fp,
                            self.pos as int,
                            self.line as int,
                            self.col as int,
                        );
                        assert(cur.tokens =~= seq![self.tokens@.last()@] + rest.tokens);
                        assert(out0.tokens =~= acc + rest.tokens);
                    }
                },
                41 => {
                    self.push_token(TokenKind::RPAREN);
                    proof {
                        lemma_tokens_view_push(toks0, self.tokens@.last());
                        acc = acc.push(self.tokens@.last()@);
                        assert(tokens_view(self.tokens@) =~= base + acc);
                        let rest = lex_from(
                            s,
                            fp,
                            self.pos as int,
                            self.line as int,
                            self.col as int,
                        );
                        assert(cur.tokens =~= seq![self.tokens@.last()@] + rest.tokens);
                        assert(out0.tokens =~= acc + rest.tokens);
                    }
                },
                123 => {
                    self.push_token(TokenKind::CURLY_LPAREN);
                    proof {
                        lemma_tokens_view_push(toks0, self.tokens@.last());
                        acc = acc.push(self.tokens@.last()@);
                        assert(tokens_view(self.tokens@) =~= base + acc);
                        let rest = lex_from(
                            s,
                            fp,
                            self.pos as int,
                            self.line as int,
                            self.col as int,
                        );
                        assert(cur.tokens =~= seq![self.tokens@.last()@] + rest.tokens);
                        assert(out0.tokens =~= acc + rest.tokens);
                    }
                },
                125 => {
                    self.push_token(TokenKind::CURLY_RPAREN);
                    proof {
                        lemma_tokens_view_push(toks0, self.tokens@.last());
                        acc = acc.push(self.tokens@.last()@);
                        assert(tokens_view(self.tokens@) =~= base + acc);
                        let rest = lex_from(
                            s,
                            fp,
                            self.pos as int,
                            self.line as int,
                            self.col as int,
                        );
                        assert(cur.tokens =~= seq![self.tokens@.last()@] + rest.tokens);
                        assert(out0.tokens =~= acc + rest.tokens);
                    }
                },
                0 => {
                    let tok = Token::new(
                        TokenKind::EOF,
                        self.filepath.clone(),
                        (self.line, self.col),
                    );
                    self.tokens.push(tok);
                    proof {
                        lemma_tokens_view_push(toks0, self.tokens@.last());
                        acc = acc.push(self.tokens@.last()@);
                        assert(tokens_view(self.tokens@) =~= base + acc);
                        assert(cur.tokens =~= seq![self.tokens@.last()@]);
                        assert(out0.tokens =~= acc);
                    }
                    let ts = clone_tokens(&self.tokens);
                    return Ok(ts);
                },
                _ => {
                    let mut found = String::new();
                    found.push(self.current_char as char);
                    proof {
                        assert(found@ =~= seq![byte_at(s, pos0) as char]);
                        assert(out0.tokens =~= acc);
                    }
                    return Err(
                        Error::IllegalSyntaxError {
                            found,
                            filepath: self.filepath.clone(),
                            coord: (self.line, self.col),
                        },
                    );
                },
            }
        }
    }
}

// =========================
//  Token rendering
// =========================

/// The rendering of a token kind in diagnostics, as the parser reports what
/// it found: the variant name, with a literal's value or a word's text in
/// parentheses.
pub open spec fn kind_text(k: TokenKindV) -> Seq<char> {
    match k {
        TokenKindV::Int(x) => "INT("@ + crate::text::int_text(x as int) + ")"@,
        TokenKindV::DeclName(s) => "DECL_NAME(\""@ + s + "\")"@,
        TokenKindV::Keyword(KeywordKind::RETURN) => "KEYWORD(RETURN)"@,
        TokenKindV::Comment(s) => "COMMENT(\""@ + s + "\")"@,
        TokenKindV::Plus => "PLUS"@,
        TokenKindV::Minus => "MINUS"@,
        TokenKindV::Mul => "MUL"@,
        TokenKindV::Div => "DIV"@,
        TokenKindV::Equals => "EQUALS"@,
        TokenKindV::Semicolon => "SEMICOLON"@,
        TokenKindV::LParen => "LPAREN"@,
        TokenKindV::RParen => "RPAREN"@,
        TokenKindV::CurlyLParen => "CURLY_LPAREN"@,
        TokenKindV::CurlyRParen => "CURLY_RPAREN"@,
        TokenKindV::Eof => "EOF"@,
    }
}

impl TokenKind {
    /// Renders this kind as diagnostics print it; see [`kind_text`].
    pub fn text(&self) -> (r: String)
        ensures
            r@ == kind_text(self@),
    {
        match self {
            TokenKind::INT(x) => {
                let mut out = String::from_str("INT(");
                let digits = crate::text::i32_string(*x);
                out.append(digits.as_str());
                out.append(")");
                assert(out@ =~= kind_text(self@));
                out
            },
            TokenKind::DECL_NAME(s) => {
                let mut out = String::from_str("DECL_NAME(\"");
                out.append(s.as_str());
                out.append("\")");
                assert(out@ =~= kind_text(self@));
                out
            },
            TokenKind::KEYWORD(KeywordKind::RETURN) => String::from_str("KEYWORD(RETURN)"),
            TokenKind::COMMENT(s) => {
                let mut out = String::from_str("COMMENT(\"");
                out.append(s.as_str());
                out.append("\")");
                assert(out@ =~= kind_text(self@));
                out
            },
            TokenKind::PLUS => String::from_str("PLUS"),
            TokenKind::MINUS => String::from_str("MINUS"),
            TokenKind::MUL => String::from_str("MUL"),
            TokenKind::DIV => String::from_str("DIV"),
            TokenKind::EQUALS => String::from_str("EQUALS"),
            TokenKind::SEMICOLON => String::from_str("SEMICOLON"),
            TokenKind::LPAREN => String::from_str("LPAREN"),
            TokenKind::RPAREN => String::from_str("RPAREN"),
            TokenKind::CURLY_LPAREN => String::from_str("CURLY_LPAREN"),
            TokenKind::CURLY_RPAREN => String::from_str("CURLY_RPAREN"),
            TokenKind::EOF => String::from_str("EOF"),
        }
    }
}

// =========================
//  Laws of the scanner
// =========================

/// The decimal digit bytes of a natural number, most significant first.
pub open spec fn dec_bytes(n: nat) -> Seq<u8>
    decreases n,
{
    if n < 10 {
        seq![(48 + n) as u8]
    } else {
        dec_bytes(n / 10) + seq![(48 + n % 10) as u8]
    }
}

pub proof fn lemma_dec_bytes(n: nat)
    ensures
        dec_bytes(n).len() >= 1,
        all_digits(dec_bytes(n)),
        digits_val(dec_bytes(n)) == n,
    decreases n,
{
    if n < 10 {
        let s = dec_bytes(n);
        assert(s =~= seq![(48 + n) as u8]);
        assert(s.drop_last() =~= Seq::<u8>::empty());
        assert(digits_val(Seq::<u8>::empty()) == 0);
        assert(s.last() == (48 + n) as u8);
        assert(digits_val(s) == n);
    } else {
        lemma_dec_bytes(n / 10);
        let p = dec_bytes(n / 10);
        let d = (48 + n % 10) as u8;
        let s = dec_bytes(n);
        assert(s == p + seq![d]);
        assert(s.drop_last() =~= p);
        assert(s.last() == d);
        assert(digits_val(s) == digits_val(p) * 10 + d - 48);
        assert(digits_val(s) == (n / 10) * 10 + n % 10);
        assert forall|i: int| 0 <= i < s.len() implies is_digit(#[trigger] s[i]) by {
            if i < p.len() {
                assert(s[i] == p[i]);
            } else {
                assert(s[i] == d);
            }
        }
    }
}

/// Lexing the bare decimal text of any in-range integer literal yields
/// exactly two tokens: the integer token with that value, then `EOF`.  Both
/// carry the coordinate one column past the literal, on line one.
pub proof fn lemma_lex_int_literal(n: i32, fp: Seq<char>)
    requires
        0 <= n,
    ensures
        ({
            let s = dec_bytes(n as nat);
            let end = (1 + s.len()) as int;
            lex_from(s, fp, 0, 1, 1) == (LexOut {
                tokens: seq![
                    TokenV { kind: TokenKindV::Int(n), filepath: fp, coord: (1, end) },
                    TokenV { kind: TokenKindV::Eof, filepath: fp, coord: (1, end) },
                ],
                err: None,
            })
        }),
{
    let s = dec_bytes(n as nat);
    lemma_dec_bytes(n as nat);
    let len: int = s.len() as int;
    assert(is_digit(s[0]));
    assert(byte_at(s, 0) == s[0]);
    assert forall|k: int| 0 <= k < len implies is_alnum(#[trigger] s[k]) by {}
    lemma_alnum_run_end_unique(s, 0, len);
    let run = s.subrange(0, len);
    assert(run =~= s);
    assert(int_run_ok(run));
    let end = 1 + len;
    assert(byte_at(s, len) == 0);
    let rest = lex_from(s, fp, len, 1, end);
    assert(rest == (LexOut {
        tokens: seq![TokenV { kind: TokenKindV::Eof, filepath: fp, coord: (1, end) }],
        err: None,
    }));
    let tok = TokenV { kind: TokenKindV::Int(digits_val(run) as i32), filepath: fp, coord: (
        1,
        end,
    ) };
    assert(digits_val(run) as i32 == n);
    assert(lex_from(s, fp, 0, 1, 1) == lex_prepend(tok, rest));
    assert(seq![tok] + rest.tokens =~= seq![
        TokenV { kind: TokenKindV::Int(n), filepath: fp, coord: (1, end) },
        TokenV { kind: TokenKindV::Eof, filepath: fp, coord: (1, end) },
    ]);
}

} // verus!
