use toyc::error::Error;
use toyc::lexer::{KeywordKind, Lexer, Token, TokenKind};

fn lex(src: &str) -> Result<Vec<Token>, Error> {
    let mut lexer = Lexer::new(src.to_string(), "t.c".to_string());
    lexer.tokenise()
}

fn tok(kind: TokenKind, line: u32, col: u32) -> Token {
    Token::new(kind, "t.c".to_string(), (line, col))
}

#[test]
fn lexes_bare_integer_literal() {
    // an integer literal lexes to exactly two tokens: the value, then EOF
    let tokens = lex("42").unwrap();
    assert_eq!(
        tokens,
        vec![tok(TokenKind::INT(42), 1, 3), tok(TokenKind::EOF, 1, 3)]
    );
}

#[test]
fn lexes_zero() {
    let tokens = lex("0").unwrap();
    assert_eq!(
        tokens,
        vec![tok(TokenKind::INT(0), 1, 2), tok(TokenKind::EOF, 1, 2)]
    );
}

#[test]
fn lexes_largest_literal() {
    let tokens = lex("2147483647").unwrap();
    assert_eq!(
        tokens,
        vec![
            tok(TokenKind::INT(2147483647), 1, 11),
            tok(TokenKind::EOF, 1, 11)
        ]
    );
}

#[test]
fn rejects_out_of_range_literal() {
    let err = lex("2147483648").unwrap_err();
    match err {
        Error::IllegalSyntaxError {
            found,
            filepath,
            coord,
        } => {
            assert_eq!(found, "2147483648");
            assert_eq!(filepath, "t.c");
            assert_eq!(coord, (1, 1));
        }
        _ => panic!("expected an illegal-syntax error"),
    }
}

#[test]
fn rejects_letters_in_integer_run() {
    // a maximal alphanumeric run starting with a digit must parse as i32
    let err = lex("12ab").unwrap_err();
    match err {
        Error::IllegalSyntaxError { found, coord, .. } => {
            assert_eq!(found, "12ab");
            assert_eq!(coord, (1, 1));
        }
        _ => panic!("expected an illegal-syntax error"),
    }
}

#[test]
fn illegal_character_aborts_at_exact_coordinate() {
    // the illegal byte is reported at its own (line, column), and no tokens
    // beyond the already scanned ones are produced
    let mut lexer = Lexer::new("1 # 2".to_string(), "t.c".to_string());
    let err = lexer.tokenise().unwrap_err();
    match err {
        Error::IllegalSyntaxError {
            found,
            filepath,
            coord,
        } => {
            assert_eq!(found, "#");
            assert_eq!(filepath, "t.c");
            assert_eq!(coord, (1, 3));
        }
        _ => panic!("expected an illegal-syntax error"),
    }
    assert_eq!(lexer.tokens, vec![tok(TokenKind::INT(1), 1, 2)]);
}

#[test]
fn comment_token_carries_text_and_keeps_boundaries() {
    // a line comment produces a single comment token and does not disturb
    // the tokens around it
    let tokens = lex("1 //hi\n2").unwrap();
    assert_eq!(
        tokens,
        vec![
            tok(TokenKind::INT(1), 1, 2),
            tok(TokenKind::COMMENT("hi".to_string()), 1, 7),
            tok(TokenKind::INT(2), 2, 2),
            tok(TokenKind::EOF, 2, 2),
        ]
    );
}

#[test]
fn comment_only_input() {
    let tokens = lex("//text").unwrap();
    assert_eq!(
        tokens,
        vec![
            tok(TokenKind::COMMENT("text".to_string()), 1, 7),
            tok(TokenKind::EOF, 1, 8),
        ]
    );
}

#[test]
fn single_slash_is_division_and_consumes_nothing_else() {
    let tokens = lex("8/4").unwrap();
    assert_eq!(
        tokens,
        vec![
            tok(TokenKind::INT(8), 1, 2),
            tok(TokenKind::DIV, 1, 2),
            tok(TokenKind::INT(4), 1, 4),
            tok(TokenKind::EOF, 1, 4),
        ]
    );
}

#[test]
fn keyword_and_declaration_name() {
    let tokens = lex("return x").unwrap();
    assert_eq!(
        tokens,
        vec![
            tok(TokenKind::KEYWORD(KeywordKind::RETURN), 1, 7),
            tok(TokenKind::DECL_NAME("x".to_string()), 1, 9),
            tok(TokenKind::EOF, 1, 10),
        ]
    );
}

#[test]
fn word_runs_extend_to_whitespace() {
    // a word is a maximal run of non-whitespace characters
    let tokens = lex("ab+cd").unwrap();
    assert_eq!(
        tokens,
        vec![
            tok(TokenKind::DECL_NAME("ab+cd".to_string()), 1, 6),
            tok(TokenKind::EOF, 1, 7),
        ]
    );
}

#[test]
fn empty_input_is_one_eof() {
    let tokens = lex("").unwrap();
    assert_eq!(tokens, vec![tok(TokenKind::EOF, 1, 1)]);
}

#[test]
fn nul_byte_ends_the_scan() {
    let tokens = lex("1\u{0}2").unwrap();
    assert_eq!(
        tokens,
        vec![tok(TokenKind::INT(1), 1, 2), tok(TokenKind::EOF, 1, 2)]
    );
}

#[test]
fn operators_and_punctuation() {
    let tokens = lex("{(1+2)*3-4;=}").unwrap();
    let kinds: Vec<TokenKind> = tokens.into_iter().map(|t| t.kind).collect();
    assert_eq!(
        kinds,
        vec![
            TokenKind::CURLY_LPAREN,
            TokenKind::LPAREN,
            TokenKind::INT(1),
            TokenKind::PLUS,
            TokenKind::INT(2),
            TokenKind::RPAREN,
            TokenKind::MUL,
            TokenKind::INT(3),
            TokenKind::MINUS,
            TokenKind::INT(4),
            TokenKind::SEMICOLON,
            TokenKind::EQUALS,
            TokenKind::CURLY_RPAREN,
            TokenKind::EOF,
        ]
    );
}

#[test]
fn newlines_reset_the_column() {
    let tokens = lex("1\n 2").unwrap();
    assert_eq!(
        tokens,
        vec![
            tok(TokenKind::INT(1), 1, 2),
            tok(TokenKind::INT(2), 2, 3),
            tok(TokenKind::EOF, 2, 3),
        ]
    );
}
