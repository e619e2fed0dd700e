use toyc::error::Error;
use toyc::lexer::{KeywordKind, TokenKind};
use toyc::text::{i32_string, u32_string};

#[test]
fn decimal_rendering_of_unsigned_values() {
    assert_eq!(u32_string(0), "0");
    assert_eq!(u32_string(7), "7");
    assert_eq!(u32_string(10), "10");
    assert_eq!(u32_string(4294967295), "4294967295");
}

#[test]
fn decimal_rendering_of_signed_values() {
    assert_eq!(i32_string(0), "0");
    assert_eq!(i32_string(2147483647), "2147483647");
    assert_eq!(i32_string(-1), "-1");
    assert_eq!(i32_string(-2147483648), "-2147483648");
}

#[test]
fn token_kinds_render_like_diagnostics() {
    assert_eq!(TokenKind::INT(5).text(), "INT(5)");
    assert_eq!(TokenKind::INT(-12).text(), "INT(-12)");
    assert_eq!(
        TokenKind::DECL_NAME("x".to_string()).text(),
        "DECL_NAME(\"x\")"
    );
    assert_eq!(
        TokenKind::KEYWORD(KeywordKind::RETURN).text(),
        "KEYWORD(RETURN)"
    );
    assert_eq!(TokenKind::COMMENT("hi".to_string()).text(), "COMMENT(\"hi\")");
    assert_eq!(TokenKind::PLUS.text(), "PLUS");
    assert_eq!(TokenKind::CURLY_LPAREN.text(), "CURLY_LPAREN");
    assert_eq!(TokenKind::EOF.text(), "EOF");
}

#[test]
fn illegal_syntax_error_renders_with_location() {
    let err = Error::IllegalSyntaxError {
        found: "#".to_string(),
        filepath: "main.c".to_string(),
        coord: (1, 3),
    };
    assert_eq!(
        err.render(),
        "ERROR: Illegal Syntax Error\n  -->  main.c:1:3\nFound: #"
    );
}

#[test]
fn found_expected_error_renders_with_both_parts() {
    let err = Error::FoundExpectedError {
        found: "INT(5)".to_string(),
        expected: ")".to_string(),
        filepath: "main.c".to_string(),
        coord: (12, 40),
    };
    assert_eq!(
        err.render(),
        "ERROR: Invalid Syntax Error\n  -->  main.c:12:40\nFound INT(5), Expected )"
    );
}
