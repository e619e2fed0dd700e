use toyc::ast::Node;
use toyc::error::Error;
use toyc::lexer::{KeywordKind, Lexer, Token, TokenKind};
use toyc::parser::Parser;

fn tokens_of(src: &str) -> Vec<Token> {
    let mut lexer = Lexer::new(src.to_string(), "t.c".to_string());
    lexer.tokenise().unwrap()
}

fn parse(src: &str) -> Result<Node, Error> {
    let mut parser = Parser::new(tokens_of(src), "t.c".to_string());
    parser.parse()
}

fn int_value(n: &Node) -> i32 {
    match n {
        Node::Primary(t) => match t.kind {
            TokenKind::INT(x) => x,
            _ => panic!("not an integer leaf"),
        },
        _ => panic!("not a leaf"),
    }
}

#[test]
fn return_statement_parses_with_precedence() {
    // { return 1+2*3; } is one block holding one return whose operand
    // groups as 1 + (2 * 3)
    let ast = parse("{ return 1+2*3; }").unwrap();
    match &ast {
        Node::CompoundExpr { nodes } => {
            assert_eq!(nodes.len(), 1);
            match &nodes[0] {
                Node::UnaryExpr { token, node } => {
                    assert!(matches!(
                        token.kind,
                        TokenKind::KEYWORD(KeywordKind::RETURN)
                    ));
                    match &**node {
                        Node::BinaryExpr { token, left, right } => {
                            assert!(matches!(token.kind, TokenKind::PLUS));
                            assert_eq!(int_value(left), 1);
                            match &**right {
                                Node::BinaryExpr { token, left, right } => {
                                    assert!(matches!(token.kind, TokenKind::MUL));
                                    assert_eq!(int_value(left), 2);
                                    assert_eq!(int_value(right), 3);
                                }
                                _ => panic!("expected 2*3"),
                            }
                        }
                        _ => panic!("expected a binary operand"),
                    }
                }
                _ => panic!("expected a return statement"),
            }
        }
        _ => panic!("expected a block"),
    }
}

#[test]
fn parentheses_change_grouping() {
    // (1+2)*3 groups the sum under the product
    let ast = parse("{ return (1+2)*3; }").unwrap();
    match &ast {
        Node::CompoundExpr { nodes } => match &nodes[0] {
            Node::UnaryExpr { node, .. } => match &**node {
                Node::BinaryExpr { token, left, right } => {
                    assert!(matches!(token.kind, TokenKind::MUL));
                    assert_eq!(int_value(right), 3);
                    match &**left {
                        Node::BinaryExpr { token, left, right } => {
                            assert!(matches!(token.kind, TokenKind::PLUS));
                            assert_eq!(int_value(left), 1);
                            assert_eq!(int_value(right), 2);
                        }
                        _ => panic!("expected 1+2 under the product"),
                    }
                }
                _ => panic!("expected a product"),
            },
            _ => panic!("expected a return statement"),
        },
        _ => panic!("expected a block"),
    }
}

#[test]
fn chained_unary_signs() {
    let ast = parse("{ return --5; }").unwrap();
    match &ast {
        Node::CompoundExpr { nodes } => match &nodes[0] {
            Node::UnaryExpr { node, .. } => match &**node {
                Node::UnaryExpr { token, node } => {
                    assert!(matches!(token.kind, TokenKind::MINUS));
                    match &**node {
                        Node::UnaryExpr { token, node } => {
                            assert!(matches!(token.kind, TokenKind::MINUS));
                            assert_eq!(int_value(node), 5);
                        }
                        _ => panic!("expected the inner sign"),
                    }
                }
                _ => panic!("expected the outer sign"),
            },
            _ => panic!("expected a return statement"),
        },
        _ => panic!("expected a block"),
    }
}

#[test]
fn unmatched_paren_reports_expected_rparen_at_end_of_input() {
    // parsing the expression (1+2 fails wanting `)` at the end of input
    let mut parser = Parser::new(tokens_of("(1+2"), "t.c".to_string());
    let err = parser.expr().unwrap_err();
    match err {
        Error::FoundExpectedError {
            found,
            expected,
            filepath,
            coord,
        } => {
            assert_eq!(found, "EOF");
            assert_eq!(expected, ")");
            assert_eq!(filepath, "t.c");
            assert_eq!(coord, (1, 5));
        }
        _ => panic!("expected a found/expected error"),
    }
}

#[test]
fn program_must_start_with_a_brace() {
    let err = parse("1").unwrap_err();
    match err {
        Error::FoundExpectedError {
            found, expected, ..
        } => {
            assert_eq!(found, "INT(1)");
            assert_eq!(expected, "CURLY_LPAREN");
        }
        _ => panic!("expected a found/expected error"),
    }
}

#[test]
fn declaration_parses_as_binary_equals() {
    let ast = parse("{ x = 1+2; }").unwrap();
    match &ast {
        Node::CompoundExpr { nodes } => match &nodes[0] {
            Node::BinaryExpr { token, left, .. } => {
                assert!(matches!(token.kind, TokenKind::EQUALS));
                match &**left {
                    Node::Primary(t) => {
                        assert_eq!(t.kind, TokenKind::DECL_NAME("x".to_string()));
                    }
                    _ => panic!("expected the declared name on the left"),
                }
            }
            _ => panic!("expected a declaration"),
        },
        _ => panic!("expected a block"),
    }
    // declarations are rejected by the generator's callers
    assert!(!ast.is_gen_supported());
}

#[test]
fn declaration_without_equals_is_rejected() {
    let err = parse("{ x 1; }").unwrap_err();
    match err {
        Error::FoundExpectedError {
            found, expected, ..
        } => {
            assert_eq!(found, "INT(1)");
            assert_eq!(expected, "EQUALS");
        }
        _ => panic!("expected a found/expected error"),
    }
}

#[test]
fn stray_statement_token_is_illegal_syntax() {
    let err = parse("{ ; }").unwrap_err();
    match err {
        Error::IllegalSyntaxError { found, .. } => {
            assert_eq!(found, "SEMICOLON");
        }
        _ => panic!("expected an illegal-syntax error"),
    }
}

#[test]
fn bare_expression_statement() {
    let ast = parse("{ 1+2; }").unwrap();
    match &ast {
        Node::CompoundExpr { nodes } => {
            assert_eq!(nodes.len(), 1);
            assert!(matches!(&nodes[0], Node::BinaryExpr { .. }));
        }
        _ => panic!("expected a block"),
    }
}

#[test]
fn generated_tree_is_supported_without_declarations() {
    let ast = parse("{ return 1+2; }").unwrap();
    assert!(ast.is_gen_supported());
}
