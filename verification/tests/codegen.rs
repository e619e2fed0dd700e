use toyc::ast::Node;
use toyc::generator::Generator;
use toyc::lexer::{Lexer, Token, TokenKind};
use toyc::parser::Parser;

fn compile(src: &str) -> Vec<String> {
    let mut lexer = Lexer::new(src.to_string(), "t.c".to_string());
    let tokens = lexer.tokenise().unwrap();
    let mut parser = Parser::new(tokens, "t.c".to_string());
    let ast = parser.parse().unwrap();
    assert!(ast.is_gen_supported());
    let mut generator = Generator::new(ast);
    generator.generate_code_block();
    generator.output
}

#[test]
fn return_of_precedence_expression() {
    // { return 1+2*3; }: the product is evaluated first (right operand of
    // the sum), the sum last; ret is reached with 1 + 2*3 = 7 in %rax
    let lines = compile("{ return 1+2*3; }");
    assert_eq!(
        lines,
        vec![
            ".text",
            ".globl main",
            "main:",
            "    mov $3, %rax",
            "    push %rax",
            "    mov $2, %rax",
            "    pop %rdi",
            "    imul %rdi, %rax",
            "    push %rax",
            "    mov $1, %rax",
            "    pop %rdi",
            "    add %rdi, %rax",
            "    ret",
        ]
    );
}

#[test]
fn parenthesized_grouping_changes_the_code() {
    // { return (1+2)*3; }: the sum is now the left operand of the product,
    // so ret is reached with (1+2)*3 = 9 in %rax
    let lines = compile("{ return (1+2)*3; }");
    assert_eq!(
        lines,
        vec![
            ".text",
            ".globl main",
            "main:",
            "    mov $3, %rax",
            "    push %rax",
            "    mov $2, %rax",
            "    push %rax",
            "    mov $1, %rax",
            "    pop %rdi",
            "    add %rdi, %rax",
            "    pop %rdi",
            "    imul %rdi, %rax",
            "    ret",
        ]
    );
}

#[test]
fn division_sign_extends_before_idiv() {
    let lines = compile("{ return 8/4; }");
    assert_eq!(
        lines,
        vec![
            ".text",
            ".globl main",
            "main:",
            "    mov $4, %rax",
            "    push %rax",
            "    mov $8, %rax",
            "    pop %rdi",
            "    cdq",
            "    idiv %rdi",
            "    ret",
        ]
    );
}

#[test]
fn unary_minus_negates_through_scratch_register() {
    let lines = compile("{ return -5; }");
    assert_eq!(
        lines,
        vec![
            ".text",
            ".globl main",
            "main:",
            "    mov $5, %rax",
            "    mov %rax, %rbx",
            "    mov $0, %rax",
            "    sub %rbx, %rax",
            "    ret",
        ]
    );
}

#[test]
fn double_negation_wraps_the_same_operand_twice() {
    // the code for --5 is the code for 5 followed by two negations, so the
    // accumulator at ret holds 5 again
    let lines = compile("{ return --5; }");
    assert_eq!(
        lines,
        vec![
            ".text",
            ".globl main",
            "main:",
            "    mov $5, %rax",
            "    mov %rax, %rbx",
            "    mov $0, %rax",
            "    sub %rbx, %rax",
            "    mov %rax, %rbx",
            "    mov $0, %rax",
            "    sub %rbx, %rax",
            "    ret",
        ]
    );
}

#[test]
fn unary_plus_is_the_identity() {
    let lines = compile("{ return +5; }");
    assert_eq!(
        lines,
        vec![
            ".text",
            ".globl main",
            "main:",
            "    mov $5, %rax",
            "    ret",
        ]
    );
}

#[test]
fn comment_leaf_renders_as_assembly_comment() {
    // a comment leaf becomes an assembly comment line and nothing more
    let token = Token::new(
        TokenKind::COMMENT(" note".to_string()),
        "t.c".to_string(),
        (1, 7),
    );
    let ast = Node::CompoundExpr {
        nodes: vec![Node::Primary(token)],
    };
    assert!(ast.is_gen_supported());
    let mut generator = Generator::new(ast);
    generator.generate_code_block();
    assert_eq!(
        generator.output,
        vec![".text", ".globl main", "main:", "    # note"]
    );
}

#[test]
fn negative_literal_leaf_renders_with_sign() {
    let token = Token::new(TokenKind::INT(-7), "t.c".to_string(), (1, 1));
    let ast = Node::Primary(token);
    assert!(ast.is_gen_supported());
    let mut generator = Generator::new(ast);
    generator.generate_code_block();
    assert_eq!(
        generator.output,
        vec![".text", ".globl main", "main:", "    mov $-7, %rax"]
    );
}

#[test]
fn empty_block_emits_only_the_preamble() {
    let lines = compile("{}");
    assert_eq!(lines, vec![".text", ".globl main", "main:"]);
}

#[test]
fn statements_emit_in_source_order() {
    let lines = compile("{ return 1; return 2; }");
    assert_eq!(
        lines,
        vec![
            ".text",
            ".globl main",
            "main:",
            "    mov $1, %rax",
            "    ret",
            "    mov $2, %rax",
            "    ret",
        ]
    );
}
