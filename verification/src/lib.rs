//! A small ahead-of-time compiler for a toy imperative language: integer
//! arithmetic with unary sign, `return` statements, declaration-style
//! assignments, braced statement blocks and line comments.
//!
//! The pipeline runs strictly one way: source text is scanned into a token
//! sequence ([`lexer`]), the tokens are parsed by recursive descent into an
//! abstract syntax tree ([`ast`], [`parser`]), and the tree is walked once to
//! emit AT&T-syntax x86-64 assembly text ([`generator`]).  Lexical and
//! syntactic failures are reported as [`error::Error`] values carrying the
//! source file and a (line, column) coordinate.
//!
//! Every stage carries a full functional specification: the lexer and parser
//! are proved equal to specification-level scanners over the token model, and
//! the generator's output is proved, over an abstract machine model
//! ([`machine`]), to leave the value of the compiled expression in the
//! accumulator register.

pub mod ast;
pub mod error;
pub mod generator;
pub mod lexer;
pub mod machine;
pub mod parser;
pub mod text;
