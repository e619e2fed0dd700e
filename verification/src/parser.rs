//! Recursive-descent parsing with one token of lookahead, building the AST
//! bottom-up with standard precedence climbing: `+`/`-` bind at the
//! expression level, `*`/`/` at the term level, and unary signs and
//! parentheses at the factor level.
//!
//! The whole parse is specified by the specification-level parser
//! ([`spec_parse`] and the rules it is built from), and every method of
//! [`Parser`] is proved to return exactly its result.  Parsing is strictly
//! forward-only and fail-fast: every rule consumes tokens monotonically, and
//! the first error aborts the whole parse.
//!
//! One inherited convention: after each element of a block, the parser
//! unconditionally consumes one following token as a separator — this is how
//! the `;` after a statement is swallowed.

use vstd::prelude::*;

use crate::ast::{Node, NodeV};
use crate::error::{Error, ErrorV};
use crate::lexer::{
    alnum_run_end, byte_at, chars_of, comment_run_end, int_run_ok, is_alpha, is_digit, is_ws,
    kind_text, lemma_alnum_run_end, lemma_comment_run_end, lemma_word_run_end, lex_from,
    next_col, next_line, tokens_view, word_run_end, KeywordKind, Token, TokenKind,
    TokenKindV, TokenV,
};

verus! {

/// A successful rule application: the node built, and the index of the next
/// unconsumed token.
pub type ParseStep = Result<(NodeV, int), ErrorV>;

/// The index after one explicit advance: forward by one, staying on the last
/// token once there.
pub open spec fn adv(len: int, i: int) -> int {
    if i + 1 < len {
        i + 1
    } else {
        i
    }
}

/// The current token, one of lookahead.
pub open spec fn cur(toks: Seq<TokenV>, i: int) -> TokenV
    recommends
        0 <= i < toks.len(),
{
    toks[i]
}

/// The token sequences the parser accepts: non-empty, terminated by exactly
/// one `EOF` token, which is never consumed into the tree.
pub open spec fn wf_tokens(toks: Seq<TokenV>) -> bool {
    &&& toks.len() >= 1
    &&& toks[toks.len() - 1].kind is Eof
    &&& forall|i: int| 0 <= i < toks.len() - 1 ==> !((#[trigger] toks[i]).kind is Eof)
}

/// `block`: requires `{`, then elements until `}`.
pub open spec fn spec_scope(toks: Seq<TokenV>, fp: Seq<char>, i: int) -> ParseStep
    decreases toks.len() - i, 5int,
{
    if cur(toks, i).kind is CurlyLParen {
        let i1 = adv(toks.len() as int, i);
        if i1 > i {
            spec_scope_items(toks, fp, i1, Seq::empty())
        } else {
            arbitrary()
        }
    } else {
        Err(
            ErrorV::FoundExpected {
                found: kind_text(cur(toks, i).kind),
                expected: kind_text(TokenKindV::CurlyLParen),
                filepath: fp,
                coord: cur(toks, i).coord,
            },
        )
    }
}

/// The element loop of a block: dispatch on the current token, then consume
/// one token as a separator, until `}` is seen.
pub open spec fn spec_scope_items(toks: Seq<TokenV>, fp: Seq<char>, i: int, acc: Seq<NodeV>) -> ParseStep
    decreases toks.len() - i, 6int,
{
    if cur(toks, i).kind is CurlyRParen {
        Ok((NodeV::Compound { nodes: acc }, i))
    } else {
        let item = if cur(toks, i).kind is CurlyLParen {
            spec_scope(toks, fp, i)
        } else if cur(toks, i).kind is Int {
            spec_expr(toks, fp, i)
        } else {
            spec_stmt(toks, fp, i)
        };
        match item {
            Ok((n, j)) => {
                let j2 = adv(toks.len() as int, j);
                if i < j2 && j2 <= toks.len() {
                    spec_scope_items(toks, fp, j2, acc.push(n))
                } else {
                    arbitrary()
                }
            },
            Err(e) => Err(e),
        }
    }
}

/// `stmt`: a declaration or a return statement.
pub open spec fn spec_stmt(toks: Seq<TokenV>, fp: Seq<char>, i: int) -> ParseStep
    decreases toks.len() - i, 4int,
{
    if cur(toks, i).kind is DeclName {
        spec_decl(toks, fp, i)
    } else if cur(toks, i).kind == TokenKindV::Keyword(KeywordKind::RETURN) {
        spec_ret(toks, fp, i)
    } else {
        Err(
            ErrorV::IllegalSyntax {
                found: kind_text(cur(toks, i).kind),
                filepath: fp,
                coord: cur(toks, i).coord,
            },
        )
    }
}

/// `decl`: a declaration name, `=`, then the right-hand expression.
pub open spec fn spec_decl(toks: Seq<TokenV>, fp: Seq<char>, i: int) -> ParseStep
    decreases toks.len() - i, 3int,
{
    if cur(toks, i).kind is DeclName {
        let left = NodeV::Primary(cur(toks, i));
        let i1 = adv(toks.len() as int, i);
        if cur(toks, i1).kind is Equals {
            let op = cur(toks, i1);
            let i2 = adv(toks.len() as int, i1);
            match spec_expr(toks, fp, i2) {
                Ok((right, j)) => Ok(
                    (
                        NodeV::Binary {
                            token: op,
                            left: Box::new(left),
                            right: Box::new(right),
                        },
                        j,
                    ),
                ),
                Err(e) => Err(e),
            }
        } else {
            Err(
                ErrorV::FoundExpected {
                    found: kind_text(cur(toks, i1).kind),
                    expected: kind_text(TokenKindV::Equals),
                    filepath: fp,
                    coord: cur(toks, i1).coord,
                },
            )
        }
    } else {
        arbitrary()
    }
}

/// `return_stmt`: the keyword, then one expression, wrapped in a unary node.
pub open spec fn spec_ret(toks: Seq<TokenV>, fp: Seq<char>, i: int) -> ParseStep
    decreases toks.len() - i, 3int,
{
    let ret = cur(toks, i);
    let i1 = adv(toks.len() as int, i);
    match spec_expr(toks, fp, i1) {
        Ok((n, j)) => Ok((NodeV::Unary { token: ret, node: Box::new(n) }, j)),
        Err(e) => Err(e),
    }
}

/// `expr`: a term, then left-associative folding of `+`/`-` terms.
pub open spec fn spec_expr(toks: Seq<TokenV>, fp: Seq<char>, i: int) -> ParseStep
    decreases toks.len() - i, 2int,
{
    match spec_term(toks, fp, i) {
        Ok((n, j)) => {
            if i < j && j <= toks.len() {
                spec_expr_rest(toks, fp, j, n)
            } else {
                arbitrary()
            }
        },
        Err(e) => Err(e),
    }
}

/// The folding loop of `expr`: while the current token is `+` or `-`,
/// consume it, parse one more term, and fold leftward.
pub open spec fn spec_expr_rest(toks: Seq<TokenV>, fp: Seq<char>, i: int, acc: NodeV) -> ParseStep
    decreases toks.len() - i, 2int,
{
    if cur(toks, i).kind is Plus || cur(toks, i).kind is Minus {
        let op = cur(toks, i);
        let i1 = adv(toks.len() as int, i);
        match spec_term(toks, fp, i1) {
            Ok((rhs, j)) => {
                if i < j && j <= toks.len() {
                    spec_expr_rest(
                        toks,
                        fp,
                        j,
                        NodeV::Binary { token: op, left: Box::new(acc), right: Box::new(rhs) },
                    )
                } else {
                    arbitrary()
                }
            },
            Err(e) => Err(e),
        }
    } else {
        Ok((acc, i))
    }
}

/// `term`: a factor, then left-associative folding of `*`/`/` factors.
pub open spec fn spec_term(toks: Seq<TokenV>, fp: Seq<char>, i: int) -> ParseStep
    decreases toks.len() - i, 1int,
{
    match spec_factor(toks, fp, i) {
        Ok((n, j)) => {
            if i < j && j <= toks.len() {
                spec_term_rest(toks, fp, j, n)
            } else {
                arbitrary()
            }
        },
        Err(e) => Err(e),
    }
}

/// The folding loop of `term`.
pub open spec fn spec_term_rest(toks: Seq<TokenV>, fp: Seq<char>, i: int, acc: NodeV) -> ParseStep
    decreases toks.len() - i, 1int,
{
    if cur(toks, i).kind is Mul || cur(toks, i).kind is Div {
        let op = cur(toks, i);
        let i1 = adv(toks.len() as int, i);
        match spec_factor(toks, fp, i1) {
            Ok((rhs, j)) => {
                if i < j && j <= toks.len() {
                    spec_term_rest(
                        toks,
                        fp,
                        j,
                        NodeV::Binary { token: op, left: Box::new(acc), right: Box::new(rhs) },
                    )
                } else {
                    arbitrary()
                }
            },
            Err(e) => Err(e),
        }
    } else {
        Ok((acc, i))
    }
}

/// `factor`: an integer literal, a signed factor, or a parenthesized
/// expression.  The diagnostics here carry the offending token's own file.
pub open spec fn spec_factor(toks: Seq<TokenV>, fp: Seq<char>, i: int) -> ParseStep
    decreases toks.len() - i, 0int,
{
    let tok = cur(toks, i);
    if tok.kind is Int {
        Ok((NodeV::Primary(tok), adv(toks.len() as int, i)))
    } else if tok.kind is Plus || tok.kind is Minus {
        let i1 = adv(toks.len() as int, i);
        if i1 > i {
            match spec_factor(toks, fp, i1) {
                Ok((n, j)) => Ok((NodeV::Unary { token: tok, node: Box::new(n) }, j)),
                Err(e) => Err(e),
            }
        } else {
            arbitrary()
        }
    } else if tok.kind is LParen {
        let i1 = adv(toks.len() as int, i);
        if i1 > i {
            match spec_expr(toks, fp, i1) {
                Ok((n, j)) => {
                    if cur(toks, j).kind is RParen {
                        Ok((n, adv(toks.len() as int, j)))
                    } else {
                        Err(
                            ErrorV::FoundExpected {
                                found: kind_text(cur(toks, j).kind),
                                expected: ")"@,
                                filepath: cur(toks, j).filepath,
                                coord: cur(toks, j).coord,
                            },
                        )
                    }
                },
                Err(e) => Err(e),
            }
        } else {
            arbitrary()
        }
    } else {
        Err(
            ErrorV::IllegalSyntax {
                found: kind_text(tok.kind),
                filepath: tok.filepath,
                coord: tok.coord,
            },
        )
    }
}

/// The whole parse: one block from the first token.
pub open spec fn spec_parse(toks: Seq<TokenV>, fp: Seq<char>) -> ParseStep {
    spec_scope(toks, fp, 0)
}

// =========================
//  The parser
// =========================

/// The recursive-descent parser, with one token of lookahead in
/// `current_tok`, advanced explicitly by the consuming rules.
pub struct Parser {
    pub tokens: Vec<Token>,
    pub tok_idx: usize,
    pub current_tok: Token,
    pub filepath: String,
}

impl Parser {
    /// The token models the parser runs over.
    pub open spec fn toks(&self) -> Seq<TokenV> {
        tokens_view(self.tokens@)
    }

    /// Well-formedness: the token sequence is `EOF`-terminated and the
    /// lookahead matches the scan position.
    pub open spec fn wf(&self) -> bool {
        &&& wf_tokens(self.toks())
        &&& self.tok_idx < self.tokens@.len()
        &&& self.current_tok == self.tokens@[self.tok_idx as int]
    }

    /// The unchanging parts: rules only move the scan position.
    pub open spec fn same_input(&self, other: &Parser) -> bool {
        &&& self.tokens == other.tokens
        &&& self.filepath == other.filepath
    }

    pub fn new(tokens: Vec<Token>, filepath: String) -> (p: Self)
        requires
            wf_tokens(tokens_view(tokens@)),
        ensures
            p.wf(),
            p.tokens == tokens,
            p.filepath == filepath,
            p.tok_idx == 0,
    {
        proof {
            assert(tokens_view(tokens@).len() == tokens@.len());
        }
        let current_tok = tokens[0].clone();
        Parser { tokens, tok_idx: 0, current_tok, filepath }
    }

    fn advance(&mut self)
        requires
            old(self).wf(),
        ensures
            final(self).wf(),
            old(self).same_input(final(self)),
            final(self).tok_idx as int == adv(
                old(self).tokens@.len() as int,
                old(self).tok_idx as int,
            ),
    {
        let n: usize = self.tokens.len();
        proof {
            assert(self.toks().len() == self.tokens@.len());
            assert(self.tok_idx < n);
        }
        if self.tok_idx + 1 < n {
            self.tok_idx = self.tok_idx + 1;
            self.current_tok = self.tokens[self.tok_idx].clone();
        }
    }

    /// Parses the whole token sequence as one block.
    pub fn parse(&mut self) -> (r: Result<Node, Error>)
        requires
            old(self).wf(),
        ensures
            final(self).wf(),
            old(self).same_input(final(self)),
            ({
                let res = spec_scope(old(self).toks(), old(self).filepath@, old(self).tok_idx as int);
                match r {
                    Ok(n) => res matches Ok(step) && n@ == step.0,
                    Err(e) => res matches Err(ev) && e@ == ev,
                }
            }),
            old(self).tok_idx == 0 ==> ({
                let res = spec_parse(old(self).toks(), old(self).filepath@);
                match r {
                    Ok(n) => res matches Ok(step) && n@ == step.0,
                    Err(e) => res matches Err(ev) && e@ == ev,
                }
            }),
    {
        self.code_block()
    }

    /// The start rule: one block.
    pub fn code_block(&mut self) -> (r: Result<Node, Error>)
        requires
            old(self).wf(),
        ensures
            final(self).wf(),
            old(self).same_input(final(self)),
            ({
                let res = spec_scope(old(self).toks(), old(self).filepath@, old(self).tok_idx as int);
                match r {
                    Ok(n) => res matches Ok(step) && n@ == step.0,
                    Err(e) => res matches Err(ev) && e@ == ev,
                }
            }),
    {
        self.scope()
    }

    /// `block`: `{`, elements until `}`, each followed by one consumed
    /// separator token.
    #[verifier::loop_isolation(false)]
    pub fn scope(&mut self) -> (r: Result<Node, Error>)
        requires
            old(self).wf(),
        ensures
            final(self).wf(),
            old(self).same_input(final(self)),
            ({
                let res = spec_scope(old(self).toks(), old(self).filepath@, old(self).tok_idx as int);
                match r {
                    Ok(n) => res matches Ok(step) && n@ == step.0 && final(self).tok_idx as int
                        == step.1 && old(self).tok_idx < final(self).tok_idx,
                    Err(e) => res matches Err(ev) && e@ == ev,
                }
            }),
        decreases old(self).tokens@.len() - old(self).tok_idx, 5int,
    {
        let ghost toks = self.toks();
        let ghost fp = self.filepath@;
        let ghost i0 = self.tok_idx as int;
        proof {
            assert(self.toks().len() == self.tokens@.len());
            assert(cur(toks, i0) == self.current_tok@);
        }
        let mut nodes: Vec<Node> = Vec::new();
        let is_open = match &self.current_tok.kind {
            TokenKind::CURLY_LPAREN => true,
            _ => false,
        };
        if is_open {
            self.advance();
            proof {
                assert(self.tok_idx > i0);
            }
            let ghost entry = self.tok_idx as int;
            loop
                invariant
                    self.wf(),
                    old(self).same_input(self),
                    toks == self.toks(),
                    fp == self.filepath@,
                    entry <= self.tok_idx as int,
                    spec_scope_items(toks, fp, entry, Seq::empty()) == spec_scope_items(
                        toks,
                        fp,
                        self.tok_idx as int,
                        crate::ast::nodes_view(nodes@),
                    ),
                decreases self.tokens@.len() - self.tok_idx,
            {
                let ghost i = self.tok_idx as int;
                let ghost acc = crate::ast::nodes_view(nodes@);
                proof {
                    assert(cur(toks, i) == self.current_tok@);
                }
                let is_close = match &self.current_tok.kind {
                    TokenKind::CURLY_RPAREN => true,
                    _ => false,
                };
                if is_close {
                    proof {
                        assert(spec_scope_items(toks, fp, i, acc) == Ok::<(NodeV, int), ErrorV>(
                            (NodeV::Compound { nodes: acc }, i),
                        ));
                    }
                    return Ok(Node::CompoundExpr { nodes });
                }
                let kind_is_open = match &self.current_tok.kind {
                    TokenKind::CURLY_LPAREN => true,
                    _ => false,
                };
                let kind_is_int = match &self.current_tok.kind {
                    TokenKind::INT(_) => true,
                    _ => false,
                };
                let item = if kind_is_open {
                    self.scope()
                } else if kind_is_int {
                    self.expr()
                } else {
                    self.stmt()
                };
                let node = match item {
                    Ok(n) => n,
                    Err(e) => {
                        return Err(e);
                    },
                };
                let ghost j = self.tok_idx as int;
                let ghost nodes0 = nodes@;
                nodes.push(node);
                self.advance();
                proof {
                    crate::ast::lemma_nodes_view(nodes@);
                    assert(nodes@.last()@ == node@);
                    assert(nodes@.drop_last() =~= nodes0);
                    assert(crate::ast::nodes_view(nodes@) =~= acc.push(node@)) by {
                        assert(crate::ast::nodes_view(nodes@) == crate::ast::nodes_view(
                            nodes@.drop_last(),
                        ).push(crate::ast::node_view(nodes@.last())));
                    }
                    assert(self.tok_idx as int == adv(toks.len() as int, j));
                    assert(self.tok_idx as int > i);
                }
            }
        } else {
            let found = self.current_tok.kind.text();
            let expected = String::from_str("CURLY_LPAREN");
            Err(
                Error::FoundExpectedError {
                    found,
                    expected,
                    coord: self.current_tok.coord,
                    filepath: self.filepath.clone(),
                },
            )
        }
    }

    /// `stmt`: dispatch on the current token: a declaration name starts a
    /// declaration, the `return` keyword a return statement; anything else
    /// is illegal syntax.
    pub fn stmt(&mut self) -> (r: Result<Node, Error>)
        requires
            old(self).wf(),
        ensures
            final(self).wf(),
            old(self).same_input(final(self)),
            ({
                let res = spec_stmt(old(self).toks(), old(self).filepath@, old(self).tok_idx as int);
                match r {
                    Ok(n) => res matches Ok(step) && n@ == step.0 && final(self).tok_idx as int
                        == step.1 && old(self).tok_idx < final(self).tok_idx,
                    Err(e) => res matches Err(ev) && e@ == ev,
                }
            }),
        decreases old(self).tokens@.len() - old(self).tok_idx, 4int,
    {
        proof {
            assert(cur(old(self).toks(), old(self).tok_idx as int) == self.current_tok@);
            assert(self.toks().len() == self.tokens@.len());
        }
        let kind = self.current_tok.kind.clone();
        match kind {
            TokenKind::DECL_NAME(_) => self.decl(),
            TokenKind::KEYWORD(KeywordKind::RETURN) => self.ret(),
            _ => {
                let found = self.current_tok.kind.text();
                Err(
                    Error::IllegalSyntaxError {
                        found,
                        coord: self.current_tok.coord,
                        filepath: self.filepath.clone(),
                    },
                )
            },
        }
    }

    /// `decl`: the declared name, `=`, then the right-hand expression,
    /// wrapped in a binary node whose operator is the `=` token.
    pub fn decl(&mut self) -> (r: Result<Node, Error>)
        requires
            old(self).wf(),
            cur(old(self).toks(), old(self).tok_idx as int).kind is DeclName,
        ensures
            final(self).wf(),
            old(self).same_input(final(self)),
            ({
                let res = spec_decl(old(self).toks(), old(self).filepath@, old(self).tok_idx as int);
                match r {
                    Ok(n) => res matches Ok(step) && n@ == step.0 && final(self).tok_idx as int
                        == step.1 && old(self).tok_idx < final(self).tok_idx,
                    Err(e) => res matches Err(ev) && e@ == ev,
                }
            }),
        decreases old(self).tokens@.len() - old(self).tok_idx, 3int,
    {
        proof {
            assert(cur(old(self).toks(), old(self).tok_idx as int) == self.current_tok@);
            assert(self.toks().len() == self.tokens@.len());
        }
        let left = Node::Primary(self.current_tok.clone());
        proof {
            assert(left@ == NodeV::Primary(cur(old(self).toks(), old(self).tok_idx as int)));
        }
        self.advance();
        proof {
            assert(cur(old(self).toks(), self.tok_idx as int) == self.current_tok@);
        }
        let is_equals = match &self.current_tok.kind {
            TokenKind::EQUALS => true,
            _ => false,
        };
        if is_equals {
            let op_tok = self.current_tok.clone();
            self.advance();
            let right = match self.expr() {
                Ok(n) => n,
                Err(e) => {
                    return Err(e);
                },
            };
            Ok(Node::BinaryExpr { token: op_tok, left: Box::new(left), right: Box::new(right) })
        } else {
            let found = self.current_tok.kind.text();
            let expected = String::from_str("EQUALS");
            Err(
                Error::FoundExpectedError {
                    found,
                    expected,
                    coord: self.current_tok.coord,
                    filepath: self.filepath.clone(),
                },
            )
        }
    }

    /// `return_stmt`: the keyword, then one expression.
    pub fn ret(&mut self) -> (r: Result<Node, Error>)
        requires
            old(self).wf(),
        ensures
            final(self).wf(),
            old(self).same_input(final(self)),
            ({
                let res = spec_ret(old(self).toks(), old(self).filepath@, old(self).tok_idx as int);
                match r {
                    Ok(n) => res matches Ok(step) && n@ == step.0 && final(self).tok_idx as int
                        == step.1 && old(self).tok_idx < final(self).tok_idx,
                    Err(e) => res matches Err(ev) && e@ == ev,
                }
            }),
        decreases old(self).tokens@.len() - old(self).tok_idx, 3int,
    {
        proof {
            assert(cur(old(self).toks(), old(self).tok_idx as int) == self.current_tok@);
            assert(self.toks().len() == self.tokens@.len());
        }
        let ret = self.current_tok.clone();
        self.advance();
        let expr = match self.expr() {
            Ok(n) => n,
            Err(e) => {
                return Err(e);
            },
        };
        Ok(Node::UnaryExpr { token: ret, node: Box::new(expr) })
    }

    /// `expr`: a term, then left-associative `+`/`-` folding.
    #[verifier::loop_isolation(false)]
    pub fn expr(&mut self) -> (r: Result<Node, Error>)
        requires
            old(self).wf(),
        ensures
            final(self).wf(),
            old(self).same_input(final(self)),
            ({
                let res = spec_expr(old(self).toks(), old(self).filepath@, old(self).tok_idx as int);
                match r {
                    Ok(n) => res matches Ok(step) && n@ == step.0 && final(self).tok_idx as int
                        == step.1 && old(self).tok_idx < final(self).tok_idx,
                    Err(e) => res matches Err(ev) && e@ == ev,
                }
            }),
        decreases old(self).tokens@.len() - old(self).tok_idx, 2int,
    {
        let ghost toks = self.toks();
        let ghost fp = self.filepath@;
        let ghost i0 = self.tok_idx as int;
        let mut left = match self.term() {
            Ok(n) => n,
            Err(e) => {
                return Err(e);
            },
        };
        loop
            invariant
                self.wf(),
                old(self).same_input(self),
                toks == self.toks(),
                fp == self.filepath@,
                i0 < self.tok_idx as int,
                spec_expr(toks, fp, i0) == spec_expr_rest(toks, fp, self.tok_idx as int, left@),
            decreases self.tokens@.len() - self.tok_idx,
        {
            let ghost i = self.tok_idx as int;
            proof {
                assert(cur(toks, i) == self.current_tok@);
            }
            let is_op = match &self.current_tok.kind {
                TokenKind::PLUS => true,
                TokenKind::MINUS => true,
                _ => false,
            };
            if !is_op {
                proof {
                    assert(spec_expr_rest(toks, fp, i, left@) == Ok::<(NodeV, int), ErrorV>(
                        (left@, i),
                    ));
                }
                return Ok(left);
            }
            let op_tok = self.current_tok.clone();
            self.advance();
            let right = match self.term() {
                Ok(n) => n,
                Err(e) => {
                    return Err(e);
                },
            };
            left = Node::BinaryExpr {
                token: op_tok,
                left: Box::new(left),
                right: Box::new(right),
            };
        }
    }

    /// `term`: a factor, then left-associative `*`/`/` folding.
    #[verifier::loop_isolation(false)]
    pub fn term(&mut self) -> (r: Result<Node, Error>)
        requires
            old(self).wf(),
        ensures
            final(self).wf(),
            old(self).same_input(final(self)),
            ({
                let res = spec_term(old(self).toks(), old(self).filepath@, old(self).tok_idx as int);
                match r {
                    Ok(n) => res matches Ok(step) && n@ == step.0 && final(self).tok_idx as int
                        == step.1 && old(self).tok_idx < final(self).tok_idx,
                    Err(e) => res matches Err(ev) && e@ == ev,
                }
            }),
        decreases old(self).tokens@.len() - old(self).tok_idx, 1int,
    {
        let ghost toks = self.toks();
        let ghost fp = self.filepath@;
        let ghost i0 = self.tok_idx as int;
        let mut left = match self.factor() {
            Ok(n) => n,
            Err(e) => {
                return Err(e);
            },
        };
        loop
            invariant
                self.wf(),
                old(self).same_input(self),
                toks == self.toks(),
                fp == self.filepath@,
                i0 < self.tok_idx as int,
                spec_term(toks, fp, i0) == spec_term_rest(toks, fp, self.tok_idx as int, left@),
            decreases self.tokens@.len() - self.tok_idx,
        {
            let ghost i = self.tok_idx as int;
            proof {
                assert(cur(toks, i) == self.current_tok@);
            }
            let is_op = match &self.current_tok.kind {
                TokenKind::MUL => true,
                TokenKind::DIV => true,
                _ => false,
            };
            if !is_op {
                proof {
                    assert(spec_term_rest(toks, fp, i, left@) == Ok::<(NodeV, int), ErrorV>(
                        (left@, i),
                    ));
                }
                return Ok(left);
            }
            let op_tok = self.current_tok.clone();
            self.advance();
            let right = match self.factor() {
                Ok(n) => n,
                Err(e) => {
                    return Err(e);
                },
            };
            left = Node::BinaryExpr {
                token: op_tok,
                left: Box::new(left),
                right: Box::new(right),
            };
        }
    }

    /// `factor`: an integer literal, a signed factor (supporting chained
    /// signs), or a parenthesized expression that must close with `)`.
    pub fn factor(&mut self) -> (r: Result<Node, Error>)
        requires
            old(self).wf(),
        ensures
            final(self).wf(),
            old(self).same_input(final(self)),
            ({
                let res = spec_factor(old(self).toks(), old(self).filepath@, old(self).tok_idx as int);
                match r {
                    Ok(n) => res matches Ok(step) && n@ == step.0 && final(self).tok_idx as int
                        == step.1 && old(self).tok_idx < final(self).tok_idx,
                    Err(e) => res matches Err(ev) && e@ == ev,
                }
            }),
        decreases old(self).tokens@.len() - old(self).tok_idx, 0int,
    {
        proof {
            assert(cur(old(self).toks(), old(self).tok_idx as int) == self.current_tok@);
            assert(self.toks().len() == self.tokens@.len());
        }
        let tok = self.current_tok.clone();
        match &tok.kind {
            TokenKind::INT(_) => {
                self.advance();
                Ok(Node::Primary(tok))
            },
            TokenKind::PLUS | TokenKind::MINUS => {
                self.advance();
                let factor = match self.factor() {
                    Ok(n) => n,
                    Err(e) => {
                        return Err(e);
                    },
                };
                Ok(Node::UnaryExpr { token: tok, node: Box::new(factor) })
            },
            TokenKind::LPAREN => {
                self.advance();
                let expr = match self.expr() {
                    Ok(n) => n,
                    Err(e) => {
                        return Err(e);
                    },
                };
                proof {
                    assert(cur(old(self).toks(), self.tok_idx as int) == self.current_tok@);
                }
                let is_close = match &self.current_tok.kind {
                    TokenKind::RPAREN => true,
                    _ => false,
                };
                if is_close {
                    self.advance();
                    Ok(expr)
                } else {
                    let found = self.current_tok.kind.text();
                    let expected = String::from_str(")");
                    Err(
                        Error::FoundExpectedError {
                            found,
                            expected,
                            filepath: self.current_tok.filepath.clone(),
                            coord: self.current_tok.coord,
                        },
                    )
                }
            },
            _ => {
                let found = self.current_tok.kind.text();
                Err(
                    Error::IllegalSyntaxError {
                        found,
                        filepath: self.current_tok.filepath.clone(),
                        coord: self.current_tok.coord,
                    },
                )
            },
        }
    }
}

/// Every token put in front of a well-formed tail keeps the stream
/// well-formed, provided it is not a second `EOF`.
proof fn lemma_wf_tokens_prepend(t: TokenV, ts: Seq<TokenV>)
    requires
        wf_tokens(ts),
        !(t.kind is Eof),
    ensures
        wf_tokens(seq![t] + ts),
{
    let all = seq![t] + ts;
    assert(all[all.len() - 1] == ts[ts.len() - 1]);
    assert forall|i: int| 0 <= i < all.len() - 1 implies !((#[trigger] all[i]).kind is Eof) by {
        if i > 0 {
            assert(all[i] == ts[i - 1]);
        }
    }
}

/// The data-model invariant of the token stream: a successful scan produces
/// a sequence that ends in exactly one `EOF` token — precisely what the
/// parser requires of its input.
pub proof fn lemma_lex_wf_tokens(s: Seq<u8>, fp: Seq<char>, pos: int, line: int, col: int)
    ensures
        lex_from(s, fp, pos, line, col).err is None ==> wf_tokens(
            lex_from(s, fp, pos, line, col).tokens,
        ),
    decreases s.len() - pos + 1,
{
    let b = byte_at(s, pos);
    let out = lex_from(s, fp, pos, line, col);
    if b == 0 {
        assert(out.tokens.len() == 1);
    } else if is_ws(b) {
        lemma_lex_wf_tokens(s, fp, pos + 1, next_line(b, line), next_col(b, col));
    } else if is_digit(b) {
        let e = alnum_run_end(s, pos);
        lemma_alnum_run_end(s, pos);
        let run = s.subrange(pos, e);
        if int_run_ok(run) {
            lemma_lex_wf_tokens(s, fp, e, line, col + (e - pos));
            let rest = lex_from(s, fp, e, line, col + (e - pos));
            if rest.err is None {
                lemma_wf_tokens_prepend(
                    TokenV {
                        kind: TokenKindV::Int(crate::lexer::digits_val(run) as i32),
                        filepath: fp,
                        coord: (line, col + (e - pos)),
                    },
                    rest.tokens,
                );
            }
        }
    } else if is_alpha(b) {
        let e = word_run_end(s, pos);
        lemma_word_run_end(s, pos);
        let run = s.subrange(pos, e);
        let wcol = col + (e - pos);
        let b2 = byte_at(s, e);
        lemma_lex_wf_tokens(s, fp, e + 1, next_line(b2, line), next_col(b2, wcol));
        let rest = lex_from(s, fp, e + 1, next_line(b2, line), next_col(b2, wcol));
        if rest.err is None {
            let kind = if chars_of(run) == "return"@ {
                TokenKindV::Keyword(KeywordKind::RETURN)
            } else {
                TokenKindV::DeclName(chars_of(run))
            };
            lemma_wf_tokens_prepend(
                TokenV { kind, filepath: fp, coord: (line, wcol) },
                rest.tokens,
            );
        }
    } else if b == 47 {
        if byte_at(s, pos + 1) == 47 {
            let e = comment_run_end(s, pos + 2);
            lemma_comment_run_end(s, pos + 2);
            let run = s.subrange(pos + 2, e);
            let ccol = col + (e - pos);
            let b2 = byte_at(s, e);
            lemma_lex_wf_tokens(s, fp, e + 1, next_line(b2, line), next_col(b2, ccol));
            let rest = lex_from(s, fp, e + 1, next_line(b2, line), next_col(b2, ccol));
            if rest.err is None {
                lemma_wf_tokens_prepend(
                    TokenV {
                        kind: TokenKindV::Comment(chars_of(run)),
                        filepath: fp,
                        coord: (line, ccol),
                    },
                    rest.tokens,
                );
            }
        } else {
            lemma_lex_wf_tokens(s, fp, pos + 1, line, col + 1);
            let rest = lex_from(s, fp, pos + 1, line, col + 1);
            if rest.err is None {
                lemma_wf_tokens_prepend(
                    TokenV { kind: TokenKindV::Div, filepath: fp, coord: (line, col) },
                    rest.tokens,
                );
            }
        }
    } else if b == 43 || b == 45 || b == 42 || b == 61 || b == 59 || b == 40 || b == 41 || b
        == 123 || b == 125 {
        lemma_lex_wf_tokens(s, fp, pos + 1, line, col + 1);
        let rest = lex_from(s, fp, pos + 1, line, col + 1);
        if rest.err is None {
            let kind = if b == 43 {
                TokenKindV::Plus
            } else if b == 45 {
                TokenKindV::Minus
            } else if b == 42 {
                TokenKindV::Mul
            } else if b == 61 {
                TokenKindV::Equals
            } else if b == 59 {
                TokenKindV::Semicolon
            } else if b == 40 {
                TokenKindV::LParen
            } else if b == 41 {
                TokenKindV::RParen
            } else if b == 123 {
                TokenKindV::CurlyLParen
            } else {
                TokenKindV::CurlyRParen
            };
            lemma_wf_tokens_prepend(
                TokenV { kind, filepath: fp, coord: (line, col) },
                rest.tokens,
            );
        }
    }
}

// =========================
//  Shape and progress of the expression rules
// =========================

/// A successful `factor` yields an expression-shaped node and consumes at
/// least one token, never running past the final `EOF`.
pub proof fn lemma_spec_factor_props(toks: Seq<TokenV>, fp: Seq<char>, i: int)
    requires
        wf_tokens(toks),
        0 <= i < toks.len(),
    ensures
        spec_factor(toks, fp, i) matches Ok(step) ==> crate::ast::is_expr(step.0) && i < step.1
            < toks.len(),
    decreases toks.len() - i, 0int,
{
    let len: int = toks.len() as int;
    let tok = cur(toks, i);
    if tok.kind is Int {
        assert(i < len - 1);
    } else if tok.kind is Plus || tok.kind is Minus {
        assert(i < len - 1);
        let i1 = adv(len, i);
        lemma_spec_factor_props(toks, fp, i1);
    } else if tok.kind is LParen {
        assert(i < len - 1);
        let i1 = adv(len, i);
        lemma_spec_expr_props(toks, fp, i1);
        match spec_expr(toks, fp, i1) {
            Ok((n, j)) => {
                if cur(toks, j).kind is RParen {
                    assert(j < len - 1);
                }
            },
            Err(_) => {},
        }
    }
}

/// A successful `term` yields an expression-shaped node and consumes at
/// least one token.
pub proof fn lemma_spec_term_props(toks: Seq<TokenV>, fp: Seq<char>, i: int)
    requires
        wf_tokens(toks),
        0 <= i < toks.len(),
    ensures
        spec_term(toks, fp, i) matches Ok(step) ==> crate::ast::is_expr(step.0) && i < step.1
            < toks.len(),
    decreases toks.len() - i, 1int,
{
    lemma_spec_factor_props(toks, fp, i);
    match spec_factor(toks, fp, i) {
        Ok((n, j)) => {
            lemma_spec_term_rest_props(toks, fp, j, n);
        },
        Err(_) => {},
    }
}

/// The `term` folding loop preserves the expression shape and never moves
/// backward.
pub proof fn lemma_spec_term_rest_props(toks: Seq<TokenV>, fp: Seq<char>, i: int, acc: NodeV)
    requires
        wf_tokens(toks),
        0 <= i < toks.len(),
        crate::ast::is_expr(acc),
    ensures
        spec_term_rest(toks, fp, i, acc) matches Ok(step) ==> crate::ast::is_expr(step.0) && i
            <= step.1 < toks.len(),
    decreases toks.len() - i, 1int,
{
    let len: int = toks.len() as int;
    if cur(toks, i).kind is Mul || cur(toks, i).kind is Div {
        assert(i < len - 1);
        let op = cur(toks, i);
        let i1 = adv(len, i);
        lemma_spec_factor_props(toks, fp, i1);
        match spec_factor(toks, fp, i1) {
            Ok((rhs, j)) => {
                let folded = NodeV::Binary { token: op, left: Box::new(acc), right: Box::new(
                    rhs,
                ) };
                assert(crate::ast::is_expr(folded));
                lemma_spec_term_rest_props(toks, fp, j, folded);
            },
            Err(_) => {},
        }
    }
}

/// A successful `expr` yields an expression-shaped node and consumes at
/// least one token.
pub proof fn lemma_spec_expr_props(toks: Seq<TokenV>, fp: Seq<char>, i: int)
    requires
        wf_tokens(toks),
        0 <= i < toks.len(),
    ensures
        spec_expr(toks, fp, i) matches Ok(step) ==> crate::ast::is_expr(step.0) && i < step.1
            < toks.len(),
    decreases toks.len() - i, 2int,
{
    lemma_spec_term_props(toks, fp, i);
    match spec_term(toks, fp, i) {
        Ok((n, j)) => {
            lemma_spec_expr_rest_props(toks, fp, j, n);
        },
        Err(_) => {},
    }
}

/// The `expr` folding loop preserves the expression shape and never moves
/// backward.
pub proof fn lemma_spec_expr_rest_props(toks: Seq<TokenV>, fp: Seq<char>, i: int, acc: NodeV)
    requires
        wf_tokens(toks),
        0 <= i < toks.len(),
        crate::ast::is_expr(acc),
    ensures
        spec_expr_rest(toks, fp, i, acc) matches Ok(step) ==> crate::ast::is_expr(step.0) && i
            <= step.1 < toks.len(),
    decreases toks.len() - i, 2int,
{
    let len: int = toks.len() as int;
    if cur(toks, i).kind is Plus || cur(toks, i).kind is Minus {
        assert(i < len - 1);
        let op = cur(toks, i);
        let i1 = adv(len, i);
        lemma_spec_term_props(toks, fp, i1);
        match spec_term(toks, fp, i1) {
            Ok((rhs, j)) => {
                let folded = NodeV::Binary { token: op, left: Box::new(acc), right: Box::new(
                    rhs,
                ) };
                assert(crate::ast::is_expr(folded));
                lemma_spec_expr_rest_props(toks, fp, j, folded);
            },
            Err(_) => {},
        }
    }
}

// =========================
//  The structural invariant of parser output
// =========================

/// A successful `stmt` yields a tree meeting the structural invariant and
/// consumes at least one token.
pub proof fn lemma_spec_stmt_wf(toks: Seq<TokenV>, fp: Seq<char>, i: int)
    requires
        wf_tokens(toks),
        0 <= i < toks.len(),
    ensures
        spec_stmt(toks, fp, i) matches Ok(step) ==> crate::ast::wf_node(step.0) && i < step.1
            < toks.len(),
    decreases toks.len() - i, 4int,
{
    if cur(toks, i).kind is DeclName {
        lemma_spec_decl_wf(toks, fp, i);
    } else if cur(toks, i).kind == TokenKindV::Keyword(KeywordKind::RETURN) {
        lemma_spec_ret_wf(toks, fp, i);
    }
}

/// A successful `decl` is a binary `=` whose left side is the declared name
/// and whose right side is an expression.
pub proof fn lemma_spec_decl_wf(toks: Seq<TokenV>, fp: Seq<char>, i: int)
    requires
        wf_tokens(toks),
        0 <= i < toks.len(),
        cur(toks, i).kind is DeclName,
    ensures
        spec_decl(toks, fp, i) matches Ok(step) ==> crate::ast::wf_node(step.0) && i < step.1
            < toks.len(),
    decreases toks.len() - i, 3int,
{
    let len: int = toks.len() as int;
    assert(i < len - 1);
    let i1 = adv(len, i);
    if cur(toks, i1).kind is Equals {
        assert(i1 < len - 1);
        let i2 = adv(len, i1);
        lemma_spec_expr_props(toks, fp, i2);
        match spec_expr(toks, fp, i2) {
            Ok((right, j)) => {
                crate::ast::lemma_is_expr_wf_node(right);
                assert(crate::ast::wf_node(NodeV::Primary(cur(toks, i))));
            },
            Err(_) => {},
        }
    }
}

/// A successful `return_stmt` is a unary node whose operator is the
/// `return` keyword and whose operand is an expression.
pub proof fn lemma_spec_ret_wf(toks: Seq<TokenV>, fp: Seq<char>, i: int)
    requires
        wf_tokens(toks),
        0 <= i < toks.len(),
        cur(toks, i).kind == TokenKindV::Keyword(KeywordKind::RETURN),
    ensures
        spec_ret(toks, fp, i) matches Ok(step) ==> crate::ast::wf_node(step.0) && i < step.1
            < toks.len(),
    decreases toks.len() - i, 3int,
{
    let len: int = toks.len() as int;
    assert(i < len - 1);
    let i1 = adv(len, i);
    lemma_spec_expr_props(toks, fp, i1);
    match spec_expr(toks, fp, i1) {
        Ok((n, j)) => {
            crate::ast::lemma_is_expr_wf_node(n);
        },
        Err(_) => {},
    }
}

/// A successful `block` is a compound node whose statements all meet the
/// structural invariant: the parser only builds the legal operator and leaf
/// shapes.
pub proof fn lemma_spec_scope_wf(toks: Seq<TokenV>, fp: Seq<char>, i: int)
    requires
        wf_tokens(toks),
        0 <= i < toks.len(),
    ensures
        spec_scope(toks, fp, i) matches Ok(step) ==> crate::ast::wf_node(step.0) && i < step.1
            < toks.len(),
    decreases toks.len() - i, 5int,
{
    let len: int = toks.len() as int;
    if cur(toks, i).kind is CurlyLParen {
        assert(i < len - 1);
        let i1 = adv(len, i);
        lemma_spec_scope_items_wf(toks, fp, i1, Seq::empty());
    }
}

/// The element loop keeps every accumulated statement well-formed.
pub proof fn lemma_spec_scope_items_wf(toks: Seq<TokenV>, fp: Seq<char>, i: int, acc: Seq<NodeV>)
    requires
        wf_tokens(toks),
        0 <= i < toks.len(),
        forall|k: int| 0 <= k < acc.len() ==> crate::ast::wf_node(#[trigger] acc[k]),
    ensures
        spec_scope_items(toks, fp, i, acc) matches Ok(step) ==> crate::ast::wf_node(step.0) && i
            <= step.1 < toks.len(),
    decreases toks.len() - i, 6int,
{
    let len: int = toks.len() as int;
    if cur(toks, i).kind is CurlyRParen {
        let c = NodeV::Compound { nodes: acc };
        assert(crate::ast::wf_node(c)) by {
            assert(forall|k: int|
                0 <= k < c->nodes.len() ==> crate::ast::wf_node(#[trigger] c->nodes[k]));
        }
    } else {
        let item = if cur(toks, i).kind is CurlyLParen {
            lemma_spec_scope_wf(toks, fp, i);
            spec_scope(toks, fp, i)
        } else if cur(toks, i).kind is Int {
            lemma_spec_expr_props(toks, fp, i);
            spec_expr(toks, fp, i)
        } else {
            lemma_spec_stmt_wf(toks, fp, i);
            spec_stmt(toks, fp, i)
        };
        match item {
            Ok((n, j)) => {
                assert(crate::ast::wf_node(n)) by {
                    if !(cur(toks, i).kind is CurlyLParen) && cur(toks, i).kind is Int {
                        match spec_expr(toks, fp, i) {
                            Ok((n2, _)) => {
                                crate::ast::lemma_is_expr_wf_node(n2);
                            },
                            Err(_) => {},
                        }
                    }
                }
                let j2 = adv(len, j);
                let acc2 = acc.push(n);
                assert(forall|k: int|
                    0 <= k < acc2.len() ==> crate::ast::wf_node(#[trigger] acc2[k]));
                lemma_spec_scope_items_wf(toks, fp, j2, acc2);
            },
            Err(_) => {},
        }
    }
}

} // verus!
