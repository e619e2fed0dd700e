//! The code generator: one pass over the AST, emitting AT&T-syntax x86-64
//! assembly text into a write-only, append-only output buffer.
//!
//! The evaluation strategy is an explicit operand stack: a binary operation
//! generates its **right** operand first, pushes the result, generates the
//! left operand (leaving it in the accumulator), then pops the saved value
//! and combines.  This right-before-left, push/pop convention guarantees the
//! left operand ends in the accumulator regardless of operand complexity; it
//! is load-bearing and preserved exactly by the specification [`gen_node`].
//!
//! Declarations (`=`) are unsupported here by design: the generator requires
//! a [`gen_supported`] tree, and callers reject declarations first (see
//! [`Node::is_gen_supported`]).
//!
//! [`lemma_gen_expr_correct`] is the generator's correctness theorem: over
//! the machine model, the code generated for any expression-shaped tree
//! leaves exactly the tree's arithmetic value in the accumulator and the
//! stack as it found it.

use vstd::prelude::*;

use crate::ast::{eval, gen_supported, is_expr, node_view, nodes_view, Node, NodeV};
use crate::lexer::{KeywordKind, Token, TokenKind, TokenKindV, TokenV};
use crate::machine::{lemma_run_app, lemma_run_one, render_instr, run, step, Instr, MState};
use crate::text::i32_string;

verus! {

// =========================
//  The specification generator
// =========================

/// The instructions emitted for one tree.
pub open spec fn gen_node(n: NodeV) -> Seq<Instr>
    decreases n,
{
    match n {
        NodeV::Primary(t) => match t.kind {
            TokenKindV::Int(x) => seq![Instr::MovImm(x as int)],
            TokenKindV::Comment(c) => seq![Instr::CommentLine(c)],
            _ => Seq::empty(),
        },
        NodeV::Unary { token, node } => match token.kind {
            TokenKindV::Keyword(KeywordKind::RETURN) => gen_node(*node) + seq![Instr::Ret],
            TokenKindV::Minus => gen_node(*node) + seq![
                Instr::MovRaxRbx,
                Instr::MovZeroRax,
                Instr::SubRbxRax,
            ],
            _ => gen_node(*node),
        },
        NodeV::Binary { token, left, right } => {
            let core = gen_node(*right) + seq![Instr::Push] + gen_node(*left) + seq![
                Instr::PopRdi,
            ];
            match token.kind {
                TokenKindV::Plus => core + seq![Instr::AddRdiRax],
                TokenKindV::Minus => core + seq![Instr::SubRdiRax],
                TokenKindV::Mul => core + seq![Instr::ImulRdiRax],
                TokenKindV::Div => core + seq![Instr::Cdq, Instr::IdivRdi],
                _ => Seq::empty(),
            }
        },
        NodeV::Compound { nodes } => gen_nodes(nodes),
    }
}

/// The instructions emitted for a statement sequence, in order, with no
/// scope bookkeeping.
pub open spec fn gen_nodes(ns: Seq<NodeV>) -> Seq<Instr>
    decreases ns,
{
    if ns.len() == 0 {
        Seq::empty()
    } else {
        gen_nodes(ns.drop_last()) + gen_node(ns.last())
    }
}

/// The unconditional preamble before the tree is walked.
pub open spec fn preamble() -> Seq<Instr> {
    seq![Instr::Text, Instr::Globl, Instr::MainLabel]
}

// =========================
//  Termination measures
// =========================

/// The height of a tree model, for the generator's termination measure.
pub open spec fn v_height(n: NodeV) -> nat
    decreases n,
{
    match n {
        NodeV::Primary(_) => 1,
        NodeV::Unary { token, node } => 1 + v_height(*node),
        NodeV::Binary { token, left, right } => 1 + max_nat(v_height(*left), v_height(*right)),
        NodeV::Compound { nodes } => 1 + vs_height(nodes),
    }
}

pub open spec fn vs_height(ns: Seq<NodeV>) -> nat
    decreases ns,
{
    if ns.len() == 0 {
        0
    } else {
        max_nat(vs_height(ns.drop_last()), v_height(ns.last()))
    }
}

pub open spec fn max_nat(a: nat, b: nat) -> nat {
    if a < b {
        b
    } else {
        a
    }
}

pub proof fn lemma_vs_height(ns: Seq<NodeV>)
    ensures
        forall|i: int| 0 <= i < ns.len() ==> v_height(#[trigger] ns[i]) <= vs_height(ns),
    decreases ns.len(),
{
    if ns.len() > 0 {
        lemma_vs_height(ns.drop_last());
        assert forall|i: int| 0 <= i < ns.len() implies v_height(#[trigger] ns[i]) <= vs_height(
            ns,
        ) by {
            if i < ns.len() - 1 {
                assert(ns.drop_last()[i] == ns[i]);
            }
        }
    }
}

// =========================
//  Output shape
// =========================

/// The emitted lines render the given code, one line per instruction.
pub open spec fn lines_match(lines: Seq<String>, code: Seq<Instr>) -> bool {
    &&& lines.len() == code.len()
    &&& forall|i: int| 0 <= i < code.len() ==> lines[i]@ == render_instr(#[trigger] code[i])
}

/// The output grew by exactly the rendering of `code`, appended in order.
pub open spec fn appended(before: Seq<String>, after: Seq<String>, code: Seq<Instr>) -> bool {
    &&& after.len() == before.len() + code.len()
    &&& after.subrange(0, before.len() as int) == before
    &&& lines_match(after.subrange(before.len() as int, after.len() as int), code)
}

pub proof fn lemma_appended_refl(out: Seq<String>)
    ensures
        appended(out, out, Seq::empty()),
{
    assert(out.subrange(0, out.len() as int) =~= out);
    assert(out.subrange(out.len() as int, out.len() as int) =~= Seq::<String>::empty());
}

/// Two consecutive emissions append the concatenation.
pub proof fn lemma_appended_trans(
    o0: Seq<String>,
    o1: Seq<String>,
    o2: Seq<String>,
    c1: Seq<Instr>,
    c2: Seq<Instr>,
)
    requires
        appended(o0, o1, c1),
        appended(o1, o2, c2),
    ensures
        appended(o0, o2, c1 + c2),
{
    let n0 = o0.len() as int;
    let n1 = o1.len() as int;
    let n2 = o2.len() as int;
    assert forall|k: int| 0 <= k < n1 implies o2[k] == o1[k] by {
        assert(o2.subrange(0, n1)[k] == o2[k]);
    }
    assert forall|k: int| 0 <= k < n0 implies o1[k] == o0[k] by {
        assert(o1.subrange(0, n0)[k] == o1[k]);
    }
    assert(o2.subrange(0, n0) =~= o0);
    let mid = o2.subrange(n0, n2);
    assert forall|k: int| 0 <= k < (c1 + c2).len() implies mid[k]@ == render_instr(
        #[trigger] (c1 + c2)[k],
    ) by {
        if k < c1.len() {
            assert(mid[k] == o2[n0 + k]);
            assert(o1.subrange(n0, n1)[k] == o1[n0 + k]);
            assert(mid[k] == o1[n0 + k]);
            assert((c1 + c2)[k] == c1[k]);
        } else {
            assert(mid[k] == o2[n0 + k]);
            assert(o2.subrange(n1, n2)[k - c1.len()] == o2[n1 + (k - c1.len())]);
            assert((c1 + c2)[k] == c2[k - c1.len()]);
        }
    }
    assert(lines_match(mid, c1 + c2));
}

// =========================
//  The generator
// =========================

/// The one-pass code generator over an owned tree, appending lines of
/// assembly text to its output buffer.
pub struct Generator {
    pub ast: Node,
    pub output: Vec<String>,
}

impl Generator {
    /// A generator for the given tree, with an empty output buffer.  The
    /// buffer is only committed to a file by the caller once generation has
    /// finished, so no failure can leave a half-written output behind.
    pub fn new(ast: Node) -> (g: Self)
        ensures
            g.ast == ast,
            g.output@ =~= Seq::<String>::empty(),
    {
        Self { ast, output: Vec::new() }
    }

    /// Appends one line of assembly text.
    fn emit(&mut self, text: &str)
        ensures
            final(self).ast == old(self).ast,
            final(self).output@.len() == old(self).output@.len() + 1,
            final(self).output@.subrange(0, old(self).output@.len() as int) == old(self).output@,
            forall|k: int|
                0 <= k < old(self).output@.len() ==> final(self).output@[k] == old(
                    self,
                ).output@[k],
            final(self).output@.last()@ == text@,
    {
        self.output.push(String::from_str(text));
        proof {
            assert(self.output@.subrange(0, self.output@.len() - 1) =~= old(self).output@);
        }
    }

    /// Emits the preamble, then walks the tree once.
    pub fn generate_code_block(&mut self)
        requires
            gen_supported(old(self).ast@),
        ensures
            final(self).ast == old(self).ast,
            appended(
                old(self).output@,
                final(self).output@,
                preamble() + gen_node(old(self).ast@),
            ),
    {
        let ghost o0 = self.output@;
        self.emit(".text");
        self.emit(".globl main");
        self.emit("main:");
        let ghost o1 = self.output@;
        proof {
            assert(appended(o0, o1, preamble())) by {
                assert(o1.subrange(0, o0.len() as int) =~= o0);
                let mid = o1.subrange(o0.len() as int, o1.len() as int);
                assert(mid.len() == 3);
                assert(mid[0] == o1[o0.len() as int]);
                assert(mid[1] == o1[o0.len() as int + 1]);
                assert(mid[2] == o1[o0.len() as int + 2]);
                assert(lines_match(mid, preamble()));
            }
        }
        let ast = self.ast.clone();
        self.generate_node(ast);
        proof {
            lemma_appended_trans(o0, o1, self.output@, preamble(), gen_node(old(self).ast@));
        }
    }

    /// Dispatches one node to its handler.
    fn generate_node(&mut self, node: Node)
        requires
            gen_supported(node@),
        ensures
            final(self).ast == old(self).ast,
            appended(old(self).output@, final(self).output@, gen_node(node@)),
        decreases v_height(node@), 1int,
    {
        match node {
            Node::Primary(x) => self.generate_primary_expression(x),
            Node::UnaryExpr { .. } => self.generate_unary_expression(node),
            Node::BinaryExpr { .. } => self.generate_binary_expression(node),
            Node::CompoundExpr { nodes } => self.generate_compound_expression(nodes),
        }
    }

    /// Emits each statement of a block in order, with no scope bookkeeping.
    #[verifier::loop_isolation(false)]
    fn generate_compound_expression(&mut self, nodes: Vec<Node>)
        requires
            gen_supported(NodeV::Compound { nodes: nodes_view(nodes@) }),
        ensures
            final(self).ast == old(self).ast,
            appended(old(self).output@, final(self).output@, gen_nodes(nodes_view(nodes@))),
        decreases vs_height(nodes_view(nodes@)), 2int,
    {
        let ghost o0 = self.output@;
        let ghost vs = nodes_view(nodes@);
        proof {
            crate::ast::lemma_nodes_view(nodes@);
            lemma_appended_refl(o0);
            assert(vs.subrange(0, 0) =~= Seq::<NodeV>::empty());
        }
        let mut i: usize = 0;
        while i < nodes.len()
            invariant
                i <= nodes.len(),
                self.ast == old(self).ast,
                appended(o0, self.output@, gen_nodes(vs.subrange(0, i as int))),
            decreases nodes.len() - i,
        {
            let ghost before = self.output@;
            proof {
                lemma_vs_height(vs);
                let c = NodeV::Compound { nodes: vs };
                assert(c->nodes[i as int] == vs[i as int]);
                assert(gen_supported(vs[i as int])) by {
                    assert(gen_supported(c));
                    assert(gen_supported(c->nodes[i as int]));
                }
                assert(node_view(nodes@[i as int]) == vs[i as int]);
                assert(v_height(c) == 1 + vs_height(vs));
            }
            let node = nodes[i].clone();
            self.generate_node(node);
            i = i + 1;
            proof {
                lemma_appended_trans(
                    o0,
                    before,
                    self.output@,
                    gen_nodes(vs.subrange(0, i - 1 as int)),
                    gen_node(vs[i - 1 as int]),
                );
                let pre = vs.subrange(0, i as int);
                assert(pre.drop_last() =~= vs.subrange(0, i - 1 as int));
                assert(pre.last() == vs[i - 1 as int]);
                assert(gen_nodes(pre) == gen_nodes(vs.subrange(0, i - 1 as int)) + gen_node(
                    vs[i - 1 as int],
                ));
            }
        }
        proof {
            assert(vs.subrange(0, vs.len() as int) =~= vs);
        }
    }

    /// An integer leaf moves its literal into the accumulator; a comment
    /// leaf becomes an assembly comment line with no executable effect.
    fn generate_primary_expression(&mut self, token: Token)
        requires
            gen_supported(NodeV::Primary(token@)),
        ensures
            final(self).ast == old(self).ast,
            appended(old(self).output@, final(self).output@, gen_node(NodeV::Primary(token@))),
    {
        let ghost o0 = self.output@;
        match token.kind {
            TokenKind::INT(x) => {
                let mut line = String::from_str("    mov $");
                let digits = i32_string(x);
                line.append(digits.as_str());
                line.append(", %rax");
                self.emit(line.as_str());
                proof {
                    assert(line@ =~= render_instr(Instr::MovImm(x as int)));
                    assert(self.output@.subrange(o0.len() as int, self.output@.len() as int)
                        =~= seq![self.output@.last()]);
                    assert(lines_match(
                        self.output@.subrange(o0.len() as int, self.output@.len() as int),
                        seq![Instr::MovImm(x as int)],
                    ));
                }
            },
            TokenKind::COMMENT(x) => {
                let mut line = String::from_str("    #");
                line.append(x.as_str());
                self.emit(line.as_str());
                proof {
                    assert(line@ =~= render_instr(Instr::CommentLine(x@)));
                    assert(self.output@.subrange(o0.len() as int, self.output@.len() as int)
                        =~= seq![self.output@.last()]);
                    assert(lines_match(
                        self.output@.subrange(o0.len() as int, self.output@.len() as int),
                        seq![Instr::CommentLine(x@)],
                    ));
                }
            },
            _ => unreached(),
        }
    }

    /// A `return` generates its operand then the return instruction; unary
    /// minus negates the accumulator through a scratch register; unary plus
    /// is the identity.
    fn generate_unary_expression(&mut self, node: Node)
        requires
            gen_supported(node@),
            node is UnaryExpr,
        ensures
            final(self).ast == old(self).ast,
            appended(old(self).output@, final(self).output@, gen_node(node@)),
        decreases v_height(node@), 0int,
    {
        let ghost o0 = self.output@;
        let ghost nv = node@;
        match node {
            Node::UnaryExpr { token, node } => {
                proof {
                    assert(nv == (NodeV::Unary {
                        token: token@,
                        node: Box::new(node_view(*node)),
                    }));
                    assert(*nv->Unary_node == node_view(*node));
                }
                self.generate_node(*node);
                let ghost o1 = self.output@;
                match token.kind {
                    TokenKind::KEYWORD(KeywordKind::RETURN) => {
                        self.emit("    ret");
                        proof {
                            assert(self.output@.subrange(o1.len() as int, self.output@.len() as int)
                                =~= seq![self.output@.last()]);
                            assert(lines_match(
                                self.output@.subrange(o1.len() as int, self.output@.len() as int),
                                seq![Instr::Ret],
                            ));
                            lemma_appended_trans(
                                o0,
                                o1,
                                self.output@,
                                gen_node(*nv->Unary_node),
                                seq![Instr::Ret],
                            );
                        }
                    },
                    TokenKind::MINUS => {
                        self.emit("    mov %rax, %rbx");
                        self.emit("    mov $0, %rax");
                        self.emit("    sub %rbx, %rax");
                        proof {
                            let tail = seq![
                                Instr::MovRaxRbx,
                                Instr::MovZeroRax,
                                Instr::SubRbxRax,
                            ];
                            let mid = self.output@.subrange(
                                o1.len() as int,
                                self.output@.len() as int,
                            );
                            assert(mid.len() == 3);
                            assert(mid[0] == self.output@[o1.len() as int]);
                            assert(mid[1] == self.output@[o1.len() as int + 1]);
                            assert(mid[2] == self.output@[o1.len() as int + 2]);
                            assert(self.output@.subrange(0, o1.len() as int + 2).last()
                                == self.output@[o1.len() as int + 1]);
                            assert(self.output@.subrange(0, o1.len() as int + 1).last()
                                == self.output@[o1.len() as int]);
                            assert(lines_match(mid, tail));
                            assert(self.output@.subrange(0, o1.len() as int) =~= o1);
                            assert(appended(o0, o1, gen_node(*nv->Unary_node)));
                            assert(appended(o1, self.output@, tail));
                            lemma_appended_trans(o0, o1, self.output@, gen_node(*nv->Unary_node), tail);
                        }
                    },
                    TokenKind::PLUS => {
                        proof {
                            assert(appended(o0, self.output@, gen_node(nv)));
                        }
                    },
                    _ => unreached(),
                }
            },
            _ => unreached(),
        }
    }

    /// Arithmetic only: the right operand is generated first and pushed, the
    /// left lands in the accumulator, then the saved right-hand value is
    /// popped and combined.
    fn generate_binary_expression(&mut self, node: Node)
        requires
            gen_supported(node@),
            node is BinaryExpr,
        ensures
            final(self).ast == old(self).ast,
            appended(old(self).output@, final(self).output@, gen_node(node@)),
        decreases v_height(node@), 0int,
    {
        let ghost nv = node@;
        match node {
            Node::BinaryExpr { token, left, right } => {
                proof {
                    assert(nv == (NodeV::Binary {
                        token: token@,
                        left: Box::new(node_view(*left)),
                        right: Box::new(node_view(*right)),
                    }));
                }
                match &token.kind {
                    TokenKind::PLUS | TokenKind::MINUS | TokenKind::MUL | TokenKind::DIV => {
                        self.generate_maths_expr(token, *left, *right)
                    },
                    _ => unreached(),
                }
            },
            _ => unreached(),
        }
    }

    /// The operand-stack step for one arithmetic operator.
    fn generate_maths_expr(&mut self, token: Token, left: Node, right: Node)
        requires
            gen_supported(node_view(left)),
            gen_supported(node_view(right)),
            token@.kind is Plus || token@.kind is Minus || token@.kind is Mul || token@.kind
                is Div,
        ensures
            final(self).ast == old(self).ast,
            appended(
                old(self).output@,
                final(self).output@,
                gen_node(
                    NodeV::Binary {
                        token: token@,
                        left: Box::new(node_view(left)),
                        right: Box::new(node_view(right)),
                    },
                ),
            ),
        decreases max_nat(v_height(node_view(left)), v_height(node_view(right))), 2int,
    {
        let ghost o0 = self.output@;
        let ghost nv = NodeV::Binary {
            token: token@,
            left: Box::new(node_view(left)),
            right: Box::new(node_view(right)),
        };
        proof {
            assert(*nv->Binary_left == node_view(left));
            assert(*nv->Binary_right == node_view(right));
        }
        self.generate_node(right);
        let ghost o1 = self.output@;
        self.emit("    push %rax");
        let ghost o2 = self.output@;
        proof {
            assert(o2.subrange(o1.len() as int, o2.len() as int) =~= seq![o2.last()]);
            assert(lines_match(o2.subrange(o1.len() as int, o2.len() as int), seq![Instr::Push]));
            lemma_appended_trans(o0, o1, o2, gen_node(*nv->Binary_right), seq![Instr::Push]);
        }
        self.generate_node(left);
        let ghost o3 = self.output@;
        proof {
            lemma_appended_trans(
                o0,
                o2,
                o3,
                gen_node(*nv->Binary_right) + seq![Instr::Push],
                gen_node(*nv->Binary_left),
            );
        }
        self.emit("    pop %rdi");
        let ghost o4 = self.output@;
        let ghost core = gen_node(*nv->Binary_right) + seq![Instr::Push] + gen_node(
            *nv->Binary_left,
        ) + seq![Instr::PopRdi];
        proof {
            assert(o4.subrange(o3.len() as int, o4.len() as int) =~= seq![o4.last()]);
            assert(lines_match(o4.subrange(o3.len() as int, o4.len() as int), seq![Instr::PopRdi]));
            lemma_appended_trans(
                o0,
                o3,
                o4,
                gen_node(*nv->Binary_right) + seq![Instr::Push] + gen_node(*nv->Binary_left),
                seq![Instr::PopRdi],
            );
        }
        match &token.kind {
            TokenKind::PLUS => {
                self.emit("    add %rdi, %rax");
                proof {
                    assert(self.output@.subrange(o4.len() as int, self.output@.len() as int)
                        =~= seq![self.output@.last()]);
                    assert(lines_match(
                        self.output@.subrange(o4.len() as int, self.output@.len() as int),
                        seq![Instr::AddRdiRax],
                    ));
                    lemma_appended_trans(o0, o4, self.output@, core, seq![Instr::AddRdiRax]);
                }
            },
            TokenKind::MINUS => {
                self.emit("    sub %rdi, %rax");
                proof {
                    assert(self.output@.subrange(o4.len() as int, self.output@.len() as int)
                        =~= seq![self.output@.last()]);
                    assert(lines_match(
                        self.output@.subrange(o4.len() as int, self.output@.len() as int),
                        seq![Instr::SubRdiRax],
                    ));
                    lemma_appended_trans(o0, o4, self.output@, core, seq![Instr::SubRdiRax]);
                }
            },
            TokenKind::MUL => {
                self.emit("    imul %rdi, %rax");
                proof {
                    assert(self.output@.subrange(o4.len() as int, self.output@.len() as int)
                        =~= seq![self.output@.last()]);
                    assert(lines_match(
                        self.output@.subrange(o4.len() as int, self.output@.len() as int),
                        seq![Instr::ImulRdiRax],
                    ));
                    lemma_appended_trans(o0, o4, self.output@, core, seq![Instr::ImulRdiRax]);
                }
            },
            TokenKind::DIV => {
                self.emit("    cdq");
                self.emit("    idiv %rdi");
                proof {
                    let tail = seq![Instr::Cdq, Instr::IdivRdi];
                    let mid = self.output@.subrange(o4.len() as int, self.output@.len() as int);
                    assert(mid.len() == 2);
                    assert(mid[0] == self.output@[o4.len() as int]);
                    assert(mid[1] == self.output@[o4.len() as int + 1]);
                    assert(self.output@.subrange(0, o4.len() as int + 1).last()
                        == self.output@[o4.len() as int]);
                    assert(lines_match(mid, tail));
                    assert(self.output@.subrange(0, o4.len() as int) =~= o4);
                    assert(appended(o0, o4, core));
                    assert(appended(o4, self.output@, tail));
                    lemma_appended_trans(o0, o4, self.output@, core, tail);
                }
            },
            _ => unreached(),
        }
    }
}

// =========================
//  Correctness over the machine model
// =========================

/// The generator's correctness theorem: for every expression-shaped tree,
/// running the generated code from any machine state leaves the tree's
/// arithmetic value in the accumulator and the stack exactly as it was.
pub proof fn lemma_gen_expr_correct(n: NodeV, s: MState)
    requires
        is_expr(n),
    ensures
        run(gen_node(n), s).rax == eval(n),
        run(gen_node(n), s).stack == s.stack,
    decreases n,
{
    match n {
        NodeV::Primary(t) => {
            let code = gen_node(n);
            assert(code =~= seq![Instr::MovImm(eval(n))]);
            lemma_run_one(Instr::MovImm(eval(n)), s);
        },
        NodeV::Unary { token, node } => {
            lemma_gen_expr_correct(*node, s);
            if token.kind is Minus {
                let tail = seq![Instr::MovRaxRbx, Instr::MovZeroRax, Instr::SubRbxRax];
                assert(gen_node(n) == gen_node(*node) + tail);
                lemma_run_app(gen_node(*node), tail, s);
                let s1 = run(gen_node(*node), s);
                assert(tail =~= seq![Instr::MovRaxRbx] + (seq![Instr::MovZeroRax] + seq![
                    Instr::SubRbxRax,
                ]));
                lemma_run_app(
                    seq![Instr::MovRaxRbx],
                    seq![Instr::MovZeroRax] + seq![Instr::SubRbxRax],
                    s1,
                );
                lemma_run_one(Instr::MovRaxRbx, s1);
                let s2 = step(Instr::MovRaxRbx, s1);
                lemma_run_app(seq![Instr::MovZeroRax], seq![Instr::SubRbxRax], s2);
                lemma_run_one(Instr::MovZeroRax, s2);
                let s3 = step(Instr::MovZeroRax, s2);
                lemma_run_one(Instr::SubRbxRax, s3);
            } else {
                assert(gen_node(n) == gen_node(*node));
            }
        },
        NodeV::Binary { token, left, right } => {
            let gl = gen_node(*left);
            let gr = gen_node(*right);
            let core = gr + seq![Instr::Push] + gl + seq![Instr::PopRdi];
            let op_tail = if token.kind is Plus {
                seq![Instr::AddRdiRax]
            } else if token.kind is Minus {
                seq![Instr::SubRdiRax]
            } else if token.kind is Mul {
                seq![Instr::ImulRdiRax]
            } else {
                seq![Instr::Cdq, Instr::IdivRdi]
            };
            assert(gen_node(n) == core + op_tail);
            lemma_gen_expr_correct(*right, s);
            let s1 = run(gr, s);
            let s2 = step(Instr::Push, s1);
            lemma_gen_expr_correct(*left, s2);
            let s3 = run(gl, s2);
            let s4 = step(Instr::PopRdi, s3);
            assert(run(core, s) == s4) by {
                lemma_run_app(gr, seq![Instr::Push], s);
                lemma_run_one(Instr::Push, s1);
                lemma_run_app(gr + seq![Instr::Push], gl, s);
                assert(run(gr + seq![Instr::Push], s) == s2);
                lemma_run_app(gr + seq![Instr::Push] + gl, seq![Instr::PopRdi], s);
                assert(run(gr + seq![Instr::Push] + gl, s) == s3);
                lemma_run_one(Instr::PopRdi, s3);
            }
            assert(s4.rax == eval(*left));
            assert(s4.rdi == eval(*right)) by {
                assert(s3.stack == s2.stack);
                assert(s2.stack == s1.stack.push(eval(*right)));
            }
            assert(s4.stack =~= s.stack) by {
                assert(s3.stack.drop_last() =~= s1.stack);
            }
            lemma_run_app(core, op_tail, s);
            if token.kind is Div {
                assert(op_tail =~= seq![Instr::Cdq] + seq![Instr::IdivRdi]);
                lemma_run_app(seq![Instr::Cdq], seq![Instr::IdivRdi], s4);
                lemma_run_one(Instr::Cdq, s4);
                lemma_run_one(Instr::IdivRdi, step(Instr::Cdq, s4));
            } else {
                lemma_run_one(op_tail.first(), s4);
                assert(op_tail =~= seq![op_tail.first()]);
            }
        },
        NodeV::Compound { .. } => {},
    }
}

/// Unary sign chains are idempotent under double negation: the code
/// generated for `- - e` leaves the same accumulator value as the code
/// generated for `e`, from any starting state.
pub proof fn lemma_double_negation(t1: TokenV, t2: TokenV, n: NodeV, s: MState)
    requires
        t1.kind is Minus,
        t2.kind is Minus,
        is_expr(n),
    ensures
        ({
            let twice = NodeV::Unary {
                token: t1,
                node: Box::new(NodeV::Unary { token: t2, node: Box::new(n) }),
            };
            run(gen_node(twice), s).rax == run(gen_node(n), s).rax
        }),
{
    let once = NodeV::Unary { token: t2, node: Box::new(n) };
    let twice = NodeV::Unary { token: t1, node: Box::new(once) };
    assert(is_expr(once));
    assert(is_expr(twice));
    lemma_gen_expr_correct(n, s);
    lemma_gen_expr_correct(twice, s);
    assert(eval(once) == -eval(n));
    assert(eval(twice) == eval(n));
}

/// A comment leaf renders as an assembly comment with no executable effect:
/// running its code changes nothing.
pub proof fn lemma_comment_no_effect(t: TokenV, s: MState)
    requires
        t.kind is Comment,
    ensures
        run(gen_node(NodeV::Primary(t)), s) == s,
{
    let code = gen_node(NodeV::Primary(t));
    assert(code =~= seq![Instr::CommentLine(t.kind->Comment_0)]);
    lemma_run_one(Instr::CommentLine(t.kind->Comment_0), s);
}

/// A block holding one `return e` statement compiles to the code for `e`
/// followed by the return instruction, and that code is reached with the
/// accumulator holding exactly the value of `e`.
pub proof fn lemma_return_block(rt: TokenV, e: NodeV, s: MState)
    requires
        rt.kind == TokenKindV::Keyword(KeywordKind::RETURN),
        is_expr(e),
    ensures
        gen_node(NodeV::Compound { nodes: seq![NodeV::Unary { token: rt, node: Box::new(e) }] })
            == gen_node(e) + seq![Instr::Ret],
        run(gen_node(e), s).rax == eval(e),
        run(
            gen_node(
                NodeV::Compound { nodes: seq![NodeV::Unary { token: rt, node: Box::new(e) }] },
            ),
            s,
        ).rax == eval(e),
{
    let stmt = NodeV::Unary { token: rt, node: Box::new(e) };
    let block = NodeV::Compound { nodes: seq![stmt] };
    assert(seq![stmt].drop_last() =~= Seq::<NodeV>::empty());
    assert(gen_nodes(Seq::<NodeV>::empty()) == Seq::<Instr>::empty());
    assert(gen_node(stmt) == gen_node(e) + seq![Instr::Ret]);
    assert(seq![stmt].last() == stmt);
    assert(gen_nodes(seq![stmt]) =~= gen_node(stmt));
    assert(gen_node(block) == gen_node(e) + seq![Instr::Ret]);
    lemma_gen_expr_correct(e, s);
    lemma_run_app(gen_node(e), seq![Instr::Ret], s);
    lemma_run_one(Instr::Ret, run(gen_node(e), s));
}

/// The pipeline's correctness for expressions: whatever expression the
/// parser's `expr` rule accepts, running the code generated for it, from any
/// machine state, leaves exactly the expression's arithmetic value in the
/// accumulator — standard precedence, left-to-right evaluation and
/// truncating division, as [`eval`] states them.
pub proof fn lemma_parse_generate_correct(
    toks: Seq<TokenV>,
    fp: Seq<char>,
    i: int,
    s: MState,
)
    requires
        crate::parser::wf_tokens(toks),
        0 <= i < toks.len(),
    ensures
        crate::parser::spec_expr(toks, fp, i) matches Ok(step) ==> {
            &&& run(gen_node(step.0), s).rax == eval(step.0)
            &&& run(gen_node(step.0), s).stack == s.stack
            &&& gen_supported(step.0)
        },
{
    crate::parser::lemma_spec_expr_props(toks, fp, i);
    match crate::parser::spec_expr(toks, fp, i) {
        Ok((n, j)) => {
            lemma_gen_expr_correct(n, s);
            crate::ast::lemma_is_expr_gen_supported(n);
        },
        Err(_) => {},
    }
}

} // verus!
