//! The abstract syntax tree: a small closed set of node variants built
//! bottom-up by the parser and only read by the code generator.
//!
//! Every non-leaf node exclusively owns its children; the tree is never
//! mutated after construction.  The mathematical model [`NodeV`] mirrors the
//! tree over token models, and [`eval`] gives the arithmetic meaning of an
//! expression-shaped tree: standard precedence with left-to-right
//! evaluation and C-style truncating integer division.

use vstd::prelude::*;

use crate::lexer::{KeywordKind, Token, TokenKind, TokenKindV, TokenV};

verus! {

/// An AST node.
#[derive(Debug, PartialEq)]
pub enum Node {
    /// A leaf holding an integer literal or comment token (and, on the left
    /// side of a declaration, the declared name).
    Primary(Token),
    /// Sign negation/identity or a `return`.
    UnaryExpr { token: Token, node: Box<Node> },
    /// Arithmetic or declaration-assignment.
    BinaryExpr { token: Token, left: Box<Node>, right: Box<Node> },
    /// A brace-delimited block, one entry per statement in source order.
    CompoundExpr { nodes: Vec<Node> },
}

/// The mathematical model of a [`Node`].
pub ghost enum NodeV {
    Primary(TokenV),
    Unary { token: TokenV, node: Box<NodeV> },
    Binary { token: TokenV, left: Box<NodeV>, right: Box<NodeV> },
    Compound { nodes: Seq<NodeV> },
}

/// The model of a [`Node`], recursively over its children.
pub open spec fn node_view(n: Node) -> NodeV
    decreases n,
{
    match n {
        Node::Primary(t) => NodeV::Primary(t@),
        Node::UnaryExpr { token, node } => NodeV::Unary {
            token: token@,
            node: Box::new(node_view(*node)),
        },
        Node::BinaryExpr { token, left, right } => NodeV::Binary {
            token: token@,
            left: Box::new(node_view(*left)),
            right: Box::new(node_view(*right)),
        },
        Node::CompoundExpr { nodes } => NodeV::Compound { nodes: nodes_view(nodes@) },
    }
}

/// The models of a node sequence, in order.
pub open spec fn nodes_view(ns: Seq<Node>) -> Seq<NodeV>
    decreases ns,
{
    if ns.len() == 0 {
        Seq::empty()
    } else {
        nodes_view(ns.drop_last()).push(node_view(ns.last()))
    }
}

pub proof fn lemma_nodes_view(ns: Seq<Node>)
    ensures
        nodes_view(ns).len() == ns.len(),
        forall|i: int| 0 <= i < ns.len() ==> nodes_view(ns)[i] == node_view(#[trigger] ns[i]),
    decreases ns.len(),
{
    if ns.len() > 0 {
        lemma_nodes_view(ns.drop_last());
        assert forall|i: int| 0 <= i < ns.len() implies nodes_view(ns)[i] == node_view(
            #[trigger] ns[i],
        ) by {
            if i < ns.len() - 1 {
                assert(ns.drop_last()[i] == ns[i]);
                assert(nodes_view(ns)[i] == nodes_view(ns.drop_last())[i]);
            } else {
                assert(nodes_view(ns)[i] == node_view(ns.last()));
            }
        }
    }
}

impl View for Node {
    type V = NodeV;

    open spec fn view(&self) -> NodeV {
        node_view(*self)
    }
}

impl Clone for Node {
    #[verifier::loop_isolation(false)]
    fn clone(&self) -> (res: Self)
        ensures
            res@ == self@,
        decreases self,
    {
        match self {
            Node::Primary(t) => Node::Primary(t.clone()),
            Node::UnaryExpr { token, node } => Node::UnaryExpr {
                token: token.clone(),
                node: Box::new((**node).clone()),
            },
            Node::BinaryExpr { token, left, right } => Node::BinaryExpr {
                token: token.clone(),
                left: Box::new((**left).clone()),
                right: Box::new((**right).clone()),
            },
            Node::CompoundExpr { nodes } => {
                let mut cloned: Vec<Node> = Vec::new();
                let mut i: usize = 0;
                while i < nodes.len()
                    invariant
                        i <= nodes.len(),
                        cloned@.len() == i,
                        forall|j: int|
                            0 <= j < i ==> node_view(#[trigger] cloned@[j]) == node_view(
                                nodes@[j],
                            ),
                    decreases nodes.len() - i,
                {
                    proof {
                        assert(decreases_to!(*self => self->CompoundExpr_nodes));
                        assert(decreases_to!(self->CompoundExpr_nodes => self->CompoundExpr_nodes@));
                        assert(decreases_to!(self->CompoundExpr_nodes@ =>
                            self->CompoundExpr_nodes@[i as int]));
                        assert(nodes@ == self->CompoundExpr_nodes@);
                        assert(decreases_to!(*self => nodes@[i as int]));
                    }
                    cloned.push(nodes[i].clone());
                    i = i + 1;
                }
                proof {
                    lemma_nodes_view(cloned@);
                    lemma_nodes_view(nodes@);
                    assert forall|j: int| 0 <= j < nodes@.len() implies nodes_view(cloned@)[j]
                        == nodes_view(nodes@)[j] by {
                        assert(node_view(cloned@[j]) == node_view(nodes@[j]));
                    }
                    assert(nodes_view(cloned@) =~= nodes_view(nodes@));
                }
                Node::CompoundExpr { nodes: cloned }
            },
        }
    }
}

/// A truncating (C-style) integer division: the quotient is rounded toward
/// zero.  Division by zero is given the value 0 here; every use is guarded.
pub open spec fn trunc_div(a: int, b: int) -> int {
    if b == 0 {
        0
    } else {
        let q = abs_of(a) / abs_of(b);
        if (a < 0) == (b < 0) {
            q
        } else {
            -q
        }
    }
}

pub open spec fn abs_of(a: int) -> int {
    if a < 0 {
        -a
    } else {
        a
    }
}

/// The expression-shaped trees: integer leaves, sign operators, and the four
/// arithmetic operators.  This is exactly the shape the parser's expression
/// rules produce.
pub open spec fn is_expr(n: NodeV) -> bool
    decreases n,
{
    match n {
        NodeV::Primary(t) => t.kind is Int,
        NodeV::Unary { token, node } => (token.kind is Plus || token.kind is Minus) && is_expr(
            *node,
        ),
        NodeV::Binary { token, left, right } => (token.kind is Plus || token.kind is Minus
            || token.kind is Mul || token.kind is Div) && is_expr(*left) && is_expr(*right),
        NodeV::Compound { .. } => false,
    }
}

/// The arithmetic value of an expression-shaped tree: standard precedence is
/// already encoded in the tree, unary minus negates, and `/` truncates
/// toward zero.
pub open spec fn eval(n: NodeV) -> int
    decreases n,
{
    match n {
        NodeV::Primary(t) => match t.kind {
            TokenKindV::Int(x) => x as int,
            _ => 0,
        },
        NodeV::Unary { token, node } => match token.kind {
            TokenKindV::Minus => -eval(*node),
            _ => eval(*node),
        },
        NodeV::Binary { token, left, right } => match token.kind {
            TokenKindV::Plus => eval(*left) + eval(*right),
            TokenKindV::Minus => eval(*left) - eval(*right),
            TokenKindV::Mul => eval(*left) * eval(*right),
            TokenKindV::Div => trunc_div(eval(*left), eval(*right)),
            _ => 0,
        },
        NodeV::Compound { .. } => 0,
    }
}

/// The trees the code generator accepts: integer or comment leaves, sign and
/// `return` unary operators, arithmetic binary operators, and blocks of the
/// same.  Declarations (`=`) are deliberately not generatable: their code
/// generation is unsupported, and the generator's callers reject them first.
pub open spec fn gen_supported(n: NodeV) -> bool
    decreases n,
{
    match n {
        NodeV::Primary(t) => t.kind is Int || t.kind is Comment,
        NodeV::Unary { token, node } => (token.kind is Plus || token.kind is Minus || token.kind
            == TokenKindV::Keyword(KeywordKind::RETURN)) && gen_supported(*node),
        NodeV::Binary { token, left, right } => (token.kind is Plus || token.kind is Minus
            || token.kind is Mul || token.kind is Div) && gen_supported(*left) && gen_supported(
            *right,
        ),
        NodeV::Compound { nodes } => forall|i: int|
            0 <= i < nodes.len() ==> gen_supported(#[trigger] nodes[i]),
    }
}

impl Node {
    /// Whether the code generator accepts this tree; see [`gen_supported`].
    #[verifier::loop_isolation(false)]
    pub fn is_gen_supported(&self) -> (r: bool)
        ensures
            r == gen_supported(self@),
        decreases self,
    {
        match self {
            Node::Primary(t) => {
                proof {
                    assert(self@ == NodeV::Primary(t@));
                }
                let r = match &t.kind {
                    TokenKind::INT(_) => true,
                    TokenKind::COMMENT(_) => true,
                    _ => false,
                };
                proof {
                    assert(r == gen_supported(self@));
                }
                r
            },
            Node::UnaryExpr { token, node } => {
                proof {
                    assert(self@ == (NodeV::Unary {
                        token: token@,
                        node: Box::new(node_view(**node)),
                    }));
                }
                let op_ok = match &token.kind {
                    TokenKind::PLUS => true,
                    TokenKind::MINUS => true,
                    TokenKind::KEYWORD(KeywordKind::RETURN) => true,
                    _ => false,
                };
                let r = op_ok && node.is_gen_supported();
                proof {
                    assert(r == gen_supported(self@));
                }
                r
            },
            Node::BinaryExpr { token, left, right } => {
                proof {
                    assert(self@ == (NodeV::Binary {
                        token: token@,
                        left: Box::new(node_view(**left)),
                        right: Box::new(node_view(**right)),
                    }));
                }
                let op_ok = match &token.kind {
                    TokenKind::PLUS => true,
                    TokenKind::MINUS => true,
                    TokenKind::MUL => true,
                    TokenKind::DIV => true,
                    _ => false,
                };
                let r = op_ok && left.is_gen_supported() && right.is_gen_supported();
                proof {
                    assert(r == gen_supported(self@));
                }
                r
            },
            Node::CompoundExpr { nodes } => {
                proof {
                    assert(self@ == (NodeV::Compound { nodes: nodes_view(nodes@) }));
                }
                let mut i: usize = 0;
                let mut ok = true;
                while i < nodes.len()
                    invariant
                        i <= nodes.len(),
                        ok == forall|j: int|
                            0 <= j < i ==> gen_supported(node_view(#[trigger] nodes@[j])),
                    decreases nodes.len() - i,
                {
                    proof {
                        assert(decreases_to!(*self => self->CompoundExpr_nodes));
                        assert(decreases_to!(self->CompoundExpr_nodes => self->CompoundExpr_nodes@));
                        assert(decreases_to!(self->CompoundExpr_nodes@ =>
                            self->CompoundExpr_nodes@[i as int]));
                        assert(nodes@ == self->CompoundExpr_nodes@);
                        assert(decreases_to!(*self => nodes@[i as int]));
                    }
                    let this_ok = nodes[i].is_gen_supported();
                    ok = ok && this_ok;
                    i = i + 1;
                }
                proof {
                    lemma_nodes_view(nodes@);
                    let vs = nodes_view(nodes@);
                    let c = NodeV::Compound { nodes: vs };
                    assert(i == nodes.len());
                    if ok {
                        assert forall|j: int| 0 <= j < c->nodes.len() implies gen_supported(
                            #[trigger] c->nodes[j],
                        ) by {
                            assert(c->nodes[j] == vs[j]);
                            assert(vs[j] == node_view(nodes@[j]));
                            assert(gen_supported(node_view(nodes@[j])));
                        }
                        assert(gen_supported(c));
                    } else {
                        let w = choose|j: int|
                            0 <= j < nodes@.len() && !gen_supported(node_view(
                                #[trigger] nodes@[j],
                            ));
                        assert(c->nodes[w] == node_view(nodes@[w]));
                        assert(!gen_supported(c));
                    }
                    assert(ok == gen_supported(self@));
                }
                ok
            },
        }
    }
}

/// Every expression-shaped tree is one the code generator accepts.
pub proof fn lemma_is_expr_gen_supported(n: NodeV)
    requires
        is_expr(n),
    ensures
        gen_supported(n),
    decreases n,
{
    match n {
        NodeV::Primary(_) => {},
        NodeV::Unary { token, node } => {
            lemma_is_expr_gen_supported(*node);
        },
        NodeV::Binary { token, left, right } => {
            lemma_is_expr_gen_supported(*left);
            lemma_is_expr_gen_supported(*right);
        },
        NodeV::Compound { .. } => {},
    }
}

/// The structural invariant of parser output: every binary operator is
/// arithmetic or the declaration `=`, every unary operator is a sign or the
/// `return` keyword, and every leaf holds an integer literal, a comment or a
/// declared name.
pub open spec fn wf_node(n: NodeV) -> bool
    decreases n,
{
    match n {
        NodeV::Primary(t) => t.kind is Int || t.kind is Comment || t.kind is DeclName,
        NodeV::Unary { token, node } => (token.kind is Plus || token.kind is Minus || token.kind
            == TokenKindV::Keyword(KeywordKind::RETURN)) && wf_node(*node),
        NodeV::Binary { token, left, right } => (token.kind is Plus || token.kind is Minus
            || token.kind is Mul || token.kind is Div || token.kind is Equals) && wf_node(*left)
            && wf_node(*right),
        NodeV::Compound { nodes } => forall|i: int|
            0 <= i < nodes.len() ==> wf_node(#[trigger] nodes[i]),
    }
}

/// Expression-shaped trees satisfy the structural invariant.
pub proof fn lemma_is_expr_wf_node(n: NodeV)
    requires
        is_expr(n),
    ensures
        wf_node(n),
    decreases n,
{
    match n {
        NodeV::Primary(_) => {},
        NodeV::Unary { token, node } => {
            lemma_is_expr_wf_node(*node);
        },
        NodeV::Binary { token, left, right } => {
            lemma_is_expr_wf_node(*left);
            lemma_is_expr_wf_node(*right);
        },
        NodeV::Compound { .. } => {},
    }
}

} // verus!
