//! The iterative formatter: an explicit-stack walk that renders a subtree
//! as fully parenthesized infix pieces.  Constant leaves stay as their
//! stored 32-bit encodings, because the library performs no
//! floating-point work itself; a thin numeric shell turns them into
//! decimal text and concatenates the pieces.

use vstd::prelude::*;
use vstd::string::StringExecFns;

use crate::digits::{dec_digits, to_decimal};
use crate::expr::NodeExpression;
use crate::measure::{pow5, lemma_pow5_pos, lemma_pow5_step};
use crate::node::{Node, NodeId, ExprError, spec_children, node_refs_below, arena_wf};

verus! {

/// One piece of a rendered subtree, in output order: either literal text,
/// or a constant leaf's stored 32-bit encoding, left for the caller's
/// numeric renderer.
#[derive(Debug)]
pub enum FmtPiece {
    Text(String),
    Constant(u32),
}

/// Spec-level image of one piece.
pub enum PieceV {
    Text(Seq<char>),
    Constant(u32),
}

pub open spec fn piece_view(p: FmtPiece) -> PieceV {
    match p {
        FmtPiece::Text(s) => PieceV::Text(s@),
        FmtPiece::Constant(c) => PieceV::Constant(c),
    }
}

pub open spec fn pieces_view(s: Seq<FmtPiece>) -> Seq<PieceV> {
    s.map_values(|p: FmtPiece| piece_view(p))
}

/// The infix operator text of a binary node, blanks included.
pub open spec fn op_str_of(n: Node) -> Seq<char> {
    match n {
        Node::Add(_, _) => " + "@,
        Node::Sub(_, _) => " - "@,
        Node::Mul(_, _) => " * "@,
        Node::Div(_, _) => " / "@,
        Node::Exp(_, _) => " ^ "@,
        _ => Seq::<char>::empty(),
    }
}

/// The text of a variable leaf.
pub open spec fn var_text(v: nat) -> Seq<char> {
    "Var("@ + dec_digits(v) + ")"@
}

/// The rendered pieces of the subtree at `id`: a fully parenthesized infix
/// walk, left operand before right.
pub open spec fn spec_pieces(nodes: Seq<Node>, id: int) -> Seq<PieceV>
    decreases id,
{
    if 0 <= id < nodes.len() {
        match nodes[id] {
            Node::Variable(v) => seq![PieceV::Text(var_text(v as nat))],
            Node::Constant(c) => seq![PieceV::Constant(c)],
            nd => match spec_children(nd) {
                Some((a, b)) => if a < id && b < id {
                    seq![PieceV::Text("("@)] + spec_pieces(nodes, a as int)
                        + seq![PieceV::Text(op_str_of(nd))] + spec_pieces(nodes, b as int)
                        + seq![PieceV::Text(")"@)]
                } else {
                    Seq::<PieceV>::empty()
                },
                None => Seq::<PieceV>::empty(),
            },
        }
    } else {
        Seq::<PieceV>::empty()
    }
}

/// Work token of the renderer: finished text, or a subtree still to be
/// expanded.
#[derive(Clone, Copy)]
enum FmtToken {
    Text(&'static str),
    Visit(NodeId),
}

spec fn ftoken_pieces(nodes: Seq<Node>, t: FmtToken) -> Seq<PieceV> {
    match t {
        FmtToken::Text(s) => seq![PieceV::Text(s@)],
        FmtToken::Visit(x) => spec_pieces(nodes, x as int),
    }
}

/// The output a work stack still owes, top token first.
spec fn fstack_rest(nodes: Seq<Node>, s: Seq<FmtToken>) -> Seq<PieceV>
    decreases s.len(),
{
    if s.len() == 0 {
        Seq::<PieceV>::empty()
    } else {
        ftoken_pieces(nodes, s.last()) + fstack_rest(nodes, s.drop_last())
    }
}

spec fn fstack_bounded(nodes: Seq<Node>, s: Seq<FmtToken>) -> bool {
    forall|i: int|
        0 <= i < s.len() ==> ((#[trigger] s[i]) matches FmtToken::Visit(x) ==> x < nodes.len())
}

spec fn ftoken_weight(t: FmtToken) -> nat {
    match t {
        FmtToken::Text(_) => 1,
        FmtToken::Visit(x) => pow5((x + 1) as nat),
    }
}

spec fn fstack_weight(s: Seq<FmtToken>) -> nat
    decreases s.len(),
{
    if s.len() == 0 {
        0
    } else {
        ftoken_weight(s.last()) + fstack_weight(s.drop_last())
    }
}

proof fn lemma_fstack_push(nodes: Seq<Node>, s: Seq<FmtToken>, t: FmtToken)
    ensures
        fstack_rest(nodes, s.push(t)) == ftoken_pieces(nodes, t) + fstack_rest(nodes, s),
        fstack_weight(s.push(t)) == ftoken_weight(t) + fstack_weight(s),
{
    assert(s.push(t).drop_last() =~= s);
    assert(s.push(t).last() == t);
}

proof fn lemma_fstack_push5(
    nodes: Seq<Node>,
    s: Seq<FmtToken>,
    t1: FmtToken,
    t2: FmtToken,
    t3: FmtToken,
    t4: FmtToken,
    t5: FmtToken,
)
    ensures
        fstack_rest(nodes, s.push(t1).push(t2).push(t3).push(t4).push(t5)) == ftoken_pieces(
            nodes,
            t5,
        ) + ftoken_pieces(nodes, t4) + ftoken_pieces(nodes, t3) + ftoken_pieces(nodes, t2)
            + ftoken_pieces(nodes, t1) + fstack_rest(nodes, s),
        fstack_weight(s.push(t1).push(t2).push(t3).push(t4).push(t5)) == ftoken_weight(t1)
            + ftoken_weight(t2) + ftoken_weight(t3) + ftoken_weight(t4) + ftoken_weight(t5)
            + fstack_weight(s),
{
    lemma_fstack_push(nodes, s, t1);
    lemma_fstack_push(nodes, s.push(t1), t2);
    lemma_fstack_push(nodes, s.push(t1).push(t2), t3);
    lemma_fstack_push(nodes, s.push(t1).push(t2).push(t3), t4);
    lemma_fstack_push(nodes, s.push(t1).push(t2).push(t3).push(t4), t5);
    assert(ftoken_pieces(nodes, t5) + (ftoken_pieces(nodes, t4) + (ftoken_pieces(nodes, t3)
        + (ftoken_pieces(nodes, t2) + (ftoken_pieces(nodes, t1) + fstack_rest(nodes, s)))))
        =~= ftoken_pieces(nodes, t5) + ftoken_pieces(nodes, t4) + ftoken_pieces(nodes, t3)
        + ftoken_pieces(nodes, t2) + ftoken_pieces(nodes, t1) + fstack_rest(nodes, s));
}

/// Builds the text of a variable leaf.
fn var_string(v: usize) -> (s: String)
    ensures
        s@ == var_text(v as nat),
{
    let mut s = String::from_str("Var(");
    let d = to_decimal(v);
    s.append(d.as_str());
    s.append(")");
    s
}

impl NodeExpression {
    /// Fully parenthesized infix rendering of the subtree at `n`, delivered
    /// as pieces in output order, each constant leaf left as its stored
    /// encoding for the caller's numeric renderer.
    ///
    /// The walk is iterative: it carries one explicit work stack, so the
    /// depth it can handle is bounded by memory, not by the native call
    /// stack, and the `decreases` clause proves it terminates on every
    /// arena built through `add`.  It is pure: the outcome depends only on
    /// the arena contents and `n`.
    pub fn format(&self, n: NodeId) -> (r: Result<Vec<FmtPiece>, ExprError>)
        requires
            self.wf(),
        ensures
            match r {
                Ok(pieces) => n < self.spec_nodes().len() && pieces_view(pieces@) == spec_pieces(
                    self.spec_nodes(),
                    n as int,
                ),
                Err(e) => e == ExprError::InvalidId && n >= self.spec_nodes().len(),
            },
    {
        if n >= self.nodes_len() {
            return Err(ExprError::InvalidId);
        }
        let ghost nodes = self.spec_nodes();
        let mut out: Vec<FmtPiece> = Vec::new();
        let mut stack: Vec<FmtToken> = Vec::new();
        stack.push(FmtToken::Visit(n));
        proof {
            assert(stack@.drop_last() =~= Seq::<FmtToken>::empty());
            assert(stack@.last() == FmtToken::Visit(n));
            assert(fstack_rest(nodes, stack@.drop_last()) =~= Seq::<PieceV>::empty());
            assert(pieces_view(out@) =~= Seq::<PieceV>::empty());
            assert(pieces_view(out@) + fstack_rest(nodes, stack@) =~= spec_pieces(
                nodes,
                n as int,
            ));
        }
        while stack.len() > 0
            invariant
                self.wf(),
                nodes == self.spec_nodes(),
                n < nodes.len(),
                fstack_bounded(nodes, stack@),
                pieces_view(out@) + fstack_rest(nodes, stack@) == spec_pieces(nodes, n as int),
            decreases fstack_weight(stack@),
        {
            let ghost s0 = stack@;
            let t = stack.pop().unwrap();
            proof {
                assert(stack@ =~= s0.drop_last());
                assert(fstack_rest(nodes, s0) == ftoken_pieces(nodes, t) + fstack_rest(
                    nodes,
                    stack@,
                ));
            }
            match t {
                FmtToken::Text(txt) => {
                    let p = FmtPiece::Text(String::from_str(txt));
                    proof {
                        assert(pieces_view(out@.push(p)) =~= pieces_view(out@).push(
                            piece_view(p),
                        ));
                        assert(pieces_view(out@).push(piece_view(p)) + fstack_rest(nodes, stack@)
                            =~= pieces_view(out@) + fstack_rest(nodes, s0));
                    }
                    out.push(p);
                },
                FmtToken::Visit(x) => {
                    proof {
                        assert(node_refs_below(nodes[x as int], x as int));
                        lemma_pow5_pos(x as nat);
                    }
                    let nd = *self.node_at(x);
                    match nd {
                        Node::Variable(v) => {
                            let p = FmtPiece::Text(var_string(v));
                            proof {
                                assert(pieces_view(out@.push(p)) =~= pieces_view(out@).push(
                                    piece_view(p),
                                ));
                                assert(pieces_view(out@).push(piece_view(p)) + fstack_rest(
                                    nodes,
                                    stack@,
                                ) =~= pieces_view(out@) + fstack_rest(nodes, s0));
                            }
                            out.push(p);
                        },
                        Node::Constant(c) => {
                            let p = FmtPiece::Constant(c);
                            proof {
                                assert(pieces_view(out@.push(p)) =~= pieces_view(out@).push(
                                    piece_view(p),
                                ));
                                assert(pieces_view(out@).push(piece_view(p)) + fstack_rest(
                                    nodes,
                                    stack@,
                                ) =~= pieces_view(out@) + fstack_rest(nodes, s0));
                            }
                            out.push(p);
                        },
                        _ => {
                            let (a, b, ops): (NodeId, NodeId, &'static str) = match nd {
                                Node::Add(a, b) => (a, b, " + "),
                                Node::Sub(a, b) => (a, b, " - "),
                                Node::Mul(a, b) => (a, b, " * "),
                                Node::Div(a, b) => (a, b, " / "),
                                Node::Exp(a, b) => (a, b, " ^ "),
                                _ => {
                                    proof {
                                        assert(false);
                                    }
                                    (0, 0, "")
                                },
                            };
                            proof {
                                assert(spec_children(nd) == Some((a, b)));
                                assert(ops@ == op_str_of(nd));
                                assert(a < x && b < x);
                            }
                            let ghost s1 = stack@;
                            stack.push(FmtToken::Text(")"));
                            stack.push(FmtToken::Visit(b));
                            stack.push(FmtToken::Text(ops));
                            stack.push(FmtToken::Visit(a));
                            stack.push(FmtToken::Text("("));
                            proof {
                                lemma_fstack_push5(
                                    nodes,
                                    s1,
                                    FmtToken::Text(")"),
                                    FmtToken::Visit(b),
                                    FmtToken::Text(ops),
                                    FmtToken::Visit(a),
                                    FmtToken::Text("("),
                                );
                                assert(ftoken_pieces(nodes, t) =~= seq![
                                    PieceV::Text("("@),
                                ] + spec_pieces(nodes, a as int) + seq![
                                    PieceV::Text(op_str_of(nd)),
                                ] + spec_pieces(nodes, b as int) + seq![PieceV::Text(")"@)]);
                                assert(fstack_rest(nodes, stack@) =~= ftoken_pieces(nodes, t)
                                    + fstack_rest(nodes, s1));
                                assert(pieces_view(out@) + fstack_rest(nodes, stack@)
                                    =~= pieces_view(out@) + fstack_rest(nodes, s0));
                                lemma_pow5_step(a as nat, b as nat, x as nat);
                                assert(fstack_weight(stack@) < fstack_weight(s0));
                            }
                        },
                    }
                },
            }
        }
        proof {
            assert(fstack_rest(nodes, stack@) =~= Seq::<PieceV>::empty());
            assert(pieces_view(out@) =~= pieces_view(out@) + fstack_rest(nodes, stack@));
        }
        Ok(out)
    }
}

/// Pieces rendered to text, once an interpretation `ct` of constant
/// encodings as decimal text is fixed.
pub open spec fn pieces_text(ct: spec_fn(u32) -> Seq<char>, ps: Seq<PieceV>) -> Seq<char>
    decreases ps.len(),
{
    if ps.len() == 0 {
        Seq::<char>::empty()
    } else {
        pieces_text(ct, ps.drop_last()) + (match ps.last() {
            PieceV::Text(t) => t,
            PieceV::Constant(c) => ct(c),
        })
    }
}

/// The fully parenthesized infix text of the subtree at `id`, defined
/// directly by recursion on the tree, under the constant renderer `ct`.
pub open spec fn spec_text(nodes: Seq<Node>, ct: spec_fn(u32) -> Seq<char>, id: int) -> Seq<
    char,
>
    decreases id,
{
    if 0 <= id < nodes.len() {
        match nodes[id] {
            Node::Variable(v) => var_text(v as nat),
            Node::Constant(c) => ct(c),
            nd => match spec_children(nd) {
                Some((a, b)) => if a < id && b < id {
                    "("@ + spec_text(nodes, ct, a as int) + op_str_of(nd) + spec_text(
                        nodes,
                        ct,
                        b as int,
                    ) + ")"@
                } else {
                    Seq::<char>::empty()
                },
                None => Seq::<char>::empty(),
            },
        }
    } else {
        Seq::<char>::empty()
    }
}

proof fn lemma_pieces_text_concat(ct: spec_fn(u32) -> Seq<char>, p: Seq<PieceV>, q: Seq<PieceV>)
    ensures
        pieces_text(ct, p + q) == pieces_text(ct, p) + pieces_text(ct, q),
    decreases q.len(),
{
    if q.len() == 0 {
        assert(p + q =~= p);
        assert(pieces_text(ct, p) + pieces_text(ct, q) =~= pieces_text(ct, p));
    } else {
        lemma_pieces_text_concat(ct, p, q.drop_last());
        assert((p + q).drop_last() =~= p + q.drop_last());
        assert((p + q).last() == q.last());
        assert(pieces_text(ct, p) + pieces_text(ct, q) =~= pieces_text(ct, p) + (pieces_text(
            ct,
            q.drop_last(),
        ) + (match q.last() {
            PieceV::Text(t) => t,
            PieceV::Constant(c) => ct(c),
        })));
    }
}

/// Rendering correctness of the formatter's pieces, for every constant
/// renderer: concatenating the pieces of a subtree, with each constant
/// encoding rendered by `ct`, yields exactly the fully parenthesized
/// infix text of that subtree.  Two renderings of equal arenas therefore
/// agree whenever the renderer is a function.
pub proof fn lemma_pieces_render(nodes: Seq<Node>, ct: spec_fn(u32) -> Seq<char>, id: int)
    requires
        arena_wf(nodes),
        0 <= id < nodes.len(),
    ensures
        pieces_text(ct, spec_pieces(nodes, id)) == spec_text(nodes, ct, id),
    decreases id,
{
    let ps = spec_pieces(nodes, id);
    assert(node_refs_below(nodes[id], id));
    assert(pieces_text(ct, Seq::<PieceV>::empty()) == Seq::<char>::empty());
    match nodes[id] {
        Node::Variable(v) => {
            assert(ps =~= seq![PieceV::Text(var_text(v as nat))]);
            assert(ps.drop_last() =~= Seq::<PieceV>::empty());
            assert(pieces_text(ct, ps) =~= var_text(v as nat));
        },
        Node::Constant(c) => {
            assert(ps =~= seq![PieceV::Constant(c)]);
            assert(ps.drop_last() =~= Seq::<PieceV>::empty());
            assert(pieces_text(ct, ps) =~= ct(c));
        },
        nd => {
            let (a, b) = spec_children(nd).unwrap();
            let pa = spec_pieces(nodes, a as int);
            let pb = spec_pieces(nodes, b as int);
            let sl = seq![PieceV::Text("("@)];
            let so = seq![PieceV::Text(op_str_of(nd))];
            let sr = seq![PieceV::Text(")"@)];
            assert(a < id && b < id);
            lemma_pieces_render(nodes, ct, a as int);
            lemma_pieces_render(nodes, ct, b as int);
            assert(ps == sl + pa + so + pb + sr);
            assert(sl.drop_last() =~= Seq::<PieceV>::empty());
            assert(so.drop_last() =~= Seq::<PieceV>::empty());
            assert(sr.drop_last() =~= Seq::<PieceV>::empty());
            lemma_pieces_text_concat(ct, sl, pa);
            lemma_pieces_text_concat(ct, sl + pa, so);
            lemma_pieces_text_concat(ct, sl + pa + so, pb);
            lemma_pieces_text_concat(ct, sl + pa + so + pb, sr);
            assert(pieces_text(ct, ps) =~= "("@ + spec_text(nodes, ct, a as int) + op_str_of(
                nd,
            ) + spec_text(nodes, ct, b as int) + ")"@);
        },
    }
}

} // verus!
