//! The closed set of expression node kinds, their error taxonomy, and the
//! construction-order invariant every arena maintains.

use vstd::prelude::*;

verus! {

/// Stable, non-reusable index of one node within one arena.
pub type NodeId = usize;

/// One expression node.
///
/// Binary variants hold the arena indices of their two operands, left first.
/// `Variable` holds an index into the caller's binding vector.  `Constant`
/// holds the 32-bit encoding of a numeric literal; the arena never interprets
/// that encoding, it only stores it and hands it back.
#[derive(Clone, Copy, PartialEq, Eq, Structural, Debug)]
pub enum Node {
    Add(NodeId, NodeId),
    Sub(NodeId, NodeId),
    Mul(NodeId, NodeId),
    Div(NodeId, NodeId),
    Exp(NodeId, NodeId),
    Variable(usize),
    Constant(u32),
}

/// The five binary operators, as plain tags.
#[derive(Clone, Copy, PartialEq, Eq, Structural, Debug)]
pub enum BinOp {
    Add,
    Sub,
    Mul,
    Div,
    Exp,
}

/// Failure conditions surfaced by lookup, formatting and evaluation.
///
/// `InvalidId` reports an identifier outside the arena's current bounds;
/// `UnboundVariable` reports a variable index out of range for the supplied
/// binding vector.  A malformed internal traversal state needs no variant:
/// the traversals are proved never to reach one.
#[derive(Clone, Copy, PartialEq, Eq, Structural, Debug)]
pub enum ExprError {
    InvalidId,
    UnboundVariable,
}

/// The operand pair of a binary node, if the node is binary.
pub open spec fn spec_children(n: Node) -> Option<(NodeId, NodeId)> {
    match n {
        Node::Add(a, b) => Some((a, b)),
        Node::Sub(a, b) => Some((a, b)),
        Node::Mul(a, b) => Some((a, b)),
        Node::Div(a, b) => Some((a, b)),
        Node::Exp(a, b) => Some((a, b)),
        Node::Variable(_) => None,
        Node::Constant(_) => None,
    }
}

/// The operator tag of a binary node, if the node is binary.
pub open spec fn spec_op(n: Node) -> Option<BinOp> {
    match n {
        Node::Add(_, _) => Some(BinOp::Add),
        Node::Sub(_, _) => Some(BinOp::Sub),
        Node::Mul(_, _) => Some(BinOp::Mul),
        Node::Div(_, _) => Some(BinOp::Div),
        Node::Exp(_, _) => Some(BinOp::Exp),
        Node::Variable(_) => None,
        Node::Constant(_) => None,
    }
}

/// A node may refer only to entries that stand strictly before `bound`.
pub open spec fn node_refs_below(n: Node, bound: int) -> bool {
    match spec_children(n) {
        Some((a, b)) => a < bound && b < bound,
        None => true,
    }
}

/// Construction-order invariant of a whole arena: every node refers only
/// to entries inserted strictly before it, so the structure is acyclic.
pub open spec fn arena_wf(nodes: Seq<Node>) -> bool {
    forall|i: int| 0 <= i < nodes.len() ==> node_refs_below(#[trigger] nodes[i], i)
}

} // verus!
