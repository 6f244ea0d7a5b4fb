//! The node arena: append-only storage that issues stable identifiers and
//! keeps the construction-order invariant that makes every stored tree
//! acyclic.

use vstd::prelude::*;

use crate::node::{Node, NodeId, ExprError, node_refs_below, arena_wf};

verus! {

/// An append-only arena of nodes together with a designated root identifier.
///
/// Insertion appends and returns the new entry's index; entries are never
/// removed, reordered or rewritten, so identifiers stay valid for the
/// lifetime of the arena.
pub struct NodeExpression {
    nodes: Vec<Node>,
    /// Informational entry point for a caller who wants one canonical root;
    /// every operation takes an explicit identifier instead.
    root: NodeId,
}

impl NodeExpression {
    /// The stored node sequence, for contracts.
    pub closed spec fn spec_nodes(self) -> Seq<Node> {
        self.nodes@
    }

    /// Construction-order invariant: every stored node refers only to
    /// entries inserted strictly before it, so the structure is acyclic.
    pub open spec fn wf(self) -> bool {
        arena_wf(self.spec_nodes())
    }

    /// An empty arena, with the vestigial root pointing at the first entry
    /// a caller will insert.
    pub fn new() -> (e: NodeExpression)
        ensures
            e.wf(),
            e.spec_nodes() =~= Seq::<Node>::empty(),
    {
        NodeExpression { nodes: Vec::new(), root: 0 }
    }

    /// Appends `n` and returns its index.  A binary node may be inserted
    /// only once both of its operands exist, which is what keeps the arena
    /// acyclic by construction.
    pub fn add(&mut self, n: Node) -> (id: NodeId)
        requires
            old(self).wf(),
            node_refs_below(n, old(self).spec_nodes().len() as int),
        ensures
            final(self).wf(),
            id == old(self).spec_nodes().len(),
            final(self).spec_nodes() =~= old(self).spec_nodes().push(n),
    {
        let id = self.nodes.len();
        self.nodes.push(n);
        id
    }

    /// Internal read; the caller owes the bounds proof.
    pub(crate) fn node_at(&self, i: usize) -> (nd: &Node)
        requires
            i < self.spec_nodes().len(),
        ensures
            *nd == self.spec_nodes()[i as int],
    {
        &self.nodes[i]
    }

    /// Internal length accessor.
    pub(crate) fn nodes_len(&self) -> (l: usize)
        ensures
            l == self.spec_nodes().len(),
    {
        self.nodes.len()
    }

    /// Bounds-checked lookup: returns the node stored under `n`, or
    /// `InvalidId` exactly when `n` lies outside the arena.
    pub fn node(&self, n: NodeId) -> (r: Result<&Node, ExprError>)
        ensures
            match r {
                Ok(nd) => n < self.spec_nodes().len() && *nd == self.spec_nodes()[n as int],
                Err(e) => e == ExprError::InvalidId && n >= self.spec_nodes().len(),
            },
    {
        if n < self.nodes.len() {
            Ok(&self.nodes[n])
        } else {
            Err(ExprError::InvalidId)
        }
    }
}

} // verus!
