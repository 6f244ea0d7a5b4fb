//! Representation and traversal engine for scalar arithmetic expression
//! trees over index-addressed variables and numeric constants.
//!
//! The heart of the crate is a node arena ([`NodeExpression`]) and two
//! iterative tree walks over it: one renders a subtree as its fully
//! parenthesized infix pieces, one lowers a subtree to a postfix evaluation
//! program.  Both carry an explicit work stack instead of recursing, so a
//! tree's depth is bounded by available memory rather than by the native
//! call stack, and both are proved to terminate on every arena built
//! through [`NodeExpression::add`].

use vstd::prelude::*;

pub mod digits;
pub mod eval;
pub mod expr;
pub mod fmt;
mod measure;
pub mod node;

pub use eval::EvalOp;
pub use expr::NodeExpression;
pub use fmt::FmtPiece;
pub use node::BinOp;
pub use node::ExprError;
pub use node::Node;
pub use node::NodeId;

verus! {

/// Interface of expression-like values that later collaborators (a
/// differentiator, an interval evaluator) are expected to implement.
/// These are declared extension points only; no behaviour is promised
/// of them here.
pub trait Expression: Sized {
    /// Point evaluation against a binding vector.
    fn evaluate_point(&self);

    /// Derivative computation; left unspecified.
    fn derivative_point(&self);

    /// Interval-arithmetic evaluation; left unspecified.
    fn evaluate_interval(&self);
}

} // verus!
