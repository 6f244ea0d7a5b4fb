use vstd::prelude::*;

verus! {

/// Powers of five, the per-node weight base of both traversal measures.
///
/// A work-stack token that still has to visit node `x` weighs
/// `pow5(x + 1)`; a finished token weighs at most three.  Because a
/// binary node's operands stand strictly below it in the arena, expanding
/// a visit token always lowers the summed weight of the stack, which is
/// what lets both loops carry a `decreases` clause.
pub(crate) open spec fn pow5(n: nat) -> nat
    decreases n,
{
    if n == 0 {
        1
    } else {
        5 * pow5((n - 1) as nat)
    }
}

pub(crate) proof fn lemma_pow5_pos(n: nat)
    ensures
        pow5(n) >= 1,
    decreases n,
{
    if n > 0 {
        lemma_pow5_pos((n - 1) as nat);
    }
}

pub(crate) proof fn lemma_pow5_mono(a: nat, b: nat)
    requires
        a <= b,
    ensures
        pow5(a) <= pow5(b),
    decreases b,
{
    if a < b {
        lemma_pow5_mono(a, (b - 1) as nat);
        lemma_pow5_pos((b - 1) as nat);
    }
}

/// The step that justifies expanding a binary node: the children's visit
/// weights plus three finished tokens weigh less than the parent's visit
/// weight.
pub(crate) proof fn lemma_pow5_step(a: nat, b: nat, x: nat)
    requires
        a < x,
        b < x,
    ensures
        pow5(a + 1) + pow5(b + 1) + 3 < pow5(x + 1),
{
    lemma_pow5_mono(a + 1, x);
    lemma_pow5_mono(b + 1, x);
    lemma_pow5_mono(1, x);
    assert(pow5(0) == 1);
    assert(pow5(1) == 5);
    assert(pow5(x + 1) == 5 * pow5(x));
}

} // verus!
