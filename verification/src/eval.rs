//! The iterative evaluator front end: an explicit-stack walk that lowers
//! a subtree to its postfix evaluation program, resolving variables
//! against the binding vector on the way.  The library performs no
//! floating-point arithmetic itself, so the program keeps values as
//! 32-bit encodings; a thin numeric shell folds it with real arithmetic,
//! and the stack-discipline lemma proves that folding can never underflow
//! nor end with more than the one result.

use vstd::prelude::*;

use vstd::slice::slice_index_get;

use crate::expr::NodeExpression;
use crate::measure::{pow5, lemma_pow5_pos, lemma_pow5_step};
use crate::node::{Node, NodeId, BinOp, ExprError, spec_children, spec_op, node_refs_below, arena_wf};

verus! {

/// One step of a postfix evaluation program.
///
/// `Push(v)` places the 32-bit encoded value `v` on the value stack;
/// `Apply(op)` pops the right operand, then the left operand, and pushes
/// the encoded result of `left op right`.
#[derive(Clone, Copy, PartialEq, Eq, Structural, Debug)]
pub enum EvalOp {
    Push(u32),
    Apply(BinOp),
}

/// Every variable reachable from `id` lies within a binding vector of
/// length `blen`, and every reference on the way is in bounds.
pub open spec fn vars_ok(nodes: Seq<Node>, blen: nat, id: int) -> bool
    decreases id,
{
    0 <= id < nodes.len() && match nodes[id] {
        Node::Variable(v) => v < blen,
        Node::Constant(_) => true,
        nd => match spec_children(nd) {
            Some((a, b)) => a < id && b < id && vars_ok(nodes, blen, a as int)
                && vars_ok(nodes, blen, b as int),
            None => false,
        },
    }
}

/// The postfix program of the subtree at `id`: left operand's program,
/// then the right operand's, then the operator application, with leaves
/// lowered to pushes of their concrete values.
pub open spec fn spec_program(nodes: Seq<Node>, bindings: Seq<u32>, id: int) -> Seq<EvalOp>
    decreases id,
{
    if 0 <= id < nodes.len() {
        match nodes[id] {
            Node::Variable(v) => if v < bindings.len() {
                seq![EvalOp::Push(bindings[v as int])]
            } else {
                Seq::<EvalOp>::empty()
            },
            Node::Constant(c) => seq![EvalOp::Push(c)],
            nd => match (spec_children(nd), spec_op(nd)) {
                (Some((a, b)), Some(op)) => if a < id && b < id {
                    spec_program(nodes, bindings, a as int)
                        + spec_program(nodes, bindings, b as int) + seq![EvalOp::Apply(op)]
                } else {
                    Seq::<EvalOp>::empty()
                },
                _ => Seq::<EvalOp>::empty(),
            },
        }
    } else {
        Seq::<EvalOp>::empty()
    }
}

/// Work token of the lowering walk: a finished program step, or a
/// subtree still to be expanded.
#[derive(Clone, Copy)]
enum EvalToken {
    Emit(EvalOp),
    Visit(NodeId),
}

spec fn etoken_prog(nodes: Seq<Node>, bindings: Seq<u32>, t: EvalToken) -> Seq<EvalOp> {
    match t {
        EvalToken::Emit(o) => seq![o],
        EvalToken::Visit(x) => spec_program(nodes, bindings, x as int),
    }
}

/// The program steps a work stack still owes, top token first.
spec fn estack_rest(nodes: Seq<Node>, bindings: Seq<u32>, s: Seq<EvalToken>) -> Seq<EvalOp>
    decreases s.len(),
{
    if s.len() == 0 {
        Seq::<EvalOp>::empty()
    } else {
        etoken_prog(nodes, bindings, s.last()) + estack_rest(nodes, bindings, s.drop_last())
    }
}

spec fn estack_bounded(nodes: Seq<Node>, s: Seq<EvalToken>) -> bool {
    forall|i: int|
        0 <= i < s.len() ==> ((#[trigger] s[i]) matches EvalToken::Visit(x) ==> x < nodes.len())
}

/// All variables reachable from the subtrees still on the stack are bound.
spec fn estack_vars(nodes: Seq<Node>, blen: nat, s: Seq<EvalToken>) -> bool
    decreases s.len(),
{
    if s.len() == 0 {
        true
    } else {
        (match s.last() {
            EvalToken::Emit(_) => true,
            EvalToken::Visit(x) => vars_ok(nodes, blen, x as int),
        }) && estack_vars(nodes, blen, s.drop_last())
    }
}

spec fn etoken_weight(t: EvalToken) -> nat {
    match t {
        EvalToken::Emit(_) => 1,
        EvalToken::Visit(x) => pow5((x + 1) as nat),
    }
}

spec fn estack_weight(s: Seq<EvalToken>) -> nat
    decreases s.len(),
{
    if s.len() == 0 {
        0
    } else {
        etoken_weight(s.last()) + estack_weight(s.drop_last())
    }
}

proof fn lemma_estack_push(nodes: Seq<Node>, bindings: Seq<u32>, blen: nat, s: Seq<EvalToken>, t: EvalToken)
    ensures
        estack_rest(nodes, bindings, s.push(t)) == etoken_prog(nodes, bindings, t) + estack_rest(
            nodes,
            bindings,
            s,
        ),
        estack_weight(s.push(t)) == etoken_weight(t) + estack_weight(s),
        estack_vars(nodes, blen, s.push(t)) == ((match t {
            EvalToken::Emit(_) => true,
            EvalToken::Visit(x) => vars_ok(nodes, blen, x as int),
        }) && estack_vars(nodes, blen, s)),
{
    assert(s.push(t).drop_last() =~= s);
    assert(s.push(t).last() == t);
}

impl NodeExpression {
    /// Lowers the subtree at `n` to its postfix evaluation program against
    /// the given binding vector of 32-bit encoded values: the left
    /// operand's program, then the right operand's, then the operator,
    /// with each leaf lowered to a push of its concrete value.
    ///
    /// The walk is iterative, with one explicit work stack, proved to
    /// terminate on every arena built through `add`.  It succeeds exactly
    /// when `n` lies inside the arena and every variable reachable from it
    /// is covered by `bindings`; otherwise it reports which of the two
    /// conditions failed, and reads nothing out of bounds.
    pub fn evaluate_point(&self, n: NodeId, bindings: &[u32]) -> (r: Result<
        Vec<EvalOp>,
        ExprError,
    >)
        requires
            self.wf(),
        ensures
            match r {
                Ok(prog) => n < self.spec_nodes().len() && vars_ok(
                    self.spec_nodes(),
                    bindings@.len(),
                    n as int,
                ) && prog@ == spec_program(self.spec_nodes(), bindings@, n as int),
                Err(e) => (e == ExprError::InvalidId && n >= self.spec_nodes().len()) || (e
                    == ExprError::UnboundVariable && n < self.spec_nodes().len() && !vars_ok(
                    self.spec_nodes(),
                    bindings@.len(),
                    n as int,
                )),
            },
            n < self.spec_nodes().len() && vars_ok(self.spec_nodes(), bindings@.len(), n as int)
                ==> r is Ok,
    {
        if n >= self.nodes_len() {
            return Err(ExprError::InvalidId);
        }
        let ghost nodes = self.spec_nodes();
        let ghost blen = bindings@.len();
        let mut out: Vec<EvalOp> = Vec::new();
        let mut stack: Vec<EvalToken> = Vec::new();
        stack.push(EvalToken::Visit(n));
        proof {
            assert(stack@.drop_last() =~= Seq::<EvalToken>::empty());
            assert(stack@.last() == EvalToken::Visit(n));
            assert(estack_rest(nodes, bindings@, stack@.drop_last()) =~= Seq::<EvalOp>::empty());
            assert(estack_vars(nodes, blen, stack@.drop_last()));
            assert(estack_vars(nodes, blen, stack@) == vars_ok(nodes, blen, n as int));
            assert(out@ + estack_rest(nodes, bindings@, stack@) =~= spec_program(
                nodes,
                bindings@,
                n as int,
            ));
        }
        while stack.len() > 0
            invariant
                self.wf(),
                nodes == self.spec_nodes(),
                blen == bindings@.len(),
                n < nodes.len(),
                estack_bounded(nodes, stack@),
                out@ + estack_rest(nodes, bindings@, stack@) == spec_program(
                    nodes,
                    bindings@,
                    n as int,
                ),
                vars_ok(nodes, blen, n as int) <==> estack_vars(nodes, blen, stack@),
            decreases estack_weight(stack@),
        {
            let ghost s0 = stack@;
            let t = stack.pop().unwrap();
            proof {
                assert(stack@ =~= s0.drop_last());
                assert(estack_rest(nodes, bindings@, s0) == etoken_prog(nodes, bindings@, t)
                    + estack_rest(nodes, bindings@, stack@));
                assert(estack_vars(nodes, blen, s0) == ((match t {
                    EvalToken::Emit(_) => true,
                    EvalToken::Visit(x) => vars_ok(nodes, blen, x as int),
                }) && estack_vars(nodes, blen, stack@)));
            }
            match t {
                EvalToken::Emit(o) => {
                    proof {
                        assert(out@.push(o) + estack_rest(nodes, bindings@, stack@) =~= out@
                            + estack_rest(nodes, bindings@, s0));
                    }
                    out.push(o);
                },
                EvalToken::Visit(x) => {
                    proof {
                        assert(node_refs_below(nodes[x as int], x as int));
                        lemma_pow5_pos(x as nat);
                    }
                    let nd = *self.node_at(x);
                    match nd {
                        Node::Variable(v) => {
                            if v >= bindings.len() {
                                proof {
                                    assert(!vars_ok(nodes, blen, x as int));
                                    assert(!estack_vars(nodes, blen, s0));
                                }
                                return Err(ExprError::UnboundVariable);
                            }
                            let o = EvalOp::Push(*slice_index_get(bindings, v));
                            proof {
                                assert(etoken_prog(nodes, bindings@, t) =~= seq![o]);
                                assert(out@.push(o) + estack_rest(nodes, bindings@, stack@)
                                    =~= out@ + estack_rest(nodes, bindings@, s0));
                            }
                            out.push(o);
                        },
                        Node::Constant(c) => {
                            let o = EvalOp::Push(c);
                            proof {
                                assert(etoken_prog(nodes, bindings@, t) =~= seq![o]);
                                assert(out@.push(o) + estack_rest(nodes, bindings@, stack@)
                                    =~= out@ + estack_rest(nodes, bindings@, s0));
                            }
                            out.push(o);
                        },
                        _ => {
                            let (a, b, op): (NodeId, NodeId, BinOp) = match nd {
                                Node::Add(a, b) => (a, b, BinOp::Add),
                                Node::Sub(a, b) => (a, b, BinOp::Sub),
                                Node::Mul(a, b) => (a, b, BinOp::Mul),
                                Node::Div(a, b) => (a, b, BinOp::Div),
                                Node::Exp(a, b) => (a, b, BinOp::Exp),
                                _ => {
                                    proof {
                                        assert(false);
                                    }
                                    (0, 0, BinOp::Add)
                                },
                            };
                            proof {
                                assert(spec_children(nd) == Some((a, b)));
                                assert(spec_op(nd) == Some(op));
                                assert(a < x && b < x);
                            }
                            let ghost s1 = stack@;
                            stack.push(EvalToken::Emit(EvalOp::Apply(op)));
                            stack.push(EvalToken::Visit(b));
                            stack.push(EvalToken::Visit(a));
                            proof {
                                lemma_estack_push(nodes, bindings@, blen, s1, EvalToken::Emit(EvalOp::Apply(op)));
                                lemma_estack_push(nodes, bindings@, blen, s1.push(EvalToken::Emit(EvalOp::Apply(op))), EvalToken::Visit(b));
                                lemma_estack_push(nodes, bindings@, blen, s1.push(EvalToken::Emit(EvalOp::Apply(op))).push(EvalToken::Visit(b)), EvalToken::Visit(a));
                                assert(etoken_prog(nodes, bindings@, t) =~= spec_program(
                                    nodes,
                                    bindings@,
                                    a as int,
                                ) + spec_program(nodes, bindings@, b as int) + seq![
                                    EvalOp::Apply(op),
                                ]);
                                assert(estack_rest(nodes, bindings@, stack@) =~= etoken_prog(
                                    nodes,
                                    bindings@,
                                    t,
                                ) + estack_rest(nodes, bindings@, s1));
                                assert(out@ + estack_rest(nodes, bindings@, stack@) =~= out@
                                    + estack_rest(nodes, bindings@, s0));
                                assert(vars_ok(nodes, blen, x as int) == (vars_ok(
                                    nodes,
                                    blen,
                                    a as int,
                                ) && vars_ok(nodes, blen, b as int)));
                                lemma_pow5_step(a as nat, b as nat, x as nat);
                                assert(estack_weight(stack@) < estack_weight(s0));
                            }
                        },
                    }
                },
            }
        }
        proof {
            assert(estack_rest(nodes, bindings@, stack@) =~= Seq::<EvalOp>::empty());
            assert(out@ =~= out@ + estack_rest(nodes, bindings@, stack@));
        }
        Ok(out)
    }
}

/// Net number of values one program step leaves on a value stack.
pub open spec fn op_net(o: EvalOp) -> int {
    match o {
        EvalOp::Push(_) => 1,
        EvalOp::Apply(_) => -1,
    }
}

/// Net number of values a program leaves on a value stack.
pub open spec fn prog_net(p: Seq<EvalOp>) -> int
    decreases p.len(),
{
    if p.len() == 0 {
        0
    } else {
        prog_net(p.drop_last()) + op_net(p.last())
    }
}

proof fn lemma_prog_net_concat(p: Seq<EvalOp>, q: Seq<EvalOp>)
    ensures
        prog_net(p + q) == prog_net(p) + prog_net(q),
    decreases q.len(),
{
    if q.len() == 0 {
        assert(p + q =~= p);
    } else {
        lemma_prog_net_concat(p, q.drop_last());
        assert((p + q).drop_last() =~= p + q.drop_last());
        assert((p + q).last() == q.last());
    }
}

/// Stack discipline of a lowered program: run against a value stack,
/// every `Apply` step finds at least two values to pop, and the whole run
/// leaves exactly one value.  So on any subtree of a well-formed arena
/// whose reachable variables are bound, an executor of the program can
/// neither underflow its value stack nor end with anything but the single
/// result: the malformed-state failure is unreachable.
pub proof fn lemma_program_stack_discipline(nodes: Seq<Node>, bindings: Seq<u32>, id: int)
    requires
        arena_wf(nodes),
        0 <= id < nodes.len(),
        vars_ok(nodes, bindings.len(), id),
    ensures
        prog_net(spec_program(nodes, bindings, id)) == 1,
        forall|i: int|
            0 <= i < spec_program(nodes, bindings, id).len() && (#[trigger] spec_program(
                nodes,
                bindings,
                id,
            )[i]) is Apply ==> prog_net(spec_program(nodes, bindings, id).take(i)) >= 2,
    decreases id,
{
    let p = spec_program(nodes, bindings, id);
    assert(node_refs_below(nodes[id], id));
    assert(prog_net(Seq::<EvalOp>::empty()) == 0);
    match nodes[id] {
        Node::Variable(v) => {
            assert(p =~= seq![EvalOp::Push(bindings[v as int])]);
            assert(p.drop_last() =~= Seq::<EvalOp>::empty());
            assert(prog_net(p) == 1);
            assert(forall|i: int| 0 <= i < p.len() ==> !((#[trigger] p[i]) is Apply));
        },
        Node::Constant(c) => {
            assert(p =~= seq![EvalOp::Push(c)]);
            assert(p.drop_last() =~= Seq::<EvalOp>::empty());
            assert(prog_net(p) == 1);
            assert(forall|i: int| 0 <= i < p.len() ==> !((#[trigger] p[i]) is Apply));
        },
        nd => {
            let (a, b) = spec_children(nd).unwrap();
            let op = spec_op(nd).unwrap();
            let pa = spec_program(nodes, bindings, a as int);
            let pb = spec_program(nodes, bindings, b as int);
            assert(a < id && b < id);
            assert(vars_ok(nodes, bindings.len(), a as int) && vars_ok(
                nodes,
                bindings.len(),
                b as int,
            ));
            lemma_program_stack_discipline(nodes, bindings, a as int);
            lemma_program_stack_discipline(nodes, bindings, b as int);
            assert(p == pa + pb + seq![EvalOp::Apply(op)]);
            lemma_prog_net_concat(pa, pb);
            lemma_prog_net_concat(pa + pb, seq![EvalOp::Apply(op)]);
            assert(seq![EvalOp::Apply(op)].drop_last() =~= Seq::<EvalOp>::empty());
            assert(prog_net(seq![EvalOp::Apply(op)]) == -1);
            assert(prog_net(p) == 1);
            assert forall|i: int| 0 <= i < p.len() && (#[trigger] p[i]) is Apply implies prog_net(
                p.take(i),
            ) >= 2 by {
                if i < pa.len() {
                    assert(p[i] == pa[i]);
                    assert(p.take(i) =~= pa.take(i));
                } else if i < pa.len() + pb.len() {
                    let j = i - pa.len();
                    assert(p[i] == pb[j]);
                    assert(p.take(i) =~= pa + pb.take(j));
                    lemma_prog_net_concat(pa, pb.take(j));
                } else {
                    assert(i == pa.len() + pb.len());
                    assert(p.take(i) =~= pa + pb);
                }
            }
        },
    }
}

/// The recursively defined value of the subtree at `id`, once an
/// interpretation `ap` of the five operators is fixed: a constant leaf is
/// its stored encoding, a variable leaf is its binding, and a binary node
/// is `ap` applied to the operator tag, the left operand's value, then
/// the right operand's value.
pub open spec fn eval_tree(
    nodes: Seq<Node>,
    bindings: Seq<u32>,
    ap: spec_fn(BinOp, u32, u32) -> u32,
    id: int,
) -> u32
    decreases id,
{
    if 0 <= id < nodes.len() {
        match nodes[id] {
            Node::Variable(v) => if v < bindings.len() {
                bindings[v as int]
            } else {
                0
            },
            Node::Constant(c) => c,
            nd => match (spec_children(nd), spec_op(nd)) {
                (Some((a, b)), Some(op)) => if a < id && b < id {
                    ap(
                        op,
                        eval_tree(nodes, bindings, ap, a as int),
                        eval_tree(nodes, bindings, ap, b as int),
                    )
                } else {
                    0
                },
                _ => 0,
            },
        }
    } else {
        0
    }
}

/// One program step acting on a value stack under the interpretation `ap`.
pub open spec fn step_op(ap: spec_fn(BinOp, u32, u32) -> u32, st: Seq<u32>, o: EvalOp) -> Seq<
    u32,
> {
    match o {
        EvalOp::Push(v) => st.push(v),
        EvalOp::Apply(op) => if st.len() >= 2 {
            st.drop_last().drop_last().push(ap(op, st[st.len() - 2], st.last()))
        } else {
            st
        },
    }
}

/// A whole program run front to back on a value stack.
pub open spec fn run_prog(
    ap: spec_fn(BinOp, u32, u32) -> u32,
    st: Seq<u32>,
    p: Seq<EvalOp>,
) -> Seq<u32>
    decreases p.len(),
{
    if p.len() == 0 {
        st
    } else {
        step_op(ap, run_prog(ap, st, p.drop_last()), p.last())
    }
}

proof fn lemma_run_prog_concat(
    ap: spec_fn(BinOp, u32, u32) -> u32,
    st: Seq<u32>,
    p: Seq<EvalOp>,
    q: Seq<EvalOp>,
)
    ensures
        run_prog(ap, st, p + q) == run_prog(ap, run_prog(ap, st, p), q),
    decreases q.len(),
{
    if q.len() == 0 {
        assert(p + q =~= p);
    } else {
        lemma_run_prog_concat(ap, st, p, q.drop_last());
        assert((p + q).drop_last() =~= p + q.drop_last());
        assert((p + q).last() == q.last());
    }
}

/// Evaluation correctness of the lowering, for every interpretation of
/// the operators: running the postfix program of a subtree on any value
/// stack pushes exactly the subtree's recursively defined value, with the
/// left operand handed to the operator first.  So an executor that folds
/// the program computes the tree's value, and two runs over equal inputs
/// agree whenever the interpretation is a function.
pub proof fn lemma_program_computes_tree(
    nodes: Seq<Node>,
    bindings: Seq<u32>,
    ap: spec_fn(BinOp, u32, u32) -> u32,
    st: Seq<u32>,
    id: int,
)
    requires
        arena_wf(nodes),
        0 <= id < nodes.len(),
        vars_ok(nodes, bindings.len(), id),
    ensures
        run_prog(ap, st, spec_program(nodes, bindings, id)) == st.push(
            eval_tree(nodes, bindings, ap, id),
        ),
    decreases id,
{
    let p = spec_program(nodes, bindings, id);
    assert(node_refs_below(nodes[id], id));
    assert(run_prog(ap, st, Seq::<EvalOp>::empty()) == st);
    match nodes[id] {
        Node::Variable(v) => {
            assert(p =~= seq![EvalOp::Push(bindings[v as int])]);
            assert(p.drop_last() =~= Seq::<EvalOp>::empty());
        },
        Node::Constant(c) => {
            assert(p =~= seq![EvalOp::Push(c)]);
            assert(p.drop_last() =~= Seq::<EvalOp>::empty());
        },
        nd => {
            let (a, b) = spec_children(nd).unwrap();
            let op = spec_op(nd).unwrap();
            let pa = spec_program(nodes, bindings, a as int);
            let pb = spec_program(nodes, bindings, b as int);
            let va = eval_tree(nodes, bindings, ap, a as int);
            let vb = eval_tree(nodes, bindings, ap, b as int);
            assert(a < id && b < id);
            assert(vars_ok(nodes, bindings.len(), a as int) && vars_ok(
                nodes,
                bindings.len(),
                b as int,
            ));
            lemma_program_computes_tree(nodes, bindings, ap, st, a as int);
            lemma_program_computes_tree(nodes, bindings, ap, st.push(va), b as int);
            assert(p == pa + pb + seq![EvalOp::Apply(op)]);
            lemma_run_prog_concat(ap, st, pa, pb);
            lemma_run_prog_concat(ap, st, pa + pb, seq![EvalOp::Apply(op)]);
            assert(seq![EvalOp::Apply(op)].drop_last() =~= Seq::<EvalOp>::empty());
            let st2 = st.push(va).push(vb);
            assert(run_prog(ap, st, pa + pb) == st2);
            assert(run_prog(ap, st2, Seq::<EvalOp>::empty()) == st2);
            assert(run_prog(ap, st2, seq![EvalOp::Apply(op)]) == step_op(
                ap,
                st2,
                EvalOp::Apply(op),
            ));
            assert(st2[st2.len() - 2] == va && st2.last() == vb);
            assert(st2.drop_last().drop_last() =~= st);
            assert(step_op(ap, st2, EvalOp::Apply(op)) == st.push(ap(op, va, vb)));
        },
    }
}

} // verus!
