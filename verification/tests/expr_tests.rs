use exprtree::{BinOp, EvalOp, ExprError, FmtPiece, Node, NodeExpression};

/// Renders format pieces to text, giving constants the standard shortest
/// round-trip decimal form.
fn render(pieces: &[FmtPiece]) -> String {
    let mut out = String::new();
    for p in pieces {
        match p {
            FmtPiece::Text(s) => out.push_str(s),
            FmtPiece::Constant(c) => out.push_str(&format!("{}", f32::from_bits(*c))),
        }
    }
    out
}

/// Folds a postfix evaluation program with real `f32` arithmetic.
fn run(prog: &[EvalOp]) -> f32 {
    let mut stack: Vec<f32> = Vec::new();
    for op in prog {
        match op {
            EvalOp::Push(v) => stack.push(f32::from_bits(*v)),
            EvalOp::Apply(op) => {
                let right = stack.pop().unwrap();
                let left = stack.pop().unwrap();
                stack.push(match op {
                    BinOp::Add => left + right,
                    BinOp::Sub => left - right,
                    BinOp::Mul => left * right,
                    BinOp::Div => left / right,
                    BinOp::Exp => left.powf(right),
                });
            }
        }
    }
    assert_eq!(stack.len(), 1);
    stack.pop().unwrap()
}

fn fmt_str(e: &NodeExpression, n: usize) -> String {
    render(&e.format(n).unwrap())
}

fn eval_f32(e: &NodeExpression, n: usize, bindings: &[f32]) -> Result<f32, ExprError> {
    let bits: Vec<u32> = bindings.iter().map(|b| b.to_bits()).collect();
    e.evaluate_point(n, &bits).map(|prog| run(&prog))
}

fn constant(v: f32) -> Node {
    Node::Constant(v.to_bits())
}

#[test]
fn format() {
    {
        let mut nodes = NodeExpression::new();
        let n0 = nodes.add(constant(5.0));
        let n1 = nodes.add(Node::Variable(0));
        let n2 = nodes.add(Node::Variable(1));
        let n3 = nodes.add(Node::Add(n0, n1));
        let n4 = nodes.add(Node::Mul(n3, n2));
        assert_eq!(fmt_str(&nodes, n4), "((5 + Var(0)) * Var(1))");
    }
}

#[test]
fn evaluate_literal_scenario() {
    let mut nodes = NodeExpression::new();
    let n0 = nodes.add(constant(5.0));
    let n1 = nodes.add(Node::Variable(0));
    let n2 = nodes.add(Node::Variable(1));
    let n3 = nodes.add(Node::Add(n0, n1));
    let n4 = nodes.add(Node::Mul(n3, n2));
    assert_eq!(eval_f32(&nodes, n4, &[2.0, 3.0]), Ok(21.0));
}

#[test]
fn sub_operand_order() {
    let mut nodes = NodeExpression::new();
    let a = nodes.add(constant(10.0));
    let b = nodes.add(constant(3.0));
    let s = nodes.add(Node::Sub(a, b));
    assert_eq!(eval_f32(&nodes, s, &[]), Ok(7.0));
}

#[test]
fn div_operand_order() {
    let mut nodes = NodeExpression::new();
    let a = nodes.add(constant(8.0));
    let b = nodes.add(constant(2.0));
    let d = nodes.add(Node::Div(a, b));
    assert_eq!(eval_f32(&nodes, d, &[]), Ok(4.0));
}

#[test]
fn exp_operand_order() {
    let mut nodes = NodeExpression::new();
    let a = nodes.add(constant(2.0));
    let b = nodes.add(constant(3.0));
    let e = nodes.add(Node::Exp(a, b));
    assert_eq!(eval_f32(&nodes, e, &[]), Ok(8.0));
}

#[test]
fn format_all_operators() {
    let mut nodes = NodeExpression::new();
    let a = nodes.add(constant(1.5));
    let b = nodes.add(Node::Variable(12));
    let s = nodes.add(Node::Sub(a, b));
    let d = nodes.add(Node::Div(s, a));
    let x = nodes.add(Node::Exp(d, b));
    assert_eq!(fmt_str(&nodes, x), "(((1.5 - Var(12)) / 1.5) ^ Var(12))");
}

#[test]
fn unbound_variable_fails() {
    let mut nodes = NodeExpression::new();
    let v = nodes.add(Node::Variable(5));
    let c = nodes.add(constant(1.0));
    let s = nodes.add(Node::Add(v, c));
    assert_eq!(eval_f32(&nodes, s, &[2.0, 3.0]), Err(ExprError::UnboundVariable));
}

#[test]
fn invalid_id_fails() {
    let mut nodes = NodeExpression::new();
    let c = nodes.add(constant(1.0));
    assert_eq!(nodes.node(7), Err(ExprError::InvalidId));
    assert!(nodes.format(7).is_err());
    assert_eq!(nodes.format(7).unwrap_err(), ExprError::InvalidId);
    assert_eq!(eval_f32(&nodes, 7, &[1.0]), Err(ExprError::InvalidId));
    assert_eq!(nodes.node(c), Ok(&Node::Constant(1.0f32.to_bits())));
}

#[test]
fn repeated_calls_identical() {
    let mut nodes = NodeExpression::new();
    let a = nodes.add(constant(2.5));
    let b = nodes.add(Node::Variable(0));
    let m = nodes.add(Node::Mul(a, b));
    assert_eq!(fmt_str(&nodes, m), fmt_str(&nodes, m));
    assert_eq!(eval_f32(&nodes, m, &[4.0]), eval_f32(&nodes, m, &[4.0]));
}

#[test]
fn shared_subexpression() {
    let mut nodes = NodeExpression::new();
    let a = nodes.add(constant(2.0));
    let b = nodes.add(constant(3.0));
    let m = nodes.add(Node::Mul(a, b));
    let s = nodes.add(Node::Add(m, m));
    assert_eq!(fmt_str(&nodes, s), "((2 * 3) + (2 * 3))");
    assert_eq!(eval_f32(&nodes, s, &[]), Ok(12.0));
}

#[test]
fn subtree_of_larger_expression() {
    let mut nodes = NodeExpression::new();
    let a = nodes.add(constant(4.0));
    let b = nodes.add(Node::Variable(0));
    let m = nodes.add(Node::Mul(a, b));
    let _top = nodes.add(Node::Add(m, a));
    assert_eq!(fmt_str(&nodes, m), "(4 * Var(0))");
    assert_eq!(eval_f32(&nodes, b, &[9.0]), Ok(9.0));
}

#[test]
fn deep_left_chain() {
    let mut nodes = NodeExpression::new();
    let zero = nodes.add(constant(0.0));
    let mut top = nodes.add(constant(1.0));
    for _ in 0..100_000 {
        top = nodes.add(Node::Add(top, zero));
    }
    assert_eq!(eval_f32(&nodes, top, &[]), Ok(1.0));
    let text = fmt_str(&nodes, top);
    assert_eq!(text.len(), 100_000 * 6 + 1);
    assert!(text.starts_with("((((("));
    assert!(text.ends_with(" + 0)"));
}

#[test]
fn deep_right_chain() {
    let mut nodes = NodeExpression::new();
    let zero = nodes.add(constant(0.0));
    let mut top = nodes.add(constant(1.0));
    for _ in 0..100_000 {
        top = nodes.add(Node::Sub(zero, top));
    }
    assert_eq!(eval_f32(&nodes, top, &[]), Ok(1.0));
    let text = fmt_str(&nodes, top);
    assert_eq!(text.len(), 100_000 * 6 + 1);
    assert!(text.starts_with("(0 - (0"));
    assert!(text.ends_with(")))))"));
    assert_eq!(&text[text.len() - 100_001..text.len() - 100_000], "1");
}

#[test]
fn insertion_returns_sequential_ids() {
    let mut nodes = NodeExpression::new();
    let a = nodes.add(constant(1.0));
    let b = nodes.add(Node::Variable(3));
    let c = nodes.add(Node::Mul(a, b));
    assert_eq!((a, b, c), (0, 1, 2));
    assert_eq!(nodes.node(b), Ok(&Node::Variable(3)));
}

#[test]
fn exp_nan_propagates() {
    let mut nodes = NodeExpression::new();
    let base = nodes.add(constant(-8.0));
    let ex = nodes.add(constant(0.5));
    let p = nodes.add(Node::Exp(base, ex));
    let c = nodes.add(constant(1.0));
    let s = nodes.add(Node::Add(p, c));
    assert!(eval_f32(&nodes, s, &[]).unwrap().is_nan());
}
