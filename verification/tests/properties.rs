use micrograd::graph::Graph;
use micrograd::graph::Value;
use micrograd::node::Op;

fn leaf(g: &mut Graph, v: f64) -> Value {
    Value::new(g, v.to_bits(), None)
}

fn data_of(g: &Graph, v: Value) -> f64 {
    f64::from_bits(v.data(g))
}

fn grad_of(g: &Graph, v: Value) -> f64 {
    f64::from_bits(v.grad(g))
}

#[test]
fn fan_out_accumulates() {
    // z = x + x: both contributions land in the same accumulator.
    let mut g = Graph::new();
    let x = leaf(&mut g, 7.5);
    let z = x.add(&mut g, x);
    z.backward(&mut g);
    assert_eq!(grad_of(&g, x), 2.0);
    assert_eq!(data_of(&g, z), 15.0);
}

#[test]
fn diamond_dependency() {
    // root = (x + 1) + (x * 2): x is reachable along two distinct paths.
    let mut g = Graph::new();
    let x = leaf(&mut g, 3.0);
    let one = leaf(&mut g, 1.0);
    let two = leaf(&mut g, 2.0);
    let left = x.add(&mut g, one);
    let right = x.mul(&mut g, two);
    let root = left.add(&mut g, right);
    let (nodes, edges) = root.trace_graph(&g);

    // x appears exactly once among the traced nodes.
    let x_count = nodes.iter().filter(|v| v.id() == x.id()).count();
    assert_eq!(x_count, 1);
    assert_eq!(nodes.len(), 6);
    for i in 0..nodes.len() {
        for j in 0..i {
            assert_ne!(nodes[i].id(), nodes[j].id());
        }
    }
    // Two edges leave x: one to each consumer.
    let from_x = edges.iter().filter(|e| e.0.id() == x.id()).count();
    assert_eq!(from_x, 2);

    // And x receives the sum of both paths' contributions: 1 + 2.
    root.backward(&mut g);
    assert_eq!(grad_of(&g, x), 3.0);
}

#[test]
fn repeated_operand_edge_listed_once() {
    let mut g = Graph::new();
    let x = leaf(&mut g, 1.5);
    let z = x.add(&mut g, x);
    let (nodes, edges) = z.trace_graph(&g);
    assert_eq!(nodes.len(), 2);
    assert_eq!(edges.len(), 1);
    assert_eq!(edges[0].0.id(), x.id());
    assert_eq!(edges[0].1.id(), z.id());
}

#[test]
fn identity_equality() {
    // Equality is by identity: two leaves with identical data differ.
    let mut g = Graph::new();
    let a = leaf(&mut g, 1.0);
    let b = leaf(&mut g, 1.0);
    assert_eq!(a, a);
    assert_ne!(a, b);
    assert_eq!(data_of(&g, a), data_of(&g, b));
}

#[test]
fn topological_order_of_diamond() {
    // Same diamond as above, walked directly: depth-first post order with
    // every operand before its consumer and the root last.
    let mut g = Graph::new();
    let x = leaf(&mut g, 3.0);
    let one = leaf(&mut g, 1.0);
    let two = leaf(&mut g, 2.0);
    let left = x.add(&mut g, one);
    let right = x.mul(&mut g, two);
    let root = left.add(&mut g, right);
    let order = micrograd::backprop::build_topo(&g, root);
    assert_eq!(
        order,
        vec![x.id(), one.id(), left.id(), two.id(), right.id(), root.id()]
    );
}

#[test]
fn reset_forgets_prior_gradients() {
    // A first pass leaves gradients behind; zeroing the parameter leaves and
    // rebuilding the same expression over them must give the same gradients
    // as the first, untouched run.
    let mut g = Graph::new();
    let a = leaf(&mut g, 2.5);
    let b = leaf(&mut g, -1.25);
    let y1 = {
        let p = a.mul(&mut g, b);
        p.add(&mut g, a)
    };
    y1.backward(&mut g);
    let first_a = grad_of(&g, a);
    let first_b = grad_of(&g, b);
    assert_eq!(first_a, -0.25);
    assert_eq!(first_b, 2.5);

    a.zero_grad(&mut g);
    b.zero_grad(&mut g);
    let y2 = {
        let p = a.mul(&mut g, b);
        p.add(&mut g, a)
    };
    y2.backward(&mut g);
    assert_eq!(grad_of(&g, a), first_a);
    assert_eq!(grad_of(&g, b), first_b);
}

#[test]
fn backward_accumulates_across_calls() {
    // Without a reset, a second pass adds on top of the first.
    let mut g = Graph::new();
    let x = leaf(&mut g, 4.0);
    let y = x.mul(&mut g, x);
    y.backward(&mut g);
    assert_eq!(grad_of(&g, x), 8.0);
    y.backward(&mut g);
    assert_eq!(grad_of(&g, x), 16.0);
}

#[test]
fn relu_at_zero_and_negative_zero() {
    let mut g = Graph::new();
    let z = leaf(&mut g, 0.0);
    let r = z.relu(&mut g);
    r.backward(&mut g);
    assert_eq!(data_of(&g, r), 0.0);
    assert_eq!(grad_of(&g, z), 0.0);

    let nz = leaf(&mut g, -0.0);
    let rn = nz.relu(&mut g);
    rn.backward(&mut g);
    assert_eq!(data_of(&g, rn), 0.0);
    assert_eq!(grad_of(&g, nz), 0.0);
}

#[test]
fn division_by_zero_flows_through() {
    let mut g = Graph::new();
    let a = leaf(&mut g, 1.0);
    let b = leaf(&mut g, 0.0);
    let q = a.div(&mut g, b);
    assert!(data_of(&g, q).is_infinite());
    q.backward(&mut g);
    assert!(grad_of(&g, a).is_infinite());
    assert!(grad_of(&g, b).is_nan() || grad_of(&g, b).is_infinite());
}

#[test]
fn nan_propagates_silently() {
    let mut g = Graph::new();
    let n = leaf(&mut g, f64::NAN);
    let r = n.relu(&mut g);
    // A NaN is not greater than zero, so the rectifier clamps it.
    assert_eq!(data_of(&g, r), 0.0);
    let m = n.mul(&mut g, n);
    assert!(data_of(&g, m).is_nan());
    m.backward(&mut g);
    assert!(grad_of(&g, n).is_nan());
}

#[test]
fn node_accessors() {
    let mut g = Graph::new();
    assert_eq!(g.len(), 0);
    let x = Value::new(&mut g, (1.5f64).to_bits(), Some("x"));
    assert_eq!(g.len(), 1);
    assert_eq!(x.id(), 0);
    assert_eq!(x.label(&g), "x");
    assert_eq!(x.op(&g), None);
    assert!(x.prev(&g).is_empty());
    assert_eq!(grad_of(&g, x), 0.0);

    let y = leaf(&mut g, 2.0);
    assert_eq!(y.label(&g), "");
    let z = x.mul(&mut g, y);
    assert_eq!(z.op(&g), Some(Op::Mul));
    let prev = z.prev(&g);
    assert_eq!(prev.len(), 2);
    assert_eq!(prev[0].id(), x.id());
    assert_eq!(prev[1].id(), y.id());

    x.set_label(&mut g, "input");
    assert_eq!(x.label(&g), "input");
    x.set_data(&mut g, (9.0f64).to_bits());
    assert_eq!(data_of(&g, x), 9.0);
    x.set_grad(&mut g, (0.5f64).to_bits());
    assert_eq!(grad_of(&g, x), 0.5);
    x.add_grad(&mut g, (0.25f64).to_bits());
    assert_eq!(grad_of(&g, x), 0.75);
    x.zero_grad(&mut g);
    assert_eq!(grad_of(&g, x), 0.0);
}

#[test]
fn invoke_grad_fn_reads_current_grad() {
    let mut g = Graph::new();
    let a = leaf(&mut g, 3.0);
    let b = leaf(&mut g, 5.0);
    let p = a.mul(&mut g, b);
    p.set_grad(&mut g, (2.0f64).to_bits());
    p.invoke_grad_fn(&mut g);
    assert_eq!(grad_of(&g, a), 10.0);
    assert_eq!(grad_of(&g, b), 6.0);
    // A leaf's rule is a no-op.
    a.invoke_grad_fn(&mut g);
    assert_eq!(grad_of(&g, a), 10.0);
}

#[test]
fn sub_and_neg_gradients() {
    let mut g = Graph::new();
    let a = leaf(&mut g, 10.0);
    let b = leaf(&mut g, 4.0);
    let d = a.sub(&mut g, b);
    assert_eq!(data_of(&g, d), 6.0);
    let n = d.neg(&mut g);
    assert_eq!(data_of(&g, n), -6.0);
    n.backward(&mut g);
    assert_eq!(grad_of(&g, a), -1.0);
    assert_eq!(grad_of(&g, b), 1.0);
}

#[test]
fn tanh_frozen_value_drives_gradient() {
    // The rule uses the recorded forward value, not a re-read of the
    // operand: changing the operand's data after construction must not
    // change the gradient.
    let mut g = Graph::new();
    let x = leaf(&mut g, 0.0);
    let t = f64::from_bits(x.data(&g)).tanh();
    let y = x.tanh(&mut g, t.to_bits());
    x.set_data(&mut g, (100.0f64).to_bits());
    y.backward(&mut g);
    assert_eq!(grad_of(&g, x), 1.0);
}
