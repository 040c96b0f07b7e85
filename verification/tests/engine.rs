use micrograd::graph::Graph;
use micrograd::graph::Value;

fn leaf(g: &mut Graph, v: f64) -> Value {
    Value::new(g, v.to_bits(), None)
}

fn data_of(g: &Graph, v: Value) -> f64 {
    f64::from_bits(v.data(g))
}

fn grad_of(g: &Graph, v: Value) -> f64 {
    f64::from_bits(v.grad(g))
}

#[test]
fn test_op_ref() {
    let mut g = Graph::new();
    let x = leaf(&mut g, 123.456);
    let y = leaf(&mut g, 456.789);
    let expected = 580.245;

    {
        let z = x.add(&mut g, y);
        assert_eq!(expected, data_of(&g, z));
    }

    {
        let z = x.add(&mut g, y);
        assert_eq!(expected, data_of(&g, z));
    }

    {
        let z = x.add(&mut g, y);
        assert_eq!(expected, data_of(&g, z));
    }

    {
        let z = x.add(&mut g, y);
        assert_eq!(expected, data_of(&g, z));
    }
}

#[test]
fn test_op_add() {
    let mut g = Graph::new();
    let x = leaf(&mut g, 123.456);
    let y = leaf(&mut g, 456.789);
    let result = x.add(&mut g, y);
    result.backward(&mut g);

    assert_eq!(data_of(&g, result), 580.245);
    assert_eq!(grad_of(&g, result), 1.0);
    assert_eq!(grad_of(&g, x), 1.0);
    assert_eq!(grad_of(&g, y), 1.0);
}

#[test]
fn test_op_sub() {
    let mut g = Graph::new();
    let x = leaf(&mut g, 123.456);
    let y = leaf(&mut g, 456.789);

    let result = x.sub(&mut g, y);

    result.backward(&mut g);

    assert_eq!(data_of(&g, result), -333.33299999999997);

    assert_eq!(grad_of(&g, result), 1.0);
    assert_eq!(grad_of(&g, x), 1.0);
    assert_eq!(grad_of(&g, x), 1.0);
    assert_eq!(grad_of(&g, y), -1.0);
}

#[test]
fn test_op_neg() {
    let mut g = Graph::new();
    let x = leaf(&mut g, 123.456);
    let result = x.neg(&mut g);

    result.backward(&mut g);

    assert_eq!(data_of(&g, result), -123.456);
    assert_eq!(grad_of(&g, result), 1.0);
    assert_eq!(grad_of(&g, x), -1.0);
}

#[test]
fn test_op_mul() {
    let mut g = Graph::new();
    let x = leaf(&mut g, 123.456);
    let y = leaf(&mut g, 456.789);

    let result = x.mul(&mut g, y);

    result.backward(&mut g);

    assert_eq!(data_of(&g, result), 56393.342784);
    assert_eq!(grad_of(&g, result), 1.0);
    assert_eq!(grad_of(&g, x), 456.789);
    assert_eq!(grad_of(&g, y), 123.456);
}

#[test]
fn test_op_div() {
    let mut g = Graph::new();
    let x = leaf(&mut g, 123.456);
    let y = leaf(&mut g, 456.789);

    let result = x.div(&mut g, y);

    result.backward(&mut g);

    assert_eq!(data_of(&g, result), 0.270269205256694);
    assert_eq!(grad_of(&g, result), 1.0);
    assert_eq!(grad_of(&g, x), 0.0021891945734244913);
    assert_eq!(grad_of(&g, y), -0.0005916718775117046);
}

#[test]
fn test_relu() {
    let mut g = Graph::new();
    let x = leaf(&mut g, -2.0);
    let relu_x = x.relu(&mut g);
    assert_eq!(data_of(&g, relu_x), 0.0);
    relu_x.backward(&mut g);
    assert_eq!(grad_of(&g, x), 0.0);

    let y = leaf(&mut g, 3.0);
    let relu_y = y.relu(&mut g);
    assert_eq!(data_of(&g, relu_y), 3.0);
    relu_y.backward(&mut g);
    assert_eq!(grad_of(&g, y), 1.0);
}

fn tanh_node(g: &mut Graph, x: Value) -> Value {
    let t = f64::from_bits(x.data(g)).tanh();
    x.tanh(g, t.to_bits())
}

#[test]
fn test_tanh() {
    let mut g = Graph::new();
    let x = leaf(&mut g, -2.0);
    let tanh_x = tanh_node(&mut g, x);
    assert_eq!(data_of(&g, tanh_x), -0.9640275800758169);
    tanh_x.backward(&mut g);
    assert_eq!(grad_of(&g, x), 0.07065082485316443);

    let y = leaf(&mut g, 3.0);
    let tanh_y = tanh_node(&mut g, y);
    assert_eq!(data_of(&g, tanh_y), 0.9950547536867305);
    tanh_y.backward(&mut g);
    assert_eq!(grad_of(&g, y), 0.009866037165440211);

    let z = leaf(&mut g, 0.0);
    let tanh_z = tanh_node(&mut g, z);
    assert_eq!(data_of(&g, tanh_z), 0.0);
    tanh_z.backward(&mut g);
    assert_eq!(grad_of(&g, z), 1.0);
}

#[test]
fn test_example_1() {
    let mut g = Graph::new();
    let x = leaf(&mut g, -4.0);

    // z = 2 * x + 2 + x
    let two_a = leaf(&mut g, 2.0);
    let two_x = two_a.mul(&mut g, x);
    let two_b = leaf(&mut g, 2.0);
    let two_x_plus_two = two_x.add(&mut g, two_b);
    let z = two_x_plus_two.add(&mut g, x);

    // q = relu(z) + z * x
    let relu_z = z.relu(&mut g);
    let z_x = z.mul(&mut g, x);
    let q = relu_z.add(&mut g, z_x);

    // h = relu(z * z)
    let z_z = z.mul(&mut g, z);
    let h = z_z.relu(&mut g);

    // y = h + q + q * x
    let h_q = h.add(&mut g, q);
    let q_x = q.mul(&mut g, x);
    let y = h_q.add(&mut g, q_x);

    y.backward(&mut g);

    assert_eq!(-20.0, data_of(&g, y));
    assert_eq!(46.0, grad_of(&g, x));
}
