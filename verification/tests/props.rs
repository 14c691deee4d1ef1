use rand::Rng;
use scalargrad::build_topo;
use scalargrad::Graph;
use scalargrad::Mlp;
use scalargrad::Neuron;
use scalargrad::Operation;
use scalargrad::ScalarRequest;
use scalargrad::Value;

type Eval = fn(ScalarRequest) -> u32;

fn eval_f32(r: ScalarRequest) -> u32 {
    match r {
        ScalarRequest::Add(a, b) => (f32::from_bits(a) + f32::from_bits(b)).to_bits(),
        ScalarRequest::Sub(a, b) => (f32::from_bits(a) - f32::from_bits(b)).to_bits(),
        ScalarRequest::Mul(a, b) => (f32::from_bits(a) * f32::from_bits(b)).to_bits(),
        ScalarRequest::Div(a, b) => (f32::from_bits(a) / f32::from_bits(b)).to_bits(),
        ScalarRequest::Exp(a) => f32::from_bits(a).exp().to_bits(),
        ScalarRequest::Powi(a, n) => f32::from_bits(a).powi(n).to_bits(),
        ScalarRequest::Powf(a, b) => f32::from_bits(a).powf(f32::from_bits(b)).to_bits(),
        ScalarRequest::FromInt(n) => (n as f32).to_bits(),
    }
}

fn graph() -> Graph<Eval> {
    Graph::new(eval_f32 as Eval)
}

fn bits(x: f32) -> u32 {
    x.to_bits()
}

fn data(g: &Graph<Eval>, v: Value) -> f32 {
    f32::from_bits(v.borrow_data(g))
}

fn grad(g: &Graph<Eval>, v: Value) -> f32 {
    f32::from_bits(v.borrow_grad(g))
}

// A leaf used as both operands of an addition accumulates the seed gradient
// once per edge, whatever the leaf's value is.
#[test]
fn diamond_accumulation_on_aliased_leaf() {
    for &x in &[0.0f32, 1.0, -7.25, 123.456, 0.5] {
        let mut g = graph();
        let a = Value::new(&mut g, bits(x));
        let b = a.add(&mut g, &a);
        b.backward(&mut g);
        assert_eq!(grad(&g, a), 2.0);
        assert_eq!(grad(&g, b), 1.0);
    }
}

// The gradient of a product with respect to each factor is the other
// factor's value.
#[test]
fn product_gradients_are_peer_values() {
    for &(x, y) in &[(1.5f32, -2.25f32), (3.0, 7.0), (-0.5, -4.0), (2.0, 0.25)] {
        let mut g = graph();
        let a = Value::new(&mut g, bits(x));
        let b = Value::new(&mut g, bits(y));
        let m = a.mul(&mut g, &b);
        m.backward(&mut g);
        assert_eq!(grad(&g, a), y);
        assert_eq!(grad(&g, b), x);
    }
}

// tanh agrees with its composed form (exp(2x)-1)/(exp(2x)+1), in the forward
// value and in the gradient pushed onto the input.
#[test]
fn tanh_matches_composed_form() {
    for &x in &[0.8814f32, 0.3, -1.2, 2.0] {
        let mut g = graph();
        let n1 = Value::new(&mut g, bits(x));
        let o1 = n1.tanh(&mut g);
        o1.backward(&mut g);

        let n2 = Value::new(&mut g, bits(x));
        let twice = n2.mul_scalar(&mut g, bits(2.0));
        let e = twice.exp(&mut g);
        let num = e.sub_scalar(&mut g, bits(1.0));
        let den = e.add_scalar(&mut g, bits(1.0));
        let o2 = num.div(&mut g, &den);
        o2.backward(&mut g);

        assert!((data(&g, o1) - data(&g, o2)).abs() < 1e-5);
        assert!((grad(&g, n1) - grad(&g, n2)).abs() < 1e-5);
    }
}

// Every operand appears strictly before its node in the topological order,
// and every reachable node appears exactly once, on a diamond-shaped graph.
#[test]
fn topological_order_is_valid() {
    let mut g = graph();
    let a = Value::new(&mut g, bits(1.0));
    let b = a.add_scalar(&mut g, bits(1.0));
    let c = b.mul_scalar(&mut g, bits(3.0));
    let d = b.mul_scalar(&mut g, bits(4.0));
    let e = c.mul(&mut g, &d);
    let topo = build_topo(&g, &e);

    let pos = |v: Value| topo.iter().position(|t| *t == v);
    for &v in topo.iter() {
        let p = pos(v).unwrap();
        for child in v.children(&g) {
            assert!(pos(child).unwrap() < p);
        }
    }
    for i in 0..topo.len() {
        for j in (i + 1)..topo.len() {
            assert_ne!(topo[i], topo[j]);
        }
    }
    // all reachable nodes appear: the leaves of b, c, d plus a, b, c, d, e
    assert!(pos(a).is_some() && pos(b).is_some() && pos(c).is_some());
    assert!(pos(d).is_some() && pos(e).is_some());
    assert_eq!(*topo.last().unwrap(), e);
}

// The analytic gradient of a random small network matches a centered
// finite-difference estimate on every parameter.
#[test]
fn finite_difference_matches_analytic() {
    let mut rng = rand::thread_rng();
    let mut g = graph();
    let nouts: Vec<usize> = vec![2, 1];
    let count = 2 * (2 + 1) + 1 * (2 + 1);
    let init: Vec<u32> = (0..count).map(|_| bits(rng.gen_range(-1.0f32..1.0))).collect();
    let m = Mlp::new(&mut g, 2, &nouts, &init);
    let x: Vec<Value> = vec![
        Value::new(&mut g, bits(rng.gen_range(-1.0f32..1.0))),
        Value::new(&mut g, bits(rng.gen_range(-1.0f32..1.0))),
    ];
    let params = m.parameters();

    for p in params.iter() {
        p.set_grad(&mut g, bits(0.0));
    }
    let out = m.forward(&mut g, &x);
    out[0].backward(&mut g);
    let analytic: Vec<f32> = params.iter().map(|p| grad(&g, *p)).collect();

    let h = 1e-2f32;
    for (i, p) in params.iter().enumerate() {
        let saved = data(&g, *p);
        p.set_data(&mut g, bits(saved + h));
        let ou = m.forward(&mut g, &x)[0];
        let up = data(&g, ou);
        p.set_data(&mut g, bits(saved - h));
        let od = m.forward(&mut g, &x)[0];
        let down = data(&g, od);
        p.set_data(&mut g, bits(saved));
        let estimate = (up - down) / (2.0 * h);
        assert!(
            (estimate - analytic[i]).abs() < 3e-3,
            "parameter {}: estimate {} vs analytic {}",
            i,
            estimate,
            analytic[i]
        );
    }
}

// The traversal is deterministic: two calls on the same unchanged graph
// return the identical order.
#[test]
fn topological_order_is_deterministic() {
    let mut g = graph();
    let a = Value::new(&mut g, bits(1.0));
    let b = a.add_scalar(&mut g, bits(1.0));
    let c = b.mul_scalar(&mut g, bits(3.0));
    let d = b.mul_scalar(&mut g, bits(4.0));
    let e = c.mul(&mut g, &d);
    let first = build_topo(&g, &e);
    let second = build_topo(&g, &e);
    assert_eq!(first, second);
}

// Mutating a leaf after it has been used is visible through the dependent
// node's operand edge, and the dependent node's already-computed value does
// not change: values are eager, never recomputed.
#[test]
fn mutation_is_visible_but_not_recomputed() {
    let mut g = graph();
    let a = Value::new(&mut g, bits(2.0));
    let s = a.add_scalar(&mut g, bits(5.0));
    assert_eq!(data(&g, s), 7.0);
    a.set_data(&mut g, bits(100.0));
    assert_eq!(data(&g, s.children(&g)[0]), 100.0);
    assert_eq!(data(&g, s), 7.0);
}

// A childless root yields the single-element order, and backward on it only
// seeds its own gradient.
#[test]
fn backward_on_lone_leaf() {
    let mut g = graph();
    let a = Value::new(&mut g, bits(4.25));
    let topo = build_topo(&g, &a);
    assert_eq!(topo.len(), 1);
    assert_eq!(topo[0], a);
    a.backward(&mut g);
    assert_eq!(grad(&g, a), 1.0);
    assert_eq!(data(&g, a), 4.25);
}

// The exponent operand of a power node is structurally a child but receives
// no gradient contribution.
#[test]
fn pow_exponent_receives_no_gradient() {
    let mut g = graph();
    let a = Value::new(&mut g, bits(3.0));
    let p = a.pow(&mut g, 3);
    assert_eq!(data(&g, p), 27.0);
    assert_eq!(p.op(&g), Some(Operation::Pow));
    assert_eq!(p.children(&g).len(), 2);
    let exponent = p.children(&g)[1];
    assert_eq!(data(&g, exponent), 3.0);
    p.backward(&mut g);
    assert_eq!(grad(&g, a), 27.0); // 3 * 3^2
    assert_eq!(grad(&g, exponent), 0.0);
}

// Negation builds a multiplication by a -1.0 leaf.
#[test]
fn neg_is_mul_by_minus_one() {
    let mut g = graph();
    let a = Value::new(&mut g, bits(2.5));
    let n = a.neg(&mut g);
    assert_eq!(data(&g, n), -2.5);
    assert_eq!(n.op(&g), Some(Operation::Mul));
    assert_eq!(n.children(&g)[0], a);
    assert_eq!(data(&g, n.children(&g)[1]), -1.0);
}

// Gradients accumulate across backward passes unless the caller resets them.
#[test]
fn backward_accumulates_without_reset() {
    let mut g = graph();
    let a = Value::new(&mut g, bits(2.0));
    let b = Value::new(&mut g, bits(3.0));
    let m = a.mul(&mut g, &b);
    m.backward(&mut g);
    assert_eq!(grad(&g, a), 3.0);
    m.backward(&mut g);
    assert_eq!(grad(&g, a), 6.0);
    a.set_grad(&mut g, bits(0.0));
    b.set_grad(&mut g, bits(0.0));
    m.backward(&mut g);
    assert_eq!(grad(&g, a), 3.0);
}

// A neuron's forward pass computes tanh of the weighted sum plus bias, and
// its parameters come out as the weights in order followed by the bias.
#[test]
fn neuron_forward_and_parameters() {
    let mut g = graph();
    let init: Vec<u32> = vec![bits(0.5), bits(-0.25), bits(0.125)];
    let n = Neuron::new(&mut g, 2, &init, 0);
    let params = n.parameters();
    assert_eq!(params.len(), 3);
    assert_eq!(data(&g, params[0]), 0.5);
    assert_eq!(data(&g, params[1]), -0.25);
    assert_eq!(data(&g, params[2]), 0.125);

    let x = vec![Value::new(&mut g, bits(1.0)), Value::new(&mut g, bits(2.0))];
    let out = n.forward(&mut g, &x);
    let expected = (0.125f32 + 1.0 * 0.5 + 2.0 * -0.25).tanh();
    assert!((data(&g, out) - expected).abs() < 1e-5);
    assert_eq!(out.op(&g), Some(Operation::Tanh));
}

// A perceptron threads its layers in order, its parameter enumeration is
// stable across calls, and a gradient-descent step through the parameter
// handles changes the next forward pass.
#[test]
fn mlp_forward_parameters_and_update() {
    let mut g = graph();
    let nouts: Vec<usize> = vec![2, 1];
    let init: Vec<u32> = (0..9).map(|i| bits(0.1 * (i as f32 + 1.0))).collect();
    let m = Mlp::new(&mut g, 2, &nouts, &init);
    let params_a = m.parameters();
    let params_b = m.parameters();
    assert_eq!(params_a, params_b);
    assert_eq!(params_a.len(), 9);

    let x = vec![Value::new(&mut g, bits(0.5)), Value::new(&mut g, bits(-1.0))];
    let out = m.forward(&mut g, &x);
    assert_eq!(out.len(), 1);

    // hand-computed forward pass
    let h1 = (0.3f32 + 0.5 * 0.1 + -1.0 * 0.2).tanh();
    let h2 = (0.6f32 + 0.5 * 0.4 + -1.0 * 0.5).tanh();
    let expected = (0.9f32 + h1 * 0.7 + h2 * 0.8).tanh();
    assert!((data(&g, out[0]) - expected).abs() < 1e-5);

    for p in params_a.iter() {
        p.set_grad(&mut g, bits(0.0));
    }
    out[0].backward(&mut g);
    let lr = 0.1f32;
    for p in params_a.iter() {
        let v = data(&g, *p) - lr * grad(&g, *p);
        p.set_data(&mut g, bits(v));
    }
    let out2 = m.forward(&mut g, &x);
    // pushing parameters against the gradient lowers the output
    assert!(data(&g, out2[0]) < data(&g, out[0]));
}

// An empty layer stack hands the inputs back unchanged.
#[test]
fn mlp_with_no_layers_is_identity() {
    let mut g = graph();
    let nouts: Vec<usize> = Vec::new();
    let init: Vec<u32> = Vec::new();
    let m = Mlp::new(&mut g, 3, &nouts, &init);
    let x = vec![Value::new(&mut g, bits(1.0)), Value::new(&mut g, bits(2.0))];
    let out = m.forward(&mut g, &x);
    assert_eq!(out.len(), 2);
    assert_eq!(out[0], x[0]);
    assert_eq!(out[1], x[1]);
}
