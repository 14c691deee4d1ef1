use scalargrad::build_topo;
use scalargrad::Graph;
use scalargrad::Operation;
use scalargrad::ScalarRequest;
use scalargrad::Value;

type Eval = fn(ScalarRequest) -> u32;

fn eval_f32(r: ScalarRequest) -> u32 {
    match r {
        ScalarRequest::Add(a, b) => (f32::from_bits(a) + f32::from_bits(b)).to_bits(),
        ScalarRequest::Sub(a, b) => (f32::from_bits(a) - f32::from_bits(b)).to_bits(),
        ScalarRequest::Mul(a, b) => (f32::from_bits(a) * f32::from_bits(b)).to_bits(),
        ScalarRequest::Div(a, b) => (f32::from_bits(a) / f32::from_bits(b)).to_bits(),
        ScalarRequest::Exp(a) => f32::from_bits(a).exp().to_bits(),
        ScalarRequest::Powi(a, n) => f32::from_bits(a).powi(n).to_bits(),
        ScalarRequest::Powf(a, b) => f32::from_bits(a).powf(f32::from_bits(b)).to_bits(),
        ScalarRequest::FromInt(n) => (n as f32).to_bits(),
    }
}

fn graph() -> Graph<Eval> {
    Graph::new(eval_f32 as Eval)
}

fn bits(x: f32) -> u32 {
    x.to_bits()
}

fn fl(b: u32) -> f32 {
    f32::from_bits(b)
}

fn data(g: &Graph<Eval>, v: Value) -> f32 {
    fl(v.borrow_data(g))
}

fn grad(g: &Graph<Eval>, v: Value) -> f32 {
    fl(v.borrow_grad(g))
}

#[test]
fn test_add() {
    let mut g = graph();
    let v1 = Value::new(&mut g, bits(1.0));
    let v2 = Value::new(&mut g, bits(2.0));
    let v3 = v1.add(&mut g, &v2);
    let res = data(&g, v3);
    assert_eq!(res, 3.0);
    assert_eq!(v3.children(&g)[0], v1);
    assert_eq!(v3.children(&g)[1], v2);
    assert_eq!(v3.op(&g), Some(Operation::Add));
}

#[test]
fn test_add_twice() {
    let mut g = graph();
    let v1 = Value::new(&mut g, bits(1.0));
    let v2 = Value::new(&mut g, bits(2.0));
    let v3 = Value::new(&mut g, bits(3.0));
    let v1v2 = v1.add(&mut g, &v2);
    let v4 = v1v2.add(&mut g, &v3);
    let res = data(&g, v4);
    assert_eq!(res, 6.0);
    assert_eq!(v4.children(&g).len(), 2);
    assert_eq!(v4.children(&g)[0], v1v2);
    assert_eq!(v4.children(&g)[1], v3);
}

#[test]
fn test_add_then_mut() {
    let mut g = graph();
    let v1 = Value::new(&mut g, bits(1.0));
    let v2 = Value::new(&mut g, bits(2.0));
    let v3 = v1.add(&mut g, &v2);
    assert_eq!(v3.children(&g)[0], v1);
    let bumped = bits(data(&g, v1) + 1.0);
    v1.set_data(&mut g, bumped);
    assert_eq!(v3.children(&g)[0], v1);
    let res = data(&g, v3.children(&g)[0]);
    assert_eq!(res, 2.0);
}

#[test]
fn test_mul() {
    let mut g = graph();
    let v1 = Value::new(&mut g, bits(3.0));
    let v2 = Value::new(&mut g, bits(2.0));
    let v3 = v1.mul(&mut g, &v2);
    let res = data(&g, v3);
    assert_eq!(res, 6.0);
    assert_eq!(v3.children(&g)[0], v1);
    assert_eq!(v3.children(&g)[1], v2);
    assert_eq!(v3.op(&g), Some(Operation::Mul));
}

#[test]
fn test_tanh() {
    let mut g = graph();
    let v1 = Value::new(&mut g, bits(2.0));
    let v2 = v1.tanh(&mut g);

    assert!((data(&g, v2) - 0.96402758).abs() < 0.00001);
    assert_eq!(v2.children(&g)[0], v1);
    assert_eq!(v2.children(&g).len(), 1);
    assert_eq!(v2.op(&g), Some(Operation::Tanh));
}

#[test]
fn test_karpathy_expression_output() {
    let mut g = graph();
    let a = Value::new(&mut g, bits(2.0));
    let b = Value::new(&mut g, bits(-3.0));
    let c = Value::new(&mut g, bits(10.0));
    let e = a.mul(&mut g, &b);
    let d = e.add(&mut g, &c);
    let f = Value::new(&mut g, bits(-2.0));
    let loss = d.mul(&mut g, &f);
    assert_eq!(data(&g, loss), -8.0);
}

#[test]
fn test_karpathy_expression_data_nudge() {
    let mut g = graph();
    let a = Value::new(&mut g, bits(2.0));
    let b = Value::new(&mut g, bits(-3.0));
    let c = Value::new(&mut g, bits(10.0));
    let e = a.mul(&mut g, &b);
    let d = e.add(&mut g, &c);
    let f = Value::new(&mut g, bits(-2.0));
    let loss1 = d.mul(&mut g, &f);

    loss1.set_grad(&mut g, bits(1.0));
    f.set_grad(&mut g, bits(4.0));
    d.set_grad(&mut g, bits(-2.0));
    e.set_grad(&mut g, bits(-2.0));
    c.set_grad(&mut g, bits(-2.0));
    a.set_grad(&mut g, bits(-3.0 * -2.0));
    b.set_grad(&mut g, bits(2.0 * -2.0));

    let h = 0.01;
    let na = bits(data(&g, a) + h * grad(&g, a));
    *a.borrow_data_mut(&mut g) = na;
    let nb = bits(data(&g, b) + h * grad(&g, b));
    *b.borrow_data_mut(&mut g) = nb;
    let nc = bits(data(&g, c) + h * grad(&g, c));
    *c.borrow_data_mut(&mut g) = nc;
    let nf = bits(data(&g, f) + h * grad(&g, f));
    *f.borrow_data_mut(&mut g) = nf;

    let e = a.mul(&mut g, &b);
    let d = e.add(&mut g, &c);
    let loss2 = d.mul(&mut g, &f);

    assert!(data(&g, loss2) > data(&g, loss1));
}

#[test]
fn test_karpathy_neuron_forward() {
    let mut g = graph();
    let x1 = Value::new(&mut g, bits(2.0));
    let x2 = Value::new(&mut g, bits(0.0));
    let w1 = Value::new(&mut g, bits(-3.0));
    let w2 = Value::new(&mut g, bits(1.0));
    let b = Value::new(&mut g, bits(6.8813735870195432));
    let x1w1 = x1.mul(&mut g, &w1);
    let x2w2 = x2.mul(&mut g, &w2);
    let x1w1x2w2 = x1w1.add(&mut g, &x2w2);
    let n = x1w1x2w2.add(&mut g, &b);
    let o = n.tanh(&mut g);
    assert!((data(&g, o) - 0.7071).abs() < 0.00001);
}

#[test]
fn test_karpathy_neuron_grad() {
    let mut g = graph();
    let x1 = Value::new(&mut g, bits(2.0));
    let x2 = Value::new(&mut g, bits(0.0));
    let w1 = Value::new(&mut g, bits(-3.0));
    let w2 = Value::new(&mut g, bits(1.0));
    let b = Value::new(&mut g, bits(6.8813735870195432));
    let x1w1 = x1.mul(&mut g, &w1);
    let x2w2 = x2.mul(&mut g, &w2);
    let x1w1x2w2 = x1w1.add(&mut g, &x2w2);
    let n = x1w1x2w2.add(&mut g, &b);
    let o = n.tanh(&mut g);

    o.set_grad(&mut g, bits(1.0));
    n.set_grad(&mut g, bits(0.5));
    x1w1x2w2.set_grad(&mut g, bits(0.5));
    b.set_grad(&mut g, bits(0.5));

    x2w2.set_grad(&mut g, bits(0.5));
    x1w1.set_grad(&mut g, bits(0.5));

    x1.set_grad(&mut g, bits(-1.5));
    w1.set_grad(&mut g, bits(1.0));
    x2.set_grad(&mut g, bits(0.5));
    w2.set_grad(&mut g, bits(0.0));

    let h = 0.0001;
    let nw1 = bits(data(&g, w1) - grad(&g, w1) * h);
    *w1.borrow_data_mut(&mut g) = nw1;
    let nw2 = bits(data(&g, w2) - grad(&g, w2) * h);
    *w2.borrow_data_mut(&mut g) = nw2;

    let x1w1 = x1.mul(&mut g, &w1);
    let x2w2 = x2.mul(&mut g, &w2);
    let x1w1x2w2 = x1w1.add(&mut g, &x2w2);
    let n = x1w1x2w2.add(&mut g, &b);
    let o2 = n.tanh(&mut g);

    assert!(data(&g, o2) < data(&g, o));
}

#[test]
fn test_karpathy_neuron_backward() {
    let mut g = graph();
    let x1 = Value::new(&mut g, bits(2.0));
    let x2 = Value::new(&mut g, bits(0.0));
    let w1 = Value::new(&mut g, bits(-3.0));
    let w2 = Value::new(&mut g, bits(1.0));
    let b = Value::new(&mut g, bits(6.8813735870195432));
    let x1w1 = x1.mul(&mut g, &w1);
    let x2w2 = x2.mul(&mut g, &w2);
    let x1w1x2w2 = x1w1.add(&mut g, &x2w2);
    let n = x1w1x2w2.add(&mut g, &b);
    let o = n.tanh(&mut g);

    o.set_grad(&mut g, bits(1.0));
    o.backward_local(&mut g);
    n.backward_local(&mut g);
    x1w1x2w2.backward_local(&mut g);
    b.backward_local(&mut g);

    x2w2.backward_local(&mut g);
    x1w1.backward_local(&mut g);

    assert_eq!(grad(&g, o), 1.0);
    assert!((grad(&g, n) - 0.5).abs() < 0.0001);
    assert!((grad(&g, x1w1x2w2) - 0.5).abs() < 0.0001);
    assert!((grad(&g, b) - 0.5).abs() < 0.0001);
    assert!((grad(&g, x2w2) - 0.5).abs() < 0.0001);
    assert!((grad(&g, x1w1) - 0.5).abs() < 0.0001);
    assert!((grad(&g, x1) - -1.5).abs() < 0.0001);
    assert!((grad(&g, w1) - 1.0).abs() < 0.0001);
    assert!((grad(&g, x2) - 0.5).abs() < 0.0001);
    assert!((grad(&g, w2) - 0.0).abs() < 0.0001);
}

#[test]
fn test_grad_update_of_child() {
    let mut g = graph();
    let x1 = Value::new(&mut g, bits(2.0));
    let x2 = x1.tanh(&mut g);

    assert_eq!(x2.children(&g)[0], x1);

    let child = x2.children(&g)[0];
    child.set_grad(&mut g, bits(2.0));
    assert_eq!(grad(&g, x1), 2.0);
}

#[test]
fn test_build_topo() {
    let mut g = graph();
    let x1 = Value::new(&mut g, bits(2.0));
    let x2 = Value::new(&mut g, bits(1.0));
    let y = x1.add(&mut g, &x2);
    let y2 = y.mul(&mut g, &x1);
    let topo = build_topo(&g, &y2);
    assert_eq!(y2, topo[3]);
    assert_eq!(y, topo[2]);
    assert_eq!(x1, topo[0]);
    assert_eq!(x2, topo[1]);
}

#[test]
fn test_karpathy_build_topo() {
    let mut g = graph();
    let x1 = Value::new(&mut g, bits(2.0));
    let x2 = Value::new(&mut g, bits(0.0));
    let w1 = Value::new(&mut g, bits(-3.0));
    let w2 = Value::new(&mut g, bits(1.0));
    let b = Value::new(&mut g, bits(6.8813735870195432));
    let x1w1 = x1.mul(&mut g, &w1);
    let x2w2 = x2.mul(&mut g, &w2);
    let x1w1x2w2 = x1w1.add(&mut g, &x2w2);
    let n = x1w1x2w2.add(&mut g, &b);
    let o = n.tanh(&mut g);
    let topo = build_topo(&g, &o);

    assert_eq!(topo[9], o);
    assert_eq!(topo[0], x1);
}

#[test]
fn test_karpathy_backward() {
    let mut g = graph();
    let x1 = Value::new(&mut g, bits(2.0));
    let x2 = Value::new(&mut g, bits(0.0));
    let w1 = Value::new(&mut g, bits(-3.0));
    let w2 = Value::new(&mut g, bits(1.0));
    let b = Value::new(&mut g, bits(6.8813735870195432));
    let x1w1 = x1.mul(&mut g, &w1);
    let x2w2 = x2.mul(&mut g, &w2);
    let x1w1x2w2 = x1w1.add(&mut g, &x2w2);
    let n = x1w1x2w2.add(&mut g, &b);
    let o = n.tanh(&mut g);
    o.backward(&mut g);

    assert_eq!(grad(&g, o), 1.0);
    assert!((grad(&g, n) - 0.5).abs() < 0.0001);
    assert!((grad(&g, x1w1x2w2) - 0.5).abs() < 0.0001);
    assert!((grad(&g, b) - 0.5).abs() < 0.0001);
    assert!((grad(&g, x2w2) - 0.5).abs() < 0.0001);
    assert!((grad(&g, x1w1) - 0.5).abs() < 0.0001);
    assert!((grad(&g, x1) - -1.5).abs() < 0.0001);
    assert!((grad(&g, w1) - 1.0).abs() < 0.0001);
    assert!((grad(&g, x2) - 0.5).abs() < 0.0001);
    assert!((grad(&g, w2) - 0.0).abs() < 0.0001);
}

#[test]
fn test_karpathy_aa_bug() {
    let mut g = graph();
    let a = Value::new(&mut g, bits(3.0));
    let b = a.add(&mut g, &a);
    b.backward(&mut g);
    assert_eq!(grad(&g, a), 2.0);
}

#[test]
fn test_karpathy_aa_bug2() {
    let mut g = graph();
    let a = Value::new(&mut g, bits(-2.0));
    let b = Value::new(&mut g, bits(3.0));
    let d = a.mul(&mut g, &b); // -6.0
    let e = a.add(&mut g, &b); // 1.0
    let f = d.mul(&mut g, &e); // -6.0
    f.backward(&mut g);
    assert_eq!(grad(&g, e), -6.0);
    assert_eq!(grad(&g, d), 1.0);
    assert_eq!(grad(&g, a), -3.0); // 3.0 * 1.0 + 1.0 * -6.0
    assert_eq!(grad(&g, b), -8.0); // -2.0 * 1.0 + 1.0 * -6.0
}

#[test]
fn test_add_float() {
    let mut g = graph();
    let a = Value::new(&mut g, bits(2.0));
    let b = a.add_scalar(&mut g, bits(3.0));
    b.backward(&mut g);

    assert_eq!(data(&g, b), 5.0);
    assert_eq!(grad(&g, a), 1.0);
}

#[test]
fn test_mul_float() {
    let mut g = graph();
    let a = Value::new(&mut g, bits(2.0));
    let b = a.mul_scalar(&mut g, bits(3.0));
    b.backward(&mut g);

    assert_eq!(data(&g, b), 6.0);
    assert_eq!(grad(&g, a), 3.0);
}

#[test]
fn test_exp() {
    let mut g = graph();
    let a = Value::new(&mut g, bits(2.0));
    let b = a.exp(&mut g);
    b.backward(&mut g);

    assert!((data(&g, b) - 7.389056).abs() < 0.001);
    assert!((grad(&g, a) - 7.389056).abs() < 0.001);
}

#[test]
fn test_div() {
    let mut g = graph();
    let a = Value::new(&mut g, bits(2.0));
    let b = Value::new(&mut g, bits(4.0));
    let c = a.div(&mut g, &b);
    c.backward(&mut g);
    assert_eq!(0.5, data(&g, c));
    assert_eq!(grad(&g, a), 1.0 / 4.0);
    assert_eq!(grad(&g, b), -2.0 / 4.0_f32.powi(2));
}

#[test]
fn test_sub() {
    let mut g = graph();
    let a = Value::new(&mut g, bits(2.0));
    let b = Value::new(&mut g, bits(4.0));
    let c = a.sub(&mut g, &b);
    c.backward(&mut g);
    assert_eq!(-2.0, data(&g, c));
    assert_eq!(grad(&g, a), 1.0);
    assert_eq!(grad(&g, b), -1.0);
}

#[test]
fn test_new_tanh_grad() {
    let mut g = graph();
    let n = Value::new(&mut g, bits(0.8814));
    let tmp = n.mul_scalar(&mut g, bits(2.0));
    let e = tmp.exp(&mut g);
    let z = e.sub_scalar(&mut g, bits(1.0));
    let zp = e.add_scalar(&mut g, bits(1.0));
    let o = z.div(&mut g, &zp);

    o.backward(&mut g);

    assert_eq!(data(&g, e), 5.828735);
    assert_eq!(grad(&g, zp), data(&g, z) * (-1.0 / data(&g, zp).powi(2)));
    assert_eq!(grad(&g, z), 1.0 / data(&g, zp));
    assert_eq!(grad(&g, e), grad(&g, z) + grad(&g, zp));
    assert_eq!(grad(&g, tmp), data(&g, e) * grad(&g, e));
}

#[test]
fn test_tanh_comp() {
    let mut g = graph();
    let n = Value::new(&mut g, bits(0.8814));
    n.set_label(&mut g, "n".to_string());
    let n2x = n.mul_scalar(&mut g, bits(2.0));
    let e = n2x.exp(&mut g);
    e.set_label(&mut g, "e".to_string());
    let num = e.sub_scalar(&mut g, bits(1.0));
    let den = e.add_scalar(&mut g, bits(1.0));
    let o = num.div(&mut g, &den);
    o.set_label(&mut g, "o".to_string());
    o.backward(&mut g);

    let n2 = Value::new(&mut g, bits(0.8814));
    let o2 = n2.tanh(&mut g);
    o2.backward(&mut g);

    assert_eq!(data(&g, o2), data(&g, o));
    assert!((grad(&g, n) - grad(&g, n2)).abs() < 0.001);
}

#[test]
fn test_middle_double_dep() {
    let mut g = graph();
    let a = Value::new(&mut g, bits(1.0));
    a.set_label(&mut g, "a".to_string());
    let b = a.add_scalar(&mut g, bits(1.0));
    b.set_label(&mut g, "b".to_string());
    let c = b.mul_scalar(&mut g, bits(3.0));
    c.set_label(&mut g, "c".to_string());
    let d = b.mul_scalar(&mut g, bits(4.0));
    d.set_label(&mut g, "d".to_string());
    let e = c.mul(&mut g, &d);
    e.set_label(&mut g, "e".to_string());
    e.backward(&mut g);

    assert_eq!(grad(&g, d), 6.0);
    assert_eq!(grad(&g, c), 8.0);
    assert_eq!(grad(&g, b), 4.0 * 6.0 + 3.0 * 8.0);
    assert_eq!(grad(&g, a), 48.0);
}

#[test]
fn test_karpathy_backward_new_tanh() {
    let mut g = graph();
    let x1 = Value::new(&mut g, bits(2.0));
    let x2 = Value::new(&mut g, bits(0.0));
    let w1 = Value::new(&mut g, bits(-3.0));
    let w2 = Value::new(&mut g, bits(1.0));
    let b = Value::new(&mut g, bits(6.8813735870195432));
    let x1w1 = x1.mul(&mut g, &w1);
    let x2w2 = x2.mul(&mut g, &w2);
    let x1w1x2w2 = x1w1.add(&mut g, &x2w2);
    let n = x1w1x2w2.add(&mut g, &b);

    let n2x = n.mul_scalar(&mut g, bits(2.0));
    let e = n2x.exp(&mut g);
    let num = e.sub_scalar(&mut g, bits(1.0));
    let den = e.add_scalar(&mut g, bits(1.0));
    let o = num.div(&mut g, &den);
    o.backward(&mut g);

    assert!((data(&g, o) - 0.7071).abs() < 0.00001);
    assert_eq!(grad(&g, o), 1.0);
    assert!((grad(&g, n) - 0.5).abs() < 0.0001);
    assert!((grad(&g, x1w1x2w2) - 0.5).abs() < 0.0001);
    assert!((grad(&g, b) - 0.5).abs() < 0.0001);
    assert!((grad(&g, x2w2) - 0.5).abs() < 0.0001);
    assert!((grad(&g, x1w1) - 0.5).abs() < 0.0001);
    assert!((grad(&g, x1) - -1.5).abs() < 0.0001);
    assert!((grad(&g, w1) - 1.0).abs() < 0.0001);
    assert!((grad(&g, x2) - 0.5).abs() < 0.0001);
    assert!((grad(&g, w2) - 0.0).abs() < 0.0001);
}
