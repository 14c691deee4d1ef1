//! The scalar computation graph: an arena of nodes, each holding a forward
//! value and an accumulated gradient as IEEE 754 single-precision bit
//! patterns, the operand edges that record how the node was produced, and an
//! optional operation tag.
//!
//! The engine never performs scalar arithmetic itself: every arithmetic step
//! is delegated to the evaluator that the graph was built with, and the
//! contracts record which request produced each stored bit pattern.
use vstd::prelude::*;

verus! {

/// IEEE 754 single-precision encoding of 0.0, used to initialise gradients.
pub const BITS_ZERO: u32 = 0x0000_0000;

/// IEEE 754 single-precision encoding of 1.0, the gradient seed.
pub const BITS_ONE: u32 = 0x3F80_0000;

/// IEEE 754 single-precision encoding of 2.0, used by the tanh formula.
pub const BITS_TWO: u32 = 0x4000_0000;

/// IEEE 754 single-precision encoding of -1.0, used by negation.
pub const BITS_NEG_ONE: u32 = 0xBF80_0000;

/// The sign bit of an IEEE 754 single-precision pattern; flipping it negates
/// the encoded value exactly.
pub const SIGN_BIT: u32 = 0x8000_0000;

/// Negation of an IEEE 754 single-precision value is exactly a sign-bit flip.
pub open spec fn spec_flip_sign(b: u32) -> u32 {
    b ^ SIGN_BIT
}

/// Flips the sign bit of a single-precision bit pattern, negating the value.
pub fn flip_sign(b: u32) -> (r: u32)
    ensures
        r == spec_flip_sign(b),
{
    b ^ SIGN_BIT
}

/// How a node was produced; a leaf carries no tag.
#[derive(Clone, Copy, PartialEq, Eq, Debug)]
pub enum Operation {
    Add,
    Mul,
    Tanh,
    Exp,
    Pow,
}

/// One elementary scalar computation asked of the evaluator, on
/// single-precision bit patterns (`FromInt` converts an integer to the
/// nearest single-precision value).
#[derive(Clone, Copy, PartialEq, Eq, Debug)]
pub enum ScalarRequest {
    Add(u32, u32),
    Sub(u32, u32),
    Mul(u32, u32),
    Div(u32, u32),
    Exp(u32),
    Powi(u32, i32),
    Powf(u32, u32),
    FromInt(i32),
}

/// A handle to a node of the graph. Two handles alias the same mutable
/// value/gradient state exactly when their indices are equal, so equality of
/// handles is node identity, never numeric equality of the payload.
#[derive(Clone, Copy, PartialEq, Eq, Structural, Debug)]
pub struct Value {
    pub id: usize,
}

/// The stored state of one node.
pub struct Node {
    pub val: u32,
    pub grad: u32,
    pub children: Vec<Value>,
    pub op: Option<Operation>,
    pub label: Option<String>,
}

/// The mathematical model of one node.
pub ghost struct NodeView {
    pub val: u32,
    pub grad: u32,
    pub children: Seq<Value>,
    pub op: Option<Operation>,
    pub label: Option<Seq<char>>,
}

impl View for Node {
    type V = NodeView;

    open spec fn view(&self) -> NodeView {
        NodeView {
            val: self.val,
            grad: self.grad,
            children: self.children@,
            op: self.op,
            label: match self.label {
                Some(ref s) => Some(s@),
                None => None,
            },
        }
    }
}

/// A fresh leaf: the given value, gradient 0, no children, no tag.
pub open spec fn leaf_node(data: u32) -> NodeView {
    NodeView { val: data, grad: BITS_ZERO, children: Seq::empty(), op: None, label: None }
}

/// A fresh operation node: the given value, gradient 0, the given operands.
pub open spec fn op_node(val: u32, children: Seq<Value>, op: Operation) -> NodeView {
    NodeView { val, grad: BITS_ZERO, children, op: Some(op), label: None }
}

/// `n` with its gradient replaced.
pub open spec fn with_grad(n: NodeView, x: u32) -> NodeView {
    NodeView { grad: x, ..n }
}

/// `n` with its value replaced.
pub open spec fn with_val(n: NodeView, x: u32) -> NodeView {
    NodeView { val: x, ..n }
}

/// `n` with its label replaced.
pub open spec fn with_label(n: NodeView, l: Seq<char>) -> NodeView {
    NodeView { label: Some(l), ..n }
}

/// The model of a whole arena: each stored node's model, in order.
pub open spec fn nodes_view(s: Seq<Node>) -> Seq<NodeView> {
    s.map_values(|x: Node| x@)
}

/// Replacing one stored node and then taking the view is taking the view
/// and replacing that node's model.
pub broadcast proof fn lemma_view_update(s: Seq<Node>, i: int, n: Node)
    requires
        0 <= i < s.len(),
    ensures
        #[trigger] nodes_view(s.update(i, n)) == nodes_view(s).update(i, n@),
{
    assert(nodes_view(s.update(i, n)) =~= nodes_view(s).update(i, n@));
}

/// The evaluator `f` may answer request `r` with `out`. Contracts use this
/// to pin which request produced each stored bit pattern; what the answer is
/// numerically is the evaluator's affair, outside the engine.
pub open spec fn ev<F: Fn(ScalarRequest) -> u32>(f: F, r: ScalarRequest, out: u32) -> bool {
    call_ensures(f, (r,), out)
}

/// The seven-request chain a `tanh` node's value comes from: the composed
/// form `(exp(2x) - 1) / (exp(2x) + 1)` on the input value `x_val`, with the
/// two `exp(2x)` occurrences evaluated independently, ending in `out_val`.
pub open spec fn tanh_requests<F: Fn(ScalarRequest) -> u32>(
    f: F,
    x_val: u32,
    out_val: u32,
) -> bool {
    exists|m1: u32, e1: u32, num: u32, m2: u32, e2: u32, den: u32|
        #![trigger ev(f, ScalarRequest::Exp(m1), e1), ev(f, ScalarRequest::Sub(e1, BITS_ONE), num), ev(f, ScalarRequest::Exp(m2), e2), ev(f, ScalarRequest::Add(e2, BITS_ONE), den)]
        {
            &&& ev(f, ScalarRequest::Mul(BITS_TWO, x_val), m1)
            &&& ev(f, ScalarRequest::Exp(m1), e1)
            &&& ev(f, ScalarRequest::Sub(e1, BITS_ONE), num)
            &&& ev(f, ScalarRequest::Mul(BITS_TWO, x_val), m2)
            &&& ev(f, ScalarRequest::Exp(m2), e2)
            &&& ev(f, ScalarRequest::Add(e2, BITS_ONE), den)
            &&& ev(f, ScalarRequest::Div(num, den), out_val)
        }
}

/// Structural soundness of the node stored at index `idx`: every operand
/// was created earlier (so the graph is acyclic by construction), and the
/// operand count matches the operation.
pub open spec fn node_wf(n: NodeView, idx: int) -> bool {
    &&& forall|k: int| 0 <= k < n.children.len() ==> (#[trigger] n.children[k]).id < idx
    &&& match n.op {
        None => n.children.len() == 0,
        Some(Operation::Add) => n.children.len() == 2,
        Some(Operation::Mul) => n.children.len() == 2,
        Some(Operation::Pow) => n.children.len() == 2,
        Some(Operation::Tanh) => n.children.len() == 1,
        Some(Operation::Exp) => n.children.len() == 1,
    }
}

/// The arena of nodes together with the scalar evaluator. Handles index into
/// the arena, so cloning a handle aliases the same node state.
pub struct Graph<F: Fn(ScalarRequest) -> u32> {
    pub nodes: Vec<Node>,
    pub eval: F,
}

impl<F: Fn(ScalarRequest) -> u32> View for Graph<F> {
    type V = Seq<NodeView>;

    open spec fn view(&self) -> Seq<NodeView> {
        nodes_view(self.nodes@)
    }
}

impl<F: Fn(ScalarRequest) -> u32> Graph<F> {
    /// Every node is structurally sound and the evaluator accepts every
    /// request.
    pub open spec fn wf(&self) -> bool {
        &&& forall|i: int| 0 <= i < self@.len() ==> node_wf(#[trigger] self@[i], i)
        &&& forall|r: ScalarRequest| #[trigger] call_requires(self.eval, (r,))
    }

    /// An empty graph over the given scalar evaluator.
    pub fn new(eval: F) -> (g: Self)
        requires
            forall|r: ScalarRequest| #[trigger] call_requires(eval, (r,)),
        ensures
            g.wf(),
            g@.len() == 0,
            g.eval == eval,
    {
        let g = Graph { nodes: Vec::new(), eval };
        proof {
            assert(g@ =~= Seq::<NodeView>::empty());
        }
        g
    }

    /// How many nodes the arena holds.
    pub fn len(&self) -> (n: usize)
        ensures
            n == self@.len(),
    {
        self.nodes.len()
    }
}

impl Value {
    /// Constructs a leaf node holding `data`, with gradient 0, no children
    /// and no operation tag. Never fails.
    pub fn new<F: Fn(ScalarRequest) -> u32>(g: &mut Graph<F>, data: u32) -> (v: Value)
        requires
            old(g).wf(),
        ensures
            final(g).wf(),
            final(g).eval == old(g).eval,
            v.id == old(g)@.len(),
            final(g)@ == old(g)@.push(leaf_node(data)),
    {
        let id = g.nodes.len();
        g.nodes.push(
            Node { val: data, grad: BITS_ZERO, children: Vec::new(), op: None, label: None },
        );
        proof {
            assert(g@ =~= old(g)@.push(leaf_node(data)));
        }
        Value { id }
    }

    /// The node's current forward value.
    pub fn borrow_data<F: Fn(ScalarRequest) -> u32>(&self, g: &Graph<F>) -> (r: u32)
        requires
            self.id < g@.len(),
        ensures
            r == g@[self.id as int].val,
    {
        g.nodes[self.id].val
    }

    /// The node's current accumulated gradient.
    pub fn borrow_grad<F: Fn(ScalarRequest) -> u32>(&self, g: &Graph<F>) -> (r: u32)
        requires
            self.id < g@.len(),
        ensures
            r == g@[self.id as int].grad,
    {
        g.nodes[self.id].grad
    }

    /// The node's current accumulated gradient, read through a fresh access.
    pub fn borrow_grad_mut<F: Fn(ScalarRequest) -> u32>(&self, g: &Graph<F>) -> (r: u32)
        requires
            self.id < g@.len(),
        ensures
            r == g@[self.id as int].grad,
    {
        g.nodes[self.id].grad
    }

    /// A mutable borrow of the node's forward value; a write through it is
    /// observed by every handle to this node, and nothing else in the graph
    /// changes.
    pub fn borrow_data_mut<'a, F: Fn(ScalarRequest) -> u32>(&self, g: &'a mut Graph<F>) -> (r:
        &'a mut u32)
        requires
            old(g).wf(),
            self.id < old(g)@.len(),
        ensures
            *r == old(g)@[self.id as int].val,
            final(g).wf(),
            final(g).eval == old(g).eval,
            final(g)@ == old(g)@.update(
                self.id as int,
                with_val(old(g)@[self.id as int], *final(r)),
            ),
    {
        proof {
            broadcast use lemma_view_update;

        }
        let node = vstd::std_specs::vec::vec_index_mut(&mut g.nodes, self.id);
        &mut node.val
    }

    /// Overwrites the node's forward value in place; every handle to this
    /// node observes the new value, and nothing else in the graph changes —
    /// in particular no dependent node's already-computed value is touched.
    pub fn set_data<F: Fn(ScalarRequest) -> u32>(&self, g: &mut Graph<F>, data: u32)
        requires
            old(g).wf(),
            self.id < old(g)@.len(),
        ensures
            final(g).wf(),
            final(g).eval == old(g).eval,
            final(g)@ == old(g)@.update(self.id as int, with_val(old(g)@[self.id as int], data)),
    {
        g.nodes[self.id].val = data;
        proof {
            assert(g@ =~= old(g)@.update(
                self.id as int,
                with_val(old(g)@[self.id as int], data),
            ));
        }
    }

    /// Overwrites the node's gradient (used to reset it to 0 or seed it).
    pub fn set_grad<F: Fn(ScalarRequest) -> u32>(&self, g: &mut Graph<F>, grad: u32)
        requires
            old(g).wf(),
            self.id < old(g)@.len(),
        ensures
            final(g).wf(),
            final(g).eval == old(g).eval,
            final(g)@ == old(g)@.update(self.id as int, with_grad(old(g)@[self.id as int], grad)),
    {
        g.nodes[self.id].grad = grad;
        proof {
            assert(g@ =~= old(g)@.update(
                self.id as int,
                with_grad(old(g)@[self.id as int], grad),
            ));
        }
    }

    /// Accumulates into the node's gradient: the stored gradient becomes the
    /// evaluator's sum of the old gradient and `grad`. This is the only way
    /// gradients ever grow — contributions are added, never overwritten.
    pub fn update_grad<F: Fn(ScalarRequest) -> u32>(&self, g: &mut Graph<F>, grad: u32)
        requires
            old(g).wf(),
            self.id < old(g)@.len(),
        ensures
            final(g).wf(),
            final(g).eval == old(g).eval,
            final(g)@.len() == old(g)@.len(),
            exists|s: u32|
                #[trigger] ev(
                    old(g).eval,
                    ScalarRequest::Add(old(g)@[self.id as int].grad, grad),
                    s,
                ) && final(g)@ == old(g)@.update(
                    self.id as int,
                    with_grad(old(g)@[self.id as int], s),
                ),
    {
        let cur = g.nodes[self.id].grad;
        let s = (g.eval)(ScalarRequest::Add(cur, grad));
        proof {
            assert(cur == old(g)@[self.id as int].grad);
            assert(ev(old(g).eval, ScalarRequest::Add(cur, grad), s));
        }
        g.nodes[self.id].grad = s;
        proof {
            assert(g@ =~= old(g)@.update(
                self.id as int,
                with_grad(old(g)@[self.id as int], s),
            ));
        }
    }

    /// Attaches a debug label to the node; not semantically load-bearing.
    pub fn set_label<F: Fn(ScalarRequest) -> u32>(&self, g: &mut Graph<F>, label: String)
        requires
            old(g).wf(),
            self.id < old(g)@.len(),
        ensures
            final(g).wf(),
            final(g).eval == old(g).eval,
            final(g)@ == old(g)@.update(
                self.id as int,
                with_label(old(g)@[self.id as int], label@),
            ),
    {
        let ghost l = label@;
        g.nodes[self.id].label = Some(label);
        proof {
            assert(g@ =~= old(g)@.update(
                self.id as int,
                with_label(old(g)@[self.id as int], l),
            ));
        }
    }

    /// The node's operand handles, in creation order.
    pub fn children<F: Fn(ScalarRequest) -> u32>(&self, g: &Graph<F>) -> (r: Vec<Value>)
        requires
            self.id < g@.len(),
        ensures
            r@ == g@[self.id as int].children,
    {
        g.nodes[self.id].children.clone()
    }

    /// Constructs the node `self + rhs`: its value is the evaluator's sum of
    /// the operands' current values, its children are `[self, rhs]` in that
    /// order, and it is tagged `Add`.
    pub fn add<F: Fn(ScalarRequest) -> u32>(&self, g: &mut Graph<F>, rhs: &Value) -> (v: Value)
        requires
            old(g).wf(),
            self.id < old(g)@.len(),
            rhs.id < old(g)@.len(),
        ensures
            final(g).wf(),
            final(g).eval == old(g).eval,
            v.id == old(g)@.len(),
            exists|s: u32|
                #[trigger] ev(
                    old(g).eval,
                    ScalarRequest::Add(old(g)@[self.id as int].val, old(g)@[rhs.id as int].val),
                    s,
                ) && final(g)@ == old(g)@.push(op_node(s, seq![*self, *rhs], Operation::Add)),
    {
        let a = g.nodes[self.id].val;
        let b = g.nodes[rhs.id].val;
        let s = (g.eval)(ScalarRequest::Add(a, b));
        proof {
            assert(a == old(g)@[self.id as int].val);
            assert(b == old(g)@[rhs.id as int].val);
            assert(ev(old(g).eval, ScalarRequest::Add(a, b), s));
        }
        let id = g.nodes.len();
        let mut ch: Vec<Value> = Vec::new();
        ch.push(*self);
        ch.push(*rhs);
        proof {
            assert(ch@ =~= seq![*self, *rhs]);
        }
        g.nodes.push(
            Node { val: s, grad: BITS_ZERO, children: ch, op: Some(Operation::Add), label: None },
        );
        proof {
            assert(g@ =~= old(g)@.push(op_node(s, seq![*self, *rhs], Operation::Add)));
        }
        Value { id }
    }

    /// Constructs the node `self * rhs`, children `[self, rhs]`, tagged `Mul`.
    pub fn mul<F: Fn(ScalarRequest) -> u32>(&self, g: &mut Graph<F>, rhs: &Value) -> (v: Value)
        requires
            old(g).wf(),
            self.id < old(g)@.len(),
            rhs.id < old(g)@.len(),
        ensures
            final(g).wf(),
            final(g).eval == old(g).eval,
            v.id == old(g)@.len(),
            exists|s: u32|
                #[trigger] ev(
                    old(g).eval,
                    ScalarRequest::Mul(old(g)@[self.id as int].val, old(g)@[rhs.id as int].val),
                    s,
                ) && final(g)@ == old(g)@.push(op_node(s, seq![*self, *rhs], Operation::Mul)),
    {
        let a = g.nodes[self.id].val;
        let b = g.nodes[rhs.id].val;
        let s = (g.eval)(ScalarRequest::Mul(a, b));
        proof {
            assert(a == old(g)@[self.id as int].val);
            assert(b == old(g)@[rhs.id as int].val);
            assert(ev(old(g).eval, ScalarRequest::Mul(a, b), s));
        }
        let id = g.nodes.len();
        let mut ch: Vec<Value> = Vec::new();
        ch.push(*self);
        ch.push(*rhs);
        proof {
            assert(ch@ =~= seq![*self, *rhs]);
        }
        g.nodes.push(
            Node { val: s, grad: BITS_ZERO, children: ch, op: Some(Operation::Mul), label: None },
        );
        proof {
            assert(g@ =~= old(g)@.push(op_node(s, seq![*self, *rhs], Operation::Mul)));
        }
        Value { id }
    }

    /// Constructs the node `tanh(self)`: one child, tagged `Tanh`. The value
    /// is computed through the composed form `(exp(2x) - 1) / (exp(2x) + 1)`,
    /// with the two `exp(2x)` occurrences evaluated independently.
    pub fn tanh<F: Fn(ScalarRequest) -> u32>(&self, g: &mut Graph<F>) -> (v: Value)
        requires
            old(g).wf(),
            self.id < old(g)@.len(),
        ensures
            final(g).wf(),
            final(g).eval == old(g).eval,
            v.id == old(g)@.len(),
            exists|t: u32|
                #[trigger] tanh_requests(old(g).eval, old(g)@[self.id as int].val, t)
                    && final(g)@ == old(g)@.push(op_node(t, seq![*self], Operation::Tanh)),
    {
        let x = g.nodes[self.id].val;
        let m1 = (g.eval)(ScalarRequest::Mul(BITS_TWO, x));
        let e1 = (g.eval)(ScalarRequest::Exp(m1));
        let num = (g.eval)(ScalarRequest::Sub(e1, BITS_ONE));
        let m2 = (g.eval)(ScalarRequest::Mul(BITS_TWO, x));
        let e2 = (g.eval)(ScalarRequest::Exp(m2));
        let den = (g.eval)(ScalarRequest::Add(e2, BITS_ONE));
        let t = (g.eval)(ScalarRequest::Div(num, den));
        proof {
            assert(ev(old(g).eval, ScalarRequest::Mul(BITS_TWO, x), m1));
            assert(ev(old(g).eval, ScalarRequest::Exp(m1), e1));
            assert(ev(old(g).eval, ScalarRequest::Sub(e1, BITS_ONE), num));
            assert(ev(old(g).eval, ScalarRequest::Mul(BITS_TWO, x), m2));
            assert(ev(old(g).eval, ScalarRequest::Exp(m2), e2));
            assert(ev(old(g).eval, ScalarRequest::Add(e2, BITS_ONE), den));
            assert(ev(old(g).eval, ScalarRequest::Div(num, den), t));
            assert(x == old(g)@[self.id as int].val);
            assert(tanh_requests(old(g).eval, x, t));
        }
        let id = g.nodes.len();
        let mut ch: Vec<Value> = Vec::new();
        ch.push(*self);
        proof {
            assert(ch@ =~= seq![*self]);
        }
        g.nodes.push(
            Node { val: t, grad: BITS_ZERO, children: ch, op: Some(Operation::Tanh), label: None },
        );
        proof {
            assert(g@ =~= old(g)@.push(op_node(t, seq![*self], Operation::Tanh)));
        }
        Value { id }
    }

    /// Constructs the node `exp(self)`: one child, tagged `Exp`.
    pub fn exp<F: Fn(ScalarRequest) -> u32>(&self, g: &mut Graph<F>) -> (v: Value)
        requires
            old(g).wf(),
            self.id < old(g)@.len(),
        ensures
            final(g).wf(),
            final(g).eval == old(g).eval,
            v.id == old(g)@.len(),
            exists|s: u32|
                #[trigger] ev(old(g).eval, ScalarRequest::Exp(old(g)@[self.id as int].val), s)
                    && final(g)@ == old(g)@.push(op_node(s, seq![*self], Operation::Exp)),
    {
        let x = g.nodes[self.id].val;
        let s = (g.eval)(ScalarRequest::Exp(x));
        proof {
            assert(x == old(g)@[self.id as int].val);
            assert(ev(old(g).eval, ScalarRequest::Exp(x), s));
        }
        let id = g.nodes.len();
        let mut ch: Vec<Value> = Vec::new();
        ch.push(*self);
        proof {
            assert(ch@ =~= seq![*self]);
        }
        g.nodes.push(
            Node { val: s, grad: BITS_ZERO, children: ch, op: Some(Operation::Exp), label: None },
        );
        proof {
            assert(g@ =~= old(g)@.push(op_node(s, seq![*self], Operation::Exp)));
        }
        Value { id }
    }

    /// Constructs the node `self ^ rhs` for an integer exponent: first a leaf
    /// holding the exponent (converted to single precision), then the power
    /// node with children `[self, exponent-leaf]`, tagged `Pow`. The exponent
    /// leaf exists for structural uniformity only; the backward rule never
    /// propagates a gradient onto it.
    pub fn pow<F: Fn(ScalarRequest) -> u32>(&self, g: &mut Graph<F>, rhs: i32) -> (v: Value)
        requires
            old(g).wf(),
            self.id < old(g)@.len(),
        ensures
            final(g).wf(),
            final(g).eval == old(g).eval,
            v.id == old(g)@.len() + 1,
            exists|rv: u32, p: u32|
                #[trigger] ev(old(g).eval, ScalarRequest::FromInt(rhs), rv)
                    && #[trigger] ev(
                    old(g).eval,
                    ScalarRequest::Powi(old(g)@[self.id as int].val, rhs),
                    p,
                ) && final(g)@ == old(g)@.push(leaf_node(rv)).push(
                    op_node(
                        p,
                        seq![*self, (Value { id: old(g)@.len() as usize })],
                        Operation::Pow,
                    ),
                ),
    {
        let x = g.nodes[self.id].val;
        let rv = (g.eval)(ScalarRequest::FromInt(rhs));
        let e = Value::new(g, rv);
        let p = (g.eval)(ScalarRequest::Powi(x, rhs));
        proof {
            assert(ev(old(g).eval, ScalarRequest::FromInt(rhs), rv));
            assert(ev(old(g).eval, ScalarRequest::Powi(x, rhs), p));
        }
        let id = g.nodes.len();
        let mut ch: Vec<Value> = Vec::new();
        ch.push(*self);
        ch.push(e);
        proof {
            assert(ch@ =~= seq![*self, e]);
        }
        g.nodes.push(
            Node { val: p, grad: BITS_ZERO, children: ch, op: Some(Operation::Pow), label: None },
        );
        proof {
            assert(g@ =~= old(g)@.push(leaf_node(rv)).push(
                op_node(p, seq![*self, e], Operation::Pow),
            ));
        }
        Value { id }
    }

    /// Constructs `-self` as `self * (-1)`: a fresh leaf holding -1.0, then a
    /// `Mul` node with children `[self, minus-one-leaf]`.
    pub fn neg<F: Fn(ScalarRequest) -> u32>(&self, g: &mut Graph<F>) -> (v: Value)
        requires
            old(g).wf(),
            self.id < old(g)@.len(),
        ensures
            final(g).wf(),
            final(g).eval == old(g).eval,
            v.id == old(g)@.len() + 1,
            exists|s: u32|
                #[trigger] ev(
                    old(g).eval,
                    ScalarRequest::Mul(old(g)@[self.id as int].val, BITS_NEG_ONE),
                    s,
                ) && final(g)@ == old(g)@.push(leaf_node(BITS_NEG_ONE)).push(
                    op_node(
                        s,
                        seq![*self, (Value { id: old(g)@.len() as usize })],
                        Operation::Mul,
                    ),
                ),
    {
        let m = Value::new(g, BITS_NEG_ONE);
        self.mul(g, &m)
    }

    /// Constructs `self - rhs` as `self + (-rhs)`: pushes the minus-one leaf,
    /// the negation `Mul` node, then the `Add` node.
    pub fn sub<F: Fn(ScalarRequest) -> u32>(&self, g: &mut Graph<F>, rhs: &Value) -> (v: Value)
        requires
            old(g).wf(),
            self.id < old(g)@.len(),
            rhs.id < old(g)@.len(),
        ensures
            final(g).wf(),
            final(g).eval == old(g).eval,
            v.id == old(g)@.len() + 2,
            exists|s1: u32, s2: u32|
                #[trigger] ev(
                    old(g).eval,
                    ScalarRequest::Mul(old(g)@[rhs.id as int].val, BITS_NEG_ONE),
                    s1,
                ) && #[trigger] ev(
                    old(g).eval,
                    ScalarRequest::Add(old(g)@[self.id as int].val, s1),
                    s2,
                ) && final(g)@ == old(g)@.push(leaf_node(BITS_NEG_ONE)).push(
                    op_node(
                        s1,
                        seq![*rhs, (Value { id: old(g)@.len() as usize })],
                        Operation::Mul,
                    ),
                ).push(
                    op_node(
                        s2,
                        seq![*self, (Value { id: (old(g)@.len() + 1) as usize })],
                        Operation::Add,
                    ),
                ),
    {
        let n = rhs.neg(g);
        self.add(g, &n)
    }

    /// Constructs `self / rhs` as `self * rhs.pow(-1)`: pushes the exponent
    /// leaf, the `Pow` node, then the `Mul` node. Dividing by a node whose
    /// value encodes 0 is not rejected; the evaluator's answer (an infinity
    /// or not-a-number pattern) flows through like any other value.
    pub fn div<F: Fn(ScalarRequest) -> u32>(&self, g: &mut Graph<F>, rhs: &Value) -> (v: Value)
        requires
            old(g).wf(),
            self.id < old(g)@.len(),
            rhs.id < old(g)@.len(),
        ensures
            final(g).wf(),
            final(g).eval == old(g).eval,
            v.id == old(g)@.len() + 2,
            exists|rv: u32, p: u32, s: u32|
                #[trigger] ev(old(g).eval, ScalarRequest::FromInt(-1i32), rv)
                    && #[trigger] ev(
                    old(g).eval,
                    ScalarRequest::Powi(old(g)@[rhs.id as int].val, -1i32),
                    p,
                ) && #[trigger] ev(
                    old(g).eval,
                    ScalarRequest::Mul(old(g)@[self.id as int].val, p),
                    s,
                ) && final(g)@ == old(g)@.push(leaf_node(rv)).push(
                    op_node(
                        p,
                        seq![*rhs, (Value { id: old(g)@.len() as usize })],
                        Operation::Pow,
                    ),
                ).push(
                    op_node(
                        s,
                        seq![*self, (Value { id: (old(g)@.len() + 1) as usize })],
                        Operation::Mul,
                    ),
                ),
    {
        let p = rhs.pow(g, -1);
        self.mul(g, &p)
    }

    /// Constructs `self + c` for a raw scalar: a fresh leaf holding `c`, then
    /// the `Add` node, mirroring mixed node-and-scalar addition.
    pub fn add_scalar<F: Fn(ScalarRequest) -> u32>(&self, g: &mut Graph<F>, c: u32) -> (v: Value)
        requires
            old(g).wf(),
            self.id < old(g)@.len(),
        ensures
            final(g).wf(),
            final(g).eval == old(g).eval,
            v.id == old(g)@.len() + 1,
            exists|s: u32|
                #[trigger] ev(old(g).eval, ScalarRequest::Add(old(g)@[self.id as int].val, c), s)
                    && final(g)@ == old(g)@.push(leaf_node(c)).push(
                    op_node(
                        s,
                        seq![*self, (Value { id: old(g)@.len() as usize })],
                        Operation::Add,
                    ),
                ),
    {
        let e = Value::new(g, c);
        self.add(g, &e)
    }

    /// Constructs `self * c` for a raw scalar: a fresh leaf holding `c`, then
    /// the `Mul` node.
    pub fn mul_scalar<F: Fn(ScalarRequest) -> u32>(&self, g: &mut Graph<F>, c: u32) -> (v: Value)
        requires
            old(g).wf(),
            self.id < old(g)@.len(),
        ensures
            final(g).wf(),
            final(g).eval == old(g).eval,
            v.id == old(g)@.len() + 1,
            exists|s: u32|
                #[trigger] ev(old(g).eval, ScalarRequest::Mul(old(g)@[self.id as int].val, c), s)
                    && final(g)@ == old(g)@.push(leaf_node(c)).push(
                    op_node(
                        s,
                        seq![*self, (Value { id: old(g)@.len() as usize })],
                        Operation::Mul,
                    ),
                ),
    {
        let e = Value::new(g, c);
        self.mul(g, &e)
    }

    /// Constructs `self - c` for a raw scalar as `self + (-c)`: the scalar is
    /// negated by its sign bit, stored in a fresh leaf, and added.
    pub fn sub_scalar<F: Fn(ScalarRequest) -> u32>(&self, g: &mut Graph<F>, c: u32) -> (v: Value)
        requires
            old(g).wf(),
            self.id < old(g)@.len(),
        ensures
            final(g).wf(),
            final(g).eval == old(g).eval,
            v.id == old(g)@.len() + 1,
            exists|s: u32|
                #[trigger] ev(
                    old(g).eval,
                    ScalarRequest::Add(old(g)@[self.id as int].val, spec_flip_sign(c)),
                    s,
                ) && final(g)@ == old(g)@.push(leaf_node(spec_flip_sign(c))).push(
                    op_node(
                        s,
                        seq![*self, (Value { id: old(g)@.len() as usize })],
                        Operation::Add,
                    ),
                ),
    {
        let e = Value::new(g, flip_sign(c));
        self.add(g, &e)
    }

    /// The node's operation tag, `None` for a leaf.
    pub fn op<F: Fn(ScalarRequest) -> u32>(&self, g: &Graph<F>) -> (r: Option<Operation>)
        requires
            self.id < g@.len(),
        ensures
            r == g@[self.id as int].op,
    {
        g.nodes[self.id].op
    }
}

/// Mutation-visibility law: overwriting a leaf's value after the leaf has
/// been used as an operand of an existing node is observed through that
/// node's operand edge (the edge aliases the same underlying state), while
/// the dependent node's own already-computed value stays exactly as it was —
/// values are computed eagerly, never recomputed.
pub proof fn lemma_mutation_visibility(
    g1: Seq<NodeView>,
    g2: Seq<NodeView>,
    parent: Value,
    k: int,
    leaf: Value,
    x: u32,
)
    requires
        parent.id < g1.len(),
        0 <= k < g1[parent.id as int].children.len(),
        g1[parent.id as int].children[k] == leaf,
        leaf.id < g1.len(),
        leaf.id != parent.id,
        g2 == g1.update(leaf.id as int, with_val(g1[leaf.id as int], x)),
    ensures
        g2[parent.id as int].children == g1[parent.id as int].children,
        g2[parent.id as int].val == g1[parent.id as int].val,
        g2[g2[parent.id as int].children[k].id as int].val == x,
        g2[g2[parent.id as int].children[k].id as int].grad == g1[leaf.id as int].grad,
{
    assert(g2[parent.id as int] == g1[parent.id as int]);
}

} // verus!
