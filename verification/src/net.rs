//! Network composition over the scalar engine: a neuron applies weights to
//! its inputs and squashes the sum, a layer fans one input vector out to many
//! neurons, and a multi-layer perceptron chains layers output-to-input. Each
//! forward pass builds a fresh subgraph; the parameter leaves are shared
//! across passes, so an external update to a parameter is visible to every
//! later pass.
use vstd::prelude::*;

use crate::graph::ev;
use crate::graph::leaf_node;
use crate::graph::op_node;
use crate::graph::tanh_requests;
use crate::graph::Graph;
use crate::graph::NodeView;
use crate::graph::Operation;
use crate::graph::ScalarRequest;
use crate::graph::Value;

verus! {

/// One neuron: `nin` weight leaves and one bias leaf.
pub struct Neuron {
    pub nin: usize,
    pub w: Vec<Value>,
    pub b: Value,
}

/// One layer: an ordered collection of neurons over the same inputs.
pub struct Layer {
    pub neurons: Vec<Neuron>,
}

/// A multi-layer perceptron: layers chained output-to-input.
pub struct Mlp {
    pub layers: Vec<Layer>,
}

/// The summed-products chain a neuron's forward pass builds: `r` is the
/// running sum after `k` terms — the bias for `k == 0`, otherwise an `Add`
/// node of the previous sum and the `Mul` node of input `k-1` with weight
/// `k-1` — and each chain node's stored value is the evaluator's answer to
/// the product or sum of its operands' stored values.
pub open spec fn affine_chain<F: Fn(ScalarRequest) -> u32>(
    f: F,
    g: Seq<NodeView>,
    xs: Seq<Value>,
    ws: Seq<Value>,
    b: Value,
    r: Value,
    k: int,
) -> bool
    decreases k,
{
    if k <= 0 {
        r == b
    } else {
        &&& r.id < g.len()
        &&& g[r.id as int].op == Some(Operation::Add)
        &&& g[r.id as int].children.len() == 2
        &&& g[r.id as int].children[0].id < g.len()
        &&& affine_chain(f, g, xs, ws, b, g[r.id as int].children[0], k - 1)
        &&& g[r.id as int].children[1].id < g.len()
        &&& xs[k - 1].id < g.len()
        &&& ws[k - 1].id < g.len()
        &&& g[g[r.id as int].children[1].id as int].op == Some(Operation::Mul)
        &&& g[g[r.id as int].children[1].id as int].children == seq![xs[k - 1], ws[k - 1]]
        &&& ev(
            f,
            ScalarRequest::Mul(g[xs[k - 1].id as int].val, g[ws[k - 1].id as int].val),
            g[g[r.id as int].children[1].id as int].val,
        )
        &&& ev(
            f,
            ScalarRequest::Add(
                g[g[r.id as int].children[0].id as int].val,
                g[g[r.id as int].children[1].id as int].val,
            ),
            g[r.id as int].val,
        )
    }
}

/// A chain built in a graph still stands in any extension of that graph.
pub proof fn lemma_affine_chain_prefix<F: Fn(ScalarRequest) -> u32>(
    f: F,
    g1: Seq<NodeView>,
    g2: Seq<NodeView>,
    xs: Seq<Value>,
    ws: Seq<Value>,
    b: Value,
    r: Value,
    k: int,
)
    requires
        affine_chain(f, g1, xs, ws, b, r, k),
        g1.is_prefix_of(g2),
    ensures
        affine_chain(f, g2, xs, ws, b, r, k),
    decreases k,
{
    if k > 0 {
        assert(g2.subrange(0, g1.len() as int) == g1);
        assert(g2[r.id as int] == g1[r.id as int]);
        let m = g1[r.id as int].children[1];
        let p = g1[r.id as int].children[0];
        assert(g2[m.id as int] == g1[m.id as int]);
        assert(g2[p.id as int] == g1[p.id as int]);
        assert(g2[xs[k - 1].id as int] == g1[xs[k - 1].id as int]);
        assert(g2[ws[k - 1].id as int] == g1[ws[k - 1].id as int]);
        lemma_affine_chain_prefix(f, g1, g2, xs, ws, b, g1[r.id as int].children[0], k - 1);
    }
}

/// One row of neurons applied to one input vector: output `j` is a fresh
/// `Tanh` node over neuron `j`'s summed-products chain on the inputs, its
/// value the evaluator's answer to the composed tanh form of the sum.
pub open spec fn layer_applied<F: Fn(ScalarRequest) -> u32>(
    f: F,
    g: Seq<NodeView>,
    ns: Seq<Neuron>,
    xin: Seq<Value>,
    xout: Seq<Value>,
) -> bool {
    &&& xout.len() == ns.len()
    &&& forall|k: int| 0 <= k < xin.len() ==> (#[trigger] xin[k]).id < g.len()
    &&& forall|j: int|
        0 <= j < xout.len() ==> (#[trigger] xout[j]).id < g.len() && g[xout[j].id as int].op
            == Some(Operation::Tanh) && g[xout[j].id as int].children.len() == 1 && g[xout[j].id
            as int].children[0].id < g.len() && affine_chain(
            f,
            g,
            xin,
            ns[j].w@,
            ns[j].b,
            g[xout[j].id as int].children[0],
            xin.len() as int,
        ) && tanh_requests(
            f,
            g[g[xout[j].id as int].children[0].id as int].val,
            g[xout[j].id as int].val,
        )
}

/// An applied row still stands in any extension of the graph.
pub proof fn lemma_layer_applied_prefix<F: Fn(ScalarRequest) -> u32>(
    f: F,
    g1: Seq<NodeView>,
    g2: Seq<NodeView>,
    ns: Seq<Neuron>,
    xin: Seq<Value>,
    xout: Seq<Value>,
)
    requires
        layer_applied(f, g1, ns, xin, xout),
        g1.is_prefix_of(g2),
    ensures
        layer_applied(f, g2, ns, xin, xout),
{
    assert(g2.subrange(0, g1.len() as int) == g1);
    assert forall|j: int|
        0 <= j < xout.len() implies (#[trigger] xout[j]).id < g2.len() && g2[xout[j].id
        as int].op == Some(Operation::Tanh) && g2[xout[j].id as int].children.len() == 1
        && g2[xout[j].id as int].children[0].id < g2.len() && affine_chain(
        f,
        g2,
        xin,
        ns[j].w@,
        ns[j].b,
        g2[xout[j].id as int].children[0],
        xin.len() as int,
    ) && tanh_requests(
        f,
        g2[g2[xout[j].id as int].children[0].id as int].val,
        g2[xout[j].id as int].val,
    ) by {
        assert(g2[xout[j].id as int] == g1[xout[j].id as int]);
        let s = g1[xout[j].id as int].children[0];
        assert(g2[s.id as int] == g1[s.id as int]);
        lemma_affine_chain_prefix(f, g1, g2, xin, ns[j].w@, ns[j].b, s, xin.len() as int);
    }
}

/// The parameters of one neuron: its weights in order, then its bias.
pub open spec fn neuron_params(n: Neuron) -> Seq<Value> {
    n.w@.push(n.b)
}

/// The parameters of a row of neurons, concatenated in neuron order.
pub open spec fn layer_params(ns: Seq<Neuron>) -> Seq<Value>
    decreases ns.len(),
{
    if ns.len() == 0 {
        Seq::empty()
    } else {
        layer_params(ns.drop_last()) + neuron_params(ns.last())
    }
}

/// The parameters of a stack of layers, concatenated in layer order.
pub open spec fn mlp_params(ls: Seq<Layer>) -> Seq<Value>
    decreases ls.len(),
{
    if ls.len() == 0 {
        Seq::empty()
    } else {
        mlp_params(ls.drop_last()) + layer_params(ls.last().neurons@)
    }
}

/// The neuron's parameters are exactly the `nin + 1` consecutive fresh
/// leaves starting at index `base`, holding `init[off..off + nin + 1]` in
/// order — weights first, bias last. Distinct bases give disjoint
/// parameters, so neurons built side by side share nothing.
pub open spec fn neuron_fresh_init(
    g: Seq<NodeView>,
    init: Seq<u32>,
    nin: int,
    base: int,
    off: int,
    n: Neuron,
) -> bool {
    &&& n.nin == nin
    &&& n.w@.len() == nin
    &&& forall|k: int|
        0 <= k < nin ==> (#[trigger] n.w@[k]).id == base + k && n.w@[k].id < g.len() && g[n.w@[
            k
        ].id as int] == leaf_node(init[off + k])
    &&& n.b.id == base + nin
    &&& n.b.id < g.len()
    &&& g[n.b.id as int] == leaf_node(init[off + nin])
}

/// Freshly initialised parameters keep their leaves in any graph extension.
pub proof fn lemma_neuron_fresh_init_prefix(
    g1: Seq<NodeView>,
    g2: Seq<NodeView>,
    init: Seq<u32>,
    nin: int,
    base: int,
    off: int,
    n: Neuron,
)
    requires
        neuron_fresh_init(g1, init, nin, base, off, n),
        g1.is_prefix_of(g2),
    ensures
        neuron_fresh_init(g2, init, nin, base, off, n),
{
    assert(g2.subrange(0, g1.len() as int) == g1);
    assert forall|k: int|
        0 <= k < nin implies (#[trigger] n.w@[k]).id == base + k && n.w@[k].id < g2.len()
        && g2[n.w@[k].id as int] == leaf_node(init[off + k]) by {
        assert(g2[n.w@[k].id as int] == g1[n.w@[k].id as int]);
    }
    assert(g2[n.b.id as int] == g1[n.b.id as int]);
}

/// Every neuron of the row has its fresh, pairwise-disjoint parameters at
/// the arithmetic offsets: neuron `j` starts at graph index
/// `base + j * (nin + 1)` and draws from `init[off + j * (nin + 1) ..]`.
pub open spec fn layer_fresh_init(
    g: Seq<NodeView>,
    init: Seq<u32>,
    nin: int,
    base: int,
    off: int,
    ns: Seq<Neuron>,
) -> bool {
    forall|j: int|
        0 <= j < ns.len() ==> neuron_fresh_init(
            g,
            init,
            nin,
            base + j * (nin + 1),
            off + j * (nin + 1),
            #[trigger] ns[j],
        )
}

/// A freshly initialised row keeps its leaves in any graph extension.
pub proof fn lemma_layer_fresh_init_prefix(
    g1: Seq<NodeView>,
    g2: Seq<NodeView>,
    init: Seq<u32>,
    nin: int,
    base: int,
    off: int,
    ns: Seq<Neuron>,
)
    requires
        layer_fresh_init(g1, init, nin, base, off, ns),
        g1.is_prefix_of(g2),
    ensures
        layer_fresh_init(g2, init, nin, base, off, ns),
{
    assert forall|j: int|
        0 <= j < ns.len() implies neuron_fresh_init(
        g2,
        init,
        nin,
        base + j * (nin + 1),
        off + j * (nin + 1),
        #[trigger] ns[j],
    ) by {
        lemma_neuron_fresh_init_prefix(
            g1,
            g2,
            init,
            nin,
            base + j * (nin + 1),
            off + j * (nin + 1),
            ns[j],
        );
    }
}

impl Neuron {
    /// All handles point into the graph and the weight count matches `nin`.
    pub open spec fn wf(&self, g: Seq<NodeView>) -> bool {
        &&& self.w@.len() == self.nin
        &&& forall|k: int| 0 <= k < self.w@.len() ==> (#[trigger] self.w@[k]).id < g.len()
        &&& self.b.id < g.len()
    }

    /// Builds a neuron with `nin` weight leaves and one bias leaf, their
    /// values taken in order from `init[off..off + nin + 1]` (the caller
    /// draws them; random initialisation is outside the engine).
    pub fn new<F: Fn(ScalarRequest) -> u32>(
        g: &mut Graph<F>,
        nin: usize,
        init: &Vec<u32>,
        off: usize,
    ) -> (n: Neuron)
        requires
            old(g).wf(),
            off + nin + 1 <= init@.len(),
        ensures
            final(g).wf(),
            final(g).eval == old(g).eval,
            old(g)@.is_prefix_of(final(g)@),
            final(g)@.len() == old(g)@.len() + nin + 1,
            n.wf(final(g)@),
            n.nin == nin,
            forall|k: int|
                0 <= k < nin ==> (#[trigger] n.w@[k]).id == old(g)@.len() + k && final(g)@[n.w@[
                    k
                ].id as int] == leaf_node(init@[off + k]),
            n.b.id == old(g)@.len() + nin,
            final(g)@[n.b.id as int] == leaf_node(init@[off as int + nin]),
            neuron_fresh_init(final(g)@, init@, nin as int, old(g)@.len() as int, off as int, n),
    {
        let ilen = init.len();
        let mut w: Vec<Value> = Vec::new();
        let mut k: usize = 0;
        while k < nin
            invariant
                g.wf(),
                g.eval == old(g).eval,
                off + nin + 1 <= ilen,
                ilen == init@.len(),
                k <= nin,
                w@.len() == k,
                old(g)@.is_prefix_of(g@),
                g@.len() == old(g)@.len() + k,
                forall|j: int|
                    0 <= j < k ==> (#[trigger] w@[j]).id == old(g)@.len() + j && g@[w@[j].id
                        as int] == leaf_node(init@[off + j]),
            decreases nin - k,
        {
            let ghost pre = g@;
            let v = Value::new(g, init[off + k]);
            w.push(v);
            k += 1;
            proof {
                assert(pre.is_prefix_of(g@));
                assert(g@.subrange(0, pre.len() as int) == pre);
            }
        }
        let ghost pre = g@;
        let b = Value::new(g, init[off + nin]);
        proof {
            assert(g@.subrange(0, pre.len() as int) == pre);
        }
        Neuron { nin, w, b }
    }

    /// A fresh forward pass: multiplies each input by its weight, folds the
    /// products onto the bias with additions, and squashes the sum with
    /// `tanh`. Existing nodes are untouched; the result is the `tanh` node
    /// over the summed-products chain.
    pub fn forward<F: Fn(ScalarRequest) -> u32>(&self, g: &mut Graph<F>, x: &Vec<Value>) -> (out:
        Value)
        requires
            old(g).wf(),
            self.wf(old(g)@),
            x@.len() == self.w@.len(),
            forall|k: int| 0 <= k < x@.len() ==> (#[trigger] x@[k]).id < old(g)@.len(),
        ensures
            final(g).wf(),
            final(g).eval == old(g).eval,
            old(g)@.is_prefix_of(final(g)@),
            out.id < final(g)@.len(),
            final(g)@[out.id as int].op == Some(Operation::Tanh),
            final(g)@[out.id as int].children.len() == 1,
            final(g)@[out.id as int].children[0].id < final(g)@.len(),
            affine_chain(
                old(g).eval,
                final(g)@,
                x@,
                self.w@,
                self.b,
                final(g)@[out.id as int].children[0],
                x@.len() as int,
            ),
            tanh_requests(
                old(g).eval,
                final(g)@[final(g)@[out.id as int].children[0].id as int].val,
                final(g)@[out.id as int].val,
            ),
    {
        let mut acc = self.b;
        let mut k: usize = 0;
        while k < x.len()
            invariant
                g.wf(),
                g.eval == old(g).eval,
                self.wf(g@),
                x@.len() == self.w@.len(),
                forall|j: int| 0 <= j < x@.len() ==> (#[trigger] x@[j]).id < g@.len(),
                k <= x@.len(),
                old(g)@.is_prefix_of(g@),
                acc.id < g@.len(),
                affine_chain(old(g).eval, g@, x@, self.w@, self.b, acc, k as int),
            decreases x@.len() - k,
        {
            let ghost fev = old(g).eval;
            let ghost pre = g@;
            let p = x[k].mul(g, &self.w[k]);
            proof {
                assert(pre.is_prefix_of(g@));
                lemma_affine_chain_prefix(fev, pre, g@, x@, self.w@, self.b, acc, k as int);
                let sp = choose|s: u32|
                    #[trigger] ev(
                        fev,
                        ScalarRequest::Mul(
                            pre[x@[k as int].id as int].val,
                            pre[self.w@[k as int].id as int].val,
                        ),
                        s,
                    ) && g@ == pre.push(
                        op_node(s, seq![x@[k as int], self.w@[k as int]], Operation::Mul),
                    );
                assert(g@[p.id as int].val == sp);
                assert(g@[x@[k as int].id as int] == pre[x@[k as int].id as int]);
                assert(g@[self.w@[k as int].id as int] == pre[self.w@[k as int].id as int]);
            }
            let ghost pre2 = g@;
            let acc2 = acc.add(g, &p);
            proof {
                assert(pre2.is_prefix_of(g@));
                assert(old(g)@.is_prefix_of(g@));
                lemma_affine_chain_prefix(fev, pre2, g@, x@, self.w@, self.b, acc, k as int);
                let sa = choose|s: u32|
                    #[trigger] ev(
                        fev,
                        ScalarRequest::Add(pre2[acc.id as int].val, pre2[p.id as int].val),
                        s,
                    ) && g@ == pre2.push(op_node(s, seq![acc, p], Operation::Add));
                assert(g@[acc2.id as int].val == sa);
                assert(g@[acc.id as int] == pre2[acc.id as int]);
                assert(g@[p.id as int] == pre2[p.id as int]);
                assert(g@[acc2.id as int].children == seq![acc, p]);
                assert(g@[p.id as int].children == seq![x@[k as int], self.w@[k as int]]);
                assert(ev(
                    fev,
                    ScalarRequest::Mul(
                        g@[x@[k as int].id as int].val,
                        g@[self.w@[k as int].id as int].val,
                    ),
                    g@[p.id as int].val,
                ));
                assert(ev(
                    fev,
                    ScalarRequest::Add(g@[acc.id as int].val, g@[p.id as int].val),
                    g@[acc2.id as int].val,
                ));
                assert(affine_chain(fev, g@, x@, self.w@, self.b, acc2, k as int + 1));
            }
            acc = acc2;
            k += 1;
        }
        let ghost fev = old(g).eval;
        let ghost pre3 = g@;
        let out = acc.tanh(g);
        proof {
            assert(pre3.is_prefix_of(g@));
            assert(old(g)@.is_prefix_of(g@));
            lemma_affine_chain_prefix(fev, pre3, g@, x@, self.w@, self.b, acc, x@.len() as int);
            let t = choose|t: u32|
                #[trigger] tanh_requests(fev, pre3[acc.id as int].val, t) && g@ == pre3.push(
                    op_node(t, seq![acc], Operation::Tanh),
                );
            assert(g@[out.id as int].val == t);
            assert(g@[acc.id as int] == pre3[acc.id as int]);
            assert(g@[out.id as int].children == seq![acc]);
        }
        out
    }

    /// Read/write handles to the weight leaves, in order, then the bias.
    pub fn parameters(&self) -> (r: Vec<Value>)
        ensures
            r@ == neuron_params(*self),
    {
        let mut r: Vec<Value> = Vec::new();
        let mut k: usize = 0;
        while k < self.w.len()
            invariant
                k <= self.w@.len(),
                r@ == self.w@.take(k as int),
            decreases self.w@.len() - k,
        {
            r.push(self.w[k]);
            k += 1;
            proof {
                assert(self.w@.take(k as int) =~= self.w@.take(k as int - 1).push(self.w@[k
                    as int - 1]));
            }
        }
        proof {
            assert(self.w@.take(self.w@.len() as int) =~= self.w@);
        }
        r.push(self.b);
        r
    }
}

impl Layer {
    /// Every neuron is sound and takes `nin` inputs.
    pub open spec fn wf(&self, g: Seq<NodeView>, nin: int) -> bool {
        forall|j: int|
            0 <= j < self.neurons@.len() ==> (#[trigger] self.neurons@[j]).wf(g)
                && self.neurons@[j].nin == nin
    }

    /// Builds `nout` neurons of `nin` inputs each, drawing initial parameter
    /// values from `init[off..]`, neuron by neuron.
    pub fn new<F: Fn(ScalarRequest) -> u32>(
        g: &mut Graph<F>,
        nin: usize,
        nout: usize,
        init: &Vec<u32>,
        off: usize,
    ) -> (l: Layer)
        requires
            old(g).wf(),
            off + nout * (nin + 1) <= init@.len(),
        ensures
            final(g).wf(),
            final(g).eval == old(g).eval,
            old(g)@.is_prefix_of(final(g)@),
            final(g)@.len() == old(g)@.len() + nout * (nin + 1),
            l.neurons@.len() == nout,
            l.wf(final(g)@, nin as int),
            layer_fresh_init(
                final(g)@,
                init@,
                nin as int,
                old(g)@.len() as int,
                off as int,
                l.neurons@,
            ),
    {
        let ilen = init.len();
        let mut neurons: Vec<Neuron> = Vec::new();
        let mut j: usize = 0;
        let mut o: usize = off;
        while j < nout
            invariant
                g.wf(),
                g.eval == old(g).eval,
                j <= nout,
                neurons@.len() == j,
                o == off + j * (nin + 1),
                off + nout * (nin + 1) <= ilen,
                ilen == init@.len(),
                old(g)@.is_prefix_of(g@),
                g@.len() == old(g)@.len() + j * (nin + 1),
                forall|i: int|
                    0 <= i < j ==> (#[trigger] neurons@[i]).wf(g@) && neurons@[i].nin == nin,
                layer_fresh_init(
                    g@,
                    init@,
                    nin as int,
                    old(g)@.len() as int,
                    off as int,
                    neurons@,
                ),
            decreases nout - j,
        {
            proof {
                assert((j + 1) * (nin + 1) == j * (nin + 1) + (nin + 1)) by (nonlinear_arith);
                assert(j * (nin + 1) <= nout * (nin + 1)) by (nonlinear_arith)
                    requires
                        0 <= j < nout,
                ;
                assert((j + 1) * (nin + 1) <= nout * (nin + 1)) by (nonlinear_arith)
                    requires
                        0 <= j < nout,
                ;
                assert(o + nin + 1 <= ilen);
            }
            let ghost pre = g@;
            let ghost pre_neurons = neurons@;
            let n = Neuron::new(g, nin, init, o);
            neurons.push(n);
            o = o + nin + 1;
            j += 1;
            proof {
                assert(pre.is_prefix_of(g@));
                assert(g@.subrange(0, pre.len() as int) == pre);
                assert forall|i: int|
                    0 <= i < j implies (#[trigger] neurons@[i]).wf(g@) && neurons@[i].nin
                    == nin by {
                    if i < j - 1 {
                        assert(neurons@[i].wf(pre));
                    }
                }
                lemma_layer_fresh_init_prefix(
                    pre,
                    g@,
                    init@,
                    nin as int,
                    old(g)@.len() as int,
                    off as int,
                    pre_neurons,
                );
                assert forall|i: int|
                    0 <= i < j implies neuron_fresh_init(
                    g@,
                    init@,
                    nin as int,
                    old(g)@.len() + i * (nin + 1),
                    off + i * (nin + 1),
                    (#[trigger] neurons@[i]),
                ) by {
                    if i < j - 1 {
                        assert(neurons@[i] == pre_neurons[i]);
                    } else {
                        assert(neurons@[i] == n);
                        assert(pre.len() == old(g)@.len() + (j - 1) * (nin + 1));
                    }
                }
            }
        }
        Layer { neurons }
    }

    /// One forward pass of every neuron over the same inputs, outputs in
    /// neuron order.
    pub fn forward<F: Fn(ScalarRequest) -> u32>(&self, g: &mut Graph<F>, x: &Vec<Value>) -> (out:
        Vec<Value>)
        requires
            old(g).wf(),
            self.wf(old(g)@, x@.len() as int),
            forall|k: int| 0 <= k < x@.len() ==> (#[trigger] x@[k]).id < old(g)@.len(),
        ensures
            final(g).wf(),
            final(g).eval == old(g).eval,
            old(g)@.is_prefix_of(final(g)@),
            out@.len() == self.neurons@.len(),
            layer_applied(old(g).eval, final(g)@, self.neurons@, x@, out@),
    {
        let mut out: Vec<Value> = Vec::new();
        let mut j: usize = 0;
        while j < self.neurons.len()
            invariant
                g.wf(),
                g.eval == old(g).eval,
                self.wf(g@, x@.len() as int),
                forall|k: int| 0 <= k < x@.len() ==> (#[trigger] x@[k]).id < g@.len(),
                j <= self.neurons@.len(),
                out@.len() == j,
                old(g)@.is_prefix_of(g@),
                layer_applied(old(g).eval, g@, self.neurons@.take(j as int), x@, out@),
            decreases self.neurons@.len() - j,
        {
            let ghost fev = old(g).eval;
            let ghost pre = g@;
            let ghost pre_out = out@;
            let v = self.neurons[j].forward(g, x);
            out.push(v);
            j += 1;
            proof {
                assert(pre.is_prefix_of(g@));
                assert(g@.subrange(0, pre.len() as int) == pre);
                assert forall|i: int|
                    0 <= i < self.neurons@.len() implies (#[trigger] self.neurons@[i]).wf(g@)
                    && self.neurons@[i].nin == x@.len() by {
                    assert(self.neurons@[i].wf(pre));
                }
                lemma_layer_applied_prefix(
                    fev,
                    pre,
                    g@,
                    self.neurons@.take(j as int - 1),
                    x@,
                    pre_out,
                );
                let t = self.neurons@.take(j as int);
                assert(t.drop_last() =~= self.neurons@.take(j as int - 1));
                assert(t.last() == self.neurons@[j as int - 1]);
                assert forall|i: int|
                    0 <= i < out@.len() implies (#[trigger] out@[i]).id < g@.len() && g@[out@[
                    i
                ].id as int].op == Some(Operation::Tanh) && g@[out@[i].id
                    as int].children.len() == 1 && g@[out@[i].id as int].children[0].id
                    < g@.len() && affine_chain(
                    fev,
                    g@,
                    x@,
                    t[i].w@,
                    t[i].b,
                    g@[out@[i].id as int].children[0],
                    x@.len() as int,
                ) && tanh_requests(
                    fev,
                    g@[g@[out@[i].id as int].children[0].id as int].val,
                    g@[out@[i].id as int].val,
                ) by {
                    if i < j - 1 {
                        assert(out@[i] == pre_out[i]);
                        assert(t[i] == self.neurons@.take(j as int - 1)[i]);
                    } else {
                        assert(out@[i] == v);
                        assert(t[i] == self.neurons@[j as int - 1]);
                    }
                }
                assert(layer_applied(fev, g@, self.neurons@.take(j as int), x@, out@));
            }
        }
        proof {
            assert(self.neurons@.take(self.neurons@.len() as int) =~= self.neurons@);
        }
        out
    }

    /// Handles to every neuron's parameters, concatenated in neuron order.
    pub fn parameters(&self) -> (r: Vec<Value>)
        ensures
            r@ == layer_params(self.neurons@),
    {
        let mut r: Vec<Value> = Vec::new();
        let mut j: usize = 0;
        while j < self.neurons.len()
            invariant
                j <= self.neurons@.len(),
                r@ == layer_params(self.neurons@.take(j as int)),
            decreases self.neurons@.len() - j,
        {
            let mut p = self.neurons[j].parameters();
            r.append(&mut p);
            j += 1;
            proof {
                let t = self.neurons@.take(j as int);
                assert(t.drop_last() =~= self.neurons@.take(j as int - 1));
                assert(t.last() == self.neurons@[j as int - 1]);
            }
        }
        proof {
            assert(self.neurons@.take(self.neurons@.len() as int) =~= self.neurons@);
        }
        r
    }
}

/// How many scalar parameters a stack of layer widths needs: each layer of
/// `nout` neurons over `nin` inputs takes `nout * (nin + 1)` values.
pub open spec fn mlp_param_count(nin: int, nouts: Seq<usize>) -> int
    decreases nouts.len(),
{
    if nouts.len() == 0 {
        0
    } else {
        nouts[0] * (nin + 1) + mlp_param_count(nouts[0] as int, nouts.drop_first())
    }
}

/// A parameter count is never negative.
pub proof fn lemma_param_count_nonneg(nin: int, nouts: Seq<usize>)
    requires
        nin >= 0,
    ensures
        mlp_param_count(nin, nouts) >= 0,
    decreases nouts.len(),
{
    if nouts.len() > 0 {
        assert(nouts[0] * (nin + 1) >= 0) by (nonlinear_arith)
            requires
                nin >= 0,
                nouts[0] >= 0,
        ;
        lemma_param_count_nonneg(nouts[0] as int, nouts.drop_first());
    }
}

/// A whole stack applied to one input vector: some chain of intermediate
/// vectors starts at `xin`, ends at `xout`, and each adjacent pair is one
/// layer's application in order.
pub open spec fn mlp_threaded<F: Fn(ScalarRequest) -> u32>(
    f: F,
    g: Seq<NodeView>,
    layers: Seq<Layer>,
    xin: Seq<Value>,
    xout: Seq<Value>,
) -> bool {
    exists|stages: Seq<Seq<Value>>|
        #![trigger stages.len()]
        {
            &&& stages.len() == layers.len() + 1
            &&& stages[0] == xin
            &&& stages[layers.len() as int] == xout
            &&& forall|l: int|
                0 <= l < layers.len() ==> layer_applied(
                    f,
                    g,
                    (#[trigger] layers[l]).neurons@,
                    stages[l],
                    stages[l + 1],
                )
        }
}

/// The input width of a layer appended after the widths `nouts`: the given
/// `nin` for an empty stack, else the last width.
pub open spec fn width_last(nin: int, nouts: Seq<usize>) -> int {
    if nouts.len() == 0 {
        nin
    } else {
        nouts.last() as int
    }
}

/// Appending a width adds that layer's parameter count.
proof fn lemma_count_push(nin: int, nouts: Seq<usize>, w: usize)
    ensures
        mlp_param_count(nin, nouts.push(w)) == mlp_param_count(nin, nouts) + w * (width_last(
            nin,
            nouts,
        ) + 1),
    decreases nouts.len(),
{
    if nouts.len() == 0 {
        assert(nouts.push(w)[0] == w);
        assert(nouts.push(w).drop_first() =~= Seq::<usize>::empty());
        assert(mlp_param_count(w as int, Seq::<usize>::empty()) == 0);
        assert(mlp_param_count(nin, nouts.push(w)) == nouts.push(w)[0] * (nin + 1)
            + mlp_param_count(nouts.push(w)[0] as int, nouts.push(w).drop_first()));
    } else {
        assert(nouts.push(w)[0] == nouts[0]);
        assert(nouts.push(w).drop_first() =~= nouts.drop_first().push(w));
        if nouts.len() > 1 {
            assert(nouts.drop_first().last() == nouts.last());
        }
        assert(width_last(nouts[0] as int, nouts.drop_first()) == width_last(nin, nouts));
        lemma_count_push(nouts[0] as int, nouts.drop_first(), w);
        assert(mlp_param_count(nin, nouts) == nouts[0] * (nin + 1) + mlp_param_count(
            nouts[0] as int,
            nouts.drop_first(),
        ));
        assert(mlp_param_count(nin, nouts.push(w)) == nouts[0] * (nin + 1) + mlp_param_count(
            nouts[0] as int,
            nouts.drop_first().push(w),
        ));
    }
}

/// Every layer of the stack has its freshly initialised rows at the running
/// graph index and `init` offset, chaining widths `nin -> nouts[0] -> ...`.
pub open spec fn layers_fresh_init(
    g: Seq<NodeView>,
    init: Seq<u32>,
    nin: int,
    base: int,
    off: int,
    layers: Seq<Layer>,
    nouts: Seq<usize>,
) -> bool
    decreases layers.len(),
{
    &&& layers.len() == nouts.len()
    &&& (layers.len() > 0 ==> {
        &&& layers[0].neurons@.len() == nouts[0]
        &&& layer_fresh_init(g, init, nin, base, off, layers[0].neurons@)
        &&& layers_fresh_init(
            g,
            init,
            nouts[0] as int,
            base + nouts[0] * (nin + 1),
            off + nouts[0] * (nin + 1),
            layers.drop_first(),
            nouts.drop_first(),
        )
    })
}

/// A freshly initialised stack keeps its leaves in any graph extension.
proof fn lemma_layers_fresh_prefix(
    g1: Seq<NodeView>,
    g2: Seq<NodeView>,
    init: Seq<u32>,
    nin: int,
    base: int,
    off: int,
    layers: Seq<Layer>,
    nouts: Seq<usize>,
)
    requires
        layers_fresh_init(g1, init, nin, base, off, layers, nouts),
        g1.is_prefix_of(g2),
    ensures
        layers_fresh_init(g2, init, nin, base, off, layers, nouts),
    decreases layers.len(),
{
    if layers.len() > 0 {
        lemma_layer_fresh_init_prefix(g1, g2, init, nin, base, off, layers[0].neurons@);
        lemma_layers_fresh_prefix(
            g1,
            g2,
            init,
            nouts[0] as int,
            base + nouts[0] * (nin + 1),
            off + nouts[0] * (nin + 1),
            layers.drop_first(),
            nouts.drop_first(),
        );
    }
}

/// Appending a freshly initialised layer at the stack's running offsets
/// keeps the whole stack freshly initialised.
proof fn lemma_layers_fresh_push(
    g: Seq<NodeView>,
    init: Seq<u32>,
    nin: int,
    base: int,
    off: int,
    layers: Seq<Layer>,
    nouts: Seq<usize>,
    lay: Layer,
    w: usize,
)
    requires
        layers_fresh_init(g, init, nin, base, off, layers, nouts),
        lay.neurons@.len() == w,
        layer_fresh_init(
            g,
            init,
            width_last(nin, nouts),
            base + mlp_param_count(nin, nouts),
            off + mlp_param_count(nin, nouts),
            lay.neurons@,
        ),
    ensures
        layers_fresh_init(g, init, nin, base, off, layers.push(lay), nouts.push(w)),
    decreases layers.len(),
{
    if layers.len() == 0 {
        assert(layers.push(lay)[0] == lay);
        assert(nouts.push(w)[0] == w);
        assert(layers.push(lay).drop_first() =~= Seq::<Layer>::empty());
        assert(nouts.push(w).drop_first() =~= Seq::<usize>::empty());
        assert(mlp_param_count(nin, nouts) == 0);
        assert(layer_fresh_init(g, init, nin, base, off, lay.neurons@));
        assert(layers_fresh_init(
            g,
            init,
            w as int,
            base + w * (nin + 1),
            off + w * (nin + 1),
            layers.push(lay).drop_first(),
            nouts.push(w).drop_first(),
        ));
    } else {
        assert(layers.push(lay)[0] == layers[0]);
        assert(nouts.push(w)[0] == nouts[0]);
        assert(layers.push(lay).drop_first() =~= layers.drop_first().push(lay));
        assert(nouts.push(w).drop_first() =~= nouts.drop_first().push(w));
        if nouts.len() > 1 {
            assert(nouts.drop_first().last() == nouts.last());
        }
        assert(width_last(nouts[0] as int, nouts.drop_first()) == width_last(nin, nouts));
        assert(mlp_param_count(nin, nouts) == nouts[0] * (nin + 1) + mlp_param_count(
            nouts[0] as int,
            nouts.drop_first(),
        ));
        lemma_layers_fresh_push(
            g,
            init,
            nouts[0] as int,
            base + nouts[0] * (nin + 1),
            off + nouts[0] * (nin + 1),
            layers.drop_first(),
            nouts.drop_first(),
            lay,
            w,
        );
        assert(layers_fresh_init(
            g,
            init,
            nouts[0] as int,
            base + nouts[0] * (nin + 1),
            off + nouts[0] * (nin + 1),
            layers.push(lay).drop_first(),
            nouts.push(w).drop_first(),
        ));
    }
}

impl Mlp {
    /// Layers chain output-to-input starting from `nin` inputs.
    pub open spec fn wf_from(layers: Seq<Layer>, g: Seq<NodeView>, nin: int) -> bool
        decreases layers.len(),
    {
        layers.len() == 0 || (layers[0].wf(g, nin) && Self::wf_from(
            layers.drop_first(),
            g,
            layers[0].neurons@.len() as int,
        ))
    }

    /// How wide the final output is for an input of width `xlen`.
    pub open spec fn out_width(layers: Seq<Layer>, xlen: int) -> int
        decreases layers.len(),
    {
        if layers.len() == 0 {
            xlen
        } else {
            Self::out_width(layers.drop_first(), layers[0].neurons@.len() as int)
        }
    }

    /// Builds the stack of layers `nin -> nouts[0] -> nouts[1] -> ...`,
    /// drawing every parameter value in order from `init`.
    pub fn new<F: Fn(ScalarRequest) -> u32>(
        g: &mut Graph<F>,
        nin: usize,
        nouts: &Vec<usize>,
        init: &Vec<u32>,
    ) -> (m: Mlp)
        requires
            old(g).wf(),
            init@.len() == mlp_param_count(nin as int, nouts@),
        ensures
            final(g).wf(),
            final(g).eval == old(g).eval,
            old(g)@.is_prefix_of(final(g)@),
            m.layers@.len() == nouts@.len(),
            Mlp::wf_from(m.layers@, final(g)@, nin as int),
            forall|l: int|
                0 <= l < nouts@.len() ==> (#[trigger] m.layers@[l]).neurons@.len() == nouts@[l],
            layers_fresh_init(
                final(g)@,
                init@,
                nin as int,
                old(g)@.len() as int,
                0,
                m.layers@,
                nouts@,
            ),
    {
        let ilen = init.len();
        let base = g.nodes.len();
        proof {
            assert(nouts@.skip(0) =~= nouts@);
            assert(nouts@.take(0) =~= Seq::<usize>::empty());
            assert(mlp_param_count(nin as int, Seq::<usize>::empty()) == 0);
        }
        let mut layers: Vec<Layer> = Vec::new();
        let mut l: usize = 0;
        let mut prev: usize = nin;
        let mut o: usize = 0;
        while l < nouts.len()
            invariant
                g.wf(),
                g.eval == old(g).eval,
                ilen == init@.len(),
                l <= nouts@.len(),
                layers@.len() == l,
                prev == (if l == 0 {
                    nin as int
                } else {
                    nouts@[l - 1] as int
                }),
                o + mlp_param_count(prev as int, nouts@.skip(l as int)) == ilen,
                o == mlp_param_count(nin as int, nouts@.take(l as int)),
                prev == width_last(nin as int, nouts@.take(l as int)),
                base == old(g)@.len(),
                o == g@.len() - base,
                g@.len() >= base,
                old(g)@.is_prefix_of(g@),
                forall|i: int|
                    0 <= i < l ==> (#[trigger] layers@[i]).neurons@.len() == nouts@[i],
                Mlp::wf_from(layers@, g@, nin as int) || l == 0,
                l > 0 ==> Mlp::wf_from(layers@, g@, nin as int),
                layers_fresh_init(
                    g@,
                    init@,
                    nin as int,
                    base as int,
                    0,
                    layers@,
                    nouts@.take(l as int),
                ),
            decreases nouts@.len() - l,
        {
            proof {
                assert(nouts@.skip(l as int)[0] == nouts@[l as int]);
                assert(nouts@.skip(l as int).drop_first() =~= nouts@.skip(l as int + 1));
                lemma_param_count_nonneg(
                    nouts@[l as int] as int,
                    nouts@.skip(l as int + 1),
                );
                assert(mlp_param_count(prev as int, nouts@.skip(l as int)) == nouts@[l as int]
                    * (prev + 1) + mlp_param_count(
                    nouts@[l as int] as int,
                    nouts@.skip(l as int + 1),
                ));
                assert(o + nouts@[l as int] * (prev + 1) <= ilen);
            }
            let width = nouts[l];
            let ghost pre = g@;
            let ghost pre_layers = layers@;
            let ghost prev0 = prev as int;
            let ghost o0 = o as int;
            let ghost tk0 = nouts@.take(l as int);
            let layer = Layer::new(g, prev, width, init, o);
            layers.push(layer);
            o = g.nodes.len() - base;
            prev = width;
            l += 1;
            proof {
                assert(pre.is_prefix_of(g@));
                assert(g@.subrange(0, pre.len() as int) == pre);
                lemma_wf_from_prefix(pre_layers, pre, g@, nin as int);
                assert(layers@.drop_last() =~= pre_layers);
                assert(layers@.last() == layer);
                lemma_wf_from_push(layers@, g@, nin as int);
                let tk = nouts@.take(l as int);
                assert(tk =~= tk0.push(nouts@[l as int - 1]));
                lemma_layers_fresh_prefix(
                    pre,
                    g@,
                    init@,
                    nin as int,
                    base as int,
                    0,
                    pre_layers,
                    tk0,
                );
                assert(layer_fresh_init(
                    g@,
                    init@,
                    prev0,
                    pre.len() as int,
                    o0,
                    layer.neurons@,
                ));
                assert(pre.len() == base + mlp_param_count(nin as int, tk0));
                assert(layers@ =~= pre_layers.push(layer));
                lemma_layers_fresh_push(
                    g@,
                    init@,
                    nin as int,
                    base as int,
                    0,
                    pre_layers,
                    tk0,
                    layer,
                    width,
                );
                lemma_count_push(nin as int, tk0, width);
                assert(tk.last() == nouts@[l as int - 1]);
                assert(width_last(nin as int, tk) == width);
                assert(o == mlp_param_count(nin as int, tk));
            }
        }
        proof {
            if nouts@.len() == 0 {
                assert(Mlp::wf_from(layers@, g@, nin as int));
            }
            assert(nouts@.take(nouts@.len() as int) =~= nouts@);
        }
        Mlp { layers }
    }

    /// Threads the inputs through each layer in order; with no layers the
    /// inputs come back unchanged.
    pub fn forward<F: Fn(ScalarRequest) -> u32>(&self, g: &mut Graph<F>, x: &Vec<Value>) -> (out:
        Vec<Value>)
        requires
            old(g).wf(),
            Mlp::wf_from(self.layers@, old(g)@, x@.len() as int),
            forall|k: int| 0 <= k < x@.len() ==> (#[trigger] x@[k]).id < old(g)@.len(),
        ensures
            final(g).wf(),
            final(g).eval == old(g).eval,
            old(g)@.is_prefix_of(final(g)@),
            out@.len() == Mlp::out_width(self.layers@, x@.len() as int),
            forall|k: int| 0 <= k < out@.len() ==> (#[trigger] out@[k]).id < final(g)@.len(),
            self.layers@.len() == 0 ==> out@ == x@,
            mlp_threaded(old(g).eval, final(g)@, self.layers@, x@, out@),
    {
        let mut out: Vec<Value> = x.clone();
        let ghost mut stages: Seq<Seq<Value>> = seq![x@];
        proof {
            assert(out@ =~= x@);
            assert(self.layers@.skip(0) =~= self.layers@);
        }
        let mut l: usize = 0;
        while l < self.layers.len()
            invariant
                g.wf(),
                g.eval == old(g).eval,
                l <= self.layers@.len(),
                old(g)@.is_prefix_of(g@),
                Mlp::wf_from(self.layers@.skip(l as int), g@, out@.len() as int),
                Mlp::out_width(self.layers@.skip(l as int), out@.len() as int) == Mlp::out_width(
                    self.layers@,
                    x@.len() as int,
                ),
                forall|k: int| 0 <= k < out@.len() ==> (#[trigger] out@[k]).id < g@.len(),
                stages.len() == l + 1,
                stages[0] == x@,
                stages[l as int] == out@,
                self.layers@.len() == 0 ==> out@ == x@,
                forall|ll: int|
                    0 <= ll < l ==> layer_applied(
                        old(g).eval,
                        g@,
                        (#[trigger] self.layers@[ll]).neurons@,
                        stages[ll],
                        stages[ll + 1],
                    ),
            decreases self.layers@.len() - l,
        {
            proof {
                assert(self.layers@.skip(l as int)[0] == self.layers@[l as int]);
                assert(self.layers@.skip(l as int).drop_first() =~= self.layers@.skip(
                    l as int + 1,
                ));
            }
            let ghost fev = old(g).eval;
            let ghost pre = g@;
            let ghost pre_stages = stages;
            let next = self.layers[l].forward(g, &out);
            proof {
                assert(pre.is_prefix_of(g@));
                lemma_wf_from_prefix_any(
                    self.layers@.skip(l as int + 1),
                    pre,
                    g@,
                    self.layers@[l as int].neurons@.len() as int,
                );
                stages = stages.push(next@);
                assert(layer_applied(fev, g@, self.layers@[l as int].neurons@, out@, next@));
                assert forall|ll: int| 0 <= ll < l + 1 implies layer_applied(
                    fev,
                    g@,
                    (#[trigger] self.layers@[ll]).neurons@,
                    stages[ll],
                    stages[ll + 1],
                ) by {
                    if ll < l {
                        assert(stages[ll] == pre_stages[ll]);
                        assert(stages[ll + 1] == pre_stages[ll + 1]);
                        lemma_layer_applied_prefix(
                            fev,
                            pre,
                            g@,
                            self.layers@[ll].neurons@,
                            pre_stages[ll],
                            pre_stages[ll + 1],
                        );
                    } else {
                        assert(stages[ll] == out@);
                        assert(stages[ll + 1] == next@);
                    }
                }
            }
            out = next;
            l += 1;
        }
        proof {
            assert(self.layers@.skip(self.layers@.len() as int) =~= Seq::<Layer>::empty());
            assert(stages.len() == self.layers@.len() + 1);
            assert(stages[self.layers@.len() as int] == out@);
            assert(mlp_threaded(old(g).eval, g@, self.layers@, x@, out@));
        }
        out
    }

    /// Handles to every layer's parameters, concatenated in layer order —
    /// the same stable enumeration on every call, so an external optimizer
    /// can pair gradients with parameters.
    pub fn parameters(&self) -> (r: Vec<Value>)
        ensures
            r@ == mlp_params(self.layers@),
    {
        let mut r: Vec<Value> = Vec::new();
        let mut l: usize = 0;
        while l < self.layers.len()
            invariant
                l <= self.layers@.len(),
                r@ == mlp_params(self.layers@.take(l as int)),
            decreases self.layers@.len() - l,
        {
            let mut p = self.layers[l].parameters();
            r.append(&mut p);
            l += 1;
            proof {
                let t = self.layers@.take(l as int);
                assert(t.drop_last() =~= self.layers@.take(l as int - 1));
                assert(t.last() == self.layers@[l as int - 1]);
            }
        }
        proof {
            assert(self.layers@.take(self.layers@.len() as int) =~= self.layers@);
        }
        r
    }
}

/// Layer soundness only mentions node indices, so it survives graph growth.
proof fn lemma_wf_from_prefix(layers: Seq<Layer>, g1: Seq<NodeView>, g2: Seq<NodeView>, nin: int)
    requires
        Mlp::wf_from(layers, g1, nin),
        g1.is_prefix_of(g2),
    ensures
        Mlp::wf_from(layers, g2, nin),
    decreases layers.len(),
{
    lemma_wf_from_prefix_any(layers, g1, g2, nin);
}

/// As `lemma_wf_from_prefix`, usable at any starting width.
proof fn lemma_wf_from_prefix_any(
    layers: Seq<Layer>,
    g1: Seq<NodeView>,
    g2: Seq<NodeView>,
    nin: int,
)
    requires
        Mlp::wf_from(layers, g1, nin),
        g1.is_prefix_of(g2),
    ensures
        Mlp::wf_from(layers, g2, nin),
    decreases layers.len(),
{
    if layers.len() > 0 {
        assert forall|j: int|
            0 <= j < layers[0].neurons@.len() implies (#[trigger] layers[0].neurons@[j]).wf(g2)
            && layers[0].neurons@[j].nin == nin by {
            assert(layers[0].neurons@[j].wf(g1));
        }
        lemma_wf_from_prefix_any(
            layers.drop_first(),
            g1,
            g2,
            layers[0].neurons@.len() as int,
        );
    }
}

/// Appending a layer that fits the chain's tail keeps the chain sound.
proof fn lemma_wf_from_push(layers: Seq<Layer>, g: Seq<NodeView>, nin: int)
    requires
        layers.len() > 0,
        Mlp::wf_from(layers.drop_last(), g, nin),
        layers.last().wf(
            g,
            if layers.len() == 1 {
                nin
            } else {
                layers[layers.len() - 2].neurons@.len() as int
            },
        ),
    ensures
        Mlp::wf_from(layers, g, nin),
    decreases layers.len(),
{
    if layers.len() == 1 {
        assert(layers.drop_first() =~= Seq::<Layer>::empty());
        assert(layers[0] == layers.last());
        assert(Mlp::wf_from(layers.drop_first(), g, layers[0].neurons@.len() as int));
    } else {
        assert(layers.drop_last()[0] == layers[0]);
        assert(layers.drop_first().drop_last() =~= layers.drop_last().drop_first());
        assert(layers.drop_first().last() == layers.last());
        if layers.len() > 2 {
            assert(layers.drop_first()[layers.len() - 3] == layers[layers.len() - 2]);
        }
        lemma_wf_from_push(layers.drop_first(), g, layers[0].neurons@.len() as int);
    }
}

} // verus!
