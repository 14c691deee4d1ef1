//! The reverse pass: seed the root's gradient, then walk a topological order
//! backwards, letting each node add its local contributions onto its
//! operands' gradients — added, never overwritten, so a node reachable along
//! several paths accumulates one contribution per path.
use vstd::prelude::*;

use crate::graph::ev;
use crate::graph::with_grad;
use crate::graph::Graph;
use crate::graph::NodeView;
use crate::graph::Operation;
use crate::graph::ScalarRequest;
use crate::graph::Value;
use crate::graph::BITS_ONE;
use crate::graph::BITS_ZERO;
use crate::topo::build_topo;
use crate::topo::is_topo_order;
use crate::topo::reachable;

verus! {

/// `g2` is `g1` with node `c`'s gradient accumulated: the evaluator's sum of
/// the old gradient and `amount` replaces the old gradient, and nothing
/// else changes.
pub open spec fn grad_acc<F: Fn(ScalarRequest) -> u32>(
    f: F,
    g1: Seq<NodeView>,
    c: int,
    amount: u32,
    g2: Seq<NodeView>,
) -> bool {
    exists|s: u32|
        #[trigger] ev(f, ScalarRequest::Add(g1[c].grad, amount), s) && g2 == g1.update(
            c,
            with_grad(g1[c], s),
        )
}

/// The local backward rule of node `n`, relating the graph before (`g1`) and
/// after (`g2`) the rule runs. Each operand receives its contribution in
/// order, so an operand listed twice is accumulated twice. A `Pow` node
/// propagates onto its base only: the exponent leaf receives nothing.
pub open spec fn local_rel<F: Fn(ScalarRequest) -> u32>(
    f: F,
    g1: Seq<NodeView>,
    n: int,
    g2: Seq<NodeView>,
) -> bool {
    match g1[n].op {
        None => g2 == g1,
        Some(Operation::Add) => exists|ng: u32, mid: Seq<NodeView>|
            #![trigger grad_acc(f, g1, g1[n].children[0].id as int, ng, mid)]
            {
                &&& ev(f, ScalarRequest::Mul(BITS_ONE, g1[n].grad), ng)
                &&& grad_acc(f, g1, g1[n].children[0].id as int, ng, mid)
                &&& grad_acc(f, mid, g1[n].children[1].id as int, ng, g2)
            },
        Some(Operation::Mul) => exists|ng0: u32, mid: Seq<NodeView>, ng1: u32|
            #![trigger grad_acc(f, g1, g1[n].children[0].id as int, ng0, mid), grad_acc(f, mid, g1[n].children[1].id as int, ng1, g2)]
            {
                &&& ev(
                    f,
                    ScalarRequest::Mul(g1[g1[n].children[1].id as int].val, g1[n].grad),
                    ng0,
                )
                &&& grad_acc(f, g1, g1[n].children[0].id as int, ng0, mid)
                &&& ev(
                    f,
                    ScalarRequest::Mul(mid[g1[n].children[0].id as int].val, mid[n].grad),
                    ng1,
                )
                &&& grad_acc(f, mid, g1[n].children[1].id as int, ng1, g2)
            },
        Some(Operation::Tanh) => exists|p: u32, q: u32, ng: u32|
            #![trigger ev(f, ScalarRequest::Sub(BITS_ONE, p), q), ev(f, ScalarRequest::Mul(q, g1[n].grad), ng)]
            {
                &&& ev(f, ScalarRequest::Powi(g1[n].val, 2), p)
                &&& ev(f, ScalarRequest::Sub(BITS_ONE, p), q)
                &&& ev(f, ScalarRequest::Mul(q, g1[n].grad), ng)
                &&& grad_acc(f, g1, g1[n].children[0].id as int, ng, g2)
            },
        Some(Operation::Exp) => exists|ng: u32|
            #![trigger ev(f, ScalarRequest::Mul(g1[n].val, g1[n].grad), ng)]
            {
                &&& ev(f, ScalarRequest::Mul(g1[n].val, g1[n].grad), ng)
                &&& grad_acc(f, g1, g1[n].children[0].id as int, ng, g2)
            },
        Some(Operation::Pow) => exists|m: u32, p: u32, t: u32, ng: u32|
            #![trigger ev(f, ScalarRequest::Powf(g1[g1[n].children[0].id as int].val, m), p), ev(f, ScalarRequest::Mul(g1[g1[n].children[1].id as int].val, p), t), ev(f, ScalarRequest::Mul(t, g1[n].grad), ng)]
            {
                &&& ev(f, ScalarRequest::Sub(g1[g1[n].children[1].id as int].val, BITS_ONE), m)
                &&& ev(f, ScalarRequest::Powf(g1[g1[n].children[0].id as int].val, m), p)
                &&& ev(f, ScalarRequest::Mul(g1[g1[n].children[1].id as int].val, p), t)
                &&& ev(f, ScalarRequest::Mul(t, g1[n].grad), ng)
                &&& grad_acc(f, g1, g1[n].children[0].id as int, ng, g2)
            },
    }
}

/// A complete record of one backward pass: `ts` is a topological order of
/// the seeded graph, and `chain` walks it in reverse, one local rule per
/// step, from the seeded graph to the final one.
pub open spec fn backward_trace<F: Fn(ScalarRequest) -> u32>(
    f: F,
    seeded: Seq<NodeView>,
    root: int,
    ts: Seq<Value>,
    chain: Seq<Seq<NodeView>>,
    gfin: Seq<NodeView>,
) -> bool {
    &&& is_topo_order(seeded, root, ts)
    &&& chain.len() == ts.len() + 1
    &&& chain[0] == seeded
    &&& forall|i: int|
        0 <= i < ts.len() ==> local_rel(
            f,
            #[trigger] chain[i],
            ts[ts.len() - 1 - i].id as int,
            chain[i + 1],
        )
    &&& gfin == chain[chain.len() - 1]
}

impl Value {
    /// Runs this node's local backward rule once: each operand's gradient
    /// grows by the contribution from the table, everything else — values,
    /// edges, tags — stays as it was.
    pub fn backward_local<F: Fn(ScalarRequest) -> u32>(&self, g: &mut Graph<F>)
        requires
            old(g).wf(),
            self.id < old(g)@.len(),
        ensures
            final(g).wf(),
            final(g).eval == old(g).eval,
            final(g)@.len() == old(g)@.len(),
            local_rel(old(g).eval, old(g)@, self.id as int, final(g)@),
            forall|j: int|
                0 <= j < old(g)@.len() ==> ((#[trigger] final(g)@[j]).val == old(g)@[j].val
                    && final(g)@[j].children == old(g)@[j].children && final(g)@[j].op == old(
                    g,
                )@[j].op && final(g)@[j].label == old(g)@[j].label),
    {
        proof {
            assert(crate::graph::node_wf(old(g)@[self.id as int], self.id as int));
        }
        let op = g.nodes[self.id].op;
        match op {
            None => {},
            Some(Operation::Add) => {
                let grad = g.nodes[self.id].grad;
                let ng = (g.eval)(ScalarRequest::Mul(BITS_ONE, grad));
                proof {
                    assert(grad == old(g)@[self.id as int].grad);
                    assert(ev(old(g).eval, ScalarRequest::Mul(BITS_ONE, grad), ng));
                }
                let c0 = g.nodes[self.id].children[0];
                let c1 = g.nodes[self.id].children[1];
                c0.update_grad(g, ng);
                let ghost mid = g@;
                c1.update_grad(g, ng);
                proof {
                    assert(grad_acc(old(g).eval, old(g)@, c0.id as int, ng, mid));
                    assert(grad_acc(old(g).eval, mid, c1.id as int, ng, g@));
                    assert(local_rel(old(g).eval, old(g)@, self.id as int, g@));
                }
            },
            Some(Operation::Mul) => {
                let grad = g.nodes[self.id].grad;
                let c0 = g.nodes[self.id].children[0];
                let c1 = g.nodes[self.id].children[1];
                let v1 = g.nodes[c1.id].val;
                let ng0 = (g.eval)(ScalarRequest::Mul(v1, grad));
                proof {
                    assert(grad == old(g)@[self.id as int].grad);
                    assert(c1 == old(g)@[self.id as int].children[1]);
                    assert(v1 == old(g)@[c1.id as int].val);
                    assert(ev(old(g).eval, ScalarRequest::Mul(v1, grad), ng0));
                }
                c0.update_grad(g, ng0);
                let ghost mid = g@;
                let v0 = g.nodes[c0.id].val;
                let grad2 = g.nodes[self.id].grad;
                let ng1 = (g.eval)(ScalarRequest::Mul(v0, grad2));
                proof {
                    assert(v0 == mid[c0.id as int].val);
                    assert(grad2 == mid[self.id as int].grad);
                    assert(ev(old(g).eval, ScalarRequest::Mul(v0, grad2), ng1));
                }
                c1.update_grad(g, ng1);
                proof {
                    assert(grad_acc(old(g).eval, old(g)@, c0.id as int, ng0, mid));
                    assert(grad_acc(old(g).eval, mid, c1.id as int, ng1, g@));
                    assert(local_rel(old(g).eval, old(g)@, self.id as int, g@));
                }
            },
            Some(Operation::Tanh) => {
                let val = g.nodes[self.id].val;
                let grad = g.nodes[self.id].grad;
                proof {
                    assert(val == old(g)@[self.id as int].val);
                    assert(grad == old(g)@[self.id as int].grad);
                }
                let p = (g.eval)(ScalarRequest::Powi(val, 2));
                let q = (g.eval)(ScalarRequest::Sub(BITS_ONE, p));
                let ng = (g.eval)(ScalarRequest::Mul(q, grad));
                proof {
                    assert(ev(old(g).eval, ScalarRequest::Powi(val, 2), p));
                    assert(ev(old(g).eval, ScalarRequest::Sub(BITS_ONE, p), q));
                    assert(ev(old(g).eval, ScalarRequest::Mul(q, grad), ng));
                }
                let c0 = g.nodes[self.id].children[0];
                c0.update_grad(g, ng);
                proof {
                    assert(grad_acc(old(g).eval, old(g)@, c0.id as int, ng, g@));
                    assert(local_rel(old(g).eval, old(g)@, self.id as int, g@));
                }
            },
            Some(Operation::Exp) => {
                let val = g.nodes[self.id].val;
                let grad = g.nodes[self.id].grad;
                let ng = (g.eval)(ScalarRequest::Mul(val, grad));
                proof {
                    assert(val == old(g)@[self.id as int].val);
                    assert(grad == old(g)@[self.id as int].grad);
                    assert(ev(old(g).eval, ScalarRequest::Mul(val, grad), ng));
                }
                let c0 = g.nodes[self.id].children[0];
                c0.update_grad(g, ng);
                proof {
                    assert(grad_acc(old(g).eval, old(g)@, c0.id as int, ng, g@));
                    assert(local_rel(old(g).eval, old(g)@, self.id as int, g@));
                }
            },
            Some(Operation::Pow) => {
                let grad = g.nodes[self.id].grad;
                let c0 = g.nodes[self.id].children[0];
                let c1 = g.nodes[self.id].children[1];
                let v0 = g.nodes[c0.id].val;
                let v1 = g.nodes[c1.id].val;
                proof {
                    assert(grad == old(g)@[self.id as int].grad);
                    assert(c0 == old(g)@[self.id as int].children[0]);
                    assert(c1 == old(g)@[self.id as int].children[1]);
                    assert(v0 == old(g)@[c0.id as int].val);
                    assert(v1 == old(g)@[c1.id as int].val);
                }
                let m = (g.eval)(ScalarRequest::Sub(v1, BITS_ONE));
                let p = (g.eval)(ScalarRequest::Powf(v0, m));
                let t = (g.eval)(ScalarRequest::Mul(v1, p));
                let ng = (g.eval)(ScalarRequest::Mul(t, grad));
                proof {
                    assert(ev(old(g).eval, ScalarRequest::Sub(v1, BITS_ONE), m));
                    assert(ev(old(g).eval, ScalarRequest::Powf(v0, m), p));
                    assert(ev(old(g).eval, ScalarRequest::Mul(v1, p), t));
                    assert(ev(old(g).eval, ScalarRequest::Mul(t, grad), ng));
                }
                c0.update_grad(g, ng);
                proof {
                    assert(grad_acc(old(g).eval, old(g)@, c0.id as int, ng, g@));
                    assert(local_rel(old(g).eval, old(g)@, self.id as int, g@));
                }
            },
        }
    }

    /// The reverse-pass driver: sets this node's gradient to 1.0, computes
    /// the topological order `visit` of everything reachable from it, and
    /// runs each node's local rule once, in reverse of that order — so a
    /// parent's gradient is complete before it is pushed onto its operands.
    /// Gradients are not reset first: resetting between passes is the
    /// caller's duty.
    pub fn backward<F: Fn(ScalarRequest) -> u32>(&self, g: &mut Graph<F>)
        requires
            old(g).wf(),
            self.id < old(g)@.len(),
        ensures
            final(g).wf(),
            final(g).eval == old(g).eval,
            final(g)@.len() == old(g)@.len(),
            forall|j: int|
                0 <= j < old(g)@.len() ==> ((#[trigger] final(g)@[j]).val == old(g)@[j].val
                    && final(g)@[j].children == old(g)@[j].children && final(g)@[j].op == old(
                    g,
                )@[j].op && final(g)@[j].label == old(g)@[j].label),
            exists|chain: Seq<Seq<NodeView>>|
                #[trigger] backward_trace(
                    old(g).eval,
                    old(g)@.update(
                        self.id as int,
                        with_grad(old(g)@[self.id as int], BITS_ONE),
                    ),
                    self.id as int,
                    crate::topo::visit(
                        old(g)@.update(
                            self.id as int,
                            with_grad(old(g)@[self.id as int], BITS_ONE),
                        ),
                        self.id as int,
                        Seq::<Value>::empty(),
                    ),
                    chain,
                    final(g)@,
                ),
    {
        self.set_grad(g, BITS_ONE);
        let ghost seeded = g@;
        let topo = build_topo(g, self);
        let ghost ts = topo@;
        let ghost mut chain: Seq<Seq<NodeView>> = seq![g@];
        let mut i: usize = topo.len();
        while i > 0
            invariant
                g.wf(),
                g.eval == old(g).eval,
                self.id < seeded.len(),
                i <= ts.len(),
                topo@ == ts,
                is_topo_order(seeded, self.id as int, ts),
                chain.len() == (ts.len() - i) + 1,
                chain[0] == seeded,
                g@ == chain[chain.len() - 1],
                g@.len() == seeded.len(),
                forall|j: int|
                    0 <= j < seeded.len() ==> ((#[trigger] g@[j]).val == seeded[j].val
                        && g@[j].children == seeded[j].children && g@[j].op == seeded[j].op
                        && g@[j].label == seeded[j].label),
                forall|j: int|
                    0 <= j < ts.len() - i ==> local_rel(
                        old(g).eval,
                        #[trigger] chain[j],
                        ts[ts.len() - 1 - j].id as int,
                        chain[j + 1],
                    ),
            decreases i,
        {
            i -= 1;
            let v = topo[i];
            proof {
                assert(ts[i as int].id < seeded.len());
            }
            let ghost pre = g@;
            v.backward_local(g);
            proof {
                let j = ts.len() - i - 1;
                chain = chain.push(g@);
                assert(chain[j + 1] == g@);
                assert(chain[j] == pre);
                assert(ts[ts.len() - 1 - j] == ts[i as int]);
                assert(local_rel(old(g).eval, chain[j], ts[ts.len() - 1 - j].id as int, chain[
                    j + 1
                ]));
            }
        }
        proof {
            assert(chain[chain.len() - 1] == g@);
            assert(ts == crate::topo::visit(seeded, self.id as int, Seq::<Value>::empty()));
            assert(backward_trace(
                old(g).eval,
                seeded,
                self.id as int,
                ts,
                chain,
                g@,
            ));
            assert(seeded == old(g)@.update(
                self.id as int,
                with_grad(old(g)@[self.id as int], BITS_ONE),
            ));
        }
    }
}

/// The reachable cone of a two-operand node over childless operands is the
/// node and its operands, nothing more.
proof fn lemma_cone_pair(g: Seq<NodeView>, a: Value, b: Value, r: Value)
    requires
        a.id < r.id,
        b.id < r.id,
        r.id < g.len(),
        g[a.id as int].children.len() == 0,
        g[b.id as int].children.len() == 0,
        g[r.id as int].children == seq![a, b],
    ensures
        reachable(g, r.id as int, a.id as int),
        reachable(g, r.id as int, b.id as int),
        reachable(g, r.id as int, r.id as int),
        forall|x: int|
            #[trigger] reachable(g, r.id as int, x) ==> x == r.id || x == a.id || x == b.id,
{
    let ai = a.id as int;
    let bi = b.id as int;
    let ri = r.id as int;
    assert(reachable(g, ai, ai));
    assert(reachable(g, bi, bi));
    assert(g[ri].children[0] == a);
    assert(g[ri].children[1] == b);
    assert(reachable(g, ri, ai));
    assert(reachable(g, ri, bi));
    assert forall|x: int| #[trigger] reachable(g, ri, x) implies x == ri || x == ai || x
        == bi by {
        if x != ri {
            let k = choose|k: int|
                0 <= k < g[ri].children.len() && g[ri].children[k].id < ri && reachable(
                    g,
                    g[ri].children[k].id as int,
                    x,
                );
            let c = g[ri].children[k];
            assert(c == a || c == b);
            if x != ai && x != bi {
                let k2 = choose|k2: int|
                    0 <= k2 < g[c.id as int].children.len() && g[c.id as int].children[k2].id
                        < c.id && reachable(g, g[c.id as int].children[k2].id as int, x);
                assert(false);
            }
        }
    }
}

/// With a cone of exactly the root and its operands, a topological order
/// lists the operands first, in some order, and the root last.
proof fn lemma_order_pair(g: Seq<NodeView>, a: Value, b: Value, r: Value, ts: Seq<Value>)
    requires
        is_topo_order(g, r.id as int, ts),
        a.id < r.id,
        b.id < r.id,
        r.id < g.len(),
        reachable(g, r.id as int, a.id as int),
        reachable(g, r.id as int, b.id as int),
        forall|x: int|
            #[trigger] reachable(g, r.id as int, x) ==> x == r.id || x == a.id || x == b.id,
    ensures
        a.id != b.id ==> ts.len() == 3 && ts[2] == r && (ts[0] == a || ts[0] == b) && (ts[1] == a
            || ts[1] == b),
        a.id == b.id ==> ts.len() == 2 && ts[1] == r && ts[0] == a,
{
    let ai = a.id as int;
    let bi = b.id as int;
    let ri = r.id as int;
    assert(crate::topo::occurs(ts, ai, ts.len() as int));
    assert(crate::topo::occurs(ts, bi, ts.len() as int));
    assert(crate::topo::occurs(ts, ri, ts.len() as int));
    let ia = choose|i: int| 0 <= i < ts.len() && (#[trigger] ts[i]).id == a.id;
    let ir = choose|i: int| 0 <= i < ts.len() && (#[trigger] ts[i]).id == r.id;
    if a.id == b.id {
        assert(ts.len() <= 2) by {
            if ts.len() > 2 {
                assert(reachable(g, ri, ts[0].id as int));
                assert(reachable(g, ri, ts[1].id as int));
                assert(reachable(g, ri, ts[2].id as int));
            }
        }
        assert(ia != ir);
        assert(ts.len() == 2);
        assert(ts[1].id == r.id);
        assert(ts[0].id == a.id);
    } else {
        let ib = choose|i: int| 0 <= i < ts.len() && (#[trigger] ts[i]).id == b.id;
        assert(ia != ib && ia != ir && ib != ir);
        assert(ts.len() <= 3) by {
            if ts.len() > 3 {
                assert(reachable(g, ri, ts[0].id as int));
                assert(reachable(g, ri, ts[1].id as int));
                assert(reachable(g, ri, ts[2].id as int));
                assert(reachable(g, ri, ts[3].id as int));
            }
        }
        assert(ts.len() == 3);
        assert(ts[2].id == r.id);
        assert(ts[0].id == a.id || ts[0].id == b.id);
        assert(ts[1].id == a.id || ts[1].id == b.id);
    }
}

/// Aliasing/diamond accumulation law: when one leaf is both operands of an
/// addition, a backward pass from the addition node pushes the seed
/// contribution onto that leaf twice, once per edge — its final gradient is
/// the second of two successive accumulations of `1.0 * 1.0` starting from
/// `0.0`, whatever the leaf's value is. (With an evaluator that computes
/// IEEE 754 arithmetic, that gradient encodes 2.0.)
pub proof fn lemma_diamond_accumulation<F: Fn(ScalarRequest) -> u32>(
    f: F,
    g0: Seq<NodeView>,
    a: Value,
    r: Value,
    ts: Seq<Value>,
    chain: Seq<Seq<NodeView>>,
    gfin: Seq<NodeView>,
)
    requires
        a.id < r.id,
        r.id < g0.len(),
        g0[a.id as int].op == None::<Operation>,
        g0[a.id as int].children.len() == 0,
        g0[a.id as int].grad == BITS_ZERO,
        g0[r.id as int].op == Some(Operation::Add),
        g0[r.id as int].children == seq![a, a],
        backward_trace(
            f,
            g0.update(r.id as int, with_grad(g0[r.id as int], BITS_ONE)),
            r.id as int,
            ts,
            chain,
            gfin,
        ),
    ensures
        exists|ng: u32, s0: u32, s1: u32|
            ev(f, ScalarRequest::Mul(BITS_ONE, BITS_ONE), ng) && ev(
                f,
                ScalarRequest::Add(BITS_ZERO, ng),
                s0,
            ) && #[trigger] ev(f, ScalarRequest::Add(s0, ng), s1) && gfin[a.id as int].grad == s1,
        gfin[r.id as int].grad == BITS_ONE,
{
    let ai = a.id as int;
    let ri = r.id as int;
    let seeded = g0.update(ri, with_grad(g0[ri], BITS_ONE));
    assert(seeded[ai] == g0[ai]);
    assert(seeded[ri].children == seq![a, a]);
    assert(seeded[ri].grad == BITS_ONE);
    lemma_cone_pair(seeded, a, a, r);
    lemma_order_pair(seeded, a, a, r, ts);
    // step one: the addition node accumulates onto `a` twice
    assert(chain.len() == 3);
    assert(local_rel(f, chain[0], ri, chain[1]));
    assert(chain[0] == seeded);
    let (ng, mid) = choose|ng: u32, mid: Seq<NodeView>|
        {
            &&& ev(f, ScalarRequest::Mul(BITS_ONE, seeded[ri].grad), ng)
            &&& grad_acc(f, seeded, seeded[ri].children[0].id as int, ng, mid)
            &&& grad_acc(f, mid, seeded[ri].children[1].id as int, ng, chain[1])
        };
    assert(ev(f, ScalarRequest::Mul(BITS_ONE, BITS_ONE), ng));
    let s0 = choose|s: u32|
        #[trigger] ev(f, ScalarRequest::Add(seeded[ai].grad, ng), s) && mid == seeded.update(
            ai,
            with_grad(seeded[ai], s),
        );
    assert(ev(f, ScalarRequest::Add(BITS_ZERO, ng), s0));
    assert(mid[ai].grad == s0);
    let s1 = choose|s: u32|
        #[trigger] ev(f, ScalarRequest::Add(mid[ai].grad, ng), s) && chain[1] == mid.update(
            ai,
            with_grad(mid[ai], s),
        );
    assert(ev(f, ScalarRequest::Add(s0, ng), s1));
    assert(chain[1][ai].grad == s1);
    assert(chain[1][ri] == seeded[ri]);
    // step two: the leaf itself is a no-op
    assert(local_rel(f, chain[1], ai, chain[2]));
    assert(chain[1][ai].op == None::<Operation>);
    assert(chain[2] == chain[1]);
    assert(gfin == chain[2]);
    assert(gfin[ai].grad == s1);
    assert(gfin[ri].grad == BITS_ONE);
}

/// Product-gradient law: after one backward pass from `a * b` over fresh
/// leaves, each factor's gradient is a single accumulation, from zero, of
/// the peer factor's value times the seed — the engine-level statement of
/// `d/da(a*b) = b.value` and `d/db(a*b) = a.value`. (With an evaluator that
/// computes IEEE 754 arithmetic and values that multiplication by 1.0 and
/// addition to 0.0 leave unchanged, the gradients are exactly the peer
/// values.)
pub proof fn lemma_product_gradients<F: Fn(ScalarRequest) -> u32>(
    f: F,
    g0: Seq<NodeView>,
    a: Value,
    b: Value,
    r: Value,
    ts: Seq<Value>,
    chain: Seq<Seq<NodeView>>,
    gfin: Seq<NodeView>,
)
    requires
        a.id < r.id,
        b.id < r.id,
        a.id != b.id,
        r.id < g0.len(),
        g0[a.id as int].op == None::<Operation>,
        g0[a.id as int].children.len() == 0,
        g0[a.id as int].grad == BITS_ZERO,
        g0[b.id as int].op == None::<Operation>,
        g0[b.id as int].children.len() == 0,
        g0[b.id as int].grad == BITS_ZERO,
        g0[r.id as int].op == Some(Operation::Mul),
        g0[r.id as int].children == seq![a, b],
        backward_trace(
            f,
            g0.update(r.id as int, with_grad(g0[r.id as int], BITS_ONE)),
            r.id as int,
            ts,
            chain,
            gfin,
        ),
    ensures
        exists|ng0: u32, s0: u32|
            ev(f, ScalarRequest::Mul(g0[b.id as int].val, BITS_ONE), ng0) && #[trigger] ev(
                f,
                ScalarRequest::Add(BITS_ZERO, ng0),
                s0,
            ) && gfin[a.id as int].grad == s0,
        exists|ng1: u32, s1: u32|
            ev(f, ScalarRequest::Mul(g0[a.id as int].val, BITS_ONE), ng1) && #[trigger] ev(
                f,
                ScalarRequest::Add(BITS_ZERO, ng1),
                s1,
            ) && gfin[b.id as int].grad == s1,
        gfin[r.id as int].grad == BITS_ONE,
{
    let ai = a.id as int;
    let bi = b.id as int;
    let ri = r.id as int;
    let seeded = g0.update(ri, with_grad(g0[ri], BITS_ONE));
    assert(seeded[ai] == g0[ai]);
    assert(seeded[bi] == g0[bi]);
    assert(seeded[ri].children == seq![a, b]);
    assert(seeded[ri].grad == BITS_ONE);
    lemma_cone_pair(seeded, a, b, r);
    lemma_order_pair(seeded, a, b, r, ts);
    // step one: the product node accumulates onto both factors
    assert(chain.len() == 4);
    assert(local_rel(f, chain[0], ri, chain[1]));
    assert(chain[0] == seeded);
    let (ng0, mid, ng1) = choose|ng0: u32, mid: Seq<NodeView>, ng1: u32|
        {
            &&& ev(
                f,
                ScalarRequest::Mul(seeded[seeded[ri].children[1].id as int].val, seeded[ri].grad),
                ng0,
            )
            &&& grad_acc(f, seeded, seeded[ri].children[0].id as int, ng0, mid)
            &&& ev(
                f,
                ScalarRequest::Mul(mid[seeded[ri].children[0].id as int].val, mid[ri].grad),
                ng1,
            )
            &&& grad_acc(f, mid, seeded[ri].children[1].id as int, ng1, chain[1])
        };
    assert(ev(f, ScalarRequest::Mul(g0[bi].val, BITS_ONE), ng0));
    let s0 = choose|s: u32|
        #[trigger] ev(f, ScalarRequest::Add(seeded[ai].grad, ng0), s) && mid == seeded.update(
            ai,
            with_grad(seeded[ai], s),
        );
    assert(ev(f, ScalarRequest::Add(BITS_ZERO, ng0), s0));
    assert(mid[ai].val == g0[ai].val && mid[ri].grad == BITS_ONE);
    assert(ev(f, ScalarRequest::Mul(g0[ai].val, BITS_ONE), ng1));
    let s1 = choose|s: u32|
        #[trigger] ev(f, ScalarRequest::Add(mid[bi].grad, ng1), s) && chain[1] == mid.update(
            bi,
            with_grad(mid[bi], s),
        );
    assert(ev(f, ScalarRequest::Add(BITS_ZERO, ng1), s1));
    assert(chain[1][ai].grad == s0);
    assert(chain[1][bi].grad == s1);
    assert(chain[1][ri] == seeded[ri]);
    // steps two and three: the leaves are no-ops, in either order
    assert(local_rel(f, chain[1], ts[1].id as int, chain[2]));
    assert(chain[1][ts[1].id as int].op == None::<Operation>);
    assert(chain[2] == chain[1]);
    assert(local_rel(f, chain[2], ts[0].id as int, chain[3]));
    assert(chain[2][ts[0].id as int].op == None::<Operation>);
    assert(chain[3] == chain[2]);
    assert(gfin == chain[3]);
    assert(gfin[ai].grad == s0);
    assert(gfin[bi].grad == s1);
    assert(gfin[ri].grad == BITS_ONE);
}

} // verus!
