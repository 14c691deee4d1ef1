//! Topological ordering of the nodes reachable from a chosen root.
//!
//! Because every operand of a node is created before the node itself, operand
//! indices strictly decrease along edges, so the graph is acyclic by
//! construction and reachability can recurse on the index.
use vstd::prelude::*;

use crate::graph::node_wf;
use crate::graph::Graph;
use crate::graph::NodeView;
use crate::graph::ScalarRequest;
use crate::graph::Value;

verus! {

/// Node `to` is reachable from node `from` along operand edges (every node
/// reaches itself). Recursion is well founded because operand indices
/// strictly decrease along the edges that are followed.
pub open spec fn reachable(g: Seq<NodeView>, from: int, to: int) -> bool
    decreases from,
{
    0 <= from < g.len() && (from == to || exists|k: int|
        0 <= k < g[from].children.len() && g[from].children[k].id < from && reachable(
            g,
            g[from].children[k].id as int,
            to,
        ))
}

/// Along operand edges indices never grow, so anything reachable from `from`
/// has an index at most `from`.
pub proof fn lemma_reachable_le(g: Seq<NodeView>, from: int, to: int)
    requires
        reachable(g, from, to),
    ensures
        0 <= to <= from,
        to < g.len(),
    decreases from,
{
    if from != to {
        let k = choose|k: int|
            0 <= k < g[from].children.len() && g[from].children[k].id < from && reachable(
                g,
                g[from].children[k].id as int,
                to,
            );
        lemma_reachable_le(g, g[from].children[k].id as int, to);
    }
}

/// Some entry of `ts` strictly before position `lim` is the node index `id2`.
pub open spec fn occurs(ts: Seq<Value>, id2: int, lim: int) -> bool {
    exists|i: int| 0 <= i < lim && i < ts.len() && (#[trigger] ts[i]).id == id2
}

/// The order the walker emits, as a function of the graph alone: visiting
/// `n` emits nothing if `n` is already listed, and otherwise emits `n` right
/// after visiting its operands left to right. Together with `build_topo`'s
/// contract this pins the traversal completely: it is deterministic, driven
/// by operand order and node identity, and never reads values or gradients.
pub open spec fn visit(g: Seq<NodeView>, n: int, acc: Seq<Value>) -> Seq<Value>
    decreases n, 1int, 0int,
{
    if occurs(acc, n, acc.len() as int) {
        acc
    } else {
        visit_kids(g, n, 0, acc).push(Value { id: n as usize })
    }
}

/// Visits `n`'s operands from position `k` on, threading the emitted order.
pub open spec fn visit_kids(g: Seq<NodeView>, n: int, k: int, acc: Seq<Value>) -> Seq<Value>
    decreases n, 0int, g[n].children.len() - k,
{
    if 0 <= n < g.len() && 0 <= k < g[n].children.len() {
        if g[n].children[k].id < n {
            visit_kids(g, n, k + 1, visit(g, g[n].children[k].id as int, acc))
        } else {
            visit_kids(g, n, k + 1, acc)
        }
    } else {
        acc
    }
}

/// What it means for `ts` to be a valid topological order of the part of `g`
/// reachable from `root`: only reachable nodes occur, each node occurs at
/// most once, every operand of a listed node occurs strictly earlier, every
/// reachable node occurs, and the root comes last.
pub open spec fn is_topo_order(g: Seq<NodeView>, root: int, ts: Seq<Value>) -> bool {
    &&& forall|i: int|
        0 <= i < ts.len() ==> (#[trigger] ts[i]).id < g.len() && reachable(
            g,
            root,
            ts[i].id as int,
        )
    &&& forall|i: int, j: int| 0 <= i < j < ts.len() ==> ts[i].id != ts[j].id
    &&& forall|i: int, k: int|
        #![trigger g[ts[i].id as int].children[k]]
        0 <= i < ts.len() && 0 <= k < g[ts[i].id as int].children.len() ==> occurs(
            ts,
            g[ts[i].id as int].children[k].id as int,
            i,
        )
    &&& forall|n: int|
        0 <= n < g.len() && reachable(g, root, n) ==> occurs(ts, n, ts.len() as int)
    &&& ts.len() > 0
    &&& ts[ts.len() - 1].id == root
}

/// The walker's bookkeeping: `seen` marks exactly the node indices listed in
/// `ts`, no node is listed twice, and every operand of a listed node is
/// listed strictly earlier.
pub open spec fn visit_inv(g: Seq<NodeView>, seen: Seq<bool>, ts: Seq<Value>) -> bool {
    &&& seen.len() == g.len()
    &&& forall|i: int|
        0 <= i < ts.len() ==> (#[trigger] ts[i]).id < g.len() && seen[ts[i].id as int]
    &&& forall|j: int| 0 <= j < seen.len() && #[trigger] seen[j] ==> occurs(ts, j, ts.len() as int)
    &&& forall|i: int, j: int| 0 <= i < j < ts.len() ==> ts[i].id != ts[j].id
    &&& forall|i: int, k: int|
        #![trigger g[ts[i].id as int].children[k]]
        0 <= i < ts.len() && 0 <= k < g[ts[i].id as int].children.len() ==> occurs(
            ts,
            g[ts[i].id as int].children[k].id as int,
            i,
        )
}

/// A marked node's whole reachable cone is already marked: `seen` is closed
/// under operand edges because listed nodes list their operands earlier.
proof fn lemma_seen_closed(g: Seq<NodeView>, seen: Seq<bool>, ts: Seq<Value>, n: int, i: int)
    requires
        visit_inv(g, seen, ts),
        0 <= n < g.len(),
        seen[n],
        reachable(g, n, i),
    ensures
        0 <= i < g.len(),
        seen[i],
    decreases n,
{
    lemma_reachable_le(g, n, i);
    if n != i {
        let k = choose|k: int|
            0 <= k < g[n].children.len() && g[n].children[k].id < n && reachable(
                g,
                g[n].children[k].id as int,
                i,
            );
        let c = g[n].children[k].id as int;
        assert(occurs(ts, n, ts.len() as int));
        let a = choose|a: int| 0 <= a < ts.len() && (#[trigger] ts[a]).id == n;
        assert(g[ts[a].id as int].children[k] == g[n].children[k]);
        assert(occurs(ts, c, a));
        let j = choose|j: int| 0 <= j < a && j < ts.len() && (#[trigger] ts[j]).id == c;
        assert(seen[c]);
        lemma_seen_closed(g, seen, ts, c, i);
    }
}

/// Appending an unmarked node whose operands are all marked preserves the
/// walker's bookkeeping.
proof fn lemma_push_node(
    g: Seq<NodeView>,
    pre_seen: Seq<bool>,
    pre_ts: Seq<Value>,
    n: int,
    seen2: Seq<bool>,
    ts2: Seq<Value>,
)
    requires
        visit_inv(g, pre_seen, pre_ts),
        0 <= n < g.len(),
        n <= usize::MAX,
        !pre_seen[n],
        forall|kk: int|
            0 <= kk < g[n].children.len() ==> (#[trigger] g[n].children[kk]).id < g.len()
                && pre_seen[g[n].children[kk].id as int],
        seen2 == pre_seen.update(n, true),
        ts2 == pre_ts.push(Value { id: n as usize }),
    ensures
        visit_inv(g, seen2, ts2),
{
    let newlen = pre_ts.len() as int;
    let v = Value { id: n as usize };
    assert(ts2[newlen] == v);
    assert(forall|i: int| 0 <= i < newlen ==> ts2[i] == pre_ts[i]);
    assert forall|i: int|
        0 <= i < ts2.len() implies (#[trigger] ts2[i]).id < g.len() && seen2[ts2[i].id
        as int] by {
        if i < newlen {
            assert(ts2[i] == pre_ts[i]);
            assert(pre_seen[pre_ts[i].id as int]);
        }
    }
    assert forall|j: int| 0 <= j < seen2.len() && #[trigger] seen2[j] implies occurs(
        ts2,
        j,
        ts2.len() as int,
    ) by {
        if j == n {
            assert(ts2[newlen].id == j);
        } else {
            assert(pre_seen[j]);
            assert(occurs(pre_ts, j, pre_ts.len() as int));
            let i = choose|i: int|
                0 <= i < pre_ts.len() && i < pre_ts.len() && (#[trigger] pre_ts[i]).id == j;
            assert(ts2[i].id == j);
        }
    }
    assert forall|i: int, j: int| 0 <= i < j < ts2.len() implies ts2[i].id != ts2[j].id by {
        if j == newlen {
            assert(ts2[i] == pre_ts[i]);
            assert(pre_seen[pre_ts[i].id as int]);
        } else {
            assert(ts2[i] == pre_ts[i] && ts2[j] == pre_ts[j]);
        }
    }
    assert forall|i: int, k: int|
        #![trigger g[ts2[i].id as int].children[k]]
        0 <= i < ts2.len() && 0 <= k < g[ts2[i].id as int].children.len() implies occurs(
        ts2,
        g[ts2[i].id as int].children[k].id as int,
        i,
    ) by {
        if i < newlen {
            assert(ts2[i] == pre_ts[i]);
            assert(g[pre_ts[i].id as int].children[k] == g[ts2[i].id as int].children[k]);
            assert(occurs(pre_ts, g[pre_ts[i].id as int].children[k].id as int, i));
            let cid = g[pre_ts[i].id as int].children[k].id as int;
            let j = choose|j: int|
                0 <= j < i && j < pre_ts.len() && (#[trigger] pre_ts[j]).id == cid;
            assert(ts2[j] == pre_ts[j]);
            assert(occurs(ts2, cid, i));
        } else {
            assert(ts2[i].id == n as usize);
            assert(g[ts2[i].id as int].children[k] == g[n].children[k]);
            let cid = g[n].children[k].id as int;
            assert(pre_seen[cid]);
            assert(occurs(pre_ts, cid, pre_ts.len() as int));
            let j = choose|j: int|
                0 <= j < pre_ts.len() && j < pre_ts.len() && (#[trigger] pre_ts[j]).id == cid;
            assert(ts2[j] == pre_ts[j]);
            assert(ts2[j].id == cid);
            assert(occurs(ts2, cid, i));
        }
    }
}

/// Depth-first emission: after the call, the marked set has grown by exactly
/// the cone reachable from `n`, the emitted order has grown accordingly, and
/// if `n` was new it is the last node emitted.
#[verifier::rlimit(100)]
fn dfs<F: Fn(ScalarRequest) -> u32>(g: &Graph<F>, n: usize, seen: &mut Vec<bool>, ts: &mut Vec<
    Value,
>)
    requires
        g.wf(),
        n < g@.len(),
        visit_inv(g@, old(seen)@, old(ts)@),
    ensures
        visit_inv(g@, final(seen)@, final(ts)@),
        old(ts)@.is_prefix_of(final(ts)@),
        forall|i: int|
            0 <= i < g@.len() ==> (final(seen)@[i] <==> (old(seen)@[i] || reachable(
                g@,
                n as int,
                i,
            ))),
        !old(seen)@[n as int] ==> final(ts)@.len() > 0 && final(ts)@[final(ts)@.len() - 1]
            == (Value { id: n }),
        final(ts)@ == visit(g@, n as int, old(ts)@),
    decreases n,
{
    if seen[n] {
        proof {
            assert forall|i: int|
                0 <= i < g@.len() && reachable(g@, n as int, i) implies old(seen)@[i] by {
                lemma_seen_closed(g@, old(seen)@, old(ts)@, n as int, i);
            }
            assert(occurs(old(ts)@, n as int, old(ts)@.len() as int));
            assert(visit(g@, n as int, old(ts)@) == old(ts)@);
        }
        return ;
    }
    let cl = g.nodes[n].children.len();
    let mut k: usize = 0;
    while k < cl
        invariant
            g.wf(),
            n < g@.len(),
            cl == g@[n as int].children.len(),
            k <= cl,
            visit_inv(g@, seen@, ts@),
            old(ts)@.is_prefix_of(ts@),
            !seen@[n as int],
            visit_kids(g@, n as int, 0, old(ts)@) == visit_kids(g@, n as int, k as int, ts@),
            forall|i: int|
                0 <= i < g@.len() ==> (seen@[i] <==> (old(seen)@[i] || exists|kk: int|
                    0 <= kk < k && reachable(
                        g@,
                        (#[trigger] g@[n as int].children[kk]).id as int,
                        i,
                    ))),
        decreases cl - k,
    {
        let c = g.nodes[n].children[k];
        proof {
            assert(c == g@[n as int].children[k as int]);
            assert(node_wf(g@[n as int], n as int));
            assert(c.id < n);
        }
        let ghost pre_seen = seen@;
        let ghost pre_ts2 = ts@;
        dfs(g, c.id, seen, ts);
        proof {
            assert(ts@ == visit(g@, c.id as int, pre_ts2));
            assert(visit_kids(g@, n as int, k as int, pre_ts2) == visit_kids(
                g@,
                n as int,
                k as int + 1,
                visit(g@, c.id as int, pre_ts2),
            ));
            let kk0 = k as int;
            assert forall|i: int| 0 <= i < g@.len() implies (seen@[i] <==> (old(seen)@[i]
                || exists|kk: int|
                    0 <= kk < k + 1 && reachable(
                        g@,
                        (#[trigger] g@[n as int].children[kk]).id as int,
                        i,
                    ))) by {
                if seen@[i] {
                    if !pre_seen[i] {
                        assert(reachable(g@, g@[n as int].children[kk0].id as int, i));
                    }
                } else {
                    assert(!pre_seen[i]);
                }
                if old(seen)@[i] || exists|kk: int|
                    0 <= kk < k + 1 && reachable(
                        g@,
                        (#[trigger] g@[n as int].children[kk]).id as int,
                        i,
                    ) {
                    if !old(seen)@[i] {
                        let kk = choose|kk: int|
                            0 <= kk < k + 1 && reachable(
                                g@,
                                (#[trigger] g@[n as int].children[kk]).id as int,
                                i,
                            );
                        if kk < k as int {
                            assert(pre_seen[i]);
                        } else {
                            assert(reachable(g@, c.id as int, i));
                        }
                    }
                }
            }
            // `n` itself cannot be reached from a child, whose index is smaller.
            if seen@[n as int] {
                assert(!pre_seen[n as int]);
                assert(reachable(g@, c.id as int, n as int));
                lemma_reachable_le(g@, c.id as int, n as int);
                assert(false);
            }
        }
        k += 1;
    }
    let ghost pre_seen = seen@;
    let ghost pre_ts = ts@;
    ts.push(Value { id: n });
    seen[n] = true;
    proof {
        let ni = n as int;
        assert forall|kk: int| 0 <= kk < g@[ni].children.len() implies (#[trigger] g@[
            ni
        ].children[kk]).id < g@.len() && pre_seen[g@[ni].children[kk].id as int] by {
            assert(node_wf(g@[ni], ni));
            let cid = g@[ni].children[kk].id as int;
            assert(cid < g@.len());
            assert(reachable(g@, cid, cid));
        }
        assert(seen@ =~= pre_seen.update(ni, true));
        assert(ts@ =~= pre_ts.push(Value { id: n }));
        lemma_push_node(g@, pre_seen, pre_ts, ni, seen@, ts@);
        assert(visit_kids(g@, ni, g@[ni].children.len() as int, pre_ts) == pre_ts);
        assert(pre_ts == visit_kids(g@, ni, 0, old(ts)@));
        assert(!occurs(old(ts)@, ni, old(ts)@.len() as int)) by {
            if occurs(old(ts)@, ni, old(ts)@.len() as int) {
                let i = choose|i: int|
                    0 <= i < old(ts)@.len() && i < old(ts)@.len() && (#[trigger] old(
                        ts,
                    )@[i]).id == ni;
                assert(old(seen)@[ni]);
            }
        }
        assert(visit(g@, ni, old(ts)@) == visit_kids(g@, ni, 0, old(ts)@).push(
            Value { id: n },
        ));
        assert(ts@ == visit(g@, ni, old(ts)@));
        assert forall|i: int| 0 <= i < g@.len() implies (seen@[i] <==> (old(seen)@[i]
            || reachable(g@, ni, i))) by {
            if seen@[i] {
                if i != ni && !old(seen)@[i] {
                    let kk = choose|kk: int|
                        0 <= kk < g@[ni].children.len() && reachable(
                            g@,
                            (#[trigger] g@[ni].children[kk]).id as int,
                            i,
                        );
                    assert(g@[ni].children[kk].id < n);
                    assert(reachable(g@, ni, i));
                }
            }
            if reachable(g@, ni, i) && i != ni && !old(seen)@[i] {
                let kk = choose|kk: int|
                    0 <= kk < g@[ni].children.len() && g@[ni].children[kk].id < ni && reachable(
                        g@,
                        g@[ni].children[kk].id as int,
                        i,
                    );
                assert(pre_seen[i]);
                assert(seen@[i]);
            }
        }
    }
}

/// Produces a topological order of every node reachable from `root`: every
/// node's operands appear at a strictly earlier position than the node
/// itself, every reachable node appears exactly once however many paths lead
/// to it, and the root appears last. A childless root yields the
/// single-element order. The order is moreover exactly the depth-first
/// emission `visit` — deterministic, driven by operand order and node
/// identity alone, so two calls on an unchanged graph agree.
pub fn build_topo<F: Fn(ScalarRequest) -> u32>(g: &Graph<F>, root: &Value) -> (ts: Vec<Value>)
    requires
        g.wf(),
        root.id < g@.len(),
    ensures
        is_topo_order(g@, root.id as int, ts@),
        ts@ == visit(g@, root.id as int, Seq::<Value>::empty()),
{
    let n = g.nodes.len();
    let mut seen: Vec<bool> = Vec::new();
    let mut i: usize = 0;
    while i < n
        invariant
            seen@.len() == i,
            i <= n,
            forall|j: int| 0 <= j < i ==> !seen@[j],
        decreases n - i,
    {
        seen.push(false);
        i += 1;
    }
    let mut ts: Vec<Value> = Vec::new();
    proof {
        assert(visit_inv(g@, seen@, ts@));
    }
    dfs(g, root.id, &mut seen, &mut ts);
    proof {
        assert forall|i2: int|
            0 <= i2 < ts@.len() implies (#[trigger] ts@[i2]).id < g@.len() && reachable(
            g@,
            root.id as int,
            ts@[i2].id as int,
        ) by {
            assert(seen@[ts@[i2].id as int]);
        }
        assert forall|m: int|
            0 <= m < g@.len() && reachable(g@, root.id as int, m) implies occurs(
            ts@,
            m,
            ts@.len() as int,
        ) by {
            assert(seen@[m]);
        }
        assert(reachable(g@, root.id as int, root.id as int));
        assert(ts@ == visit(g@, root.id as int, Seq::<Value>::empty()));
    }
    ts
}

} // verus!
