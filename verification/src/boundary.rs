//! The boundary multigraph: nodes joined by multi-edges, each carrying a
//! whole set of `(c1, c2)` costs, and the Pareto search over it.

use vstd::prelude::*;

use crate::cost::Cost;
use crate::label_setting::{node_costs, search, walk_costs};
use crate::pareto::is_frontier_of;
use crate::relations::has_edge;
use crate::walks::{targets_in_range, walks_fit, CostGraph};

verus! {

/// Adjacency of a multigraph: `adj[u]` lists `(neighbor, cost_set)`
/// multi-edges.
pub struct BoundaryGraph {
    adj: Vec<Vec<(usize, Vec<Cost>)>>,
}

/// The multi-edges of one node as `(to, costs)`.
pub open spec fn multi_view(es: Seq<(usize, Vec<Cost>)>) -> Seq<(usize, Seq<Cost>)> {
    es.map_values(|e: (usize, Vec<Cost>)| (e.0, e.1@))
}

/// One `(to, cost)` out-edge per cost of every multi-edge, in order.
pub open spec fn flat_outs(es: Seq<(usize, Seq<Cost>)>) -> Seq<(u32, Cost)>
    decreases es.len(),
{
    if es.len() == 0 {
        Seq::empty()
    } else {
        flat_outs(es.drop_last()) + es.last().1.map_values(|c: Cost| (es.last().0 as u32, c))
    }
}

/// Total number of single-cost edges of the first `k` nodes.
pub open spec fn flat_total(adj: Seq<Seq<(usize, Seq<Cost>)>>, k: int) -> nat
    decreases k,
{
    if k <= 0 {
        0
    } else {
        flat_total(adj, k - 1) + flat_outs(adj[k - 1]).len()
    }
}

impl View for BoundaryGraph {
    type V = Seq<Seq<(usize, Seq<Cost>)>>;

    closed spec fn view(&self) -> Seq<Seq<(usize, Seq<Cost>)>> {
        self.adj@.map_values(|es: Vec<(usize, Vec<Cost>)>| multi_view(es@))
    }
}

impl BoundaryGraph {
    /// Every multi-edge leads to a node, and node ids fit in `u32`.
    #[verifier::type_invariant]
    pub closed spec fn wf(&self) -> bool {
        &&& self.adj@.len() <= u32::MAX
        &&& forall|u: int, j: int|
            0 <= u < self.adj@.len() && 0 <= j < self.adj@[u]@.len() ==> (#[trigger] self.adj@[u]@[j]).0
                < self.adj@.len()
    }

    /// A multigraph on `n` nodes without edges.
    pub fn new(n: usize) -> (r: BoundaryGraph)
        requires
            n <= u32::MAX,
        ensures
            r@.len() == n,
            forall|u: int| 0 <= u < n ==> #[trigger] r@[u] == Seq::<(usize, Seq<Cost>)>::empty(),
    {
        let mut adj: Vec<Vec<(usize, Vec<Cost>)>> = Vec::new();
        let mut i: usize = 0;
        while i < n
            invariant
                i <= n,
                adj@.len() == i,
                forall|u: int| 0 <= u < i ==> (#[trigger] adj@[u])@.len() == 0,
            decreases n - i,
        {
            adj.push(Vec::new());
            i = i + 1;
        }
        let r = BoundaryGraph { adj };
        proof {
            assert forall|u: int| 0 <= u < n implies #[trigger] r@[u] == Seq::<(usize, Seq<Cost>)>::empty() by {
                assert(r@[u] =~= Seq::<(usize, Seq<Cost>)>::empty());
            }
        }
        r
    }

    /// Number of nodes.
    pub fn len(&self) -> (r: usize)
        ensures
            r == self@.len(),
    {
        self.adj.len()
    }

    /// Append the multi-edge `from -> to` carrying `costs`.
    pub fn push_edge(&mut self, from: usize, to: usize, costs: Vec<Cost>)
        requires
            from < old(self)@.len(),
            to < old(self)@.len(),
        ensures
            final(self)@ == old(self)@.update(from as int, old(self)@[from as int].push((to, costs@))),
    {
        proof {
            use_type_invariant(&*self);
        }
        let ghost v0 = self@;
        let mut adj: Vec<Vec<(usize, Vec<Cost>)>> = Vec::new();
        std::mem::swap(&mut adj, &mut self.adj);
        let ghost a0 = adj@;
        adj[from].push((to, costs));
        proof {
            assert forall|u: int, j: int|
                0 <= u < adj@.len() && 0 <= j < adj@[u]@.len() implies (#[trigger] adj@[u]@[j]).0 < adj@.len() by {
                if u != from {
                    assert(adj@[u] == a0[u]);
                } else if j < a0[u]@.len() {
                    assert(adj@[u]@[j] == a0[u]@[j]);
                }
            }
        }
        self.adj = adj;
        proof {
            assert(multi_view(self.adj@[from as int]@) =~= v0[from as int].push((to, costs@)));
            assert(self@ =~= v0.update(from as int, v0[from as int].push((to, costs@))));
        }
    }
}

proof fn lemma_flat_outs_contains(es: Seq<(usize, Seq<Cost>)>, v: int, c: Cost)
    requires
        0 <= v <= u32::MAX,
        forall|j: int| 0 <= j < es.len() ==> (#[trigger] es[j]).0 <= u32::MAX,
    ensures
        (exists|k: int| 0 <= k < flat_outs(es).len() && (#[trigger] flat_outs(es)[k]).0 as int == v && flat_outs(es)[k].1 == c)
            <==> (exists|j: int| 0 <= j < es.len() && (#[trigger] es[j]).0 == v && es[j].1.contains(c)),
    decreases es.len(),
{
    if es.len() > 0 {
        let r = es.drop_last();
        let last = es.last();
        assert forall|j: int| 0 <= j < r.len() implies (#[trigger] r[j]).0 <= u32::MAX by {
            assert(r[j] == es[j]);
        }
        lemma_flat_outs_contains(r, v, c);
        let fr = flat_outs(r);
        let tail = last.1.map_values(|x: Cost| (last.0 as u32, x));
        let f = flat_outs(es);
        assert(f == fr + tail);
        assert(last == es[es.len() - 1]);
        if exists|k: int| 0 <= k < f.len() && (#[trigger] f[k]).0 as int == v && f[k].1 == c {
            let k = choose|k: int| 0 <= k < f.len() && (#[trigger] f[k]).0 as int == v && f[k].1 == c;
            if k < fr.len() {
                assert(f[k] == fr[k]);
                let j = choose|j: int| 0 <= j < r.len() && (#[trigger] r[j]).0 == v && r[j].1.contains(c);
                assert(es[j] == r[j]);
            } else {
                assert(f[k] == tail[k - fr.len()]);
                assert(last.1[k - fr.len()] == c);
                assert(last.1.contains(c));
                assert(es[es.len() - 1].0 == v);
            }
        }
        if exists|j: int| 0 <= j < es.len() && (#[trigger] es[j]).0 == v && es[j].1.contains(c) {
            let j = choose|j: int| 0 <= j < es.len() && (#[trigger] es[j]).0 == v && es[j].1.contains(c);
            if j < r.len() {
                assert(r[j] == es[j]);
                let k = choose|k: int| 0 <= k < fr.len() && (#[trigger] fr[k]).0 as int == v && fr[k].1 == c;
                assert(f[k] == fr[k]);
            } else {
                let i = choose|i: int| 0 <= i < last.1.len() && last.1[i] == c;
                assert(f[fr.len() + i] == tail[i]);
            }
        }
    }
}

proof fn lemma_flat_total_ge(adj: Seq<Seq<(usize, Seq<Cost>)>>, k: int, u: int)
    requires
        0 <= u < k,
    ensures
        flat_outs(adj[u]).len() <= flat_total(adj, k),
    decreases k,
{
    if u < k - 1 {
        lemma_flat_total_ge(adj, k - 1, u);
    }
}

impl CostGraph for BoundaryGraph {
    open spec fn node_count(&self) -> nat {
        self@.len()
    }

    open spec fn edge_count(&self) -> nat {
        flat_total(self@, self@.len() as int)
    }

    open spec fn out_edges(&self, u: int) -> Seq<(u32, Cost)> {
        flat_outs(self@[u])
    }

    fn node_num(&self) -> (r: usize) {
        self.adj.len()
    }

    fn out_list(&self, u: usize) -> (r: Vec<(usize, Cost)>) {
        proof {
            use_type_invariant(self);
        }
        let row = &self.adj[u];
        let ghost es = self@[u as int];
        let mut r: Vec<(usize, Cost)> = Vec::new();
        let mut i: usize = 0;
        while i < row.len()
            invariant
                i <= row@.len(),
                es == multi_view(row@),
                forall|j: int| 0 <= j < row@.len() ==> (#[trigger] row@[j]).0 <= u32::MAX,
                r@.len() == flat_outs(es.take(i as int)).len(),
                forall|k: int|
                    0 <= k < r@.len() ==> #[trigger] r@[k] == (
                    flat_outs(es.take(i as int))[k].0 as usize,
                    flat_outs(es.take(i as int))[k].1,
                ),
            decreases row@.len() - i,
        {
            let v = row[i].0;
            let costs = &row[i].1;
            let ghost r0 = r@;
            let ghost f0 = flat_outs(es.take(i as int));
            assert(es.take(i + 1).drop_last() =~= es.take(i as int));
            assert(es.take(i + 1).last() == (v, costs@));
            let mut j: usize = 0;
            while j < costs.len()
                invariant
                    j <= costs@.len(),
                    v <= u32::MAX,
                    r@.len() == r0.len() + j,
                    r0.len() == f0.len(),
                    forall|k: int| 0 <= k < r0.len() ==> #[trigger] r@[k] == r0[k],
                    forall|k: int|
                        0 <= k < r0.len() ==> #[trigger] r0[k] == (f0[k].0 as usize, f0[k].1),
                    forall|k: int| 0 <= k < j ==> #[trigger] r@[r0.len() + k] == (v, costs@[k]),
                decreases costs@.len() - j,
            {
                r.push((v, costs[j]));
                j = j + 1;
            }
            proof {
                let f1 = flat_outs(es.take(i + 1));
                let tail = costs@.map_values(|x: Cost| (v as u32, x));
                assert(f1 == f0 + tail);
                assert forall|k: int| 0 <= k < r@.len() implies #[trigger] r@[k] == (f1[k].0 as usize, f1[k].1) by {
                    if k < r0.len() {
                        assert(f1[k] == f0[k]);
                    } else {
                        assert(f1[k] == tail[k - r0.len()]);
                        assert(r@[r0.len() + (k - r0.len())] == (v, costs@[k - r0.len()]));
                    }
                }
            }
            i = i + 1;
        }
        proof {
            assert(es.take(row@.len() as int) =~= es);
            lemma_flat_total_ge(self@, self@.len() as int, u as int);
        }
        r
    }
}

/// Some multi-edge `s -> t` of the adjacency carries the cost `c`.
pub open spec fn multi_has(adj: Seq<Seq<(usize, Seq<Cost>)>>, s: int, t: int, c: Cost) -> bool {
    0 <= s < adj.len() && exists|j: int| 0 <= j < adj[s].len() && (#[trigger] adj[s][j]).0 == t && adj[s][j].1.contains(c)
}

/// Appending a multi-edge adds exactly its costs.
pub proof fn lemma_multi_has_push(
    adj: Seq<Seq<(usize, Seq<Cost>)>>,
    from: int,
    to: usize,
    costs: Seq<Cost>,
    s: int,
    t: int,
    c: Cost,
)
    requires
        0 <= from < adj.len(),
    ensures
        multi_has(adj.update(from, adj[from].push((to, costs))), s, t, c) <==> multi_has(adj, s, t, c) || (s
            == from && t == to && costs.contains(c)),
{
    let adj2 = adj.update(from, adj[from].push((to, costs)));
    if s == from {
        let row = adj[from];
        let row2 = adj2[s];
        assert(row2 == row.push((to, costs)));
        if multi_has(adj2, s, t, c) {
            let j = choose|j: int| 0 <= j < row2.len() && (#[trigger] row2[j]).0 == t && row2[j].1.contains(c);
            if j < row.len() {
                assert(row2[j] == row[j]);
            }
        }
        if multi_has(adj, s, t, c) {
            let j = choose|j: int| 0 <= j < row.len() && (#[trigger] row[j]).0 == t && row[j].1.contains(c);
            assert(row2[j] == row[j]);
        }
        if t == to && costs.contains(c) {
            assert(row2[row.len() as int] == (to, costs));
        }
    } else if 0 <= s < adj.len() {
        assert(adj2[s] == adj[s]);
    }
}

/// The edges of the multigraph are exactly the costs of its multi-edges.
pub proof fn lemma_multi_has_edge(g: BoundaryGraph, u: int, v: int, c: Cost)
    requires
        g.wf(),
    ensures
        has_edge(g, u, v, c) <==> 0 <= u < g@.len() && multi_has(g@, u, v, c),
{
    if 0 <= u < g@.len() {
        let es = g@[u];
        assert forall|j: int| 0 <= j < es.len() implies (#[trigger] es[j]).0 <= u32::MAX && (es[j].0 as int) < g@.len() by {
            assert(es[j].0 == g.adj@[u]@[j].0);
        }
        assert(g.out_edges(u) == flat_outs(es));
        assert(g.node_count() == g@.len());
        if exists|j: int| 0 <= j < es.len() && (#[trigger] es[j]).0 == v && es[j].1.contains(c) {
            let j = choose|j: int| 0 <= j < es.len() && (#[trigger] es[j]).0 == v && es[j].1.contains(c);
            assert((es[j].0 as int) < g@.len());
            lemma_flat_outs_contains(es, v, c);
            assert(has_edge(g, u, v, c));
        }
        if has_edge(g, u, v, c) {
            lemma_flat_outs_contains(es, v, c);
        }
    }
}

/// Every multi-edge of a multigraph leads to one of its nodes.
pub proof fn lemma_multi_targets(g: BoundaryGraph)
    requires
        g.wf(),
    ensures
        targets_in_range(g),
{
    assert forall|u: int, k: int| 0 <= u < g.node_count() && 0 <= k < g.out_edges(u).len() implies (
    #[trigger] g.out_edges(u)[k]).0 < g.node_count() by {
        let es = g@[u];
        assert forall|j: int| 0 <= j < es.len() implies (#[trigger] es[j]).0 <= u32::MAX by {
            assert(es[j].0 == g.adj@[u]@[j].0);
        }
        let e = g.out_edges(u)[k];
        lemma_flat_outs_contains(es, e.0 as int, e.1);
        let j = choose|j: int| 0 <= j < es.len() && (#[trigger] es[j]).0 == e.0 as int && es[j].1.contains(e.1);
        assert(es[j].0 == g.adj@[u]@[j].0);
    }
}

/// Pareto search over the multigraph from `source`: entry `u` is the
/// frontier of walk costs from `source` to `u`, sorted by `c1`.
pub fn multigraph_pareto_from(graph: &BoundaryGraph, source: usize) -> (r: Vec<Vec<Cost>>)
    requires
        walks_fit(*graph, source as int, graph@.len() as int),
        source < graph@.len(),
    ensures
        r@.len() == graph@.len(),
        forall|u: int|
            0 <= u < graph@.len() ==> is_frontier_of(#[trigger] r@[u]@, walk_costs(*graph, source as int, u)),
{
    proof {
        use_type_invariant(graph);
        lemma_multi_targets(*graph);
    }
    let n = graph.len();
    let (labels, _sols, order) = search(graph, source, n, false);
    let mut out: Vec<Vec<Cost>> = Vec::new();
    let mut u: usize = 0;
    while u < n
        invariant
            n == graph@.len(),
            n == graph.node_count(),
            u <= n,
            out@.len() == u,
            forall|w: int| 0 <= w < u ==> is_frontier_of(#[trigger] out@[w]@, walk_costs(*graph, source as int, w)),
            forall|t: int| 0 <= t < order@.len() ==> (#[trigger] order@[t]) < labels@.len(),
            forall|t1: int, t2: int|
                0 <= t1 < t2 < order@.len() && labels@[(#[trigger] order@[t1]) as int].node == labels@[(
                #[trigger] order@[t2]) as int].node ==> labels@[order@[t1] as int].cost.c1 < labels@[order@[t2] as int].cost.c1
                    && labels@[order@[t1] as int].cost.c2 > labels@[order@[t2] as int].cost.c2,
            forall|t: int|
                0 <= t < order@.len() ==> #[trigger] walk_costs(*graph, source as int, labels@[order@[t] as int].node as int)(
                    crate::pareto::pair_of(labels@[order@[t] as int].cost),
                ),
            forall|w: int, p: (int, int)|
                #[trigger] walk_costs(*graph, source as int, w)(p) ==> exists|t: int|
                    0 <= t < order@.len() && labels@[order@[t] as int].node == w && #[trigger] crate::pareto::le_pair(
                        labels@[order@[t] as int].cost,
                        p,
                    ),
        decreases n - u,
    {
        let list = node_costs(graph, source, &labels, &order, u);
        out.push(list);
        u = u + 1;
    }
    out
}

} // verus!
