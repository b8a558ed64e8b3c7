//! Compressed-sparse-row (CSR) directed graph with two integer costs per edge.

use vstd::prelude::*;

pub use crate::cost::Cost;
use crate::relations::has_edge;
use crate::walks::{targets_in_range, CostGraph};

verus! {

/// Directed graph in CSR layout, 0-indexed nodes.
#[derive(Debug)]
pub struct Graph {
    n: usize,
    /// `head[u]..head[u + 1]` is the slice of out-edges for node `u`.
    head: Vec<u32>,
    to: Vec<u32>,
    cost: Vec<Cost>,
}

/// The sum of the out-degrees of the nodes below `k`.
pub open spec fn out_degree_sum(g: Graph, k: int) -> nat
    decreases k,
{
    if k <= 0 {
        0
    } else {
        out_degree_sum(g, k - 1) + g.out_edges(k - 1).len()
    }
}

/// The out-edges that an edge list gives node `u`, as `(to, cost)` pairs in
/// list order.
pub open spec fn outs_of(edges: Seq<(u32, u32, Cost)>, u: int) -> Seq<(u32, Cost)>
    decreases edges.len(),
{
    if edges.len() == 0 {
        Seq::empty()
    } else {
        let e = edges.last();
        let rest = outs_of(edges.drop_last(), u);
        if e.0 as int == u {
            rest.push((e.1, e.2))
        } else {
            rest
        }
    }
}

/// Number of edges in the list whose source is below `u`.
pub open spec fn count_below(edges: Seq<(u32, u32, Cost)>, u: int) -> nat
    decreases edges.len(),
{
    if edges.len() == 0 {
        0
    } else {
        count_below(edges.drop_last(), u) + if (edges.last().0 as int) < u {
            1nat
        } else {
            0nat
        }
    }
}

impl Graph {
    #[verifier::type_invariant]
    closed spec fn wf(&self) -> bool {
        &&& self.head@.len() == self.n + 1
        &&& self.head@[0] == 0
        &&& forall|i: int, j: int| 0 <= i <= j <= self.n ==> self.head@[i] <= self.head@[j]
        &&& self.head@[self.n as int] == self.to@.len()
        &&& self.to@.len() == self.cost@.len()
    }

    pub fn num_nodes(&self) -> (r: usize)
        ensures
            r == self.node_count(),
    {
        self.n
    }

    pub fn num_edges(&self) -> (r: usize)
        ensures
            r == self.edge_count(),
            r == out_degree_sum(*self, self.node_count() as int),
    {
        proof {
            use_type_invariant(self);
            self.lemma_degree_sum(self.n as int);
        }
        self.to.len()
    }

    /// The out-degrees of the nodes below `k` add up to where the edges of
    /// node `k` start.
    proof fn lemma_degree_sum(&self, k: int)
        requires
            self.wf(),
            0 <= k <= self.n,
        ensures
            out_degree_sum(*self, k) == self.head@[k],
        decreases k,
    {
        if k > 0 {
            self.lemma_degree_sum(k - 1);
            assert(self.head@[k - 1] <= self.head@[k]);
        }
    }

    /// The outgoing edges of `u` as `(neighbor, cost)`.
    pub fn neighbors(&self, u: usize) -> (r: Vec<(usize, Cost)>)
        requires
            u < self.node_count(),
        ensures
            r@.len() == self.out_edges(u as int).len(),
            r@.len() <= self.edge_count(),
            forall|k: int|
                0 <= k < r@.len() ==> #[trigger] r@[k] == (
                self.out_edges(u as int)[k].0 as usize,
                self.out_edges(u as int)[k].1,
            ),
    {
        proof {
            use_type_invariant(self);
        }
        let lo = self.head[u] as usize;
        let hi = self.head[u + 1] as usize;
        let mut r: Vec<(usize, Cost)> = Vec::new();
        let mut e = lo;
        while e < hi
            invariant
                lo <= e <= hi,
                hi <= self.to@.len(),
                self.to@.len() == self.cost@.len(),
                lo == self.head@[u as int],
                hi == self.head@[u + 1],
                u < self.n,
                r@.len() == e - lo,
                forall|k: int|
                    0 <= k < r@.len() ==> #[trigger] r@[k] == (
                    self.to@[lo + k] as usize,
                    self.cost@[lo + k],
                ),
            decreases hi - e,
        {
            r.push((self.to[e] as usize, self.cost[e]));
            e = e + 1;
        }
        r
    }
}

proof fn lemma_count_step(edges: Seq<(u32, u32, Cost)>, u: int)
    ensures
        count_below(edges, u + 1) == count_below(edges, u) + outs_of(edges, u).len(),
    decreases edges.len(),
{
    if edges.len() > 0 {
        lemma_count_step(edges.drop_last(), u);
    }
}

proof fn lemma_count_mono(edges: Seq<(u32, u32, Cost)>, u: int, w: int)
    requires
        u <= w,
    ensures
        count_below(edges, u) <= count_below(edges, w),
    decreases w - u,
{
    if u < w {
        lemma_count_step(edges, w - 1);
        lemma_count_mono(edges, u, w - 1);
    }
}

proof fn lemma_count_all(edges: Seq<(u32, u32, Cost)>, n: int)
    requires
        forall|i: int| 0 <= i < edges.len() ==> (#[trigger] edges[i]).0 < n,
    ensures
        count_below(edges, n) == edges.len(),
    decreases edges.len(),
{
    if edges.len() > 0 {
        let rest = edges.drop_last();
        assert forall|i: int| 0 <= i < rest.len() implies (#[trigger] rest[i]).0 < n by {
            assert(rest[i] == edges[i]);
        }
        lemma_count_all(rest, n);
        assert(edges[edges.len() - 1].0 < n);
    }
}

proof fn lemma_outs_take_step(edges: Seq<(u32, u32, Cost)>, i: int, u: int)
    requires
        0 <= i < edges.len(),
    ensures
        outs_of(edges.take(i + 1), u) == if edges[i].0 as int == u {
            outs_of(edges.take(i), u).push((edges[i].1, edges[i].2))
        } else {
            outs_of(edges.take(i), u)
        },
{
    assert(edges.take(i + 1).drop_last() =~= edges.take(i));
}

proof fn lemma_outs_take_mono(edges: Seq<(u32, u32, Cost)>, i: int, j: int, u: int)
    requires
        0 <= i <= j <= edges.len(),
    ensures
        outs_of(edges.take(i), u).len() <= outs_of(edges.take(j), u).len(),
    decreases j - i,
{
    if i < j {
        lemma_outs_take_step(edges, j - 1, u);
        lemma_outs_take_mono(edges, i, j - 1, u);
    }
}

impl Graph {
    /// Build from a 0-indexed edge list `(from, to, cost)` over `n` nodes.
    /// Out-edges of each node keep the order of the list.
    pub fn from_edges(n: usize, edges: Vec<(u32, u32, Cost)>) -> (g: Graph)
        requires
            n < usize::MAX,
            edges@.len() <= u32::MAX,
            forall|i: int| 0 <= i < edges@.len() ==> ((#[trigger] edges@[i]).0 as int) < n,
        ensures
            g.node_count() == n,
            g.edge_count() == edges@.len(),
            forall|u: int| 0 <= u < n ==> #[trigger] g.out_edges(u) == outs_of(edges@, u),
    {
        let ghost es = edges@;
        let m = edges.len();
        // Count the out-degree of each node into head[u + 1].
        let mut head: Vec<u32> = vec![0u32; n + 1];
        let mut i: usize = 0;
        while i < m
            invariant
                m == es.len(),
                m <= u32::MAX,
                i <= m,
                es == edges@,
                forall|j: int| 0 <= j < es.len() ==> ((#[trigger] es[j]).0 as int) < n,
                head@.len() == n + 1,
                head@[0] == 0,
                forall|u: int|
                    0 <= u < n ==> #[trigger] head@[u + 1] == outs_of(es.take(i as int), u).len(),
            decreases m - i,
        {
            let u = edges[i].0 as usize;
            proof {
                lemma_outs_len_bound(es.take(i as int), u as int);
                lemma_outs_take_step(es, i as int, u as int);
            }
            head.set(u + 1, head[u + 1] + 1);
            i = i + 1;
            proof {
                assert forall|w: int| 0 <= w < n implies #[trigger] head@[w + 1] == outs_of(
                    es.take(i as int),
                    w,
                ).len() by {
                    lemma_outs_take_step(es, i - 1, w);
                }
            }
        }
        assert(es.take(m as int) =~= es);
        proof {
            lemma_count_zero(es);
        }
        // Prefix sums: head[u] becomes the number of edges whose source is below u.
        let mut i: usize = 0;
        while i < n
            invariant
                m == es.len(),
                m <= u32::MAX,
                i <= n,
                es == edges@,
                forall|j: int| 0 <= j < es.len() ==> ((#[trigger] es[j]).0 as int) < n,
                head@.len() == n + 1,
                forall|u: int| 0 <= u <= i ==> #[trigger] head@[u] == count_below(es, u),
                forall|u: int| i <= u < n ==> #[trigger] head@[u + 1] == outs_of(es, u).len(),
            decreases n - i,
        {
            proof {
                lemma_count_step(es, i as int);
                lemma_count_mono(es, i + 1, n as int);
                lemma_count_all(es, n as int);
            }
            head.set(i + 1, head[i + 1] + head[i]);
            i = i + 1;
        }
        proof {
            lemma_count_all(es, n as int);
            assert(count_below(es, 0) == 0) by {
                lemma_count_zero(es);
            }
            assert forall|a: int, b: int| 0 <= a <= b <= n implies head@[a] <= head@[b] by {
                lemma_count_mono(es, a, b);
            }
            assert forall|u: int| 0 <= u < n implies #[trigger] head@[u + 1] - head@[u] == outs_of(
                es,
                u,
            ).len() by {
                lemma_count_step(es, u);
            }
        }
        // Place each edge after the earlier edges of the same source.
        let mut to: Vec<u32> = vec![0u32; m];
        let mut cost: Vec<Cost> = vec![Cost::new(0, 0); m];
        let mut next: Vec<u32> = copy_vec(&head);
        let mut i: usize = 0;
        while i < m
            invariant
                m == es.len(),
                i <= m,
                es == edges@,
                forall|j: int| 0 <= j < es.len() ==> ((#[trigger] es[j]).0 as int) < n,
                head@.len() == n + 1,
                next@.len() == n + 1,
                to@.len() == m,
                cost@.len() == m,
                head@[n as int] == m,
                forall|a: int, b: int| 0 <= a <= b <= n ==> head@[a] <= head@[b],
                forall|u: int|
                    0 <= u < n ==> #[trigger] head@[u + 1] - head@[u] == outs_of(es, u).len(),
                forall|u: int|
                    0 <= u < n ==> #[trigger] next@[u] == head@[u] + outs_of(
                        es.take(i as int),
                        u,
                    ).len(),
                forall|u: int, k: int|
                    0 <= u < n && 0 <= k < outs_of(es.take(i as int), u).len() ==> (
                    to@[head@[u] + k],
                    cost@[head@[u] + k],
                ) == #[trigger] outs_of(es.take(i as int), u)[k],
            decreases m - i,
        {
            let (u, v, c) = edges[i];
            let ghost ui = u as int;
            proof {
                lemma_outs_take_step(es, i as int, ui);
                lemma_outs_take_mono(es, i + 1, m as int, ui);
                assert(es.take(m as int) =~= es);
                assert(head@[ui] <= head@[ui + 1]);
            }
            let p = next[u as usize];
            to.set(p as usize, v);
            cost.set(p as usize, c);
            next.set(u as usize, p + 1);
            i = i + 1;
            proof {
                assert forall|w: int| 0 <= w < n implies #[trigger] next@[w] == head@[w] + outs_of(
                    es.take(i as int),
                    w,
                ).len() by {
                    lemma_outs_take_step(es, i - 1, w);
                }
                assert forall|w: int, k: int|
                    0 <= w < n && 0 <= k < outs_of(es.take(i as int), w).len() implies (
                    to@[head@[w] + k],
                    cost@[head@[w] + k],
                ) == #[trigger] outs_of(es.take(i as int), w)[k] by {
                    lemma_outs_take_step(es, i - 1, w);
                    lemma_outs_take_mono(es, i - 1, m as int, w);
                    let lw = outs_of(es.take(i - 1), w).len();
                    assert(lw <= head@[w + 1] - head@[w]);
                    if w != ui {
                        assert(outs_of(es.take(i as int), w) == outs_of(es.take(i - 1), w));
                        if w < ui {
                            assert(head@[w + 1] <= head@[ui]);
                        } else {
                            assert(head@[ui + 1] <= head@[w]);
                        }
                        assert(head@[w] + k != p);
                    } else {
                        if k < lw {
                            assert(head@[w] + k != p);
                        } else {
                            assert(head@[w] + k == p);
                            assert(es[i - 1] == (u, v, c));
                        }
                    }
                }
            }
        }
        proof {
            assert(es.take(m as int) =~= es);
        }
        let g = Graph { n, head, to, cost };
        proof {
            assert forall|u: int| 0 <= u < n implies #[trigger] g.out_edges(u) == outs_of(
                es,
                u,
            ) by {
                assert(g.out_edges(u) =~= outs_of(es, u));
            }
        }
        g
    }
}

/// The out-edges of a node that stay inside a node subset, renumbered by
/// `g2l` (global id to local id; `u32::MAX` marks nodes outside the subset).
pub open spec fn induced_outs(outs: Seq<(u32, Cost)>, g2l: Seq<u32>) -> Seq<(u32, Cost)>
    decreases outs.len(),
{
    if outs.len() == 0 {
        Seq::empty()
    } else {
        let rest = induced_outs(outs.drop_last(), g2l);
        let e = outs.last();
        if g2l[e.0 as int] != u32::MAX {
            rest.push((g2l[e.0 as int], e.1))
        } else {
            rest
        }
    }
}

/// All edges `(from, to, cost)`, node by node in storage order, up to node
/// `k` (exclusive).
pub open spec fn edges_below(g: Graph, k: int) -> Seq<(usize, usize, Cost)>
    decreases k,
{
    if k <= 0 {
        Seq::empty()
    } else {
        edges_below(g, k - 1) + g.out_edges(k - 1).map_values(|e: (u32, Cost)| ((k - 1) as usize, e.0 as usize, e.1))
    }
}

/// Every listed edge leaves a node below `k` and, when targets are in range,
/// enters a node of the graph; the list holds exactly the out-edges.
pub proof fn lemma_edges_below_bounds(g: Graph, k: int)
    requires
        targets_in_range(g),
        0 <= k <= g.node_count(),
    ensures
        forall|j: int|
            0 <= j < edges_below(g, k).len() ==> ((#[trigger] edges_below(g, k)[j]).0 as int) < k
                && (edges_below(g, k)[j].1 as int) < g.node_count(),
    decreases k,
{
    if k > 0 {
        lemma_edges_below_bounds(g, k - 1);
        let prev = edges_below(g, k - 1);
        let outs = g.out_edges(k - 1);
        let cur = edges_below(g, k);
        assert forall|j: int| 0 <= j < cur.len() implies ((#[trigger] cur[j]).0 as int) < k && (cur[j].1 as int)
            < g.node_count() by {
            if j < prev.len() {
                assert(cur[j] == prev[j]);
            } else {
                let i = j - prev.len();
                assert(cur[j] == ((k - 1) as usize, outs[i].0 as usize, outs[i].1));
                assert((outs[i].0 as int) < g.node_count());
                assert(g.node_count() <= usize::MAX);
            }
        }
    }
}

/// The edge list with every edge turned around, as `u32` node ids.
pub open spec fn reversed_edges(es: Seq<(usize, usize, Cost)>) -> Seq<(u32, u32, Cost)> {
    es.map_values(|e: (usize, usize, Cost)| (e.1 as u32, e.0 as u32, e.2))
}

impl Graph {
    /// All edges as `(from, to, cost)`, node by node in storage order.
    pub fn edges(&self) -> (r: Vec<(usize, usize, Cost)>)
        ensures
            r@ == edges_below(*self, self.node_count() as int),
            r@.len() == self.edge_count(),
    {
        proof {
            use_type_invariant(self);
        }
        let mut r: Vec<(usize, usize, Cost)> = Vec::new();
        let mut u: usize = 0;
        while u < self.n
            invariant
                u <= self.n,
                self.head@.len() == self.n + 1,
                self.head@[0] == 0,
                forall|a: int, b: int| 0 <= a <= b <= self.n ==> self.head@[a] <= self.head@[b],
                self.head@[self.n as int] == self.to@.len(),
                self.to@.len() == self.cost@.len(),
                r@ == edges_below(*self, u as int),
                r@.len() == self.head@[u as int],
            decreases self.n - u,
        {
            let lo = self.head[u] as usize;
            let hi = self.head[u + 1] as usize;
            let ghost r0 = r@;
            let ghost outs = self.out_edges(u as int);
            let mut e = lo;
            while e < hi
                invariant
                    lo <= e <= hi,
                    hi <= self.to@.len(),
                    self.to@.len() == self.cost@.len(),
                    u < self.n,
                    lo == self.head@[u as int],
                    hi == self.head@[u + 1],
                    outs == self.out_edges(u as int),
                    r@ == r0 + outs.take(e - lo).map_values(|x: (u32, Cost)| (u, x.0 as usize, x.1)),
                decreases hi - e,
            {
                r.push((u, self.to[e] as usize, self.cost[e]));
                proof {
                    assert(outs[e - lo] == (self.to@[e as int], self.cost@[e as int]));
                    assert(r@ =~= r0 + outs.take(e + 1 - lo).map_values(|x: (u32, Cost)| (u, x.0 as usize, x.1)));
                }
                e = e + 1;
            }
            proof {
                assert(outs.take(hi - lo) =~= outs);
                assert(((u + 1) - 1) as usize == u);
                assert(r@ =~= edges_below(*self, u + 1));
            }
            u = u + 1;
        }
        r
    }

    /// The graph with every edge turned around; out-edges of a node come in
    /// the order of the edge list.
    pub fn reversed(&self) -> (r: Graph)
        requires
            self.node_count() <= u32::MAX,
            targets_in_range(*self),
        ensures
            r.node_count() == self.node_count(),
            r.edge_count() == self.edge_count(),
            forall|u: int|
                0 <= u < self.node_count() ==> #[trigger] r.out_edges(u) == outs_of(
                    reversed_edges(edges_below(*self, self.node_count() as int)),
                    u,
                ),
    {
        proof {
            use_type_invariant(self);
        }
        let es = self.edges();
        proof {
            lemma_edges_below_bounds(*self, self.node_count() as int);
        }
        let mut rev: Vec<(u32, u32, Cost)> = Vec::new();
        let mut i: usize = 0;
        while i < es.len()
            invariant
                i <= es@.len(),
                self.node_count() <= u32::MAX,
                es@ == edges_below(*self, self.node_count() as int),
                rev@ == reversed_edges(es@.take(i as int)),
                forall|j: int| 0 <= j < es@.len() ==> ((#[trigger] es@[j]).1 as int) < self.node_count() && (es@[j].0 as int) < self.node_count(),
            decreases es@.len() - i,
        {
            let (a, b, c) = es[i];
            rev.push((b as u32, a as u32, c));
            proof {
                assert(rev@ =~= reversed_edges(es@.take(i + 1)));
            }
            i = i + 1;
        }
        proof {
            assert(es@.take(es@.len() as int) =~= es@);
            assert(self.head@.len() == self.head.len());
            assert(self.head@[self.n as int] <= u32::MAX);
            assert(es@.len() == self.edge_count());
        }
        Graph::from_edges(self.n, rev)
    }
}

impl Graph {
    /// The graph induced by `nodes` (distinct global ids; local id `i` is
    /// `nodes[i]`), and the map from global id to local id (`u32::MAX` for
    /// nodes outside the set). Out-edges keep their order.
    pub fn induced_subgraph(&self, nodes: &[u32]) -> (res: (Graph, Vec<u32>))
        requires
            nodes@.len() < u32::MAX,
            targets_in_range(*self),
            forall|i: int| 0 <= i < nodes@.len() ==> (#[trigger] nodes@[i] as int) < self.node_count(),
            nodes@.no_duplicates(),
        ensures
            res.1@.len() == self.node_count(),
            forall|i: int| 0 <= i < nodes@.len() ==> res.1@[#[trigger] nodes@[i] as int] == i,
            forall|x: int|
                0 <= x < self.node_count() && res.1@[x] != u32::MAX ==> (res.1@[x] as int) < nodes@.len()
                    && nodes@[res.1@[x] as int] == x,
            res.0.node_count() == nodes@.len(),
            targets_in_range(res.0),
            forall|l: int|
                0 <= l < nodes@.len() ==> #[trigger] res.0.out_edges(l) == induced_outs(
                    self.out_edges(nodes@[l] as int),
                    res.1@,
                ),
    {
        proof {
            use_type_invariant(self);
        }
        let n = self.num_nodes();
        let mut g2l: Vec<u32> = vec![u32::MAX; n];
        let mut i: usize = 0;
        while i < nodes.len()
            invariant
                n == self.node_count(),
                i <= nodes@.len(),
                nodes@.len() < u32::MAX,
                g2l@.len() == n,
                forall|j: int| 0 <= j < nodes@.len() ==> (#[trigger] nodes@[j] as int) < n,
                nodes@.no_duplicates(),
                forall|j: int| 0 <= j < i ==> g2l@[#[trigger] nodes@[j] as int] == j,
                forall|x: int|
                    0 <= x < n && g2l@[x] != u32::MAX ==> (g2l@[x] as int) < i && nodes@[g2l@[x] as int] == x,
            decreases nodes@.len() - i,
        {
            g2l.set(nodes[i] as usize, i as u32);
            i = i + 1;
        }
        let ghost m = self.to@.len() as int;
        let ghost mut srcs: Seq<int> = Seq::empty();
        let mut edges: Vec<(u32, u32, Cost)> = Vec::new();
        let mut l: usize = 0;
        while l < nodes.len()
            invariant
                n == self.node_count(),
                n == self.n,
                self.head@.len() == n + 1,
                forall|a: int, b: int| 0 <= a <= b <= n ==> self.head@[a] <= self.head@[b],
                self.head@[n as int] == m,
                l <= nodes@.len(),
                nodes@.len() < u32::MAX,
                nodes@.no_duplicates(),
                g2l@.len() == n,
                targets_in_range(*self),
                forall|j: int| 0 <= j < nodes@.len() ==> (#[trigger] nodes@[j] as int) < n,
                forall|x: int|
                    0 <= x < n && g2l@[x] != u32::MAX ==> (g2l@[x] as int) < nodes@.len() && nodes@[g2l@[x] as int] == x,
                forall|j: int| 0 <= j < edges@.len() ==> ((#[trigger] edges@[j]).0 as int) < l && (edges@[j].1 as int) < nodes@.len(),
                forall|w: int| 0 <= w < l ==> #[trigger] outs_of(edges@, w) == induced_outs(self.out_edges(nodes@[w] as int), g2l@),
                forall|w: int| l <= w ==> #[trigger] outs_of(edges@, w) == Seq::<(u32, Cost)>::empty(),
                srcs.len() == edges@.len(),
                srcs.no_duplicates(),
                forall|j: int| 0 <= j < srcs.len() ==> {
                    let g = nodes@[edges@[j].0 as int] as int;
                    self.head@[g] <= #[trigger] srcs[j] < self.head@[g + 1]
                },
            decreases nodes@.len() - l,
        {
            let nb = self.neighbors(nodes[l] as usize);
            let ghost gl = nodes@[l as int] as int;
            let ghost e0 = edges@;
            let ghost s0 = srcs;
            let mut k: usize = 0;
            while k < nb.len()
                invariant
                    n == self.node_count(),
                    n == self.n,
                    self.head@.len() == n + 1,
                    forall|a: int, b: int| 0 <= a <= b <= n ==> self.head@[a] <= self.head@[b],
                    l < nodes@.len(),
                    nodes@.len() < u32::MAX,
                    nodes@.no_duplicates(),
                    g2l@.len() == n,
                    targets_in_range(*self),
                    0 <= gl < n,
                    gl == nodes@[l as int],
                    forall|j: int| 0 <= j < nodes@.len() ==> (#[trigger] nodes@[j] as int) < n,
                    nb@.len() == self.out_edges(gl).len(),
                    self.out_edges(gl).len() == self.head@[gl + 1] - self.head@[gl],
                    forall|j: int| 0 <= j < nb@.len() ==> #[trigger] nb@[j] == (self.out_edges(gl)[j].0 as usize, self.out_edges(gl)[j].1),
                    k <= nb@.len(),
                    forall|x: int|
                        0 <= x < n && g2l@[x] != u32::MAX ==> (g2l@[x] as int) < nodes@.len() && nodes@[g2l@[x] as int] == x,
                    forall|j: int| 0 <= j < edges@.len() ==> ((#[trigger] edges@[j]).0 as int) <= l && (edges@[j].1 as int) < nodes@.len(),
                    edges@.len() >= e0.len(),
                    edges@.subrange(0, e0.len() as int) == e0,
                    forall|j: int| 0 <= j < e0.len() ==> ((#[trigger] e0[j]).0 as int) < l,
                    forall|j: int| e0.len() <= j < edges@.len() ==> (#[trigger] edges@[j]).0 == l,
                    forall|w: int| w != l ==> #[trigger] outs_of(edges@, w) == outs_of(e0, w),
                    outs_of(edges@, l as int) == outs_of(e0, l as int) + induced_outs(self.out_edges(gl).take(k as int), g2l@),
                    srcs.len() == edges@.len(),
                    srcs.no_duplicates(),
                    srcs.subrange(0, s0.len() as int) == s0,
                    s0.len() == e0.len(),
                    forall|j: int| 0 <= j < srcs.len() ==> {
                        let g = nodes@[edges@[j].0 as int] as int;
                        self.head@[g] <= #[trigger] srcs[j] < self.head@[g + 1]
                    },
                    forall|j: int| e0.len() <= j < srcs.len() ==> #[trigger] srcs[j] < self.head@[gl] + k,
                decreases nb@.len() - k,
            {
                let (v, c) = nb[k];
                proof {
                    assert(self.out_edges(gl).take(k + 1).drop_last() =~= self.out_edges(gl).take(k as int));
                    assert((self.out_edges(gl)[k as int].0 as int) < n);
                }
                if g2l[v] != u32::MAX {
                    let ghost eb = edges@;
                    let ghost sb = srcs;
                    edges.push((l as u32, g2l[v], c));
                    proof {
                        let ns = self.head@[gl] + k;
                        srcs = srcs.push(ns);
                        assert(edges@.drop_last() =~= eb);
                        assert(edges@.last().0 as int == l);
                        assert forall|w: int| w != l implies #[trigger] outs_of(edges@, w) == outs_of(e0, w) by {
                            assert(outs_of(edges@, w) == outs_of(eb, w));
                        }
                        assert(edges@.subrange(0, e0.len() as int) =~= e0);
                        assert(srcs.subrange(0, s0.len() as int) =~= s0);
                        assert(outs_of(edges@, l as int) =~= outs_of(e0, l as int) + induced_outs(
                            self.out_edges(gl).take(k + 1),
                            g2l@,
                        ));
                        assert forall|a: int, b: int| 0 <= a < srcs.len() && 0 <= b < srcs.len() && a != b implies srcs[a] != srcs[b] by {
                            if a < sb.len() && b < sb.len() {
                                assert(srcs[a] == sb[a] && srcs[b] == sb[b]);
                            } else {
                                let o = if a < sb.len() { a } else { b };
                                assert(srcs[o] == sb[o]);
                                if o < e0.len() {
                                    let go = nodes@[edges@[o].0 as int] as int;
                                    assert(edges@[o] == e0[o]);
                                    assert((e0[o].0 as int) < l);
                                    assert(go != gl);
                                    if go < gl {
                                        assert(self.head@[go + 1] <= self.head@[gl]);
                                    } else {
                                        assert(self.head@[gl + 1] <= self.head@[go]);
                                    }
                                } else {
                                    assert(srcs[o] < self.head@[gl] + k);
                                }
                            }
                        }
                        assert forall|j: int| 0 <= j < srcs.len() implies {
                            let g = nodes@[edges@[j].0 as int] as int;
                            self.head@[g] <= #[trigger] srcs[j] < self.head@[g + 1]
                        } by {
                            if j < sb.len() {
                                assert(srcs[j] == sb[j] && edges@[j] == eb[j]);
                            }
                        }
                    }
                } else {
                    proof {
                        assert(outs_of(edges@, l as int) =~= outs_of(e0, l as int) + induced_outs(
                            self.out_edges(gl).take(k + 1),
                            g2l@,
                        ));
                    }
                }
                k = k + 1;
            }
            proof {
                assert(self.out_edges(gl).take(nb@.len() as int) =~= self.out_edges(gl));
                assert(outs_of(e0, l as int) == Seq::<(u32, Cost)>::empty());
                assert(outs_of(edges@, l as int) =~= induced_outs(self.out_edges(gl), g2l@));
            }
            l = l + 1;
        }
        proof {
            // distinct edge positions below m: at most m of them
            srcs.unique_seq_to_set();
            assert(srcs.to_set().subset_of(vstd::set_lib::set_int_range(0, m))) by {
                assert forall|x: int| srcs.to_set().contains(x) implies vstd::set_lib::set_int_range(0, m).contains(x) by {
                    let j = choose|j: int| 0 <= j < srcs.len() && srcs[j] == x;
                    let g = nodes@[edges@[j].0 as int] as int;
                    assert(self.head@[0] <= self.head@[g]);
                    assert(self.head@[g + 1] <= self.head@[n as int]);
                }
            }
            vstd::set_lib::lemma_int_range(0, m);
            vstd::set_lib::lemma_len_subset(srcs.to_set(), vstd::set_lib::set_int_range(0, m));
            assert(self.head@[n as int] <= u32::MAX);
        }
        let sub = Graph::from_edges(nodes.len(), edges);
        proof {
            assert forall|u: int, k: int|
                0 <= u < sub.node_count() && 0 <= k < sub.out_edges(u).len() implies (#[trigger] sub.out_edges(u)[k]).0
                < sub.node_count() by {
                lemma_outs_of_targets_below(edges@, u, nodes@.len() as int);
            }
        }
        (sub, g2l)
    }
}

/// Edge lists whose targets are all below `n` give out-lists with targets
/// below `n`.
pub proof fn lemma_outs_of_targets_below(es: Seq<(u32, u32, Cost)>, u: int, n: int)
    requires
        forall|i: int| 0 <= i < es.len() ==> ((#[trigger] es[i]).1 as int) < n,
    ensures
        forall|k: int| 0 <= k < outs_of(es, u).len() ==> ((#[trigger] outs_of(es, u)[k]).0 as int) < n,
    decreases es.len(),
{
    if es.len() > 0 {
        let r = es.drop_last();
        assert forall|i: int| 0 <= i < r.len() implies ((#[trigger] r[i]).1 as int) < n by {
            assert(r[i] == es[i]);
        }
        lemma_outs_of_targets_below(r, u, n);
        assert((es[es.len() - 1].1 as int) < n);
        assert forall|k: int| 0 <= k < outs_of(es, u).len() implies ((#[trigger] outs_of(es, u)[k]).0 as int) < n by {
            if k < outs_of(r, u).len() {
                assert(outs_of(es, u)[k] == outs_of(r, u)[k]);
            }
        }
    }
}

proof fn lemma_count_zero(edges: Seq<(u32, u32, Cost)>)
    ensures
        count_below(edges, 0) == 0,
    decreases edges.len(),
{
    if edges.len() > 0 {
        lemma_count_zero(edges.drop_last());
    }
}

proof fn lemma_outs_len_bound(edges: Seq<(u32, u32, Cost)>, u: int)
    ensures
        outs_of(edges, u).len() <= edges.len(),
    decreases edges.len(),
{
    if edges.len() > 0 {
        lemma_outs_len_bound(edges.drop_last(), u);
    }
}

impl CostGraph for Graph {
    /// Number of nodes.
    closed spec fn node_count(&self) -> nat {
        self.n as nat
    }

    /// Total number of edges.
    closed spec fn edge_count(&self) -> nat {
        self.to@.len()
    }

    /// The out-edges of `u` as `(to, cost)` pairs, in storage order.
    closed spec fn out_edges(&self, u: int) -> Seq<(u32, Cost)> {
        if 0 <= u < self.n {
            let lo = self.head@[u] as int;
            let hi = self.head@[u + 1] as int;
            Seq::new((hi - lo) as nat, |k: int| (self.to@[lo + k], self.cost@[lo + k]))
        } else {
            Seq::empty()
        }
    }

    fn node_num(&self) -> (r: usize) {
        self.num_nodes()
    }

    fn out_list(&self, u: usize) -> (r: Vec<(usize, Cost)>) {
        self.neighbors(u)
    }
}

/// An edge list gives node `u` the out-edge `(v, c)` exactly when it lists
/// `(u, v, c)`.
pub proof fn lemma_outs_of_contains(es: Seq<(u32, u32, Cost)>, u: int, v: int, c: Cost)
    ensures
        (exists|k: int|
            0 <= k < outs_of(es, u).len() && (#[trigger] outs_of(es, u)[k]).0 as int == v && outs_of(es, u)[k].1
                == c) <==> (exists|i: int|
            0 <= i < es.len() && (#[trigger] es[i]).0 as int == u && es[i].1 as int == v && es[i].2 == c),
    decreases es.len(),
{
    if es.len() > 0 {
        let r = es.drop_last();
        let e = es.last();
        lemma_outs_of_contains(r, u, v, c);
        let fr = outs_of(r, u);
        let f = outs_of(es, u);
        assert(e == es[es.len() - 1]);
        if exists|k: int| 0 <= k < f.len() && (#[trigger] f[k]).0 as int == v && f[k].1 == c {
            let k = choose|k: int| 0 <= k < f.len() && (#[trigger] f[k]).0 as int == v && f[k].1 == c;
            if k < fr.len() {
                assert(f[k] == fr[k]);
                let i = choose|i: int|
                    0 <= i < r.len() && (#[trigger] r[i]).0 as int == u && r[i].1 as int == v && r[i].2 == c;
                assert(es[i] == r[i]);
            }
        }
        if exists|i: int| 0 <= i < es.len() && (#[trigger] es[i]).0 as int == u && es[i].1 as int == v && es[i].2 == c {
            let i = choose|i: int|
                0 <= i < es.len() && (#[trigger] es[i]).0 as int == u && es[i].1 as int == v && es[i].2 == c;
            if i < r.len() {
                assert(r[i] == es[i]);
                let k = choose|k: int| 0 <= k < fr.len() && (#[trigger] fr[k]).0 as int == v && fr[k].1 == c;
                assert(f[k] == fr[k]);
            } else {
                assert(f[fr.len() as int] == (e.1, e.2));
            }
        }
    }
}

/// The listed edges below node `k` are exactly the out-edges of nodes below
/// `k`.
pub proof fn lemma_edges_below_contains(g: Graph, k: int, u: int, v: int, c: Cost)
    requires
        0 <= k <= g.node_count(),
        targets_in_range(g),
    ensures
        (exists|i: int|
            0 <= i < edges_below(g, k).len() && (#[trigger] edges_below(g, k)[i]).0 as int == u
                && edges_below(g, k)[i].1 as int == v && edges_below(g, k)[i].2 == c) <==> (0 <= u < k && exists|j: int|
            0 <= j < g.out_edges(u).len() && (#[trigger] g.out_edges(u)[j]).0 as int == v && g.out_edges(u)[j].1 == c),
    decreases k,
{
    if k > 0 {
        lemma_edges_below_contains(g, k - 1, u, v, c);
        let prev = edges_below(g, k - 1);
        let outs = g.out_edges(k - 1);
        let cur = edges_below(g, k);
        let tail = outs.map_values(|e: (u32, Cost)| ((k - 1) as usize, e.0 as usize, e.1));
        assert(cur == prev + tail);
        assert(g.node_count() <= usize::MAX);
        if exists|i: int|
            0 <= i < cur.len() && (#[trigger] cur[i]).0 as int == u && cur[i].1 as int == v && cur[i].2 == c {
            let i = choose|i: int|
                0 <= i < cur.len() && (#[trigger] cur[i]).0 as int == u && cur[i].1 as int == v && cur[i].2 == c;
            if i < prev.len() {
                assert(cur[i] == prev[i]);
            } else {
                let j = i - prev.len();
                assert(cur[i] == tail[j]);
                assert(outs[j].0 as usize as int == outs[j].0 as int);
            }
        }
        if 0 <= u < k && exists|j: int|
            0 <= j < g.out_edges(u).len() && (#[trigger] g.out_edges(u)[j]).0 as int == v && g.out_edges(u)[j].1 == c {
            if u < k - 1 {
                let i = choose|i: int|
                    0 <= i < prev.len() && (#[trigger] prev[i]).0 as int == u && prev[i].1 as int == v && prev[i].2 == c;
                assert(cur[i] == prev[i]);
            } else {
                let j = choose|j: int|
                    0 <= j < outs.len() && (#[trigger] outs[j]).0 as int == v && outs[j].1 == c;
                assert(cur[prev.len() + j] == tail[j]);
                assert(outs[j].0 as usize as int == outs[j].0 as int);
            }
        }
    } else {
        assert(edges_below(g, k).len() == 0);
    }
}

/// The edges of the reversed graph are the edges of `g` turned around.
#[verifier::spinoff_prover]
#[verifier::rlimit(30)]
pub proof fn lemma_reversed_has_edge(g: Graph, r: Graph, a: int, b: int, c: Cost)
    requires
        targets_in_range(g),
        g.node_count() <= u32::MAX,
        r.node_count() == g.node_count(),
        forall|u: int|
            0 <= u < g.node_count() ==> #[trigger] r.out_edges(u) == outs_of(
                reversed_edges(edges_below(g, g.node_count() as int)),
                u,
            ),
    ensures
        has_edge(r, a, b, c) <==> has_edge(g, b, a, c),
{
    let n = g.node_count() as int;
    let es = edges_below(g, n);
    let rev = reversed_edges(es);
    lemma_edges_below_bounds(g, n);
    lemma_edges_below_contains(g, n, b, a, c);
    if 0 <= a < n {
        lemma_outs_of_contains(rev, a, b, c);
        assert(r.out_edges(a) == outs_of(rev, a));
        if has_edge(r, a, b, c) {
            let k = choose|k: int|
                0 <= k < r.out_edges(a).len() && (#[trigger] r.out_edges(a)[k]).0 as int == b && r.out_edges(a)[k].1 == c;
            assert(outs_of(rev, a)[k].0 as int == b && outs_of(rev, a)[k].1 == c);
            let i = choose|i: int|
                0 <= i < rev.len() && (#[trigger] rev[i]).0 as int == a && rev[i].1 as int == b && rev[i].2 == c;
            assert(rev[i] == (es[i].1 as u32, es[i].0 as u32, es[i].2));
            assert((es[i].0 as int) < n && (es[i].1 as int) < n);
            assert(es[i].0 as int == b);
        }
        if has_edge(g, b, a, c) {
            let i = choose|i: int|
                0 <= i < es.len() && (#[trigger] es[i]).0 as int == b && es[i].1 as int == a && es[i].2 == c;
            assert(rev[i] == (es[i].1 as u32, es[i].0 as u32, es[i].2));
            assert((es[i].0 as int) < n && (es[i].1 as int) < n);
            assert(rev[i].0 as int == a);
            let k = choose|k: int|
                0 <= k < outs_of(rev, a).len() && (#[trigger] outs_of(rev, a)[k]).0 as int == b && outs_of(rev, a)[k].1 == c;
            assert(r.out_edges(a)[k].0 as int == b && r.out_edges(a)[k].1 == c);
        }
    }
}

/// The out-edges of a node that stay inside a node subset, renumbered:
/// `(l, c)` is one of them exactly when the node has an out-edge `(x, c)`
/// with `x` inside the subset and renumbered to `l`.
pub proof fn lemma_induced_outs_contains(outs: Seq<(u32, Cost)>, g2l: Seq<u32>, l: int, c: Cost)
    requires
        forall|k: int| 0 <= k < outs.len() ==> ((#[trigger] outs[k]).0 as int) < g2l.len(),
    ensures
        (exists|k: int|
            0 <= k < induced_outs(outs, g2l).len() && (#[trigger] induced_outs(outs, g2l)[k]).0 as int == l
                && induced_outs(outs, g2l)[k].1 == c) <==> (exists|k: int|
            0 <= k < outs.len() && g2l[(#[trigger] outs[k]).0 as int] != u32::MAX && g2l[outs[k].0 as int] as int
                == l && outs[k].1 == c),
    decreases outs.len(),
{
    if outs.len() > 0 {
        let r = outs.drop_last();
        let e = outs.last();
        assert forall|k: int| 0 <= k < r.len() implies ((#[trigger] r[k]).0 as int) < g2l.len() by {
            assert(r[k] == outs[k]);
        }
        lemma_induced_outs_contains(r, g2l, l, c);
        let fr = induced_outs(r, g2l);
        let f = induced_outs(outs, g2l);
        assert(e == outs[outs.len() - 1]);
        if exists|k: int| 0 <= k < f.len() && (#[trigger] f[k]).0 as int == l && f[k].1 == c {
            let k = choose|k: int| 0 <= k < f.len() && (#[trigger] f[k]).0 as int == l && f[k].1 == c;
            if k < fr.len() {
                assert(f[k] == fr[k]);
                let i = choose|i: int|
                    0 <= i < r.len() && g2l[(#[trigger] r[i]).0 as int] != u32::MAX && g2l[r[i].0 as int] as int == l
                        && r[i].1 == c;
                assert(outs[i] == r[i]);
            }
        }
        if exists|k: int|
            0 <= k < outs.len() && g2l[(#[trigger] outs[k]).0 as int] != u32::MAX && g2l[outs[k].0 as int] as int
                == l && outs[k].1 == c {
            let i = choose|i: int|
                0 <= i < outs.len() && g2l[(#[trigger] outs[i]).0 as int] != u32::MAX && g2l[outs[i].0 as int] as int
                    == l && outs[i].1 == c;
            if i < r.len() {
                assert(r[i] == outs[i]);
                let k = choose|k: int| 0 <= k < fr.len() && (#[trigger] fr[k]).0 as int == l && fr[k].1 == c;
                assert(f[k] == fr[k]);
            } else {
                assert(f[fr.len() as int] == (g2l[e.0 as int], e.1));
            }
        }
    }
}

/// An element-by-element copy of a vector of plain values.
pub(crate) fn copy_vec<T: Copy>(v: &Vec<T>) -> (r: Vec<T>)
    ensures
        r@ == v@,
{
    let mut r: Vec<T> = Vec::new();
    let mut i: usize = 0;
    while i < v.len()
        invariant
            i <= v@.len(),
            r@ == v@.take(i as int),
        decreases v@.len() - i,
    {
        r.push(v[i]);
        i = i + 1;
        assert(r@ =~= v@.take(i as int));
    }
    assert(v@.take(v@.len() as int) =~= v@);
    r
}

impl Clone for Graph {
    fn clone(&self) -> (r: Graph)
        ensures
            r.node_count() == self.node_count(),
            r.edge_count() == self.edge_count(),
            forall|u: int| #[trigger] r.out_edges(u) == self.out_edges(u),
    {
        proof {
            use_type_invariant(self);
        }
        Graph {
            n: self.n,
            head: copy_vec(&self.head),
            to: copy_vec(&self.to),
            cost: copy_vec(&self.cost),
        }
    }
}

} // verus!
