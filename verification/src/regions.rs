//! Region-growing partition: seeds spread over the node ids grow outward
//! over the undirected graph, breadth first, each node joining the region
//! that reaches it first.

use vstd::prelude::*;

use crate::cost::Cost;
use crate::graph::Graph;
use crate::relations::{has_edge, lemma_rel_walk_append, rel_costs, rel_walk};
use crate::walks::{targets_in_range, CostGraph};
use std::collections::VecDeque;

verus! {

/// The edges of `g` taken in both directions.
pub open spec fn und_rel(g: Graph) -> spec_fn(int, int, Cost) -> bool {
    |u: int, v: int, c: Cost| has_edge(g, u, v, c) || has_edge(g, v, u, c)
}

/// The undirected edges of `g` between two nodes labelled `f`.
pub open spec fn region_rel(g: Graph, labels: Seq<u32>, f: int) -> spec_fn(int, int, Cost) -> bool {
    |u: int, v: int, c: Cost| (has_edge(g, u, v, c) || has_edge(g, v, u, c)) && labels[u] as int == f && labels[v] as int == f
}

/// Some walk of `e` leads from `s` to `t`.
pub open spec fn reaches(e: spec_fn(int, int, Cost) -> bool, s: int, t: int) -> bool {
    exists|p: (int, int)| #[trigger] rel_costs(e, s, t)(p)
}

/// Some walk of `e` with at most `h` edges leads from `s` to `t`.
pub open spec fn hop_reach(e: spec_fn(int, int, Cost) -> bool, s: int, t: int, h: int) -> bool {
    exists|ns: Seq<int>, cs: Seq<Cost>| #[trigger] rel_walk(e, ns, cs) && ns[0] == s && ns.last() == t && cs.len() <= h
}

/// The seed node of region `f` among `n` nodes and `k` regions.
pub open spec fn seed(n: int, k: int, f: int) -> int {
    (f * n) / k
}

/// `adj[x]` lists the undirected neighbours of `x`.
spec fn adjacency_ok(g: Graph, adj: Seq<Vec<u32>>) -> bool {
    &&& adj.len() == g.node_count()
    &&& forall|x: int, i: int|
        0 <= x < adj.len() && 0 <= i < adj[x]@.len() ==> (#[trigger] adj[x]@[i] as int) < g.node_count()
            && exists|c: Cost| #[trigger] und_rel(g)(x, adj[x]@[i] as int, c)
    &&& forall|x: int, y: int, c: Cost| #[trigger] und_rel(g)(x, y, c) ==> adj[x]@.contains(y as u32)
}

/// The undirected neighbours of every node.
#[verifier::rlimit(30)]
fn undirected_adjacency(graph: &Graph) -> (adj: Vec<Vec<u32>>)
    requires
        targets_in_range(*graph),
        graph.node_count() < u32::MAX,
    ensures
        adjacency_ok(*graph, adj@),
{
    let ghost g = *graph;
    let n = graph.num_nodes();
    let mut adj: Vec<Vec<u32>> = Vec::new();
    let mut i: usize = 0;
    while i < n
        invariant
            i <= n,
            adj@.len() == i,
            forall|h: int| 0 <= h < i ==> (#[trigger] adj@[h])@.len() == 0,
        decreases n - i,
    {
        adj.push(Vec::new());
        i = i + 1;
    }
    let mut u: usize = 0;
    while u < n
        invariant
            g == *graph,
            n == g.node_count(),
            n < u32::MAX,
            targets_in_range(g),
            u <= n,
            adj@.len() == n,
            forall|x: int, i: int|
                0 <= x < n && 0 <= i < adj@[x]@.len() ==> (#[trigger] adj@[x]@[i] as int) < n && exists|c: Cost|
                    #[trigger] und_rel(g)(x, adj@[x]@[i] as int, c),
            forall|a: int, jj: int|
                0 <= a < u && 0 <= jj < g.out_edges(a).len() ==> adj@[a]@.contains(
                    (#[trigger] g.out_edges(a)[jj]).0,
                ) && adj@[g.out_edges(a)[jj].0 as int]@.contains(a as u32),
        decreases n - u,
    {
        let nb = graph.neighbors(u);
        let mut j: usize = 0;
        while j < nb.len()
            invariant
                g == *graph,
                n == g.node_count(),
                n < u32::MAX,
                targets_in_range(g),
                u < n,
                j <= nb@.len(),
                adj@.len() == n,
                nb@.len() == g.out_edges(u as int).len(),
                forall|kk: int|
                    0 <= kk < nb@.len() ==> #[trigger] nb@[kk] == (
                    g.out_edges(u as int)[kk].0 as usize,
                    g.out_edges(u as int)[kk].1,
                ),
                forall|x: int, i: int|
                    0 <= x < n && 0 <= i < adj@[x]@.len() ==> (#[trigger] adj@[x]@[i] as int) < n && exists|c: Cost|
                        #[trigger] und_rel(g)(x, adj@[x]@[i] as int, c),
                forall|a: int, jj: int|
                    (0 <= a < u || (a == u && jj < j)) && 0 <= jj < g.out_edges(a).len() ==> adj@[a]@.contains(
                        (#[trigger] g.out_edges(a)[jj]).0,
                    ) && adj@[g.out_edges(a)[jj].0 as int]@.contains(a as u32),
            decreases nb@.len() - j,
        {
            let (v, c) = nb[j];
            let ghost e = g.out_edges(u as int)[j as int];
            proof {
                assert((e.0 as int) < n);
                assert(has_edge(g, u as int, v as int, c));
            }
            let ghost a0 = adj@;
            adj[u].push(v as u32);
            let ghost a1 = adj@;
            adj[v].push(u as u32);
            proof {
                assert forall|x: int, i: int|
                    0 <= x < n && 0 <= i < adj@[x]@.len() implies (#[trigger] adj@[x]@[i] as int) < n && exists|cc: Cost|
                        #[trigger] und_rel(g)(x, adj@[x]@[i] as int, cc) by {
                    if x != u && x != v {
                        assert(adj@[x] == a0[x]);
                    } else if x == v && i == adj@[x]@.len() - 1 {
                        assert(adj@[x]@[i] == u as u32);
                        assert(und_rel(g)(x, u as int, c));
                    } else if x == u && x != v && i == adj@[x]@.len() - 1 {
                        assert(adj@[x]@[i] == v as u32);
                        assert(und_rel(g)(x, v as int, c));
                    } else if x == u && x == v && i == adj@[x]@.len() - 2 {
                        assert(adj@[x]@[i] == v as u32);
                        assert(und_rel(g)(x, v as int, c));
                    } else if x == u && x != v {
                        assert(adj@[x]@[i] == a0[x]@[i]);
                    } else if x == v && x != u {
                        assert(adj@[x]@[i] == a0[x]@[i]);
                    } else {
                        assert(adj@[x]@[i] == a0[x]@[i]);
                    }
                }
                assert forall|a: int, jj: int|
                    (0 <= a < u || (a == u && jj < j + 1)) && 0 <= jj < g.out_edges(a).len() implies adj@[a]@.contains(
                        (#[trigger] g.out_edges(a)[jj]).0,
                    ) && adj@[g.out_edges(a)[jj].0 as int]@.contains(a as u32) by {
                    let b = g.out_edges(a)[jj].0 as int;
                    assert(b < n);
                    if a == u && jj == j {
                        assert(adj@[v as int]@.last() == u as u32);
                        assert(a1[u as int]@.last() == v as u32);
                        assert(a1[u as int]@.contains(v as u32));
                        if u != v {
                            assert(adj@[u as int] == a1[u as int]);
                        } else {
                            assert(adj@[u as int]@ == a1[u as int]@.push(u as u32));
                            let p = choose|p: int| 0 <= p < a1[u as int]@.len() && a1[u as int]@[p] == v as u32;
                            assert(adj@[u as int]@[p] == v as u32);
                        }
                    } else {
                        assert(a0[a]@.contains(b as u32));
                        assert(a0[b]@.contains(a as u32));
                        let p = choose|p: int| 0 <= p < a0[a]@.len() && a0[a]@[p] == b as u32;
                        let q = choose|q: int| 0 <= q < a0[b]@.len() && a0[b]@[q] == a as u32;
                        assert(adj@[a]@[p] == b as u32);
                        assert(adj@[b]@[q] == a as u32);
                    }
                }
            }
            j = j + 1;
        }
        u = u + 1;
    }
    proof {
        assert forall|x: int, y: int, c: Cost| #[trigger] und_rel(g)(x, y, c) implies adj@[x]@.contains(y as u32) by {
            if has_edge(g, x, y, c) {
                let jj = choose|jj: int| 0 <= jj < g.out_edges(x).len() && (#[trigger] g.out_edges(x)[jj]).0 as int == y && g.out_edges(x)[jj].1 == c;
                assert(adj@[x]@.contains(g.out_edges(x)[jj].0));
            } else {
                assert(has_edge(g, y, x, c));
                let jj = choose|jj: int| 0 <= jj < g.out_edges(y).len() && (#[trigger] g.out_edges(y)[jj]).0 as int == x && g.out_edges(y)[jj].1 == c;
                assert(adj@[g.out_edges(y)[jj].0 as int]@.contains(y as u32));
            }
        }
    }
    adj
}

/// Number of entries of `s` that are `u32::MAX` (not yet labelled).
spec fn unlabelled(s: Seq<u32>) -> nat
    decreases s.len(),
{
    if s.len() == 0 {
        0
    } else {
        unlabelled(s.drop_last()) + if s.last() == u32::MAX {
            1nat
        } else {
            0nat
        }
    }
}

proof fn lemma_unlabelled_set(s: Seq<u32>, v: int, f: u32)
    requires
        0 <= v < s.len(),
        s[v] == u32::MAX,
        f != u32::MAX,
    ensures
        unlabelled(s.update(v, f)) + 1 == unlabelled(s),
    decreases s.len(),
{
    let t = s.update(v, f);
    if v < s.len() - 1 {
        assert(t.drop_last() =~= s.drop_last().update(v, f));
        lemma_unlabelled_set(s.drop_last(), v, f);
    } else {
        assert(t.drop_last() =~= s.drop_last());
    }
}

/// Distinct regions have distinct seeds, increasing with the region, and
/// every seed is a node.
proof fn lemma_seeds(n: int, k: int, f1: int, f2: int)
    requires
        1 <= k <= n,
        0 <= f1 < f2 < k,
    ensures
        0 <= seed(n, k, f1) < seed(n, k, f2) < n,
{
    let a = f1 * n;
    let b = f2 * n;
    let d = f2 - f1;
    assert(b - a == d * n) by (nonlinear_arith)
        requires
            a == f1 * n,
            b == f2 * n,
            d == f2 - f1,
    ;
    assert(d * n >= n) by (nonlinear_arith)
        requires
            d >= 1,
            n >= 1,
    ;
    assert(0 <= a) by (nonlinear_arith)
        requires
            0 <= f1,
            0 <= n,
            a == f1 * n,
    ;
    assert(a / k < b / k) by (nonlinear_arith)
        requires
            b >= a + k,
            0 <= a,
            1 <= k,
    ;
    assert(b < k * n) by (nonlinear_arith)
        requires
            f2 < k,
            1 <= n,
            b == f2 * n,
    ;
    assert(b / k < n) by (nonlinear_arith)
        requires
            b < k * n,
            0 <= b,
            1 <= k,
    ;
}

/// Every seed is a node.
proof fn lemma_seed_range(n: int, k: int, f: int)
    requires
        1 <= k <= n,
        0 <= f < k,
    ensures
        0 <= seed(n, k, f) < n,
{
    if f + 1 < k {
        lemma_seeds(n, k, f, f + 1);
    } else if f > 0 {
        lemma_seeds(n, k, 0, f);
    } else {
        assert(f * n == 0);
    }
}

/// Labels and levels of the growing partition: a labelled node `x` is
/// within `lvl[x]` edges of its region's seed, walking inside the region,
/// and no seed is within fewer edges of it in the whole undirected graph.
#[verifier::opaque]
spec fn grown(g: Graph, part: Seq<u32>, lvl: Seq<int>, n: int, k: int) -> bool {
    &&& part.len() == n
    &&& lvl.len() == n
    &&& forall|x: int| 0 <= x < n ==> #[trigger] part[x] == u32::MAX || (part[x] as int) < k
    &&& forall|x: int|
        0 <= x < n && #[trigger] part[x] != u32::MAX ==> lvl[x] >= 0 && hop_reach(
            region_rel(g, part, part[x] as int),
            seed(n, k, part[x] as int),
            x,
            lvl[x],
        )
    &&& forall|x: int, f: int, h: int|
        0 <= x < n && part[x] != u32::MAX && 0 <= f < k && h < lvl[x] ==> !#[trigger] hop_reach(
            und_rel(g),
            seed(n, k, f),
            x,
            h,
        )
}

/// Every node within `cur` edges of a seed is labelled.
#[verifier::opaque]
spec fn near_labelled(g: Graph, part: Seq<u32>, n: int, k: int, cur: int) -> bool {
    forall|x: int, f: int|
        0 <= x < n && 0 <= f < k && #[trigger] hop_reach(und_rel(g), seed(n, k, f), x, cur) ==> part[x] != u32::MAX
}

/// The levels along the queue never decrease and lie in `[cur, cur + 1]`.
spec fn queue_levels(q: Seq<u32>, lvl: Seq<int>, cur: int) -> bool {
    &&& forall|i: int, j: int| 0 <= i < j < q.len() ==> lvl[#[trigger] q[i] as int] <= lvl[#[trigger] q[j] as int]
    &&& forall|i: int| 0 <= i < q.len() ==> cur <= lvl[#[trigger] q[i] as int] <= cur + 1
}

/// Labelling one more node keeps every region's walks.
proof fn lemma_label_keeps_walks(g: Graph, part: Seq<u32>, v: int, f: u32, h: int, s: int, t: int, hops: int)
    requires
        part.len() == g.node_count(),
        0 <= v < part.len(),
        part[v] == u32::MAX,
        h != u32::MAX as int,
        hop_reach(region_rel(g, part, h), s, t, hops),
    ensures
        hop_reach(region_rel(g, part.update(v, f), h), s, t, hops),
{
    let part2 = part.update(v, f);
    assert forall|a: int, b: int, c: Cost| #[trigger] region_rel(g, part, h)(a, b, c) implies region_rel(g, part2, h)(a, b, c) by {
        assert(a != v && b != v);
    }
    lemma_hop_mono(region_rel(g, part, h), region_rel(g, part2, h), s, t, hops);
}

/// The empty walk.
proof fn lemma_hop_refl(e: spec_fn(int, int, Cost) -> bool, s: int)
    ensures
        hop_reach(e, s, s, 0),
{
    let ns = seq![s];
    let cs = Seq::<Cost>::empty();
    assert(rel_walk(e, ns, cs));
}

/// A walk of no edges ends where it starts.
proof fn lemma_hop_zero(e: spec_fn(int, int, Cost) -> bool, s: int, t: int)
    requires
        hop_reach(e, s, t, 0),
    ensures
        s == t,
{
    let (ns, cs) = choose|ns: Seq<int>, cs: Seq<Cost>|
        #[trigger] rel_walk(e, ns, cs) && ns[0] == s && ns.last() == t && cs.len() <= 0;
    assert(ns.len() == 1);
}

/// A bound on the edges can always be raised.
proof fn lemma_hop_le(e: spec_fn(int, int, Cost) -> bool, s: int, t: int, h1: int, h2: int)
    requires
        hop_reach(e, s, t, h1),
        h1 <= h2,
    ensures
        hop_reach(e, s, t, h2),
{
    let (ns, cs) = choose|ns: Seq<int>, cs: Seq<Cost>|
        #[trigger] rel_walk(e, ns, cs) && ns[0] == s && ns.last() == t && cs.len() <= h1;
    assert(rel_walk(e, ns, cs) && ns[0] == s && ns.last() == t && cs.len() <= h2);
}

/// One more edge at the end of a walk.
proof fn lemma_hop_step(e: spec_fn(int, int, Cost) -> bool, s: int, u: int, v: int, c: Cost, h: int)
    requires
        hop_reach(e, s, u, h),
        e(u, v, c),
    ensures
        hop_reach(e, s, v, h + 1),
{
    let (ns, cs) = choose|ns: Seq<int>, cs: Seq<Cost>|
        #[trigger] rel_walk(e, ns, cs) && ns[0] == s && ns.last() == u && cs.len() <= h;
    let ns2 = seq![u, v];
    let cs2 = seq![c];
    assert(rel_walk(e, ns2, cs2)) by {
        assert forall|i: int| 0 <= i < cs2.len() implies e(ns2[i], ns2[i + 1], #[trigger] cs2[i]) by {}
    }
    lemma_rel_walk_append(e, ns, cs, ns2, cs2);
    assert(rel_walk(e, ns + ns2.drop_first(), cs + cs2));
}

/// A walk of a relation is a walk of any larger relation.
proof fn lemma_hop_mono(e1: spec_fn(int, int, Cost) -> bool, e2: spec_fn(int, int, Cost) -> bool, s: int, t: int, h: int)
    requires
        forall|a: int, b: int, c: Cost| #[trigger] e1(a, b, c) ==> e2(a, b, c),
        hop_reach(e1, s, t, h),
    ensures
        hop_reach(e2, s, t, h),
{
    let (ns, cs) = choose|ns: Seq<int>, cs: Seq<Cost>|
        #[trigger] rel_walk(e1, ns, cs) && ns[0] == s && ns.last() == t && cs.len() <= h;
    assert(rel_walk(e2, ns, cs)) by {
        assert forall|i: int| 0 <= i < cs.len() implies e2(ns[i], ns[i + 1], #[trigger] cs[i]) by {
            assert(e1(ns[i], ns[i + 1], cs[i]));
        }
    }
}

/// A walk with a bound on its edges is a walk.
proof fn lemma_hop_reaches(e: spec_fn(int, int, Cost) -> bool, s: int, t: int, h: int)
    requires
        hop_reach(e, s, t, h),
    ensures
        reaches(e, s, t),
{
    let (ns, cs) = choose|ns: Seq<int>, cs: Seq<Cost>|
        #[trigger] rel_walk(e, ns, cs) && ns[0] == s && ns.last() == t && cs.len() <= h;
    assert(rel_costs(e, s, t)(crate::relations::cost_sum(cs)));
}

/// The last edge of a walk of at most `h >= 1` edges: the target is within
/// `h - 1` edges already, or an edge `(y, t)` leaves a node `y` within
/// `h - 1` edges.
proof fn lemma_hop_last(e: spec_fn(int, int, Cost) -> bool, s: int, t: int, h: int) -> (r: (int, Cost))
    requires
        hop_reach(e, s, t, h),
        h >= 1,
    ensures
        hop_reach(e, s, t, h - 1) || (hop_reach(e, s, r.0, h - 1) && e(r.0, t, r.1)),
{
    let (ns, cs) = choose|ns: Seq<int>, cs: Seq<Cost>|
        #[trigger] rel_walk(e, ns, cs) && ns[0] == s && ns.last() == t && cs.len() <= h;
    if cs.len() < h {
        assert(rel_walk(e, ns, cs) && ns[0] == s && ns.last() == t && cs.len() <= h - 1);
        (s, Cost { c1: 0, c2: 0 })
    } else {
        let k = cs.len() - 1;
        let ns1 = ns.drop_last();
        let cs1 = cs.drop_last();
        assert(rel_walk(e, ns1, cs1)) by {
            assert forall|i: int| 0 <= i < cs1.len() implies e(ns1[i], ns1[i + 1], #[trigger] cs1[i]) by {
                assert(cs1[i] == cs[i]);
                assert(ns1[i] == ns[i] && ns1[i + 1] == ns[i + 1]);
            }
        }
        assert(ns1[0] == s);
        assert(ns1.last() == ns[k]);
        assert(e(ns[k], ns[k + 1], cs[k]));
        (ns[k], cs[k])
    }
}

/// When every labelled node's neighbours are labelled, no walk leaves the
/// labelled nodes.
proof fn lemma_closed_walk(g: Graph, part: Seq<u32>, adj: Seq<Vec<u32>>, ns: Seq<int>, cs: Seq<Cost>)
    requires
        adjacency_ok(g, adj),
        part.len() == g.node_count(),
        forall|x: int, i: int|
            0 <= x < part.len() && part[x] != u32::MAX && 0 <= i < adj[x]@.len() ==> part[#[trigger] adj[x]@[i] as int] != u32::MAX,
        g.node_count() < u32::MAX,
        rel_walk(und_rel(g), ns, cs),
        0 <= ns[0] < part.len(),
        part[ns[0]] != u32::MAX,
    ensures
        0 <= ns.last() < part.len(),
        part[ns.last()] != u32::MAX,
    decreases cs.len(),
{
    if cs.len() > 0 {
        let ns1 = ns.drop_last();
        let cs1 = cs.drop_last();
        assert forall|i: int| 0 <= i < cs1.len() implies und_rel(g)(ns1[i], ns1[i + 1], #[trigger] cs1[i]) by {
            assert(cs1[i] == cs[i]);
            assert(ns1[i] == ns[i] && ns1[i + 1] == ns[i + 1]);
        }
        lemma_closed_walk(g, part, adj, ns1, cs1);
        let k = cs.len() - 1;
        assert(ns1.last() == ns[k]);
        let x = ns[k];
        let y = ns[k + 1];
        assert(und_rel(g)(x, y, cs[k]));
        assert(adj[x]@.contains(y as u32));
        assert(has_edge(g, x, y, cs[k]) || has_edge(g, y, x, cs[k]));
        assert(0 <= y < g.node_count());
        let i = choose|i: int| 0 <= i < adj[x]@.len() && adj[x]@[i] == y as u32;
        assert(part[adj[x]@[i] as int] != u32::MAX);
    } else {
        assert(ns.last() == ns[0]);
    }
}

/// Each region's seed carries its region's label.
spec fn seeds_kept(part: Seq<u32>, n: int, k: int) -> bool {
    forall|f: int| 0 <= f < k ==> #[trigger] part[seed(n, k, f)] as int == f
}

/// The queue holds distinct labelled nodes.
spec fn queue_ok(part: Seq<u32>, q: Seq<u32>, n: int) -> bool {
    &&& forall|i: int| 0 <= i < q.len() ==> (#[trigger] q[i] as int) < n && part[q[i] as int] != u32::MAX
    &&& forall|i: int, j: int| 0 <= i < j < q.len() ==> q[i] != q[j]
}

/// Every labelled node off the queue, other than `u`, has only labelled
/// neighbours.
spec fn closed_off_queue(part: Seq<u32>, q: Seq<u32>, adj: Seq<Vec<u32>>, n: int, u: int) -> bool {
    forall|x: int, i: int|
        0 <= x < n && x != u && part[x] != u32::MAX && !q.contains(x as u32) && 0 <= i < adj[x]@.len()
            ==> part[#[trigger] adj[x]@[i] as int] != u32::MAX
}

/// Taking the front `u` off the queue leaves it off the queue, and every
/// other node that is off the queue now was off it before.
proof fn lemma_pop_front(part: Seq<u32>, q: Seq<u32>, adj: Seq<Vec<u32>>, n: int)
    requires
        q.len() > 0,
        part.len() == n,
        n < u32::MAX,
        queue_ok(part, q, n),
        closed_off_queue(part, q, adj, n, -1),
    ensures
        queue_ok(part, q.drop_first(), n),
        !q.drop_first().contains(q[0]),
        closed_off_queue(part, q.drop_first(), adj, n, q[0] as int),
        (q[0] as int) < n,
        part[q[0] as int] != u32::MAX,
{
    let u = q[0];
    let q1 = q.drop_first();
    assert forall|i: int| 0 <= i < q1.len() implies q1[i] != u by {
        assert(q1[i] == q[i + 1]);
    }
    assert forall|i: int, j: int| 0 <= i < j < q1.len() implies q1[i] != q1[j] by {
        assert(q1[i] == q[i + 1] && q1[j] == q[j + 1]);
    }
    assert forall|i: int| 0 <= i < q1.len() implies (#[trigger] q1[i] as int) < n && part[q1[i] as int] != u32::MAX by {
        assert(q1[i] == q[i + 1]);
    }
    assert forall|x: int, i: int|
        0 <= x < n && x != u && part[x] != u32::MAX && !q1.contains(x as u32) && 0 <= i < adj[x]@.len()
            implies part[#[trigger] adj[x]@[i] as int] != u32::MAX by {
        if q.contains(x as u32) {
            let t = choose|t: int| 0 <= t < q.len() && q[t] == x as u32;
            assert(t > 0);
            assert(q1[t - 1] == x as u32);
        }
    }
}

/// Taking the front `u` off a queue whose levels run from `cur` to
/// `cur + 1` makes `lvl[u]` the current level: the rest of the queue lies
/// in `[lvl[u], lvl[u] + 1]`, and every node within `lvl[u]` edges of a
/// seed is labelled.
#[verifier::rlimit(30)]
proof fn lemma_pop_level(
    g: Graph,
    part: Seq<u32>,
    lvl: Seq<int>,
    q: Seq<u32>,
    adj: Seq<Vec<u32>>,
    n: int,
    k: int,
    cur: int,
)
    requires
        n == g.node_count(),
        n < u32::MAX,
        1 <= k <= n,
        adjacency_ok(g, adj),
        q.len() > 0,
        grown(g, part, lvl, n, k),
        queue_ok(part, q, n),
        closed_off_queue(part, q, adj, n, -1),
        cur >= 0,
        queue_levels(q, lvl, cur),
        near_labelled(g, part, n, k, cur),
    ensures
        lvl[q[0] as int] >= 0,
        queue_levels(q.drop_first(), lvl, lvl[q[0] as int]),
        near_labelled(g, part, n, k, lvl[q[0] as int]),
{
    reveal(grown);
    let c2 = lvl[q[0] as int];
    let q1 = q.drop_first();
    assert forall|i: int, j: int| 0 <= i < j < q1.len() implies lvl[#[trigger] q1[i] as int] <= lvl[#[trigger] q1[j] as int] by {
        assert(q1[i] == q[i + 1] && q1[j] == q[j + 1]);
    }
    assert forall|i: int| 0 <= i < q1.len() implies c2 <= lvl[#[trigger] q1[i] as int] <= c2 + 1 by {
        assert(q1[i] == q[i + 1]);
        assert(lvl[q[0] as int] <= lvl[q[i + 1] as int]);
    }
    assert(cur <= c2 <= cur + 1);
    if c2 != cur {
        reveal(near_labelled);
        assert forall|x: int, f: int|
            0 <= x < n && 0 <= f < k && #[trigger] hop_reach(und_rel(g), seed(n, k, f), x, c2) implies part[x] != u32::MAX by {
            let s = seed(n, k, f);
            if !hop_reach(und_rel(g), s, x, cur) {
                let (y, c) = lemma_hop_last(und_rel(g), s, x, c2);
                assert(hop_reach(und_rel(g), s, y, cur) && und_rel(g)(y, x, c));
                assert(0 <= y < n);
                assert(part[y] != u32::MAX);
                assert(lvl[y] <= cur) by {
                    if lvl[y] > cur {
                        assert(!hop_reach(und_rel(g), s, y, cur));
                    }
                }
                assert(!q.contains(y as u32)) by {
                    if q.contains(y as u32) {
                        let t = choose|t: int| 0 <= t < q.len() && q[t] == y as u32;
                        if t > 0 {
                            assert(lvl[q[0] as int] <= lvl[q[t] as int]);
                        }
                    }
                }
                assert(adj[y]@.contains(x as u32));
                let i = choose|i: int| 0 <= i < adj[y]@.len() && adj[y]@[i] == x as u32;
                assert(part[adj[y]@[i] as int] != u32::MAX);
            }
        }
    }
}

/// Labelling the unlabelled `i`-th neighbour `v` of `u` with `u`'s label
/// and queueing it keeps every invariant of the growth and shrinks the
/// count of unlabelled nodes.
#[verifier::rlimit(30)]
proof fn lemma_grow_step(
    g: Graph,
    adj: Seq<Vec<u32>>,
    p0: Seq<u32>,
    q0: Seq<u32>,
    n: int,
    k: int,
    l0: Seq<int>,
    u: u32,
    i: int,
    f: u32,
    cur: int,
)
    requires
        n == g.node_count(),
        n < u32::MAX,
        1 <= k <= n,
        adjacency_ok(g, adj),
        (u as int) < n,
        0 <= i < adj[u as int]@.len(),
        p0[adj[u as int]@[i] as int] == u32::MAX,
        p0[u as int] == f,
        f != u32::MAX,
        !q0.contains(u),
        grown(g, p0, l0, n, k),
        l0[u as int] == cur,
        queue_levels(q0, l0, cur),
        near_labelled(g, p0, n, k, cur),
        seeds_kept(p0, n, k),
        queue_ok(p0, q0, n),
        closed_off_queue(p0, q0, adj, n, u as int),
    ensures
        ({
            let v = adj[u as int]@[i];
            let p1 = p0.update(v as int, f);
            let q1 = q0.push(v);
            let l1 = l0.update(v as int, cur + 1);
            &&& grown(g, p1, l1, n, k)
            &&& queue_levels(q1, l1, cur)
            &&& near_labelled(g, p1, n, k, cur)
            &&& seeds_kept(p1, n, k)
            &&& queue_ok(p1, q1, n)
            &&& closed_off_queue(p1, q1, adj, n, u as int)
            &&& !q1.contains(u)
            &&& unlabelled(p1) + 1 == unlabelled(p0)
            &&& p1[u as int] == f
        }),
{
    reveal(grown);
    reveal(near_labelled);
    let v = adj[u as int]@[i];
    let p1 = p0.update(v as int, f);
    let q1 = q0.push(v);
    let l1 = l0.update(v as int, cur + 1);
    assert((v as int) < n);
    lemma_unlabelled_set(p0, v as int, f);
    let c = choose|c: Cost| #[trigger] und_rel(g)(u as int, v as int, c);
    assert forall|x: int| 0 <= x < n && #[trigger] p1[x] != u32::MAX implies l1[x] >= 0 && hop_reach(
        region_rel(g, p1, p1[x] as int),
        seed(n, k, p1[x] as int),
        x,
        l1[x],
    ) by {
        if x == v {
            lemma_label_keeps_walks(g, p0, v as int, f, f as int, seed(n, k, f as int), u as int, cur);
            assert(region_rel(g, p1, f as int)(u as int, v as int, c));
            lemma_hop_step(region_rel(g, p1, f as int), seed(n, k, f as int), u as int, v as int, c, cur);
        } else {
            assert(p0[x] != u32::MAX);
            lemma_label_keeps_walks(g, p0, v as int, f, p0[x] as int, seed(n, k, p0[x] as int), x, l0[x]);
        }
    }
    assert forall|x: int, f2: int, h: int|
        0 <= x < n && p1[x] != u32::MAX && 0 <= f2 < k && h < l1[x] implies !#[trigger] hop_reach(und_rel(g), seed(n, k, f2), x, h) by {
        if x == v {
            if hop_reach(und_rel(g), seed(n, k, f2), x, h) {
                lemma_hop_le(und_rel(g), seed(n, k, f2), x, h, cur);
            }
        } else {
            assert(p0[x] != u32::MAX);
        }
    }
    assert forall|a: int, b: int| 0 <= a < b < q1.len() implies l1[#[trigger] q1[a] as int] <= l1[#[trigger] q1[b] as int] by {
        assert(p0[q1[a] as int] != u32::MAX);
        if b < q0.len() {
            assert(p0[q1[b] as int] != u32::MAX);
        }
    }
    assert forall|a: int| 0 <= a < q1.len() implies cur <= l1[#[trigger] q1[a] as int] <= cur + 1 by {
        if a < q0.len() {
            assert(q1[a] == q0[a]);
            assert(p0[q0[a] as int] != u32::MAX);
        }
    }
    assert forall|f2: int| 0 <= f2 < k implies #[trigger] p1[seed(n, k, f2)] as int == f2 by {
        lemma_seed_range(n, k, f2);
        assert(p0[seed(n, k, f2)] as int == f2);
    }
    assert forall|a: int, b: int| 0 <= a < b < q1.len() implies q1[a] != q1[b] by {
        if b == q0.len() {
            assert(p0[q0[a] as int] != u32::MAX);
        }
    }
    assert forall|a: int| 0 <= a < q1.len() implies (#[trigger] q1[a] as int) < n && p1[q1[a] as int] != u32::MAX by {
        if a < q0.len() {
            assert(q1[a] == q0[a]);
        }
    }
    assert(!q1.contains(u)) by {
        assert forall|j: int| 0 <= j < q1.len() implies q1[j] != u by {
            if j < q0.len() {
                assert(q1[j] == q0[j]);
            }
        }
    }
    assert forall|x: int, j: int|
        0 <= x < n && x != u && p1[x] != u32::MAX && !q1.contains(x as u32) && 0 <= j < adj[x]@.len()
            implies p1[#[trigger] adj[x]@[j] as int] != u32::MAX by {
        if x == v {
            assert(q1[q0.len() as int] == v);
        } else {
            assert(p0[x] != u32::MAX);
            if q0.contains(x as u32) {
                let t = choose|t: int| 0 <= t < q0.len() && q0[t] == x as u32;
                assert(q1[t] == x as u32);
            }
            assert((adj[x]@[j] as int) < n);
        }
    }
}

/// Relabelling only unlabelled nodes keeps every region's edges.
proof fn lemma_region_kept(g: Graph, p: Seq<u32>, r: Seq<u32>, h: int)
    requires
        p.len() == g.node_count(),
        r.len() == g.node_count(),
        h != u32::MAX as int,
        forall|y: int| 0 <= y < p.len() && p[y] != u32::MAX ==> #[trigger] r[y] == p[y],
    ensures
        forall|a: int, b: int, c: Cost| #[trigger] region_rel(g, p, h)(a, b, c) ==> region_rel(g, r, h)(a, b, c),
{
    assert forall|a: int, b: int, c: Cost| #[trigger] region_rel(g, p, h)(a, b, c) implies region_rel(g, r, h)(a, b, c) by {
        assert(has_edge(g, a, b, c) || has_edge(g, b, a, c));
        assert(r[a] == p[a] && r[b] == p[b]);
    }
}

/// Multi-source breadth-first region growing: `k` seeds, seed `f` at node
/// `(f * n) / k`, grow outward over the undirected graph simultaneously,
/// each node joining the region that reaches it first: the seed of a
/// node's region is as few edges away from it, walking inside the region,
/// as any seed is over the whole undirected graph (which of several
/// equally near seeds wins follows the order of the breadth-first queue).
/// Nodes no seed reaches go to region 0.
#[verifier::rlimit(30)]
pub fn bfs_partition(graph: &Graph, k: usize) -> (r: Vec<u32>)
    requires
        1 <= k <= graph.node_count(),
        graph.node_count() < u32::MAX,
        (k - 1) * graph.node_count() <= usize::MAX,
        targets_in_range(*graph),
    ensures
        r@.len() == graph.node_count(),
        forall|x: int| 0 <= x < graph.node_count() ==> (#[trigger] r@[x] as int) < k,
        forall|f: int| 0 <= f < k ==> #[trigger] r@[seed(graph.node_count() as int, k as int, f)] as int == f,
        forall|x: int|
            0 <= x < graph.node_count() ==> reaches(
                region_rel(*graph, r@, #[trigger] r@[x] as int),
                seed(graph.node_count() as int, k as int, r@[x] as int),
                x,
            ) || (r@[x] == 0 && forall|f: int| 0 <= f < k ==> !#[trigger] reaches(und_rel(*graph), seed(graph.node_count() as int, k as int, f), x)),
        forall|x: int, f: int, h: int|
            0 <= x < graph.node_count() && 0 <= f < k && #[trigger] hop_reach(
                und_rel(*graph),
                seed(graph.node_count() as int, k as int, f),
                x,
                h,
            ) ==> hop_reach(
                region_rel(*graph, r@, r@[x] as int),
                seed(graph.node_count() as int, k as int, r@[x] as int),
                x,
                h,
            ),
{
    let ghost g = *graph;
    let n = graph.num_nodes();
    let ghost ni = n as int;
    let ghost ki = k as int;
    let adj = undirected_adjacency(graph);
    let mut part: Vec<u32> = vec![u32::MAX; n];
    let mut q: VecDeque<u32> = VecDeque::new();
    let ghost mut lvl: Seq<int> = Seq::new(n as nat, |i: int| 0int);
    proof {
        reveal(grown);
    }
    let mut fid: usize = 0;
    while fid < k
        invariant
            g == *graph,
            ni == n,
            ki == k,
            n == g.node_count(),
            1 <= k <= n,
            n < u32::MAX,
            (k - 1) * n <= usize::MAX,
            fid <= k,
            part@.len() == n,
            lvl == Seq::new(n as nat, |i: int| 0int),
            grown(g, part@, lvl, ni, ki),
            forall|x: int| 0 <= x < n && #[trigger] part@[x] != u32::MAX ==> exists|f: int| 0 <= f < fid && x == seed(ni, ki, f),
            forall|f: int| 0 <= f < fid ==> #[trigger] part@[seed(ni, ki, f)] as int == f,
            forall|i: int| 0 <= i < q@.len() ==> (#[trigger] q@[i] as int) < n && part@[q@[i] as int] != u32::MAX,
            forall|i: int, j: int| 0 <= i < j < q@.len() ==> q@[i] != q@[j],
            forall|x: int| 0 <= x < n && #[trigger] part@[x] != u32::MAX ==> q@.contains(x as u32),
        decreases k - fid,
    {
        proof {
            assert(fid * n <= (k - 1) * n) by (nonlinear_arith)
                requires
                    fid <= k - 1,
            ;
            lemma_seed_range(ni, ki, fid as int);
        }
        let s = (fid * n) / k;
        proof {
            assert(s as int == seed(ni, ki, fid as int));
        }
        if part[s] == u32::MAX {
            let ghost p0 = part@;
            let ghost q0 = q@;
            part.set(s, fid as u32);
            q.push_back(s as u32);
            proof {
                reveal(grown);
                assert forall|x: int| 0 <= x < n && #[trigger] part@[x] != u32::MAX implies lvl[x] >= 0 && hop_reach(
                    region_rel(g, part@, part@[x] as int),
                    seed(ni, ki, part@[x] as int),
                    x,
                    lvl[x],
                ) by {
                    if x == s {
                        lemma_hop_refl(region_rel(g, part@, fid as int), x);
                    } else {
                        assert(p0[x] != u32::MAX);
                        lemma_label_keeps_walks(g, p0, s as int, fid as u32, p0[x] as int, seed(ni, ki, p0[x] as int), x, lvl[x]);
                    }
                }
                assert forall|x: int| 0 <= x < n && #[trigger] part@[x] != u32::MAX implies exists|f: int| 0 <= f < fid + 1 && x == seed(ni, ki, f) by {
                    if x != s {
                        assert(p0[x] != u32::MAX);
                    }
                }
                assert forall|f: int| 0 <= f < fid + 1 implies #[trigger] part@[seed(ni, ki, f)] as int == f by {
                    if f < fid {
                        lemma_seeds(ni, ki, f, fid as int);
                    }
                }
                assert forall|x: int| 0 <= x < n && #[trigger] part@[x] != u32::MAX implies q@.contains(x as u32) by {
                    if x == s {
                        assert(q@[q0.len() as int] == s as u32);
                    } else {
                        assert(p0[x] != u32::MAX);
                        let i = choose|i: int| 0 <= i < q0.len() && q0[i] == x as u32;
                        assert(q@[i] == x as u32);
                    }
                }
                assert forall|i: int, j: int| 0 <= i < j < q@.len() implies q@[i] != q@[j] by {
                    if j == q0.len() {
                        assert(p0[q0[i] as int] != u32::MAX);
                    }
                }
            }
        } else {
            proof {
                let f2 = choose|f: int| 0 <= f < fid && s as int == seed(ni, ki, f);
                lemma_seeds(ni, ki, f2, fid as int);
            }
        }
        fid = fid + 1;
    }
    let ghost mut cur: int = 0;
    proof {
        reveal(near_labelled);
        assert forall|x: int, f: int|
            0 <= x < n && 0 <= f < k && #[trigger] hop_reach(und_rel(g), seed(ni, ki, f), x, 0) implies part@[x] != u32::MAX by {
            lemma_hop_zero(und_rel(g), seed(ni, ki, f), x);
            lemma_seed_range(ni, ki, f);
        }
        assert(near_labelled(g, part@, ni, ki, 0));
    }
    // Grow the regions breadth first.
    while q.len() > 0
        invariant
            g == *graph,
            ni == n,
            ki == k,
            n == g.node_count(),
            1 <= k <= n,
            n < u32::MAX,
            adjacency_ok(g, adj@),
            part@.len() == n,
            grown(g, part@, lvl, ni, ki),
            seeds_kept(part@, ni, ki),
            queue_ok(part@, q@, ni),
            closed_off_queue(part@, q@, adj@, ni, -1),
            cur >= 0,
            lvl.len() == n,
            queue_levels(q@, lvl, cur),
            near_labelled(g, part@, ni, ki, cur),
        decreases 2 * unlabelled(part@) + q@.len(),
    {
        let ghost meas = 2 * unlabelled(part@) + q@.len();
        let ghost q_before = q@;
        let u = q.pop_front().unwrap();
        proof {
            assert(q@ =~= q_before.drop_first());
            lemma_pop_front(part@, q_before, adj@, ni);
            lemma_pop_level(g, part@, lvl, q_before, adj@, ni, ki, cur);
            cur = lvl[u as int];
        }
        let f = part[u as usize];
        let nbrs = &adj[u as usize];
        let mut i: usize = 0;
        while i < nbrs.len()
            invariant
                g == *graph,
                ni == n,
                ki == k,
                n == g.node_count(),
                1 <= k <= n,
                n < u32::MAX,
                adjacency_ok(g, adj@),
                nbrs == adj@[u as int],
                (u as int) < n,
                part@[u as int] == f,
                f != u32::MAX,
                !q@.contains(u),
                i <= nbrs@.len(),
                part@.len() == n,
                grown(g, part@, lvl, ni, ki),
                lvl[u as int] == cur,
                cur >= 0,
                lvl.len() == n,
                seeds_kept(part@, ni, ki),
                queue_ok(part@, q@, ni),
                closed_off_queue(part@, q@, adj@, ni, u as int),
                queue_levels(q@, lvl, cur),
                near_labelled(g, part@, ni, ki, cur),
                forall|j: int| 0 <= j < i ==> part@[#[trigger] nbrs@[j] as int] != u32::MAX,
                2 * unlabelled(part@) + q@.len() < meas,
            decreases nbrs@.len() - i,
        {
            let v = nbrs[i];
            proof {
                assert((nbrs@[i as int] as int) < n);
            }
            if part[v as usize] == u32::MAX {
                let ghost p0 = part@;
                let ghost q0 = q@;
                let ghost l0 = lvl;
                part.set(v as usize, f);
                q.push_back(v);
                proof {
                    lemma_grow_step(g, adj@, p0, q0, ni, ki, l0, u, i as int, f, cur);
                    assert(v != u);
                    lvl = l0.update(v as int, cur + 1);
                }
            }
            i = i + 1;
        }
        proof {
            assert forall|x: int, j: int|
                0 <= x < n && part@[x] != u32::MAX && !q@.contains(x as u32) && 0 <= j < adj@[x]@.len() implies part@[#[trigger] adj@[x]@[j] as int] != u32::MAX by {
                if x == u {
                    assert(part@[nbrs@[j] as int] != u32::MAX);
                }
            }
        }
    }
    // Every node left unreached is cut off from every seed.
    let ghost reached = part@;
    proof {
        reveal(grown);
        assert forall|x: int, i: int|
            0 <= x < reached.len() && reached[x] != u32::MAX && 0 <= i < adj@[x]@.len() implies reached[#[trigger] adj@[x]@[i] as int] != u32::MAX by {
            assert(!q@.contains(x as u32));
        }
        assert forall|x: int, f: int| 0 <= x < n && reached[x] == u32::MAX && 0 <= f < k implies !#[trigger] reaches(und_rel(g), seed(ni, ki, f), x) by {
            if reaches(und_rel(g), seed(ni, ki, f), x) {
                let p = choose|p: (int, int)| #[trigger] rel_costs(und_rel(g), seed(ni, ki, f), x)(p);
                let (ns, cs) = choose|ns: Seq<int>, cs: Seq<Cost>|
                    #[trigger] rel_walk(und_rel(g), ns, cs) && ns[0] == seed(ni, ki, f) && ns.last() == x && crate::relations::cost_sum(cs) == p;
                lemma_seed_range(ni, ki, f);
                assert(reached[seed(ni, ki, f)] as int == f);
                lemma_closed_walk(g, reached, adj@, ns, cs);
            }
        }
    }
    // Isolated nodes go to region 0.
    let mut x: usize = 0;
    while x < n
        invariant
            x <= n,
            n == g.node_count(),
            part@.len() == n,
            reached.len() == n,
            forall|y: int| 0 <= y < x ==> #[trigger] part@[y] == if reached[y] == u32::MAX { 0u32 } else { reached[y] },
            forall|y: int| x <= y < n ==> #[trigger] part@[y] == reached[y],
        decreases n - x,
    {
        if part[x] == u32::MAX {
            part.set(x, 0);
        }
        x = x + 1;
    }
    proof {
        reveal(grown);
        let r = part@;
        assert forall|x: int| 0 <= x < n implies (#[trigger] r[x] as int) < k by {}
        assert forall|f: int| 0 <= f < k implies #[trigger] r[seed(ni, ki, f)] as int == f by {
            lemma_seed_range(ni, ki, f);
            assert(reached[seed(ni, ki, f)] as int == f);
        }
        assert forall|x: int| 0 <= x < n implies reaches(
            region_rel(g, r, #[trigger] r[x] as int),
            seed(ni, ki, r[x] as int),
            x,
        ) || (r[x] == 0 && forall|f: int| 0 <= f < k ==> !#[trigger] reaches(und_rel(g), seed(ni, ki, f), x)) by {
            if reached[x] != u32::MAX {
                let h = reached[x] as int;
                lemma_region_kept(g, reached, r, h);
                lemma_hop_mono(region_rel(g, reached, h), region_rel(g, r, h), seed(ni, ki, h), x, lvl[x]);
                lemma_hop_reaches(region_rel(g, r, h), seed(ni, ki, h), x, lvl[x]);
            }
        }
        assert forall|x: int, f: int, h: int|
            0 <= x < n && 0 <= f < k && #[trigger] hop_reach(und_rel(g), seed(ni, ki, f), x, h) implies hop_reach(
                region_rel(g, r, r[x] as int),
                seed(ni, ki, r[x] as int),
                x,
                h,
            ) by {
            lemma_hop_reaches(und_rel(g), seed(ni, ki, f), x, h);
            assert(reached[x] != u32::MAX);
            let hx = reached[x] as int;
            assert(lvl[x] <= h) by {
                if h < lvl[x] {
                    assert(!hop_reach(und_rel(g), seed(ni, ki, f), x, h));
                }
            }
            lemma_hop_le(region_rel(g, reached, hx), seed(ni, ki, hx), x, lvl[x], h);
            lemma_region_kept(g, reached, r, hx);
            lemma_hop_mono(region_rel(g, reached, hx), region_rel(g, r, hx), seed(ni, ki, hx), x, h);
        }
    }
    part
}

} // verus!
