//! The Multi-level Encoded Pareto Frontier View (MEPFV) of a partitioned
//! graph, and its exact online retrieval.
//!
//! For a graph and a fragment partition it holds the boundary nodes (ends of
//! edges between fragments), the fragment Pareto path views (within-fragment
//! frontiers from every node to each boundary node of its fragment and back),
//! and the boundary Pareto path view (all-pairs frontiers over the boundary
//! multigraph). `Mepfv::query` combines them into the complete Pareto
//! frontier of walk costs between any two nodes.

use vstd::prelude::*;

use crate::boundary::{
    lemma_multi_has_edge, lemma_multi_has_push, lemma_multi_targets, multi_has, multigraph_pareto_from,
    BoundaryGraph,
};
use crate::parallel::par_map_indices;
use crate::cost::Cost;
use crate::fragments::{
    frag_front, frontier,
    boundary_rel, frag_frontiers, frag_rel, is_boundary_list, lemma_route_sound, lemma_walk_split,
    partition_ok,
};
use crate::graph::{copy_vec, induced_outs, lemma_edges_below_bounds, lemma_induced_outs_contains, lemma_outs_of_targets_below, lemma_reversed_has_edge, edges_below, reversed_edges, Graph};
use crate::label_setting::{pareto_from, walk_costs};
use crate::pareto::{
    insert_nondominated, is_frontier_of, le_pair, lemma_frontier_of_cover, lemma_frontier_same_members, members_of,
    minkowski_sum, pair_of, pareto_filter, sum_pair, sums_of,
};
use crate::relations::{
    cost_sum, edge_rel, flip, has_edge, lemma_frontier_scaled, lemma_rel_costs_flip, lemma_rel_costs_map,
    lemma_rel_costs_mono, lemma_walk_costs_rel, rel_costs, rel_walk,
};
use crate::walks::{costs_bounded, lemma_bounded_walks_fit, targets_in_range, walks_fit, CostGraph};

verus! {

/// Every edge cost is non-negative and at most `i64::MAX / n^2` in each
/// component (`n` the node count), so that the sums the view forms cannot
/// overflow.
pub open spec fn costs_square_bounded(g: Graph) -> bool {
    forall|u: int, v: int, c: Cost|
        #[trigger] has_edge(g, u, v, c) ==> 0 <= c.c1 && 0 <= c.c2 && g.node_count() * g.node_count() * c.c1
            <= i64::MAX && g.node_count() * g.node_count() * c.c2 <= i64::MAX
}

/// The value behind a reference.
pub open spec fn deref<T>(r: &T) -> T {
    *r
}

/// Every member of `r` is non-negative with `n^2 * c <= k` in each component.
pub open spec fn scaled_ok(n: int, r: Seq<Cost>, k: int) -> bool {
    forall|i: int|
        0 <= i < r.len() ==> 0 <= (#[trigger] r[i]).c1 && 0 <= r[i].c2 && n * n * r[i].c1 <= k && n * n * r[i].c2
            <= k
}

/// Fragment `f`: `nodes` lists its nodes in increasing order (local id `l`
/// is `nodes[l]`), `g2l` maps each node of the graph to its local id (or
/// `u32::MAX` outside the fragment), and `gf` is the subgraph it induces.
pub open spec fn frag_ok(g: Graph, part: Seq<u32>, f: int, nodes: Seq<int>, g2l: Seq<u32>, gf: Graph) -> bool {
    &&& local_ids_ok(g, part, f, nodes, g2l)
    &&& gf.node_count() == nodes.len()
    &&& forall|l: int| 0 <= l < nodes.len() ==> #[trigger] gf.out_edges(l) == induced_outs(g.out_edges(nodes[l]), g2l)
    &&& targets_in_range(gf)
    &&& costs_bounded(gf)
    &&& forall|a: int, b: int, c: Cost|
        #[trigger] has_edge(gf, a, b, c) <==> 0 <= a < nodes.len() && 0 <= b < nodes.len() && has_edge(
            g,
            nodes[a],
            nodes[b],
            c,
        )
}

/// `nodes` lists the nodes of fragment `f` in increasing order (local id `l`
/// is `nodes[l]`), and `g2l` maps each node of the graph to its local id (or
/// `u32::MAX` outside the fragment).
pub open spec fn local_ids_ok(g: Graph, part: Seq<u32>, f: int, nodes: Seq<int>, g2l: Seq<u32>) -> bool {
    &&& g2l.len() == g.node_count()
    &&& forall|i: int, j: int| 0 <= i < j < nodes.len() ==> nodes[i] < nodes[j]
    &&& forall|l: int|
        0 <= l < nodes.len() ==> 0 <= #[trigger] nodes[l] < g.node_count() && part[nodes[l]] as int == f
            && g2l[nodes[l]] as int == l
    &&& forall|x: int|
        0 <= x < g.node_count() && part[x] as int == f ==> (#[trigger] g2l[x] as int) < nodes.len()
            && nodes[g2l[x] as int] == x
    &&& forall|x: int| 0 <= x < g.node_count() && part[x] as int != f ==> #[trigger] g2l[x] == u32::MAX
}

/// `fbs` lists, in increasing order, the boundary nodes of fragment `f`.
pub open spec fn frag_boundary_ok(part: Seq<u32>, bl: Seq<int>, f: int, fbs: Seq<u32>) -> bool {
    &&& forall|i: int, j: int| 0 <= i < j < fbs.len() ==> fbs[i] < fbs[j]
    &&& forall|j: int| 0 <= j < fbs.len() ==> bl.contains(#[trigger] fbs[j] as int) && part[fbs[j] as int] as int == f
    &&& forall|i: int| 0 <= i < bl.len() && part[#[trigger] bl[i]] as int == f ==> exists|j: int|
        0 <= j < fbs.len() && fbs[j] as int == bl[i]
}

/// The precomputed Multi-level Encoded Pareto Frontier View.
pub struct Mepfv {
    n: usize,
    part: Vec<u32>,
    /// `frag_g2l[f][x]`: local id of node `x` in fragment `f`, or `u32::MAX`.
    frag_g2l: Vec<Vec<u32>>,
    /// The subgraph each fragment induces.
    frag_graph: Vec<Graph>,
    /// The boundary nodes of each fragment, increasing.
    frag_boundary: Vec<Vec<u32>>,
    /// `b2node[f][j][l]`: frontier from boundary node `frag_boundary[f][j]` to
    /// local node `l`, within fragment `f`.
    b2node: Vec<Vec<Vec<Vec<Cost>>>>,
    /// `node2b[f][j][l]`: frontier from local node `l` to boundary node
    /// `frag_boundary[f][j]`, within fragment `f`.
    node2b: Vec<Vec<Vec<Vec<Cost>>>>,
    /// Node id to its index among the boundary nodes, or `u32::MAX`.
    bidx: Vec<u32>,
    /// `bppv[s][t]`: frontier over the boundary multigraph.
    bppv: Vec<Vec<Vec<Cost>>>,
    graph: Ghost<Graph>,
    bnodes: Ghost<Seq<int>>,
    frag_nodes: Ghost<Seq<Seq<int>>>,
}

/// Pruning statistics from `Mepfv::query_adv`.
#[derive(Clone, Copy, Debug, Default)]
pub struct AdvStats {
    pub pairs_total: usize,
    pub pairs_pruned: usize,
    pub combinations: usize,
}

/// One candidate pair of boundary nodes for a query: boundary node number
/// `j1` of the origin's fragment and number `j2` of the destination's, their
/// indices `si`, `ti` among all boundary nodes, and the ideal lower-left
/// corner `(c1min, c2min)` of the routes through them.
#[derive(Clone, Copy)]
struct PairEntry {
    j1: usize,
    j2: usize,
    si: usize,
    ti: usize,
    c1min: i64,
    c2min: i64,
}

/// Costs of walks of the boundary multigraph from boundary node `x` to
/// boundary node `y`.
pub open spec fn boundary_costs(g: Graph, part: Seq<u32>, bl: Seq<int>, x: int, y: int) -> spec_fn((int, int)) -> bool {
    |p: (int, int)|
        exists|s: int, t: int|
            0 <= s < bl.len() && 0 <= t < bl.len() && bl[s] == x && bl[t] == y && #[trigger] rel_costs(
                boundary_rel(g, part, bl),
                s,
                t,
            )(p)
}

/// Some route from `o` to `d` leaves the fragment of `o` at boundary node
/// `x` and enters the fragment of `d` at boundary node `y`: each of the
/// three segments has at least one walk.
pub open spec fn route_live(g: Graph, part: Seq<u32>, bl: Seq<int>, o: int, d: int, x: int, y: int) -> bool {
    &&& bl.contains(x)
    &&& bl.contains(y)
    &&& part[x] == part[o]
    &&& part[y] == part[d]
    &&& exists|p: (int, int)| #[trigger] rel_costs(frag_rel(g, part, part[o] as int), o, x)(p)
    &&& exists|p: (int, int)| #[trigger] boundary_costs(g, part, bl, x, y)(p)
    &&& exists|p: (int, int)| #[trigger] rel_costs(frag_rel(g, part, part[d] as int), y, d)(p)
}

/// `keys` lists, in increasing order, exactly the pairs `(x, y)` of boundary
/// nodes through which some route from `o` to `d` passes.
pub open spec fn live_pairs(g: Graph, part: Seq<u32>, bl: Seq<int>, o: int, d: int, keys: Seq<(int, int)>) -> bool {
    &&& forall|i: int, j: int|
        0 <= i < j < keys.len() ==> (#[trigger] keys[i]).0 < (#[trigger] keys[j]).0 || (keys[i].0 == keys[j].0
            && keys[i].1 < keys[j].1)
    &&& forall|i: int| 0 <= i < keys.len() ==> route_live(g, part, bl, o, d, (#[trigger] keys[i]).0, keys[i].1)
    &&& forall|x: int, y: int| #[trigger] route_live(g, part, bl, o, d, x, y) ==> keys.contains((x, y))
}

/// Costs of the walks from `o` to `d` that leave the fragment of `o` at
/// boundary node `x` and enter the fragment of `d` at boundary node `y`.
pub open spec fn route_costs_via(g: Graph, part: Seq<u32>, bl: Seq<int>, o: int, d: int, x: int, y: int) -> spec_fn((int, int)) -> bool {
    sum3(
        rel_costs(frag_rel(g, part, part[o] as int), o, x),
        boundary_costs(g, part, bl, x, y),
        rel_costs(frag_rel(g, part, part[d] as int), y, d),
    )
}

/// The three segment tables of the routes through `(x, y)` are frontiers:
/// of the in-fragment walks from `o` to `x`, of the boundary multigraph from
/// `x` to `y`, and of the in-fragment walks from `y` to `d`.
pub open spec fn route_fronts(g: Graph, part: Seq<u32>, bl: Seq<int>, o: int, d: int, x: int, y: int) -> bool {
    &&& is_frontier_of(frag_front(g, part, o, x), rel_costs(frag_rel(g, part, part[o] as int), o, x))
    &&& is_frontier_of(frontier(boundary_costs(g, part, bl, x, y)), boundary_costs(g, part, bl, x, y))
    &&& is_frontier_of(frag_front(g, part, y, d), rel_costs(frag_rel(g, part, part[d] as int), y, d))
}

/// Sums `a + b + c` of one member from each set of one of the triples.
pub open spec fn triple_sums(r: Seq<(Seq<Cost>, Seq<Cost>, Seq<Cost>)>) -> spec_fn((int, int)) -> bool {
    |p: (int, int)|
        exists|i: int, a: int, b: int, c: int|
            0 <= i < r.len() && 0 <= a < r[i].0.len() && 0 <= b < r[i].1.len() && 0 <= c < r[i].2.len() && p == (
                #[trigger] r[i].0[a].c1 + #[trigger] r[i].1[b].c1 + #[trigger] r[i].2[c].c1,
                r[i].0[a].c2 + r[i].1[b].c2 + r[i].2[c].c2,
            )
}

/// The ideal lower-left corner of the routes through `(x, y)`: the sum of
/// the least first costs, and the sum of the least second costs, of the
/// three segment frontiers.
pub open spec fn route_corner(g: Graph, part: Seq<u32>, bl: Seq<int>, o: int, d: int, x: int, y: int) -> (int, int) {
    let a = frag_front(g, part, o, x);
    let b = frontier(boundary_costs(g, part, bl, x, y));
    let c = frag_front(g, part, y, d);
    (a[0].c1 + b[0].c1 + c[0].c1, a[a.len() - 1].c2 + b[b.len() - 1].c2 + c[c.len() - 1].c2)
}

/// Pair `k1` comes before pair `k2`: by ideal corner, then by the pair.
pub open spec fn corner_before(g: Graph, part: Seq<u32>, bl: Seq<int>, o: int, d: int, k1: (int, int), k2: (int, int)) -> bool {
    let c1 = route_corner(g, part, bl, o, d, k1.0, k1.1);
    let c2 = route_corner(g, part, bl, o, d, k2.0, k2.1);
    ||| c1.0 < c2.0
    ||| c1.0 == c2.0 && c1.1 < c2.1
    ||| c1.0 == c2.0 && c1.1 == c2.1 && (k1.0 < k2.0 || (k1.0 == k2.0 && k1.1 < k2.1))
}

/// `ord` lists exactly the pairs of boundary nodes through which some route
/// from `o` to `d` passes, ideal corner first.
pub open spec fn adv_order(g: Graph, part: Seq<u32>, bl: Seq<int>, o: int, d: int, ord: Seq<(int, int)>) -> bool {
    &&& forall|i: int, j: int| 0 <= i < j < ord.len() ==> corner_before(g, part, bl, o, d, #[trigger] ord[i], #[trigger] ord[j])
    &&& forall|i: int| 0 <= i < ord.len() ==> route_live(g, part, bl, o, d, (#[trigger] ord[i]).0, ord[i].1)
    &&& forall|x: int, y: int| #[trigger] route_live(g, part, bl, o, d, x, y) ==> ord.contains((x, y))
}

/// Costs known before the `t`-th pair of `ord` is taken: those of the walks
/// inside the fragment of `o` when `d` lies in it too, and those of the
/// routes through the pairs before it.
pub open spec fn adv_seen(g: Graph, part: Seq<u32>, bl: Seq<int>, o: int, d: int, ord: Seq<(int, int)>, t: int) -> spec_fn((int, int)) -> bool {
    |p: (int, int)|
        (part[o] == part[d] && rel_costs(frag_rel(g, part, part[o] as int), o, d)(p)) || exists|s: int|
            0 <= s < t && #[trigger] route_costs_via(g, part, bl, o, d, ord[s].0, ord[s].1)(p)
}

/// The `t`-th pair of `ord` is skipped: a cost known before it is no worse
/// than its ideal corner.
pub open spec fn adv_pruned(g: Graph, part: Seq<u32>, bl: Seq<int>, o: int, d: int, ord: Seq<(int, int)>, t: int) -> bool {
    let cn = route_corner(g, part, bl, o, d, ord[t].0, ord[t].1);
    exists|p: (int, int)| #[trigger] adv_seen(g, part, bl, o, d, ord, t)(p) && p.0 <= cn.0 && p.1 <= cn.1
}

/// How many of the first `t` pairs of `ord` are skipped.
pub open spec fn adv_pruned_count(g: Graph, part: Seq<u32>, bl: Seq<int>, o: int, d: int, ord: Seq<(int, int)>, t: int) -> nat
    decreases t,
{
    if t <= 0 {
        0
    } else {
        adv_pruned_count(g, part, bl, o, d, ord, t - 1) + if adv_pruned(g, part, bl, o, d, ord, t - 1) {
            1nat
        } else {
            0nat
        }
    }
}

/// Pair `a` comes before pair `b` lexicographically.
pub open spec fn key_lt(a: (int, int), b: (int, int)) -> bool {
    a.0 < b.0 || (a.0 == b.0 && a.1 < b.1)
}

/// Two lists of pairs, each strictly increasing, that hold the same pairs
/// are the same list.
proof fn lemma_increasing_keys_eq(s1: Seq<(int, int)>, s2: Seq<(int, int)>)
    requires
        forall|i: int, j: int| 0 <= i < j < s1.len() ==> key_lt(#[trigger] s1[i], #[trigger] s1[j]),
        forall|i: int, j: int| 0 <= i < j < s2.len() ==> key_lt(#[trigger] s2[i], #[trigger] s2[j]),
        forall|x: (int, int)| #![trigger s1.contains(x)] #![trigger s2.contains(x)] s1.contains(x) <==> s2.contains(x),
    ensures
        s1 == s2,
    decreases s1.len() + s2.len(),
{
    if s1.len() == 0 {
        if s2.len() > 0 {
            assert(s2.contains(s2[0]));
        }
        assert(s1 =~= s2);
    } else if s2.len() == 0 {
        assert(s1.contains(s1[0]));
    } else {
        let a = s1.last();
        let b = s2.last();
        assert(s1.contains(a));
        assert(s2.contains(b));
        let j = choose|j: int| 0 <= j < s2.len() && s2[j] == a;
        let i = choose|i: int| 0 <= i < s1.len() && s1[i] == b;
        if j < s2.len() - 1 {
            assert(key_lt(s2[j], s2[s2.len() - 1]));
        }
        if i < s1.len() - 1 {
            assert(key_lt(s1[i], s1[s1.len() - 1]));
        }
        assert(a == b);
        let t1 = s1.drop_last();
        let t2 = s2.drop_last();
        assert forall|x: (int, int)| #![trigger t1.contains(x)] #![trigger t2.contains(x)] t1.contains(x) <==> t2.contains(x) by {
            if t1.contains(x) {
                let k = choose|k: int| 0 <= k < t1.len() && t1[k] == x;
                assert(s1[k] == x);
                assert(key_lt(s1[k], a));
                assert(s1.contains(x));
                let m = choose|m: int| 0 <= m < s2.len() && s2[m] == x;
                assert(m != s2.len() - 1);
                assert(t2[m] == x);
            }
            if t2.contains(x) {
                let k = choose|k: int| 0 <= k < t2.len() && t2[k] == x;
                assert(s2[k] == x);
                assert(key_lt(s2[k], b));
                assert(s2.contains(x));
                let m = choose|m: int| 0 <= m < s1.len() && s1[m] == x;
                assert(m != s1.len() - 1);
                assert(t1[m] == x);
            }
        }
        lemma_increasing_keys_eq(t1, t2);
        assert(s1 =~= t1.push(a));
        assert(s2 =~= t2.push(b));
    }
}

/// The live pairs of a query form one list: any two lists that
/// `live_pairs` accepts are equal.
pub proof fn lemma_live_pairs_unique(
    g: Graph,
    part: Seq<u32>,
    bl: Seq<int>,
    o: int,
    d: int,
    k1: Seq<(int, int)>,
    k2: Seq<(int, int)>,
)
    requires
        live_pairs(g, part, bl, o, d, k1),
        live_pairs(g, part, bl, o, d, k2),
    ensures
        k1 == k2,
{
    assert forall|x: (int, int)| #![trigger k1.contains(x)] #![trigger k2.contains(x)] k1.contains(x) <==> k2.contains(x) by {
        if k1.contains(x) {
            let i = choose|i: int| 0 <= i < k1.len() && k1[i] == x;
            assert(route_live(g, part, bl, o, d, k1[i].0, k1[i].1));
        }
        if k2.contains(x) {
            let i = choose|i: int| 0 <= i < k2.len() && k2[i] == x;
            assert(route_live(g, part, bl, o, d, k2[i].0, k2[i].1));
        }
    }
    assert forall|i: int, j: int| 0 <= i < j < k1.len() implies key_lt(#[trigger] k1[i], #[trigger] k1[j]) by {}
    assert forall|i: int, j: int| 0 <= i < j < k2.len() implies key_lt(#[trigger] k2[i], #[trigger] k2[j]) by {}
    lemma_increasing_keys_eq(k1, k2);
}

/// Two views of one graph under one partition have the same boundary
/// nodes (each lists exactly the boundary nodes, in increasing order).
pub proof fn lemma_views_same_boundary(m1: Mepfv, m2: Mepfv)
    requires
        m1.shape_ok(),
        m2.shape_ok(),
        m1.source_graph() == m2.source_graph(),
        m1.partition() == m2.partition(),
    ensures
        m1.boundary() == m2.boundary(),
{
    let g = m1.source_graph();
    let part = m1.partition();
    let b1 = m1.boundary();
    let b2 = m2.boundary();
    let k1 = b1.map_values(|x: int| (x, 0int));
    let k2 = b2.map_values(|x: int| (x, 0int));
    assert forall|i: int, j: int| 0 <= i < j < k1.len() implies key_lt(#[trigger] k1[i], #[trigger] k1[j]) by {
        assert(b1[i] < b1[j]);
    }
    assert forall|i: int, j: int| 0 <= i < j < k2.len() implies key_lt(#[trigger] k2[i], #[trigger] k2[j]) by {
        assert(b2[i] < b2[j]);
    }
    assert forall|x: (int, int)| #![trigger k1.contains(x)] #![trigger k2.contains(x)] k1.contains(x) <==> k2.contains(x) by {
        if k1.contains(x) {
            let i = choose|i: int| 0 <= i < k1.len() && k1[i] == x;
            assert(0 <= b1[i] < g.node_count() && crate::fragments::is_boundary(g, part, b1[i]));
            assert(b2.contains(b1[i]));
            let j = choose|j: int| 0 <= j < b2.len() && b2[j] == b1[i];
            assert(k2[j] == x);
        }
        if k2.contains(x) {
            let i = choose|i: int| 0 <= i < k2.len() && k2[i] == x;
            assert(0 <= b2[i] < g.node_count() && crate::fragments::is_boundary(g, part, b2[i]));
            assert(b1.contains(b2[i]));
            let j = choose|j: int| 0 <= j < b1.len() && b1[j] == b2[i];
            assert(k1[j] == x);
        }
    }
    lemma_increasing_keys_eq(k1, k2);
    assert forall|i: int| 0 <= i < b1.len() implies b1[i] == b2[i] by {
        assert(k1[i] == k2[i]);
    }
    assert(b1 =~= b2);
}

/// The advanced retrieval counts as many pairs as `export_pairs` exports:
/// both count the live pairs of the query.
pub proof fn lemma_adv_total_is_export_len(m: Mepfv, o: int, d: int, total: int, exported: int)
    requires
        exists|keys: Seq<(int, int)>| live_pairs(m.source_graph(), m.partition(), m.boundary(), o, d, keys) && keys.len() == total,
        exists|keys: Seq<(int, int)>| live_pairs(m.source_graph(), m.partition(), m.boundary(), o, d, keys) && keys.len() == exported,
    ensures
        total == exported,
{
    let g = m.source_graph();
    let part = m.partition();
    let bl = m.boundary();
    let k1 = choose|keys: Seq<(int, int)>| live_pairs(g, part, bl, o, d, keys) && keys.len() == total;
    let k2 = choose|keys: Seq<(int, int)>| live_pairs(g, part, bl, o, d, keys) && keys.len() == exported;
    lemma_live_pairs_unique(g, part, bl, o, d, k1, k2);
}

/// Integer pairs of the first `i` members of `s`.
pub open spec fn prefix_members(s: Seq<Cost>, i: int) -> spec_fn((int, int)) -> bool {
    |p: (int, int)| exists|x: int| 0 <= x < i && x < s.len() && #[trigger] pair_of(s[x]) == p
}

/// Coverage survives replacing a set of costs by one that matches each old
/// member with one no worse.
proof fn lemma_covers_grow(old: Seq<Cost>, new: Seq<Cost>, m: spec_fn((int, int)) -> bool)
    requires
        covers(old, m),
        forall|x: Cost|
            #[trigger] old.contains(x) ==> exists|i: int| 0 <= i < new.len() && crate::cost::weakly_le(#[trigger] new[i], x),
    ensures
        covers(new, m),
{
    assert forall|p: (int, int)| #[trigger] m(p) implies exists|i: int| 0 <= i < new.len() && #[trigger] le_pair(new[i], p) by {
        let j = choose|j: int| 0 <= j < old.len() && #[trigger] le_pair(old[j], p);
        assert(old.contains(old[j]));
        let i = choose|i: int| 0 <= i < new.len() && crate::cost::weakly_le(#[trigger] new[i], old[j]);
        assert(le_pair(new[i], p));
    }
}

/// Coverage is transitive: what covers the members of `s` covers whatever
/// `s` covers.
proof fn lemma_covers_trans(front: Seq<Cost>, s: Seq<Cost>, m: spec_fn((int, int)) -> bool)
    requires
        covers(front, prefix_members(s, s.len() as int)),
        covers(s, m),
    ensures
        covers(front, m),
{
    assert forall|p: (int, int)| #[trigger] m(p) implies exists|i: int| 0 <= i < front.len() && #[trigger] le_pair(front[i], p) by {
        let x = choose|x: int| 0 <= x < s.len() && #[trigger] le_pair(s[x], p);
        assert(prefix_members(s, s.len() as int)(pair_of(s[x])));
        let i = choose|i: int| 0 <= i < front.len() && #[trigger] le_pair(front[i], pair_of(s[x]));
        assert(le_pair(front[i], p));
    }
}

/// Insert every cost of `s`, in order, into the non-dominated set `front`.
/// Afterwards some member of `front` is no worse than each cost of `s` and
/// than each old member; every member is an old member or a cost of `s`.
fn insert_all(front: &mut Vec<Cost>, s: &Vec<Cost>)
    ensures
        forall|x: Cost| #[trigger] final(front)@.contains(x) ==> old(front)@.contains(x) || s@.contains(x),
        covers(final(front)@, prefix_members(s@, s@.len() as int)),
        forall|x: Cost|
            #[trigger] old(front)@.contains(x) ==> exists|i: int|
                0 <= i < final(front)@.len() && crate::cost::weakly_le(#[trigger] final(front)@[i], x),
{
    let ghost f0 = front@;
    let mut i: usize = 0;
    while i < s.len()
        invariant
            i <= s@.len(),
            forall|x: Cost| #[trigger] front@.contains(x) ==> f0.contains(x) || s@.contains(x),
            covers(front@, prefix_members(s@, i as int)),
            forall|x: Cost|
                #[trigger] f0.contains(x) ==> exists|j: int| 0 <= j < front@.len() && crate::cost::weakly_le(#[trigger] front@[j], x),
        decreases s@.len() - i,
    {
        let ghost fa = front@;
        let c = s[i];
        insert_nondominated(front, c);
        proof {
            let _t = fa.contains(c);
            assert(s@.contains(c)) by {
                assert(s@[i as int] == c);
            }
            assert forall|x: Cost| #[trigger] front@.contains(x) implies f0.contains(x) || s@.contains(x) by {
                if fa.contains(x) {
                }
            }
            let m0 = prefix_members(s@, i as int);
            let m1 = prefix_members(s@, i + 1);
            assert forall|p: (int, int)| #[trigger] m1(p) implies exists|j: int| 0 <= j < front@.len() && #[trigger] le_pair(front@[j], p) by {
                let x = choose|x: int| 0 <= x < i + 1 && x < s@.len() && #[trigger] pair_of(s@[x]) == p;
                if x < i {
                    assert(m0(p));
                    let k = choose|k: int| 0 <= k < fa.len() && #[trigger] le_pair(fa[k], p);
                    assert(fa.contains(fa[k]));
                    let j = choose|j: int| 0 <= j < front@.len() && crate::cost::weakly_le(#[trigger] front@[j], fa[k]);
                    assert(le_pair(front@[j], p));
                } else {
                    assert(fa.contains(c) || c == c);
                    let j = choose|j: int| 0 <= j < front@.len() && crate::cost::weakly_le(#[trigger] front@[j], c);
                    assert(le_pair(front@[j], p));
                }
            }
            assert forall|x: Cost| #[trigger] f0.contains(x) implies exists|j: int| 0 <= j < front@.len() && crate::cost::weakly_le(#[trigger] front@[j], x) by {
                let k = choose|k: int| 0 <= k < fa.len() && crate::cost::weakly_le(#[trigger] fa[k], x);
                assert(fa.contains(fa[k]));
                let j = choose|j: int| 0 <= j < front@.len() && crate::cost::weakly_le(#[trigger] front@[j], fa[k]);
            }
        }
        i = i + 1;
    }
}

/// Whether some member of `front` is no worse than `(c1, c2)`.
fn any_below(front: &Vec<Cost>, c1: i64, c2: i64) -> (r: bool)
    ensures
        r == exists|i: int| 0 <= i < front@.len() && (#[trigger] front@[i]).c1 <= c1 && front@[i].c2 <= c2,
{
    let mut i: usize = 0;
    while i < front.len()
        invariant
            i <= front@.len(),
            forall|j: int| 0 <= j < i ==> !((#[trigger] front@[j]).c1 <= c1 && front@[j].c2 <= c2),
        decreases front@.len() - i,
    {
        if front[i].c1 <= c1 && front[i].c2 <= c2 {
            return true;
        }
        i = i + 1;
    }
    false
}

/// `(c1min, c2min)` of `a` is lexicographically at most that of `b`.
spec fn entry_le(a: PairEntry, b: PairEntry) -> bool {
    a.c1min < b.c1min || (a.c1min == b.c1min && a.c2min <= b.c2min)
}

/// `(j1, j2)` of `a` comes lexicographically before that of `b`.
spec fn pair_idx_lt(a: PairEntry, b: PairEntry) -> bool {
    a.j1 < b.j1 || (a.j1 == b.j1 && a.j2 < b.j2)
}

/// `a` comes before `b` by corner, then by `(j1, j2)`.
spec fn entry_lt(a: PairEntry, b: PairEntry) -> bool {
    a.c1min < b.c1min || (a.c1min == b.c1min && (a.c2min < b.c2min || (a.c2min == b.c2min && pair_idx_lt(a, b))))
}

/// Stable insertion sort of the candidate pairs by their ideal corner
/// `(c1min, c2min)`: pairs listed by `(j1, j2)` come out ordered by corner,
/// then by `(j1, j2)`.
fn sort_pairs(v: Vec<PairEntry>) -> (r: Vec<PairEntry>)
    requires
        forall|i: int, k: int| 0 <= i < k < v@.len() ==> pair_idx_lt(#[trigger] v@[i], #[trigger] v@[k]),
    ensures
        r@.len() == v@.len(),
        forall|i: int, j: int| 0 <= i < j < r@.len() ==> entry_le(#[trigger] r@[i], #[trigger] r@[j]),
        forall|i: int, j: int| 0 <= i < j < r@.len() ==> entry_lt(#[trigger] r@[i], #[trigger] r@[j]),
        forall|x: PairEntry| #[trigger] r@.contains(x) <==> v@.contains(x),
{
    let mut out: Vec<PairEntry> = Vec::new();
    let mut i: usize = 0;
    while i < v.len()
        invariant
            i <= v@.len(),
            out@.len() == i,
            forall|i: int, k: int| 0 <= i < k < v@.len() ==> pair_idx_lt(#[trigger] v@[i], #[trigger] v@[k]),
            forall|a: int, b: int| 0 <= a < b < out@.len() ==> entry_le(#[trigger] out@[a], #[trigger] out@[b]),
            forall|a: int, b: int| 0 <= a < b < out@.len() ==> entry_lt(#[trigger] out@[a], #[trigger] out@[b]),
            forall|x: PairEntry| #[trigger] out@.contains(x) <==> v@.take(i as int).contains(x),
        decreases v@.len() - i,
    {
        let e = v[i];
        proof {
            assert forall|a: int| 0 <= a < out@.len() implies pair_idx_lt(#[trigger] out@[a], e) by {
                assert(out@.contains(out@[a]));
                let tk = v@.take(i as int);
                let k = choose|k: int| 0 <= k < tk.len() && tk[k] == out@[a];
                assert(v@[k] == out@[a]);
            }
        }
        let mut pos: usize = 0;
        while pos < out.len() && (out[pos].c1min < e.c1min || (out[pos].c1min == e.c1min && out[pos].c2min <= e.c2min))
            invariant
                pos <= out@.len(),
                forall|k: int| 0 <= k < pos ==> entry_le(#[trigger] out@[k], e),
            decreases out@.len() - pos,
        {
            pos = pos + 1;
        }
        let ghost o0 = out@;
        out.insert(pos, e);
        proof {
            assert(pos < o0.len() ==> !entry_le(o0[pos as int], e));
            assert forall|a: int, b: int| 0 <= a < b < out@.len() implies entry_lt(#[trigger] out@[a], #[trigger] out@[b]) by {
                if b < pos {
                    assert(out@[a] == o0[a] && out@[b] == o0[b]);
                } else if b == pos {
                    assert(out@[a] == o0[a]);
                    assert(entry_le(o0[a], e));
                    assert(pair_idx_lt(o0[a], e));
                } else if a < pos {
                    assert(out@[a] == o0[a] && out@[b] == o0[b - 1]);
                } else if a == pos {
                    assert(out@[b] == o0[b - 1]);
                    assert(entry_le(o0[pos as int], o0[b - 1]));
                } else {
                    assert(out@[a] == o0[a - 1] && out@[b] == o0[b - 1]);
                }
            }
            assert forall|a: int, b: int| 0 <= a < b < out@.len() implies entry_le(#[trigger] out@[a], #[trigger] out@[b]) by {
                if b < pos {
                    assert(out@[a] == o0[a] && out@[b] == o0[b]);
                } else if b == pos {
                    assert(out@[a] == o0[a]);
                } else if a < pos {
                    assert(out@[a] == o0[a] && out@[b] == o0[b - 1]);
                } else if a == pos {
                    assert(out@[b] == o0[b - 1]);
                    assert(entry_le(o0[pos as int], o0[b - 1]));
                } else {
                    assert(out@[a] == o0[a - 1] && out@[b] == o0[b - 1]);
                }
            }
            assert(v@.take(i + 1) =~= v@.take(i as int).push(e));
            assert forall|x: PairEntry| #[trigger] out@.contains(x) <==> v@.take(i + 1).contains(x) by {
                if out@.contains(x) {
                    let k = choose|k: int| 0 <= k < out@.len() && out@[k] == x;
                    if k < pos {
                        assert(o0[k] == x);
                        assert(o0.contains(x));
                    } else if k > pos {
                        assert(o0[k - 1] == x);
                        assert(o0.contains(x));
                    }
                    assert(v@.take(i + 1)[i as int] == e);
                }
                if v@.take(i + 1).contains(x) {
                    if x == e {
                        assert(out@[pos as int] == e);
                    } else {
                        let tk = v@.take(i + 1);
                        let k = choose|k: int| 0 <= k < tk.len() && tk[k] == x;
                        assert(v@.take(i as int)[k] == x);
                        assert(o0.contains(x));
                        let p = choose|p: int| 0 <= p < o0.len() && o0[p] == x;
                        if p < pos {
                            assert(out@[p] == x);
                        } else {
                            assert(out@[p + 1] == x);
                        }
                    }
                }
            }
        }
        i = i + 1;
    }
    proof {
        assert(v@.take(v@.len() as int) =~= v@);
    }
    out
}

/// A set's frontier, where it has one, is the one `frontier` names.
proof fn lemma_frontier_named(r: Seq<Cost>, m: spec_fn((int, int)) -> bool)
    requires
        is_frontier_of(r, m),
    ensures
        frontier(m) == r,
{
    assert(is_frontier_of(frontier(m), m));
    crate::pareto::lemma_frontier_unique(frontier(m), r, m);
}

/// Boundary-multigraph costs between two listed boundary nodes are those
/// between their indices.
proof fn lemma_boundary_costs_at(g: Graph, part: Seq<u32>, bl: Seq<int>, si: int, ti: int, p: (int, int))
    requires
        forall|i: int, j: int| 0 <= i < j < bl.len() ==> bl[i] < bl[j],
        0 <= si < bl.len(),
        0 <= ti < bl.len(),
    ensures
        boundary_costs(g, part, bl, bl[si], bl[ti])(p) <==> rel_costs(boundary_rel(g, part, bl), si, ti)(p),
{
    let x = bl[si];
    let y = bl[ti];
    if boundary_costs(g, part, bl, x, y)(p) {
        let (s, t) = choose|s: int, t: int|
            0 <= s < bl.len() && 0 <= t < bl.len() && bl[s] == x && bl[t] == y && #[trigger] rel_costs(
                boundary_rel(g, part, bl),
                s,
                t,
            )(p);
        if s != si {
            if s < si {
                assert(bl[s] < bl[si]);
            } else {
                assert(bl[si] < bl[s]);
            }
        }
        if t != ti {
            if t < ti {
                assert(bl[t] < bl[ti]);
            } else {
                assert(bl[ti] < bl[t]);
            }
        }
    }
}

/// The edges of the subgraph induced by `nodes`, renumbered by `g2l`, for
/// the first `k` local nodes in order, each node's edges in the graph's
/// order, as `(from, to, c1, c2)`.
pub open spec fn local_edge_list(g: Graph, nodes: Seq<int>, g2l: Seq<u32>, k: int) -> Seq<(u32, u32, i64, i64)>
    decreases k,
{
    if k <= 0 {
        Seq::empty()
    } else {
        local_edge_list(g, nodes, g2l, k - 1) + induced_outs(g.out_edges(nodes[k - 1]), g2l).map_values(
            |e: (u32, Cost)| ((k - 1) as u32, e.0, e.1.c1, e.1.c2),
        )
    }
}

/// The edge list of an induced subgraph, converted to `(from, to, c1, c2)`,
/// is the renumbered edge list of the graph.
proof fn lemma_local_edges(g: Graph, nodes: Seq<int>, g2l: Seq<u32>, gf: Graph, k: int)
    requires
        0 <= k <= gf.node_count(),
        gf.node_count() == nodes.len(),
        gf.node_count() < u32::MAX,
        forall|l: int| 0 <= l < nodes.len() ==> #[trigger] gf.out_edges(l) == induced_outs(g.out_edges(nodes[l]), g2l),
    ensures
        edges_below(gf, k).map_values(|e: (usize, usize, Cost)| (e.0 as u32, e.1 as u32, e.2.c1, e.2.c2))
            == local_edge_list(g, nodes, g2l, k),
    decreases k,
{
    let conv = |e: (usize, usize, Cost)| (e.0 as u32, e.1 as u32, e.2.c1, e.2.c2);
    if k > 0 {
        lemma_local_edges(g, nodes, g2l, gf, k - 1);
        let outs = gf.out_edges(k - 1);
        let tail = outs.map_values(|e: (u32, Cost)| ((k - 1) as usize, e.0 as usize, e.1));
        assert(edges_below(gf, k) == edges_below(gf, k - 1) + tail);
        assert((edges_below(gf, k - 1) + tail).map_values(conv) =~= edges_below(gf, k - 1).map_values(conv) + tail.map_values(conv));
        assert(tail.map_values(conv) =~= induced_outs(g.out_edges(nodes[k - 1]), g2l).map_values(
            |e: (u32, Cost)| ((k - 1) as u32, e.0, e.1.c1, e.1.c2),
        ));
    } else {
        assert(edges_below(gf, k).map_values(conv) =~= Seq::<(u32, u32, i64, i64)>::empty());
    }
}

/// A frontier is empty exactly when its set is.
proof fn lemma_frontier_nonempty(r: Seq<Cost>, m: spec_fn((int, int)) -> bool)
    requires
        is_frontier_of(r, m),
    ensures
        r.len() > 0 <==> exists|p: (int, int)| #[trigger] m(p),
{
    if r.len() > 0 {
        assert(m(pair_of(r[0])));
    }
    if exists|p: (int, int)| #[trigger] m(p) {
        let p = choose|p: (int, int)| #[trigger] m(p);
        let i = choose|i: int| 0 <= i < r.len() && #[trigger] le_pair(r[i], p);
    }
}

/// Every member of a frontier's set is no better than the frontier's first
/// `c1` and its last `c2`.
proof fn lemma_frontier_corner(r: Seq<Cost>, m: spec_fn((int, int)) -> bool, p: (int, int))
    requires
        is_frontier_of(r, m),
        m(p),
    ensures
        r.len() > 0,
        r[0].c1 <= p.0,
        r[r.len() - 1].c2 <= p.1,
{
    let i = choose|i: int| 0 <= i < r.len() && #[trigger] le_pair(r[i], p);
    if i > 0 {
        assert(r[0].c1 < r[i].c1);
    }
    if i < r.len() - 1 {
        assert(r[r.len() - 1].c2 < r[i].c2);
    }
}

impl Mepfv {
    /// The graph the view was built for.
    pub closed spec fn source_graph(&self) -> Graph {
        self.graph@
    }

    /// The fragment of each node.
    pub closed spec fn partition(&self) -> Seq<u32> {
        self.part@
    }

    /// The boundary nodes, increasing.
    pub closed spec fn boundary(&self) -> Seq<int> {
        self.bnodes@
    }

    /// The number of fragments.
    pub closed spec fn fragment_count(&self) -> int {
        self.frag_graph@.len() as int
    }

    /// The nodes of fragment `f`, increasing (local id `l` is entry `l`).
    pub closed spec fn fragment_nodes(&self, f: int) -> Seq<int> {
        self.frag_nodes@[f]
    }

    /// The local id in fragment `f` of each node (`u32::MAX` outside it).
    pub closed spec fn fragment_ids(&self, f: int) -> Seq<u32> {
        self.frag_g2l@[f]@
    }

    /// The boundary nodes of fragment `f`, increasing.
    pub closed spec fn fragment_boundary(&self, f: int) -> Seq<u32> {
        self.frag_boundary@[f]@
    }

    /// The layout that the type invariant keeps.
    proof fn lemma_shape(&self)
        requires
            self.wf(),
        ensures
            self.shape_ok(),
    {
    }

    /// How the view lays out its graph and partition: fragments numbered
    /// past every id of the partition (a single one for an empty graph), each
    /// listing its nodes in increasing order with their local
    /// ids and its boundary nodes in increasing order, and the boundary
    /// nodes of the whole graph in increasing order.
    pub open spec fn shape_ok(&self) -> bool {
        let g = self.source_graph();
        let part = self.partition();
        let k = self.fragment_count();
        &&& part.len() == g.node_count()
        &&& is_boundary_list(g, part, self.boundary())
        &&& k >= 1
        &&& forall|u: int| 0 <= u < part.len() ==> (#[trigger] part[u] as int) < k
        &&& part.len() == 0 ==> k == 1
        &&& forall|f: int| 0 <= f < k ==> local_ids_ok(g, part, f, #[trigger] self.fragment_nodes(f), self.fragment_ids(f))
        &&& forall|f: int| 0 <= f < k ==> frag_boundary_ok(part, self.boundary(), f, #[trigger] self.fragment_boundary(f))
    }

    spec fn fb(&self, f: int, j: int) -> int {
        self.frag_boundary@[f]@[j] as int
    }

    spec fn b2(&self, f: int, j: int, l: int) -> Seq<Cost> {
        self.b2node@[f]@[j]@[l]@
    }

    spec fn n2(&self, f: int, j: int, l: int) -> Seq<Cost> {
        self.node2b@[f]@[j]@[l]@
    }

    spec fn bp(&self, s: int, t: int) -> Seq<Cost> {
        self.bppv@[s]@[t]@
    }

    #[verifier::type_invariant]
    closed spec fn wf(&self) -> bool {
        let g = self.graph@;
        let n = self.n as int;
        let part = self.part@;
        let k = self.frag_graph@.len() as int;
        let bl = self.bnodes@;
        let cap = (n - 1) * i64::MAX;
        &&& g.node_count() == n
        &&& n < u32::MAX
        &&& targets_in_range(g)
        &&& costs_square_bounded(g)
        &&& partition_ok(g, part)
        &&& k >= 1
        &&& self.frag_g2l@.len() == k
        &&& self.frag_boundary@.len() == k
        &&& self.b2node@.len() == k
        &&& self.node2b@.len() == k
        &&& self.frag_nodes@.len() == k
        &&& forall|u: int| 0 <= u < n ==> (#[trigger] part[u] as int) < k
        &&& n == 0 ==> k == 1
        &&& forall|f: int|
            0 <= f < k ==> frag_ok(g, part, f, #[trigger] self.frag_nodes@[f], self.frag_g2l@[f]@, self.frag_graph@[f])
        &&& is_boundary_list(g, part, bl)
        &&& bl.len() <= n
        &&& self.bidx@.len() == n
        &&& forall|i: int| 0 <= i < bl.len() ==> self.bidx@[#[trigger] bl[i]] as int == i
        &&& forall|x: int| 0 <= x < n && !bl.contains(x) ==> #[trigger] self.bidx@[x] == u32::MAX
        &&& forall|f: int| 0 <= f < k ==> frag_boundary_ok(part, bl, f, #[trigger] self.frag_boundary@[f]@)
        &&& forall|f: int|
            0 <= f < k ==> (#[trigger] self.b2node@[f])@.len() == self.frag_boundary@[f]@.len()
                && self.node2b@[f]@.len() == self.frag_boundary@[f]@.len()
        &&& forall|f: int, j: int|
            0 <= f < k && 0 <= j < self.frag_boundary@[f]@.len() ==> (#[trigger] self.b2node@[f]@[j])@.len()
                == self.frag_nodes@[f].len() && self.node2b@[f]@[j]@.len() == self.frag_nodes@[f].len()
        &&& forall|f: int, j: int, l: int|
            0 <= f < k && 0 <= j < self.frag_boundary@[f]@.len() && 0 <= l < self.frag_nodes@[f].len() ==> {
                &&& is_frontier_of(
                    #[trigger] self.b2(f, j, l),
                    rel_costs(frag_rel(g, part, f), self.fb(f, j), self.frag_nodes@[f][l]),
                )
                &&& scaled_ok(n, self.b2(f, j, l), cap)
            }
        &&& forall|f: int, j: int, l: int|
            0 <= f < k && 0 <= j < self.frag_boundary@[f]@.len() && 0 <= l < self.frag_nodes@[f].len() ==> {
                &&& is_frontier_of(
                    #[trigger] self.n2(f, j, l),
                    rel_costs(frag_rel(g, part, f), self.frag_nodes@[f][l], self.fb(f, j)),
                )
                &&& scaled_ok(n, self.n2(f, j, l), cap)
            }
        &&& frag_frontiers(g, part, bl)
        &&& self.bppv@.len() == bl.len()
        &&& forall|s: int| 0 <= s < bl.len() ==> (#[trigger] self.bppv@[s])@.len() == bl.len()
        &&& forall|s: int, t: int|
            0 <= s < bl.len() && 0 <= t < bl.len() ==> {
                &&& is_frontier_of(#[trigger] self.bp(s, t), rel_costs(boundary_rel(g, part, bl), s, t))
                &&& scaled_ok(n, self.bp(s, t), (bl.len() - 1) * cap)
            }
    }
}

/// Three bounded costs sum below `i64::MAX`.
proof fn lemma_three_fit(n: int, nb: int, x: int, y: int, z: int)
    requires
        1 <= n,
        0 <= nb <= n,
        0 <= x,
        0 <= y,
        0 <= z,
        n * n * x <= (n - 1) * i64::MAX,
        n * n * y <= (nb - 1) * ((n - 1) * i64::MAX),
        n * n * z <= (n - 1) * i64::MAX,
    ensures
        x + y + z < i64::MAX,
{
    let m = i64::MAX as int;
    assert((nb - 1) * ((n - 1) * m) <= (n - 1) * ((n - 1) * m)) by (nonlinear_arith)
        requires
            nb <= n,
            1 <= n,
            0 < m,
    ;
    assert(n * n * (x + y + z) == n * n * x + n * n * y + n * n * z) by (nonlinear_arith);
    assert((n - 1) * m + (n - 1) * ((n - 1) * m) + (n - 1) * m == (n * n - 1) * m) by (nonlinear_arith);
    assert(n * n * (x + y + z) < n * n * m) by (nonlinear_arith)
        requires
            n * n * (x + y + z) <= (n * n - 1) * m,
            1 <= n,
            0 < m,
    ;
    assert(x + y + z < m) by (nonlinear_arith)
        requires
            n * n * (x + y + z) < n * n * m,
            1 <= n,
    ;
}

/// `cands` holds, for every member of `m`, a cost no worse than it.
pub open spec fn covers(cands: Seq<Cost>, m: spec_fn((int, int)) -> bool) -> bool {
    forall|p: (int, int)| #[trigger] m(p) ==> exists|i: int| 0 <= i < cands.len() && #[trigger] le_pair(cands[i], p)
}

/// Sums of one member each of three sets.
pub open spec fn sum3(
    ma: spec_fn((int, int)) -> bool,
    mb: spec_fn((int, int)) -> bool,
    mc: spec_fn((int, int)) -> bool,
) -> spec_fn((int, int)) -> bool {
    |p: (int, int)|
        exists|pa: (int, int), pb: (int, int), pc: (int, int)|
            #[trigger] ma(pa) && #[trigger] mb(pb) && #[trigger] mc(pc) && p == (pa.0 + pb.0 + pc.0, pa.1 + pb.1 + pc.1)
}

proof fn lemma_covers_append(c1: Seq<Cost>, c2: Seq<Cost>, m: spec_fn((int, int)) -> bool)
    requires
        covers(c1, m),
    ensures
        covers(c1 + c2, m),
{
    assert forall|p: (int, int)| #[trigger] m(p) implies exists|i: int|
        0 <= i < (c1 + c2).len() && #[trigger] le_pair((c1 + c2)[i], p) by {
        let i = choose|i: int| 0 <= i < c1.len() && #[trigger] le_pair(c1[i], p);
        assert((c1 + c2)[i] == c1[i]);
    }
}

/// A set with an empty frontier has no members.
proof fn lemma_empty_frontier(r: Seq<Cost>, m: spec_fn((int, int)) -> bool, p: (int, int))
    requires
        is_frontier_of(r, m),
        r.len() == 0,
    ensures
        !m(p),
{
    if m(p) {
        let i = choose|i: int| 0 <= i < r.len() && #[trigger] le_pair(r[i], p);
    }
}

/// Combining three frontiers: the frontier of the pairwise sums, combined
/// again with the third, covers every sum of members of the three sets, and
/// each of its members is such a sum.
proof fn lemma_triple_cover(
    a: Seq<Cost>,
    b: Seq<Cost>,
    c: Seq<Cost>,
    ab: Seq<Cost>,
    abc: Seq<Cost>,
    ma: spec_fn((int, int)) -> bool,
    mb: spec_fn((int, int)) -> bool,
    mc: spec_fn((int, int)) -> bool,
)
    requires
        is_frontier_of(a, ma),
        is_frontier_of(b, mb),
        is_frontier_of(c, mc),
        is_frontier_of(ab, sums_of(a, b)),
        is_frontier_of(abc, sums_of(ab, c)),
        forall|i: int| 0 <= i < c.len() ==> 0 <= (#[trigger] c[i]).c2,
        forall|i: int, j: int, k: int|
            0 <= i < a.len() && 0 <= j < b.len() && 0 <= k < c.len() ==> (#[trigger] a[i]).c2 + (#[trigger] b[j]).c2
                + (#[trigger] c[k]).c2 < i64::MAX,
    ensures
        covers(abc, sum3(ma, mb, mc)),
        forall|x: int| 0 <= x < abc.len() ==> #[trigger] sum3(ma, mb, mc)(pair_of(abc[x])),
{
    let m = sum3(ma, mb, mc);
    assert forall|p: (int, int)| #[trigger] m(p) implies exists|x: int|
        0 <= x < abc.len() && #[trigger] le_pair(abc[x], p) by {
        let (pa, pb, pc) = choose|pa: (int, int), pb: (int, int), pc: (int, int)|
            #[trigger] ma(pa) && #[trigger] mb(pb) && #[trigger] mc(pc) && p == (pa.0 + pb.0 + pc.0, pa.1 + pb.1 + pc.1);
        let i = choose|i: int| 0 <= i < a.len() && #[trigger] le_pair(a[i], pa);
        let j = choose|j: int| 0 <= j < b.len() && #[trigger] le_pair(b[j], pb);
        let k = choose|k: int| 0 <= k < c.len() && #[trigger] le_pair(c[k], pc);
        let q = sum_pair(a[i], b[j]);
        assert(a[i].c2 + b[j].c2 + c[k].c2 < i64::MAX);
        assert(0 <= c[k].c2);
        assert(sums_of(a, b)(q));
        let y = choose|y: int| 0 <= y < ab.len() && #[trigger] le_pair(ab[y], q);
        let q2 = sum_pair(ab[y], c[k]);
        assert(sums_of(ab, c)(q2));
        let x = choose|x: int| 0 <= x < abc.len() && #[trigger] le_pair(abc[x], q2);
        assert(le_pair(abc[x], p));
    }
    assert forall|x: int| 0 <= x < abc.len() implies #[trigger] m(pair_of(abc[x])) by {
        assert(sums_of(ab, c)(pair_of(abc[x])));
        let (y, k) = choose|y: int, k: int|
            0 <= y < ab.len() && 0 <= k < c.len() && pair_of(abc[x]) == (ab[y].c1 + c[k].c1, ab[y].c2 + c[k].c2)
                && #[trigger] sum_pair(ab[y], c[k]) == pair_of(abc[x]);
        assert(sums_of(a, b)(pair_of(ab[y])));
        let (i, j) = choose|i: int, j: int|
            0 <= i < a.len() && 0 <= j < b.len() && pair_of(ab[y]) == (a[i].c1 + b[j].c1, a[i].c2 + b[j].c2)
                && #[trigger] sum_pair(a[i], b[j]) == pair_of(ab[y]);
        assert(ma(pair_of(a[i])));
        assert(mb(pair_of(b[j])));
        assert(mc(pair_of(c[k])));
    }
}

proof fn lemma_covers_concat(c1: Seq<Cost>, c2: Seq<Cost>, m: spec_fn((int, int)) -> bool)
    requires
        covers(c2, m),
    ensures
        covers(c1 + c2, m),
{
    assert forall|p: (int, int)| #[trigger] m(p) implies exists|i: int|
        0 <= i < (c1 + c2).len() && #[trigger] le_pair((c1 + c2)[i], p) by {
        let i = choose|i: int| 0 <= i < c2.len() && #[trigger] le_pair(c2[i], p);
        assert((c1 + c2)[c1.len() + i] == c2[i]);
    }
}

/// Walks of a fragment's induced subgraph are the graph's walks inside the
/// fragment, node ids renamed.
proof fn lemma_frag_walk_costs(
    g: Graph,
    part: Seq<u32>,
    f: int,
    nodes: Seq<int>,
    g2l: Seq<u32>,
    gf: Graph,
    l1: int,
    l2: int,
    p: (int, int),
)
    requires
        partition_ok(g, part),
        frag_ok(g, part, f, nodes, g2l, gf),
        0 <= l1 < nodes.len(),
        0 <= l2 < nodes.len(),
    ensures
        walk_costs(gf, l1, l2)(p) <==> rel_costs(frag_rel(g, part, f), nodes[l1], nodes[l2])(p),
{
    lemma_walk_costs_rel(gf, l1, l2, p);
    let el = edge_rel(gf);
    let eg = frag_rel(g, part, f);
    let to_global = |l: int| nodes[l];
    let to_local = |x: int| g2l[x] as int;
    assert forall|a: int, b: int, c: Cost| #[trigger] el(a, b, c) implies eg(to_global(a), to_global(b), c) by {
        assert(has_edge(gf, a, b, c));
    }
    assert forall|a: int, b: int, c: Cost| #[trigger] eg(a, b, c) implies el(to_local(a), to_local(b), c) by {
        assert(has_edge(g, a, b, c));
        assert(0 <= a < g.node_count() && 0 <= b < g.node_count());
        assert(nodes[g2l[a] as int] == a);
        assert(nodes[g2l[b] as int] == b);
        assert(has_edge(gf, g2l[a] as int, g2l[b] as int, c));
    }
    if rel_costs(el, l1, l2)(p) {
        lemma_rel_costs_map(el, eg, to_global, l1, l2, p);
    }
    if rel_costs(eg, nodes[l1], nodes[l2])(p) {
        lemma_rel_costs_map(eg, el, to_local, nodes[l1], nodes[l2], p);
        assert(to_local(nodes[l1]) == l1);
        assert(to_local(nodes[l2]) == l2);
    }
}

/// A non-negative cost with `n^2 * x <= (n - 1) * i64::MAX` is below `i64::MAX`.
proof fn lemma_scaled_below_max(n: int, x: int)
    requires
        1 <= n,
        0 <= x,
        n * n * x <= (n - 1) * i64::MAX,
    ensures
        x < i64::MAX,
{
    let m = i64::MAX as int;
    if x >= m {
        assert(n * n * x >= n * n * m) by (nonlinear_arith)
            requires
                x >= m,
                1 <= n,
        ;
        assert(n * n * m > (n - 1) * m) by (nonlinear_arith)
            requires
                1 <= n,
                0 < m,
        ;
    }
}

impl Mepfv {
    /// The costs of routes from `o` to `d` that leave the fragment of `o` at
    /// its boundary node number `j1` and enter the fragment of `d` at its
    /// boundary node number `j2`.
    spec fn route_costs(&self, o: int, d: int, j1: int, j2: int) -> spec_fn((int, int)) -> bool {
        let g = self.graph@;
        let part = self.part@;
        let fo = part[o] as int;
        let fd = part[d] as int;
        sum3(
            rel_costs(frag_rel(g, part, fo), o, self.fb(fo, j1)),
            rel_costs(boundary_rel(g, part, self.bnodes@), self.bidx@[self.fb(fo, j1)] as int, self.bidx@[self.fb(fd, j2)] as int),
            rel_costs(frag_rel(g, part, fd), self.fb(fd, j2), d),
        )
    }

    /// The three segment frontiers of boundary pair `(j1, j2)` for `o -> d`
    /// are all non-empty.
    spec fn pair_ok(&self, o: int, d: int, j1: int, j2: int) -> bool {
        let fo = self.part@[o] as int;
        let fd = self.part@[d] as int;
        let ol = self.frag_g2l@[fo]@[o] as int;
        let dl = self.frag_g2l@[fd]@[d] as int;
        &&& 0 <= j1 < self.frag_boundary@[fo]@.len()
        &&& 0 <= j2 < self.frag_boundary@[fd]@.len()
        &&& self.n2(fo, j1, ol).len() > 0
        &&& self.b2(fd, j2, dl).len() > 0
        &&& self.bp(self.bidx@[self.fb(fo, j1)] as int, self.bidx@[self.fb(fd, j2)] as int).len() > 0
    }

    /// `e` describes candidate pair `(e.j1, e.j2)` for `o -> d`: its boundary
    /// indices and the ideal corner of its routes.
    spec fn entry_ok(&self, o: int, d: int, e: PairEntry) -> bool {
        let fo = self.part@[o] as int;
        let fd = self.part@[d] as int;
        let ol = self.frag_g2l@[fo]@[o] as int;
        let dl = self.frag_g2l@[fd]@[d] as int;
        let a = self.n2(fo, e.j1 as int, ol);
        let c = self.b2(fd, e.j2 as int, dl);
        let b = self.bp(e.si as int, e.ti as int);
        &&& self.pair_ok(o, d, e.j1 as int, e.j2 as int)
        &&& e.si as int == self.bidx@[self.fb(fo, e.j1 as int)] as int
        &&& e.ti as int == self.bidx@[self.fb(fd, e.j2 as int)] as int
        &&& e.c1min as int == a[0].c1 + b[0].c1 + c[0].c1
        &&& e.c2min as int == a[a.len() - 1].c2 + b[b.len() - 1].c2 + c[c.len() - 1].c2
    }

    /// The boundary-node pairs the entries stand for.
    spec fn keys_of(&self, o: int, d: int, es: Seq<PairEntry>) -> Seq<(int, int)> {
        let fo = self.part@[o] as int;
        let fd = self.part@[d] as int;
        es.map_values(|e: PairEntry| (self.fb(fo, e.j1 as int), self.fb(fd, e.j2 as int)))
    }

    /// A candidate entry in the terms of the public specs: its corner is the
    /// route corner of its pair of boundary nodes, and its route costs are
    /// the route costs through that pair.
    proof fn lemma_entry_public(&self, o: int, d: int, e: PairEntry)
        requires
            self.wf(),
            0 <= o < self.n,
            0 <= d < self.n,
            self.entry_ok(o, d, e),
        ensures
            ({
                let x = self.fb(self.part@[o] as int, e.j1 as int);
                let y = self.fb(self.part@[d] as int, e.j2 as int);
                &&& (e.c1min as int, e.c2min as int) == route_corner(self.graph@, self.part@, self.bnodes@, o, d, x, y)
                &&& forall|q: (int, int)|
                    #[trigger] self.route_costs(o, d, e.j1 as int, e.j2 as int)(q) <==> route_costs_via(
                        self.graph@,
                        self.part@,
                        self.bnodes@,
                        o,
                        d,
                        x,
                        y,
                    )(q)
            }),
    {
        let g = self.graph@;
        let part = self.part@;
        let bl = self.bnodes@;
        let fo = part[o] as int;
        let fd = part[d] as int;
        let nodes_o = self.frag_nodes@[fo];
        let nodes_d = self.frag_nodes@[fd];
        assert(frag_ok(g, part, fo, nodes_o, self.frag_g2l@[fo]@, self.frag_graph@[fo]));
        assert(frag_ok(g, part, fd, nodes_d, self.frag_g2l@[fd]@, self.frag_graph@[fd]));
        let ol = self.frag_g2l@[fo]@[o] as int;
        let dl = self.frag_g2l@[fd]@[d] as int;
        assert(nodes_o[ol] == o);
        assert(nodes_d[dl] == d);
        self.lemma_fb_index(fo, e.j1 as int);
        self.lemma_fb_index(fd, e.j2 as int);
        let x = self.fb(fo, e.j1 as int);
        let y = self.fb(fd, e.j2 as int);
        let si = e.si as int;
        let ti = e.ti as int;
        assert(self.b2node@[fo]@.len() == self.frag_boundary@[fo]@.len());
        assert(self.b2node@[fd]@.len() == self.frag_boundary@[fd]@.len());
        let ma = rel_costs(frag_rel(g, part, fo), o, x);
        let mb = rel_costs(boundary_rel(g, part, bl), si, ti);
        let mc = rel_costs(frag_rel(g, part, fd), y, d);
        let a = self.n2(fo, e.j1 as int, ol);
        let b = self.bp(si, ti);
        let c = self.b2(fd, e.j2 as int, dl);
        assert(is_frontier_of(a, ma));
        assert(is_frontier_of(c, mc));
        assert(is_frontier_of(b, mb));
        lemma_frontier_named(a, ma);
        lemma_frontier_named(c, mc);
        assert(bl[si] == x);
        assert(bl[ti] == y);
        let mbx = boundary_costs(g, part, bl, x, y);
        assert forall|q: (int, int)| #[trigger] mb(q) <==> mbx(q) by {
            lemma_boundary_costs_at(g, part, bl, si, ti, q);
        }
        lemma_frontier_same_members(b, mb, mbx);
        lemma_frontier_named(b, mbx);
        let via = route_costs_via(g, part, bl, o, d, x, y);
        let rc = self.route_costs(o, d, e.j1 as int, e.j2 as int);
        assert forall|q: (int, int)| #[trigger] rc(q) <==> via(q) by {
            if rc(q) {
                let (pa, pb, pc) = choose|pa: (int, int), pb: (int, int), pc: (int, int)|
                    #[trigger] ma(pa) && #[trigger] mb(pb) && #[trigger] mc(pc) && q == (pa.0 + pb.0 + pc.0, pa.1 + pb.1 + pc.1);
                assert(mbx(pb));
            }
            if via(q) {
                let (pa, pb, pc) = choose|pa: (int, int), pb: (int, int), pc: (int, int)|
                    #[trigger] ma(pa) && #[trigger] mbx(pb) && #[trigger] mc(pc) && q == (pa.0 + pb.0 + pc.0, pa.1 + pb.1 + pc.1);
                assert(mb(pb));
            }
        }
    }

    /// The sorted candidates, read as pairs of boundary nodes, are the live
    /// pairs, ideal corner first.
    proof fn lemma_sorted_order(&self, o: int, d: int, pairs: Seq<PairEntry>, sorted: Seq<PairEntry>)
        requires
            self.wf(),
            0 <= o < self.n,
            0 <= d < self.n,
            forall|i: int| 0 <= i < pairs.len() ==> #[trigger] self.entry_ok(o, d, pairs[i]),
            forall|j1: int, j2: int|
                #[trigger] self.pair_ok(o, d, j1, j2) ==> exists|i: int| 0 <= i < pairs.len() && pairs[i].j1 == j1 && pairs[i].j2 == j2,
            forall|i: int, k: int|
                0 <= i < k < pairs.len() ==> (#[trigger] pairs[i]).j1 < (#[trigger] pairs[k]).j1 || (pairs[i].j1 == pairs[k].j1
                    && pairs[i].j2 < pairs[k].j2),
            forall|x: PairEntry| #[trigger] sorted.contains(x) <==> pairs.contains(x),
            forall|i: int, j: int| 0 <= i < j < sorted.len() ==> entry_lt(#[trigger] sorted[i], #[trigger] sorted[j]),
        ensures
            adv_order(self.graph@, self.part@, self.bnodes@, o, d, self.keys_of(o, d, sorted)),
            forall|i: int| 0 <= i < sorted.len() ==> #[trigger] self.entry_ok(o, d, sorted[i]),
    {
        let g = self.graph@;
        let part = self.part@;
        let bl = self.bnodes@;
        let fo = part[o] as int;
        let fd = part[d] as int;
        let kp = self.keys_of(o, d, pairs);
        let ks = self.keys_of(o, d, sorted);
        self.lemma_keys_live(o, d, pairs);
        assert forall|i: int| 0 <= i < sorted.len() implies #[trigger] self.entry_ok(o, d, sorted[i]) by {
            assert(sorted.contains(sorted[i]));
            let k = choose|k: int| 0 <= k < pairs.len() && pairs[k] == sorted[i];
            assert(self.entry_ok(o, d, pairs[k]));
        }
        assert forall|i: int| 0 <= i < ks.len() implies route_live(g, part, bl, o, d, (#[trigger] ks[i]).0, ks[i].1) by {
            assert(sorted.contains(sorted[i]));
            let k = choose|k: int| 0 <= k < pairs.len() && pairs[k] == sorted[i];
            assert(kp[k] == ks[i]);
        }
        assert forall|x: int, y: int| #[trigger] route_live(g, part, bl, o, d, x, y) implies ks.contains((x, y)) by {
            assert(kp.contains((x, y)));
            let k = choose|k: int| 0 <= k < kp.len() && kp[k] == (x, y);
            assert(pairs.contains(pairs[k]));
            assert(sorted.contains(pairs[k]));
            let m = choose|m: int| 0 <= m < sorted.len() && sorted[m] == pairs[k];
            assert(ks[m] == (x, y));
        }
        assert forall|i: int, j: int| 0 <= i < j < ks.len() implies corner_before(g, part, bl, o, d, #[trigger] ks[i], #[trigger] ks[j]) by {
            let a = sorted[i];
            let b = sorted[j];
            assert(entry_lt(a, b));
            assert(self.entry_ok(o, d, a));
            assert(self.entry_ok(o, d, b));
            self.lemma_entry_public(o, d, a);
            self.lemma_entry_public(o, d, b);
            assert(frag_boundary_ok(part, bl, fo, self.frag_boundary@[fo]@));
            assert(frag_boundary_ok(part, bl, fd, self.frag_boundary@[fd]@));
            if a.j1 < b.j1 {
                assert(self.fb(fo, a.j1 as int) < self.fb(fo, b.j1 as int));
            } else if a.j1 == b.j1 && a.j2 < b.j2 {
                assert(self.fb(fd, a.j2 as int) < self.fb(fd, b.j2 as int));
            }
        }
    }

    /// The pruning test on the frontier found so far decides exactly
    /// `adv_pruned`: when every cost it holds is known before pair `t`, and
    /// it covers every cost known before pair `t`, one of its members is no
    /// worse than the pair's corner exactly when a known cost is.
    proof fn lemma_prune_test(&self, o: int, d: int, front: Seq<Cost>, sorted: Seq<PairEntry>, t: int)
        requires
            self.wf(),
            0 <= o < self.n,
            0 <= d < self.n,
            0 <= t < sorted.len(),
            forall|i: int| 0 <= i < sorted.len() ==> #[trigger] self.entry_ok(o, d, sorted[i]),
            forall|i: int|
                0 <= i < front.len() ==> #[trigger] adv_seen(
                    self.graph@,
                    self.part@,
                    self.bnodes@,
                    o,
                    d,
                    self.keys_of(o, d, sorted),
                    t,
                )(pair_of(front[i])),
            self.part@[o] == self.part@[d] ==> covers(front, rel_costs(frag_rel(self.graph@, self.part@, self.part@[o] as int), o, d)),
            forall|x: int| 0 <= x < t ==> covers(front, #[trigger] self.route_costs(o, d, sorted[x].j1 as int, sorted[x].j2 as int)),
        ensures
            (exists|i: int| 0 <= i < front.len() && (#[trigger] front[i]).c1 <= sorted[t].c1min && front[i].c2 <= sorted[t].c2min)
                <==> adv_pruned(self.graph@, self.part@, self.bnodes@, o, d, self.keys_of(o, d, sorted), t),
    {
        let g = self.graph@;
        let part = self.part@;
        let bl = self.bnodes@;
        let ord = self.keys_of(o, d, sorted);
        let seen = adv_seen(g, part, bl, o, d, ord, t);
        let e = sorted[t];
        self.lemma_entry_public(o, d, e);
        let cn = route_corner(g, part, bl, o, d, ord[t].0, ord[t].1);
        assert(cn == (e.c1min as int, e.c2min as int));
        if exists|i: int| 0 <= i < front.len() && (#[trigger] front[i]).c1 <= e.c1min && front[i].c2 <= e.c2min {
            let i = choose|i: int| 0 <= i < front.len() && (#[trigger] front[i]).c1 <= e.c1min && front[i].c2 <= e.c2min;
            assert(seen(pair_of(front[i])));
        }
        if adv_pruned(g, part, bl, o, d, ord, t) {
            let q = choose|q: (int, int)| #[trigger] seen(q) && q.0 <= cn.0 && q.1 <= cn.1;
            if part[o] == part[d] && rel_costs(frag_rel(g, part, part[o] as int), o, d)(q) {
                let j = choose|j: int| 0 <= j < front.len() && #[trigger] le_pair(front[j], q);
                assert(front[j].c1 <= e.c1min && front[j].c2 <= e.c2min);
            } else {
                let s = choose|s: int| 0 <= s < t && #[trigger] route_costs_via(g, part, bl, o, d, ord[s].0, ord[s].1)(q);
                self.lemma_entry_public(o, d, sorted[s]);
                assert(self.route_costs(o, d, sorted[s].j1 as int, sorted[s].j2 as int)(q));
                let j = choose|j: int| 0 <= j < front.len() && #[trigger] le_pair(front[j], q);
                assert(front[j].c1 <= e.c1min && front[j].c2 <= e.c2min);
            }
        }
    }

    /// The candidate pairs are exactly the pairs through which a route passes.
    proof fn lemma_pair_ok_live(&self, o: int, d: int, j1: int, j2: int)
        requires
            self.wf(),
            0 <= o < self.n,
            0 <= d < self.n,
            0 <= j1 < self.frag_boundary@[self.part@[o] as int]@.len(),
            0 <= j2 < self.frag_boundary@[self.part@[d] as int]@.len(),
        ensures
            self.pair_ok(o, d, j1, j2) <==> route_live(
                self.graph@,
                self.part@,
                self.bnodes@,
                o,
                d,
                self.fb(self.part@[o] as int, j1),
                self.fb(self.part@[d] as int, j2),
            ),
    {
        let g = self.graph@;
        let part = self.part@;
        let bl = self.bnodes@;
        let fo = part[o] as int;
        let fd = part[d] as int;
        assert(frag_ok(g, part, fo, self.frag_nodes@[fo], self.frag_g2l@[fo]@, self.frag_graph@[fo]));
        assert(frag_ok(g, part, fd, self.frag_nodes@[fd], self.frag_g2l@[fd]@, self.frag_graph@[fd]));
        let ol = self.frag_g2l@[fo]@[o] as int;
        let dl = self.frag_g2l@[fd]@[d] as int;
        self.lemma_fb_index(fo, j1);
        self.lemma_fb_index(fd, j2);
        let x = self.fb(fo, j1);
        let y = self.fb(fd, j2);
        let si = self.bidx@[x] as int;
        let ti = self.bidx@[y] as int;
        let ma = rel_costs(frag_rel(g, part, fo), o, x);
        let mc = rel_costs(frag_rel(g, part, fd), y, d);
        let mb = rel_costs(boundary_rel(g, part, bl), si, ti);
        assert(self.frag_nodes@[fo][ol] == o);
        assert(self.frag_nodes@[fd][dl] == d);
        assert(is_frontier_of(self.n2(fo, j1, ol), ma));
        assert(is_frontier_of(self.b2(fd, j2, dl), mc));
        assert(is_frontier_of(self.bp(si, ti), mb));
        lemma_frontier_nonempty(self.n2(fo, j1, ol), ma);
        lemma_frontier_nonempty(self.b2(fd, j2, dl), mc);
        lemma_frontier_nonempty(self.bp(si, ti), mb);
        assert(bl.contains(x));
        assert(bl.contains(y));
        let mbx = boundary_costs(g, part, bl, x, y);
        assert forall|p: (int, int)| #[trigger] mbx(p) <==> mb(p) by {
            if mbx(p) {
                let (s, t) = choose|s: int, t: int|
                    0 <= s < bl.len() && 0 <= t < bl.len() && bl[s] == x && bl[t] == y && #[trigger] rel_costs(
                        boundary_rel(g, part, bl),
                        s,
                        t,
                    )(p);
                if s != si {
                    if s < si {
                        assert(bl[s] < bl[si]);
                    } else {
                        assert(bl[si] < bl[s]);
                    }
                }
                if t != ti {
                    if t < ti {
                        assert(bl[t] < bl[ti]);
                    } else {
                        assert(bl[ti] < bl[t]);
                    }
                }
            }
        }
        if exists|p: (int, int)| #[trigger] mb(p) {
            let p = choose|p: (int, int)| #[trigger] mb(p);
            assert(mbx(p));
        }
        if exists|p: (int, int)| #[trigger] mbx(p) {
            let p = choose|p: (int, int)| #[trigger] mbx(p);
            assert(mb(p));
        }
    }

    /// Every pair through which a route passes is a pair of boundary nodes of
    /// the two fragments.
    proof fn lemma_live_indices(&self, o: int, d: int, x: int, y: int) -> (r: (int, int))
        requires
            self.wf(),
            0 <= o < self.n,
            0 <= d < self.n,
            route_live(self.graph@, self.part@, self.bnodes@, o, d, x, y),
        ensures
            0 <= r.0 < self.frag_boundary@[self.part@[o] as int]@.len(),
            0 <= r.1 < self.frag_boundary@[self.part@[d] as int]@.len(),
            self.fb(self.part@[o] as int, r.0) == x,
            self.fb(self.part@[d] as int, r.1) == y,
    {
        let part = self.part@;
        let bl = self.bnodes@;
        let fo = part[o] as int;
        let fd = part[d] as int;
        assert(frag_boundary_ok(part, bl, fo, self.frag_boundary@[fo]@));
        assert(frag_boundary_ok(part, bl, fd, self.frag_boundary@[fd]@));
        let ix = choose|i: int| 0 <= i < bl.len() && bl[i] == x;
        let iy = choose|i: int| 0 <= i < bl.len() && bl[i] == y;
        assert(part[bl[ix]] as int == fo);
        assert(part[bl[iy]] as int == fd);
        let j1 = choose|j: int| 0 <= j < self.frag_boundary@[fo]@.len() && self.frag_boundary@[fo]@[j] as int == bl[ix];
        let j2 = choose|j: int| 0 <= j < self.frag_boundary@[fd]@.len() && self.frag_boundary@[fd]@[j] as int == bl[iy];
        (j1, j2)
    }

    /// The candidate boundary pairs for `o -> d`, boundary node of the origin's
    /// fragment first, then of the destination's, in increasing order: those
    /// whose three segment frontiers are all non-empty, with the ideal
    /// corner of their routes.
    #[verifier::loop_isolation(false)]
    fn live_pair_list(&self, o: usize, d: usize) -> (r: Vec<PairEntry>)
        requires
            o < self.source_graph().node_count(),
            d < self.source_graph().node_count(),
        ensures
            forall|i: int| 0 <= i < r@.len() ==> #[trigger] self.entry_ok(o as int, d as int, r@[i]),
            forall|j1: int, j2: int|
                #[trigger] self.pair_ok(o as int, d as int, j1, j2) ==> exists|i: int|
                    0 <= i < r@.len() && r@[i].j1 == j1 && r@[i].j2 == j2,
            forall|i: int, k: int|
                0 <= i < k < r@.len() ==> (#[trigger] r@[i]).j1 < (#[trigger] r@[k]).j1 || (r@[i].j1 == r@[k].j1
                    && r@[i].j2 < r@[k].j2),
    {
        proof {
            use_type_invariant(self);
        }
        let ghost g = self.graph@;
        let ghost part = self.part@;
        let ghost bl = self.bnodes@;
        let ghost n = self.n as int;
        let fo = self.part[o] as usize;
        let fd = self.part[d] as usize;
        let ghost nodes_o = self.frag_nodes@[fo as int];
        let ghost nodes_d = self.frag_nodes@[fd as int];
        proof {
            assert(frag_ok(g, part, fo as int, nodes_o, self.frag_g2l@[fo as int]@, self.frag_graph@[fo as int]));
            assert(frag_ok(g, part, fd as int, nodes_d, self.frag_g2l@[fd as int]@, self.frag_graph@[fd as int]));
        }
        let ol = self.frag_g2l[fo][o] as usize;
        let dl = self.frag_g2l[fd][d] as usize;
        let mut out: Vec<PairEntry> = Vec::new();
        let mut j1: usize = 0;
        while j1 < self.frag_boundary[fo].len()
            invariant
                j1 <= self.frag_boundary@[fo as int]@.len(),
                forall|i: int| 0 <= i < out@.len() ==> #[trigger] self.entry_ok(o as int, d as int, out@[i]),
                forall|x1: int, x2: int|
                    x1 < j1 && #[trigger] self.pair_ok(o as int, d as int, x1, x2) ==> exists|i: int|
                        0 <= i < out@.len() && out@[i].j1 == x1 && out@[i].j2 == x2,
                forall|i: int, k: int|
                    0 <= i < k < out@.len() ==> (#[trigger] out@[i]).j1 < (#[trigger] out@[k]).j1 || (out@[i].j1
                        == out@[k].j1 && out@[i].j2 < out@[k].j2),
                forall|i: int| 0 <= i < out@.len() ==> (#[trigger] out@[i]).j1 < j1,
            decreases self.frag_boundary@[fo as int]@.len() - j1,
        {
            let obn = self.frag_boundary[fo][j1];
            proof {
                assert(self.b2node@[fo as int]@.len() == self.frag_boundary@[fo as int]@.len());
                assert(self.b2node@[fo as int]@[j1 as int]@.len() == nodes_o.len());
                self.lemma_fb_index(fo as int, j1 as int);
            }
            let a = &self.node2b[fo][j1][ol];
            if a.len() > 0 {
                let si = self.bidx[obn as usize] as usize;
                let mut j2: usize = 0;
                while j2 < self.frag_boundary[fd].len()
                    invariant
                        j2 <= self.frag_boundary@[fd as int]@.len(),
                        forall|i: int| 0 <= i < out@.len() ==> #[trigger] self.entry_ok(o as int, d as int, out@[i]),
                        forall|x1: int, x2: int|
                            (x1 < j1 || (x1 == j1 && x2 < j2)) && #[trigger] self.pair_ok(o as int, d as int, x1, x2) ==> exists|i: int|
                                0 <= i < out@.len() && out@[i].j1 == x1 && out@[i].j2 == x2,
                        forall|i: int, k: int|
                            0 <= i < k < out@.len() ==> (#[trigger] out@[i]).j1 < (#[trigger] out@[k]).j1 || (out@[i].j1
                                == out@[k].j1 && out@[i].j2 < out@[k].j2),
                        forall|i: int| 0 <= i < out@.len() ==> (#[trigger] out@[i]).j1 < j1 || (out@[i].j1 == j1 && out@[i].j2 < j2),
                    decreases self.frag_boundary@[fd as int]@.len() - j2,
                {
                    let dbn = self.frag_boundary[fd][j2];
                    proof {
                        assert(self.b2node@[fd as int]@.len() == self.frag_boundary@[fd as int]@.len());
                        assert(self.b2node@[fd as int]@[j2 as int]@.len() == nodes_d.len());
                        self.lemma_fb_index(fd as int, j2 as int);
                    }
                    let c = &self.b2node[fd][j2][dl];
                    let ti = self.bidx[dbn as usize] as usize;
                    let b = &self.bppv[si][ti];
                    if c.len() > 0 && b.len() > 0 {
                        proof {
                            assert(a@ == self.n2(fo as int, j1 as int, ol as int));
                            assert(c@ == self.b2(fd as int, j2 as int, dl as int));
                            assert(b@ == self.bp(si as int, ti as int));
                            assert(scaled_ok(n, a@, (n - 1) * i64::MAX));
                            assert(scaled_ok(n, c@, (n - 1) * i64::MAX));
                            assert(scaled_ok(n, b@, (bl.len() - 1) * ((n - 1) * i64::MAX)));
                            lemma_three_fit(n, bl.len() as int, a@[0].c1 as int, b@[0].c1 as int, c@[0].c1 as int);
                            lemma_three_fit(n, bl.len() as int, a@[a@.len() - 1].c2 as int, b@[b@.len() - 1].c2 as int, c@[c@.len() - 1].c2 as int);
                        }
                        let c1min = a[0].c1 + b[0].c1 + c[0].c1;
                        let c2min = a[a.len() - 1].c2 + b[b.len() - 1].c2 + c[c.len() - 1].c2;
                        let ghost o0 = out@;
                        out.push(PairEntry { j1, j2, si, ti, c1min, c2min });
                        proof {
                            assert forall|i: int| 0 <= i < out@.len() implies #[trigger] self.entry_ok(o as int, d as int, out@[i]) by {
                                if i < o0.len() {
                                    assert(out@[i] == o0[i]);
                                }
                            }
                            assert forall|x1: int, x2: int|
                                (x1 < j1 || (x1 == j1 && x2 < j2 + 1)) && #[trigger] self.pair_ok(o as int, d as int, x1, x2) implies exists|i: int|
                                    0 <= i < out@.len() && out@[i].j1 == x1 && out@[i].j2 == x2 by {
                                if x1 == j1 && x2 == j2 {
                                    assert(out@[o0.len() as int].j1 == x1);
                                } else {
                                    let i = choose|i: int| 0 <= i < o0.len() && o0[i].j1 == x1 && o0[i].j2 == x2;
                                    assert(out@[i] == o0[i]);
                                }
                            }
                            assert forall|i: int, k: int|
                                0 <= i < k < out@.len() implies (#[trigger] out@[i]).j1 < (#[trigger] out@[k]).j1 || (out@[i].j1
                                    == out@[k].j1 && out@[i].j2 < out@[k].j2) by {
                                assert(out@[i] == o0[i]);
                                if k < o0.len() {
                                    assert(out@[k] == o0[k]);
                                }
                            }
                            assert forall|i: int| 0 <= i < out@.len() implies (#[trigger] out@[i]).j1 < j1 || (out@[i].j1 == j1 && out@[i].j2 < j2 + 1) by {
                                if i < o0.len() {
                                    assert(out@[i] == o0[i]);
                                }
                            }
                        }
                    }
                    j2 = j2 + 1;
                }
            }
            j1 = j1 + 1;
        }
        out
    }

    /// The keys of the candidate list are the pairs through which a route
    /// passes, in increasing order.
    proof fn lemma_keys_live(&self, o: int, d: int, es: Seq<PairEntry>)
        requires
            self.wf(),
            0 <= o < self.n,
            0 <= d < self.n,
            forall|i: int| 0 <= i < es.len() ==> #[trigger] self.entry_ok(o, d, es[i]),
            forall|j1: int, j2: int|
                #[trigger] self.pair_ok(o, d, j1, j2) ==> exists|i: int| 0 <= i < es.len() && es[i].j1 == j1 && es[i].j2 == j2,
            forall|i: int, k: int|
                0 <= i < k < es.len() ==> (#[trigger] es[i]).j1 < (#[trigger] es[k]).j1 || (es[i].j1 == es[k].j1
                    && es[i].j2 < es[k].j2),
        ensures
            live_pairs(self.graph@, self.part@, self.bnodes@, o, d, self.keys_of(o, d, es)),
    {
        let part = self.part@;
        let fo = part[o] as int;
        let fd = part[d] as int;
        let keys = self.keys_of(o, d, es);
        assert(frag_boundary_ok(part, self.bnodes@, fo, self.frag_boundary@[fo]@));
        assert(frag_boundary_ok(part, self.bnodes@, fd, self.frag_boundary@[fd]@));
        assert forall|i: int, j: int| 0 <= i < j < keys.len() implies (#[trigger] keys[i]).0 < (#[trigger] keys[j]).0 || (keys[i].0 == keys[j].0
            && keys[i].1 < keys[j].1) by {
            assert(self.entry_ok(o, d, es[i]));
            assert(self.entry_ok(o, d, es[j]));
            if es[i].j1 < es[j].j1 {
                assert(self.frag_boundary@[fo]@[es[i].j1 as int] < self.frag_boundary@[fo]@[es[j].j1 as int]);
            } else {
                assert(self.frag_boundary@[fd]@[es[i].j2 as int] < self.frag_boundary@[fd]@[es[j].j2 as int]);
            }
        }
        assert forall|i: int| 0 <= i < keys.len() implies route_live(self.graph@, part, self.bnodes@, o, d, (#[trigger] keys[i]).0, keys[i].1) by {
            assert(self.entry_ok(o, d, es[i]));
            self.lemma_pair_ok_live(o, d, es[i].j1 as int, es[i].j2 as int);
        }
        assert forall|x: int, y: int| #[trigger] route_live(self.graph@, part, self.bnodes@, o, d, x, y) implies keys.contains((x, y)) by {
            let (j1, j2) = self.lemma_live_indices(o, d, x, y);
            self.lemma_pair_ok_live(o, d, j1, j2);
            assert(self.pair_ok(o, d, j1, j2));
            let i = choose|i: int| 0 <= i < es.len() && es[i].j1 == j1 && es[i].j2 == j2;
            assert(keys[i] == (x, y));
        }
    }

    /// The index among the boundary nodes of boundary node number `j` of
    /// fragment `f`.
    proof fn lemma_fb_index(&self, f: int, j: int)
        requires
            self.wf(),
            0 <= f < self.frag_graph@.len(),
            0 <= j < self.frag_boundary@[f]@.len(),
        ensures
            0 <= self.bidx@[self.fb(f, j)] < self.bnodes@.len(),
            self.bnodes@[self.bidx@[self.fb(f, j)] as int] == self.fb(f, j),
            0 <= self.fb(f, j) < self.n,
            self.part@[self.fb(f, j)] as int == f,
    {
        let bl = self.bnodes@;
        assert(frag_boundary_ok(self.part@, bl, f, self.frag_boundary@[f]@));
        let x = self.fb(f, j);
        assert(bl.contains(self.frag_boundary@[f]@[j] as int));
        let i = choose|i: int| 0 <= i < bl.len() && bl[i] == x;
        assert(self.bidx@[bl[i]] as int == i);
    }
}

/// Walks of the reversed graph are the walks of the graph turned around.
proof fn lemma_rev_walk_costs(gf: Graph, rev: Graph, a: int, b: int, p: (int, int))
    requires
        targets_in_range(gf),
        targets_in_range(rev),
        rev.node_count() == gf.node_count(),
        0 <= a < gf.node_count(),
        0 <= b < gf.node_count(),
        forall|u: int, v: int, c: Cost| #[trigger] has_edge(rev, u, v, c) <==> has_edge(gf, v, u, c),
    ensures
        walk_costs(rev, a, b)(p) <==> walk_costs(gf, b, a)(p),
{
    let er = edge_rel(rev);
    let e = edge_rel(gf);
    lemma_walk_costs_rel(rev, a, b, p);
    lemma_walk_costs_rel(gf, b, a, p);
    assert forall|u: int, v: int, c: Cost| #[trigger] er(u, v, c) implies flip(e)(u, v, c) by {
        assert(has_edge(rev, u, v, c));
    }
    assert forall|u: int, v: int, c: Cost| #[trigger] flip(flip(e))(u, v, c) implies e(u, v, c) by {}
    assert forall|u: int, v: int, c: Cost| #[trigger] flip(e)(u, v, c) implies er(u, v, c) by {
        assert(has_edge(gf, v, u, c));
    }
    if rel_costs(er, a, b)(p) {
        lemma_rel_costs_mono(er, flip(e), a, b, p);
        lemma_rel_costs_flip(flip(e), a, b, p);
        lemma_rel_costs_mono(flip(flip(e)), e, b, a, p);
    }
    if rel_costs(e, b, a)(p) {
        lemma_rel_costs_flip(e, b, a, p);
        lemma_rel_costs_mono(flip(e), er, a, b, p);
    }
}

/// `nodes` lists, in increasing order, exactly the nodes of fragment `f`.
pub open spec fn frag_nodes_ok(n: int, part: Seq<u32>, f: int, nodes: Seq<u32>) -> bool {
    &&& forall|i: int, j: int| 0 <= i < j < nodes.len() ==> nodes[i] < nodes[j]
    &&& forall|l: int| 0 <= l < nodes.len() ==> (#[trigger] nodes[l] as int) < n && part[nodes[l] as int] as int == f
    &&& forall|x: int| 0 <= x < n && part[x] as int == f ==> nodes.contains(#[trigger] (x as u32))
}

/// The node ids of a list as integers.
pub open spec fn ints(s: Seq<u32>) -> Seq<int> {
    s.map_values(|x: u32| x as int)
}

/// The subgraph fragment `f` induces, its local ids, and its two fragment
/// Pareto path views: from each boundary node to every node, and from every
/// node to each boundary node, within the fragment.
fn fragment_tables(graph: &Graph, part: &Vec<u32>, f: usize, nodes: &Vec<u32>, fbnd: &Vec<u32>) -> (res: (
    Vec<u32>,
    Graph,
    Vec<Vec<Vec<Cost>>>,
    Vec<Vec<Vec<Cost>>>,
))
    requires
        targets_in_range(*graph),
        costs_square_bounded(*graph),
        partition_ok(*graph, part@),
        graph.node_count() < u32::MAX,
        frag_nodes_ok(graph.node_count() as int, part@, f as int, nodes@),
        forall|j: int|
            0 <= j < fbnd@.len() ==> (#[trigger] fbnd@[j] as int) < graph.node_count() && part@[fbnd@[j] as int]
                as int == f,
    ensures
        frag_ok(*graph, part@, f as int, ints(nodes@), res.0@, res.1),
        res.2@.len() == fbnd@.len(),
        res.3@.len() == fbnd@.len(),
        forall|j: int|
            0 <= j < fbnd@.len() ==> (#[trigger] res.2@[j])@.len() == nodes@.len() && res.3@[j]@.len() == nodes@.len(),
        forall|j: int, l: int|
            0 <= j < fbnd@.len() && 0 <= l < nodes@.len() ==> {
                &&& is_frontier_of(
                    (#[trigger] res.2@[j]@[l])@,
                    rel_costs(frag_rel(*graph, part@, f as int), fbnd@[j] as int, nodes@[l] as int),
                )
                &&& scaled_ok(graph.node_count() as int, res.2@[j]@[l]@, (graph.node_count() - 1) * i64::MAX)
            },
        forall|j: int, l: int|
            0 <= j < fbnd@.len() && 0 <= l < nodes@.len() ==> {
                &&& is_frontier_of(
                    (#[trigger] res.3@[j]@[l])@,
                    rel_costs(frag_rel(*graph, part@, f as int), nodes@[l] as int, fbnd@[j] as int),
                )
                &&& scaled_ok(graph.node_count() as int, res.3@[j]@[l]@, (graph.node_count() - 1) * i64::MAX)
            },
{
    let ghost g = *graph;
    let ghost n = g.node_count() as int;
    let ghost ns = ints(nodes@);
    proof {
        assert(nodes@.no_duplicates()) by {
            assert forall|i: int, j: int| 0 <= i < nodes@.len() && 0 <= j < nodes@.len() && i != j implies nodes@[i] != nodes@[j] by {
                if i < j {
                    assert(nodes@[i] < nodes@[j]);
                } else {
                    assert(nodes@[j] < nodes@[i]);
                }
            }
        }
        assert forall|i: int| 0 <= i < ns.len() implies 0 <= #[trigger] ns[i] < n by {
            assert(ns[i] == nodes@[i] as int);
        }
        assert(ns.no_duplicates()) by {
            assert forall|i: int, j: int| 0 <= i < ns.len() && 0 <= j < ns.len() && i != j implies ns[i] != ns[j] by {
                if i < j {
                    assert(nodes@[i] < nodes@[j]);
                } else {
                    assert(nodes@[j] < nodes@[i]);
                }
            }
        }
        crate::relations::lemma_distinct_len(ns, n);
    }
    let (gf, g2l) = graph.induced_subgraph(nodes.as_slice());
    let ghost m = nodes@.len() as int;
    proof {
        let l2g = g2l@;
        // local ids and fragment membership
        assert forall|x: int| 0 <= x < n && part@[x] as int == f implies (#[trigger] l2g[x] as int) < m
            && ns[l2g[x] as int] == x by {
            assert(nodes@.contains(x as u32));
            let i = choose|i: int| 0 <= i < m && nodes@[i] == x as u32;
            assert(l2g[nodes@[i] as int] == i);
        }
        assert forall|x: int| 0 <= x < n && part@[x] as int != f implies #[trigger] l2g[x] == u32::MAX by {
            if l2g[x] != u32::MAX {
                assert(nodes@[l2g[x] as int] == x);
            }
        }
        assert forall|l: int| 0 <= l < m implies 0 <= #[trigger] ns[l] < n && part@[ns[l]] as int == f
            && l2g[ns[l]] as int == l by {
            assert(ns[l] == nodes@[l] as int);
        }
        // edges of the induced subgraph
        assert forall|a: int, b: int, c: Cost| #[trigger] has_edge(gf, a, b, c) <==> 0 <= a < m && 0 <= b < m
            && has_edge(g, ns[a], ns[b], c) by {
            if 0 <= a < m && 0 <= b < m {
                let outs = g.out_edges(ns[a]);
                assert(gf.out_edges(a) == crate::graph::induced_outs(outs, l2g));
                assert forall|k: int| 0 <= k < outs.len() implies ((#[trigger] outs[k]).0 as int) < l2g.len() by {}
                lemma_induced_outs_contains(outs, l2g, b, c);
                if has_edge(g, ns[a], ns[b], c) {
                    let k = choose|k: int| 0 <= k < outs.len() && (#[trigger] outs[k]).0 as int == ns[b] && outs[k].1 == c;
                    assert(l2g[outs[k].0 as int] as int == b);
                }
                if has_edge(gf, a, b, c) {
                    let k = choose|k: int|
                        0 <= k < outs.len() && l2g[(#[trigger] outs[k]).0 as int] != u32::MAX && l2g[outs[k].0 as int] as int
                            == b && outs[k].1 == c;
                    assert(ns[l2g[outs[k].0 as int] as int] == outs[k].0 as int);
                }
            }
        }
        // edge costs of the induced subgraph are bounded
        assert forall|u: int, k: int| 0 <= u < gf.node_count() && 0 <= k < gf.out_edges(u).len() implies {
            let c = (#[trigger] gf.out_edges(u)[k]).1;
            &&& 0 <= c.c1 && gf.node_count() * c.c1 <= i64::MAX
            &&& 0 <= c.c2 && gf.node_count() * c.c2 <= i64::MAX
        } by {
            let e = gf.out_edges(u)[k];
            assert(has_edge(gf, u, e.0 as int, e.1));
            assert(has_edge(g, ns[u], ns[e.0 as int], e.1));
            lemma_square_to_linear(n, m, e.1.c1 as int);
            lemma_square_to_linear(n, m, e.1.c2 as int);
        }
    }
    let gf_rev = gf.reversed();
    proof {
        let es = edges_below(gf, m);
        let rev_es = reversed_edges(es);
        lemma_edges_below_bounds(gf, m);
        assert forall|i: int| 0 <= i < rev_es.len() implies ((#[trigger] rev_es[i]).1 as int) < m by {
            assert(rev_es[i] == (es[i].1 as u32, es[i].0 as u32, es[i].2));
            assert((es[i].0 as int) < m);
        }
        assert forall|u: int, k: int| 0 <= u < gf_rev.node_count() && 0 <= k < gf_rev.out_edges(u).len() implies (
        #[trigger] gf_rev.out_edges(u)[k]).0 < gf_rev.node_count() by {
            lemma_outs_of_targets_below(rev_es, u, m);
        }
        assert forall|a: int, b: int, c: Cost| #[trigger] has_edge(gf_rev, a, b, c) <==> has_edge(gf, b, a, c) by {
            lemma_reversed_has_edge(gf, gf_rev, a, b, c);
        }
        assert forall|u: int, k: int| 0 <= u < gf_rev.node_count() && 0 <= k < gf_rev.out_edges(u).len() implies {
            let c = (#[trigger] gf_rev.out_edges(u)[k]).1;
            &&& 0 <= c.c1 && gf_rev.node_count() * c.c1 <= i64::MAX
            &&& 0 <= c.c2 && gf_rev.node_count() * c.c2 <= i64::MAX
        } by {
            let e = gf_rev.out_edges(u)[k];
            assert(has_edge(gf_rev, u, e.0 as int, e.1));
            assert(has_edge(gf, e.0 as int, u, e.1));
            assert(has_edge(g, ns[e.0 as int], ns[u], e.1));
            lemma_square_to_linear(n, m, e.1.c1 as int);
            lemma_square_to_linear(n, m, e.1.c2 as int);
        }
        assert(frag_ok(g, part@, f as int, ns, g2l@, gf));
    }
    let mut b2: Vec<Vec<Vec<Cost>>> = Vec::new();
    let mut n2: Vec<Vec<Vec<Cost>>> = Vec::new();
    let mut j: usize = 0;
    while j < fbnd.len()
        invariant
            j <= fbnd@.len(),
            frag_ok(g, part@, f as int, ns, g2l@, gf),
            partition_ok(g, part@),
            costs_square_bounded(g),
            n == g.node_count(),
            ns == ints(nodes@),
            m == nodes@.len(),
            gf_rev.node_count() == m,
            targets_in_range(gf_rev),
            costs_bounded(gf_rev),
            forall|a: int, b: int, c: Cost| #[trigger] has_edge(gf_rev, a, b, c) <==> has_edge(gf, b, a, c),
            forall|jj: int|
                0 <= jj < fbnd@.len() ==> (#[trigger] fbnd@[jj] as int) < n && part@[fbnd@[jj] as int] as int == f,
            b2@.len() == j,
            n2@.len() == j,
            forall|jj: int| 0 <= jj < j ==> (#[trigger] b2@[jj])@.len() == m && n2@[jj]@.len() == m,
            forall|jj: int, l: int|
                0 <= jj < j && 0 <= l < m ==> {
                    &&& is_frontier_of(
                        (#[trigger] b2@[jj]@[l])@,
                        rel_costs(frag_rel(g, part@, f as int), fbnd@[jj] as int, nodes@[l] as int),
                    )
                    &&& scaled_ok(n, b2@[jj]@[l]@, (n - 1) * i64::MAX)
                },
            forall|jj: int, l: int|
                0 <= jj < j && 0 <= l < m ==> {
                    &&& is_frontier_of(
                        (#[trigger] n2@[jj]@[l])@,
                        rel_costs(frag_rel(g, part@, f as int), nodes@[l] as int, fbnd@[jj] as int),
                    )
                    &&& scaled_ok(n, n2@[jj]@[l]@, (n - 1) * i64::MAX)
                },
        decreases fbnd@.len() - j,
    {
        let b = fbnd[j];
        let bl = g2l[b as usize] as usize;
        proof {
            lemma_bounded_walks_fit(gf, bl as int, gf.node_count() as int);
            lemma_bounded_walks_fit(gf_rev, bl as int, gf_rev.node_count() as int);
        }
        let from_b = pareto_from(&gf, bl);
        let to_b = pareto_from(&gf_rev, bl);
        proof {
            let fr = frag_rel(g, part@, f as int);
            assert(ns[bl as int] == b as int);
            assert forall|u: int, v: int, c: Cost| #[trigger] fr(u, v, c) implies 0 <= c.c1 && 0 <= c.c2 && n * n * c.c1
                <= i64::MAX && n * n * c.c2 <= i64::MAX by {
                assert(has_edge(g, u, v, c));
            }
            assert forall|u: int, v: int, c: Cost| #[trigger] fr(u, v, c) implies 0 <= u < n && 0 <= v < n by {
                assert(has_edge(g, u, v, c));
            }
            assert forall|l: int| 0 <= l < m implies {
                &&& is_frontier_of(
                    (#[trigger] from_b@[l])@,
                    rel_costs(fr, b as int, nodes@[l] as int),
                )
                &&& scaled_ok(n, from_b@[l]@, (n - 1) * i64::MAX)
            } by {
                assert(ns[l] == nodes@[l] as int);
                let mf = rel_costs(fr, b as int, nodes@[l] as int);
                assert forall|p: (int, int)| #[trigger] walk_costs(gf, bl as int, l)(p) <==> mf(p) by {
                    lemma_frag_walk_costs(g, part@, f as int, ns, g2l@, gf, bl as int, l, p);
                }
                lemma_frontier_same_members(from_b@[l]@, walk_costs(gf, bl as int, l), mf);
                lemma_frontier_scaled(fr, b as int, nodes@[l] as int, from_b@[l]@, n, n * n, i64::MAX as int);
            }
            assert forall|l: int| 0 <= l < m implies {
                &&& is_frontier_of(
                    (#[trigger] to_b@[l])@,
                    rel_costs(fr, nodes@[l] as int, b as int),
                )
                &&& scaled_ok(n, to_b@[l]@, (n - 1) * i64::MAX)
            } by {
                assert(ns[l] == nodes@[l] as int);
                let mt = rel_costs(fr, nodes@[l] as int, b as int);
                assert forall|p: (int, int)| #[trigger] walk_costs(gf_rev, bl as int, l)(p) <==> mt(p) by {
                    lemma_rev_walk_costs(gf, gf_rev, bl as int, l, p);
                    lemma_frag_walk_costs(g, part@, f as int, ns, g2l@, gf, l, bl as int, p);
                }
                lemma_frontier_same_members(to_b@[l]@, walk_costs(gf_rev, bl as int, l), mt);
                lemma_frontier_scaled(fr, nodes@[l] as int, b as int, to_b@[l]@, n, n * n, i64::MAX as int);
            }
        }
        b2.push(from_b);
        n2.push(to_b);
        j = j + 1;
    }
    (g2l, gf, b2, n2)
}

/// The Minkowski combination of three frontiers, reduced to the frontier:
/// it covers every sum of members of the three sets, and each of its members
/// is such a sum (below `i64::MAX`).
fn combine3(
    a: &Vec<Cost>,
    b: &Vec<Cost>,
    c: &Vec<Cost>,
    Ghost(ma): Ghost<spec_fn((int, int)) -> bool>,
    Ghost(mb): Ghost<spec_fn((int, int)) -> bool>,
    Ghost(mc): Ghost<spec_fn((int, int)) -> bool>,
    Ghost(n): Ghost<int>,
    Ghost(nb): Ghost<int>,
) -> (abc: Vec<Cost>)
    requires
        1 <= n,
        0 <= nb <= n,
        c@.len() > 0,
        is_frontier_of(a@, ma),
        is_frontier_of(b@, mb),
        is_frontier_of(c@, mc),
        scaled_ok(n, a@, (n - 1) * i64::MAX),
        scaled_ok(n, b@, (nb - 1) * ((n - 1) * i64::MAX)),
        scaled_ok(n, c@, (n - 1) * i64::MAX),
    ensures
        covers(abc@, sum3(ma, mb, mc)),
        forall|x: int| 0 <= x < abc@.len() ==> #[trigger] sum3(ma, mb, mc)(pair_of(abc@[x])) && abc@[x].c2 < i64::MAX,
{
    proof {
        assert forall|i: int, j: int, k: int|
            0 <= i < a@.len() && 0 <= j < b@.len() && 0 <= k < c@.len() implies (#[trigger] a@[i]).c2
                + (#[trigger] b@[j]).c2 + (#[trigger] c@[k]).c2 < i64::MAX && a@[i].c1 + b@[j].c1 + c@[k].c1 < i64::MAX
                && 0 <= a@[i].c1 && 0 <= a@[i].c2 && 0 <= b@[j].c1 && 0 <= b@[j].c2 && 0 <= c@[k].c1 && 0 <= c@[k].c2 by {
            lemma_three_fit(n, nb, a@[i].c2 as int, b@[j].c2 as int, c@[k].c2 as int);
            lemma_three_fit(n, nb, a@[i].c1 as int, b@[j].c1 as int, c@[k].c1 as int);
        }
        assert forall|i: int, j: int| 0 <= i < a@.len() && 0 <= j < b@.len() implies crate::cost::sum_fits(
            #[trigger] a@[i],
            #[trigger] b@[j],
        ) by {
            assert(a@[i].c2 + b@[j].c2 + c@[0].c2 < i64::MAX);
            assert(a@[i].c1 + b@[j].c1 + c@[0].c1 < i64::MAX);
        }
    }
    let ab = minkowski_sum(a, b);
    proof {
        assert forall|y: int, k: int| 0 <= y < ab@.len() && 0 <= k < c@.len() implies crate::cost::sum_fits(
            #[trigger] ab@[y],
            #[trigger] c@[k],
        ) by {
            assert(sums_of(a@, b@)(pair_of(ab@[y])));
            let (i, j) = choose|i: int, j: int|
                0 <= i < a@.len() && 0 <= j < b@.len() && pair_of(ab@[y]) == (a@[i].c1 + b@[j].c1, a@[i].c2 + b@[j].c2)
                    && #[trigger] sum_pair(a@[i], b@[j]) == pair_of(ab@[y]);
            assert(a@[i].c2 + b@[j].c2 + c@[k].c2 < i64::MAX);
            assert(a@[i].c1 + b@[j].c1 + c@[k].c1 < i64::MAX);
        }
    }
    let abc = minkowski_sum(&ab, c);
    proof {
        lemma_triple_cover(a@, b@, c@, ab@, abc@, ma, mb, mc);
        assert forall|x: int| 0 <= x < abc@.len() implies abc@[x].c2 < i64::MAX by {
            assert(sums_of(ab@, c@)(pair_of(abc@[x])));
            let (y, k) = choose|y: int, k: int|
                0 <= y < ab@.len() && 0 <= k < c@.len() && pair_of(abc@[x]) == (ab@[y].c1 + c@[k].c1, ab@[y].c2 + c@[k].c2)
                    && #[trigger] sum_pair(ab@[y], c@[k]) == pair_of(abc@[x]);
            assert(sums_of(a@, b@)(pair_of(ab@[y])));
            let (i, j) = choose|i: int, j: int|
                0 <= i < a@.len() && 0 <= j < b@.len() && pair_of(ab@[y]) == (a@[i].c1 + b@[j].c1, a@[i].c2 + b@[j].c2)
                    && #[trigger] sum_pair(a@[i], b@[j]) == pair_of(ab@[y]);
            assert(a@[i].c2 + b@[j].c2 + c@[k].c2 < i64::MAX);
        }
    }
    abc
}

/// `n^2 * c <= i64::MAX` gives `m * c <= i64::MAX` for `m <= n`.
proof fn lemma_square_to_linear(n: int, m: int, c: int)
    requires
        0 <= m <= n,
        0 <= c,
        n * n * c <= i64::MAX,
    ensures
        m * c <= i64::MAX,
{
    assert(m * c <= n * n * c) by (nonlinear_arith)
        requires
            0 <= m <= n,
            0 <= c,
    ;
}

/// Every edge cost is non-negative with `scale * c <= i64::MAX` in each
/// component.
pub open spec fn edges_scaled_ok(g: Graph, scale: int) -> bool {
    forall|u: int, k: int|
        0 <= u < g.node_count() && 0 <= k < g.out_edges(u).len() ==> {
            let c = (#[trigger] g.out_edges(u)[k]).1;
            &&& 0 <= c.c1 && scale * c.c1 <= i64::MAX
            &&& 0 <= c.c2 && scale * c.c2 <= i64::MAX
        }
}

/// Whether every edge cost of `graph` is non-negative with
/// `scale * c <= i64::MAX` in each component.
fn edge_costs_fit(graph: &Graph, scale: u64) -> (r: bool)
    ensures
        r == edges_scaled_ok(*graph, scale as int),
{
    let ghost g = *graph;
    let n = graph.num_nodes();
    let mut u: usize = 0;
    while u < n
        invariant
            g == *graph,
            n == g.node_count(),
            u <= n,
            forall|a: int, k: int|
                0 <= a < u && 0 <= k < g.out_edges(a).len() ==> {
                    let c = (#[trigger] g.out_edges(a)[k]).1;
                    &&& 0 <= c.c1 && scale * c.c1 <= i64::MAX
                    &&& 0 <= c.c2 && scale * c.c2 <= i64::MAX
                },
        decreases n - u,
    {
        let nb = graph.neighbors(u);
        let mut j: usize = 0;
        while j < nb.len()
            invariant
                g == *graph,
                n == g.node_count(),
                u < n,
                j <= nb@.len(),
                nb@.len() == g.out_edges(u as int).len(),
                forall|kk: int|
                    0 <= kk < nb@.len() ==> #[trigger] nb@[kk] == (
                    g.out_edges(u as int)[kk].0 as usize,
                    g.out_edges(u as int)[kk].1,
                ),
                forall|a: int, k: int|
                    (0 <= a < u || (a == u && k < j)) && 0 <= k < g.out_edges(a).len() ==> {
                        let c = (#[trigger] g.out_edges(a)[k]).1;
                        &&& 0 <= c.c1 && scale * c.c1 <= i64::MAX
                        &&& 0 <= c.c2 && scale * c.c2 <= i64::MAX
                    },
            decreases nb@.len() - j,
        {
            let c = nb[j].1;
            proof {
                assert(c == g.out_edges(u as int)[j as int].1);
            }
            if c.c1 < 0 || c.c2 < 0 {
                return false;
            }
            let max = i64::MAX as u128;
            let sc = scale as u128;
            let a = c.c1 as u128;
            let b = c.c2 as u128;
            assert(sc * a <= u128::MAX && sc * b <= u128::MAX) by (nonlinear_arith)
                requires
                    sc <= u64::MAX,
                    a <= i64::MAX,
                    b <= i64::MAX,
            ;
            if sc * a > max || sc * b > max {
                return false;
            }
            j = j + 1;
        }
        u = u + 1;
    }
    true
}

/// Whether `graph` meets the per-edge cost limits of the searches and of
/// the view: the first flag is `costs_bounded` (which keeps every search
/// within `i64`), the second `costs_square_bounded`.
pub fn cost_limits(graph: &Graph) -> (r: (bool, bool))
    requires
        graph.node_count() < u32::MAX,
        targets_in_range(*graph),
    ensures
        r.0 == costs_bounded(*graph),
        r.0 ==> forall|s: int, d: int| #[trigger] walks_fit(*graph, s, d),
        r.1 == costs_square_bounded(*graph),
{
    let ghost g = *graph;
    let n = graph.num_nodes() as u64;
    assert(n * n <= u64::MAX) by (nonlinear_arith)
        requires
            n < u32::MAX,
    ;
    let paths = edge_costs_fit(graph, n);
    let pairs = edge_costs_fit(graph, n * n);
    proof {
        assert(paths == costs_bounded(g));
        let sq = (n * n) as int;
        assert(edges_scaled_ok(g, sq) ==> costs_square_bounded(g)) by {
            if edges_scaled_ok(g, sq) {
                assert forall|u: int, v: int, c: Cost| #[trigger] has_edge(g, u, v, c) implies 0 <= c.c1 && 0 <= c.c2
                    && g.node_count() * g.node_count() * c.c1 <= i64::MAX && g.node_count() * g.node_count() * c.c2
                    <= i64::MAX by {
                    let k = choose|k: int|
                        0 <= k < g.out_edges(u).len() && (#[trigger] g.out_edges(u)[k]).0 as int == v && g.out_edges(u)[k].1 == c;
                    assert(g.out_edges(u)[k].1 == c);
                }
            }
        }
        assert(costs_square_bounded(g) ==> edges_scaled_ok(g, sq)) by {
            if costs_square_bounded(g) {
                assert forall|u: int, k: int| 0 <= u < g.node_count() && 0 <= k < g.out_edges(u).len() implies {
                    let c = (#[trigger] g.out_edges(u)[k]).1;
                    &&& 0 <= c.c1 && sq * c.c1 <= i64::MAX
                    &&& 0 <= c.c2 && sq * c.c2 <= i64::MAX
                } by {
                    let e = g.out_edges(u)[k];
                    assert((e.0 as int) < g.node_count());
                    assert(has_edge(g, u, e.0 as int, e.1));
                }
            }
        }
    }
    proof {
        if paths {
            assert forall|s: int, d: int| #[trigger] walks_fit(g, s, d) by {
                lemma_bounded_walks_fit(g, s, d);
            }
        }
    }
    (paths, pairs)
}

/// Contiguous block partition: node `i` goes to fragment `(i * k) / n`.
/// Deterministic and easy to reproduce elsewhere.
pub fn contiguous_partition(n: usize, k: usize) -> (r: Vec<u32>)
    requires
        1 <= k,
        k <= n || k == 1,
        n == 0 || (n - 1) * k <= usize::MAX,
    ensures
        r@.len() == n,
        forall|i: int| 0 <= i < n ==> #[trigger] r@[i] == ((i * k) / (n as int)) as u32,
        forall|i: int| 0 <= i < n ==> (#[trigger] r@[i] as int) < k || k > u32::MAX,
        k <= u32::MAX ==> forall|i: int| 0 <= i < n ==> #[trigger] r@[i] as int == (i * k) / (n as int),
{
    let mut r: Vec<u32> = Vec::new();
    let mut i: usize = 0;
    while i < n
        invariant
            i <= n,
            r@.len() == i,
            1 <= k,
            k <= n || k == 1,
            n == 0 || (n - 1) * k <= usize::MAX,
            forall|j: int| 0 <= j < i ==> #[trigger] r@[j] == ((j * k) / (n as int)) as u32,
            forall|j: int| 0 <= j < i ==> (#[trigger] r@[j] as int) < k || k > u32::MAX,
            k <= u32::MAX ==> forall|j: int| 0 <= j < i ==> #[trigger] r@[j] as int == (j * k) / (n as int),
        decreases n - i,
    {
        proof {
            assert(i * k <= (n - 1) * k) by (nonlinear_arith)
                requires
                    i <= n - 1,
                    0 <= k,
            ;
            assert(i * k < n * k) by (nonlinear_arith)
                requires
                    i < n,
                    1 <= k,
            ;
            assert((i * k) / (n as int) < k) by (nonlinear_arith)
                requires
                    i * k < n * k,
                    n > 0,
                    0 <= i * k,
            ;
        }
        let v = (i * k) / n;
        r.push(v as u32);
        i = i + 1;
    }
    r
}

/// The number of fragments: one more than the largest fragment id (one
/// fragment when there are no nodes).
/// One more than the largest fragment id (1 for an empty partition), and
/// a node that carries the largest id.
fn fragment_count(part: &Vec<u32>) -> (r: (usize, usize))
    requires
        forall|i: int| 0 <= i < part@.len() ==> (#[trigger] part@[i] as int) < usize::MAX,
    ensures
        1 <= r.0,
        forall|i: int| 0 <= i < part@.len() ==> (#[trigger] part@[i] as int) < r.0,
        part@.len() == 0 ==> r.0 == 1,
        part@.len() > 0 ==> r.1 < part@.len() && part@[r.1 as int] as int == r.0 - 1,
{
    let mut mx: u32 = 0;
    let mut at: usize = 0;
    let mut i: usize = 0;
    while i < part.len()
        invariant
            i <= part@.len(),
            forall|j: int| 0 <= j < i ==> part@[j] <= mx,
            i == 0 ==> mx == 0,
            i > 0 ==> at < i && part@[at as int] == mx,
            forall|j: int| 0 <= j < part@.len() ==> (#[trigger] part@[j] as int) < usize::MAX,
        decreases part@.len() - i,
    {
        if i == 0 || part[i] > mx {
            mx = part[i];
            at = i;
        }
        i = i + 1;
    }
    proof {
        if part@.len() > 0 {
            assert((part@[at as int] as int) < usize::MAX);
        }
    }
    (mx as usize + 1, at)
}

/// The nodes of each fragment, in increasing order.
fn group_by_fragment(part: &Vec<u32>, k: usize) -> (r: Vec<Vec<u32>>)
    requires
        part@.len() < u32::MAX,
        forall|i: int| 0 <= i < part@.len() ==> (#[trigger] part@[i] as int) < k,
    ensures
        r@.len() == k,
        forall|f: int| 0 <= f < k ==> frag_nodes_ok(part@.len() as int, part@, f, #[trigger] r@[f]@),
{
    let n = part.len();
    let mut r: Vec<Vec<u32>> = Vec::new();
    let mut f: usize = 0;
    while f < k
        invariant
            f <= k,
            r@.len() == f,
            forall|h: int| 0 <= h < f ==> (#[trigger] r@[h])@.len() == 0,
        decreases k - f,
    {
        r.push(Vec::new());
        f = f + 1;
    }
    let mut x: usize = 0;
    while x < n
        invariant
            n == part@.len(),
            n < u32::MAX,
            x <= n,
            r@.len() == k,
            forall|i: int| 0 <= i < part@.len() ==> (#[trigger] part@[i] as int) < k,
            forall|h: int| 0 <= h < k ==> frag_nodes_ok(x as int, part@, h, #[trigger] r@[h]@),
        decreases n - x,
    {
        let h = part[x] as usize;
        let ghost r0 = r@;
        r[h].push(x as u32);
        proof {
            assert forall|h2: int| 0 <= h2 < k implies frag_nodes_ok(x + 1, part@, h2, #[trigger] r@[h2]@) by {
                assert(frag_nodes_ok(x as int, part@, h2, r0[h2]@));
                if h2 != h {
                    assert(r@[h2] == r0[h2]);
                    assert forall|y: int| 0 <= y < x + 1 && part@[y] as int == h2 implies r@[h2]@.contains(
                        #[trigger] (y as u32),
                    ) by {
                        if y < x {
                            assert(r0[h2]@.contains(y as u32));
                        }
                    }
                } else {
                    let s0 = r0[h2]@;
                    let s1 = r@[h2]@;
                    assert(s1 == s0.push(x as u32));
                    assert forall|i: int, j: int| 0 <= i < j < s1.len() implies s1[i] < s1[j] by {
                        if j < s0.len() {
                            assert(s1[i] == s0[i] && s1[j] == s0[j]);
                        } else {
                            assert(s1[i] == s0[i]);
                            assert((s0[i] as int) < x);
                        }
                    }
                    assert forall|y: int| 0 <= y < x + 1 && part@[y] as int == h2 implies s1.contains(
                        #[trigger] (y as u32),
                    ) by {
                        if y < x {
                            assert(s0.contains(y as u32));
                            let i = choose|i: int| 0 <= i < s0.len() && s0[i] == y as u32;
                            assert(s1[i] == y as u32);
                        } else {
                            assert(s1[s0.len() as int] == x as u32);
                        }
                    }
                    assert forall|l: int| 0 <= l < s1.len() implies (#[trigger] s1[l] as int) < x + 1 && part@[s1[l] as int]
                        as int == h2 by {
                        if l < s0.len() {
                            assert(s1[l] == s0[l]);
                        }
                    }
                }
            }
        }
        x = x + 1;
    }
    r
}

/// `x` is an end of one of the edges between fragments among the first `j`
/// out-edges of node `a0` and all out-edges of the nodes before it.
spec fn touched(g: Graph, part: Seq<u32>, x: int, a0: int, j0: int) -> bool {
    exists|a: int, j: int|
        0 <= a < g.node_count() && 0 <= j < g.out_edges(a).len() && (a < a0 || (a == a0 && j < j0))
            && part[a] != part[(#[trigger] g.out_edges(a)[j]).0 as int] && (x == a || x == g.out_edges(a)[j].0 as int)
}

/// `flags[x]` is set exactly when `x` is an end of an edge between fragments.
fn boundary_flags(graph: &Graph, part: &Vec<u32>) -> (flags: Vec<bool>)
    requires
        partition_ok(*graph, part@),
        targets_in_range(*graph),
    ensures
        flags@.len() == graph.node_count(),
        forall|x: int| 0 <= x < graph.node_count() ==> #[trigger] flags@[x] == crate::fragments::is_boundary(*graph, part@, x),
{
    let ghost g = *graph;
    let n = graph.num_nodes();
    let mut flags: Vec<bool> = vec![false; n];
    let mut u: usize = 0;
    while u < n
        invariant
            n == g.node_count(),
            g == *graph,
            u <= n,
            flags@.len() == n,
            partition_ok(g, part@),
            targets_in_range(g),
            forall|x: int| 0 <= x < n ==> #[trigger] flags@[x] == touched(g, part@, x, u as int, 0),
        decreases n - u,
    {
        let nb = graph.neighbors(u);
        let mut j: usize = 0;
        while j < nb.len()
            invariant
                n == g.node_count(),
                g == *graph,
                u < n,
                j <= nb@.len(),
                flags@.len() == n,
                partition_ok(g, part@),
                targets_in_range(g),
                nb@.len() == g.out_edges(u as int).len(),
                forall|k: int|
                    0 <= k < nb@.len() ==> #[trigger] nb@[k] == (
                    g.out_edges(u as int)[k].0 as usize,
                    g.out_edges(u as int)[k].1,
                ),
                forall|x: int| 0 <= x < n ==> #[trigger] flags@[x] == touched(g, part@, x, u as int, j as int),
            decreases nb@.len() - j,
        {
            let v = nb[j].0;
            let ghost e = g.out_edges(u as int)[j as int];
            proof {
                assert((e.0 as int) < n);
            }
            let cross = part[u] != part[v];
            if cross {
                flags.set(u, true);
                flags.set(v, true);
            }
            proof {
                assert forall|x: int| 0 <= x < n implies #[trigger] flags@[x] == touched(g, part@, x, u as int, j + 1) by {
                    if touched(g, part@, x, u as int, j + 1) {
                        let (a, jj) = choose|a: int, jj: int|
                            0 <= a < g.node_count() && 0 <= jj < g.out_edges(a).len() && (a < u || (a == u && jj < j + 1))
                                && part@[a] != part@[(#[trigger] g.out_edges(a)[jj]).0 as int] && (x == a || x == g.out_edges(a)[jj].0 as int);
                        if !(a == u && jj == j) {
                            assert(touched(g, part@, x, u as int, j as int));
                        }
                    }
                    if cross && (x == u || x == v) {
                        assert(part@[u as int] != part@[(g.out_edges(u as int)[j as int]).0 as int]);
                    }
                }
            }
            j = j + 1;
        }
        proof {
            assert forall|x: int| 0 <= x < n implies #[trigger] flags@[x] == touched(g, part@, x, u + 1, 0) by {
                if touched(g, part@, x, u + 1, 0) {
                    let (a, jj) = choose|a: int, jj: int|
                        0 <= a < g.node_count() && 0 <= jj < g.out_edges(a).len() && (a < u + 1 || (a == u + 1 && jj < 0))
                            && part@[a] != part@[(#[trigger] g.out_edges(a)[jj]).0 as int] && (x == a || x == g.out_edges(a)[jj].0 as int);
                    assert(touched(g, part@, x, u as int, nb@.len() as int));
                }
                if touched(g, part@, x, u as int, nb@.len() as int) {
                    let (a, jj) = choose|a: int, jj: int|
                        0 <= a < g.node_count() && 0 <= jj < g.out_edges(a).len() && (a < u || (a == u && jj < nb@.len()))
                            && part@[a] != part@[(#[trigger] g.out_edges(a)[jj]).0 as int] && (x == a || x == g.out_edges(a)[jj].0 as int);
                    assert(touched(g, part@, x, u + 1, 0));
                }
            }
        }
        u = u + 1;
    }
    proof {
        assert forall|x: int| 0 <= x < n implies #[trigger] flags@[x] == crate::fragments::is_boundary(g, part@, x) by {
            if touched(g, part@, x, n as int, 0) {
                let (a, jj) = choose|a: int, jj: int|
                    0 <= a < g.node_count() && 0 <= jj < g.out_edges(a).len() && (a < n || (a == n && jj < 0))
                        && part@[a] != part@[(#[trigger] g.out_edges(a)[jj]).0 as int] && (x == a || x == g.out_edges(a)[jj].0 as int);
                let e = g.out_edges(a)[jj];
                assert((e.0 as int) < n);
                assert(has_edge(g, a, e.0 as int, e.1));
            }
            if crate::fragments::is_boundary(g, part@, x) {
                let (a, b, c) = choose|a: int, b: int, c: Cost| #[trigger] has_edge(g, a, b, c) && part@[a] != part@[b] && (a == x || b == x);
                let jj = choose|jj: int| 0 <= jj < g.out_edges(a).len() && (#[trigger] g.out_edges(a)[jj]).0 as int == b && g.out_edges(a)[jj].1 == c;
                assert(touched(g, part@, x, n as int, 0));
            }
        }
    }
    flags
}

/// The flagged nodes in increasing order, and each node's index among them
/// (`u32::MAX` for the others).
fn flagged_index(flags: &Vec<bool>) -> (r: (Vec<u32>, Vec<u32>))
    requires
        flags@.len() < u32::MAX,
    ensures
        forall|i: int, j: int| 0 <= i < j < r.0@.len() ==> r.0@[i] < r.0@[j],
        forall|i: int| 0 <= i < r.0@.len() ==> (#[trigger] r.0@[i] as int) < flags@.len() && flags@[r.0@[i] as int],
        forall|x: int| 0 <= x < flags@.len() && #[trigger] flags@[x] ==> r.0@.contains(x as u32),
        r.0@.len() <= flags@.len(),
        r.1@.len() == flags@.len(),
        forall|i: int| 0 <= i < r.0@.len() ==> r.1@[#[trigger] r.0@[i] as int] as int == i,
        forall|x: int| 0 <= x < flags@.len() && !flags@[x] ==> #[trigger] r.1@[x] == u32::MAX,
{
    let n = flags.len();
    let mut bl: Vec<u32> = Vec::new();
    let mut bidx: Vec<u32> = vec![u32::MAX; n];
    let mut x: usize = 0;
    while x < n
        invariant
            n == flags@.len(),
            n < u32::MAX,
            x <= n,
            bl@.len() <= x,
            bidx@.len() == n,
            forall|i: int, j: int| 0 <= i < j < bl@.len() ==> bl@[i] < bl@[j],
            forall|i: int| 0 <= i < bl@.len() ==> (#[trigger] bl@[i] as int) < x && flags@[bl@[i] as int],
            forall|y: int| 0 <= y < x && #[trigger] flags@[y] ==> bl@.contains(y as u32),
            forall|i: int| 0 <= i < bl@.len() ==> bidx@[#[trigger] bl@[i] as int] as int == i,
            forall|y: int| 0 <= y < n && !flags@[y] ==> #[trigger] bidx@[y] == u32::MAX,
        decreases n - x,
    {
        if flags[x] {
            let ghost b0 = bl@;
            bidx.set(x, bl.len() as u32);
            bl.push(x as u32);
            proof {
                assert forall|y: int| 0 <= y < x + 1 && #[trigger] flags@[y] implies bl@.contains(y as u32) by {
                    if y < x {
                        assert(b0.contains(y as u32));
                        let i = choose|i: int| 0 <= i < b0.len() && b0[i] == y as u32;
                        assert(bl@[i] == y as u32);
                    } else {
                        assert(bl@[b0.len() as int] == x as u32);
                    }
                }
                assert forall|i: int| 0 <= i < bl@.len() implies bidx@[#[trigger] bl@[i] as int] as int == i by {
                    if i < b0.len() {
                        assert(bl@[i] == b0[i]);
                        assert((b0[i] as int) < x);
                    }
                }
            }
        }
        x = x + 1;
    }
    (bl, bidx)
}

/// The boundary nodes of each fragment, in increasing order.
fn group_boundary(bl: &Vec<u32>, part: &Vec<u32>, k: usize) -> (r: Vec<Vec<u32>>)
    requires
        forall|i: int, j: int| 0 <= i < j < bl@.len() ==> bl@[i] < bl@[j],
        forall|i: int| 0 <= i < bl@.len() ==> (#[trigger] bl@[i] as int) < part@.len(),
        forall|i: int| 0 <= i < part@.len() ==> (#[trigger] part@[i] as int) < k,
    ensures
        r@.len() == k,
        forall|f: int| 0 <= f < k ==> frag_boundary_ok(part@, ints(bl@), f, #[trigger] r@[f]@),
        forall|f: int, j: int|
            0 <= f < k && 0 <= j < r@[f]@.len() ==> (#[trigger] r@[f]@[j] as int) < part@.len(),
{
    let ghost bli = ints(bl@);
    let mut r: Vec<Vec<u32>> = Vec::new();
    let mut f: usize = 0;
    while f < k
        invariant
            f <= k,
            r@.len() == f,
            forall|h: int| 0 <= h < f ==> (#[trigger] r@[h])@.len() == 0,
        decreases k - f,
    {
        r.push(Vec::new());
        f = f + 1;
    }
    // pos[h][j]: the index in `bl` of entry `j` of row `h`
    let ghost mut pos: Seq<Seq<int>> = Seq::new(k as nat, |h: int| Seq::<int>::empty());
    let mut i: usize = 0;
    while i < bl.len()
        invariant
            i <= bl@.len(),
            r@.len() == k,
            pos.len() == k,
            forall|a: int, b: int| 0 <= a < b < bl@.len() ==> bl@[a] < bl@[b],
            forall|a: int| 0 <= a < bl@.len() ==> (#[trigger] bl@[a] as int) < part@.len(),
            forall|a: int| 0 <= a < part@.len() ==> (#[trigger] part@[a] as int) < k,
            forall|h: int| 0 <= h < k ==> (#[trigger] pos[h]).len() == r@[h]@.len(),
            forall|h: int, j: int|
                0 <= h < k && 0 <= j < pos[h].len() ==> 0 <= #[trigger] pos[h][j] < i && r@[h]@[j] == bl@[pos[h][j]]
                    && part@[bl@[pos[h][j]] as int] as int == h,
            forall|h: int, a: int, b: int| 0 <= h < k && 0 <= a < b < pos[h].len() ==> #[trigger] pos[h][a] < #[trigger] pos[h][b],
            forall|a: int| 0 <= a < i ==> (#[trigger] pos[part@[bl@[a] as int] as int]).contains(a),
        decreases bl@.len() - i,
    {
        let x = bl[i];
        let h = part[x as usize] as usize;
        let ghost p0 = pos;
        r[h].push(x);
        proof {
            pos = pos.update(h as int, pos[h as int].push(i as int));
            assert forall|h2: int, j: int|
                0 <= h2 < k && 0 <= j < pos[h2].len() implies 0 <= #[trigger] pos[h2][j] < i + 1 && r@[h2]@[j] == bl@[pos[h2][j]]
                    && part@[bl@[pos[h2][j]] as int] as int == h2 by {
                if h2 != h || j < p0[h2].len() {
                    assert(pos[h2][j] == p0[h2][j]);
                }
            }
            assert forall|h2: int, a: int, b: int| 0 <= h2 < k && 0 <= a < b < pos[h2].len() implies #[trigger] pos[h2][a] < #[trigger] pos[h2][b] by {
                if h2 != h || b < p0[h2].len() {
                    assert(pos[h2][a] == p0[h2][a] && pos[h2][b] == p0[h2][b]);
                } else {
                    assert(pos[h2][a] == p0[h2][a]);
                }
            }
            assert forall|a: int| 0 <= a < i + 1 implies (#[trigger] pos[part@[bl@[a] as int] as int]).contains(a) by {
                let h2 = part@[bl@[a] as int] as int;
                if a < i {
                    assert(p0[h2].contains(a));
                    let j = choose|j: int| 0 <= j < p0[h2].len() && p0[h2][j] == a;
                    assert(pos[h2][j] == a);
                } else {
                    assert(pos[h2][p0[h2].len() as int] == a);
                }
            }
        }
        i = i + 1;
    }
    proof {
        assert forall|h: int| 0 <= h < k implies frag_boundary_ok(part@, bli, h, #[trigger] r@[h]@) by {
            let fbs = r@[h]@;
            assert forall|a: int, b: int| 0 <= a < b < fbs.len() implies fbs[a] < fbs[b] by {
                assert(pos[h][a] < pos[h][b]);
            }
            assert forall|j: int| 0 <= j < fbs.len() implies bli.contains(#[trigger] fbs[j] as int) && part@[fbs[j] as int] as int == h by {
                assert(bli[pos[h][j]] == fbs[j] as int);
            }
            assert forall|a: int| 0 <= a < bli.len() && part@[#[trigger] bli[a]] as int == h implies exists|j: int|
                0 <= j < fbs.len() && fbs[j] as int == bli[a] by {
                assert(bli[a] == bl@[a] as int);
                assert(pos[part@[bl@[a] as int] as int].contains(a));
                let j = choose|j: int| 0 <= j < pos[h].len() && pos[h][j] == a;
            }
        }
        assert forall|h: int, j: int| 0 <= h < k && 0 <= j < r@[h]@.len() implies (#[trigger] r@[h]@[j] as int) < part@.len() by {
            assert(r@[h]@[j] == bl@[pos[h][j]]);
        }
    }
    r
}

/// A frontier of the in-fragment walk costs from `b` to `y` is the one
/// `frag_front` names.
proof fn lemma_table_is_front(g: Graph, part: Seq<u32>, b: int, y: int, table: Seq<Cost>)
    requires
        is_frontier_of(table, rel_costs(frag_rel(g, part, part[b] as int), b, y)),
    ensures
        frag_front(g, part, b, y) == table,
{
    let m = rel_costs(frag_rel(g, part, part[b] as int), b, y);
    assert(is_frontier_of(frontier(m), m));
    crate::pareto::lemma_frontier_unique(frontier(m), table, m);
}

/// A multi-edge `s -> t` between two distinct boundary nodes of one fragment
/// carries cost `c` of the fragment frontier between them.
pub open spec fn local_edge(g: Graph, part: Seq<u32>, bl: Seq<int>, s: int, t: int, c: Cost) -> bool {
    0 <= s < bl.len() && 0 <= t < bl.len() && s != t && part[bl[s]] == part[bl[t]] && frag_front(g, part, bl[s], bl[t]).contains(c)
}

/// A multi-edge `s -> t` is an edge of the graph between two fragments.
pub open spec fn cross_edge(g: Graph, part: Seq<u32>, bl: Seq<int>, s: int, t: int, c: Cost) -> bool {
    0 <= s < bl.len() && 0 <= t < bl.len() && has_edge(g, bl[s], bl[t], c) && part[bl[s]] != part[bl[t]]
}

/// The inputs `boundary_multigraph` reads agree with the graph.
spec fn multigraph_inputs_ok(
    g: Graph,
    part: Seq<u32>,
    bl: Seq<u32>,
    bidx: Seq<u32>,
    frag_boundary: Seq<Vec<u32>>,
    frag_g2l: Seq<Vec<u32>>,
    b2node: Seq<Vec<Vec<Vec<Cost>>>>,
    frag_nodes: Seq<Seq<int>>,
) -> bool {
    &&& partition_ok(g, part)
    &&& targets_in_range(g)
    &&& g.node_count() < u32::MAX
    &&& is_boundary_list(g, part, ints(bl))
    &&& bl.len() <= g.node_count()
    &&& bidx.len() == g.node_count()
    &&& forall|i: int| 0 <= i < bl.len() ==> bidx[#[trigger] bl[i] as int] as int == i
    &&& frag_g2l.len() == frag_boundary.len()
    &&& b2node.len() == frag_boundary.len()
    &&& frag_nodes.len() == frag_boundary.len()
    &&& forall|u: int| 0 <= u < g.node_count() ==> (#[trigger] part[u] as int) < frag_boundary.len()
    &&& forall|f: int| 0 <= f < frag_boundary.len() ==> local_ids_ok(g, part, f, #[trigger] frag_nodes[f], frag_g2l[f]@)
    &&& forall|f: int| 0 <= f < frag_boundary.len() ==> frag_boundary_ok(part, ints(bl), f, #[trigger] frag_boundary[f]@)
    &&& forall|f: int| 0 <= f < frag_boundary.len() ==> (#[trigger] b2node[f])@.len() == frag_boundary[f]@.len()
    &&& forall|f: int, j: int|
        0 <= f < frag_boundary.len() && 0 <= j < frag_boundary[f]@.len() ==> (#[trigger] b2node[f]@[j])@.len()
            == frag_nodes[f].len()
    &&& forall|f: int, j: int, l: int|
        0 <= f < frag_boundary.len() && 0 <= j < frag_boundary[f]@.len() && 0 <= l < frag_nodes[f].len()
            ==> is_frontier_of(
            (#[trigger] b2node[f]@[j]@[l])@,
            rel_costs(frag_rel(g, part, f), frag_boundary[f]@[j] as int, frag_nodes[f][l]),
        )
}

/// Boundary node number `jj` of fragment `ff` is on the boundary list, at
/// the index `bidx` gives it.
proof fn lemma_src_index(
    g: Graph,
    part: Seq<u32>,
    bl: Seq<u32>,
    bidx: Seq<u32>,
    frag_boundary: Seq<Vec<u32>>,
    ff: int,
    jj: int,
)
    requires
        is_boundary_list(g, part, ints(bl)),
        bidx.len() == g.node_count(),
        forall|i: int| 0 <= i < bl.len() ==> bidx[#[trigger] bl[i] as int] as int == i,
        0 <= ff < frag_boundary.len(),
        frag_boundary_ok(part, ints(bl), ff, frag_boundary[ff]@),
        0 <= jj < frag_boundary[ff]@.len(),
    ensures
        0 <= bidx[frag_boundary[ff]@[jj] as int] < bl.len(),
        bl[bidx[frag_boundary[ff]@[jj] as int] as int] == frag_boundary[ff]@[jj],
        part[frag_boundary[ff]@[jj] as int] as int == ff,
{
    let bli = ints(bl);
    let x = frag_boundary[ff]@[jj] as int;
    assert(bli.contains(x));
    let i = choose|i: int| 0 <= i < bli.len() && bli[i] == x;
    assert(bl[i] as int == x);
    assert(bidx[bl[i] as int] as int == i);
}

/// Entry `(ff, jj1, jj2)` of the local tables, between two distinct boundary
/// nodes, carries cost `c`.
spec fn table_entry(
    frag_boundary: Seq<Vec<u32>>,
    frag_g2l: Seq<Vec<u32>>,
    b2node: Seq<Vec<Vec<Vec<Cost>>>>,
    ff: int,
    jj1: int,
    jj2: int,
    c: Cost,
) -> bool {
    0 <= ff < frag_boundary.len() && 0 <= jj1 < frag_boundary[ff]@.len() && 0 <= jj2 < frag_boundary[ff]@.len()
        && frag_boundary[ff]@[jj1] != frag_boundary[ff]@[jj2]
        && b2node[ff]@[jj1]@[frag_g2l[ff]@[frag_boundary[ff]@[jj2] as int] as int]@.contains(c)
}

/// The index among the boundary nodes of boundary node `jj` of fragment `ff`.
spec fn src_index(bidx: Seq<u32>, frag_boundary: Seq<Vec<u32>>, ff: int, jj: int) -> int {
    bidx[frag_boundary[ff]@[jj] as int] as int
}

/// The local multi-edges of the boundary multigraph: for each fragment and
/// each ordered pair of its distinct boundary nodes, the fragment frontier
/// between them (when not empty).
#[verifier::rlimit(80)]
fn local_multi_edges(
    graph: &Graph,
    part: &Vec<u32>,
    bl: &Vec<u32>,
    bidx: &Vec<u32>,
    frag_boundary: &Vec<Vec<u32>>,
    frag_g2l: &Vec<Vec<u32>>,
    b2node: &Vec<Vec<Vec<Vec<Cost>>>>,
    Ghost(frag_nodes): Ghost<Seq<Seq<int>>>,
) -> (adj: BoundaryGraph)
    requires
        multigraph_inputs_ok(*graph, part@, bl@, bidx@, frag_boundary@, frag_g2l@, b2node@, frag_nodes),
    ensures
        adj@.len() == bl@.len(),
        forall|s: int, t: int, c: Cost| #[trigger] multi_has(adj@, s, t, c) <==> local_edge(*graph, part@, ints(bl@), s, t, c),
{
    let ghost g = *graph;
    let ghost bli = ints(bl@);
    let ghost nb = bl@.len() as int;
    let k = frag_boundary.len();
    let mut adj = BoundaryGraph::new(bl.len());
    let mut f: usize = 0;
    while f < k
        invariant
            multigraph_inputs_ok(g, part@, bl@, bidx@, frag_boundary@, frag_g2l@, b2node@, frag_nodes),
            g == *graph,
            bli == ints(bl@),
            nb == bl@.len(),
            k == frag_boundary@.len(),
            f <= k,
            adj@.len() == nb,
            forall|s: int, t: int, c: Cost| #[trigger] multi_has(adj@, s, t, c) ==> local_edge(g, part@, bli, s, t, c),
            forall|ff: int, jj1: int, jj2: int, c: Cost|
                ff < f && #[trigger] table_entry(frag_boundary@, frag_g2l@, b2node@, ff, jj1, jj2, c) ==> multi_has(adj@, src_index(bidx@, frag_boundary@, ff, jj1), src_index(bidx@, frag_boundary@, ff, jj2), c),
        decreases k - f,
    {
        let fbs = &frag_boundary[f];
        proof {
            assert(local_ids_ok(g, part@, f as int, frag_nodes[f as int], frag_g2l@[f as int]@));
            assert(frag_boundary_ok(part@, bli, f as int, fbs@));
            assert(b2node@[f as int]@.len() == fbs@.len());
        }
        let mut j1: usize = 0;
        while j1 < fbs.len()
            invariant
                multigraph_inputs_ok(g, part@, bl@, bidx@, frag_boundary@, frag_g2l@, b2node@, frag_nodes),
                g == *graph,
                bli == ints(bl@),
                nb == bl@.len(),
                k == frag_boundary@.len(),
                f < k,
                fbs == frag_boundary@[f as int],
                j1 <= fbs@.len(),
                adj@.len() == nb,
                forall|s: int, t: int, c: Cost| #[trigger] multi_has(adj@, s, t, c) ==> local_edge(g, part@, bli, s, t, c),
                forall|ff: int, jj1: int, jj2: int, c: Cost|
                    (ff < f || (ff == f && jj1 < j1)) && #[trigger] table_entry(frag_boundary@, frag_g2l@, b2node@, ff, jj1, jj2, c) ==> multi_has(
                        adj@,
                        src_index(bidx@, frag_boundary@, ff, jj1),
                        src_index(bidx@, frag_boundary@, ff, jj2),
                        c,
                    ),
            decreases fbs@.len() - j1,
        {
            let b1 = fbs[j1];
            proof {
                lemma_src_index(g, part@, bl@, bidx@, frag_boundary@, f as int, j1 as int);
                assert(b2node@[f as int]@.len() == fbs@.len());
                assert(b2node@[f as int]@[j1 as int]@.len() == frag_nodes[f as int].len());
            }
            let from = bidx[b1 as usize] as usize;
            let table = &b2node[f][j1];
            let mut j2: usize = 0;
            while j2 < fbs.len()
                invariant
                    multigraph_inputs_ok(g, part@, bl@, bidx@, frag_boundary@, frag_g2l@, b2node@, frag_nodes),
                    g == *graph,
                    bli == ints(bl@),
                    nb == bl@.len(),
                    k == frag_boundary@.len(),
                    f < k,
                    fbs == frag_boundary@[f as int],
                    j1 < fbs@.len(),
                    b1 == fbs@[j1 as int],
                    from == src_index(bidx@, frag_boundary@, f as int, j1 as int),
                    0 <= from < nb,
                    bl@[from as int] == b1,
                    part@[b1 as int] as int == f,
                    table == b2node@[f as int]@[j1 as int],
                    table@.len() == frag_nodes[f as int].len(),
                    j2 <= fbs@.len(),
                    adj@.len() == nb,
                    forall|s: int, t: int, c: Cost| #[trigger] multi_has(adj@, s, t, c) ==> local_edge(g, part@, bli, s, t, c),
                    forall|ff: int, jj1: int, jj2: int, c: Cost|
                        (ff < f || (ff == f && jj1 < j1) || (ff == f && jj1 == j1 && jj2 < j2)) && #[trigger] table_entry(frag_boundary@, frag_g2l@, b2node@, ff, jj1, jj2, c)
                            ==> multi_has(adj@, src_index(bidx@, frag_boundary@, ff, jj1), src_index(bidx@, frag_boundary@, ff, jj2), c),
                decreases fbs@.len() - j2,
            {
                let b2 = fbs[j2];
                if b1 != b2 {
                    proof {
                        lemma_src_index(g, part@, bl@, bidx@, frag_boundary@, f as int, j2 as int);
                        assert(local_ids_ok(g, part@, f as int, frag_nodes[f as int], frag_g2l@[f as int]@));
                    }
                    let b2l = frag_g2l[f][b2 as usize] as usize;
                    proof {
                        assert(frag_nodes[f as int][b2l as int] == b2 as int);
                    }
                    let costs = &table[b2l];
                    if costs.len() > 0 {
                        let to = bidx[b2 as usize] as usize;
                        let ghost a0 = adj@;
                        let ghost cs = costs@;
                        proof {
                            assert(is_frontier_of(cs, rel_costs(frag_rel(g, part@, f as int), b1 as int, frag_nodes[f as int][b2l as int])));
                            lemma_table_is_front(g, part@, b1 as int, b2 as int, cs);
                        }
                        adj.push_edge(from, to, copy_vec(costs));
                        proof {
                            assert forall|s: int, t: int, c: Cost| #[trigger] multi_has(adj@, s, t, c) implies local_edge(g, part@, bli, s, t, c) by {
                                lemma_multi_has_push(a0, from as int, to, cs, s, t, c);
                                if !multi_has(a0, s, t, c) {
                                    assert(bli[s] == b1 as int && bli[t] == b2 as int);
                                }
                            }
                            assert forall|ff: int, jj1: int, jj2: int, c: Cost|
                                (ff < f || (ff == f && jj1 < j1) || (ff == f && jj1 == j1 && jj2 < j2 + 1)) && #[trigger] table_entry(frag_boundary@, frag_g2l@, b2node@, ff, jj1, jj2, c)
                                    implies multi_has(adj@, src_index(bidx@, frag_boundary@, ff, jj1), src_index(bidx@, frag_boundary@, ff, jj2), c) by {
                                lemma_multi_has_push(a0, from as int, to, cs, src_index(bidx@, frag_boundary@, ff, jj1), src_index(bidx@, frag_boundary@, ff, jj2), c);
                            }
                        }
                    } else {
                        proof {
                            assert forall|ff: int, jj1: int, jj2: int, c: Cost|
                                (ff < f || (ff == f && jj1 < j1) || (ff == f && jj1 == j1 && jj2 < j2 + 1)) && #[trigger] table_entry(frag_boundary@, frag_g2l@, b2node@, ff, jj1, jj2, c)
                                    implies multi_has(adj@, src_index(bidx@, frag_boundary@, ff, jj1), src_index(bidx@, frag_boundary@, ff, jj2), c) by {
                                if ff == f && jj1 == j1 && jj2 == j2 {
                                    assert(!costs@.contains(c));
                                }
                            }
                        }
                    }
                }
                j2 = j2 + 1;
            }
            j1 = j1 + 1;
        }
        f = f + 1;
    }
    proof {
        assert forall|s: int, t: int, c: Cost| #[trigger] local_edge(g, part@, bli, s, t, c) implies multi_has(adj@, s, t, c) by {
            let ff = part@[bli[s]] as int;
            assert(bli[s] == bl@[s] as int);
            assert(0 <= bli[s] < g.node_count());
            assert(frag_boundary_ok(part@, bli, ff, frag_boundary@[ff]@));
            let jj1 = choose|j: int| 0 <= j < frag_boundary@[ff]@.len() && frag_boundary@[ff]@[j] as int == bli[s];
            let jj2 = choose|j: int| 0 <= j < frag_boundary@[ff]@.len() && frag_boundary@[ff]@[j] as int == bli[t];
            assert(bidx@[bl@[s] as int] as int == s);
            assert(bidx@[bl@[t] as int] as int == t);
            assert(src_index(bidx@, frag_boundary@, ff, jj1) == s);
            assert(src_index(bidx@, frag_boundary@, ff, jj2) == t);
            assert(local_ids_ok(g, part@, ff, frag_nodes[ff], frag_g2l@[ff]@));
            let y = bli[t];
            let ly = frag_g2l@[ff]@[y] as int;
            assert(frag_nodes[ff][ly] == y);
            lemma_table_is_front(g, part@, bli[s], y, b2node@[ff]@[jj1]@[ly]@);
            if bli[s] == bli[t] {
                assert(bl@[s] == bl@[t]);
                if s < t {
                    assert(bl@[s] < bl@[t]);
                } else {
                    assert(bl@[t] < bl@[s]);
                }
            }
            assert(table_entry(frag_boundary@, frag_g2l@, b2node@, ff, jj1, jj2, c));
        }
    }
    adj
}

/// Append one single-cost multi-edge per edge of the graph between two
/// fragments.
#[verifier::rlimit(80)]
fn add_cross_edges(adj: &mut BoundaryGraph, graph: &Graph, part: &Vec<u32>, bl: &Vec<u32>, bidx: &Vec<u32>)
    requires
        partition_ok(*graph, part@),
        targets_in_range(*graph),
        is_boundary_list(*graph, part@, ints(bl@)),
        bidx@.len() == graph.node_count(),
        forall|i: int| 0 <= i < bl@.len() ==> bidx@[#[trigger] bl@[i] as int] as int == i,
        old(adj)@.len() == bl@.len(),
    ensures
        final(adj)@.len() == bl@.len(),
        forall|s: int, t: int, c: Cost| #[trigger] multi_has(final(adj)@, s, t, c) <==> multi_has(old(adj)@, s, t, c)
            || cross_edge(*graph, part@, ints(bl@), s, t, c),
{
    let ghost g = *graph;
    let ghost n = g.node_count() as int;
    let ghost bli = ints(bl@);
    let ghost nb = bl@.len() as int;
    let ghost a_start = adj@;
    let n_exec = graph.num_nodes();
    let mut u: usize = 0;
    while u < n_exec
        invariant
            partition_ok(g, part@),
            targets_in_range(g),
            is_boundary_list(g, part@, bli),
            bidx@.len() == n,
            forall|i: int| 0 <= i < bl@.len() ==> bidx@[#[trigger] bl@[i] as int] as int == i,
            g == *graph,
            n == g.node_count(),
            n_exec == n,
            bli == ints(bl@),
            nb == bl@.len(),
            u <= n,
            adj@.len() == nb,
            forall|s: int, t: int, c: Cost| #[trigger] multi_has(adj@, s, t, c) ==> multi_has(a_start, s, t, c) || cross_edge(g, part@, bli, s, t, c),
            forall|s: int, t: int, c: Cost| #[trigger] multi_has(a_start, s, t, c) ==> multi_has(adj@, s, t, c),
            forall|a: int, jj: int|
                0 <= a < u && 0 <= jj < g.out_edges(a).len() && part@[a] != part@[(#[trigger] g.out_edges(a)[jj]).0 as int]
                    ==> multi_has(adj@, bidx@[a] as int, bidx@[g.out_edges(a)[jj].0 as int] as int, g.out_edges(a)[jj].1),
        decreases n - u,
    {
        let nbrs = graph.neighbors(u);
        let mut j: usize = 0;
        while j < nbrs.len()
            invariant
                partition_ok(g, part@),
                targets_in_range(g),
                is_boundary_list(g, part@, bli),
                bidx@.len() == n,
                forall|i: int| 0 <= i < bl@.len() ==> bidx@[#[trigger] bl@[i] as int] as int == i,
                g == *graph,
                n == g.node_count(),
                bli == ints(bl@),
                nb == bl@.len(),
                j <= nbrs@.len(),
                u < n,
                adj@.len() == nb,
                nbrs@.len() == g.out_edges(u as int).len(),
                forall|kk: int|
                    0 <= kk < nbrs@.len() ==> #[trigger] nbrs@[kk] == (
                    g.out_edges(u as int)[kk].0 as usize,
                    g.out_edges(u as int)[kk].1,
                ),
                forall|s: int, t: int, c: Cost| #[trigger] multi_has(adj@, s, t, c) ==> multi_has(a_start, s, t, c) || cross_edge(g, part@, bli, s, t, c),
                forall|s: int, t: int, c: Cost| #[trigger] multi_has(a_start, s, t, c) ==> multi_has(adj@, s, t, c),
                forall|a: int, jj: int|
                    (0 <= a < u || (a == u && jj < j)) && 0 <= jj < g.out_edges(a).len() && part@[a] != part@[(
                    #[trigger] g.out_edges(a)[jj]).0 as int] ==> multi_has(
                        adj@,
                        bidx@[a] as int,
                        bidx@[g.out_edges(a)[jj].0 as int] as int,
                        g.out_edges(a)[jj].1,
                    ),
            decreases nbrs@.len() - j,
        {
            let (v, c) = nbrs[j];
            let ghost e = g.out_edges(u as int)[j as int];
            proof {
                assert((e.0 as int) < n);
            }
            if part[u] != part[v] {
                proof {
                    assert(has_edge(g, u as int, v as int, c));
                    assert(crate::fragments::is_boundary(g, part@, u as int));
                    assert(crate::fragments::is_boundary(g, part@, v as int));
                    assert(bli.contains(u as int));
                    assert(bli.contains(v as int));
                    let iu = choose|i: int| 0 <= i < bli.len() && bli[i] == u as int;
                    let iv = choose|i: int| 0 <= i < bli.len() && bli[i] == v as int;
                    assert(bl@[iu] as int == u as int);
                    assert(bl@[iv] as int == v as int);
                    assert(bidx@[bl@[iu] as int] as int == iu);
                    assert(bidx@[bl@[iv] as int] as int == iv);
                }
                let from = bidx[u] as usize;
                let to = bidx[v] as usize;
                let ghost a0 = adj@;
                let single = vec![c];
                let ghost cs = single@;
                adj.push_edge(from, to, single);
                proof {
                    assert(cs.contains(c)) by {
                        assert(cs[0] == c);
                    }
                    assert forall|s: int, t: int, x: Cost| #[trigger] multi_has(adj@, s, t, x) implies multi_has(a_start, s, t, x) || cross_edge(g, part@, bli, s, t, x) by {
                        lemma_multi_has_push(a0, from as int, to, cs, s, t, x);
                        if !multi_has(a0, s, t, x) {
                            assert(cs.len() == 1);
                            let i = choose|i: int| 0 <= i < cs.len() && cs[i] == x;
                            assert(x == c);
                            assert(bli[s] == u as int && bli[t] == v as int);
                        }
                    }
                    assert forall|s: int, t: int, x: Cost| #[trigger] multi_has(a_start, s, t, x) implies multi_has(adj@, s, t, x) by {
                        lemma_multi_has_push(a0, from as int, to, cs, s, t, x);
                    }
                    assert forall|a: int, jj: int|
                        (0 <= a < u || (a == u && jj < j + 1)) && 0 <= jj < g.out_edges(a).len() && part@[a] != part@[(
                        #[trigger] g.out_edges(a)[jj]).0 as int] implies multi_has(
                            adj@,
                            bidx@[a] as int,
                            bidx@[g.out_edges(a)[jj].0 as int] as int,
                            g.out_edges(a)[jj].1,
                        ) by {
                        lemma_multi_has_push(a0, from as int, to, cs, bidx@[a] as int, bidx@[g.out_edges(a)[jj].0 as int] as int, g.out_edges(a)[jj].1);
                    }
                }
            }
            j = j + 1;
        }
        u = u + 1;
    }
    proof {
        assert forall|s: int, t: int, c: Cost| #[trigger] cross_edge(g, part@, bli, s, t, c) implies multi_has(adj@, s, t, c) by {
            let x = bli[s];
            assert(has_edge(g, x, bli[t], c));
            let jj = choose|jj: int| 0 <= jj < g.out_edges(x).len() && (#[trigger] g.out_edges(x)[jj]).0 as int == bli[t] && g.out_edges(x)[jj].1 == c;
            assert(bli[s] == bl@[s] as int && bli[t] == bl@[t] as int);
            assert(bidx@[bl@[s] as int] as int == s);
            assert(bidx@[bl@[t] as int] as int == t);
            assert(0 <= x < n);
        }
    }
}

/// Reorganise per-fragment results into one vector per component.
fn unzip_fragments<A, B, C, D>(v: Vec<(A, B, C, D)>) -> (r: (Vec<A>, Vec<B>, Vec<C>, Vec<D>))
    ensures
        r.0@.len() == v@.len(),
        r.1@.len() == v@.len(),
        r.2@.len() == v@.len(),
        r.3@.len() == v@.len(),
        forall|i: int|
            0 <= i < v@.len() ==> #[trigger] r.0@[i] == v@[i].0 && r.1@[i] == v@[i].1 && r.2@[i] == v@[i].2
                && r.3@[i] == v@[i].3,
{
    let ghost orig = v@;
    let mut v = v;
    let mut rev: Vec<(A, B, C, D)> = Vec::new();
    while v.len() > 0
        invariant
            v@.len() + rev@.len() == orig.len(),
            forall|i: int| 0 <= i < v@.len() ==> #[trigger] v@[i] == orig[i],
            forall|i: int| 0 <= i < rev@.len() ==> #[trigger] rev@[i] == orig[orig.len() - 1 - i],
        decreases v@.len(),
    {
        let x = v.pop().unwrap();
        rev.push(x);
    }
    let mut a: Vec<A> = Vec::new();
    let mut b: Vec<B> = Vec::new();
    let mut c: Vec<C> = Vec::new();
    let mut d: Vec<D> = Vec::new();
    while rev.len() > 0
        invariant
            rev@.len() + a@.len() == orig.len(),
            a@.len() == b@.len(),
            a@.len() == c@.len(),
            a@.len() == d@.len(),
            forall|i: int| 0 <= i < rev@.len() ==> #[trigger] rev@[i] == orig[orig.len() - 1 - i],
            forall|i: int|
                0 <= i < a@.len() ==> #[trigger] a@[i] == orig[i].0 && b@[i] == orig[i].1 && c@[i] == orig[i].2
                    && d@[i] == orig[i].3,
        decreases rev@.len(),
    {
        let (x0, x1, x2, x3) = rev.pop().unwrap();
        a.push(x0);
        b.push(x1);
        c.push(x2);
        d.push(x3);
    }
    (a, b, c, d)
}

/// With `n^2 * c <= (n - 1) * i64::MAX`, any `m <= n` has `m * c <= i64::MAX`.
proof fn lemma_cap_to_linear(n: int, m: int, c: int)
    requires
        1 <= n,
        0 <= m <= n,
        0 <= c,
        n * n * c <= (n - 1) * i64::MAX,
    ensures
        m * c <= i64::MAX,
{
    let mx = i64::MAX as int;
    assert(m * c <= n * c) by (nonlinear_arith)
        requires
            0 <= m <= n,
            0 <= c,
    ;
    assert(n * (n * c) <= (n - 1) * mx) by (nonlinear_arith)
        requires
            n * n * c <= (n - 1) * mx,
    ;
    assert(n * c <= mx) by (nonlinear_arith)
        requires
            n * (n * c) <= (n - 1) * mx,
            1 <= n,
            0 < mx,
    ;
}

/// A walk from a node to itself costs `(0, 0)` at best: the frontier is
/// that single pair.
proof fn lemma_same_node_costs(g: Graph, part: Seq<u32>, o: int)
    requires
        partition_ok(g, part),
        targets_in_range(g),
        0 <= o < g.node_count(),
    ensures
        is_frontier_of(seq![Cost { c1: 0, c2: 0 }], walk_costs(g, o, o)),
{
    let r = seq![Cost { c1: 0, c2: 0 }];
    let e = edge_rel(g);
    let m = rel_costs(e, o, o);
    crate::relations::lemma_rel_costs_refl(e, o);
    assert(m(pair_of(r[0])));
    assert forall|p: (int, int)| #[trigger] m(p) implies exists|i: int| 0 <= i < r.len() && #[trigger] le_pair(r[i], p) by {
        let (ns, cs) = choose|ns: Seq<int>, cs: Seq<Cost>|
            #[trigger] rel_walk(e, ns, cs) && ns[0] == o && ns.last() == o && cost_sum(cs) == p;
        assert forall|u: int, v: int, c: Cost| #[trigger] e(u, v, c) implies 0 <= c.c1 && 0 <= c.c2 && 0 * c.c1 <= 0
            && 0 * c.c2 <= 0 by {}
        crate::relations::lemma_rel_walk_scaled(e, ns, cs, 0, 0);
        assert(le_pair(r[0], p));
    }
    assert forall|p: (int, int)| #[trigger] walk_costs(g, o, o)(p) <==> m(p) by {
        lemma_walk_costs_rel(g, o, o, p);
    }
    lemma_frontier_same_members(r, m, walk_costs(g, o, o));
}

impl Mepfv {
    /// Build the MEPFV for `graph` under fragment assignment `part`: group the
    /// nodes by fragment, find the boundary nodes (ends of edges between
    /// fragments), compute each fragment's induced subgraph and fragment
    /// views (in parallel across fragments), assemble the boundary multigraph,
    /// and compute the boundary view from every boundary node (in parallel).
    #[verifier::rlimit(100)]
    #[verifier::spinoff_prover]
    pub fn build(graph: &Graph, part: Vec<u32>) -> (m: Mepfv)
        requires
            part@.len() == graph.node_count(),
            graph.node_count() < u32::MAX,
            targets_in_range(*graph),
            costs_square_bounded(*graph),
            forall|i: int| 0 <= i < part@.len() ==> (#[trigger] part@[i] as int) < usize::MAX,
        ensures
            m.source_graph() == *graph,
            m.partition() == part@,
            m.shape_ok(),
            part@.len() > 0 ==> exists|u: int| 0 <= u < part@.len() && part@[u] as int == m.fragment_count() - 1,
    {
        let ghost g = *graph;
        let n = graph.num_nodes();
        proof {
            assert forall|u: int, v: int, c: Cost| #[trigger] edge_rel(g)(u, v, c) implies 0 <= c.c1 && 0 <= c.c2 by {
                assert(has_edge(g, u, v, c));
            }
            assert(partition_ok(g, part@));
        }
        let (k, top) = fragment_count(&part);
        let frag_nodes = group_by_fragment(&part, k);
        let flags = boundary_flags(graph, &part);
        let (boundary, bidx) = flagged_index(&flags);
        let ghost bl = ints(boundary@);
        proof {
            assert forall|i: int| 0 <= i < bl.len() implies 0 <= #[trigger] bl[i] < g.node_count() && crate::fragments::is_boundary(g, part@, bl[i]) by {
                assert(bl[i] == boundary@[i] as int);
                assert(flags@[boundary@[i] as int]);
            }
            assert forall|x: int| 0 <= x < g.node_count() && #[trigger] crate::fragments::is_boundary(g, part@, x) implies bl.contains(x) by {
                assert(flags@[x]);
                assert(boundary@.contains(x as u32));
                let i = choose|i: int| 0 <= i < boundary@.len() && boundary@[i] == x as u32;
                assert(bl[i] == x);
            }
            assert(is_boundary_list(g, part@, bl));
        }
        let frag_boundary = group_boundary(&boundary, &part, k);
        // Fragments are independent: their views are computed in parallel.
        let gv: Ghost<Graph> = Ghost(g);
        let pv: Ghost<Seq<u32>> = Ghost(part@);
        let fnv: Ghost<Seq<Vec<u32>>> = Ghost(frag_nodes@);
        let fbv: Ghost<Seq<Vec<u32>>> = Ghost(frag_boundary@);
        let tables = |f: usize| -> (r: (Vec<u32>, Graph, Vec<Vec<Vec<Cost>>>, Vec<Vec<Vec<Cost>>>))
            requires
                f < k,
                gv@ == deref(graph),
                pv@ == part@,
                fnv@ == frag_nodes@,
                fbv@ == frag_boundary@,
                targets_in_range(gv@),
                costs_square_bounded(gv@),
                partition_ok(gv@, pv@),
                gv@.node_count() < u32::MAX,
                fnv@.len() == k,
                fbv@.len() == k,
                frag_nodes_ok(gv@.node_count() as int, pv@, f as int, fnv@[f as int]@),
                forall|j: int|
                    0 <= j < fbv@[f as int]@.len() ==> (#[trigger] fbv@[f as int]@[j] as int) < gv@.node_count()
                        && pv@[fbv@[f as int]@[j] as int] as int == f,
            ensures
                frag_ok(gv@, pv@, f as int, ints(fnv@[f as int]@), r.0@, r.1),
                r.2@.len() == fbv@[f as int]@.len(),
                r.3@.len() == fbv@[f as int]@.len(),
                forall|j: int|
                    0 <= j < fbv@[f as int]@.len() ==> (#[trigger] r.2@[j])@.len() == fnv@[f as int]@.len()
                        && r.3@[j]@.len() == fnv@[f as int]@.len(),
                forall|j: int, l: int|
                    0 <= j < fbv@[f as int]@.len() && 0 <= l < fnv@[f as int]@.len() ==> {
                        &&& is_frontier_of(
                            (#[trigger] r.2@[j]@[l])@,
                            rel_costs(frag_rel(gv@, pv@, f as int), fbv@[f as int]@[j] as int, fnv@[f as int]@[l] as int),
                        )
                        &&& scaled_ok(gv@.node_count() as int, r.2@[j]@[l]@, (gv@.node_count() - 1) * i64::MAX)
                    },
                forall|j: int, l: int|
                    0 <= j < fbv@[f as int]@.len() && 0 <= l < fnv@[f as int]@.len() ==> {
                        &&& is_frontier_of(
                            (#[trigger] r.3@[j]@[l])@,
                            rel_costs(frag_rel(gv@, pv@, f as int), fnv@[f as int]@[l] as int, fbv@[f as int]@[j] as int),
                        )
                        &&& scaled_ok(gv@.node_count() as int, r.3@[j]@[l]@, (gv@.node_count() - 1) * i64::MAX)
                    },
        {
            fragment_tables(graph, &part, f, &frag_nodes[f], &frag_boundary[f])
        };
        proof {
            assert forall|f: usize| f < k implies #[trigger] tables.requires((f,)) by {
                assert(frag_nodes_ok(g.node_count() as int, part@, f as int, frag_nodes@[f as int]@));
                assert(frag_boundary_ok(part@, bl, f as int, frag_boundary@[f as int]@));
                assert forall|j: int| 0 <= j < frag_boundary@[f as int]@.len() implies (#[trigger] frag_boundary@[f as int]@[j] as int) < g.node_count()
                    && part@[frag_boundary@[f as int]@[j] as int] as int == f by {
                    assert(bl.contains(frag_boundary@[f as int]@[j] as int));
                }
            }
        }
        let frag_results = par_map_indices(k, tables);
        let (frag_g2l, frag_graph, b2node, node2b) = unzip_fragments(frag_results);
        let ghost fnodes = Seq::new(k as nat, |f: int| ints(frag_nodes@[f]@));
        let ghost nn = n as int;
        let ghost cap = (nn - 1) * i64::MAX;
        proof {
            assert forall|f: int| 0 <= f < k implies {
                &&& frag_ok(g, part@, f, #[trigger] fnodes[f], frag_g2l@[f]@, frag_graph@[f])
                &&& b2node@[f]@.len() == frag_boundary@[f]@.len()
                &&& node2b@[f]@.len() == frag_boundary@[f]@.len()
                &&& fnodes[f].len() == frag_nodes@[f]@.len()
                &&& forall|j: int|
                    0 <= j < frag_boundary@[f]@.len() ==> (#[trigger] b2node@[f]@[j])@.len() == fnodes[f].len()
                        && node2b@[f]@[j]@.len() == fnodes[f].len()
                &&& forall|j: int, l: int|
                    0 <= j < frag_boundary@[f]@.len() && 0 <= l < fnodes[f].len() ==> {
                        &&& is_frontier_of(
                            (#[trigger] b2node@[f]@[j]@[l])@,
                            rel_costs(frag_rel(g, part@, f), frag_boundary@[f]@[j] as int, fnodes[f][l]),
                        )
                        &&& scaled_ok(nn, b2node@[f]@[j]@[l]@, cap)
                    }
                &&& forall|j: int, l: int|
                    0 <= j < frag_boundary@[f]@.len() && 0 <= l < fnodes[f].len() ==> {
                        &&& is_frontier_of(
                            (#[trigger] node2b@[f]@[j]@[l])@,
                            rel_costs(frag_rel(g, part@, f), fnodes[f][l], frag_boundary@[f]@[j] as int),
                        )
                        &&& scaled_ok(nn, node2b@[f]@[j]@[l]@, cap)
                    }
            } by {
                assert(tables.ensures((f as usize,), frag_results@[f]));
                assert(frag_g2l@[f] == frag_results@[f].0);
                assert(frag_graph@[f] == frag_results@[f].1);
                assert(b2node@[f] == frag_results@[f].2);
                assert(node2b@[f] == frag_results@[f].3);
                assert forall|l: int| 0 <= l < fnodes[f].len() implies #[trigger] fnodes[f][l] == frag_nodes@[f]@[l] as int by {}
            }
        }
        proof {
            let ins_ok = multigraph_inputs_ok(g, part@, boundary@, bidx@, frag_boundary@, frag_g2l@, b2node@, fnodes);
            assert(forall|f: int| 0 <= f < frag_boundary@.len() ==> local_ids_ok(g, part@, f, #[trigger] fnodes[f], frag_g2l@[f]@));
            assert(forall|f: int| 0 <= f < frag_boundary@.len() ==> frag_boundary_ok(part@, ints(boundary@), f, #[trigger] frag_boundary@[f]@));
            assert forall|f: int| 0 <= f < frag_boundary@.len() implies (#[trigger] b2node@[f])@.len() == frag_boundary@[f]@.len()
                && node2b@[f]@.len() == frag_boundary@[f]@.len() by {
                assert(fnodes[f] == fnodes[f]);
            }
            assert forall|f: int, j: int|
                0 <= f < frag_boundary@.len() && 0 <= j < frag_boundary@[f]@.len() implies (#[trigger] b2node@[f]@[j])@.len()
                    == fnodes[f].len() && node2b@[f]@[j]@.len() == fnodes[f].len() by {
                assert(fnodes[f] == fnodes[f]);
            }
            assert forall|f: int, j: int, l: int|
                0 <= f < frag_boundary@.len() && 0 <= j < frag_boundary@[f]@.len() && 0 <= l < fnodes[f].len()
                    implies is_frontier_of(
                    (#[trigger] b2node@[f]@[j]@[l])@,
                    rel_costs(frag_rel(g, part@, f), frag_boundary@[f]@[j] as int, fnodes[f][l]),
                ) && scaled_ok(nn, b2node@[f]@[j]@[l]@, cap) by {
                assert(fnodes[f] == fnodes[f]);
            }
            assert forall|f: int, j: int, l: int|
                0 <= f < frag_boundary@.len() && 0 <= j < frag_boundary@[f]@.len() && 0 <= l < fnodes[f].len()
                    implies is_frontier_of(
                    (#[trigger] node2b@[f]@[j]@[l])@,
                    rel_costs(frag_rel(g, part@, f), fnodes[f][l], frag_boundary@[f]@[j] as int),
                ) && scaled_ok(nn, node2b@[f]@[j]@[l]@, cap) by {
                assert(fnodes[f] == fnodes[f]);
            }
            assert(ins_ok);
        }
        let mut adj = local_multi_edges(graph, &part, &boundary, &bidx, &frag_boundary, &frag_g2l, &b2node, Ghost(fnodes));
        add_cross_edges(&mut adj, graph, &part, &boundary, &bidx);
        let nb = boundary.len();
        let ghost br = boundary_rel(g, part@, bl);
        proof {
            use_type_invariant(&adj);
            lemma_multi_targets(adj);
            assert forall|s: int, t: int, c: Cost| #[trigger] has_edge(adj, s, t, c) <==> br(s, t, c) by {
                lemma_multi_has_edge(adj, s, t, c);
            }
            // the fragment frontiers between boundary nodes are the tables
            assert forall|i: int, j: int|
                0 <= i < bl.len() && 0 <= j < bl.len() && part@[bl[i]] == part@[bl[j]] implies is_frontier_of(
                    #[trigger] frag_front(g, part@, bl[i], bl[j]),
                    rel_costs(frag_rel(g, part@, part@[bl[i]] as int), bl[i], bl[j]),
                ) && scaled_ok(nn, frag_front(g, part@, bl[i], bl[j]), cap) by {
                let f = part@[bl[i]] as int;
                assert(0 <= bl[i] < nn);
                assert(frag_boundary_ok(part@, bl, f, frag_boundary@[f]@));
                let j1 = choose|jj: int| 0 <= jj < frag_boundary@[f]@.len() && frag_boundary@[f]@[jj] as int == bl[i];
                assert(frag_ok(g, part@, f, fnodes[f], frag_g2l@[f]@, frag_graph@[f]));
                let y = bl[j];
                assert(0 <= y < nn);
                let ly = frag_g2l@[f]@[y] as int;
                assert(fnodes[f][ly] == y);
                lemma_table_is_front(g, part@, bl[i], y, b2node@[f]@[j1]@[ly]@);
            }
            assert(frag_frontiers(g, part@, bl));
            // multigraph edge costs are bounded
            assert forall|s: int, t: int, c: Cost| #[trigger] br(s, t, c) implies 0 <= c.c1 && 0 <= c.c2 && nn * nn * c.c1
                <= cap && nn * nn * c.c2 <= cap by {
                if s != t && part@[bl[s]] == part@[bl[t]] && frag_front(g, part@, bl[s], bl[t]).contains(c) {
                    let r = frag_front(g, part@, bl[s], bl[t]);
                    assert(scaled_ok(nn, r, cap));
                    let x = choose|x: int| 0 <= x < r.len() && r[x] == c;
                } else {
                    assert(has_edge(g, bl[s], bl[t], c));
                    assert(bl[s] != bl[t]);
                    assert(0 <= bl[s] < nn && 0 <= bl[t] < nn);
                    assert(nn >= 2);
                    assert(i64::MAX <= cap) by (nonlinear_arith)
                        requires
                            nn >= 2,
                            cap == (nn - 1) * i64::MAX,
                    ;
                }
            }
            assert forall|u: int, kk: int| 0 <= u < adj.node_count() && 0 <= kk < adj.out_edges(u).len() implies {
                let c = (#[trigger] adj.out_edges(u)[kk]).1;
                &&& 0 <= c.c1 && adj.node_count() * c.c1 <= i64::MAX
                &&& 0 <= c.c2 && adj.node_count() * c.c2 <= i64::MAX
            } by {
                let e = adj.out_edges(u)[kk];
                assert(has_edge(adj, u, e.0 as int, e.1));
                assert(br(u, e.0 as int, e.1));
                lemma_cap_to_linear(nn, nb as int, e.1.c1 as int);
                lemma_cap_to_linear(nn, nb as int, e.1.c2 as int);
            }
            assert(costs_bounded(adj));
        }
        let adj_ref = &adj;
        let av: Ghost<BoundaryGraph> = Ghost(adj);
        let sources = |s: usize| -> (r: Vec<Vec<Cost>>)
            requires
                s < nb,
                av@ == deref(adj_ref),
                nb == av@@.len(),
                costs_bounded(av@),
            ensures
                r@.len() == av@@.len(),
                forall|u: int| 0 <= u < av@@.len() ==> is_frontier_of(#[trigger] r@[u]@, walk_costs(av@, s as int, u)),
        {
            proof {
                use_type_invariant(adj_ref);
                crate::boundary::lemma_multi_targets(av@);
                lemma_bounded_walks_fit(av@, s as int, nb as int);
            }
            multigraph_pareto_from(adj_ref, s)
        };
        proof {
            assert forall|s: usize| s < nb implies #[trigger] sources.requires((s,)) by {}
        }
        let bppv = par_map_indices(nb, sources);
        proof {
            assert forall|s: int, t: int| 0 <= s < nb && 0 <= t < nb implies {
                &&& bppv@[s]@.len() == nb
                &&& is_frontier_of(#[trigger] bppv@[s]@[t]@, rel_costs(br, s, t))
                &&& scaled_ok(nn, bppv@[s]@[t]@, (nb - 1) * cap)
            } by {
                assert(sources.ensures((s as usize,), bppv@[s]));
                let r = bppv@[s]@[t]@;
                assert(is_frontier_of(r, walk_costs(adj, s, t)));
                let ea = edge_rel(adj);
                assert forall|u: int, v: int, c: Cost| #[trigger] ea(u, v, c) implies br(u, v, c) by {
                    assert(has_edge(adj, u, v, c));
                }
                assert forall|u: int, v: int, c: Cost| #[trigger] br(u, v, c) implies ea(u, v, c) by {
                    assert(has_edge(adj, u, v, c));
                }
                assert forall|p: (int, int)| #[trigger] walk_costs(adj, s, t)(p) <==> rel_costs(br, s, t)(p) by {
                    lemma_walk_costs_rel(adj, s, t, p);
                    if rel_costs(ea, s, t)(p) {
                        lemma_rel_costs_mono(ea, br, s, t, p);
                    }
                    if rel_costs(br, s, t)(p) {
                        lemma_rel_costs_mono(br, ea, s, t, p);
                    }
                }
                lemma_frontier_same_members(r, walk_costs(adj, s, t), rel_costs(br, s, t));
                assert(nn >= 1);
                assert(cap >= 0) by (nonlinear_arith)
                    requires
                        nn >= 1,
                        cap == (nn - 1) * i64::MAX,
                ;
                assert forall|u: int, v: int, c: Cost| #[trigger] br(u, v, c) implies 0 <= u < nb && 0 <= v < nb by {}
                lemma_frontier_scaled(br, s, t, r, nb as int, nn * nn, cap);
            }
        }
        proof {
            assert forall|s: int| 0 <= s < nb implies (#[trigger] bppv@[s])@.len() == nb by {
                assert(sources.ensures((s as usize,), bppv@[s]));
            }
            assert forall|x: int| 0 <= x < nn && !bl.contains(x) implies #[trigger] bidx@[x] == u32::MAX by {
                if flags@[x] {
                    assert(crate::fragments::is_boundary(g, part@, x));
                }
            }
            assert(frag_graph@.len() == k);
            assert(bl.len() <= nn);
        }
        let m = Mepfv {
            n,
            part,
            frag_g2l,
            frag_graph,
            frag_boundary,
            b2node,
            node2b,
            bidx,
            bppv,
            graph: Ghost(g),
            bnodes: Ghost(bl),
            frag_nodes: Ghost(fnodes),
        };
        proof {
            use_type_invariant(&m);
            m.lemma_shape();
            if n > 0 {
                assert(m.part@[top as int] as int == m.frag_graph@.len() - 1);
            }
        }
        m
    }

    /// Online retrieval (advanced): the same exact frontier as `query`, with
    /// two-dimensional cost-interval pruning. For each candidate pair of
    /// boundary nodes the ideal lower-left corner `(min c1, min c2)` of its
    /// routes is the best any of them can do; when a member of the frontier
    /// found so far is no worse than that corner, the pair's Minkowski
    /// combination is skipped. Pairs are taken corner-first (ordered by
    /// `(c1min, c2min)`, ties in candidate order). Also returns the pruning
    /// statistics: a pair is skipped exactly when a cost known before it (of
    /// a walk inside the common fragment, or of a route through an earlier
    /// pair) is no worse than its corner.
    #[verifier::loop_isolation(false)]
    #[verifier::spinoff_prover]
    #[verifier::rlimit(80)]
    pub fn query_adv(&self, o: usize, d: usize) -> (r: (Vec<Cost>, AdvStats))
        requires
            o < self.source_graph().node_count(),
            d < self.source_graph().node_count(),
        ensures
            is_frontier_of(r.0@, walk_costs(self.source_graph(), o as int, d as int)),
            r.1.pairs_pruned + r.1.combinations == r.1.pairs_total,
            o == d ==> r.1.pairs_total == 0,
            o != d ==> exists|keys: Seq<(int, int)>|
                live_pairs(self.source_graph(), self.partition(), self.boundary(), o as int, d as int, keys)
                    && keys.len() == r.1.pairs_total,
            o != d ==> exists|ord: Seq<(int, int)>|
                {
                    &&& adv_order(self.source_graph(), self.partition(), self.boundary(), o as int, d as int, ord)
                    &&& ord.len() == r.1.pairs_total
                    &&& r.1.pairs_pruned == adv_pruned_count(
                        self.source_graph(),
                        self.partition(),
                        self.boundary(),
                        o as int,
                        d as int,
                        ord,
                        ord.len() as int,
                    )
                },
    {
        proof {
            use_type_invariant(self);
        }
        let ghost g = self.graph@;
        let ghost part = self.part@;
        let ghost bl = self.bnodes@;
        let ghost n = self.n as int;
        let ghost e = edge_rel(g);
        let ghost w = rel_costs(e, o as int, d as int);
        let mut stats = AdvStats { pairs_total: 0, pairs_pruned: 0, combinations: 0 };
        if o == d {
            let r = vec![Cost::new(0, 0)];
            proof {
                lemma_same_node_costs(g, part, o as int);
                assert(r@ =~= seq![Cost { c1: 0, c2: 0 }]);
            }
            return (r, stats);
        }
        let fo = self.part[o] as usize;
        let fd = self.part[d] as usize;
        let ghost nodes_o = self.frag_nodes@[fo as int];
        let ghost nodes_d = self.frag_nodes@[fd as int];
        proof {
            assert(frag_ok(g, part, fo as int, nodes_o, self.frag_g2l@[fo as int]@, self.frag_graph@[fo as int]));
            assert(frag_ok(g, part, fd as int, nodes_d, self.frag_g2l@[fd as int]@, self.frag_graph@[fd as int]));
        }
        let ol = self.frag_g2l[fo][o] as usize;
        let dl = self.frag_g2l[fd][d] as usize;
        proof {
            assert(nodes_o[ol as int] == o);
            assert(nodes_d[dl as int] == d);
        }
        let ghost mf = rel_costs(frag_rel(g, part, fo as int), o as int, d as int);
        // Seed the frontier with the paths inside the fragment.
        let mut front: Vec<Cost> = Vec::new();
        if fo == fd {
            proof {
                let gf = self.frag_graph@[fo as int];
                lemma_bounded_walks_fit(gf, ol as int, gf.node_count() as int);
            }
            let direct = pareto_from(&self.frag_graph[fo], ol);
            let found = copy_vec(&direct[dl]);
            proof {
                let gf = self.frag_graph@[fo as int];
                assert forall|p: (int, int)| #[trigger] walk_costs(gf, ol as int, dl as int)(p) <==> mf(p) by {
                    lemma_frag_walk_costs(g, part, fo as int, nodes_o, self.frag_g2l@[fo as int]@, gf, ol as int, dl as int, p);
                }
                lemma_frontier_same_members(found@, walk_costs(gf, ol as int, dl as int), mf);
            }
            insert_all(&mut front, &found);
            proof {
                lemma_covers_trans(front@, found@, mf);
                crate::relations::lemma_frontier_scaled(frag_rel(g, part, fo as int), o as int, d as int, found@, n, n * n, i64::MAX as int);
                assert forall|u: int, v: int, c: Cost| #[trigger] frag_rel(g, part, fo as int)(u, v, c) implies e(u, v, c) by {}
                assert forall|i: int| 0 <= i < front@.len() implies #[trigger] w(pair_of(front@[i])) && front@[i].c2 < i64::MAX
                    && mf(pair_of(front@[i])) by {
                    assert(front@.contains(front@[i]));
                    let k = choose|k: int| 0 <= k < found@.len() && found@[k] == front@[i];
                    assert(mf(pair_of(found@[k])));
                    lemma_rel_costs_mono(frag_rel(g, part, fo as int), e, o as int, d as int, pair_of(found@[k]));
                    lemma_scaled_below_max(n, found@[k].c2 as int);
                }
            }
        }
        // Candidate pairs, ideal corner first.
        let pairs = self.live_pair_list(o, d);
        proof {
            self.lemma_keys_live(o as int, d as int, pairs@);
        }
        stats.pairs_total = pairs.len();
        let ghost pairs_s = pairs@;
        let sorted = sort_pairs(pairs);
        let ghost ord = self.keys_of(o as int, d as int, sorted@);
        proof {
            self.lemma_sorted_order(o as int, d as int, pairs_s, sorted@);
            assert forall|i: int| 0 <= i < front@.len() implies #[trigger] adv_seen(g, part, bl, o as int, d as int, ord, 0)(
                pair_of(front@[i]),
            ) by {
                assert(fo == fd);
                assert(w(pair_of(front@[i])));
                assert(mf(pair_of(front@[i])));
            }
        }
        let mut t: usize = 0;
        while t < sorted.len()
            invariant
                t <= sorted@.len(),
                forall|i: int| 0 <= i < front@.len() ==> #[trigger] w(pair_of(front@[i])) && front@[i].c2 < i64::MAX,
                fo == fd ==> covers(front@, mf),
                forall|x: int|
                    0 <= x < t ==> covers(front@, #[trigger] self.route_costs(o as int, d as int, sorted@[x].j1 as int, sorted@[x].j2 as int)),
                stats.pairs_pruned + stats.combinations == t,
                stats.pairs_total == sorted@.len(),
                ord == self.keys_of(o as int, d as int, sorted@),
                forall|i: int| 0 <= i < sorted@.len() ==> #[trigger] self.entry_ok(o as int, d as int, sorted@[i]),
                forall|i: int|
                    0 <= i < front@.len() ==> #[trigger] adv_seen(g, part, bl, o as int, d as int, ord, t as int)(pair_of(front@[i])),
                stats.pairs_pruned == adv_pruned_count(g, part, bl, o as int, d as int, ord, t as int),
            decreases sorted@.len() - t,
        {
            let p = sorted[t];
            let ghost route = self.route_costs(o as int, d as int, p.j1 as int, p.j2 as int);
            proof {
                assert(sorted@.contains(p));
                assert(pairs@.contains(p));
                let k = choose|k: int| 0 <= k < pairs@.len() && pairs@[k] == p;
                assert(self.entry_ok(o as int, d as int, pairs@[k]));
                self.lemma_fb_index(fo as int, p.j1 as int);
                self.lemma_fb_index(fd as int, p.j2 as int);
                assert(self.b2node@[fo as int]@.len() == self.frag_boundary@[fo as int]@.len());
                assert(self.b2node@[fo as int]@[p.j1 as int]@.len() == nodes_o.len());
                assert(self.b2node@[fd as int]@.len() == self.frag_boundary@[fd as int]@.len());
                assert(self.b2node@[fd as int]@[p.j2 as int]@.len() == nodes_d.len());
            }
            let ghost ma = rel_costs(frag_rel(g, part, fo as int), o as int, self.fb(fo as int, p.j1 as int));
            let ghost mb = rel_costs(boundary_rel(g, part, bl), p.si as int, p.ti as int);
            let ghost mc = rel_costs(frag_rel(g, part, fd as int), self.fb(fd as int, p.j2 as int), d as int);
            let ghost a_s = self.n2(fo as int, p.j1 as int, ol as int);
            let ghost b_s = self.bp(p.si as int, p.ti as int);
            let ghost c_s = self.b2(fd as int, p.j2 as int, dl as int);
            proof {
                assert(is_frontier_of(a_s, ma));
                assert(is_frontier_of(b_s, mb));
                assert(is_frontier_of(c_s, mc));
                assert(route == sum3(ma, mb, mc));
            }
            let ghost f0 = front@;
            proof {
                self.lemma_prune_test(o as int, d as int, front@, sorted@, t as int);
                assert forall|i: int| 0 <= i < front@.len() implies #[trigger] adv_seen(g, part, bl, o as int, d as int, ord, t + 1)(
                    pair_of(front@[i]),
                ) by {
                    assert(adv_seen(g, part, bl, o as int, d as int, ord, t as int)(pair_of(front@[i])));
                }
            }
            if any_below(&front, p.c1min, p.c2min) {
                stats.pairs_pruned = stats.pairs_pruned + 1;
                proof {
                    let i = choose|i: int| 0 <= i < front@.len() && (#[trigger] front@[i]).c1 <= p.c1min && front@[i].c2 <= p.c2min;
                    assert forall|q: (int, int)| #[trigger] route(q) implies exists|j: int| 0 <= j < front@.len() && #[trigger] le_pair(front@[j], q) by {
                        let (pa, pb, pc) = choose|pa: (int, int), pb: (int, int), pc: (int, int)|
                            #[trigger] ma(pa) && #[trigger] mb(pb) && #[trigger] mc(pc) && q == (pa.0 + pb.0 + pc.0, pa.1 + pb.1 + pc.1);
                        lemma_frontier_corner(a_s, ma, pa);
                        lemma_frontier_corner(b_s, mb, pb);
                        lemma_frontier_corner(c_s, mc, pc);
                        assert(le_pair(front@[i], q));
                    }
                }
            } else {
                let a = &self.node2b[fo][p.j1][ol];
                let b = &self.bppv[p.si][p.ti];
                let c = &self.b2node[fd][p.j2][dl];
                let abc = combine3(a, b, c, Ghost(ma), Ghost(mb), Ghost(mc), Ghost(n), Ghost(bl.len() as int));
                stats.combinations = stats.combinations + 1;
                insert_all(&mut front, &abc);
                proof {
                    lemma_covers_trans(front@, abc@, route);
                    self.lemma_entry_public(o as int, d as int, p);
                    assert forall|i: int| 0 <= i < front@.len() implies #[trigger] adv_seen(g, part, bl, o as int, d as int, ord, t + 1)(
                        pair_of(front@[i]),
                    ) by {
                        assert(front@.contains(front@[i]));
                        if f0.contains(front@[i]) {
                            let k = choose|k: int| 0 <= k < f0.len() && f0[k] == front@[i];
                            assert(adv_seen(g, part, bl, o as int, d as int, ord, t + 1)(pair_of(f0[k])));
                        } else {
                            let x = choose|x: int| 0 <= x < abc@.len() && abc@[x] == front@[i];
                            assert(sum3(ma, mb, mc)(pair_of(abc@[x])));
                            assert(route(pair_of(abc@[x])));
                            assert(route_costs_via(g, part, bl, o as int, d as int, ord[t as int].0, ord[t as int].1)(pair_of(abc@[x])));
                        }
                    }
                    assert forall|i: int| 0 <= i < front@.len() implies #[trigger] w(pair_of(front@[i])) && front@[i].c2 < i64::MAX by {
                        assert(front@.contains(front@[i]));
                        if f0.contains(front@[i]) {
                            let k = choose|k: int| 0 <= k < f0.len() && f0[k] == front@[i];
                            assert(w(pair_of(f0[k])));
                        } else {
                            let x = choose|x: int| 0 <= x < abc@.len() && abc@[x] == front@[i];
                            assert(sum3(ma, mb, mc)(pair_of(abc@[x])));
                            let (pa, pb, pc) = choose|pa: (int, int), pb: (int, int), pc: (int, int)|
                                #[trigger] ma(pa) && #[trigger] mb(pb) && #[trigger] mc(pc) && pair_of(abc@[x]) == (pa.0 + pb.0 + pc.0, pa.1 + pb.1 + pc.1);
                            lemma_route_sound(g, part, bl, o as int, d as int, p.si as int, p.ti as int, pa, pb, pc);
                        }
                    }
                    assert forall|x: int|
                        0 <= x < t implies covers(front@, #[trigger] self.route_costs(o as int, d as int, sorted@[x].j1 as int, sorted@[x].j2 as int)) by {
                        lemma_covers_grow(f0, front@, self.route_costs(o as int, d as int, sorted@[x].j1 as int, sorted@[x].j2 as int));
                    }
                    if fo == fd {
                        lemma_covers_grow(f0, front@, mf);
                    }
                }
            }
            t = t + 1;
        }
        let r = pareto_filter(front);
        proof {
            let m1 = members_of(front@);
            assert forall|q: (int, int)| #[trigger] m1(q) implies w(q) by {
                let i = choose|i: int| 0 <= i < front@.len() && #[trigger] pair_of(front@[i]) == q;
                assert(w(pair_of(front@[i])));
            }
            assert forall|q: (int, int)| #[trigger] w(q) implies exists|q2: (int, int)| #[trigger] m1(q2) && q2.0 <= q.0 && q2.1 <= q.1 by {
                let (ns, cs) = choose|ns: Seq<int>, cs: Seq<Cost>|
                    #[trigger] rel_walk(e, ns, cs) && ns[0] == o && ns.last() == d && cost_sum(cs) == q;
                let sp = lemma_walk_split(g, part, bl, ns, cs);
                let i: int = match sp {
                    None => {
                        assert(mf(q));
                        choose|i: int| 0 <= i < front@.len() && #[trigger] le_pair(front@[i], q)
                    },
                    Some((xi, yi, pa, pb, pc)) => {
                        assert(frag_boundary_ok(part, bl, fo as int, self.frag_boundary@[fo as int]@));
                        assert(frag_boundary_ok(part, bl, fd as int, self.frag_boundary@[fd as int]@));
                        let x1 = choose|j: int| 0 <= j < self.frag_boundary@[fo as int]@.len() && self.frag_boundary@[fo as int]@[j] as int == bl[xi];
                        let x2 = choose|j: int| 0 <= j < self.frag_boundary@[fd as int]@.len() && self.frag_boundary@[fd as int]@[j] as int == bl[yi];
                        assert(self.bidx@[bl[xi]] as int == xi);
                        assert(self.bidx@[bl[yi]] as int == yi);
                        let route = self.route_costs(o as int, d as int, x1, x2);
                        let sq = (pa.0 + pb.0 + pc.0, pa.1 + pb.1 + pc.1);
                        assert(route(sq));
                        // the pair is a candidate, so it was processed
                        self.lemma_fb_index(fo as int, x1);
                        self.lemma_fb_index(fd as int, x2);
                        let ma = rel_costs(frag_rel(g, part, fo as int), o as int, bl[xi]);
                        let mb = rel_costs(boundary_rel(g, part, bl), xi, yi);
                        let mc = rel_costs(frag_rel(g, part, fd as int), bl[yi], d as int);
                        assert(self.b2node@[fo as int]@.len() == self.frag_boundary@[fo as int]@.len());
                        assert(self.b2node@[fo as int]@[x1]@.len() == nodes_o.len());
                        assert(self.b2node@[fd as int]@.len() == self.frag_boundary@[fd as int]@.len());
                        assert(self.b2node@[fd as int]@[x2]@.len() == nodes_d.len());
                        assert(is_frontier_of(self.n2(fo as int, x1, ol as int), ma));
                        assert(is_frontier_of(self.bp(xi, yi), mb));
                        assert(is_frontier_of(self.b2(fd as int, x2, dl as int), mc));
                        lemma_frontier_nonempty(self.n2(fo as int, x1, ol as int), ma);
                        lemma_frontier_nonempty(self.bp(xi, yi), mb);
                        lemma_frontier_nonempty(self.b2(fd as int, x2, dl as int), mc);
                        assert(self.pair_ok(o as int, d as int, x1, x2));
                        let k = choose|k: int| 0 <= k < pairs@.len() && pairs@[k].j1 == x1 && pairs@[k].j2 == x2;
                        assert(pairs@.contains(pairs@[k]));
                        assert(sorted@.contains(pairs@[k]));
                        let xs = choose|xs: int| 0 <= xs < sorted@.len() && sorted@[xs] == pairs@[k];
                        assert(covers(front@, self.route_costs(o as int, d as int, sorted@[xs].j1 as int, sorted@[xs].j2 as int)));
                        choose|i: int| 0 <= i < front@.len() && #[trigger] le_pair(front@[i], sq)
                    },
                };
                assert(0 <= i < front@.len() && le_pair(front@[i], q));
                assert(w(pair_of(front@[i])));
                assert(front@[i].c2 < i64::MAX);
                assert(m1(pair_of(front@[i])));
            }
            lemma_frontier_of_cover(r@, m1, w);
            assert forall|q: (int, int)| #[trigger] w(q) <==> walk_costs(g, o as int, d as int)(q) by {
                lemma_walk_costs_rel(g, o as int, d as int, q);
            }
            lemma_frontier_same_members(r@, w, walk_costs(g, o as int, d as int));
            let keys = self.keys_of(o as int, d as int, pairs@);
            assert(keys.len() == stats.pairs_total);
            assert(g == self.source_graph() && part == self.partition() && bl == self.boundary());
            assert(adv_order(g, part, bl, o as int, d as int, ord));
            assert(ord.len() == stats.pairs_total);
        }
        (r, stats)
    }

    /// Just the advanced frontier (for parity checks).
    pub fn query_adv_costs(&self, o: usize, d: usize) -> (r: Vec<Cost>)
        requires
            o < self.source_graph().node_count(),
            d < self.source_graph().node_count(),
        ensures
            is_frontier_of(r@, walk_costs(self.source_graph(), o as int, d as int)),
    {
        self.query_adv(o, d).0
    }

    /// Convenience: build with a contiguous `k`-fragment partition.
    pub fn build_contiguous(graph: &Graph, k: usize) -> (m: Mepfv)
        requires
            1 <= k,
            k <= graph.node_count() || k == 1,
            graph.node_count() < u32::MAX,
            graph.node_count() == 0 || (graph.node_count() - 1) * k <= usize::MAX,
            targets_in_range(*graph),
            costs_square_bounded(*graph),
        ensures
            m.source_graph() == *graph,
            m.shape_ok(),
            m.partition().len() == graph.node_count(),
            forall|i: int|
                0 <= i < graph.node_count() ==> #[trigger] m.partition()[i] as int == (i * k) / (graph.node_count() as int),
    {
        let n = graph.num_nodes();
        let part = contiguous_partition(n, k);
        proof {
            assert forall|i: int| 0 <= i < part@.len() implies (#[trigger] part@[i] as int) < usize::MAX by {}
        }
        Mepfv::build(graph, part)
    }

    /// Number of boundary nodes.
    pub fn num_boundary(&self) -> (r: usize)
        ensures
            self.shape_ok(),
            r == self.boundary().len(),
    {
        proof {
            use_type_invariant(self);
            self.lemma_shape();
        }
        let ghost bl = self.bnodes@;
        let mut count: usize = 0;
        let mut x: usize = 0;
        while x < self.bidx.len()
            invariant
                x <= self.bidx@.len(),
                self.bidx@.len() == self.n,
                is_boundary_list(self.graph@, self.part@, bl),
                self.graph@.node_count() == self.n,
                forall|i: int| 0 <= i < bl.len() ==> self.bidx@[#[trigger] bl[i]] as int == i,
                forall|y: int| 0 <= y < self.n && !bl.contains(y) ==> #[trigger] self.bidx@[y] == u32::MAX,
                count <= bl.len(),
                bl.len() <= self.n,
                self.n < u32::MAX,
                forall|i: int| 0 <= i < count ==> #[trigger] bl[i] < x,
                count < bl.len() ==> bl[count as int] >= x,
            decreases self.bidx@.len() - x,
        {
            if self.bidx[x] != u32::MAX {
                proof {
                    assert(bl.contains(x as int));
                    let i = choose|i: int| 0 <= i < bl.len() && bl[i] == x as int;
                    if i < count {
                        assert(bl[i] < x);
                    } else if i > count {
                        assert(bl[count as int] < bl[i]);
                    }
                    assert forall|j: int| 0 <= j < count + 1 implies #[trigger] bl[j] < x + 1 by {}
                    if count + 1 < bl.len() {
                        assert(bl[count as int] < bl[count + 1]);
                    }
                }
                count = count + 1;
            } else {
                proof {
                    if count < bl.len() {
                        assert(bl[count as int] != x) by {
                            assert(self.bidx@[bl[count as int]] as int == count);
                        }
                    }
                }
            }
            x = x + 1;
        }
        proof {
            if count < bl.len() {
                assert(0 <= bl[count as int] < self.n);
            }
        }
        count
    }

    /// Export the boundary-pair segment cost sets `(A, B, C)` for a query:
    /// for each pair of a boundary node `x` of the fragment of `o` and a
    /// boundary node `y` of the fragment of `d` through which some route
    /// passes (in increasing order of `(x, y)`), `A` is the frontier
    /// `o -> x` inside the first fragment, `B` the boundary-multigraph
    /// frontier `x -> y`, and `C` the frontier `y -> d` inside the last
    /// fragment: the batched Minkowski-combination workload of a query.
    pub fn export_pairs(&self, o: usize, d: usize) -> (r: Vec<(Vec<Cost>, Vec<Cost>, Vec<Cost>)>)
        requires
            o < self.source_graph().node_count(),
            d < self.source_graph().node_count(),
        ensures
            self.shape_ok(),
            targets_in_range(self.source_graph()),
            partition_ok(self.source_graph(), self.partition()),
            frag_frontiers(self.source_graph(), self.partition(), self.boundary()),
            forall|x: int, y: int|
                #[trigger] route_live(self.source_graph(), self.partition(), self.boundary(), o as int, d as int, x, y)
                    ==> route_fronts(self.source_graph(), self.partition(), self.boundary(), o as int, d as int, x, y),
            exists|keys: Seq<(int, int)>|
                {
                    &&& live_pairs(self.source_graph(), self.partition(), self.boundary(), o as int, d as int, keys)
                    &&& keys.len() == r@.len()
                    &&& forall|i: int|
                        0 <= i < r@.len() ==> {
                            &&& (#[trigger] r@[i]).0@ == frag_front(self.source_graph(), self.partition(), o as int, keys[i].0)
                            &&& r@[i].1@ == frontier(boundary_costs(self.source_graph(), self.partition(), self.boundary(), keys[i].0, keys[i].1))
                            &&& r@[i].2@ == frag_front(self.source_graph(), self.partition(), keys[i].1, d as int)
                        }
                },
    {
        proof {
            use_type_invariant(self);
            self.lemma_shape();
        }
        let ghost g = self.graph@;
        let ghost part = self.part@;
        let ghost bl = self.bnodes@;
        let fo = self.part[o] as usize;
        let fd = self.part[d] as usize;
        let ghost nodes_o = self.frag_nodes@[fo as int];
        let ghost nodes_d = self.frag_nodes@[fd as int];
        proof {
            assert(frag_ok(g, part, fo as int, nodes_o, self.frag_g2l@[fo as int]@, self.frag_graph@[fo as int]));
            assert(frag_ok(g, part, fd as int, nodes_d, self.frag_g2l@[fd as int]@, self.frag_graph@[fd as int]));
        }
        let ol = self.frag_g2l[fo][o] as usize;
        let dl = self.frag_g2l[fd][d] as usize;
        proof {
            assert(nodes_o[ol as int] == o);
            assert(nodes_d[dl as int] == d);
        }
        let pairs = self.live_pair_list(o, d);
        let ghost keys = self.keys_of(o as int, d as int, pairs@);
        proof {
            self.lemma_keys_live(o as int, d as int, pairs@);
        }
        let mut out: Vec<(Vec<Cost>, Vec<Cost>, Vec<Cost>)> = Vec::new();
        let mut i: usize = 0;
        while i < pairs.len()
            invariant
                self.wf(),
                i <= pairs@.len(),
                out@.len() == i,
                fo == self.part@[o as int],
                fd == self.part@[d as int],
                ol == self.frag_g2l@[fo as int]@[o as int],
                dl == self.frag_g2l@[fd as int]@[d as int],
                nodes_o == self.frag_nodes@[fo as int],
                nodes_d == self.frag_nodes@[fd as int],
                nodes_o[ol as int] == o,
                nodes_d[dl as int] == d,
                g == self.graph@,
                part == self.part@,
                bl == self.bnodes@,
                (o as int) < self.n,
                (d as int) < self.n,
                keys == self.keys_of(o as int, d as int, pairs@),
                forall|j: int| 0 <= j < pairs@.len() ==> #[trigger] self.entry_ok(o as int, d as int, pairs@[j]),
                forall|j: int|
                    0 <= j < i ==> {
                        &&& (#[trigger] out@[j]).0@ == frag_front(g, part, o as int, keys[j].0)
                        &&& out@[j].1@ == frontier(boundary_costs(g, part, bl, keys[j].0, keys[j].1))
                        &&& out@[j].2@ == frag_front(g, part, keys[j].1, d as int)
                    },
                forall|j: int| 0 <= j < i ==> #[trigger] route_fronts(g, part, bl, o as int, d as int, keys[j].0, keys[j].1),
            decreases pairs@.len() - i,
        {
            let p = pairs[i];
            proof {
                assert(self.entry_ok(o as int, d as int, p));
                self.lemma_fb_index(fo as int, p.j1 as int);
                self.lemma_fb_index(fd as int, p.j2 as int);
                assert(self.b2node@[fo as int]@.len() == self.frag_boundary@[fo as int]@.len());
                assert(self.b2node@[fo as int]@[p.j1 as int]@.len() == nodes_o.len());
                assert(self.b2node@[fd as int]@.len() == self.frag_boundary@[fd as int]@.len());
                assert(self.b2node@[fd as int]@[p.j2 as int]@.len() == nodes_d.len());
            }
            let a = copy_vec(&self.node2b[fo][p.j1][ol]);
            let b = copy_vec(&self.bppv[p.si][p.ti]);
            let c = copy_vec(&self.b2node[fd][p.j2][dl]);
            proof {
                let x = self.fb(fo as int, p.j1 as int);
                let y = self.fb(fd as int, p.j2 as int);
                assert(keys[i as int] == (x, y));
                let ma = rel_costs(frag_rel(g, part, fo as int), o as int, x);
                let mc = rel_costs(frag_rel(g, part, fd as int), y, d as int);
                let mb = rel_costs(boundary_rel(g, part, bl), p.si as int, p.ti as int);
                assert(is_frontier_of(self.n2(fo as int, p.j1 as int, ol as int), ma));
                assert(is_frontier_of(self.b2(fd as int, p.j2 as int, dl as int), mc));
                assert(is_frontier_of(self.bp(p.si as int, p.ti as int), mb));
                lemma_frontier_named(a@, ma);
                lemma_frontier_named(c@, mc);
                assert(bl[p.si as int] == x);
                assert(bl[p.ti as int] == y);
                assert forall|q: (int, int)| #[trigger] mb(q) <==> boundary_costs(g, part, bl, x, y)(q) by {
                    lemma_boundary_costs_at(g, part, bl, p.si as int, p.ti as int, q);
                }
                lemma_frontier_same_members(b@, mb, boundary_costs(g, part, bl, x, y));
                lemma_frontier_named(b@, boundary_costs(g, part, bl, x, y));
                assert(route_fronts(g, part, bl, o as int, d as int, x, y));
            }
            out.push((a, b, c));
            i = i + 1;
        }
        proof {
            assert(live_pairs(g, part, bl, o as int, d as int, keys));
            assert(keys.len() == out@.len());
            assert forall|x: int, y: int| #[trigger] route_live(g, part, bl, o as int, d as int, x, y) implies route_fronts(
                g,
                part,
                bl,
                o as int,
                d as int,
                x,
                y,
            ) by {
                assert(keys.contains((x, y)));
                let j = choose|j: int| 0 <= j < keys.len() && keys[j] == (x, y);
                assert(route_fronts(g, part, bl, o as int, d as int, keys[j].0, keys[j].1));
            }
            assert(g == self.source_graph() && part == self.partition() && bl == self.boundary());
            assert forall|j: int| 0 <= j < out@.len() implies {
                &&& (#[trigger] out@[j]).0@ == frag_front(self.source_graph(), self.partition(), o as int, keys[j].0)
                &&& out@[j].1@ == frontier(boundary_costs(self.source_graph(), self.partition(), self.boundary(), keys[j].0, keys[j].1))
                &&& out@[j].2@ == frag_front(self.source_graph(), self.partition(), keys[j].1, d as int)
            } by {}
        }
        out
    }

    /// Export the largest fragment (the last of the largest, when several
    /// tie) as `(num_nodes, edges, boundary_sources)`: its number of nodes,
    /// its induced edges `(from, to, c1, c2)` in local ids, and the local ids
    /// of its boundary nodes, increasing.
    pub fn largest_fragment(&self) -> (r: (usize, Vec<(u32, u32, i64, i64)>, Vec<u32>))
        ensures
            self.shape_ok(),
            exists|f: int|
                {
                    &&& 0 <= f < self.fragment_count()
                    &&& forall|h: int| 0 <= h < self.fragment_count() ==> (#[trigger] self.fragment_nodes(h)).len() <= self.fragment_nodes(f).len()
                    &&& forall|h: int| f < h < self.fragment_count() ==> (#[trigger] self.fragment_nodes(h)).len() < self.fragment_nodes(f).len()
                    &&& local_ids_ok(self.source_graph(), self.partition(), f, self.fragment_nodes(f), self.fragment_ids(f))
                    &&& frag_boundary_ok(self.partition(), self.boundary(), f, self.fragment_boundary(f))
                    &&& r.0 == self.fragment_nodes(f).len()
                    &&& r.1@ == local_edge_list(self.source_graph(), self.fragment_nodes(f), self.fragment_ids(f), r.0 as int)
                    &&& r.2@.len() == self.fragment_boundary(f).len()
                    &&& forall|j: int| 0 <= j < r.2@.len() ==> #[trigger] r.2@[j] == self.fragment_ids(f)[self.fragment_boundary(f)[j] as int]
                },
    {
        proof {
            use_type_invariant(self);
            self.lemma_shape();
        }
        let ghost g = self.graph@;
        let ghost part = self.part@;
        let k = self.frag_graph.len();
        let mut f: usize = 0;
        let mut best: usize = self.frag_graph[0].num_nodes();
        let mut i: usize = 1;
        while i < k
            invariant
                1 <= i <= k,
                k == self.frag_graph@.len(),
                f < i,
                best == self.frag_graph@[f as int].node_count(),
                forall|h: int| 0 <= h < i ==> (#[trigger] self.frag_graph@[h]).node_count() <= best,
                forall|h: int| f < h < i ==> (#[trigger] self.frag_graph@[h]).node_count() < best,
            decreases k - i,
        {
            let size = self.frag_graph[i].num_nodes();
            if size >= best {
                f = i;
                best = size;
            }
            i = i + 1;
        }
        let gf = &self.frag_graph[f];
        let ghost nodes = self.frag_nodes@[f as int];
        let ghost g2l = self.frag_g2l@[f as int]@;
        proof {
            assert(frag_ok(g, part, f as int, nodes, g2l, *gf));
            assert forall|h: int| 0 <= h < k implies (#[trigger] self.frag_nodes@[h]).len() == self.frag_graph@[h].node_count() by {
                assert(frag_ok(g, part, h, self.frag_nodes@[h], self.frag_g2l@[h]@, self.frag_graph@[h]));
            }
            assert(nodes.no_duplicates()) by {
                assert forall|a: int, b: int| 0 <= a < nodes.len() && 0 <= b < nodes.len() && a != b implies nodes[a] != nodes[b] by {
                    if a < b {
                        assert(nodes[a] < nodes[b]);
                    } else {
                        assert(nodes[b] < nodes[a]);
                    }
                }
            }
            assert forall|a: int| 0 <= a < nodes.len() implies 0 <= #[trigger] nodes[a] < self.n by {}
            crate::relations::lemma_distinct_len(nodes, self.n as int);
        }
        let es = gf.edges();
        let m = gf.num_nodes();
        let mut edges: Vec<(u32, u32, i64, i64)> = Vec::new();
        let mut j: usize = 0;
        proof {
            lemma_edges_below_bounds(*gf, m as int);
        }
        while j < es.len()
            invariant
                j <= es@.len(),
                es@ == edges_below(*gf, m as int),
                m == gf.node_count(),
                m < u32::MAX,
                forall|x: int| 0 <= x < es@.len() ==> ((#[trigger] es@[x]).0 as int) < m && (es@[x].1 as int) < m,
                edges@.len() == j,
                forall|x: int| 0 <= x < j ==> #[trigger] edges@[x] == (es@[x].0 as u32, es@[x].1 as u32, es@[x].2.c1, es@[x].2.c2),
            decreases es@.len() - j,
        {
            let (u, v, c) = es[j];
            edges.push((u as u32, v as u32, c.c1, c.c2));
            j = j + 1;
        }
        proof {
            lemma_local_edges(g, nodes, g2l, *gf, m as int);
            assert(edges@ =~= local_edge_list(g, nodes, g2l, m as int));
        }
        let fbs = &self.frag_boundary[f];
        proof {
            assert(frag_boundary_ok(part, self.bnodes@, f as int, fbs@));
        }
        let mut srcs: Vec<u32> = Vec::new();
        let mut t: usize = 0;
        while t < fbs.len()
            invariant
                t <= fbs@.len(),
                srcs@.len() == t,
                f < self.frag_g2l@.len(),
                f < self.frag_boundary@.len(),
                self.frag_g2l@[f as int]@.len() == self.n,
                fbs@ == self.frag_boundary@[f as int]@,
                g2l == self.frag_g2l@[f as int]@,
                g2l.len() == self.n,
                forall|x: int| 0 <= x < fbs@.len() ==> (#[trigger] fbs@[x] as int) < self.n,
                forall|x: int| 0 <= x < t ==> #[trigger] srcs@[x] == g2l[fbs@[x] as int],
            decreases fbs@.len() - t,
        {
            let b = fbs[t];
            srcs.push(self.frag_g2l[f][b as usize]);
            t = t + 1;
        }
        proof {
            assert(0 <= f < self.fragment_count());
            assert(local_ids_ok(g, part, f as int, self.fragment_nodes(f as int), self.fragment_ids(f as int)));
            assert(m == self.fragment_nodes(f as int).len());
        }
        (m, edges, srcs)
    }

    /// Online retrieval (basic): the complete Pareto frontier of `(c1, c2)`
    /// walk costs from `o` to `d`, sorted by `c1`. It combines, over every
    /// pair of a boundary node of the fragment of `o` and one of the fragment
    /// of `d`, the frontiers `o -> oBN` (fragment view), `oBN -> dBN`
    /// (boundary view) and `dBN -> d` (fragment view), plus the paths inside
    /// the fragment when `o` and `d` share one.
    #[verifier::loop_isolation(false)]
    #[verifier::spinoff_prover]
    #[verifier::rlimit(80)]
    pub fn query(&self, o: usize, d: usize) -> (r: Vec<Cost>)
        requires
            o < self.source_graph().node_count(),
            d < self.source_graph().node_count(),
        ensures
            is_frontier_of(r@, walk_costs(self.source_graph(), o as int, d as int)),
    {
        proof {
            use_type_invariant(self);
        }
        let ghost g = self.graph@;
        let ghost part = self.part@;
        let ghost bl = self.bnodes@;
        let ghost n = self.n as int;
        let ghost e = edge_rel(g);
        let ghost w = rel_costs(e, o as int, d as int);
        if o == d {
            let r = vec![Cost::new(0, 0)];
            proof {
                lemma_same_node_costs(g, part, o as int);
                assert(r@ =~= seq![Cost { c1: 0, c2: 0 }]);
            }
            return r;
        }
        let fo = self.part[o] as usize;
        let fd = self.part[d] as usize;
        let ghost nodes_o = self.frag_nodes@[fo as int];
        let ghost nodes_d = self.frag_nodes@[fd as int];
        proof {
            assert(frag_ok(g, part, fo as int, nodes_o, self.frag_g2l@[fo as int]@, self.frag_graph@[fo as int]));
            assert(frag_ok(g, part, fd as int, nodes_d, self.frag_g2l@[fd as int]@, self.frag_graph@[fd as int]));
        }
        let ol = self.frag_g2l[fo][o] as usize;
        let dl = self.frag_g2l[fd][d] as usize;
        proof {
            assert(frag_ok(g, part, fo as int, nodes_o, self.frag_g2l@[fo as int]@, self.frag_graph@[fo as int]));
            assert(frag_ok(g, part, fd as int, nodes_d, self.frag_g2l@[fd as int]@, self.frag_graph@[fd as int]));
            assert(nodes_o[ol as int] == o);
            assert(nodes_d[dl as int] == d);
        }
        let mut candidates: Vec<Cost> = Vec::new();
        // Within-fragment direct paths when o and d share a fragment.
        if fo == fd {
            proof {
                let gf = self.frag_graph@[fo as int];
                lemma_bounded_walks_fit(gf, ol as int, gf.node_count() as int);
            }
            let direct = pareto_from(&self.frag_graph[fo], ol);
            let mut found = copy_vec(&direct[dl]);
            proof {
                let gf = self.frag_graph@[fo as int];
                let mf = rel_costs(frag_rel(g, part, fo as int), o as int, d as int);
                assert forall|p: (int, int)| #[trigger] walk_costs(gf, ol as int, dl as int)(p) <==> mf(p) by {
                    lemma_frag_walk_costs(g, part, fo as int, nodes_o, self.frag_g2l@[fo as int]@, gf, ol as int, dl as int, p);
                }
                lemma_frontier_same_members(found@, walk_costs(gf, ol as int, dl as int), mf);
                crate::relations::lemma_frontier_scaled(frag_rel(g, part, fo as int), o as int, d as int, found@, n, n * n, i64::MAX as int);
                assert forall|u: int, v: int, c: Cost| #[trigger] frag_rel(g, part, fo as int)(u, v, c) implies e(u, v, c) by {}
                assert forall|i: int| 0 <= i < found@.len() implies #[trigger] w(pair_of(found@[i])) && found@[i].c2 < i64::MAX by {
                    assert(mf(pair_of(found@[i])));
                    lemma_rel_costs_mono(frag_rel(g, part, fo as int), e, o as int, d as int, pair_of(found@[i]));
                    lemma_scaled_below_max(n, found@[i].c2 as int);
                }
            }
            candidates.append(&mut found);
        }
        // Boundary-routed paths: o -> oBN + oBN -> dBN + dBN -> d.
        let mut j1: usize = 0;
        while j1 < self.frag_boundary[fo].len()
            invariant
                j1 <= self.frag_boundary@[fo as int]@.len(),
                forall|i: int| 0 <= i < candidates@.len() ==> #[trigger] w(pair_of(candidates@[i])) && candidates@[i].c2 < i64::MAX,
                fo == fd ==> covers(candidates@, rel_costs(frag_rel(g, part, fo as int), o as int, d as int)),
                forall|x1: int, x2: int|
                    0 <= x1 < j1 && 0 <= x2 < self.frag_boundary@[fd as int]@.len() ==> covers(
                        candidates@,
                        #[trigger] self.route_costs(o as int, d as int, x1, x2),
                    ),
            decreases self.frag_boundary@[fo as int]@.len() - j1,
        {
            let obn = self.frag_boundary[fo][j1];
            proof {
                assert(self.b2node@[fo as int]@.len() == self.frag_boundary@[fo as int]@.len());
                assert(self.b2node@[fo as int]@[j1 as int]@.len() == nodes_o.len());
            }
            let a = &self.node2b[fo][j1][ol];
            proof {
                self.lemma_fb_index(fo as int, j1 as int);
            }
            let ghost ma = rel_costs(frag_rel(g, part, fo as int), o as int, obn as int);
            if a.len() == 0 {
                proof {
                    assert forall|x2: int| 0 <= x2 < self.frag_boundary@[fd as int]@.len() implies covers(
                        candidates@,
                        #[trigger] self.route_costs(o as int, d as int, j1 as int, x2),
                    ) by {
                        let m = self.route_costs(o as int, d as int, j1 as int, x2);
                        assert forall|p: (int, int)| #[trigger] m(p) implies exists|i: int|
                            0 <= i < candidates@.len() && #[trigger] le_pair(candidates@[i], p) by {
                            let (pa, pb, pc) = choose|pa: (int, int), pb: (int, int), pc: (int, int)|
                                #[trigger] ma(pa) && #[trigger] rel_costs(boundary_rel(g, part, bl), self.bidx@[self.fb(fo as int, j1 as int)] as int, self.bidx@[self.fb(fd as int, x2)] as int)(pb)
                                    && #[trigger] rel_costs(frag_rel(g, part, fd as int), self.fb(fd as int, x2), d as int)(pc)
                                    && p == (pa.0 + pb.0 + pc.0, pa.1 + pb.1 + pc.1);
                            assert(is_frontier_of(self.n2(fo as int, j1 as int, ol as int), ma));
                            lemma_empty_frontier(a@, ma, pa);
                        }
                    }
                }
            } else {
                let si = self.bidx[obn as usize] as usize;
                let mut j2: usize = 0;
                while j2 < self.frag_boundary[fd].len()
                    invariant
                        j2 <= self.frag_boundary@[fd as int]@.len(),
                        forall|i: int| 0 <= i < candidates@.len() ==> #[trigger] w(pair_of(candidates@[i])) && candidates@[i].c2 < i64::MAX,
                        fo == fd ==> covers(candidates@, rel_costs(frag_rel(g, part, fo as int), o as int, d as int)),
                        forall|x1: int, x2: int|
                            0 <= x1 < j1 && 0 <= x2 < self.frag_boundary@[fd as int]@.len() ==> covers(
                                candidates@,
                                #[trigger] self.route_costs(o as int, d as int, x1, x2),
                            ),
                        forall|x2: int|
                            0 <= x2 < j2 ==> covers(
                                candidates@,
                                #[trigger] self.route_costs(o as int, d as int, j1 as int, x2),
                            ),
                    decreases self.frag_boundary@[fd as int]@.len() - j2,
                {
                    let dbn = self.frag_boundary[fd][j2];
                    proof {
                        assert(self.b2node@[fd as int]@.len() == self.frag_boundary@[fd as int]@.len());
                        assert(self.b2node@[fd as int]@[j2 as int]@.len() == nodes_d.len());
                    }
                    let c = &self.b2node[fd][j2][dl];
                    proof {
                        self.lemma_fb_index(fd as int, j2 as int);
                    }
                    let ti = self.bidx[dbn as usize] as usize;
                    let b = &self.bppv[si][ti];
                    let ghost mb = rel_costs(boundary_rel(g, part, bl), si as int, ti as int);
                    let ghost mc = rel_costs(frag_rel(g, part, fd as int), dbn as int, d as int);
                    let ghost route = self.route_costs(o as int, d as int, j1 as int, j2 as int);
                    proof {
                        assert(is_frontier_of(self.n2(fo as int, j1 as int, ol as int), ma));
                        assert(is_frontier_of(self.b2(fd as int, j2 as int, dl as int), mc));
                        assert(is_frontier_of(self.bp(si as int, ti as int), mb));
                        assert(route == sum3(ma, mb, mc));
                    }
                    if c.len() == 0 || b.len() == 0 {
                        proof {
                            assert forall|p: (int, int)| #[trigger] route(p) implies exists|i: int|
                                0 <= i < candidates@.len() && #[trigger] le_pair(candidates@[i], p) by {
                                let (pa, pb, pc) = choose|pa: (int, int), pb: (int, int), pc: (int, int)|
                                    #[trigger] ma(pa) && #[trigger] mb(pb) && #[trigger] mc(pc) && p == (pa.0 + pb.0 + pc.0, pa.1 + pb.1 + pc.1);
                                if c.len() == 0 {
                                    lemma_empty_frontier(c@, mc, pc);
                                } else {
                                    lemma_empty_frontier(b@, mb, pb);
                                }
                            }
                        }
                    } else {
                        let mut abc = combine3(a, b, c, Ghost(ma), Ghost(mb), Ghost(mc), Ghost(n), Ghost(bl.len() as int));
                        proof {
                            assert forall|x: int| 0 <= x < abc@.len() implies #[trigger] w(pair_of(abc@[x])) && abc@[x].c2 < i64::MAX by {
                                assert(sum3(ma, mb, mc)(pair_of(abc@[x])));
                                let (pa, pb, pc) = choose|pa: (int, int), pb: (int, int), pc: (int, int)|
                                    #[trigger] ma(pa) && #[trigger] mb(pb) && #[trigger] mc(pc) && pair_of(abc@[x]) == (pa.0 + pb.0 + pc.0, pa.1 + pb.1 + pc.1);
                                lemma_route_sound(g, part, bl, o as int, d as int, si as int, ti as int, pa, pb, pc);
                            }
                            let c0 = candidates@;
                            lemma_covers_concat(c0, abc@, route);
                            assert forall|x1: int, x2: int|
                                0 <= x1 < j1 && 0 <= x2 < self.frag_boundary@[fd as int]@.len() implies covers(
                                    c0 + abc@,
                                    #[trigger] self.route_costs(o as int, d as int, x1, x2),
                                ) by {
                                lemma_covers_append(c0, abc@, self.route_costs(o as int, d as int, x1, x2));
                            }
                            assert forall|x2: int| 0 <= x2 < j2 implies covers(
                                c0 + abc@,
                                #[trigger] self.route_costs(o as int, d as int, j1 as int, x2),
                            ) by {
                                lemma_covers_append(c0, abc@, self.route_costs(o as int, d as int, j1 as int, x2));
                            }
                            if fo == fd {
                                lemma_covers_append(c0, abc@, rel_costs(frag_rel(g, part, fo as int), o as int, d as int));
                            }
                            assert forall|i: int| 0 <= i < (c0 + abc@).len() implies #[trigger] w(pair_of((c0 + abc@)[i])) && (c0 + abc@)[i].c2 < i64::MAX by {
                                if i < c0.len() {
                                    assert((c0 + abc@)[i] == c0[i]);
                                    assert(w(pair_of(c0[i])));
                                } else {
                                    assert((c0 + abc@)[i] == abc@[i - c0.len()]);
                                    assert(w(pair_of(abc@[i - c0.len()])));
                                }
                            }
                        }
                        candidates.append(&mut abc);
                    }
                    j2 = j2 + 1;
                }
            }
            j1 = j1 + 1;
        }
        let r = pareto_filter(candidates);
        proof {
            let m1 = members_of(candidates@);
            assert forall|p: (int, int)| #[trigger] m1(p) implies w(p) by {
                let i = choose|i: int| 0 <= i < candidates@.len() && #[trigger] pair_of(candidates@[i]) == p;
                assert(w(pair_of(candidates@[i])));
            }
            assert forall|p: (int, int)| #[trigger] w(p) implies exists|q: (int, int)| #[trigger] m1(q) && q.0 <= p.0 && q.1 <= p.1 by {
                let (ns, cs) = choose|ns: Seq<int>, cs: Seq<Cost>|
                    #[trigger] rel_walk(e, ns, cs) && ns[0] == o && ns.last() == d && cost_sum(cs) == p;
                let sp = lemma_walk_split(g, part, bl, ns, cs);
                let i: int = match sp {
                    None => {
                        assert(rel_costs(frag_rel(g, part, fo as int), o as int, d as int)(p));
                        choose|i: int| 0 <= i < candidates@.len() && #[trigger] le_pair(candidates@[i], p)
                    },
                    Some((xi, yi, pa, pb, pc)) => {
                        assert(frag_boundary_ok(part, bl, fo as int, self.frag_boundary@[fo as int]@));
                        assert(frag_boundary_ok(part, bl, fd as int, self.frag_boundary@[fd as int]@));
                        assert(part[bl[xi]] as int == fo);
                        let x1 = choose|j: int| 0 <= j < self.frag_boundary@[fo as int]@.len() && self.frag_boundary@[fo as int]@[j] as int == bl[xi];
                        let x2 = choose|j: int| 0 <= j < self.frag_boundary@[fd as int]@.len() && self.frag_boundary@[fd as int]@[j] as int == bl[yi];
                        assert(self.bidx@[bl[xi]] as int == xi);
                        assert(self.bidx@[bl[yi]] as int == yi);
                        let route = self.route_costs(o as int, d as int, x1, x2);
                        assert(route((pa.0 + pb.0 + pc.0, pa.1 + pb.1 + pc.1)));
                        assert(covers(candidates@, route));
                        choose|i: int| 0 <= i < candidates@.len() && #[trigger] le_pair(candidates@[i], (pa.0 + pb.0 + pc.0, pa.1 + pb.1 + pc.1))
                    },
                };
                assert(0 <= i < candidates@.len() && le_pair(candidates@[i], p));
                assert(w(pair_of(candidates@[i])));
                assert(candidates@[i].c2 < i64::MAX);
                assert(m1(pair_of(candidates@[i])));
            }
            lemma_frontier_of_cover(r@, m1, w);
            assert forall|p: (int, int)| #[trigger] w(p) <==> walk_costs(g, o as int, d as int)(p) by {
                lemma_walk_costs_rel(g, o as int, d as int, p);
            }
            lemma_frontier_same_members(r@, w, walk_costs(g, o as int, d as int));
        }
        r
    }
}

/// The boundary nodes are nodes of the graph, each counted once; a
/// partition that puts every node in one fragment leaves none.
pub proof fn lemma_boundary_size(m: Mepfv)
    requires
        m.shape_ok(),
    ensures
        m.boundary().len() <= m.source_graph().node_count(),
        (forall|u: int, v: int|
            0 <= u < m.partition().len() && 0 <= v < m.partition().len() ==> #[trigger] m.partition()[u]
                == #[trigger] m.partition()[v]) ==> m.boundary().len() == 0,
{
    let g = m.source_graph();
    let part = m.partition();
    let bl = m.boundary();
    assert(bl.no_duplicates()) by {
        assert forall|i: int, j: int| 0 <= i < bl.len() && 0 <= j < bl.len() && i != j implies bl[i] != bl[j] by {
            if i < j {
                assert(bl[i] < bl[j]);
            } else {
                assert(bl[j] < bl[i]);
            }
        }
    }
    crate::relations::lemma_distinct_len(bl, g.node_count() as int);
    if (forall|u: int, v: int| 0 <= u < part.len() && 0 <= v < part.len() ==> #[trigger] part[u] == #[trigger] part[v]) && bl.len() > 0 {
        assert(crate::fragments::is_boundary(g, part, bl[0]));
        let (u, v, c) = choose|u: int, v: int, c: Cost|
            #[trigger] has_edge(g, u, v, c) && part[u] != part[v] && (u == bl[0] || v == bl[0]);
        assert(part[u] == part[v]);
    }
}

/// The partition never changes an answer: any two views of one graph,
/// built under any two partitions, answer a query alike, and alike with the
/// exact full-graph search `pareto_costs` (each answer is the frontier of
/// the same walk costs).
pub proof fn lemma_partition_independent(
    m1: Mepfv,
    m2: Mepfv,
    o: int,
    d: int,
    r1: Seq<Cost>,
    r2: Seq<Cost>,
)
    requires
        m1.source_graph() == m2.source_graph(),
        is_frontier_of(r1, walk_costs(m1.source_graph(), o, d)),
        is_frontier_of(r2, walk_costs(m2.source_graph(), o, d)),
    ensures
        r1 == r2,
{
    crate::pareto::lemma_frontier_unique(r1, r2, walk_costs(m1.source_graph(), o, d));
}

/// The advanced retrieval answers exactly as the basic one: the
/// cost-interval pruning never drops a frontier member.
pub proof fn lemma_adv_matches_basic(m: Mepfv, o: int, d: int, basic: Seq<Cost>, adv: Seq<Cost>)
    requires
        is_frontier_of(basic, walk_costs(m.source_graph(), o, d)),
        is_frontier_of(adv, walk_costs(m.source_graph(), o, d)),
    ensures
        basic == adv,
{
    crate::pareto::lemma_frontier_unique(basic, adv, walk_costs(m.source_graph(), o, d));
}

/// The exported triples combine to the view's answer: when `o` and `d` lie
/// in different fragments, the Pareto frontier of the walk costs from `o`
/// to `d` (what `query` returns) is also the frontier of the sums
/// `a + b + c` of one member of each set of one exported triple (what
/// `export_pairs` returns, listed along its live pairs `keys`).
pub proof fn lemma_exported_triples_combine(
    m: Mepfv,
    o: int,
    d: int,
    keys: Seq<(int, int)>,
    r: Seq<(Seq<Cost>, Seq<Cost>, Seq<Cost>)>,
    q: Seq<Cost>,
)
    requires
        0 <= o < m.source_graph().node_count(),
        0 <= d < m.source_graph().node_count(),
        m.partition()[o] != m.partition()[d],
        targets_in_range(m.source_graph()),
        partition_ok(m.source_graph(), m.partition()),
        is_boundary_list(m.source_graph(), m.partition(), m.boundary()),
        frag_frontiers(m.source_graph(), m.partition(), m.boundary()),
        forall|x: int, y: int|
            #[trigger] route_live(m.source_graph(), m.partition(), m.boundary(), o, d, x, y) ==> route_fronts(
                m.source_graph(),
                m.partition(),
                m.boundary(),
                o,
                d,
                x,
                y,
            ),
        live_pairs(m.source_graph(), m.partition(), m.boundary(), o, d, keys),
        keys.len() == r.len(),
        forall|i: int|
            0 <= i < r.len() ==> {
                &&& (#[trigger] r[i]).0 == frag_front(m.source_graph(), m.partition(), o, keys[i].0)
                &&& r[i].1 == frontier(boundary_costs(m.source_graph(), m.partition(), m.boundary(), keys[i].0, keys[i].1))
                &&& r[i].2 == frag_front(m.source_graph(), m.partition(), keys[i].1, d)
            },
        is_frontier_of(q, walk_costs(m.source_graph(), o, d)),
    ensures
        is_frontier_of(q, triple_sums(r)),
{
    let g = m.source_graph();
    let part = m.partition();
    let bl = m.boundary();
    let w = walk_costs(g, o, d);
    let ts = triple_sums(r);
    assert forall|p: (int, int)| #[trigger] ts(p) implies w(p) by {
        let (i, a, b, c) = choose|i: int, a: int, b: int, c: int|
            0 <= i < r.len() && 0 <= a < r[i].0.len() && 0 <= b < r[i].1.len() && 0 <= c < r[i].2.len() && p == (
                #[trigger] r[i].0[a].c1 + #[trigger] r[i].1[b].c1 + #[trigger] r[i].2[c].c1,
                r[i].0[a].c2 + r[i].1[b].c2 + r[i].2[c].c2,
            );
        let x = keys[i].0;
        let y = keys[i].1;
        assert(route_live(g, part, bl, o, d, x, y));
        assert(route_fronts(g, part, bl, o, d, x, y));
        let pa = pair_of(r[i].0[a]);
        let pb = pair_of(r[i].1[b]);
        let pc = pair_of(r[i].2[c]);
        assert(rel_costs(frag_rel(g, part, part[o] as int), o, x)(pa));
        assert(boundary_costs(g, part, bl, x, y)(pb));
        assert(rel_costs(frag_rel(g, part, part[d] as int), y, d)(pc));
        let (si, ti) = choose|si: int, ti: int|
            0 <= si < bl.len() && 0 <= ti < bl.len() && bl[si] == x && bl[ti] == y && #[trigger] rel_costs(
                boundary_rel(g, part, bl),
                si,
                ti,
            )(pb);
        lemma_route_sound(g, part, bl, o, d, si, ti, pa, pb, pc);
        lemma_walk_costs_rel(g, o, d, p);
    }
    assert forall|i: int| 0 <= i < q.len() implies #[trigger] ts(pair_of(q[i])) by {
        let qi = pair_of(q[i]);
        assert(w(qi));
        lemma_walk_costs_rel(g, o, d, qi);
        let (ns, cs) = choose|ns: Seq<int>, cs: Seq<Cost>|
            #[trigger] rel_walk(edge_rel(g), ns, cs) && ns[0] == o && ns.last() == d && cost_sum(cs) == qi;
        let split = lemma_walk_split(g, part, bl, ns, cs);
        match split {
            Option::None => {
                assert(false);
            },
            Option::Some((xi, yi, a, b, c)) => {
                let x = bl[xi];
                let y = bl[yi];
                assert(bl.contains(x));
                assert(bl.contains(y));
                assert(boundary_costs(g, part, bl, x, y)(b));
                assert(route_live(g, part, bl, o, d, x, y));
                assert(keys.contains((x, y)));
                let j = choose|j: int| 0 <= j < keys.len() && keys[j] == (x, y);
                assert(route_fronts(g, part, bl, o, d, x, y));
                let ra = r[j].0;
                let rb = r[j].1;
                let rc = r[j].2;
                let ia = choose|ia: int| 0 <= ia < ra.len() && #[trigger] le_pair(ra[ia], a);
                let ib = choose|ib: int| 0 <= ib < rb.len() && #[trigger] le_pair(rb[ib], b);
                let ic = choose|ic: int| 0 <= ic < rc.len() && #[trigger] le_pair(rc[ic], c);
                let sp = (
                    r[j].0[ia].c1 + r[j].1[ib].c1 + r[j].2[ic].c1,
                    r[j].0[ia].c2 + r[j].1[ib].c2 + r[j].2[ic].c2,
                );
                assert(ts(sp));
                assert(w(sp));
                let k = choose|k: int| 0 <= k < q.len() && #[trigger] le_pair(q[k], sp);
                if k < i {
                    assert(q[k].c2 > q[i].c2);
                } else if k > i {
                    assert(q[k].c1 > q[i].c1);
                }
                assert(sp == qi);
            },
        }
    }
    assert forall|p: (int, int)| #[trigger] ts(p) implies exists|i: int|
        0 <= i < q.len() && #[trigger] le_pair(q[i], p) by {
        assert(w(p));
    }
}

} // verus!
