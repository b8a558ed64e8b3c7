//! Fragments of a partitioned graph, their boundary nodes, and the boundary
//! multigraph: how every walk of the graph splits into in-fragment segments
//! joined at boundary nodes, and how walks of the multigraph are walks of
//! the graph.

use vstd::prelude::*;

use crate::cost::Cost;
use crate::graph::Graph;
use crate::pareto::{is_frontier_of, le_pair, pair_of};
use crate::relations::{
    cost_sum, edge_rel, has_edge, lemma_cost_sum_append, lemma_cost_sum_nonneg, lemma_cost_sum_single,
    lemma_rel_costs_concat, lemma_rel_costs_edge, lemma_rel_costs_mono, lemma_rel_costs_refl,
    rel_costs, rel_nonneg, rel_walk,
};
use crate::walks::CostGraph;

verus! {

/// The edges of `g` with both ends in fragment `f`.
pub open spec fn frag_rel(g: Graph, part: Seq<u32>, f: int) -> spec_fn(int, int, Cost) -> bool {
    |u: int, v: int, c: Cost| has_edge(g, u, v, c) && part[u] as int == f && part[v] as int == f
}

/// `x` is an end of an edge between two fragments.
pub open spec fn is_boundary(g: Graph, part: Seq<u32>, x: int) -> bool {
    exists|u: int, v: int, c: Cost| #[trigger] has_edge(g, u, v, c) && part[u] != part[v] && (u == x || v == x)
}

/// The Pareto frontier of a set of integer pairs, where it has one.
pub open spec fn frontier(m: spec_fn((int, int)) -> bool) -> Seq<Cost> {
    choose|r: Seq<Cost>| is_frontier_of(r, m)
}

/// The frontier of costs of walks from `x` to `y` that stay in the fragment
/// of `x`.
pub open spec fn frag_front(g: Graph, part: Seq<u32>, x: int, y: int) -> Seq<Cost> {
    frontier(rel_costs(frag_rel(g, part, part[x] as int), x, y))
}

/// The boundary multigraph over the boundary nodes `bl`: from `s` to `t`
/// one edge per frontier cost of in-fragment walks between two boundary
/// nodes of one fragment, and one edge per edge between fragments.
pub open spec fn boundary_rel(g: Graph, part: Seq<u32>, bl: Seq<int>) -> spec_fn(int, int, Cost) -> bool {
    |s: int, t: int, c: Cost|
        0 <= s < bl.len() && 0 <= t < bl.len() && ((s != t && part[bl[s]] == part[bl[t]] && frag_front(
            g,
            part,
            bl[s],
            bl[t],
        ).contains(c)) || (has_edge(g, bl[s], bl[t], c) && part[bl[s]] != part[bl[t]]))
}

/// `bl` lists the boundary nodes, in increasing order.
pub open spec fn is_boundary_list(g: Graph, part: Seq<u32>, bl: Seq<int>) -> bool {
    &&& forall|i: int, j: int| 0 <= i < j < bl.len() ==> bl[i] < bl[j]
    &&& forall|i: int| 0 <= i < bl.len() ==> 0 <= #[trigger] bl[i] < g.node_count() && is_boundary(g, part, bl[i])
    &&& forall|x: int| 0 <= x < g.node_count() && #[trigger] is_boundary(g, part, x) ==> bl.contains(x)
}

/// Between any two boundary nodes of one fragment the in-fragment walk costs
/// have a frontier.
pub open spec fn frag_frontiers(g: Graph, part: Seq<u32>, bl: Seq<int>) -> bool {
    forall|i: int, j: int|
        0 <= i < bl.len() && 0 <= j < bl.len() && part[bl[i]] == part[bl[j]] ==> is_frontier_of(
            #[trigger] frag_front(g, part, bl[i], bl[j]),
            rel_costs(frag_rel(g, part, part[bl[i]] as int), bl[i], bl[j]),
        )
}

/// The graph's edges join nodes of the partition and have non-negative costs.
pub open spec fn partition_ok(g: Graph, part: Seq<u32>) -> bool {
    &&& part.len() == g.node_count()
    &&& rel_nonneg(edge_rel(g))
    &&& forall|u: int, v: int, c: Cost| #[trigger] has_edge(g, u, v, c) ==> 0 <= u < g.node_count() && 0 <= v < g.node_count()
}

/// Step `j` of the node sequence stays in one fragment.
pub open spec fn same_frag(part: Seq<u32>, ns: Seq<int>, j: int) -> bool {
    part[ns[j]] == part[ns[j + 1]]
}

proof fn lemma_first_cross(part: Seq<u32>, ns: Seq<int>, k: int) -> (i: int)
    requires
        0 <= k < ns.len(),
        forall|j: int| 0 <= j < k ==> #[trigger] same_frag(part, ns, j),
    ensures
        i == -1 ==> forall|j: int| 0 <= j < ns.len() - 1 ==> #[trigger] same_frag(part, ns, j),
        i != -1 ==> k <= i < ns.len() - 1 && !same_frag(part, ns, i) && forall|j: int|
            0 <= j < i ==> #[trigger] same_frag(part, ns, j),
    decreases ns.len() - k,
{
    if k == ns.len() - 1 {
        -1
    } else if !same_frag(part, ns, k) {
        k
    } else {
        lemma_first_cross(part, ns, k + 1)
    }
}

proof fn lemma_last_cross(part: Seq<u32>, ns: Seq<int>, k: int) -> (i: int)
    requires
        0 <= k < ns.len(),
        forall|j: int| k <= j < ns.len() - 1 ==> #[trigger] same_frag(part, ns, j),
    ensures
        i == -1 ==> forall|j: int| 0 <= j < ns.len() - 1 ==> #[trigger] same_frag(part, ns, j),
        i != -1 ==> 0 <= i < k && !same_frag(part, ns, i) && forall|j: int|
            i < j < ns.len() - 1 ==> #[trigger] same_frag(part, ns, j),
    decreases k,
{
    if k == 0 {
        -1
    } else if !same_frag(part, ns, k - 1) {
        k - 1
    } else {
        lemma_last_cross(part, ns, k - 1)
    }
}

/// A walk none of whose steps leaves a fragment is a walk in the fragment
/// of its first node.
pub proof fn lemma_walk_in_fragment(g: Graph, part: Seq<u32>, ns: Seq<int>, cs: Seq<Cost>)
    requires
        rel_walk(edge_rel(g), ns, cs),
        forall|j: int| 0 <= j < ns.len() - 1 ==> #[trigger] same_frag(part, ns, j),
    ensures
        rel_walk(frag_rel(g, part, part[ns[0]] as int), ns, cs),
        forall|j: int| 0 <= j < ns.len() ==> part[#[trigger] ns[j]] == part[ns[0]],
{
    assert forall|j: int| 0 <= j < ns.len() implies part[#[trigger] ns[j]] == part[ns[0]] by {
        lemma_same_upto(part, ns, j);
    }
    let f = part[ns[0]] as int;
    assert forall|i: int| 0 <= i < cs.len() implies frag_rel(g, part, f)(ns[i], ns[i + 1], #[trigger] cs[i]) by {
        assert(edge_rel(g)(ns[i], ns[i + 1], cs[i]));
        assert(part[ns[i]] == part[ns[0]]);
        assert(part[ns[i + 1]] == part[ns[0]]);
    }
}

proof fn lemma_same_upto(part: Seq<u32>, ns: Seq<int>, j: int)
    requires
        0 <= j < ns.len(),
        forall|i: int| 0 <= i < j ==> #[trigger] same_frag(part, ns, i),
    ensures
        part[ns[j]] == part[ns[0]],
    decreases j,
{
    if j > 0 {
        lemma_same_upto(part, ns, j - 1);
        assert(same_frag(part, ns, j - 1));
    }
}

/// A node at the end of an edge between fragments is on the boundary list.
proof fn lemma_cross_ends_listed(g: Graph, part: Seq<u32>, bl: Seq<int>, x: int, y: int, c: Cost) -> (r: (int, int))
    requires
        partition_ok(g, part),
        is_boundary_list(g, part, bl),
        has_edge(g, x, y, c),
        part[x] != part[y],
    ensures
        0 <= r.0 < bl.len(),
        bl[r.0] == x,
        0 <= r.1 < bl.len(),
        bl[r.1] == y,
{
    assert(is_boundary(g, part, x));
    assert(is_boundary(g, part, y));
    assert(bl.contains(x));
    assert(bl.contains(y));
    let xi = choose|i: int| 0 <= i < bl.len() && bl[i] == x;
    let yi = choose|i: int| 0 <= i < bl.len() && bl[i] == y;
    (xi, yi)
}

/// An in-fragment walk between two boundary nodes is matched, at no more
/// cost, by a walk of the boundary multigraph of at most one edge.
proof fn lemma_frag_segment(
    g: Graph,
    part: Seq<u32>,
    bl: Seq<int>,
    ns: Seq<int>,
    cs: Seq<Cost>,
    si: int,
    ti: int,
) -> (w: (int, int))
    requires
        partition_ok(g, part),
        is_boundary_list(g, part, bl),
        frag_frontiers(g, part, bl),
        rel_walk(frag_rel(g, part, part[ns[0]] as int), ns, cs),
        0 <= si < bl.len(),
        bl[si] == ns[0],
        0 <= ti < bl.len(),
        bl[ti] == ns.last(),
    ensures
        rel_costs(boundary_rel(g, part, bl), si, ti)(w),
        w.0 <= cost_sum(cs).0,
        w.1 <= cost_sum(cs).1,
{
    let f = part[ns[0]] as int;
    let br = boundary_rel(g, part, bl);
    assert forall|i: int| 0 <= i < cs.len() implies 0 <= (#[trigger] cs[i]).c1 && 0 <= cs[i].c2 by {
        assert(frag_rel(g, part, f)(ns[i], ns[i + 1], cs[i]));
        assert(edge_rel(g)(ns[i], ns[i + 1], cs[i]));
    }
    lemma_cost_sum_nonneg(cs);
    if si == ti {
        lemma_rel_costs_refl(br, si);
        (0, 0)
    } else {
        if cs.len() == 0 {
            assert(bl[si] == bl[ti]);
            if si < ti {
                assert(bl[si] < bl[ti]);
            } else {
                assert(bl[ti] < bl[si]);
            }
        } else {
            let k = cs.len() - 1;
            assert(frag_rel(g, part, f)(ns[k], ns[k + 1], cs[k]));
            assert(ns[k + 1] == ns.last());
        }
        assert(part[bl[ti]] as int == f);
        let m = rel_costs(frag_rel(g, part, f), bl[si], bl[ti]);
        let r = frag_front(g, part, bl[si], bl[ti]);
        assert(is_frontier_of(r, m));
        assert(rel_walk(frag_rel(g, part, f), ns, cs));
        assert(m(cost_sum(cs)));
        let k = choose|k: int| 0 <= k < r.len() && #[trigger] le_pair(r[k], cost_sum(cs));
        assert(r.contains(r[k]));
        assert(br(si, ti, r[k]));
        lemma_rel_costs_edge(br, si, ti, r[k]);
        (r[k].c1 as int, r[k].c2 as int)
    }
}

/// Every walk of the graph between two boundary nodes is matched, at no
/// more cost, by a walk of the boundary multigraph between them.
pub proof fn lemma_boundary_walk_complete(
    g: Graph,
    part: Seq<u32>,
    bl: Seq<int>,
    ns: Seq<int>,
    cs: Seq<Cost>,
    si: int,
    ti: int,
) -> (w: (int, int))
    requires
        partition_ok(g, part),
        is_boundary_list(g, part, bl),
        frag_frontiers(g, part, bl),
        rel_walk(edge_rel(g), ns, cs),
        0 <= si < bl.len(),
        bl[si] == ns[0],
        0 <= ti < bl.len(),
        bl[ti] == ns.last(),
    ensures
        rel_costs(boundary_rel(g, part, bl), si, ti)(w),
        w.0 <= cost_sum(cs).0,
        w.1 <= cost_sum(cs).1,
    decreases cs.len(),
{
    let br = boundary_rel(g, part, bl);
    let i = lemma_first_cross(part, ns, 0);
    if i == -1 {
        lemma_walk_in_fragment(g, part, ns, cs);
        lemma_frag_segment(g, part, bl, ns, cs, si, ti)
    } else {
        let nsp = ns.take(i + 1);
        let csp = cs.take(i);
        assert forall|j: int| 0 <= j < csp.len() implies edge_rel(g)(nsp[j], nsp[j + 1], #[trigger] csp[j]) by {
            assert(csp[j] == cs[j]);
            assert(nsp[j] == ns[j] && nsp[j + 1] == ns[j + 1]);
        }
        assert forall|j: int| 0 <= j < nsp.len() - 1 implies #[trigger] same_frag(part, nsp, j) by {
            assert(same_frag(part, ns, j));
        }
        lemma_walk_in_fragment(g, part, nsp, csp);
        let x = ns[i];
        let y = ns[i + 1];
        assert(edge_rel(g)(x, y, cs[i]));
        let (xi, yi) = lemma_cross_ends_listed(g, part, bl, x, y, cs[i]);
        let w1 = lemma_frag_segment(g, part, bl, nsp, csp, si, xi);
        assert(br(xi, yi, cs[i]));
        lemma_rel_costs_edge(br, xi, yi, cs[i]);
        let nsr = ns.skip(i + 1);
        let csr = cs.skip(i + 1);
        assert forall|j: int| 0 <= j < csr.len() implies edge_rel(g)(nsr[j], nsr[j + 1], #[trigger] csr[j]) by {
            assert(csr[j] == cs[i + 1 + j]);
            assert(nsr[j] == ns[i + 1 + j] && nsr[j + 1] == ns[i + 2 + j]);
        }
        let w3 = lemma_boundary_walk_complete(g, part, bl, nsr, csr, yi, ti);
        let c = (cs[i].c1 as int, cs[i].c2 as int);
        lemma_rel_costs_concat(br, si, xi, yi, w1, c);
        let w12 = (w1.0 + c.0, w1.1 + c.1);
        lemma_rel_costs_concat(br, si, yi, ti, w12, w3);
        assert(cs =~= csp + (seq![cs[i]] + csr));
        lemma_cost_sum_append(csp, seq![cs[i]] + csr);
        lemma_cost_sum_append(seq![cs[i]], csr);
        lemma_cost_sum_single(cs[i]);
        (w12.0 + w3.0, w12.1 + w3.1)
    }
}

/// Every walk of the boundary multigraph is a walk of the graph, with the
/// same cost, between the boundary nodes it joins.
pub proof fn lemma_boundary_walk_sound(g: Graph, part: Seq<u32>, bl: Seq<int>, ns: Seq<int>, cs: Seq<Cost>)
    requires
        frag_frontiers(g, part, bl),
        rel_walk(boundary_rel(g, part, bl), ns, cs),
    ensures
        rel_costs(edge_rel(g), bl[ns[0]], bl[ns.last()])(cost_sum(cs)),
    decreases cs.len(),
{
    let br = boundary_rel(g, part, bl);
    let e = edge_rel(g);
    if cs.len() == 0 {
        lemma_rel_costs_refl(e, bl[ns[0]]);
    } else {
        let ns1 = ns.drop_last();
        let cs1 = cs.drop_last();
        let k = cs.len() - 1;
        assert forall|j: int| 0 <= j < cs1.len() implies br(ns1[j], ns1[j + 1], #[trigger] cs1[j]) by {
            assert(cs1[j] == cs[j]);
            assert(ns1[j] == ns[j] && ns1[j + 1] == ns[j + 1]);
        }
        lemma_boundary_walk_sound(g, part, bl, ns1, cs1);
        let s = ns[k];
        let t = ns[k + 1];
        let c = cs[k];
        assert(br(s, t, c));
        assert(ns1.last() == s);
        assert(ns.last() == t);
        if s != t && part[bl[s]] == part[bl[t]] && frag_front(g, part, bl[s], bl[t]).contains(c) {
            let f = part[bl[s]] as int;
            let m = rel_costs(frag_rel(g, part, f), bl[s], bl[t]);
            let r = frag_front(g, part, bl[s], bl[t]);
            assert(is_frontier_of(r, m));
            let idx = choose|idx: int| 0 <= idx < r.len() && r[idx] == c;
            assert(m(pair_of(r[idx])));
            assert forall|a: int, b: int, x: Cost| #[trigger] frag_rel(g, part, f)(a, b, x) implies e(a, b, x) by {}
            lemma_rel_costs_mono(frag_rel(g, part, f), e, bl[s], bl[t], pair_of(c));
        } else {
            lemma_rel_costs_edge(e, bl[s], bl[t], c);
        }
        lemma_rel_costs_concat(e, bl[ns[0]], bl[s], bl[t], cost_sum(cs1), pair_of(c));
        assert(cs1 == cs.drop_last());
        assert(cs.last() == c);
    }
}

/// Every walk either stays in the fragment of its first node, or splits at
/// its first and last steps between fragments into an in-fragment head to a
/// boundary node, a middle matched by a walk of the boundary multigraph, and
/// an in-fragment tail from a boundary node; the three costs together are no
/// more than the walk's.
pub proof fn lemma_walk_split(g: Graph, part: Seq<u32>, bl: Seq<int>, ns: Seq<int>, cs: Seq<Cost>) -> (r: Option<
    (int, int, (int, int), (int, int), (int, int)),
>)
    requires
        partition_ok(g, part),
        is_boundary_list(g, part, bl),
        frag_frontiers(g, part, bl),
        rel_walk(edge_rel(g), ns, cs),
    ensures
        r is None ==> part[ns.last()] == part[ns[0]] && rel_costs(frag_rel(g, part, part[ns[0]] as int), ns[0], ns.last())(
            cost_sum(cs),
        ),
        r matches Some((xi, yi, a, b, c)) ==> {
            &&& 0 <= xi < bl.len()
            &&& 0 <= yi < bl.len()
            &&& part[bl[xi]] == part[ns[0]]
            &&& part[bl[yi]] == part[ns.last()]
            &&& rel_costs(frag_rel(g, part, part[ns[0]] as int), ns[0], bl[xi])(a)
            &&& rel_costs(boundary_rel(g, part, bl), xi, yi)(b)
            &&& rel_costs(frag_rel(g, part, part[ns.last()] as int), bl[yi], ns.last())(c)
            &&& a.0 + b.0 + c.0 <= cost_sum(cs).0
            &&& a.1 + b.1 + c.1 <= cost_sum(cs).1
        },
{
    let i = lemma_first_cross(part, ns, 0);
    if i == -1 {
        lemma_walk_in_fragment(g, part, ns, cs);
        assert(part[ns[ns.len() - 1]] == part[ns[0]]);
        None
    } else {
        let j = lemma_last_cross(part, ns, ns.len() - 1);
        assert(j != -1) by {
            if j == -1 {
                assert(same_frag(part, ns, i));
            }
        }
        assert(i <= j) by {
            if j < i {
                assert(same_frag(part, ns, i));
            }
        }
        // head: ns[0..=i] inside the first fragment
        let nsp = ns.take(i + 1);
        let csp = cs.take(i);
        assert forall|t: int| 0 <= t < csp.len() implies edge_rel(g)(nsp[t], nsp[t + 1], #[trigger] csp[t]) by {
            assert(csp[t] == cs[t]);
            assert(nsp[t] == ns[t] && nsp[t + 1] == ns[t + 1]);
        }
        assert forall|t: int| 0 <= t < nsp.len() - 1 implies #[trigger] same_frag(part, nsp, t) by {
            assert(same_frag(part, ns, t));
        }
        lemma_walk_in_fragment(g, part, nsp, csp);
        assert(rel_walk(frag_rel(g, part, part[ns[0]] as int), nsp, csp));
        let x = ns[i];
        assert(nsp.last() == x);
        assert(part[x] == part[ns[0]]) by {
            assert(part[nsp[i]] == part[nsp[0]]);
        }
        assert(edge_rel(g)(ns[i], ns[i + 1], cs[i]));
        let (xi, _) = lemma_cross_ends_listed(g, part, bl, x, ns[i + 1], cs[i]);
        // tail: ns[j+1..] inside the last fragment
        let y = ns[j + 1];
        assert(edge_rel(g)(ns[j], ns[j + 1], cs[j]));
        let (_, yi) = lemma_cross_ends_listed(g, part, bl, ns[j], y, cs[j]);
        let nss = ns.skip(j + 1);
        let css = cs.skip(j + 1);
        assert forall|t: int| 0 <= t < css.len() implies edge_rel(g)(nss[t], nss[t + 1], #[trigger] css[t]) by {
            assert(css[t] == cs[j + 1 + t]);
            assert(nss[t] == ns[j + 1 + t] && nss[t + 1] == ns[j + 2 + t]);
        }
        assert forall|t: int| 0 <= t < nss.len() - 1 implies #[trigger] same_frag(part, nss, t) by {
            assert(same_frag(part, ns, j + 1 + t));
        }
        lemma_walk_in_fragment(g, part, nss, css);
        assert(nss.last() == ns.last());
        assert(part[ns.last()] == part[y]) by {
            assert(part[nss[nss.len() - 1]] == part[nss[0]]);
        }
        assert(rel_walk(frag_rel(g, part, part[ns.last()] as int), nss, css));
        // middle: ns[i..=j+1] matched in the boundary multigraph
        let nsm = ns.subrange(i, j + 2);
        let csm = cs.subrange(i, j + 1);
        assert forall|t: int| 0 <= t < csm.len() implies edge_rel(g)(nsm[t], nsm[t + 1], #[trigger] csm[t]) by {
            assert(csm[t] == cs[i + t]);
            assert(nsm[t] == ns[i + t] && nsm[t + 1] == ns[i + t + 1]);
        }
        let b = lemma_boundary_walk_complete(g, part, bl, nsm, csm, xi, yi);
        assert(cs =~= csp + (csm + css));
        lemma_cost_sum_append(csp, csm + css);
        lemma_cost_sum_append(csm, css);
        Some((xi, yi, cost_sum(csp), b, cost_sum(css)))
    }
}

/// A head in the first fragment, a walk of the boundary multigraph and a tail
/// in the last fragment join into a walk of the graph.
pub proof fn lemma_route_sound(
    g: Graph,
    part: Seq<u32>,
    bl: Seq<int>,
    o: int,
    d: int,
    xi: int,
    yi: int,
    a: (int, int),
    b: (int, int),
    c: (int, int),
)
    requires
        frag_frontiers(g, part, bl),
        0 <= xi < bl.len(),
        0 <= yi < bl.len(),
        rel_costs(frag_rel(g, part, part[o] as int), o, bl[xi])(a),
        rel_costs(boundary_rel(g, part, bl), xi, yi)(b),
        rel_costs(frag_rel(g, part, part[d] as int), bl[yi], d)(c),
    ensures
        rel_costs(edge_rel(g), o, d)((a.0 + b.0 + c.0, a.1 + b.1 + c.1)),
{
    let e = edge_rel(g);
    let fo = part[o] as int;
    let fd = part[d] as int;
    assert forall|u: int, v: int, x: Cost| #[trigger] frag_rel(g, part, fo)(u, v, x) implies e(u, v, x) by {}
    assert forall|u: int, v: int, x: Cost| #[trigger] frag_rel(g, part, fd)(u, v, x) implies e(u, v, x) by {}
    lemma_rel_costs_mono(frag_rel(g, part, fo), e, o, bl[xi], a);
    lemma_rel_costs_mono(frag_rel(g, part, fd), e, bl[yi], d, c);
    let (ns, cs) = choose|ns: Seq<int>, cs: Seq<Cost>|
        #[trigger] rel_walk(boundary_rel(g, part, bl), ns, cs) && ns[0] == xi && ns.last() == yi && cost_sum(cs) == b;
    lemma_boundary_walk_sound(g, part, bl, ns, cs);
    lemma_rel_costs_concat(e, o, bl[xi], bl[yi], a, b);
    lemma_rel_costs_concat(e, o, bl[yi], d, (a.0 + b.0, a.1 + b.1), c);
}

} // verus!
