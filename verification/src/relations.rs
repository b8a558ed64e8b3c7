//! Walks over an arbitrary edge relation `(from, to, cost)`, with the laws
//! that let walks be cut, joined, turned around and renamed node by node.

use vstd::prelude::*;

use crate::cost::Cost;
use crate::label_setting::walk_costs;
use crate::pareto::{is_frontier_of, le_pair, pair_of};
use crate::walks::{is_walk, pair_add, targets_in_range, total_cost, walk_cost, CostGraph};

verus! {

/// Component-wise sum of a sequence of costs.
pub open spec fn cost_sum(cs: Seq<Cost>) -> (int, int)
    decreases cs.len(),
{
    if cs.len() == 0 {
        (0, 0)
    } else {
        pair_add(cost_sum(cs.drop_last()), cs.last())
    }
}

/// `ns` is a walk whose `i`-th step is the edge `(ns[i], ns[i + 1], cs[i])`
/// of the relation `e`.
pub open spec fn rel_walk(e: spec_fn(int, int, Cost) -> bool, ns: Seq<int>, cs: Seq<Cost>) -> bool {
    &&& ns.len() == cs.len() + 1
    &&& forall|i: int| 0 <= i < cs.len() ==> e(ns[i], ns[i + 1], #[trigger] cs[i])
}

/// Integer pairs that are costs of walks from `s` to `t` in the relation `e`.
pub open spec fn rel_costs(e: spec_fn(int, int, Cost) -> bool, s: int, t: int) -> spec_fn((int, int)) -> bool {
    |p: (int, int)|
        exists|ns: Seq<int>, cs: Seq<Cost>|
            #[trigger] rel_walk(e, ns, cs) && ns[0] == s && ns.last() == t && cost_sum(cs) == p
}

/// The relation with every edge turned around.
pub open spec fn flip(e: spec_fn(int, int, Cost) -> bool) -> spec_fn(int, int, Cost) -> bool {
    |u: int, v: int, c: Cost| e(v, u, c)
}

/// The cost of a concatenation is the sum of the costs.
pub proof fn lemma_cost_sum_append(a: Seq<Cost>, b: Seq<Cost>)
    ensures
        cost_sum(a + b) == (cost_sum(a).0 + cost_sum(b).0, cost_sum(a).1 + cost_sum(b).1),
    decreases b.len(),
{
    if b.len() == 0 {
        assert(a + b =~= a);
    } else {
        assert((a + b).drop_last() =~= a + b.drop_last());
        assert((a + b).last() == b.last());
        lemma_cost_sum_append(a, b.drop_last());
    }
}

/// A cost sequence of non-negative costs has a non-negative sum.
pub proof fn lemma_cost_sum_nonneg(cs: Seq<Cost>)
    requires
        forall|i: int| 0 <= i < cs.len() ==> 0 <= (#[trigger] cs[i]).c1 && 0 <= cs[i].c2,
    ensures
        0 <= cost_sum(cs).0,
        0 <= cost_sum(cs).1,
    decreases cs.len(),
{
    if cs.len() > 0 {
        let r = cs.drop_last();
        assert forall|i: int| 0 <= i < r.len() implies 0 <= (#[trigger] r[i]).c1 && 0 <= r[i].c2 by {
            assert(r[i] == cs[i]);
        }
        lemma_cost_sum_nonneg(r);
        assert(cs.last() == cs[cs.len() - 1]);
    }
}

/// The cost of a single-step sequence is that step's cost.
pub proof fn lemma_cost_sum_single(c: Cost)
    ensures
        cost_sum(seq![c]) == (c.c1 as int, c.c2 as int),
{
    assert(seq![c].drop_last() =~= Seq::<Cost>::empty());
    assert(cost_sum(Seq::<Cost>::empty()) == (0int, 0int));
}

/// Two walks that meet join into one walk whose cost is the sum.
pub proof fn lemma_rel_walk_append(
    e: spec_fn(int, int, Cost) -> bool,
    ns1: Seq<int>,
    cs1: Seq<Cost>,
    ns2: Seq<int>,
    cs2: Seq<Cost>,
)
    requires
        rel_walk(e, ns1, cs1),
        rel_walk(e, ns2, cs2),
        ns1.last() == ns2[0],
    ensures
        rel_walk(e, ns1 + ns2.drop_first(), cs1 + cs2),
        (ns1 + ns2.drop_first())[0] == ns1[0],
        (ns1 + ns2.drop_first()).last() == ns2.last(),
        cost_sum(cs1 + cs2) == (cost_sum(cs1).0 + cost_sum(cs2).0, cost_sum(cs1).1 + cost_sum(cs2).1),
{
    let ns = ns1 + ns2.drop_first();
    let cs = cs1 + cs2;
    let k = cs1.len() as int;
    assert forall|i: int| 0 <= i < cs.len() implies e(ns[i], ns[i + 1], #[trigger] cs[i]) by {
        if i < k {
            assert(cs[i] == cs1[i]);
            assert(ns[i] == ns1[i]);
            assert(ns[i + 1] == ns1[i + 1]);
        } else {
            let j = i - k;
            assert(cs[i] == cs2[j]);
            if j == 0 {
                assert(ns[i] == ns1[k]);
                assert(ns1[k] == ns1.last());
            } else {
                assert(ns[i] == ns2[j]);
            }
            assert(ns[i + 1] == ns2[j + 1]);
        }
    }
    if ns2.len() == 1 {
        assert(ns.last() == ns1.last());
    }
    lemma_cost_sum_append(cs1, cs2);
}

/// Walk costs add along a meeting point.
pub proof fn lemma_rel_costs_concat(
    e: spec_fn(int, int, Cost) -> bool,
    s: int,
    m: int,
    t: int,
    p: (int, int),
    q: (int, int),
)
    requires
        rel_costs(e, s, m)(p),
        rel_costs(e, m, t)(q),
    ensures
        rel_costs(e, s, t)((p.0 + q.0, p.1 + q.1)),
{
    let (ns1, cs1) = choose|ns: Seq<int>, cs: Seq<Cost>|
        #[trigger] rel_walk(e, ns, cs) && ns[0] == s && ns.last() == m && cost_sum(cs) == p;
    let (ns2, cs2) = choose|ns: Seq<int>, cs: Seq<Cost>|
        #[trigger] rel_walk(e, ns, cs) && ns[0] == m && ns.last() == t && cost_sum(cs) == q;
    lemma_rel_walk_append(e, ns1, cs1, ns2, cs2);
    assert(rel_walk(e, ns1 + ns2.drop_first(), cs1 + cs2));
}

/// One edge is a walk.
pub proof fn lemma_rel_costs_edge(e: spec_fn(int, int, Cost) -> bool, u: int, v: int, c: Cost)
    requires
        e(u, v, c),
    ensures
        rel_costs(e, u, v)((c.c1 as int, c.c2 as int)),
{
    let ns = seq![u, v];
    let cs = seq![c];
    lemma_cost_sum_single(c);
    assert(rel_walk(e, ns, cs));
}

/// The empty walk costs nothing.
pub proof fn lemma_rel_costs_refl(e: spec_fn(int, int, Cost) -> bool, s: int)
    ensures
        rel_costs(e, s, s)((0, 0)),
{
    let ns = seq![s];
    let cs = Seq::<Cost>::empty();
    assert(rel_walk(e, ns, cs));
}

/// Renaming nodes by `f` maps walks of `e1` to walks of `e2` when it maps
/// edges to edges.
pub proof fn lemma_rel_walk_map(
    e1: spec_fn(int, int, Cost) -> bool,
    e2: spec_fn(int, int, Cost) -> bool,
    f: spec_fn(int) -> int,
    ns: Seq<int>,
    cs: Seq<Cost>,
)
    requires
        rel_walk(e1, ns, cs),
        forall|i: int| 0 <= i < cs.len() ==> e2(f(ns[i]), f(ns[i + 1]), #[trigger] cs[i]),
    ensures
        rel_walk(e2, ns.map_values(f), cs),
        ns.map_values(f)[0] == f(ns[0]),
        ns.map_values(f).last() == f(ns.last()),
{
    let ms = ns.map_values(f);
    assert forall|i: int| 0 <= i < cs.len() implies e2(ms[i], ms[i + 1], #[trigger] cs[i]) by {
        assert(ms[i] == f(ns[i]));
        assert(ms[i + 1] == f(ns[i + 1]));
    }
}

/// Turning a walk around gives a walk of the turned-around relation with
/// the same cost.
pub proof fn lemma_rel_walk_flip(e: spec_fn(int, int, Cost) -> bool, ns: Seq<int>, cs: Seq<Cost>)
    requires
        rel_walk(e, ns, cs),
    ensures
        rel_costs(flip(e), ns.last(), ns[0])(cost_sum(cs)),
    decreases cs.len(),
{
    if cs.len() == 0 {
        lemma_rel_costs_refl(flip(e), ns[0]);
    } else {
        let ns2 = ns.drop_first();
        let cs2 = cs.drop_first();
        assert forall|i: int| 0 <= i < cs2.len() implies e(ns2[i], ns2[i + 1], #[trigger] cs2[i]) by {
            assert(cs2[i] == cs[i + 1]);
            assert(ns2[i] == ns[i + 1]);
            assert(ns2[i + 1] == ns[i + 2]);
        }
        lemma_rel_walk_flip(e, ns2, cs2);
        assert(e(ns[0], ns[1], cs[0]));
        assert(flip(e)(ns[1], ns[0], cs[0]));
        lemma_rel_costs_edge(flip(e), ns[1], ns[0], cs[0]);
        assert(ns2.last() == ns.last());
        assert(ns2[0] == ns[1]);
        lemma_rel_costs_concat(flip(e), ns.last(), ns[1], ns[0], cost_sum(cs2), (cs[0].c1 as int, cs[0].c2 as int));
        assert(cs =~= seq![cs[0]] + cs2);
        lemma_cost_sum_append(seq![cs[0]], cs2);
        lemma_cost_sum_single(cs[0]);
    }
}

/// Renaming nodes by `f` maps walk costs of `e1` to walk costs of `e2` when
/// it maps edges to edges.
pub proof fn lemma_rel_costs_map(
    e1: spec_fn(int, int, Cost) -> bool,
    e2: spec_fn(int, int, Cost) -> bool,
    f: spec_fn(int) -> int,
    s: int,
    t: int,
    p: (int, int),
)
    requires
        forall|a: int, b: int, c: Cost| #[trigger] e1(a, b, c) ==> e2(f(a), f(b), c),
        rel_costs(e1, s, t)(p),
    ensures
        rel_costs(e2, f(s), f(t))(p),
{
    let (ns, cs) = choose|ns: Seq<int>, cs: Seq<Cost>|
        #[trigger] rel_walk(e1, ns, cs) && ns[0] == s && ns.last() == t && cost_sum(cs) == p;
    assert forall|i: int| 0 <= i < cs.len() implies e2(f(ns[i]), f(ns[i + 1]), #[trigger] cs[i]) by {
        assert(e1(ns[i], ns[i + 1], cs[i]));
    }
    lemma_rel_walk_map(e1, e2, f, ns, cs);
    assert(rel_walk(e2, ns.map_values(f), cs));
}

/// Walks of a relation are walks of any larger relation.
pub proof fn lemma_rel_costs_mono(
    e1: spec_fn(int, int, Cost) -> bool,
    e2: spec_fn(int, int, Cost) -> bool,
    s: int,
    t: int,
    p: (int, int),
)
    requires
        forall|a: int, b: int, c: Cost| #[trigger] e1(a, b, c) ==> e2(a, b, c),
        rel_costs(e1, s, t)(p),
    ensures
        rel_costs(e2, s, t)(p),
{
    let f = |a: int| a;
    assert forall|a: int, b: int, c: Cost| #[trigger] e1(a, b, c) implies e2(f(a), f(b), c) by {}
    lemma_rel_costs_map(e1, e2, f, s, t, p);
}

/// Turning walks around: walk costs from `s` to `t` are the costs of the
/// turned-around relation from `t` to `s`.
pub proof fn lemma_rel_costs_flip(e: spec_fn(int, int, Cost) -> bool, s: int, t: int, p: (int, int))
    requires
        rel_costs(e, s, t)(p),
    ensures
        rel_costs(flip(e), t, s)(p),
{
    let (ns, cs) = choose|ns: Seq<int>, cs: Seq<Cost>|
        #[trigger] rel_walk(e, ns, cs) && ns[0] == s && ns.last() == t && cost_sum(cs) == p;
    lemma_rel_walk_flip(e, ns, cs);
}

/// Every edge of `e` has non-negative costs.
pub open spec fn rel_nonneg(e: spec_fn(int, int, Cost) -> bool) -> bool {
    forall|u: int, v: int, c: Cost| #[trigger] e(u, v, c) ==> 0 <= c.c1 && 0 <= c.c2
}

/// Every edge of `e` joins nodes in `0..n`.
pub open spec fn rel_nodes_below(e: spec_fn(int, int, Cost) -> bool, n: int) -> bool {
    forall|u: int, v: int, c: Cost| #[trigger] e(u, v, c) ==> 0 <= u < n && 0 <= v < n
}

/// The costs along a walk of a non-negative relation are non-negative.
proof fn lemma_walk_costs_nonneg(e: spec_fn(int, int, Cost) -> bool, ns: Seq<int>, cs: Seq<Cost>)
    requires
        rel_walk(e, ns, cs),
        rel_nonneg(e),
    ensures
        forall|i: int| 0 <= i < cs.len() ==> 0 <= (#[trigger] cs[i]).c1 && 0 <= cs[i].c2,
{
    assert forall|i: int| 0 <= i < cs.len() implies 0 <= (#[trigger] cs[i]).c1 && 0 <= cs[i].c2 by {
        assert(e(ns[i], ns[i + 1], cs[i]));
    }
}

/// Cutting out a loop: a walk of a non-negative relation can be shortened
/// to one without repeated nodes, with the same ends and no larger cost.
pub proof fn lemma_rel_walk_simple(e: spec_fn(int, int, Cost) -> bool, ns: Seq<int>, cs: Seq<Cost>) -> (r: (Seq<int>, Seq<Cost>))
    requires
        rel_walk(e, ns, cs),
        rel_nonneg(e),
    ensures
        rel_walk(e, r.0, r.1),
        r.0.no_duplicates(),
        r.0[0] == ns[0],
        r.0.last() == ns.last(),
        cost_sum(r.1).0 <= cost_sum(cs).0,
        cost_sum(r.1).1 <= cost_sum(cs).1,
    decreases ns.len(),
{
    if ns.no_duplicates() {
        (ns, cs)
    } else {
        let (i, j) = choose|i: int, j: int| 0 <= i < ns.len() && 0 <= j < ns.len() && i != j && ns[i] == ns[j];
        let (i, j) = if i < j { (i, j) } else { (j, i) };
        let ns2 = ns.take(i + 1) + ns.skip(j + 1);
        let cs2 = cs.take(i) + cs.skip(j);
        assert forall|x: int| 0 <= x < cs2.len() implies e(ns2[x], ns2[x + 1], #[trigger] cs2[x]) by {
            if x < i {
                assert(cs2[x] == cs[x]);
                assert(ns2[x] == ns[x]);
                assert(ns2[x + 1] == ns[x + 1]);
            } else {
                let y = x + (j - i);
                assert(cs2[x] == cs[y]);
                if x == i {
                    assert(ns2[x] == ns[i]);
                } else {
                    assert(ns2[x] == ns[y]);
                }
                assert(ns2[x + 1] == ns[y + 1]);
            }
        }
        assert(rel_walk(e, ns2, cs2));
        assert(ns2[0] == ns[0]);
        if j + 1 < ns.len() {
            assert(ns2.last() == ns.last());
        } else {
            assert(ns2.last() == ns[i]);
        }
        // cost of the cut part is non-negative
        lemma_walk_costs_nonneg(e, ns, cs);
        let mid = cs.subrange(i, j);
        assert forall|x: int| 0 <= x < mid.len() implies 0 <= (#[trigger] mid[x]).c1 && 0 <= mid[x].c2 by {
            assert(mid[x] == cs[i + x]);
        }
        lemma_cost_sum_nonneg(mid);
        assert(cs =~= cs.take(i) + (mid + cs.skip(j)));
        lemma_cost_sum_append(cs.take(i), mid + cs.skip(j));
        lemma_cost_sum_append(mid, cs.skip(j));
        lemma_cost_sum_append(cs.take(i), cs.skip(j));
        lemma_rel_walk_simple(e, ns2, cs2)
    }
}

/// A walk without repeated nodes in `0..n` has at most `n` nodes.
pub proof fn lemma_distinct_len(ns: Seq<int>, n: int)
    requires
        0 <= n,
        ns.no_duplicates(),
        forall|i: int| 0 <= i < ns.len() ==> 0 <= #[trigger] ns[i] < n,
    ensures
        ns.len() <= n,
{
    ns.unique_seq_to_set();
    assert(ns.to_set().subset_of(vstd::set_lib::set_int_range(0, n))) by {
        assert forall|x: int| ns.to_set().contains(x) implies vstd::set_lib::set_int_range(0, n).contains(x) by {
            let i = choose|i: int| 0 <= i < ns.len() && ns[i] == x;
            assert(0 <= ns[i] < n);
        }
    }
    vstd::set_lib::lemma_int_range(0, n);
    vstd::set_lib::lemma_len_subset(ns.to_set(), vstd::set_lib::set_int_range(0, n));
}

/// If `m * c <= k` for every edge cost `c`, then `m` times the cost of a walk
/// of `j` steps is at most `j * k`.
pub proof fn lemma_rel_walk_scaled(
    e: spec_fn(int, int, Cost) -> bool,
    ns: Seq<int>,
    cs: Seq<Cost>,
    m: int,
    k: int,
)
    requires
        rel_walk(e, ns, cs),
        0 <= m,
        forall|u: int, v: int, c: Cost|
            #[trigger] e(u, v, c) ==> 0 <= c.c1 && 0 <= c.c2 && m * c.c1 <= k && m * c.c2 <= k,
    ensures
        0 <= cost_sum(cs).0,
        0 <= cost_sum(cs).1,
        m * cost_sum(cs).0 <= cs.len() * k,
        m * cost_sum(cs).1 <= cs.len() * k,
    decreases cs.len(),
{
    if cs.len() > 0 {
        let r = cs.drop_last();
        let nr = ns.drop_last();
        assert forall|i: int| 0 <= i < r.len() implies e(nr[i], nr[i + 1], #[trigger] r[i]) by {
            assert(r[i] == cs[i]);
            assert(nr[i] == ns[i]);
            assert(nr[i + 1] == ns[i + 1]);
        }
        lemma_rel_walk_scaled(e, nr, r, m, k);
        let c = cs.last();
        assert(e(ns[cs.len() - 1], ns[cs.len() as int], cs[cs.len() - 1]));
        let a = cost_sum(r);
        assert(m * (a.0 + c.c1) == m * a.0 + m * c.c1) by (nonlinear_arith);
        assert(m * (a.1 + c.c2) == m * a.1 + m * c.c2) by (nonlinear_arith);
        assert(cs.len() * k == r.len() * k + k) by (nonlinear_arith)
            requires
                cs.len() == r.len() + 1,
        ;
    }
}

/// Members of the frontier of walk costs in a non-negative relation on the
/// nodes `0..n` are costs of walks without repeated nodes; so when
/// `m * c <= k` for every edge cost `c`, they satisfy `m * x <= (n - 1) * k`.
pub proof fn lemma_frontier_scaled(
    e: spec_fn(int, int, Cost) -> bool,
    s: int,
    t: int,
    r: Seq<Cost>,
    n: int,
    m: int,
    k: int,
)
    requires
        is_frontier_of(r, rel_costs(e, s, t)),
        0 <= s < n,
        0 <= m,
        0 <= k,
        rel_nodes_below(e, n),
        forall|u: int, v: int, c: Cost|
            #[trigger] e(u, v, c) ==> 0 <= c.c1 && 0 <= c.c2 && m * c.c1 <= k && m * c.c2 <= k,
    ensures
        forall|i: int|
            0 <= i < r.len() ==> 0 <= (#[trigger] r[i]).c1 && 0 <= r[i].c2 && m * r[i].c1 <= (n - 1) * k
                && m * r[i].c2 <= (n - 1) * k,
{
    let member = rel_costs(e, s, t);
    assert forall|i: int| 0 <= i < r.len() implies 0 <= (#[trigger] r[i]).c1 && 0 <= r[i].c2 && m
        * r[i].c1 <= (n - 1) * k && m * r[i].c2 <= (n - 1) * k by {
        assert(member(pair_of(r[i])));
        let (ns, cs) = choose|ns: Seq<int>, cs: Seq<Cost>|
            #[trigger] rel_walk(e, ns, cs) && ns[0] == s && ns.last() == t && cost_sum(cs) == pair_of(r[i]);
        let (ns2, cs2) = lemma_rel_walk_simple(e, ns, cs);
        let q = cost_sum(cs2);
        assert(rel_walk(e, ns2, cs2));
        assert(member(q));
        let j = choose|j: int| 0 <= j < r.len() && #[trigger] le_pair(r[j], q);
        if j < i {
            assert(r[j].c2 > r[i].c2);
        } else if j > i {
            assert(r[j].c1 > r[i].c1);
        }
        assert(q == pair_of(r[i]));
        assert forall|x: int| 0 <= x < ns2.len() implies 0 <= #[trigger] ns2[x] < n by {
            if x < cs2.len() {
                assert(e(ns2[x], ns2[x + 1], cs2[x]));
            } else if x > 0 {
                assert(e(ns2[x - 1], ns2[x], cs2[x - 1]));
            }
        }
        lemma_distinct_len(ns2, n);
        lemma_rel_walk_scaled(e, ns2, cs2, m, k);
        assert(cs2.len() * k <= (n - 1) * k) by (nonlinear_arith)
            requires
                cs2.len() <= n - 1,
                0 <= k,
        ;
    }
}

/// `u -> v` with cost `c` is an edge of the graph `g`.
pub open spec fn has_edge<G: CostGraph>(g: G, u: int, v: int, c: Cost) -> bool {
    &&& 0 <= u < g.node_count()
    &&& 0 <= v < g.node_count()
    &&& exists|k: int|
        0 <= k < g.out_edges(u).len() && (#[trigger] g.out_edges(u)[k]).0 as int == v && g.out_edges(u)[k].1
            == c
}

/// The edge relation of a graph.
pub open spec fn edge_rel<G: CostGraph>(g: G) -> spec_fn(int, int, Cost) -> bool {
    |u: int, v: int, c: Cost| has_edge(g, u, v, c)
}

proof fn lemma_cost_sum_walk_cost<G: CostGraph>(g: G, ns: Seq<int>, ks: Seq<int>, cs: Seq<Cost>, j: int)
    requires
        cs.len() == ks.len(),
        forall|i: int| 0 <= i < ks.len() ==> #[trigger] cs[i] == g.out_edges(ns[i])[ks[i]].1,
        0 <= j <= ks.len(),
    ensures
        cost_sum(cs.take(j)) == walk_cost(g, ns, ks, j),
    decreases j,
{
    if j > 0 {
        assert(cs.take(j).drop_last() =~= cs.take(j - 1));
        assert(cs.take(j).last() == cs[j - 1]);
        lemma_cost_sum_walk_cost(g, ns, ks, cs, j - 1);
    } else {
        assert(cs.take(j) =~= Seq::<Cost>::empty());
    }
}

/// Walk costs of a graph are the walk costs of its edge relation.
pub proof fn lemma_walk_costs_rel<G: CostGraph>(g: G, s: int, t: int, p: (int, int))
    requires
        targets_in_range(g),
        0 <= s < g.node_count(),
    ensures
        walk_costs(g, s, t)(p) <==> rel_costs(edge_rel(g), s, t)(p),
{
    let e = edge_rel(g);
    if walk_costs(g, s, t)(p) {
        let (ns, ks) = choose|ns: Seq<int>, ks: Seq<int>|
            {
                &&& #[trigger] is_walk(g, ns, ks)
                &&& ns[0] == s
                &&& ns.last() == t
                &&& total_cost(g, ns, ks) == p
            };
        let cs = Seq::new(ks.len(), |i: int| g.out_edges(ns[i])[ks[i]].1);
        assert forall|i: int| 0 <= i < cs.len() implies e(ns[i], ns[i + 1], #[trigger] cs[i]) by {
            assert(0 <= ks[i] < g.out_edges(ns[i]).len());
            assert(g.out_edges(ns[i])[ks[i]].0 as int == ns[i + 1]);
            assert(0 <= ns[i] < g.node_count());
            assert(0 <= ns[i + 1] < g.node_count());
        }
        lemma_cost_sum_walk_cost(g, ns, ks, cs, ks.len() as int);
        assert(cs.take(ks.len() as int) =~= cs);
        assert(rel_walk(e, ns, cs));
    }
    if rel_costs(e, s, t)(p) {
        let (ns, cs) = choose|ns: Seq<int>, cs: Seq<Cost>|
            #[trigger] rel_walk(e, ns, cs) && ns[0] == s && ns.last() == t && cost_sum(cs) == p;
        let ks = Seq::new(
            cs.len(),
            |i: int|
                choose|k: int|
                    0 <= k < g.out_edges(ns[i]).len() && (#[trigger] g.out_edges(ns[i])[k]).0 as int == ns[i
                        + 1] && g.out_edges(ns[i])[k].1 == cs[i],
        );
        assert forall|i: int| 0 <= i < ks.len() implies #[trigger] cs[i] == g.out_edges(ns[i])[ks[i]].1
            && 0 <= ks[i] < g.out_edges(ns[i]).len() && g.out_edges(ns[i])[ks[i]].0 as int == ns[i + 1] by {
            assert(e(ns[i], ns[i + 1], cs[i]));
        }
        assert forall|i: int| 0 <= i < ns.len() implies 0 <= #[trigger] ns[i] < g.node_count() by {
            if i < cs.len() {
                assert(e(ns[i], ns[i + 1], cs[i]));
            } else if i > 0 {
                assert(e(ns[i - 1], ns[i], cs[i - 1]));
            }
        }
        assert forall|i: int| 0 <= i < ks.len() implies {
            &&& 0 <= #[trigger] ks[i] < g.out_edges(ns[i]).len()
            &&& g.out_edges(ns[i])[ks[i]].0 as int == ns[i + 1]
        } by {
            assert(cs[i] == g.out_edges(ns[i])[ks[i]].1);
        }
        assert(is_walk(g, ns, ks));
        lemma_cost_sum_walk_cost(g, ns, ks, cs, ks.len() as int);
        assert(cs.take(ks.len() as int) =~= cs);
        assert(walk_costs(g, s, t)(p));
    }
}

} // verus!
