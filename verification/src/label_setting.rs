//! Bi-objective single-pair label-setting search (the BOA* /
//! Bi-Objective-Dijkstra family). Returns the complete Pareto frontier of
//! `(c1, c2)` costs from a source to a destination, each with a path.

use vstd::prelude::*;

use crate::cost::{lex_le, Cost};
use crate::graph::Graph;
use crate::walks::{
    costs_nonneg, is_walk, lemma_walk_cost_nonneg, lemma_walk_extend, lemma_walk_prefix, pair_add,
    targets_in_range, total_cost, walk_with_cost, walks_fit, CostGraph,
};
use crate::pareto::{is_frontier_of, le_pair, pair_of, strictly_sorted};

verus! {

/// A search label: the cost of a path from the source to `node`, and the
/// label it extends (`None` for the root label at the source).
pub(crate) struct Label {
    pub(crate) cost: Cost,
    pub(crate) node: usize,
    pub(crate) parent: Option<usize>,
}

/// Queue entry; the queue hands out the entry with the lexicographically
/// smallest `(c1, c2)` first.
#[derive(Clone, Copy)]
struct HeapItem {
    c1: i64,
    c2: i64,
    label: usize,
}

/// Node sequence of the path that label `i` stands for, found by following
/// parent links back to the root.
pub(crate) open spec fn chain(labels: Seq<Label>, i: int) -> Seq<int>
    decreases i,
{
    if 0 <= i < labels.len() {
        match labels[i].parent {
            Some(p) => if 0 <= p < i {
                chain(labels, p as int).push(labels[i].node as int)
            } else {
                seq![labels[i].node as int]
            },
            None => seq![labels[i].node as int],
        }
    } else {
        Seq::empty()
    }
}

/// Integer pairs that are costs of walks from `s` to `d`.
pub open spec fn walk_costs<G: CostGraph>(g: G, s: int, d: int) -> spec_fn((int, int)) -> bool {
    |p: (int, int)|
        exists|ns: Seq<int>, ks: Seq<int>|
            {
                &&& #[trigger] is_walk(g, ns, ks)
                &&& ns[0] == s
                &&& ns.last() == d
                &&& total_cost(g, ns, ks) == p
            }
}

// ---------------------------------------------------------------------------
// Search state predicates
// ---------------------------------------------------------------------------

/// Label `i` stands for a simple walk from `s` with exactly its cost; every
/// node strictly before its end was settled at a `c2` no larger than its own.
spec fn label_ok<G: CostGraph>(g: G, s: int, labels: Seq<Label>, ks: Seq<Seq<int>>, g2: Seq<i64>, i: int) -> bool {
    let l = labels[i];
    let ns = chain(labels, i);
    &&& l.node < g.node_count()
    &&& (l.node as int == s || l.node <= u32::MAX)
    &&& (i == 0 <==> l.parent is None)
    &&& (l.parent matches Some(p) ==> p < i)
    &&& is_walk(g, ns, ks[i])
    &&& ns[0] == s
    &&& ns.last() == l.node as int
    &&& total_cost(g, ns, ks[i]) == pair_of(l.cost)
    &&& ns.no_duplicates()
    &&& 0 <= l.cost.c1
    &&& 0 <= l.cost.c2 < i64::MAX
    &&& forall|j: int| 0 <= j < ns.len() - 1 ==> g2[#[trigger] ns[j]] <= l.cost.c2
}

spec fn labels_ok<G: CostGraph>(g: G, s: int, labels: Seq<Label>, ks: Seq<Seq<int>>, g2: Seq<i64>) -> bool {
    &&& labels.len() == ks.len()
    &&& labels.len() >= 1
    &&& labels[0].cost == Cost { c1: 0, c2: 0 }
    &&& forall|i: int| 0 <= i < labels.len() ==> #[trigger] label_ok(g, s, labels, ks, g2, i)
}

/// Settled labels never exceed the last extracted cost; `g2[u]` is the `c2`
/// of the settled label `best[u]` at `u` (or `i64::MAX` when none is).
spec fn settled_ok(
    n: int,
    labels: Seq<Label>,
    settled: Seq<bool>,
    g2: Seq<i64>,
    best: Seq<int>,
    last: Cost,
) -> bool {
    &&& settled.len() == labels.len()
    &&& g2.len() == n
    &&& best.len() == n
    &&& forall|i: int|
        0 <= i < labels.len() && #[trigger] settled[i] ==> lex_le(labels[i].cost, last)
            && g2[labels[i].node as int] <= labels[i].cost.c2
    &&& forall|u: int|
        0 <= u < n && #[trigger] g2[u] < i64::MAX ==> {
            &&& 0 <= best[u] < labels.len()
            &&& settled[best[u]]
            &&& labels[best[u]].node == u
            &&& labels[best[u]].cost.c2 == g2[u]
        }
    &&& forall|u: int| 0 <= u < n ==> #[trigger] g2[u] >= 0
}

/// Queue entries name distinct unsettled labels, carry their costs, and are
/// no smaller than the last extracted cost.
spec fn queue_ok(labels: Seq<Label>, settled: Seq<bool>, q: Seq<HeapItem>, last: Cost) -> bool {
    &&& forall|x: int|
        0 <= x < q.len() ==> {
            &&& (#[trigger] q[x]).label < labels.len()
            &&& !settled[q[x].label as int]
            &&& q[x].c1 == labels[q[x].label as int].cost.c1
            &&& q[x].c2 == labels[q[x].label as int].cost.c2
            &&& lex_le(last, labels[q[x].label as int].cost)
        }
    &&& forall|x: int, y: int| 0 <= x < y < q.len() ==> (#[trigger] q[x]).label != (#[trigger] q[y]).label
}

pub(crate) open spec fn sol_costs(labels: Seq<Label>, sols: Seq<usize>) -> Seq<Cost> {
    Seq::new(sols.len(), |t: int| labels[sols[t] as int].cost)
}

/// The solutions are exactly the settled labels at `d`, in settle order.
spec fn sols_ok(labels: Seq<Label>, settled: Seq<bool>, sols: Seq<usize>, g2: Seq<i64>, d: int) -> bool {
    &&& forall|t: int|
        0 <= t < sols.len() ==> {
            &&& (#[trigger] sols[t]) < labels.len()
            &&& settled[sols[t] as int]
            &&& labels[sols[t] as int].node == d
        }
    &&& strictly_sorted(sol_costs(labels, sols))
    &&& forall|j: int|
        0 <= j < labels.len() && #[trigger] settled[j] && labels[j].node == d ==> exists|t: int|
            0 <= t < sols.len() && #[trigger] sols[t] == j
    &&& d < g2.len() ==> g2[d] == if sols.len() == 0 {
        i64::MAX
    } else {
        labels[sols.last() as int].cost.c2
    }
}

/// Label `j` is settled at `v` with a cost no worse than `t`.
spec fn witness(labels: Seq<Label>, settled: Seq<bool>, j: int, v: int, t: (int, int)) -> bool {
    &&& 0 <= j < labels.len()
    &&& settled[j]
    &&& labels[j].node == v
    &&& le_pair(labels[j].cost, t)
}

/// Queue entry `x` is a label at `v` with a cost no worse than `t`.
spec fn pending(labels: Seq<Label>, q: Seq<HeapItem>, x: int, v: int, t: (int, int)) -> bool {
    &&& 0 <= x < q.len()
    &&& q[x].label < labels.len()
    &&& labels[q[x].label as int].node == v
    &&& le_pair(labels[q[x].label as int].cost, t)
}

/// A path cost `t` reaching `v` is accounted for: a settled label at `v` or at
/// `d`, or a queued label at `v`, is no worse.
spec fn covered(
    labels: Seq<Label>,
    settled: Seq<bool>,
    q: Seq<HeapItem>,
    d: int,
    v: int,
    t: (int, int),
) -> bool {
    ||| exists|j: int| #[trigger] witness(labels, settled, j, v, t)
    ||| exists|j: int| #[trigger] witness(labels, settled, j, d, t)
    ||| exists|x: int| #[trigger] pending(labels, q, x, v, t)
}

spec fn edge_covered<G: CostGraph>(
    g: G,
    labels: Seq<Label>,
    settled: Seq<bool>,
    q: Seq<HeapItem>,
    d: int,
    i: int,
    k: int,
) -> bool {
    let e = g.out_edges(labels[i].node as int)[k];
    covered(labels, settled, q, d, e.0 as int, pair_add(pair_of(labels[i].cost), e.1))
}

/// Every out-edge of every settled label not at `d` has been accounted for,
/// except edges `k >= upto` of label `skip` (the one being expanded).
spec fn expanded_ok<G: CostGraph>(
    g: G,
    labels: Seq<Label>,
    settled: Seq<bool>,
    q: Seq<HeapItem>,
    d: int,
    skip: int,
    upto: int,
) -> bool {
    forall|i: int, k: int|
        0 <= i < labels.len() && settled[i] && labels[i].node != d && 0 <= k < g.out_edges(
            labels[i].node as int,
        ).len() && (i != skip || k < upto) ==> #[trigger] edge_covered(
            g,
            labels,
            settled,
            q,
            d,
            i,
            k,
        )
}

// ---------------------------------------------------------------------------
// Lemmas on the state
// ---------------------------------------------------------------------------

proof fn lemma_chain_push(labels: Seq<Label>, x: Label, i: int)
    requires
        0 <= i < labels.len(),
    ensures
        chain(labels.push(x), i) == chain(labels, i),
    decreases i,
{
    let l2 = labels.push(x);
    assert(l2[i] == labels[i]);
    match labels[i].parent {
        Some(p) => {
            if 0 <= p < i {
                lemma_chain_push(labels, x, p as int);
            }
        },
        None => {},
    }
}

/// Covering survives appending a label and queueing it.
proof fn lemma_covered_push(
    labels: Seq<Label>,
    settled: Seq<bool>,
    q: Seq<HeapItem>,
    x: Label,
    item: HeapItem,
    d: int,
    v: int,
    t: (int, int),
)
    requires
        settled.len() == labels.len(),
        covered(labels, settled, q, d, v, t),
    ensures
        covered(labels.push(x), settled.push(false), q.push(item), d, v, t),
{
    let l2 = labels.push(x);
    let s2 = settled.push(false);
    let q2 = q.push(item);
    if exists|j: int| #[trigger] witness(labels, settled, j, v, t) {
        let j = choose|j: int| #[trigger] witness(labels, settled, j, v, t);
        assert(witness(l2, s2, j, v, t));
    } else if exists|j: int| #[trigger] witness(labels, settled, j, d, t) {
        let j = choose|j: int| #[trigger] witness(labels, settled, j, d, t);
        assert(witness(l2, s2, j, d, t));
    } else {
        let y = choose|y: int| #[trigger] pending(labels, q, y, v, t);
        assert(q2[y] == q[y]);
        assert(pending(l2, q2, y, v, t));
    }
}

/// Covering survives removing queue entry `r` and settling more labels,
/// provided the removed entry's cost is itself covered by a settled label.
proof fn lemma_covered_pop(
    labels: Seq<Label>,
    settled: Seq<bool>,
    settled2: Seq<bool>,
    q: Seq<HeapItem>,
    r: int,
    d: int,
    v: int,
    t: (int, int),
)
    requires
        settled.len() == labels.len(),
        settled2.len() == labels.len(),
        forall|j: int| 0 <= j < labels.len() && settled[j] ==> #[trigger] settled2[j],
        0 <= r < q.len(),
        q[r].label < labels.len(),
        ({
            let l = labels[q[r].label as int];
            (exists|j: int| #[trigger] witness(labels, settled2, j, l.node as int, pair_of(l.cost)))
                || (exists|j: int| #[trigger] witness(labels, settled2, j, d, pair_of(l.cost)))
        }),
        covered(labels, settled, q, d, v, t),
    ensures
        covered(labels, settled2, q.remove(r), d, v, t),
{
    let q2 = q.remove(r);
    if exists|j: int| #[trigger] witness(labels, settled, j, v, t) {
        let j = choose|j: int| #[trigger] witness(labels, settled, j, v, t);
        assert(witness(labels, settled2, j, v, t));
    } else if exists|j: int| #[trigger] witness(labels, settled, j, d, t) {
        let j = choose|j: int| #[trigger] witness(labels, settled, j, d, t);
        assert(witness(labels, settled2, j, d, t));
    } else {
        let y = choose|y: int| #[trigger] pending(labels, q, y, v, t);
        if y == r {
            let l = labels[q[r].label as int];
            if exists|j: int| #[trigger] witness(labels, settled2, j, l.node as int, pair_of(l.cost)) {
                let j = choose|j: int|
                    #[trigger] witness(labels, settled2, j, l.node as int, pair_of(l.cost));
                assert(witness(labels, settled2, j, v, t));
            } else {
                let j = choose|j: int| #[trigger] witness(labels, settled2, j, d, pair_of(l.cost));
                assert(witness(labels, settled2, j, d, t));
            }
        } else if y < r {
            assert(q2[y] == q[y]);
            assert(pending(labels, q2, y, v, t));
        } else {
            assert(q2[y - 1] == q[y]);
            assert(pending(labels, q2, y - 1, v, t));
        }
    }
}

proof fn lemma_witness_weaken(labels: Seq<Label>, settled: Seq<bool>, j: int, v: int, t1: (int, int), t2: (int, int))
    requires
        witness(labels, settled, j, v, t1),
        t1.0 <= t2.0,
        t1.1 <= t2.1,
    ensures
        witness(labels, settled, j, v, t2),
{
}

/// Once the queue is empty, every walk from `s` is accounted for by a settled
/// label at its end node or at `d`.
proof fn lemma_reach<G: CostGraph>(
    g: G,
    s: int,
    d: int,
    labels: Seq<Label>,
    ks: Seq<Seq<int>>,
    g2: Seq<i64>,
    settled: Seq<bool>,
    q: Seq<HeapItem>,
    ns: Seq<int>,
    wks: Seq<int>,
)
    requires
        costs_nonneg(g),
        labels_ok(g, s, labels, ks, g2),
        settled.len() == labels.len(),
        q.len() == 0,
        expanded_ok(g, labels, settled, q, d, -1, 0),
        covered(labels, settled, q, d, s, (0, 0)),
        is_walk(g, ns, wks),
        ns[0] == s,
    ensures
        (exists|j: int| #[trigger] witness(labels, settled, j, ns.last(), total_cost(g, ns, wks)))
            || (exists|j: int| #[trigger] witness(labels, settled, j, d, total_cost(g, ns, wks))),
    decreases wks.len(),
{
    let total = total_cost(g, ns, wks);
    if wks.len() == 0 {
        assert(total == (0int, 0int));
        assert(ns.last() == s);
        assert(!exists|x: int| #[trigger] pending(labels, q, x, s, (0, 0)));
        if exists|j: int| #[trigger] witness(labels, settled, j, s, (0, 0)) {
            let j = choose|j: int| #[trigger] witness(labels, settled, j, s, (0, 0));
            assert(witness(labels, settled, j, ns.last(), total));
        } else {
            let j = choose|j: int| #[trigger] witness(labels, settled, j, d, (0, 0));
            assert(witness(labels, settled, j, d, total));
        }
    } else {
        let m = wks.len() as int;
        let pns = ns.take(m);
        let pks = wks.take(m - 1);
        lemma_walk_prefix(g, ns, wks, m - 1);
        lemma_reach(g, s, d, labels, ks, g2, settled, q, pns, pks);
        let ptot = total_cost(g, pns, pks);
        let w = ns[m - 1];
        let k = wks[m - 1];
        assert(pns.last() == w);
        assert(0 <= w < g.node_count());
        let e = g.out_edges(w)[k];
        assert(0 <= e.1.c1 && 0 <= e.1.c2);
        assert(total == pair_add(ptot, e.1));
        assert(e.0 as int == ns.last());
        if exists|j: int| #[trigger] witness(labels, settled, j, w, ptot) {
            let j = choose|j: int| #[trigger] witness(labels, settled, j, w, ptot);
            if w == d {
                lemma_witness_weaken(labels, settled, j, d, ptot, total);
            } else {
                assert(edge_covered(g, labels, settled, q, d, j, k));
                let t = pair_add(pair_of(labels[j].cost), e.1);
                assert(!exists|x: int| #[trigger] pending(labels, q, x, e.0 as int, t));
                if exists|j2: int| #[trigger] witness(labels, settled, j2, e.0 as int, t) {
                    let j2 = choose|j2: int| #[trigger] witness(labels, settled, j2, e.0 as int, t);
                    lemma_witness_weaken(labels, settled, j2, ns.last(), t, total);
                } else {
                    let j2 = choose|j2: int| #[trigger] witness(labels, settled, j2, d, t);
                    lemma_witness_weaken(labels, settled, j2, d, t, total);
                }
            }
        } else {
            let j = choose|j: int| #[trigger] witness(labels, settled, j, d, ptot);
            lemma_witness_weaken(labels, settled, j, d, ptot, total);
        }
    }
}

spec fn state_ok<G: CostGraph>(
    g: G,
    s: int,
    d: int,
    labels: Seq<Label>,
    ks: Seq<Seq<int>>,
    g2: Seq<i64>,
    settled: Seq<bool>,
    best: Seq<int>,
    q: Seq<HeapItem>,
    sols: Seq<usize>,
    last: Cost,
) -> bool {
    &&& 0 <= s < g.node_count()
    &&& 0 <= d <= g.node_count()
    &&& labels_ok(g, s, labels, ks, g2)
    &&& settled_ok(g.node_count() as int, labels, settled, g2, best, last)
    &&& queue_ok(labels, settled, q, last)
    &&& sols_ok(labels, settled, sols, g2, d)
    &&& covered(labels, settled, q, d, s, (0, 0))
    &&& 0 <= last.c1
    &&& 0 <= last.c2
}

proof fn lemma_queue_remove(labels: Seq<Label>, settled: Seq<bool>, q: Seq<HeapItem>, last: Cost, r: int)
    requires
        queue_ok(labels, settled, q, last),
        0 <= r < q.len(),
    ensures
        queue_ok(labels, settled, q.remove(r), last),
{
    let q2 = q.remove(r);
    assert forall|x: int| 0 <= x < q2.len() implies #[trigger] q2[x] == q[if x < r { x } else { x + 1 }] by {}
    assert forall|x: int, y: int| 0 <= x < y < q2.len() implies (#[trigger] q2[x]).label != (
    #[trigger] q2[y]).label by {
        let x1 = if x < r { x } else { x + 1 };
        let y1 = if y < r { y } else { y + 1 };
        assert(q2[x] == q[x1] && q2[y] == q[y1]);
    }
}

/// Extracting an entry that is pruned keeps every invariant.
proof fn lemma_pop_prune<G: CostGraph>(
    g: G,
    s: int,
    d: int,
    labels: Seq<Label>,
    ks: Seq<Seq<int>>,
    g2: Seq<i64>,
    settled: Seq<bool>,
    best: Seq<int>,
    q: Seq<HeapItem>,
    sols: Seq<usize>,
    last: Cost,
    r: int,
    alt: int,
)
    requires
        state_ok(g, s, d, labels, ks, g2, settled, best, q, sols, last),
        expanded_ok(g, labels, settled, q, d, -1, 0),
        0 <= r < q.len(),
        0 <= alt < g.node_count(),
        ({
            let l = labels[q[r].label as int];
            (alt == l.node as int || alt == d) && l.cost.c2 >= g2[alt]
        }),
    ensures
        state_ok(g, s, d, labels, ks, g2, settled, best, q.remove(r), sols, last),
        expanded_ok(g, labels, settled, q.remove(r), d, -1, 0),
{
    let li = q[r].label as int;
    let l = labels[li];
    assert(q[r].label < labels.len());
    assert(label_ok(g, s, labels, ks, g2, li));
    let b = best[alt];
    assert(g2[alt] < i64::MAX);
    assert(settled[b]);
    assert(lex_le(labels[b].cost, last));
    assert(witness(labels, settled, b, alt, pair_of(l.cost)));
    lemma_covered_pop(labels, settled, settled, q, r, d, s, (0, 0));
    lemma_queue_remove(labels, settled, q, last, r);
    assert forall|i: int, k: int|
        0 <= i < labels.len() && settled[i] && labels[i].node != d && 0 <= k < g.out_edges(
            labels[i].node as int,
        ).len() && (i != -1 || k < 0) implies #[trigger] edge_covered(
        g,
        labels,
        settled,
        q.remove(r),
        d,
        i,
        k,
    ) by {
        assert(edge_covered(g, labels, settled, q, d, i, k));
        let e = g.out_edges(labels[i].node as int)[k];
        lemma_covered_pop(
            labels,
            settled,
            settled,
            q,
            r,
            d,
            e.0 as int,
            pair_add(pair_of(labels[i].cost), e.1),
        );
    }
}

/// Extracting the minimal entry and settling its label keeps every invariant;
/// only the new label's own out-edges remain to be accounted for.
proof fn lemma_pop_settle<G: CostGraph>(
    g: G,
    s: int,
    d: int,
    labels: Seq<Label>,
    ks: Seq<Seq<int>>,
    g2: Seq<i64>,
    settled: Seq<bool>,
    best: Seq<int>,
    q: Seq<HeapItem>,
    sols: Seq<usize>,
    last: Cost,
    r: int,
)
    requires
        state_ok(g, s, d, labels, ks, g2, settled, best, q, sols, last),
        expanded_ok(g, labels, settled, q, d, -1, 0),
        0 <= r < q.len(),
        forall|j: int| 0 <= j < q.len() ==> item_le(q[r], #[trigger] q[j]),
        labels[q[r].label as int].cost.c2 < g2[labels[q[r].label as int].node as int],
    ensures
        ({
            let li = q[r].label;
            let l = labels[li as int];
            let u = l.node as int;
            let settled2 = settled.update(li as int, true);
            let g2b = g2.update(u, l.cost.c2);
            let best2 = best.update(u, li as int);
            let sols2 = if u == d {
                sols.push(li)
            } else {
                sols
            };
            &&& state_ok(g, s, d, labels, ks, g2b, settled2, best2, q.remove(r), sols2, l.cost)
            &&& expanded_ok(g, labels, settled2, q.remove(r), d, li as int, 0)
        }),
{
    let li = q[r].label as int;
    let l = labels[li];
    let c = l.cost;
    let u = l.node as int;
    let n = g.node_count() as int;
    let settled2 = settled.update(li, true);
    let g2b = g2.update(u, c.c2);
    let best2 = best.update(u, li);
    let sols2 = if u == d {
        sols.push(li as usize)
    } else {
        sols
    };
    let q2 = q.remove(r);
    assert(q[r].label < labels.len());
    assert(label_ok(g, s, labels, ks, g2, li));
    assert(!settled[li]);
    assert(lex_le(last, c));
    // labels_ok survives lowering g2[u]
    assert forall|i: int| 0 <= i < labels.len() implies #[trigger] label_ok(g, s, labels, ks, g2b, i) by {
        assert(label_ok(g, s, labels, ks, g2, i));
        let ns = chain(labels, i);
        assert forall|j: int| 0 <= j < ns.len() - 1 implies g2b[#[trigger] ns[j]] <= labels[i].cost.c2 by {
            assert(g2[ns[j]] <= labels[i].cost.c2);
        }
    }
    // settled_ok
    assert forall|i: int| 0 <= i < labels.len() && #[trigger] settled2[i] implies lex_le(labels[i].cost, c)
        && g2b[labels[i].node as int] <= labels[i].cost.c2 by {
        assert(label_ok(g, s, labels, ks, g2, i));
        if i != li {
            assert(settled[i]);
            assert(lex_le(labels[i].cost, last));
            assert(g2[labels[i].node as int] <= labels[i].cost.c2);
            if labels[i].node as int == u {
                assert(g2b[u] == c.c2);
            } else {
                assert(g2b[labels[i].node as int] == g2[labels[i].node as int]);
            }
        } else {
            assert(g2b[u] == c.c2);
        }
    }
    assert forall|w: int| 0 <= w < n && #[trigger] g2b[w] < i64::MAX implies {
        &&& 0 <= best2[w] < labels.len()
        &&& settled2[best2[w]]
        &&& labels[best2[w]].node == w
        &&& labels[best2[w]].cost.c2 == g2b[w]
    } by {
        if w != u {
            assert(g2[w] < i64::MAX);
        }
    }
    assert forall|w: int| 0 <= w < n implies #[trigger] g2b[w] >= 0 by {
        assert(g2[w] >= 0);
    }
    assert(settled_ok(n, labels, settled2, g2b, best2, c));
    // queue_ok
    lemma_queue_remove(labels, settled, q, last, r);
    assert forall|x: int| 0 <= x < q2.len() implies {
        &&& (#[trigger] q2[x]).label < labels.len()
        &&& !settled2[q2[x].label as int]
        &&& q2[x].c1 == labels[q2[x].label as int].cost.c1
        &&& q2[x].c2 == labels[q2[x].label as int].cost.c2
        &&& lex_le(c, labels[q2[x].label as int].cost)
    } by {
        let x1 = if x < r {
            x
        } else {
            x + 1
        };
        assert(q2[x] == q[x1]);
        assert(item_le(q[r], q[x1]));
        if x1 < r {
            assert(q[x1].label != q[r].label);
        } else {
            assert(q[r].label != q[x1].label);
        }
    }
    assert(queue_ok(labels, settled2, q2, c));
    // sols_ok
    if u == d {
        let sc = sol_costs(labels, sols);
        let sc2 = sol_costs(labels, sols2);
        if sols.len() > 0 {
            let lt = sols.last() as int;
            assert(sols[sols.len() - 1] == lt);
            assert(settled[lt]);
            assert(lex_le(labels[lt].cost, last));
        }
        assert forall|a: int, b: int| 0 <= a < b < sc2.len() implies (#[trigger] sc2[a]).c1 < (
        #[trigger] sc2[b]).c1 && sc2[a].c2 > sc2[b].c2 by {
            assert(sc2[a] == sc[a]);
            if b < sc.len() {
                assert(sc2[b] == sc[b]);
            } else {
                let lt = sols.last() as int;
                assert(sc[sols.len() - 1] == labels[lt].cost);
                if a < sc.len() - 1 {
                    assert(sc[a].c1 < sc[sols.len() - 1].c1);
                }
            }
        }
        assert forall|j: int|
            0 <= j < labels.len() && #[trigger] settled2[j] && labels[j].node == d implies exists|t: int|
            0 <= t < sols2.len() && #[trigger] sols2[t] == j by {
            if j == li {
                assert(sols2[sols.len() as int] == j);
            } else {
                assert(settled[j]);
                let t = choose|t: int| 0 <= t < sols.len() && #[trigger] sols[t] == j;
                assert(sols2[t] == j);
            }
        }
        assert forall|t: int| 0 <= t < sols2.len() implies {
            &&& (#[trigger] sols2[t]) < labels.len()
            &&& settled2[sols2[t] as int]
            &&& labels[sols2[t] as int].node == d
        } by {
            if t < sols.len() {
                assert(sols2[t] == sols[t]);
            }
        }
        assert(sols_ok(labels, settled2, sols2, g2b, d));
    } else {
        assert forall|j: int|
            0 <= j < labels.len() && #[trigger] settled2[j] && labels[j].node == d implies exists|t: int|
            0 <= t < sols2.len() && #[trigger] sols2[t] == j by {
            assert(settled[j]);
        }
        assert(sols_ok(labels, settled2, sols2, g2b, d));
    }
    // covering
    assert(witness(labels, settled2, li, u, pair_of(c)));
    assert forall|j: int| 0 <= j < labels.len() && settled[j] implies #[trigger] settled2[j] by {}
    lemma_covered_pop(labels, settled, settled2, q, r, d, s, (0, 0));
    assert forall|i: int, k: int|
        0 <= i < labels.len() && settled2[i] && labels[i].node != d && 0 <= k < g.out_edges(
            labels[i].node as int,
        ).len() && (i != li || k < 0) implies #[trigger] edge_covered(
        g,
        labels,
        settled2,
        q2,
        d,
        i,
        k,
    ) by {
        assert(settled[i]);
        assert(edge_covered(g, labels, settled, q, d, i, k));
        let e = g.out_edges(labels[i].node as int)[k];
        lemma_covered_pop(
            labels,
            settled,
            settled2,
            q,
            r,
            d,
            e.0 as int,
            pair_add(pair_of(labels[i].cost), e.1),
        );
    }
}

/// No label has a parent at `d`: labels at the destination are never
/// extended.
spec fn parents_ok(labels: Seq<Label>, d: int) -> bool {
    forall|i: int|
        0 <= i < labels.len() ==> match (#[trigger] labels[i]).parent {
            Some(p) => 0 <= p < i ==> labels[p as int].node != d,
            None => true,
        }
}

/// The path of a label that is not at `d` does not pass through `d`.
proof fn lemma_chain_avoids(labels: Seq<Label>, d: int, i: int)
    requires
        parents_ok(labels, d),
        0 <= i < labels.len(),
        labels[i].node != d,
    ensures
        !chain(labels, i).contains(d),
    decreases i,
{
    let ns = chain(labels, i);
    match labels[i].parent {
        Some(p) => {
            if 0 <= p < i {
                lemma_chain_avoids(labels, d, p as int);
                let pre = chain(labels, p as int);
                assert(ns == pre.push(labels[i].node as int));
                assert forall|j: int| 0 <= j < ns.len() implies ns[j] != d by {
                    if j < pre.len() {
                        assert(ns[j] == pre[j]);
                        assert(pre.contains(pre[j]));
                    }
                }
            } else {
                assert(ns == seq![labels[i].node as int]);
            }
        },
        None => {
            assert(ns == seq![labels[i].node as int]);
        },
    }
}

/// Extending label `li` (not at `d`) along its out-edge `k` cannot overflow,
/// and the new end node either is already on the label's path (then it has
/// been settled at no larger `c2`) or makes a longer simple path whose `c2`
/// stays below `i64::MAX`.
proof fn lemma_edge_fits<G: CostGraph>(
    g: G,
    s: int,
    d: int,
    labels: Seq<Label>,
    ks: Seq<Seq<int>>,
    g2: Seq<i64>,
    li: int,
    k: int,
)
    requires
        walks_fit(g, s, d),
        targets_in_range(g),
        labels_ok(g, s, labels, ks, g2),
        parents_ok(labels, d),
        0 <= li < labels.len(),
        labels[li].node != d,
        0 <= k < g.out_edges(labels[li].node as int).len(),
        g2[labels[li].node as int] <= labels[li].cost.c2,
    ensures
        ({
            let c = labels[li].cost;
            let e = g.out_edges(labels[li].node as int)[k];
            let ns = chain(labels, li);
            &&& crate::cost::sum_fits(c, e.1)
            &&& 0 <= e.1.c1 && 0 <= e.1.c2
            &&& (e.0 as int) < g.node_count()
            &&& ns.contains(e.0 as int) ==> g2[e.0 as int] <= c.c2
            &&& !ns.contains(e.0 as int) ==> c.c2 + e.1.c2 < i64::MAX
        }),
{
    let l = labels[li];
    let c = l.cost;
    let u = l.node as int;
    let e = g.out_edges(u)[k];
    let v = e.0 as int;
    let ns = chain(labels, li);
    let wks = ks[li];
    assert(label_ok(g, s, labels, ks, g2, li));
    assert(0 <= u < g.node_count());
    assert(v < g.node_count());
    lemma_chain_avoids(labels, d, li);
    assert(ns.last() == u);
    assert(is_walk(g, ns, wks) && g.out_edges(ns.last())[k] == e);
    assert(0 <= e.1.c1 && 0 <= e.1.c2);
    if ns.contains(v) {
        let j = choose|j: int| 0 <= j < ns.len() && ns[j] == v;
        if j < ns.len() - 1 {
            assert(g2[ns[j]] <= c.c2);
        } else {
            assert(ns[j] == ns.last());
        }
    }
}

/// An out-edge whose cost is already matched by a settled label at `alt`
/// (its end node or `d`) is accounted for.
proof fn lemma_edge_skip<G: CostGraph>(
    g: G,
    s: int,
    d: int,
    labels: Seq<Label>,
    ks: Seq<Seq<int>>,
    g2: Seq<i64>,
    settled: Seq<bool>,
    best: Seq<int>,
    q: Seq<HeapItem>,
    sols: Seq<usize>,
    li: int,
    k: int,
    alt: int,
)
    requires
        state_ok(g, s, d, labels, ks, g2, settled, best, q, sols, labels[li].cost),
        expanded_ok(g, labels, settled, q, d, li, k),
        0 <= li < labels.len(),
        0 <= k < g.out_edges(labels[li].node as int).len(),
        ({
            let e = g.out_edges(labels[li].node as int)[k];
            let t = pair_add(pair_of(labels[li].cost), e.1);
            &&& 0 <= e.1.c1
            &&& (alt == e.0 as int || alt == d)
            &&& 0 <= alt < g.node_count()
            &&& g2[alt] < i64::MAX
            &&& g2[alt] <= t.1
        }),
    ensures
        expanded_ok(g, labels, settled, q, d, li, k + 1),
{
    let c = labels[li].cost;
    let e = g.out_edges(labels[li].node as int)[k];
    let t = pair_add(pair_of(c), e.1);
    let b = best[alt];
    assert(settled[b]);
    assert(lex_le(labels[b].cost, c));
    assert(witness(labels, settled, b, alt, t));
    assert(edge_covered(g, labels, settled, q, d, li, k));
}

/// Queueing the extension of label `li` along out-edge `k` keeps every
/// invariant and accounts for that edge.
proof fn lemma_edge_push<G: CostGraph>(
    g: G,
    s: int,
    d: int,
    labels: Seq<Label>,
    ks: Seq<Seq<int>>,
    g2: Seq<i64>,
    settled: Seq<bool>,
    best: Seq<int>,
    q: Seq<HeapItem>,
    sols: Seq<usize>,
    li: int,
    k: int,
    x: Label,
    item: HeapItem,
)
    requires
        targets_in_range(g),
        state_ok(g, s, d, labels, ks, g2, settled, best, q, sols, labels[li].cost),
        expanded_ok(g, labels, settled, q, d, li, k),
        0 <= li < labels.len(),
        labels.len() < usize::MAX,
        g2[labels[li].node as int] == labels[li].cost.c2,
        0 <= k < g.out_edges(labels[li].node as int).len(),
        ({
            let c = labels[li].cost;
            let e = g.out_edges(labels[li].node as int)[k];
            &&& crate::cost::sum_fits(c, e.1)
            &&& 0 <= e.1.c1 && 0 <= e.1.c2
            &&& c.c2 + e.1.c2 < g2[e.0 as int]
            &&& !chain(labels, li).contains(e.0 as int)
            &&& c.c2 + e.1.c2 < i64::MAX
            &&& x == Label { cost: crate::cost::spec_sum(c, e.1), node: e.0 as usize, parent: Some(li as usize) }
            &&& item == HeapItem { c1: x.cost.c1, c2: x.cost.c2, label: labels.len() as usize }
        }),
    ensures
        state_ok(
            g,
            s,
            d,
            labels.push(x),
            ks.push(ks[li].push(k)),
            g2,
            settled.push(false),
            best,
            q.push(item),
            sols,
            labels[li].cost,
        ),
        expanded_ok(g, labels.push(x), settled.push(false), q.push(item), d, li, k + 1),
{
    let c = labels[li].cost;
    let u = labels[li].node as int;
    let e = g.out_edges(u)[k];
    let v = e.0 as int;
    let t = x.cost;
    let n = g.node_count() as int;
    let l2 = labels.push(x);
    let ks2 = ks.push(ks[li].push(k));
    let s2 = settled.push(false);
    let q2 = q.push(item);
    let idx = labels.len() as int;
    assert(label_ok(g, s, labels, ks, g2, li));
    assert(0 <= u < n);
    assert((e.0 as int) < n);
    // labels_ok
    assert forall|i: int| 0 <= i < l2.len() implies #[trigger] label_ok(g, s, l2, ks2, g2, i) by {
        if i < idx {
            lemma_chain_push(labels, x, i);
            assert(label_ok(g, s, labels, ks, g2, i));
            assert(l2[i] == labels[i]);
            assert(ks2[i] == ks[i]);
        } else {
            lemma_chain_push(labels, x, li);
            let ns = chain(labels, li);
            assert(i == idx);
            assert(l2[idx] == x);
            assert(x.node as int == v);
            assert(chain(l2, idx) == chain(l2, li).push(x.node as int));
            assert(chain(l2, i) == ns.push(v));
            assert(ns.last() == u);
            lemma_walk_extend(g, ns, ks[li], k);
            let ns2 = ns.push(v);
            assert(ns2.no_duplicates()) by {
                assert forall|a: int, b: int| 0 <= a < ns2.len() && 0 <= b < ns2.len() && a != b implies ns2[a]
                    != ns2[b] by {
                    if a < ns.len() && b < ns.len() {
                        assert(ns2[a] == ns[a] && ns2[b] == ns[b]);
                    } else if a < ns.len() {
                        assert(ns2[a] == ns[a]);
                        assert(ns.contains(ns[a]));
                    } else if b < ns.len() {
                        assert(ns2[b] == ns[b]);
                        assert(ns.contains(ns[b]));
                    }
                }
            }
            assert forall|j: int| 0 <= j < ns2.len() - 1 implies g2[#[trigger] ns2[j]] <= t.c2 by {
                assert(ns2[j] == ns[j]);
                if j < ns.len() - 1 {
                    assert(g2[ns[j]] <= c.c2);
                }
            }
            assert(g.node_count() > (e.0 as int));
            assert(e.0 <= u32::MAX);
        }
    }
    // settled_ok
    assert forall|i: int| 0 <= i < l2.len() && #[trigger] s2[i] implies lex_le(l2[i].cost, c)
        && g2[l2[i].node as int] <= l2[i].cost.c2 by {
        assert(i < idx);
        assert(settled[i]);
    }
    assert forall|w: int| 0 <= w < n && #[trigger] g2[w] < i64::MAX implies {
        &&& 0 <= best[w] < l2.len()
        &&& s2[best[w]]
        &&& l2[best[w]].node == w
        &&& l2[best[w]].cost.c2 == g2[w]
    } by {
        assert(settled[best[w]]);
    }
    // queue_ok
    assert forall|y: int| 0 <= y < q2.len() implies {
        &&& (#[trigger] q2[y]).label < l2.len()
        &&& !s2[q2[y].label as int]
        &&& q2[y].c1 == l2[q2[y].label as int].cost.c1
        &&& q2[y].c2 == l2[q2[y].label as int].cost.c2
        &&& lex_le(c, l2[q2[y].label as int].cost)
    } by {
        if y < q.len() {
            assert(q2[y] == q[y]);
        } else {
            assert(q2[y] == item);
            assert(l2[idx] == x);
            assert(t.c1 >= c.c1 && t.c2 >= c.c2);
        }
    }
    assert forall|a: int, b: int| 0 <= a < b < q2.len() implies (#[trigger] q2[a]).label != (
    #[trigger] q2[b]).label by {
        assert(q2[a] == q[a]);
        if b < q.len() {
            assert(q2[b] == q[b]);
        }
    }
    // sols_ok
    assert forall|tt: int| 0 <= tt < sols.len() implies {
        &&& (#[trigger] sols[tt]) < l2.len()
        &&& s2[sols[tt] as int]
        &&& l2[sols[tt] as int].node == d
    } by {}
    assert(sol_costs(l2, sols) =~= sol_costs(labels, sols));
    assert forall|j: int|
        0 <= j < l2.len() && #[trigger] s2[j] && l2[j].node == d implies exists|tt: int|
        0 <= tt < sols.len() && #[trigger] sols[tt] == j by {
        assert(settled[j]);
    }
    // covering
    lemma_covered_push(labels, settled, q, x, item, d, s, (0, 0));
    assert forall|i: int, kk: int|
        0 <= i < l2.len() && s2[i] && l2[i].node != d && 0 <= kk < g.out_edges(l2[i].node as int).len()
            && (i != li || kk < k + 1) implies #[trigger] edge_covered(g, l2, s2, q2, d, i, kk) by {
        assert(i < idx);
        assert(l2[i] == labels[i]);
        if i == li && kk == k {
            assert(q2[q.len() as int] == item);
            assert(pending(l2, q2, q.len() as int, v, pair_add(pair_of(c), e.1)));
        } else {
            assert(edge_covered(g, labels, settled, q, d, i, kk));
            let ee = g.out_edges(labels[i].node as int)[kk];
            lemma_covered_push(
                labels,
                settled,
                q,
                x,
                item,
                d,
                ee.0 as int,
                pair_add(pair_of(labels[i].cost), ee.1),
            );
        }
    }
}

spec fn seq_sum(s: Seq<i64>) -> int
    decreases s.len(),
{
    if s.len() == 0 {
        0
    } else {
        seq_sum(s.drop_last()) + s.last()
    }
}

proof fn lemma_sum_update(s: Seq<i64>, i: int, x: i64)
    requires
        0 <= i < s.len(),
    ensures
        seq_sum(s.update(i, x)) == seq_sum(s) - s[i] + x,
    decreases s.len(),
{
    let s2 = s.update(i, x);
    if i < s.len() - 1 {
        assert(s2.drop_last() =~= s.drop_last().update(i, x));
        lemma_sum_update(s.drop_last(), i, x);
    } else {
        assert(s2.drop_last() =~= s.drop_last());
    }
}

proof fn lemma_sum_nonneg(s: Seq<i64>)
    requires
        forall|i: int| 0 <= i < s.len() ==> #[trigger] s[i] >= 0,
    ensures
        seq_sum(s) >= 0,
    decreases s.len(),
{
    if s.len() > 0 {
        let r = s.drop_last();
        assert forall|i: int| 0 <= i < r.len() implies #[trigger] r[i] >= 0 by {
            assert(r[i] == s[i]);
        }
        lemma_sum_nonneg(r);
    }
}

proof fn lemma_measure_drop(q0: int, q1: int, m: int, s0: int, s1: int)
    requires
        0 <= m,
        q1 <= q0 - 1 + m,
        s1 <= s0 - 1,
    ensures
        q1 + (m + 1) * s1 < q0 + (m + 1) * s0,
{
    assert((m + 1) * s1 <= (m + 1) * (s0 - 1)) by (nonlinear_arith)
        requires
            0 <= m,
            s1 <= s0 - 1,
    ;
    assert((m + 1) * (s0 - 1) == (m + 1) * s0 - m - 1) by (nonlinear_arith);
}

/// When the queue is exhausted, the solutions' costs are the Pareto frontier
/// of all walk costs from `s` to `d`.
proof fn lemma_final<G: CostGraph>(
    g: G,
    s: int,
    d: int,
    labels: Seq<Label>,
    ks: Seq<Seq<int>>,
    g2: Seq<i64>,
    settled: Seq<bool>,
    best: Seq<int>,
    q: Seq<HeapItem>,
    sols: Seq<usize>,
    last: Cost,
)
    requires
        costs_nonneg(g),
        state_ok(g, s, d, labels, ks, g2, settled, best, q, sols, last),
        expanded_ok(g, labels, settled, q, d, -1, 0),
        q.len() == 0,
    ensures
        is_frontier_of(sol_costs(labels, sols), walk_costs(g, s, d)),
{
    let r = sol_costs(labels, sols);
    let member = walk_costs(g, s, d);
    assert forall|i: int| 0 <= i < r.len() implies #[trigger] member(pair_of(r[i])) by {
        let j = sols[i] as int;
        assert(label_ok(g, s, labels, ks, g2, j));
        let ns = chain(labels, j);
        assert(is_walk(g, ns, ks[j]));
    }
    assert forall|p: (int, int)| #[trigger] member(p) implies exists|i: int|
        0 <= i < r.len() && #[trigger] le_pair(r[i], p) by {
        let (ns, wks) = choose|ns: Seq<int>, wks: Seq<int>|
            {
                &&& #[trigger] is_walk(g, ns, wks)
                &&& ns[0] == s
                &&& ns.last() == d
                &&& total_cost(g, ns, wks) == p
            };
        lemma_reach(g, s, d, labels, ks, g2, settled, q, ns, wks);
        let j = choose|j: int| #[trigger] witness(labels, settled, j, d, p);
        let t = choose|t: int| 0 <= t < sols.len() && #[trigger] sols[t] == j;
        assert(le_pair(r[t], p));
    }
}

/// `order` lists the settled labels in settle order; labels settled at one
/// node come with `c1` rising and `c2` falling.
spec fn order_ok(labels: Seq<Label>, settled: Seq<bool>, order: Seq<usize>) -> bool {
    &&& forall|t: int|
        0 <= t < order.len() ==> (#[trigger] order[t]) < labels.len() && settled[order[t] as int]
    &&& forall|j: int|
        0 <= j < labels.len() && #[trigger] settled[j] ==> exists|t: int| 0 <= t < order.len() && #[trigger] order[t] == j
    &&& forall|t1: int, t2: int|
        0 <= t1 < t2 < order.len() && labels[(#[trigger] order[t1]) as int].node == labels[(#[trigger] order[t2]) as int].node
            ==> labels[order[t1] as int].cost.c1 < labels[order[t2] as int].cost.c1 && labels[order[t1] as int].cost.c2
            > labels[order[t2] as int].cost.c2
}

proof fn lemma_order_settle(
    n: int,
    labels: Seq<Label>,
    settled: Seq<bool>,
    g2: Seq<i64>,
    best: Seq<int>,
    last: Cost,
    order: Seq<usize>,
    li: int,
)
    requires
        settled_ok(n, labels, settled, g2, best, last),
        order_ok(labels, settled, order),
        0 <= li < labels.len(),
        labels.len() <= usize::MAX,
        0 <= labels[li].node < n,
        lex_le(last, labels[li].cost),
        labels[li].cost.c2 < g2[labels[li].node as int],
    ensures
        order_ok(labels, settled.update(li, true), order.push(li as usize)),
{
    let s2 = settled.update(li, true);
    let o2 = order.push(li as usize);
    assert forall|t: int| 0 <= t < o2.len() implies (#[trigger] o2[t]) < labels.len() && s2[o2[t] as int] by {
        if t < order.len() {
            assert(o2[t] == order[t]);
        }
    }
    assert forall|j: int| 0 <= j < labels.len() && #[trigger] s2[j] implies exists|t: int|
        0 <= t < o2.len() && #[trigger] o2[t] == j by {
        if j == li {
            assert(o2[order.len() as int] == j);
        } else {
            assert(settled[j]);
            let t = choose|t: int| 0 <= t < order.len() && #[trigger] order[t] == j;
            assert(o2[t] == j);
        }
    }
    assert forall|t1: int, t2: int|
        0 <= t1 < t2 < o2.len() && labels[(#[trigger] o2[t1]) as int].node == labels[(#[trigger] o2[t2]) as int].node
        implies labels[o2[t1] as int].cost.c1 < labels[o2[t2] as int].cost.c1 && labels[o2[t1] as int].cost.c2
        > labels[o2[t2] as int].cost.c2 by {
        assert(o2[t1] == order[t1]);
        if t2 < order.len() {
            assert(o2[t2] == order[t2]);
        } else {
            let j = order[t1] as int;
            assert(settled[j]);
            assert(lex_le(labels[j].cost, last));
            assert(g2[labels[j].node as int] <= labels[j].cost.c2);
        }
    }
}

proof fn lemma_order_push(labels: Seq<Label>, settled: Seq<bool>, order: Seq<usize>, x: Label)
    requires
        settled.len() == labels.len(),
        order_ok(labels, settled, order),
    ensures
        order_ok(labels.push(x), settled.push(false), order),
{
    let l2 = labels.push(x);
    let s2 = settled.push(false);
    assert forall|j: int| 0 <= j < l2.len() && #[trigger] s2[j] implies exists|t: int|
        0 <= t < order.len() && #[trigger] order[t] == j by {
        assert(j < labels.len());
        assert(settled[j]);
    }
    assert forall|t1: int, t2: int|
        0 <= t1 < t2 < order.len() && l2[(#[trigger] order[t1]) as int].node == l2[(#[trigger] order[t2]) as int].node
        implies l2[order[t1] as int].cost.c1 < l2[order[t2] as int].cost.c1 && l2[order[t1] as int].cost.c2
        > l2[order[t2] as int].cost.c2 by {
        assert(l2[order[t1] as int] == labels[order[t1] as int]);
        assert(l2[order[t2] as int] == labels[order[t2] as int]);
    }
}

/// With no real destination, once the queue is exhausted the settled labels
/// at every node account for all walk costs to it, and each is a walk cost.
proof fn lemma_final_all<G: CostGraph>(
    g: G,
    s: int,
    labels: Seq<Label>,
    ks: Seq<Seq<int>>,
    g2: Seq<i64>,
    settled: Seq<bool>,
    best: Seq<int>,
    q: Seq<HeapItem>,
    sols: Seq<usize>,
    last: Cost,
    order: Seq<usize>,
)
    requires
        costs_nonneg(g),
        state_ok(g, s, g.node_count() as int, labels, ks, g2, settled, best, q, sols, last),
        expanded_ok(g, labels, settled, q, g.node_count() as int, -1, 0),
        order_ok(labels, settled, order),
        q.len() == 0,
    ensures
        forall|t: int|
            0 <= t < order.len() ==> #[trigger] walk_costs(g, s, labels[order[t] as int].node as int)(
                pair_of(labels[order[t] as int].cost),
            ),
        forall|u: int, p: (int, int)|
            #[trigger] walk_costs(g, s, u)(p) ==> exists|t: int|
                0 <= t < order.len() && labels[order[t] as int].node == u && #[trigger] le_pair(
                    labels[order[t] as int].cost,
                    p,
                ),
{
    let d = g.node_count() as int;
    assert forall|t: int| 0 <= t < order.len() implies #[trigger] walk_costs(g, s, labels[order[t] as int].node as int)(
        pair_of(labels[order[t] as int].cost),
    ) by {
        let j = order[t] as int;
        assert(label_ok(g, s, labels, ks, g2, j));
        assert(is_walk(g, chain(labels, j), ks[j]));
    }
    assert forall|u: int, p: (int, int)| #[trigger] walk_costs(g, s, u)(p) implies exists|t: int|
        0 <= t < order.len() && labels[order[t] as int].node == u && #[trigger] le_pair(
            labels[order[t] as int].cost,
            p,
        ) by {
        let (ns, wks) = choose|ns: Seq<int>, wks: Seq<int>|
            {
                &&& #[trigger] is_walk(g, ns, wks)
                &&& ns[0] == s
                &&& ns.last() == u
                &&& total_cost(g, ns, wks) == p
            };
        lemma_reach(g, s, d, labels, ks, g2, settled, q, ns, wks);
        if exists|j: int| #[trigger] witness(labels, settled, j, d, p) {
            let j = choose|j: int| #[trigger] witness(labels, settled, j, d, p);
            assert(label_ok(g, s, labels, ks, g2, j));
        }
        let j = choose|j: int| #[trigger] witness(labels, settled, j, u, p);
        let t = choose|t: int| 0 <= t < order.len() && #[trigger] order[t] == j;
        assert(le_pair(labels[order[t] as int].cost, p));
    }
}

spec fn item_le(a: HeapItem, b: HeapItem) -> bool {
    a.c1 < b.c1 || (a.c1 == b.c1 && a.c2 <= b.c2)
}

/// Index of the parent of heap slot `j > 0`.
spec fn parent(j: int) -> int {
    (j - 1) / 2
}

/// Every slot but the root holds an entry no smaller than its parent's.
spec fn heap_ordered(h: Seq<HeapItem>) -> bool {
    forall|j: int| 0 < j < h.len() ==> item_le(#[trigger] h[parent(j)], h[j])
}

/// The root of a heap-ordered sequence is no larger than any of its entries.
proof fn lemma_heap_root_min(h: Seq<HeapItem>, j: int)
    requires
        heap_ordered(h),
        0 <= j < h.len(),
    ensures
        item_le(h[0], h[j]),
    decreases j,
{
    if j > 0 {
        assert(0 <= parent(j) < j);
        lemma_heap_root_min(h, parent(j));
        assert(item_le(h[parent(j)], h[j]));
    }
}

/// Exchanging two entries keeps the multiset of entries.
proof fn lemma_swap_multiset(h: Seq<HeapItem>, i: int, j: int)
    requires
        0 <= i < h.len(),
        0 <= j < h.len(),
    ensures
        h.update(i, h[j]).update(j, h[i]).to_multiset() == h.to_multiset(),
{
    broadcast use vstd::seq_lib::group_to_multiset_ensures;
    broadcast use vstd::multiset::group_multiset_axioms;

    let h1 = h.update(i, h[j]);
    assert(h1.to_multiset() == h.to_multiset().insert(h[j]).remove(h[i]));
    assert(h1[j] == h[j]);
    assert(h1.update(j, h[i]).to_multiset() == h1.to_multiset().insert(h[i]).remove(h1[j]));
    assert(h1.update(j, h[i]).to_multiset() =~= h.to_multiset());
}

/// The label queue: a binary min-heap of entries under `item_le`. Its view
/// is the list of entries pushed and not yet popped, in push order.
struct LabelQueue {
    items: Vec<HeapItem>,
    entries: Ghost<Seq<HeapItem>>,
}

impl View for LabelQueue {
    type V = Seq<HeapItem>;

    closed spec fn view(&self) -> Seq<HeapItem> {
        self.entries@
    }
}

impl LabelQueue {
    /// The heap holds exactly the listed entries, heap-ordered.
    spec fn wf(&self) -> bool {
        &&& self.items@.to_multiset() == self.entries@.to_multiset()
        &&& heap_ordered(self.items@)
    }

    fn new() -> (q: LabelQueue)
        ensures
            q.wf(),
            q@ == Seq::<HeapItem>::empty(),
    {
        let q = LabelQueue { items: Vec::new(), entries: Ghost(Seq::empty()) };
        proof {
            assert(q.items@ =~= Seq::<HeapItem>::empty());
        }
        q
    }

    fn len(&self) -> (r: usize)
        requires
            self.wf(),
        ensures
            r == self@.len(),
    {
        proof {
            broadcast use vstd::seq_lib::group_to_multiset_ensures;
            assert(self.items@.len() == self.items@.to_multiset().len());
        }
        self.items.len()
    }

    /// Moves the entry at slot `i` up until its parent is no larger.
    fn sift_up(&mut self, i: usize)
        requires
            i < old(self).items@.len(),
            forall|j: int|
                0 < j < old(self).items@.len() && j != i ==> item_le(
                    #[trigger] old(self).items@[parent(j)],
                    old(self).items@[j],
                ),
            i > 0 ==> forall|c: int|
                0 < c < old(self).items@.len() && parent(c) == i ==> item_le(
                    old(self).items@[parent(i as int)],
                    #[trigger] old(self).items@[c],
                ),
        ensures
            heap_ordered(final(self).items@),
            final(self).items@.to_multiset() == old(self).items@.to_multiset(),
            final(self).items@.len() == old(self).items@.len(),
            final(self).entries == old(self).entries,
    {
        let ghost ms = self.items@.to_multiset();
        let mut i = i;
        while i > 0
            invariant
                i < self.items@.len(),
                self.items@.to_multiset() == ms,
                self.items@.len() == old(self).items@.len(),
                self.entries == old(self).entries,
                forall|j: int|
                    0 < j < self.items@.len() && j != i ==> item_le(#[trigger] self.items@[parent(j)], self.items@[j]),
                i > 0 ==> forall|c: int|
                    0 < c < self.items@.len() && parent(c) == i ==> item_le(
                        self.items@[parent(i as int)],
                        #[trigger] self.items@[c],
                    ),
            ensures
                heap_ordered(self.items@),
                self.items@.to_multiset() == ms,
                self.items@.len() == old(self).items@.len(),
                self.entries == old(self).entries,
            decreases i,
        {
            let p = (i - 1) / 2;
            let a = self.items[p];
            let b = self.items[i];
            if a.c1 < b.c1 || (a.c1 == b.c1 && a.c2 <= b.c2) {
                proof {
                    assert(parent(i as int) == p);
                    assert forall|j: int| 0 < j < self.items@.len() implies item_le(
                        #[trigger] self.items@[parent(j)],
                        self.items@[j],
                    ) by {
                        if j == i {
                        }
                    }
                }
                break;
            }
            let ghost h = self.items@;
            self.items.set(p, b);
            self.items.set(i, a);
            proof {
                lemma_swap_multiset(h, p as int, i as int);
                assert(self.items@ == h.update(p as int, h[i as int]).update(i as int, h[p as int]));
                let h2 = self.items@;
                assert forall|j: int| 0 < j < h2.len() && j != p implies item_le(#[trigger] h2[parent(j)], h2[j]) by {
                    if j == i {
                    } else if parent(j) == i {
                        assert(item_le(h[parent(i as int)], h[j]));
                    } else if parent(j) == p {
                        assert(item_le(h[parent(j)], h[j]));
                    } else {
                        assert(item_le(h[parent(j)], h[j]));
                    }
                }
                if p > 0 {
                    assert(item_le(h[parent(p as int)], h[p as int]));
                    assert forall|c: int| 0 < c < h2.len() && parent(c) == p implies item_le(
                        h2[parent(p as int)],
                        #[trigger] h2[c],
                    ) by {
                        if c != i {
                            assert(item_le(h[parent(c)], h[c]));
                        }
                    }
                }
            }
            i = p;
        }
    }

    /// Moves the entry at slot `i` down until no child is smaller.
    fn sift_down(&mut self, i: usize)
        requires
            i < old(self).items@.len(),
            forall|j: int|
                0 < j < old(self).items@.len() && parent(j) != i ==> item_le(
                    #[trigger] old(self).items@[parent(j)],
                    old(self).items@[j],
                ),
            i > 0 ==> forall|c: int|
                0 < c < old(self).items@.len() && parent(c) == i ==> item_le(
                    old(self).items@[parent(i as int)],
                    #[trigger] old(self).items@[c],
                ),
        ensures
            heap_ordered(final(self).items@),
            final(self).items@.to_multiset() == old(self).items@.to_multiset(),
            final(self).items@.len() == old(self).items@.len(),
            final(self).entries == old(self).entries,
    {
        let ghost ms = self.items@.to_multiset();
        let n = self.items.len();
        let mut i = i;
        loop
            invariant
                i < n,
                n == self.items@.len(),
                self.items@.to_multiset() == ms,
                self.items@.len() == old(self).items@.len(),
                self.entries == old(self).entries,
                forall|j: int|
                    0 < j < n && parent(j) != i ==> item_le(#[trigger] self.items@[parent(j)], self.items@[j]),
                i > 0 ==> forall|c: int|
                    0 < c < n && parent(c) == i ==> item_le(self.items@[parent(i as int)], #[trigger] self.items@[c]),
            ensures
                heap_ordered(self.items@),
                self.items@.to_multiset() == ms,
                self.items@.len() == old(self).items@.len(),
                self.entries == old(self).entries,
            decreases n - i,
        {
            let l = if i <= (n - 1) / 2 { 2 * i + 1 } else { n };
            let mut m = i;
            if l < n {
                let x = self.items[l];
                let y = self.items[m];
                if x.c1 < y.c1 || (x.c1 == y.c1 && x.c2 < y.c2) {
                    m = l;
                }
                if l + 1 < n {
                    let x = self.items[l + 1];
                    let y = self.items[m];
                    if x.c1 < y.c1 || (x.c1 == y.c1 && x.c2 < y.c2) {
                        m = l + 1;
                    }
                }
            }
            let ghost h = self.items@;
            proof {
                assert forall|c: int| 0 < c < n && parent(c) == i implies item_le(h[m as int], #[trigger] h[c]) by {
                    assert(c == 2 * i + 1 || c == 2 * i + 2);
                }
            }
            if m == i {
                proof {
                    assert forall|j: int| 0 < j < n implies item_le(#[trigger] h[parent(j)], h[j]) by {
                        if parent(j) == i {
                        }
                    }
                }
                break;
            }
            let a = self.items[i];
            let b = self.items[m];
            self.items.set(i, b);
            self.items.set(m, a);
            proof {
                lemma_swap_multiset(h, i as int, m as int);
                assert(self.items@ == h.update(i as int, h[m as int]).update(m as int, h[i as int]));
                assert(parent(m as int) == i);
                let h2 = self.items@;
                assert forall|j: int| 0 < j < n && parent(j) != m implies item_le(#[trigger] h2[parent(j)], h2[j]) by {
                    if j == i {
                        assert(item_le(h[parent(i as int)], h[m as int]));
                    } else if parent(j) == i {
                    } else {
                        assert(item_le(h[parent(j)], h[j]));
                    }
                }
                assert forall|c: int| 0 < c < n && parent(c) == m implies item_le(
                    h2[parent(m as int)],
                    #[trigger] h2[c],
                ) by {
                    assert(item_le(h[parent(c)], h[c]));
                }
            }
            i = m;
        }
    }

    fn push(&mut self, x: HeapItem)
        requires
            old(self).wf(),
        ensures
            final(self).wf(),
            final(self)@ == old(self)@.push(x),
    {
        proof {
            broadcast use vstd::seq_lib::group_to_multiset_ensures;
        }
        let ghost h = self.items@;
        self.items.push(x);
        self.entries = Ghost(self.entries@.push(x));
        let i = self.items.len() - 1;
        proof {
            assert(self.items@ == h.push(x));
            assert(self.items@.to_multiset() == self.entries@.to_multiset());
            assert forall|j: int|
                0 < j < self.items@.len() && j != i implies item_le(#[trigger] self.items@[parent(j)], self.items@[j]) by {
                assert(self.items@[j] == h[j]);
                assert(self.items@[parent(j)] == h[parent(j)]);
            }
        }
        self.sift_up(i);
    }

    /// Removes and returns an entry with the smallest `(c1, c2)`.
    fn pop_min(&mut self) -> (r: HeapItem)
        requires
            old(self).wf(),
            old(self)@.len() > 0,
        ensures
            final(self).wf(),
            exists|i: int|
                0 <= i < old(self)@.len() && r == old(self)@[i] && final(self)@ == old(self)@.remove(i),
            forall|j: int| 0 <= j < old(self)@.len() ==> item_le(r, #[trigger] old(self)@[j]),
    {
        proof {
            broadcast use vstd::seq_lib::group_to_multiset_ensures;
            broadcast use vstd::multiset::group_multiset_axioms;
        }
        let ghost h = self.items@;
        let ghost es = self.entries@;
        proof {
            assert(h.len() == h.to_multiset().len());
            assert(es.len() == es.to_multiset().len());
        }
        let top = self.items[0];
        let last = self.items.pop().unwrap();
        proof {
            assert(h.to_multiset().count(top) > 0);
            assert(es.contains(top));
        }
        let ghost i = choose|i: int| 0 <= i < es.len() && es[i] == top;
        proof {
            assert forall|j: int| 0 <= j < es.len() implies item_le(top, #[trigger] es[j]) by {
                assert(es.to_multiset().count(es[j]) > 0);
                assert(h.contains(es[j]));
                let k = choose|k: int| 0 <= k < h.len() && h[k] == es[j];
                lemma_heap_root_min(h, k);
            }
            assert(h == self.items@.push(last));
        }
        self.entries = Ghost(es.remove(i));
        if self.items.len() > 0 {
            let ghost t = self.items@;
            self.items.set(0, last);
            proof {
                assert(self.items@ == t.update(0, last));
                assert(self.items@.to_multiset() == t.to_multiset().insert(last).remove(t[0]));
                assert(self.items@.to_multiset() =~= self.entries@.to_multiset());
                assert forall|j: int| 0 < j < self.items@.len() && parent(j) != 0 implies item_le(
                    #[trigger] self.items@[parent(j)],
                    self.items@[j],
                ) by {
                    assert(item_le(h[parent(j)], h[j]));
                }
            }
            self.sift_down(0);
        } else {
            proof {
                assert(self.items@.to_multiset() =~= self.entries@.to_multiset());
            }
        }
        top
    }
}

/// The shared label-setting loop. Labels are extracted in lexicographic
/// `(c1, c2)` order; a label settles its node only when its `c2` improves on
/// the best `c2` settled there (`g2[u]`), and with `goal_bound` also only
/// when it improves on the best `c2` settled at `dest`. Settled labels at
/// `dest` are the solutions and are not extended.
pub(crate) fn search<G: CostGraph>(g: &G, source: usize, dest: usize, goal_bound: bool) -> (res: (
    Vec<Label>,
    Vec<usize>,
    Vec<usize>,
))
    requires
        targets_in_range(*g),
        walks_fit(*g, source as int, dest as int),
        source < g.node_count(),
        dest < g.node_count() || (dest == g.node_count() && !goal_bound),
    ensures
        is_frontier_of(sol_costs(res.0@, res.1@), walk_costs(*g, source as int, dest as int)),
        forall|t: int|
            0 <= t < res.1@.len() ==> {
                &&& (#[trigger] res.1@[t]) < res.0@.len()
                &&& res.0@[res.1@[t] as int].node == dest
                &&& walk_with_cost(*g, 
                    source as int,
                    dest as int,
                    chain(res.0@, res.1@[t] as int),
                    res.0@[res.1@[t] as int].cost,
                )
                &&& chain(res.0@, res.1@[t] as int).no_duplicates()
            },
        forall|i: int|
            0 <= i < res.0@.len() ==> {
                &&& ((#[trigger] res.0@[i]).parent matches Some(p) ==> p < i)
                &&& (res.0@[i].node == source || res.0@[i].node <= u32::MAX)
            },
        forall|t: int| 0 <= t < res.2@.len() ==> (#[trigger] res.2@[t]) < res.0@.len(),
        forall|t1: int, t2: int|
            0 <= t1 < t2 < res.2@.len() && res.0@[(#[trigger] res.2@[t1]) as int].node == res.0@[(
            #[trigger] res.2@[t2]) as int].node ==> res.0@[res.2@[t1] as int].cost.c1 < res.0@[res.2@[t2] as int].cost.c1
                && res.0@[res.2@[t1] as int].cost.c2 > res.0@[res.2@[t2] as int].cost.c2,
        dest == g.node_count() ==> forall|t: int|
            0 <= t < res.2@.len() ==> #[trigger] walk_costs(*g, source as int, res.0@[res.2@[t] as int].node as int)(
                pair_of(res.0@[res.2@[t] as int].cost),
            ),
        dest == g.node_count() ==> forall|u: int, p: (int, int)|
            #[trigger] walk_costs(*g, source as int, u)(p) ==> exists|t: int|
                0 <= t < res.2@.len() && res.0@[res.2@[t] as int].node == u && #[trigger] le_pair(
                    res.0@[res.2@[t] as int].cost,
                    p,
                ),
        forall|t: int| 0 <= t < res.2@.len() ==> (res.0@[(#[trigger] res.2@[t]) as int].node as int) < g.node_count(),
{
    let n = g.node_num();
    let ghost m = g.edge_count();
    let ghost s = source as int;
    let ghost d = dest as int;
    let mut g2: Vec<i64> = vec![i64::MAX; n];
    let mut labels: Vec<Label> = Vec::new();
    let mut q = LabelQueue::new();
    let mut sols: Vec<usize> = Vec::new();
    let mut order: Vec<usize> = Vec::new();
    labels.push(Label { cost: Cost::new(0, 0), node: source, parent: None });
    q.push(HeapItem { c1: 0, c2: 0, label: 0 });
    let ghost mut ks: Seq<Seq<int>> = seq![Seq::empty()];
    let ghost mut settled: Seq<bool> = seq![false];
    let ghost mut best: Seq<int> = Seq::new(n as nat, |u: int| 0);
    let ghost mut last: Cost = Cost { c1: 0, c2: 0 };
    proof {
        assert(chain(labels@, 0) == seq![s]);
        assert(is_walk(*g, seq![s], Seq::<int>::empty()));
        assert(label_ok(*g, s, labels@, ks, g2@, 0));
        assert(pending(labels@, q@, 0, s, (0, 0)));
        assert(sol_costs(labels@, sols@) =~= Seq::<Cost>::empty());
        assert(state_ok(*g, s, d, labels@, ks, g2@, settled, best, q@, sols@, last));
        assert(parents_ok(labels@, d));
        lemma_sum_nonneg(g2@);
    }
    while q.len() > 0
        invariant
            targets_in_range(*g),
            walks_fit(*g, s, d),
            parents_ok(labels@, d),
            n == g.node_count(),
            m == g.edge_count(),
            source == s,
            dest == d,
            goal_bound ==> dest < n,
            state_ok(*g, s, d, labels@, ks, g2@, settled, best, q@, sols@, last),
            expanded_ok(*g, labels@, settled, q@, d, -1, 0),
            order_ok(labels@, settled, order@),
            q.wf(),
        decreases q@.len() + (m + 1) * seq_sum(g2@),
    {
        let ghost q0 = q@;
        let ghost sum0 = seq_sum(g2@);
        let item = q.pop_min();
        let ghost r = choose|i: int|
            0 <= i < q0.len() && item == q0[i] && q@ == q0.remove(i);
        let li = item.label;
        proof {
            assert(q0[r].label < labels@.len());
            assert(label_ok(*g, s, labels@, ks, g2@, li as int));
        }
        let cost = labels[li].cost;
        let u = labels[li].node;
        // Truncated dominance: prune labels already matched at `u`, and (with
        // the goal bound) any label that cannot improve on the best cost
        // reached at `dest`.
        if cost.c2 >= g2[u] {
            proof {
                lemma_pop_prune(*g, s, d, labels@, ks, g2@, settled, best, q0, sols@, last, r, u as int);
                lemma_sum_nonneg(g2@);
            }
            continue;
        }
        if goal_bound && cost.c2 >= g2[dest] {
            proof {
                lemma_pop_prune(*g, s, d, labels@, ks, g2@, settled, best, q0, sols@, last, r, d);
                lemma_sum_nonneg(g2@);
            }
            continue;
        }
        proof {
            assert(labels@.len() == labels.len());
            lemma_order_settle(n as int, labels@, settled, g2@, best, last, order@, li as int);
            lemma_pop_settle(*g, s, d, labels@, ks, g2@, settled, best, q0, sols@, last, r);
            lemma_sum_update(g2@, u as int, cost.c2);
            settled = settled.update(li as int, true);
            best = best.update(u as int, li as int);
            last = cost;
        }
        g2.set(u, cost.c2);
        order.push(li);
        if u == dest {
            sols.push(li);
            proof {
                lemma_sum_nonneg(g2@);
                lemma_measure_drop(q0.len() as int, q@.len() as int, m as int, sum0, seq_sum(g2@));
            }
            continue;
        }
        let nbrs = g.out_list(u);
        let ghost q1 = q@;
        let ghost sum1 = seq_sum(g2@);
        let mut k: usize = 0;
        while k < nbrs.len()
            invariant
                targets_in_range(*g),
                walks_fit(*g, s, d),
                parents_ok(labels@, d),
                n == g.node_count(),
                m == g.edge_count(),
                source == s,
                dest == d,
                goal_bound ==> dest < n,
                u != dest,
                u < n,
                g2@.len() == n,
                li < labels@.len(),
                labels@[li as int].node == u,
                labels@[li as int].cost == cost,
                last == cost,
                settled[li as int],
                g2@[u as int] == cost.c2,
                nbrs@.len() == g.out_edges(u as int).len(),
                nbrs@.len() <= m,
                forall|j: int|
                    0 <= j < nbrs@.len() ==> #[trigger] nbrs@[j] == (
                        g.out_edges(u as int)[j].0 as usize,
                        g.out_edges(u as int)[j].1,
                    ),
                k <= nbrs@.len(),
                state_ok(*g, s, d, labels@, ks, g2@, settled, best, q@, sols@, last),
                expanded_ok(*g, labels@, settled, q@, d, li as int, k as int),
                order_ok(labels@, settled, order@),
                q.wf(),
                q@.len() <= q1.len() + k,
                seq_sum(g2@) == sum1,
            decreases nbrs@.len() - k,
        {
            let (v, w) = nbrs[k];
            proof {
                lemma_edge_fits(*g, s, d, labels@, ks, g2@, li as int, k as int);
                assert(label_ok(*g, s, labels@, ks, g2@, li as int));
                assert(nbrs@[k as int] == (g.out_edges(u as int)[k as int].0 as usize, g.out_edges(u as int)[k as int].1));
            }
            let nc = cost + w;
            if nc.c2 >= g2[v] {
                proof {
                    lemma_edge_skip(*g, s, d, labels@, ks, g2@, settled, best, q@, sols@, li as int, k as int, v as int);
                }
                k = k + 1;
                continue;
            }
            if goal_bound && nc.c2 >= g2[dest] {
                proof {
                    lemma_edge_skip(*g, s, d, labels@, ks, g2@, settled, best, q@, sols@, li as int, k as int, d);
                }
                k = k + 1;
                continue;
            }
            let idx = labels.len();
            let x = Label { cost: nc, node: v, parent: Some(li) };
            let it = HeapItem { c1: nc.c1, c2: nc.c2, label: idx };
            let ghost labels0 = labels@;
            let ghost qb = q@;
            labels.push(x);
            q.push(it);
            proof {
                assert(labels@.len() == labels.len());
                lemma_edge_push(*g, s, d, labels0, ks, g2@, settled, best, qb, sols@, li as int, k as int, x, it);
                lemma_order_push(labels0, settled, order@, x);
                assert forall|i: int| 0 <= i < labels@.len() implies match (#[trigger] labels@[i]).parent {
                    Some(p) => 0 <= p < i ==> labels@[p as int].node != d,
                    None => true,
                } by {
                    if i < labels0.len() {
                        assert(labels@[i] == labels0[i]);
                        if let Some(p) = labels0[i].parent {
                            if 0 <= p < i {
                                assert(labels@[p as int] == labels0[p as int]);
                            }
                        }
                    } else {
                        assert(labels@[i] == x);
                        assert(labels@[li as int] == labels0[li as int]);
                    }
                }
                ks = ks.push(ks[li as int].push(k as int));
                settled = settled.push(false);
            }
            k = k + 1;
        }
        proof {
            lemma_sum_nonneg(g2@);
            lemma_measure_drop(q0.len() as int, q@.len() as int, m as int, sum0, seq_sum(g2@));
        }
    }
    proof {
        lemma_final(*g, s, d, labels@, ks, g2@, settled, best, q@, sols@, last);
        if d == n {
            lemma_final_all(*g, s, labels@, ks, g2@, settled, best, q@, sols@, last, order@);
        }
        assert forall|t: int| 0 <= t < order@.len() implies (labels@[(#[trigger] order@[t]) as int].node as int) < g.node_count() by {
            assert(label_ok(*g, s, labels@, ks, g2@, order@[t] as int));
        }
        assert forall|t: int| 0 <= t < sols@.len() implies {
            &&& (#[trigger] sols@[t]) < labels@.len()
            &&& labels@[sols@[t] as int].node == dest
            &&& walk_with_cost(*g, s, d, chain(labels@, sols@[t] as int), labels@[sols@[t] as int].cost)
            &&& chain(labels@, sols@[t] as int).no_duplicates()
        } by {
            let j = sols@[t] as int;
            assert(label_ok(*g, s, labels@, ks, g2@, j));
            assert(is_walk(*g, chain(labels@, j), ks[j]));
        }
        assert forall|i: int| 0 <= i < labels@.len() implies {
            &&& ((#[trigger] labels@[i]).parent matches Some(p) ==> p < i)
            &&& (labels@[i].node == source || labels@[i].node <= u32::MAX)
        } by {
            assert(label_ok(*g, s, labels@, ks, g2@, i));
        }
    }
    (labels, sols, order)
}

/// A Pareto-optimal solution: its cost and the path as a sequence of
/// 0-indexed node ids from source to destination.
#[derive(Clone, Debug, PartialEq, Eq)]
pub struct ParetoPath {
    pub cost: Cost,
    pub path: Vec<u32>,
}

/// Node ids as mathematical integers.
pub open spec fn node_ints(p: Seq<u32>) -> Seq<int> {
    p.map_values(|x: u32| x as int)
}

/// The costs of a list of solutions, in order.
pub open spec fn path_costs(r: Seq<ParetoPath>) -> Seq<Cost> {
    r.map_values(|p: ParetoPath| p.cost)
}

/// Follows parent links from label `sol` back to the root and returns the
/// node sequence from the root to `sol`.
fn trace_path(labels: &Vec<Label>, sol: usize, source: usize) -> (path: Vec<u32>)
    requires
        sol < labels@.len(),
        source <= u32::MAX,
        forall|i: int|
            0 <= i < labels@.len() ==> {
                &&& ((#[trigger] labels@[i]).parent matches Some(p) ==> p < i)
                &&& (labels@[i].node == source || labels@[i].node <= u32::MAX)
            },
    ensures
        node_ints(path@) == chain(labels@, sol as int),
{
    let mut rev: Vec<u32> = Vec::new();
    let mut cur: usize = sol;
    loop
        invariant_except_break
            cur < labels@.len(),
            chain(labels@, sol as int) == chain(labels@, cur as int) + node_ints(rev@).reverse(),
        invariant
            source <= u32::MAX,
            forall|i: int|
                0 <= i < labels@.len() ==> {
                    &&& ((#[trigger] labels@[i]).parent matches Some(p) ==> p < i)
                    &&& (labels@[i].node == source || labels@[i].node <= u32::MAX)
                },
        ensures
            chain(labels@, sol as int) == node_ints(rev@).reverse(),
        decreases cur,
    {
        let ghost rev0 = rev@;
        let node = labels[cur].node;
        proof {
            assert(labels@[cur as int].node == source || labels@[cur as int].node <= u32::MAX);
        }
        rev.push(node as u32);
        proof {
            assert(node_ints(rev@) =~= node_ints(rev0).push(node as int));
            assert(node_ints(rev@).reverse() =~= seq![node as int] + node_ints(rev0).reverse());
        }
        match labels[cur].parent {
            Some(p) => {
                proof {
                    assert(chain(labels@, cur as int) == chain(labels@, p as int).push(node as int));
                    assert(chain(labels@, sol as int) =~= chain(labels@, p as int) + node_ints(
                        rev@,
                    ).reverse());
                }
                cur = p;
            },
            None => {
                proof {
                    assert(chain(labels@, cur as int) == seq![node as int]);
                    assert(chain(labels@, sol as int) =~= node_ints(rev@).reverse());
                }
                break ;
            },
        }
    }
    // Reverse into source-to-destination order.
    let mut path: Vec<u32> = Vec::new();
    let mut i: usize = rev.len();
    while i > 0
        invariant
            i <= rev@.len(),
            path@.len() == rev@.len() - i,
            forall|j: int| 0 <= j < path@.len() ==> #[trigger] path@[j] == rev@[rev@.len() - 1 - j],
        decreases i,
    {
        i = i - 1;
        path.push(rev[i]);
    }
    proof {
        assert(node_ints(path@) =~= node_ints(rev@).reverse());
    }
    path
}

/// Find the complete Pareto frontier from `source` to `dest`.
///
/// Lexicographic label-setting with the `g2_min` truncated-dominance prune
/// (BOA*): labels are popped in `(c1, c2)` order, a node is settled only when a
/// label improves on the best `c2` settled there, and any label whose `c2`
/// cannot beat the best `c2` already reached at `dest` is pruned. The result
/// is sorted by `c1` ascending; each entry carries a path of that cost that
/// visits no node twice. The sums the search forms must fit in `i64`
/// (`walks_fit`); from a node to itself it forms none.
pub fn pareto_search(graph: &Graph, source: usize, dest: usize) -> (r: Vec<ParetoPath>)
    requires
        targets_in_range(*graph),
        walks_fit(*graph, source as int, dest as int),
        source < graph.node_count(),
        dest < graph.node_count(),
        source <= u32::MAX,
    ensures
        is_frontier_of(path_costs(r@), walk_costs(*graph, source as int, dest as int)),
        forall|i: int|
            0 <= i < r@.len() ==> walk_with_cost(*graph, 
                source as int,
                dest as int,
                node_ints((#[trigger] r@[i]).path@),
                r@[i].cost,
            ) && r@[i].path@.no_duplicates(),
{
    let (labels, solutions, _order) = search(graph, source, dest, true);
    // Extraction order is already lexicographic, so the solutions come out
    // sorted by (c1, c2) and need no further sort.
    let mut out: Vec<ParetoPath> = Vec::new();
    let mut t: usize = 0;
    while t < solutions.len()
        invariant
            t <= solutions@.len(),
            source <= u32::MAX,
            out@.len() == t,
            forall|j: int|
                0 <= j < solutions@.len() ==> {
                    &&& (#[trigger] solutions@[j]) < labels@.len()
                    &&& labels@[solutions@[j] as int].node == dest
                    &&& walk_with_cost(*graph, 
                        source as int,
                        dest as int,
                        chain(labels@, solutions@[j] as int),
                        labels@[solutions@[j] as int].cost,
                    )
                    &&& chain(labels@, solutions@[j] as int).no_duplicates()
                },
            forall|i: int|
                0 <= i < labels@.len() ==> {
                    &&& ((#[trigger] labels@[i]).parent matches Some(p) ==> p < i)
                    &&& (labels@[i].node == source || labels@[i].node <= u32::MAX)
                },
            forall|j: int|
                0 <= j < t ==> (#[trigger] out@[j]).cost == labels@[solutions@[j] as int].cost
                    && node_ints(out@[j].path@) == chain(labels@, solutions@[j] as int),
        decreases solutions@.len() - t,
    {
        let s = solutions[t];
        let path = trace_path(&labels, s, source);
        out.push(ParetoPath { cost: labels[s].cost, path });
        t = t + 1;
    }
    proof {
        assert(path_costs(out@) =~= sol_costs(labels@, solutions@));
        assert forall|i: int| 0 <= i < out@.len() implies (#[trigger] out@[i]).path@.no_duplicates() by {
            let p = out@[i].path@;
            let ns = node_ints(p);
            assert(ns == chain(labels@, solutions@[i] as int));
            assert forall|a: int, b: int| 0 <= a < p.len() && 0 <= b < p.len() && a != b implies p[a] != p[b] by {
                assert(ns[a] != ns[b]);
            }
        }
    }
    out
}

/// The Pareto-optimal cost pairs from `source` to `dest`, sorted by `c1`.
pub fn pareto_costs(graph: &Graph, source: usize, dest: usize) -> (r: Vec<Cost>)
    requires
        targets_in_range(*graph),
        walks_fit(*graph, source as int, dest as int),
        source < graph.node_count(),
        dest < graph.node_count(),
        source <= u32::MAX,
    ensures
        is_frontier_of(r@, walk_costs(*graph, source as int, dest as int)),
{
    let sols = pareto_search(graph, source, dest);
    let mut r: Vec<Cost> = Vec::new();
    let mut i: usize = 0;
    while i < sols.len()
        invariant
            i <= sols@.len(),
            r@ == path_costs(sols@).take(i as int),
        decreases sols@.len() - i,
    {
        r.push(sols[i].cost);
        i = i + 1;
        proof {
            assert(r@ =~= path_costs(sols@).take(i as int));
        }
    }
    proof {
        assert(r@ =~= path_costs(sols@));
    }
    r
}

/// Any two exact searches of one query (`bod`, `boa_star`, `pareto_costs`)
/// return the same list of costs.
pub proof fn lemma_searches_agree<G: CostGraph>(g: G, s: int, d: int, a: Seq<Cost>, b: Seq<Cost>)
    requires
        is_frontier_of(a, walk_costs(g, s, d)),
        is_frontier_of(b, walk_costs(g, s, d)),
    ensures
        a == b,
{
    crate::pareto::lemma_frontier_unique(a, b, walk_costs(g, s, d));
}

/// A query from a node to itself has the single answer `(0, 0)`.
pub proof fn lemma_same_node_frontier<G: CostGraph>(g: G, s: int, r: Seq<Cost>)
    requires
        costs_nonneg(g),
        0 <= s < g.node_count(),
        is_frontier_of(r, walk_costs(g, s, s)),
    ensures
        r == seq![Cost { c1: 0, c2: 0 }],
{
    let member = walk_costs(g, s, s);
    let ns = seq![s];
    let wks = Seq::<int>::empty();
    assert(is_walk(g, ns, wks));
    assert(total_cost(g, ns, wks) == (0int, 0int));
    assert(member((0, 0)));
    let i = choose|i: int| 0 <= i < r.len() && #[trigger] le_pair(r[i], (0, 0));
    // every answer is a walk cost, hence non-negative
    assert forall|j: int| 0 <= j < r.len() implies 0 <= (#[trigger] r[j]).c1 && 0 <= r[j].c2 by {
        assert(member(pair_of(r[j])));
        let (ns2, ks2) = choose|ns2: Seq<int>, ks2: Seq<int>|
            {
                &&& #[trigger] is_walk(g, ns2, ks2)
                &&& ns2[0] == s
                &&& ns2.last() == s
                &&& total_cost(g, ns2, ks2) == pair_of(r[j])
            };
        lemma_walk_cost_nonneg(g, ns2, ks2, ks2.len() as int);
    }
    assert(r[i] == Cost { c1: 0, c2: 0 });
    assert(r.len() == 1) by {
        if i > 0 {
            assert(r[0].c1 < r[i].c1);
        }
        if i < r.len() - 1 {
            assert(r[r.len() - 1].c2 < r[i].c2);
        }
    }
    assert(r =~= seq![Cost { c1: 0, c2: 0 }]);
}

/// `x` is the cost of one of the first `t` settled labels, one at node `u`.
spec fn settled_cost_in(labels: Seq<Label>, order: Seq<usize>, u: int, t: int, x: Cost) -> bool {
    exists|t2: int|
        0 <= t2 < t && t2 < order.len() && labels[order[t2] as int].node == u && labels[order[t2] as int].cost == x
}

/// The costs, in settle order, of the labels settled at node `u`.
pub(crate) fn node_costs<G: CostGraph>(graph: &G, source: usize, labels: &Vec<Label>, order: &Vec<usize>, u: usize) -> (r: Vec<Cost>)
    requires
        forall|t: int| 0 <= t < order@.len() ==> (#[trigger] order@[t]) < labels@.len(),
        forall|t1: int, t2: int|
            0 <= t1 < t2 < order@.len() && labels@[(#[trigger] order@[t1]) as int].node == labels@[(
            #[trigger] order@[t2]) as int].node ==> labels@[order@[t1] as int].cost.c1 < labels@[order@[t2] as int].cost.c1
                && labels@[order@[t1] as int].cost.c2 > labels@[order@[t2] as int].cost.c2,
        forall|t: int|
            0 <= t < order@.len() ==> #[trigger] walk_costs(*graph, source as int, labels@[order@[t] as int].node as int)(
                pair_of(labels@[order@[t] as int].cost),
            ),
        forall|w: int, p: (int, int)|
            #[trigger] walk_costs(*graph, source as int, w)(p) ==> exists|t: int|
                0 <= t < order@.len() && labels@[order@[t] as int].node == w && #[trigger] le_pair(
                    labels@[order@[t] as int].cost,
                    p,
                ),
    ensures
        is_frontier_of(r@, walk_costs(*graph, source as int, u as int)),
{
    let mut r: Vec<Cost> = Vec::new();
    let mut t: usize = 0;
    while t < order.len()
        invariant
            t <= order@.len(),
            forall|t: int| 0 <= t < order@.len() ==> (#[trigger] order@[t]) < labels@.len(),
            forall|t1: int, t2: int|
                0 <= t1 < t2 < order@.len() && labels@[(#[trigger] order@[t1]) as int].node == labels@[(
                #[trigger] order@[t2]) as int].node ==> labels@[order@[t1] as int].cost.c1 < labels@[order@[t2] as int].cost.c1
                    && labels@[order@[t1] as int].cost.c2 > labels@[order@[t2] as int].cost.c2,
            strictly_sorted(r@),
            forall|k: int| 0 <= k < r@.len() ==> settled_cost_in(labels@, order@, u as int, t as int, #[trigger] r@[k]),
            r@.len() > 0 ==> exists|tl: int|
                0 <= tl < t && labels@[order@[tl] as int].node == u && labels@[order@[tl] as int].cost == r@.last(),
            forall|t2: int|
                0 <= t2 < t && labels@[(#[trigger] order@[t2]) as int].node == u ==> r@.contains(
                    labels@[order@[t2] as int].cost,
                ),
        decreases order@.len() - t,
    {
        let j = order[t];
        let ghost r0 = r@;
        if labels[j].node == u {
            let c = labels[j].cost;
            r.push(c);
            proof {
                if r0.len() > 0 {
                    let tl = choose|tl: int|
                        0 <= tl < t && labels@[order@[tl] as int].node == u && labels@[order@[tl] as int].cost == r0.last();
                    assert(labels@[order@[tl] as int].cost.c1 < labels@[order@[t as int] as int].cost.c1);
                }
                assert forall|a: int, b: int| 0 <= a < b < r@.len() implies (#[trigger] r@[a]).c1 < (
                #[trigger] r@[b]).c1 && r@[a].c2 > r@[b].c2 by {
                    assert(r@[a] == r0[a]);
                    if b < r0.len() {
                        assert(r@[b] == r0[b]);
                    } else if a < r0.len() - 1 {
                        assert(r0[a].c1 < r0[r0.len() - 1].c1);
                    }
                }
                assert forall|k: int| 0 <= k < r@.len() implies settled_cost_in(labels@, order@, u as int, t + 1, #[trigger] r@[k]) by {
                    if k < r0.len() {
                        assert(r@[k] == r0[k]);
                        assert(settled_cost_in(labels@, order@, u as int, t as int, r0[k]));
                        let t2 = choose|t2: int|
                            0 <= t2 < t && t2 < order@.len() && labels@[order@[t2] as int].node == u && labels@[order@[t2] as int].cost == r0[k];
                        assert(0 <= t2 < t + 1);
                    } else {
                        assert(labels@[order@[t as int] as int].cost == r@[k]);
                    }
                }
                assert(labels@[order@[t as int] as int].cost == r@.last());
                assert forall|t2: int|
                    0 <= t2 < t + 1 && labels@[(#[trigger] order@[t2]) as int].node == u implies r@.contains(
                        labels@[order@[t2] as int].cost,
                    ) by {
                    if t2 < t {
                        let x = labels@[order@[t2] as int].cost;
                        assert(r0.contains(x));
                        let k = choose|k: int| 0 <= k < r0.len() && r0[k] == x;
                        assert(r@[k] == x);
                    } else {
                        assert(r@[r0.len() as int] == c);
                    }
                }
            }
        } else {
            proof {
                assert forall|k: int| 0 <= k < r@.len() implies settled_cost_in(labels@, order@, u as int, t + 1, #[trigger] r@[k]) by {
                    assert(settled_cost_in(labels@, order@, u as int, t as int, r@[k]));
                    let t2 = choose|t2: int|
                        0 <= t2 < t && t2 < order@.len() && labels@[order@[t2] as int].node == u && labels@[order@[t2] as int].cost == r@[k];
                    assert(0 <= t2 < t + 1);
                }
            }
        }
        t = t + 1;
    }
    proof {
        let member = walk_costs(*graph, source as int, u as int);
        assert forall|k: int| 0 <= k < r@.len() implies #[trigger] member(pair_of(r@[k])) by {
            assert(settled_cost_in(labels@, order@, u as int, order@.len() as int, r@[k]));
            let t2 = choose|t2: int|
                0 <= t2 < order@.len() && t2 < order@.len() && labels@[order@[t2] as int].node == u && labels@[order@[t2] as int].cost == r@[k];
            assert(walk_costs(*graph, source as int, labels@[order@[t2] as int].node as int)(
                pair_of(labels@[order@[t2] as int].cost),
            ));
        }
        assert forall|p: (int, int)| #[trigger] member(p) implies exists|k: int|
            0 <= k < r@.len() && #[trigger] le_pair(r@[k], p) by {
            let t2 = choose|t2: int|
                0 <= t2 < order@.len() && labels@[order@[t2] as int].node == u as int && #[trigger] le_pair(
                    labels@[order@[t2] as int].cost,
                    p,
                );
            let x = labels@[order@[t2] as int].cost;
            assert(r@.contains(x));
            let k = choose|k: int| 0 <= k < r@.len() && r@[k] == x;
            assert(le_pair(r@[k], p));
        }
    }
    r
}

/// The Pareto frontier of walk costs from `source` to every node: entry `u`
/// is the frontier for node `u`, sorted by `c1`. No node is a destination
/// here, so `walks_fit` is asked with `node_count` in that place.
pub fn pareto_from(graph: &Graph, source: usize) -> (r: Vec<Vec<Cost>>)
    requires
        targets_in_range(*graph),
        walks_fit(*graph, source as int, graph.node_count() as int),
        source < graph.node_count(),
    ensures
        r@.len() == graph.node_count(),
        forall|u: int|
            0 <= u < graph.node_count() ==> is_frontier_of(
                #[trigger] r@[u]@,
                walk_costs(*graph, source as int, u),
            ),
{
    let n = graph.num_nodes();
    let (labels, _sols, order) = search(graph, source, n, false);
    let mut out: Vec<Vec<Cost>> = Vec::new();
    let mut u: usize = 0;
    while u < n
        invariant
            n == graph.node_count(),
            u <= n,
            out@.len() == u,
            forall|w: int| 0 <= w < u ==> is_frontier_of(#[trigger] out@[w]@, walk_costs(*graph, source as int, w)),
            forall|t: int| 0 <= t < order@.len() ==> (#[trigger] order@[t]) < labels@.len(),
            forall|t1: int, t2: int|
                0 <= t1 < t2 < order@.len() && labels@[(#[trigger] order@[t1]) as int].node == labels@[(
                #[trigger] order@[t2]) as int].node ==> labels@[order@[t1] as int].cost.c1 < labels@[order@[t2] as int].cost.c1
                    && labels@[order@[t1] as int].cost.c2 > labels@[order@[t2] as int].cost.c2,
            forall|t: int|
                0 <= t < order@.len() ==> #[trigger] walk_costs(*graph, source as int, labels@[order@[t] as int].node as int)(
                    pair_of(labels@[order@[t] as int].cost),
                ),
            forall|w: int, p: (int, int)|
                #[trigger] walk_costs(*graph, source as int, w)(p) ==> exists|t: int|
                    0 <= t < order@.len() && labels@[order@[t] as int].node == w && #[trigger] le_pair(
                        labels@[order@[t] as int].cost,
                        p,
                    ),
        decreases n - u,
    {
        let list = node_costs(graph, source, &labels, &order, u);
        out.push(list);
        u = u + 1;
    }
    out
}

} // verus!
