//! Walks in a directed graph with two costs per edge, stated over any graph
//! that lists its out-edges.

use vstd::prelude::*;

use crate::cost::Cost;

verus! {

/// A directed graph whose node `u` has an ordered list of out-edges
/// `(to, cost)`.
pub trait CostGraph: Sized {
    /// Number of nodes.
    spec fn node_count(&self) -> nat;

    /// Total number of edges.
    spec fn edge_count(&self) -> nat;

    /// The out-edges of `u` as `(to, cost)` pairs.
    spec fn out_edges(&self, u: int) -> Seq<(u32, Cost)>;

    fn node_num(&self) -> (r: usize)
        ensures
            r == self.node_count(),
    ;

    fn out_list(&self, u: usize) -> (r: Vec<(usize, Cost)>)
        requires
            u < self.node_count(),
        ensures
            r@.len() == self.out_edges(u as int).len(),
            r@.len() <= self.edge_count(),
            forall|k: int|
                0 <= k < r@.len() ==> #[trigger] r@[k] == (
                self.out_edges(u as int)[k].0 as usize,
                self.out_edges(u as int)[k].1,
            ),
    ;
}

/// Component-wise sum of two integer pairs.
pub open spec fn pair_add(a: (int, int), c: Cost) -> (int, int) {
    (a.0 + c.c1, a.1 + c.c2)
}

/// Every edge points at a node of the graph.
pub open spec fn targets_in_range<G: CostGraph>(g: G) -> bool {
    forall|u: int, k: int|
        0 <= u < g.node_count() && 0 <= k < g.out_edges(u).len()
            ==> (#[trigger] g.out_edges(u)[k]).0 < g.node_count()
}

/// Every edge cost is non-negative and small enough that a path through
/// at most `node_count` edges cannot overflow `i64`.
pub open spec fn costs_bounded<G: CostGraph>(g: G) -> bool {
    forall|u: int, k: int|
        0 <= u < g.node_count() && 0 <= k < g.out_edges(u).len() ==> {
            let c = (#[trigger] g.out_edges(u)[k]).1;
            &&& 0 <= c.c1 && g.node_count() * c.c1 <= i64::MAX
            &&& 0 <= c.c2 && g.node_count() * c.c2 <= i64::MAX
        }
}

/// Every edge cost is non-negative.
pub open spec fn costs_nonneg<G: CostGraph>(g: G) -> bool {
    forall|u: int, k: int|
        0 <= u < g.node_count() && 0 <= k < g.out_edges(u).len() ==> {
            let c = (#[trigger] g.out_edges(u)[k]).1;
            0 <= c.c1 && 0 <= c.c2
        }
}

/// The sums a label-setting search from `s` towards `d` forms stay within
/// `i64`: edge costs are non-negative, and a walk from `s` that repeats no
/// node and does not pass through `d`, extended by one more out-edge of its
/// last node, costs at most `i64::MAX` in each component; where that edge
/// reaches a node not yet on the walk, its `c2` stays below `i64::MAX`.
pub open spec fn walks_fit<G: CostGraph>(g: G, s: int, d: int) -> bool {
    &&& costs_nonneg(g)
    &&& forall|ns: Seq<int>, ks: Seq<int>, k: int|
        #![trigger is_walk(g, ns, ks), g.out_edges(ns.last())[k]]
        is_walk(g, ns, ks) && ns[0] == s && ns.no_duplicates() && !ns.contains(d) && 0 <= k
            < g.out_edges(ns.last()).len() ==> {
            let e = g.out_edges(ns.last())[k];
            let t = pair_add(total_cost(g, ns, ks), e.1);
            &&& t.0 <= i64::MAX
            &&& t.1 <= i64::MAX
            &&& !ns.contains(e.0 as int) ==> t.1 < i64::MAX
        }
}

/// `ns` is the node sequence of a walk whose `i`-th step takes out-edge
/// number `ks[i]` of `ns[i]`.
pub open spec fn is_walk<G: CostGraph>(g: G, ns: Seq<int>, ks: Seq<int>) -> bool {
    &&& ns.len() == ks.len() + 1
    &&& forall|i: int| 0 <= i < ns.len() ==> 0 <= #[trigger] ns[i] < g.node_count()
    &&& forall|i: int|
        0 <= i < ks.len() ==> {
            &&& 0 <= #[trigger] ks[i] < g.out_edges(ns[i]).len()
            &&& g.out_edges(ns[i])[ks[i]].0 as int == ns[i + 1]
        }
}

/// Summed `(c1, c2)` cost of the first `i` steps of a walk.
pub open spec fn walk_cost<G: CostGraph>(g: G, ns: Seq<int>, ks: Seq<int>, i: int) -> (int, int)
    decreases i,
{
    if i <= 0 {
        (0, 0)
    } else {
        pair_add(walk_cost(g, ns, ks, i - 1), g.out_edges(ns[i - 1])[ks[i - 1]].1)
    }
}

/// Total cost of a walk.
pub open spec fn total_cost<G: CostGraph>(g: G, ns: Seq<int>, ks: Seq<int>) -> (int, int) {
    walk_cost(g, ns, ks, ks.len() as int)
}

/// `ns` is the node sequence of a walk from `s` to `d` whose total cost is
/// `c`.
pub open spec fn walk_with_cost<G: CostGraph>(g: G, s: int, d: int, ns: Seq<int>, c: Cost) -> bool {
    exists|ks: Seq<int>|
        {
            &&& #[trigger] is_walk(g, ns, ks)
            &&& ns[0] == s
            &&& ns.last() == d
            &&& total_cost(g, ns, ks) == (c.c1 as int, c.c2 as int)
        }
}

/// The cost of the first `i` steps of a walk depends only on those steps.
pub proof fn lemma_walk_cost_agree<G: CostGraph>(
    g: G,
    ns1: Seq<int>,
    ks1: Seq<int>,
    ns2: Seq<int>,
    ks2: Seq<int>,
    i: int,
)
    requires
        i <= ks1.len(),
        i <= ks2.len(),
        i < ns1.len(),
        i < ns2.len(),
        forall|j: int| 0 <= j < i ==> ns1[j] == ns2[j] && ks1[j] == ks2[j],
    ensures
        walk_cost(g, ns1, ks1, i) == walk_cost(g, ns2, ks2, i),
    decreases i,
{
    if i > 0 {
        lemma_walk_cost_agree(g, ns1, ks1, ns2, ks2, i - 1);
    }
}

/// A prefix of a walk is a walk, with the prefix cost.
pub proof fn lemma_walk_prefix<G: CostGraph>(g: G, ns: Seq<int>, ks: Seq<int>, j: int)
    requires
        is_walk(g, ns, ks),
        0 <= j <= ks.len(),
    ensures
        is_walk(g, ns.take(j + 1), ks.take(j)),
        total_cost(g, ns.take(j + 1), ks.take(j)) == walk_cost(g, ns, ks, j),
{
    let ns2 = ns.take(j + 1);
    let ks2 = ks.take(j);
    assert forall|i: int| 0 <= i < ks2.len() implies {
        &&& 0 <= #[trigger] ks2[i] < g.out_edges(ns2[i]).len()
        &&& g.out_edges(ns2[i])[ks2[i]].0 as int == ns2[i + 1]
    } by {
        assert(ks2[i] == ks[i]);
        assert(ns2[i] == ns[i]);
        assert(ns2[i + 1] == ns[i + 1]);
    }
    assert forall|i: int| 0 <= i < ns2.len() implies 0 <= #[trigger] ns2[i]
        < g.node_count() by {
        assert(ns2[i] == ns[i]);
    }
    lemma_walk_cost_agree(g, ns2, ks2, ns, ks, j);
}

/// Extending a walk by an out-edge of its last node.
pub proof fn lemma_walk_extend<G: CostGraph>(g: G, ns: Seq<int>, ks: Seq<int>, k: int)
    requires
        is_walk(g, ns, ks),
        0 <= k < g.out_edges(ns.last()).len(),
        (g.out_edges(ns.last())[k].0 as int) < g.node_count(),
    ensures
        is_walk(g, 
            ns.push(g.out_edges(ns.last())[k].0 as int),
            ks.push(k),
        ),
        total_cost(g, ns.push(g.out_edges(ns.last())[k].0 as int), ks.push(k))
            == pair_add(total_cost(g, ns, ks), g.out_edges(ns.last())[k].1),
{
    let v = g.out_edges(ns.last())[k].0 as int;
    let ns2 = ns.push(v);
    let ks2 = ks.push(k);
    assert forall|i: int| 0 <= i < ks2.len() implies {
        &&& 0 <= #[trigger] ks2[i] < g.out_edges(ns2[i]).len()
        &&& g.out_edges(ns2[i])[ks2[i]].0 as int == ns2[i + 1]
    } by {
        if i < ks.len() {
            assert(ks2[i] == ks[i]);
            assert(ns2[i] == ns[i]);
            assert(ns2[i + 1] == ns[i + 1]);
        } else {
            assert(ns2[i] == ns.last());
        }
    }
    assert forall|i: int| 0 <= i < ns2.len() implies 0 <= #[trigger] ns2[i]
        < g.node_count() by {
        if i < ns.len() {
            assert(ns2[i] == ns[i]);
        }
    }
    lemma_walk_cost_agree(g, ns2, ks2, ns, ks, ks.len() as int);
    assert(ns2[ks.len() as int] == ns.last());
}

/// Under `costs_bounded`, walk costs are non-negative, and `n` times the
/// cost of `j` steps is at most `j * i64::MAX`.
pub proof fn lemma_walk_cost_bounds<G: CostGraph>(g: G, ns: Seq<int>, ks: Seq<int>, j: int)
    requires
        costs_bounded(g),
        is_walk(g, ns, ks),
        0 <= j <= ks.len(),
    ensures
        0 <= walk_cost(g, ns, ks, j).0,
        0 <= walk_cost(g, ns, ks, j).1,
        g.node_count() * walk_cost(g, ns, ks, j).0 <= j * i64::MAX,
        g.node_count() * walk_cost(g, ns, ks, j).1 <= j * i64::MAX,
    decreases j,
{
    if j > 0 {
        lemma_walk_cost_bounds(g, ns, ks, j - 1);
        let c = g.out_edges(ns[j - 1])[ks[j - 1]].1;
        assert(0 <= ns[j - 1] < g.node_count());
        assert(0 <= c.c1 && g.node_count() * c.c1 <= i64::MAX);
        assert(0 <= c.c2 && g.node_count() * c.c2 <= i64::MAX);
        let a = walk_cost(g, ns, ks, j - 1);
        let n = g.node_count() as int;
        assert(n * (a.0 + c.c1) == n * a.0 + n * c.c1) by (nonlinear_arith);
        assert(n * (a.1 + c.c2) == n * a.1 + n * c.c2) by (nonlinear_arith);
        assert(j * i64::MAX == (j - 1) * i64::MAX + i64::MAX) by (nonlinear_arith);
    }
}

/// With non-negative edge costs, walk costs are non-negative.
pub proof fn lemma_walk_cost_nonneg<G: CostGraph>(g: G, ns: Seq<int>, ks: Seq<int>, j: int)
    requires
        costs_nonneg(g),
        is_walk(g, ns, ks),
        0 <= j <= ks.len(),
    ensures
        0 <= walk_cost(g, ns, ks, j).0,
        0 <= walk_cost(g, ns, ks, j).1,
    decreases j,
{
    if j > 0 {
        lemma_walk_cost_nonneg(g, ns, ks, j - 1);
        assert(0 <= ns[j - 1] < g.node_count());
        let c = g.out_edges(ns[j - 1])[ks[j - 1]].1;
        assert(0 <= c.c1 && 0 <= c.c2);
    }
}

/// Arithmetic behind `costs_bounded`: a simple walk of `len` nodes costs at
/// most `(len - 1) * i64::MAX / n`, one more edge at most `i64::MAX / n`.
proof fn lemma_sum_fits(n: int, len: int, a: int, b: int)
    requires
        1 <= len <= n,
        0 <= a,
        0 <= b,
        n * a <= (len - 1) * i64::MAX,
        n * b <= i64::MAX,
    ensures
        a + b <= i64::MAX,
        len < n ==> a + b < i64::MAX,
{
    assert(n * (a + b) == n * a + n * b) by (nonlinear_arith);
    assert((len - 1) * i64::MAX + i64::MAX == len * i64::MAX) by (nonlinear_arith);
    assert(len * i64::MAX <= n * i64::MAX) by (nonlinear_arith)
        requires
            len <= n,
    ;
    assert(a + b <= i64::MAX) by (nonlinear_arith)
        requires
            n * (a + b) <= n * i64::MAX,
            n >= 1,
    ;
    if len < n {
        assert(len * i64::MAX <= (n - 1) * i64::MAX) by (nonlinear_arith)
            requires
                len <= n - 1,
        ;
        assert(a + b < i64::MAX) by (nonlinear_arith)
            requires
                n * (a + b) <= (n - 1) * i64::MAX,
                n >= 1,
        ;
    }
}

/// Edge costs of at most `i64::MAX / n` keep every search within `i64`.
pub proof fn lemma_bounded_walks_fit<G: CostGraph>(g: G, s: int, d: int)
    requires
        targets_in_range(g),
        costs_bounded(g),
    ensures
        walks_fit(g, s, d),
{
    let n = g.node_count() as int;
    assert forall|ns: Seq<int>, ks: Seq<int>, k: int|
        #![trigger is_walk(g, ns, ks), g.out_edges(ns.last())[k]]
        is_walk(g, ns, ks) && ns[0] == s && ns.no_duplicates() && !ns.contains(d) && 0 <= k
            < g.out_edges(ns.last()).len() implies {
            let e = g.out_edges(ns.last())[k];
            let t = pair_add(total_cost(g, ns, ks), e.1);
            &&& t.0 <= i64::MAX
            &&& t.1 <= i64::MAX
            &&& !ns.contains(e.0 as int) ==> t.1 < i64::MAX
        } by {
        let u = ns.last();
        let e = g.out_edges(u)[k];
        let c = total_cost(g, ns, ks);
        assert(0 <= u < n);
        lemma_simple_walk_len(g, ns, ks);
        lemma_walk_cost_bounds(g, ns, ks, ks.len() as int);
        assert(0 <= e.1.c1 && n * e.1.c1 <= i64::MAX);
        assert(0 <= e.1.c2 && n * e.1.c2 <= i64::MAX);
        lemma_sum_fits(n, ns.len() as int, c.0, e.1.c1 as int);
        lemma_sum_fits(n, ns.len() as int, c.1, e.1.c2 as int);
        assert(e.0 < n);
        if !ns.contains(e.0 as int) {
            let v = e.0 as int;
            lemma_walk_extend(g, ns, ks, k);
            let ns2 = ns.push(v);
            assert(ns2.no_duplicates()) by {
                assert forall|a: int, b: int|
                    0 <= a < ns2.len() && 0 <= b < ns2.len() && a != b implies ns2[a] != ns2[b] by {
                    if a < ns.len() && b < ns.len() {
                        assert(ns2[a] == ns[a] && ns2[b] == ns[b]);
                    } else if a < ns.len() {
                        assert(ns2[a] == ns[a]);
                        assert(ns.contains(ns[a]));
                    } else if b < ns.len() {
                        assert(ns2[b] == ns[b]);
                        assert(ns.contains(ns[b]));
                    }
                }
            }
            lemma_simple_walk_len(g, ns2, ks.push(k));
        }
    }
}

/// A walk without repeated nodes visits at most `node_count` nodes.
pub proof fn lemma_simple_walk_len<G: CostGraph>(g: G, ns: Seq<int>, ks: Seq<int>)
    requires
        is_walk(g, ns, ks),
        ns.no_duplicates(),
    ensures
        ns.len() <= g.node_count(),
{
    let n = g.node_count() as int;
    ns.unique_seq_to_set();
    assert(ns.to_set().subset_of(vstd::set_lib::set_int_range(0, n))) by {
        assert forall|x: int| ns.to_set().contains(x) implies vstd::set_lib::set_int_range(
            0,
            n,
        ).contains(x) by {
            let i = choose|i: int| 0 <= i < ns.len() && ns[i] == x;
            assert(0 <= ns[i] < n);
        }
    }
    vstd::set_lib::lemma_int_range(0, n);
    vstd::set_lib::lemma_len_subset(ns.to_set(), vstd::set_lib::set_int_range(0, n));
}

} // verus!
