//! Exact compute-on-demand bi-objective single-pair baselines.
//!
//! Both run the lexicographic label-setting over the full graph and return the
//! complete Pareto frontier (sorted by c1). They differ only in pruning:
//!   * [`bod`] (bi-objective Dijkstra, Martins): per-node truncated dominance
//!     (`g2_min`) only.
//!   * [`boa_star`] (BOA*): adds the goal bound (`g2_min[dest]`), which
//!     discards labels that cannot improve on the best second cost already
//!     reached at the destination.
//!
//! Both return the same frontier (`lemma_searches_agree`).

use vstd::prelude::*;

use crate::cost::Cost;
use crate::graph::Graph;
use crate::walks::{targets_in_range, walks_fit, CostGraph};
use crate::label_setting::{search, sol_costs, walk_costs, Label};
use crate::pareto::is_frontier_of;

verus! {

/// The costs of the solution labels, in order.
fn solution_costs(labels: &Vec<Label>, sols: &Vec<usize>) -> (r: Vec<Cost>)
    requires
        forall|t: int| 0 <= t < sols@.len() ==> (#[trigger] sols@[t]) < labels@.len(),
    ensures
        r@ == sol_costs(labels@, sols@),
{
    let mut r: Vec<Cost> = Vec::new();
    let mut i: usize = 0;
    while i < sols.len()
        invariant
            i <= sols@.len(),
            forall|t: int| 0 <= t < sols@.len() ==> (#[trigger] sols@[t]) < labels@.len(),
            r@ == sol_costs(labels@, sols@).take(i as int),
        decreases sols@.len() - i,
    {
        r.push(labels[sols[i]].cost);
        i = i + 1;
        proof {
            assert(r@ =~= sol_costs(labels@, sols@).take(i as int));
        }
    }
    proof {
        assert(r@ =~= sol_costs(labels@, sols@));
    }
    r
}

/// Bi-objective Dijkstra (BOD): Martins label-setting with per-node `g2_min`
/// truncated dominance and no goal bound.
pub fn bod(graph: &Graph, o: usize, d: usize) -> (r: Vec<Cost>)
    requires
        targets_in_range(*graph),
        walks_fit(*graph, o as int, d as int),
        o < graph.node_count(),
        d < graph.node_count(),
    ensures
        is_frontier_of(r@, walk_costs(*graph, o as int, d as int)),
{
    let (labels, sols, _order) = search(graph, o, d, false);
    solution_costs(&labels, &sols)
}

/// Bi-objective A* with zero heuristic (BOA*): BOD plus the goal-bound prune
/// (`g2_min[dest]`), which discards any label that cannot improve on the best
/// second cost already reached at the destination.
pub fn boa_star(graph: &Graph, o: usize, d: usize) -> (r: Vec<Cost>)
    requires
        targets_in_range(*graph),
        walks_fit(*graph, o as int, d as int),
        o < graph.node_count(),
        d < graph.node_count(),
    ensures
        is_frontier_of(r@, walk_costs(*graph, o as int, d as int)),
{
    let (labels, sols, _order) = search(graph, o, d, true);
    solution_costs(&labels, &sols)
}

} // verus!
