//! Scenarios for the partitioners, the parsers, the view's exports and the
//! laws the library states, each on small inputs worked out by hand.

use mbor::graph::{Cost, Graph};
use mbor::label_setting::{pareto_costs, pareto_search};
use mbor::pareto::{insert_nondominated, minkowski_sum, pareto_filter};
use mbor::dimacs::{dimacs_fits, parse_queries};
use mbor::precompute::{contiguous_partition, cost_limits, Mepfv};
use mbor::workload::workload_json;
use mbor::{bfs_partition, boa_star, bod, parse_partition};

const TOY: &str = "\
8 20
1 2 1 3
1 3 7 8
1 4 3 6
2 1 1 3
2 4 3 2
3 1 7 8
3 5 1 2
4 1 3 6
4 2 3 2
4 6 5 6
5 3 1 2
5 7 9 7
6 4 5 6
6 7 2 3
6 8 2 5
7 5 9 7
7 6 2 3
7 8 1 3
8 6 2 5
8 7 1 3
";

fn toy() -> Graph {
    Graph::from_dimacs_str(TOY).unwrap()
}

#[test]
fn contiguous_partition_splits_by_id_range() {
    assert_eq!(
        contiguous_partition(10, 3),
        vec![0, 0, 0, 0, 1, 1, 1, 2, 2, 2]
    );
    assert_eq!(contiguous_partition(5, 1), vec![0, 0, 0, 0, 0]);
    assert_eq!(contiguous_partition(4, 4), vec![0, 1, 2, 3]);
}

#[test]
fn bfs_partition_grows_regions_from_seeds() {
    // Seeds at nodes 0 and 4; region 1 reaches 6 before region 0 and then 7.
    let part = bfs_partition(&toy(), 2);
    assert_eq!(part, vec![0, 0, 0, 0, 1, 0, 1, 1]);
}

#[test]
fn bfs_partition_sends_unreached_nodes_to_region_zero() {
    let g = Graph::from_edges(4, vec![(0, 1, Cost::new(1, 1))]);
    // Seeds 0 and 2; node 3 is cut off from both.
    assert_eq!(bfs_partition(&g, 2), vec![0, 0, 1, 0]);
    // Seeds 0, 1 and 2: every seed keeps its own region.
    assert_eq!(bfs_partition(&g, 3), vec![0, 1, 2, 0]);
}

#[test]
fn bfs_partition_single_region() {
    assert_eq!(bfs_partition(&toy(), 1), vec![0; 8]);
}

#[test]
fn parse_partition_reads_whitespace_separated_ids() {
    assert_eq!(parse_partition("0 1\n2\n\n  3\t4\n"), Ok(vec![0, 1, 2, 3, 4]));
    assert_eq!(parse_partition(""), Ok(vec![]));
    assert_eq!(parse_partition("4294967295"), Ok(vec![u32::MAX]));
}

#[test]
fn parse_partition_reports_the_first_bad_field() {
    assert_eq!(
        parse_partition("0 x 99999999999"),
        Err("invalid digit found in string".to_string())
    );
    assert_eq!(
        parse_partition("0 4294967296 x"),
        Err("number too large to fit in target type".to_string())
    );
    assert_eq!(
        parse_partition("-1"),
        Err("invalid digit found in string".to_string())
    );
}

#[test]
fn dimacs_rejections_name_the_problem() {
    let err = |s: &str| Graph::from_dimacs_str(s).err().unwrap();
    assert_eq!(err(""), "empty input");
    assert_eq!(err("  \n\n"), "empty input");
    assert_eq!(err("3"), "missing edge count");
    assert_eq!(err("x 1"), "bad node count: invalid digit found in string");
    assert_eq!(err("3 y"), "bad edge count: invalid digit found in string");
    assert_eq!(err("2 1\n0 1 1 1"), "line 0: node ids must be 1-indexed");
    assert_eq!(err("2 1\n1 2 1 1\n1 3 1 1"), "line 1: node id exceeds declared count 2");
    assert_eq!(err("2 1\n1 2 -1 1"), "line 0: costs must be non-negative");
    assert_eq!(err("2 1\n1 2 1"), "line 0: missing c2");
    assert_eq!(err("2 1\n1"), "line 0: missing to");
    assert_eq!(
        err("2 1\n1 2 a 1"),
        "line 0: bad c1: invalid digit found in string"
    );
}

#[test]
fn dimacs_edge_count_is_advisory() {
    let g = Graph::from_dimacs_str("3 99\n1 2 4 5\n\n2 3 1 1\n").unwrap();
    assert_eq!(g.num_nodes(), 3);
    assert_eq!(g.num_edges(), 2);
    assert_eq!(g.neighbors(0), vec![(1, Cost::new(4, 5))]);
    assert_eq!(g.neighbors(1), vec![(2, Cost::new(1, 1))]);
    assert_eq!(g.neighbors(2), vec![]);
}

#[test]
fn from_edges_groups_by_source_in_input_order() {
    let g = Graph::from_edges(
        3,
        vec![
            (2, 0, Cost::new(1, 1)),
            (0, 2, Cost::new(2, 2)),
            (0, 1, Cost::new(3, 3)),
        ],
    );
    assert_eq!(g.num_edges(), 3);
    assert_eq!(
        g.neighbors(0),
        vec![(2, Cost::new(2, 2)), (1, Cost::new(3, 3))]
    );
    assert_eq!(g.neighbors(1), vec![]);
    assert_eq!(g.neighbors(2), vec![(0, Cost::new(1, 1))]);
}

#[test]
fn unreachable_destination_has_empty_frontier() {
    let g = Graph::from_edges(3, vec![(0, 1, Cost::new(1, 1))]);
    assert_eq!(pareto_costs(&g, 0, 2), vec![]);
    assert!(pareto_search(&g, 0, 2).is_empty());
    assert_eq!(bod(&g, 0, 2), vec![]);
    assert_eq!(boa_star(&g, 0, 2), vec![]);
}

#[test]
fn searches_agree_on_every_toy_pair() {
    let g = toy();
    for o in 0..8 {
        for d in 0..8 {
            let exact = pareto_costs(&g, o, d);
            assert_eq!(bod(&g, o, d), exact);
            assert_eq!(boa_star(&g, o, d), exact);
        }
    }
}

#[test]
fn same_node_frontier_is_zero_everywhere() {
    let g = toy();
    let m = Mepfv::build_contiguous(&g, 3);
    for o in 0..8 {
        assert_eq!(pareto_costs(&g, o, o), vec![Cost::new(0, 0)]);
        assert_eq!(m.query(o, o), vec![Cost::new(0, 0)]);
        let (front, stats) = m.query_adv(o, o);
        assert_eq!(front, vec![Cost::new(0, 0)]);
        assert_eq!(stats.pairs_total, 0);
        assert_eq!(stats.pairs_pruned, 0);
        assert_eq!(stats.combinations, 0);
    }
}

#[test]
fn view_answers_do_not_depend_on_the_partition() {
    let g = toy();
    let parts: Vec<Vec<u32>> = vec![
        vec![0; 8],
        vec![1, 0, 1, 0, 1, 0, 1, 0],
        vec![3, 3, 0, 1, 2, 2, 1, 0],
        bfs_partition(&g, 3),
    ];
    for part in parts {
        let m = Mepfv::build(&g, part);
        for o in 0..8 {
            for d in 0..8 {
                assert_eq!(m.query(o, d), pareto_costs(&g, o, d));
            }
        }
    }
}

#[test]
fn adv_stats_account_for_every_pair() {
    let g = toy();
    let m = Mepfv::build_contiguous(&g, 2);
    let (front, stats) = m.query_adv(0, 7);
    assert_eq!(front, vec![Cost::new(10, 17), Cost::new(11, 16)]);
    // Boundary nodes 2, 3 on the origin side and 4, 5 on the destination side.
    assert_eq!(stats.pairs_total, 4);
    // Corner first: (3, 5) with corner (10, 16) is combined and yields
    // (10, 17), which is no worse than the corners (18, 20), (21, 25) and
    // (24, 30) of the other three pairs.
    assert_eq!(stats.combinations, 1);
    assert_eq!(stats.pairs_pruned, 3);
    assert_eq!(m.query_adv_costs(0, 7), front);
}

#[test]
fn toy_boundary_of_two_halves() {
    let m = Mepfv::build_contiguous(&toy(), 2);
    assert_eq!(m.num_boundary(), 4);
}

#[test]
fn exported_pairs_combine_to_the_frontier() {
    let g = toy();
    let m = Mepfv::build_contiguous(&g, 2);
    let pairs = m.export_pairs(0, 7);
    assert_eq!(pairs.len(), 4);
    let mut all = Vec::new();
    for (a, b, c) in &pairs {
        assert!(!a.is_empty() && !b.is_empty() && !c.is_empty());
        let ab = minkowski_sum(a, b);
        all.extend(minkowski_sum(&ab, c));
    }
    assert_eq!(pareto_filter(all), pareto_costs(&g, 0, 7));
}

#[test]
fn exported_pairs_skip_unreachable_segments() {
    // 0 -> 1 -> 2 -> 3 with fragments {0, 1} and {2, 3}: no path back.
    let g = Graph::from_edges(
        4,
        vec![
            (0, 1, Cost::new(1, 2)),
            (1, 2, Cost::new(3, 1)),
            (2, 3, Cost::new(2, 2)),
        ],
    );
    let m = Mepfv::build(&g, vec![0, 0, 1, 1]);
    assert_eq!(m.num_boundary(), 2);
    assert_eq!(
        m.export_pairs(0, 3),
        vec![(
            vec![Cost::new(1, 2)],
            vec![Cost::new(3, 1)],
            vec![Cost::new(2, 2)]
        )]
    );
    assert_eq!(m.export_pairs(3, 0), vec![]);
    assert_eq!(m.query(0, 3), vec![Cost::new(6, 5)]);
    assert_eq!(m.query(3, 0), vec![]);
}

#[test]
fn largest_fragment_is_the_last_of_the_largest() {
    let m = Mepfv::build_contiguous(&toy(), 2);
    let (n, edges, srcs) = m.largest_fragment();
    // Fragment 1 holds nodes 4..8; its boundary nodes 4 and 5 are local 0 and 1.
    assert_eq!(n, 4);
    assert_eq!(edges.len(), 8);
    for &(u, v, c1, c2) in &edges {
        assert!(u < 4 && v < 4);
        assert!(c1 >= 0 && c2 >= 0);
    }
    assert!(edges.contains(&(0, 2, 9, 7)));
    assert!(edges.contains(&(3, 2, 1, 3)));
    assert_eq!(srcs, vec![0, 1]);
}

#[test]
fn minkowski_sum_of_frontiers_is_the_frontier_of_sums() {
    let a = vec![Cost::new(1, 5), Cost::new(3, 2)];
    let b = vec![Cost::new(0, 4), Cost::new(2, 1)];
    // Sums (1,9) (3,6) (3,6) (5,3): the duplicate is kept once.
    assert_eq!(
        minkowski_sum(&a, &b),
        vec![Cost::new(1, 9), Cost::new(3, 6), Cost::new(5, 3)]
    );
    assert_eq!(minkowski_sum(&a, &[]), vec![]);
    assert_eq!(minkowski_sum(&[], &b), vec![]);
}

#[test]
fn pareto_filter_sorts_by_first_cost() {
    let f = pareto_filter(vec![
        Cost::new(5, 1),
        Cost::new(1, 5),
        Cost::new(3, 3),
        Cost::new(3, 4),
        Cost::new(6, 6),
    ]);
    assert_eq!(f, vec![Cost::new(1, 5), Cost::new(3, 3), Cost::new(5, 1)]);
    assert_eq!(pareto_filter(vec![]), vec![]);
}

#[test]
fn insert_nondominated_evicts_what_the_new_cost_dominates() {
    let mut f = vec![Cost::new(4, 4), Cost::new(2, 6), Cost::new(6, 2)];
    assert!(insert_nondominated(&mut f, Cost::new(3, 3)));
    assert_eq!(f.len(), 3);
    assert!(f.contains(&Cost::new(3, 3)));
    assert!(!f.contains(&Cost::new(4, 4)));
    assert!(insert_nondominated(&mut f, Cost::new(0, 0)));
    assert_eq!(f, vec![Cost::new(0, 0)]);
}

#[test]
fn dominance_is_a_strict_order() {
    let a = Cost::new(1, 1);
    let b = Cost::new(1, 2);
    let c = Cost::new(2, 2);
    assert!(a.dominates(b) && b.dominates(c) && a.dominates(c));
    assert!(!b.dominates(a));
    assert!(!c.dominates(c));
}

#[test]
fn cost_addition_is_componentwise() {
    let mut acc = Cost::new(1, 2);
    acc += Cost::new(10, 20);
    assert_eq!(acc, Cost::new(11, 22));
    assert_eq!(Cost::new(3, 4) + Cost::new(5, 6), Cost::new(8, 10));
}

#[test]
fn pareto_paths_have_their_costs() {
    let g = toy();
    let sols = pareto_search(&g, 0, 7);
    let costs: Vec<Cost> = sols.iter().map(|p| p.cost).collect();
    assert_eq!(costs, pareto_costs(&g, 0, 7));
    for p in &sols {
        assert_eq!(p.path.first(), Some(&0));
        assert_eq!(p.path.last(), Some(&7));
    }
}

#[test]
fn parse_queries_reads_one_indexed_pairs() {
    assert_eq!(
        parse_queries("1 8\n\n3 3 extra\nbad line\n2\n5 x\n 4\t1\n"),
        Some(vec![(0, 7), (2, 2), (3, 0)])
    );
    assert_eq!(parse_queries(""), Some(vec![]));
    assert_eq!(parse_queries("1 2\n0 5\n"), None);
    assert_eq!(parse_queries("1 0"), None);
}

#[test]
fn cost_limits_follow_the_node_count() {
    let g = Graph::from_edges(2, vec![(0, 1, Cost::new(1, i64::MAX / 2))]);
    // 2 * c fits in i64, 4 * c does not.
    assert_eq!(cost_limits(&g), (true, false));
    let g = Graph::from_edges(2, vec![(0, 1, Cost::new(3, i64::MAX / 4))]);
    assert_eq!(cost_limits(&g), (true, true));
    let g = Graph::from_edges(2, vec![(0, 1, Cost::new(-1, 0))]);
    assert_eq!(cost_limits(&g), (false, false));
    assert_eq!(cost_limits(&toy()), (true, true));
}

#[test]
fn dimacs_fits_ordinary_inputs() {
    assert!(dimacs_fits(TOY));
    assert!(dimacs_fits("not a graph"));
    assert!(!dimacs_fits("18446744073709551615 0\n"));
}

#[test]
fn bfs_partition_assigns_the_nearest_seed() {
    // A path 0 - 1 - 2 - 3 - 4 - 5 with seeds 0 and 3: node 2 is one edge
    // from seed 3 and two from seed 0.
    let edges = (0..5u32).map(|u| (u, u + 1, Cost::new(1, 1))).collect();
    let g = Graph::from_edges(6, edges);
    assert_eq!(bfs_partition(&g, 2), vec![0, 0, 1, 1, 1, 1]);
    // Seeds 0, 2 and 4.
    assert_eq!(bfs_partition(&g, 3), vec![0, 0, 1, 1, 2, 2]);
}

#[test]
fn workload_json_renders_pairs_and_fragment() {
    let m = Mepfv::build_contiguous(&toy(), 2);
    let (pairs, frag) = workload_json(&m, &vec![(0, 7)]);
    assert_eq!(
        pairs,
        "[{\"a\":[[7,8]],\"b\":[[1,2]],\"c\":[[10,10]]},\
{\"a\":[[7,8]],\"b\":[[12,12]],\"c\":[[2,5]]},\
{\"a\":[[3,6],[4,5]],\"b\":[[11,16],[12,15]],\"c\":[[10,10]]},\
{\"a\":[[3,6],[4,5]],\"b\":[[5,6]],\"c\":[[2,5]]}]"
    );
    assert_eq!(
        frag,
        "{\"n\":4,\"edges\":[[0,2,9,7],[1,2,2,3],[1,3,2,5],[2,0,9,7],[2,1,2,3],[2,3,1,3],[3,1,2,5],[3,2,1,3]],\"sources\":[0,1]}"
    );
    let (empty, _) = workload_json(&m, &vec![]);
    assert_eq!(empty, "[]");
}

#[test]
fn pareto_filter_keeps_the_largest_costs() {
    assert_eq!(
        pareto_filter(vec![Cost::new(0, i64::MAX)]),
        vec![Cost::new(0, i64::MAX)]
    );
    assert_eq!(
        pareto_filter(vec![Cost::new(5, i64::MAX), Cost::new(i64::MAX, 0)]),
        vec![Cost::new(5, i64::MAX), Cost::new(i64::MAX, 0)]
    );
    assert_eq!(
        minkowski_sum(&[Cost::new(0, i64::MAX - 1)], &[Cost::new(2, 1)]),
        vec![Cost::new(2, i64::MAX)]
    );
}

#[test]
fn pareto_paths_visit_no_node_twice() {
    // Zero-cost cycles through the source add nothing.
    let g = Graph::from_edges(
        3,
        vec![
            (0, 1, Cost::new(0, 0)),
            (1, 0, Cost::new(0, 0)),
            (1, 2, Cost::new(1, 1)),
            (2, 1, Cost::new(0, 0)),
        ],
    );
    let s = pareto_search(&g, 0, 0);
    assert_eq!(s.len(), 1);
    assert_eq!(s[0].cost, Cost::new(0, 0));
    assert_eq!(s[0].path, vec![0]);
    let t = pareto_search(&g, 0, 2);
    assert_eq!(t.len(), 1);
    assert_eq!(t[0].path, vec![0, 1, 2]);
}

#[test]
fn searches_accept_costs_whose_sums_fit() {
    // One edge alone costs half of i64::MAX; the path sum still fits.
    let big = i64::MAX / 2;
    let g = Graph::from_edges(3, vec![(0, 1, Cost::new(big, 0)), (1, 2, Cost::new(1, 0))]);
    assert_eq!(cost_limits(&g), (false, false));
    let s = pareto_search(&g, 0, 2);
    assert_eq!(s.len(), 1);
    assert_eq!(s[0].cost, Cost::new(big + 1, 0));
    assert_eq!(s[0].path, vec![0, 1, 2]);
    assert_eq!(bod(&g, 0, 2), vec![Cost::new(big + 1, 0)]);
    assert_eq!(boa_star(&g, 0, 2), vec![Cost::new(big + 1, 0)]);
}

#[test]
fn same_node_query_forms_no_sum() {
    let m = i64::MAX;
    let g = Graph::from_edges(2, vec![(0, 1, Cost::new(m, m)), (1, 0, Cost::new(m, m))]);
    let s = pareto_search(&g, 0, 0);
    assert_eq!(s.len(), 1);
    assert_eq!(s[0].cost, Cost::new(0, 0));
    assert_eq!(s[0].path, vec![0]);
    assert_eq!(bod(&g, 1, 1), vec![Cost::new(0, 0)]);
}
