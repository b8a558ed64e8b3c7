//! The exported workload of a set of queries, as JSON text: the
//! boundary-pair segment cost sets of every query (`pairs.json`) and the
//! largest fragment with the local ids of its boundary nodes (`frag.json`).

use vstd::prelude::*;

use crate::cost::Cost;
use crate::dimacs::{decimal, push_decimal};
use crate::fragments::{frag_front, frontier};
use crate::precompute::{boundary_costs, lemma_live_pairs_unique, live_pairs, local_edge_list, Mepfv};
use crate::walks::CostGraph;

verus! {

/// The decimal text of an integer, with a leading `-` when it is negative.
pub open spec fn int_text(i: int) -> Seq<char> {
    if i < 0 {
        seq!['-'] + decimal((-i) as nat)
    } else {
        decimal(i as nat)
    }
}

/// The items of a list, separated by commas.
pub open spec fn joined(items: Seq<Seq<char>>) -> Seq<char>
    decreases items.len(),
{
    if items.len() == 0 {
        Seq::empty()
    } else if items.len() == 1 {
        items[0]
    } else {
        joined(items.drop_last()) + seq![','] + items.last()
    }
}

/// A JSON list of the given item texts.
pub open spec fn json_list(items: Seq<Seq<char>>) -> Seq<char> {
    seq!['['] + joined(items) + seq![']']
}

/// `[c1,c2]`.
pub open spec fn cost_text(c: Cost) -> Seq<char> {
    json_list(seq![int_text(c.c1 as int), int_text(c.c2 as int)])
}

/// A JSON list of cost pairs.
pub open spec fn costs_json_spec(cs: Seq<Cost>) -> Seq<char> {
    json_list(cs.map_values(|c: Cost| cost_text(c)))
}

/// `{"a":A,"b":B,"c":C}` for one boundary-pair triple.
pub open spec fn triple_text(t: (Seq<Cost>, Seq<Cost>, Seq<Cost>)) -> Seq<char> {
    seq!['{', '"', 'a', '"', ':'] + costs_json_spec(t.0) + seq![',', '"', 'b', '"', ':'] + costs_json_spec(t.1) + seq![
        ',',
        '"',
        'c',
        '"',
        ':',
    ] + costs_json_spec(t.2) + seq!['}']
}

/// The live pairs of boundary nodes of the query `o -> d`, increasing.
pub open spec fn live_keys(m: Mepfv, o: int, d: int) -> Seq<(int, int)> {
    choose|keys: Seq<(int, int)>| live_pairs(m.source_graph(), m.partition(), m.boundary(), o, d, keys)
}

/// The segment frontiers `(A, B, C)` of every live pair of `o -> d`, in the
/// order of the pairs.
pub open spec fn export_spec(m: Mepfv, o: int, d: int) -> Seq<(Seq<Cost>, Seq<Cost>, Seq<Cost>)> {
    let g = m.source_graph();
    let part = m.partition();
    let bl = m.boundary();
    live_keys(m, o, d).map_values(
        |k: (int, int)|
            (frag_front(g, part, o, k.0), frontier(boundary_costs(g, part, bl, k.0, k.1)), frag_front(g, part, k.1, d)),
    )
}

/// The triples of all the queries, query after query.
pub open spec fn workload_triples(m: Mepfv, qs: Seq<(usize, usize)>) -> Seq<(Seq<Cost>, Seq<Cost>, Seq<Cost>)>
    decreases qs.len(),
{
    if qs.len() == 0 {
        Seq::empty()
    } else {
        workload_triples(m, qs.drop_last()) + export_spec(m, qs.last().0 as int, qs.last().1 as int)
    }
}

/// The text of `pairs.json`.
pub open spec fn pairs_json(m: Mepfv, qs: Seq<(usize, usize)>) -> Seq<char> {
    json_list(workload_triples(m, qs).map_values(|t: (Seq<Cost>, Seq<Cost>, Seq<Cost>)| triple_text(t)))
}

/// The largest fragment, the last of them when several tie.
pub open spec fn largest_index(m: Mepfv) -> int {
    choose|f: int|
        #![trigger m.fragment_nodes(f)]
        {
            &&& 0 <= f < m.fragment_count()
            &&& forall|h: int| 0 <= h < m.fragment_count() ==> (#[trigger] m.fragment_nodes(h)).len() <= m.fragment_nodes(f).len()
            &&& forall|h: int| f < h < m.fragment_count() ==> (#[trigger] m.fragment_nodes(h)).len() < m.fragment_nodes(f).len()
        }
}

/// `[from,to,c1,c2]`.
pub open spec fn edge_text(e: (u32, u32, i64, i64)) -> Seq<char> {
    json_list(seq![int_text(e.0 as int), int_text(e.1 as int), int_text(e.2 as int), int_text(e.3 as int)])
}

/// The local ids of the boundary nodes of fragment `f`.
pub open spec fn boundary_locals(m: Mepfv, f: int) -> Seq<u32> {
    Seq::new(m.fragment_boundary(f).len(), |j: int| m.fragment_ids(f)[m.fragment_boundary(f)[j] as int])
}

/// The text of `frag.json`: `{"n":N,"edges":[...],"sources":[...]}`.
pub open spec fn frag_json(m: Mepfv) -> Seq<char> {
    let f = largest_index(m);
    let nodes = m.fragment_nodes(f);
    let edges = local_edge_list(m.source_graph(), nodes, m.fragment_ids(f), nodes.len() as int);
    seq!['{', '"', 'n', '"', ':'] + int_text(nodes.len() as int) + seq![
        ',',
        '"',
        'e',
        'd',
        'g',
        'e',
        's',
        '"',
        ':',
    ] + json_list(edges.map_values(|e: (u32, u32, i64, i64)| edge_text(e))) + seq![
        ',',
        '"',
        's',
        'o',
        'u',
        'r',
        'c',
        'e',
        's',
        '"',
        ':',
    ] + json_list(boundary_locals(m, f).map_values(|x: u32| int_text(x as int))) + seq!['}']
}

/// Adding one more item to a list.
proof fn lemma_joined_push(items: Seq<Seq<char>>, x: Seq<char>)
    ensures
        joined(items.push(x)) == if items.len() == 0 {
            x
        } else {
            joined(items) + seq![','] + x
        },
{
    assert(items.push(x).drop_last() =~= items);
}

/// Appends the decimal text of `v`.
fn push_int(out: &mut String, v: i64)
    ensures
        final(out)@ == old(out)@ + int_text(v as int),
{
    if v < 0 {
        proof {
            reveal_strlit("-");
        }
        out.append("-");
        let m = (0 - (v as i128)) as u64;
        push_decimal(out, m);
        proof {
            assert(final(out)@ =~= old(out)@ + int_text(v as int));
        }
    } else {
        push_decimal(out, v as u64);
    }
}

/// Appends `[c1,c2,...]` for a list of integers given by `vals`.
fn push_int_list(out: &mut String, vals: &Vec<i64>)
    ensures
        final(out)@ == old(out)@ + json_list(vals@.map_values(|v: i64| int_text(v as int))),
{
    proof {
        reveal_strlit("[");
        reveal_strlit(",");
        reveal_strlit("]");
    }
    let ghost items = vals@.map_values(|v: i64| int_text(v as int));
    let ghost start = out@;
    out.append("[");
    let mut i: usize = 0;
    while i < vals.len()
        invariant
            i <= vals@.len(),
            items == vals@.map_values(|v: i64| int_text(v as int)),
            out@ == start + seq!['['] + joined(items.take(i as int)),
        decreases vals@.len() - i,
    {
        proof {
            reveal_strlit(",");
            lemma_joined_push(items.take(i as int), items[i as int]);
            assert(items.take(i + 1) =~= items.take(i as int).push(items[i as int]));
        }
        if i > 0 {
            out.append(",");
        }
        let ghost mid = out@;
        push_int(out, vals[i]);
        proof {
            assert(items[i as int] == int_text(vals@[i as int] as int));
            assert(out@ == mid + items[i as int]);
            if i > 0 {
                assert(mid == start + seq!['['] + joined(items.take(i as int)) + seq![',']);
                assert(joined(items.take(i + 1)) == joined(items.take(i as int)) + seq![','] + items[i as int]);
            } else {
                assert(mid == start + seq!['['] + joined(items.take(i as int)));
                assert(joined(items.take(i + 1)) == items[i as int]);
            }
            assert(out@ =~= start + seq!['['] + joined(items.take(i + 1)));
        }
        i = i + 1;
    }
    proof {
        reveal_strlit("]");
    }
    out.append("]");
    proof {
        assert(items.take(vals@.len() as int) =~= items);
        assert(out@ =~= start + json_list(items));
    }
}

/// Appends the JSON list of a list of costs.
fn push_costs(out: &mut String, cs: &Vec<Cost>)
    ensures
        final(out)@ == old(out)@ + costs_json_spec(cs@),
{
    proof {
        reveal_strlit("[");
        reveal_strlit(",");
        reveal_strlit("]");
    }
    let ghost items = cs@.map_values(|c: Cost| cost_text(c));
    let ghost start = out@;
    out.append("[");
    let mut i: usize = 0;
    while i < cs.len()
        invariant
            i <= cs@.len(),
            items == cs@.map_values(|c: Cost| cost_text(c)),
            out@ == start + seq!['['] + joined(items.take(i as int)),
        decreases cs@.len() - i,
    {
        proof {
            reveal_strlit(",");
            lemma_joined_push(items.take(i as int), items[i as int]);
            assert(items.take(i + 1) =~= items.take(i as int).push(items[i as int]));
        }
        if i > 0 {
            out.append(",");
        }
        let c = cs[i];
        let ghost mid = out@;
        let v = vec![c.c1, c.c2];
        push_int_list(out, &v);
        proof {
            assert(v@.map_values(|v: i64| int_text(v as int)) =~= seq![int_text(c.c1 as int), int_text(c.c2 as int)]);
            assert(items[i as int] == cost_text(cs@[i as int]));
            assert(out@ == mid + items[i as int]);
            if i > 0 {
                assert(mid == start + seq!['['] + joined(items.take(i as int)) + seq![',']);
                assert(joined(items.take(i + 1)) == joined(items.take(i as int)) + seq![','] + items[i as int]);
            } else {
                assert(mid == start + seq!['['] + joined(items.take(i as int)));
                assert(joined(items.take(i + 1)) == items[i as int]);
            }
            assert(out@ =~= start + seq!['['] + joined(items.take(i + 1)));
        }
        i = i + 1;
    }
    proof {
        reveal_strlit("]");
    }
    out.append("]");
    proof {
        assert(items.take(cs@.len() as int) =~= items);
        assert(out@ =~= start + costs_json_spec(cs@));
    }
}

/// The views of a list of triples of cost lists.
pub open spec fn triple_views(v: Seq<(Vec<Cost>, Vec<Cost>, Vec<Cost>)>) -> Seq<(Seq<Cost>, Seq<Cost>, Seq<Cost>)> {
    v.map_values(|t: (Vec<Cost>, Vec<Cost>, Vec<Cost>)| (t.0@, t.1@, t.2@))
}

/// The boundary-pair triples of every query, query after query, as
/// `export_pairs` gives them.
fn all_triples(m: &Mepfv, queries: &Vec<(usize, usize)>) -> (r: Vec<(Vec<Cost>, Vec<Cost>, Vec<Cost>)>)
    requires
        forall|i: int|
            0 <= i < queries@.len() ==> (#[trigger] queries@[i]).0 < m.source_graph().node_count() && queries@[i].1
                < m.source_graph().node_count(),
    ensures
        triple_views(r@) == workload_triples(*m, queries@),
{
    let mut all: Vec<(Vec<Cost>, Vec<Cost>, Vec<Cost>)> = Vec::new();
    let mut q: usize = 0;
    while q < queries.len()
        invariant
            q <= queries@.len(),
            forall|i: int|
                0 <= i < queries@.len() ==> (#[trigger] queries@[i]).0 < m.source_graph().node_count() && queries@[i].1
                    < m.source_graph().node_count(),
            triple_views(all@) == workload_triples(*m, queries@.take(q as int)),
        decreases queries@.len() - q,
    {
        let (o, d) = queries[q];
        let mut ex = m.export_pairs(o, d);
        proof {
            let g = m.source_graph();
            let part = m.partition();
            let bl = m.boundary();
            let keys = choose|keys: Seq<(int, int)>|
                {
                    &&& live_pairs(g, part, bl, o as int, d as int, keys)
                    &&& keys.len() == ex@.len()
                    &&& forall|i: int|
                        0 <= i < ex@.len() ==> {
                            &&& (#[trigger] ex@[i]).0@ == frag_front(g, part, o as int, keys[i].0)
                            &&& ex@[i].1@ == frontier(boundary_costs(g, part, bl, keys[i].0, keys[i].1))
                            &&& ex@[i].2@ == frag_front(g, part, keys[i].1, d as int)
                        }
                };
            lemma_live_pairs_unique(g, part, bl, o as int, d as int, keys, live_keys(*m, o as int, d as int));
            assert(triple_views(ex@) =~= export_spec(*m, o as int, d as int));
            let qs = queries@.take(q + 1);
            assert(qs.drop_last() =~= queries@.take(q as int));
            assert(qs.last() == (o, d));
        }
        let ghost a0 = all@;
        let ghost e0 = ex@;
        all.append(&mut ex);
        proof {
            assert(triple_views(all@) =~= triple_views(a0) + triple_views(e0));
        }
        q = q + 1;
    }
    proof {
        assert(queries@.take(queries@.len() as int) =~= queries@);
    }
    all
}

/// One triple as `{"a":A,"b":B,"c":C}`.
fn push_triple(out: &mut String, t: &(Vec<Cost>, Vec<Cost>, Vec<Cost>))
    ensures
        final(out)@ == old(out)@ + triple_text((t.0@, t.1@, t.2@)),
{
    proof {
        reveal_strlit("{\"a\":");
        reveal_strlit(",\"b\":");
        reveal_strlit(",\"c\":");
        reveal_strlit("}");
    }
    out.append("{\"a\":");
    push_costs(out, &t.0);
    out.append(",\"b\":");
    push_costs(out, &t.1);
    out.append(",\"c\":");
    push_costs(out, &t.2);
    out.append("}");
    proof {
        assert(final(out)@ =~= old(out)@ + triple_text((t.0@, t.1@, t.2@)));
    }
}

/// The JSON list of a list of triples.
fn triples_text(all: &Vec<(Vec<Cost>, Vec<Cost>, Vec<Cost>)>) -> (r: String)
    ensures
        r@ == json_list(triple_views(all@).map_values(|t: (Seq<Cost>, Seq<Cost>, Seq<Cost>)| triple_text(t))),
{
    proof {
        reveal_strlit("[");
    }
    let ghost items = triple_views(all@).map_values(|t: (Seq<Cost>, Seq<Cost>, Seq<Cost>)| triple_text(t));
    let mut s = String::from_str("[");
    let mut i: usize = 0;
    while i < all.len()
        invariant
            i <= all@.len(),
            items == triple_views(all@).map_values(|t: (Seq<Cost>, Seq<Cost>, Seq<Cost>)| triple_text(t)),
            s@ == seq!['['] + joined(items.take(i as int)),
        decreases all@.len() - i,
    {
        proof {
            reveal_strlit(",");
            lemma_joined_push(items.take(i as int), items[i as int]);
            assert(items.take(i + 1) =~= items.take(i as int).push(items[i as int]));
            assert(items[i as int] == triple_text((all@[i as int].0@, all@[i as int].1@, all@[i as int].2@)));
        }
        let ghost s0 = s@;
        if i > 0 {
            s.append(",");
        }
        push_triple(&mut s, &all[i]);
        proof {
            if i > 0 {
                assert(joined(items.take(i + 1)) == joined(items.take(i as int)) + seq![','] + items[i as int]);
                assert(s@ =~= s0 + seq![','] + items[i as int]);
            } else {
                assert(joined(items.take(i + 1)) == items[i as int]);
                assert(s@ =~= s0 + items[i as int]);
            }
            assert(s@ =~= seq!['['] + joined(items.take(i + 1)));
        }
        i = i + 1;
    }
    proof {
        reveal_strlit("]");
    }
    s.append("]");
    proof {
        assert(items.take(all@.len() as int) =~= items);
        assert(s@ =~= json_list(items));
    }
    s
}

/// The JSON list of a list of local edges.
fn edges_text(edges: &Vec<(u32, u32, i64, i64)>) -> (r: String)
    ensures
        r@ == json_list(edges@.map_values(|e: (u32, u32, i64, i64)| edge_text(e))),
{
    proof {
        reveal_strlit("[");
    }
    let ghost items = edges@.map_values(|e: (u32, u32, i64, i64)| edge_text(e));
    let mut s = String::from_str("[");
    let mut k: usize = 0;
    while k < edges.len()
        invariant
            k <= edges@.len(),
            items == edges@.map_values(|e: (u32, u32, i64, i64)| edge_text(e)),
            s@ == seq!['['] + joined(items.take(k as int)),
        decreases edges@.len() - k,
    {
        proof {
            reveal_strlit(",");
            lemma_joined_push(items.take(k as int), items[k as int]);
            assert(items.take(k + 1) =~= items.take(k as int).push(items[k as int]));
            assert(items[k as int] == edge_text(edges@[k as int]));
        }
        let ghost s0 = s@;
        if k > 0 {
            s.append(",");
        }
        let (u, v, c1, c2) = edges[k];
        let vals = vec![u as i64, v as i64, c1, c2];
        let ghost s1 = s@;
        push_int_list(&mut s, &vals);
        proof {
            assert(vals@.map_values(|x: i64| int_text(x as int)) =~= seq![
                int_text(u as int),
                int_text(v as int),
                int_text(c1 as int),
                int_text(c2 as int),
            ]);
            assert(s@ == s1 + items[k as int]);
            if k > 0 {
                assert(joined(items.take(k + 1)) == joined(items.take(k as int)) + seq![','] + items[k as int]);
                assert(s@ =~= s0 + seq![','] + items[k as int]);
            } else {
                assert(joined(items.take(k + 1)) == items[k as int]);
                assert(s@ =~= s0 + items[k as int]);
            }
            assert(s@ =~= seq!['['] + joined(items.take(k + 1)));
        }
        k = k + 1;
    }
    proof {
        reveal_strlit("]");
    }
    s.append("]");
    proof {
        assert(items.take(edges@.len() as int) =~= items);
        assert(s@ =~= json_list(items));
    }
    s
}

/// The text of `frag.json` for view `m`.
fn frag_text(m: &Mepfv) -> (r: String)
    ensures
        r@ == frag_json(*m),
{
    proof {
        reveal_strlit("{\"n\":");
        reveal_strlit(",\"edges\":");
        reveal_strlit(",\"sources\":");
        reveal_strlit("}");
    }
    let (n, edges, srcs) = m.largest_fragment();
    let ghost f = choose|f: int|
        #![trigger m.fragment_nodes(f)]
        {
            &&& 0 <= f < m.fragment_count()
            &&& forall|h: int| 0 <= h < m.fragment_count() ==> (#[trigger] m.fragment_nodes(h)).len() <= m.fragment_nodes(f).len()
            &&& forall|h: int| f < h < m.fragment_count() ==> (#[trigger] m.fragment_nodes(h)).len() < m.fragment_nodes(f).len()
            &&& n == m.fragment_nodes(f).len()
            &&& edges@ == local_edge_list(m.source_graph(), m.fragment_nodes(f), m.fragment_ids(f), n as int)
            &&& srcs@.len() == m.fragment_boundary(f).len()
            &&& forall|j: int| 0 <= j < srcs@.len() ==> #[trigger] srcs@[j] == m.fragment_ids(f)[m.fragment_boundary(f)[j] as int]
        };
    proof {
        let f2 = largest_index(*m);
        if f2 < f {
            assert(m.fragment_nodes(f).len() < m.fragment_nodes(f2).len());
            assert(m.fragment_nodes(f2).len() <= m.fragment_nodes(f).len());
        }
        if f < f2 {
            assert(m.fragment_nodes(f2).len() < m.fragment_nodes(f).len());
            assert(m.fragment_nodes(f).len() <= m.fragment_nodes(f2).len());
        }
        assert(f2 == f);
        assert(srcs@ =~= boundary_locals(*m, f));
    }
    let mut t = String::from_str("{\"n\":");
    push_int(&mut t, n as i64);
    t.append(",\"edges\":");
    let et = edges_text(&edges);
    t.append(et.as_str());
    t.append(",\"sources\":");
    let mut sv: Vec<i64> = Vec::new();
    let mut j: usize = 0;
    while j < srcs.len()
        invariant
            j <= srcs@.len(),
            sv@.len() == j,
            forall|x: int| 0 <= x < j ==> #[trigger] sv@[x] as int == srcs@[x] as int,
        decreases srcs@.len() - j,
    {
        sv.push(srcs[j] as i64);
        j = j + 1;
    }
    push_int_list(&mut t, &sv);
    t.append("}");
    proof {
        assert(sv@.map_values(|v: i64| int_text(v as int)) =~= boundary_locals(*m, f).map_values(|x: u32| int_text(x as int)));
        assert(t@ =~= frag_json(*m));
    }
    t
}

/// The exported workload of `queries` on view `m`: the text of
/// `pairs.json` (every boundary-pair triple `(A, B, C)` of every query, as
/// `{"a":[[c1,c2],...],"b":...,"c":...}`, in one list) and of `frag.json`
/// (the largest fragment's node count, edges `[from,to,c1,c2]` in local ids,
/// and the local ids of its boundary nodes).
pub fn workload_json(m: &Mepfv, queries: &Vec<(usize, usize)>) -> (r: (String, String))
    requires
        forall|i: int|
            0 <= i < queries@.len() ==> (#[trigger] queries@[i]).0 < m.source_graph().node_count() && queries@[i].1
                < m.source_graph().node_count(),
    ensures
        r.0@ == pairs_json(*m, queries@),
        r.1@ == frag_json(*m),
{
    let all = all_triples(m, queries);
    let s = triples_text(&all);
    let t = frag_text(m);
    (s, t)
}

/// Two views of one graph under one partition export alike: whatever the
/// number of threads that built them, they have the same boundary nodes and
/// the same boundary-pair triples for every query.
pub proof fn lemma_views_export_alike(m1: Mepfv, m2: Mepfv)
    requires
        m1.shape_ok(),
        m2.shape_ok(),
        m1.source_graph() == m2.source_graph(),
        m1.partition() == m2.partition(),
    ensures
        m1.boundary() == m2.boundary(),
        forall|o: int, d: int| #[trigger] export_spec(m1, o, d) == export_spec(m2, o, d),
{
    crate::precompute::lemma_views_same_boundary(m1, m2);
    assert forall|o: int, d: int| #[trigger] export_spec(m1, o, d) == export_spec(m2, o, d) by {
        assert(live_keys(m1, o, d) == live_keys(m2, o, d));
    }
}

} // verus!
