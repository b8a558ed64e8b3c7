//! Pareto-set utilities: the frontier specification, maintaining a
//! non-dominated frontier, and the Minkowski sum of two frontiers.

use vstd::prelude::*;

use crate::cost::{lex_le, weakly_le, Cost};

verus! {

/// The pair `(c1, c2)` of a cost as mathematical integers.
pub open spec fn pair_of(c: Cost) -> (int, int) {
    (c.c1 as int, c.c2 as int)
}

/// `c` is no worse than the integer pair `p` in both components.
pub open spec fn le_pair(c: Cost, p: (int, int)) -> bool {
    c.c1 <= p.0 && c.c2 <= p.1
}

/// Sorted by `c1` strictly ascending and `c2` strictly descending, so no
/// member dominates or equals another.
pub open spec fn strictly_sorted(r: Seq<Cost>) -> bool {
    forall|i: int, j: int|
        0 <= i < j < r.len() ==> (#[trigger] r[i]).c1 < (#[trigger] r[j]).c1 && r[i].c2 > r[j].c2
}

/// `r` is the Pareto frontier of the set of integer pairs `member`: every
/// member of `r` is in the set, every element of the set is weakly dominated
/// by (or equal to) a member of `r`, and `r` is sorted by `c1` ascending with
/// `c2` strictly descending.
pub open spec fn is_frontier_of(r: Seq<Cost>, member: spec_fn((int, int)) -> bool) -> bool {
    &&& strictly_sorted(r)
    &&& forall|i: int| 0 <= i < r.len() ==> #[trigger] member(pair_of(r[i]))
    &&& forall|p: (int, int)|
        #[trigger] member(p) ==> exists|i: int| 0 <= i < r.len() && #[trigger] le_pair(r[i], p)
}

/// Integer pairs of the members of `s`.
pub open spec fn members_of(s: Seq<Cost>) -> spec_fn((int, int)) -> bool {
    |p: (int, int)| exists|i: int| 0 <= i < s.len() && #[trigger] pair_of(s[i]) == p
}

/// Sorted by `(c1, c2)` lexicographically, ties allowed.
pub open spec fn lex_sorted(s: Seq<Cost>) -> bool {
    forall|i: int, j: int| 0 <= i < j < s.len() ==> lex_le(#[trigger] s[i], #[trigger] s[j])
}

/// Insertion sort by `(c1, c2)`; the result holds the same costs.
fn sort_lex(costs: Vec<Cost>) -> (r: Vec<Cost>)
    ensures
        lex_sorted(r@),
        forall|x: Cost| #[trigger] r@.contains(x) <==> costs@.contains(x),
{
    let mut out: Vec<Cost> = Vec::new();
    let mut i: usize = 0;
    while i < costs.len()
        invariant
            i <= costs@.len(),
            lex_sorted(out@),
            forall|x: Cost| #[trigger] out@.contains(x) <==> costs@.take(i as int).contains(x),
        decreases costs@.len() - i,
    {
        let c = costs[i];
        // Place `c` after every entry that is not greater than it.
        let mut pos: usize = 0;
        while pos < out.len() && (out[pos].c1 < c.c1 || (out[pos].c1 == c.c1 && out[pos].c2 <= c.c2))
            invariant
                pos <= out@.len(),
                lex_sorted(out@),
                forall|k: int| 0 <= k < pos ==> lex_le(#[trigger] out@[k], c),
            decreases out@.len() - pos,
        {
            pos = pos + 1;
        }
        let ghost o0 = out@;
        out.insert(pos, c);
        proof {
            assert(pos < o0.len() ==> !lex_le(o0[pos as int], c));
            assert forall|a: int, b: int| 0 <= a < b < out@.len() implies lex_le(
                #[trigger] out@[a],
                #[trigger] out@[b],
            ) by {
                if b < pos {
                    assert(out@[a] == o0[a] && out@[b] == o0[b]);
                } else if b == pos {
                    assert(out@[a] == o0[a]);
                } else if a < pos {
                    assert(out@[a] == o0[a] && out@[b] == o0[b - 1]);
                } else if a == pos {
                    assert(out@[b] == o0[b - 1]);
                    assert(lex_le(o0[pos as int], o0[b - 1]));
                } else {
                    assert(out@[a] == o0[a - 1] && out@[b] == o0[b - 1]);
                }
            }
            assert(costs@.take(i + 1) =~= costs@.take(i as int).push(c));
            assert forall|x: Cost| #[trigger] out@.contains(x) <==> costs@.take(i + 1).contains(x) by {
                if out@.contains(x) {
                    let k = choose|k: int| 0 <= k < out@.len() && out@[k] == x;
                    if k < pos {
                        assert(o0[k] == x);
                        assert(o0.contains(x));
                    } else if k > pos {
                        assert(o0[k - 1] == x);
                        assert(o0.contains(x));
                    }
                    assert(costs@.take(i + 1)[i as int] == c);
                }
                if costs@.take(i + 1).contains(x) {
                    if x == c {
                        assert(out@[pos as int] == c);
                    } else {
                        let tk = costs@.take(i + 1);
                        let k = choose|k: int| 0 <= k < tk.len() && tk[k] == x;
                        assert(costs@.take(i as int)[k] == x);
                        assert(o0.contains(x));
                        let p = choose|p: int| 0 <= p < o0.len() && o0[p] == x;
                        if p < pos {
                            assert(out@[p] == x);
                        } else {
                            assert(out@[p + 1] == x);
                        }
                    }
                }
            }
        }
        i = i + 1;
    }
    proof {
        assert(costs@.take(costs@.len() as int) =~= costs@);
    }
    out
}

/// `o` is one of the first `i` sorted entries.
#[verifier::opaque]
spec fn kept_from(sorted: Seq<Cost>, i: int, o: Cost) -> bool {
    exists|j: int| 0 <= j < i && sorted[j] == o
}

/// Some member of `out` is no worse than `x`.
#[verifier::opaque]
spec fn covered_by(out: Seq<Cost>, x: Cost) -> bool {
    exists|k: int| 0 <= k < out.len() && weakly_le(out[k], x)
}

/// The frontier scan over a lexicographically sorted sequence has processed
/// its first `i` entries into `out`, with `best` the last kept `c2`.
spec fn scan_ok(sorted: Seq<Cost>, i: int, out: Seq<Cost>, best: i128) -> bool {
    &&& 0 <= i <= sorted.len()
    &&& lex_sorted(sorted)
    &&& strictly_sorted(out)
    &&& forall|k: int| 0 <= k < out.len() ==> kept_from(sorted, i, #[trigger] out[k])
    &&& forall|j: int| 0 <= j < i ==> covered_by(out, #[trigger] sorted[j])
    &&& best as int == if out.len() == 0 {
        i64::MAX as int + 1
    } else {
        out.last().c2 as int
    }
}

proof fn lemma_scan_keep(sorted: Seq<Cost>, i: int, out: Seq<Cost>, best: i128)
    requires
        scan_ok(sorted, i, out, best),
        i < sorted.len(),
        sorted[i].c2 < best,
    ensures
        scan_ok(sorted, i + 1, out.push(sorted[i]), sorted[i].c2 as i128),
{
    let c = sorted[i];
    let o2 = out.push(c);
    if out.len() > 0 {
        let lk = out.len() - 1;
        assert(out[lk].c1 < c.c1) by {
            reveal(kept_from);
            assert(kept_from(sorted, i, out[lk]));
            let j0 = choose|j: int| 0 <= j < i && sorted[j] == out[lk] ;
            assert(lex_le(sorted[j0], sorted[i]));
        }
    }
    assert forall|a: int, b: int| 0 <= a < b < o2.len() implies (#[trigger] o2[a]).c1 < (
    #[trigger] o2[b]).c1 && o2[a].c2 > o2[b].c2 by {
        if b < out.len() {
            assert(o2[a] == out[a] && o2[b] == out[b]);
        } else {
            assert(o2[a] == out[a]);
            if a < out.len() - 1 {
                assert(out[a].c1 < out[out.len() - 1].c1);
            }
        }
    }
    assert forall|k: int| 0 <= k < o2.len() implies kept_from(sorted, i + 1, #[trigger] o2[k]) by {
        reveal(kept_from);
        if k < out.len() {
            assert(o2[k] == out[k]);
            assert(kept_from(sorted, i, out[k]));
            let j = choose|j: int| 0 <= j < i && sorted[j] == out[k];
            assert(0 <= j < i + 1 && sorted[j] == o2[k]);
        } else {
            assert(sorted[i] == o2[k]);
        }
    }
    assert forall|j: int| 0 <= j < i + 1 implies covered_by(
        o2,
        #[trigger] sorted[j],
    ) by {
        reveal(covered_by);
        if j < i {
            assert(covered_by(out, sorted[j]));
            let k = choose|k: int| 0 <= k < out.len() && weakly_le(out[k], sorted[j]);
            assert(o2[k] == out[k]);
        } else {
            assert(o2[out.len() as int] == c);
            assert(weakly_le(o2[out.len() as int], sorted[j]));
        }
    }
}

proof fn lemma_scan_skip(sorted: Seq<Cost>, i: int, out: Seq<Cost>, best: i128)
    requires
        scan_ok(sorted, i, out, best),
        i < sorted.len(),
        sorted[i].c2 >= best,
    ensures
        scan_ok(sorted, i + 1, out, best),
{
    reveal(kept_from);
    reveal(covered_by);
    assert forall|j: int| 0 <= j < i + 1 implies covered_by(
        out,
        #[trigger] sorted[j],
    ) by {
        if j == i {
            let lk = out.len() - 1;
            assert(kept_from(sorted, i, out[lk]));
            let j0 = choose|j: int| 0 <= j < i && sorted[j] == out[lk] ;
            assert(lex_le(sorted[j0], sorted[i]));
            assert(weakly_le(out[lk], sorted[j]));
        }
    }
    assert forall|k: int| 0 <= k < out.len() implies kept_from(sorted, i + 1, #[trigger] out[k]) by {
        assert(kept_from(sorted, i, out[k]));
        let j = choose|j: int| 0 <= j < i && sorted[j] == out[k];
        assert(0 <= j < i + 1 && sorted[j] == out[k]);
    }
}

/// Reduce an arbitrary multiset of cost pairs to its Pareto frontier, returned
/// sorted by `c1` ascending (so `c2` is strictly decreasing along the result).
pub fn pareto_filter(costs: Vec<Cost>) -> (r: Vec<Cost>)
    ensures
        is_frontier_of(r@, members_of(costs@)),
{
    let ghost input = costs@;
    let sorted = sort_lex(costs);
    let mut out: Vec<Cost> = Vec::new();
    // Above every `i64`, so that the first pair is always kept.
    let mut best_c2: i128 = i64::MAX as i128 + 1;
    let mut i: usize = 0;
    while i < sorted.len()
        invariant
            scan_ok(sorted@, i as int, out@, best_c2),
        decreases sorted@.len() - i,
    {
        let c = sorted[i];
        // With c1 non-decreasing, a point is non-dominated iff its c2 strictly
        // improves on the best c2 seen so far.
        if (c.c2 as i128) < best_c2 {
            proof {
                lemma_scan_keep(sorted@, i as int, out@, best_c2);
            }
            out.push(c);
            best_c2 = c.c2 as i128;
        } else {
            proof {
                lemma_scan_skip(sorted@, i as int, out@, best_c2);
            }
        }
        i = i + 1;
    }
    proof {
        reveal(kept_from);
        reveal(covered_by);
        let member = members_of(input);
        assert forall|k: int| 0 <= k < out@.len() implies #[trigger] member(pair_of(out@[k])) by {
            assert(kept_from(sorted@, sorted@.len() as int, out@[k]));
            let j = choose|j: int| 0 <= j < sorted@.len() && sorted@[j] == out@[k];
            assert(sorted@.contains(out@[k]));
            assert(input.contains(out@[k]));
            let t = choose|t: int| 0 <= t < input.len() && input[t] == out@[k];
            assert(pair_of(input[t]) == pair_of(out@[k]));
        }
        assert forall|p: (int, int)| #[trigger] member(p) implies exists|k: int|
            0 <= k < out@.len() && #[trigger] le_pair(out@[k], p) by {
            let t = choose|t: int| 0 <= t < input.len() && #[trigger] pair_of(input[t]) == p;
            assert(input.contains(input[t]));
            assert(sorted@.contains(input[t]));
            let j = choose|j: int| 0 <= j < sorted@.len() && sorted@[j] == input[t];
            assert(covered_by(out@, sorted@[j]));
            let k = choose|k: int| 0 <= k < out@.len() && weakly_le(out@[k], sorted@[j]);
            assert(le_pair(out@[k], p));
        }
    }
    out
}

/// Integer pairs `x + y` for `x` in `a` and `y` in `b`.
pub open spec fn sums_of(a: Seq<Cost>, b: Seq<Cost>) -> spec_fn((int, int)) -> bool {
    |p: (int, int)|
        exists|i: int, j: int|
            0 <= i < a.len() && 0 <= j < b.len() && p == (a[i].c1 + b[j].c1, a[i].c2 + b[j].c2)
                && #[trigger] sum_pair(a[i], b[j]) == p
}

/// The component-wise sum of two costs as an integer pair.
pub open spec fn sum_pair(x: Cost, y: Cost) -> (int, int) {
    (x.c1 + y.c1, x.c2 + y.c2)
}

/// A frontier of one set is a frontier of any set with the same members.
pub proof fn lemma_frontier_same_members(
    r: Seq<Cost>,
    m1: spec_fn((int, int)) -> bool,
    m2: spec_fn((int, int)) -> bool,
)
    requires
        is_frontier_of(r, m1),
        forall|p: (int, int)| #[trigger] m1(p) <==> #[trigger] m2(p),
    ensures
        is_frontier_of(r, m2),
{
    assert forall|p: (int, int)| #[trigger] m2(p) implies exists|i: int|
        0 <= i < r.len() && #[trigger] le_pair(r[i], p) by {
        assert(m1(p));
    }
    assert forall|i: int| 0 <= i < r.len() implies #[trigger] m2(pair_of(r[i])) by {
        assert(m1(pair_of(r[i])));
    }
}

/// Minkowski sum of two frontiers, reduced to the Pareto frontier.
pub fn minkowski_sum(a: &[Cost], b: &[Cost]) -> (r: Vec<Cost>)
    requires
        forall|i: int, j: int|
            0 <= i < a@.len() && 0 <= j < b@.len() ==> crate::cost::sum_fits(
                #[trigger] a@[i],
                #[trigger] b@[j],
            ),
    ensures
        is_frontier_of(r@, sums_of(a@, b@)),
{
    // The capacity is only a hint: when the product does not fit, start empty.
    let cap = match a.len().checked_mul(b.len()) {
        Some(c) => c,
        None => 0,
    };
    let mut all: Vec<Cost> = Vec::with_capacity(cap);
    let mut i: usize = 0;
    while i < a.len()
        invariant
            i <= a@.len(),
            forall|i2: int, j2: int|
                0 <= i2 < a@.len() && 0 <= j2 < b@.len() ==> crate::cost::sum_fits(
                    #[trigger] a@[i2],
                    #[trigger] b@[j2],
                ),
            forall|x: Cost|
                #[trigger] all@.contains(x) <==> exists|i2: int, j2: int|
                    0 <= i2 < i && 0 <= j2 < b@.len() && x == crate::cost::spec_sum(
                        #[trigger] a@[i2],
                        #[trigger] b@[j2],
                    ),
        decreases a@.len() - i,
    {
        let x = a[i];
        let mut j: usize = 0;
        while j < b.len()
            invariant
                i < a@.len(),
                j <= b@.len(),
                x == a@[i as int],
                forall|i2: int, j2: int|
                    0 <= i2 < a@.len() && 0 <= j2 < b@.len() ==> crate::cost::sum_fits(
                        #[trigger] a@[i2],
                        #[trigger] b@[j2],
                    ),
                forall|z: Cost|
                    #[trigger] all@.contains(z) <==> (exists|i2: int, j2: int|
                        0 <= i2 < i && 0 <= j2 < b@.len() && z == crate::cost::spec_sum(
                            #[trigger] a@[i2],
                            #[trigger] b@[j2],
                        )) || (exists|j2: int|
                        0 <= j2 < j && z == crate::cost::spec_sum(x, #[trigger] b@[j2])),
            decreases b@.len() - j,
        {
            let y = b[j];
            let ghost all0 = all@;
            all.push(x + y);
            proof {
                assert forall|z: Cost| #[trigger] all@.contains(z) <==> (exists|i2: int, j2: int|
                    0 <= i2 < i && 0 <= j2 < b@.len() && z == crate::cost::spec_sum(
                        #[trigger] a@[i2],
                        #[trigger] b@[j2],
                    )) || (exists|j2: int|
                    0 <= j2 < j + 1 && z == crate::cost::spec_sum(x, #[trigger] b@[j2])) by {
                    if all@.contains(z) {
                        let k = choose|k: int| 0 <= k < all@.len() && all@[k] == z;
                        if k < all0.len() {
                            assert(all0[k] == z);
                            assert(all0.contains(z));
                        } else {
                            assert(z == crate::cost::spec_sum(x, b@[j as int]));
                        }
                    }
                    if exists|j2: int| 0 <= j2 < j + 1 && z == crate::cost::spec_sum(x, #[trigger] b@[j2]) {
                        let j2 = choose|j2: int| 0 <= j2 < j + 1 && z == crate::cost::spec_sum(x, #[trigger] b@[j2]);
                        if j2 < j {
                            assert(all0.contains(z));
                            let k = choose|k: int| 0 <= k < all0.len() && all0[k] == z;
                            assert(all@[k] == z);
                        } else {
                            assert(all@[all0.len() as int] == z);
                        }
                    }
                    if exists|i2: int, j2: int|
                        0 <= i2 < i && 0 <= j2 < b@.len() && z == crate::cost::spec_sum(
                            #[trigger] a@[i2],
                            #[trigger] b@[j2],
                        ) {
                        assert(all0.contains(z));
                        let k = choose|k: int| 0 <= k < all0.len() && all0[k] == z;
                        assert(all@[k] == z);
                    }
                }
            }
            j = j + 1;
        }
        proof {
            assert forall|z: Cost| #[trigger] all@.contains(z) <==> exists|i2: int, j2: int|
                0 <= i2 < i + 1 && 0 <= j2 < b@.len() && z == crate::cost::spec_sum(
                    #[trigger] a@[i2],
                    #[trigger] b@[j2],
                ) by {
                if exists|i2: int, j2: int|
                    0 <= i2 < i + 1 && 0 <= j2 < b@.len() && z == crate::cost::spec_sum(
                        #[trigger] a@[i2],
                        #[trigger] b@[j2],
                    ) {
                    let (i2, j2) = choose|i2: int, j2: int|
                        0 <= i2 < i + 1 && 0 <= j2 < b@.len() && z == crate::cost::spec_sum(
                            #[trigger] a@[i2],
                            #[trigger] b@[j2],
                        );
                    if i2 == i {
                        assert(z == crate::cost::spec_sum(x, b@[j2]));
                    }
                }
            }
        }
        i = i + 1;
    }
    let ghost sums = all@;
    let r = pareto_filter(all);
    proof {
        let m1 = members_of(sums);
        let m2 = sums_of(a@, b@);
        assert forall|p: (int, int)| #[trigger] m1(p) <==> #[trigger] m2(p) by {
            if m1(p) {
                let t = choose|t: int| 0 <= t < sums.len() && #[trigger] pair_of(sums[t]) == p;
                assert(sums.contains(sums[t]));
                let (i2, j2) = choose|i2: int, j2: int|
                    0 <= i2 < a@.len() && 0 <= j2 < b@.len() && sums[t] == crate::cost::spec_sum(
                        #[trigger] a@[i2],
                        #[trigger] b@[j2],
                    );
                assert(sum_pair(a@[i2], b@[j2]) == p);
            }
            if m2(p) {
                let (i2, j2) = choose|i2: int, j2: int|
                    0 <= i2 < a@.len() && 0 <= j2 < b@.len() && p == (a@[i2].c1 + b@[j2].c1, a@[i2].c2
                        + b@[j2].c2) && #[trigger] sum_pair(a@[i2], b@[j2]) == p;
                let z = crate::cost::spec_sum(a@[i2], b@[j2]);
                assert(crate::cost::sum_fits(a@[i2], b@[j2]));
                assert(sums.contains(z));
                let t = choose|t: int| 0 <= t < sums.len() && sums[t] == z;
                assert(pair_of(sums[t]) == p);
            }
        }
        lemma_frontier_same_members(r@, m1, m2);
    }
    r
}

/// A set has exactly one Pareto frontier: two sequences that are both its
/// frontier are equal. (So any two exact searches of one query agree.)
pub proof fn lemma_frontier_unique(a: Seq<Cost>, b: Seq<Cost>, member: spec_fn((int, int)) -> bool)
    requires
        is_frontier_of(a, member),
        is_frontier_of(b, member),
    ensures
        a == b,
{
    // Every element of one is an element of the other.
    assert forall|i: int| 0 <= i < a.len() implies b.contains(#[trigger] a[i]) by {
        lemma_frontier_member_in(a, b, member, i);
    }
    assert forall|j: int| 0 <= j < b.len() implies a.contains(#[trigger] b[j]) by {
        lemma_frontier_member_in(b, a, member, j);
    }
    lemma_sorted_same_elements(a, b, 0);
    assert(a =~= b);
}

/// Each member of one frontier of a set appears in any other frontier of it.
proof fn lemma_frontier_member_in(a: Seq<Cost>, b: Seq<Cost>, member: spec_fn((int, int)) -> bool, i: int)
    requires
        is_frontier_of(a, member),
        is_frontier_of(b, member),
        0 <= i < a.len(),
    ensures
        b.contains(a[i]),
{
    assert(member(pair_of(a[i])));
    let j = choose|j: int| 0 <= j < b.len() && #[trigger] le_pair(b[j], pair_of(a[i]));
    assert(member(pair_of(b[j])));
    let k = choose|k: int| 0 <= k < a.len() && #[trigger] le_pair(a[k], pair_of(b[j]));
    if k < i {
        assert(a[k].c2 > a[i].c2);
    } else if k > i {
        assert(a[i].c1 < a[k].c1);
    }
    assert(b[j] == a[i]);
}

/// Two strictly sorted sequences with the same elements agree from index `i`
/// on, given that they agree before it.
proof fn lemma_sorted_same_elements(a: Seq<Cost>, b: Seq<Cost>, i: int)
    requires
        strictly_sorted(a),
        strictly_sorted(b),
        forall|x: int| 0 <= x < a.len() ==> b.contains(#[trigger] a[x]),
        forall|y: int| 0 <= y < b.len() ==> a.contains(#[trigger] b[y]),
        0 <= i,
        i <= a.len(),
        i <= b.len(),
        forall|t: int| 0 <= t < i ==> a[t] == b[t],
    ensures
        a.len() == b.len(),
        forall|t: int| 0 <= t < a.len() ==> a[t] == b[t],
    decreases a.len() + b.len() - 2 * i,
{
    if i < a.len() && i < b.len() {
        assert(b.contains(a[i]));
        let j = choose|j: int| 0 <= j < b.len() && b[j] == a[i];
        assert(a.contains(b[i]));
        let k = choose|k: int| 0 <= k < a.len() && a[k] == b[i];
        if j < i {
            assert(a[j] == b[j]);
            assert(a[j].c1 < a[i].c1);
        }
        if k < i {
            assert(a[k] == b[k]);
            assert(b[k].c1 < b[i].c1);
        }
        if j > i {
            assert(b[i].c1 < b[j].c1);
            assert(a[i].c1 <= a[k].c1);
        }
        assert(j == i);
        lemma_sorted_same_elements(a, b, i + 1);
    } else if i < a.len() {
        assert(b.contains(a[i]));
        let j = choose|j: int| 0 <= j < b.len() && b[j] == a[i];
        assert(a[j] == b[j]);
        assert(a[j].c1 < a[i].c1);
    } else if i < b.len() {
        assert(a.contains(b[i]));
        let k = choose|k: int| 0 <= k < a.len() && a[k] == b[i];
        assert(a[k] == b[k]);
        assert(b[k].c1 < b[i].c1);
    }
}

/// If every member of `m1` is a member of `m2` and every member of `m2` is
/// matched by a member of `m1` that is no worse, the two sets have the same
/// frontier.
pub proof fn lemma_frontier_of_cover(
    r: Seq<Cost>,
    m1: spec_fn((int, int)) -> bool,
    m2: spec_fn((int, int)) -> bool,
)
    requires
        is_frontier_of(r, m1),
        forall|p: (int, int)| #[trigger] m1(p) ==> m2(p),
        forall|p: (int, int)|
            #[trigger] m2(p) ==> exists|q: (int, int)| #[trigger] m1(q) && q.0 <= p.0 && q.1 <= p.1,
    ensures
        is_frontier_of(r, m2),
{
    assert forall|i: int| 0 <= i < r.len() implies #[trigger] m2(pair_of(r[i])) by {
        assert(m1(pair_of(r[i])));
    }
    assert forall|p: (int, int)| #[trigger] m2(p) implies exists|i: int|
        0 <= i < r.len() && #[trigger] le_pair(r[i], p) by {
        let q = choose|q: (int, int)| #[trigger] m1(q) && q.0 <= p.0 && q.1 <= p.1;
        let i = choose|i: int| 0 <= i < r.len() && #[trigger] le_pair(r[i], q);
        assert(le_pair(r[i], p));
    }
}

/// A frontier built by `insert_nondominated` gives the same `pareto_filter`
/// result as the whole set it was built from: when `f` only holds members of
/// `s` and every member of `s` is matched by a member of `f` that is no worse,
/// the two filters agree.
pub proof fn lemma_filter_of_cover(f: Seq<Cost>, s: Seq<Cost>, rf: Seq<Cost>, rs: Seq<Cost>)
    requires
        forall|x: Cost| #[trigger] f.contains(x) ==> s.contains(x),
        forall|x: Cost| #[trigger] s.contains(x) ==> exists|i: int| 0 <= i < f.len() && weakly_le(#[trigger] f[i], x),
        is_frontier_of(rf, members_of(f)),
        is_frontier_of(rs, members_of(s)),
    ensures
        rf == rs,
{
    let m1 = members_of(f);
    let m2 = members_of(s);
    assert forall|p: (int, int)| #[trigger] m1(p) implies m2(p) by {
        let t = choose|t: int| 0 <= t < f.len() && #[trigger] pair_of(f[t]) == p;
        assert(f.contains(f[t]));
        let u = choose|u: int| 0 <= u < s.len() && s[u] == f[t];
        assert(pair_of(s[u]) == p);
    }
    assert forall|p: (int, int)| #[trigger] m2(p) implies exists|q: (int, int)| #[trigger] m1(q) && q.0 <= p.0 && q.1 <= p.1 by {
        let t = choose|t: int| 0 <= t < s.len() && #[trigger] pair_of(s[t]) == p;
        assert(s.contains(s[t]));
        let i = choose|i: int| 0 <= i < f.len() && weakly_le(#[trigger] f[i], s[t]);
        assert(m1(pair_of(f[i])));
    }
    lemma_frontier_of_cover(rf, m1, m2);
    lemma_frontier_unique(rf, rs, m2);
}

/// Combining frontiers is exact: if `a` and `b` are the frontiers of `ma` and
/// `mb`, the frontier of the pairwise sums of `a` and `b` is the frontier of
/// the pairwise sums of `ma` and `mb`.
pub proof fn lemma_minkowski_of_frontiers(
    a: Seq<Cost>,
    b: Seq<Cost>,
    ma: spec_fn((int, int)) -> bool,
    mb: spec_fn((int, int)) -> bool,
    r: Seq<Cost>,
)
    requires
        is_frontier_of(a, ma),
        is_frontier_of(b, mb),
        is_frontier_of(r, sums_of(a, b)),
    ensures
        is_frontier_of(
            r,
            |p: (int, int)|
                exists|pa: (int, int), pb: (int, int)|
                    #[trigger] ma(pa) && #[trigger] mb(pb) && p == (pa.0 + pb.0, pa.1 + pb.1),
        ),
{
    let m1 = sums_of(a, b);
    let m2 = |p: (int, int)|
        exists|pa: (int, int), pb: (int, int)|
            #[trigger] ma(pa) && #[trigger] mb(pb) && p == (pa.0 + pb.0, pa.1 + pb.1);
    assert forall|p: (int, int)| #[trigger] m1(p) implies m2(p) by {
        let (i, j) = choose|i: int, j: int|
            0 <= i < a.len() && 0 <= j < b.len() && p == (a[i].c1 + b[j].c1, a[i].c2 + b[j].c2)
                && #[trigger] sum_pair(a[i], b[j]) == p;
        assert(ma(pair_of(a[i])));
        assert(mb(pair_of(b[j])));
    }
    assert forall|p: (int, int)| #[trigger] m2(p) implies exists|q: (int, int)| #[trigger] m1(q) && q.0 <= p.0 && q.1 <= p.1 by {
        let (pa, pb) = choose|pa: (int, int), pb: (int, int)|
            #[trigger] ma(pa) && #[trigger] mb(pb) && p == (pa.0 + pb.0, pa.1 + pb.1);
        let i = choose|i: int| 0 <= i < a.len() && #[trigger] le_pair(a[i], pa);
        let j = choose|j: int| 0 <= j < b.len() && #[trigger] le_pair(b[j], pb);
        let q = sum_pair(a[i], b[j]);
        assert(m1(q));
    }
    lemma_frontier_of_cover(r, m1, m2);
}

/// No member of `s` is weakly dominated by (or equal to) another member.
pub open spec fn is_antichain(s: Seq<Cost>) -> bool {
    forall|i: int, j: int|
        0 <= i < s.len() && 0 <= j < s.len() && i != j ==> !weakly_le(#[trigger] s[i], #[trigger] s[j])
}

/// The members of `s` that `c` does not dominate, in order.
pub open spec fn undominated_by(s: Seq<Cost>, c: Cost) -> Seq<Cost>
    decreases s.len(),
{
    if s.len() == 0 {
        Seq::empty()
    } else {
        let rest = undominated_by(s.drop_last(), c);
        if c.spec_dominates(s.last()) {
            rest
        } else {
            rest.push(s.last())
        }
    }
}

proof fn lemma_undominated_by(s: Seq<Cost>, c: Cost)
    ensures
        forall|x: Cost| #[trigger] undominated_by(s, c).contains(x) <==> s.contains(x) && !c.spec_dominates(x),
        is_antichain(s) ==> is_antichain(undominated_by(s, c)),
    decreases s.len(),
{
    if s.len() > 0 {
        let r = s.drop_last();
        lemma_undominated_by(r, c);
        let u = undominated_by(s, c);
        let ur = undominated_by(r, c);
        assert forall|x: Cost| #[trigger] u.contains(x) <==> s.contains(x) && !c.spec_dominates(x) by {
            if s.contains(x) && !c.spec_dominates(x) {
                let i = choose|i: int| 0 <= i < s.len() && s[i] == x;
                if i < s.len() - 1 {
                    assert(r[i] == x);
                    assert(r.contains(x));
                    assert(ur.contains(x));
                    let k = choose|k: int| 0 <= k < ur.len() && ur[k] == x;
                    if !c.spec_dominates(s.last()) {
                        assert(u[k] == x);
                    }
                } else {
                    assert(u[u.len() - 1] == x);
                }
            }
            if u.contains(x) {
                let k = choose|k: int| 0 <= k < u.len() && u[k] == x;
                if k < ur.len() {
                    assert(u[k] == ur[k]);
                    assert(ur.contains(x));
                    let i = choose|i: int| 0 <= i < r.len() && r[i] == x;
                    assert(s[i] == x);
                } else {
                    assert(x == s.last());
                    assert(s[s.len() - 1] == x);
                }
            }
        }
        if is_antichain(s) {
            assert(is_antichain(r)) by {
                assert forall|i: int, j: int|
                    0 <= i < r.len() && 0 <= j < r.len() && i != j implies !weakly_le(
                    #[trigger] r[i],
                    #[trigger] r[j],
                ) by {
                    assert(r[i] == s[i] && r[j] == s[j]);
                }
            }
            if !c.spec_dominates(s.last()) {
                let last = s.last();
                assert forall|i: int, j: int|
                    0 <= i < u.len() && 0 <= j < u.len() && i != j implies !weakly_le(
                    #[trigger] u[i],
                    #[trigger] u[j],
                ) by {
                    if i < ur.len() && j < ur.len() {
                        assert(u[i] == ur[i] && u[j] == ur[j]);
                    } else if i < ur.len() {
                        assert(u[i] == ur[i] && u[j] == last);
                        assert(ur.contains(ur[i]));
                        let p = choose|p: int| 0 <= p < r.len() && r[p] == ur[i];
                        assert(s[p] == ur[i] && s[s.len() - 1] == last);
                    } else {
                        assert(u[j] == ur[j] && u[i] == last);
                        assert(ur.contains(ur[j]));
                        let p = choose|p: int| 0 <= p < r.len() && r[p] == ur[j];
                        assert(s[p] == ur[j] && s[s.len() - 1] == last);
                    }
                }
            }
        }
    }
}

/// Insert `c` into a frontier held as non-dominated cost pairs: drop any member
/// that `c` dominates, and reject `c` if an existing member dominates it (or
/// equals it). Returns `true` if `c` was added.
pub fn insert_nondominated(frontier: &mut Vec<Cost>, c: Cost) -> (added: bool)
    ensures
        added == !exists|i: int| 0 <= i < old(frontier)@.len() && weakly_le(#[trigger] old(frontier)@[i], c),
        !added ==> final(frontier)@ == old(frontier)@,
        added ==> final(frontier)@ == undominated_by(old(frontier)@, c).push(c),
        // the new frontier only holds old members and `c` ...
        forall|x: Cost| #[trigger] final(frontier)@.contains(x) ==> old(frontier)@.contains(x) || x == c,
        // ... and every old member and `c` is matched by one that is no worse
        forall|x: Cost|
            old(frontier)@.contains(x) || x == c ==> exists|i: int|
                0 <= i < final(frontier)@.len() && weakly_le(#[trigger] final(frontier)@[i], x),
        // a frontier stays a frontier
        is_antichain(old(frontier)@) ==> is_antichain(final(frontier)@),
{
    let ghost old_f = frontier@;
    let mut i: usize = 0;
    while i < frontier.len()
        invariant
            frontier@ == old_f,
            i <= frontier@.len(),
            forall|j: int| 0 <= j < i ==> !weakly_le(#[trigger] frontier@[j], c),
        decreases frontier@.len() - i,
    {
        let existing = frontier[i];
        if existing == c || existing.dominates(c) {
            proof {
                assert(weakly_le(frontier@[i as int], c));
                assert forall|x: Cost| old_f.contains(x) || x == c implies exists|k: int|
                    0 <= k < frontier@.len() && weakly_le(#[trigger] frontier@[k], x) by {
                    if x == c {
                        assert(weakly_le(frontier@[i as int], x));
                    } else {
                        let k = choose|k: int| 0 <= k < old_f.len() && old_f[k] == x;
                        assert(weakly_le(frontier@[k], x));
                    }
                }
            }
            return false;
        }
        i = i + 1;
    }
    // Keep the members that `c` does not dominate.
    let mut kept: Vec<Cost> = Vec::new();
    let mut j: usize = 0;
    while j < frontier.len()
        invariant
            frontier@ == old_f,
            j <= frontier@.len(),
            kept@ == undominated_by(old_f.take(j as int), c),
        decreases frontier@.len() - j,
    {
        proof {
            assert(old_f.take(j + 1).drop_last() =~= old_f.take(j as int));
        }
        let existing = frontier[j];
        if !c.dominates(existing) {
            kept.push(existing);
        }
        j = j + 1;
    }
    proof {
        assert(old_f.take(old_f.len() as int) =~= old_f);
        lemma_undominated_by(old_f, c);
    }
    kept.push(c);
    *frontier = kept;
    proof {
        let u = undominated_by(old_f, c);
        let f = frontier@;
        assert(f == u.push(c));
        assert forall|x: Cost| #[trigger] f.contains(x) implies old_f.contains(x) || x == c by {
            let k = choose|k: int| 0 <= k < f.len() && f[k] == x;
            if k < u.len() {
                assert(u[k] == x);
                assert(u.contains(x));
            }
        }
        assert forall|x: Cost| old_f.contains(x) || x == c implies exists|k: int|
            0 <= k < f.len() && weakly_le(#[trigger] f[k], x) by {
            if x == c {
                assert(f[f.len() - 1] == c);
                assert(weakly_le(f[f.len() - 1], x));
            } else if c.spec_dominates(x) {
                assert(weakly_le(f[f.len() - 1], x));
            } else {
                assert(u.contains(x));
                let k = choose|k: int| 0 <= k < u.len() && u[k] == x;
                assert(f[k] == x);
                assert(weakly_le(f[k], x));
            }
        }
        if is_antichain(old_f) {
            assert forall|a: int, b: int| 0 <= a < f.len() && 0 <= b < f.len() && a != b implies !weakly_le(
                #[trigger] f[a],
                #[trigger] f[b],
            ) by {
                if a < u.len() && b < u.len() {
                    assert(f[a] == u[a] && f[b] == u[b]);
                } else if a < u.len() {
                    // f[b] == c: no old member is weakly below c
                    assert(f[a] == u[a]);
                    assert(u.contains(u[a]));
                    let k = choose|k: int| 0 <= k < old_f.len() && old_f[k] == u[a];
                    assert(!weakly_le(old_f[k], c));
                } else {
                    // f[a] == c: c does not dominate a kept member, nor equal it
                    assert(f[b] == u[b]);
                    assert(u.contains(u[b]));
                    let k = choose|k: int| 0 <= k < old_f.len() && old_f[k] == u[b];
                    assert(!weakly_le(old_f[k], c));
                    assert(!c.spec_dominates(u[b]));
                }
            }
        }
    }
    true
}


/// `pareto_filter` depends only on which costs its input holds, not on
/// their order or repetition.
pub proof fn lemma_filter_order_free(s1: Seq<Cost>, s2: Seq<Cost>, r1: Seq<Cost>, r2: Seq<Cost>)
    requires
        forall|x: Cost| #![trigger s1.contains(x)] #![trigger s2.contains(x)] s1.contains(x) <==> s2.contains(x),
        is_frontier_of(r1, members_of(s1)),
        is_frontier_of(r2, members_of(s2)),
    ensures
        r1 == r2,
{
    assert forall|p: (int, int)| #[trigger] members_of(s1)(p) <==> #[trigger] members_of(s2)(p) by {
        if members_of(s1)(p) {
            let i = choose|i: int| 0 <= i < s1.len() && #[trigger] pair_of(s1[i]) == p;
            assert(s1.contains(s1[i]));
            let j = choose|j: int| 0 <= j < s2.len() && s2[j] == s1[i];
            assert(pair_of(s2[j]) == p);
        }
        if members_of(s2)(p) {
            let i = choose|i: int| 0 <= i < s2.len() && #[trigger] pair_of(s2[i]) == p;
            assert(s2.contains(s2[i]));
            let j = choose|j: int| 0 <= j < s1.len() && s1[j] == s2[i];
            assert(pair_of(s1[j]) == p);
        }
    }
    lemma_frontier_same_members(r1, members_of(s1), members_of(s2));
    lemma_frontier_unique(r1, r2, members_of(s2));
}

/// `minkowski_sum` is `pareto_filter` of the list of all pairwise sums:
/// when `sums` holds exactly the sums `x + y` (`x` in `a`, `y` in `b`), the
/// frontier of the pairwise sums and the filter of `sums` are equal.
pub proof fn lemma_minkowski_is_filter(a: Seq<Cost>, b: Seq<Cost>, sums: Seq<Cost>, r: Seq<Cost>, rf: Seq<Cost>)
    requires
        forall|i: int, j: int|
            0 <= i < a.len() && 0 <= j < b.len() ==> crate::cost::sum_fits(#[trigger] a[i], #[trigger] b[j]),
        forall|z: Cost|
            #[trigger] sums.contains(z) <==> exists|i: int, j: int|
                0 <= i < a.len() && 0 <= j < b.len() && z == crate::cost::spec_sum(#[trigger] a[i], #[trigger] b[j]),
        is_frontier_of(r, sums_of(a, b)),
        is_frontier_of(rf, members_of(sums)),
    ensures
        r == rf,
{
    let m1 = sums_of(a, b);
    let m2 = members_of(sums);
    assert forall|p: (int, int)| #[trigger] m1(p) <==> #[trigger] m2(p) by {
        if m1(p) {
            let (i, j) = choose|i: int, j: int|
                0 <= i < a.len() && 0 <= j < b.len() && p == (a[i].c1 + b[j].c1, a[i].c2 + b[j].c2)
                    && #[trigger] sum_pair(a[i], b[j]) == p;
            let z = crate::cost::spec_sum(a[i], b[j]);
            assert(crate::cost::sum_fits(a[i], b[j]));
            assert(sums.contains(z));
            let t = choose|t: int| 0 <= t < sums.len() && sums[t] == z;
            assert(pair_of(sums[t]) == p);
        }
        if m2(p) {
            let t = choose|t: int| 0 <= t < sums.len() && #[trigger] pair_of(sums[t]) == p;
            assert(sums.contains(sums[t]));
            let (i, j) = choose|i: int, j: int|
                0 <= i < a.len() && 0 <= j < b.len() && sums[t] == crate::cost::spec_sum(#[trigger] a[i], #[trigger] b[j]);
            assert(crate::cost::sum_fits(a[i], b[j]));
            assert(sum_pair(a[i], b[j]) == p);
        }
    }
    lemma_frontier_same_members(r, m1, m2);
    lemma_frontier_unique(r, rf, m2);
}

/// The Minkowski sum with `[(0, 0)]` is the filter of the other side, and
/// the Minkowski sum with an empty list is empty.
pub proof fn lemma_minkowski_zero_and_empty(a: Seq<Cost>, r0: Seq<Cost>, ra: Seq<Cost>, re: Seq<Cost>)
    requires
        is_frontier_of(r0, sums_of(a, seq![Cost { c1: 0, c2: 0 }])),
        is_frontier_of(ra, members_of(a)),
        is_frontier_of(re, sums_of(a, Seq::<Cost>::empty())),
    ensures
        r0 == ra,
        re.len() == 0,
{
    let z = seq![Cost { c1: 0, c2: 0 }];
    assert forall|p: (int, int)| #[trigger] sums_of(a, z)(p) <==> #[trigger] members_of(a)(p) by {
        if sums_of(a, z)(p) {
            let (i, j) = choose|i: int, j: int|
                0 <= i < a.len() && 0 <= j < z.len() && p == (a[i].c1 + z[j].c1, a[i].c2 + z[j].c2)
                    && #[trigger] sum_pair(a[i], z[j]) == p;
            assert(pair_of(a[i]) == p);
        }
        if members_of(a)(p) {
            let i = choose|i: int| 0 <= i < a.len() && #[trigger] pair_of(a[i]) == p;
            assert(sum_pair(a[i], z[0]) == p);
        }
    }
    lemma_frontier_same_members(r0, sums_of(a, z), members_of(a));
    lemma_frontier_unique(r0, ra, members_of(a));
    if re.len() > 0 {
        assert(sums_of(a, Seq::<Cost>::empty())(pair_of(re[0])));
    }
}

/// The result of inserting the costs of `s` one after another into an
/// empty frontier with `insert_nondominated`.
pub open spec fn inserted_all(s: Seq<Cost>) -> Seq<Cost>
    decreases s.len(),
{
    if s.len() == 0 {
        Seq::empty()
    } else {
        let f = inserted_all(s.drop_last());
        let c = s.last();
        if exists|i: int| 0 <= i < f.len() && weakly_le(#[trigger] f[i], c) {
            f
        } else {
            undominated_by(f, c).push(c)
        }
    }
}

/// What the repeated insertion holds: only costs of `s`, and for every cost
/// of `s` one that is no worse.
proof fn lemma_inserted_all(s: Seq<Cost>)
    ensures
        forall|x: Cost| #[trigger] inserted_all(s).contains(x) ==> s.contains(x),
        forall|x: Cost| #[trigger] s.contains(x) ==> exists|i: int| 0 <= i < inserted_all(s).len() && weakly_le(#[trigger] inserted_all(s)[i], x),
    decreases s.len(),
{
    if s.len() > 0 {
        let r = s.drop_last();
        lemma_inserted_all(r);
        let f = inserted_all(r);
        let c = s.last();
        let g = inserted_all(s);
        lemma_undominated_by(f, c);
        assert forall|x: Cost| #[trigger] g.contains(x) implies s.contains(x) by {
            if f.contains(x) {
                assert(r.contains(x));
                let k = choose|k: int| 0 <= k < r.len() && r[k] == x;
                assert(s[k] == x);
            } else if x == c {
                assert(s[s.len() - 1] == x);
            } else {
                let u = undominated_by(f, c);
                assert(g == u.push(c));
                let k = choose|k: int| 0 <= k < g.len() && g[k] == x;
                assert(u.contains(x)) by {
                    assert(u[k] == x);
                }
            }
        }
        assert forall|x: Cost| #[trigger] s.contains(x) implies exists|i: int| 0 <= i < g.len() && weakly_le(#[trigger] g[i], x) by {
            let k = choose|k: int| 0 <= k < s.len() && s[k] == x;
            if k < s.len() - 1 {
                assert(r[k] == x);
                assert(r.contains(x));
                let i = choose|i: int| 0 <= i < f.len() && weakly_le(#[trigger] f[i], x);
                if exists|i2: int| 0 <= i2 < f.len() && weakly_le(#[trigger] f[i2], c) {
                    assert(g == f);
                } else {
                    let u = undominated_by(f, c);
                    if c.spec_dominates(f[i]) {
                        assert(g[u.len() as int] == c);
                        assert(weakly_le(g[u.len() as int], x));
                    } else {
                        assert(f.contains(f[i]));
                        assert(u.contains(f[i]));
                        let j = choose|j: int| 0 <= j < u.len() && u[j] == f[i];
                        assert(g[j] == f[i]);
                    }
                }
            } else {
                if exists|i2: int| 0 <= i2 < f.len() && weakly_le(#[trigger] f[i2], c) {
                    let i2 = choose|i2: int| 0 <= i2 < f.len() && weakly_le(#[trigger] f[i2], c);
                    assert(g[i2] == f[i2]);
                } else {
                    let u = undominated_by(f, c);
                    assert(g[u.len() as int] == c);
                }
            }
        }
    }
}

/// Inserting the costs of `s` one after another into an empty frontier
/// with `insert_nondominated` and then filtering gives `pareto_filter(s)`.
pub proof fn lemma_inserted_all_filters(s: Seq<Cost>, rf: Seq<Cost>, rs: Seq<Cost>)
    requires
        is_frontier_of(rf, members_of(inserted_all(s))),
        is_frontier_of(rs, members_of(s)),
    ensures
        rf == rs,
{
    lemma_inserted_all(s);
    lemma_filter_of_cover(inserted_all(s), s, rf, rs);
}

} // verus!
