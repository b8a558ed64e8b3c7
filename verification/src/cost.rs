use vstd::prelude::*;
use vstd::std_specs::ops::AddSpecImpl;

verus! {

/// A pair of non-negative path/edge costs `(c1, c2)` (e.g. distance, travel
/// time). The whole bi-objective problem is defined over these pairs.
#[derive(Clone, Copy, Debug, PartialEq, Eq, Hash, Structural)]
pub struct Cost {
    pub c1: i64,
    pub c2: i64,
}

/// `a` is no worse than `b` in both components (weak Pareto order).
pub open spec fn weakly_le(a: Cost, b: Cost) -> bool {
    a.c1 <= b.c1 && a.c2 <= b.c2
}

/// Lexicographic order on `(c1, c2)`.
pub open spec fn lex_le(a: Cost, b: Cost) -> bool {
    a.c1 < b.c1 || (a.c1 == b.c1 && a.c2 <= b.c2)
}

/// The component-wise sum fits in `i64`.
pub open spec fn sum_fits(a: Cost, b: Cost) -> bool {
    i64::MIN <= a.c1 + b.c1 <= i64::MAX && i64::MIN <= a.c2 + b.c2 <= i64::MAX
}

/// The component-wise sum (meaningful when `sum_fits(a, b)`).
pub open spec fn spec_sum(a: Cost, b: Cost) -> Cost {
    Cost { c1: (a.c1 + b.c1) as i64, c2: (a.c2 + b.c2) as i64 }
}

impl Cost {
    pub fn new(c1: i64, c2: i64) -> (r: Cost)
        ensures
            r == (Cost { c1, c2 }),
    {
        Cost { c1, c2 }
    }

    /// Pareto dominance: `self` dominates `other` when both components are
    /// `<=` and the pair is not identical.
    pub open spec fn spec_dominates(self, other: Cost) -> bool {
        weakly_le(self, other) && self != other
    }

    pub fn dominates(self, other: Cost) -> (r: bool)
        ensures
            r == self.spec_dominates(other),
    {
        self.c1 <= other.c1 && self.c2 <= other.c2 && self != other
    }
}

impl core::ops::Add for Cost {
    type Output = Cost;

    /// Component-wise addition: a path cost is the sum of its edge costs.
    fn add(self, other: Cost) -> (r: Cost) {
        Cost { c1: self.c1 + other.c1, c2: self.c2 + other.c2 }
    }
}

impl core::ops::AddAssign for Cost {
    /// In-place component-wise addition.
    fn add_assign(&mut self, other: Cost)
        requires
            sum_fits(*old(self), other),
        ensures
            *final(self) == spec_sum(*old(self), other),
    {
        self.c1 = self.c1 + other.c1;
        self.c2 = self.c2 + other.c2;
    }
}

impl AddSpecImpl for Cost {
    open spec fn obeys_add_spec() -> bool {
        true
    }

    open spec fn add_req(self, other: Cost) -> bool {
        sum_fits(self, other)
    }

    open spec fn add_spec(self, other: Cost) -> Cost {
        spec_sum(self, other)
    }
}

/// Dominance is a strict partial order: no cost dominates itself, two costs
/// never dominate each other, and dominance is transitive.
pub proof fn lemma_dominance_strict_order(a: Cost, b: Cost, c: Cost)
    ensures
        !a.spec_dominates(a),
        a.spec_dominates(b) ==> !b.spec_dominates(a),
        a.spec_dominates(b) && b.spec_dominates(c) ==> a.spec_dominates(c),
{
}

} // verus!
