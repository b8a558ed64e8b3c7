//! Work spread over rayon's thread pool.

use vstd::prelude::*;

use rayon::iter::{IntoParallelIterator, ParallelIterator};

verus! {

/// Runs `f` on every index of `0..count` on rayon's thread pool
/// (`into_par_iter` on the range, `map`, `collect` into a `Vec`). Rayon's
/// `collect` into a `Vec` from an indexed iterator keeps the order of the
/// indices, so entry `i` is the value `f` returned for `i`.
#[verifier::external_body]
pub(crate) fn par_map_indices<T: Send, F: Fn(usize) -> T + Sync + Send>(count: usize, f: F) -> (r: Vec<T>)
    requires
        forall|i: usize| i < count ==> #[trigger] f.requires((i,)),
    ensures
        r@.len() == count,
        forall|i: int| 0 <= i < count ==> #[trigger] f.ensures((i as usize,), r@[i]),
{
    (0..count).into_par_iter().map(f).collect()
}

} // verus!
