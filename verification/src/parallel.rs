//! Work handed out over the current thread pool.
use vstd::prelude::*;

verus! {

/// What `f` makes of every index below `n`, in the order of the indices.
///
/// The work is done by `rayon`: `into_par_iter` on the range `0..n`, then
/// `ParallelIterator::map` and `ParallelIterator::collect` into a `Vec`. The
/// range is an indexed iterator, so the collected items stand in its order
/// whichever thread made them. Claimed is that there is one item per index, and
/// that each is one that `f` returns for its index.
#[verifier::external_body]
pub(crate) fn par_map<T: Send, F: Fn(usize) -> T + Sync + Send>(n: usize, f: F) -> (r: Vec<T>)
    requires
        forall|i: usize| i < n ==> #[trigger] call_requires(f, (i,)),
    ensures
        r@.len() == n,
        forall|i: usize| i < n ==> call_ensures(f, (i,), #[trigger] r@[i as int]),
{
    rayon::iter::ParallelIterator::collect(
        rayon::iter::ParallelIterator::map(rayon::iter::IntoParallelIterator::into_par_iter(0..n), f),
    )
}

} // verus!
