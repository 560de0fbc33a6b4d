//! The thread pool of the `rayon` crate.
use rayon::iter::{IntoParallelIterator, ParallelIterator};
use vstd::prelude::*;

verus! {

/// `rayon::current_num_threads`: the size of the current thread pool.
#[verifier::external_body]
pub(crate) fn thread_count() -> usize {
    rayon::current_num_threads()
}

/// `(0..n).into_par_iter().map(f).collect::<Vec<_>>()`: applies `f` to each
/// index below `n` on the thread pool and collects the results in index order.
#[verifier::external_body]
pub(crate) fn par_map_indices<T: Send, F: Fn(usize) -> T + Sync + Send>(n: usize, f: F) -> (r: Vec<T>)
    requires
        forall|i: usize| i < n ==> f.requires((i,)),
    ensures
        r@.len() == n,
        forall|i: int| 0 <= i < n ==> f.ensures((i as usize,), #[trigger] r@[i]),
{
    (0..n).into_par_iter().map(f).collect()
}

} // verus!
