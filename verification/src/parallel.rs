//! Work handed out to the rayon thread pool.

use rayon::iter::{IntoParallelRefIterator, ParallelIterator};
use vstd::prelude::*;

verus! {

/// `rayon::current_num_threads`: the number of threads of the current pool, which is at least
/// one. The number itself depends on the machine and on how the pool was set up, so no more is
/// said of it; where the machine cannot start a pool at all, rayon panics.
#[verifier::external_body]
pub(crate) fn current_num_threads() -> (r: usize)
    ensures
        r >= 1,
{
    rayon::current_num_threads()
}

/// Rayon's `par_iter`, `map` and `collect` on a vector: calls `f` once on every item, on any
/// thread of the pool and in any order, and returns the results in the order of the items.
#[verifier::external_body]
pub(crate) fn par_map<I: Sync, R: Send, F: Fn(&I) -> R + Sync + Send>(
    items: &Vec<I>,
    f: F,
) -> (out: Vec<R>)
    requires
        forall|i: int| 0 <= i < items@.len() ==> call_requires(f, (&#[trigger] items@[i],)),
    ensures
        out@.len() == items@.len(),
        forall|i: int|
            0 <= i < items@.len() ==> call_ensures(f, (&items@[i],), #[trigger] out@[i]),
{
    items.par_iter().map(f).collect()
}

} // verus!
