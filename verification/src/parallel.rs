//! Work handed out to rayon's pool of worker threads.

use rayon::iter::{IntoParallelRefIterator, ParallelIterator};
use vstd::prelude::*;

verus! {

/// Applies `f` to every item on the worker threads of rayon's pool and
/// gathers what it returned.
///
/// Calls `rayon::iter::ParallelIterator::map` on the parallel iterator that
/// `par_iter` gives for a vector, and `collect`s into a vector. The contract
/// claims of them that `f` is applied to each item of `items` and to nothing
/// else, and that the results stand in the order of the items they came from.
#[verifier::external_body]
pub(crate) fn par_map<T: Sync, U: Send, F: Fn(&T) -> U + Sync + Send>(
    items: &Vec<T>,
    f: F,
) -> (results: Vec<U>)
    requires
        forall|i: int| 0 <= i < items@.len() ==> call_requires(f, (&#[trigger] items@[i],)),
    ensures
        results@.len() == items@.len(),
        forall|i: int|
            0 <= i < items@.len() ==> call_ensures(f, (&items@[i],), #[trigger] results@[i]),
{
    items.par_iter().map(f).collect()
}

} // verus!
