//! The thread pool: rayon's pool width, its indexed parallel map and its ordered
//! search.

use rayon::iter::{IntoParallelIterator, ParallelIterator};
use vstd::prelude::*;

verus! {

/// `rayon::current_num_threads`: the width of the pool that runs the caller.
/// It depends on the machine, so nothing is claimed of the number.
#[verifier::external_body]
pub(crate) fn pool_threads() -> (threads: usize) {
    rayon::current_num_threads()
}

/// `rayon::ThreadPoolBuilder::build_global` for `n` threads: `n` where the global pool was
/// built with that number now, `None` where it was not. Which of the two depends on the
/// machine and on whether a pool was there before, and is left unsaid.
#[verifier::external_body]
pub(crate) fn build_global_pool(n: usize) -> (built: Option<usize>)
    ensures
        built is None || built == Some(n),
{
    rayon::ThreadPoolBuilder::new().num_threads(n).build_global().ok().map(|()| n)
}

/// `rayon`'s parallel map over `0..n`, collected into a vector: entry `i` of the
/// result is what one call of `f` on `i` returned, whatever the order in which
/// the pool ran the calls.
#[verifier::external_body]
pub(crate) fn par_map<T: Send, F: Fn(usize) -> T + Sync + Send>(n: usize, f: F) -> (out: Vec<T>)
    requires
        forall|i: usize| i < n ==> call_requires(f, (i,)),
    ensures
        out@.len() == n,
        forall|i: int| 0 <= i < n ==> call_ensures(f, (i as usize,), #[trigger] out@[i]),
{
    (0..n).into_par_iter().map(f).collect()
}

/// `rayon`'s `find_first` over the parallel map of `f` on `0..n`: the first
/// answer in index order, with every smaller index having answered `None`;
/// `None` when every index did.
#[verifier::external_body]
pub(crate) fn par_find_first<T: Send, F: Fn(usize) -> Option<T> + Sync + Send>(
    n: usize,
    f: F,
) -> (out: Option<T>)
    requires
        forall|i: usize| i < n ==> call_requires(f, (i,)),
    ensures
        out is Some ==> exists|i: usize|
            i < n && #[trigger] call_ensures(f, (i,), out) && forall|j: usize|
                j < i ==> #[trigger] call_ensures(f, (j,), None),
        out is None ==> forall|i: usize| i < n ==> #[trigger] call_ensures(f, (i,), None),
{
    (0..n).into_par_iter().map(f).find_first(|r| r.is_some()).flatten()
}

} // verus!
