//! The calls into rayon.
use vstd::prelude::*;

use rayon::iter::{IntoParallelRefIterator, ParallelIterator};
use rayon::{ThreadPool, ThreadPoolBuildError, ThreadPoolBuilder};

use crate::segments::{all_valid, segment_text, texts_of};

verus! {

#[verifier::external_type_specification]
#[verifier::external_body]
pub struct ExThreadPool(ThreadPool);

#[verifier::external_type_specification]
#[verifier::external_body]
pub struct ExThreadPoolBuildError(ThreadPoolBuildError);

/// `ThreadPoolBuilder::new().num_threads(num_threads).build()`: a pool of
/// `num_threads` workers, or the error of spawning them. Nothing is stated of
/// the outcome, which rests on the operating system. The library always asks
/// for at least one worker (rayon reads zero as "pick a number from the
/// environment").
#[verifier::external_body]
pub(crate) fn build_thread_pool(num_threads: usize) -> Result<ThreadPool, ThreadPoolBuildError>
    requires
        num_threads >= 1,
{
    ThreadPoolBuilder::new().num_threads(num_threads).build()
}

/// The text of a `ThreadPoolBuildError` (its `Display`).
#[verifier::external_body]
pub(crate) fn thread_pool_error_message(error: &ThreadPoolBuildError) -> String {
    format!("{}", error)
}

/// Inside `pool` (`ThreadPool::install`), maps the ranges in parallel
/// (`par_iter().filter_map(..)`) through `segment_text` and collects the
/// texts that it returns into a vector. The contract claims that the
/// collected vector keeps the order of the ranges, as rayon's collection into
/// a `Vec` does for every parallel iterator.
#[verifier::external_body]
pub(crate) fn par_segment_texts(pool: &ThreadPool, source: &str, ranges: &[(usize, usize)]) -> (r:
    Vec<String>)
    requires
        all_valid(source@, ranges@),
    ensures
        r@.map_values(|s: String| s@) == texts_of(source@, ranges@),
{
    pool.install(
        || ranges.par_iter().filter_map(|range| segment_text(source, range.0, range.1)).collect(),
    )
}

} // verus!
