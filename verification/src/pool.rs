use vstd::prelude::*;

use crate::cache::ResultCache;
use crate::worker::calculate;

verus! {

#[verifier::external_type_specification]
#[verifier::external_body]
pub struct ExThreadPool(rusty_pool::ThreadPool);

/// Relies on rusty_pool::ThreadPool::new to build a pool with exactly
/// `threads` workers; it panics when its size is 0 or above its cap of
/// one less than two to the power of half the bits of `usize` (65535 on the
/// narrowest supported width), so sizes outside `[1, 65535]` are excluded
/// here.
#[verifier::external_body]
pub fn new_pool(threads: usize) -> (r: rusty_pool::ThreadPool)
    requires
        1 <= threads <= 0xFFFF,
{
    rusty_pool::ThreadPool::new(threads, threads, std::time::Duration::from_secs(60))
}

/// Relies on rusty_pool::ThreadPool::execute to run the handed task on some
/// worker thread; the task is one call of `calculate` on a shared handle to
/// the cache.
#[verifier::external_body]
pub fn submit_calculate(pool: &rusty_pool::ThreadPool, value: u64, cache: &ResultCache)
    requires
        1 <= value,
{
    let shared = cache.clone();
    pool.execute(move || {
        calculate(value, &shared);
    });
}

/// Relies on rusty_pool::ThreadPool::join: blocks until every submitted task
/// has been run to completion and all workers are idle.
#[verifier::external_body]
pub fn join_all(pool: &rusty_pool::ThreadPool) {
    pool.join();
}

} // verus!
