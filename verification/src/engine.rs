use vstd::prelude::*;

use crate::cache::ResultCache;
use crate::collector::build_report;
use crate::laws::lemma_report_steps_are_naive;
use crate::model::reaches_one_in;
use crate::pool::{join_all, new_pool, submit_calculate};
use crate::record::{report_complete, EngineError, SequenceRecord};

verus! {

/// Runs the whole engine: one task per input in `[1, n]` fanned out over
/// `threads` workers sharing the result cache, a blocking wait for every task
/// to finish, and the sequential collection pass. A requested count of 0, or
/// one above the addressable index range, is rejected before any work is
/// scheduled. On success the report holds, in ascending input order, one
/// deduplicated, fully chained record per input; the collection pass decides
/// any other outcome from the drained entries alone. The collection pass is
/// entered only once the cache holds exactly one entry per submitted input.
pub fn run_engine(n: u64, threads: usize) -> (r: Result<Vec<SequenceRecord>, EngineError>)
    requires
        1 <= threads <= 0xFFFF,
    ensures
        (r matches Err(e) && e == EngineError::Input) <==> (n == 0 || n > usize::MAX as u64),
        r matches Ok(rep) ==> report_complete(rep@, n as nat),
        r matches Ok(rep) ==> forall|i: int|
            0 <= i < n ==> reaches_one_in((i + 1) as nat, (#[trigger] rep@[i]).steps as nat),
{
    if n == 0 || n > usize::MAX as u64 {
        return Err(EngineError::Input);
    }
    let n_us = n as usize;
    let cache = ResultCache::with_capacity(n_us);
    let pool = new_pool(threads);
    let mut submitted: usize = 0;
    while submitted < n_us
        invariant
            submitted <= n_us,
        decreases n_us - submitted,
    {
        let value = (submitted as u64) + 1;
        submit_calculate(&pool, value, &cache);
        submitted = submitted + 1;
    }
    join_all(&pool);
    if cache.size() != n_us {
        return Err(EngineError::Incomplete);
    }
    let entries = cache.entries();
    let report = build_report(entries, n);
    proof {
        assert(report matches Err(e) ==> e != EngineError::Input);
        if report is Ok {
            lemma_report_steps_are_naive(report->Ok_0@, n as nat);
        }
    }
    report
}

} // verus!
