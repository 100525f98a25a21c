use vstd::prelude::*;

use crate::model::{
    chain_cost, chain_step_ok, dedup_adj, lemma_chain_to_iter, lemma_chain_unique, reaches_one_in,
};
use crate::record::{report_complete, report_entry_ok, valid_record, SequenceRecord};

verus! {

/// The memoized engine agrees with the unmemoized reference definition: a
/// published record's step count is the number of elementary Collatz steps in
/// which its input first reaches 1. (With `lemma_reaches_unique`, that count
/// is the only one.)
pub proof fn lemma_record_steps_are_naive(rec: SequenceRecord)
    requires
        valid_record(rec),
    ensures
        reaches_one_in(rec.initial as nat, rec.steps as nat),
{
    lemma_chain_to_iter(dedup_adj(rec.visited@));
}

/// The boundary run: a complete report for an input count of 1 is the single
/// record for input 1, with no steps and the visited sequence holding 1
/// alone.
pub proof fn lemma_boundary_single(rep: Seq<SequenceRecord>)
    requires
        report_complete(rep, 1),
    ensures
        rep.len() == 1,
        rep[0].initial == 1,
        rep[0].steps == 0,
        rep[0].visited@ == seq![1u64],
{
    assert(report_entry_ok(rep[0], 1));
    let v = rep[0].visited@;
    if v.len() >= 2 {
        assert(chain_step_ok(v, 0));
    }
    assert(v =~= seq![1u64]);
    assert(chain_cost(v) == 0);
}

/// Every entry of a complete report carries the unmemoized reference step
/// count of its input.
pub proof fn lemma_report_steps_are_naive(rep: Seq<SequenceRecord>, n: nat)
    requires
        report_complete(rep, n),
    ensures
        forall|i: int|
            0 <= i < n ==> reaches_one_in((i + 1) as nat, (#[trigger] rep[i]).steps as nat),
{
    assert forall|i: int|
        0 <= i < n implies reaches_one_in((i + 1) as nat, (#[trigger] rep[i]).steps as nat) by {
        assert(report_entry_ok(rep[i], i + 1));
        lemma_chain_to_iter(rep[i].visited@);
    }
}

/// Two valid records for the same input agree: same step count, and the same
/// visited sequence once deduplicated, however each run's cache hits fell.
pub proof fn lemma_records_agree(r1: SequenceRecord, r2: SequenceRecord)
    requires
        valid_record(r1),
        valid_record(r2),
        r1.initial == r2.initial,
    ensures
        r1.steps == r2.steps,
        dedup_adj(r1.visited@) == dedup_adj(r2.visited@),
{
    lemma_chain_unique(dedup_adj(r1.visited@), dedup_adj(r2.visited@));
}

/// Two complete reports for the same `n` are entry-for-entry the same: the
/// engine's output is deterministic in its input count.
pub proof fn lemma_reports_agree(rep1: Seq<SequenceRecord>, rep2: Seq<SequenceRecord>, n: nat)
    requires
        report_complete(rep1, n),
        report_complete(rep2, n),
    ensures
        rep1.len() == rep2.len(),
        forall|i: int|
            0 <= i < n ==> #[trigger] rep1[i].initial == rep2[i].initial && rep1[i].steps
                == rep2[i].steps && rep1[i].visited@ == rep2[i].visited@,
{
    assert forall|i: int|
        0 <= i < n implies #[trigger] rep1[i].initial == rep2[i].initial && rep1[i].steps
        == rep2[i].steps && rep1[i].visited@ == rep2[i].visited@ by {
        assert(report_entry_ok(rep1[i], i + 1));
        assert(report_entry_ok(rep2[i], i + 1));
        lemma_chain_unique(rep1[i].visited@, rep2[i].visited@);
    }
}

} // verus!
