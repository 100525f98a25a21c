use vstd::prelude::*;

use crate::record::{
    check_record, copy_values, dedup_adjacent, report_complete, report_entry_ok, valid_record,
    CacheEntry, EngineError, SequenceRecord,
};

verus! {

use vstd::pervasive::VecAdditionalExecFns;

/// Some worker found its trajectory not representable.
pub open spec fn has_overflow(s: Seq<CacheEntry>) -> bool {
    exists|i: int| 0 <= i < s.len() && (#[trigger] s[i]) is Overflowed
}

/// The input a cache entry was resolved for.
pub open spec fn entry_key(e: CacheEntry) -> u64 {
    match e {
        CacheEntry::Done(rec) => rec.initial,
        CacheEntry::Overflowed => 0,
    }
}

/// A drained cache that certifies a finished run over inputs 1 through `n`:
/// one valid record per entry, every input in range, no input twice.
pub open spec fn complete_entries(s: Seq<CacheEntry>, n: nat) -> bool {
    &&& s.len() == n
    &&& forall|i: int|
        0 <= i < s.len() ==> ((#[trigger] s[i]) matches CacheEntry::Done(rec) && valid_record(rec)
            && 1 <= rec.initial <= n)
    &&& forall|i: int, j: int|
        0 <= i < j < s.len() ==> entry_key(#[trigger] s[i]) != entry_key(#[trigger] s[j])
}

/// Among the first `upto` entries, one is a record for input `k + 1`.
pub open spec fn placed(s: Seq<CacheEntry>, upto: int, k: int) -> bool {
    exists|j: int|
        0 <= j < upto && ((#[trigger] s[j]) matches CacheEntry::Done(rec) && rec.initial as int == k
            + 1)
}

/// How many slots already hold a record.
pub open spec fn count_some(s: Seq<Option<SequenceRecord>>) -> nat
    decreases s.len(),
{
    if s.len() == 0 {
        0
    } else {
        count_some(s.drop_last()) + if s.last() is Some {
            1nat
        } else {
            0nat
        }
    }
}

proof fn lemma_count_le(s: Seq<Option<SequenceRecord>>)
    ensures
        count_some(s) <= s.len(),
    decreases s.len(),
{
    if s.len() > 0 {
        lemma_count_le(s.drop_last());
    }
}

proof fn lemma_count_update(s: Seq<Option<SequenceRecord>>, i: int, rec: SequenceRecord)
    requires
        0 <= i < s.len(),
        s[i] is None,
    ensures
        count_some(s.update(i, Some(rec))) == count_some(s) + 1,
    decreases s.len(),
{
    let t = s.update(i, Some(rec));
    if i == s.len() - 1 {
        assert(t.drop_last() =~= s.drop_last());
    } else {
        assert(t.drop_last() =~= s.drop_last().update(i, Some(rec)));
        lemma_count_update(s.drop_last(), i, rec);
        assert(t.last() == s.last());
    }
}

proof fn lemma_count_full(s: Seq<Option<SequenceRecord>>)
    requires
        count_some(s) == s.len(),
    ensures
        forall|i: int| 0 <= i < s.len() ==> (#[trigger] s[i]) is Some,
    decreases s.len(),
{
    if s.len() > 0 {
        lemma_count_le(s.drop_last());
        lemma_count_full(s.drop_last());
        assert forall|i: int| 0 <= i < s.len() implies (#[trigger] s[i]) is Some by {
            if i < s.len() - 1 {
                assert(s.drop_last()[i] is Some);
            }
        }
    }
}

/// Turns the drained cache into the SortedReport for inputs 1 through `n`:
/// exactly when no worker overflowed and the entries are one valid record per
/// input, the result is the records in ascending input order, each visited
/// sequence deduplicated. An overflowed worker is reported as such; any other
/// shortfall of the drained entries is reported as an incomplete cache.
pub fn build_report(entries: Vec<CacheEntry>, n: u64) -> (r: Result<
    Vec<SequenceRecord>,
    EngineError,
>)
    requires
        n <= usize::MAX as u64,
    ensures
        (r matches Err(e) && e == EngineError::Overflow) <==> has_overflow(entries@),
        !has_overflow(entries@) ==> ((r is Ok) <==> complete_entries(entries@, n as nat)),
        r matches Ok(rep) ==> report_complete(rep@, n as nat),
        r matches Err(e) ==> (e == EngineError::Overflow || e == EngineError::Incomplete),
{
    let n_us = n as usize;
    let mut i: usize = 0;
    while i < entries.len()
        invariant
            i <= entries@.len(),
            forall|j: int| 0 <= j < i ==> !((#[trigger] entries@[j]) is Overflowed),
        decreases entries@.len() - i,
    {
        match &entries[i] {
            CacheEntry::Overflowed => {
                assert(has_overflow(entries@));
                return Err(EngineError::Overflow);
            },
            _ => {},
        }
        i = i + 1;
    }
    assert(!has_overflow(entries@));
    if entries.len() != n_us {
        return Err(EngineError::Incomplete);
    }
    let mut slots: Vec<Option<SequenceRecord>> = Vec::new();
    let mut k: usize = 0;
    while k < n_us
        invariant
            k <= n_us,
            slots@.len() == k,
            forall|m: int| 0 <= m < k ==> (#[trigger] slots@[m]) is None,
            count_some(slots@) == 0,
        decreases n_us - k,
    {
        proof {
            assert(slots@.push(Option::<SequenceRecord>::None).drop_last() =~= slots@);
        }
        slots.push(None);
        k = k + 1;
    }
    let mut i: usize = 0;
    while i < n_us
        invariant
            i <= n_us,
            n_us == n,
            entries@.len() == n_us,
            slots@.len() == n_us,
            count_some(slots@) == i,
            forall|j: int| 0 <= j < n_us ==> !((#[trigger] entries@[j]) is Overflowed),
            forall|j: int|
                0 <= j < i ==> ((#[trigger] entries@[j]) matches CacheEntry::Done(rec)
                    && valid_record(rec) && 1 <= rec.initial <= n),
            forall|m: int| 0 <= m < n_us ==> ((#[trigger] slots@[m]) is Some <==> placed(
                entries@,
                i as int,
                m,
            )),
            forall|m: int|
                0 <= m < n_us ==> ((#[trigger] slots@[m]) matches Some(rec) ==> rec.initial as int
                    == m + 1 && valid_record(rec)),
            forall|j1: int, j2: int|
                0 <= j1 < j2 < i ==> entry_key(#[trigger] entries@[j1]) != entry_key(
                    #[trigger] entries@[j2],
                ),
        decreases n_us - i,
    {
        match &entries[i] {
            CacheEntry::Overflowed => {
                assert(false);
                return Err(EngineError::Incomplete);
            },
            CacheEntry::Done(rec) => {
                if !check_record(rec) {
                    assert(!complete_entries(entries@, n as nat));
                    return Err(EngineError::Incomplete);
                }
                let init = rec.initial;
                if init < 1 || init > n {
                    assert(!complete_entries(entries@, n as nat));
                    return Err(EngineError::Incomplete);
                }
                let slot = (init - 1) as usize;
                if slots[slot].is_some() {
                    proof {
                        assert(placed(entries@, i as int, slot as int));
                        let j = choose|j: int|
                            0 <= j < i && ((#[trigger] entries@[j]) matches CacheEntry::Done(r)
                                && r.initial as int == slot + 1);
                        assert(entry_key(entries@[j]) == entry_key(entries@[i as int]));
                        assert(!complete_entries(entries@, n as nat));
                    }
                    return Err(EngineError::Incomplete);
                }
                let copy = SequenceRecord {
                    initial: rec.initial,
                    visited: copy_values(&rec.visited),
                    steps: rec.steps,
                };
                proof {
                    assert(valid_record(copy));
                    lemma_count_update(slots@, slot as int, copy);
                }
                slots.set(slot, Some(copy));
                proof {
                    assert forall|m: int|
                        0 <= m < n_us implies ((#[trigger] slots@[m]) is Some <==> placed(
                        entries@,
                        i + 1,
                        m,
                    )) by {
                        if m == slot {
                            assert((entries@[i as int] matches CacheEntry::Done(r)
                                && r.initial as int == m + 1));
                        } else {
                            if placed(entries@, i + 1, m) {
                                let j = choose|j: int|
                                    0 <= j < i + 1 && ((#[trigger] entries@[j]) matches
                                        CacheEntry::Done(r) && r.initial as int == m + 1);
                                assert(j != i);
                                assert(placed(entries@, i as int, m));
                            }
                        }
                    }
                }
            },
        }
        i = i + 1;
    }
    proof {
        lemma_count_full(slots@);
    }
    let ghost all_slots = slots@;
    let mut rep: Vec<SequenceRecord> = Vec::new();
    let mut k: usize = 0;
    while k < n_us
        invariant
            k <= n_us,
            n_us == n,
            slots@ =~= all_slots.skip(k as int),
            all_slots.len() == n_us,
            forall|m: int| 0 <= m < n_us ==> (#[trigger] all_slots[m]) is Some,
            forall|m: int|
                0 <= m < n_us ==> ((#[trigger] all_slots[m]) matches Some(rec)
                    ==> rec.initial as int == m + 1 && valid_record(rec)),
            rep@.len() == k,
            forall|m: int| 0 <= m < k ==> report_entry_ok(#[trigger] rep@[m], m + 1),
        decreases n_us - k,
    {
        let got = slots.remove(0);
        proof {
            assert(all_slots.skip(k as int)[0] == all_slots[k as int]);
            assert(all_slots.skip(k as int).drop_first() =~= all_slots.skip(k + 1));
        }
        match got {
            None => {
                assert(false);
                return Err(EngineError::Incomplete);
            },
            Some(rec) => {
                let out = SequenceRecord {
                    initial: rec.initial,
                    visited: dedup_adjacent(&rec.visited),
                    steps: rec.steps,
                };
                proof {
                    assert(valid_record(rec));
                    assert(report_entry_ok(out, k + 1));
                }
                rep.push(out);
            },
        }
        k = k + 1;
    }
    assert(complete_entries(entries@, n as nat));
    assert(report_complete(rep@, n as nat));
    Ok(rep)
}

} // verus!
