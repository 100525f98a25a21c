use vstd::prelude::*;

use crate::cache::ResultCache;
use crate::model::{
    batched_cost, batched_next, chain_cost, chain_step_ok, collatz_map, computable, dedup_adj,
    is_chain_seg, is_report_chain, iter_map, lemma_blocked_odd, lemma_chain_join,
    lemma_chain_to_iter,
    lemma_cost_concat, lemma_cost_snoc, lemma_count_blown, lemma_dedup_concat, lemma_dedup_fixed,
    lemma_dedup_head, lemma_even_batch, lemma_iter_add, lemma_seg_distinct, lemma_seg_snoc,
    reaches_one_in, safe_upto,
};
use crate::record::{check_record, copy_values, valid_record, CacheEntry, SequenceRecord};
use crate::stepper::collatz_step;

verus! {

/// One worker task: resolve `start` by stepper transitions, short-circuiting
/// through any valid record already published for a value it lands on, and
/// publish the outcome under `start`. The returned entry is the published
/// one: a valid record for `start`, or the finding that the trajectory of
/// `start` cannot be followed to 1 within `u64` arithmetic.
pub fn calculate(start: u64, cache: &ResultCache) -> (r: CacheEntry)
    requires
        1 <= start,
    ensures
        (r matches CacheEntry::Done(rec) ==> rec.initial == start && valid_record(rec)
            && rec.visited@.len() >= 1 && rec.visited@[0] == start && rec.visited@.last() == 1),
        start == 1 ==> (r matches CacheEntry::Done(rec) && rec.visited@ == seq![1u64]
            && rec.steps == 0),
        (r is Overflowed <==> !computable(start as nat)),
{
    let mut current: u64 = start;
    let mut steps: u64 = 0;
    let mut buf: Vec<u64> = Vec::new();
    buf.push(start);
    while current != 1
        invariant
            1 <= start,
            1 <= current,
            buf@.len() >= 1,
            buf@[0] == start,
            buf@.last() == current,
            is_chain_seg(buf@),
            steps as nat == chain_cost(buf@),
            current as nat == iter_map(start as nat, steps as nat),
            forall|j: nat| j < steps ==> #[trigger] iter_map(start as nat, j) != 1,
        decreases u64::MAX - steps,
    {
        proof {
            if start == 1 {
                assert(iter_map(start as nat, 0) == start as nat);
                if steps != 0 {
                    assert(iter_map(start as nat, 0) != 1);
                }
                assert(false);
            }
        }
        let hit: Option<SequenceRecord> = match cache.try_get(current) {
            Some(CacheEntry::Done(cached)) => {
                if cached.initial == current && check_record(&cached) {
                    Some(cached)
                } else {
                    None
                }
            },
            _ => None,
        };
        match hit {
            Some(cached) => {
                let ghost cd = dedup_adj(cached.visited@);
                proof {
                    lemma_chain_to_iter(cd);
                }
                if steps > u64::MAX - cached.steps {
                    proof {
                        lemma_count_blown(
                            start as nat,
                            steps as nat,
                            current as nat,
                            cached.steps as nat,
                        );
                    }
                    let e = CacheEntry::Overflowed;
                    cache.insert_if_absent(start, e.clone());
                    return e;
                }
                let total = steps + cached.steps;
                let ghost old_buf = buf@;
                let mut tail = copy_values(&cached.visited);
                buf.append(&mut tail);
                proof {
                    lemma_seg_distinct(old_buf);
                    lemma_dedup_fixed(old_buf);
                    lemma_dedup_head(cached.visited@);
                    assert(cached.visited@[0] == cd[0]);
                    lemma_dedup_concat(old_buf, cached.visited@);
                    assert(dedup_adj(buf@) == old_buf + cd.drop_first());
                    lemma_chain_join(old_buf, cd);
                    lemma_cost_concat(old_buf, cd);
                    assert(chain_cost(dedup_adj(buf@)) == total as nat);
                    assert(dedup_adj(buf@)[0] == start);
                    assert(cached.visited@.last() == cd.last() == 1);
                    assert(buf@.last() == cached.visited@.last());
                }
                let rec = SequenceRecord { initial: start, visited: buf, steps: total };
                proof {
                    assert(valid_record(rec));
                    lemma_chain_to_iter(dedup_adj(rec.visited@));
                    assert(reaches_one_in(start as nat, total as nat));
                    assert(computable(start as nat));
                }
                let e = CacheEntry::Done(rec);
                cache.insert_if_absent(start, e.clone());
                return e;
            },
            None => {
                match collatz_step(current) {
                    None => {
                        proof {
                            lemma_blocked_odd(start as nat, steps as nat, current as nat);
                        }
                        let e = CacheEntry::Overflowed;
                        cache.insert_if_absent(start, e.clone());
                        return e;
                    },
                    Some((nxt, c)) => {
                        proof {
                            if current % 2 == 0 {
                                lemma_even_batch(current as nat);
                            } else {
                                assert(iter_map(current as nat, 1) == iter_map(
                                    collatz_map(current as nat),
                                    0,
                                ));
                            }
                            assert(iter_map(current as nat, c as nat) == nxt as nat);
                            assert(forall|j: nat|
                                j < c ==> #[trigger] iter_map(current as nat, j) != 1);
                        }
                        if steps > u64::MAX - c {
                            proof {
                                lemma_count_blown(
                                    start as nat,
                                    steps as nat,
                                    current as nat,
                                    c as nat,
                                );
                            }
                            let e = CacheEntry::Overflowed;
                            cache.insert_if_absent(start, e.clone());
                            return e;
                        }
                        proof {
                            lemma_iter_add(start as nat, steps as nat, c as nat);
                            assert(iter_map(start as nat, (steps + c) as nat) == nxt as nat);
                            assert forall|j: nat| j < steps + c implies #[trigger] iter_map(
                                start as nat,
                                j,
                            ) != 1 by {
                                if j >= steps {
                                    lemma_iter_add(start as nat, steps as nat, (j - steps) as nat);
                                    assert(iter_map(start as nat, j) == iter_map(
                                        current as nat,
                                        (j - steps) as nat,
                                    ));
                                }
                            }
                            lemma_seg_snoc(buf@, nxt);
                            lemma_cost_snoc(buf@, nxt);
                        }
                        steps = steps + c;
                        current = nxt;
                        buf.push(nxt);
                    },
                }
            },
        }
    }
    proof {
        lemma_seg_distinct(buf@);
        lemma_dedup_fixed(buf@);
        assert(is_report_chain(buf@));
        if start == 1 {
            if buf@.len() >= 2 {
                assert(chain_step_ok(buf@, 0));
            }
            assert(buf@ =~= seq![1u64]);
            assert(chain_cost(buf@) == 0);
        }
    }
    let rec = SequenceRecord { initial: start, visited: buf, steps };
    proof {
        assert(valid_record(rec));
        lemma_chain_to_iter(dedup_adj(rec.visited@));
        assert(reaches_one_in(start as nat, steps as nat));
        assert(safe_upto(start as nat, steps as nat));
        assert(computable(start as nat));
    }
    let e = CacheEntry::Done(rec);
    cache.insert_if_absent(start, e.clone());
    e
}

} // verus!
