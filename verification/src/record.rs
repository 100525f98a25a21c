use vstd::prelude::*;

use crate::model::{
    chain_cost, chain_step_ok, dedup_adj, is_chain_seg, is_report_chain, lemma_cost_snoc,
    lemma_cost_split, lemma_dedup_head, lemma_dedup_snoc,
};
use crate::stepper::collatz_step;

verus! {

/// What one resolved input publishes: the input, the visited sequence of
/// stepper values (insertion order, adjacent duplicates possible where a
/// cached tail was merged in), and the elementary step count.
#[derive(Clone, Debug)]
pub struct SequenceRecord {
    pub initial: u64,
    pub visited: Vec<u64>,
    pub steps: u64,
}

/// What a worker publishes into the shared cache for its input: either its
/// record, or the fact that the computation left `u64`.
#[derive(Clone, Debug)]
pub enum CacheEntry {
    Done(SequenceRecord),
    Overflowed,
}

/// The run-terminating errors: a rejected input count, an arithmetic
/// overflow during a worker's computation, and a drained cache that does not
/// hold exactly one well-formed record per requested input.
#[derive(Clone, Copy, Debug, PartialEq, Eq, Structural)]
pub enum EngineError {
    Input,
    Overflow,
    Incomplete,
}

/// A record is valid when its deduplicated visited sequence is the chain of
/// stepper transitions from its input down to 1, and its step count is that
/// chain's total cost.
pub open spec fn valid_record(rec: SequenceRecord) -> bool {
    let c = dedup_adj(rec.visited@);
    is_report_chain(c) && c[0] == rec.initial && rec.steps as nat == chain_cost(c)
}

/// A finished report entry for input `idx`: already deduplicated, chained
/// down to 1, with the matching step count.
pub open spec fn report_entry_ok(rec: SequenceRecord, idx: int) -> bool {
    rec.initial as int == idx && is_report_chain(rec.visited@) && rec.visited@[0] as int == idx
        && rec.steps as nat == chain_cost(rec.visited@)
}

/// A complete report for inputs 1 through `n`, in ascending input order.
pub open spec fn report_complete(rep: Seq<SequenceRecord>, n: nat) -> bool {
    rep.len() == n && (forall|i: int| 0 <= i < n ==> report_entry_ok(#[trigger] rep[i], i + 1))
}

/// An element-for-element copy of a sequence of values.
pub fn copy_values(v: &Vec<u64>) -> (r: Vec<u64>)
    ensures
        r@ == v@,
{
    let mut r: Vec<u64> = Vec::new();
    let mut i: usize = 0;
    while i < v.len()
        invariant
            i <= v.len(),
            r@ == v@.take(i as int),
        decreases v.len() - i,
    {
        r.push(v[i]);
        proof {
            assert(v@.take(i + 1) =~= v@.take(i as int).push(v@[i as int]));
        }
        i = i + 1;
    }
    proof {
        assert(v@.take(v@.len() as int) =~= v@);
    }
    r
}

/// Removes adjacent duplicates, keeping order and first occurrences.
pub fn dedup_adjacent(v: &Vec<u64>) -> (r: Vec<u64>)
    ensures
        r@ == dedup_adj(v@),
{
    let mut r: Vec<u64> = Vec::new();
    let mut i: usize = 0;
    while i < v.len()
        invariant
            i <= v.len(),
            r@ == dedup_adj(v@.take(i as int)),
            i >= 1 ==> r@.len() >= 1 && r@.last() == v@[i - 1],
        decreases v.len() - i,
    {
        let x = v[i];
        proof {
            assert(v@.take(i + 1) =~= v@.take(i as int).push(v@[i as int]));
            lemma_dedup_snoc(v@.take(i as int), v@[i as int]);
            if i >= 1 {
                lemma_dedup_head(v@.take(i as int));
            }
        }
        if r.len() == 0 || r[r.len() - 1] != x {
            r.push(x);
        }
        i = i + 1;
    }
    proof {
        assert(v@.take(v@.len() as int) =~= v@);
    }
    r
}

/// Decides exactly whether a record is valid: its deduplicated visited
/// sequence must run from its input down to 1 by stepper transitions, and
/// its step count must equal the chain's cost.
pub fn check_record(rec: &SequenceRecord) -> (b: bool)
    ensures
        b == valid_record(*rec),
{
    let d = dedup_adjacent(&rec.visited);
    let ghost dg = d@;
    if d.len() == 0 {
        return false;
    }
    if d[0] != rec.initial {
        return false;
    }
    if d[d.len() - 1] != 1 {
        return false;
    }
    let mut i: usize = 0;
    let mut acc: u64 = 0;
    while i + 1 < d.len()
        invariant
            dg == dedup_adj(rec.visited@),
            d@ == dg,
            d@.len() >= 1,
            i <= d@.len() - 1,
            acc as nat == chain_cost(dg.take(i + 1)),
            forall|j: int| 0 <= j < i ==> #[trigger] chain_step_ok(dg, j),
            dg.last() == 1,
            dg[0] == rec.initial,
        decreases d.len() - i,
    {
        let a = d[i];
        let b = d[i + 1];
        if a < 2 {
            assert(!chain_step_ok(dg, i as int));
            return false;
        }
        match collatz_step(a) {
            None => {
                assert(!chain_step_ok(dg, i as int));
                return false;
            },
            Some((nxt, c)) => {
                if b != nxt {
                    assert(!chain_step_ok(dg, i as int));
                    return false;
                }
                proof {
                    assert(dg.take(i + 2) =~= dg.take(i + 1).push(dg[i + 1]));
                    lemma_cost_snoc(dg.take(i + 1), dg[i + 1]);
                    assert(dg.take(i + 1).last() == dg[i as int]);
                }
                if acc > u64::MAX - c {
                    proof {
                        lemma_cost_split(dg, i + 1);
                        assert(chain_cost(dg) >= chain_cost(dg.take(i + 2)));
                        assert(chain_cost(dg) > u64::MAX);
                    }
                    return false;
                }
                acc = acc + c;
                assert(chain_step_ok(dg, i as int));
                i = i + 1;
            },
        }
    }
    proof {
        assert(i == d@.len() - 1);
        assert(dg.take(dg.len() as int) =~= dg);
        assert(is_chain_seg(dg));
        assert(is_report_chain(dg));
    }
    acc == rec.steps
}

} // verus!
