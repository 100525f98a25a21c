use vstd::prelude::*;

verus! {

use vstd::arithmetic::power2::{
    pow2,
    lemma_pow2_adds,
    lemma_pow2_pos,
    lemma_pow2_strictly_increases,
};

/// One elementary Collatz step: halve an even value, triple-and-increment an
/// odd one.
pub open spec fn collatz_map(n: nat) -> nat {
    if n % 2 == 0 {
        n / 2
    } else {
        3 * n + 1
    }
}

/// `k`-fold iteration of the elementary Collatz map.
pub open spec fn iter_map(n: nat, k: nat) -> nat
    decreases k,
{
    if k == 0 {
        n
    } else {
        iter_map(collatz_map(n), (k - 1) as nat)
    }
}

/// The unmemoized reference definition of a step count: starting from `n`,
/// the trajectory first reaches 1 after exactly `k` elementary steps.
pub open spec fn reaches_one_in(n: nat, k: nat) -> bool {
    iter_map(n, k) == 1 && (forall|j: nat| j < k ==> #[trigger] iter_map(n, j) != 1)
}

/// The value can be held in a `u64` and, if an odd step is due, the stepped
/// value can be held too.
pub open spec fn step_fits(v: nat) -> bool {
    v <= u64::MAX && (v % 2 == 1 && v != 1 ==> 3 * v + 1 <= u64::MAX)
}

/// Every value on the trajectory of `n`, for the first `k` steps, can be
/// stepped without leaving `u64`.
pub open spec fn safe_upto(n: nat, k: nat) -> bool {
    forall|j: nat| j < k ==> step_fits(#[trigger] iter_map(n, j))
}

/// The trajectory of `n` reaches 1 within machine limits: the step count is
/// representable and no intermediate odd step overflows `u64`.
pub open spec fn computable(n: nat) -> bool {
    exists|k: nat| k <= u64::MAX && #[trigger] reaches_one_in(n, k) && safe_upto(n, k)
}

/// Number of trailing halvings an even value admits (the 2-adic valuation).
pub open spec fn two_adic(n: nat) -> nat
    decreases n,
{
    if n == 0 || n % 2 == 1 {
        0
    } else {
        1 + two_adic(n / 2)
    }
}

/// The odd value left after removing every factor of two.
pub open spec fn odd_part(n: nat) -> nat
    decreases n,
{
    if n == 0 || n % 2 == 1 {
        n
    } else {
        odd_part(n / 2)
    }
}

/// One stepper transition: an even value collapses all its halvings at once,
/// an odd value takes a single triple-and-increment step.
pub open spec fn batched_next(v: nat) -> nat {
    if v % 2 == 0 {
        odd_part(v)
    } else {
        3 * v + 1
    }
}

/// Number of elementary steps one stepper transition accounts for.
pub open spec fn batched_cost(v: nat) -> nat {
    if v % 2 == 0 {
        two_adic(v)
    } else {
        1
    }
}

/// Adjacent positions `i`, `i + 1` of `s` are linked by a stepper transition
/// and the source value is a live (not yet finished) value.
pub open spec fn chain_step_ok(s: Seq<u64>, i: int) -> bool {
    s[i] >= 2 && s[i + 1] as nat == batched_next(s[i] as nat)
}

/// A non-empty sequence every adjacent pair of which is a stepper transition.
pub open spec fn is_chain_seg(s: Seq<u64>) -> bool {
    s.len() >= 1 && (forall|i: int| 0 <= i < s.len() - 1 ==> #[trigger] chain_step_ok(s, i))
}

/// The canonical visited sequence of a resolved input: stepper transitions
/// all the way down to 1.
pub open spec fn is_report_chain(s: Seq<u64>) -> bool {
    is_chain_seg(s) && s.last() == 1
}

/// Total number of elementary steps the transitions of `s` account for.
pub open spec fn chain_cost(s: Seq<u64>) -> nat
    decreases s.len(),
{
    if s.len() <= 1 {
        0
    } else {
        batched_cost(s[0] as nat) + chain_cost(s.drop_first())
    }
}

/// Adjacent-duplicate removal, preserving order and first occurrences.
pub open spec fn dedup_adj(s: Seq<u64>) -> Seq<u64>
    decreases s.len(),
{
    if s.len() <= 1 {
        s
    } else if s[0] == s[1] {
        dedup_adj(s.drop_first())
    } else {
        seq![s[0]] + dedup_adj(s.drop_first())
    }
}

/// One halving step of the loop that strips the factors of two out of a
/// value: the power-of-two bookkeeping stays exact and the exponent stays
/// small enough for a counter.
pub proof fn lemma_pow2_step(x: nat, t: nat, v: nat)
    requires
        v == x * pow2(t),
        1 <= x,
        x % 2 == 0,
        v <= u64::MAX,
    ensures
        v == (x / 2) * pow2(t + 1),
        t + 1 <= 64,
{
    lemma_pow2_adds(t, 1);
    vstd::arithmetic::power2::lemma2_to64();
    assert(pow2(t + 1) == 2 * pow2(t));
    assert(x == 2 * (x / 2));
    assert((2 * (x / 2)) * pow2(t) == (x / 2) * (2 * pow2(t))) by (nonlinear_arith);
    if t + 1 > 64 {
        lemma_pow2_pos(t);
        assert(pow2(t) <= x * pow2(t)) by (nonlinear_arith)
            requires
                1 <= x,
                pow2(t) > 0,
        ;
        if t > 64 {
            lemma_pow2_strictly_increases(64, t);
        }
        vstd::arithmetic::power2::lemma2_to64_rest();
        assert(pow2(64) == 0x10000000000000000);
        assert(false);
    }
}

pub proof fn lemma_iter_add(n: nat, a: nat, b: nat)
    ensures
        iter_map(n, a + b) == iter_map(iter_map(n, a), b),
    decreases a,
{
    if a > 0 {
        lemma_iter_add(collatz_map(n), (a - 1) as nat, b);
    }
}

/// The two step counts that reach 1 from the same start are the same count.
pub proof fn lemma_reaches_unique(n: nat, k1: nat, k2: nat)
    requires
        reaches_one_in(n, k1),
        reaches_one_in(n, k2),
    ensures
        k1 == k2,
{
    if k1 < k2 {
        assert(iter_map(n, k1) != 1);
    }
    if k2 < k1 {
        assert(iter_map(n, k2) != 1);
    }
}

/// A trajectory stuck before an odd value too large to step cannot reach 1
/// within machine limits.
pub proof fn lemma_blocked_odd(start: nat, steps: nat, current: nat)
    requires
        current == iter_map(start, steps),
        forall|j: nat| j < steps ==> #[trigger] iter_map(start, j) != 1,
        current != 1,
        current % 2 == 1,
        3 * current + 1 > u64::MAX,
    ensures
        !computable(start),
{
    if computable(start) {
        let k = choose|k: nat|
            k <= u64::MAX && #[trigger] reaches_one_in(start, k) && safe_upto(start, k);
        if k < steps {
            assert(iter_map(start, k) != 1);
        }
        assert(k > steps);
        assert(step_fits(iter_map(start, steps)));
        assert(false);
    }
}

/// A trajectory that has not reached 1 after `steps` steps, and is known not
/// to reach it for `t` more, needs more steps than a counter can hold when
/// `steps + t` exceeds it.
pub proof fn lemma_count_blown(start: nat, steps: nat, current: nat, t: nat)
    requires
        current == iter_map(start, steps),
        forall|j: nat| j < steps ==> #[trigger] iter_map(start, j) != 1,
        steps + t > u64::MAX,
        forall|j: nat| j < t ==> #[trigger] iter_map(current, j) != 1,
    ensures
        !computable(start),
{
    if computable(start) {
        let k = choose|k: nat|
            k <= u64::MAX && #[trigger] reaches_one_in(start, k) && safe_upto(start, k);
        if k < steps {
            assert(iter_map(start, k) != 1);
        } else {
            assert(k < steps + t);
            lemma_iter_add(start, steps, (k - steps) as nat);
            assert(iter_map(start, k) == iter_map(current, (k - steps) as nat));
            assert(iter_map(current, (k - steps) as nat) != 1);
        }
        assert(false);
    }
}

/// Collapsed halvings agree with iterated elementary halvings: an even value
/// reaches its odd part in exactly `two_adic` steps, through even values.
pub proof fn lemma_even_batch(v: nat)
    requires
        2 <= v,
        v % 2 == 0,
    ensures
        1 <= two_adic(v),
        iter_map(v, two_adic(v)) == odd_part(v),
        odd_part(v) % 2 == 1,
        1 <= odd_part(v) <= v / 2,
        forall|j: nat| j < two_adic(v) ==> #[trigger] iter_map(v, j) % 2 == 0
            && 1 <= iter_map(v, j) <= v,
    decreases v,
{
    let h = v / 2;
    assert(collatz_map(v) == h);
    if h % 2 == 0 {
        lemma_even_batch(h);
        assert forall|j: nat| j < two_adic(v) implies #[trigger] iter_map(v, j) % 2 == 0
            && 1 <= iter_map(v, j) <= v by {
            if j == 0 {
            } else {
                assert(iter_map(v, j) == iter_map(h, (j - 1) as nat));
            }
        }
        assert(iter_map(v, two_adic(v)) == iter_map(h, (two_adic(v) - 1) as nat));
    } else {
        assert(two_adic(v) == 1);
        assert(iter_map(v, 1) == iter_map(h, 0));
    }
}

/// A chain of stepper transitions that ends at 1 certifies the elementary
/// step count of its head: the chain's total cost is the number of
/// elementary steps in which the head first reaches 1, and every elementary
/// step along the way stays within `u64`.
pub proof fn lemma_chain_to_iter(c: Seq<u64>)
    requires
        is_report_chain(c),
    ensures
        reaches_one_in(c[0] as nat, chain_cost(c)),
        safe_upto(c[0] as nat, chain_cost(c)),
    decreases c.len(),
{
    let v = c[0] as nat;
    let k = chain_cost(c);
    if c.len() == 1 {
        assert(c[0] == 1);
        assert(iter_map(1, 0) == 1);
    } else {
        assert(chain_step_ok(c, 0));
        let rest = c.drop_first();
        assert(is_report_chain(rest)) by {
            assert forall|i: int| 0 <= i < rest.len() - 1 implies #[trigger] chain_step_ok(
                rest,
                i,
            ) by {
                assert(chain_step_ok(c, i + 1));
            }
            assert(rest.last() == c.last());
        }
        lemma_chain_to_iter(rest);
        let w = c[1] as nat;
        let t = batched_cost(v);
        let kr = chain_cost(rest);
        assert(k == t + kr);
        if v % 2 == 1 {
            assert(collatz_map(v) == w);
            assert(iter_map(v, 1) == iter_map(collatz_map(v), 0));
            assert(iter_map(v, 1) == w);
            lemma_iter_add(v, 1, kr);
            assert(iter_map(v, k) == 1);
            assert forall|j: nat| j < k implies #[trigger] iter_map(v, j) != 1 by {
                if j == 0 {
                } else {
                    lemma_iter_add(v, 1, (j - 1) as nat);
                    assert(iter_map(v, j) == iter_map(w, (j - 1) as nat));
                }
            }
            assert forall|j: nat| j < k implies step_fits(#[trigger] iter_map(v, j)) by {
                if j == 0 {
                    assert(3 * v + 1 == w <= u64::MAX);
                } else {
                    lemma_iter_add(v, 1, (j - 1) as nat);
                    assert(iter_map(v, j) == iter_map(w, (j - 1) as nat));
                }
            }
        } else {
            lemma_even_batch(v);
            assert(iter_map(v, t) == w);
            lemma_iter_add(v, t, kr);
            assert(iter_map(v, k) == 1);
            assert forall|j: nat| j < k implies #[trigger] iter_map(v, j) != 1 by {
                if j < t {
                    assert(iter_map(v, j) % 2 == 0);
                } else {
                    lemma_iter_add(v, t, (j - t) as nat);
                    assert(iter_map(v, j) == iter_map(w, (j - t) as nat));
                }
            }
            assert forall|j: nat| j < k implies step_fits(#[trigger] iter_map(v, j)) by {
                if j < t {
                    assert(iter_map(v, j) % 2 == 0);
                    assert(iter_map(v, j) <= v <= u64::MAX);
                } else {
                    lemma_iter_add(v, t, (j - t) as nat);
                    assert(iter_map(v, j) == iter_map(w, (j - t) as nat));
                }
            }
        }
    }
}

/// Two chains of stepper transitions with the same head are the same chain.
pub proof fn lemma_chain_unique(c1: Seq<u64>, c2: Seq<u64>)
    requires
        is_report_chain(c1),
        is_report_chain(c2),
        c1[0] == c2[0],
    ensures
        c1 == c2,
    decreases c1.len(),
{
    if c1[0] == 1 {
        assert(c1.len() == 1) by {
            if c1.len() >= 2 {
                assert(chain_step_ok(c1, 0));
            }
        }
        assert(c2.len() == 1) by {
            if c2.len() >= 2 {
                assert(chain_step_ok(c2, 0));
            }
        }
        assert(c1 =~= c2);
    } else {
        assert(c1.len() >= 2) by {
            if c1.len() == 1 {
                assert(c1.last() == c1[0]);
            }
        }
        assert(c2.len() >= 2) by {
            if c2.len() == 1 {
                assert(c2.last() == c2[0]);
            }
        }
        assert(chain_step_ok(c1, 0));
        assert(chain_step_ok(c2, 0));
        let r1 = c1.drop_first();
        let r2 = c2.drop_first();
        assert(is_report_chain(r1)) by {
            assert forall|i: int| 0 <= i < r1.len() - 1 implies #[trigger] chain_step_ok(r1, i) by {
                assert(chain_step_ok(c1, i + 1));
            }
            assert(r1.last() == c1.last());
        }
        assert(is_report_chain(r2)) by {
            assert forall|i: int| 0 <= i < r2.len() - 1 implies #[trigger] chain_step_ok(r2, i) by {
                assert(chain_step_ok(c2, i + 1));
            }
            assert(r2.last() == c2.last());
        }
        lemma_chain_unique(r1, r2);
        assert(c1.len() == c2.len());
        assert forall|i: int| 0 <= i < c1.len() implies c1[i] == c2[i] by {
            if i > 0 {
                assert(c1[i] == r1[i - 1]);
                assert(c2[i] == r2[i - 1]);
            }
        }
        assert(c1 =~= c2);
    }
}

/// A stepper transition never maps a live value to itself.
pub proof fn lemma_batched_next_changes(v: nat)
    requires
        2 <= v,
    ensures
        batched_next(v) != v,
{
    if v % 2 == 0 {
        lemma_even_batch(v);
    }
}

pub proof fn lemma_dedup_head(s: Seq<u64>)
    requires
        s.len() >= 1,
    ensures
        dedup_adj(s).len() >= 1,
        dedup_adj(s)[0] == s[0],
        dedup_adj(s).last() == s.last(),
    decreases s.len(),
{
    if s.len() > 1 {
        lemma_dedup_head(s.drop_first());
    }
}

/// A sequence without adjacent duplicates is untouched by deduplication.
pub proof fn lemma_dedup_fixed(s: Seq<u64>)
    requires
        forall|i: int| 0 <= i < s.len() - 1 ==> s[i] != #[trigger] s[i + 1],
    ensures
        dedup_adj(s) == s,
    decreases s.len(),
{
    if s.len() > 1 {
        let rest = s.drop_first();
        assert forall|i: int| 0 <= i < rest.len() - 1 implies rest[i] != #[trigger] rest[i
            + 1] by {
            let j = i + 1;
            assert(s[j] != s[j + 1]);
            assert(rest[i] == s[j]);
            assert(rest[i + 1] == s[j + 1]);
        }
        lemma_dedup_fixed(rest);
        assert(s[0] != s[1]);
        assert(seq![s[0]] + rest =~= s);
    }
}

/// Deduplication leaves no adjacent duplicates behind.
pub proof fn lemma_dedup_distinct(s: Seq<u64>)
    ensures
        forall|i: int|
            0 <= i < dedup_adj(s).len() - 1 ==> dedup_adj(s)[i] != #[trigger] dedup_adj(s)[i + 1],
    decreases s.len(),
{
    if s.len() > 1 {
        let rest = s.drop_first();
        lemma_dedup_distinct(rest);
        if s[0] != s[1] {
            lemma_dedup_head(rest);
            let d = seq![s[0]] + dedup_adj(rest);
            assert(dedup_adj(s) == d);
            assert forall|i: int| 0 <= i < d.len() - 1 implies d[i] != #[trigger] d[i + 1] by {
                if i == 0 {
                    assert(dedup_adj(rest)[0] == rest[0]);
                    assert(d[1] == dedup_adj(rest)[0]);
                    assert(rest[0] == s[1]);
                } else {
                    let j = i - 1;
                    assert(dedup_adj(rest)[j] != dedup_adj(rest)[j + 1]);
                    assert(d[i] == dedup_adj(rest)[j]);
                    assert(d[i + 1] == dedup_adj(rest)[j + 1]);
                }
            }
            assert forall|i: int|
                0 <= i < dedup_adj(s).len() - 1 implies dedup_adj(s)[i] != #[trigger] dedup_adj(
                s,
            )[i + 1] by {
                assert(d[i] != d[i + 1]);
            }
        }
    }
}

/// Deduplicating twice is the same as deduplicating once.
pub proof fn lemma_dedup_idempotent(s: Seq<u64>)
    ensures
        dedup_adj(dedup_adj(s)) == dedup_adj(s),
{
    lemma_dedup_distinct(s);
    lemma_dedup_fixed(dedup_adj(s));
}

/// How deduplication distributes over concatenation: only a duplicate at the
/// junction is collapsed.
pub proof fn lemma_dedup_concat(a: Seq<u64>, b: Seq<u64>)
    requires
        a.len() >= 1,
        b.len() >= 1,
    ensures
        dedup_adj(a + b) == if a.last() == b[0] {
            dedup_adj(a) + dedup_adj(b).drop_first()
        } else {
            dedup_adj(a) + dedup_adj(b)
        },
    decreases a.len(),
{
    lemma_dedup_head(b);
    if a.len() == 1 {
        let s = a + b;
        assert(s.drop_first() =~= b);
        if a.last() == b[0] {
            assert(s[0] == s[1]);
            assert(dedup_adj(s) == dedup_adj(b));
            assert(dedup_adj(b) =~= dedup_adj(a) + dedup_adj(b).drop_first()) by {
                assert(dedup_adj(a) == a);
                assert(dedup_adj(b)[0] == b[0] == a[0]);
            }
        } else {
            assert(s[0] != s[1]);
            assert(dedup_adj(s) == seq![s[0]] + dedup_adj(b));
            assert(seq![s[0]] + dedup_adj(b) =~= dedup_adj(a) + dedup_adj(b));
        }
    } else {
        let s = a + b;
        let ar = a.drop_first();
        assert(s.drop_first() =~= ar + b);
        lemma_dedup_concat(ar, b);
        assert(ar.last() == a.last());
        if a[0] == a[1] {
            assert(s[0] == s[1]);
            assert(dedup_adj(s) == dedup_adj(ar + b));
            assert(dedup_adj(a) == dedup_adj(ar));
        } else {
            assert(s[0] != s[1]);
            assert(s[1] == a[1]);
            assert(dedup_adj(s) == seq![s[0]] + dedup_adj(ar + b));
            assert(dedup_adj(a) == seq![a[0]] + dedup_adj(ar));
            if a.last() == b[0] {
                assert(seq![s[0]] + (dedup_adj(ar) + dedup_adj(b).drop_first()) =~= (seq![a[0]]
                    + dedup_adj(ar)) + dedup_adj(b).drop_first());
            } else {
                assert(seq![s[0]] + (dedup_adj(ar) + dedup_adj(b)) =~= (seq![a[0]]
                    + dedup_adj(ar)) + dedup_adj(b));
            }
        }
    }
}

/// Deduplication after appending one element: the element is dropped exactly
/// when it repeats the current last element.
pub proof fn lemma_dedup_snoc(s: Seq<u64>, x: u64)
    ensures
        dedup_adj(s.push(x)) == if s.len() >= 1 && s.last() == x {
            dedup_adj(s)
        } else {
            dedup_adj(s).push(x)
        },
{
    if s.len() == 0 {
        assert(s.push(x) =~= seq![x]);
        assert(dedup_adj(s).push(x) =~= seq![x]);
    } else {
        assert(s.push(x) =~= s + seq![x]);
        lemma_dedup_concat(s, seq![x]);
        if s.last() == x {
            assert(dedup_adj(s) + dedup_adj(seq![x]).drop_first() =~= dedup_adj(s));
        } else {
            assert(dedup_adj(s) + dedup_adj(seq![x]) =~= dedup_adj(s).push(x));
        }
    }
}

/// Costs add up across a junction shared by two chains.
pub proof fn lemma_cost_concat(p: Seq<u64>, q: Seq<u64>)
    requires
        p.len() >= 1,
        q.len() >= 1,
        p.last() == q[0],
    ensures
        chain_cost(p + q.drop_first()) == chain_cost(p) + chain_cost(q),
    decreases p.len(),
{
    let s = p + q.drop_first();
    if p.len() == 1 {
        assert(s =~= q);
        assert(chain_cost(p) == 0);
    } else {
        let pr = p.drop_first();
        assert(s.drop_first() =~= pr + q.drop_first());
        lemma_cost_concat(pr, q);
        assert(s[0] == p[0]);
        assert(s.len() >= 2);
        assert(chain_cost(s) == batched_cost(s[0] as nat) + chain_cost(s.drop_first()));
        assert(chain_cost(p) == batched_cost(p[0] as nat) + chain_cost(pr));
    }
}

/// The total cost splits at any position into the cost so far and the cost of
/// the rest.
pub proof fn lemma_cost_split(s: Seq<u64>, i: int)
    requires
        0 <= i < s.len(),
    ensures
        chain_cost(s) == chain_cost(s.take(i + 1)) + chain_cost(s.skip(i)),
{
    let p = s.take(i + 1);
    let q = s.skip(i);
    assert(p.last() == q[0]);
    lemma_cost_concat(p, q);
    assert(p + q.drop_first() =~= s);
}

/// Appending the next transition target to a chain segment.
pub proof fn lemma_cost_snoc(s: Seq<u64>, x: u64)
    requires
        s.len() >= 1,
    ensures
        chain_cost(s.push(x)) == chain_cost(s) + batched_cost(s.last() as nat),
{
    let q = seq![s.last(), x];
    assert(chain_cost(q) == batched_cost(s.last() as nat) + chain_cost(q.drop_first()));
    assert(q.drop_first() =~= seq![x]);
    assert(chain_cost(seq![x]) == 0);
    lemma_cost_concat(s, q);
    assert(s + q.drop_first() =~= s.push(x));
}

/// A chain segment extended by one more stepper transition is still a chain
/// segment.
pub proof fn lemma_seg_snoc(s: Seq<u64>, x: u64)
    requires
        is_chain_seg(s),
        s.last() >= 2,
        x as nat == batched_next(s.last() as nat),
    ensures
        is_chain_seg(s.push(x)),
{
    let t = s.push(x);
    assert forall|i: int| 0 <= i < t.len() - 1 implies #[trigger] chain_step_ok(t, i) by {
        if i < s.len() - 1 {
            assert(chain_step_ok(s, i));
            assert(t[i] == s[i] && t[i + 1] == s[i + 1]);
        } else {
            assert(t[i] == s.last() && t[i + 1] == x);
        }
    }
}

/// A chain segment joined, at its last value, to a full chain headed by that
/// value forms a full chain.
pub proof fn lemma_chain_join(p: Seq<u64>, c: Seq<u64>)
    requires
        is_chain_seg(p),
        is_report_chain(c),
        p.last() == c[0],
    ensures
        is_report_chain(p + c.drop_first()),
{
    let s = p + c.drop_first();
    assert forall|i: int| 0 <= i < s.len() - 1 implies #[trigger] chain_step_ok(s, i) by {
        if i < p.len() - 1 {
            assert(chain_step_ok(p, i));
            assert(s[i] == p[i] && s[i + 1] == p[i + 1]);
        } else if i == p.len() - 1 {
            assert(c.len() >= 2);
            assert(chain_step_ok(c, 0));
            assert(s[i] == p.last() && s[i + 1] == c[1]);
        } else {
            let j = i - p.len() + 1;
            assert(chain_step_ok(c, j));
            assert(s[i] == c[j] && s[i + 1] == c[j + 1]);
        }
    }
    if c.len() == 1 {
        assert(s =~= p);
        assert(s.last() == p.last() == c[0] == c.last());
    } else {
        assert(s.last() == c.last());
    }
}

/// No two adjacent values of a chain segment are equal.
pub proof fn lemma_seg_distinct(s: Seq<u64>)
    requires
        is_chain_seg(s),
    ensures
        forall|i: int| 0 <= i < s.len() - 1 ==> s[i] != #[trigger] s[i + 1],
{
    assert forall|i: int| 0 <= i < s.len() - 1 implies s[i] != #[trigger] s[i + 1] by {
        assert(chain_step_ok(s, i));
        lemma_batched_next_changes(s[i] as nat);
    }
}

} // verus!
