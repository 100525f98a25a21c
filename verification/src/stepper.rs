use vstd::prelude::*;

use crate::model::{batched_cost, batched_next, odd_part, two_adic};

verus! {

/// Splits a positive value into its odd part and the number of halvings
/// removed, by repeated division.
pub fn split_even(v: u64) -> (r: (u64, u64))
    requires
        1 <= v,
    ensures
        r.0 as nat == odd_part(v as nat),
        r.1 as nat == two_adic(v as nat),
        1 <= r.0 <= v,
        r.0 % 2 == 1,
{
    let mut x = v;
    let mut t: u64 = 0;
    proof {
        vstd::arithmetic::power2::lemma2_to64();
    }
    while x % 2 == 0
        invariant
            1 <= x <= v,
            odd_part(x as nat) == odd_part(v as nat),
            two_adic(v as nat) == two_adic(x as nat) + t,
            t <= 64,
            v as nat == x as nat * vstd::arithmetic::power2::pow2(t as nat),
        decreases x,
    {
        proof {
            crate::model::lemma_pow2_step(x as nat, t as nat, v as nat);
        }
        x = x / 2;
        t = t + 1;
    }
    (x, t)
}

/// One SequenceStepper transition from a live value: collapse every pending
/// halving of an even value in one transition, or apply the
/// triple-and-increment rule to an odd one. Returns the next value and the
/// number of elementary steps consumed, or nothing when the odd rule would
/// leave `u64`.
pub fn collatz_step(v: u64) -> (r: Option<(u64, u64)>)
    requires
        2 <= v,
    ensures
        match r {
            Some(p) => p.0 as nat == batched_next(v as nat) && p.1 as nat == batched_cost(v as nat)
                && 1 <= p.1 && 1 <= p.0,
            None => v % 2 == 1 && 3 * (v as nat) + 1 > u64::MAX,
        },
        r is None <==> (v % 2 == 1 && 3 * (v as nat) + 1 > u64::MAX),
{
    if v % 2 == 0 {
        let (o, t) = split_even(v);
        assert(1 <= t) by {
            assert(two_adic(v as nat) == 1 + two_adic((v / 2) as nat));
        }
        Some((o, t))
    } else {
        if v <= (u64::MAX - 1) / 3 {
            Some((3 * v + 1, 1))
        } else {
            None
        }
    }
}

} // verus!
