//! Rounding a byte count up to a power of two.

use vstd::arithmetic::power2::is_pow2;
use vstd::prelude::*;

verus! {

/// The smallest power of two that is at least `v`; 1 for `v == 0`.
pub open spec fn next_pow2(v: nat) -> nat
    decreases v,
{
    if v <= 1 {
        1
    } else {
        2 * next_pow2((v + 1) / 2)
    }
}

/// Doubling a power of two gives a power of two.
pub proof fn lemma_pow2_double(p: int)
    requires
        is_pow2(p),
    ensures
        is_pow2(2 * p),
{
    reveal(is_pow2);
    assert((2 * p) / 2 == p);
}

/// Two distinct powers of two differ by a factor of at least two.
pub proof fn lemma_pow2_gap(a: int, b: int)
    requires
        is_pow2(a),
        is_pow2(b),
        a < b,
    ensures
        2 * a <= b,
    decreases a,
{
    reveal(is_pow2);
    if a > 1 {
        lemma_pow2_gap(a / 2, b / 2);
    }
}

/// A power of two in `[v, 2v)` is the smallest power of two at least `v`.
pub proof fn lemma_next_pow2_unique(v: nat, p: int)
    requires
        is_pow2(p),
        v <= p < 2 * v,
    ensures
        p == next_pow2(v),
    decreases v,
{
    reveal(is_pow2);
    if v > 1 {
        lemma_next_pow2_unique((v + 1) / 2, p / 2);
    }
}

/// `next_pow2(v)` is a power of two, at least `v`, and below `2v` for positive `v`.
pub proof fn lemma_next_pow2_bounds(v: nat)
    ensures
        is_pow2(next_pow2(v) as int),
        v <= next_pow2(v),
        v >= 1 ==> next_pow2(v) < 2 * v,
    decreases v,
{
    reveal(is_pow2);
    if v > 1 {
        lemma_next_pow2_bounds((v + 1) / 2);
        lemma_pow2_double(next_pow2((v + 1) / 2) as int);
    }
}

/// No power of two lies strictly between `v` and `next_pow2(v)`: the result is
/// the least power of two that is at least `v`.
pub proof fn lemma_next_pow2_least(v: nat, q: int)
    requires
        is_pow2(q),
        v <= q,
    ensures
        next_pow2(v) <= q,
{
    reveal(is_pow2);
    lemma_next_pow2_bounds(v);
    if q < next_pow2(v) {
        lemma_pow2_gap(q, next_pow2(v) as int);
    }
}

/// A power of two rounds up to itself.
pub proof fn lemma_next_pow2_of_pow2(p: nat)
    requires
        is_pow2(p as int),
    ensures
        next_pow2(p) == p,
{
    reveal(is_pow2);
    lemma_next_pow2_unique(p, p as int);
}

/// Rounding up is monotonic: a larger request never rounds to a smaller size.
pub proof fn lemma_next_pow2_monotonic(a: nat, b: nat)
    requires
        a <= b,
    ensures
        next_pow2(a) <= next_pow2(b),
{
    lemma_next_pow2_bounds(b);
    lemma_next_pow2_least(a, next_pow2(b) as int);
}

/// Rounds `v` up to the nearest power of two: the result is a power of two,
/// at least `v`, and no power of two between `v` and the result exists.
///
/// Fails when `v` is zero or when the rounded value does not fit in `usize`.
pub fn round_up_to_nearest_pow2(v: usize) -> (r: Result<usize, &'static str>)
    ensures
        match r {
            Ok(p) => {
                &&& v >= 1
                &&& p == next_pow2(v as nat)
                &&& is_pow2(p as int)
                &&& v <= p
                &&& forall|q: int| is_pow2(q) && v <= q ==> p <= q
            },
            Err(e) => (v == 0 || next_pow2(v as nat) > usize::MAX) && e@ == "Out of range"@,
        },
{
    if v == 0 {
        return Err("Out of range");
    }
    let mut p: usize = 1;
    proof {
        reveal(is_pow2);
    }
    while p < v
        invariant
            v >= 1,
            p >= 1,
            is_pow2(p as int),
            p < 2 * v,
        decreases 2 * v - p,
    {
        if p > usize::MAX / 2 {
            proof {
                lemma_next_pow2_bounds(v as nat);
                lemma_pow2_gap(p as int, next_pow2(v as nat) as int);
            }
            return Err("Out of range");
        }
        proof {
            lemma_pow2_double(p as int);
        }
        p = p * 2;
    }
    proof {
        lemma_next_pow2_unique(v as nat, p as int);
        assert forall|q: int| is_pow2(q) && v <= q implies p <= q by {
            lemma_next_pow2_least(v as nat, q);
        }
    }
    Ok(p)
}

} // verus!
