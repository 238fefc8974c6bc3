//! Integer square roots.

use vstd::prelude::*;

verus! {

/// The integer square root: the largest `r` with `r * r <= x`.
pub open spec fn isqrt(x: nat) -> nat
    decreases x,
{
    if x == 0 {
        0
    } else {
        let r = isqrt((x - 1) as nat);
        if (r + 1) * (r + 1) <= x {
            (r + 1) as nat
        } else {
            r
        }
    }
}

/// `isqrt(x)` brackets `x` between two consecutive squares.
pub proof fn lemma_isqrt_bracket(x: nat)
    ensures
        (isqrt(x) as int) * (isqrt(x) as int) <= x < (isqrt(x) as int + 1) * (isqrt(x) as int + 1),
    decreases x,
{
    if x == 0 {
        assert(isqrt(x) == 0);
    } else {
        lemma_isqrt_bracket((x - 1) as nat);
        let r = isqrt((x - 1) as nat);
        assert(r * r <= x - 1 < (r + 1) * (r + 1));
        assert((r + 1) * (r + 1) < (r + 2) * (r + 2)) by (nonlinear_arith);
        let q = isqrt(x);
        if (r + 1) * (r + 1) <= x {
            assert(q == r + 1);
            assert(q * q <= x < (q + 1) * (q + 1));
        } else {
            assert(q == r);
            assert(q * q <= x < (q + 1) * (q + 1));
        }
    }
}

/// Only one value brackets `x` between consecutive squares.
pub proof fn lemma_isqrt_unique(x: nat, r: nat)
    requires
        (r as int) * (r as int) <= x < (r as int + 1) * (r as int + 1),
    ensures
        isqrt(x) == r,
{
    lemma_isqrt_bracket(x);
    let q = isqrt(x) as int;
    let r = r as int;
    if q < r {
        assert((q + 1) * (q + 1) <= r * r) by (nonlinear_arith)
            requires
                0 <= q,
                q + 1 <= r,
        ;
    } else if q > r {
        assert((r + 1) * (r + 1) <= q * q) by (nonlinear_arith)
            requires
                0 <= r,
                r + 1 <= q,
        ;
    }
}

/// The integer square root of a 128-bit value, by bisection.
pub fn isqrt_u128(x: u128) -> (r: u128)
    ensures
        r as nat == isqrt(x as nat),
        r < 0x1_0000_0000_0000_0000,
{
    let mut lo: u128 = 0;
    let mut hi: u128 = 0x1_0000_0000_0000_0000;
    assert(hi * hi > x) by (nonlinear_arith)
        requires
            hi == 0x1_0000_0000_0000_0000u128,
            x <= u128::MAX,
    ;
    while hi - lo > 1
        invariant
            lo < hi <= 0x1_0000_0000_0000_0000,
            lo * lo <= x,
            x < hi * hi,
        decreases hi - lo,
    {
        let mid = lo + (hi - lo) / 2;
        assert(mid * mid < 0x1_0000_0000_0000_0000_0000_0000_0000_0000) by (nonlinear_arith)
            requires
                mid < 0x1_0000_0000_0000_0000,
        ;
        if mid * mid <= x {
            lo = mid;
        } else {
            hi = mid;
        }
    }
    proof {
        assert(hi == lo + 1);
        lemma_isqrt_unique(x as nat, lo as nat);
    }
    lo
}

} // verus!
