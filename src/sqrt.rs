use vstd::prelude::*;

verus! {

/// The integer square root of `n`, rounded down: the largest `r` with `r * r <= n`.
pub open spec fn isqrt(n: nat) -> nat
    decreases n,
{
    if n == 0 {
        0
    } else {
        let r = isqrt((n - 1) as nat);
        if (r + 1) * (r + 1) <= n {
            r + 1
        } else {
            r
        }
    }
}

/// `isqrt(n)` is the floor of the square root of `n`.
pub proof fn lemma_isqrt_bounds(n: nat)
    ensures
        isqrt(n) * isqrt(n) <= n < (isqrt(n) + 1) * (isqrt(n) + 1),
    decreases n,
{
    if n == 0 {
        assert(isqrt(n) == 0);
        let s = isqrt(n);
        assert((s + 1) * (s + 1) == 1) by (nonlinear_arith)
            requires
                s == 0,
        ;
    } else {
        lemma_isqrt_bounds((n - 1) as nat);
        let r = isqrt((n - 1) as nat);
        if (r + 1) * (r + 1) > n {
            assert(isqrt(n) == r);
        } else {
            assert(isqrt(n) == r + 1);
            assert((r + 1) * (r + 1) == n);
            let s = isqrt(n);
            assert(n < (s + 1) * (s + 1)) by (nonlinear_arith)
                requires
                    s * s == n,
                    s >= 1,
            ;
        }
    }
}

/// Only `isqrt(n)` lies between the squares that bound it.
pub proof fn lemma_isqrt_unique(n: nat, r: nat)
    requires
        r * r <= n < (r + 1) * (r + 1),
    ensures
        isqrt(n) == r,
{
    lemma_isqrt_bounds(n);
    let s = isqrt(n);
    if s < r {
        assert((s + 1) * (s + 1) <= r * r) by (nonlinear_arith)
            requires
                s + 1 <= r,
                s >= 0,
        ;
    } else if s > r {
        assert((r + 1) * (r + 1) <= s * s) by (nonlinear_arith)
            requires
                r + 1 <= s,
                r >= 0,
        ;
    }
}

/// `isqrt(n)` stays at or below any `b` with `n <= b * b`.
pub proof fn lemma_isqrt_le(n: nat, b: nat)
    requires
        n <= b * b,
    ensures
        isqrt(n) <= b,
{
    lemma_isqrt_bounds(n);
    let s = isqrt(n);
    if s > b {
        assert(b * b < s * s) by (nonlinear_arith)
            requires
                b < s,
        ;
    }
}

/// `isqrt(n)` reaches `k` exactly when `n` reaches `k * k`.
pub proof fn lemma_isqrt_ge_iff(n: nat, k: nat)
    ensures
        isqrt(n) >= k <==> n >= k * k,
{
    lemma_isqrt_bounds(n);
    let s = isqrt(n);
    if s >= k {
        assert(k * k <= s * s) by (nonlinear_arith)
            requires
                k <= s,
        ;
    } else {
        assert((s + 1) * (s + 1) <= k * k) by (nonlinear_arith)
            requires
                s + 1 <= k,
        ;
    }
}

/// Computes `isqrt(n)` by bisection.
pub fn isqrt_u128(n: u128) -> (r: u64)
    ensures
        r == isqrt(n as nat),
{
    let mut lo: u128 = 0;
    let mut hi: u128 = 0x1_0000_0000_0000_0000;
    assert(n < hi * hi);
    while hi - lo > 1
        invariant
            lo < hi <= 0x1_0000_0000_0000_0000,
            lo * lo <= n,
            n < hi * hi,
        decreases hi - lo,
    {
        let mid: u128 = lo + (hi - lo) / 2;
        assert(mid * mid < 0x1_0000_0000_0000_0000 * 0x1_0000_0000_0000_0000) by (nonlinear_arith)
            requires
                mid < 0x1_0000_0000_0000_0000,
        ;
        if mid * mid <= n {
            lo = mid;
        } else {
            hi = mid;
        }
    }
    proof {
        lemma_isqrt_unique(n as nat, lo as nat);
    }
    lo as u64
}

} // verus!
