//! Integer square root, used for Euclidean distances in fixed-point units.

use vstd::prelude::*;

verus! {

/// The floor of the square root of `n`, for `n >= 0`.
pub open spec fn sqrt_floor(n: int) -> int {
    choose|r: int| is_sqrt_floor(n, r)
}

/// `r` is the floor of the square root of `n`.
pub open spec fn is_sqrt_floor(n: int, r: int) -> bool {
    0 <= r && r * r <= n && n < (r + 1) * (r + 1)
}

/// Any two floor square roots of the same number are equal, so `sqrt_floor`
/// picks the one root.
pub proof fn lemma_sqrt_floor_unique(n: int, r: int)
    requires
        is_sqrt_floor(n, r),
    ensures
        sqrt_floor(n) == r,
{
    assert(is_sqrt_floor(n, sqrt_floor(n)));
    let s = sqrt_floor(n);
    assert(s == r) by (nonlinear_arith)
        requires
            is_sqrt_floor(n, r),
            is_sqrt_floor(n, s),
    ;
}

/// Every non-negative number has a floor square root, so `sqrt_floor`
/// denotes one.
pub proof fn lemma_sqrt_floor_exists(n: int)
    requires
        n >= 0,
    ensures
        is_sqrt_floor(n, sqrt_floor(n)),
        sqrt_floor(n) >= 0,
        sqrt_floor(n) * sqrt_floor(n) <= n,
        n < (sqrt_floor(n) + 1) * (sqrt_floor(n) + 1),
    decreases n,
{
    if n == 0 {
        lemma_sqrt_floor_unique(0, 0);
    } else {
        lemma_sqrt_floor_exists(n - 1);
        let r = sqrt_floor(n - 1);
        if (r + 1) * (r + 1) <= n {
            assert(is_sqrt_floor(n, r + 1)) by (nonlinear_arith)
                requires
                    (r + 1) * (r + 1) <= n,
                    n - 1 < (r + 1) * (r + 1),
                    r >= 0,
            ;
            lemma_sqrt_floor_unique(n, r + 1);
        } else {
            lemma_sqrt_floor_unique(n, r);
        }
    }
}

/// Largest `n` accepted by `isqrt`; its root fits comfortably below the
/// binary-search ceiling of 3_000_000_000.
pub const ISQRT_MAX: u64 = 8_400_000_000_000_000_000;

/// Binary search for the floor of the square root.
pub fn isqrt(n: u64) -> (r: u64)
    requires
        n <= ISQRT_MAX,
    ensures
        r as int == sqrt_floor(n as int),
        r * r <= n < (r + 1) * (r + 1),
        r <= 3_000_000_000,
{
    let mut lo: u64 = 0;
    let mut hi: u64 = 3_000_000_000;
    assert((n as int) < (3_000_000_001int) * 3_000_000_001int) by (nonlinear_arith)
        requires
            n <= 8_400_000_000_000_000_000u64,
    ;
    while lo < hi
        invariant
            lo <= hi <= 3_000_000_000,
            (lo as int) * (lo as int) <= n as int,
            (n as int) < (hi as int + 1) * (hi as int + 1),
        decreases hi - lo,
    {
        let mid: u64 = lo + (hi - lo + 1) / 2;
        assert((mid as int) * (mid as int) <= 9_000_000_000_000_000_000int) by (nonlinear_arith)
            requires
                mid <= 3_000_000_000u64,
        ;
        if mid * mid <= n {
            lo = mid;
        } else {
            hi = mid - 1;
        }
    }
    proof {
        lemma_sqrt_floor_unique(n as int, lo as int);
    }
    lo
}

} // verus!
