//! Exact integer arithmetic used throughout the fixed-point geometry model:
//! the floor of a square root, and division that truncates toward zero
//! (the rounding that the executable code performs on signed operands).
use vstd::prelude::*;

verus! {

/// Floor of the square root of a nonnegative integer (0 for negative input).
pub open spec fn sqrt_floor(n: int) -> int
    decreases n,
{
    if n <= 0 {
        0
    } else {
        let p = sqrt_floor(n - 1);
        if (p + 1) * (p + 1) <= n {
            p + 1
        } else {
            p
        }
    }
}

/// `sqrt_floor(n)` is the unique `r >= 0` with `r * r <= n < (r + 1) * (r + 1)`.
pub proof fn lemma_sqrt_floor(n: int)
    requires
        n >= 0,
    ensures
        sqrt_floor(n) >= 0,
        sqrt_floor(n) * sqrt_floor(n) <= n,
        n < (sqrt_floor(n) + 1) * (sqrt_floor(n) + 1),
    decreases n,
{
    if n == 0 {
    } else {
        lemma_sqrt_floor(n - 1);
        let p = sqrt_floor(n - 1);
        if (p + 1) * (p + 1) <= n {
            assert(n < (p + 2) * (p + 2)) by (nonlinear_arith)
                requires
                    p >= 0,
                    n - 1 < (p + 1) * (p + 1),
            ;
        }
    }
}

/// Any `r` in the square-root sandwich equals `sqrt_floor(n)`.
pub proof fn lemma_sqrt_floor_unique(n: int, r: int)
    requires
        n >= 0,
        r >= 0,
        r * r <= n,
        n < (r + 1) * (r + 1),
    ensures
        r == sqrt_floor(n),
{
    lemma_sqrt_floor(n);
    let s = sqrt_floor(n);
    assert(r == s) by (nonlinear_arith)
        requires
            r >= 0,
            s >= 0,
            r * r <= n,
            s * s <= n,
            n < (r + 1) * (r + 1),
            n < (s + 1) * (s + 1),
    ;
}

/// Executable floor square root by binary search.
pub fn isqrt(n: i128) -> (r: i128)
    requires
        0 <= n <= i128::MAX / 2,
    ensures
        r == sqrt_floor(n as int),
        r >= 0,
{
    let mut lo: i128 = 0;
    let mut hi: i128 = 9223372036854775808i128;
    proof {
        assert(hi * hi > n);
    }
    while lo + 1 < hi
        invariant
            0 <= lo < hi <= 9223372036854775808i128,
            lo * lo <= n,
            n < hi * hi,
            n <= i128::MAX / 2,
        decreases hi - lo,
    {
        let mid = lo + (hi - lo) / 2;
        proof {
            assert(mid * mid <= 9223372036854775808i128 * 9223372036854775808i128)
                by (nonlinear_arith)
                requires
                    0 <= mid <= 9223372036854775808i128,
            ;
        }
        if mid * mid <= n {
            lo = mid;
        } else {
            hi = mid;
        }
    }
    proof {
        lemma_sqrt_floor_unique(n as int, lo as int);
    }
    lo
}

/// Division truncating toward zero, for a positive divisor.  This is the
/// rounding applied by the machine division below.
pub open spec fn tdiv(a: int, b: int) -> int {
    if a >= 0 {
        a / b
    } else {
        -((-a) / b)
    }
}

/// The truncated quotient never exceeds the exact one in magnitude.
pub proof fn lemma_tdiv_bound(a: int, b: int, m: int)
    requires
        b > 0,
        -m <= a <= m,
        m >= 0,
    ensures
        -m <= tdiv(a, b) * b,
        tdiv(a, b) * b <= m,
        -m <= tdiv(a, b) <= m,
{
    if a >= 0 {
        assert(0 <= (a / b) * b <= a) by (nonlinear_arith)
            requires
                b > 0,
                a >= 0,
        ;
        assert(0 <= a / b <= a) by (nonlinear_arith)
            requires
                b > 0,
                a >= 0,
        ;
        assert(tdiv(a, b) == a / b);
    } else {
        let q = (-a) / b;
        assert(0 <= q * b <= -a && 0 <= q <= -a) by (nonlinear_arith)
            requires
                b > 0,
                a < 0,
                q == (-a) / b,
        ;
        assert(tdiv(a, b) == -q);
        assert((-q) * b == -(q * b)) by (nonlinear_arith);
        assert(-m <= tdiv(a, b) * b <= m);
        assert(-m <= tdiv(a, b) <= m);
    }
}

/// Executable division truncating toward zero.
pub fn div_trunc(a: i128, b: i128) -> (q: i128)
    requires
        b > 0,
        a > i128::MIN,
    ensures
        q == tdiv(a as int, b as int),
{
    if a >= 0 {
        a / b
    } else {
        proof {
            assert(0 <= ((-a) as int) / (b as int) <= (-a) as int) by (nonlinear_arith)
                requires
                    b > 0,
                    a < 0,
            ;
        }
        -((-a) / b)
    }
}

/// The smaller of two values.
pub fn min64(a: i64, b: i64) -> (r: i64)
    ensures
        r == if a <= b { a } else { b },
{
    if a <= b {
        a
    } else {
        b
    }
}

/// The larger of two values.
pub fn max64(a: i64, b: i64) -> (r: i64)
    ensures
        r == if a >= b { a } else { b },
{
    if a >= b {
        a
    } else {
        b
    }
}


/// A quotient bound from a product bound: if `|a| <= k * b` then the
/// truncated quotient lies within `[-k, k]`.
pub proof fn lemma_tdiv_ratio(a: int, b: int, k: int)
    requires
        b > 0,
        k >= 0,
        -(k * b) <= a <= k * b,
    ensures
        -k <= tdiv(a, b) <= k,
{
    if a >= 0 {
        assert(a / b <= k) by (nonlinear_arith)
            requires
                b > 0,
                k >= 0,
                a <= k * b,
                a >= 0,
        ;
        assert(a / b >= 0) by (nonlinear_arith)
            requires
                b > 0,
                a >= 0,
        ;
    } else {
        assert((-a) / b <= k) by (nonlinear_arith)
            requires
                b > 0,
                k >= 0,
                -a <= k * b,
                a < 0,
        ;
        assert((-a) / b >= 0) by (nonlinear_arith)
            requires
                b > 0,
                a < 0,
        ;
    }
}

} // verus!
