//! Floor square roots and floor fifth roots of integers, each pinned down by
//! the bracketing powers of the result.

use vstd::prelude::*;

verus! {

/// Floor of the square root, defined incrementally: stepping from `x - 1`
/// to `x` raises the root by one exactly when `x` reaches the next square.
pub open spec fn spec_isqrt(x: nat) -> nat
    decreases x,
{
    if x == 0 {
        0
    } else {
        let r = spec_isqrt((x - 1) as nat);
        if (r + 1) * (r + 1) <= x {
            r + 1
        } else {
            r
        }
    }
}

/// The floor square root is bracketed by consecutive squares.
pub proof fn lemma_isqrt_bounds(x: nat)
    ensures
        (spec_isqrt(x) as int) * (spec_isqrt(x) as int) <= x,
        x < (spec_isqrt(x) as int + 1) * (spec_isqrt(x) as int + 1),
    decreases x,
{
    let s = spec_isqrt(x) as int;
    if x > 0 {
        lemma_isqrt_bounds((x - 1) as nat);
        let r = spec_isqrt((x - 1) as nat) as int;
        if (r + 1) * (r + 1) <= x {
            assert(s == r + 1);
            assert(x == (r + 1) * (r + 1));
            assert((r + 1) * (r + 1) < (r + 2) * (r + 2)) by (nonlinear_arith)
                requires
                    r >= 0,
            ;
        } else {
            assert(s == r);
            assert(r * r <= x - 1);
        }
    } else {
        assert(s == 0);
    }
}

/// Any value bracketed by consecutive squares is the floor square root.
pub proof fn lemma_isqrt_is_root(x: nat, r: nat)
    requires
        (r as int) * (r as int) <= x,
        x < (r as int + 1) * (r as int + 1),
    ensures
        r == spec_isqrt(x),
{
    lemma_isqrt_bounds(x);
    let s = spec_isqrt(x);
    if r < s {
        assert((r + 1) * (r + 1) <= s * s) by (nonlinear_arith)
            requires
                0 <= r,
                r + 1 <= s,
        ;
    }
    if s < r {
        assert((s + 1) * (s + 1) <= r * r) by (nonlinear_arith)
            requires
                0 <= s,
                s + 1 <= r,
        ;
    }
}

/// The floor square root never falls as its argument grows.
pub proof fn lemma_isqrt_monotone(x1: nat, x2: nat)
    requires
        x1 <= x2,
    ensures
        spec_isqrt(x1) <= spec_isqrt(x2),
{
    lemma_isqrt_bounds(x1);
    lemma_isqrt_bounds(x2);
    let s1 = spec_isqrt(x1);
    let s2 = spec_isqrt(x2);
    if s2 < s1 {
        assert((s2 + 1) * (s2 + 1) <= s1 * s1) by (nonlinear_arith)
            requires
                0 <= s2,
                s2 + 1 <= s1,
        ;
    }
}

/// Floor square root by bisection.
pub fn isqrt(x: u64) -> (r: u64)
    ensures
        r == spec_isqrt(x as nat),
        r * r <= x,
        x < (r + 1) * (r + 1),
{
    let mut lo: u64 = 0;
    let mut hi: u64 = 4294967296;
    proof {
        assert((4294967296int) * (4294967296int) == 0x10000000000000000int) by (nonlinear_arith);
    }
    while lo + 1 < hi
        invariant
            lo < hi,
            hi <= 4294967296,
            lo * lo <= x,
            x < hi * hi,
        decreases hi - lo,
    {
        let mid: u64 = lo + (hi - lo) / 2;
        proof {
            assert(mid * mid < 0x10000000000000000int) by (nonlinear_arith)
                requires
                    0 <= mid,
                    mid < 4294967296,
            ;
        }
        if mid * mid <= x {
            lo = mid;
        } else {
            hi = mid;
        }
    }
    proof {
        lemma_isqrt_is_root(x as nat, lo as nat);
    }
    lo
}

/// The fifth power, written out.
pub open spec fn pow5(r: int) -> int {
    r * r * r * r * r
}

/// Fifth powers grow strictly on the non-negative integers.
pub proof fn lemma_pow5_strictly_monotone(a: int, b: int)
    requires
        0 <= a,
        a < b,
    ensures
        pow5(a) < pow5(b),
{
    let a2 = a * a;
    let b2 = b * b;
    assert(a2 < b2) by (nonlinear_arith)
        requires
            0 <= a,
            a < b,
            a2 == a * a,
            b2 == b * b,
    ;
    let a4 = a2 * a2;
    let b4 = b2 * b2;
    assert(a4 < b4) by (nonlinear_arith)
        requires
            0 <= a2,
            a2 < b2,
            a4 == a2 * a2,
            b4 == b2 * b2,
    ;
    assert(a4 * a < b4 * b) by (nonlinear_arith)
        requires
            0 <= a4,
            a4 < b4,
            0 <= a,
            a < b,
    ;
    assert(pow5(a) == a4 * a) by (nonlinear_arith)
        requires
            a2 == a * a,
            a4 == a2 * a2,
    ;
    assert(pow5(b) == b4 * b) by (nonlinear_arith)
        requires
            b2 == b * b,
            b4 == b2 * b2,
    ;
}

/// Fifth powers are monotone on the non-negative integers.
pub proof fn lemma_pow5_monotone(a: int, b: int)
    requires
        0 <= a,
        a <= b,
    ensures
        pow5(a) <= pow5(b),
{
    if a < b {
        lemma_pow5_strictly_monotone(a, b);
    }
}

/// Floor of the fifth root, defined incrementally like `spec_isqrt`.
pub open spec fn spec_root5(x: nat) -> nat
    decreases x,
{
    if x == 0 {
        0
    } else {
        let r = spec_root5((x - 1) as nat);
        if pow5(r as int + 1) <= x {
            r + 1
        } else {
            r
        }
    }
}

/// The floor fifth root is bracketed by consecutive fifth powers.
pub proof fn lemma_root5_bounds(x: nat)
    ensures
        pow5(spec_root5(x) as int) <= x,
        x < pow5(spec_root5(x) as int + 1),
    decreases x,
{
    let s = spec_root5(x) as int;
    if x > 0 {
        lemma_root5_bounds((x - 1) as nat);
        let r = spec_root5((x - 1) as nat) as int;
        if pow5(r + 1) <= x {
            assert(s == r + 1);
            assert(x == pow5(r + 1));
            lemma_pow5_strictly_monotone(r + 1, r + 2);
        } else {
            assert(s == r);
            assert(pow5(r) <= x - 1);
        }
    } else {
        assert(s == 0);
        assert(pow5(0) == 0) by (nonlinear_arith);
    }
}

/// Any value bracketed by consecutive fifth powers is the floor fifth root.
pub proof fn lemma_root5_is_root(x: nat, r: nat)
    requires
        pow5(r as int) <= x,
        x < pow5(r as int + 1),
    ensures
        r == spec_root5(x),
{
    lemma_root5_bounds(x);
    let s = spec_root5(x);
    if r < s {
        lemma_pow5_monotone(r as int + 1, s as int);
    }
    if s < r {
        lemma_pow5_monotone(s as int + 1, r as int);
    }
}

/// The floor fifth root never falls as its argument grows.
pub proof fn lemma_root5_monotone(x1: nat, x2: nat)
    requires
        x1 <= x2,
    ensures
        spec_root5(x1) <= spec_root5(x2),
{
    lemma_root5_bounds(x1);
    lemma_root5_bounds(x2);
    let s1 = spec_root5(x1);
    let s2 = spec_root5(x2);
    if s2 < s1 {
        lemma_pow5_monotone(s2 as int + 1, s1 as int);
    }
}

/// Floor fifth root by bisection, for arguments up to 10^30.
pub fn froot5(x: u128) -> (r: u64)
    requires
        x <= 1_000_000_000_000_000_000_000_000_000_000,
    ensures
        r == spec_root5(x as nat),
        pow5(r as int) <= x,
        x < pow5(r as int + 1),
        r <= 1_000_000,
{
    let mut lo: u64 = 0;
    let mut hi: u64 = 1_000_001;
    proof {
        lemma_pow5_strictly_monotone(1_000_000, 1_000_001);
        assert(pow5(1_000_000) == 1_000_000_000_000_000_000_000_000_000_000int) by (nonlinear_arith);
    }
    while lo + 1 < hi
        invariant
            lo < hi,
            hi <= 1_000_001,
            pow5(lo as int) <= x,
            x < pow5(hi as int),
        decreases hi - lo,
    {
        let mid: u64 = lo + (hi - lo) / 2;
        proof {
            assert(mid * mid <= 1_000_000_000_000int && mid * mid >= 0) by (nonlinear_arith)
                requires
                    0 <= mid,
                    mid <= 1_000_000,
            ;
            assert((mid * mid) * (mid * mid) <= 1_000_000_000_000_000_000_000_000int) by (nonlinear_arith)
                requires
                    0 <= mid * mid,
                    mid * mid <= 1_000_000_000_000int,
            ;
            assert(((mid * mid) * (mid * mid)) * mid <= 1_000_000_000_000_000_000_000_000_000_000int)
                by (nonlinear_arith)
                requires
                    0 <= (mid * mid) * (mid * mid),
                    (mid * mid) * (mid * mid) <= 1_000_000_000_000_000_000_000_000int,
                    0 <= mid,
                    mid <= 1_000_000,
            ;
        }
        let m2: u128 = (mid as u128) * (mid as u128);
        let m4: u128 = m2 * m2;
        let m5: u128 = m4 * (mid as u128);
        proof {
            assert(m5 == pow5(mid as int)) by (nonlinear_arith)
                requires
                    m5 == (((mid as int) * (mid as int)) * ((mid as int) * (mid as int))) * (
                    mid as int),
            ;
        }
        if m5 <= x {
            lo = mid;
        } else {
            hi = mid;
        }
    }
    proof {
        lemma_root5_is_root(x as nat, lo as nat);
        assert(pow5(1_000_001int) > 1_000_000_000_000_000_000_000_000_000_000int) by {
            lemma_pow5_strictly_monotone(1_000_000, 1_000_001);
            assert(pow5(1_000_000) == 1_000_000_000_000_000_000_000_000_000_000int)
                by (nonlinear_arith);
        }
        if lo > 1_000_000 {
            lemma_pow5_monotone(1_000_001, lo as int);
        }
    }
    lo
}

} // verus!
