//! Integer helpers: rounded-down division and integer square roots.
use vstd::prelude::*;

verus! {

/// Whether `r` is the square root of `x`, rounded down.
pub open spec fn is_sqrt(r: int, x: int) -> bool {
    0 <= r && r * r <= x < (r + 1) * (r + 1)
}

/// The square root of `x`, rounded down.
pub open spec fn sqrt_floor(x: nat) -> nat
    decreases x,
{
    if x == 0 {
        0
    } else {
        let below = sqrt_floor((x - 1) as nat);
        if (below + 1) * (below + 1) <= x {
            below + 1
        } else {
            below
        }
    }
}

/// `sqrt_floor` gives the largest number whose square is not above `x`.
pub proof fn lemma_sqrt_floor(x: nat)
    ensures
        is_sqrt(sqrt_floor(x) as int, x as int),
    decreases x,
{
    if x > 0 {
        lemma_sqrt_floor((x - 1) as nat);
        let below = sqrt_floor((x - 1) as nat) as int;
        assert((below + 2) * (below + 2) > (below + 1) * (below + 1) + 1) by (nonlinear_arith)
            requires
                below >= 0,
        ;
    }
}

/// A number has one rounded-down square root.
pub proof fn lemma_sqrt_unique(r: int, s: int, x: int)
    requires
        is_sqrt(r, x),
        is_sqrt(s, x),
    ensures
        r == s,
{
    assert(r == s) by (nonlinear_arith)
        requires
            0 <= r,
            0 <= s,
            r * r <= x < (r + 1) * (r + 1),
            s * s <= x < (s + 1) * (s + 1),
    ;
}

/// Division rounded towards minus infinity, for a positive divisor.
pub fn div_floor(a: i128, d: i128) -> (q: i128)
    requires
        d > 0,
        a > i128::MIN + d,
    ensures
        q == a / d,
{
    if a >= 0 {
        a / d
    } else {
        let n: i128 = -a;
        let up: i128 = (n + (d - 1)) / d;
        proof {
            let ai: int = a as int;
            let di: int = d as int;
            assert(ai / di == -((-ai + di - 1) / di)) by (nonlinear_arith)
                requires
                    di > 0,
                    ai < 0,
            ;
        }
        -up
    }
}

/// The square root of `x`, rounded down.
pub fn isqrt(x: u128) -> (r: u64)
    ensures
        r == sqrt_floor(x as nat),
        is_sqrt(r as int, x as int),
{
    proof {
        lemma_sqrt_floor(x as nat);
    }
    let mut lo: u128 = 0;
    let mut hi: u128 = 0x1_0000_0000_0000_0000;
    while hi - lo > 1
        invariant
            0 <= lo < hi <= 0x1_0000_0000_0000_0000,
            lo * lo <= x < hi * hi,
        decreases hi - lo,
    {
        let mid: u128 = lo + (hi - lo) / 2;
        assert(mid * mid <= 0xffff_ffff_ffff_ffff * 0xffff_ffff_ffff_ffff) by (nonlinear_arith)
            requires
                0 <= mid <= 0xffff_ffff_ffff_ffff,
        ;
        if mid * mid <= x {
            lo = mid;
        } else {
            hi = mid;
        }
    }
    proof {
        lemma_sqrt_unique(lo as int, sqrt_floor(x as nat) as int, x as int);
    }
    lo as u64
}

} // verus!
