//! Integer square roots: the floor root as a spec function and by bisection.
use vstd::prelude::*;

verus! {

/// The floor of the square root of `n`.
pub open spec fn isqrt(n: nat) -> nat
    decreases n,
{
    if n == 0 {
        0
    } else {
        let r = isqrt((n - 1) as nat);
        if (r + 1) * (r + 1) <= n {
            r + 1
        } else {
            r
        }
    }
}

/// `r` is the floor of the square root of `n`.
pub open spec fn is_floor_root(n: int, r: int) -> bool {
    0 <= r && r * r <= n && n < (r + 1) * (r + 1)
}

pub proof fn lemma_isqrt_is_floor_root(n: nat)
    ensures
        is_floor_root(n as int, isqrt(n) as int),
    decreases n,
{
    if n > 0 {
        lemma_isqrt_is_floor_root((n - 1) as nat);
        let r = isqrt((n - 1) as nat);
        assert((r + 1) * (r + 1) == r * r + 2 * r + 1) by (nonlinear_arith);
        assert((r + 2) * (r + 2) == (r + 1) * (r + 1) + 2 * r + 3) by (nonlinear_arith);
    }
}

pub proof fn lemma_floor_root_unique(n: int, r: int, s: int)
    requires
        is_floor_root(n, r),
        is_floor_root(n, s),
    ensures
        r == s,
{
    if r < s {
        assert((r + 1) * (r + 1) <= s * s) by (nonlinear_arith)
            requires
                0 <= r < s,
        ;
    }
    if s < r {
        assert((s + 1) * (s + 1) <= r * r) by (nonlinear_arith)
            requires
                0 <= s < r,
        ;
    }
}

/// The floor root of `n` is the unique `r` with `r * r <= n < (r + 1) * (r + 1)`.
pub proof fn lemma_isqrt_unique(n: nat, r: int)
    requires
        is_floor_root(n as int, r),
    ensures
        isqrt(n) == r,
{
    lemma_isqrt_is_floor_root(n);
    lemma_floor_root_unique(n as int, r, isqrt(n) as int);
}

/// The floor root of `n` is at most `m` whenever `n <= m * m`.
pub proof fn lemma_isqrt_le(n: nat, m: nat)
    requires
        n <= m * m,
    ensures
        isqrt(n) <= m,
{
    lemma_isqrt_is_floor_root(n);
    let r = isqrt(n);
    if r > m {
        assert(m * m < r * r) by (nonlinear_arith)
            requires
                0 <= m < r,
        ;
    }
}

/// Largest radicand accepted by `floor_sqrt`.
pub const SQRT_INPUT_MAX: u128 = 0x0100_0000_0000_0000_0000_0000_0000_0000;

/// The floor of the square root of `n`, by bisection.
pub fn floor_sqrt(n: u128) -> (r: u64)
    requires
        n <= SQRT_INPUT_MAX,
    ensures
        r == isqrt(n as nat),
        r as int * r as int <= n,
        r <= 0x1000_0000_0000_0000,
{
    let mut lo: u128 = 0;
    let mut hi: u128 = 0x1000_0000_0000_0001;
    assert(hi * hi > SQRT_INPUT_MAX) by (nonlinear_arith)
        requires
            hi == 0x1000_0000_0000_0001u128,
    ;
    while hi - lo > 1
        invariant
            lo < hi <= 0x1000_0000_0000_0001,
            lo * lo <= n,
            n < hi * hi,
        decreases hi - lo,
    {
        let mid: u128 = lo + (hi - lo) / 2;
        assert(mid * mid <= 0x1000_0000_0000_0000 * 0x1000_0000_0000_0000) by (nonlinear_arith)
            requires
                mid <= 0x1000_0000_0000_0000,
        ;
        if mid * mid <= n {
            lo = mid;
        } else {
            hi = mid;
        }
    }
    proof {
        lemma_isqrt_unique(n as nat, lo as int);
    }
    lo as u64
}

} // verus!
