//! Ceiling integer square root, used by the texture width heuristic.
//!
//! The packer aims for a roughly square atlas: its width is the next power
//! of two at least `sqrt(glyph_count * pixel_size^2)`.  Rounding the root
//! up keeps the chosen power of two at least the real-valued square root.

use vstd::prelude::*;

verus! {

/// `r` is the least non-negative integer whose square reaches `m`.
pub open spec fn is_ceil_sqrt(m: int, r: int) -> bool {
    &&& r >= 0
    &&& r * r >= m
    &&& (r == 0 || (r - 1) * (r - 1) < m)
}

/// The least non-negative integer whose square reaches `m`.
pub open spec fn ceil_sqrt(m: int) -> int {
    choose|r: int| is_ceil_sqrt(m, r)
}

/// Some integer satisfies `is_ceil_sqrt`, so `ceil_sqrt` denotes one.
pub proof fn lemma_ceil_sqrt_exists(m: int)
    ensures
        is_ceil_sqrt(m, ceil_sqrt(m)),
    decreases m,
{
    if m <= 0 {
        assert(is_ceil_sqrt(m, 0));
    } else {
        lemma_ceil_sqrt_exists(m - 1);
        let r = ceil_sqrt(m - 1);
        if r * r >= m {
            assert(is_ceil_sqrt(m, r));
        } else {
            assert((r + 1 - 1) * (r + 1 - 1) == r * r);
            assert((r + 1) * (r + 1) >= r * r + 1) by (nonlinear_arith)
                requires
                    r >= 0,
            ;
            assert(is_ceil_sqrt(m, r + 1));
        }
    }
}

/// Only one integer satisfies `is_ceil_sqrt` for a given `m`.
pub proof fn lemma_ceil_sqrt_unique(m: int, r1: int, r2: int)
    requires
        is_ceil_sqrt(m, r1),
        is_ceil_sqrt(m, r2),
    ensures
        r1 == r2,
{
    if r1 < r2 {
        assert(r1 * r1 <= (r2 - 1) * (r2 - 1)) by (nonlinear_arith)
            requires
                0 <= r1 <= r2 - 1,
        ;
    }
    if r2 < r1 {
        assert(r2 * r2 <= (r1 - 1) * (r1 - 1)) by (nonlinear_arith)
            requires
                0 <= r2 <= r1 - 1,
        ;
    }
}

/// Ceiling square root by binary search.
pub fn ceil_isqrt(m: u64) -> (r: u32)
    requires
        m <= 0x4000_0000_0000_0000u64,
    ensures
        r == ceil_sqrt(m as int),
        r * r >= m,
{
    let mut lo: u64 = 0;
    let mut hi: u64 = 0x8000_0000;
    proof {
        assert(0x8000_0000u64 * 0x8000_0000u64 >= m);
    }
    while lo < hi
        invariant
            lo <= hi <= 0x8000_0000u64,
            hi * hi >= m,
            lo == 0 || (lo - 1) * (lo - 1) < m,
        decreases hi - lo,
    {
        let mid: u64 = lo + (hi - lo) / 2;
        proof {
            assert(mid * mid <= 0x8000_0000u64 * 0x8000_0000u64) by (nonlinear_arith)
                requires
                    0 <= mid <= 0x8000_0000u64,
            ;
        }
        if mid * mid >= m {
            hi = mid;
        } else {
            lo = mid + 1;
        }
    }
    proof {
        assert(is_ceil_sqrt(m as int, lo as int));
        lemma_ceil_sqrt_exists(m as int);
        lemma_ceil_sqrt_unique(m as int, lo as int, ceil_sqrt(m as int));
    }
    lo as u32
}

} // verus!
