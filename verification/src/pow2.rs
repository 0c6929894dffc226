//! Powers of two: the texture dimension arithmetic.
//!
//! Atlas textures must have power-of-two dimensions.  `get_nearest_po2`
//! rounds a positive size up to the least power of two that can hold it;
//! `next_pow2` is its mathematical counterpart, and the lemmas below state
//! the facts the rest of the crate (and its callers) rely on: the result is
//! a power of two, at least as large as the input, never as much as doubled,
//! idempotent and monotonic.

use vstd::prelude::*;

verus! {

/// Whether `n` is a power of two (1, 2, 4, 8, ...).
pub open spec fn is_pow2(n: int) -> bool
    decreases n,
{
    if n <= 0 {
        false
    } else if n == 1 {
        true
    } else {
        n % 2 == 0 && is_pow2(n / 2)
    }
}

/// The least power of two that is at least `x` (and at least 1).
pub open spec fn next_pow2(x: int) -> int
    decreases x,
{
    if x <= 1 {
        1
    } else {
        2 * next_pow2((x + 1) / 2)
    }
}

/// `next_pow2` always yields a power of two no smaller than its argument.
pub proof fn lemma_next_pow2_is_pow2(x: int)
    ensures
        is_pow2(next_pow2(x)),
        next_pow2(x) >= x,
        next_pow2(x) >= 1,
    decreases x,
{
    if x > 1 {
        lemma_next_pow2_is_pow2((x + 1) / 2);
    }
}

/// `next_pow2(x)` never reaches `2 * x`: halving it lands strictly below `x`.
pub proof fn lemma_next_pow2_minimal(x: int)
    requires
        x >= 1,
    ensures
        next_pow2(x) < 2 * x,
    decreases x,
{
    if x > 1 {
        let c = (x + 1) / 2;
        lemma_next_pow2_minimal(c);
        lemma_next_pow2_is_pow2(c);
        if x % 2 == 1 {
            // An odd x of at least 3 cannot itself be the (even) power of two
            // next_pow2(c), so next_pow2(c) <= x forces next_pow2(c) < x.
            lemma_pow2_even(next_pow2(c));
        }
    }
}

/// A power of two other than 1 is even.
proof fn lemma_pow2_even(p: int)
    requires
        is_pow2(p),
        p >= 2,
    ensures
        p % 2 == 0,
{
}

/// Of two distinct powers of two, the larger is at least double the smaller.
pub proof fn lemma_pow2_gap(p: int, q: int)
    requires
        is_pow2(p),
        is_pow2(q),
        p < q,
    ensures
        2 * p <= q,
    decreases p,
{
    if p > 1 {
        lemma_pow2_even(q);
        lemma_pow2_gap(p / 2, q / 2);
    } else {
        lemma_pow2_even(q);
    }
}

/// A power of two in `[x, 2 * x)` is exactly `next_pow2(x)`.
pub proof fn lemma_next_pow2_unique(x: int, p: int)
    requires
        x >= 1,
        is_pow2(p),
        p >= x,
        p < 2 * x,
    ensures
        p == next_pow2(x),
{
    lemma_next_pow2_is_pow2(x);
    lemma_next_pow2_minimal(x);
    if p < next_pow2(x) {
        lemma_pow2_gap(p, next_pow2(x));
    } else if next_pow2(x) < p {
        lemma_pow2_gap(next_pow2(x), p);
    }
}

/// A power of two rounds up to itself.
pub proof fn lemma_next_pow2_fixed(p: int)
    requires
        is_pow2(p),
    ensures
        next_pow2(p) == p,
{
    lemma_next_pow2_unique(p, p);
}

/// Rounding up to a power of two is idempotent.
pub proof fn lemma_next_pow2_idempotent(x: int)
    ensures
        next_pow2(next_pow2(x)) == next_pow2(x),
{
    lemma_next_pow2_is_pow2(x);
    lemma_next_pow2_fixed(next_pow2(x));
}

/// Rounding up to a power of two is monotonic.
pub proof fn lemma_next_pow2_monotonic(x: int, y: int)
    requires
        x <= y,
    ensures
        next_pow2(x) <= next_pow2(y),
    decreases y,
{
    if x > 1 {
        lemma_next_pow2_monotonic((x + 1) / 2, (y + 1) / 2);
    } else {
        lemma_next_pow2_is_pow2(y);
    }
}

/// A power of two whose bits fit a `u32` has no bit set below its top bit.
proof fn lemma_smeared_is_pow2(r: u32)
    requires
        r != 0,
        r & ((r - 1) as u32) == 0,
    ensures
        is_pow2(r as int),
    decreases r,
{
    if r != 1 {
        assert(r % 2 == 0 && (r >> 1) != 0 && ((r >> 1) & (((r >> 1) - 1) as u32)) == 0 && (r >> 1)
            == r / 2) by (bit_vector)
            requires
                r != 0,
                r != 1,
                r & ((r - 1) as u32) == 0,
        ;
        lemma_smeared_is_pow2(r >> 1);
    }
}

/// The least power of two that is at least `x`, by bit smearing: all bits
/// below the top set bit of `x - 1` are filled in, and one more is added.
pub fn get_nearest_po2(x: u32) -> (r: u32)
    requires
        1 <= x <= 0x8000_0000u32,
    ensures
        r == next_pow2(x as int),
{
    let v0: u32 = x - 1;
    let v1: u32 = v0 | (v0 >> 1);
    let v2: u32 = v1 | (v1 >> 2);
    let v3: u32 = v2 | (v2 >> 4);
    let v4: u32 = v3 | (v3 >> 8);
    let v5: u32 = v4 | (v4 >> 16);
    assert(v5 <= 0xFFFF_FFFEu32) by (bit_vector)
        requires
            1 <= x <= 0x8000_0000u32,
            v0 == x - 1,
            v1 == v0 | (v0 >> 1),
            v2 == v1 | (v1 >> 2),
            v3 == v2 | (v2 >> 4),
            v4 == v3 | (v3 >> 8),
            v5 == v4 | (v4 >> 16),
    ;
    let r: u32 = v5 + 1;
    assert(r & ((r - 1) as u32) == 0 && r >= x && r / 2 < x) by (bit_vector)
        requires
            1 <= x <= 0x8000_0000u32,
            v0 == x - 1,
            v1 == v0 | (v0 >> 1),
            v2 == v1 | (v1 >> 2),
            v3 == v2 | (v2 >> 4),
            v4 == v3 | (v3 >> 8),
            v5 == v4 | (v4 >> 16),
            r == v5 + 1,
    ;
    proof {
        lemma_smeared_is_pow2(r);
        lemma_next_pow2_unique(x as int, r as int);
    }
    r
}

} // verus!
