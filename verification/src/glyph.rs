//! Rasterized glyphs: the packer's input.
//!
//! A rasterizer (a native font library, driven outside this crate) hands
//! over one `RasterizedGlyph` per codepoint the font declares: a grayscale
//! bitmap in row-major order plus the raw metrics FreeType-style rasterizers
//! report, with bearings in whole pixels and the horizontal advance in 1/64
//! pixel.  Codepoints whose glyphs fail to render are simply absent.

use vstd::prelude::*;

verus! {

/// One rasterized glyph: bitmap plus raw metrics.
pub struct RasterizedGlyph {
    /// The character this glyph renders.
    pub codepoint: char,
    /// Bitmap width in pixels.
    pub width: u32,
    /// Bitmap height in pixels.
    pub rows: u32,
    /// Row-major 8-bit coverage, `width * rows` bytes.
    pub bitmap: Vec<u8>,
    /// Horizontal distance from the pen position to the bitmap's left edge,
    /// in pixels.
    pub bearing_left: i32,
    /// Height of the bitmap's top edge above the baseline, in pixels.
    pub bearing_top: i32,
    /// Horizontal advance of the pen after this glyph, in 1/64 pixel.
    pub advance_64: i64,
}

impl RasterizedGlyph {
    /// A well-formed glyph: the bitmap matches its stated dimensions and the
    /// metrics are small enough that every sum and product the packer and
    /// the layout engine form stays within its machine integer type.
    pub open spec fn wf(self) -> bool {
        &&& self.bitmap@.len() == self.width * self.rows
        &&& -0x1_0000 <= self.bearing_left <= 0x1_0000
        &&& -0x1_0000 <= self.bearing_top <= 0x1_0000
        &&& -0x4000_0000 <= self.advance_64 <= 0x4000_0000
    }
}

/// An upper bound on the texture rows a glyph sequence can consume: each
/// glyph opens at most `2 + rows` new rows of the atlas (its own height plus
/// the anti-bleed margin).
pub open spec fn rows_budget(glyphs: Seq<RasterizedGlyph>) -> int
    decreases glyphs.len(),
{
    if glyphs.len() == 0 {
        0
    } else {
        rows_budget(glyphs.drop_last()) + 2 + glyphs.last().rows
    }
}

/// `rows_budget` is a sum of non-negative terms.
pub proof fn lemma_rows_budget_nonneg(glyphs: Seq<RasterizedGlyph>)
    ensures
        rows_budget(glyphs) >= 0,
    decreases glyphs.len(),
{
    if glyphs.len() > 0 {
        lemma_rows_budget_nonneg(glyphs.drop_last());
    }
}

/// `rows_budget` never shrinks as glyphs are appended.
pub proof fn lemma_rows_budget_monotonic(glyphs: Seq<RasterizedGlyph>, n: int)
    requires
        0 <= n <= glyphs.len(),
    ensures
        rows_budget(glyphs.take(n)) <= rows_budget(glyphs),
    decreases glyphs.len() - n,
{
    if n < glyphs.len() {
        lemma_rows_budget_monotonic(glyphs, n + 1);
        assert(glyphs.take(n + 1).drop_last() =~= glyphs.take(n));
        assert(rows_budget(glyphs.take(n)) <= rows_budget(glyphs.take(n + 1)));
    } else {
        assert(glyphs.take(n) =~= glyphs);
    }
}

} // verus!
