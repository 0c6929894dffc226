//! The font atlas: packed texture plus per-codepoint metrics.
//!
//! Construction runs the packer over the rasterized glyphs and records, for
//! every codepoint, where its bitmap sits in the texture and how it is
//! placed relative to the pen: the left bearing, the advance remainder to
//! the right, and the height of the bitmap top above the baseline, all in
//! 1/64 pixel.  `em_pixels` — the rasterized height of the capital 'M', or
//! the requested pixel size if the font has no 'M' — is the denominator
//! that turns those into em-relative quantities; texture coordinates become
//! texture-relative by dividing by the atlas width and height.  Both
//! divisions are left to the renderer, so the atlas itself is exact.
//!
//! The whole atlas is a function of the glyph sequence and the pixel size
//! (`build_model`); building twice from the same input gives the same
//! atlas, which `lemma_build_deterministic` states.

use vstd::prelude::*;

use crate::glyph::{rows_budget, RasterizedGlyph};
use crate::packer::{
    lemma_packed_rects_disjoint, pack, pack_model, pack_ok, PackError, Rect,
};
use crate::pow2::is_pow2;

verus! {

/// Placement and metrics of one codepoint in a finished atlas.
///
/// `tex_*` are pixels; dividing by the atlas width and height gives
/// texture-relative coordinates in `[0, 1]`.  The remaining fields are
/// 1/64 pixel; dividing by `64 * em_pixels` gives em-relative quantities.
#[derive(Clone, Copy, Debug, PartialEq, Eq, Structural)]
pub struct CharacterInfo {
    /// Left edge of the glyph's footprint in the texture, in pixels.
    pub tex_x: u32,
    /// Top edge of the glyph's footprint in the texture, in pixels.
    pub tex_y: u32,
    /// Footprint width: the glyph bitmap's width, in pixels.
    pub tex_w: u32,
    /// Footprint height: the glyph bitmap's height, in pixels.
    pub tex_h: u32,
    /// Space between the pen position and the bitmap's left edge, in 1/64
    /// pixel.
    pub left_pad_64: i64,
    /// Advance remaining to the right of the bitmap, in 1/64 pixel.
    pub right_pad_64: i64,
    /// Height of the bitmap's top edge above the baseline, in 1/64 pixel.
    pub baseline_64: i64,
}

/// The full advance of a codepoint: left bearing, bitmap width and right
/// remainder, in 1/64 pixel.  Equal to the rasterizer's advance.
pub open spec fn advance_64_of(info: CharacterInfo) -> int {
    info.left_pad_64 + 64 * info.tex_w + info.right_pad_64
}

/// The `CharacterInfo` recorded for glyph `g` placed at rectangle `r`.
pub open spec fn info_of(g: RasterizedGlyph, r: Rect) -> CharacterInfo {
    CharacterInfo {
        tex_x: r.x as u32,
        tex_y: r.y as u32,
        tex_w: r.w as u32,
        tex_h: r.h as u32,
        left_pad_64: (64 * g.bearing_left) as i64,
        right_pad_64: (g.advance_64 - 64 * g.width - 64 * g.bearing_left) as i64,
        baseline_64: (64 * g.bearing_top) as i64,
    }
}

/// The per-codepoint table for `glyphs` placed at `rects`, in input order.
pub open spec fn infos_of(glyphs: Seq<RasterizedGlyph>, rects: Seq<Rect>) -> Seq<
    (char, CharacterInfo),
> {
    Seq::new(glyphs.len(), |i: int| (glyphs[i].codepoint, info_of(glyphs[i], rects[i])))
}

/// The em size: the rasterized height of 'M' if the font has one (the last
/// occurrence, were there several), else the requested pixel size.
pub open spec fn em_of(glyphs: Seq<RasterizedGlyph>, font_size: int) -> int
    decreases glyphs.len(),
{
    if glyphs.len() == 0 {
        font_size
    } else if glyphs.last().codepoint == 'M' {
        glyphs.last().rows as int
    } else {
        em_of(glyphs.drop_last(), font_size)
    }
}

/// A finished atlas, as a function of the glyphs and the pixel size alone.
pub ghost struct AtlasModel {
    pub chars: Seq<(char, CharacterInfo)>,
    pub buf: Seq<u8>,
    pub width: int,
    pub height: int,
    pub em: int,
}

/// The atlas built from `glyphs` at pixel size `s`.  Meaningful only when
/// `pack_ok(glyphs, s)`.
pub open spec fn build_model(glyphs: Seq<RasterizedGlyph>, s: int) -> AtlasModel {
    let pm = pack_model(glyphs, s);
    AtlasModel {
        chars: infos_of(glyphs, pm.rects),
        buf: pm.buf,
        width: pm.width,
        height: pm.height,
        em: em_of(glyphs, s),
    }
}

/// Building an atlas is deterministic: equal font data (as rasterized
/// glyphs) and equal pixel size give equal metric tables, buffers and
/// dimensions.
pub proof fn lemma_build_deterministic(
    glyphs1: Seq<RasterizedGlyph>,
    s1: int,
    glyphs2: Seq<RasterizedGlyph>,
    s2: int,
)
    requires
        glyphs1 == glyphs2,
        s1 == s2,
    ensures
        build_model(glyphs1, s1) == build_model(glyphs2, s2),
{
}

/// A font atlas: one grayscale power-of-two texture holding every glyph,
/// and the table of per-codepoint metrics.  Immutable once built.
pub struct FontAtlas {
    /// Row-major 8-bit coverage, `width * height` bytes.
    pub buffer: Vec<u8>,
    /// Texture width in pixels; a power of two.
    pub width: u32,
    /// Texture height in pixels; a power of two.
    pub height: u32,
    /// The pixel height all em-relative metrics are divided by.
    pub em_pixels: u32,
    /// One entry per codepoint the font rasterized, in rasterization order;
    /// codepoints are distinct.
    pub chars: Vec<(char, CharacterInfo)>,
}

impl View for FontAtlas {
    type V = AtlasModel;

    open spec fn view(&self) -> AtlasModel {
        AtlasModel {
            chars: self.chars@,
            buf: self.buffer@,
            width: self.width as int,
            height: self.height as int,
            em: self.em_pixels as int,
        }
    }
}

impl FontAtlas {
    /// A well-formed atlas: power-of-two texture of the stated size, every
    /// footprint inside it, distinct codepoints, and metrics small enough
    /// that laying out any text of permitted length stays within `i64`.
    pub open spec fn wf(self) -> bool {
        &&& self.buffer@.len() == self.width * self.height
        &&& is_pow2(self.width as int)
        &&& is_pow2(self.height as int)
        &&& 2 <= self.width < 0x800_0000
        &&& self.height <= 0x8000_0000u32
        &&& forall|i: int|
            0 <= i < self.chars@.len() ==> wf_entry(#[trigger] self.chars@[i].1, self.width as int, self.height as int)
        &&& forall|i: int, j: int|
            0 <= i < j < self.chars@.len() ==> self.chars@[i].0 != self.chars@[j].0
    }

    /// The height all em-relative metrics refer to.
    pub fn em_pixels(&self) -> (r: u32)
        ensures
            r == self.em_pixels,
    {
        self.em_pixels
    }

    /// The metrics of codepoint `c`, or `None` if the font has no glyph for
    /// it.
    pub fn lookup(&self, c: char) -> (r: Option<&CharacterInfo>)
        ensures
            match r {
                Some(info) => spec_lookup(self.chars@, c) == Some(*info),
                None => spec_lookup(self.chars@, c) is None,
            },
    {
        let mut i: usize = 0;
        proof {
            assert(self.chars@.skip(0) =~= self.chars@);
        }
        while i < self.chars.len()
            invariant
                i <= self.chars@.len(),
                spec_lookup(self.chars@, c) == spec_lookup(self.chars@.skip(i as int), c),
            decreases self.chars@.len() - i,
        {
            proof {
                assert(self.chars@.skip(i as int).drop_first() =~= self.chars@.skip(i as int + 1));
                assert(self.chars@.skip(i as int).first() == self.chars@[i as int]);
            }
            if self.chars[i].0 == c {
                return Some(&self.chars[i].1);
            }
            i = i + 1;
        }
        None
    }

    /// Build the atlas: pack the glyphs, then record each codepoint's
    /// placement and metrics.  Returns exactly `build_model`, or
    /// `PackingOverflow` when packing fails.
    #[verifier::loop_isolation(false)]
    pub fn build(glyphs: &Vec<RasterizedGlyph>, font_size: u32) -> (result: Result<
        FontAtlas,
        PackError,
    >)
        requires
            1 <= glyphs@.len() <= 0x10_0000,
            1 <= font_size <= 0xFFFF,
            forall|i: int| 0 <= i < glyphs@.len() ==> (#[trigger] glyphs@[i]).wf(),
            rows_budget(glyphs@) <= 0x4000_0000,
            forall|i: int, j: int|
                0 <= i < j < glyphs@.len() ==> glyphs@[i].codepoint != glyphs@[j].codepoint,
        ensures
            match result {
                Ok(atlas) => {
                    &&& pack_ok(glyphs@, font_size as int)
                    &&& atlas@ == build_model(glyphs@, font_size as int)
                    &&& atlas.wf()
                },
                Err(e) => !pack_ok(glyphs@, font_size as int) && e == PackError::PackingOverflow,
            },
    {
        let packed = match pack(glyphs, font_size) {
            Ok(p) => p,
            Err(e) => {
                return Err(e);
            },
        };
        proof {
            lemma_packed_rects_disjoint(glyphs@, font_size as int);
        }
        let ghost pm = pack_model(glyphs@, font_size as int);
        proof {
            assert(packed.rects@.map_values(|p: crate::packer::PackedRect| p@) == pm.rects);
            assert(packed.rects@.len() == pm.rects.len());
        }
        let mut chars: Vec<(char, CharacterInfo)> = Vec::new();
        let mut em: u32 = font_size;
        let mut i: usize = 0;
        proof {
            assert(glyphs@.take(0) =~= Seq::<RasterizedGlyph>::empty());
        }
        while i < glyphs.len()
            invariant
                i <= glyphs@.len(),
                chars@.len() == i,
                forall|k: int| 0 <= k < i ==> chars@[k] == infos_of(glyphs@, pm.rects)[k],
                em == em_of(glyphs@.take(i as int), font_size as int),
            decreases glyphs@.len() - i,
        {
            proof {
                assert(glyphs@.take(i as int + 1).drop_last() =~= glyphs@.take(i as int));
                assert(glyphs@.take(i as int + 1).last() == glyphs@[i as int]);
            }
            let g = &glyphs[i];
            let r = packed.rects[i];
            proof {
                assert(glyphs@[i as int].wf());
                assert(packed.rects@.map_values(|p: crate::packer::PackedRect| p@)[i as int]
                    == pm.rects[i as int]);
            }
            let left: i64 = 64 * (g.bearing_left as i64);
            let right: i64 = g.advance_64 - 64 * (g.width as i64) - left;
            let base: i64 = 64 * (g.bearing_top as i64);
            chars.push(
                (
                    g.codepoint,
                    CharacterInfo {
                        tex_x: r.x,
                        tex_y: r.y,
                        tex_w: r.w,
                        tex_h: r.h,
                        left_pad_64: left,
                        right_pad_64: right,
                        baseline_64: base,
                    },
                ),
            );
            if g.codepoint == 'M' {
                em = g.rows;
            }
            i = i + 1;
        }
        proof {
            assert(glyphs@.take(glyphs@.len() as int) =~= glyphs@);
            assert(chars@ =~= infos_of(glyphs@, pm.rects));
        }
        let atlas = FontAtlas {
            buffer: packed.buffer,
            width: packed.width,
            height: packed.height,
            em_pixels: em,
            chars,
        };
        proof {
            assert(atlas@ == build_model(glyphs@, font_size as int));
            assert forall|k: int| 0 <= k < atlas.chars@.len() implies wf_entry(
                #[trigger] atlas.chars@[k].1,
                atlas.width as int,
                atlas.height as int,
            ) by {
                assert(glyphs@[k].wf());
                assert(pm.rects[k].w == glyphs@[k].width);
            }
        }
        Ok(atlas)
    }
}

/// Metric bounds every atlas entry satisfies: the footprint lies inside
/// the texture, and the paddings, baseline and advance are small enough
/// that layout arithmetic over any permitted text stays within `i64`.
pub open spec fn wf_entry(info: CharacterInfo, width: int, height: int) -> bool {
    &&& info.tex_x + info.tex_w <= width
    &&& info.tex_y + info.tex_h <= height
    &&& -0x40_0000 <= info.left_pad_64 <= 0x40_0000
    &&& -0x100_0000_0000 <= info.right_pad_64 <= 0x100_0000_0000
    &&& -0x40_0000 <= info.baseline_64 <= 0x40_0000
    &&& -0x4000_0000 <= advance_64_of(info) <= 0x4000_0000
}

/// The first entry for codepoint `c`, scanning left to right.
pub open spec fn spec_lookup(chars: Seq<(char, CharacterInfo)>, c: char) -> Option<CharacterInfo>
    decreases chars.len(),
{
    if chars.len() == 0 {
        Option::None
    } else if chars.first().0 == c {
        Option::Some(chars.first().1)
    } else {
        spec_lookup(chars.drop_first(), c)
    }
}

/// A successful lookup returns a member of the table, under its codepoint.
pub proof fn lemma_spec_lookup_mem(chars: Seq<(char, CharacterInfo)>, c: char)
    requires
        spec_lookup(chars, c) is Some,
    ensures
        exists|i: int|
            0 <= i < chars.len() && chars[i] == (c, spec_lookup(chars, c)->Some_0),
    decreases chars.len(),
{
    if chars.len() > 0 && chars.first().0 != c {
        lemma_spec_lookup_mem(chars.drop_first(), c);
        let i = choose|i: int|
            0 <= i < chars.drop_first().len() && chars.drop_first()[i] == (
            c,
            spec_lookup(chars.drop_first(), c)->Some_0,
            );
        assert(chars[i + 1] == (c, spec_lookup(chars, c)->Some_0));
    }
}

/// A lookup succeeds exactly when the table has an entry for the
/// codepoint.
pub proof fn lemma_spec_lookup_present(chars: Seq<(char, CharacterInfo)>, c: char)
    ensures
        (spec_lookup(chars, c) is Some) <==> exists|i: int|
            0 <= i < chars.len() && (#[trigger] chars[i]).0 == c,
    decreases chars.len(),
{
    if chars.len() > 0 {
        lemma_spec_lookup_present(chars.drop_first(), c);
        if chars.first().0 == c {
            assert(chars[0].0 == c);
        } else {
            if spec_lookup(chars.drop_first(), c) is Some {
                let i = choose|i: int|
                    0 <= i < chars.drop_first().len() && (#[trigger] chars.drop_first()[i]).0 == c;
                assert(chars[i + 1].0 == c);
            } else {
                if exists|i: int| 0 <= i < chars.len() && (#[trigger] chars[i]).0 == c {
                    let i = choose|i: int| 0 <= i < chars.len() && (#[trigger] chars[i]).0 == c;
                    assert(chars.drop_first()[i - 1].0 == c);
                }
            }
        }
    }
}

/// Each atlas entry carries its glyph's codepoint, and its three padding
/// fields recompose to exactly that glyph's advance: what the layout pen
/// moves per codepoint is what the rasterizer reported.
pub proof fn lemma_atlas_advances(glyphs: Seq<RasterizedGlyph>, s: int)
    requires
        pack_ok(glyphs, s),
        s >= 1,
        forall|i: int| 0 <= i < glyphs.len() ==> (#[trigger] glyphs[i]).wf(),
    ensures
        build_model(glyphs, s).chars.len() == glyphs.len(),
        forall|i: int|
            0 <= i < glyphs.len() ==> (#[trigger] build_model(glyphs, s).chars[i]).0
                == glyphs[i].codepoint && advance_64_of(build_model(glyphs, s).chars[i].1)
                == glyphs[i].advance_64,
{
    lemma_packed_rects_disjoint(glyphs, s);
    let m = build_model(glyphs, s);
    assert forall|i: int| 0 <= i < glyphs.len() implies (#[trigger] m.chars[i]).0
        == glyphs[i].codepoint && advance_64_of(m.chars[i].1) == glyphs[i].advance_64 by {
        assert(glyphs[i].wf());
        assert(pack_model(glyphs, s).rects[i].w == glyphs[i].width);
    }
}

/// Every footprint of a well-formed atlas stays inside the unit square in
/// texture-relative terms: its origin plus its size reaches at most the
/// texture's width and height.
pub proof fn lemma_footprints_within(atlas: &FontAtlas)
    requires
        atlas.wf(),
    ensures
        forall|i: int|
            0 <= i < atlas.chars@.len() ==> {
                let info = (#[trigger] atlas.chars@[i]).1;
                &&& info.tex_x + info.tex_w <= atlas.width
                &&& info.tex_y + info.tex_h <= atlas.height
            },
{
    assert forall|i: int| 0 <= i < atlas.chars@.len() implies {
        let info = (#[trigger] atlas.chars@[i]).1;
        &&& info.tex_x + info.tex_w <= atlas.width
        &&& info.tex_y + info.tex_h <= atlas.height
    } by {
        assert(wf_entry(atlas.chars@[i].1, atlas.width as int, atlas.height as int));
    }
}

} // verus!
