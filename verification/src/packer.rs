//! Shelf packing of rasterized glyphs into one texture.
//!
//! Glyphs are placed left to right along a row ("shelf"); when the next
//! glyph would cross the right edge, the cursor wraps to a fresh row below
//! everything placed so far.  Every glyph is preceded by a two-pixel margin
//! so that linear texture sampling never bleeds a neighbour in.  The buffer
//! grows as rows are opened and is finally padded so that its height, like
//! its width, is a power of two.
//!
//! The packing is specified by `pack_model`, a function of the glyph
//! sequence and the requested pixel size alone; `pack` returns exactly that
//! model.  Three lemmas state the guarantees a consumer cares about:
//! `lemma_packed_rects_disjoint` (no two rectangles share a pixel, and all
//! lie within the power-of-two texture), `lemma_packed_pixels` (each
//! rectangle holds its glyph's bitmap, byte for byte), and
//! `lemma_packed_blank` (everything outside the rectangles is zero).

use vstd::arithmetic::div_mod::lemma_fundamental_div_mod_converse;
use vstd::arithmetic::mul::{lemma_mul_inequality, lemma_mul_is_distributive_add_other_way};
use vstd::prelude::*;

use crate::glyph::{rows_budget, RasterizedGlyph};
use crate::pow2::{
    get_nearest_po2, is_pow2, lemma_next_pow2_is_pow2, lemma_next_pow2_monotonic, next_pow2,
};
use crate::sqrt::{ceil_isqrt, ceil_sqrt};

verus! {

/// Pixels of blank space kept to the left of and above every glyph.
pub const MARGIN: u32 = 2;

/// Where one glyph's bitmap landed: a pixel rectangle in the texture.
#[derive(Clone, Copy, Debug, PartialEq, Eq, Structural)]
pub struct PackedRect {
    /// Left edge, in pixels.
    pub x: u32,
    /// Top edge, in pixels.
    pub y: u32,
    /// Width in pixels.
    pub w: u32,
    /// Height in pixels.
    pub h: u32,
}

/// The mathematical counterpart of a `PackedRect`.
pub ghost struct Rect {
    pub x: int,
    pub y: int,
    pub w: int,
    pub h: int,
}

impl View for PackedRect {
    type V = Rect;

    open spec fn view(&self) -> Rect {
        Rect { x: self.x as int, y: self.y as int, w: self.w as int, h: self.h as int }
    }
}

/// Two rectangles share no pixel: one of them is empty, or they are
/// separated along an axis.
pub open spec fn rects_disjoint(a: Rect, b: Rect) -> bool {
    ||| a.w <= 0
    ||| a.h <= 0
    ||| b.w <= 0
    ||| b.h <= 0
    ||| a.x + a.w <= b.x
    ||| b.x + b.w <= a.x
    ||| a.y + a.h <= b.y
    ||| b.y + b.h <= a.y
}

/// The packer's cursor state after some prefix of the glyphs.
pub ghost struct PackState {
    /// Cursor column: where the next glyph's margin begins.
    pub cx: int,
    /// Top row of the current shelf.
    pub cy: int,
    /// Rows reserved for the current shelf so far.
    pub rts: int,
    /// The texture bytes written so far, `(cy + rts) * width` of them.
    pub buf: Seq<u8>,
    /// One rectangle per glyph placed, in input order.
    pub rects: Seq<Rect>,
    /// False once a glyph wider than the texture was met.
    pub ok: bool,
}

/// `n` zero bytes.
pub open spec fn zeros(n: int) -> Seq<u8> {
    Seq::new(n as nat, |i: int| 0u8)
}

/// `buf` with glyph `g`'s bitmap copied to `(x, y)`, but only the part
/// strictly before bitmap row `ry`, plus the first `rx` pixels of row `ry`.
pub open spec fn write_upto(
    buf: Seq<u8>,
    tw: int,
    x: int,
    y: int,
    g: RasterizedGlyph,
    ry: int,
    rx: int,
) -> Seq<u8> {
    Seq::new(
        buf.len(),
        |i: int|
            {
                let px = i % tw;
                let py = i / tw;
                if x <= px < x + g.width && y <= py < y + g.rows && (py - y < ry || (py - y == ry
                    && px - x < rx)) {
                    g.bitmap@[(py - y) * (g.width as int) + (px - x)]
                } else {
                    buf[i]
                }
            },
    )
}

/// `buf` with glyph `g`'s whole bitmap copied to `(x, y)`.
pub open spec fn write_glyph(buf: Seq<u8>, tw: int, x: int, y: int, g: RasterizedGlyph) -> Seq<
    u8,
> {
    write_upto(buf, tw, x, y, g, g.rows as int, 0)
}

/// One packing step: margin, wrap if the glyph would cross the right edge,
/// open rows as needed, copy the bitmap, advance the cursor.  A glyph wider
/// than the texture poisons the state.
pub open spec fn pack_step(st: PackState, g: RasterizedGlyph, tw: int) -> PackState {
    if !st.ok {
        st
    } else {
        let cxm = st.cx + MARGIN;
        let wrap = cxm + g.width + MARGIN >= tw;
        if wrap && g.width > tw {
            PackState { ok: false, ..st }
        } else {
            let x = if wrap {
                0
            } else {
                cxm
            };
            let y = if wrap {
                st.cy + st.rts
            } else {
                st.cy
            };
            let shelf = if wrap {
                0
            } else {
                st.rts
            };
            let need = MARGIN + g.rows;
            let grown = if shelf < need {
                st.buf + zeros((need - shelf) * tw)
            } else {
                st.buf
            };
            let reserved = if shelf < need {
                need
            } else {
                shelf
            };
            let placed = if g.rows >= 1 {
                write_glyph(grown, tw, x, y, g)
            } else {
                grown
            };
            let cx1 = if g.rows >= 1 {
                x + g.width
            } else {
                x
            };
            PackState {
                cx: cx1,
                cy: y,
                rts: reserved,
                buf: placed,
                rects: st.rects.push(Rect { x, y, w: g.width as int, h: g.rows as int }),
                ok: true,
            }
        }
    }
}

/// The cursor state before any glyph.
pub open spec fn pack_init() -> PackState {
    PackState { cx: 0, cy: 0, rts: 0, buf: Seq::empty(), rects: Seq::empty(), ok: true }
}

/// The cursor state after all of `glyphs`, for texture width `tw`.
pub open spec fn pack_glyphs(glyphs: Seq<RasterizedGlyph>, tw: int) -> PackState
    decreases glyphs.len(),
{
    if glyphs.len() == 0 {
        pack_init()
    } else {
        pack_step(pack_glyphs(glyphs.drop_last(), tw), glyphs.last(), tw)
    }
}

/// The larger of two integers.
pub open spec fn max_int(a: int, b: int) -> int {
    if a >= b {
        a
    } else {
        b
    }
}

/// The texture width chosen for `n` glyphs at pixel size `s`: the next
/// power of two at least `2 * s` and at least the side of a square of area
/// `n * s * s`.
pub open spec fn spec_texture_width(n: int, s: int) -> int {
    next_pow2(max_int(2 * s, ceil_sqrt(n * s * s)))
}

/// Whether packing `glyphs` at size `s` succeeds: no glyph is wider than
/// the chosen texture.
pub open spec fn pack_ok(glyphs: Seq<RasterizedGlyph>, s: int) -> bool {
    pack_glyphs(glyphs, spec_texture_width(glyphs.len() as int, s)).ok
}

/// The finished packing: rectangles, buffer padded to a power-of-two
/// height, and the texture dimensions.
pub ghost struct PackModel {
    pub rects: Seq<Rect>,
    pub buf: Seq<u8>,
    pub width: int,
    pub height: int,
}

/// The packing of `glyphs` at pixel size `s`, as a function of its inputs
/// alone.  Meaningful only when `pack_ok(glyphs, s)`.
pub open spec fn pack_model(glyphs: Seq<RasterizedGlyph>, s: int) -> PackModel {
    let tw = spec_texture_width(glyphs.len() as int, s);
    let st = pack_glyphs(glyphs, tw);
    let rows = st.cy + st.rts;
    let th = next_pow2(rows);
    PackModel { rects: st.rects, buf: st.buf + zeros((th - rows) * tw), width: tw, height: th }
}

/// What placement guarantees each finished rectangle: inside the texture
/// horizontally, above the reserved rows, and — if it has any area — either
/// on a closed shelf or left of the cursor.
pub open spec fn rect_in_state(r: Rect, st: PackState, tw: int) -> bool {
    &&& 0 <= r.x
    &&& 0 <= r.y
    &&& 0 <= r.w
    &&& 0 <= r.h
    &&& r.x + r.w <= tw
    &&& r.y + r.h <= st.cy + st.rts
    &&& (r.w > 0 && r.h > 0 ==> r.y + r.h <= st.cy || r.x + r.w <= st.cx)
}

/// The packer's loop invariant over its cursor state.
pub open spec fn state_wf(st: PackState, tw: int) -> bool {
    st.ok ==> {
        &&& 0 <= st.cx <= tw
        &&& 0 <= st.cy
        &&& 0 <= st.rts
        &&& st.buf.len() == (st.cy + st.rts) * tw
        &&& forall|i: int|
            0 <= i < st.rects.len() ==> rect_in_state(#[trigger] st.rects[i], st, tw)
        &&& forall|i: int, j: int|
            0 <= i < j < st.rects.len() ==> rects_disjoint(st.rects[i], st.rects[j])
    }
}

/// One step preserves the invariant, grows the reserved rows by at most
/// `2 + rows`, and appends exactly the new glyph's rectangle.
proof fn lemma_pack_step_wf(st: PackState, g: RasterizedGlyph, tw: int)
    requires
        state_wf(st, tw),
        tw >= 1,
    ensures
        state_wf(pack_step(st, g, tw), tw),
        st.ok && pack_step(st, g, tw).ok ==> {
            let post = pack_step(st, g, tw);
            &&& post.cy + post.rts <= st.cy + st.rts + MARGIN + g.rows
            &&& post.rts >= MARGIN
            &&& post.rects == st.rects.push(
                Rect {
                    x: post.rects.last().x,
                    y: post.rects.last().y,
                    w: g.width as int,
                    h: g.rows as int,
                },
            )
            &&& post.rects.last().x + g.width <= tw
            &&& post.rects.last().y + g.rows <= post.cy + post.rts
            &&& post.rects.last().x >= 0
            &&& post.rects.last().y >= 0
        },
        !(st.ok && pack_step(st, g, tw).ok) ==> pack_step(st, g, tw).rects == st.rects,
{
    if st.ok {
        let post = pack_step(st, g, tw);
        if post.ok {
            let cxm = st.cx + MARGIN;
            let wrap = cxm + g.width + MARGIN >= tw;
            let x = if wrap {
                0int
            } else {
                cxm
            };
            let y = if wrap {
                st.cy + st.rts
            } else {
                st.cy
            };
            let shelf: int = if wrap {
                0
            } else {
                st.rts
            };
            let need = MARGIN + g.rows;
            let reserved = if shelf < need {
                need
            } else {
                shelf
            };
            // Buffer length accounting.
            if shelf < need {
                assert((y + reserved) * tw == (st.cy + st.rts) * tw + (need - shelf) * tw) by {
                    lemma_mul_is_distributive_add_other_way(tw, st.cy + st.rts, need - shelf);
                    assert((st.cy + st.rts) + (need - shelf) == y + reserved);
                };
            }
            // The new rectangle stays inside the texture.
            assert(x + g.width <= tw);
            // Old rectangles keep their invariant.
            assert forall|i: int| 0 <= i < st.rects.len() implies rect_in_state(
                #[trigger] st.rects[i],
                post,
                tw,
            ) by {
                assert(rect_in_state(st.rects[i], st, tw));
            }
            // Old rectangles are disjoint from the new one.
            let nr = Rect { x, y, w: g.width as int, h: g.rows as int };
            assert forall|i: int| 0 <= i < st.rects.len() implies rects_disjoint(
                st.rects[i],
                nr,
            ) by {
                assert(rect_in_state(st.rects[i], st, tw));
            }
            assert(post.rects.last() == nr);
            assert forall|i: int, j: int|
                0 <= i < j < post.rects.len() implies rects_disjoint(
                post.rects[i],
                post.rects[j],
            ) by {
                if j < st.rects.len() {
                    assert(rects_disjoint(st.rects[i], st.rects[j]));
                } else {
                    assert(post.rects[j] == nr);
                    assert(rects_disjoint(st.rects[i], nr));
                }
            }
        }
    }
}

/// The invariant holds after any glyph prefix, the reserved rows stay
/// within `rows_budget`, and on success there is one rectangle per glyph,
/// of that glyph's size.
pub proof fn lemma_pack_glyphs_wf(glyphs: Seq<RasterizedGlyph>, tw: int)
    requires
        tw >= 1,
    ensures
        state_wf(pack_glyphs(glyphs, tw), tw),
        pack_glyphs(glyphs, tw).cy + pack_glyphs(glyphs, tw).rts <= rows_budget(glyphs),
        pack_glyphs(glyphs, tw).cy >= 0,
        pack_glyphs(glyphs, tw).rts >= 0,
        pack_glyphs(glyphs, tw).ok ==> {
            let st = pack_glyphs(glyphs, tw);
            &&& st.rects.len() == glyphs.len()
            &&& forall|i: int|
                0 <= i < glyphs.len() ==> (#[trigger] st.rects[i]).w == glyphs[i].width
                    && st.rects[i].h == glyphs[i].rows
        },
        pack_glyphs(glyphs, tw).ok && glyphs.len() >= 1 ==> pack_glyphs(glyphs, tw).rts
            >= MARGIN,
    decreases glyphs.len(),
{
    if glyphs.len() == 0 {
        assert((0 + 0) * tw == 0) by (nonlinear_arith);
    } else {
        let prefix = glyphs.drop_last();
        lemma_pack_glyphs_wf(prefix, tw);
        lemma_pack_step_wf(pack_glyphs(prefix, tw), glyphs.last(), tw);
        assert(pack_glyphs(glyphs, tw) == pack_step(pack_glyphs(prefix, tw), glyphs.last(), tw));
    }
}

/// Once poisoned, the state stays poisoned: a failure on any prefix is a
/// failure of the whole packing.
pub proof fn lemma_pack_error_sticky(glyphs: Seq<RasterizedGlyph>, tw: int, n: int)
    requires
        0 <= n <= glyphs.len(),
        !pack_glyphs(glyphs.take(n), tw).ok,
    ensures
        !pack_glyphs(glyphs, tw).ok,
    decreases glyphs.len() - n,
{
    if n < glyphs.len() {
        assert(glyphs.take(n + 1).drop_last() =~= glyphs.take(n));
        assert(glyphs.take(n + 1).last() == glyphs[n]);
        lemma_pack_error_sticky(glyphs, tw, n + 1);
    } else {
        assert(glyphs.take(n) =~= glyphs);
    }
}

/// The geometric guarantee of a successful packing: the texture dimensions
/// are powers of two, every rectangle lies within them, and no two
/// rectangles overlap.
pub proof fn lemma_packed_rects_disjoint(glyphs: Seq<RasterizedGlyph>, s: int)
    requires
        pack_ok(glyphs, s),
        s >= 1,
    ensures
        ({
            let m = pack_model(glyphs, s);
            &&& is_pow2(m.width)
            &&& is_pow2(m.height)
            &&& m.rects.len() == glyphs.len()
            &&& forall|i: int|
                0 <= i < m.rects.len() ==> {
                    let r = #[trigger] m.rects[i];
                    &&& 0 <= r.x
                    &&& 0 <= r.y
                    &&& r.w == glyphs[i].width
                    &&& r.h == glyphs[i].rows
                    &&& r.x + r.w <= m.width
                    &&& r.y + r.h <= m.height
                }
            &&& forall|i: int, j: int|
                0 <= i < j < m.rects.len() ==> rects_disjoint(m.rects[i], m.rects[j])
        }),
{
    let tw = spec_texture_width(glyphs.len() as int, s);
    let st = pack_glyphs(glyphs, tw);
    let rows = st.cy + st.rts;
    lemma_texture_width_bounds(glyphs.len() as int, s);
    lemma_pack_glyphs_wf(glyphs, tw);
    lemma_next_pow2_is_pow2(rows);
    assert forall|i: int| 0 <= i < st.rects.len() implies {
        let r = #[trigger] st.rects[i];
        r.y + r.h <= next_pow2(rows)
    } by {
        assert(rect_in_state(st.rects[i], st, tw));
    }
}

/// The chosen texture width is a power of two and at least 2 (for any
/// positive pixel size).
pub proof fn lemma_texture_width_bounds(n: int, s: int)
    requires
        s >= 1,
    ensures
        is_pow2(spec_texture_width(n, s)),
        spec_texture_width(n, s) >= 2,
{
    let t = max_int(2 * s, ceil_sqrt(n * s * s));
    lemma_next_pow2_is_pow2(t);
    lemma_next_pow2_monotonic(2, t);
    assert(next_pow2(2) == 2 * next_pow2(1));
}

/// The byte of pixel `(px, py)` in a `tw`-wide row-major buffer.
pub open spec fn pixel_of(buf: Seq<u8>, tw: int, px: int, py: int) -> u8 {
    buf[py * tw + px]
}

/// Rectangle `r` of `buf` holds exactly glyph `g`'s bitmap.
pub open spec fn glyph_pixels_at(buf: Seq<u8>, tw: int, r: Rect, g: RasterizedGlyph) -> bool {
    forall|gx: int, gy: int|
        0 <= gx < r.w && 0 <= gy < r.h ==> #[trigger] pixel_of(buf, tw, r.x + gx, r.y + gy)
            == g.bitmap@[gy * r.w + gx]
}

/// A rectangle's pixels address only the first `(r.y + r.h) * tw` bytes,
/// so appending to the buffer does not disturb them.
proof fn lemma_rect_pixels_in_prefix(r: Rect, tw: int, gx: int, gy: int)
    requires
        tw >= 1,
        0 <= r.x,
        0 <= r.y,
        r.x + r.w <= tw,
        0 <= gx < r.w,
        0 <= gy < r.h,
    ensures
        0 <= (r.y + gy) * tw + (r.x + gx) < (r.y + r.h) * tw,
        ((r.y + gy) * tw + (r.x + gx)) % tw == r.x + gx,
        ((r.y + gy) * tw + (r.x + gx)) / tw == r.y + gy,
{
    lemma_fundamental_div_mod_converse((r.y + gy) * tw + (r.x + gx), tw, r.y + gy, r.x + gx);
    lemma_mul_is_distributive_add_other_way(tw, r.y + gy, 1);
    lemma_mul_inequality(r.y + gy + 1, r.y + r.h, tw);
    lemma_mul_inequality(0, r.y + gy, tw);
}

/// Appending bytes to the buffer leaves every completed rectangle's pixels
/// in place.
proof fn lemma_concat_keeps_pixels(
    buf: Seq<u8>,
    tail: Seq<u8>,
    tw: int,
    r: Rect,
    g: RasterizedGlyph,
)
    requires
        tw >= 1,
        0 <= r.x,
        0 <= r.y,
        r.x + r.w <= tw,
        (r.y + r.h) * tw <= buf.len(),
        glyph_pixels_at(buf, tw, r, g),
    ensures
        glyph_pixels_at(buf + tail, tw, r, g),
{
    assert forall|gx: int, gy: int| 0 <= gx < r.w && 0 <= gy < r.h implies #[trigger] pixel_of(
        buf + tail,
        tw,
        r.x + gx,
        r.y + gy,
    ) == g.bitmap@[gy * r.w + gx] by {
        lemma_rect_pixels_in_prefix(r, tw, gx, gy);
        assert(pixel_of(buf, tw, r.x + gx, r.y + gy) == g.bitmap@[gy * r.w + gx]);
    }
}

/// Copying a glyph into a rectangle disjoint from `r` leaves `r`'s pixels
/// in place.
proof fn lemma_write_keeps_pixels(
    buf: Seq<u8>,
    tw: int,
    x: int,
    y: int,
    g2: RasterizedGlyph,
    r: Rect,
    g: RasterizedGlyph,
)
    requires
        tw >= 1,
        0 <= r.x,
        0 <= r.y,
        r.x + r.w <= tw,
        (r.y + r.h) * tw <= buf.len(),
        rects_disjoint(r, Rect { x, y, w: g2.width as int, h: g2.rows as int }),
        glyph_pixels_at(buf, tw, r, g),
    ensures
        glyph_pixels_at(write_glyph(buf, tw, x, y, g2), tw, r, g),
{
    assert forall|gx: int, gy: int| 0 <= gx < r.w && 0 <= gy < r.h implies #[trigger] pixel_of(
        write_glyph(buf, tw, x, y, g2),
        tw,
        r.x + gx,
        r.y + gy,
    ) == g.bitmap@[gy * r.w + gx] by {
        lemma_rect_pixels_in_prefix(r, tw, gx, gy);
        let i = (r.y + gy) * tw + (r.x + gx);
        // `r` has area here, so the separating axis keeps `(r.x + gx,
        // r.y + gy)` outside the freshly written rectangle.
        assert(!(x <= i % tw < x + g2.width && y <= i / tw < y + g2.rows));
        assert(pixel_of(buf, tw, r.x + gx, r.y + gy) == g.bitmap@[gy * r.w + gx]);
    }
}

/// After its own copy, a glyph's rectangle holds its bitmap.
proof fn lemma_write_establishes_pixels(
    buf: Seq<u8>,
    tw: int,
    x: int,
    y: int,
    g: RasterizedGlyph,
)
    requires
        tw >= 1,
        0 <= x,
        0 <= y,
        x + g.width <= tw,
        (y + g.rows) * tw <= buf.len(),
    ensures
        glyph_pixels_at(
            write_glyph(buf, tw, x, y, g),
            tw,
            Rect { x, y, w: g.width as int, h: g.rows as int },
            g,
        ),
{
    let r = Rect { x, y, w: g.width as int, h: g.rows as int };
    assert forall|gx: int, gy: int| 0 <= gx < r.w && 0 <= gy < r.h implies #[trigger] pixel_of(
        write_glyph(buf, tw, x, y, g),
        tw,
        r.x + gx,
        r.y + gy,
    ) == g.bitmap@[gy * r.w + gx] by {
        lemma_rect_pixels_in_prefix(r, tw, gx, gy);
    }
}

/// Every glyph's bitmap stays where it was copied: after all of `glyphs`,
/// each one's rectangle holds its bitmap, byte for byte.
proof fn lemma_pack_glyphs_pixels(glyphs: Seq<RasterizedGlyph>, tw: int)
    requires
        tw >= 1,
    ensures
        pack_glyphs(glyphs, tw).ok ==> forall|k: int|
            0 <= k < glyphs.len() ==> glyph_pixels_at(
                pack_glyphs(glyphs, tw).buf,
                tw,
                #[trigger] pack_glyphs(glyphs, tw).rects[k],
                glyphs[k],
            ),
    decreases glyphs.len(),
{
    if glyphs.len() == 0 {
    } else {
        let prefix = glyphs.drop_last();
        let g = glyphs.last();
        let st = pack_glyphs(prefix, tw);
        let post = pack_glyphs(glyphs, tw);
        lemma_pack_glyphs_pixels(prefix, tw);
        lemma_pack_glyphs_wf(prefix, tw);
        lemma_pack_glyphs_wf(glyphs, tw);
        lemma_pack_step_wf(st, g, tw);
        if post.ok {
            let cxm = st.cx + MARGIN;
            let wrap = cxm + g.width + MARGIN >= tw;
            let x = if wrap {
                0int
            } else {
                cxm
            };
            let y = if wrap {
                st.cy + st.rts
            } else {
                st.cy
            };
            let shelf: int = if wrap {
                0
            } else {
                st.rts
            };
            let need = MARGIN + g.rows;
            let grown = if shelf < need {
                st.buf + zeros((need - shelf) * tw)
            } else {
                st.buf
            };
            if shelf < need {
                lemma_mul_is_distributive_add_other_way(tw, st.cy + st.rts, need - shelf);
            }
            // Old rectangles survive the growth and the new copy.
            assert forall|k: int| 0 <= k < prefix.len() implies glyph_pixels_at(
                post.buf,
                tw,
                #[trigger] post.rects[k],
                glyphs[k],
            ) by {
                let r = st.rects[k];
                assert(rect_in_state(r, st, tw));
                assert((r.y + r.h) * tw <= st.buf.len()) by {
                    lemma_mul_inequality(r.y + r.h, st.cy + st.rts, tw);
                };
                if shelf < need {
                    lemma_concat_keeps_pixels(
                        st.buf,
                        zeros((need - shelf) * tw),
                        tw,
                        r,
                        prefix[k],
                    );
                }
                if g.rows >= 1 {
                    assert(rects_disjoint(post.rects[k], post.rects[glyphs.len() - 1]));
                    lemma_write_keeps_pixels(grown, tw, x, y, g, r, prefix[k]);
                }
                assert(post.rects[k] == r && glyphs[k] == prefix[k]);
            }
            // The new rectangle holds its own bitmap.
            if g.rows >= 1 {
                assert((y + g.rows) * tw <= grown.len()) by {
                    lemma_mul_inequality(y + g.rows, post.cy + post.rts, tw);
                };
                lemma_write_establishes_pixels(grown, tw, x, y, g);
            }
        }
    }
}

/// The copy guarantee of a successful packing: in the finished buffer,
/// every glyph's rectangle holds that glyph's bitmap, byte for byte.
pub proof fn lemma_packed_pixels(glyphs: Seq<RasterizedGlyph>, s: int)
    requires
        pack_ok(glyphs, s),
        s >= 1,
    ensures
        forall|k: int|
            0 <= k < glyphs.len() ==> glyph_pixels_at(
                pack_model(glyphs, s).buf,
                pack_model(glyphs, s).width,
                #[trigger] pack_model(glyphs, s).rects[k],
                glyphs[k],
            ),
{
    let tw = spec_texture_width(glyphs.len() as int, s);
    let st = pack_glyphs(glyphs, tw);
    lemma_texture_width_bounds(glyphs.len() as int, s);
    lemma_pack_glyphs_pixels(glyphs, tw);
    lemma_pack_glyphs_wf(glyphs, tw);
    assert forall|k: int| 0 <= k < glyphs.len() implies glyph_pixels_at(
        pack_model(glyphs, s).buf,
        pack_model(glyphs, s).width,
        #[trigger] pack_model(glyphs, s).rects[k],
        glyphs[k],
    ) by {
        let r = st.rects[k];
        assert(rect_in_state(r, st, tw));
        assert((r.y + r.h) * tw <= st.buf.len()) by {
            lemma_mul_inequality(r.y + r.h, st.cy + st.rts, tw);
        };
        lemma_concat_keeps_pixels(
            st.buf,
            zeros((pack_model(glyphs, s).height - (st.cy + st.rts)) * tw),
            tw,
            r,
            glyphs[k],
        );
    }
}

/// Whether pixel `(px, py)` lies inside rectangle `r`.
pub open spec fn pixel_in_rect(r: Rect, px: int, py: int) -> bool {
    r.x <= px < r.x + r.w && r.y <= py < r.y + r.h
}

/// Every pixel of `buf` that no rectangle covers is blank.
pub open spec fn blank_outside(buf: Seq<u8>, tw: int, rects: Seq<Rect>) -> bool {
    forall|px: int, py: int|
        (0 <= px < tw && 0 <= py && py * tw + px < buf.len() && (forall|k: int|
            0 <= k < rects.len() ==> !pixel_in_rect(#[trigger] rects[k], px, py)))
            ==> #[trigger] pixel_of(buf, tw, px, py) == 0
}

/// Uncovered pixels stay blank through every packing step: the space
/// between and around the glyphs — the anti-bleed margins included — holds
/// zeroes only.
proof fn lemma_pack_glyphs_blank(glyphs: Seq<RasterizedGlyph>, tw: int)
    requires
        tw >= 1,
    ensures
        pack_glyphs(glyphs, tw).ok ==> blank_outside(
            pack_glyphs(glyphs, tw).buf,
            tw,
            pack_glyphs(glyphs, tw).rects,
        ),
    decreases glyphs.len(),
{
    if glyphs.len() == 0 {
    } else {
        let prefix = glyphs.drop_last();
        let g = glyphs.last();
        let st = pack_glyphs(prefix, tw);
        let post = pack_glyphs(glyphs, tw);
        lemma_pack_glyphs_blank(prefix, tw);
        lemma_pack_glyphs_wf(prefix, tw);
        if post.ok {
            let cxm = st.cx + MARGIN;
            let wrap = cxm + g.width + MARGIN >= tw;
            let x = if wrap {
                0int
            } else {
                cxm
            };
            let y = if wrap {
                st.cy + st.rts
            } else {
                st.cy
            };
            let shelf: int = if wrap {
                0
            } else {
                st.rts
            };
            let need = MARGIN + g.rows;
            let grown = if shelf < need {
                st.buf + zeros((need - shelf) * tw)
            } else {
                st.buf
            };
            let nr = post.rects.last();
            assert forall|px: int, py: int|
                (0 <= px < tw && 0 <= py && py * tw + px < post.buf.len() && (forall|k: int|
                    0 <= k < post.rects.len() ==> !pixel_in_rect(
                        #[trigger] post.rects[k],
                        px,
                        py,
                    ))) implies #[trigger] pixel_of(post.buf, tw, px, py) == 0 by {
                let i = py * tw + px;
                lemma_fundamental_div_mod_converse(i, tw, py, px);
                // The pixel is outside every old rectangle too.
                assert forall|k: int| 0 <= k < st.rects.len() implies !pixel_in_rect(
                    #[trigger] st.rects[k],
                    px,
                    py,
                ) by {
                    assert(st.rects[k] == post.rects[k]);
                    assert(!pixel_in_rect(post.rects[k], px, py));
                }
                // It is blank in the grown buffer.
                if i < st.buf.len() {
                    assert(pixel_of(st.buf, tw, px, py) == 0);
                    assert(grown[i] == st.buf[i]);
                } else {
                    assert(grown[i] == 0);
                }
                // The copy touches only the new rectangle, which the pixel
                // is outside of.
                assert(!pixel_in_rect(nr, px, py));
                if g.rows >= 1 {
                    assert(post.buf[i] == grown[i]);
                }
            }
        }
    }
}

/// The blank guarantee of a successful packing: every texel outside all
/// glyph rectangles — the margins and the padding — is zero, so linear
/// sampling at a glyph's edge blends into blankness, never into a
/// neighbouring glyph.
pub proof fn lemma_packed_blank(glyphs: Seq<RasterizedGlyph>, s: int)
    requires
        pack_ok(glyphs, s),
        s >= 1,
    ensures
        blank_outside(
            pack_model(glyphs, s).buf,
            pack_model(glyphs, s).width,
            pack_model(glyphs, s).rects,
        ),
{
    let tw = spec_texture_width(glyphs.len() as int, s);
    let st = pack_glyphs(glyphs, tw);
    let m = pack_model(glyphs, s);
    lemma_texture_width_bounds(glyphs.len() as int, s);
    lemma_pack_glyphs_blank(glyphs, tw);
    lemma_pack_glyphs_wf(glyphs, tw);
    assert forall|px: int, py: int|
        (0 <= px < m.width && 0 <= py && py * m.width + px < m.buf.len() && (forall|k: int|
            0 <= k < m.rects.len() ==> !pixel_in_rect(#[trigger] m.rects[k], px, py)))
        implies #[trigger] pixel_of(m.buf, m.width, px, py) == 0 by {
        let i = py * tw + px;
        assert forall|k: int| 0 <= k < st.rects.len() implies !pixel_in_rect(
            #[trigger] st.rects[k],
            px,
            py,
        ) by {
            assert(st.rects[k] == m.rects[k]);
            assert(!pixel_in_rect(m.rects[k], px, py));
        }
        if i < st.buf.len() {
            assert(pixel_of(st.buf, tw, px, py) == 0);
            assert(m.buf[i] == st.buf[i]);
        } else {
            assert(m.buf[i] == 0);
        }
    }
}

/// Before the first pixel, nothing has been written.
proof fn lemma_write_upto_start(buf: Seq<u8>, tw: int, x: int, y: int, g: RasterizedGlyph)
    ensures
        write_upto(buf, tw, x, y, g, 0, 0) == buf,
{
    assert(write_upto(buf, tw, x, y, g, 0, 0) =~= buf);
}

/// Writing one pixel extends the written region by exactly that pixel.
proof fn lemma_write_upto_set(
    buf: Seq<u8>,
    tw: int,
    x: int,
    y: int,
    g: RasterizedGlyph,
    ry: int,
    rx: int,
)
    requires
        tw >= 1,
        0 <= x,
        0 <= y,
        x + g.width <= tw,
        0 <= ry < g.rows,
        0 <= rx < g.width,
        (y + ry) * tw + (x + rx) < buf.len(),
    ensures
        write_upto(buf, tw, x, y, g, ry, rx).update(
            (y + ry) * tw + (x + rx),
            g.bitmap@[ry * g.width + rx],
        ) == write_upto(buf, tw, x, y, g, ry, rx + 1),
{
    let di = (y + ry) * tw + (x + rx);
    lemma_fundamental_div_mod_converse(di, tw, y + ry, x + rx);
    let lhs = write_upto(buf, tw, x, y, g, ry, rx).update(di, g.bitmap@[ry * g.width + rx]);
    let rhs = write_upto(buf, tw, x, y, g, ry, rx + 1);
    assert forall|i: int| 0 <= i < buf.len() implies lhs[i] == rhs[i] by {
        let px = i % tw;
        let py = i / tw;
        vstd::arithmetic::div_mod::lemma_fundamental_div_mod(i, tw);
        vstd::arithmetic::div_mod::lemma_fundamental_div_mod(di, tw);
        if i == di {
            assert(px == x + rx && py == y + ry);
        } else {
            assert(!(px == x + rx && py == y + ry));
        }
    }
    assert(lhs =~= rhs);
}

/// Finishing a bitmap row is the same as standing at the start of the next.
proof fn lemma_write_upto_row(buf: Seq<u8>, tw: int, x: int, y: int, g: RasterizedGlyph, ry: int)
    ensures
        write_upto(buf, tw, x, y, g, ry, g.width as int) == write_upto(
            buf,
            tw,
            x,
            y,
            g,
            ry + 1,
            0,
        ),
{
    assert(write_upto(buf, tw, x, y, g, ry, g.width as int) =~= write_upto(
        buf,
        tw,
        x,
        y,
        g,
        ry + 1,
        0,
    ));
}

/// Pick the texture width for `n` glyphs at pixel size `s`.
fn compute_width(n: usize, s: u32) -> (tw: u32)
    requires
        1 <= n <= 0x10_0000,
        1 <= s <= 0xFFFF,
    ensures
        tw == spec_texture_width(n as int, s as int),
        2 <= tw < 0x800_0000,
{
    let n64: u64 = n as u64;
    let s64: u64 = s as u64;
    proof {
        assert(n64 * s64 < 0x1_0000_0000_0000u64 && n64 * s64 * s64 < 0x10_0000_0000_0000u64)
            by (nonlinear_arith)
            requires
                0 <= n64 <= 0x10_0000u64,
                0 <= s64 <= 0xFFFFu64,
        ;
    }
    let area: u64 = n64 * s64 * s64;
    let root: u32 = ceil_isqrt(area);
    proof {
        // The ceiling square root of anything below 2^52 is at most 2^26.
        crate::sqrt::lemma_ceil_sqrt_exists(area as int);
        if root > 0x400_0000 {
            assert((root - 1) * (root - 1) >= 0x10_0000_0000_0000) by (nonlinear_arith)
                requires
                    root >= 0x400_0001,
            ;
        }
    }
    let two_s: u32 = 2 * s;
    let target: u32 = if two_s >= root {
        two_s
    } else {
        root
    };
    assert(target as int == max_int(2 * (s as int), ceil_sqrt(area as int)));
    let tw: u32 = get_nearest_po2(target);
    proof {
        crate::pow2::lemma_next_pow2_minimal(target as int);
        lemma_texture_width_bounds(n as int, s as int);
    }
    tw
}

/// A glyph placement failure: some glyph, margins included, is wider than
/// the texture the width heuristic chose.
#[derive(Clone, Copy, Debug, PartialEq, Eq, Structural)]
pub enum PackError {
    /// A single glyph cannot fit within the texture width even when it has
    /// a fresh row to itself.
    PackingOverflow,
}

/// A finished packing: one rectangle per input glyph, the filled pixel
/// buffer, and its power-of-two dimensions.
pub struct PackedAtlas {
    /// Where each glyph landed, in input order.
    pub rects: Vec<PackedRect>,
    /// Row-major 8-bit coverage, `width * height` bytes.
    pub buffer: Vec<u8>,
    /// Texture width in pixels; a power of two.
    pub width: u32,
    /// Texture height in pixels; a power of two.
    pub height: u32,
}

impl View for PackedAtlas {
    type V = PackModel;

    open spec fn view(&self) -> PackModel {
        PackModel {
            rects: self.rects@.map_values(|p: PackedRect| p@),
            buf: self.buffer@,
            width: self.width as int,
            height: self.height as int,
        }
    }
}

/// Pack every glyph into one power-of-two texture with a two-pixel
/// anti-bleed margin, shelf by shelf.  Returns exactly `pack_model`, or
/// `PackingOverflow` when some glyph is wider than the chosen texture.
#[verifier::loop_isolation(false)]
#[verifier::rlimit(60)]
pub fn pack(glyphs: &Vec<RasterizedGlyph>, font_size: u32) -> (result: Result<
    PackedAtlas,
    PackError,
>)
    requires
        1 <= glyphs@.len() <= 0x10_0000,
        1 <= font_size <= 0xFFFF,
        forall|i: int| 0 <= i < glyphs@.len() ==> (#[trigger] glyphs@[i]).wf(),
        rows_budget(glyphs@) <= 0x4000_0000,
    ensures
        match result {
            Ok(out) => {
                &&& pack_ok(glyphs@, font_size as int)
                &&& out@ == pack_model(glyphs@, font_size as int)
                &&& 2 <= out.width < 0x800_0000
                &&& out.height < 0x8000_0000u32
                &&& out.buffer@.len() == out.width * out.height
                &&& out.rects@.len() == glyphs@.len()
            },
            Err(e) => !pack_ok(glyphs@, font_size as int) && e == PackError::PackingOverflow,
        },
{
    let tw: u32 = compute_width(glyphs.len(), font_size);
    let tw64: u64 = tw as u64;
    let mut cx: u32 = 0;
    let mut cy: u32 = 0;
    let mut rts: u32 = 0;
    let mut buffer: Vec<u8> = Vec::new();
    let mut rects: Vec<PackedRect> = Vec::new();
    let mut idx: usize = 0;
    proof {
        assert(glyphs@.take(0) =~= Seq::<RasterizedGlyph>::empty());
    }
    while idx < glyphs.len()
        invariant
            idx <= glyphs@.len(),
            pack_glyphs(glyphs@.take(idx as int), tw as int).ok,
            cx == pack_glyphs(glyphs@.take(idx as int), tw as int).cx,
            cy == pack_glyphs(glyphs@.take(idx as int), tw as int).cy,
            rts == pack_glyphs(glyphs@.take(idx as int), tw as int).rts,
            buffer@ == pack_glyphs(glyphs@.take(idx as int), tw as int).buf,
            rects@.len() == idx,
            forall|k: int|
                0 <= k < idx ==> rects@[k]@ == pack_glyphs(
                    glyphs@.take(idx as int),
                    tw as int,
                ).rects[k],
        decreases glyphs@.len() - idx,
    {
        let ghost st = pack_glyphs(glyphs@.take(idx as int), tw as int);
        proof {
            lemma_pack_glyphs_wf(glyphs@.take(idx as int), tw as int);
            crate::glyph::lemma_rows_budget_monotonic(glyphs@, idx as int);
            crate::glyph::lemma_rows_budget_monotonic(glyphs@, idx as int + 1);
            crate::glyph::lemma_rows_budget_nonneg(glyphs@.take(idx as int));
            assert(glyphs@.take(idx as int + 1).drop_last() =~= glyphs@.take(idx as int));
            assert(glyphs@.take(idx as int + 1).last() == glyphs@[idx as int]);
            // So the next glyph's rows fit the budget:
            assert(rows_budget(glyphs@.take(idx as int + 1)) == rows_budget(
                glyphs@.take(idx as int),
            ) + 2 + glyphs@[idx as int].rows);
            assert(2 + glyphs@[idx as int].rows <= 0x4000_0000);
            assert(st.cy + st.rts <= 0x4000_0000);
        }
        let g = &glyphs[idx];
        let cxm: u32 = cx + MARGIN;
        let wrap: bool = (cxm as u64) + (g.width as u64) + (MARGIN as u64) >= tw64;
        if wrap && g.width > tw {
            proof {
                lemma_pack_error_sticky(glyphs@, tw as int, idx as int + 1);
            }
            return Err(PackError::PackingOverflow);
        }
        let px: u32 = if wrap {
            0
        } else {
            cxm
        };
        let py: u32 = if wrap {
            cy + rts
        } else {
            cy
        };
        cy = py;
        if wrap {
            rts = 0;
        }
        let ghost shelf = rts as int;
        let need: u32 = MARGIN + g.rows;
        if rts < need {
            let diff: u32 = need - rts;
            proof {
                assert((diff as u64) * tw64 <= 0x4000_0000u64 * 0x800_0000u64) by (
                nonlinear_arith)
                    requires
                        0 <= diff <= 0x4000_0000u64,
                        0 <= tw64 <= 0x800_0000u64,
                ;
            }
            let total: u64 = (diff as u64) * tw64;
            let ghost pre = buffer@;
            let mut k: u64 = 0;
            while k < total
                invariant
                    k <= total,
                    buffer@ == pre + zeros(k as int),
                decreases total - k,
            {
                buffer.push(0u8);
                proof {
                    assert(pre + zeros(k as int + 1) =~= (pre + zeros(k as int)).push(0u8));
                }
                k = k + 1;
            }
            rts = need;
            proof {
                assert(total as int == (need - shelf) * (tw as int));
            }
        }
        let ghost grown = st.buf + if shelf < need as int {
            zeros((need - shelf) * (tw as int))
        } else {
            Seq::<u8>::empty()
        };
        proof {
            if shelf >= need as int {
                assert(st.buf + Seq::<u8>::empty() =~= st.buf);
            }
            // Buffer length covers every row of the new shelf.
            assert(buffer@.len() == (py + rts) * (tw as int)) by {
                lemma_mul_is_distributive_add_other_way(
                    tw as int,
                    py as int + shelf,
                    rts as int - shelf,
                );
            };
            assert((py + g.rows) * (tw as int) <= buffer@.len()) by {
                lemma_mul_inequality(py as int + g.rows, py as int + rts, tw as int);
            };
        }
        if g.rows >= 1 {
            let ghost base = buffer@;
            let mut gy: u32 = 0;
            proof {
                lemma_write_upto_start(base, tw as int, px as int, py as int, *g);
                assert((py + g.rows) * (tw as int) <= base.len());
                assert(py <= 0x4000_0000 && g.rows <= 0x4000_0000);
            }
            while gy < g.rows
                invariant
                    gy <= g.rows,
                    buffer@ == write_upto(
                        base,
                        tw as int,
                        px as int,
                        py as int,
                        *g,
                        gy as int,
                        0,
                    ),
                decreases g.rows - gy,
            {
                let mut gx: u32 = 0;
                while gx < g.width
                    invariant
                        gx <= g.width,
                        buffer@ == write_upto(
                            base,
                            tw as int,
                            px as int,
                            py as int,
                            *g,
                            gy as int,
                            gx as int,
                        ),
                    decreases g.width - gx,
                {
                    proof {
                        assert((py + gy) * (tw as int) + (px + gx) < (py + g.rows) * (
                        tw as int)) by {
                            lemma_mul_is_distributive_add_other_way(
                                tw as int,
                                py as int + gy,
                                1,
                            );
                            lemma_mul_inequality(py as int + gy + 1, py as int + g.rows, tw as int);
                        };
                        assert(gy * g.width + gx < g.rows * g.width) by {
                            lemma_mul_is_distributive_add_other_way(g.width as int, gy as int, 1);
                            lemma_mul_inequality(gy as int + 1, g.rows as int, g.width as int);
                        };
                        assert(g.bitmap@.len() == g.rows * g.width) by (nonlinear_arith)
                            requires
                                g.bitmap@.len() == g.width * g.rows,
                        ;
                        assert(((py as u64) + (gy as u64)) * tw64 <= 0x8000_0000u64
                            * 0x800_0000u64) by (nonlinear_arith)
                            requires
                                0 <= (py as u64) + (gy as u64) <= 0x8000_0000u64,
                                0 <= tw64 <= 0x800_0000u64,
                        ;
                        assert((gy as u64) * (g.width as u64) <= 0x4000_0000u64
                            * 0xFFFF_FFFFu64) by (nonlinear_arith)
                            requires
                                0 <= (gy as u64) <= 0x4000_0000u64,
                                0 <= (g.width as u64) <= 0xFFFF_FFFFu64,
                        ;
                    }
                    let di: u64 = ((py as u64) + (gy as u64)) * tw64 + (px as u64) + (gx as u64);
                    let bi: u64 = (gy as u64) * (g.width as u64) + (gx as u64);
                    let blen: usize = buffer.len();
                    let bmlen: usize = g.bitmap.len();
                    proof {
                        assert(di as int == (py + gy) * (tw as int) + (px + gx));
                        assert((di as u64) < (blen as u64));
                        assert(bi as int == gy * g.width + gx);
                        assert((bi as u64) < (bmlen as u64));
                    }
                    let v: u8 = g.bitmap[bi as usize];
                    buffer.set(di as usize, v);
                    proof {
                        lemma_write_upto_set(
                            base,
                            tw as int,
                            px as int,
                            py as int,
                            *g,
                            gy as int,
                            gx as int,
                        );
                    }
                    gx = gx + 1;
                }
                proof {
                    lemma_write_upto_row(base, tw as int, px as int, py as int, *g, gy as int);
                }
                gy = gy + 1;
            }
            cx = px + g.width;
        } else {
            cx = px;
        }
        rects.push(PackedRect { x: px, y: py, w: g.width, h: g.rows });
        idx = idx + 1;
        proof {
            let post = pack_glyphs(glyphs@.take(idx as int), tw as int);
            assert(post == pack_step(st, glyphs@[idx - 1], tw as int));
            assert(buffer@ == post.buf);
            assert forall|k: int| 0 <= k < idx implies rects@[k]@ == post.rects[k] by {
                if k < idx - 1 {
                    assert(rects@[k]@ == st.rects[k]);
                }
            }
        }
    }
    proof {
        assert(glyphs@.take(glyphs@.len() as int) =~= glyphs@);
        lemma_pack_glyphs_wf(glyphs@, tw as int);
    }
    let ghost st = pack_glyphs(glyphs@, tw as int);
    let rows_cur: u32 = cy + rts;
    proof {
        crate::glyph::lemma_rows_budget_nonneg(glyphs@);
        assert(1 <= rows_cur <= 0x4000_0000);
    }
    let th: u32 = get_nearest_po2(rows_cur);
    proof {
        lemma_next_pow2_is_pow2(rows_cur as int);
        crate::pow2::lemma_next_pow2_minimal(rows_cur as int);
        assert(th < 0x8000_0000u32);
    }
    let pad: u32 = th - rows_cur;
    proof {
        assert((pad as u64) * tw64 <= 0x8000_0000u64 * 0x800_0000u64) by (nonlinear_arith)
            requires
                0 <= (pad as u64) <= 0x8000_0000u64,
                0 <= tw64 <= 0x800_0000u64,
        ;
    }
    let total: u64 = (pad as u64) * tw64;
    let ghost pre = buffer@;
    let mut k: u64 = 0;
    while k < total
        invariant
            k <= total,
            buffer@ == pre + zeros(k as int),
        decreases total - k,
    {
        buffer.push(0u8);
        proof {
            assert(pre + zeros(k as int + 1) =~= (pre + zeros(k as int)).push(0u8));
        }
        k = k + 1;
    }
    let out = PackedAtlas { rects, buffer, width: tw, height: th };
    proof {
        let m = pack_model(glyphs@, font_size as int);
        assert(out.rects@.map_values(|p: PackedRect| p@) =~= m.rects);
        assert(out@ == m);
        // The padded buffer covers exactly `th` rows of `tw` pixels.
        assert(out.buffer@.len() == (rows_cur + pad) * (tw as int)) by {
            lemma_mul_is_distributive_add_other_way(tw as int, rows_cur as int, pad as int);
        };
        assert((th as int) * (tw as int) == (tw as int) * (th as int)) by (nonlinear_arith);
        assert(out.buffer@.len() == out.width * out.height);
    }
    Ok(out)
}

} // verus!
