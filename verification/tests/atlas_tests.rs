use text_atlas::atlas::FontAtlas;
use text_atlas::glyph::RasterizedGlyph;
use text_atlas::packer::{pack, PackError};

fn glyph(c: char, width: u32, rows: u32, bearing_left: i32, bearing_top: i32, advance_64: i64) -> RasterizedGlyph {
    let mut bitmap = Vec::new();
    for i in 0..(width * rows) {
        bitmap.push((i % 251 + 1) as u8);
    }
    RasterizedGlyph { codepoint: c, width, rows, bitmap, bearing_left, bearing_top, advance_64 }
}

/// Two glyphs at pixel size 8: the width heuristic gives
/// max(16, ceil_sqrt(2 * 64)) = 16, so both sit on the first shelf.
fn small_glyphs() -> Vec<RasterizedGlyph> {
    vec![
        glyph('A', 3, 4, 0, 4, 256),
        glyph('C', 2, 3, 1, 3, 192),
    ]
}

#[test]
fn pack_two_glyphs_on_one_shelf() {
    let glyphs = small_glyphs();
    let packed = pack(&glyphs, 8).unwrap();
    assert_eq!(packed.width, 16);
    assert_eq!(packed.height, 8);
    assert_eq!(packed.buffer.len(), 16 * 8);
    assert_eq!(packed.rects.len(), 2);
    // 'A' lands after its 2-pixel margin; 'C' after A's end plus a margin.
    let a = packed.rects[0];
    let c = packed.rects[1];
    assert_eq!((a.x, a.y, a.w, a.h), (2, 0, 3, 4));
    assert_eq!((c.x, c.y, c.w, c.h), (7, 0, 2, 3));
}

#[test]
fn pack_copies_the_bitmaps() {
    let glyphs = small_glyphs();
    let packed = pack(&glyphs, 8).unwrap();
    let w = packed.width as usize;
    // Every pixel of each glyph sits at its rectangle.
    for (g, r) in glyphs.iter().zip(packed.rects.iter()) {
        for gy in 0..g.rows as usize {
            for gx in 0..g.width as usize {
                let src = g.bitmap[gy * g.width as usize + gx];
                let dst = packed.buffer[(r.y as usize + gy) * w + r.x as usize + gx];
                assert_eq!(src, dst);
            }
        }
    }
    // The margins between and around the glyphs are blank.
    assert_eq!(packed.buffer[0], 0);
    assert_eq!(packed.buffer[5], 0);
    assert_eq!(packed.buffer[6], 0);
    assert_eq!(packed.buffer[7 * 16], 0);
}

#[test]
fn pack_wraps_to_a_new_shelf() {
    // Two 8-pixel-wide glyphs cannot share a 16-pixel row once margins are
    // counted: the second wraps below the first.
    let glyphs = vec![
        glyph('a', 8, 2, 0, 2, 512),
        glyph('b', 8, 2, 0, 2, 512),
    ];
    let packed = pack(&glyphs, 8).unwrap();
    assert_eq!(packed.width, 16);
    let a = packed.rects[0];
    let b = packed.rects[1];
    assert_eq!((a.x, a.y, a.w, a.h), (2, 0, 8, 2));
    assert_eq!((b.x, b.y, b.w, b.h), (0, 4, 8, 2));
    assert_eq!(packed.height, 8);
}

#[test]
fn pack_rects_stay_disjoint_and_in_bounds() {
    let mut glyphs = Vec::new();
    let letters = ['a', 'b', 'c', 'd', 'e', 'f', 'g', 'h', 'i', 'j', 'k', 'l'];
    for (i, c) in letters.iter().enumerate() {
        let w = 1 + (i as u32 * 3) % 7;
        let h = 1 + (i as u32 * 5) % 6;
        glyphs.push(glyph(*c, w, h, 0, h as i32, 64 * (w as i64 + 1)));
    }
    let packed = pack(&glyphs, 4).unwrap();
    assert!(packed.width.is_power_of_two());
    assert!(packed.height.is_power_of_two());
    for r in packed.rects.iter() {
        assert!(r.x + r.w <= packed.width);
        assert!(r.y + r.h <= packed.height);
    }
    for i in 0..packed.rects.len() {
        for j in 0..i {
            let a = packed.rects[i];
            let b = packed.rects[j];
            let empty = a.w == 0 || a.h == 0 || b.w == 0 || b.h == 0;
            let apart = a.x + a.w <= b.x || b.x + b.w <= a.x || a.y + a.h <= b.y || b.y + b.h
                <= a.y;
            assert!(empty || apart);
        }
    }
}

#[test]
fn pack_rejects_a_glyph_wider_than_the_texture() {
    // Pixel size 1 gives a 2-pixel-wide texture; a 3-pixel glyph cannot fit.
    let glyphs = vec![glyph('w', 3, 1, 0, 1, 192)];
    let result = pack(&glyphs, 1);
    assert!(matches!(result, Err(PackError::PackingOverflow)));
}

#[test]
fn pack_accepts_a_zero_height_glyph() {
    let glyphs = vec![glyph(' ', 2, 0, 0, 0, 256), glyph('A', 3, 4, 0, 4, 256)];
    let packed = pack(&glyphs, 8).unwrap();
    let space = packed.rects[0];
    assert_eq!((space.w, space.h), (2, 0));
    // A zero-height glyph reserves no pixels and does not advance the
    // cursor, so 'A' starts one margin after the space's left edge.
    let a = packed.rects[1];
    assert_eq!((a.x, a.y, a.w, a.h), (4, 0, 3, 4));
}

#[test]
fn atlas_metrics_are_exact() {
    let atlas = FontAtlas::build(&small_glyphs(), 8).unwrap();
    assert_eq!(atlas.width, 16);
    assert_eq!(atlas.height, 8);
    assert_eq!(atlas.em_pixels(), 8);
    let a = atlas.lookup('A').unwrap();
    assert_eq!((a.tex_x, a.tex_y, a.tex_w, a.tex_h), (2, 0, 3, 4));
    assert_eq!(a.left_pad_64, 0);
    assert_eq!(a.right_pad_64, 256 - 3 * 64 - 0);
    assert_eq!(a.baseline_64, 4 * 64);
    let c = atlas.lookup('C').unwrap();
    assert_eq!((c.tex_x, c.tex_y, c.tex_w, c.tex_h), (7, 0, 2, 3));
    assert_eq!(c.left_pad_64, 64);
    assert_eq!(c.right_pad_64, 192 - 2 * 64 - 64);
    assert_eq!(c.baseline_64, 3 * 64);
    assert!(atlas.lookup('B').is_none());
}

#[test]
fn atlas_em_comes_from_capital_m() {
    let glyphs = vec![glyph('M', 5, 7, 0, 7, 384), glyph('A', 3, 4, 0, 4, 256)];
    let atlas = FontAtlas::build(&glyphs, 8).unwrap();
    assert_eq!(atlas.em_pixels(), 7);
}

#[test]
fn atlas_em_falls_back_to_the_requested_size() {
    let atlas = FontAtlas::build(&small_glyphs(), 9).unwrap();
    assert_eq!(atlas.em_pixels(), 9);
}

#[test]
fn atlas_footprints_stay_within_the_texture() {
    let atlas = FontAtlas::build(&small_glyphs(), 8).unwrap();
    for (_, info) in atlas.chars.iter() {
        assert!(info.tex_x + info.tex_w <= atlas.width);
        assert!(info.tex_y + info.tex_h <= atlas.height);
    }
}

#[test]
fn atlas_build_is_deterministic() {
    let a1 = FontAtlas::build(&small_glyphs(), 8).unwrap();
    let a2 = FontAtlas::build(&small_glyphs(), 8).unwrap();
    assert_eq!(a1.chars, a2.chars);
    assert_eq!(a1.buffer, a2.buffer);
    assert_eq!(a1.width, a2.width);
    assert_eq!(a1.height, a2.height);
    assert_eq!(a1.em_pixels(), a2.em_pixels());
}

#[test]
fn atlas_build_surfaces_packing_overflow() {
    let glyphs = vec![glyph('w', 3, 1, 0, 1, 192)];
    let result = FontAtlas::build(&glyphs, 1);
    assert!(matches!(result, Err(PackError::PackingOverflow)));
}
