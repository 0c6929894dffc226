use text_atlas::atlas::FontAtlas;
use text_atlas::glyph::RasterizedGlyph;
use text_atlas::layout::TextLayout;
use text_atlas::line::Line;

fn glyph(c: char, width: u32, rows: u32, bearing_left: i32, bearing_top: i32, advance_64: i64) -> RasterizedGlyph {
    let mut bitmap = Vec::new();
    for i in 0..(width * rows) {
        bitmap.push((i % 251 + 1) as u8);
    }
    RasterizedGlyph { codepoint: c, width, rows, bitmap, bearing_left, bearing_top, advance_64 }
}

/// An atlas over {A, C, é} at pixel size 8; texture 16 x 8.
/// 'A': footprint (2,0,3,4), no left bearing, advance 4 px.
/// 'C': footprint (7,0,2,3), left bearing 1 px, advance 3 px.
/// 'é': footprint (11,0,2,3), no left bearing, advance 2 px.
fn test_atlas() -> FontAtlas {
    let glyphs = vec![
        glyph('A', 3, 4, 0, 4, 256),
        glyph('C', 2, 3, 1, 3, 192),
        glyph('\u{e9}', 2, 3, 0, 3, 128),
    ];
    FontAtlas::build(&glyphs, 8).unwrap()
}

#[test]
fn empty_text_yields_an_empty_layout() {
    let atlas = test_atlas();
    let layout = TextLayout::new(&atlas, "");
    assert!(layout.is_empty);
    assert_eq!(layout.vertices.len(), 0);
    assert_eq!(layout.indices.len(), 0);
    assert_eq!(layout.char_pos_x, vec![0]);
    assert_eq!(layout.total_width(), 0);
}

#[test]
fn fully_covered_text_has_one_quad_per_character() {
    let atlas = test_atlas();
    let layout = TextLayout::new(&atlas, "ACA");
    assert!(!layout.is_empty);
    assert_eq!(layout.vertices.len(), 4 * 3);
    assert_eq!(layout.indices.len(), 6 * 3);
}

#[test]
fn layout_positions_are_exact() {
    let atlas = test_atlas();
    let layout = TextLayout::new(&atlas, "AC");
    // 'A' at pen 0: quad spans x in [0, 192], y in [0, 256].
    let a_tl = layout.vertices[0];
    let a_br = layout.vertices[3];
    assert_eq!((a_tl.x_64, a_tl.y_64), (0, 256));
    assert_eq!((a_br.x_64, a_br.y_64), (192, 0));
    assert_eq!((a_tl.tex_x, a_tl.tex_y), (2, 0));
    assert_eq!((a_br.tex_x, a_br.tex_y), (5, 4));
    // 'C' starts at pen 256 plus its 1-pixel left bearing.
    let c_tl = layout.vertices[4];
    let c_br = layout.vertices[7];
    assert_eq!((c_tl.x_64, c_tl.y_64), (320, 192));
    assert_eq!((c_br.x_64, c_br.y_64), (448, 0));
    assert_eq!((c_tl.tex_x, c_tl.tex_y), (7, 0));
    assert_eq!((c_br.tex_x, c_br.tex_y), (9, 3));
    // Two triangles per quad.
    assert_eq!(layout.indices, vec![0, 1, 2, 2, 1, 3, 4, 5, 6, 6, 5, 7]);
    // One advance entry per byte, plus the leading zero.
    assert_eq!(layout.get_char_pos_x(), &vec![0, 256, 448]);
    assert_eq!(layout.total_width(), 448);
}

#[test]
fn unknown_character_leaves_no_gap() {
    let atlas = test_atlas();
    let with_b = TextLayout::new(&atlas, "ABC");
    let without_b = TextLayout::new(&atlas, "AC");
    // 'B' is not in the atlas: 2 quads, and C sits right after A.
    assert_eq!(with_b.vertices.len(), 8);
    assert_eq!(with_b.vertices, without_b.vertices);
    assert_eq!(with_b.indices, without_b.indices);
    assert_eq!(with_b.total_width(), without_b.total_width());
    // The skipped byte still gets its table entry, repeating the pen
    // position.
    assert_eq!(with_b.char_pos_x, vec![0, 256, 256, 448]);
}

#[test]
fn multi_byte_characters_fill_the_table_per_byte() {
    let atlas = test_atlas();
    // 'é' is two UTF-8 bytes and advances the pen by 128.
    let layout = TextLayout::new(&atlas, "\u{e9}A");
    assert_eq!(layout.char_pos_x, vec![0, 128, 128, 384]);
    assert_eq!(layout.total_width(), 384);
}

#[test]
fn skipped_multi_byte_character_repeats_the_pen_position() {
    let atlas = test_atlas();
    // '猫' (3 bytes) is not in the atlas.
    let layout = TextLayout::new(&atlas, "A\u{732b}C");
    assert_eq!(layout.vertices.len(), 8);
    assert_eq!(layout.char_pos_x, vec![0, 256, 256, 256, 256, 448]);
}

#[test]
fn text_of_only_unknown_characters_is_empty() {
    let atlas = test_atlas();
    let layout = TextLayout::new(&atlas, "xyz");
    assert!(layout.is_empty);
    assert_eq!(layout.vertices.len(), 0);
    assert_eq!(layout.char_pos_x, vec![0, 0, 0, 0]);
    assert_eq!(layout.total_width(), 0);
}

#[test]
fn total_width_is_the_last_table_entry_and_non_negative() {
    let atlas = test_atlas();
    for text in ["", "A", "AC", "ABC", "zzz", "\u{e9}\u{e9}"] {
        let layout = TextLayout::new(&atlas, text);
        assert_eq!(layout.total_width(), *layout.char_pos_x.last().unwrap());
        assert!(layout.total_width() >= 0);
    }
}

#[test]
fn set_text_replaces_the_previous_layout() {
    let atlas = test_atlas();
    let mut layout = TextLayout::new(&atlas, "AC");
    layout.set_text(&atlas, "A");
    assert_eq!(layout.vertices.len(), 4);
    assert_eq!(layout.char_pos_x, vec![0, 256]);
    assert_eq!(layout.total_width(), 256);
}

#[test]
fn offset_at_clamps_to_the_table_end() {
    let atlas = test_atlas();
    let layout = TextLayout::new(&atlas, "AC");
    assert_eq!(layout.offset_at(0), 0);
    assert_eq!(layout.offset_at(1), 256);
    assert_eq!(layout.offset_at(2), 448);
    assert_eq!(layout.offset_at(99), 448);
}

#[test]
fn nearest_index_finds_the_closest_entry() {
    let atlas = test_atlas();
    let layout = TextLayout::new(&atlas, "AC");
    // Table is [0, 256, 448].
    assert_eq!(layout.nearest_index(-5), 0);
    assert_eq!(layout.nearest_index(100), 0);
    assert_eq!(layout.nearest_index(300), 1);
    assert_eq!(layout.nearest_index(440), 2);
    assert_eq!(layout.nearest_index(100_000), 2);
}

#[test]
fn nearest_index_prefers_the_first_of_a_tie() {
    let atlas = test_atlas();
    let layout = TextLayout::new(&atlas, "AC");
    // 352 is equally far from 256 and 448.
    assert_eq!(layout.nearest_index(352), 1);
    // 128 is equally far from 0 and 256.
    assert_eq!(layout.nearest_index(128), 0);
}

#[test]
fn placeholder_line_has_no_annotations() {
    let line = Line::placeholder();
    assert_eq!(line.text, ">>> NOT IN CACHE <<<");
    assert!(line.cursor.is_none());
    assert!(line.selection.is_none());
}
