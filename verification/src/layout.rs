//! Single-line text layout over a font atlas.
//!
//! A layout walks the text's codepoints left to right with a cursor that
//! starts at zero, in 1/64-pixel units.  Every codepoint the atlas knows
//! contributes one quad — four vertices and six indices forming two
//! triangles — and moves the cursor by its full advance.  A codepoint the
//! atlas does not know contributes nothing and leaves the cursor where it
//! was.  Alongside the mesh, the layout records a cursor-advance table with
//! one entry per encoded UTF-8 byte (plus a leading zero), so that caret
//! placement can index it by byte offset; `total_width` is its last entry.
//!
//! The whole layout is a function of the atlas table and the text
//! (`layout_chars`); `set_text` produces exactly that model.

use vstd::prelude::*;
use vstd::string::StrSliceExecFns;

use crate::atlas::{advance_64_of, spec_lookup, wf_entry, CharacterInfo, FontAtlas};

verus! {

/// One mesh vertex: a position in 1/64 pixel (x right, y up from the
/// baseline) and a texel position in pixels.  A renderer divides the
/// position by `64 * em_pixels` and the texel by the atlas dimensions.
#[derive(Clone, Copy, Debug, PartialEq, Eq, Structural)]
pub struct Vertex {
    /// Horizontal position, in 1/64 pixel from the line origin.
    pub x_64: i64,
    /// Vertical position, in 1/64 pixel above the baseline.
    pub y_64: i64,
    /// Horizontal texel coordinate, in pixels.
    pub tex_x: u32,
    /// Vertical texel coordinate, in pixels.
    pub tex_y: u32,
}

/// The mathematical counterpart of a `Vertex`.
pub ghost struct VertexModel {
    pub x: int,
    pub y: int,
    pub tx: int,
    pub ty: int,
}

impl View for Vertex {
    type V = VertexModel;

    open spec fn view(&self) -> VertexModel {
        VertexModel {
            x: self.x_64 as int,
            y: self.y_64 as int,
            tx: self.tex_x as int,
            ty: self.tex_y as int,
        }
    }
}

/// How many bytes UTF-8 spends on codepoint `c`.
pub open spec fn spec_utf8_len(c: char) -> int {
    if (c as u32) < 0x80 {
        1
    } else if (c as u32) < 0x800 {
        2
    } else if (c as u32) < 0x1_0000 {
        3
    } else {
        4
    }
}

/// The total UTF-8 byte length of `s`.
pub open spec fn utf8_total(s: Seq<char>) -> int
    decreases s.len(),
{
    if s.len() == 0 {
        0
    } else {
        utf8_total(s.drop_last()) + spec_utf8_len(s.last())
    }
}

/// How many codepoints of `s` the atlas table `chars` knows.
pub open spec fn mapped_count(chars: Seq<(char, CharacterInfo)>, s: Seq<char>) -> int
    decreases s.len(),
{
    if s.len() == 0 {
        0
    } else {
        mapped_count(chars, s.drop_last()) + if spec_lookup(chars, s.last()) is Some {
            1int
        } else {
            0int
        }
    }
}

/// The layout state after some prefix of the text.
pub ghost struct LayoutState {
    /// Four vertices per quad, in emission order.
    pub vertices: Seq<VertexModel>,
    /// Six indices per quad: two triangles.
    pub indices: Seq<int>,
    /// The advance table so far; starts as `[0]`.
    pub table: Seq<int>,
    /// The pen position, in 1/64 pixel.
    pub cursor: int,
}

/// `n` copies of `v`.
pub open spec fn repeat_int(v: int, n: int) -> Seq<int> {
    Seq::new(n as nat, |i: int| v)
}

/// The four vertices of the quad for `info` at pen position `cursor`.
pub open spec fn quad_vertices(info: CharacterInfo, cursor: int) -> Seq<VertexModel> {
    let left = cursor + info.left_pad_64;
    let right = left + 64 * info.tex_w;
    let top = info.baseline_64 as int;
    let bottom = info.baseline_64 - 64 * info.tex_h;
    seq![
        VertexModel { x: left, y: top, tx: info.tex_x as int, ty: info.tex_y as int },
        VertexModel { x: right, y: top, tx: info.tex_x + info.tex_w, ty: info.tex_y as int },
        VertexModel { x: left, y: bottom, tx: info.tex_x as int, ty: info.tex_y + info.tex_h },
        VertexModel {
            x: right,
            y: bottom,
            tx: info.tex_x + info.tex_w,
            ty: info.tex_y + info.tex_h,
        },
    ]
}

/// The six indices of the quad whose first vertex is `base`: two triangles.
pub open spec fn quad_indices(base: int) -> Seq<int> {
    seq![base, base + 1, base + 2, base + 2, base + 1, base + 3]
}

/// The state before any codepoint: no mesh, table `[0]`, pen at zero.
pub open spec fn layout_init() -> LayoutState {
    LayoutState { vertices: Seq::empty(), indices: Seq::empty(), table: seq![0int], cursor: 0 }
}

/// One layout step.  A known codepoint emits its quad and advances the
/// pen; either way the table gains one entry per encoded byte, holding the
/// pen position after the codepoint.
pub open spec fn layout_step(st: LayoutState, chars: Seq<(char, CharacterInfo)>, c: char) -> LayoutState {
    match spec_lookup(chars, c) {
        Option::None => LayoutState {
            table: st.table + repeat_int(st.cursor, spec_utf8_len(c)),
            ..st
        },
        Option::Some(info) => {
            let nc = st.cursor + advance_64_of(info);
            LayoutState {
                vertices: st.vertices + quad_vertices(info, st.cursor),
                indices: st.indices + quad_indices(st.vertices.len() as int),
                table: st.table + repeat_int(nc, spec_utf8_len(c)),
                cursor: nc,
            }
        },
    }
}

/// The layout of text `s` over atlas table `chars`, as a function of both
/// alone.
pub open spec fn layout_chars(chars: Seq<(char, CharacterInfo)>, s: Seq<char>) -> LayoutState
    decreases s.len(),
{
    if s.len() == 0 {
        layout_init()
    } else {
        layout_step(layout_chars(chars, s.drop_last()), chars, s.last())
    }
}

/// Shape facts of every layout: quad counts, table length, and the pen
/// position standing in the table's last entry.
pub proof fn lemma_layout_shape(chars: Seq<(char, CharacterInfo)>, s: Seq<char>)
    ensures
        ({
            let m = layout_chars(chars, s);
            &&& m.vertices.len() == 4 * mapped_count(chars, s)
            &&& m.indices.len() == 6 * mapped_count(chars, s)
            &&& m.table.len() == 1 + utf8_total(s)
            &&& utf8_total(s) >= s.len()
            &&& m.table[0] == 0
            &&& m.table.last() == m.cursor
            &&& 0 <= mapped_count(chars, s) <= s.len()
        }),
    decreases s.len(),
{
    if s.len() > 0 {
        lemma_layout_shape(chars, s.drop_last());
    }
}

/// The pen never strays farther than the sum of the advances: with every
/// advance bounded, the pen and every table entry are bounded by text
/// length times that bound.
pub proof fn lemma_layout_bounds(chars: Seq<(char, CharacterInfo)>, s: Seq<char>)
    requires
        forall|i: int|
            0 <= i < chars.len() ==> -0x4000_0000 <= advance_64_of(
                (#[trigger] chars[i]).1,
            ) <= 0x4000_0000,
    ensures
        ({
            let m = layout_chars(chars, s);
            &&& -0x4000_0000 * s.len() <= m.cursor <= 0x4000_0000 * s.len()
            &&& forall|k: int|
                0 <= k < m.table.len() ==> -0x4000_0000 * s.len() <= #[trigger] m.table[k]
                    <= 0x4000_0000 * s.len()
        }),
    decreases s.len(),
{
    let m = layout_chars(chars, s);
    if s.len() == 0 {
    } else {
        let prefix = s.drop_last();
        let pm = layout_chars(chars, prefix);
        lemma_layout_bounds(chars, prefix);
        assert(0x4000_0000 * prefix.len() + 0x4000_0000 == 0x4000_0000 * s.len());
        if spec_lookup(chars, s.last()) is Some {
            let info = spec_lookup(chars, s.last())->Some_0;
            crate::atlas::lemma_spec_lookup_mem(chars, s.last());
            assert(-0x4000_0000 <= advance_64_of(info) <= 0x4000_0000);
        }
        assert forall|k: int|
            0 <= k < m.table.len() implies -0x4000_0000 * s.len() <= #[trigger] m.table[k]
            <= 0x4000_0000 * s.len() by {
            if k < pm.table.len() {
                assert(pm.table[k] == m.table[k]);
            }
        }
    }
}

/// When every codepoint of the text is in the atlas, the layout has one
/// quad per codepoint: `4 n` vertices and `6 n` indices.
pub proof fn lemma_full_coverage(chars: Seq<(char, CharacterInfo)>, s: Seq<char>)
    requires
        forall|j: int| 0 <= j < s.len() ==> spec_lookup(chars, #[trigger] s[j]) is Some,
    ensures
        mapped_count(chars, s) == s.len(),
        layout_chars(chars, s).vertices.len() == 4 * s.len(),
        layout_chars(chars, s).indices.len() == 6 * s.len(),
    decreases s.len(),
{
    lemma_layout_shape(chars, s);
    if s.len() > 0 {
        assert(s.last() == s[s.len() - 1]);
        lemma_full_coverage(chars, s.drop_last());
    }
}

/// The visible part of two layout states agrees: same mesh, same pen.
pub open spec fn visual_eq(a: LayoutState, b: LayoutState) -> bool {
    &&& a.vertices == b.vertices
    &&& a.indices == b.indices
    &&& a.cursor == b.cursor
}

/// A step on visually equal states keeps them visually equal.
proof fn lemma_step_visual(a: LayoutState, b: LayoutState, chars: Seq<(char, CharacterInfo)>, c: char)
    requires
        visual_eq(a, b),
    ensures
        visual_eq(layout_step(a, chars, c), layout_step(b, chars, c)),
{
}

/// A codepoint absent from the atlas is invisible: dropping it from the
/// text changes neither the mesh nor any pen position, so the following
/// quads close up as if it had not been there.
pub proof fn lemma_skipped_char(
    chars: Seq<(char, CharacterInfo)>,
    before: Seq<char>,
    c: char,
    after: Seq<char>,
)
    requires
        spec_lookup(chars, c) is None,
    ensures
        visual_eq(
            layout_chars(chars, before + seq![c] + after),
            layout_chars(chars, before + after),
        ),
    decreases after.len(),
{
    if after.len() == 0 {
        assert(before + seq![c] + after =~= before + seq![c]);
        assert((before + seq![c]).drop_last() =~= before);
        assert((before + seq![c]).last() == c);
        assert(before + after =~= before);
    } else {
        let shorter = after.drop_last();
        let d = after.last();
        lemma_skipped_char(chars, before, c, shorter);
        assert((before + seq![c] + after).drop_last() =~= before + seq![c] + shorter);
        assert((before + seq![c] + after).last() == d);
        assert((before + after).drop_last() =~= before + shorter);
        assert((before + after).last() == d);
        lemma_step_visual(
            layout_chars(chars, before + seq![c] + shorter),
            layout_chars(chars, before + shorter),
            chars,
            d,
        );
    }
}

/// UTF-8 byte length of one codepoint.
pub fn utf8_len(c: char) -> (n: usize)
    ensures
        n == spec_utf8_len(c),
{
    let u: u32 = c as u32;
    if u < 0x80 {
        1
    } else if u < 0x800 {
        2
    } else if u < 0x1_0000 {
        3
    } else {
        4
    }
}

/// The view of a vertex buffer.
pub open spec fn vertices_view(s: Seq<Vertex>) -> Seq<VertexModel> {
    s.map_values(|v: Vertex| v@)
}

/// The view of a `u16` index buffer.
pub open spec fn indices_view(s: Seq<u16>) -> Seq<int> {
    s.map_values(|x: u16| x as int)
}

/// The view of an `i64` advance table.
pub open spec fn table_view(s: Seq<i64>) -> Seq<int> {
    s.map_values(|x: i64| x as int)
}

/// The mesh and advance table for one run of text over one atlas.
pub struct TextLayout {
    /// Four vertices per quad, in text order.
    pub vertices: Vec<Vertex>,
    /// Six indices per quad: two triangles.
    pub indices: Vec<u16>,
    /// Pen position before each UTF-8 byte of the text, and one trailing
    /// entry: the pen position after the whole text, in 1/64 pixel.
    pub char_pos_x: Vec<i64>,
    /// Whether the layout holds no quad at all.
    pub is_empty: bool,
}

/// What `set_text` establishes: the layout is exactly `layout_chars` over
/// the atlas table and the text.
pub open spec fn matches_layout(l: TextLayout, chars: Seq<(char, CharacterInfo)>, s: Seq<char>) -> bool {
    let m = layout_chars(chars, s);
    &&& vertices_view(l.vertices@) == m.vertices
    &&& indices_view(l.indices@) == m.indices
    &&& table_view(l.char_pos_x@) == m.table
    &&& l.is_empty == (m.vertices.len() == 0)
}

impl TextLayout {
    /// Lay out `text` over `atlas`.
    pub fn new(atlas: &FontAtlas, text: &str) -> (l: TextLayout)
        requires
            atlas.wf(),
            text@.len() <= 0x3FFF,
        ensures
            matches_layout(l, atlas.chars@, text@),
            l.char_pos_x@.len() >= 1,
    {
        let mut l = TextLayout {
            vertices: Vec::new(),
            indices: Vec::new(),
            char_pos_x: Vec::new(),
            is_empty: true,
        };
        l.set_text(atlas, text);
        l
    }

    /// Replace this layout with the layout of `text` over `atlas`.
    ///
    /// The text may hold at most 16383 codepoints so that every quad's
    /// vertices stay addressable by the 16-bit index buffer.
    #[verifier::loop_isolation(false)]
    pub fn set_text(&mut self, atlas: &FontAtlas, text: &str)
        requires
            atlas.wf(),
            text@.len() <= 0x3FFF,
        ensures
            matches_layout(*final(self), atlas.chars@, text@),
            final(self).char_pos_x@.len() >= 1,
    {
        self.vertices = Vec::new();
        self.indices = Vec::new();
        self.char_pos_x = Vec::new();
        self.char_pos_x.push(0);
        self.is_empty = true;
        let n: usize = text.unicode_len();
        let mut cursor: i64 = 0;
        let mut i: usize = 0;
        proof {
            assert(text@.take(0) =~= Seq::<char>::empty());
            assert(vertices_view(self.vertices@) =~= layout_init().vertices);
            assert(indices_view(self.indices@) =~= layout_init().indices);
            assert(table_view(self.char_pos_x@) =~= layout_init().table);
        }
        while i < n
            invariant
                i <= n,
                vertices_view(self.vertices@) == layout_chars(
                    atlas.chars@,
                    text@.take(i as int),
                ).vertices,
                indices_view(self.indices@) == layout_chars(
                    atlas.chars@,
                    text@.take(i as int),
                ).indices,
                table_view(self.char_pos_x@) == layout_chars(
                    atlas.chars@,
                    text@.take(i as int),
                ).table,
                cursor as int == layout_chars(atlas.chars@, text@.take(i as int)).cursor,
                self.is_empty == (layout_chars(atlas.chars@, text@.take(i as int)).vertices.len()
                    == 0),
            decreases n - i,
        {
            let ghost pre = layout_chars(atlas.chars@, text@.take(i as int));
            proof {
                lemma_layout_shape(atlas.chars@, text@.take(i as int));
                lemma_layout_bounds(atlas.chars@, text@.take(i as int));
                assert(text@.take(i as int + 1).drop_last() =~= text@.take(i as int));
                assert(text@.take(i as int + 1).last() == text@[i as int]);
            }
            let c: char = text.get_char(i);
            let ghost post = layout_chars(atlas.chars@, text@.take(i as int + 1));
            match atlas.lookup(c) {
                Option::None => {
                },
                Option::Some(info) => {
                    proof {
                        crate::atlas::lemma_spec_lookup_mem(atlas.chars@, c);
                        assert(spec_lookup(atlas.chars@, c)->Some_0 == *info);
                        let widx = choose|ii: int|
                            0 <= ii < atlas.chars@.len() && atlas.chars@[ii] == (c, *info);
                        assert(wf_entry(
                            atlas.chars@[widx].1,
                            atlas.width as int,
                            atlas.height as int,
                        ));
                        assert(wf_entry(*info, atlas.width as int, atlas.height as int));
                    }
                    let left: i64 = cursor + info.left_pad_64;
                    let right: i64 = left + 64 * (info.tex_w as i64);
                    let top: i64 = info.baseline_64;
                    let bottom: i64 = info.baseline_64 - 64 * (info.tex_h as i64);
                    let base: u16 = self.vertices.len() as u16;
                    self.indices.push(base);
                    self.indices.push(base + 1);
                    self.indices.push(base + 2);
                    self.indices.push(base + 2);
                    self.indices.push(base + 1);
                    self.indices.push(base + 3);
                    self.vertices.push(
                        Vertex { x_64: left, y_64: top, tex_x: info.tex_x, tex_y: info.tex_y },
                    );
                    self.vertices.push(
                        Vertex {
                            x_64: right,
                            y_64: top,
                            tex_x: info.tex_x + info.tex_w,
                            tex_y: info.tex_y,
                        },
                    );
                    self.vertices.push(
                        Vertex {
                            x_64: left,
                            y_64: bottom,
                            tex_x: info.tex_x,
                            tex_y: info.tex_y + info.tex_h,
                        },
                    );
                    self.vertices.push(
                        Vertex {
                            x_64: right,
                            y_64: bottom,
                            tex_x: info.tex_x + info.tex_w,
                            tex_y: info.tex_y + info.tex_h,
                        },
                    );
                    cursor = cursor + (info.left_pad_64 + 64 * (info.tex_w as i64)
                        + info.right_pad_64);
                    self.is_empty = false;
                    proof {
                        assert(vertices_view(self.vertices@) =~= pre.vertices + quad_vertices(
                            *info,
                            pre.cursor,
                        ));
                        assert(indices_view(self.indices@) =~= pre.indices + quad_indices(
                            pre.vertices.len() as int,
                        ));
                    }
                },
            }
            let k: usize = utf8_len(c);
            let ghost table_mid = self.char_pos_x@;
            let ghost vsnap = self.vertices@;
            let ghost isnap = self.indices@;
            let ghost esnap = self.is_empty;
            let mut j: usize = 0;
            while j < k
                invariant
                    j <= k,
                    self.char_pos_x@ == table_mid + Seq::new(j as nat, |x: int| cursor),
                    self.vertices@ == vsnap,
                    self.indices@ == isnap,
                    self.is_empty == esnap,
                decreases k - j,
            {
                self.char_pos_x.push(cursor);
                proof {
                    assert(table_mid + Seq::new(j as nat + 1, |x: int| cursor) =~= (table_mid
                        + Seq::new(j as nat, |x: int| cursor)).push(cursor));
                }
                j = j + 1;
            }
            i = i + 1;
            proof {
                assert(post == layout_step(pre, atlas.chars@, c));
                assert(table_view(self.char_pos_x@) =~= pre.table + repeat_int(
                    cursor as int,
                    spec_utf8_len(c),
                ));
                assert(vertices_view(self.vertices@) == post.vertices);
                assert(indices_view(self.indices@) == post.indices);
                assert(table_view(self.char_pos_x@) == post.table);
                assert(cursor as int == post.cursor);
                assert(self.is_empty == (post.vertices.len() == 0));
            }
        }
        proof {
            assert(text@.take(n as int) =~= text@);
            lemma_layout_shape(atlas.chars@, text@);
        }
    }

    /// The advance table: the pen position before each UTF-8 byte of the
    /// text, and one trailing entry after the whole text, in 1/64 pixel.
    pub fn get_char_pos_x(&self) -> (r: &Vec<i64>)
        ensures
            r == &self.char_pos_x,
    {
        &self.char_pos_x
    }

    /// The pen position after the whole text: the advance table's last
    /// entry, in 1/64 pixel.
    pub fn total_width(&self) -> (r: i64)
        requires
            self.char_pos_x@.len() >= 1,
        ensures
            r == self.char_pos_x@.last(),
    {
        self.char_pos_x[self.char_pos_x.len() - 1]
    }

    /// The pen position before byte `pos` of the text, clamped to the
    /// table's end: where a caret standing at byte offset `pos` is drawn.
    pub fn offset_at(&self, pos: usize) -> (r: i64)
        requires
            self.char_pos_x@.len() >= 1,
        ensures
            r == self.char_pos_x@[if pos < self.char_pos_x@.len() {
                pos as int
            } else {
                self.char_pos_x@.len() - 1
            }],
    {
        let last: usize = self.char_pos_x.len() - 1;
        let clamped: usize = if pos < last {
            pos
        } else {
            last
        };
        self.char_pos_x[clamped]
    }
}

/// The distance between two integers.
pub open spec fn dist(a: int, b: int) -> int {
    if a >= b {
        a - b
    } else {
        b - a
    }
}

impl TextLayout {
    /// Hit testing: the index of the advance-table entry nearest to pixel
    /// position `px_64` (in 1/64 pixel) — the byte offset a click at that
    /// position selects.  Of equally near entries, the first wins.
    #[verifier::loop_isolation(false)]
    pub fn nearest_index(&self, px_64: i64) -> (idx: usize)
        requires
            self.char_pos_x@.len() >= 1,
            forall|k: int|
                0 <= k < self.char_pos_x@.len() ==> -0x1000_0000_0000_0000 <= #[trigger] self.char_pos_x@[k] <= 0x1000_0000_0000_0000,
            -0x1000_0000_0000_0000 <= px_64 <= 0x1000_0000_0000_0000,
        ensures
            idx < self.char_pos_x@.len(),
            forall|k: int|
                0 <= k < self.char_pos_x@.len() ==> dist(self.char_pos_x@[idx as int] as int, px_64 as int)
                    <= dist(#[trigger] self.char_pos_x@[k] as int, px_64 as int),
            forall|k: int|
                0 <= k < idx ==> dist(#[trigger] self.char_pos_x@[k] as int, px_64 as int) > dist(
                    self.char_pos_x@[idx as int] as int,
                    px_64 as int,
                ),
    {
        let first: i64 = self.char_pos_x[0];
        let mut best: usize = 0;
        let mut best_d: i64 = if first >= px_64 {
            first - px_64
        } else {
            px_64 - first
        };
        let mut k: usize = 1;
        while k < self.char_pos_x.len()
            invariant
                1 <= k <= self.char_pos_x@.len(),
                best < k,
                best_d == dist(self.char_pos_x@[best as int] as int, px_64 as int),
                forall|j: int|
                    0 <= j < k ==> dist(#[trigger] self.char_pos_x@[j] as int, px_64 as int) >= best_d,
                forall|j: int| 0 <= j < best ==> dist(#[trigger] self.char_pos_x@[j] as int, px_64 as int) > best_d,
            decreases self.char_pos_x@.len() - k,
        {
            let e: i64 = self.char_pos_x[k];
            let d: i64 = if e >= px_64 {
                e - px_64
            } else {
                px_64 - e
            };
            if d < best_d {
                best = k;
                best_d = d;
            }
            k = k + 1;
        }
        best
    }
}

/// With every advance non-negative, the pen only moves right: the total
/// width and every advance-table entry are non-negative.
pub proof fn lemma_width_nonneg(chars: Seq<(char, CharacterInfo)>, s: Seq<char>)
    requires
        forall|i: int| 0 <= i < chars.len() ==> advance_64_of((#[trigger] chars[i]).1) >= 0,
    ensures
        layout_chars(chars, s).cursor >= 0,
        forall|k: int|
            0 <= k < layout_chars(chars, s).table.len() ==> #[trigger] layout_chars(
                chars,
                s,
            ).table[k] >= 0,
    decreases s.len(),
{
    let m = layout_chars(chars, s);
    if s.len() > 0 {
        let prefix = s.drop_last();
        let pm = layout_chars(chars, prefix);
        lemma_width_nonneg(chars, prefix);
        if spec_lookup(chars, s.last()) is Some {
            crate::atlas::lemma_spec_lookup_mem(chars, s.last());
        }
        assert forall|k: int| 0 <= k < m.table.len() implies #[trigger] m.table[k] >= 0 by {
            if k < pm.table.len() {
                assert(pm.table[k] == m.table[k]);
            }
        }
    }
}

} // verus!
