//! Font atlas construction and single-line text layout.
//!
//! Given a set of rasterized glyphs (grayscale bitmaps plus raw metrics in
//! pixel and 1/64-pixel units), this crate packs them into a single
//! power-of-two texture with a shelf strategy, records per-codepoint metrics,
//! and lays out runs of text as quad meshes with a per-byte cursor-advance
//! table.
//!
//! All quantities are kept in exact integer units: texture rectangles in
//! pixels, layout positions and advances in 1/64 pixel.  A renderer obtains
//! the conventional resolution-independent values by dividing texture
//! coordinates by the atlas width and height and layout coordinates by
//! `64 * em_pixels`; those divisions are the renderer's concern, not this
//! crate's.

pub mod atlas;
pub mod glyph;
pub mod layout;
pub mod line;
pub mod packer;
pub mod pow2;
pub mod sqrt;

pub use atlas::{CharacterInfo, FontAtlas};
pub use glyph::RasterizedGlyph;
pub use layout::{TextLayout, Vertex};
pub use line::Line;
pub use packer::{PackError, PackedAtlas, PackedRect};
pub use pow2::get_nearest_po2;
