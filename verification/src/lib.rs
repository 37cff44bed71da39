//! Decoders for the two OpenType tables a glyph rasterizer needs: the
//! character-to-glyph mapping (`cmap`, format 4) and the glyph outlines
//! (`glyf`, simple glyphs), together with the plain descriptions of GPU
//! state that the renderer hands to a graphics backend.

pub mod batch;
pub mod charmap;
pub mod gpu;
pub mod otf;
pub mod util;
