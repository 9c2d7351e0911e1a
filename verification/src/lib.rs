//! Codec for packed glyph atlases: decodes a pixel buffer into framed
//! glyph boxes with typographic metadata, and composes such glyphs back
//! into a single atlas buffer that round-trips through the decoder.

pub mod atlas;
pub mod bitmap;
pub mod dims;
pub mod index;
pub mod point;
