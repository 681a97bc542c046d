//! Conversion of TrueType glyphs to packed bitmap fonts for small displays.
pub mod bit_pusher;
pub mod glyph;
pub mod engine;
pub mod font;
pub mod header;
mod freetype_calls;
pub mod selection;
mod compression;
