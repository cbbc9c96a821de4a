//! CPU-side text layout primitives with machine-checked contracts.
//!
//! The library holds the integer logic of a 2D text pipeline: style
//! enumerations, the RGBA pixel buffer and its compositing kernel, the
//! extraction of single faces from TrueType collections, bidi visual-run
//! splitting, glyph coverage ranges for font fallback, and the line and
//! break-opportunity bookkeeping that positions shaped glyphs.

pub mod font_system;
pub mod image;
pub mod layout;
pub mod reorder;
pub mod shaping;
pub mod text_analysis;
pub mod types;
pub mod wrapping;

pub use types::{BidiMode, Color, Direction, FontStyle, FontVariant, FontWeight};
pub use font_system::PlatformFallback;
pub use image::RgbaImage;
pub use layout::{RasterizedGlyph, TextLayouter};
