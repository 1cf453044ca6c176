//! Locates a semantically-retrieved passage inside the glyph stream of a
//! document page and reconstructs the on-page rectangles that highlight it.
//!
//! The pipeline has four pure stages, run in order:
//! normalization ([`normalize`]), fuzzy span location ([`fuzzy`]),
//! sentence-boundary snapping ([`snap`]) and bounding-box reconstruction
//! ([`rects`]). Each stage consumes only plain values, so the whole pipeline
//! is verified; reading the page and rendering the rectangles belong to the
//! callers.

pub mod chunk;
pub mod fuzzy;
pub mod jaro;
pub mod normalize;
pub mod pipeline;
pub mod rects;
pub mod score;
pub mod snap;
