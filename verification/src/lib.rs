//! A library for rendering a byte stream as a color-coded textual dump.
//!
//! The pieces: a stack-based reverse-Polish calculator that maps each
//! displayed unit to a color-selection value, a gradient builder and palette
//! quantizer that turn a few anchor colors into a 256-entry color ramp, and a
//! streaming render engine that chunks the input, lays it out into glyphs,
//! words and lines, and emits ANSI-colored text.

pub mod calculator;
pub mod color;
pub mod render;
