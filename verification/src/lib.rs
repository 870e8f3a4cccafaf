//! Post-processing of ASCII/Unicode diagrams: whitespace normalization,
//! conversion of ASCII pseudo-graphics to box-drawing glyphs, text alignment
//! and table layout, each step with a contract proved by Verus.
pub mod text;
pub mod display_width;
pub mod utils;
pub mod patterns;
pub mod error;
pub mod parser;
pub mod box_drawing;
pub mod grid;
pub mod text_align;
pub mod tables;
pub mod box_align_expand_temp;
pub mod cli;
pub mod formatter;
