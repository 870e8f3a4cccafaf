//! The options that steer formatting.
use vstd::prelude::*;
use crate::text_align::Style;

verus! {

/// What the formatter does to a diagram.
#[derive(Debug, Clone, Copy)]
pub struct Options {
    /// Grid column width; a value above 2 replaces the width found in the diagram.
    pub width: usize,
    /// How text inside lines is aligned.
    pub style: Style,
    /// Convert ASCII pseudo-graphics to box-drawing glyphs.
    pub fix_box_drawing: bool,
    /// Shrink overflowing box lines and normalize trailing whitespace.
    pub fix_whitespace: bool,
    /// Keep empty and whitespace-only lines in the output.
    pub preserve_empty_lines: bool,
    /// Show the result instead of writing it.
    pub dry_run: bool,
    /// Report progress on standard error.
    pub verbose: bool,
}

} // verus!
