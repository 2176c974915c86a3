//! How to print a tree.

use vstd::prelude::*;

verus! {

/// The width past which a block tag's opening is broken across lines.
pub const MAX_TAG_OPENING_WIDTH: usize = 80;

/// Whether a numbered list reprints its numbers or repeats the first one.
#[derive(Clone, Copy, Debug, PartialEq, Eq, Hash, Structural)]
#[non_exhaustive]
pub enum OrderedListMode {
    /// Print the list's start number on the first item and `1` on the rest.
    Repeat,
    /// Print consecutive numbers counting up from the list's start number.
    Increment,
}

impl Default for OrderedListMode {
    /// `Repeat`, the form that survives inserting an item in the middle.
    fn default() -> (m: OrderedListMode)
        ensures
            m == OrderedListMode::Repeat,
    {
        OrderedListMode::Repeat
    }
}

/// How to print a tree.
#[derive(Clone, Copy, Debug, PartialEq, Eq, Structural)]
#[non_exhaustive]
pub struct FormatOptions {
    /// The width past which a block tag's opening breaks across lines;
    /// `usize::MAX` switches breaking off.
    pub max_tag_opening_width: usize,
    /// Whether a numbered list reprints its numbers.
    pub ordered_list_mode: OrderedListMode,
}

impl FormatOptions {
    /// The defaults: width 80, numbers repeated.
    pub fn new() -> (o: FormatOptions)
        ensures
            o.max_tag_opening_width == MAX_TAG_OPENING_WIDTH,
            o.ordered_list_mode == OrderedListMode::Repeat,
    {
        FormatOptions {
            max_tag_opening_width: MAX_TAG_OPENING_WIDTH,
            ordered_list_mode: OrderedListMode::Repeat,
        }
    }

    /// Break a block tag's opening past `width` columns.
    pub fn max_tag_opening_width(self, width: usize) -> (o: FormatOptions)
        ensures
            o.max_tag_opening_width == width,
            o.ordered_list_mode == self.ordered_list_mode,
    {
        FormatOptions { max_tag_opening_width: width, ..self }
    }

    /// Print numbered lists in `mode`.
    pub fn ordered_list_mode(self, mode: OrderedListMode) -> (o: FormatOptions)
        ensures
            o.max_tag_opening_width == self.max_tag_opening_width,
            o.ordered_list_mode == mode,
    {
        FormatOptions { ordered_list_mode: mode, ..self }
    }
}

impl Default for FormatOptions {
    /// The same as [`FormatOptions::new`].
    fn default() -> (o: FormatOptions)
        ensures
            o.max_tag_opening_width == MAX_TAG_OPENING_WIDTH,
            o.ordered_list_mode == OrderedListMode::Repeat,
    {
        FormatOptions::new()
    }
}

} // verus!
