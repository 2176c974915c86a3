//! The seam between the tree walk and the markup: a renderer decides how a
//! tag opens and closes and how text is written; the walk decides which
//! nodes are visited, in what order.

use vstd::prelude::*;

use crate::renderable::Tag;

verus! {

/// Whether the walk descends into a tag the renderer just opened.
#[derive(Clone, Copy, Debug, PartialEq, Eq, Structural)]
#[non_exhaustive]
pub enum Children {
    /// Render the children, then close the tag.
    Render,
    /// Neither: a void element has no children and no closing tag.
    Skip,
}

/// Markup for a renderable tree.
///
/// Each method appends to `out`; the spec functions say what it appends, and
/// the walk's contract is stated over them.
pub trait TagRenderer {
    /// What `open` writes for `tag`, and whether its children follow.
    spec fn open_spec(&self, tag: Tag) -> (Seq<char>, Children);

    /// What `close` writes for `tag`.
    spec fn close_spec(&self, tag: Tag) -> Seq<char>;

    /// What `text` writes for `text`.
    spec fn text_spec(&self, text: Seq<char>) -> Seq<char>;

    /// Write a tag's opening.
    fn open(&self, out: &mut String, tag: &Tag) -> (c: Children)
        ensures
            final(out)@ == old(out)@ + self.open_spec(*tag).0,
            c == self.open_spec(*tag).1,
    ;

    /// Write a tag's closing.
    fn close(&self, out: &mut String, tag: &Tag)
        ensures
            final(out)@ == old(out)@ + self.close_spec(*tag),
    ;

    /// Write text.
    fn text(&self, out: &mut String, text: &str)
        ensures
            final(out)@ == old(out)@ + self.text_spec(text@),
    ;
}

} // verus!
