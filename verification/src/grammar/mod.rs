//! The tag-internals grammar: what appears between `{%` and `%}`.
//!
//! `peg.rs` states the grammar, one spec function per production; `cursor.rs`,
//! `value.rs` and `tag.rs` are the recursive-descent parser, each production
//! proved to return what the grammar says is at the cursor; `error.rs`
//! explains a failure in Markdoc's words.
//!
//! Three behaviours are easy to mistake for bugs and are none of them:
//!
//! - **The start rule must consume the whole body.** `foo=1a` does not fall
//!   back to a tag named `foo`; it fails.
//! - **A falsy primary value is parsed and dropped.** `{% foo 0 %}` is a tag
//!   with no attributes.
//! - **A `$$mdtype` hash key is discarded.** It is Markdoc's runtime type
//!   tag, and authored content must not forge one.

use vstd::prelude::*;

mod cursor;
mod error;
mod item;
pub mod peg;
mod tag;
mod value;

pub use cursor::{char_at_index, depth_message, error_at, lemma_matches_one, matches_at};
pub use error::{
    Expectation, TagError, build_message, describe_spec, descriptions, escape, escape_char_spec,
    escape_spec, expected_spec, found_spec, hex_upper, join_spec, lemma_lex_irreflexive,
    lemma_lex_total, lemma_lex_transitive, lemma_sorted_unique_is_unique, lex_lt, message_spec,
    sorted_descriptions, sorted_unique_of, strictly_sorted,
};
pub use item::{Attribute, SpecAttribute, SpecTagItem, TagItem, attributes_view};
pub use value::{
    gives_text, gives_value, head_view_of, item_view, lemma_entries_view, lemma_insert_view,
    lemma_key_index_view, lemma_keyed_push, lemma_values_push, param_parts_view, param_view,
};
pub use tag::{gives_attribute, gives_item, shortcut};
pub use peg::MAX_VALUE_DEPTH;

use cursor::Cursor;

verus! {

/// A failed parse is explained at one character of the body: the error's
/// byte range is that character's, and its message is either the nesting
/// limit's or Markdoc's list of what would have been accepted there.
pub open spec fn explains(s: Seq<char>, e: TagError) -> bool {
    exists|at: int|
        #![trigger error_at(s, e, at)]
        error_at(s, e, at) && (e.spec_message() == depth_message() || exists|v: Seq<Expectation>|
            e.spec_message() == message_spec(v, char_at_index(s, at)))
}

/// Parses the internals of a tag: everything between `{%` and `%}`, with the
/// delimiters removed and both ends trimmed.
///
/// The start rule has to consume the whole body, so `foo=1 bar` fails rather
/// than parsing the part it understands. The error's offsets are byte
/// offsets into `input`.
pub fn parse_tag(input: &str) -> (r: Result<TagItem, TagError>)
    ensures
        match peg::parses_to(input@) {
            Some(item) => r matches Ok(t) && t.deep() == item,
            None => r is Err,
        },
        r matches Err(e) ==> explains(input@, e),
{
    let mut cursor = Cursor::new(input);
    let result = cursor.top();
    match result {
        Some(item) => {
            if cursor.at_end() {
                Ok(item)
            } else {
                cursor.expect_end_of_input();
                let e = cursor.into_error();
                Err(e)
            }
        },
        None => {
            let e = cursor.into_error();
            Err(e)
        },
    }
}

} // verus!
