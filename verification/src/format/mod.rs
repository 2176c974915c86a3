//! Printing back to canonical Markdoc source.

mod chunk;
mod escape;
mod literal;
mod node;
mod numbers;
mod options;
mod read_back;

pub use escape::{
    Escape, escape_block_spec, escape_markdown, escape_markdown_spec, escape_set_spec,
    first_block_match_spec, hash_match_from, hash_run_end, in_set, js_whitespace, nbsp_spec,
    unicode_whitespace,
};
pub use options::{FormatOptions, MAX_TAG_OPENING_WIDTH, OrderedListMode};
pub use chunk::{SpecChunk, chunk_text, joined, trim_start_chunks};
pub use literal::{
    AttributeKind, MAX_FORMAT_DEPTH, annotation_spec, hex, hex_digit, is_identifier_spec, json_string_spec,
    push_json_string,
    scalar_spec, value_chunks, variable_literal_spec,
};
pub use read_back::{
    ends_number, ends_value, entries_read_back, function_name_reads_back, params_read_back,
    path_reads_back, segment_reads_back, items_read_back, key_reads_back, keys_distinct,
    lemma_string_round_trip, lemma_value_round_trip, number_reads_back, plain_char, reads_back,
    value_reads_back,
};
pub use node::{Ctx, default_options, fmt_node, format_spec, format_value_spec, root_ctx};
pub use numbers::{
    MAX_HEADING_LEVEL, digit_run, digits_value, find_char, heading_marks, lead_digits, same_chars,
    utf16_len,
};

use vstd::prelude::*;

use crate::ast::{Node, Value};
use crate::format::chunk::Out;
use crate::format::literal::push_value;
use crate::format::node::node_at;
use crate::text::trim_start_chars;

verus! {

/// Print a tree as canonical Markdoc source.
///
/// Canonical means the spacing inside a tag is normalised while the
/// author's own spellings are not: an annotation reprints as it was written,
/// and `__bold__` stays `__bold__`.
pub fn format_with<'a>(node: &Node<'a>, options: &FormatOptions) -> (s: String)
    ensures
        s@ == format_spec(*node, *options),
{
    let mut out = Out::new();
    node_at(&mut out, node, options);
    let j = out.joined();
    let t = trim_start_chars(&j);
    crate::text::string_of(&t)
}

/// Print a tree as canonical Markdoc source, with the default options.
pub fn format<'a>(node: &Node<'a>) -> (s: String)
    ensures
        s@ == format_spec(*node, default_options()),
{
    let o = FormatOptions::new();
    format_with(node, &o)
}

/// Print a value -- a variable, a function call, a literal -- as it is
/// written in content: `null` as nothing, a string as its characters.
pub fn format_value_with(value: &Value, options: &FormatOptions) -> (s: String)
    ensures
        s@ == format_value_spec(value.deep()),
{
    let mut out = Out::new();
    push_value(&mut out, value, 0);
    assert(out@ =~= value_chunks(value.deep(), 0));
    let j = out.joined();
    let t = trim_start_chars(&j);
    crate::text::string_of(&t)
}

/// Print a value as it is written in content, with the default options.
pub fn format_value(value: &Value) -> (s: String)
    ensures
        s@ == format_value_spec(value.deep()),
{
    let o = FormatOptions::new();
    format_value_with(value, &o)
}

} // verus!
