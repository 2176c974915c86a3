//! Segmentation and document parsing: source text in, tags and Markdown out.

mod annotate;
mod document;
mod options;
mod scan;
mod segment;
mod tokenizer;

pub use annotate::{annotate, annotate_all, annotate_one, class_key, clone_attribute, duplicates};
pub use document::{
    parse_with, code_span_content, code_span_spec, list_marker, list_marker_spec, marker, marker_spec, unescape,
    unescape_spec,
};
pub use options::ParseOptions;
pub use scan::{
    CLOSE, OPEN, ScanState, closes_at, contains_bytes, contains_markdoc_tag_in_url,
    find_tag_end, find_tag_end_bytes, first_closed_tag, has_at, is_ascii_whitespace_byte,
    lemma_scan_tag_end, opens_at, scan_tag_end, scheme_marker, tag_end, tag_in_url, word_start,
};
pub use segment::{
    Block, SegState, Segmentation, SpecBlock, SpecSpan, TagSpan, blank, block_tag_spec, block_view,
    blocks_view, closes_fence_spec, flush_spec, has_byte, indent_end, left_on_line, line_from,
    line_of_spec, line_ranges_spec, line_step, lines_from, lines_view, mask_from, mask_spec,
    next_newline, opens_fence_spec, run_end, scan_lines, segment, segment_spec, span_view,
    spans_view, starts_with_dollar, sub_chars,
};
pub use tokenizer::{
    Alignment, Container, ContainerKind, Event, SpecContainer, SpecEvent, Spanned, Tokenizer, alignment_name,
    container_kind, container_view, event_view, spanned_view,
};
