//! Scanning for tag delimiters, tokenizer events, and parse options.

use std::borrow::Cow;

use accent_proust::parse::{
    Alignment, Block, Container, ContainerKind, ParseOptions, contains_markdoc_tag_in_url,
    find_tag_end, segment,
};

#[test]
fn finds_the_closing_delimiter() {
    assert_eq!(find_tag_end("{% foo %}", 0), Some(7));
    assert_eq!(find_tag_end("a {% foo %} b", 2), Some(9));
}

#[test]
fn a_closing_delimiter_inside_a_string_does_not_close_the_tag() {
    let content = r#"{% foo bar="100%}" %}"#;
    assert_eq!(find_tag_end(content, 0), Some(19));
}

#[test]
fn an_escaped_quote_does_not_end_the_string() {
    let content = r#"{% foo bar="a\"%}b" %}"#;
    assert_eq!(find_tag_end(content, 0), Some(20));
}

#[test]
fn an_unclosed_tag_is_not_an_error() {
    assert_eq!(find_tag_end("{% foo", 0), None);
    assert_eq!(find_tag_end("{% foo \"unterminated %}", 0), None);
}

#[test]
fn a_start_past_the_end_yields_none_rather_than_panicking() {
    assert_eq!(find_tag_end("{% %}", 99), None);
}

/// Which URLs carry a tag.
#[test]
fn urls_carrying_tags_are_detected() {
    let http = ["http", "https"];
    assert!(!contains_markdoc_tag_in_url(
        "The link is https://example.com. {% tag /%})",
        &http
    ));
    assert!(!contains_markdoc_tag_in_url("[Link]({% tag %})", &http));
    assert!(contains_markdoc_tag_in_url(
        "https://example.com/{% tag %}content{% /tag %})",
        &http
    ));
    assert!(contains_markdoc_tag_in_url(
        "https://en.wikipedia.org/wiki/Exam_(disambiguation){% tag /%}",
        &http
    ));
    assert!(contains_markdoc_tag_in_url(
        "[Link](https://{% $variable.custom_value %})",
        &http
    ));
    assert!(contains_markdoc_tag_in_url(
        "[Link](https://example.com/{% tag /%})",
        &http
    ));
    assert!(contains_markdoc_tag_in_url(
        "[Link](https://example.com/{% tag %}content{% /tag %})",
        &http
    ));
}

/// A protocol outside the caller's list is not rejected.
#[test]
fn the_protocol_list_is_the_callers() {
    assert!(contains_markdoc_tag_in_url(
        "[Link](vscode://{% $variable.custom_value %})",
        &["vscode"]
    ));
    assert!(!contains_markdoc_tag_in_url(
        "[Link](vscode://{% $variable.custom_value %})",
        &["http", "https"]
    ));
}

#[test]
fn an_unclosed_tag_in_a_url_is_stepped_over() {
    assert!(!contains_markdoc_tag_in_url(
        "https://example.com/{% unclosed",
        &["https"]
    ));
}

#[test]
fn a_container_names_its_own_kind() {
    assert_eq!(Container::Paragraph.kind(), ContainerKind::Paragraph);
    assert_eq!(
        Container::Heading { level: 3 }.kind(),
        ContainerKind::Heading
    );
    assert_eq!(
        Container::Link {
            destination: Cow::Borrowed("/x"),
            title: Cow::Borrowed(""),
        }
        .kind(),
        ContainerKind::Link
    );
}

#[test]
fn alignments_spell_themselves_as_markdoc_does() {
    assert_eq!(Alignment::Unaligned.as_str(), None);
    assert_eq!(Alignment::Left.as_str(), Some("left"));
    assert_eq!(Alignment::Center.as_str(), Some("center"));
    assert_eq!(Alignment::Right.as_str(), Some("right"));
}

#[test]
fn parse_options_default_to_locations_on() {
    let options = ParseOptions::new();
    assert!(options.location);
    assert!(!options.slots && !options.allow_comments);
    let options = options.file("a.md").slots(true).location(false).allow_comments(true);
    assert_eq!(options.file, Some("a.md"));
    assert!(options.slots && !options.location && options.allow_comments);
    let options = options
        .validated_protocols(vec!["http".to_owned()])
        .conditional_tags(vec!["if".to_owned()]);
    assert_eq!(options.validated_protocols, Some(vec!["http".to_owned()]));
    assert_eq!(options.conditional_tags, Some(vec!["if".to_owned()]));
    assert!(!ParseOptions::default().location);
}

fn blocks(source: &str) -> Vec<String> {
    segment(source)
        .blocks
        .iter()
        .map(|block| match block {
            Block::Markdown(range) => format!("markdown {:?}", &source[range.clone()]),
            Block::Tag(span) => format!("tag {:?}", &source[span.inner.clone()]),
        })
        .collect()
}

#[test]
fn a_tag_on_its_own_line_splits_the_document() {
    assert_eq!(
        blocks("{% foo %}\nThis is a test\n{% /foo %}\n"),
        [
            "tag \" foo \"",
            "markdown \"This is a test\\n\"",
            "tag \" /foo \"",
        ]
    );
}

#[test]
fn a_tag_with_text_after_it_is_not_a_block() {
    assert_eq!(
        blocks("{% foo %} trailing\n"),
        ["markdown \"{% foo %} trailing\\n\""]
    );
    assert_eq!(segment("{% foo %} trailing\n").inline_tags.len(), 1);
}

/// Markdoc's one exclusion: `content[0] === '$'` is not a block tag.
#[test]
fn a_bare_variable_is_not_a_block_tag() {
    assert_eq!(blocks("{% $test %}\n"), ["markdown \"{% $test %}\\n\""]);
}

#[test]
fn a_block_tag_may_span_lines() {
    let source = "{%\nfoo\n#bar\n%}\nThis is a test\n";
    assert_eq!(
        blocks(source),
        ["tag \"\\nfoo\\n#bar\\n\"", "markdown \"This is a test\\n\""]
    );
    let Block::Tag(span) = &segment(source).blocks[0] else {
        panic!("expected a tag");
    };
    assert_eq!(span.lines, [0, 4]);
}

#[test]
fn a_block_tag_may_close_on_a_line_with_its_own_content() {
    assert_eq!(
        blocks("{% foo\n#bar %}\nThis is a test\n"),
        ["tag \" foo\\n#bar \"", "markdown \"This is a test\\n\""]
    );
}

#[test]
fn an_indented_block_tag_is_still_a_block_tag() {
    assert_eq!(blocks("    {% foo %}\n"), ["tag \" foo \""]);
}

#[test]
fn tags_inside_a_fence_are_left_alone() {
    let source = "```\n{% foo %}\n```\n";
    assert_eq!(blocks(source), [format!("markdown {source:?}")]);
    assert!(segment(source).inline_tags.is_empty());
}

#[test]
fn a_tilde_fence_closes_only_on_tildes() {
    let source = "~~~\n{% foo %}\n```\n{% bar %}\n~~~\n";
    assert!(segment(source).inline_tags.is_empty());
}

#[test]
fn an_inline_code_span_does_not_open_a_fence() {
    // ``` on a line with a closing backtick is a code span, not a fence.
    let source = "a ```b``` c\n{% foo %}\n";
    assert!(
        segment(source)
            .blocks
            .iter()
            .any(|block| matches!(block, Block::Tag(_)))
    );
}

#[test]
fn masking_hides_markdown_inside_a_tag_and_keeps_every_offset() {
    let source = "Example {% foo bar=\"a*b*c\" %} baz";
    let segmentation = segment(source);
    assert_eq!(segmentation.masked.len(), source.len());
    assert_eq!(segmentation.masked, "Example {%xxxxxxxxxxxxxxxxx%} baz");
    assert_eq!(segmentation.inline_tags.len(), 1);
    assert_eq!(
        &source[segmentation.inline_tags[0].inner.clone()],
        " foo bar=\"a*b*c\" "
    );
}

#[test]
fn masking_preserves_newlines_so_block_structure_survives() {
    let source = "Example {% foo\n#bar %} baz";
    assert_eq!(segment(source).masked, "Example {%xxxx\nxxxxx%} baz");
}

#[test]
fn two_tags_in_succession_are_both_recorded() {
    let source = "a {% foo %}b{% /foo %} c";
    let segmentation = segment(source);
    assert_eq!(segmentation.inline_tags.len(), 2);
    assert_eq!(segmentation.masked, "a {%xxxxx%}b{%xxxxxx%} c");
}

#[test]
fn an_unclosed_tag_does_not_stall_the_scan() {
    let source = "hello {%\nworld\n";
    let segmentation = segment(source);
    assert!(segmentation.inline_tags.is_empty());
    assert_eq!(segmentation.masked, source);
}

#[test]
fn an_empty_document_produces_nothing() {
    assert!(segment("").blocks.is_empty());
}

#[test]
fn a_start_inside_a_character_finds_no_tag_end() {
    assert_eq!(find_tag_end("é%}", 1), None);
    assert_eq!(find_tag_end("é%}", 2), Some(2));
    assert_eq!(find_tag_end("ab", 5), None);
}
