//! Parsing whole documents, over pulldown-cmark, and printing them back.

use std::borrow::Cow;
use std::ops::Range;

use accent_proust::ast::{Node, NodeType, Value};
use accent_proust::format::{FormatOptions, OrderedListMode};
use accent_proust::parse::{
    Alignment, Container, ContainerKind, Event, ParseOptions, Spanned, Tokenizer, parse_with,
};
use pulldown_cmark::{CodeBlockKind, Event as P, Options, Parser, Tag, TagEnd};

/// CommonMark with tables and strikethrough, as a tokenizer.
struct Markdown;

fn cow(text: pulldown_cmark::CowStr<'_>) -> Cow<'_, str> {
    match text {
        pulldown_cmark::CowStr::Borrowed(text) => Cow::Borrowed(text),
        other => Cow::Owned(other.into_string()),
    }
}

fn container(tag: Tag<'_>) -> Option<Container<'_>> {
    Some(match tag {
        Tag::Paragraph => Container::Paragraph,
        Tag::Heading { level, .. } => Container::Heading { level: level as u8 },
        Tag::BlockQuote(_) => Container::Blockquote,
        Tag::CodeBlock(CodeBlockKind::Fenced(info)) => Container::CodeBlock { info: Some(cow(info)) },
        Tag::CodeBlock(CodeBlockKind::Indented) => Container::CodeBlock { info: None },
        Tag::List(start) => Container::List { ordered: start.is_some(), start },
        Tag::Item => Container::Item,
        Tag::Table(alignments) => Container::Table {
            alignments: alignments
                .into_iter()
                .map(|a| match a {
                    pulldown_cmark::Alignment::None => Alignment::Unaligned,
                    pulldown_cmark::Alignment::Left => Alignment::Left,
                    pulldown_cmark::Alignment::Center => Alignment::Center,
                    pulldown_cmark::Alignment::Right => Alignment::Right,
                })
                .collect(),
        },
        Tag::TableHead => Container::TableHead,
        Tag::TableRow => Container::TableRow,
        Tag::TableCell => Container::TableCell,
        Tag::Emphasis => Container::Emphasis,
        Tag::Strong => Container::Strong,
        Tag::Strikethrough => Container::Strikethrough,
        Tag::Link { dest_url, title, .. } => Container::Link { destination: cow(dest_url), title: cow(title) },
        Tag::Image { dest_url, title, .. } => Container::Image { destination: cow(dest_url), title: cow(title) },
        _ => return None,
    })
}

fn kind(tag: TagEnd) -> Option<ContainerKind> {
    Some(match tag {
        TagEnd::Paragraph => ContainerKind::Paragraph,
        TagEnd::Heading(_) => ContainerKind::Heading,
        TagEnd::BlockQuote(_) => ContainerKind::Blockquote,
        TagEnd::CodeBlock => ContainerKind::CodeBlock,
        TagEnd::List(_) => ContainerKind::List,
        TagEnd::Item => ContainerKind::Item,
        TagEnd::Table => ContainerKind::Table,
        TagEnd::TableHead => ContainerKind::TableHead,
        TagEnd::TableRow => ContainerKind::TableRow,
        TagEnd::TableCell => ContainerKind::TableCell,
        TagEnd::Emphasis => ContainerKind::Emphasis,
        TagEnd::Strong => ContainerKind::Strong,
        TagEnd::Strikethrough => ContainerKind::Strikethrough,
        TagEnd::Link => ContainerKind::Link,
        TagEnd::Image => ContainerKind::Image,
        _ => return None,
    })
}

impl Tokenizer for Markdown {
    fn tokenize<'s>(&self, source: &'s str) -> Vec<Spanned<'s>> {
        Parser::new_ext(source, Options::ENABLE_TABLES | Options::ENABLE_STRIKETHROUGH)
            .into_offset_iter()
            .filter_map(|(event, range): (P<'s>, Range<usize>)| {
                let event = match event {
                    P::Start(tag) => Event::Start(container(tag)?),
                    P::End(tag) => Event::End(kind(tag)?),
                    P::Text(text) | P::InlineMath(text) | P::DisplayMath(text) => Event::Text(cow(text)),
                    P::Code(text) => Event::Code(cow(text)),
                    P::Html(html) => Event::Html(cow(html)),
                    P::InlineHtml(html) => Event::InlineHtml(cow(html)),
                    P::SoftBreak => Event::SoftBreak,
                    P::HardBreak => Event::HardBreak,
                    P::Rule => Event::Rule,
                    _ => return None,
                };
                Some((event, range))
            })
            .collect()
    }
}

fn parse(source: &str) -> Node<'_> {
    parse_with(source, &Markdown, &ParseOptions::new())
}

fn round(source: &str) -> String {
    accent_proust::format::format(&parse(source))
}

#[test]
fn a_tag_reprints_with_its_spacing_normalised() {
    assert_eq!(
        round("{% callout   type=\"note\"  %}\nBody\n{% /callout %}\n"),
        "{% callout type=\"note\" %}\nBody\n{% /callout %}\n"
    );
}

#[test]
fn an_ordered_list_can_count_up() {
    let document = parse("1. one\n1. two\n1. three\n");
    let options = FormatOptions::new().ordered_list_mode(OrderedListMode::Increment);
    assert_eq!(accent_proust::format::format_with(&document, &options), "1. one\n2. two\n3. three\n");
}

#[test]
fn the_authors_own_spellings_survive() {
    assert_eq!(round("__bold__ and *em*\n"), "__bold__ and *em*\n");
}

#[test]
fn formatting_a_parsed_document_is_idempotent() {
    for source in [
        "# Title\n\nSome *text* with `code`.\n",
        "{% callout type=\"note\" %}\nBody\n{% /callout %}\n",
        "- a\n- b\n\n> quoted\n",
        "| a | b |\n| - | - |\n| 1 | 2 |\n",
        "```js\nlet x = 1;\n```\n",
        "A [link](https://example.com \"t\") and ![img](/i.png).\n",
    ] {
        let once = round(source);
        assert_eq!(round(&once), once, "{source:?}");
    }
}

#[test]
fn a_document_is_always_a_document() {
    assert_eq!(parse("").node_type, NodeType::Document);
    assert_eq!(parse("{% /x %}").node_type, NodeType::Document);
    assert_eq!(parse("{% x %}\n").node_type, NodeType::Document);
}

#[test]
fn a_closing_tag_with_nothing_open_is_reported() {
    let document = parse("{% /x %}\n");
    let ids: Vec<&str> = document.walk().iter().flat_map(|n| n.errors.iter().map(|e| e.id)).collect();
    assert_eq!(ids, ["missing-opening"]);
}

#[test]
fn a_tag_left_open_is_reported() {
    let document = parse("{% x %}\nBody\n");
    let ids: Vec<&str> = document.walk().iter().flat_map(|n| n.errors.iter().map(|e| e.id)).collect();
    assert_eq!(ids, ["missing-closing"]);
}

#[test]
fn an_annotation_sets_attributes_on_its_block() {
    let document = parse("# Title {% #intro .lead %}\n");
    let heading = &document.children[0];
    assert_eq!(heading.node_type, NodeType::Heading);
    assert_eq!(heading.get("id"), Some(&Value::String("intro".to_string())));
    assert_eq!(round("# Title {% #intro .lead %}\n"), "# Title {% #intro .lead %}\n");
}

#[test]
fn a_setext_underline_of_dashes_is_a_rule() {
    let document = parse("Testing\n-------\n");
    let types: Vec<NodeType> = document.children.iter().map(|n| n.node_type).collect();
    assert_eq!(types, [NodeType::Paragraph, NodeType::Hr]);
}

#[test]
fn a_variable_in_text_is_kept_as_a_value() {
    let document = parse("Hello {% $user.name %}!\n");
    let inline = &document.children[0].children[0];
    let contents: Vec<&Value> = inline.children.iter().filter_map(|n| n.get("content")).collect();
    assert!(contents.iter().any(|v| matches!(v, Value::Variable(_))));
    assert_eq!(round("Hello {% $user.name %}!\n"), "Hello {% $user.name %}!\n");
}

#[test]
fn a_tag_that_does_not_parse_becomes_an_error_node() {
    let document = parse("{% callout type= %}\n");
    let errors: Vec<&str> = document.walk().iter().flat_map(|n| n.errors.iter().map(|e| e.id)).collect();
    assert_eq!(errors, ["parse-error"]);
}

#[test]
fn emphasis_records_its_marker() {
    let document = parse("_a_\n");
    let em = &document.children[0].children[0].children[0];
    assert_eq!(em.node_type, NodeType::Em);
    assert_eq!(em.get("marker"), Some(&Value::String("_".to_string())));
}

#[test]
fn a_fence_keeps_its_language_and_content() {
    let document = parse("```ruby this is a test\nx\n```\n");
    let fence = &document.children[0];
    assert_eq!(fence.node_type, NodeType::Fence);
    assert_eq!(fence.get("language"), Some(&Value::String("ruby".to_string())));
    assert_eq!(fence.get("content"), Some(&Value::String("x\n".to_string())));
}


#[test]
fn links_and_images_carry_their_destination_and_title() {
    let doc = parse("[a](https://x.example \"T\") ![b](/i.png)\n");
    let inline = &doc.children[0].children[0];
    let link = &inline.children[0];
    assert_eq!(link.node_type, NodeType::Link);
    assert_eq!(link.get("href"), Some(&Value::String("https://x.example".to_string())));
    assert_eq!(link.get("title"), Some(&Value::String("T".to_string())));
    let image = inline
        .children
        .iter()
        .find(|n| n.node_type == NodeType::Image)
        .expect("an image");
    assert_eq!(image.get("src"), Some(&Value::String("/i.png".to_string())));
    assert_eq!(image.get("alt"), Some(&Value::String("b".to_string())));
    assert_eq!(image.get("title"), None);
}

#[test]
fn a_fence_keeps_its_info_word_as_its_language() {
    let doc = parse("```rust extra\nfn main() {}\n```\n");
    let fence = &doc.children[0];
    assert_eq!(fence.node_type, NodeType::Fence);
    assert_eq!(fence.get("language"), Some(&Value::String("rust".to_string())));
    assert_eq!(fence.get("content"), Some(&Value::String("fn main() {}\n".to_string())));
}
