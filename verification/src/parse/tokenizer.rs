//! The seam between segmentation and a CommonMark engine: the events a
//! tokenizer reports, each with its source span.

use std::borrow::Cow;
use std::ops::Range;

use vstd::prelude::*;

verus! {

/// An event and the byte range of the source it came from.
pub type Spanned<'s> = (Event<'s>, Range<usize>);

/// A table column's alignment.
#[derive(Clone, Copy, Debug, PartialEq, Eq, Structural)]
#[non_exhaustive]
pub enum Alignment {
    /// No alignment given.
    Unaligned,
    /// `:--`.
    Left,
    /// `:-:`.
    Center,
    /// `--:`.
    Right,
}

/// How Markdoc spells an alignment in a cell's `align` attribute.
pub open spec fn alignment_name(a: Alignment) -> Option<Seq<char>> {
    match a {
        Alignment::Unaligned => None,
        Alignment::Left => Some("left"@),
        Alignment::Center => Some("center"@),
        Alignment::Right => Some("right"@),
    }
}

impl Alignment {
    /// The `align` attribute's value, or `None` for no alignment.
    pub fn as_str(self) -> (r: Option<&'static str>)
        ensures
            match (r, alignment_name(self)) {
                (Some(s), Some(t)) => s@ == t,
                (None, None) => true,
                _ => false,
            },
    {
        match self {
            Alignment::Unaligned => None,
            Alignment::Left => Some("left"),
            Alignment::Center => Some("center"),
            Alignment::Right => Some("right"),
        }
    }
}

impl Default for Alignment {
    /// No alignment.
    fn default() -> (a: Alignment)
        ensures
            a == Alignment::Unaligned,
    {
        Alignment::Unaligned
    }
}

/// A block or inline container a tokenizer opens.
#[derive(Debug, PartialEq)]
#[non_exhaustive]
pub enum Container<'s> {
    /// A paragraph.
    Paragraph,
    /// An ATX or setext heading.
    Heading {
        /// 1 to 6.
        level: u8,
    },
    /// A block quote.
    Blockquote,
    /// A list.
    List {
        /// Numbered rather than bulleted.
        ordered: bool,
        /// The first number of an ordered list.
        start: Option<u64>,
    },
    /// A list item.
    Item,
    /// A fenced or indented code block.
    CodeBlock {
        /// The info string of a fence, verbatim.
        info: Option<Cow<'s, str>>,
    },
    /// `*em*`.
    Emphasis,
    /// `**strong**`.
    Strong,
    /// `~~strikethrough~~`.
    Strikethrough,
    /// A link.
    Link {
        /// Where it points.
        destination: Cow<'s, str>,
        /// Its title, or empty.
        title: Cow<'s, str>,
    },
    /// An image.
    Image {
        /// Where it points.
        destination: Cow<'s, str>,
        /// Its title, or empty.
        title: Cow<'s, str>,
    },
    /// A table.
    Table {
        /// One alignment per column.
        alignments: Vec<Alignment>,
    },
    /// A table's header row group.
    TableHead,
    /// A table row.
    TableRow,
    /// A table cell.
    TableCell,
}

/// Which container an event closes.
#[derive(Clone, Copy, Debug, PartialEq, Eq, Structural)]
#[non_exhaustive]
pub enum ContainerKind {
    /// A paragraph.
    Paragraph,
    /// A heading.
    Heading,
    /// A block quote.
    Blockquote,
    /// A list.
    List,
    /// A list item.
    Item,
    /// A code block.
    CodeBlock,
    /// Emphasis.
    Emphasis,
    /// Strong emphasis.
    Strong,
    /// Strikethrough.
    Strikethrough,
    /// A link.
    Link,
    /// An image.
    Image,
    /// A table.
    Table,
    /// A table's header.
    TableHead,
    /// A table row.
    TableRow,
    /// A table cell.
    TableCell,
}

/// The kind of a container.
pub open spec fn container_kind(c: Container) -> ContainerKind {
    match c {
        Container::Paragraph => ContainerKind::Paragraph,
        Container::Heading { .. } => ContainerKind::Heading,
        Container::Blockquote => ContainerKind::Blockquote,
        Container::List { .. } => ContainerKind::List,
        Container::Item => ContainerKind::Item,
        Container::CodeBlock { .. } => ContainerKind::CodeBlock,
        Container::Emphasis => ContainerKind::Emphasis,
        Container::Strong => ContainerKind::Strong,
        Container::Strikethrough => ContainerKind::Strikethrough,
        Container::Link { .. } => ContainerKind::Link,
        Container::Image { .. } => ContainerKind::Image,
        Container::Table { .. } => ContainerKind::Table,
        Container::TableHead => ContainerKind::TableHead,
        Container::TableRow => ContainerKind::TableRow,
        Container::TableCell => ContainerKind::TableCell,
    }
}

impl<'s> Container<'s> {
    /// The kind that the matching `End` event carries.
    pub fn kind(&self) -> (k: ContainerKind)
        ensures
            k == container_kind(*self),
    {
        match self {
            Container::Paragraph => ContainerKind::Paragraph,
            Container::Heading { .. } => ContainerKind::Heading,
            Container::Blockquote => ContainerKind::Blockquote,
            Container::List { .. } => ContainerKind::List,
            Container::Item => ContainerKind::Item,
            Container::CodeBlock { .. } => ContainerKind::CodeBlock,
            Container::Emphasis => ContainerKind::Emphasis,
            Container::Strong => ContainerKind::Strong,
            Container::Strikethrough => ContainerKind::Strikethrough,
            Container::Link { .. } => ContainerKind::Link,
            Container::Image { .. } => ContainerKind::Image,
            Container::Table { .. } => ContainerKind::Table,
            Container::TableHead => ContainerKind::TableHead,
            Container::TableRow => ContainerKind::TableRow,
            Container::TableCell => ContainerKind::TableCell,
        }
    }
}

/// One event of a tokenized Markdown segment.
#[derive(Debug, PartialEq)]
#[non_exhaustive]
pub enum Event<'s> {
    /// A container opens.
    Start(Container<'s>),
    /// A container closes.
    End(ContainerKind),
    /// Text.
    Text(Cow<'s, str>),
    /// An inline code span's content.
    Code(Cow<'s, str>),
    /// Raw HTML.
    Html(Cow<'s, str>),
    /// Raw HTML inside a line of text.
    InlineHtml(Cow<'s, str>),
    /// A soft line break.
    SoftBreak,
    /// A hard line break.
    HardBreak,
    /// A thematic break.
    Rule,
}

/// A container, as plain values.
pub enum SpecContainer {
    Paragraph,
    Heading(u8),
    Blockquote,
    List(bool, Option<u64>),
    Item,
    CodeBlock(Option<Seq<char>>),
    Emphasis,
    Strong,
    Strikethrough,
    Link(Seq<char>, Seq<char>),
    Image(Seq<char>, Seq<char>),
    Table(Seq<Alignment>),
    TableHead,
    TableRow,
    TableCell,
}

/// An event, as plain values.
pub enum SpecEvent {
    Start(SpecContainer),
    End(ContainerKind),
    Text(Seq<char>),
    Code(Seq<char>),
    Html(Seq<char>),
    InlineHtml(Seq<char>),
    SoftBreak,
    HardBreak,
    Rule,
}

/// What a container carries.
pub open spec fn container_view(c: Container) -> SpecContainer {
    match c {
        Container::Paragraph => SpecContainer::Paragraph,
        Container::Heading { level } => SpecContainer::Heading(level),
        Container::Blockquote => SpecContainer::Blockquote,
        Container::List { ordered, start } => SpecContainer::List(ordered, start),
        Container::Item => SpecContainer::Item,
        Container::CodeBlock { info } => SpecContainer::CodeBlock(
            match info {
                Some(i) => Some(i@),
                None => None,
            },
        ),
        Container::Emphasis => SpecContainer::Emphasis,
        Container::Strong => SpecContainer::Strong,
        Container::Strikethrough => SpecContainer::Strikethrough,
        Container::Link { destination, title } => SpecContainer::Link(destination@, title@),
        Container::Image { destination, title } => SpecContainer::Image(destination@, title@),
        Container::Table { alignments } => SpecContainer::Table(alignments@),
        Container::TableHead => SpecContainer::TableHead,
        Container::TableRow => SpecContainer::TableRow,
        Container::TableCell => SpecContainer::TableCell,
    }
}

/// What an event carries.
pub open spec fn event_view(e: Event) -> SpecEvent {
    match e {
        Event::Start(c) => SpecEvent::Start(container_view(c)),
        Event::End(k) => SpecEvent::End(k),
        Event::Text(t) => SpecEvent::Text(t@),
        Event::Code(t) => SpecEvent::Code(t@),
        Event::Html(t) => SpecEvent::Html(t@),
        Event::InlineHtml(t) => SpecEvent::InlineHtml(t@),
        Event::SoftBreak => SpecEvent::SoftBreak,
        Event::HardBreak => SpecEvent::HardBreak,
        Event::Rule => SpecEvent::Rule,
    }
}

/// What a tokenizer's output carries: each event with its span.
pub open spec fn spanned_view(s: Seq<Spanned>) -> Seq<(SpecEvent, Range<usize>)> {
    Seq::new(s.len(), |i: int| (event_view(s[i].0), s[i].1))
}

/// A CommonMark engine: Markdown in, events with their spans out.
pub trait Tokenizer {
    /// What this engine makes of `source`: its events, each with the byte
    /// range of `source` it came from, in document order. An engine states
    /// it by defining this; one that does not leaves it unknown.
    closed spec fn events_spec(&self, source: Seq<char>) -> Seq<(SpecEvent, Range<usize>)> {
        arbitrary()
    }

    /// The events of `source`, in document order.
    fn tokenize<'s>(&self, source: &'s str) -> (r: Vec<Spanned<'s>>)
        ensures
            spanned_view(r@) == self.events_spec(source@),
    ;
}

} // verus!
