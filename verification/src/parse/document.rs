//! Lifting segments and CommonMark events into the document tree.
//!
//! The events arrive flat, each with its source span; a stack of open nodes
//! turns them into a tree, and the block-level tags the segmenter took out
//! first are read between them. Four things here are not a straight walk:
//!
//! - **The `inline` node is synthesised.** A block's inline content goes into
//!   an `inline` node opened on the first inline event and closed with the
//!   block, which gives both `paragraph > inline > text` and
//!   `item > inline > text`.
//! - **Markers are read back from the source.** A container's span covers its
//!   delimiters, so emphasis remembers whether it was `*` or `_` by looking.
//! - **Setext headings are rewritten.** `Testing\n-------` is a paragraph and
//!   a thematic break in Markdoc; a heading whose span does not begin with `#`
//!   is recognised after the fact and undone.
//! - **A fence's content is literal by default.** A fence opts in to tag
//!   processing with `{% process=true %}`.

use std::borrow::Cow;
use std::ops::Range;

use vstd::prelude::*;
use vstd::string::StringSliceAdditionalSpecFns;
use vstd::utf8::encode_utf8;

use crate::ast::{
    ErrorLevel, Lines, Location, Node, NodeType, ValidationError, Value, is_position_of, str_eq,
    str_get_spec,
};
use crate::grammar::{Attribute, SpecAttribute, SpecTagItem, TagError, TagItem, attributes_view, explains, parse_tag};
use crate::grammar::peg::parses_to;
use crate::parse::annotate::{annotate, annotate_all, duplicates};
use crate::parse::options::ParseOptions;
use crate::parse::scan::{
    contains_bytes, contains_markdoc_tag_in_url, find_tag_end, first_closed_tag, opens_at, scheme_marker,
    tag_end, tag_in_url, word_start,
};
use crate::parse::segment::{Block, Segmentation, TagSpan, sub_chars};
use crate::parse::tokenizer::{
    Alignment, Container, ContainerKind, Event, SpecContainer, SpecEvent, Spanned, Tokenizer, alignment_name,
    container_view, event_view, spanned_view,
};
use crate::text::{
    decimal, chars_of, count_lead_ws, count_trail_ws, lead_ws, push_chars, push_str, str_get, string_of,
    sub_chars_of, trail_ws, trim_chars, trim_spec, width_of,
};

verus! {

/// The text a tokenizer handed over: `Cow::as_ref`, which borrows the text
/// the `Cow` holds, borrowed or owned.
#[verifier::external_body]
fn cow_str<'a>(c: &'a Cow<'_, str>) -> (r: &'a str)
    ensures
        r@ == c@,
{
    c.as_ref()
}

/// The first `len` characters of a span: the delimiter it opens with.
pub open spec fn marker_spec(span: Seq<char>, len: nat) -> Seq<char> {
    span.take(if len <= span.len() { len as int } else { span.len() as int })
}

/// The delimiter a span opens with, up to `len` characters: `*a*` opens with
/// `*`, `**a**` with `**`.
pub fn marker(span: &str, len: usize) -> (s: String)
    ensures
        s@ == marker_spec(span@, len as nat),
{
    let chars = chars_of(span);
    let n = if len <= chars.len() { len } else { chars.len() };
    let t = sub_chars_of(&chars, 0, n);
    string_of(&t)
}

/// The first `.` or `)` in `s`, if there is one.
pub open spec fn first_delimiter(s: Seq<char>) -> Option<char>
    decreases s.len(),
{
    if s.len() == 0 {
        None
    } else if s[0] == '.' || s[0] == ')' {
        Some(s[0])
    } else {
        first_delimiter(s.drop_first())
    }
}

/// The bullet of an unordered list, or the delimiter of an ordered one
/// (`.` when none is written).
pub open spec fn list_marker_spec(span: Seq<char>, ordered: bool) -> Seq<char> {
    let t = span.skip(lead_ws(span) as int);
    if !ordered {
        if t.len() > 0 {
            seq![t[0]]
        } else {
            Seq::empty()
        }
    } else {
        match first_delimiter(t) {
            Some(c) => seq![c],
            None => seq!['.'],
        }
    }
}

/// The bullet or delimiter a list is written with.
pub fn list_marker(span: &str, ordered: bool) -> (s: String)
    ensures
        s@ == list_marker_spec(span@, ordered),
{
    let chars = chars_of(span);
    let lead = count_lead_ws(&chars);
    proof {
        crate::text::lemma_lead_bound(chars@);
    }
    let t = sub_chars_of(&chars, lead, chars.len());
    assert(t@ =~= span@.skip(lead_ws(span@) as int));
    let mut out: Vec<char> = Vec::new();
    if !ordered {
        if t.len() > 0 {
            out.push(t[0]);
        }
        assert(out@ =~= list_marker_spec(span@, ordered));
        return string_of(&out);
    }
    let mut i: usize = 0;
    assert(t@.skip(0) =~= t@);
    while i < t.len() && t[i] != '.' && t[i] != ')'
        invariant
            i <= t@.len(),
            first_delimiter(t@) == first_delimiter(t@.skip(i as int)),
        decreases t.len() - i,
    {
        assert(t@.skip(i as int).drop_first() =~= t@.skip(i + 1));
        i = i + 1;
    }
    if i < t.len() {
        assert(t@.skip(i as int)[0] == t@[i as int]);
        out.push(t[i]);
    } else {
        assert(t@.skip(i as int) =~= Seq::<char>::empty());
        out.push('.');
    }
    assert(out@ =~= list_marker_spec(span@, ordered));
    string_of(&out)
}

/// Whether `c` is ASCII punctuation.
pub open spec fn ascii_punctuation(c: char) -> bool {
    ('!' <= c && c <= '/') || (':' <= c && c <= '@') || ('[' <= c && c <= '`') || ('{' <= c && c
        <= '~')
}

/// CommonMark backslash escapes resolved: `\` before ASCII punctuation is
/// dropped, any other backslash kept.
pub open spec fn unescape_spec(s: Seq<char>) -> Seq<char>
    decreases s.len(),
{
    if s.len() == 0 {
        Seq::empty()
    } else if s[0] != '\\' {
        seq![s[0]] + unescape_spec(s.drop_first())
    } else if s.len() == 1 {
        seq!['\\']
    } else if ascii_punctuation(s[1]) {
        seq![s[1]] + unescape_spec(s.skip(2))
    } else {
        seq!['\\', s[1]] + unescape_spec(s.skip(2))
    }
}

/// Resolve CommonMark backslash escapes.
pub fn unescape(text: &str) -> (s: String)
    ensures
        s@ == unescape_spec(text@),
{
    let chars = chars_of(text);
    let mut out: Vec<char> = Vec::new();
    let mut i: usize = 0;
    assert(chars@.skip(0) =~= chars@);
    while i < chars.len()
        invariant
            i <= chars@.len(),
            out@ + unescape_spec(chars@.skip(i as int)) == unescape_spec(chars@),
        decreases chars.len() - i,
    {
        let ghost before = out@;
        let ghost rest = chars@.skip(i as int);
        assert(rest[0] == chars@[i as int]);
        let c = chars[i];
        if c != '\\' {
            out.push(c);
            assert(rest.drop_first() =~= chars@.skip(i + 1));
            assert(out@ + unescape_spec(chars@.skip(i + 1)) =~= before + unescape_spec(rest));
            i = i + 1;
        } else if i + 1 == chars.len() {
            out.push('\\');
            assert(rest.len() == 1);
            assert(chars@.skip(i + 1) =~= Seq::<char>::empty());
            assert(out@ + unescape_spec(chars@.skip(i + 1)) =~= before + unescape_spec(rest));
            i = i + 1;
        } else {
            let next = chars[i + 1];
            assert(rest[1] == next);
            assert(rest.skip(2) =~= chars@.skip(i + 2));
            if ('!' <= next && next <= '/') || (':' <= next && next <= '@') || ('[' <= next
                && next <= '`') || ('{' <= next && next <= '~') {
                out.push(next);
            } else {
                out.push('\\');
                out.push(next);
            }
            assert(out@ + unescape_spec(chars@.skip(i + 2)) =~= before + unescape_spec(rest));
            i = i + 2;
        }
    }
    assert(chars@.skip(i as int) =~= Seq::<char>::empty());
    assert(out@ + unescape_spec(chars@.skip(i as int)) =~= out@);
    string_of(&out)
}

/// `s` with every newline a space.
pub open spec fn newlines_to_spaces(s: Seq<char>) -> Seq<char> {
    Seq::new(s.len(), |i: int| if s[i] == '\n' { ' ' } else { s[i] })
}

/// How many backticks `s` starts with.
pub open spec fn tick_run(s: Seq<char>) -> nat
    decreases s.len(),
{
    if s.len() > 0 && s[0] == '`' {
        1 + tick_run(s.drop_first())
    } else {
        0
    }
}

/// A code span's content: the backticks stripped from both ends, newlines
/// read as spaces, and one space stripped from each end when both ends have
/// one and there is more than space inside.
pub open spec fn code_span_spec(span: Seq<char>) -> Seq<char> {
    let ticks = tick_run(span);
    let inner0 = if ticks <= span.len() - ticks {
        span.subrange(ticks as int, span.len() - ticks)
    } else {
        span
    };
    let inner = newlines_to_spaces(inner0);
    if inner.len() >= 2 && inner[0] == ' ' && inner.last() == ' ' && trim_spec(inner).len() > 0 {
        inner.subrange(1, inner.len() - 1)
    } else {
        inner
    }
}

proof fn lemma_tick_run(s: Seq<char>, k: int)
    requires
        0 <= k <= s.len(),
        forall|j: int| 0 <= j < k ==> #[trigger] s[j] == '`',
        k < s.len() ==> s[k] != '`',
    ensures
        tick_run(s) == k,
    decreases k,
{
    if k > 0 {
        let t = s.drop_first();
        assert forall|j: int| 0 <= j < k - 1 implies #[trigger] t[j] == '`' by {
            assert(t[j] == s[j + 1]);
        }
        if k - 1 < t.len() {
            assert(t[k - 1] == s[k]);
        }
        lemma_tick_run(t, k - 1);
    }
}

/// Strip a code span's backticks and apply CommonMark's one-space rule.
pub fn code_span_content(span: &str) -> (s: String)
    ensures
        s@ == code_span_spec(span@),
{
    let chars = chars_of(span);
    let mut ticks: usize = 0;
    while ticks < chars.len() && chars[ticks] == '`'
        invariant
            ticks <= chars@.len(),
            forall|j: int| 0 <= j < ticks ==> #[trigger] chars@[j] == '`',
        decreases chars.len() - ticks,
    {
        ticks = ticks + 1;
    }
    proof {
        lemma_tick_run(chars@, ticks as int);
    }
    let inner0 = if ticks <= chars.len() - ticks {
        sub_chars_of(&chars, ticks, chars.len() - ticks)
    } else {
        chars.clone()
    };
    let mut inner: Vec<char> = Vec::new();
    let mut i: usize = 0;
    while i < inner0.len()
        invariant
            i <= inner0@.len(),
            inner@ == newlines_to_spaces(inner0@).take(i as int),
        decreases inner0.len() - i,
    {
        if inner0[i] == '\n' {
            inner.push(' ');
        } else {
            inner.push(inner0[i]);
        }
        i = i + 1;
        assert(inner@ =~= newlines_to_spaces(inner0@).take(i as int));
    }
    assert(newlines_to_spaces(inner0@).take(i as int) =~= newlines_to_spaces(inner0@));
    if inner.len() >= 2 && inner[0] == ' ' && inner[inner.len() - 1] == ' ' {
        let t = trim_chars(&inner);
        if t.len() > 0 {
            let r = sub_chars_of(&inner, 1, inner.len() - 1);
            return string_of(&r);
        }
    }
    string_of(&inner)
}

/// The characters of `source[start..end]`, or none when the range is out of
/// bounds or splits a character.
pub open spec fn slice_chars(source: &str, start: int, end: int) -> Seq<char> {
    match sub_chars(source.spec_bytes(), start, end) {
        Some(t) => t,
        None => Seq::empty(),
    }
}

/// The inline run's span after a span joins it: the smallest range that
/// covers both, or the span itself when no run is open.
pub open spec fn extended(before: Option<Range<usize>>, span: Range<usize>, after: Option<
    Range<usize>,
>) -> bool {
    after matches Some(r) && match before {
        Some(open) => r.start == (if open.start <= span.start {
            open.start
        } else {
            span.start
        }) && r.end == (if open.end >= span.end {
            open.end
        } else {
            span.end
        }),
        None => r.start == span.start && r.end == span.end,
    }
}

/// The text of a node's `content` attribute, or nothing.
pub open spec fn content_of<'a>(n: Node<'a>) -> Seq<char> {
    let k = crate::ast::key_index(n.attributes@, "content"@);
    if k >= 0 {
        match n.attributes@[k].1 {
            Value::String(t) => t@,
            _ => Seq::empty(),
        }
    } else {
        Seq::empty()
    }
}

/// A node's `content`, when it is a string.
pub open spec fn text_content<'a>(n: Node<'a>) -> Option<Seq<char>> {
    let k = crate::ast::key_index(n.attributes@, "content"@);
    if k >= 0 {
        match n.attributes@[k].1 {
            Value::String(t) => Some(t@),
            _ => None,
        }
    } else {
        None
    }
}

/// Whether `node` folds into `prev`: both plain text, alike in being inline,
/// `node` without errors.
pub open spec fn merges_into<'a>(prev: Node<'a>, node: Node<'a>) -> bool {
    &&& node.node_type == NodeType::Text
    &&& node.errors@.len() == 0
    &&& text_content(node) is Some
    &&& prev.node_type == NodeType::Text
    &&& prev.inline == node.inline
    &&& text_content(prev) is Some
}

/// `m` is `prev` with `node`'s text appended, and its location stretched
/// over both when both have one.
pub open spec fn merged<'a>(prev: Node<'a>, node: Node<'a>, source: &str, m: Node<'a>) -> bool {
    &&& m == (Node { attributes: m.attributes, location: m.location, ..prev })
    &&& crate::ast::entries_view(m.attributes@) == crate::grammar::peg::spec_insert(
        crate::ast::entries_view(prev.attributes@),
        "content"@,
        crate::ast::SpecValue::String(text_content(prev)->0 + text_content(node)->0),
    )
    &&& match (prev.location, node.location) {
        (Some(b), Some(a)) => m.location matches Some(l) && l.file == b.file && l.start == b.start
            && l.end == a.end && l.text@ == slice_chars(
            source,
            b.start.offset as int,
            a.end.offset as int,
        ),
        _ => m.location == prev.location,
    }
}

/// Whether a node would fold into the last child of the innermost open node.
pub open spec fn folds<'a>(stack: Seq<Node<'a>>, node: Node<'a>) -> bool {
    stack.last().children@.len() > 0 && merges_into(stack.last().children@.last(), node)
}

/// The stack after `node` folded into the last child of its top: only that
/// child changed.
pub open spec fn folded<'a>(before: Seq<Node<'a>>, node: Node<'a>, source: &str, after: Seq<Node<'a>>) -> bool {
    let top = before.last();
    let new_top = after.last();
    &&& after.len() == before.len()
    &&& after.drop_last() == before.drop_last()
    &&& new_top == (Node { children: new_top.children, ..top })
    &&& new_top.children@.len() == top.children@.len()
    &&& new_top.children@.drop_last() == top.children@.drop_last()
    &&& merged(top.children@.last(), node, source, new_top.children@.last())
}

/// The stack after `node` became the next child of its top.
pub open spec fn child_pushed<'a>(before: Seq<Node<'a>>, node: Node<'a>, after: Seq<Node<'a>>) -> bool {
    &&& after.len() == before.len()
    &&& after.drop_last() == before.drop_last()
    &&& after.last() == (Node { children: after.last().children, ..before.last() })
    &&& after.last().children@ == before.last().children@.push(node)
}

/// The slot `name` set to `node`: a present name keeps its place.
pub open spec fn slot_set<'a>(
    before: Seq<(String, Node<'a>)>,
    name: Seq<char>,
    node: Node<'a>,
    after: Seq<(String, Node<'a>)>,
) -> bool {
    let i = crate::ast::key_index(before, name);
    if i >= 0 {
        &&& after.len() == before.len()
        &&& after[i].0@ == name
        &&& after[i].1 == node
        &&& forall|j: int| 0 <= j < before.len() && j != i ==> #[trigger] after[j] == before[j]
    } else {
        after.len() == before.len() + 1 && after.drop_last() == before && after.last().0@ == name
            && after.last().1 == node
    }
}

/// The name a slot tag fills: its `primary` attribute, when it is a string.
pub open spec fn slot_name<'a>(n: Node<'a>) -> Option<Seq<char>> {
    let k = crate::ast::key_index(n.attributes@, "primary"@);
    if n.tag matches Some(t) && t@ == "slot"@ && k >= 0 {
        match n.attributes@[k].1 {
            Value::String(t) => Some(t@),
            _ => None,
        }
    } else {
        None
    }
}

/// What attaching `node` does to the stack: fold it into the text before
/// it, or, when slots are read and it is a named slot, fill its parent's
/// slot, or else make it the next child.
pub open spec fn attached<'a>(
    before: Seq<Node<'a>>,
    node: Node<'a>,
    slots: bool,
    source: &str,
    after: Seq<Node<'a>>,
) -> bool {
    if folds(before, node) {
        folded(before, node, source, after)
    } else if slots && slot_name(node) is Some {
        &&& after.len() == before.len()
        &&& after.drop_last() == before.drop_last()
        &&& after.last() == (Node { slots: after.last().slots, ..before.last() })
        &&& slot_set(before.last().slots@, slot_name(node)->0, node, after.last().slots@)
    } else {
        child_pushed(before, node, after)
    }
}

/// A node made for a span: of its type, with nothing in it, inline when an
/// inline run is open, located when locations are asked for.
pub open spec fn made<'a>(n: Node<'a>, node_type: NodeType, inline: bool, located: bool) -> bool {
    &&& n.node_type == node_type
    &&& n.tag is None
    &&& n.children@.len() == 0
    &&& n.slots@.len() == 0
    &&& n.errors@.len() == 0
    &&& n.annotations@.len() == 0
    &&& n.inline == inline
    &&& n.lines@.len() == 2
    &&& (n.location is Some <==> located)
}

/// The node markup becomes: a comment holding what is between `<!--` and
/// `-->`, trimmed, when comments are on and the markup is one; otherwise a
/// text node holding the markup verbatim.
pub open spec fn html_made<'a>(raw: Seq<char>, comments: bool, inline: bool, located: bool, n: Node<'a>) -> bool {
    let t = trim_spec(raw);
    if comments && is_comment(t) {
        &&& made(n, NodeType::Comment, inline, located)
        &&& crate::ast::entries_view(n.attributes@) == seq![
            ("content"@, crate::ast::SpecValue::String(trim_spec(t.subrange(4, t.len() - 3)))),
        ]
    } else {
        &&& made(n, NodeType::Text, inline, located)
        &&& crate::ast::entries_view(n.attributes@) == seq![
            ("content"@, crate::ast::SpecValue::String(raw)),
        ]
    }
}

/// A text node holding `t`, made for a span.
pub open spec fn text_made<'a>(t: Seq<char>, inline: bool, located: bool, n: Node<'a>) -> bool {
    &&& made(n, NodeType::Text, inline, located)
    &&& crate::ast::entries_view(n.attributes@) == seq![
        ("content"@, crate::ast::SpecValue::String(t)),
    ]
}

/// A list's attributes: whether it is ordered, its start when an ordered
/// list does not start at 1, and its marker.
pub open spec fn list_attrs(ordered: bool, start: Option<u64>, marker: Seq<char>) -> Seq<
    (Seq<char>, crate::ast::SpecValue),
> {
    seq![("ordered"@, crate::ast::SpecValue::Boolean(ordered))] + (if ordered && start is Some
        && start->0 != 1 {
        seq![("start"@, crate::ast::SpecValue::Number(decimal(start->0 as nat)))]
    } else {
        Seq::empty()
    }) + seq![("marker"@, crate::ast::SpecValue::String(marker))]
}

/// Whether a heading's source starts, after whitespace, with `#`.
pub open spec fn is_atx(t: Seq<char>) -> bool {
    lead_ws(t) < t.len() && t[lead_ws(t) as int] == '#'
}

/// The `content` text of each node, concatenated.
pub open spec fn all_content<'a>(nodes: Seq<Node<'a>>) -> Seq<char>
    decreases nodes.len(),
{
    if nodes.len() == 0 {
        Seq::empty()
    } else {
        all_content(nodes.drop_last()) + content_of(nodes.last())
    }
}

/// Markdoc's link rule over the host's protocol names: the text before the
/// first closed tag, back to the preceding whitespace, holds one of them
/// followed by `://`.
pub open spec fn links_tag(b: Seq<u8>, protocols: Seq<String>) -> bool {
    let pos = first_closed_tag(b, 0);
    pos >= 0 && exists|i: int|
        0 <= i < protocols.len() && contains_bytes(
            b.subrange(word_start(b, pos), pos),
            encode_utf8(#[trigger] protocols[i]@) + seq![58u8, 47u8, 47u8],
        )
}

/// The link rule reads the protocol names by their text alone.
proof fn lemma_links_tag(b: Seq<u8>, names: Seq<&str>, protocols: Seq<String>)
    requires
        names.len() == protocols.len(),
        forall|j: int| 0 <= j < names.len() ==> (#[trigger] names[j])@ == protocols[j]@,
    ensures
        tag_in_url(b, names) == links_tag(b, protocols),
{
    let pos = first_closed_tag(b, 0);
    let w = b.subrange(word_start(b, pos), pos);
    if tag_in_url(b, names) {
        let i = choose|i: int|
            0 <= i < names.len() && contains_bytes(w, scheme_marker(#[trigger] names[i]));
        assert(names[i]@ == protocols[i]@);
        assert(contains_bytes(w, encode_utf8(protocols[i]@) + seq![58u8, 47u8, 47u8]));
    }
    if links_tag(b, protocols) {
        let i = choose|i: int|
            0 <= i < protocols.len() && contains_bytes(
                w,
                encode_utf8(#[trigger] protocols[i]@) + seq![58u8, 47u8, 47u8],
            );
        assert(names[i]@ == protocols[i]@);
        assert(contains_bytes(w, scheme_marker(names[i])));
    }
}

/// What applying `attributes` does to a node: the attributes and
/// annotations grow in authored order, a duplicate name is reported, and the
/// rest stays.
pub open spec fn annotated<'a>(before: Node<'a>, attributes: Seq<SpecAttribute>, after: Node<'a>) -> bool {
    &&& crate::ast::entries_view(after.attributes@) == annotate_all(
        crate::ast::entries_view(before.attributes@),
        attributes,
    )
    &&& attributes_view(after.annotations@) == attributes_view(before.annotations@) + attributes
    &&& after.errors@.len() == before.errors@.len() + duplicates(
        crate::ast::entries_view(before.attributes@),
        attributes,
    )
    &&& forall|k: int|
        before.errors@.len() <= k < after.errors@.len()
            ==> (#[trigger] after.errors@[k]).id@ == "duplicate-attribute"@
    &&& forall|k: int| 0 <= k < before.errors@.len() ==> #[trigger] after.errors@[k] == before.errors@[k]
    &&& after.node_type == before.node_type
    &&& after.tag == before.tag
    &&& after.children == before.children
    &&& after.slots == before.slots
    &&& after.lines == before.lines
    &&& after.inline == before.inline
    &&& after.location == before.location
}

/// An open tag closed by `span`: its lines gain the closing tag's, and its
/// location, when it has one, runs on to the closing tag's end.
pub open spec fn closed_at<'a>(top: Node<'a>, span: TagSpan, lines: Lines<'a>, source: &str, n: Node<'a>) -> bool {
    &&& n == (Node { lines: n.lines, location: n.location, ..top })
    &&& n.lines@ == top.lines@ + seq![span.lines[0], span.lines[1]]
    &&& match top.location {
        None => n.location is None,
        Some(open) => (n.location matches Some(l) && l.file == open.file && l.start == open.start
            && is_position_of(lines.starts(), span.outer.end, l.end) && l.text@ == slice_chars(
            source,
            open.start.offset as int,
            span.outer.end as int,
        )),
    }
}

/// A closing tag with nothing open to close: a tag of that name, marked as
/// missing its opening.
pub open spec fn unopened<'a>(n: Node<'a>, name: Seq<char>, inline: bool, located: bool) -> bool {
    &&& n.node_type == NodeType::Tag
    &&& (n.tag matches Some(t) && t@ == name)
    &&& n.children@.len() == 0
    &&& n.slots@.len() == 0
    &&& n.annotations@.len() == 0
    &&& n.attributes@.len() == 0
    &&& n.inline == inline
    &&& n.lines@.len() == 2
    &&& (n.location is Some <==> located)
    &&& n.errors@.len() == 1
    &&& n.errors@[0].id@ == "missing-opening"@
    &&& n.errors@[0].level == ErrorLevel::Critical
    &&& n.errors@[0].message@ == crate::ast::missing_opening_message(name)
    &&& n.errors@[0].location is None
}

/// A node as `Node::new` makes it.
pub open spec fn fresh<'a>(n: Node<'a>, node_type: NodeType) -> bool {
    &&& n.node_type == node_type
    &&& n.tag is None
    &&& n.attributes@.len() == 0
    &&& n.children@.len() == 0
    &&& n.slots@.len() == 0
    &&& n.errors@.len() == 0
    &&& n.lines@.len() == 0
    &&& n.annotations@.len() == 0
    &&& !n.inline
    &&& n.location is None
}

/// The soft break a `===` underline becomes.
pub open spec fn underline_break<'a>(n: Node<'a>) -> bool {
    &&& n.node_type == NodeType::Softbreak
    &&& n.tag is None
    &&& n.attributes@.len() == 0
    &&& n.children@.len() == 0
    &&& n.slots@.len() == 0
    &&& n.errors@.len() == 0
    &&& n.lines@.len() == 0
    &&& n.annotations@.len() == 0
    &&& n.inline
    &&& n.location is None
}

/// The text a `===` underline becomes.
pub open spec fn underline_text<'a>(n: Node<'a>, t: Seq<char>) -> bool {
    &&& n.node_type == NodeType::Text
    &&& n.tag is None
    &&& crate::ast::entries_view(n.attributes@) == seq![("content"@, crate::ast::SpecValue::String(t))]
    &&& n.children@.len() == 0
    &&& n.slots@.len() == 0
    &&& n.errors@.len() == 0
    &&& n.lines@.len() == 0
    &&& n.annotations@.len() == 0
    &&& n.inline
    &&& n.location is None
}

/// An inline run that took a `===` underline: a soft break, then the
/// underline's text.
pub open spec fn inline_extended<'a>(before: Node<'a>, t: Seq<char>, after: Node<'a>) -> bool {
    &&& after == (Node { children: after.children, ..before })
    &&& after.children@.len() == before.children@.len() + 2
    &&& after.children@.take(before.children@.len() as int) == before.children@
    &&& underline_break(after.children@[before.children@.len() as int])
    &&& underline_text(after.children@[before.children@.len() + 1int], t)
}

/// A paragraph under a `===` underline: its first inline run, when it has
/// one, takes the underline.
pub open spec fn setext_joined<'a>(before: Node<'a>, t: Seq<char>, after: Node<'a>) -> bool {
    &&& after == (Node { children: after.children, ..before })
    &&& after.children@.len() == before.children@.len()
    &&& if exists|i: int| 0 <= i < before.children@.len() && (#[trigger] before.children@[i]).node_type
        == NodeType::Inline {
        exists|i: int|
            0 <= i < before.children@.len() && (#[trigger] before.children@[i]).node_type
                == NodeType::Inline && (forall|j: int|
                0 <= j < i ==> (#[trigger] before.children@[j]).node_type != NodeType::Inline)
                && after.children@ == before.children@.update(i, after.children@[i])
                && inline_extended(before.children@[i], t, after.children@[i])
    } else {
        after.children@ == before.children@
    }
}

/// A stack with its innermost node closed and attached to what is open
/// around it; the document itself stays, and a bare node is attached in its
/// place.
pub open spec fn popped_attached<'a>(before: Seq<Node<'a>>, slots: bool, source: &str, after: Seq<Node<'a>>) -> bool {
    if before.len() > 1 {
        attached(before.drop_last(), before.last(), slots, source, after)
    } else {
        exists|n: Node<'a>| fresh(n, NodeType::Node) && attached(before, n, slots, source, after)
    }
}

/// An image as it closes: its children give way to their text, as `alt`.
pub open spec fn image_closed<'a>(n: Node<'a>, m: Node<'a>) -> bool {
    &&& m == (Node { children: m.children, attributes: m.attributes, ..n })
    &&& m.children@.len() == 0
    &&& crate::ast::entries_view(m.attributes@) == crate::grammar::peg::spec_insert(
        crate::ast::entries_view(n.attributes@),
        "alt"@,
        crate::ast::SpecValue::String(all_content(crate::ast::descendants(n))),
    )
}

/// The node an opening tag makes: a tag of that name on the tag's lines,
/// annotated with its attributes.
pub open spec fn opened_tag<'a>(
    n: Node<'a>,
    name: Seq<char>,
    attributes: Seq<SpecAttribute>,
    span: TagSpan,
    inline: bool,
    located: bool,
) -> bool {
    &&& n.node_type == NodeType::Tag
    &&& (n.tag matches Some(t) && t@ == name)
    &&& n.children@.len() == 0
    &&& n.slots@.len() == 0
    &&& n.inline == inline
    &&& n.lines@ == seq![span.lines[0], span.lines[1]]
    &&& (n.location is Some <==> located)
    &&& crate::ast::entries_view(n.attributes@) == annotate_all(Seq::empty(), attributes)
    &&& attributes_view(n.annotations@) == attributes
    &&& n.errors@.len() == duplicates(Seq::empty(), attributes)
    &&& forall|k: int| 0 <= k < n.errors@.len() ==> (#[trigger] n.errors@[k]).id@ == "duplicate-attribute"@
}

/// The text node a bare value makes.
pub open spec fn variable_node<'a>(n: Node<'a>, value: crate::ast::SpecValue, inline: bool, located: bool) -> bool {
    &&& made(n, NodeType::Text, n.inline, located)
    &&& n.inline == inline
    &&& crate::ast::entries_view(n.attributes@) == seq![("content"@, value)]
}

/// The error node a body that does not parse makes: one parse error, with
/// the parser's message and where it failed.
pub open spec fn error_node<'a>(n: Node<'a>, body: Seq<char>, inline: bool, located: bool) -> bool {
    &&& n.node_type == NodeType::Error
    &&& n.tag is None
    &&& n.children@.len() == 0
    &&& n.slots@.len() == 0
    &&& n.annotations@.len() == 0
    &&& n.inline == inline
    &&& n.lines@.len() == 2
    &&& (n.location is Some <==> located)
    &&& n.attributes@.len() == 0
    &&& n.errors@.len() == 1
    &&& n.errors@[0].id@ == "parse-error"@
    &&& n.errors@[0].level == ErrorLevel::Critical
    &&& n.errors@[0].location is Some
    &&& exists|e: TagError| explains(body, e) && n.errors@[0].message@ == e.spec_message()
}

/// `after` is `before` with one node opened on it, made for a span, with
/// the attributes `attrs`.
pub open spec fn pushed_made<'a>(
    before: Seq<Node<'a>>,
    node_type: NodeType,
    inline: bool,
    located: bool,
    attrs: Seq<(Seq<char>, crate::ast::SpecValue)>,
    after: Seq<Node<'a>>,
) -> bool {
    &&& after.len() == before.len() + 1
    &&& after.drop_last() == before
    &&& made(after.last(), node_type, inline, located)
    &&& crate::ast::entries_view(after.last().attributes@) == attrs
}

/// A link's attributes: its destination, then its title when it has one.
pub open spec fn link_attrs(dest: Seq<char>, title: Seq<char>) -> Seq<(Seq<char>, crate::ast::SpecValue)> {
    seq![("href"@, crate::ast::SpecValue::String(dest))] + title_attr(title)
}

/// An image's attributes: an empty `alt`, its source, then its title when it
/// has one.
pub open spec fn image_attrs(src: Seq<char>, title: Seq<char>) -> Seq<(Seq<char>, crate::ast::SpecValue)> {
    seq![
        ("alt"@, crate::ast::SpecValue::String(Seq::empty())),
        ("src"@, crate::ast::SpecValue::String(src)),
    ] + title_attr(title)
}

/// A `title` attribute, unless the title is empty.
pub open spec fn title_attr(title: Seq<char>) -> Seq<(Seq<char>, crate::ast::SpecValue)> {
    if title.len() > 0 {
        seq![("title"@, crate::ast::SpecValue::String(title))]
    } else {
        Seq::empty()
    }
}

/// A table cell's attributes: its column's alignment, when it has one.
pub open spec fn align_attrs(a: Alignment) -> Seq<(Seq<char>, crate::ast::SpecValue)> {
    match alignment_name(a) {
        Some(t) => seq![("align"@, crate::ast::SpecValue::String(t))],
        None => Seq::empty(),
    }
}

/// The inline tags that lie within `span`, in order.
pub open spec fn inside(tags: Seq<TagSpan>, span: Range<usize>) -> Seq<TagSpan>
    decreases tags.len(),
{
    if tags.len() == 0 {
        Seq::empty()
    } else {
        let rest = inside(tags.drop_last(), span);
        let t = tags.last();
        if t.outer.start >= span.start && t.outer.end <= span.end {
            rest.push(t)
        } else {
            rest
        }
    }
}

/// Where the text before the `j`th tag of a run starts: at the run's start,
/// or where the tag before it ends.
pub open spec fn cursor_before(tags: Seq<TagSpan>, span: Range<usize>, j: int) -> usize {
    if j == 0 {
        span.start
    } else {
        tags[j - 1].outer.end
    }
}

/// A code block's node, before its content is read for tags: its content,
/// its language (the info string's first word, unless that opens a tag),
/// and whatever the info string's first closed tag annotates it with; a tag
/// that does not parse is reported.
pub open spec fn fence_built<'a>(n: Node<'a>, content: Seq<char>, info: Seq<char>, inline: bool, located: bool) -> bool {
    let base = fence_attrs(content, info.take(space_at(info, 0)));
    &&& n.node_type == NodeType::Fence
    &&& n.tag is None
    &&& n.children@.len() == 0
    &&& n.slots@.len() == 0
    &&& n.inline == inline
    &&& n.lines@.len() == 2
    &&& (n.location is Some <==> located)
    &&& match info_body(info) {
        Some(body) => match parses_to(body) {
            Some(SpecTagItem::Annotation(attrs)) => fence_annotated(n, base, attrs),
            Some(SpecTagItem::TagOpen(_, attrs, _)) => fence_annotated(n, base, attrs),
            Some(_) => fence_plain(n, base),
            None => {
                &&& crate::ast::entries_view(n.attributes@) == base
                &&& n.annotations@.len() == 0
                &&& n.errors@.len() == 1
                &&& n.errors@[0].id@ == "fence-tag-error"@
                &&& n.errors@[0].level == ErrorLevel::Error
                &&& n.errors@[0].location is None
                &&& exists|e: TagError|
                    explains(body, e) && n.errors@[0].message@ == "Syntax error in fence tag: "@
                        + e.spec_message()
            },
        },
        None => fence_plain(n, base),
    }
}

/// A fence node with just its own attributes.
pub open spec fn fence_plain<'a>(n: Node<'a>, base: Seq<(Seq<char>, crate::ast::SpecValue)>) -> bool {
    &&& crate::ast::entries_view(n.attributes@) == base
    &&& n.annotations@.len() == 0
    &&& n.errors@.len() == 0
}

/// A fence node annotated by its info tag's attributes.
pub open spec fn fence_annotated<'a>(
    n: Node<'a>,
    base: Seq<(Seq<char>, crate::ast::SpecValue)>,
    attrs: Seq<SpecAttribute>,
) -> bool {
    &&& crate::ast::entries_view(n.attributes@) == annotate_all(base, attrs)
    &&& attributes_view(n.annotations@) == attrs
    &&& n.errors@.len() == duplicates(base, attrs)
    &&& forall|k: int| 0 <= k < n.errors@.len() ==> (#[trigger] n.errors@[k]).id@ == "duplicate-attribute"@
}

/// A fence's own attributes: its content, then its language when it has one.
pub open spec fn fence_attrs(content: Seq<char>, lang: Seq<char>) -> Seq<(Seq<char>, crate::ast::SpecValue)> {
    seq![("content"@, crate::ast::SpecValue::String(content))] + if lang.len() > 0 && lang != seq!['{', '%'] {
        seq![("language"@, crate::ast::SpecValue::String(lang))]
    } else {
        Seq::empty()
    }
}

/// The index of the first space at or after `w`, or the length.
pub open spec fn space_at(s: Seq<char>, w: int) -> int
    decreases s.len() - w,
{
    if w < 0 || w >= s.len() || s[w] == ' ' {
        w
    } else {
        space_at(s, w + 1)
    }
}

/// The first `{%` at or after `i`.
pub open spec fn first_open(b: Seq<u8>, i: int) -> Option<int>
    decreases b.len() - i,
{
    if i < 0 || i >= b.len() {
        None
    } else if opens_at(b, i) {
        Some(i)
    } else {
        first_open(b, i + 1)
    }
}

/// The trimmed body of an info string's first tag, when that tag closes.
pub open spec fn info_body(info: Seq<char>) -> Option<Seq<char>> {
    let b = encode_utf8(info);
    match first_open(b, 0) {
        Some(start) => match tag_end(b, start) {
            Some(end) => Some(
                trim_spec(
                    match sub_chars(b, start + 2, end) {
                        Some(t) => t,
                        None => Seq::empty(),
                    },
                ),
            ),
            None => None,
        },
        None => None,
    }
}

/// `first_open` finds the first `{%` from `k` on.
proof fn lemma_first_open(b: Seq<u8>, k: int, i: Option<int>)
    requires
        0 <= k,
        i matches Some(x) ==> k <= x && opens_at(b, x) && forall|j: int| k <= j < x ==> !opens_at(b, j),
        i is None ==> forall|j: int| k <= j < b.len() ==> !opens_at(b, j),
    ensures
        first_open(b, k) == i,
    decreases b.len() - k,
{
    if k < b.len() {
        if !opens_at(b, k) {
            lemma_first_open(b, k + 1, i);
        }
    } else {
        if let Some(x) = i {
            assert(opens_at(b, x));
        }
    }
}

/// Whether a node's `process` attribute is `true`.
pub open spec fn processed<'a>(n: Node<'a>) -> bool {
    let i = crate::ast::key_index(n.attributes@, "process"@);
    i >= 0 && n.attributes@[i].1 matches Value::Boolean(true)
}

/// The first `{%` at or after `pos` whose tag closes, with where its `%}`
/// is.
pub open spec fn next_tag(b: Seq<u8>, pos: int) -> Option<(int, int)>
    decreases b.len() - pos,
{
    if pos < 0 || pos >= b.len() {
        None
    } else if opens_at(b, pos) {
        match tag_end(b, pos) {
            Some(e) => Some((pos, e)),
            None => next_tag(b, pos + 2),
        }
    } else {
        next_tag(b, pos + 1)
    }
}

/// Where the scan for the `j`th tag of a fence starts: at the start, or
/// just past the tag before it.
pub open spec fn tag_cursor(tags: Seq<(int, int)>, j: int) -> int {
    if j == 0 {
        0
    } else {
        tags[j - 1].1 + 2
    }
}

/// The offset of the last newline before `pos`, if there is one.
pub open spec fn break_before(b: Seq<u8>, pos: int) -> Option<int>
    decreases pos,
{
    if pos <= 0 {
        None
    } else if b[pos - 1] == 10u8 {
        Some(pos - 1)
    } else {
        break_before(b, pos - 1)
    }
}

/// The offset of the first newline at or after `pos`, or the end.
pub open spec fn line_end_from(b: Seq<u8>, pos: int) -> int
    decreases b.len() - pos,
{
    if pos < 0 || pos >= b.len() || b[pos] == 10u8 {
        pos
    } else {
        line_end_from(b, pos + 1)
    }
}

/// `base + x`, saturating.
pub open spec fn sat_add(base: usize, x: int) -> usize {
    if base + x <= usize::MAX {
        (base + x) as usize
    } else {
        usize::MAX
    }
}

/// A code block's info string, or nothing.
spec fn fence_info(f: Fence) -> Seq<char> {
    match f.info {
        Some(i) => i@,
        None => Seq::empty(),
    }
}

/// Where a code block's content starts in the source.
spec fn fence_base(f: Fence) -> usize {
    match f.content_start {
        Some(b) => b,
        None => f.span.start,
    }
}

/// A node still open at the end, marked as missing its closing tag.
pub open spec fn missing_closed<'a>(node: Node<'a>, n: Node<'a>) -> bool {
    &&& n == (Node { errors: n.errors, ..node })
    &&& n.errors@.len() == node.errors@.len() + 1
    &&& n.errors@.drop_last() == node.errors@
    &&& n.errors@.last().id@ == "missing-closing"@
    &&& n.errors@.last().level == ErrorLevel::Critical
    &&& n.errors@.last().message@ == crate::ast::missing_closing_message(crate::ast::node_name(node))
    &&& n.errors@.last().location is None
}

/// A tokenizer's span, shifted to where its block starts in the source.
pub open spec fn shifted(base: usize, r: Range<usize>) -> Range<usize> {
    Range { start: sat_add(base, r.start as int), end: sat_add(base, r.end as int) }
}

/// The masked text of a Markdown block's range, or nothing when the range
/// splits a character.
pub open spec fn md_text(masked: Seq<char>, start: usize, end: usize) -> Seq<char> {
    match sub_chars(encode_utf8(masked), start as int, end as int) {
        Some(t) => t,
        None => Seq::empty(),
    }
}

/// What `segment` gives for `source`.
pub open spec fn segmented(source: &str, seg: Segmentation) -> bool {
    let spec = crate::parse::segment::segment_spec(source.spec_bytes());
    &&& crate::parse::segment::blocks_view(seg.blocks@) == spec.blocks
    &&& crate::parse::segment::spans_view(seg.inline_tags@) == spec.inline
    &&& seg.masked@ == if vstd::utf8::valid_utf8(spec.masked) {
        vstd::utf8::decode_utf8(spec.masked)
    } else {
        source@
    }
}

/// The document `parse_with` builds from `source`: the source is segmented,
/// each Markdown block's masked text is handed to `tokenizer`, and whatever
/// events it reports, with the block-level and inline tags between them, are
/// lifted into the tree event by event, then every node still open is closed.
pub closed spec fn parsed<'s, 'o, T: Tokenizer>(
    source: &'s str,
    tokenizer: &T,
    options: &'o ParseOptions<'s>,
    n: Node<'s>,
) -> bool {
    exists|b: Builder<'s, 'o>, seg: Segmentation|
        #![trigger b.fresh(source, options), segmented(source, seg)]
        b.fresh(source, options) && segmented(source, seg) && b.ran(seg, tokenizer, n)
}

/// The offset of a span's last byte, or its start when it is empty.
pub open spec fn last_byte(span: Range<usize>) -> usize {
    if span.end > span.start {
        (span.end - 1) as usize
    } else {
        span.start
    }
}

/// The half-open line pair of a span: the line its first byte is on, and
/// one past the line its last byte is on (an empty span's own line).
pub open spec fn line_pair_of(starts: Seq<usize>, span: Range<usize>, r: Seq<usize>) -> bool {
    exists|p: crate::ast::Position, q: crate::ast::Position|
        #![trigger is_position_of(starts, span.start, p), is_position_of(starts, last_byte(span), q)]
        is_position_of(starts, span.start, p) && is_position_of(starts, last_byte(span), q) && r == seq![
            p.line,
            if q.line < usize::MAX { (q.line + 1) as usize } else { q.line },
        ]
}

/// Where `lines` puts the byte range `range` of its source, clamped to it.
pub open spec fn located<'a>(lines: Lines<'a>, range: Range<usize>, file: Option<&'a str>, l: Location<'a>) -> bool {
    let len = lines.spec_source().spec_bytes().len() as usize;
    let start = if range.start <= len { range.start } else { len };
    let end = if range.end < start { start } else if range.end > len { len } else { range.end };
    &&& l.file == file
    &&& is_position_of(lines.starts(), start, l.start)
    &&& is_position_of(lines.starts(), end, l.end)
    &&& (str_get_spec(lines.spec_source(), start, end) ==> l.text.spec_bytes()
        == lines.spec_source().spec_bytes().subrange(start as int, end as int))
    &&& (!str_get_spec(lines.spec_source(), start, end) ==> l.text@ == Seq::<char>::empty())
}

/// The error a block gets when an annotation cannot reach it.
pub open spec fn no_annotations_error<'a>(
    e: ValidationError<'a>,
    name: Seq<char>,
    lines: Lines<'a>,
    range: Range<usize>,
    file: Option<&'a str>,
) -> bool {
    &&& e.id@ == "no-inline-annotations"@
    &&& e.level == ErrorLevel::Error
    &&& e.message@ == crate::ast::no_inline_annotations_message(name)
    &&& e.location matches Some(l) && located(lines, range, file, l)
}

/// The error a link whose destination holds a tag gets.
pub open spec fn is_href_invalid<'a>(e: ValidationError<'a>) -> bool {
    &&& e.id@ == "href-format-invalid"@
    &&& e.level == ErrorLevel::Error
    &&& e.message@
        == "The 'href' format cannot contain Markdoc tag or variable. URLs must be static strings."@
    &&& e.location is None
}

/// Whether markup, trimmed, is an HTML comment: `<!--`, then `-->` at the
/// end, seven characters at least.
pub open spec fn is_comment(t: Seq<char>) -> bool {
    &&& t.len() >= 7
    &&& t[0] == '<' && t[1] == '!' && t[2] == '-' && t[3] == '-'
    &&& t[t.len() - 3] == '-' && t[t.len() - 2] == '-' && t[t.len() - 1] == '>'
}

/// A fenced or indented code block being accumulated: its node is built at
/// the close, once the content is known.
struct Fence {
    span: Range<usize>,
    info: Option<String>,
    content: Vec<char>,
    content_start: Option<usize>,
}

/// Builds one document.
struct Builder<'s, 'o> {
    source: &'s str,
    lines: Lines<'s>,
    options: &'o ParseOptions<'s>,
    /// Open nodes, innermost last; the document is at the bottom.
    stack: Vec<Node<'s>>,
    /// Where in the stack the block that owns the open inline run is.
    inline_parent: Option<usize>,
    /// The source span of the open inline run.
    inline_span: Option<Range<usize>>,
    /// The underline of the open setext heading.
    setext: Option<Range<usize>>,
    fence: Option<Fence>,
    /// Consecutive block-level HTML, waiting to be read as one thing.
    html_block: Option<Range<usize>>,
    /// Column alignments of the innermost open table.
    alignments: Vec<Alignment>,
    /// Which column the next cell is.
    column: usize,
    /// Whether the open row is in the header.
    in_head: bool,
    /// Whether a synthesised `tbody` is open.
    in_body: bool,
}

impl<'s, 'o> Builder<'s, 'o> {
    /// The stack is never empty, and the inline run's owner is on it.
    spec fn wf(&self) -> bool {
        &&& self.stack@.len() >= 1
        &&& self.stack@[0].node_type == NodeType::Document
    }

    /// The same source, options and inline run as `other`.
    spec fn same_frame(&self, other: Self) -> bool {
        &&& self.source == other.source
        &&& self.options == other.options
        &&& self.lines == other.lines
        &&& self.inline_parent == other.inline_parent
        &&& self.inline_span == other.inline_span
        &&& self.setext == other.setext
        &&& self.html_block == other.html_block
        &&& self.fence == other.fence
    }

    /// The innermost node, closed and attached to what is open around it; the
    /// document itself stays, and a bare node is attached in its place.
    spec fn top_closed(&self, after: Seq<Node<'s>>) -> bool {
        popped_attached(self.stack@, self.options.slots, self.source, after)
    }

    /// What closing a container of `kind` leaves: `after`. An inline
    /// container closes; an image also trades its children for their text,
    /// as `alt`. Any other closes the inline run first, then its own nodes:
    /// a table head its row too, a table its synthesised body.
    spec fn container_ended(&self, kind: ContainerKind, after: Self) -> bool {
        let slots = self.options.slots;
        match kind {
            ContainerKind::Emphasis => self.top_closed(after.stack@),
            ContainerKind::Strong => self.top_closed(after.stack@),
            ContainerKind::Strikethrough => self.top_closed(after.stack@),
            ContainerKind::Link => self.top_closed(after.stack@),
            ContainerKind::Image => exists|n: Node<'s>| #![trigger self.closing(n)]
                self.closing(n) && exists|m: Node<'s>|
                    image_closed(n, m) && attached(self.below_top(), m, slots, self.source, after.stack@),
            _ => exists|mid: Self| #![trigger self.inline_closed(mid)]
                {
                    &&& mid.wf()
                    &&& self.inline_closed(mid)
                    &&& match kind {
                        ContainerKind::Heading => mid.heading_closed(after.stack@),
                        ContainerKind::TableHead => !after.in_head && exists|s1: Seq<Node<'s>>|
                            popped_attached(mid.stack@, slots, self.source, s1) && popped_attached(
                                s1,
                                slots,
                                self.source,
                                after.stack@,
                            ),
                        ContainerKind::Table => !after.in_body && if mid.in_body {
                            exists|s1: Seq<Node<'s>>|
                                popped_attached(mid.stack@, slots, self.source, s1) && popped_attached(
                                    s1,
                                    slots,
                                    self.source,
                                    after.stack@,
                                )
                        } else {
                            popped_attached(mid.stack@, slots, self.source, after.stack@)
                        },
                        _ => popped_attached(mid.stack@, slots, self.source, after.stack@),
                    }
                },
        }
    }

    /// The innermost node of the stack `self` leaves behind: itself when the
    /// document is all that is open.
    spec fn closing(&self, n: Node<'s>) -> bool {
        if self.stack@.len() > 1 {
            n == self.stack@.last()
        } else {
            fresh(n, NodeType::Node)
        }
    }

    /// The stack with its innermost node taken off, the document excepted.
    spec fn below_top(&self) -> Seq<Node<'s>> {
        if self.stack@.len() > 1 {
            self.stack@.drop_last()
        } else {
            self.stack@
        }
    }

    /// What closing a heading does to the stack `after`. An ATX heading
    /// closes. Under a `===` underline the paragraph's inline run takes a
    /// soft break and the underline as text; under `---` the paragraph
    /// closes and a thematic break follows it.
    spec fn heading_closed(&self, after: Seq<Node<'s>>) -> bool {
        match self.setext {
            None => self.top_closed(after),
            Some(u) => {
                let text = slice_chars(self.source, u.start as int, u.end as int);
                let kept = text.take(text.len() - trail_ws(text));
                exists|n: Node<'s>| #![trigger self.closing(n)]
                    self.closing(n) && if lead_ws(text) < text.len() && text[lead_ws(text) as int] == '=' {
                        exists|m: Node<'s>|
                            setext_joined(n, kept, m) && attached(
                                self.below_top(),
                                m,
                                self.options.slots,
                                self.source,
                                after,
                            )
                    } else {
                        exists|mid: Seq<Node<'s>>, r: Node<'s>|
                            attached(self.below_top(), n, self.options.slots, self.source, mid) && made(
                                r,
                                NodeType::Hr,
                                self.inline_parent is Some,
                                self.options.location,
                            ) && r.attributes@.len() == 0 && attached(
                                mid,
                                r,
                                self.options.slots,
                                self.source,
                                after,
                            )
                    }
            },
        }
    }

    /// What one `{% ... %}` in `span` does to the stack `after`, by what its
    /// trimmed body parses to.
    spec fn tag_done(&self, span: TagSpan, inline: bool, after: Seq<Node<'s>>) -> bool {
        let body = trim_spec(slice_chars(self.source, span.inner.start as int, span.inner.end as int));
        let slots = self.options.slots;
        let located = self.options.location;
        match parses_to(body) {
            Some(SpecTagItem::TagOpen(name, attributes, self_closing)) => self.tag_opened(
                name,
                attributes,
                self_closing,
                span,
                inline,
                after,
            ),
            Some(SpecTagItem::TagClose(name)) => self.tag_closed(name, span, inline, after),
            Some(SpecTagItem::Annotation(attributes)) => self.annotation_done(attributes, span, after),
            Some(SpecTagItem::Variable(value)) => exists|n: Node<'s>|
                variable_node(n, value, inline, located) && attached(self.stack@, n, slots, self.source, after),
            None => exists|n: Node<'s>|
                error_node(n, body, inline, located) && attached(self.stack@, n, slots, self.source, after),
        }
    }

    /// What an opening tag does to the stack `after`: its node opens, or,
    /// when it closes itself, is attached.
    spec fn tag_opened(
        &self,
        name: Seq<char>,
        attributes: Seq<SpecAttribute>,
        self_closing: bool,
        span: TagSpan,
        inline: bool,
        after: Seq<Node<'s>>,
    ) -> bool {
        exists|n: Node<'s>|
            #![trigger opened_tag(n, name, attributes, span, inline, self.options.location)]
            opened_tag(n, name, attributes, span, inline, self.options.location) && if self_closing {
                attached(self.stack@, n, self.options.slots, self.source, after)
            } else {
                after == self.stack@.push(n)
            }
    }

    /// What opening the inline run for `span` leaves: `after`. The run's span
    /// grows to cover `span`; when no run is open, an empty `inline` node
    /// opens on the block's lines and owns the run.
    spec fn inline_opened(&self, span: Range<usize>, after: Self) -> bool {
        &&& after.source == self.source
        &&& after.options == self.options
        &&& extended(self.inline_span, span, after.inline_span)
        &&& self.inline_parent is Some ==> after.stack@ == self.stack@ && after.inline_parent
            == self.inline_parent
        &&& self.inline_parent is None ==> {
            &&& after.inline_parent == Some((self.stack@.len() - 1) as usize)
            &&& after.stack@.len() == self.stack@.len() + 1
            &&& after.stack@.drop_last() == self.stack@
            &&& after.stack@.last().node_type == NodeType::Inline
            &&& after.stack@.last().lines@ == self.stack@.last().lines@
            &&& after.stack@.last().tag is None
            &&& after.stack@.last().children@.len() == 0
            &&& after.stack@.last().attributes@.len() == 0
            &&& after.stack@.last().location is None
        }
    }

    /// What opening a heading leaves: `after`. A heading whose source
    /// starts with `#` opens with its level; any other is a setext heading,
    /// which opens as a paragraph and remembers its underline.
    spec fn heading_opened(&self, level: u8, span: Range<usize>, after: Self) -> bool {
        let t = slice_chars(self.source, span.start as int, span.end as int);
        let located = self.options.location;
        &&& after.stack@.len() == self.stack@.len() + 1
        &&& after.stack@.drop_last() == self.stack@
        &&& if is_atx(t) {
            &&& made(after.stack@.last(), NodeType::Heading, self.inline_parent is Some, located)
            &&& crate::ast::entries_view(after.stack@.last().attributes@) == seq![
                ("level"@, crate::ast::SpecValue::Number(decimal(level as nat))),
            ]
            &&& after.setext == self.setext
        } else {
            &&& made(after.stack@.last(), NodeType::Paragraph, self.inline_parent is Some, located)
            &&& after.stack@.last().attributes@.len() == 0
            &&& after.setext matches Some(u) && u.end == span.end
        }
    }

    /// What a container opening leaves: `after`. An inline container opens
    /// the inline run, any other closes it; then the container's node
    /// opens, or, for a code block, the fence starts gathering its content.
    spec fn started(&self, container: SpecContainer, span: Range<usize>, after: Self) -> bool {
        let t = slice_chars(self.source, span.start as int, span.end as int);
        let located = self.options.location;
        match container {
            SpecContainer::Emphasis => exists|mid: Self| #![trigger self.inline_opened(span, mid)]
                self.inline_opened(span, mid) && pushed_made(
                    mid.stack@,
                    NodeType::Em,
                    mid.inline_parent is Some,
                    located,
                    seq![("marker"@, crate::ast::SpecValue::String(marker_spec(t, 1)))],
                    after.stack@,
                ),
            SpecContainer::Strong => exists|mid: Self| #![trigger self.inline_opened(span, mid)]
                self.inline_opened(span, mid) && pushed_made(
                    mid.stack@,
                    NodeType::Strong,
                    mid.inline_parent is Some,
                    located,
                    seq![("marker"@, crate::ast::SpecValue::String(marker_spec(t, 2)))],
                    after.stack@,
                ),
            SpecContainer::Strikethrough => exists|mid: Self| #![trigger self.inline_opened(span, mid)]
                self.inline_opened(span, mid) && pushed_made(
                    mid.stack@,
                    NodeType::S,
                    mid.inline_parent is Some,
                    located,
                    Seq::empty(),
                    after.stack@,
                ),
            SpecContainer::Link(destination, title) => exists|mid: Self|
                #![trigger self.inline_opened(span, mid)]
                self.inline_opened(span, mid) && pushed_made(
                    mid.stack@,
                    NodeType::Link,
                    mid.inline_parent is Some,
                    located,
                    link_attrs(destination, title),
                    after.stack@,
                ),
            SpecContainer::Image(destination, title) => exists|mid: Self|
                #![trigger self.inline_opened(span, mid)]
                self.inline_opened(span, mid) && pushed_made(
                    mid.stack@,
                    NodeType::Image,
                    mid.inline_parent is Some,
                    located,
                    image_attrs(destination, title),
                    after.stack@,
                ),
            _ => exists|mid: Self| #![trigger self.inline_closed(mid)]
                {
                    &&& mid.wf()
                    &&& self.inline_closed(mid)
                    &&& mid.started_block(container, span, after)
                },
        }
    }

    /// What a block container opening leaves, once the inline run is closed.
    spec fn started_block(&self, container: SpecContainer, span: Range<usize>, after: Self) -> bool {
        let t = slice_chars(self.source, span.start as int, span.end as int);
        let located = self.options.location;
        let before = self.stack@;
        match container {
            SpecContainer::Paragraph => pushed_made(before, NodeType::Paragraph, false, located, Seq::empty(), after.stack@),
            SpecContainer::Heading(level) => self.heading_opened(level, span, after),
            SpecContainer::Blockquote => pushed_made(before, NodeType::Blockquote, false, located, Seq::empty(), after.stack@),
            SpecContainer::List(ordered, start) => pushed_made(
                before,
                NodeType::List,
                false,
                located,
                list_attrs(ordered, start, list_marker_spec(t, ordered)),
                after.stack@,
            ),
            SpecContainer::Item => pushed_made(before, NodeType::Item, false, located, Seq::empty(), after.stack@),
            SpecContainer::CodeBlock(info) => {
                &&& after.stack@ == before
                &&& after.fence matches Some(f) && f.span == span && f.content@.len() == 0
                    && f.content_start is None && match info {
                    Some(i) => f.info matches Some(s) && s@ == i,
                    None => f.info is None,
                }
            },
            SpecContainer::Table(alignments) => {
                &&& after.alignments@ == alignments
                &&& pushed_made(before, NodeType::Table, false, located, Seq::empty(), after.stack@)
            },
            SpecContainer::TableHead => {
                &&& after.in_head
                &&& after.column == 0
                &&& after.stack@.len() == before.len() + 2
                &&& pushed_made(before, NodeType::Thead, false, located, Seq::empty(), after.stack@.drop_last())
                &&& made(after.stack@.last(), NodeType::Tr, false, located)
                &&& after.stack@.last().attributes@.len() == 0
            },
            SpecContainer::TableRow => {
                &&& after.column == 0
                &&& after.in_body
                &&& if self.in_body {
                    pushed_made(before, NodeType::Tr, false, located, Seq::empty(), after.stack@)
                } else {
                    &&& after.stack@.len() == before.len() + 2
                    &&& pushed_made(before, NodeType::Tbody, false, located, Seq::empty(), after.stack@.drop_last())
                    &&& made(after.stack@.last(), NodeType::Tr, false, located)
                    &&& after.stack@.last().attributes@.len() == 0
                }
            },
            SpecContainer::TableCell => {
                let alignment = if self.column < self.alignments@.len() {
                    self.alignments@[self.column as int]
                } else {
                    Alignment::Unaligned
                };
                &&& after.column == (if self.column < usize::MAX { self.column + 1 } else { self.column as int })
                &&& pushed_made(
                    before,
                    if self.in_head { NodeType::Th } else { NodeType::Td },
                    false,
                    located,
                    align_attrs(alignment),
                    after.stack@,
                )
            },
            _ => false,
        }
    }

    /// What pushing the source text between `start` and `end` leaves:
    /// `after`, with a text node holding it, unescaped, unless it is empty.
    spec fn source_text_pushed(&self, start: usize, end: usize, after: Self) -> bool {
        let t = unescape_spec(slice_chars(self.source, start as int, end as int));
        &&& after.same_frame(*self)
        &&& if t.len() == 0 {
            after.stack@ == self.stack@
        } else {
            exists|n: Node<'s>|
                text_made(t, self.inline_parent is Some, self.options.location, n) && attached(
                    self.stack@,
                    n,
                    self.options.slots,
                    self.source,
                    after.stack@,
                )
        }
    }

    /// One tag of a text run: the text before it, from `outs` to `ins`, then
    /// the tag itself, from `ins` to `next`.
    spec fn text_step(
        &self,
        tags: Seq<TagSpan>,
        span: Range<usize>,
        j: int,
        ins: Self,
        next: Self,
    ) -> bool {
        &&& self.source_text_pushed(cursor_before(tags, span, j), tags[j].outer.start, ins)
        &&& ins.wf()
        &&& ins.tag_done(tags[j], true, next.stack@)
        &&& next.same_frame(ins)
        &&& next.wf()
    }

    /// What a text run leaves: `after`. The inline run opens; without a tag
    /// inside the run's span the text becomes one text node, unless it is
    /// empty; otherwise the source around each tag becomes text, unescaped,
    /// and each tag is read in turn.
    spec fn text_done(&self, text: Seq<char>, span: Range<usize>, inline_tags: Seq<TagSpan>, after: Self) -> bool {
        let tags = inside(inline_tags, span);
        exists|mid: Self| #![trigger self.inline_opened(span, mid)]
            {
                &&& self.inline_opened(span, mid)
                &&& mid.wf()
                &&& if tags.len() == 0 {
                    &&& after.same_frame(mid)
                    &&& if text.len() > 0 {
                        exists|n: Node<'s>|
                            text_made(text, mid.inline_parent is Some, mid.options.location, n) && attached(
                                mid.stack@,
                                n,
                                mid.options.slots,
                                mid.source,
                                after.stack@,
                            )
                    } else {
                        after.stack@ == mid.stack@
                    }
                } else {
                    exists|ins: Seq<Self>, outs: Seq<Self>|
                        {
                            &&& ins.len() == tags.len()
                            &&& outs.len() == tags.len() + 1
                            &&& outs[0] == mid
                            &&& forall|j: int|
                                0 <= j < tags.len() ==> #[trigger] outs[j].text_step(
                                    tags,
                                    span,
                                    j,
                                    ins[j],
                                    outs[j + 1],
                                )
                            &&& outs.last().source_text_pushed(
                                cursor_before(tags, span, tags.len() as int),
                                span.end,
                                after,
                            )
                        }
                }
            }
    }

    /// What closing a code block leaves: `after`, with no fence gathering.
    /// The block's node is a fence; unless its info tag turns on `process`,
    /// it is attached as it is.
    spec fn fence_closed(&self, after: Self) -> bool {
        match self.fence {
            None => after.stack@ == self.stack@,
            Some(f) => exists|n: Node<'s>|
                #![trigger fence_built(n, f.content@, fence_info(f), self.inline_parent is Some, self.options.location)]
                fence_built(n, f.content@, fence_info(f), self.inline_parent is Some, self.options.location)
                    && (!processed(n) ==> attached(
                    self.stack@,
                    n,
                    self.options.slots,
                    self.source,
                    after.stack@,
                )) && (processed(n) ==> exists|m1: Self, m2: Self, c: &str|
                    #![trigger m1.fence_read(c, fence_base(f), m2)]
                    {
                        &&& c@ == f.content@
                        &&& m1.wf()
                        &&& m1.source == self.source
                        &&& m1.options == self.options
                        &&& m1.stack@ == self.stack@.push(n)
                        &&& m1.fence_read(c, fence_base(f), m2)
                        &&& popped_attached(m2.stack@, self.options.slots, self.source, after.stack@)
                    }),
        }
    }

    /// What flushing the gathered HTML block leaves: `after`, with nothing
    /// gathered. The block, when there is one, becomes one node, attached.
    spec fn html_flushed(&self, after: Self) -> bool {
        &&& after.html_block is None
        &&& after.inline_parent == self.inline_parent
        &&& after.inline_span == self.inline_span
        &&& after.source == self.source
        &&& after.options == self.options
        &&& after.lines == self.lines
        &&& after.setext == self.setext
        &&& after.fence == self.fence
        &&& match self.html_block {
            None => after.stack@ == self.stack@,
            Some(span) => exists|n: Node<'s>|
                html_made(
                    slice_chars(self.source, span.start as int, span.end as int),
                    self.options.allow_comments,
                    self.inline_parent is Some,
                    self.options.location,
                    n,
                ) && attached(self.stack@, n, self.options.slots, self.source, after.stack@),
        }
    }

    /// What one tokenizer event leaves: `after`. Any event but block HTML
    /// first flushes the gathered HTML block.
    spec fn event_done(&self, event: SpecEvent, span: Range<usize>, inline_tags: Seq<TagSpan>, after: Self) -> bool {
        exists|b1: Self| #![trigger b1.wf()]
            {
                &&& b1.wf()
                &&& if event is Html {
                    b1 == *self
                } else {
                    self.html_flushed(b1)
                }
                &&& b1.event_taken(event, span, inline_tags, after)
            }
    }

    /// What an event does once the HTML block is dealt with. While a code
    /// block is open its text is gathered verbatim, its end builds it, and
    /// anything else waits; otherwise each event opens, closes or attaches
    /// what it stands for.
    spec fn event_taken(&self, event: SpecEvent, span: Range<usize>, inline_tags: Seq<TagSpan>, after: Self) -> bool {
        let t = slice_chars(self.source, span.start as int, span.end as int);
        let located = self.options.location;
        let slots = self.options.slots;
        if self.fence is Some {
            let f = self.fence->0;
            match event {
                SpecEvent::Text(text) => {
                    &&& after.stack@ == self.stack@
                    &&& after.fence matches Some(g) && g.span == f.span && g.info == f.info
                        && g.content_start == (if f.content_start is None {
                        Some(span.start)
                    } else {
                        f.content_start
                    }) && g.content@ == f.content@ + text
                },
                SpecEvent::End(ContainerKind::CodeBlock) => after.fence is None && self.fence_closed(after),
                _ => after == *self,
            }
        } else {
            match event {
                SpecEvent::Start(container) => self.started(container, span, after),
                SpecEvent::End(kind) => self.container_ended(kind, after),
                SpecEvent::Text(text) => self.text_done(text, span, inline_tags, after),
                SpecEvent::Code(_) => exists|mid: Self| #![trigger self.inline_opened(span, mid)]
                    self.inline_opened(span, mid) && exists|n: Node<'s>|
                        made(n, NodeType::Code, mid.inline_parent is Some, located)
                            && crate::ast::entries_view(n.attributes@) == seq![
                            ("content"@, crate::ast::SpecValue::String(code_span_spec(t))),
                        ] && attached(mid.stack@, n, slots, self.source, after.stack@),
                SpecEvent::Html(_) => exists|mid: Self| #![trigger self.inline_closed(mid)]
                    {
                        &&& mid.wf()
                        &&& self.inline_closed(mid)
                        &&& after.stack@ == mid.stack@
                        &&& after.html_block == Some(
                            match self.html_block {
                                Some(open) => (Range { start: open.start, end: span.end }),
                                None => span,
                            },
                        )
                    },
                SpecEvent::InlineHtml(_) => exists|mid: Self| #![trigger self.inline_opened(span, mid)]
                    self.inline_opened(span, mid) && exists|n: Node<'s>|
                        html_made(t, self.options.allow_comments, mid.inline_parent is Some, located, n)
                            && attached(mid.stack@, n, slots, self.source, after.stack@),
                SpecEvent::SoftBreak => exists|mid: Self| #![trigger self.inline_opened(span, mid)]
                    self.inline_opened(span, mid) && exists|n: Node<'s>|
                        made(n, NodeType::Softbreak, mid.inline_parent is Some, located)
                            && n.attributes@.len() == 0 && attached(mid.stack@, n, slots, self.source, after.stack@),
                SpecEvent::HardBreak => exists|mid: Self| #![trigger self.inline_opened(span, mid)]
                    self.inline_opened(span, mid) && exists|n: Node<'s>|
                        made(n, NodeType::Hardbreak, mid.inline_parent is Some, located)
                            && n.attributes@.len() == 0 && attached(mid.stack@, n, slots, self.source, after.stack@),
                SpecEvent::Rule => exists|mid: Self| #![trigger self.inline_closed(mid)]
                    {
                        &&& mid.wf()
                        &&& self.inline_closed(mid)
                        &&& exists|n: Node<'s>|
                            made(n, NodeType::Hr, false, located) && n.attributes@.len() == 0 && attached(
                                mid.stack@,
                                n,
                                slots,
                                self.source,
                                after.stack@,
                            )
                    },
            }
        }
    }

    /// What pushing `content[a..b]` as fence text leaves: `after`, with a
    /// text node holding it unless it is empty or splits a character.
    spec fn fence_text_pushed(&self, content: &str, a: int, b: int, after: Self) -> bool {
        &&& after.same_frame(*self)
        &&& match sub_chars(content.spec_bytes(), a, b) {
            Some(t) if t.len() > 0 => exists|n: Node<'s>|
                text_made(t, self.inline_parent is Some, self.options.location, n) && attached(
                    self.stack@,
                    n,
                    self.options.slots,
                    self.source,
                    after.stack@,
                ),
            _ => after.stack@ == self.stack@,
        }
    }

    /// One tag of a processed fence's content, at `tags[j]`: the text before
    /// it, from `self` to `ins`, then the tag, from `ins` to `next`. A tag
    /// alone on its line takes the newline before it with it.
    spec fn fence_step(
        &self,
        content: &str,
        base: usize,
        tags: Seq<(int, int)>,
        j: int,
        ins: Self,
        next: Self,
    ) -> bool {
        let b = content.spec_bytes();
        let start = tags[j].0;
        let end = tags[j].1;
        let cursor = tag_cursor(tags, j);
        let line_end = line_end_from(b, end);
        let before = match break_before(b, start) {
            Some(line_start) => if (sub_chars(b, line_start, line_end) matches Some(line) && trim_spec(line)
                == slice_chars(content, start, end + 2)) {
                line_start
            } else {
                start
            },
            None => start,
        };
        &&& self.fence_text_pushed(content, cursor, if before >= cursor { before } else { cursor }, ins)
        &&& ins.wf()
        &&& exists|span: TagSpan|
            #![trigger ins.tag_done(span, false, next.stack@)]
            span.outer == (Range { start: sat_add(base, start), end: sat_add(base, end + 2) })
                && span.inner == (Range { start: sat_add(base, start + 2), end: sat_add(base, end) })
                && line_pair_of(ins.lines.starts(), span.outer, seq![span.lines[0], span.lines[1]])
                && ins.tag_done(span, false, next.stack@)
        &&& next.same_frame(ins)
        &&& next.wf()
    }

    /// What reading a processed fence's content leaves: `after`. The closed
    /// tags are found in order, each scan starting where the last tag ended;
    /// the text between them becomes text nodes and each tag is read in
    /// turn.
    #[verifier::opaque]
    spec fn fence_read(&self, content: &str, base: usize, after: Self) -> bool {
        let b = content.spec_bytes();
        exists|tags: Seq<(int, int)>, ins: Seq<Self>, outs: Seq<Self>|
            {
                &&& forall|j: int|
                    0 <= j < tags.len() ==> next_tag(b, tag_cursor(tags, j)) == Some(#[trigger] tags[j])
                &&& next_tag(b, tag_cursor(tags, tags.len() as int)) is None
                &&& ins.len() == tags.len()
                &&& outs.len() == tags.len() + 1
                &&& outs[0] == *self
                &&& forall|j: int|
                    0 <= j < tags.len() ==> #[trigger] outs[j].fence_step(content, base, tags, j, ins[j], outs[j + 1])
                &&& outs.last().fence_text_pushed(content, tag_cursor(tags, tags.len() as int), b.len() as int, after)
            }
    }

    /// What closing the inline run leaves: `after`. With no run open nothing
    /// changes; otherwise the run's span is dropped and the open nodes are
    /// unwound down to the `inline` node.
    spec fn inline_closed(&self, after: Self) -> bool {
        &&& after.inline_parent is None
        &&& after.source == self.source
        &&& after.options == self.options
        &&& after.lines == self.lines
        &&& after.setext == self.setext
        &&& after.html_block == self.html_block
        &&& after.fence == self.fence
        &&& if self.inline_parent is None {
            after.stack@ == self.stack@ && after.inline_span is None
        } else {
            after.inline_span is None && self.unwound(self.stack@, self.inline_span, after.stack@)
        }
    }

    /// The open nodes of `before` unwound to the inline run, giving `after`:
    /// each node above the `inline` node is marked as missing its closing
    /// tag and attached to the one below it; the `inline` node itself has its
    /// links checked against the run's span and is attached.
    #[verifier::opaque]
    spec fn unwound(&self, before: Seq<Node<'s>>, span: Option<Range<usize>>, after: Seq<Node<'s>>) -> bool
        decreases before.len(),
    {
        if before.len() <= 1 {
            after == before
        } else if before.last().node_type == NodeType::Inline {
            exists|n: Node<'s>|
                self.span_checked(before.last(), span, n) && attached(
                    before.drop_last(),
                    n,
                    self.options.slots,
                    self.source,
                    after,
                )
        } else {
            exists|mid: Seq<Node<'s>>, n: Node<'s>|
                mid.len() < before.len() && missing_closed(before.last(), n) && attached(
                    before.drop_last(),
                    n,
                    self.options.slots,
                    self.source,
                    mid,
                ) && self.unwound(mid, span, after)
        }
    }

    /// The inline node `n` becomes once its links are checked against the
    /// run's span, when there is one.
    spec fn span_checked(&self, node: Node<'s>, span: Option<Range<usize>>, n: Node<'s>) -> bool {
        match span {
            Some(sp) => self.links_checked(node, sp, n),
            None => n == node,
        }
    }

    /// What link validation does to a node: with the host's protocols, a
    /// destination that holds a tag is reported.
    spec fn links_checked(&self, node: Node<'s>, span: Range<usize>, n: Node<'s>) -> bool {
        if match self.options.validated_protocols {
            Some(protocols) => links_tag(
                encode_utf8(slice_chars(self.source, span.start as int, span.end as int)),
                protocols@,
            ),
            None => false,
        } {
            &&& n == (Node { errors: n.errors, ..node })
            &&& n.errors@.drop_last() == node.errors@
            &&& is_href_invalid(n.errors@.last())
            &&& n.errors@.len() == node.errors@.len() + 1
        } else {
            n == node
        }
    }

    /// A builder as it starts on `source`: the document open and nothing
    /// else.
    spec fn fresh(&self, source: &'s str, options: &'o ParseOptions<'s>) -> bool {
        &&& self.source == source
        &&& self.options == options
        &&& self.lines.spec_source() == source
        &&& self.stack@.len() == 1
        &&& fresh(self.stack@[0], NodeType::Document)
        &&& self.inline_parent is None
        &&& self.inline_span is None
        &&& self.setext is None
        &&& self.fence is None
        &&& self.html_block is None
        &&& self.alignments@.len() == 0
        &&& self.column == 0
        &&& !self.in_head
        &&& !self.in_body
    }

    /// The nodes of `before` closed from the innermost out, each marked as
    /// missing its closing tag and attached to the one below, down to the
    /// document `n`.
    #[verifier::opaque]
    spec fn all_closed(&self, before: Seq<Node<'s>>, n: Node<'s>) -> bool
        decreases before.len(),
    {
        if before.len() <= 1 {
            before.len() == 1 && n == before[0]
        } else {
            exists|mid: Seq<Node<'s>>, m: Node<'s>|
                mid.len() < before.len() && missing_closed(before.last(), m) && attached(
                    before.drop_last(),
                    m,
                    self.options.slots,
                    self.source,
                    mid,
                ) && self.all_closed(mid, n)
        }
    }

    /// What finishing hands over: `n`. The gathered HTML block is flushed,
    /// the inline run closed, and every node still open closed as missing
    /// its closing tag, down to the document.
    spec fn finished(&self, n: Node<'s>) -> bool {
        exists|m1: Self, m2: Self|
            #![trigger self.html_flushed(m1), m1.inline_closed(m2)]
            self.html_flushed(m1) && m1.inline_closed(m2) && m2.all_closed(m2.stack@, n)
    }

    /// One Markdown block's events taken in order, from `self` through `es`
    /// to `after`; each span is shifted by the block's start.
    spec fn event_chain(
        &self,
        es: Seq<Self>,
        events: Seq<(SpecEvent, Range<usize>)>,
        base: usize,
        tags: Seq<TagSpan>,
        after: Self,
    ) -> bool {
        &&& es.len() == events.len() + 1
        &&& es[0] == *self
        &&& es.last() == after
        &&& forall|i: int|
            0 <= i < events.len() ==> #[trigger] es[i].event_done(
                events[i].0,
                shifted(base, events[i].1),
                tags,
                es[i + 1],
            )
    }

    /// What the `k`th block of `seg` does: a Markdown block is handed to the
    /// tokenizer, as the masked text of its range, and its events, `evs`,
    /// are taken in order; a block-level tag closes the inline run and is
    /// read.
    spec fn block_done<T: Tokenizer>(
        &self,
        seg: Segmentation,
        tokenizer: &T,
        k: int,
        evs: Seq<(SpecEvent, Range<usize>)>,
        after: Self,
    ) -> bool {
        match seg.blocks@[k] {
            Block::Markdown(range) => {
                &&& evs == tokenizer.events_spec(md_text(seg.masked@, range.start, range.end))
                &&& exists|es: Seq<Self>| #[trigger] self.event_chain(es, evs, range.start, seg.inline_tags@, after)
            },
            Block::Tag(span) => exists|mid: Self|
                #[trigger] self.inline_closed(mid) && mid.wf() && mid.tag_done(span, false, after.stack@)
                    && after.same_frame(mid),
        }
    }

    /// The walk from `self` over the blocks of `seg`, through `states`, with
    /// each Markdown block's events in `evs`, ending in the document `n`.
    spec fn run_chain<T: Tokenizer>(
        &self,
        seg: Segmentation,
        tokenizer: &T,
        states: Seq<Self>,
        evs: Seq<Seq<(SpecEvent, Range<usize>)>>,
        n: Node<'s>,
    ) -> bool {
        &&& states.len() == seg.blocks@.len() + 1
        &&& evs.len() == seg.blocks@.len()
        &&& states[0] == *self
        &&& forall|k: int|
            0 <= k < seg.blocks@.len() ==> #[trigger] states[k].block_done(seg, tokenizer, k, evs[k], states[k + 1])
        &&& forall|k: int| 0 <= k <= seg.blocks@.len() ==> #[trigger] states[k].wf()
        &&& states.last().finished(n)
    }

    /// What walking the segmentation `seg` with `tokenizer` hands over: `n`.
    spec fn ran<T: Tokenizer>(&self, seg: Segmentation, tokenizer: &T, n: Node<'s>) -> bool {
        exists|states: Seq<Self>, evs: Seq<Seq<(SpecEvent, Range<usize>)>>|
            #[trigger] self.run_chain(seg, tokenizer, states, evs, n)
    }

    /// What a closing tag does to the stack `after`: it closes the innermost
    /// node when that is the tag it names, and otherwise stands as a tag
    /// missing its opening.
    spec fn tag_closed(&self, name: Seq<char>, span: TagSpan, inline: bool, after: Seq<Node<'s>>) -> bool {
        let top = self.stack@.last();
        if top.node_type == NodeType::Tag && (top.tag matches Some(t) && t@ == name) && self.stack@.len() > 1 {
            exists|n: Node<'s>|
                closed_at(top, span, self.lines, self.source, n) && attached(
                    self.stack@.drop_last(),
                    n,
                    self.options.slots,
                    self.source,
                    after,
                )
        } else {
            exists|n: Node<'s>|
                unopened(n, name, inline, self.options.location) && attached(
                    self.stack@,
                    n,
                    self.options.slots,
                    self.source,
                    after,
                )
        }
    }

    /// What a bare annotation does to the stack `after`: the block that owns
    /// the inline run takes the attributes, or the innermost node records
    /// that it cannot.
    spec fn annotation_done(&self, attributes: Seq<SpecAttribute>, span: TagSpan, after: Seq<Node<'s>>) -> bool {
        let owner = self.inline_parent;
        &&& after.len() == self.stack@.len()
        &&& if owner is Some && owner->0 < self.stack@.len() {
            &&& forall|i: int|
                0 <= i < after.len() && i != owner->0 ==> #[trigger] after[i] == self.stack@[i]
            &&& annotated(self.stack@[owner->0 as int], attributes, after[owner->0 as int])
        } else {
            &&& after.drop_last() == self.stack@.drop_last()
            &&& after.last() == (Node { errors: after.last().errors, ..self.stack@.last() })
            &&& after.last().errors@.len() == self.stack@.last().errors@.len() + 1
            &&& after.last().errors@.drop_last() == self.stack@.last().errors@
            &&& no_annotations_error(
                after.last().errors@.last(),
                crate::ast::node_name(self.stack@.last()),
                self.lines,
                span.outer,
                self.options.file,
            )
        }
    }

    /// A builder for `source`.
    fn new(source: &'s str, options: &'o ParseOptions<'s>) -> (b: Builder<'s, 'o>)
        ensures
            b.wf(),
            b.fresh(source, options),
    {
        let mut stack: Vec<Node<'s>> = Vec::new();
        stack.push(Node::new(NodeType::Document));
        Builder {
            source,
            lines: Lines::new(source),
            options,
            stack,
            inline_parent: None,
            inline_span: None,
            setext: None,
            fence: None,
            html_block: None,
            alignments: Vec::new(),
            column: 0,
            in_head: false,
            in_body: false,
        }
    }

    /// The source text of a byte range, or nothing when the range does not
    /// fall on character boundaries.
    fn slice(&self, start: usize, end: usize) -> (r: &'s str)
        ensures
            r@ == slice_chars(self.source, start as int, end as int),
    {
        match str_get(self.source, start, end) {
            Some(t) => {
                proof {
                    vstd::utf8::encode_utf8_decode_utf8(t@);
                }
                t
            },
            None => {
                proof {
                    reveal_strlit("");
                }
                ""
            },
        }
    }

    /// Take the innermost open node off the stack. The document stays.
    fn pop(&mut self) -> (n: Node<'s>)
        requires
            old(self).wf(),
        ensures
            final(self).in_head == old(self).in_head,
            final(self).in_body == old(self).in_body,
            final(self).wf(),
            final(self).inline_parent == old(self).inline_parent,
            final(self).same_frame(*old(self)),
            final(self).stack@.len() == if old(self).stack@.len() > 1 {
                old(self).stack@.len() - 1
            } else {
                old(self).stack@.len() as int
            },
            old(self).stack@.len() > 1 ==> n == old(self).stack@.last() && final(self).stack@
                == old(self).stack@.drop_last(),
            old(self).stack@.len() <= 1 ==> final(self).stack@ == old(self).stack@ && fresh(
                n,
                NodeType::Node,
            ),
    {
        if self.stack.len() > 1 {
            self.stack.pop().unwrap()
        } else {
            Node::new(NodeType::Node)
        }
    }

    /// Open a node: later nodes go inside it until it closes.
    fn open(&mut self, node: Node<'s>)
        requires
            old(self).wf(),
        ensures
            final(self).fence == old(self).fence,
            final(self).lines == old(self).lines,
            final(self).html_block == old(self).html_block,
            final(self).inline_span == old(self).inline_span,
            final(self).setext == old(self).setext,
            final(self).wf(),
            final(self).stack@ == old(self).stack@.push(node),
            final(self).inline_parent == old(self).inline_parent,
            final(self).inline_span == old(self).inline_span,
            final(self).source == old(self).source,
            final(self).options == old(self).options,
            final(self).in_head == old(self).in_head,
            final(self).in_body == old(self).in_body,
            final(self).column == old(self).column,
            final(self).alignments == old(self).alignments,
    {
        self.stack.push(node);
    }

    /// Append a child to the innermost open node.
    fn push_child(&mut self, node: Node<'s>)
        requires
            old(self).wf(),
        ensures
            final(self).fence == old(self).fence,
            final(self).in_head == old(self).in_head,
            final(self).in_body == old(self).in_body,
            final(self).lines == old(self).lines,
            final(self).html_block == old(self).html_block,
            final(self).inline_span == old(self).inline_span,
            final(self).setext == old(self).setext,
            final(self).wf(),
            final(self).stack@.len() == old(self).stack@.len(),
            final(self).inline_parent == old(self).inline_parent,
            final(self).source == old(self).source,
            final(self).options == old(self).options,
            forall|i: int|
                0 <= i < old(self).stack@.len() - 1 ==> #[trigger] final(self).stack@[i] == old(
                    self,
                ).stack@[i],
            final(self).stack@.last() == (Node {
                children: final(self).stack@.last().children,
                ..old(self).stack@.last()
            }),
            final(self).stack@.last().children@ == old(self).stack@.last().children@.push(node),
    {
        let mut top = self.stack.pop().unwrap();
        top.push(node);
        self.stack.push(top);
    }

    /// Attach a finished node to whatever is open above it: a slot goes into
    /// its parent's slots, a plain text run joins the text before it, and
    /// anything else becomes the next child.
    fn attach(&mut self, node: Node<'s>)
        requires
            old(self).wf(),
        ensures
            final(self).fence == old(self).fence,
            final(self).in_head == old(self).in_head,
            final(self).in_body == old(self).in_body,
            final(self).lines == old(self).lines,
            final(self).html_block == old(self).html_block,
            final(self).inline_span == old(self).inline_span,
            final(self).setext == old(self).setext,
            final(self).wf(),
            final(self).stack@.len() == old(self).stack@.len(),
            final(self).inline_parent == old(self).inline_parent,
            final(self).source == old(self).source,
            final(self).options == old(self).options,
            attached(
                old(self).stack@,
                node,
                old(self).options.slots,
                old(self).source,
                final(self).stack@,
            ),
    {
        let ghost before = self.stack@;
        let node = match self.merge_text(node) {
            Some(n) => n,
            None => return,
        };
        proof {
            reveal_strlit("slot");
            reveal_strlit("primary");
            crate::ast::lemma_key_index(node.attributes@, "primary"@);
        }
        if self.options.slots {
            let is_slot = match &node.tag {
                Some(t) => str_eq(t.as_str(), "slot"),
                None => false,
            };
            if is_slot {
                let name = match node.get("primary") {
                    Some(Value::String(name)) => Some(name.clone()),
                    _ => None,
                };
                if let Some(name) = name {
                    assert(slot_name(node) == Some(name@));
                    let mut top = self.stack.pop().unwrap();
                    let ghost slots0 = top.slots@;
                    proof {
                        crate::ast::lemma_key_index(slots0, name@);
                    }
                    top.slots.insert(name, node);
                    proof {
                        if crate::ast::key_index(slots0, name@) < 0 {
                            assert(top.slots@.drop_last() =~= slots0);
                        }
                    }
                    self.stack.push(top);
                    assert(self.stack@.drop_last() =~= before.drop_last());
                    return;
                }
                assert(slot_name(node) is None);
            } else {
                assert(slot_name(node) is None);
            }
        }
        self.push_child(node);
        assert(self.stack@.drop_last() =~= before.drop_last());
    }

    /// Fold a plain text node into the text node before it, when there is
    /// one; hand the node back when it does not merge.
    fn merge_text(&mut self, node: Node<'s>) -> (r: Option<Node<'s>>)
        requires
            old(self).wf(),
        ensures
            final(self).fence == old(self).fence,
            final(self).in_head == old(self).in_head,
            final(self).in_body == old(self).in_body,
            final(self).lines == old(self).lines,
            final(self).html_block == old(self).html_block,
            final(self).inline_span == old(self).inline_span,
            final(self).setext == old(self).setext,
            final(self).wf(),
            final(self).stack@.len() == old(self).stack@.len(),
            final(self).inline_parent == old(self).inline_parent,
            final(self).source == old(self).source,
            final(self).options == old(self).options,
            folds(old(self).stack@, node) ==> r is None && folded(
                old(self).stack@,
                node,
                old(self).source,
                final(self).stack@,
            ),
            !folds(old(self).stack@, node) ==> r == Some(node) && final(self).stack@ == old(
                self,
            ).stack@,
    {
        let ghost before = self.stack@;
        proof {
            reveal_strlit("content");
            crate::ast::lemma_key_index(node.attributes@, "content"@);
        }
        if node.node_type != NodeType::Text || node.errors.len() > 0 {
            return Some(node);
        }
        let addition = match node.get("content") {
            Some(Value::String(t)) => t.clone(),
            _ => return Some(node),
        };
        assert(text_content(node) == Some(addition@));
        let n = self.stack.len();
        let k = self.stack[n - 1].children.len();
        if k == 0 {
            return Some(node);
        }
        let existing = {
            let previous = &self.stack[n - 1].children[k - 1];
            proof {
                crate::ast::lemma_key_index(previous.attributes@, "content"@);
            }
            if previous.node_type == NodeType::Text && previous.inline == node.inline {
                match previous.get("content") {
                    Some(Value::String(t)) => Some(t.clone()),
                    _ => None,
                }
            } else {
                None
            }
        };
        match existing {
            None => Some(node),
            Some(existing) => {
                let mut top = self.stack.pop().unwrap();
                assert(top == before.last());
                let mut previous = top.children.pop().unwrap();
                assert(previous == before.last().children@.last());
                assert(text_content(previous) == Some(existing@));
                let ghost prev0 = previous;
                let mut joined: Vec<char> = chars_of(existing.as_str());
                push_str(&mut joined, addition.as_str());
                previous.set("content", Value::String(string_of(&joined)));
                match (previous.location, node.location) {
                    (Some(b), Some(a)) => {
                        let text = self.slice(b.start.offset, a.end.offset);
                        previous.location = Some(Location {
                            file: b.file,
                            start: b.start,
                            end: a.end,
                            text,
                        });
                    },
                    _ => {},
                }
                assert(merged(prev0, node, self.source, previous));
                top.children.push(previous);
                self.stack.push(top);
                assert(self.stack@.drop_last() =~= before.drop_last());
                assert(top.children@.drop_last() =~= before.last().children@.drop_last());
                None
            },
        }
    }

    /// Open the synthesised `inline` node, unless one is already open.
    fn open_inline(&mut self, span: &Range<usize>)
        requires
            old(self).wf(),
        ensures
            final(self).wf(),
            old(self).inline_opened(*span, *final(self)),
    {
        self.extend_inline_span(span);
        if self.inline_parent.is_some() {
            return;
        }
        let owner = self.stack.len() - 1;
        let mut node = Node::new(NodeType::Inline);
        node.lines = self.stack[owner].lines.clone();
        let ghost before = self.stack@;
        self.open(node);
        assert(self.stack@.drop_last() =~= before);
        self.inline_parent = Some(owner);
    }

    fn extend_inline_span(&mut self, span: &Range<usize>)
        ensures
            final(self).stack == old(self).stack,
            final(self).inline_parent == old(self).inline_parent,
            final(self).source == old(self).source,
            final(self).options == old(self).options,
            extended(old(self).inline_span, *span, final(self).inline_span),
    {
        let next = match &self.inline_span {
            Some(open) => {
                let start = if open.start <= span.start { open.start } else { span.start };
                let end = if open.end >= span.end { open.end } else { span.end };
                start..end
            },
            None => span.start..span.end,
        };
        self.inline_span = Some(next);
    }

    /// Close the inline run, and everything opened inside it.
    fn close_inline(&mut self)
        requires
            old(self).wf(),
        ensures
            final(self).wf(),
            old(self).inline_closed(*final(self)),
    {
        let ghost b0 = *self;
        let span = self.inline_span.take();
        if self.inline_parent.take().is_none() {
            return;
        }
        proof {
            reveal(Builder::unwound);
        }
        while self.stack.len() > 1
            invariant
                self.wf(),
                self.inline_parent is None,
                self.inline_span is None,
                self.source == b0.source,
                self.options == b0.options,
                self.lines == b0.lines,
                self.setext == b0.setext,
                self.html_block == b0.html_block,
                self.fence == b0.fence,
                span == b0.inline_span,
                b0.inline_parent is Some,
                b0 == *old(self),
                forall|a: Seq<Node<'s>>| #[trigger] b0.unwound(self.stack@, span, a) ==> b0.unwound(b0.stack@, span, a),
            decreases self.stack@.len(),
        {
            let ghost before = self.stack@;
            proof {
                reveal(Builder::unwound);
            }
            let is_inline = self.stack[self.stack.len() - 1].node_type == NodeType::Inline;
            let mut node = self.pop();
            if is_inline {
                let ghost n0 = node;
                if let Some(span) = &span {
                    self.validate_links(&mut node, span);
                }
                assert(b0.span_checked(n0, span, node));
                self.attach(node);
                assert(b0.unwound(before, span, self.stack@));
                assert(b0.unwound(b0.stack@, span, self.stack@));
                return;
            }
            let ghost n0 = node;
            let nm = node.name();
            let name = nm.to_string();
            proof {
                vstd::string::to_string_from_display_ensures_for_str(nm, name);
            }
            node.errors.push(ValidationError::missing_closing(name.as_str()));
            assert(node.errors@.drop_last() =~= n0.errors@);
            assert(missing_closed(n0, node));
            self.attach(node);
            proof {
                let mid = self.stack@;
                assert forall|a: Seq<Node<'s>>| #[trigger] b0.unwound(mid, span, a) implies b0.unwound(
                    before,
                    span,
                    a,
                ) by {
                    assert(mid.len() < before.len());
                }
            }
        }
        proof {
            reveal(Builder::unwound);
        }
        assert(b0.unwound(self.stack@, span, self.stack@));
    }

    /// Report a link whose destination holds a tag, when the host asked for
    /// link validation.
    fn validate_links(&self, node: &mut Node<'s>, span: &Range<usize>)
        ensures
            self.links_checked(*old(node), *span, *final(node)),
    {
        let protocols = match &self.options.validated_protocols {
            Some(p) => p,
            None => return,
        };
        let mut names: Vec<&str> = Vec::new();
        let mut i: usize = 0;
        while i < protocols.len()
            invariant
                i <= protocols@.len(),
                names@.len() == i,
                forall|j: int| 0 <= j < i ==> (#[trigger] names@[j])@ == protocols@[j]@,
            decreases protocols.len() - i,
        {
            names.push(protocols[i].as_str());
            i = i + 1;
        }
        let text = self.slice(span.start, span.end);
        let hit = contains_markdoc_tag_in_url(text, names.as_slice());
        proof {
            lemma_links_tag(text.spec_bytes(), names@, protocols@);
        }
        if hit {
            let ghost before = node.errors@;
            node.errors.push(ValidationError::href_format_invalid());
            assert(node.errors@.drop_last() =~= before);
        }
    }

    /// A node of `node_type` covering `span`, located and line-mapped.
    fn node(&self, node_type: NodeType, span: &Range<usize>) -> (n: Node<'s>)
        ensures
            made(n, node_type, self.inline_parent is Some, self.options.location),
            n.attributes@.len() == 0,
            line_pair_of(self.lines.starts(), *span, n.lines@),
            self.options.location ==> (n.location matches Some(l) && located(
                self.lines,
                *span,
                self.options.file,
                l,
            )),
    {
        let mut node = Node::new(node_type);
        node.inline = self.inline_parent.is_some();
        node.lines = self.line_pair(span);
        if self.options.location {
            node.location = Some(self.lines.locate(span.start..span.end, self.options.file));
        }
        node
    }

    /// The half-open `[first, last + 1]` line pair of a span.
    fn line_pair(&self, span: &Range<usize>) -> (r: Vec<usize>)
        ensures
            r@.len() == 2,
            line_pair_of(self.lines.starts(), *span, r@),
    {
        let p = self.lines.position(span.start);
        let first = p.line;
        let back = if span.end > 0 { span.end - 1 } else { 0 };
        let last_offset = if back >= span.start { back } else { span.start };
        let q = self.lines.position(last_offset);
        let last = q.line;
        let mut r: Vec<usize> = Vec::new();
        r.push(first);
        r.push(last.saturating_add(1));
        assert(r@ =~= seq![p.line, if q.line < usize::MAX { (q.line + 1) as usize } else { q.line }]);
        assert(last_byte(*span) == last_offset);
        r
    }

    fn text_node(&self, content: String, span: &Range<usize>) -> (n: Node<'s>)
        ensures
            made(n, NodeType::Text, self.inline_parent is Some, self.options.location),
            crate::ast::entries_view(n.attributes@) == seq![
                ("content"@, crate::ast::SpecValue::String(content@)),
            ],
    {
        let mut node = self.node(NodeType::Text, span);
        node.set("content", Value::String(content));
        node
    }

    /// Turn one `{% ... %}` into whatever it means: a tag that opens or
    /// closes, an annotation, a variable in text, or a parse error.
    fn tag(&mut self, span: &TagSpan, inline: bool)
        requires
            old(self).wf(),
        ensures
            final(self).wf(),
            final(self).same_frame(*old(self)),
            old(self).tag_done(*span, inline, final(self).stack@),
    {
        let ghost b0 = *self;
        let body = self.slice(span.inner.start, span.inner.end);
        let body_chars = chars_of(body);
        let lead = count_lead_ws(&body_chars);
        let mut lead_bytes: usize = 0;
        let mut k: usize = 0;
        while k < lead && k < body_chars.len()
            invariant
                k <= lead,
            decreases lead - k,
        {
            lead_bytes = lead_bytes.saturating_add(width_of(body_chars[k]));
            k = k + 1;
        }
        let body_start = span.inner.start.saturating_add(lead_bytes);
        let trimmed = string_of(&trim_chars(&body_chars));
        assert(trimmed@ == trim_spec(slice_chars(b0.source, span.inner.start as int, span.inner.end as int)));
        match parse_tag(trimmed.as_str()) {
            Ok(TagItem::TagOpen { name, attributes, self_closing }) => {
                self.open_tag(name, &attributes, self_closing, span, inline);
            },
            Ok(TagItem::TagClose { name }) => self.close_tag(name.as_str(), span, inline),
            Ok(TagItem::Annotation { attributes }) => self.annotation(&attributes, span),
            Ok(TagItem::Variable(value)) => {
                let mut node = self.node(NodeType::Text, &span.outer);
                node.inline = inline;
                let ghost v = value.deep();
                node.set("content", value);
                proof {
                    reveal_strlit("content");
                }
                assert(variable_node(node, v, inline, self.options.location));
                self.attach(node);
                assert(b0.tag_done(*span, inline, self.stack@));
            },
            Err(error) => {
                let mut node = self.node(NodeType::Error, &span.outer);
                node.inline = inline;
                let start = body_start.saturating_add(error.start());
                let end0 = body_start.saturating_add(error.end());
                let end = if end0 >= start { end0 } else { start };
                let location = self.lines.locate(start..end, self.options.file);
                node.errors.push(ValidationError::parse_error(error.message()).at(location));
                assert(error_node(node, trimmed@, inline, self.options.location));
                self.attach(node);
                assert(b0.tag_done(*span, inline, self.stack@));
            },
        }
    }

    /// Open the node of an opening tag, or attach it when it closes itself.
    fn open_tag(&mut self, name: String, attributes: &Vec<Attribute>, self_closing: bool, span: &TagSpan, inline: bool)
        requires
            old(self).wf(),
        ensures
            final(self).wf(),
            final(self).same_frame(*old(self)),
            old(self).tag_opened(name@, attributes_view(attributes@), self_closing, *span, inline, final(self).stack@),
    {
        let ghost b0 = *self;
        let ghost name_view = name@;
        let mut node = self.node(NodeType::Tag, &span.outer);
        node.inline = inline;
        node.tag = Some(name);
        let mut lines: Vec<usize> = Vec::new();
        lines.push(span.lines[0]);
        lines.push(span.lines[1]);
        node.lines = lines;
        let ghost n0 = node;
        annotate(&mut node, attributes);
        assert(n0.lines@ =~= seq![span.lines[0], span.lines[1]]);
        assert(opened_tag(node, name_view, attributes_view(attributes@), *span, inline, b0.options.location));
        if self_closing {
            self.attach(node);
        } else {
            self.open(node);
        }
    }

    /// Close the innermost open tag of this name, or record that there is
    /// none.
    fn close_tag(&mut self, name: &str, span: &TagSpan, inline: bool)
        requires
            old(self).wf(),
        ensures
            final(self).wf(),
            final(self).same_frame(*old(self)),
            old(self).tag_closed(name@, *span, inline, final(self).stack@),
    {
        let ghost before = self.stack@;
        let last = self.stack.len() - 1;
        let matches = self.stack[last].node_type == NodeType::Tag && match &self.stack[last].tag {
            Some(t) => str_eq(t.as_str(), name),
            None => false,
        };
        if matches && self.stack.len() > 1 {
            let mut node = self.pop();
            let ghost top = node;
            node.lines.push(span.lines[0]);
            node.lines.push(span.lines[1]);
            match node.location {
                Some(open) => {
                    let end = self.lines.position(span.outer.end);
                    let text = self.slice(open.start.offset, span.outer.end);
                    node.location = Some(Location { file: open.file, start: open.start, end, text });
                },
                None => {},
            }
            assert(node.lines@ =~= top.lines@ + seq![span.lines[0], span.lines[1]]);
            assert(closed_at(top, *span, self.lines, self.source, node));
            self.attach(node);
            return;
        }
        let mut node = self.node(NodeType::Tag, &span.outer);
        node.inline = inline;
        let owned = name.to_string();
        proof {
            vstd::string::to_string_from_display_ensures_for_str(name, owned);
        }
        node.tag = Some(owned);
        node.errors.push(ValidationError::missing_opening(name));
        assert(unopened(node, name@, inline, self.options.location));
        self.attach(node);
    }

    /// Apply a bare `{% #id .cls %}` to the block that owns the inline run,
    /// or record that there is none.
    fn annotation(&mut self, attributes: &Vec<Attribute>, span: &TagSpan)
        requires
            old(self).wf(),
        ensures
            final(self).wf(),
            final(self).same_frame(*old(self)),
            old(self).annotation_done(attributes_view(attributes@), *span, final(self).stack@),
    {
        let ghost before = self.stack@;
        if let Some(owner) = self.inline_parent {
            if owner < self.stack.len() {
                let mut node = self.stack.remove(owner);
                let ghost n0 = node;
                annotate(&mut node, attributes);
                assert(annotated(n0, attributes_view(attributes@), node));
                self.stack.insert(owner, node);
                assert(self.stack@ =~= before.update(owner as int, node));
                return;
            }
        }
        let location = self.lines.locate(span.outer.start..span.outer.end, self.options.file);
        let mut top = self.stack.pop().unwrap();
        let ghost top0 = top;
        let name = top.name().to_string();
        top.errors.push(ValidationError::no_inline_annotations(name.as_str()).at(location));
        assert(top.errors@.drop_last() =~= top0.errors@);
        self.stack.push(top);
        assert(self.stack@.drop_last() =~= before.drop_last());
    }

    /// Take one tokenizer event.
    fn event(&mut self, event: &Event<'_>, span: Range<usize>, inline_tags: &Vec<TagSpan>)
        requires
            old(self).wf(),
        ensures
            final(self).wf(),
            old(self).event_done(event_view(*event), span, inline_tags@, *final(self)),
    {
        let ghost b0 = *self;
        let is_html = match event {
            Event::Html(_) => true,
            _ => false,
        };
        if !is_html {
            self.flush_html_block();
        }
        let ghost b1 = *self;
        assert(b1.wf());
        if self.fence.is_some() {
            match event {
                Event::Text(text) => {
                    let mut fence = self.fence.take().unwrap();
                    let ghost f0 = fence;
                    if fence.content_start.is_none() {
                        fence.content_start = Some(span.start);
                    }
                    push_str(&mut fence.content, cow_str(text));
                    self.fence = Some(fence);
                },
                Event::End(ContainerKind::CodeBlock) => self.close_fence(),
                _ => {},
            }
            assert(b1.event_taken(event_view(*event), span, inline_tags@, *self));
            return;
        }
        match event {
            Event::Start(container) => self.start(container, span),
            Event::End(kind) => self.end(*kind),
            Event::Text(text) => self.text(cow_str(text), span, inline_tags),
            Event::Code(_) => {
                self.open_inline(&span);
                let content = code_span_content(self.slice(span.start, span.end));
                let mut node = self.node(NodeType::Code, &span);
                node.set("content", Value::String(content));
                self.attach(node);
            },
            Event::Html(_) => {
                self.close_inline();
                let next = match &self.html_block {
                    Some(open) => open.start..span.end,
                    None => span.start..span.end,
                };
                self.html_block = Some(next);
            },
            Event::InlineHtml(_) => {
                self.open_inline(&span);
                let node = self.html_node(&span);
                self.attach(node);
            },
            Event::SoftBreak => {
                self.open_inline(&span);
                let node = self.node(NodeType::Softbreak, &span);
                self.attach(node);
            },
            Event::HardBreak => {
                self.open_inline(&span);
                let node = self.node(NodeType::Hardbreak, &span);
                self.attach(node);
            },
            Event::Rule => {
                self.close_inline();
                let node = self.node(NodeType::Hr, &span);
                self.attach(node);
            },
        }
    }

    /// Turn the gathered HTML block into one node.
    fn flush_html_block(&mut self)
        requires
            old(self).wf(),
        ensures
            final(self).wf(),
            old(self).html_flushed(*final(self)),
    {
        let span = match self.html_block.take() {
            Some(span) => span,
            None => return,
        };
        let node = self.html_node(&span);
        self.attach(node);
    }

    /// A comment when comments are on and the markup is one; otherwise the
    /// markup verbatim, as text.
    fn html_node(&self, span: &Range<usize>) -> (n: Node<'s>)
        ensures
            html_made(
                slice_chars(self.source, span.start as int, span.end as int),
                self.options.allow_comments,
                self.inline_parent is Some,
                self.options.location,
                n,
            ),
    {
        let raw = self.slice(span.start, span.end);
        if self.options.allow_comments {
            let t = trim_chars(&chars_of(raw));
            let n = t.len();
            if n >= 7 && t[0] == '<' && t[1] == '!' && t[2] == '-' && t[3] == '-' && t[n - 3] == '-'
                && t[n - 2] == '-' && t[n - 1] == '>' {
                let inner = sub_chars_of(&t, 4, n - 3);
                let content = string_of(&trim_chars(&inner));
                let mut node = self.node(NodeType::Comment, span);
                node.set("content", Value::String(content));
                return node;
            }
        }
        let owned = raw.to_string();
        proof {
            vstd::string::to_string_from_display_ensures_for_str(raw, owned);
        }
        self.text_node(owned, span)
    }

    /// A container opens.
    fn start(&mut self, container: &Container<'_>, span: Range<usize>)
        requires
            old(self).wf(),
        ensures
            final(self).wf(),
            final(self).source == old(self).source,
            final(self).options == old(self).options,
            old(self).started(container_view(*container), span, *final(self)),
    {
        let ghost b0 = *self;
        match container {
            Container::Emphasis | Container::Strong | Container::Strikethrough | Container::Link {
                ..
            } | Container::Image { .. } => self.open_inline(&span),
            _ => self.close_inline(),
        }
        let ghost mid = *self;
        proof {
            reveal_strlit("marker");
            reveal_strlit("href");
            reveal_strlit("title");
            reveal_strlit("alt");
            reveal_strlit("src");
            reveal_strlit("align");
        }
        match container {
            Container::Paragraph => {
                let node = self.node(NodeType::Paragraph, &span);
                self.open(node);
                assert(crate::ast::entries_view(node.attributes@) =~= Seq::empty());
                assert(self.stack@.drop_last() =~= mid.stack@);
                assert(mid.started_block(container_view(*container), span, *self));
            },
            Container::Heading { level } => {
                self.open_heading(*level, span);
                assert(mid.started_block(container_view(*container), span, *self));
            },
            Container::Blockquote => {
                let node = self.node(NodeType::Blockquote, &span);
                self.open(node);
                assert(crate::ast::entries_view(node.attributes@) =~= Seq::empty());
                assert(self.stack@.drop_last() =~= mid.stack@);
                assert(mid.started_block(container_view(*container), span, *self));
            },
            Container::List { ordered, start } => {
                self.open_list(*ordered, *start, span);
                assert(mid.started_block(container_view(*container), span, *self));
            },
            Container::Item => {
                let node = self.node(NodeType::Item, &span);
                self.open(node);
                assert(crate::ast::entries_view(node.attributes@) =~= Seq::empty());
                assert(self.stack@.drop_last() =~= mid.stack@);
                assert(mid.started_block(container_view(*container), span, *self));
            },
            Container::CodeBlock { info } => {
                let info = match info {
                    Some(i) => {
                        let t = cow_str(i);
                        let owned = t.to_string();
                        proof {
                            vstd::string::to_string_from_display_ensures_for_str(t, owned);
                        }
                        Some(owned)
                    },
                    None => None,
                };
                self.fence = Some(Fence { span, info, content: Vec::new(), content_start: None });
                assert(mid.started_block(container_view(*container), span, *self));
            },
            Container::Emphasis => {
                let m = marker(self.slice(span.start, span.end), 1);
                let mut node = self.node(NodeType::Em, &span);
                node.set("marker", Value::String(m));
                assert(crate::ast::entries_view(node.attributes@) =~= seq![
                    ("marker"@, crate::ast::SpecValue::String(m@)),
                ]);
                self.open(node);
                assert(self.stack@.drop_last() =~= mid.stack@);
                assert(pushed_made(
                    mid.stack@,
                    NodeType::Em,
                    mid.inline_parent is Some,
                    b0.options.location,
                    seq![("marker"@, crate::ast::SpecValue::String(marker_spec(slice_chars(b0.source, span.start as int, span.end as int), 1)))],
                    self.stack@,
                ));
            },
            Container::Strong => {
                let m = marker(self.slice(span.start, span.end), 2);
                let mut node = self.node(NodeType::Strong, &span);
                node.set("marker", Value::String(m));
                assert(crate::ast::entries_view(node.attributes@) =~= seq![
                    ("marker"@, crate::ast::SpecValue::String(m@)),
                ]);
                self.open(node);
                assert(self.stack@.drop_last() =~= mid.stack@);
                assert(pushed_made(
                    mid.stack@,
                    NodeType::Strong,
                    mid.inline_parent is Some,
                    b0.options.location,
                    seq![("marker"@, crate::ast::SpecValue::String(marker_spec(slice_chars(b0.source, span.start as int, span.end as int), 2)))],
                    self.stack@,
                ));
            },
            Container::Strikethrough => {
                let node = self.node(NodeType::S, &span);
                self.open(node);
                assert(crate::ast::entries_view(node.attributes@) =~= Seq::empty());
                assert(self.stack@.drop_last() =~= mid.stack@);
                assert(pushed_made(mid.stack@, NodeType::S, mid.inline_parent is Some, b0.options.location, Seq::empty(), self.stack@));
            },
            Container::Link { destination, title } => {
                let mut node = self.node(NodeType::Link, &span);
                let d = cow_str(destination);
                let dest = d.to_string();
                proof {
                    vstd::string::to_string_from_display_ensures_for_str(d, dest);
                }
                node.set("href", Value::String(dest));
                let ghost e0 = crate::ast::entries_view(node.attributes@);
                assert(e0 =~= seq![("href"@, crate::ast::SpecValue::String(destination@))]);
                let t = cow_str(title);
                if !t.is_empty() {
                    assert(crate::grammar::peg::spec_key_index(e0, "title"@) == -1) by {
                        reveal_strlit("href");
                        reveal_strlit("title");
                        assert("href"@.len() == 4 && "title"@.len() == 5);
                        assert(e0.last().0 != "title"@);
                        assert(crate::grammar::peg::spec_key_index(e0.drop_last(), "title"@) == -1);
                    }
                    let owned = t.to_string();
                    proof {
                        vstd::string::to_string_from_display_ensures_for_str(t, owned);
                    }
                    node.set("title", Value::String(owned));
                }
                assert(crate::ast::entries_view(node.attributes@) =~= link_attrs(destination@, title@));
                self.open(node);
                assert(self.stack@.drop_last() =~= mid.stack@);
                assert(b0.inline_opened(span, mid));
                assert(b0.started(container_view(*container), span, *self));
            },
            Container::Image { destination, title } => {
                let mut node = self.node(NodeType::Image, &span);
                node.set("alt", Value::String(String::new()));
                let ghost e0 = crate::ast::entries_view(node.attributes@);
                assert(e0.len() == 1);
                assert(crate::grammar::peg::spec_key_index(e0, "src"@) == -1) by {
                    reveal_strlit("alt");
                    reveal_strlit("src");
                    assert(e0.last().0 == "alt"@);
                    assert("alt"@[0] == 'a' && "src"@[0] == 's');
                    assert(e0.drop_last().len() == 0);
                    assert(e0.last().0 != "src"@);
                    assert(crate::grammar::peg::spec_key_index(e0.drop_last(), "src"@) == -1);
                }
                let d = cow_str(destination);
                let src = d.to_string();
                proof {
                    vstd::string::to_string_from_display_ensures_for_str(d, src);
                }
                node.set("src", Value::String(src));
                let ghost e1 = crate::ast::entries_view(node.attributes@);
                assert(e1 =~= seq![
                    ("alt"@, crate::ast::SpecValue::String(Seq::empty())),
                    ("src"@, crate::ast::SpecValue::String(destination@)),
                ]);
                let t = cow_str(title);
                if !t.is_empty() {
                    assert(crate::grammar::peg::spec_key_index(e1, "title"@) == -1) by {
                        reveal_strlit("alt");
                        reveal_strlit("src");
                        reveal_strlit("title");
                        assert("alt"@.len() == 3 && "src"@.len() == 3 && "title"@.len() == 5);
                        assert(e1.drop_last().drop_last().len() == 0);
                        assert(e1.last().0 != "title"@);
                        assert(e1.drop_last().last().0 != "title"@);
                        assert(crate::grammar::peg::spec_key_index(e1.drop_last().drop_last(), "title"@) == -1);
                        assert(crate::grammar::peg::spec_key_index(e1.drop_last(), "title"@) == -1);
                    }
                    let owned = t.to_string();
                    proof {
                        vstd::string::to_string_from_display_ensures_for_str(t, owned);
                    }
                    node.set("title", Value::String(owned));
                }
                assert(crate::ast::entries_view(node.attributes@) =~= image_attrs(destination@, title@));
                self.open(node);
                assert(self.stack@.drop_last() =~= mid.stack@);
            },
            Container::Table { alignments } => {
                let mut copy: Vec<Alignment> = Vec::new();
                let mut i: usize = 0;
                while i < alignments.len()
                    invariant
                        i <= alignments@.len(),
                        copy@ == alignments@.take(i as int),
                    decreases alignments.len() - i,
                {
                    copy.push(alignments[i]);
                    i = i + 1;
                    assert(copy@ =~= alignments@.take(i as int));
                }
                assert(copy@ =~= alignments@);
                self.alignments = copy;
                let node = self.node(NodeType::Table, &span);
                self.open(node);
                assert(crate::ast::entries_view(node.attributes@) =~= Seq::empty());
                assert(self.stack@.drop_last() =~= mid.stack@);
                assert(mid.started_block(container_view(*container), span, *self));
            },
            Container::TableHead => {
                self.in_head = true;
                let node = self.node(NodeType::Thead, &span);
                self.open(node);
                let top = self.span_of_top();
                let row = self.node(NodeType::Tr, &top);
                self.open(row);
                self.column = 0;
                assert(crate::ast::entries_view(node.attributes@) =~= Seq::empty());
                assert(self.stack@.drop_last().drop_last() =~= mid.stack@);
                assert(mid.started_block(container_view(*container), span, *self));
            },
            Container::TableRow => {
                if !self.in_body {
                    let body = self.node(NodeType::Tbody, &span);
                    self.open(body);
                    self.in_body = true;
                    assert(crate::ast::entries_view(body.attributes@) =~= Seq::empty());
                    assert(self.stack@.drop_last() =~= mid.stack@);
                }
                let ghost s1 = self.stack@;
                let node = self.node(NodeType::Tr, &span);
                self.open(node);
                self.column = 0;
                assert(crate::ast::entries_view(node.attributes@) =~= Seq::empty());
                assert(self.stack@.drop_last() =~= s1);
                assert(mid.started_block(container_view(*container), span, *self));
            },
            Container::TableCell => {
                let node_type = if self.in_head {
                    NodeType::Th
                } else {
                    NodeType::Td
                };
                let alignment = if self.column < self.alignments.len() {
                    self.alignments[self.column]
                } else {
                    Alignment::Unaligned
                };
                let mut node = self.node(node_type, &span);
                if let Some(align) = alignment.as_str() {
                    let owned = align.to_string();
                    proof {
                        vstd::string::to_string_from_display_ensures_for_str(align, owned);
                    }
                    node.set("align", Value::String(owned));
                }
                assert(crate::ast::entries_view(node.attributes@) =~= align_attrs(alignment));
                self.column = self.column.saturating_add(1);
                self.open(node);
                assert(self.stack@.drop_last() =~= mid.stack@);
                assert(mid.started_block(container_view(*container), span, *self));
            },
        }
        assert(mid.wf());
        assert(b0.started(container_view(*container), span, *self));
    }

    /// The span of the innermost open node, for a synthesised sibling.
    fn span_of_top(&self) -> (r: Range<usize>)
        requires
            self.wf(),
        ensures
            match self.stack@.last().location {
                Some(l) => r.start == l.start.offset && r.end == l.end.offset,
                None => r.start == 0 && r.end == 0,
            },
    {
        match &self.stack[self.stack.len() - 1].location {
            Some(location) => location.span(),
            None => 0..0,
        }
    }

    /// A container closes.
    fn end(&mut self, kind: ContainerKind)
        requires
            old(self).wf(),
        ensures
            final(self).wf(),
            final(self).source == old(self).source,
            final(self).options == old(self).options,
            old(self).container_ended(kind, *final(self)),
    {
        let ghost b0 = *self;
        match kind {
            ContainerKind::Emphasis | ContainerKind::Strong | ContainerKind::Strikethrough
            | ContainerKind::Link => {
                let node = self.pop();
                self.attach(node);
                return;
            },
            ContainerKind::Image => {
                let mut node = self.pop();
                let ghost n0 = node;
                let alt = collect_text(&node);
                node.children = Vec::new();
                node.set("alt", Value::String(alt));
                proof {
                    reveal_strlit("alt");
                }
                assert(b0.closing(n0));
                assert(image_closed(n0, node));
                self.attach(node);
                return;
            },
            _ => self.close_inline(),
        }
        let ghost mid = *self;
        assert(mid.wf());
        match kind {
            ContainerKind::Heading => {
                self.close_heading();
                assert(mid.heading_closed(self.stack@));
            },
            ContainerKind::TableHead => {
                self.in_head = false;
                let row = self.pop();
                self.attach(row);
                let ghost s1 = self.stack@;
                let node = self.pop();
                self.attach(node);
                assert(popped_attached(mid.stack@, mid.options.slots, mid.source, s1));
            },
            ContainerKind::Table => {
                if self.in_body {
                    self.in_body = false;
                    let body = self.pop();
                    self.attach(body);
                    let ghost s1 = self.stack@;
                    let node = self.pop();
                    self.attach(node);
                    assert(popped_attached(mid.stack@, mid.options.slots, mid.source, s1));
                } else {
                    let node = self.pop();
                    self.attach(node);
                }
            },
            _ => {
                let node = self.pop();
                self.attach(node);
            },
        }
    }

    /// Open a heading, or a paragraph if it is really a setext heading.
    fn open_heading(&mut self, level: u8, span: Range<usize>)
        requires
            old(self).wf(),
        ensures
            final(self).wf(),
            final(self).inline_parent == old(self).inline_parent,
            final(self).source == old(self).source,
            final(self).options == old(self).options,
            old(self).heading_opened(level, span, *final(self)),
    {
        let ghost before = self.stack@;
        let text = chars_of(self.slice(span.start, span.end));
        let lead = count_lead_ws(&text);
        if lead < text.len() && text[lead] == '#' {
            let mut node = self.node(NodeType::Heading, &span);
            node.set("level", Value::Number(crate::text::decimal_string(level as u64)));
            self.open(node);
            assert(self.stack@.drop_last() =~= before);
            return;
        }
        let underline = self.last_line(&span);
        let node = self.node(NodeType::Paragraph, &span);
        self.open(node);
        assert(self.stack@.drop_last() =~= before);
        self.setext = Some(underline);
    }

    /// The range of the last line of `span`, trailing whitespace aside.
    fn last_line(&self, span: &Range<usize>) -> (r: Range<usize>)
        ensures
            r.end == span.end,
    {
        let chars = chars_of(self.slice(span.start, span.end));
        let trail = count_trail_ws(&chars);
        proof {
            crate::text::lemma_trail_bound(chars@);
        }
        let kept = chars.len() - trail;
        let mut q = kept;
        while q > 0 && chars[q - 1] != '\n'
            invariant
                q <= kept <= chars@.len(),
            decreases q,
        {
            q = q - 1;
        }
        if q == 0 {
            return span.start..span.end;
        }
        let mut offset: usize = 0;
        let mut k: usize = 0;
        while k < q
            invariant
                k <= q <= chars@.len(),
            decreases q - k,
        {
            offset = offset.saturating_add(width_of(chars[k]));
            k = k + 1;
        }
        let start = span.start.saturating_add(offset);
        let start = if start <= span.end { start } else { span.end };
        start..span.end
    }

    /// Close a heading: a setext `===` heading is one paragraph with its
    /// underline as a continuation line, a `---` one a paragraph and a
    /// thematic break.
    fn close_heading(&mut self)
        requires
            old(self).wf(),
        ensures
            final(self).wf(),
            final(self).setext is None,
            final(self).source == old(self).source,
            final(self).options == old(self).options,
            final(self).inline_parent == old(self).inline_parent,
            old(self).heading_closed(final(self).stack@),
    {
        let ghost b0 = *self;
        let underline = match self.setext.take() {
            Some(u) => u,
            None => {
                let node = self.pop();
                self.attach(node);
                return;
            },
        };
        let text = chars_of(self.slice(underline.start, underline.end));
        let mut node = self.pop();
        let ghost popped = node;
        let ghost rest = self.stack@;
        let lead = count_lead_ws(&text);
        if lead < text.len() && text[lead] == '=' {
            let mut breaker = Node::new(NodeType::Softbreak);
            breaker.inline = true;
            let mut trailing = Node::new(NodeType::Text);
            trailing.inline = true;
            let trail = count_trail_ws(&text);
            proof {
                crate::text::lemma_trail_bound(text@);
            }
            let kept = sub_chars_of(&text, 0, text.len() - trail);
            trailing.set("content", Value::String(string_of(&kept)));
            proof {
                reveal_strlit("content");
            }
            assert(underline_break(breaker));
            assert(underline_text(trailing, text@.take(text@.len() - trail_ws(text@))));
            let mut i: usize = 0;
            while i < node.children.len() && node.children[i].node_type != NodeType::Inline
                invariant
                    node == popped,
                    i <= node.children@.len(),
                    forall|j: int| 0 <= j < i ==> (#[trigger] node.children@[j]).node_type != NodeType::Inline,
                decreases node.children.len() - i,
            {
                i = i + 1;
            }
            if i < node.children.len() {
                let ghost kids = node.children@;
                let mut inline = node.children.remove(i);
                let ghost inline0 = inline;
                inline.push(breaker);
                inline.push(trailing);
                assert(inline.children@ =~= inline0.children@ + seq![breaker, trailing]);
                assert(inline.children@.take(inline0.children@.len() as int) =~= inline0.children@);
                assert(inline == (Node { children: inline.children, ..inline0 }));
                node.children.insert(i, inline);
                assert(node.children@ =~= kids.update(i as int, inline));
                assert(inline_extended(inline0, text@.take(text@.len() - trail_ws(text@)), inline));
                assert(node == (Node { children: node.children, ..popped }));
            } else {
                assert(node.children@ == popped.children@);
            }
            assert(setext_joined(popped, text@.take(text@.len() - trail_ws(text@)), node));
            assert(b0.closing(popped));
            self.attach(node);
            return;
        }
        assert(b0.closing(popped));
        self.attach(node);
        let ghost mid = self.stack@;
        let rule = self.node(NodeType::Hr, &underline);
        self.attach(rule);
        assert(attached(b0.below_top(), popped, b0.options.slots, b0.source, mid));
    }

    /// Open a list, with its bullet or delimiter, and its start when it does
    /// not start at 1.
    fn open_list(&mut self, ordered: bool, start: Option<u64>, span: Range<usize>)
        requires
            old(self).wf(),
        ensures
            final(self).wf(),
            final(self).inline_parent == old(self).inline_parent,
            final(self).source == old(self).source,
            final(self).options == old(self).options,
            final(self).stack@.len() == old(self).stack@.len() + 1,
            final(self).stack@.drop_last() == old(self).stack@,
            made(
                final(self).stack@.last(),
                NodeType::List,
                old(self).inline_parent is Some,
                old(self).options.location,
            ),
            crate::ast::entries_view(final(self).stack@.last().attributes@) == list_attrs(
                ordered,
                start,
                list_marker_spec(
                    slice_chars(old(self).source, span.start as int, span.end as int),
                    ordered,
                ),
            ),
    {
        proof {
            reveal_strlit("ordered");
            reveal_strlit("start");
            reveal_strlit("marker");
        }
        let ghost before = self.stack@;
        let m = list_marker(self.slice(span.start, span.end), ordered);
        let mut node = self.node(NodeType::List, &span);
        node.set("ordered", Value::Boolean(ordered));
        assert(crate::ast::entries_view(node.attributes@) =~= seq![
            ("ordered"@, crate::ast::SpecValue::Boolean(ordered)),
        ]);
        let ghost mid = crate::ast::entries_view(node.attributes@);
        assert("ordered"@.len() == 7 && "start"@.len() == 5 && "marker"@.len() == 6);
        assert(mid.drop_last().len() == 0);
        assert(crate::grammar::peg::spec_key_index(mid.drop_last(), "start"@) == -1);
        assert(crate::grammar::peg::spec_key_index(mid.drop_last(), "marker"@) == -1);
        assert(crate::grammar::peg::spec_key_index(mid, "start"@) == -1);
        assert(crate::grammar::peg::spec_key_index(mid, "marker"@) == -1);
        if let Some(s) = start {
            if ordered && s != 1 {
                node.set("start", Value::Number(crate::text::decimal_string(s)));
                assert(crate::ast::entries_view(node.attributes@) =~= mid.push(
                    ("start"@, crate::ast::SpecValue::Number(decimal(s as nat))),
                ));
                let ghost mm = crate::ast::entries_view(node.attributes@);
                assert(mm.drop_last() =~= mid);
                assert(crate::grammar::peg::spec_key_index(mm, "marker"@) == -1);
            }
        }
        let ghost mid2 = crate::ast::entries_view(node.attributes@);
        assert(crate::grammar::peg::spec_key_index(mid2, "marker"@) == -1);
        node.set("marker", Value::String(m));
        assert(crate::ast::entries_view(node.attributes@) =~= list_attrs(
            ordered,
            start,
            m@,
        ));
        self.open(node);
        assert(self.stack@.drop_last() =~= before);
    }

    /// Build the code-block node now that its content is known.
    #[verifier::rlimit(40)]
    fn close_fence(&mut self)
        requires
            old(self).wf(),
        ensures
            final(self).wf(),
            final(self).source == old(self).source,
            final(self).options == old(self).options,
            final(self).fence is None,
            old(self).fence_closed(*final(self)),
    {
        let ghost b0 = *self;
        let fence = match self.fence.take() {
            Some(f) => f,
            None => return,
        };
        let mut node = self.node(NodeType::Fence, &fence.span);
        let content = string_of(&fence.content);
        proof {
            reveal_strlit("content");
            reveal_strlit("language");
            reveal_strlit("fence-tag-error");
            reveal_strlit("Syntax error in fence tag: ");
        }
        node.set("content", Value::String(content.clone()));
        let info = match &fence.info {
            Some(i) => i.clone(),
            None => String::new(),
        };
        let ghost iv = fence_info(fence);
        assert(info@ == iv);
        let info_chars = chars_of(info.as_str());
        let mut w: usize = 0;
        while w < info_chars.len() && info_chars[w] != ' '
            invariant
                w <= info_chars@.len(),
                space_at(info_chars@, 0) == space_at(info_chars@, w as int),
            decreases info_chars.len() - w,
        {
            w = w + 1;
        }
        let language = sub_chars_of(&info_chars, 0, w);
        let is_open = language.len() == 2 && language[0] == '{' && language[1] == '%';
        assert(is_open <==> language@ =~= seq!['{', '%']);
        let ghost e0 = crate::ast::entries_view(node.attributes@);
        assert(e0 =~= seq![("content"@, crate::ast::SpecValue::String(fence.content@))]);
        if language.len() > 0 && !is_open {
            assert(crate::grammar::peg::spec_key_index(e0, "language"@) == -1) by {
                assert("content"@.len() == 7 && "language"@.len() == 8);
                assert(e0.last().0 != "language"@);
                assert(crate::grammar::peg::spec_key_index(e0.drop_last(), "language"@) == -1);
            }
            node.set("language", Value::String(string_of(&language)));
        }
        let ghost base = fence_attrs(fence.content@, iv.take(space_at(iv, 0)));
        assert(crate::ast::entries_view(node.attributes@) =~= base);
        let ghost n1 = node;
        let info_str = info.as_str();
        let bytes = info_str.as_bytes();
        let found = find_open(bytes);
        proof {
            lemma_first_open(bytes@, 0, match found { Some(x) => Some(x as int), None => None });
        }
        if let Some(start) = found {
            proof {
                crate::parse::scan::lemma_open_boundary(info_str, start as int);
            }
            if let Some(end) = find_tag_end(info.as_str(), start) {
                let inner = match str_get(info.as_str(), start.saturating_add(2), end) {
                    Some(t) => {
                        proof {
                            vstd::utf8::encode_utf8_decode_utf8(t@);
                        }
                        t
                    },
                    None => {
                        proof {
                            reveal_strlit("");
                        }
                        ""
                    },
                };
                let body = string_of(&trim_chars(&chars_of(inner)));
                assert(info_body(iv) == Some(body@));
                match parse_tag(body.as_str()) {
                    Ok(TagItem::Annotation { attributes }) => annotate(&mut node, &attributes),
                    Ok(TagItem::TagOpen { attributes, .. }) => annotate(&mut node, &attributes),
                    Ok(_) => {},
                    Err(error) => {
                        let mut message: Vec<char> = Vec::new();
                        push_str(&mut message, "Syntax error in fence tag: ");
                        push_str(&mut message, error.message());
                        node.errors.push(
                            ValidationError::new(
                                "fence-tag-error",
                                ErrorLevel::Error,
                                string_of(&message),
                            ),
                        );
                    },
                }
            } else {
                assert(info_body(iv) is None);
            }
        } else {
            assert(info_body(iv) is None);
        }
        assert(fence_built(node, fence.content@, iv, b0.inline_parent is Some, b0.options.location));
        proof {
            reveal_strlit("process");
        }
        let got = node.get("process");
        let process = match got {
            Some(Value::Boolean(b)) => *b,
            _ => false,
        };
        proof {
            crate::ast::lemma_key_index(node.attributes@, "process"@);
            if process {
                assert(processed(node));
            }
        }
        if !process {
            assert(!processed(node));
            self.attach(node);
            return;
        }
        let base = match fence.content_start {
            Some(b) => b,
            None => fence.span.start,
        };
        let ghost opened = node;
        self.open(node);
        let ghost m1 = *self;
        let c = content.as_str();
        self.fence_children(c, base);
        let ghost m2 = *self;
        let node = self.pop();
        self.attach(node);
        assert(m1.fence_read(c, base, m2));
        assert(popped_attached(m2.stack@, b0.options.slots, b0.source, self.stack@));
        assert(processed(opened));
        assert(b0.fence == Some(fence));
        assert(base == fence_base(fence));
        assert(c@ == fence.content@);
        assert(m1.stack@ == b0.stack@.push(opened));
    }

    /// Split a processed fence's content into text and tags. A tag alone on
    /// its line takes the newline before it with it.
    #[verifier::rlimit(30)]
    fn fence_children(&mut self, content: &str, base: usize)
        requires
            old(self).wf(),
        ensures
            final(self).wf(),
            final(self).same_frame(*old(self)),
            old(self).fence_read(content, base, *final(self)),
    {
        let bytes = content.as_bytes();
        let len = bytes.len();
        let mut cursor: usize = 0;
        let mut pos: usize = 0;
        let ghost b = bytes@;
        let ghost mut tags: Seq<(int, int)> = Seq::empty();
        let ghost mut ins: Seq<Self> = Seq::empty();
        let ghost mut outs: Seq<Self> = seq![*self];
        while pos < len
            invariant
                self.wf(),
                self.same_frame(*old(self)),
                bytes@ == content.spec_bytes(),
                b == bytes@,
                len == bytes@.len(),
                cursor <= pos,
                ins.len() == tags.len(),
                outs.len() == tags.len() + 1,
                outs[0] == *old(self),
                outs.last() == *self,
                cursor == tag_cursor(tags, tags.len() as int),
                next_tag(b, cursor as int) == next_tag(b, pos as int),
                forall|j: int|
                    0 <= j < tags.len() ==> next_tag(b, tag_cursor(tags, j)) == Some(#[trigger] tags[j]),
                forall|j: int|
                    0 <= j < tags.len() ==> #[trigger] outs[j].fence_step(
                        content,
                        base,
                        tags,
                        j,
                        ins[j],
                        outs[j + 1],
                    ),
            decreases len - pos,
        {
            if !(pos + 1 < len && bytes[pos] == 123u8 && bytes[pos + 1] == 37u8) {
                pos = pos + 1;
                continue;
            }
            proof {
                crate::parse::scan::lemma_open_boundary(content, pos as int);
            }
            let end = match find_tag_end(content, pos) {
                Some(e) => e,
                None => {
                    pos = pos + 2;
                    continue;
                },
            };
            proof {
                crate::parse::scan::lemma_scan_tag_end(bytes@, pos as int, crate::parse::ScanState::Normal);
            }
            let outer_end = end + 2;
            let mut line_end = end;
            while line_end < len && bytes[line_end] != 10u8
                invariant
                    end <= line_end <= len,
                    len == bytes@.len(),
                    b == bytes@,
                    line_end_from(b, end as int) == line_end_from(b, line_end as int),
                decreases len - line_end,
            {
                line_end = line_end + 1;
            }
            let mut line_start = pos;
            let mut has_start = false;
            while line_start > 0 && !has_start
                invariant
                    line_start <= pos < len,
                    len == bytes@.len(),
                    b == bytes@,
                    !has_start ==> break_before(b, pos as int) == break_before(b, line_start as int),
                    has_start ==> break_before(b, pos as int) == Some(line_start as int),
                decreases line_start,
            {
                if bytes[line_start - 1] == 10u8 {
                    has_start = true;
                }
                line_start = line_start - 1;
            }
            let preceding_end = if has_start && self.line_is_tag(content, line_start, line_end, pos, outer_end) {
                line_start
            } else {
                pos
            };
            let preceding_end = if preceding_end >= cursor { preceding_end } else { cursor };
            let ghost o = *self;
            self.push_fence_text(content, cursor, preceding_end, base);
            let ghost inb = *self;
            let outer = base.saturating_add(pos)..base.saturating_add(outer_end);
            let pair = self.line_pair(&outer);
            let span = TagSpan {
                outer: outer.start..outer.end,
                inner: base.saturating_add(pos + 2)..base.saturating_add(end),
                lines: [pair[0], pair[1]],
            };
            assert(pair@ =~= seq![span.lines[0], span.lines[1]]);
            self.tag(&span, false);
            proof {
                let t2 = tags.push((pos as int, end as int));
                assert(next_tag(b, tag_cursor(t2, tags.len() as int)) == Some((pos as int, end as int)));
                assert(forall|j: int| 0 <= j < tags.len() ==> tag_cursor(t2, j) == tag_cursor(tags, j));
                assert(o.fence_step(content, base, t2, tags.len() as int, inb, *self));
                assert forall|j: int| 0 <= j < tags.len() implies #[trigger] outs[j].fence_step(
                    content,
                    base,
                    t2,
                    j,
                    ins[j],
                    outs[j + 1],
                ) by {
                    assert(outs[j].fence_step(content, base, tags, j, ins[j], outs[j + 1]));
                    assert(tag_cursor(t2, j) == tag_cursor(tags, j));
                    assert(t2[j] == tags[j]);
                }
                ins = ins.push(inb);
                outs = outs.push(*self);
                tags = t2;
                assert forall|j: int| 0 <= j < tags.len() implies #[trigger] outs[j].fence_step(
                    content,
                    base,
                    tags,
                    j,
                    ins[j],
                    outs[j + 1],
                ) by {
                    if j < tags.len() - 1 {
                        assert(outs[j] == outs.drop_last()[j]);
                    }
                }
            }
            cursor = outer_end;
            pos = outer_end;
        }
        self.push_fence_text(content, cursor, len, base);
        proof {
            reveal(Builder::fence_read);
            assert(outs.last().fence_text_pushed(content, cursor as int, len as int, *self));
        }
    }

    /// Whether the line `content[a..b]`, trimmed, is exactly the tag
    /// `content[p..q]`.
    fn line_is_tag(&self, content: &str, a: usize, b: usize, p: usize, q: usize) -> (r: bool)
        ensures
            r == (sub_chars(content.spec_bytes(), a as int, b as int) matches Some(line)
                && trim_spec(line) == slice_chars(content, p as int, q as int)),
    {
        let line = match str_get(content, a, b) {
            Some(t) => t,
            None => {
                assert(sub_chars(content.spec_bytes(), a as int, b as int) is None);
                return false;
            },
        };
        proof {
            vstd::utf8::encode_utf8_decode_utf8(line@);
            assert(sub_chars(content.spec_bytes(), a as int, b as int) == Some(line@));
        }
        let tag = match str_get(content, p, q) {
            Some(t) => {
                proof {
                    vstd::utf8::encode_utf8_decode_utf8(t@);
                    assert(slice_chars(content, p as int, q as int) == t@);
                }
                t
            },
            None => {
                proof {
                    reveal_strlit("");
                }
                ""
            },
        };
        let trimmed = trim_chars(&chars_of(line));
        let tag_chars = chars_of(tag);
        assert(tag_chars@ == slice_chars(content, p as int, q as int));
        crate::format::same_chars(&trimmed, &tag_chars)
    }

    /// A text node for `content[a..b]`, unless it is empty.
    fn push_fence_text(&mut self, content: &str, a: usize, b: usize, base: usize)
        requires
            old(self).wf(),
        ensures
            final(self).wf(),
            old(self).fence_text_pushed(content, a as int, b as int, *final(self)),
    {
        let text = match str_get(content, a, b) {
            Some(t) => t,
            None => return,
        };
        proof {
            vstd::utf8::encode_utf8_decode_utf8(text@);
        }
        if text.is_empty() {
            return;
        }
        let span = base.saturating_add(a)..base.saturating_add(b);
        let owned = text.to_string();
        proof {
            vstd::string::to_string_from_display_ensures_for_str(text, owned);
        }
        let node = self.text_node(owned, &span);
        self.attach(node);
    }

    /// A text run, split around any inline tags it contains.
    fn text(&mut self, text: &str, span: Range<usize>, inline_tags: &Vec<TagSpan>)
        requires
            old(self).wf(),
        ensures
            final(self).wf(),
            final(self).source == old(self).source,
            final(self).options == old(self).options,
            old(self).text_done(text@, span, inline_tags@, *final(self)),
    {
        let ghost b0 = *self;
        self.open_inline(&span);
        let ghost mid = *self;
        let mut tags: Vec<&TagSpan> = Vec::new();
        let mut i: usize = 0;
        while i < inline_tags.len()
            invariant
                i <= inline_tags@.len(),
                tags@.len() == inside(inline_tags@.take(i as int), span).len(),
                forall|k: int|
                    0 <= k < tags@.len() ==> *(#[trigger] tags@[k]) == inside(inline_tags@.take(i as int), span)[k],
            decreases inline_tags.len() - i,
        {
            let t = &inline_tags[i];
            assert(inline_tags@.take(i + 1).drop_last() =~= inline_tags@.take(i as int));
            if t.outer.start >= span.start && t.outer.end <= span.end {
                tags.push(t);
            }
            i = i + 1;
        }
        assert(inline_tags@.take(i as int) =~= inline_tags@);
        let ghost tv = inside(inline_tags@, span);
        if tags.len() == 0 {
            if !text.is_empty() {
                let owned = text.to_string();
                proof {
                    vstd::string::to_string_from_display_ensures_for_str(text, owned);
                }
                let node = self.text_node(owned, &span);
                self.attach(node);
            }
            return;
        }
        let mut cursor = span.start;
        let mut j: usize = 0;
        let ghost mut ins: Seq<Self> = Seq::empty();
        let ghost mut outs: Seq<Self> = seq![*self];
        while j < tags.len()
            invariant
                self.wf(),
                mid.wf(),
                self.source == b0.source,
                self.options == b0.options,
                j <= tags@.len(),
                tags@.len() == tv.len(),
                forall|k: int| 0 <= k < tags@.len() ==> *(#[trigger] tags@[k]) == tv[k],
                ins.len() == j,
                outs.len() == j + 1,
                outs[0] == mid,
                outs.last() == *self,
                cursor == cursor_before(tv, span, j as int),
                forall|jj: int|
                    0 <= jj < j ==> #[trigger] outs[jj].text_step(tv, span, jj, ins[jj], outs[jj + 1]),
            decreases tags.len() - j,
        {
            let t = tags[j];
            let ghost before = *self;
            self.push_source_text(cursor, t.outer.start);
            let ghost inb = *self;
            self.tag(t, true);
            proof {
                ins = ins.push(inb);
                outs = outs.push(*self);
                assert(before.text_step(tv, span, j as int, inb, *self));
                assert forall|jj: int| 0 <= jj < j + 1 implies #[trigger] outs[jj].text_step(
                    tv,
                    span,
                    jj,
                    ins[jj],
                    outs[jj + 1],
                ) by {
                    if jj < j {
                        assert(outs[jj] == outs.drop_last()[jj]);
                    }
                }
            }
            cursor = t.outer.end;
            j = j + 1;
        }
        self.push_source_text(cursor, span.end);
        assert(b0.inline_opened(span, mid));
    }

    /// A text node for the source between two offsets, unescaped, unless it
    /// is empty.
    fn push_source_text(&mut self, start: usize, end: usize)
        requires
            old(self).wf(),
        ensures
            final(self).wf(),
            old(self).source_text_pushed(start, end, *final(self)),
    {
        let text = unescape(self.slice(start, end));
        if text.as_str().is_empty() {
            return;
        }
        let node = self.text_node(text, &(start..end));
        self.attach(node);
    }

    /// Close every node still open, marking each as missing its closing tag,
    /// and hand over the document.
    fn finish(&mut self) -> (n: Node<'s>)
        requires
            old(self).wf(),
        ensures
            n.node_type == NodeType::Document,
            old(self).finished(n),
    {
        let ghost b0 = *self;
        self.flush_html_block();
        let ghost m1 = *self;
        self.close_inline();
        let ghost m2 = *self;
        proof {
            reveal(Builder::all_closed);
        }
        while self.stack.len() > 1
            invariant
                self.wf(),
                self.source == m2.source,
                self.options == m2.options,
                forall|x: Node<'s>| #[trigger] m2.all_closed(self.stack@, x) ==> m2.all_closed(m2.stack@, x),
            decreases self.stack@.len(),
        {
            proof {
                reveal(Builder::all_closed);
            }
            let ghost before = self.stack@;
            let mut node = self.pop();
            let ghost n0 = node;
            let nm = node.name();
            let name = nm.to_string();
            proof {
                vstd::string::to_string_from_display_ensures_for_str(nm, name);
            }
            node.errors.push(ValidationError::missing_closing(name.as_str()));
            assert(node.errors@.drop_last() =~= n0.errors@);
            assert(missing_closed(n0, node));
            self.attach(node);
            proof {
                let mid = self.stack@;
                assert forall|x: Node<'s>| #[trigger] m2.all_closed(mid, x) implies m2.all_closed(before, x) by {
                    assert(mid.len() < before.len());
                }
            }
        }
        proof {
            reveal(Builder::all_closed);
            assert(m2.all_closed(self.stack@, self.stack@[0]));
        }
        let ghost top = self.stack@[0];
        let n = self.stack.pop().unwrap();
        assert(n == top);
        assert(m2.all_closed(m2.stack@, n));
        assert(b0.html_flushed(m1));
        assert(m1.inline_closed(m2));
        n
    }

    /// Walk the segmentation and produce the document node.
    fn run<T: Tokenizer>(&mut self, segmentation: &Segmentation, tokenizer: &T) -> (n: Node<'s>)
        requires
            old(self).wf(),
        ensures
            n.node_type == NodeType::Document,
            old(self).ran(*segmentation, tokenizer, n),
    {
        let ghost seg = *segmentation;
        let ghost mut states: Seq<Self> = seq![*self];
        let ghost mut evs: Seq<Seq<(SpecEvent, Range<usize>)>> = Seq::empty();
        let mut b: usize = 0;
        while b < segmentation.blocks.len()
            invariant
                self.wf(),
                seg == *segmentation,
                b <= segmentation.blocks@.len(),
                states.len() == b + 1,
                evs.len() == b,
                states[0] == *old(self),
                states.last() == *self,
                forall|k: int|
                    0 <= k < b ==> #[trigger] states[k].block_done(seg, tokenizer, k, evs[k], states[k + 1]),
                forall|k: int| 0 <= k <= b ==> #[trigger] states[k].wf(),
            decreases segmentation.blocks.len() - b,
        {
            let ghost start = *self;
            let ghost ev_b: Seq<(SpecEvent, Range<usize>)> = Seq::empty();
            match &segmentation.blocks[b] {
                Block::Markdown(range) => {
                    let masked = segmentation.masked.as_str();
                    let text = match str_get(masked, range.start, range.end) {
                        Some(t) => {
                            proof {
                                vstd::utf8::encode_utf8_decode_utf8(t@);
                            }
                            t
                        },
                        None => {
                            proof {
                                reveal_strlit("");
                            }
                            ""
                        },
                    };
                    assert(text@ == md_text(seg.masked@, range.start, range.end));
                    let events = tokenizer.tokenize(text);
                    let ghost sv = spanned_view(events@);
                    let ghost mut es: Seq<Self> = seq![*self];
                    let mut e: usize = 0;
                    while e < events.len()
                        invariant
                            self.wf(),
                            e <= events@.len(),
                            sv == spanned_view(events@),
                            es.len() == e + 1,
                            es[0] == start,
                            es.last() == *self,
                            forall|i: int|
                                0 <= i < e ==> #[trigger] es[i].event_done(
                                    sv[i].0,
                                    shifted(range.start, sv[i].1),
                                    seg.inline_tags@,
                                    es[i + 1],
                                ),
                            seg == *segmentation,
                        decreases events.len() - e,
                    {
                        let (event, local) = &events[e];
                        let span = range.start.saturating_add(local.start)..range.start.saturating_add(
                            local.end,
                        );
                        let ghost before = *self;
                        self.event(event, span, &segmentation.inline_tags);
                        proof {
                            assert(sv[e as int] == (event_view(*event), *local));
                            assert(before.event_done(sv[e as int].0, shifted(range.start, sv[e as int].1), seg.inline_tags@, *self));
                            es = es.push(*self);
                            assert forall|i: int| 0 <= i < e + 1 implies #[trigger] es[i].event_done(
                                sv[i].0,
                                shifted(range.start, sv[i].1),
                                seg.inline_tags@,
                                es[i + 1],
                            ) by {
                                if i < e {
                                    assert(es[i] == es.drop_last()[i]);
                                }
                            }
                        }
                        e = e + 1;
                    }
                    proof {
                        assert(start.event_chain(es, sv, range.start, seg.inline_tags@, *self));
                        ev_b = sv;
                    }
                },
                Block::Tag(span) => {
                    self.close_inline();
                    let ghost mid = *self;
                    self.tag(span, false);
                    assert(start.inline_closed(mid));
                },
            }
            proof {
                assert(start.block_done(seg, tokenizer, b as int, ev_b, *self));
                states = states.push(*self);
                evs = evs.push(ev_b);
                assert forall|k: int| 0 <= k < b + 1 implies #[trigger] states[k].block_done(
                    seg,
                    tokenizer,
                    k,
                    evs[k],
                    states[k + 1],
                ) by {
                    if k < b {
                        assert(states[k] == states.drop_last()[k]);
                        assert(states[k + 1] == states.drop_last()[k + 1]);
                        assert(evs[k] == evs.drop_last()[k]);
                    }
                }
                assert forall|k: int| 0 <= k <= b + 1 implies #[trigger] states[k].wf() by {
                    if k <= b {
                        assert(states[k] == states.drop_last()[k]);
                    }
                }
            }
            b = b + 1;
        }
        let ghost last = *self;
        let n = self.finish();
        assert(states.last().finished(n));
        assert(b == seg.blocks@.len());
        assert(states.len() == seg.blocks@.len() + 1);
        assert(states[0] == *old(self));
        assert(old(self).run_chain(seg, tokenizer, states, evs, n));
        n
    }
}

/// Where the first `{%` in `bytes` starts, if there is one.
fn find_open(bytes: &[u8]) -> (r: Option<usize>)
    ensures
        r matches Some(i) ==> i + 1 < bytes@.len(),
        r matches Some(i) ==> opens_at(bytes@, i as int) && forall|j: int|
            0 <= j < i ==> !opens_at(bytes@, j),
        r is None ==> forall|j: int| 0 <= j < bytes@.len() ==> !opens_at(bytes@, j),
{
    let mut start: usize = 0;
    while start < bytes.len()
        invariant
            start <= bytes@.len(),
            forall|j: int| 0 <= j < start ==> !opens_at(bytes@, j),
        decreases bytes.len() - start,
    {
        if start + 1 < bytes.len() && bytes[start] == 123u8 && bytes[start + 1] == 37u8 {
            return Some(start);
        }
        start = start + 1;
    }
    None
}

/// Every text descendant of a node, concatenated: an image's `alt`.
fn collect_text<'a>(node: &Node<'a>) -> (r: String)
    ensures
        r@ == all_content(crate::ast::descendants(*node)),
{
    let all = node.walk();
    let ghost ds = crate::ast::descendants(*node);
    let mut out: Vec<char> = Vec::new();
    let mut i: usize = 0;
    proof {
        reveal_strlit("content");
    }
    while i < all.len()
        invariant
            i <= all@.len(),
            all@.len() == ds.len(),
            ds == crate::ast::descendants(*node),
            forall|j: int| 0 <= j < all@.len() ==> *all@[j] == #[trigger] ds[j],
            out@ == all_content(ds.take(i as int)),
        decreases all.len() - i,
    {
        proof {
            crate::ast::lemma_key_index(all@[i as int].attributes@, "content"@);
            assert(ds.take(i + 1).drop_last() =~= ds.take(i as int));
            assert(ds.take(i + 1).last() == ds[i as int]);
        }
        let ghost before = out@;
        match all[i].get("content") {
            Some(Value::String(t)) => push_str(&mut out, t.as_str()),
            _ => {},
        }
        assert(out@ =~= before + content_of(ds[i as int]));
        i = i + 1;
    }
    assert(ds.take(i as int) =~= ds);
    string_of(&out)
}

/// Parse a document: segment it, tokenize its Markdown with `tokenizer`,
/// and lift the events and the tags between them into a tree.
pub fn parse_with<'s, T: Tokenizer>(
    source: &'s str,
    tokenizer: &T,
    options: &ParseOptions<'s>,
) -> (n: Node<'s>)
    ensures
        n.node_type == NodeType::Document,
        parsed(source, tokenizer, options, n),
{
    let segmentation = crate::parse::segment::segment(source);
    let mut builder = Builder::new(source, options);
    let ghost b0 = builder;
    let n = builder.run(&segmentation, tokenizer);
    assert(segmented(source, segmentation));
    assert(b0.fresh(source, options));
    n
}

} // verus!
