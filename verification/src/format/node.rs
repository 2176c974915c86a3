//! The node printer: one arm per node type.
//!
//! Each arm emits its output as pieces in a fixed sequence; the
//! `{% table %}` printing reads piece boundaries, so two pieces are never
//! merged into one. `blockquote` and `list` format each child on its own and
//! paste the result behind a prefix, which is what lets them left-trim a child
//! independently of its siblings. `text` escapes against its parent: inside
//! `strong`, `em` or `s` it escapes the wrapping markers, anywhere else the
//! leading character that would start a different block.

use vstd::prelude::*;

use crate::ast::{Node, NodeType, SpecValue, Value, entries_view, key_index, lemma_key_index, spec_truthy};
use crate::format::chunk::{
    Chunk, Out, SpecChunk, cells_view, chunk_text, joined, text, trim_start_chunks,
};
use crate::format::escape::{Escape, escape_markdown, escape_markdown_spec};
use crate::format::literal::{
    MAX_FORMAT_DEPTH, annotations_chunks, attribute_parts, attributes, lemma_texts_view_push, open_delim, texts_view, push_annotations, push_value, scalar, scalar_spec,
    value_chunks,
};
use crate::format::numbers::{
    heading_marks, heading_marks_of, incremented, incremented_of, min_nat, utf16_count, utf16_sat,
};
use crate::format::options::{FormatOptions, OrderedListMode};
use crate::format::unicode_whitespace;
use crate::text::{
    lemma_trim_start_clean, decimal, push_decimal, join, push_joined, chars_of, push_chars, push_repeat, repeat_char, trim_chars, trim_spec, trim_start_chars,
    trim_start_spec,
};

verus! {

/// What a node needs to know about where it sits.
#[derive(Clone, Copy)]
pub struct Ctx {
    /// Columns of leading indentation.
    pub indent: usize,
    /// Whether the parent is `strong`, `em` or `s`.
    pub parent_wraps: bool,
    /// Whether the parent is the `{% table %}` tag.
    pub parent_is_table_tag: bool,
}

/// The context of the whole tree.
pub open spec fn root_ctx() -> Ctx {
    Ctx { indent: 0, parent_wraps: false, parent_is_table_tag: false }
}

/// The same context, indented `by` more columns (saturating).
pub open spec fn increment(ctx: Ctx, by: nat) -> Ctx {
    Ctx {
        indent: if ctx.indent + by > usize::MAX { usize::MAX } else { (ctx.indent + by) as usize },
        ..ctx
    }
}

fn ctx_increment(ctx: Ctx, by: usize) -> (r: Ctx)
    ensures
        r == increment(ctx, by as nat),
{
    Ctx { indent: ctx.indent.saturating_add(by), ..ctx }
}

/// The name `table`.
pub open spec fn table_name() -> Seq<char> {
    seq!['t', 'a', 'b', 'l', 'e']
}

/// What a node's children need to know about it.
pub open spec fn child_ctx<'a>(n: Node<'a>, ctx: Ctx) -> Ctx {
    Ctx {
        indent: ctx.indent,
        parent_wraps: n.node_type == NodeType::Strong || n.node_type == NodeType::Em
            || n.node_type == NodeType::S,
        parent_is_table_tag: n.node_type == NodeType::Tag && (n.tag matches Some(t) && t@
            == table_name()),
    }
}

fn make_child_ctx(n: &Node, ctx: Ctx) -> (r: Ctx)
    ensures
        r == child_ctx(*n, ctx),
{
    let wraps = n.node_type == NodeType::Strong || n.node_type == NodeType::Em || n.node_type
        == NodeType::S;
    let mut table = false;
    if n.node_type == NodeType::Tag {
        if let Some(t) = &n.tag {
            proof {
                reveal_strlit("table");
                assert("table"@ =~= table_name());
            }
            table = crate::ast::str_eq(t.as_str(), "table");
        }
    }
    Ctx { indent: ctx.indent, parent_wraps: wraps, parent_is_table_tag: table }
}


/// A one-character text.
fn ch1(a: char) -> (v: Vec<char>)
    ensures
        v@ == seq![a],
{
    let mut v: Vec<char> = Vec::new();
    v.push(a);
    assert(v@ =~= seq![a]);
    v
}

/// A two-character text.
fn ch2(a: char, b: char) -> (v: Vec<char>)
    ensures
        v@ == seq![a, b],
{
    let mut v: Vec<char> = Vec::new();
    v.push(a);
    v.push(b);
    assert(v@ =~= seq![a, b]);
    v
}

/// A three-character text.
fn ch3(a: char, b: char, c: char) -> (v: Vec<char>)
    ensures
        v@ == seq![a, b, c],
{
    let mut v: Vec<char> = Vec::new();
    v.push(a);
    v.push(b);
    v.push(c);
    assert(v@ =~= seq![a, b, c]);
    v
}

/// The leading whitespace for a node in this context.
pub open spec fn indent_of(ctx: Ctx) -> Seq<char> {
    repeat_char(' ', ctx.indent as nat)
}

fn indent(ctx: Ctx) -> (r: Vec<char>)
    ensures
        r@ == indent_of(ctx),
{
    let mut r: Vec<char> = Vec::new();
    push_repeat(&mut r, ' ', ctx.indent);
    assert(r@ =~= indent_of(ctx));
    r
}

/// The value of a node's attribute, if it has one.
pub open spec fn attr<'a>(n: Node<'a>, name: Seq<char>) -> Option<SpecValue> {
    let k = key_index(n.attributes@, name);
    if k >= 0 {
        Some(n.attributes@[k].1.deep())
    } else {
        None
    }
}

fn get<'n, 'a>(n: &'n Node<'a>, name: &str) -> (r: Option<&'n Value>)
    ensures
        match attr(*n, name@) {
            Some(v) => r matches Some(x) && x.deep() == v,
            None => r is None,
        },
{
    proof {
        lemma_key_index(n.attributes@, name@);
    }
    n.get(name)
}

/// A value where text is wanted: a string is itself, anything else prints
/// as its literal -- the spelling that reads back.
pub open spec fn text_of(v: SpecValue) -> Seq<char> {
    match v {
        SpecValue::String(t) => t,
        _ => scalar_spec(v, 0),
    }
}

fn text_of_value(v: &Value) -> (r: Vec<char>)
    ensures
        r@ == text_of(v.deep()),
{
    match v {
        Value::String(t) => chars_of(t.as_str()),
        _ => scalar(v),
    }
}

/// A newline.
pub open spec fn nl() -> Seq<char> {
    seq!['\n']
}

/// The children of a node, formatted one after another, `depth` levels
/// down.
pub open spec fn fmt_children<'a>(
    children: Seq<Node<'a>>,
    ctx: Ctx,
    o: FormatOptions,
    depth: nat,
) -> Seq<SpecChunk>
    decreases children, 0nat,
{
    if children.len() == 0 {
        Seq::empty()
    } else {
        fmt_node(children[0], ctx, o, depth) + fmt_children(children.drop_first(), ctx, o, depth)
    }
}

/// A node printed on its own, left-trimmed.
pub open spec fn subtree<'a>(n: Node<'a>, ctx: Ctx, o: FormatOptions, depth: nat) -> Seq<char>
    decreases n, 2nat,
{
    trim_start_spec(joined(fmt_node(n, ctx, o, depth)))
}

/// The name `frontmatter`.
pub open spec fn frontmatter_name() -> Seq<char> {
    seq!['f', 'r', 'o', 'n', 't', 'm', 'a', 't', 't', 'e', 'r']
}

/// The name `content`.
pub open spec fn content_name() -> Seq<char> {
    seq!['c', 'o', 'n', 't', 'e', 'n', 't']
}

/// The name `marker`.
pub open spec fn marker_name() -> Seq<char> {
    seq!['m', 'a', 'r', 'k', 'e', 'r']
}

/// A document: its frontmatter, if a host set one, then its children,
/// left-trimmed.
pub open spec fn document_spec<'a>(n: Node<'a>, kids: Seq<SpecChunk>) -> Seq<SpecChunk> {
    let fm = match attr(n, frontmatter_name()) {
        Some(SpecValue::String(f)) => if f.len() > 0 {
            text(seq!['-', '-', '-', '\n'] + f + seq!['\n', '-', '-', '-', '\n', '\n'])
        } else {
            Seq::empty()
        },
        _ => Seq::empty(),
    };
    fm + trim_start_chunks(kids)
}

/// `strong` or `em`: the marker the author used (or `default`), the inside,
/// the marker again.
pub open spec fn wrapped_spec<'a>(n: Node<'a>, default: Seq<char>, inside: Seq<char>) -> Seq<
    SpecChunk,
> {
    let marker = match attr(n, marker_name()) {
        Some(SpecValue::String(m)) => m,
        _ => default,
    };
    text(marker) + text(inside) + text(marker)
}

/// A `text` node: a variable or function call as a tag again, anything else
/// escaped against its parent.
pub open spec fn text_spec<'a>(n: Node<'a>, ctx: Ctx) -> Seq<SpecChunk> {
    match attr(n, content_name()) {
        Some(v) => if v is Variable || v is Function {
            text(seq!['{', '%', ' ']) + value_chunks(v, 0) + text(seq![' ', '%', '}'])
        } else {
            text(
                escape_markdown_spec(
                    text_of(v),
                    if ctx.parent_wraps {
                        Escape::Wrapping
                    } else {
                        Escape::Block
                    },
                ),
            )
        },
        None => Seq::empty(),
    }
}

/// A comment: `<!-- content -->`, ending its line unless it sits inside one.
pub open spec fn comment_spec<'a>(n: Node<'a>) -> Seq<SpecChunk> {
    let content = match attr(n, content_name()) {
        Some(v) => text_of(v),
        None => Seq::empty(),
    };
    text(
        seq!['<', '!', '-', '-', ' '] + content + seq![' ', '-', '-', '>'] + if n.inline {
            Seq::empty()
        } else {
            nl()
        },
    )
}

/// Inline code: the content, trimmed, between backticks.
pub open spec fn code_spec<'a>(n: Node<'a>) -> Seq<SpecChunk> {
    let inner = match attr(n, content_name()) {
        Some(v) => value_chunks(v, 0),
        None => Seq::empty(),
    };
    text(seq!['`']) + text(trim_spec(joined(inner))) + text(seq!['`'])
}


/// The name `level`.
pub open spec fn level_name() -> Seq<char> {
    seq!['l', 'e', 'v', 'e', 'l']
}

/// The name `alt`.
pub open spec fn alt_name() -> Seq<char> {
    seq!['a', 'l', 't']
}

/// The name `src`.
pub open spec fn src_name() -> Seq<char> {
    seq!['s', 'r', 'c']
}

/// The name `href`.
pub open spec fn href_name() -> Seq<char> {
    seq!['h', 'r', 'e', 'f']
}

/// The name `title`.
pub open spec fn title_name() -> Seq<char> {
    seq!['t', 'i', 't', 'l', 'e']
}

/// How many `#` a heading prints: its numeric `level`, bounded, or one.
pub open spec fn heading_level<'a>(n: Node<'a>) -> nat {
    match attr(n, level_name()) {
        Some(SpecValue::Number(s)) => heading_marks(s),
        _ => 1,
    }
}

/// A heading: its marks, its inside left-trimmed, its annotations.
pub open spec fn heading_spec<'a>(n: Node<'a>, ctx: Ctx, kids: Seq<SpecChunk>) -> Seq<SpecChunk> {
    text(nl()) + text(indent_of(ctx)) + text(repeat_char('#', heading_level(n))) + text(seq![' '])
        + trim_start_chunks(kids) + annotations_chunks(n.annotations@) + text(nl())
}

/// A link or image destination: escaped when it is a string, printed as a
/// value when it is not.
pub open spec fn destination_spec(a: Option<SpecValue>) -> Seq<SpecChunk> {
    match a {
        Some(SpecValue::String(t)) => text(escape_markdown_spec(t, Escape::Parens)),
        Some(v) => value_chunks(v, 0),
        None => Seq::empty(),
    }
}

/// The optional ` "title"` after a destination.
pub open spec fn title_spec<'a>(n: Node<'a>) -> Seq<SpecChunk> {
    match attr(n, title_name()) {
        Some(v) => if spec_truthy(v) {
            text(seq![' ', '"'] + text_of(v) + seq!['"'])
        } else {
            Seq::empty()
        },
        None => Seq::empty(),
    }
}

/// An image: `![alt](src "title")`.
pub open spec fn image_spec<'a>(n: Node<'a>) -> Seq<SpecChunk> {
    text(seq!['!']) + text(seq!['[']) + match attr(n, alt_name()) {
        Some(v) => value_chunks(v, 0),
        None => Seq::empty(),
    } + text(seq![']']) + text(seq!['(']) + destination_spec(attr(n, src_name())) + title_spec(n)
        + text(seq![')'])
}

/// A link: `<href>` when its text is its own destination and it has no
/// title, `[text](href "title")` otherwise.
pub open spec fn link_spec<'a>(n: Node<'a>, kids: Seq<SpecChunk>) -> Seq<SpecChunk> {
    let inside = joined(kids);
    let has_title = attr(n, title_name()) matches Some(v) && spec_truthy(v);
    if !has_title && (attr(n, href_name()) matches Some(SpecValue::String(h)) && inside == h) {
        text(seq!['<'] + inside + seq!['>'])
    } else {
        text(seq!['[']) + text(inside) + text(seq![']']) + text(seq!['(']) + destination_spec(
            attr(n, href_name()),
        ) + title_spec(n) + text(seq![')'])
    }
}


/// The rest of a quoted text: every line after the first behind `p`.
pub open spec fn quote_rest(t: Seq<char>, p: Seq<char>) -> Seq<char>
    decreases t.len(),
{
    if t.len() == 0 {
        Seq::empty()
    } else if t[0] == '\n' && t.len() > 1 {
        seq!['\n'] + p + quote_rest(t.drop_first(), p)
    } else {
        seq![t[0]] + quote_rest(t.drop_first(), p)
    }
}

/// Every line of `t` behind `p`; an empty text is `p` alone, so a quote of
/// something that prints nothing is still a quote.
pub open spec fn quote_spec(t: Seq<char>, p: Seq<char>) -> Seq<char> {
    if t.len() == 0 {
        p
    } else {
        p + quote_rest(t, p)
    }
}

/// A blockquote's children, each printed on its own and quoted.
pub open spec fn bq_parts<'a>(
    cs: Seq<Node<'a>>,
    p: Seq<char>,
    no: Ctx,
    o: FormatOptions,
    d: nat,
) -> Seq<Seq<char>>
    decreases cs, 0nat,
{
    if cs.len() == 0 {
        Seq::empty()
    } else {
        seq![nl() + quote_spec(subtree(cs[0], no, o, d), p)] + bq_parts(cs.drop_first(), p, no, o, d)
    }
}

/// The prefix a blockquote puts on each of its lines.
pub open spec fn bq_prefix(ctx: Ctx) -> Seq<char> {
    indent_of(ctx) + seq!['>', ' ']
}

/// The longest run of backticks of length three or more seen so far, and
/// the length of the run the text ends in.
pub open spec fn backtick_scan(c: Seq<char>) -> (nat, nat)
    decreases c.len(),
{
    if c.len() == 0 {
        (0, 0)
    } else {
        let (l, r) = backtick_scan(c.drop_last());
        if c.last() == '`' {
            let r2 = r + 1;
            (if r2 >= 3 && r2 > l {
                r2
            } else {
                l
            }, r2)
        } else {
            (l, 0)
        }
    }
}

/// How many backticks a fence around `c` uses: one more than the longest run
/// of three or more inside it, or three, so that the fence cannot close
/// inside its own content.
pub open spec fn boundary_len(c: Seq<char>) -> nat {
    let l = backtick_scan(c).0;
    if l > 0 {
        min_nat(l + 1, usize::MAX as nat)
    } else {
        3
    }
}

/// `c` with `ind` after every newline.
pub open spec fn indent_lines(c: Seq<char>, ind: Seq<char>) -> Seq<char>
    decreases c.len(),
{
    if c.len() == 0 {
        Seq::empty()
    } else {
        (if c[0] == '\n' {
            seq!['\n'] + ind
        } else {
            seq![c[0]]
        }) + indent_lines(c.drop_first(), ind)
    }
}

/// The name `language`.
pub open spec fn language_name() -> Seq<char> {
    seq!['l', 'a', 'n', 'g', 'u', 'a', 'g', 'e']
}

/// The content of a fence: its `content` attribute as text.
pub open spec fn fence_content<'a>(n: Node<'a>) -> Seq<char> {
    match attr(n, content_name()) {
        Some(v) => text_of(v),
        None => Seq::empty(),
    }
}

/// A fence's opening line: the boundary, the language, the annotations.
pub open spec fn fence_head<'a>(n: Node<'a>, ind: Seq<char>, b: Seq<char>) -> Seq<SpecChunk> {
    let lang = match attr(n, language_name()) {
        Some(v) => if spec_truthy(v) {
            text(text_of(v))
        } else {
            Seq::empty()
        },
        None => Seq::empty(),
    };
    text(nl()) + text(ind) + text(b) + lang + (if n.annotations@.len() > 0 {
        text(seq![' '])
    } else {
        Seq::empty()
    }) + annotations_chunks(n.annotations@) + text(nl())
}

/// A fence's content, every line indented, and its closing boundary on a
/// line of its own.
pub open spec fn fence_tail(content: Seq<char>, ind: Seq<char>, b: Seq<char>) -> Seq<SpecChunk> {
    text(ind) + text(indent_lines(content, ind)) + (if !(content.len() > 0 && content.last()
        == '\n') {
        text(nl()) + text(ind)
    } else {
        Seq::empty()
    }) + text(b) + text(nl())
}

/// A fence: the boundary, the language and annotations, the content with
/// every line indented, and the boundary again on a line of its own.
pub open spec fn fence_spec<'a>(n: Node<'a>, ctx: Ctx) -> Seq<SpecChunk> {
    let b = repeat_char('`', boundary_len(fence_content(n)));
    fence_head(n, indent_of(ctx), b) + fence_tail(fence_content(n), indent_of(ctx), b)
}


/// `a + b`, saturating at `usize::MAX`.
pub open spec fn sat_add(a: nat, b: nat) -> nat {
    min_nat(a + b, usize::MAX as nat)
}

/// A tag node's name, or nothing.
pub open spec fn tag_name_of<'a>(n: Node<'a>) -> Seq<char> {
    match n.tag {
        Some(t) => t@,
        None => Seq::empty(),
    }
}

/// The pieces of a tag's opening: `{% name`, then each attribute.
pub open spec fn tag_parts<'a>(n: Node<'a>) -> Seq<Seq<char>> {
    seq![open_delim() + tag_name_of(n)] + attribute_parts(entries_view(n.attributes@))
}

/// A tag's opening, without its closing `%}`. A block tag whose opening is
/// wider than the limit -- counting `{% ` once more, and ` %}` -- puts each
/// attribute on a line of its own.
pub open spec fn tag_opening<'a>(n: Node<'a>, ctx: Ctx, o: FormatOptions) -> Seq<char> {
    let parts = tag_parts(n);
    let inline_tag = join(parts, seq![' ']);
    let width = sat_add(utf16_sat(inline_tag), 6);
    if !n.inline && width > o.max_tag_opening_width {
        join(parts, nl() + repeat_char(' ', 3) + indent_of(ctx))
    } else {
        inline_tag
    }
}

/// Whether a tag prints its children between an opening and a closing: only
/// when they come to something other than whitespace. Otherwise it closes
/// itself.
pub open spec fn has_body<'a>(n: Node<'a>, kids: Seq<SpecChunk>) -> bool {
    n.children@.len() > 0 && trim_spec(joined(kids)).len() > 0
}

/// A tag: `{% name attrs /%}`, or its opening, its children and
/// `{% /name %}`; a block tag on lines of its own.
pub open spec fn tag_spec<'a>(n: Node<'a>, ctx: Ctx, o: FormatOptions, kids: Seq<SpecChunk>) -> Seq<
    SpecChunk,
> {
    let ind = indent_of(ctx);
    (if !n.inline {
        text(nl()) + text(ind)
    } else {
        Seq::empty()
    }) + text(
        tag_opening(n, ctx, o) + seq![' '] + (if has_body(n, kids) {
            Seq::empty()
        } else {
            seq!['/']
        }) + seq!['%', '}'],
    ) + (if has_body(n, kids) {
        kids + (if !n.inline {
            text(ind)
        } else {
            Seq::empty()
        }) + text(seq!['{', '%', ' ', '/'] + tag_name_of(n) + seq![' ', '%', '}'])
    } else {
        Seq::empty()
    }) + (if !n.inline {
        text(nl())
    } else {
        Seq::empty()
    })
}


/// The name `ordered`.
pub open spec fn ordered_name() -> Seq<char> {
    seq!['o', 'r', 'd', 'e', 'r', 'e', 'd']
}

/// The name `start`.
pub open spec fn start_name() -> Seq<char> {
    seq!['s', 't', 'a', 'r', 't']
}

/// Whether any item of a list holds a paragraph: a loose list, whose items
/// keep the blank line between them.
pub open spec fn is_loose<'a>(n: Node<'a>) -> bool {
    exists|i: int, j: int|
        0 <= i < n.children@.len() && 0 <= j < n.children@[i].children@.len()
            && #[trigger] n.children@[i].children@[j].node_type == NodeType::Paragraph
}

/// Whether a list is numbered.
pub open spec fn is_ordered<'a>(n: Node<'a>) -> bool {
    attr(n, ordered_name()) matches Some(v) && spec_truthy(v)
}

/// A list's own marker, or `dflt`.
pub open spec fn list_marker<'a>(n: Node<'a>, dflt: Seq<char>) -> Seq<char> {
    match attr(n, marker_name()) {
        Some(SpecValue::String(m)) => m,
        _ => dflt,
    }
}

/// A list's numeric `start`, if it has one.
pub open spec fn list_start<'a>(n: Node<'a>) -> Option<Seq<char>> {
    match attr(n, start_name()) {
        Some(SpecValue::Number(s)) => Some(s),
        _ => None,
    }
}

/// The number of item `k` of a numbered list. Repeating, the first item
/// prints the start and every other one `1`; incrementing, item `k` prints
/// the start's integer part plus `k`.
pub open spec fn list_number<'a>(n: Node<'a>, o: FormatOptions, k: nat) -> Seq<char> {
    let offset = min_nat(k, 0xFFFF_FFFF);
    match o.ordered_list_mode {
        OrderedListMode::Increment => match list_start(n) {
            Some(s) => incremented(s, offset),
            None => decimal(1 + offset),
        },
        OrderedListMode::Repeat => if k == 0 {
            match list_start(n) {
                Some(s) => s,
                None => seq!['1'],
            }
        } else {
            seq!['1']
        },
    }
}

/// What item `k` of a list is written behind.
pub open spec fn list_prefix<'a>(n: Node<'a>, o: FormatOptions, k: nat) -> Seq<char> {
    if is_ordered(n) {
        list_number(n, o, k) + list_marker(n, seq!['.'])
    } else {
        list_marker(n, seq!['-'])
    }
}

/// The items of list `n` from item `k` on, each on a line behind its
/// prefix and indented past it. An item is trimmed unless the list is loose
/// and it is not the last.
pub open spec fn list_lines<'a>(
    cs: Seq<Node<'a>>,
    k: nat,
    n: Node<'a>,
    ctx: Ctx,
    no: Ctx,
    o: FormatOptions,
    d: nat,
) -> Seq<SpecChunk>
    decreases cs, 0nat,
{
    if cs.len() == 0 {
        Seq::empty()
    } else {
        let prefix = list_prefix(n, o, k);
        let width = sat_add(utf16_sat(prefix), 1);
        let item = subtree(cs[0], increment(no, width), o, d);
        let item2 = if !is_loose(n) || k + 1 == n.children@.len() {
            trim_spec(item)
        } else {
            item
        };
        text(nl() + indent_of(ctx) + prefix + seq![' '] + item2) + list_lines(
            cs.drop_first(),
            k + 1,
            n,
            ctx,
            no,
            o,
            d,
        )
    }
}


/// One `- cell` line per cell.
pub open spec fn cell_lines(cells: Seq<Seq<char>>, ind: Seq<char>) -> Seq<SpecChunk>
    decreases cells.len(),
{
    if cells.len() == 0 {
        Seq::empty()
    } else {
        text(nl() + ind + seq!['-', ' '] + cells[0]) + cell_lines(cells.drop_first(), ind)
    }
}

/// A table written as a `{% table %}` tag, from piece `k` on: a row as one
/// `- cell` line per cell, after a `---` line unless it is the first piece;
/// a loose line of text -- what a tag between rows prints -- on a line of
/// its own unless it is blank.
pub open spec fn advanced_from(t: Seq<SpecChunk>, k: nat, ind: Seq<char>) -> Seq<SpecChunk>
    decreases t.len(),
{
    if t.len() == 0 {
        Seq::empty()
    } else {
        (match t[0] {
            SpecChunk::Text(x) => if trim_spec(x).len() > 0 {
                text(nl()) + text(x)
            } else {
                Seq::empty()
            },
            SpecChunk::Row(cells) => (if k != 0 {
                text(nl()) + text(ind + seq!['-', '-', '-'])
            } else {
                Seq::empty()
            }) + cell_lines(cells, ind),
        }) + advanced_from(t.drop_first(), k + 1, ind)
    }
}

/// A table written as a `{% table %}` tag.
pub open spec fn advanced_spec(t: Seq<SpecChunk>, indent: usize) -> Seq<SpecChunk> {
    advanced_from(t, 0, repeat_char(' ', indent as nat)) + text(nl())
}

/// The rows among the pieces, in order.
pub open spec fn rows_of(t: Seq<SpecChunk>) -> Seq<Seq<Seq<char>>>
    decreases t.len(),
{
    if t.len() == 0 {
        Seq::empty()
    } else {
        rows_of(t.drop_last()) + match t.last() {
            SpecChunk::Row(c) => seq![c],
            SpecChunk::Text(_) => Seq::empty(),
        }
    }
}

/// The entry at `c`, or zero past the end.
pub open spec fn width_at(w: Seq<nat>, c: int) -> nat {
    if 0 <= c < w.len() {
        w[c]
    } else {
        0
    }
}

/// The larger of two naturals.
pub open spec fn max_nat(a: nat, b: nat) -> nat {
    if a >= b {
        a
    } else {
        b
    }
}

/// Column widths, widened to take a row's cells.
pub open spec fn merge_widths(w: Seq<nat>, cells: Seq<Seq<char>>) -> Seq<nat> {
    Seq::new(
        if w.len() >= cells.len() {
            w.len()
        } else {
            cells.len()
        },
        |c: int|
            max_nat(
                width_at(w, c),
                if c < cells.len() {
                    utf16_sat(cells[c])
                } else {
                    0
                },
            ),
    )
}

/// The width of each column: its widest cell.
pub open spec fn widths_of(rows: Seq<Seq<Seq<char>>>) -> Seq<nat>
    decreases rows.len(),
{
    if rows.len() == 0 {
        Seq::empty()
    } else {
        merge_widths(widths_of(rows.drop_last()), rows.last())
    }
}

/// Each cell, padded with spaces to its column's width.
pub open spec fn pad_cells(cells: Seq<Seq<char>>, w: Seq<nat>) -> Seq<Seq<char>> {
    Seq::new(
        cells.len(),
        |c: int|
            cells[c] + repeat_char(
                ' ',
                if width_at(w, c) >= utf16_sat(cells[c]) {
                    (width_at(w, c) - utf16_sat(cells[c])) as nat
                } else {
                    0
                },
            ),
    )
}

/// The rule under the header: a run of `-` as wide as each column.
pub open spec fn rule_cells(cells: Seq<Seq<char>>, w: Seq<nat>) -> Seq<Seq<char>> {
    Seq::new(cells.len(), |c: int| repeat_char('-', width_at(w, c)))
}

/// `| a | b |`.
pub open spec fn row_line(cells: Seq<Seq<char>>) -> Seq<char> {
    seq!['|', ' '] + join(cells, seq![' ', '|', ' ']) + seq![' ', '|']
}

/// The body rows of a pipe table, each on a line.
pub open spec fn body_lines(rows: Seq<Seq<Seq<char>>>, w: Seq<nat>) -> Seq<SpecChunk>
    decreases rows.len(),
{
    if rows.len() == 0 {
        Seq::empty()
    } else {
        text(row_line(pad_cells(rows[0], w))) + text(nl()) + body_lines(rows.drop_first(), w)
    }
}

/// A GFM pipe table, its columns padded to line up. Loose text between rows
/// has no place in one and is left out.
pub open spec fn pipe_spec(t: Seq<SpecChunk>) -> Seq<SpecChunk> {
    let rows = rows_of(t);
    if rows.len() == 0 {
        Seq::empty()
    } else {
        let w = widths_of(rows);
        text(nl()) + text(row_line(pad_cells(rows[0], w))) + text(nl()) + text(
            row_line(rule_cells(rows[0], w)),
        ) + text(nl()) + body_lines(rows.drop_first(), w)
    }
}

/// A table head: the first piece its children printed, or an empty row when
/// there is none or it is empty text.
pub open spec fn thead_spec(kids: Seq<SpecChunk>) -> Seq<SpecChunk> {
    if kids.len() == 0 {
        seq![SpecChunk::Row(Seq::empty())]
    } else {
        match kids[0] {
            SpecChunk::Text(t) => if t.len() == 0 {
                seq![SpecChunk::Row(Seq::empty())]
            } else {
                seq![kids[0]]
            },
            SpecChunk::Row(_) => seq![kids[0]],
        }
    }
}

/// A table row: the pieces its cells printed, as one row.
pub open spec fn tr_spec(kids: Seq<SpecChunk>) -> Seq<SpecChunk> {
    seq![SpecChunk::Row(Seq::new(kids.len(), |i: int| chunk_text(kids[i])))]
}

/// A node, formatted in `ctx`, `depth` levels down. Past
/// [`MAX_FORMAT_DEPTH`] a node prints as nothing.
pub open spec fn fmt_node<'a>(n: Node<'a>, ctx: Ctx, o: FormatOptions, depth: nat) -> Seq<
    SpecChunk,
>
    decreases n, 1nat,
{
    if depth >= MAX_FORMAT_DEPTH {
        Seq::empty()
    } else {
        let d = depth + 1;
        let no = child_ctx(n, ctx);
        let kids = fmt_children(n.children@, no, o, d);
        match n.node_type {
            NodeType::Document => document_spec(n, kids),
            NodeType::Heading => heading_spec(n, ctx, kids),
            NodeType::Blockquote => text(join(bq_parts(n.children@, bq_prefix(ctx), no, o, d), bq_prefix(ctx))),
            NodeType::Fence => fence_spec(n, ctx),
            NodeType::Tag => tag_spec(n, ctx, o, kids),
            NodeType::List => list_lines(n.children@, 0, n, ctx, no, o, d) + text(nl()),
            NodeType::Table => if ctx.parent_is_table_tag {
                advanced_spec(fmt_children(n.children@, increment(no, 2), o, d), ctx.indent)
            } else {
                pipe_spec(fmt_children(n.children@, increment(no, 2), o, d))
            },
            NodeType::Thead => thead_spec(kids),
            NodeType::Tr => tr_spec(kids),
            NodeType::Td | NodeType::Th => text(trim_spec(joined(kids + annotations_chunks(n.annotations@)))),
            NodeType::Image => image_spec(n),
            NodeType::Link => link_spec(n, kids),
            NodeType::Paragraph => text(nl()) + kids + annotations_chunks(n.annotations@) + text(
                nl(),
            ),
            NodeType::Inline => text(indent_of(ctx)) + kids,
            NodeType::Text => text_spec(n, ctx),
            NodeType::Hr => text(nl()) + text(indent_of(ctx)) + text(seq!['-', '-', '-']) + text(
                nl(),
            ),
            NodeType::Item => if n.children@.len() == 0 {
                Seq::empty()
            } else {
                fmt_node(n.children@[0], no, o, d) + annotations_chunks(n.annotations@)
                    + fmt_children(n.children@.drop_first(), no, o, d)
            },
            NodeType::Strong => wrapped_spec(n, seq!['*', '*'], trim_spec(joined(kids))),
            NodeType::Em => wrapped_spec(n, seq!['*'], trim_spec(joined(kids))),
            NodeType::S => text(seq!['~', '~']) + text(trim_spec(joined(kids))) + text(
                seq!['~', '~'],
            ),
            NodeType::Code => code_spec(n),
            NodeType::Hardbreak => text(seq!['\\', '\n']) + text(indent_of(ctx)),
            NodeType::Softbreak => text(nl()) + text(indent_of(ctx)),
            NodeType::Tbody => kids,
            NodeType::Comment => comment_spec(n),
            NodeType::Error | NodeType::Node => Seq::empty(),
        }
    }
}


/// A strikethrough prints between `~~` markers: its output opens with `~~`,
/// closes with `~~`, and holds its children's text, trimmed, in between, so
/// that reading it back finds the strikethrough again.
pub proof fn law_strikethrough_markers<'a>(n: Node<'a>, ctx: Ctx, o: FormatOptions, depth: nat)
    requires
        n.node_type == NodeType::S,
        depth < MAX_FORMAT_DEPTH,
    ensures
        joined(fmt_node(n, ctx, o, depth)) == seq!['~', '~'] + trim_spec(
            joined(fmt_children(n.children@, child_ctx(n, ctx), o, depth + 1)),
        ) + seq!['~', '~'],
        joined(fmt_node(n, ctx, o, depth)).take(2) == seq!['~', '~'],
        joined(fmt_node(n, ctx, o, depth)).skip(joined(fmt_node(n, ctx, o, depth)).len() - 2) == seq![
            '~',
            '~',
        ],
{
    let inner = trim_spec(joined(fmt_children(n.children@, child_ctx(n, ctx), o, depth + 1)));
    let c = text(seq!['~', '~']) + text(inner) + text(seq!['~', '~']);
    assert(fmt_node(n, ctx, o, depth) == c);
    assert(c.drop_last().drop_last().drop_last() =~= Seq::<SpecChunk>::empty());
    assert(c.drop_last().drop_last() =~= text(seq!['~', '~']));
    assert(c.drop_last() =~= text(seq!['~', '~']) + text(inner));
    let m = text(seq!['~', '~']);
    assert(m.drop_last() =~= Seq::<SpecChunk>::empty());
    assert(joined(Seq::<SpecChunk>::empty()) == Seq::<char>::empty());
    assert(joined(m) =~= seq!['~', '~']);
    assert(joined(c.drop_last().drop_last()) =~= seq!['~', '~']);
    assert(joined(c.drop_last()) =~= seq!['~', '~'] + inner);
    let out = seq!['~', '~'] + inner + seq!['~', '~'];
    assert(joined(c) =~= out);
    assert(out.take(2) =~= seq!['~', '~']);
    assert(out.skip(out.len() - 2) =~= seq!['~', '~']);
}

/// Item `j` of a run of list items, as the list prints it.
proof fn lemma_list_lines<'a>(
    cs: Seq<Node<'a>>,
    k0: nat,
    n: Node<'a>,
    ctx: Ctx,
    no: Ctx,
    o: FormatOptions,
    d: nat,
    j: int,
)
    requires
        0 <= j < cs.len(),
    ensures
        list_lines(cs, k0, n, ctx, no, o, d).len() >= cs.len(),
        ({
            let k = k0 + j;
            let prefix = list_prefix(n, o, k as nat);
            let item = subtree(cs[j], increment(no, sat_add(utf16_sat(prefix), 1)), o, d);
            list_lines(cs, k0, n, ctx, no, o, d)[j] == SpecChunk::Text(
                nl() + indent_of(ctx) + prefix + seq![' '] + if !is_loose(n) || k + 1 == n.children@.len() {
                    trim_spec(item)
                } else {
                    item
                },
            )
        }),
    decreases cs.len(),
{
    if j > 0 {
        lemma_list_lines(cs.drop_first(), k0 + 1, n, ctx, no, o, d, j - 1);
        assert(cs.drop_first()[j - 1] == cs[j]);
    } else if cs.len() > 1 {
        lemma_list_lines(cs.drop_first(), k0 + 1, n, ctx, no, o, d, 0);
    }
}

/// A list is loose when some item holds a paragraph, and then every item
/// but the last is written whole, trailing newline included, which leaves a
/// blank line before the next item; in a tight list, where no item holds a
/// paragraph, every item is trimmed and the items sit on consecutive lines.
/// The last item is trimmed either way, so the list ends where its text does.
pub proof fn law_loose_list<'a>(n: Node<'a>, ctx: Ctx, o: FormatOptions, depth: nat, k: int)
    requires
        n.node_type == NodeType::List,
        depth < MAX_FORMAT_DEPTH,
        0 <= k < n.children@.len(),
    ensures
        ({
            let prefix = list_prefix(n, o, k as nat);
            let item = subtree(
                n.children@[k],
                increment(child_ctx(n, ctx), sat_add(utf16_sat(prefix), 1)),
                o,
                depth + 1,
            );
            let line = |body: Seq<char>| SpecChunk::Text(nl() + indent_of(ctx) + prefix + seq![' '] + body);
            &&& (exists|i: int, c: int|
                0 <= i < n.children@.len() && 0 <= c < n.children@[i].children@.len()
                    && n.children@[i].children@[c].node_type == NodeType::Paragraph) && k + 1
                < n.children@.len() ==> fmt_node(n, ctx, o, depth)[k] == line(item)
            &&& (forall|i: int, c: int|
                0 <= i < n.children@.len() && 0 <= c < n.children@[i].children@.len()
                    ==> n.children@[i].children@[c].node_type != NodeType::Paragraph)
                ==> fmt_node(n, ctx, o, depth)[k] == line(trim_spec(item))
            &&& k + 1 == n.children@.len() ==> fmt_node(n, ctx, o, depth)[k] == line(trim_spec(item))
        }),
{
    let no = child_ctx(n, ctx);
    lemma_list_lines(n.children@, 0, n, ctx, no, o, depth + 1, k);
    let ll = list_lines(n.children@, 0, n, ctx, no, o, depth + 1);
    assert(fmt_node(n, ctx, o, depth) == ll + text(nl()));
    assert((ll + text(nl()))[k] == ll[k]);
    if exists|i: int, c: int|
        0 <= i < n.children@.len() && 0 <= c < n.children@[i].children@.len()
            && n.children@[i].children@[c].node_type == NodeType::Paragraph {
        let (i, c) = choose|i: int, c: int|
            0 <= i < n.children@.len() && 0 <= c < n.children@[i].children@.len()
                && n.children@[i].children@[c].node_type == NodeType::Paragraph;
        assert(n.children@[i].children@[c].node_type == NodeType::Paragraph);
        assert(is_loose(n));
    }
}

/// Formatted source never starts with whitespace: a tree prints from its
/// first character on.
pub proof fn lemma_format_starts_clean<'a>(n: Node<'a>, o: FormatOptions)
    ensures
        format_spec(n, o).len() > 0 ==> !unicode_whitespace(format_spec(n, o)[0]),
{
    lemma_trim_start_clean(joined(fmt_node(n, root_ctx(), o, 0)));
}

/// Whether `c[i..j]` is all backticks.
pub open spec fn all_backticks(c: Seq<char>, i: int, j: int) -> bool {
    forall|k: int| i <= k < j ==> #[trigger] c[k] == '`'
}

/// The run of backticks `c` ends with is what the scan counts, and every
/// run of three or more is no longer than the longest it records, which is
/// either nothing or a run of three or more.
proof fn lemma_backtick_scan(c: Seq<char>)
    ensures
        backtick_scan(c).0 <= c.len(),
        backtick_scan(c).0 == 0 || backtick_scan(c).0 >= 3,
        backtick_scan(c).1 <= c.len(),
        forall|i: int|
            0 <= i <= c.len() && #[trigger] all_backticks(c, i, c.len() as int) ==> c.len() - i
                <= backtick_scan(c).1,
        forall|i: int, j: int|
            0 <= i <= j <= c.len() && #[trigger] all_backticks(c, i, j) && j - i >= 3 ==> j - i
                <= backtick_scan(c).0,
    decreases c.len(),
{
    if c.len() > 0 {
        let t = c.drop_last();
        lemma_backtick_scan(t);
        assert forall|i: int, j: int|
            0 <= i <= j <= c.len() && #[trigger] all_backticks(c, i, j) && j - i >= 3 implies j - i
                <= backtick_scan(c).0 by {
            if j < c.len() {
                assert forall|k: int| i <= k < j implies #[trigger] t[k] == '`' by {
                    assert(t[k] == c[k]);
                }
                assert(all_backticks(t, i, j));
            } else {
                assert forall|k: int| i <= k < t.len() implies #[trigger] t[k] == '`' by {
                    assert(t[k] == c[k]);
                }
                assert(all_backticks(t, i, t.len() as int));
                assert(c[c.len() - 1] == '`');
            }
        }
        assert forall|i: int|
            0 <= i <= c.len() && #[trigger] all_backticks(c, i, c.len() as int) implies c.len() - i
                <= backtick_scan(c).1 by {
            if i < c.len() {
                assert forall|k: int| i <= k < t.len() implies #[trigger] t[k] == '`' by {
                    assert(t[k] == c[k]);
                }
                assert(all_backticks(t, i, t.len() as int));
                assert(c[c.len() - 1] == '`');
            }
        }
    }
}

/// A fence cannot close inside its own content: every run of backticks in
/// it is shorter than the fence's boundary.
pub proof fn lemma_fence_boundary(c: Seq<char>, i: int, j: int)
    requires
        c.len() < usize::MAX,
        0 <= i <= j <= c.len(),
        all_backticks(c, i, j),
    ensures
        j - i < boundary_len(c),
{
    lemma_backtick_scan(c);
}

/// Emit every child, in order.
fn children<'a>(out: &mut Out, cs: &Vec<Node<'a>>, ctx: Ctx, o: &FormatOptions, depth: usize)
    requires
        depth <= MAX_FORMAT_DEPTH,
    ensures
        final(out)@ == old(out)@ + fmt_children(cs@, ctx, *o, depth as nat),
    decreases cs, 0nat,
{
    let ghost start = out@;
    let ghost all = cs@;
    let mut i: usize = 0;
    assert(all.skip(0) =~= all);
    while i < cs.len()
        invariant
            i <= cs@.len(),
            all == cs@,
            depth <= MAX_FORMAT_DEPTH,
            out@ + fmt_children(all.skip(i as int), ctx, *o, depth as nat) == start
                + fmt_children(all, ctx, *o, depth as nat),
        decreases cs.len() - i,
    {
        proof {
            assert(all.skip(i as int)[0] == all[i as int]);
            assert(all.skip(i as int).drop_first() =~= all.skip(i + 1));
            assert(decreases_to!(*cs => cs@));
            assert(decreases_to!(cs@ => cs@[i as int]));
        }
        let ghost before = out@;
        node(out, &cs[i], ctx, o, depth);
        assert(out@ + fmt_children(all.skip(i + 1), ctx, *o, depth as nat) =~= before
            + fmt_children(all.skip(i as int), ctx, *o, depth as nat));
        i = i + 1;
    }
    assert(all.skip(i as int) =~= Seq::<Node<'a>>::empty());
    assert(out@ + fmt_children(all.skip(i as int), ctx, *o, depth as nat) =~= out@);
}

/// Every child, into a stream of its own.
fn collect_children<'a>(cs: &Vec<Node<'a>>, ctx: Ctx, o: &FormatOptions, depth: usize) -> (r: Out)
    requires
        depth <= MAX_FORMAT_DEPTH,
    ensures
        r@ == fmt_children(cs@, ctx, *o, depth as nat),
    decreases cs, 1nat,
{
    let mut out = Out::new();
    children(&mut out, cs, ctx, o, depth);
    assert(out@ =~= fmt_children(cs@, ctx, *o, depth as nat));
    out
}

/// Emit one node, `depth` levels down.
fn node<'a>(out: &mut Out, n: &Node<'a>, ctx: Ctx, o: &FormatOptions, depth: usize)
    requires
        depth <= MAX_FORMAT_DEPTH,
    ensures
        final(out)@ == old(out)@ + fmt_node(*n, ctx, *o, depth as nat),
    decreases n, 2nat,
{
    if depth >= MAX_FORMAT_DEPTH {
        assert(old(out)@ + fmt_node(*n, ctx, *o, depth as nat) =~= old(out)@);
        return;
    }
    let ghost start = out@;
    let d = depth + 1;
    let no = make_child_ctx(n, ctx);
    let ghost spec_out = fmt_node(*n, ctx, *o, depth as nat);
    let ghost kids_spec = fmt_children(n.children@, no, *o, d as nat);
    assert(spec_out == match n.node_type {
        NodeType::Document => document_spec(*n, kids_spec),
        NodeType::Heading => heading_spec(*n, ctx, kids_spec),
        NodeType::Blockquote => text(join(bq_parts(n.children@, bq_prefix(ctx), no, *o, d as nat), bq_prefix(ctx))),
        NodeType::Fence => fence_spec(*n, ctx),
        NodeType::Tag => tag_spec(*n, ctx, *o, kids_spec),
        NodeType::List => list_lines(n.children@, 0, *n, ctx, no, *o, d as nat) + text(nl()),
        NodeType::Table => if ctx.parent_is_table_tag {
            advanced_spec(fmt_children(n.children@, increment(no, 2), *o, d as nat), ctx.indent)
        } else {
            pipe_spec(fmt_children(n.children@, increment(no, 2), *o, d as nat))
        },
        NodeType::Thead => thead_spec(kids_spec),
        NodeType::Tr => tr_spec(kids_spec),
        NodeType::Td | NodeType::Th => text(trim_spec(joined(kids_spec + annotations_chunks(n.annotations@)))),
        NodeType::Image => image_spec(*n),
        NodeType::Link => link_spec(*n, kids_spec),
        NodeType::Paragraph => text(nl()) + kids_spec + annotations_chunks(n.annotations@) + text(nl()),
        NodeType::Inline => text(indent_of(ctx)) + kids_spec,
        NodeType::Text => text_spec(*n, ctx),
        NodeType::Hr => text(nl()) + text(indent_of(ctx)) + text(seq!['-', '-', '-']) + text(nl()),
        NodeType::Item => if n.children@.len() == 0 {
            Seq::empty()
        } else {
            fmt_node(n.children@[0], no, *o, d as nat) + annotations_chunks(n.annotations@)
                + fmt_children(n.children@.drop_first(), no, *o, d as nat)
        },
        NodeType::Strong => wrapped_spec(*n, seq!['*', '*'], trim_spec(joined(kids_spec))),
        NodeType::Em => wrapped_spec(*n, seq!['*'], trim_spec(joined(kids_spec))),
        NodeType::S => text(seq!['~', '~']) + text(trim_spec(joined(kids_spec))) + text(seq!['~', '~']),
        NodeType::Code => code_spec(*n),
        NodeType::Hardbreak => text(seq!['\\', '\n']) + text(indent_of(ctx)),
        NodeType::Softbreak => text(nl()) + text(indent_of(ctx)),
        NodeType::Tbody => kids_spec,
        NodeType::Comment => comment_spec(*n),
        NodeType::Error | NodeType::Node => Seq::empty(),
    });
    match n.node_type {
        NodeType::Document => document_arm(out, n, no, o, d),
        NodeType::Heading => heading_arm(out, n, ctx, no, o, d),
        NodeType::Blockquote => blockquote_arm(out, n, ctx, no, o, d),
        NodeType::Fence => fence_arm(out, n, ctx),
        NodeType::Tag => tag_arm(out, n, ctx, no, o, d),
        NodeType::List => list_arm(out, n, ctx, no, o, d),
        NodeType::Table => table_arm(out, n, ctx, no, o, d),
        NodeType::Thead => thead_arm(out, n, no, o, d),
        NodeType::Tr => tr_arm(out, n, no, o, d),
        NodeType::Td | NodeType::Th => cell_arm(out, n, no, o, d),
        NodeType::Image => image_arm(out, n),
        NodeType::Link => link_arm(out, n, no, o, d),
        NodeType::Paragraph => paragraph_arm(out, n, no, o, d),
        NodeType::Inline => {
            out.text(indent(ctx));
            children(out, &n.children, no, o, d);
        },
        NodeType::Text => text_arm(out, n, ctx),
        NodeType::Hr => {
            out.text(ch1('\n'));
            out.text(indent(ctx));
            out.text(ch3('-', '-', '-'));
            out.text(ch1('\n'));
        },
        NodeType::Item => item_arm(out, n, no, o, d),
        NodeType::Strong => wrapped_arm(out, n, no, o, d, ch2('*', '*')),
        NodeType::Em => wrapped_arm(out, n, no, o, d, ch1('*')),
        NodeType::S => {
            let kids = collect_children(&n.children, no, o, d);
            let inside = trim_chars(&kids.joined());
            out.text(ch2('~', '~'));
            out.text(inside);
            out.text(ch2('~', '~'));
        },
        NodeType::Code => code_arm(out, n),
        NodeType::Hardbreak => {
            out.text(ch2('\\', '\n'));
            out.text(indent(ctx));
        },
        NodeType::Softbreak => {
            out.text(ch1('\n'));
            out.text(indent(ctx));
        },
        NodeType::Tbody => children(out, &n.children, no, o, d),
        NodeType::Comment => comment_arm(out, n),
        NodeType::Error | NodeType::Node => {},
    }
    assert(out@ =~= start + fmt_node(*n, ctx, *o, depth as nat));
}


fn document_arm<'a>(out: &mut Out, n: &Node<'a>, no: Ctx, o: &FormatOptions, d: usize)
    requires
        d <= MAX_FORMAT_DEPTH,
    ensures
        final(out)@ == old(out)@ + document_spec(*n, fmt_children(n.children@, no, *o, d as nat)),
    decreases n, 0nat,
{
    proof {
        reveal_strlit("frontmatter");
        assert("frontmatter"@ =~= frontmatter_name());
    }
    let ghost start = out@;
    match get(n, "frontmatter") {
        Some(Value::String(f)) => {
            let fc = chars_of(f.as_str());
            if fc.len() > 0 {
                let mut t: Vec<char> = vec!['-', '-', '-', '\n'];
                push_chars(&mut t, &fc);
                push_chars(&mut t, &vec!['\n', '-', '-', '-', '\n', '\n']);
                assert(t@ =~= seq!['-', '-', '-', '\n'] + fc@ + seq!['\n', '-', '-', '-', '\n', '\n']);
                out.text(t);
            }
        },
        _ => {},
    }
    let ghost mid = out@;
    assert(mid =~= start + match attr(*n, frontmatter_name()) {
        Some(SpecValue::String(f)) => if f.len() > 0 {
            text(seq!['-', '-', '-', '\n'] + f + seq!['\n', '-', '-', '-', '\n', '\n'])
        } else {
            Seq::empty()
        },
        _ => Seq::empty(),
    });
    proof {
        assert(decreases_to!(*n => n.children));
    }
    let kids = collect_children(&n.children, no, o, d);
    out.append(kids.trim_start());
}

fn paragraph_arm<'a>(out: &mut Out, n: &Node<'a>, no: Ctx, o: &FormatOptions, d: usize)
    requires
        d <= MAX_FORMAT_DEPTH,
    ensures
        final(out)@ == old(out)@ + text(nl()) + fmt_children(n.children@, no, *o, d as nat)
            + annotations_chunks(n.annotations@) + text(nl()),
    decreases n, 0nat,
{
    proof {
        assert(decreases_to!(*n => n.children));
    }
    out.text(ch1('\n'));
    children(out, &n.children, no, o, d);
    push_annotations(out, &n.annotations);
    out.text(ch1('\n'));
}

fn item_arm<'a>(out: &mut Out, n: &Node<'a>, no: Ctx, o: &FormatOptions, d: usize)
    requires
        d <= MAX_FORMAT_DEPTH,
    ensures
        final(out)@ == old(out)@ + if n.children@.len() == 0 {
            Seq::empty()
        } else {
            fmt_node(n.children@[0], no, *o, d as nat) + annotations_chunks(n.annotations@)
                + fmt_children(n.children@.drop_first(), no, *o, d as nat)
        },
    decreases n, 0nat,
{
    let ghost start = out@;
    if n.children.len() == 0 {
        assert(out@ =~= start + Seq::<SpecChunk>::empty());
        return;
    }
    proof {
        assert(decreases_to!(*n => n.children));
        assert(decreases_to!(n.children => n.children@));
        assert(decreases_to!(n.children@ => n.children@[0]));
    }
    node(out, &n.children[0], no, o, d);
    push_annotations(out, &n.annotations);
    let mut i: usize = 1;
    let ghost mid = out@;
    assert(n.children@.skip(1) =~= n.children@.drop_first());
    while i < n.children.len()
        invariant
            1 <= i <= n.children@.len(),
            d <= MAX_FORMAT_DEPTH,
            out@ + fmt_children(n.children@.skip(i as int), no, *o, d as nat) == mid
                + fmt_children(n.children@.drop_first(), no, *o, d as nat),
        decreases n.children.len() - i,
    {
        proof {
            assert(n.children@.skip(i as int)[0] == n.children@[i as int]);
            assert(n.children@.skip(i as int).drop_first() =~= n.children@.skip(i + 1));
            assert(decreases_to!(*n => n.children));
            assert(decreases_to!(n.children => n.children@));
            assert(decreases_to!(n.children@ => n.children@[i as int]));
        }
        let ghost before = out@;
        node(out, &n.children[i], no, o, d);
        assert(out@ + fmt_children(n.children@.skip(i + 1), no, *o, d as nat) =~= before
            + fmt_children(n.children@.skip(i as int), no, *o, d as nat));
        i = i + 1;
    }
    assert(n.children@.skip(i as int) =~= Seq::<Node<'a>>::empty());
    assert(out@ + fmt_children(n.children@.skip(i as int), no, *o, d as nat) =~= out@);
}


fn heading_arm<'a>(out: &mut Out, n: &Node<'a>, ctx: Ctx, no: Ctx, o: &FormatOptions, d: usize)
    requires
        d <= MAX_FORMAT_DEPTH,
    ensures
        final(out)@ == old(out)@ + heading_spec(*n, ctx, fmt_children(n.children@, no, *o, d as nat)),
    decreases n, 0nat,
{
    proof {
        reveal_strlit("level");
        assert("level"@ =~= level_name());
        assert(decreases_to!(*n => n.children));
    }
    let marks: usize = match get(n, "level") {
        Some(Value::Number(s)) => heading_marks_of(&chars_of(s.as_str())),
        _ => 1,
    };
    assert(marks == heading_level(*n));
    out.text(ch1('\n'));
    out.text(indent(ctx));
    let mut h: Vec<char> = Vec::new();
    push_repeat(&mut h, '#', marks);
    assert(h@ =~= repeat_char('#', marks as nat));
    out.text(h);
    out.text(ch1(' '));
    let kids = collect_children(&n.children, no, o, d);
    out.append(kids.trim_start());
    push_annotations(out, &n.annotations);
    out.text(ch1('\n'));
}

fn destination_arm(out: &mut Out, a: Option<&Value>)
    ensures
        final(out)@ == old(out)@ + destination_spec(match a {
            Some(v) => Some(v.deep()),
            None => None,
        }),
{
    match a {
        Some(Value::String(t)) => {
            let e = escape_markdown(t.as_str(), Escape::Parens);
            out.text(chars_of(e.as_str()));
        },
        Some(v) => push_value(out, v, 0),
        None => {},
    }
}

fn title_arm<'a>(out: &mut Out, n: &Node<'a>)
    ensures
        final(out)@ == old(out)@ + title_spec(*n),
{
    proof {
        reveal_strlit("title");
        assert("title"@ =~= title_name());
    }
    let ghost start = out@;
    match get(n, "title") {
        Some(v) => {
            if v.is_truthy() {
                let mut t: Vec<char> = ch2(' ', '"');
                let tv = text_of_value(v);
                push_chars(&mut t, &tv);
                t.push('"');
                assert(t@ =~= seq![' ', '"'] + text_of(v.deep()) + seq!['"']);
                out.text(t);
            } else {
                assert(out@ =~= start + title_spec(*n));
            }
        },
        None => {
            assert(out@ =~= start + title_spec(*n));
        },
    }
}

fn image_arm<'a>(out: &mut Out, n: &Node<'a>)
    ensures
        final(out)@ == old(out)@ + image_spec(*n),
{
    proof {
        reveal_strlit("alt");
        assert("alt"@ =~= alt_name());
        reveal_strlit("src");
        assert("src"@ =~= src_name());
    }
    let ghost start = out@;
    out.text(ch1('!'));
    out.text(ch1('['));
    match get(n, "alt") {
        Some(v) => push_value(out, v, 0),
        None => {},
    }
    out.text(ch1(']'));
    out.text(ch1('('));
    destination_arm(out, get(n, "src"));
    title_arm(out, n);
    out.text(ch1(')'));
    assert(out@ =~= start + image_spec(*n));
}

fn link_arm<'a>(out: &mut Out, n: &Node<'a>, no: Ctx, o: &FormatOptions, d: usize)
    requires
        d <= MAX_FORMAT_DEPTH,
    ensures
        final(out)@ == old(out)@ + link_spec(*n, fmt_children(n.children@, no, *o, d as nat)),
    decreases n, 0nat,
{
    proof {
        reveal_strlit("title");
        assert("title"@ =~= title_name());
        reveal_strlit("href");
        assert("href"@ =~= href_name());
        assert(decreases_to!(*n => n.children));
    }
    let ghost start = out@;
    let kids = collect_children(&n.children, no, o, d);
    let inside = kids.joined();
    let has_title = match get(n, "title") {
        Some(v) => v.is_truthy(),
        None => false,
    };
    if !has_title {
        if let Some(Value::String(h)) = get(n, "href") {
            let hc = chars_of(h.as_str());
            if crate::format::numbers::same_chars(&inside, &hc) {
                let mut t: Vec<char> = ch1('<');
                push_chars(&mut t, &inside);
                t.push('>');
                assert(t@ =~= seq!['<'] + inside@ + seq!['>']);
                assert(inside@ == joined(fmt_children(n.children@, no, *o, d as nat)));
                out.text(t);
                assert(out@ =~= start + link_spec(*n, fmt_children(n.children@, no, *o, d as nat)));
                return;
            }
        }
    }
    out.text(ch1('['));
    out.text(inside);
    out.text(ch1(']'));
    out.text(ch1('('));
    destination_arm(out, get(n, "href"));
    title_arm(out, n);
    out.text(ch1(')'));
    assert(out@ =~= start + link_spec(*n, fmt_children(n.children@, no, *o, d as nat)));
}


/// A node printed on its own, left-trimmed.
fn subtree_of<'a>(n: &Node<'a>, ctx: Ctx, o: &FormatOptions, depth: usize) -> (r: Vec<char>)
    requires
        depth <= MAX_FORMAT_DEPTH,
    ensures
        r@ == subtree(*n, ctx, *o, depth as nat),
    decreases n, 3nat,
{
    let mut out = Out::new();
    node(&mut out, n, ctx, o, depth);
    assert(out@ =~= fmt_node(*n, ctx, *o, depth as nat));
    trim_start_chars(&out.joined())
}

/// Every line of `t` behind `p`.
fn quote(t: &Vec<char>, p: &Vec<char>) -> (r: Vec<char>)
    ensures
        r@ == quote_spec(t@, p@),
{
    if t.len() == 0 {
        return p.clone();
    }
    let mut out: Vec<char> = p.clone();
    let ghost start = out@;
    let mut i: usize = 0;
    assert(t@.skip(0) =~= t@);
    while i < t.len()
        invariant
            i <= t@.len(),
            out@ + quote_rest(t@.skip(i as int), p@) == start + quote_rest(t@, p@),
        decreases t.len() - i,
    {
        let ghost before = out@;
        let ghost rest = t@.skip(i as int);
        assert(rest[0] == t@[i as int]);
        assert(rest.drop_first() =~= t@.skip(i + 1));
        if t[i] == '\n' && i + 1 < t.len() {
            out.push('\n');
            push_chars(&mut out, p);
            assert(out@ + quote_rest(t@.skip(i + 1), p@) =~= before + quote_rest(rest, p@));
        } else {
            out.push(t[i]);
            assert(out@ + quote_rest(t@.skip(i + 1), p@) =~= before + quote_rest(rest, p@));
        }
        i = i + 1;
    }
    assert(t@.skip(i as int) =~= Seq::<char>::empty());
    assert(out@ + quote_rest(t@.skip(i as int), p@) =~= out@);
    out
}

fn blockquote_arm<'a>(out: &mut Out, n: &Node<'a>, ctx: Ctx, no: Ctx, o: &FormatOptions, d: usize)
    requires
        d <= MAX_FORMAT_DEPTH,
    ensures
        final(out)@ == old(out)@ + text(join(bq_parts(n.children@, bq_prefix(ctx), no, *o, d as nat), bq_prefix(ctx))),
    decreases n, 0nat,
{
    let mut prefix = indent(ctx);
    prefix.push('>');
    prefix.push(' ');
    assert(prefix@ =~= bq_prefix(ctx));
    let mut parts: Vec<Vec<char>> = Vec::new();
    let ghost all = n.children@;
    let mut i: usize = 0;
    assert(all.skip(0) =~= all);
    while i < n.children.len()
        invariant
            i <= n.children@.len(),
            all == n.children@,
            d <= MAX_FORMAT_DEPTH,
            prefix@ == bq_prefix(ctx),
            texts_view(parts@) + bq_parts(all.skip(i as int), prefix@, no, *o, d as nat) == bq_parts(all, prefix@, no, *o, d as nat),
        decreases n.children.len() - i,
    {
        proof {
            assert(all.skip(i as int)[0] == all[i as int]);
            assert(all.skip(i as int).drop_first() =~= all.skip(i + 1));
            assert(decreases_to!(*n => n.children));
            assert(decreases_to!(n.children => n.children@));
            assert(decreases_to!(n.children@ => n.children@[i as int]));
        }
        let formatted = subtree_of(&n.children[i], no, o, d);
        let mut part = ch1('\n');
        push_chars(&mut part, &quote(&formatted, &prefix));
        let ghost prior = parts@;
        parts.push(part);
        proof {
            lemma_texts_view_push(prior, part);
            assert(texts_view(parts@) + bq_parts(all.skip(i + 1), prefix@, no, *o, d as nat) =~= texts_view(prior) + bq_parts(all.skip(i as int), prefix@, no, *o, d as nat));
        }
        i = i + 1;
    }
    assert(all.skip(i as int) =~= Seq::<Node<'a>>::empty());
    assert(texts_view(parts@) =~= bq_parts(all, prefix@, no, *o, d as nat));
    let mut t: Vec<char> = Vec::new();
    push_joined(&mut t, &parts, &prefix);
    assert(Seq::new(parts@.len(), |k: int| parts@[k]@) =~= texts_view(parts@));
    out.text(t);
}

/// The longest run of three or more backticks in `c`, or zero.
fn longest_backtick_run(c: &Vec<char>) -> (r: usize)
    ensures
        r == backtick_scan(c@).0,
{
    let mut longest: usize = 0;
    let mut run: usize = 0;
    let mut i: usize = 0;
    while i < c.len()
        invariant
            i <= c@.len(),
            (longest as nat, run as nat) == backtick_scan(c@.take(i as int)),
            run <= i,
        decreases c.len() - i,
    {
        proof {
            assert(c@.take(i + 1).drop_last() =~= c@.take(i as int));
        }
        if c[i] == '`' {
            run = run + 1;
            if run >= 3 && run > longest {
                longest = run;
            }
        } else {
            run = 0;
        }
        i = i + 1;
    }
    assert(c@.take(i as int) =~= c@);
    longest
}

/// `c` with `ind` after every newline.
fn indent_lines_of(c: &Vec<char>, ind: &Vec<char>) -> (r: Vec<char>)
    ensures
        r@ == indent_lines(c@, ind@),
{
    let mut out: Vec<char> = Vec::new();
    let mut i: usize = 0;
    assert(c@.skip(0) =~= c@);
    while i < c.len()
        invariant
            i <= c@.len(),
            out@ + indent_lines(c@.skip(i as int), ind@) == indent_lines(c@, ind@),
        decreases c.len() - i,
    {
        let ghost before = out@;
        let ghost rest = c@.skip(i as int);
        assert(rest[0] == c@[i as int]);
        assert(rest.drop_first() =~= c@.skip(i + 1));
        if c[i] == '\n' {
            out.push('\n');
            push_chars(&mut out, ind);
        } else {
            out.push(c[i]);
        }
        assert(out@ + indent_lines(c@.skip(i + 1), ind@) =~= before + indent_lines(rest, ind@));
        i = i + 1;
    }
    assert(c@.skip(i as int) =~= Seq::<char>::empty());
    assert(out@ + indent_lines(c@.skip(i as int), ind@) =~= out@);
    out
}

fn fence_head_arm<'a>(out: &mut Out, n: &Node<'a>, ind: &Vec<char>, b: &Vec<char>)
    ensures
        final(out)@ == old(out)@ + fence_head(*n, ind@, b@),
{
    proof {
        reveal_strlit("language");
        assert("language"@ =~= language_name());
    }
    let ghost start = out@;
    out.text(ch1('\n'));
    out.text(ind.clone());
    out.text(b.clone());
    let ghost before_lang = out@;
    match get(n, "language") {
        Some(v) => {
            if v.is_truthy() {
                out.text(text_of_value(v));
            }
        },
        None => {},
    }
    assert(out@ =~= before_lang + match attr(*n, language_name()) {
        Some(v) => if spec_truthy(v) {
            text(text_of(v))
        } else {
            Seq::empty()
        },
        None => Seq::empty(),
    });
    let ghost before_space = out@;
    if n.annotations.len() > 0 {
        out.text(ch1(' '));
    }
    assert(out@ =~= before_space + (if n.annotations@.len() > 0 {
        text(seq![' '])
    } else {
        Seq::<SpecChunk>::empty()
    }));
    push_annotations(out, &n.annotations);
    out.text(ch1('\n'));
    assert(out@ =~= start + fence_head(*n, ind@, b@));
}

fn fence_tail_arm(out: &mut Out, content: &Vec<char>, ind: &Vec<char>, b: &Vec<char>)
    ensures
        final(out)@ == old(out)@ + fence_tail(content@, ind@, b@),
{
    let ghost start = out@;
    let needs_newline = !(content.len() > 0 && content[content.len() - 1] == '\n');
    out.text(ind.clone());
    out.text(indent_lines_of(content, ind));
    let ghost mid = out@;
    if needs_newline {
        out.text(ch1('\n'));
        out.text(ind.clone());
    }
    assert(out@ =~= mid + (if !(content@.len() > 0 && content@.last() == '\n') {
        text(nl()) + text(ind@)
    } else {
        Seq::<SpecChunk>::empty()
    }));
    out.text(b.clone());
    out.text(ch1('\n'));
    assert(out@ =~= start + fence_tail(content@, ind@, b@));
}

fn fence_arm<'a>(out: &mut Out, n: &Node<'a>, ctx: Ctx)
    ensures
        final(out)@ == old(out)@ + fence_spec(*n, ctx),
{
    proof {
        reveal_strlit("content");
        assert("content"@ =~= content_name());
    }
    let ind = indent(ctx);
    let content = match get(n, "content") {
        Some(v) => text_of_value(v),
        None => Vec::new(),
    };
    assert(content@ == fence_content(*n));
    let inner = longest_backtick_run(&content);
    let count = if inner > 0 { inner.saturating_add(1) } else { 3 };
    let mut boundary: Vec<char> = Vec::new();
    push_repeat(&mut boundary, '`', count);
    assert(boundary@ =~= repeat_char('`', boundary_len(content@)));
    fence_head_arm(out, n, &ind, &boundary);
    fence_tail_arm(out, &content, &ind, &boundary);
}


fn tag_opening_of<'a>(n: &Node<'a>, ctx: Ctx, o: &FormatOptions, name: &Vec<char>) -> (r: Vec<char>)
    requires
        name@ == tag_name_of(*n),
    ensures
        r@ == tag_opening(*n, ctx, *o),
{
    let mut parts: Vec<Vec<char>> = Vec::new();
    let mut first = ch3('{', '%', ' ');
    push_chars(&mut first, name);
    parts.push(first);
    let attrs = attributes(&n.attributes.entries);
    let ghost head = texts_view(parts@);
    assert(head =~= seq![open_delim() + tag_name_of(*n)]);
    let mut i: usize = 0;
    while i < attrs.len()
        invariant
            i <= attrs@.len(),
            texts_view(parts@) == head + texts_view(attrs@).take(i as int),
        decreases attrs.len() - i,
    {
        let ghost prior = parts@;
        parts.push(attrs[i].clone());
        proof {
            lemma_texts_view_push(prior, attrs@[i as int]);
            assert(texts_view(attrs@).take(i + 1) =~= texts_view(attrs@).take(i as int).push(attrs@[i as int]@));
        }
        assert(texts_view(parts@) =~= head + texts_view(attrs@).take(i + 1));
        i = i + 1;
    }
    assert(texts_view(attrs@).take(i as int) =~= texts_view(attrs@));
    assert(texts_view(parts@) == tag_parts(*n));
    assert(Seq::new(parts@.len(), |k: int| parts@[k]@) =~= texts_view(parts@));
    let mut inline_tag: Vec<char> = Vec::new();
    let space = ch1(' ');
    push_joined(&mut inline_tag, &parts, &space);
    let width = utf16_count(&inline_tag).saturating_add(6);
    if !n.inline && width > o.max_tag_opening_width {
        let mut sep = ch1('\n');
        push_repeat(&mut sep, ' ', 3);
        push_chars(&mut sep, &indent(ctx));
        assert(sep@ =~= nl() + repeat_char(' ', 3) + indent_of(ctx));
        let mut broken: Vec<char> = Vec::new();
        push_joined(&mut broken, &parts, &sep);
        broken
    } else {
        inline_tag
    }
}

fn tag_arm<'a>(out: &mut Out, n: &Node<'a>, ctx: Ctx, no: Ctx, o: &FormatOptions, d: usize)
    requires
        d <= MAX_FORMAT_DEPTH,
    ensures
        final(out)@ == old(out)@ + tag_spec(*n, ctx, *o, fmt_children(n.children@, no, *o, d as nat)),
    decreases n, 0nat,
{
    let ghost start = out@;
    let ghost kids_spec = fmt_children(n.children@, no, *o, d as nat);
    let ind = indent(ctx);
    if !n.inline {
        out.text(ch1('\n'));
        out.text(ind.clone());
    }
    let ghost after_lead = out@;
    let name: Vec<char> = match &n.tag {
        Some(t) => chars_of(t.as_str()),
        None => Vec::new(),
    };
    let opening = tag_opening_of(n, ctx, o, &name);
    let mut body: Option<Out> = None;
    if n.children.len() > 0 {
        proof {
            assert(decreases_to!(*n => n.children));
        }
        let b = collect_children(&n.children, no, o, d);
        let j = b.joined();
        let t = trim_chars(&j);
        if t.len() > 0 {
            body = Some(b);
        }
    }
    assert(body is Some <==> has_body(*n, kids_spec));
    assert(body matches Some(b) ==> b@ == kids_spec);
    let mut line = opening;
    line.push(' ');
    if body.is_none() {
        line.push('/');
    }
    line.push('%');
    line.push('}');
    assert(line@ =~= tag_opening(*n, ctx, *o) + seq![' '] + (if has_body(*n, kids_spec) {
        Seq::<char>::empty()
    } else {
        seq!['/']
    }) + seq!['%', '}']);
    out.text(line);
    let ghost after_open = out@;
    match body {
        Some(b) => {
            out.append(b);
            if !n.inline {
                out.text(ind.clone());
            }
            let mut close = ch3('{', '%', ' ');
            close.push('/');
            push_chars(&mut close, &name);
            close.push(' ');
            close.push('%');
            close.push('}');
            assert(close@ =~= seq!['{', '%', ' ', '/'] + tag_name_of(*n) + seq![' ', '%', '}']);
            out.text(close);
        },
        None => {},
    }
    assert(out@ =~= after_open + (if has_body(*n, kids_spec) {
        kids_spec + (if !n.inline {
            text(indent_of(ctx))
        } else {
            Seq::empty()
        }) + text(seq!['{', '%', ' ', '/'] + tag_name_of(*n) + seq![' ', '%', '}'])
    } else {
        Seq::empty()
    }));
    if !n.inline {
        out.text(ch1('\n'));
    }
    assert(out@ =~= start + tag_spec(*n, ctx, *o, kids_spec));
}


fn loose_of<'a>(n: &Node<'a>) -> (b: bool)
    ensures
        b == is_loose(*n),
{
    let mut i: usize = 0;
    while i < n.children.len()
        invariant
            i <= n.children@.len(),
            forall|a: int, c: int|
                0 <= a < i && 0 <= c < n.children@[a].children@.len() ==> #[trigger] n.children@[a].children@[c].node_type != NodeType::Paragraph,
        decreases n.children.len() - i,
    {
        let item = &n.children[i];
        let mut j: usize = 0;
        while j < item.children.len()
            invariant
                j <= item.children@.len(),
                i < n.children@.len(),
                *item == n.children@[i as int],
                forall|c: int| 0 <= c < j ==> #[trigger] item.children@[c].node_type != NodeType::Paragraph,
            decreases item.children.len() - j,
        {
            if item.children[j].node_type == NodeType::Paragraph {
                assert(n.children@[i as int].children@[j as int].node_type == NodeType::Paragraph);
                return true;
            }
            j = j + 1;
        }
        i = i + 1;
    }
    false
}

fn list_number_of<'a>(n: &Node<'a>, o: &FormatOptions, start: &Option<Vec<char>>, k: usize) -> (r: Vec<char>)
    requires
        match list_start(*n) {
            Some(s) => start matches Some(v) && v@ == s,
            None => start is None,
        },
    ensures
        r@ == list_number(*n, *o, k as nat),
{
    let offset: usize = if k > 0xFFFF_FFFF { 0xFFFF_FFFF } else { k };
    match o.ordered_list_mode {
        OrderedListMode::Increment => match start {
            Some(s) => incremented_of(s, offset),
            None => {
                let mut r: Vec<char> = Vec::new();
                push_decimal(&mut r, 1 + offset as u64);
                assert(r@ =~= decimal((1 + offset) as nat));
                r
            },
        },
        OrderedListMode::Repeat => {
            if k == 0 {
                match start {
                    Some(s) => s.clone(),
                    None => ch1('1'),
                }
            } else {
                ch1('1')
            }
        },
    }
}

fn list_arm<'a>(out: &mut Out, n: &Node<'a>, ctx: Ctx, no: Ctx, o: &FormatOptions, d: usize)
    requires
        d <= MAX_FORMAT_DEPTH,
    ensures
        final(out)@ == old(out)@ + list_lines(n.children@, 0, *n, ctx, no, *o, d as nat) + text(nl()),
    decreases n, 0nat,
{
    proof {
        reveal_strlit("ordered");
        assert("ordered"@ =~= ordered_name());
        reveal_strlit("marker");
        assert("marker"@ =~= marker_name());
        reveal_strlit("start");
        assert("start"@ =~= start_name());
    }
    let ghost start_out = out@;
    let ind = indent(ctx);
    let loose = loose_of(n);
    let ordered = match get(n, "ordered") {
        Some(v) => v.is_truthy(),
        None => false,
    };
    let marker: Option<Vec<char>> = match get(n, "marker") {
        Some(Value::String(m)) => Some(chars_of(m.as_str())),
        _ => None,
    };
    let start: Option<Vec<char>> = match get(n, "start") {
        Some(Value::Number(s)) => Some(chars_of(s.as_str())),
        _ => None,
    };
    let ghost all = n.children@;
    let mut i: usize = 0;
    assert(all.skip(0) =~= all);
    while i < n.children.len()
        invariant
            i <= n.children@.len(),
            all == n.children@,
            d <= MAX_FORMAT_DEPTH,
            ind@ == indent_of(ctx),
            loose == is_loose(*n),
            ordered == is_ordered(*n),
            match attr(*n, marker_name()) {
                Some(SpecValue::String(m)) => marker matches Some(v) && v@ == m,
                _ => marker is None,
            },
            match list_start(*n) {
                Some(s) => start matches Some(v) && v@ == s,
                None => start is None,
            },
            out@ + list_lines(all.skip(i as int), i as nat, *n, ctx, no, *o, d as nat) == start_out
                + list_lines(all, 0, *n, ctx, no, *o, d as nat),
        decreases n.children.len() - i,
    {
        proof {
            assert(all.skip(i as int)[0] == all[i as int]);
            assert(all.skip(i as int).drop_first() =~= all.skip(i + 1));
            assert(decreases_to!(*n => n.children));
            assert(decreases_to!(n.children => n.children@));
            assert(decreases_to!(n.children@ => n.children@[i as int]));
        }
        let prefix: Vec<char> = if ordered {
            let mut p = list_number_of(n, o, &start, i);
            match &marker {
                Some(m) => push_chars(&mut p, m),
                None => p.push('.'),
            }
            p
        } else {
            match &marker {
                Some(m) => m.clone(),
                None => ch1('-'),
            }
        };
        assert(prefix@ =~= list_prefix(*n, *o, i as nat));
        let width = utf16_count(&prefix).saturating_add(1);
        let item_ctx = ctx_increment(no, width);
        let item = subtree_of(&n.children[i], item_ctx, o, d);
        let item2 = if !loose || i + 1 == n.children.len() {
            trim_chars(&item)
        } else {
            item
        };
        let mut line = ch1('\n');
        push_chars(&mut line, &ind);
        push_chars(&mut line, &prefix);
        line.push(' ');
        push_chars(&mut line, &item2);
        proof {
            let pre = list_prefix(*n, *o, i as nat);
            let w = sat_add(utf16_sat(pre), 1);
            assert(width == w);
            assert(item_ctx == increment(no, w));
            assert(item@ == subtree(all[i as int], increment(no, w), *o, d as nat));
            assert(item2@ == (if !is_loose(*n) || i + 1 == n.children@.len() {
                trim_spec(subtree(all[i as int], increment(no, w), *o, d as nat))
            } else {
                subtree(all[i as int], increment(no, w), *o, d as nat)
            }));
            assert(line@ =~= nl() + indent_of(ctx) + pre + seq![' '] + item2@);
        }
        let ghost before = out@;
        out.text(line);
        assert(out@ + list_lines(all.skip(i + 1), (i + 1) as nat, *n, ctx, no, *o, d as nat) =~= before
            + list_lines(all.skip(i as int), i as nat, *n, ctx, no, *o, d as nat));
        i = i + 1;
    }
    assert(all.skip(i as int) =~= Seq::<Node<'a>>::empty());
    assert(out@ + list_lines(all.skip(i as int), i as nat, *n, ctx, no, *o, d as nat) =~= out@);
    out.text(ch1('\n'));
}


fn thead_arm<'a>(out: &mut Out, n: &Node<'a>, no: Ctx, o: &FormatOptions, d: usize)
    requires
        d <= MAX_FORMAT_DEPTH,
    ensures
        final(out)@ == old(out)@ + thead_spec(fmt_children(n.children@, no, *o, d as nat)),
    decreases n, 0nat,
{
    proof {
        assert(decreases_to!(*n => n.children));
    }
    let kids = collect_children(&n.children, no, o, d);
    let ghost kv = kids@;
    let mut cs = kids.chunks;
    assert(cells_view(Seq::<Vec<char>>::empty()) =~= Seq::<Seq<char>>::empty());
    if cs.len() == 0 {
        out.row(Vec::new());
        return;
    }
    let first = cs.remove(0);
    assert(first@ == kv[0]);
    match first {
        Chunk::Text(t) => {
            if t.len() == 0 {
                out.row(Vec::new());
            } else {
                out.push(Chunk::Text(t));
                assert(old(out)@.push(kv[0]) =~= old(out)@ + seq![kv[0]]);
            }
        },
        Chunk::Row(cells) => {
            out.push(Chunk::Row(cells));
            assert(old(out)@.push(kv[0]) =~= old(out)@ + seq![kv[0]]);
        },
    }
}

/// The text a piece joins as.
fn chunk_text_of(c: &Chunk) -> (r: Vec<char>)
    ensures
        r@ == chunk_text(c@),
{
    match c {
        Chunk::Text(t) => t.clone(),
        Chunk::Row(cells) => {
            let mut r: Vec<char> = Vec::new();
            let comma = ch1(',');
            push_joined(&mut r, cells, &comma);
            assert(Seq::new(cells@.len(), |k: int| cells@[k]@) =~= cells_view(cells@));
            r
        },
    }
}

fn tr_arm<'a>(out: &mut Out, n: &Node<'a>, no: Ctx, o: &FormatOptions, d: usize)
    requires
        d <= MAX_FORMAT_DEPTH,
    ensures
        final(out)@ == old(out)@ + tr_spec(fmt_children(n.children@, no, *o, d as nat)),
    decreases n, 0nat,
{
    proof {
        assert(decreases_to!(*n => n.children));
    }
    let kids = collect_children(&n.children, no, o, d);
    let mut cells: Vec<Vec<char>> = Vec::new();
    let mut i: usize = 0;
    while i < kids.chunks.len()
        invariant
            i <= kids.chunks@.len(),
            cells_view(cells@) == Seq::new(i as nat, |k: int| chunk_text(kids@[k])),
        decreases kids.chunks.len() - i,
    {
        let t = chunk_text_of(&kids.chunks[i]);
        assert(kids.chunks@[i as int]@ == kids@[i as int]);
        let ghost prior = cells@;
        cells.push(t);
        assert(cells_view(cells@) =~= cells_view(prior).push(t@));
        assert(cells_view(cells@) =~= Seq::new((i + 1) as nat, |k: int| chunk_text(kids@[k])));
        i = i + 1;
    }
    assert(cells_view(cells@) =~= Seq::new(kids@.len(), |k: int| chunk_text(kids@[k])));
    out.row(cells);
    assert(old(out)@.push(SpecChunk::Row(Seq::new(kids@.len(), |k: int| chunk_text(kids@[k]))))
        =~= old(out)@ + tr_spec(kids@));
}

fn cell_arm<'a>(out: &mut Out, n: &Node<'a>, no: Ctx, o: &FormatOptions, d: usize)
    requires
        d <= MAX_FORMAT_DEPTH,
    ensures
        final(out)@ == old(out)@ + text(
            trim_spec(joined(fmt_children(n.children@, no, *o, d as nat) + annotations_chunks(n.annotations@))),
        ),
    decreases n, 0nat,
{
    proof {
        assert(decreases_to!(*n => n.children));
    }
    let mut inner = collect_children(&n.children, no, o, d);
    push_annotations(&mut inner, &n.annotations);
    let t = trim_chars(&inner.joined());
    out.text(t);
}

/// The rows of a piece stream, as texts.
pub open spec fn rows_view(rows: Seq<Vec<Vec<char>>>) -> Seq<Seq<Seq<char>>> {
    Seq::new(rows.len(), |i: int| cells_view(rows[i]@))
}

/// Column widths as numbers.
pub open spec fn widths_view(w: Seq<usize>) -> Seq<nat> {
    Seq::new(w.len(), |i: int| w[i] as nat)
}

/// A copy of a row's cells.
fn clone_cells(cells: &Vec<Vec<char>>) -> (r: Vec<Vec<char>>)
    ensures
        cells_view(r@) == cells_view(cells@),
{
    let mut r: Vec<Vec<char>> = Vec::new();
    let mut i: usize = 0;
    while i < cells.len()
        invariant
            i <= cells@.len(),
            cells_view(r@) == cells_view(cells@).take(i as int),
        decreases cells.len() - i,
    {
        let c = cells[i].clone();
        let ghost prior = r@;
        r.push(c);
        assert(cells_view(r@) =~= cells_view(prior).push(c@));
        assert(cells_view(r@) =~= cells_view(cells@).take(i + 1));
        i = i + 1;
    }
    assert(cells_view(cells@).take(i as int) =~= cells_view(cells@));
    r
}

/// Widen the column widths to take a row's cells.
fn widen(widths: &mut Vec<usize>, cells: &Vec<Vec<char>>)
    ensures
        widths_view(final(widths)@) == merge_widths(widths_view(old(widths)@), cells_view(cells@)),
{
    let ghost prev = widths_view(widths@);
    let ghost cv = cells_view(cells@);
    let mut c: usize = 0;
    assert(widths_view(widths@) =~= merge_widths(prev, cv.take(0)));
    while c < cells.len()
        invariant
            c <= cells@.len(),
            cv == cells_view(cells@),
            widths_view(widths@) == merge_widths(prev, cv.take(c as int)),
        decreases cells.len() - c,
    {
        let w = utf16_count(&cells[c]);
        assert(cv[c as int] == cells@[c as int]@);
        let ghost before = widths_view(widths@);
        assert(before.len() == if prev.len() >= c { prev.len() } else { c as nat });
        assert(cv.take(c + 1)[c as int] == cv[c as int]);
        if c < widths.len() {
            let existing = widths[c];
            assert(existing == before[c as int]);
            assert(before[c as int] == width_at(prev, c as int));
            let m = if existing >= w { existing } else { w };
            widths.set(c, m);
            proof {
                let target = merge_widths(prev, cv.take(c + 1));
                assert(target.len() == widths_view(widths@).len());
                assert forall|x: int| 0 <= x < target.len() implies #[trigger] widths_view(widths@)[x] == target[x] by {
                    if x < c {
                        assert(cv.take(c + 1)[x] == cv.take(c as int)[x]);
                        assert(widths_view(widths@)[x] == before[x]);
                    } else if x > c {
                        assert(widths_view(widths@)[x] == before[x]);
                    }
                }
                assert(widths_view(widths@) =~= target);
            }
        } else {
            widths.push(w);
            proof {
                let target = merge_widths(prev, cv.take(c + 1));
                assert(target.len() == widths_view(widths@).len());
                assert forall|x: int| 0 <= x < target.len() implies #[trigger] widths_view(widths@)[x] == target[x] by {
                    if x < c {
                        assert(cv.take(c + 1)[x] == cv.take(c as int)[x]);
                        assert(widths_view(widths@)[x] == before[x]);
                    }
                }
                assert(widths_view(widths@) =~= target);
            }
        }
        c = c + 1;
    }
    assert(cv.take(c as int) =~= cv);
}

/// `cells[c]`'s column width, or zero.
fn width_of_column(widths: &Vec<usize>, c: usize) -> (r: usize)
    ensures
        r == width_at(widths_view(widths@), c as int),
{
    if c < widths.len() {
        widths[c]
    } else {
        0
    }
}

/// `| a | b |` from cells padded (or ruled) to the column widths.
fn table_line(cells: &Vec<Vec<char>>, widths: &Vec<usize>, rule: bool) -> (r: Vec<char>)
    ensures
        rule ==> r@ == row_line(rule_cells(cells_view(cells@), widths_view(widths@))),
        !rule ==> r@ == row_line(pad_cells(cells_view(cells@), widths_view(widths@))),
{
    let ghost cv = cells_view(cells@);
    let ghost wv = widths_view(widths@);
    let mut parts: Vec<Vec<char>> = Vec::new();
    let mut c: usize = 0;
    while c < cells.len()
        invariant
            c <= cells@.len(),
            cv == cells_view(cells@),
            wv == widths_view(widths@),
            rule ==> texts_view(parts@) == rule_cells(cv, wv).take(c as int),
            !rule ==> texts_view(parts@) == pad_cells(cv, wv).take(c as int),
        decreases cells.len() - c,
    {
        let w = width_of_column(widths, c);
        let part = if rule {
            let mut p: Vec<char> = Vec::new();
            push_repeat(&mut p, '-', w);
            p
        } else {
            let mut p = cells[c].clone();
            let used = utf16_count(&cells[c]);
            let pad = w.saturating_sub(used);
            push_repeat(&mut p, ' ', pad);
            p
        };
        assert(cv[c as int] == cells@[c as int]@);
        assert(rule ==> part@ =~= rule_cells(cv, wv)[c as int]);
        assert(!rule ==> part@ =~= pad_cells(cv, wv)[c as int]);
        let ghost prior = parts@;
        parts.push(part);
        proof {
            lemma_texts_view_push(prior, part);
        }
        assert(rule ==> texts_view(parts@) =~= rule_cells(cv, wv).take(c + 1));
        assert(!rule ==> texts_view(parts@) =~= pad_cells(cv, wv).take(c + 1));
        c = c + 1;
    }
    assert(rule_cells(cv, wv).take(c as int) =~= rule_cells(cv, wv));
    assert(pad_cells(cv, wv).take(c as int) =~= pad_cells(cv, wv));
    let mut r = ch2('|', ' ');
    let sep = ch3(' ', '|', ' ');
    push_joined(&mut r, &parts, &sep);
    assert(Seq::new(parts@.len(), |k: int| parts@[k]@) =~= texts_view(parts@));
    r.push(' ');
    r.push('|');
    proof {
        if rule {
            assert(r@ =~= row_line(rule_cells(cv, wv)));
        } else {
            assert(r@ =~= row_line(pad_cells(cv, wv)));
        }
    }
    r
}

/// Print a GFM pipe table.
fn pipe(t: &Out, out: &mut Out)
    ensures
        final(out)@ == old(out)@ + pipe_spec(t@),
{
    let mut rows: Vec<Vec<Vec<char>>> = Vec::new();
    let mut i: usize = 0;
    while i < t.chunks.len()
        invariant
            i <= t.chunks@.len(),
            rows_view(rows@) == rows_of(t@.take(i as int)),
        decreases t.chunks.len() - i,
    {
        proof {
            assert(t@.take(i + 1).drop_last() =~= t@.take(i as int));
            assert(t@.take(i + 1).last() == t.chunks@[i as int]@);
        }
        match &t.chunks[i] {
            Chunk::Row(cells) => {
                let ghost prior = rows@;
                let copy = clone_cells(cells);
                rows.push(copy);
                assert(rows_view(rows@) =~= rows_view(prior) + seq![cells_view(cells@)]);
            },
            Chunk::Text(_) => {
                assert(rows_view(rows@) =~= rows_view(rows@) + Seq::<Seq<Seq<char>>>::empty());
            },
        }
        i = i + 1;
    }
    assert(t@.take(i as int) =~= t@);
    if rows.len() == 0 {
        assert(old(out)@ + pipe_spec(t@) =~= old(out)@);
        return;
    }
    let ghost rv = rows_view(rows@);
    let mut widths: Vec<usize> = Vec::new();
    let mut r: usize = 0;
    assert(widths_view(widths@) =~= widths_of(rv.take(0)));
    while r < rows.len()
        invariant
            r <= rows@.len(),
            rv == rows_view(rows@),
            widths_view(widths@) == widths_of(rv.take(r as int)),
        decreases rows.len() - r,
    {
        widen(&mut widths, &rows[r]);
        proof {
            assert(rv.take(r + 1).drop_last() =~= rv.take(r as int));
            assert(rv.take(r + 1).last() == cells_view(rows@[r as int]@));
        }
        r = r + 1;
    }
    assert(rv.take(r as int) =~= rv);
    let ghost w = widths_view(widths@);
    let ghost start = out@;
    out.text(ch1('\n'));
    out.text(table_line(&rows[0], &widths, false));
    out.text(ch1('\n'));
    out.text(table_line(&rows[0], &widths, true));
    out.text(ch1('\n'));
    let ghost mid = out@;
    let mut b: usize = 1;
    assert(rv.skip(1) =~= rv.drop_first());
    while b < rows.len()
        invariant
            1 <= b <= rows@.len(),
            rv == rows_view(rows@),
            w == widths_view(widths@),
            out@ + body_lines(rv.skip(b as int), w) == mid + body_lines(rv.drop_first(), w),
        decreases rows.len() - b,
    {
        let ghost before = out@;
        assert(rv.skip(b as int)[0] == rv[b as int]);
        assert(rv.skip(b as int).drop_first() =~= rv.skip(b + 1));
        out.text(table_line(&rows[b], &widths, false));
        out.text(ch1('\n'));
        assert(out@ + body_lines(rv.skip(b + 1), w) =~= before + body_lines(rv.skip(b as int), w));
        b = b + 1;
    }
    assert(rv.skip(b as int) =~= Seq::<Seq<Seq<char>>>::empty());
    assert(out@ + body_lines(rv.skip(b as int), w) =~= out@);
    assert(out@ =~= start + pipe_spec(t@));
}

/// Print a table written as a `{% table %}` tag.
fn advanced(t: &Out, indent_cols: usize, out: &mut Out)
    ensures
        final(out)@ == old(out)@ + advanced_spec(t@, indent_cols),
{
    let mut ind: Vec<char> = Vec::new();
    push_repeat(&mut ind, ' ', indent_cols);
    let ghost start = out@;
    let ghost tv = t@;
    let mut k: usize = 0;
    assert(tv.skip(0) =~= tv);
    while k < t.chunks.len()
        invariant
            k <= t.chunks@.len(),
            tv == t@,
            ind@ == repeat_char(' ', indent_cols as nat),
            out@ + advanced_from(tv.skip(k as int), k as nat, ind@) == start + advanced_from(tv, 0, ind@),
        decreases t.chunks.len() - k,
    {
        let ghost before = out@;
        assert(tv.skip(k as int)[0] == t.chunks@[k as int]@);
        assert(tv.skip(k as int).drop_first() =~= tv.skip(k + 1));
        match &t.chunks[k] {
            Chunk::Text(x) => {
                let trimmed = trim_chars(x);
                if trimmed.len() > 0 {
                    out.text(ch1('\n'));
                    out.text(x.clone());
                }
            },
            Chunk::Row(cells) => {
                if k != 0 {
                    out.text(ch1('\n'));
                    let mut rule = ind.clone();
                    push_repeat(&mut rule, '-', 3);
                    assert(rule@ =~= ind@ + seq!['-', '-', '-']);
                    out.text(rule);
                }
                let ghost mid = out@;
                let ghost cv = cells_view(cells@);
                let mut c: usize = 0;
                assert(cv.skip(0) =~= cv);
                while c < cells.len()
                    invariant
                        c <= cells@.len(),
                        cv == cells_view(cells@),
                        out@ + cell_lines(cv.skip(c as int), ind@) == mid + cell_lines(cv, ind@),
                    decreases cells.len() - c,
                {
                    let ghost b2 = out@;
                    assert(cv.skip(c as int)[0] == cells@[c as int]@);
                    assert(cv.skip(c as int).drop_first() =~= cv.skip(c + 1));
                    let mut line = ch1('\n');
                    push_chars(&mut line, &ind);
                    line.push('-');
                    line.push(' ');
                    push_chars(&mut line, &cells[c]);
                    assert(line@ =~= nl() + ind@ + seq!['-', ' '] + cv[c as int]);
                    out.text(line);
                    assert(out@ + cell_lines(cv.skip(c + 1), ind@) =~= b2 + cell_lines(cv.skip(c as int), ind@));
                    c = c + 1;
                }
                assert(cv.skip(c as int) =~= Seq::<Seq<char>>::empty());
                assert(out@ + cell_lines(cv.skip(c as int), ind@) =~= out@);
            },
        }
        assert(out@ + advanced_from(tv.skip(k + 1), (k + 1) as nat, ind@) =~= before + advanced_from(tv.skip(k as int), k as nat, ind@));
        k = k + 1;
    }
    assert(tv.skip(k as int) =~= Seq::<SpecChunk>::empty());
    assert(out@ + advanced_from(tv.skip(k as int), k as nat, ind@) =~= out@);
    out.text(ch1('\n'));
}

fn table_arm<'a>(out: &mut Out, n: &Node<'a>, ctx: Ctx, no: Ctx, o: &FormatOptions, d: usize)
    requires
        d <= MAX_FORMAT_DEPTH,
    ensures
        final(out)@ == old(out)@ + if ctx.parent_is_table_tag {
            advanced_spec(fmt_children(n.children@, increment(no, 2), *o, d as nat), ctx.indent)
        } else {
            pipe_spec(fmt_children(n.children@, increment(no, 2), *o, d as nat))
        },
    decreases n, 0nat,
{
    proof {
        assert(decreases_to!(*n => n.children));
    }
    let t = collect_children(&n.children, ctx_increment(no, 2), o, d);
    if ctx.parent_is_table_tag {
        advanced(&t, ctx.indent, out);
    } else {
        pipe(&t, out);
    }
}


/// The default options: break a tag opening past 80 columns, repeat list
/// numbers.
pub open spec fn default_options() -> FormatOptions {
    FormatOptions {
        max_tag_opening_width: crate::format::options::MAX_TAG_OPENING_WIDTH,
        ordered_list_mode: OrderedListMode::Repeat,
    }
}

/// A tree printed as Markdoc source, with leading whitespace trimmed.
pub open spec fn format_spec<'a>(n: Node<'a>, o: FormatOptions) -> Seq<char> {
    trim_start_spec(joined(fmt_node(n, root_ctx(), o, 0)))
}

/// A value printed as content, with leading whitespace trimmed.
pub open spec fn format_value_spec(v: SpecValue) -> Seq<char> {
    trim_start_spec(joined(value_chunks(v, 0)))
}

pub(crate) fn node_at<'a>(out: &mut Out, n: &Node<'a>, o: &FormatOptions)
    ensures
        final(out)@ == old(out)@ + fmt_node(*n, root_ctx(), *o, 0),
{
    let ctx = Ctx { indent: 0, parent_wraps: false, parent_is_table_tag: false };
    node(out, n, ctx, o, 0);
}

fn wrapped_arm<'a>(out: &mut Out, n: &Node<'a>, no: Ctx, o: &FormatOptions, d: usize, default: Vec<char>)
    requires
        d <= MAX_FORMAT_DEPTH,
    ensures
        final(out)@ == old(out)@ + wrapped_spec(*n, default@, trim_spec(joined(fmt_children(n.children@, no, *o, d as nat)))),
    decreases n, 0nat,
{
    proof {
        reveal_strlit("marker");
        assert("marker"@ =~= marker_name());
        assert(decreases_to!(*n => n.children));
    }
    let marker = match get(n, "marker") {
        Some(Value::String(m)) => chars_of(m.as_str()),
        _ => default,
    };
    let kids = collect_children(&n.children, no, o, d);
    let inside = trim_chars(&kids.joined());
    out.text(marker.clone());
    out.text(inside);
    out.text(marker);
}

fn text_arm<'a>(out: &mut Out, n: &Node<'a>, ctx: Ctx)
    ensures
        final(out)@ == old(out)@ + text_spec(*n, ctx),
{
    proof {
        reveal_strlit("content");
        assert("content"@ =~= content_name());
    }
    let ghost start = out@;
    match get(n, "content") {
        Some(v) => {
            match v {
                Value::Variable(_) | Value::Function(_) => {
                    out.text(ch3('{', '%', ' '));
                    push_value(out, v, 0);
                    out.text(ch3(' ', '%', '}'));
                },
                _ => {
                    let content = text_of_value(v);
                    let class = if ctx.parent_wraps {
                        Escape::Wrapping
                    } else {
                        Escape::Block
                    };
                    let s = crate::text::string_of(&content);
                    let escaped = escape_markdown(s.as_str(), class);
                    out.text(chars_of(escaped.as_str()));
                },
            }
        },
        None => {},
    }
    assert(out@ =~= start + text_spec(*n, ctx));
}

fn code_arm<'a>(out: &mut Out, n: &Node<'a>)
    ensures
        final(out)@ == old(out)@ + code_spec(*n),
{
    proof {
        reveal_strlit("content");
        assert("content"@ =~= content_name());
    }
    let ghost start = out@;
    let mut inner = Out::new();
    match get(n, "content") {
        Some(v) => push_value(&mut inner, v, 0),
        None => {},
    }
    assert(inner@ =~= match attr(*n, content_name()) {
        Some(v) => value_chunks(v, 0),
        None => Seq::empty(),
    });
    let j = inner.joined();
    let t = trim_chars(&j);
    assert(t@ == trim_spec(joined(inner@)));
    out.text(ch1('`'));
    out.text(t);
    out.text(ch1('`'));
    assert(out@ =~= start + text(seq!['`']) + text(t@) + text(seq!['`']));
    assert(out@ =~= start + code_spec(*n));
}

fn comment_arm<'a>(out: &mut Out, n: &Node<'a>)
    ensures
        final(out)@ == old(out)@ + comment_spec(*n),
{
    proof {
        reveal_strlit("content");
        assert("content"@ =~= content_name());
    }
    let content = match get(n, "content") {
        Some(v) => text_of_value(v),
        None => Vec::new(),
    };
    let mut t: Vec<char> = vec!['<', '!', '-', '-', ' '];
    push_chars(&mut t, &content);
    push_chars(&mut t, &vec![' ', '-', '-', '>']);
    if !n.inline {
        t.push('\n');
    }
    assert(t@ =~= seq!['<', '!', '-', '-', ' '] + (match attr(*n, content_name()) {
        Some(v) => text_of(v),
        None => Seq::empty(),
    }) + seq![' ', '-', '-', '>'] + if n.inline {
        Seq::empty()
    } else {
        nl()
    });
    out.text(t);
}

} // verus!
