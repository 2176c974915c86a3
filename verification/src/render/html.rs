//! The HTML renderer.
//!
//! The walk owns the tree's shape -- which nodes are visited, in what order,
//! and which of them are markup at all; [`Html`] owns the markup, behind the
//! [`TagRenderer`] seam. In the walk, in this order:
//!
//! 1. A string or a number is written as text; nothing else is.
//! 2. An array renders its elements one after another: as a child, `[1, 2]`
//!    is `12`, while as an attribute it is `1,2`.
//! 3. Any other scalar renders as nothing.
//! 4. A tag with no name renders its children with no wrapper.
//!
//! The walk is iterative, over an explicit stack, so a deep tree cannot
//! exhaust the call stack.

use vstd::prelude::*;
use vstd::string::StringExecFns;

use crate::ast::str_eq;
use crate::renderable::{RenderableTreeNode, RenderableTreeNodes, Scalar, Tag};

use super::escape::{escape_html_into, escape_html_spec};
use super::js::{js_nodes, string_nodes};
use super::renderer::{Children, TagRenderer};

verus! {

/// The HTML standard's void elements: no children, no closing tag.
pub const VOID_ELEMENTS: [&'static str; 14] = [
    "area",
    "base",
    "br",
    "col",
    "embed",
    "hr",
    "img",
    "input",
    "link",
    "meta",
    "param",
    "source",
    "track",
    "wbr",
];

/// The void elements' names.
pub open spec fn void_names() -> Seq<Seq<char>> {
    seq![
        "area"@,
        "base"@,
        "br"@,
        "col"@,
        "embed"@,
        "hr"@,
        "img"@,
        "input"@,
        "link"@,
        "meta"@,
        "param"@,
        "source"@,
        "track"@,
        "wbr"@,
    ]
}

/// Whether `name` is a void element: one with no children and no closing tag.
pub fn is_void_element(name: &str) -> (b: bool)
    ensures
        b == void_names().contains(name@),
{
    let mut i: usize = 0;
    while i < 14
        invariant
            i <= 14,
            forall|j: int| 0 <= j < i ==> void_names()[j] != name@,
        decreases 14 - i,
    {
        proof {
            assert(VOID_ELEMENTS@[i as int]@ == void_names()[i as int]);
        }
        if str_eq(VOID_ELEMENTS[i], name) {
            assert(void_names()[i as int] == name@);
            return true;
        }
        i = i + 1;
    }
    proof {
        if void_names().contains(name@) {
            let j = choose|j: int| 0 <= j < void_names().len() && void_names()[j] == name@;
            assert(void_names()[j] != name@);
        }
    }
    false
}

/// What an attribute value is written as: ECMAScript `String` of whatever
/// the attribute holds. A tag there is `[object Object]`.
pub fn attribute_value(value: &RenderableTreeNodes) -> (s: String)
    ensures
        s@ == js_nodes(*value),
{
    string_nodes(value)
}

/// The lowercase form of a string, as `str::to_lowercase` computes it.
pub uninterp spec fn lowercase(s: Seq<char>) -> Seq<char>;

/// `str::to_lowercase`.
#[verifier::external_body]
fn to_lowercase(s: &str) -> (r: String)
    ensures
        r@ == lowercase(s@),
{
    s.to_lowercase()
}

/// The attributes as written inside an opening tag: ` name="value"` each,
/// names lowercased and values coerced and escaped.
pub open spec fn attributes_text(entries: Seq<(String, RenderableTreeNodes)>) -> Seq<char>
    decreases entries.len(),
{
    if entries.len() == 0 {
        Seq::empty()
    } else {
        attributes_text(entries.drop_last()) + " "@ + lowercase(entries.last().0@) + "=\""@
            + escape_html_spec(js_nodes(entries.last().1)) + "\""@
    }
}

/// The HTML renderer: markdown-it's escaping, authored attribute order, and
/// the standard's void elements.
#[derive(Clone, Copy, Debug, Default, PartialEq, Eq, Structural)]
pub struct Html;

impl TagRenderer for Html {
    open spec fn open_spec(&self, tag: Tag) -> (Seq<char>, Children) {
        (
            "<"@ + tag.name@ + attributes_text(tag.attributes@) + ">"@,
            if void_names().contains(tag.name@) {
                Children::Skip
            } else {
                Children::Render
            },
        )
    }

    open spec fn close_spec(&self, tag: Tag) -> Seq<char> {
        "</"@ + tag.name@ + ">"@
    }

    open spec fn text_spec(&self, text: Seq<char>) -> Seq<char> {
        escape_html_spec(text)
    }

    fn open(&self, out: &mut String, tag: &Tag) -> (c: Children) {
        let ghost start = out@;
        out.append("<");
        out.append(tag.name.as_str());
        let entries = tag.attributes.entries();
        let mut i: usize = 0;
        while i < entries.len()
            invariant
                i <= entries@.len(),
                entries@ == tag.attributes@,
                out@ == start + "<"@ + tag.name@ + attributes_text(entries@.take(i as int)),
            decreases entries.len() - i,
        {
            let (key, value) = &entries[i];
            out.append(" ");
            let lowered = to_lowercase(key.as_str());
            out.append(lowered.as_str());
            out.append("=\"");
            let text = attribute_value(value);
            escape_html_into(out, text.as_str());
            out.append("\"");
            proof {
                assert(entries@.take(i + 1).drop_last() =~= entries@.take(i as int));
            }
            i = i + 1;
            assert(out@ =~= start + "<"@ + tag.name@ + attributes_text(entries@.take(i as int)));
        }
        assert(entries@.take(i as int) =~= entries@);
        out.append(">");
        assert(out@ =~= start + self.open_spec(*tag).0);
        if is_void_element(tag.name.as_str()) {
            Children::Skip
        } else {
            Children::Render
        }
    }

    fn close(&self, out: &mut String, tag: &Tag) {
        let ghost start = out@;
        out.append("</");
        out.append(tag.name.as_str());
        out.append(">");
        assert(out@ =~= start + self.close_spec(*tag));
    }

    fn text(&self, out: &mut String, text: &str) {
        escape_html_into(out, text);
    }
}

/// What a scalar renders as: text for a string or a number, its elements for
/// an array, nothing for anything else.
pub open spec fn render_leaf<R: TagRenderer>(r: R, s: Scalar) -> Seq<char>
    decreases s,
{
    match s {
        Scalar::String(t) => r.text_spec(t@),
        Scalar::Number(n) => r.text_spec(n@),
        Scalar::Array(items) => render_leaves(r, items@),
        _ => Seq::empty(),
    }
}

/// Scalars rendered one after another.
pub open spec fn render_leaves<R: TagRenderer>(r: R, items: Seq<Scalar>) -> Seq<char>
    decreases items,
{
    if items.len() == 0 {
        Seq::empty()
    } else {
        render_leaf(r, items[0]) + render_leaves(r, items.drop_first())
    }
}

/// What a node renders as. A tag with no name is its children; otherwise it
/// is opened, and unless the renderer skips them, its children follow and
/// then its closing.
pub open spec fn render_node<R: TagRenderer>(r: R, n: RenderableTreeNode) -> Seq<char>
    decreases n,
{
    match n {
        RenderableTreeNode::Scalar(s) => render_leaf(r, s),
        RenderableTreeNode::Tag(t) => if t.name@.len() == 0 {
            render_nodes(r, t.children@)
        } else {
            match r.open_spec(t).1 {
                Children::Skip => r.open_spec(t).0,
                Children::Render => r.open_spec(t).0 + render_nodes(r, t.children@) + r.close_spec(
                    t,
                ),
            }
        },
    }
}

/// Nodes rendered one after another.
pub open spec fn render_nodes<R: TagRenderer>(r: R, nodes: Seq<RenderableTreeNode>) -> Seq<char>
    decreases nodes,
{
    if nodes.len() == 0 {
        Seq::empty()
    } else {
        render_node(r, nodes[0]) + render_nodes(r, nodes.drop_first())
    }
}

/// Rendering a sequence concatenates: the nodes of `a` then `b` render as
/// `a` rendered, followed by `b` rendered, with no separator.
pub proof fn lemma_render_nodes_append<R: TagRenderer>(
    r: R,
    a: Seq<RenderableTreeNode>,
    b: Seq<RenderableTreeNode>,
)
    ensures
        render_nodes(r, a + b) == render_nodes(r, a) + render_nodes(r, b),
    decreases a.len(),
{
    if a.len() == 0 {
        assert(a + b =~= b);
        assert(render_nodes(r, a) =~= Seq::<char>::empty());
        assert(render_nodes(r, a + b) =~= render_nodes(r, a) + render_nodes(r, b));
    } else {
        lemma_render_nodes_append(r, a.drop_first(), b);
        assert((a + b).drop_first() =~= a.drop_first() + b);
        assert((a + b)[0] == a[0]);
        assert(render_nodes(r, a + b) =~= render_nodes(r, a) + render_nodes(r, b));
    }
}

/// How much work a scalar is for the walk.
pub open spec fn leaf_weight(s: Scalar) -> nat
    decreases s,
{
    match s {
        Scalar::Array(items) => 1 + leaves_weight(items@),
        _ => 1,
    }
}

/// The work in a list of scalars.
pub open spec fn leaves_weight(items: Seq<Scalar>) -> nat
    decreases items,
{
    if items.len() == 0 {
        0
    } else {
        leaf_weight(items[0]) + leaves_weight(items.drop_first())
    }
}

/// How much work a node is for the walk.
pub open spec fn node_weight(n: RenderableTreeNode) -> nat
    decreases n,
{
    match n {
        RenderableTreeNode::Scalar(s) => 1 + leaf_weight(s),
        RenderableTreeNode::Tag(t) => 2 + nodes_weight(t.children@),
    }
}

/// The work in a list of nodes.
pub open spec fn nodes_weight(nodes: Seq<RenderableTreeNode>) -> nat
    decreases nodes,
{
    if nodes.len() == 0 {
        0
    } else {
        node_weight(nodes[0]) + nodes_weight(nodes.drop_first())
    }
}

/// One step of the walk.
pub enum Walk<'a> {
    /// A node to render.
    Node(&'a RenderableTreeNode),
    /// A scalar to render.
    Leaf(&'a Scalar),
    /// A tag to close.
    Close(&'a Tag),
}

/// What a step writes.
pub open spec fn walk_text<R: TagRenderer>(r: R, w: Walk) -> Seq<char> {
    match w {
        Walk::Node(n) => render_node(r, *n),
        Walk::Leaf(s) => render_leaf(r, *s),
        Walk::Close(t) => r.close_spec(*t),
    }
}

/// What a stack of steps writes, popping from the end.
pub open spec fn walk_pending<R: TagRenderer>(r: R, stack: Seq<Walk>) -> Seq<char>
    decreases stack.len(),
{
    if stack.len() == 0 {
        Seq::empty()
    } else {
        walk_text(r, stack.last()) + walk_pending(r, stack.drop_last())
    }
}

/// The work left on a stack.
pub open spec fn walk_weight(stack: Seq<Walk>) -> nat
    decreases stack.len(),
{
    if stack.len() == 0 {
        0
    } else {
        (match stack.last() {
            Walk::Node(n) => node_weight(*n),
            Walk::Leaf(s) => leaf_weight(*s),
            Walk::Close(_) => 1,
        }) + walk_weight(stack.drop_last())
    }
}

/// Push `nodes` so that they pop in order.
fn push_nodes<'a, R: TagRenderer>(stack: &mut Vec<Walk<'a>>, nodes: &'a [RenderableTreeNode], renderer: &R)
    ensures
        walk_pending(*renderer, final(stack)@) == render_nodes(*renderer, nodes@) + walk_pending(
            *renderer,
            old(stack)@,
        ),
        walk_weight(final(stack)@) == walk_weight(old(stack)@) + nodes_weight(nodes@),
{
    let ghost base = stack@;
    let mut j = nodes.len();
    assert(nodes@.skip(j as int) =~= Seq::<RenderableTreeNode>::empty());
    while j > 0
        invariant
            j <= nodes@.len(),
            walk_pending(*renderer, stack@) == render_nodes(*renderer, nodes@.skip(j as int))
                + walk_pending(*renderer, base),
            walk_weight(stack@) == walk_weight(base) + nodes_weight(nodes@.skip(j as int)),
        decreases j,
    {
        let ghost before = stack@;
        let k = j - 1;
        stack.push(Walk::Node(&nodes[k]));
        proof {
            assert(stack@.drop_last() =~= before);
            let rest = nodes@.skip(k as int);
            assert(rest[0] == nodes@[k as int]);
            assert(rest.drop_first() =~= nodes@.skip(j as int));
            assert(walk_pending(*renderer, stack@) =~= render_nodes(*renderer, rest) + walk_pending(
                *renderer,
                base,
            ));
        }
        j = k;
    }
    assert(nodes@.skip(0) =~= nodes@);
}

/// Push `items` so that they pop in order.
fn push_leaves<'a, R: TagRenderer>(stack: &mut Vec<Walk<'a>>, items: &'a Vec<Scalar>, renderer: &R)
    ensures
        walk_pending(*renderer, final(stack)@) == render_leaves(*renderer, items@) + walk_pending(
            *renderer,
            old(stack)@,
        ),
        walk_weight(final(stack)@) == walk_weight(old(stack)@) + leaves_weight(items@),
{
    let ghost base = stack@;
    let mut j = items.len();
    assert(items@.skip(j as int) =~= Seq::<Scalar>::empty());
    while j > 0
        invariant
            j <= items@.len(),
            walk_pending(*renderer, stack@) == render_leaves(*renderer, items@.skip(j as int))
                + walk_pending(*renderer, base),
            walk_weight(stack@) == walk_weight(base) + leaves_weight(items@.skip(j as int)),
        decreases j,
    {
        let ghost before = stack@;
        let k = j - 1;
        stack.push(Walk::Leaf(&items[k]));
        proof {
            assert(stack@.drop_last() =~= before);
            let rest = items@.skip(k as int);
            assert(rest[0] == items@[k as int]);
            assert(rest.drop_first() =~= items@.skip(j as int));
            assert(walk_pending(*renderer, stack@) =~= render_leaves(*renderer, rest) + walk_pending(
                *renderer,
                base,
            ));
        }
        j = k;
    }
    assert(items@.skip(0) =~= items@);
}

/// Run the walk over a stack of steps, appending to `out`.
fn render_into<'a, R: TagRenderer>(out: &mut String, stack: Vec<Walk<'a>>, renderer: &R)
    ensures
        final(out)@ == old(out)@ + walk_pending(*renderer, stack@),
{
    let mut stack = stack;
    let ghost target = out@ + walk_pending(*renderer, stack@);
    loop
        invariant
            out@ + walk_pending(*renderer, stack@) == target,
        ensures
            out@ == target,
        decreases walk_weight(stack@),
    {
        let ghost before = stack@;
        match stack.pop() {
            None => {
                assert(out@ + Seq::<char>::empty() =~= out@);
                break;
            },
            Some(step) => {
                proof {
                    assert(before.drop_last() =~= stack@);
                }
                let ghost rest = walk_pending(*renderer, stack@);
                match step {
                    Walk::Node(RenderableTreeNode::Scalar(scalar)) => {
                        stack.push(Walk::Leaf(scalar));
                        proof {
                            assert(stack@.drop_last() =~= before.drop_last());
                        }
                    },
                    Walk::Node(RenderableTreeNode::Tag(tag)) => {
                        if tag.name.as_str().is_empty() {
                            push_nodes(&mut stack, tag.children.as_slice(), renderer);
                        } else {
                            let ghost mid = out@;
                            match renderer.open(out, tag) {
                                Children::Skip => {
                                    assert(out@ + rest =~= mid + (renderer.open_spec(*tag).0 + rest));
                                },
                                Children::Render => {
                                    let ghost base = stack@;
                                    stack.push(Walk::Close(tag));
                                    proof {
                                        assert(stack@.drop_last() =~= base);
                                    }
                                    push_nodes(&mut stack, tag.children.as_slice(), renderer);
                                    assert(out@ + walk_pending(*renderer, stack@) =~= mid + (
                                    renderer.open_spec(*tag).0 + render_nodes(*renderer, tag.children@)
                                        + renderer.close_spec(*tag) + rest));
                                },
                            }
                        }
                    },
                    Walk::Leaf(scalar) => {
                        match scalar {
                            Scalar::String(text) => {
                                renderer.text(out, text.as_str());
                            },
                            Scalar::Number(n) => {
                                renderer.text(out, n.as_str());
                            },
                            Scalar::Array(items) => {
                                push_leaves(&mut stack, items, renderer);
                            },
                            _ => {},
                        }
                        assert(out@ + walk_pending(*renderer, stack@) =~= target);
                    },
                    Walk::Close(tag) => {
                        renderer.close(out, tag);
                        assert(out@ + walk_pending(*renderer, stack@) =~= target);
                    },
                }
            },
        }
    }
}

/// Render a node as HTML.
pub fn render(node: &RenderableTreeNode) -> (s: String)
    ensures
        s@ == render_node(Html, *node),
{
    render_with(node, &Html)
}

/// Render a list of nodes as HTML, one after another.
pub fn render_all(nodes: &[RenderableTreeNode]) -> (s: String)
    ensures
        s@ == render_nodes(Html, nodes@),
{
    render_all_with(nodes, &Html)
}

/// Render a node with any renderer.
pub fn render_with<R: TagRenderer>(node: &RenderableTreeNode, renderer: &R) -> (s: String)
    ensures
        s@ == render_node(*renderer, *node),
{
    let mut out = String::from_str("");
    let mut stack: Vec<Walk<'_>> = Vec::new();
    stack.push(Walk::Node(node));
    proof {
        reveal_strlit("");
        assert(""@ =~= Seq::<char>::empty());
        assert(stack@.drop_last() =~= Seq::<Walk>::empty());
        assert(walk_pending(*renderer, stack@) == walk_text(*renderer, stack@.last()) + walk_pending(
            *renderer,
            Seq::<Walk>::empty(),
        ));
        assert(walk_pending(*renderer, stack@) =~= render_node(*renderer, *node));
    }
    render_into(&mut out, stack, renderer);
    assert(out@ =~= render_node(*renderer, *node));
    out
}

/// Render a list of nodes with any renderer.
pub fn render_all_with<R: TagRenderer>(nodes: &[RenderableTreeNode], renderer: &R) -> (s: String)
    ensures
        s@ == render_nodes(*renderer, nodes@),
{
    let mut out = String::from_str("");
    let mut stack: Vec<Walk<'_>> = Vec::new();
    push_nodes(&mut stack, nodes, renderer);
    proof {
        reveal_strlit("");
        assert(""@ =~= Seq::<char>::empty());
    }
    render_into(&mut out, stack, renderer);
    assert(out@ =~= render_nodes(*renderer, nodes@));
    out
}

} // verus!
