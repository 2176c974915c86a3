//! Rendering: HTML escaping, ECMAScript `String`, and the HTML walk.

use std::borrow::Cow;

use accent_proust::ast::IndexMap;
use accent_proust::render::js::string;
use accent_proust::render::{
    Html, attribute_value, escape_html, is_void_element, render, render_all, render_with,
};
use accent_proust::renderable::{RenderableTreeNode, RenderableTreeNodes, Scalar, Tag};

#[test]
fn escapes_exactly_the_four_characters_markdown_it_escapes() {
    assert_eq!(escape_html("&"), "&amp;");
    assert_eq!(escape_html("<"), "&lt;");
    assert_eq!(escape_html(">"), "&gt;");
    assert_eq!(escape_html("\""), "&quot;");
}

#[test]
fn leaves_every_other_ascii_character_alone() {
    for byte in 0x20u8..0x7f {
        let ch = char::from(byte);
        if matches!(ch, '&' | '<' | '>' | '"') {
            continue;
        }
        let input = ch.to_string();
        assert_eq!(
            escape_html(&input),
            input,
            "U+{byte:04X} must pass through unchanged"
        );
    }
}

#[test]
fn does_not_escape_the_single_quote() {
    // The most common wrong answer. `&#39;` here would be a divergence.
    assert_eq!(escape_html("it's an 'x'"), "it's an 'x'");
}

#[test]
fn does_not_escape_the_solidus() {
    // The other common addition, from the OWASP-style escapers.
    assert_eq!(escape_html("a/b"), "a/b");
}

#[test]
fn does_not_touch_non_ascii() {
    assert_eq!(
        escape_html("naïve \u{2014} 日本語 \u{1f600}"),
        "naïve — 日本語 😀"
    );
}

#[test]
fn does_not_double_escape() {
    // Each character is replaced once, in one pass, so the ampersand of an
    // entity already in the text is escaped and its tail is not re-read.
    assert_eq!(escape_html("&amp;"), "&amp;amp;");
    assert_eq!(escape_html("&lt;"), "&amp;lt;");
}

#[test]
fn replaces_every_occurrence_not_just_the_first() {
    assert_eq!(escape_html("<<>>"), "&lt;&lt;&gt;&gt;");
}

#[test]
fn mixed_input_keeps_its_surroundings() {
    assert_eq!(
        escape_html(r#"<a href="x">tom & jerry</a>"#),
        "&lt;a href=&quot;x&quot;&gt;tom &amp; jerry&lt;/a&gt;"
    );
}

#[test]
fn borrows_when_there_is_nothing_to_escape() {
    assert!(matches!(escape_html("plain text"), Cow::Borrowed(_)));
    assert!(matches!(escape_html("a & b"), Cow::Owned(_)));
}

#[test]
fn the_empty_string_is_unchanged() {
    assert_eq!(escape_html(""), "");
}

#[test]
fn control_characters_pass_through() {
    // markdown-it's regex is four characters wide. A NUL or a newline is
    // not in it, and inventing an escape for either would diverge.
    assert_eq!(escape_html("a\nb\tc\0d"), "a\nb\tc\0d");
}

#[test]
fn scalars_coerce_the_way_string_does() {
    assert_eq!(string(&Scalar::Null), "null");
    assert_eq!(string(&Scalar::Boolean(true)), "true");
    assert_eq!(string(&Scalar::Boolean(false)), "false");
    assert_eq!(string(&Scalar::Number("42".to_owned())), "42");
    assert_eq!(string(&Scalar::String("hi".to_owned())), "hi");
}

#[test]
fn an_object_is_the_useless_string_upstream_writes() {
    let mut object = IndexMap::new();
    object.insert("foo".to_owned(), Scalar::String("bar".to_owned()));
    assert_eq!(string(&Scalar::Object(object)), "[object Object]");
}

#[test]
fn an_array_joins_with_commas() {
    // The corpus case: `foo=[1,2,3]` renders as `foo="1,2,3"`.
    let array = Scalar::Array(vec![
        Scalar::Number("1".to_owned()),
        Scalar::Number("2".to_owned()),
        Scalar::Number("3".to_owned()),
    ]);
    assert_eq!(string(&array), "1,2,3");
}

#[test]
fn an_empty_array_is_the_empty_string() {
    assert_eq!(string(&Scalar::Array(vec![])), "");
    assert_eq!(string(&Scalar::Array(vec![Scalar::Array(vec![])])), "");
}

#[test]
fn null_inside_an_array_contributes_nothing() {
    // The asymmetry that makes this module necessary.
    assert_eq!(string(&Scalar::Null), "null");
    assert_eq!(string(&Scalar::Array(vec![Scalar::Null])), "");
    assert_eq!(
        string(&Scalar::Array(vec![
            Scalar::Null,
            Scalar::Number("1".to_owned()),
            Scalar::Null
        ])),
        ",1,"
    );
}

#[test]
fn nested_arrays_flatten() {
    let array = Scalar::Array(vec![
        Scalar::Number("1".to_owned()),
        Scalar::Array(vec![Scalar::Number("2".to_owned()), Scalar::Number("3".to_owned())]),
        Scalar::Number("4".to_owned()),
    ]);
    assert_eq!(string(&array), "1,2,3,4");
}

#[test]
fn an_object_inside_an_array_is_still_useless() {
    let array = Scalar::Array(vec![
        Scalar::String("a".to_owned()),
        Scalar::Object(IndexMap::new()),
    ]);
    assert_eq!(string(&array), "a,[object Object]");
}

#[test]
fn a_deeply_nested_array_does_not_overflow_the_stack() {
    // The reason `join` is iterative. A recursive one dies here.
    let mut value = Scalar::Array(vec![Scalar::Number("1".to_owned())]);
    for _ in 0..100_000 {
        value = Scalar::Array(vec![value]);
    }
    assert_eq!(string(&value), "1");
    dismantle(value);
}

fn dismantle(value: Scalar) {
    let mut current = value;
    loop {
        let Scalar::Array(mut items) = current else {
            break;
        };
        match items.pop() {
            Some(inner) => current = inner,
            None => break,
        }
    }
}


fn text(s: &str) -> RenderableTreeNode {
    RenderableTreeNode::Scalar(Scalar::String(s.to_owned()))
}

fn tag(name: &str, attributes: Vec<(&str, RenderableTreeNodes)>, children: Vec<RenderableTreeNode>) -> RenderableTreeNode {
    let mut map = IndexMap::new();
    for (key, value) in attributes {
        map.insert(key.to_owned(), value);
    }
    RenderableTreeNode::Tag(Tag::new(name.to_owned(), map, children))
}

#[test]
fn a_tag_renders_its_attributes_in_authored_order_and_escapes_text() {
    let tree = tag(
        "a",
        vec![
            ("href", RenderableTreeNodes::One(text("/x?a=1&b=2"))),
            ("colSpan", RenderableTreeNodes::One(RenderableTreeNode::Scalar(Scalar::Number("2".to_owned())))),
        ],
        vec![text("tom & jerry")],
    );
    assert_eq!(render(&tree), "<a href=\"/x?a=1&amp;b=2\" colspan=\"2\">tom &amp; jerry</a>");
}

#[test]
fn a_void_element_has_no_children_and_no_closing_tag() {
    let tree = tag("br", vec![], vec![text("ignored")]);
    assert_eq!(render(&tree), "<br>");
    assert!(is_void_element("img"));
    assert!(!is_void_element("div"));
}

#[test]
fn an_unnamed_tag_renders_only_its_children() {
    let tree = tag("", vec![], vec![text("a"), tag("b", vec![], vec![text("c")])]);
    assert_eq!(render(&tree), "a<b>c</b>");
}

#[test]
fn an_array_child_renders_its_elements_but_an_array_attribute_joins_them() {
    let array = || {
        Scalar::Array(vec![
            Scalar::Number("1".to_owned()),
            Scalar::Null,
            Scalar::Boolean(true),
            Scalar::Number("2".to_owned()),
        ])
    };
    assert_eq!(render(&RenderableTreeNode::Scalar(array())), "12");
    let value = RenderableTreeNodes::One(RenderableTreeNode::Scalar(array()));
    assert_eq!(attribute_value(&value), "1,,true,2");
    let tree = tag("x", vec![("data", value)], vec![]);
    assert_eq!(render_with(&tree, &Html), "<x data=\"1,,true,2\"></x>");
}

#[test]
fn a_tag_in_an_attribute_is_the_useless_object_string() {
    let slot = RenderableTreeNodes::One(tag("p", vec![], vec![]));
    assert_eq!(attribute_value(&slot), "[object Object]");
    let many = RenderableTreeNodes::Many(vec![
        RenderableTreeNode::Scalar(Scalar::Null),
        text("a"),
        tag("p", vec![], vec![]),
    ]);
    assert_eq!(attribute_value(&many), ",a,[object Object]");
}

#[test]
fn render_all_concatenates_in_order() {
    let nodes = vec![tag("h1", vec![], vec![text("Title")]), tag("p", vec![], vec![text("x")])];
    assert_eq!(render_all(&nodes), "<h1>Title</h1><p>x</p>");
}

#[test]
fn a_deep_tree_renders_without_exhausting_the_stack() {
    let mut node = text("leaf");
    for _ in 0..50_000 {
        node = tag("", vec![], vec![node]);
    }
    assert_eq!(render(&node), "leaf");
    let mut current = node;
    loop {
        match current {
            RenderableTreeNode::Tag(mut t) => match t.children.pop() {
                Some(inner) => current = inner,
                None => break,
            },
            _ => break,
        }
    }
}

#[test]
fn escaping_borrows_only_when_nothing_changes() {
    assert!(matches!(escape_html("x"), Cow::Borrowed(_)));
}

#[test]
fn rendering_a_sequence_concatenates_its_nodes() {
    let paragraph = |text: &str| {
        RenderableTreeNode::Tag(Tag::new(
            "p".to_string(),
            IndexMap::new(),
            vec![RenderableTreeNode::Scalar(Scalar::String(text.to_string()))],
        ))
    };
    let both = [paragraph("foo"), paragraph("a < b")];
    assert_eq!(render_all(&both), "<p>foo</p><p>a &lt; b</p>");
    assert_eq!(render_all(&both), render(&both[0]) + &render(&both[1]));
    assert_eq!(render_all(&[]), "");
}
