//! The JSON writers for syntax trees and renderable trees.

use accent_proust::ast::{
    ErrorLevel, Function, IndexMap, Location, Node, NodeType, PathSegment, Position,
    ValidationError, Value, Variable,
};
use accent_proust::grammar::Attribute;
use accent_proust::json::{node, renderable};
use accent_proust::renderable::{RenderableTreeNode, RenderableTreeNodes, Scalar, Tag};

const EMPTY_FIELDS: &str =
    "\"slots\":{},\"lines\":[],\"location\":null,\"inline\":false,\"annotations\":[],\"errors\":[]}";

fn text(content: &str) -> Node<'static> {
    let mut n = Node::new(NodeType::Text);
    n.set("content", Value::String(content.to_string()));
    n
}

#[test]
fn a_bare_node_has_every_field_in_order() {
    let mut out = String::new();
    node(&mut out, &Node::new(NodeType::Hr));
    assert_eq!(
        out,
        format!(
            "{{\"$$mdtype\":\"Node\",\"type\":\"hr\",\"tag\":null,\"attributes\":{{}},\"children\":[],{}",
            EMPTY_FIELDS
        )
    );
}

#[test]
fn node_appends_to_what_is_there() {
    let mut out = String::from("x=");
    node(&mut out, &Node::new(NodeType::Hr));
    assert!(out.starts_with("x={\"$$mdtype\":\"Node\""));
}

#[test]
fn children_nest_and_strings_are_escaped() {
    let mut para = Node::new(NodeType::Paragraph);
    para.children.push(text("a\"b\\c\nd\u{1}"));
    let mut out = String::new();
    node(&mut out, &para);
    let child = format!(
        "{{\"$$mdtype\":\"Node\",\"type\":\"text\",\"tag\":null,\"attributes\":{{\"content\":\"a\\\"b\\\\c\\nd\\u0001\"}},\"children\":[],{}",
        EMPTY_FIELDS
    );
    assert_eq!(
        out,
        format!(
            "{{\"$$mdtype\":\"Node\",\"type\":\"paragraph\",\"tag\":null,\"attributes\":{{}},\"children\":[{}],{}",
            child, EMPTY_FIELDS
        )
    );
}

#[test]
fn values_take_their_json_shapes() {
    let mut n = Node::new(NodeType::Tag);
    n.tag = Some("callout".to_string());
    n.set("flag", Value::Boolean(true));
    n.set("none", Value::Null);
    n.set("big", Value::Number("1e+21".to_string()));
    n.set("small", Value::Number("1.5e-7".to_string()));
    n.set("mid", Value::Number("1.25e+2".to_string()));
    n.set("nan", Value::Number("NaN".to_string()));
    n.set(
        "list",
        Value::Array(vec![Value::Number("1".to_string()), Value::String("x".to_string())]),
    );
    let mut hash = IndexMap::new();
    hash.insert("k".to_string(), Value::Null);
    n.set("hash", Value::Hash(hash));
    let mut out = String::new();
    node(&mut out, &n);
    assert!(out.starts_with(
        "{\"$$mdtype\":\"Node\",\"type\":\"tag\",\"tag\":\"callout\",\"attributes\":{\"flag\":true,\"none\":null,\"big\":1000000000000000000000,\"small\":0.00000015,\"mid\":125,\"nan\":null,\"list\":[1,\"x\"],\"hash\":{\"k\":null}},"
    ));
}

#[test]
fn functions_and_variables_are_markdoc_objects() {
    let mut n = Node::new(NodeType::Tag);
    let mut params = IndexMap::new();
    params.insert("0".to_string(), Value::String("a".to_string()));
    n.set(
        "f",
        Value::Function(Function {
            name: "equals".to_string(),
            parameters: params,
        }),
    );
    n.set(
        "v",
        Value::Variable(Variable {
            path: vec![
                PathSegment::Key("user".to_string()),
                PathSegment::Index("0".to_string()),
            ],
        }),
    );
    let mut out = String::new();
    node(&mut out, &n);
    assert!(out.contains(
        "\"attributes\":{\"f\":{\"$$mdtype\":\"Function\",\"name\":\"equals\",\"parameters\":{\"0\":\"a\"}},\"v\":{\"$$mdtype\":\"Variable\",\"path\":[\"user\",0]}}"
    ));
}

#[test]
fn slots_lines_location_annotations_errors() {
    let mut n = Node::new(NodeType::Tag);
    n.slots.insert("title".to_string(), text("t"));
    n.lines = vec![0, 2];
    n.inline = true;
    n.location = Some(Location {
        file: Some("a.md"),
        start: Position { line: 0, column: 1, offset: 1 },
        end: Position { line: 2, column: 0, offset: 9 },
        text: "",
    });
    n.annotations.push(Attribute::Class { name: "x".to_string() });
    n.annotations.push(Attribute::Attribute {
        name: "id".to_string(),
        value: Value::String("y".to_string()),
    });
    n.errors.push(ValidationError {
        id: "parse-error",
        level: ErrorLevel::Critical,
        message: "bad".to_string(),
        location: None,
    });
    let mut out = String::new();
    node(&mut out, &n);
    let slot = format!(
        "{{\"$$mdtype\":\"Node\",\"type\":\"text\",\"tag\":null,\"attributes\":{{\"content\":\"t\"}},\"children\":[],{}",
        EMPTY_FIELDS
    );
    assert_eq!(
        out,
        format!(
            "{{\"$$mdtype\":\"Node\",\"type\":\"tag\",\"tag\":null,\"attributes\":{{}},\"children\":[],\"slots\":{{\"title\":{}}},\"lines\":[0,2],\"location\":{{\"file\":\"a.md\",\"start\":{{\"line\":0,\"column\":1,\"offset\":1}},\"end\":{{\"line\":2,\"column\":0,\"offset\":9}}}},\"inline\":true,\"annotations\":[{{\"type\":\"class\",\"name\":\"x\",\"value\":true}},{{\"type\":\"attribute\",\"name\":\"id\",\"value\":\"y\"}}],\"errors\":[{{\"id\":\"parse-error\",\"level\":\"critical\",\"message\":\"bad\"}}]}}",
            slot
        )
    );
}

#[test]
fn a_location_without_a_file_leaves_file_out() {
    let mut n = Node::new(NodeType::Hr);
    n.location = Some(Location {
        file: None,
        start: Position { line: 3, column: 0, offset: 20 },
        end: Position { line: 4, column: 0, offset: 24 },
        text: "",
    });
    let mut out = String::new();
    node(&mut out, &n);
    assert!(out.contains(
        "\"location\":{\"start\":{\"line\":3,\"column\":0,\"offset\":20},\"end\":{\"line\":4,\"column\":0,\"offset\":24}},"
    ));
}

#[test]
fn a_deep_tree_is_written_without_recursion() {
    let mut n = text("leaf");
    for _ in 0..10_000 {
        let mut parent = Node::new(NodeType::Blockquote);
        parent.children.push(n);
        n = parent;
    }
    let mut out = String::new();
    node(&mut out, &n);
    assert_eq!(out.matches("\"type\":\"blockquote\"").count(), 10_000);
    assert!(out.ends_with("]}"));
    std::mem::forget(n);
}

#[test]
fn renderable_is_one_array() {
    let mut attrs = IndexMap::new();
    attrs.insert(
        "class".to_string(),
        RenderableTreeNodes::One(RenderableTreeNode::Scalar(Scalar::String("a".to_string()))),
    );
    attrs.insert(
        "items".to_string(),
        RenderableTreeNodes::Many(vec![
            RenderableTreeNode::Scalar(Scalar::Number("2".to_string())),
            RenderableTreeNode::Scalar(Scalar::Null),
        ]),
    );
    let mut obj = IndexMap::new();
    obj.insert("k".to_string(), Scalar::Boolean(false));
    let tag = Tag::new(
        "p".to_string(),
        attrs,
        vec![
            RenderableTreeNode::Scalar(Scalar::String("hi".to_string())),
            RenderableTreeNode::Scalar(Scalar::Object(obj)),
            RenderableTreeNode::Scalar(Scalar::Array(vec![Scalar::Number("Infinity".to_string())])),
        ],
    );
    let nodes = vec![
        RenderableTreeNode::Tag(tag),
        RenderableTreeNode::Scalar(Scalar::String("tail".to_string())),
    ];
    let mut out = String::new();
    renderable(&mut out, &nodes);
    assert_eq!(
        out,
        "[{\"$$mdtype\":\"Tag\",\"name\":\"p\",\"attributes\":{\"class\":\"a\",\"items\":[2,null]},\"children\":[\"hi\",{\"k\":false},[null]]},\"tail\"]"
    );
}

#[test]
fn no_renderable_nodes_is_an_empty_array() {
    let mut out = String::new();
    renderable(&mut out, &[]);
    assert_eq!(out, "[]");
}
