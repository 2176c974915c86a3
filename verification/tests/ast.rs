//! Errors, locations and node types.

use accent_proust::ast::{
    ErrorLevel, Function, IndexMap, Lines, Node, NodeType, PathSegment, Position, ValidationError, Value,
    Variable, canonical_number_of,
};

#[test]
fn ids_match_upstream() {
    assert_eq!(ValidationError::parse_error("x").id, "parse-error");
    assert_eq!(
        ValidationError::missing_opening("foo").id,
        "missing-opening"
    );
    assert_eq!(
        ValidationError::missing_closing("foo").id,
        "missing-closing"
    );
    assert_eq!(
        ValidationError::duplicate_attribute("bar").id,
        "duplicate-attribute"
    );
    assert_eq!(
        ValidationError::no_inline_annotations("fence").id,
        "no-inline-annotations"
    );
    assert_eq!(
        ValidationError::href_format_invalid().id,
        "href-format-invalid"
    );
}

#[test]
fn messages_match_upstream() {
    assert_eq!(
        ValidationError::missing_closing("foo").message,
        "Node 'foo' is missing closing"
    );
    assert_eq!(
        ValidationError::duplicate_attribute("bar").message,
        "Attribute 'bar' already set"
    );
    assert_eq!(
        ValidationError::no_inline_annotations("fence").message,
        "Can't apply inline annotations to 'fence'"
    );
    assert_eq!(
        ValidationError::href_format_invalid().message,
        "The 'href' format cannot contain Markdoc tag or variable. \
         URLs must be static strings."
    );
}

#[test]
fn levels_print_as_upstream_spells_them() {
    assert_eq!(ErrorLevel::Warning.to_string(), "warning");
    assert_eq!(ErrorLevel::Critical.to_string(), "critical");
    assert!(ErrorLevel::Critical > ErrorLevel::Error);
}

#[test]
fn positions_are_zero_based() {
    let lines = Lines::new("ab\ncd\n");
    assert_eq!(
        lines.position(0),
        Position {
            line: 0,
            column: 0,
            offset: 0
        }
    );
    assert_eq!(
        lines.position(1),
        Position {
            line: 0,
            column: 1,
            offset: 1
        }
    );
    assert_eq!(
        lines.position(3),
        Position {
            line: 1,
            column: 0,
            offset: 3
        }
    );
    assert_eq!(
        lines.position(5),
        Position {
            line: 1,
            column: 2,
            offset: 5
        }
    );
}

#[test]
fn a_trailing_newline_opens_a_line() {
    let lines = Lines::new("ab\n");
    assert_eq!(lines.position(3).line, 1);
}

#[test]
fn locate_borrows_the_span() {
    let lines = Lines::new("# heading\n");
    let location = lines.locate(2..9, Some("foo.md"));
    assert_eq!(location.text, "heading");
    assert_eq!(location.file, Some("foo.md"));
    assert_eq!(location.span(), 2..9);
    assert_eq!(location.len(), 7);
    assert!(!location.is_empty());
}

#[test]
fn out_of_range_spans_are_clamped_rather_than_panicking() {
    let lines = Lines::new("abc");
    assert_eq!(lines.locate(1..99, None).text, "bc");
    // Deliberately reversed, which is why it is built rather than written
    // as a literal: `9..1` as a literal is a lint, and the point is that the
    // parser cannot be made to panic by one.
    let reversed = std::ops::Range { start: 9, end: 1 };
    assert_eq!(lines.locate(reversed, None).text, "");
    assert_eq!(lines.position(99).line, 0);
}

#[test]
fn multibyte_columns_count_bytes() {
    // The column is a byte column on purpose: it is used to slice the
    // source, and a character column cannot do that without a second scan.
    let lines = Lines::new("\u{e9}x\n");
    assert_eq!(
        lines.position(2),
        Position {
            line: 0,
            column: 2,
            offset: 2
        }
    );
}

#[test]
fn node_types_spell_themselves_as_upstream_does() {
    assert_eq!(NodeType::Fence.as_str(), "fence");
    assert_eq!(NodeType::Hardbreak.to_string(), "hardbreak");
    assert_eq!(NodeType::default(), NodeType::Node);
}

fn text(content: &str) -> Node<'static> {
    let mut node = Node::new(NodeType::Text);
    node.set("content", Value::String(content.to_string()));
    node
}

fn block(node_type: NodeType, children: Vec<Node<'static>>) -> Node<'static> {
    Node::with(node_type, IndexMap::new(), children, None)
}

/// Take a deep tree apart one level at a time, so the fixture's own cleanup
/// does not recurse once per level.
fn dismantle(node: Node<'_>) {
    let mut pending = vec![node];
    while let Some(mut current) = pending.pop() {
        pending.append(&mut current.children);
        for (_, slot) in current.slots.entries.drain(..) {
            pending.push(slot);
        }
    }
}

#[test]
fn walking_a_simple_document_visits_every_descendant() {
    let example = block(
        NodeType::Document,
        vec![
            block(
                NodeType::Heading,
                vec![block(NodeType::Inline, vec![text("This is a heading")])],
            ),
            block(
                NodeType::Paragraph,
                vec![block(NodeType::Inline, vec![text("This is a paragraph")])],
            ),
        ],
    );

    assert_eq!(example.walk().len(), 6);
}

#[test]
fn walking_visits_slots_before_children() {
    let mut tag = Node::with(
        NodeType::Tag,
        IndexMap::new(),
        Vec::new(),
        Some("example".into()),
    );
    tag.slots.insert(
        "foo".to_string(),
        block(
            NodeType::Paragraph,
            vec![block(NodeType::Inline, vec![text("baz")])],
        ),
    );
    tag.push(block(
        NodeType::Heading,
        vec![block(NodeType::Inline, vec![text("bar")])],
    ));
    let document = block(NodeType::Document, vec![tag]);

    let visited: Vec<String> = document
        .walk()
        .iter()
        .map(|node| node.name().to_string())
        .collect();
    assert_eq!(
        visited,
        [
            "example",
            "paragraph",
            "inline",
            "text",
            "heading",
            "inline",
            "text"
        ]
    );
}

#[test]
fn walking_is_iterative_and_survives_deep_nesting() {
    let mut node = Node::new(NodeType::Document);
    for _ in 0..50_000 {
        node = block(NodeType::Tag, vec![node]);
    }
    assert_eq!(node.walk().len(), 50_000);
    dismantle(node);
}

#[test]
fn a_node_deep_through_slots_survives_all_three() {
    let mut node = Node::new(NodeType::Document);
    for _ in 0..100_000 {
        let mut parent = Node::new(NodeType::Tag);
        parent.slots.insert("s".to_string(), node);
        node = parent;
    }
    assert_eq!(node.walk().len(), 100_000);
    dismantle(node);
}

#[test]
fn attribute_order_is_authored_order() {
    let mut node = Node::new(NodeType::Tag);
    node.set("z", Value::Number("1".to_string()));
    node.set("a", Value::Number("2".to_string()));
    node.set("z", Value::Number("3".to_string()));
    let keys: Vec<String> = node.attributes.keys();
    assert_eq!(keys, ["z", "a"]);
    assert_eq!(node.get("z"), Some(&Value::Number("3".to_string())));
}

#[test]
fn a_node_names_itself_by_tag_then_type() {
    assert_eq!(Node::new(NodeType::Paragraph).name(), "paragraph");
    let mut tagged = Node::new(NodeType::Tag);
    tagged.tag = Some("callout".to_string());
    assert_eq!(tagged.name(), "callout");
}

#[test]
fn a_refilled_slot_keeps_its_place() {
    let mut node = Node::new(NodeType::Tag);
    node.slots.insert("a".to_string(), text("1"));
    node.slots.insert("b".to_string(), text("2"));
    node.slots.insert("a".to_string(), text("3"));
    assert_eq!(node.slots.len(), 2);
    assert_eq!(node.slots.entries[0].0, "a");
    assert_eq!(node.slots.get("a").map(|n| n.get("content")), Some(Some(&Value::String("3".to_string()))));
    assert!(node.slots.get("c").is_none());
}

fn num(literal: &str) -> Value {
    let chars: Vec<char> = literal.chars().collect();
    Value::Number(canonical_number_of(&chars).into_iter().collect())
}

fn hash(pairs: Vec<(&str, Value)>) -> Value {
    let mut map = IndexMap::new();
    for (key, value) in pairs {
        map.insert(key.to_owned(), value);
    }
    Value::Hash(map)
}

fn call(name: &str, pairs: Vec<(&str, Value)>) -> Value {
    let mut map = IndexMap::new();
    for (key, value) in pairs {
        map.insert(key.to_owned(), value);
    }
    Value::Function(Function::new(name.to_owned(), map))
}

#[test]
fn cloning_preserves_key_order() {
    let original = hash(vec![("z", Value::Null), ("a", num("1.0"))]);
    let copy = original.clone();
    let Value::Hash(entries) = &copy else {
        panic!("expected a hash")
    };
    assert_eq!(entries.keys(), ["z", "a"]);
}

#[test]
fn equality_ignores_hash_order_as_indexmap_does() {
    let left = hash(vec![("a", Value::Null), ("b", num("1.0"))]);
    let right = hash(vec![("b", num("1.0")), ("a", Value::Null)]);
    assert!(left == right);
    assert!(left != hash(vec![("a", Value::Null)]));
    assert!(call("f", vec![("0", Value::Null)]) != call("g", vec![("0", Value::Null)]));
}

#[test]
fn javascript_truthiness_of_primary_values() {
    assert!(!Value::Null.is_truthy());
    assert!(!Value::Boolean(false).is_truthy());
    assert!(Value::Boolean(true).is_truthy());
    assert!(!Value::String(String::new()).is_truthy());
    assert!(Value::String("0".to_string()).is_truthy());
    assert!(!num("0.0").is_truthy());
    assert!(!num("-0.0").is_truthy());
    assert!(num("1.0").is_truthy());
    assert!(Value::Array(Vec::new()).is_truthy());
    assert!(Value::Hash(IndexMap::new()).is_truthy());
    assert!(Value::Variable(Variable::new(Vec::new())).is_truthy());
}

#[test]
fn hash_order_is_authored_order() {
    let mut hash = IndexMap::new();
    hash.insert("z".to_string(), num("1.0"));
    hash.insert("a".to_string(), num("2.0"));
    let keys: Vec<String> = hash.keys();
    assert_eq!(keys, ["z", "a"]);
}

#[test]
fn a_repeated_hash_key_keeps_its_first_position_and_last_value() {
    let mut hash = IndexMap::new();
    hash.insert("a".to_string(), num("1.0"));
    hash.insert("b".to_string(), num("2.0"));
    hash.insert("a".to_string(), num("3.0"));
    let entries: Vec<(&str, &Value)> = hash.entries.iter().map(|(k, v)| (k.as_str(), v)).collect();
    assert_eq!(entries, [("a", &num("3.0")), ("b", &num("2.0"))]);
}

#[test]
fn positional_keys_are_decimal_strings() {
    assert_eq!(Function::positional_key(0), "0");
    assert_eq!(Function::positional_key(12), "12");
}

#[test]
fn numbers_take_their_javascript_spelling() {
    assert_eq!(num("1.0"), Value::Number("1".to_string()));
    assert_eq!(num("-0.0"), Value::Number("0".to_string()));
    assert_eq!(num("007.50"), Value::Number("7.5".to_string()));
}

#[test]
fn a_clone_equals_its_original_through_every_shape() {
    let value = Value::Array(vec![
        hash(vec![("k", call("inner", vec![("0", Value::Null)]))]),
        Value::Variable(Variable::new(vec![PathSegment::Key("a".to_string()), PathSegment::Index("1".to_string())])),
        Value::String("x".to_string()),
    ]);
    let copy = value.clone();
    assert!(copy == value);
    assert!(copy != Value::Array(Vec::new()));
}

#[test]
fn a_node_type_is_found_by_its_name() {
    assert_eq!(NodeType::from_name("paragraph"), Some(NodeType::Paragraph));
    assert_eq!(NodeType::from_name("blockquote"), Some(NodeType::Blockquote));
    assert_eq!(NodeType::from_name("Paragraph"), None);
    assert_eq!(NodeType::from_name(""), None);
    for t in [NodeType::Document, NodeType::Tag, NodeType::Hr, NodeType::Text] {
        assert_eq!(NodeType::from_name(t.as_str()), Some(t));
    }
}

#[test]
fn nodes_compare_attributes_and_slots_in_any_order() {
    let mut a = Node::new(NodeType::Tag);
    a.set("x", Value::String("1".to_string()));
    a.set("y", Value::Boolean(true));
    a.slots.insert("one".to_string(), Node::new(NodeType::Text));
    a.slots.insert("two".to_string(), Node::new(NodeType::Em));
    a.push(Node::new(NodeType::Paragraph));

    let mut b = Node::new(NodeType::Tag);
    b.set("y", Value::Boolean(true));
    b.set("x", Value::String("1".to_string()));
    b.slots.insert("two".to_string(), Node::new(NodeType::Em));
    b.slots.insert("one".to_string(), Node::new(NodeType::Text));
    b.push(Node::new(NodeType::Paragraph));
    assert_eq!(a, b);
    assert!(a.slots == b.slots);

    b.set("x", Value::String("2".to_string()));
    assert_ne!(a, b);

    let mut c = Node::new(NodeType::Tag);
    c.set("x", Value::String("1".to_string()));
    c.set("y", Value::Boolean(true));
    c.slots.insert("one".to_string(), Node::new(NodeType::Text));
    c.slots.insert("two".to_string(), Node::new(NodeType::Em));
    c.push(Node::new(NodeType::Strong));
    assert_ne!(a, c);
}

#[test]
fn calls_compare_parameters_in_any_order() {
    let mut p = IndexMap::new();
    p.insert("a".to_string(), Value::Number("1".to_string()));
    p.insert("b".to_string(), Value::Null);
    let mut q = IndexMap::new();
    q.insert("b".to_string(), Value::Null);
    q.insert("a".to_string(), Value::Number("1".to_string()));
    let f = Function { name: "f".to_string(), parameters: p };
    let g = Function { name: "f".to_string(), parameters: q };
    assert!(f == g);
}
