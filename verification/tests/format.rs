//! Escaping text back into Markdoc source.

use accent_proust::format::{Escape, escape_markdown};

#[test]
fn parentheses_are_escaped_everywhere_they_appear() {
    assert_eq!(
        escape_markdown("https://example.com?q=()", Escape::Parens),
        "https://example.com?q=\\(\\)"
    );
}

#[test]
fn wrapper_markers_are_escaped_everywhere_they_appear() {
    assert_eq!(
        escape_markdown("a _sentence_ with *stars* and ~tildes~", Escape::Wrapping),
        "a \\_sentence\\_ with \\*stars\\* and \\~tildes\\~"
    );
}

#[test]
fn a_leading_star_is_escaped_and_a_later_one_is_not() {
    assert_eq!(
        escape_markdown("* List item", Escape::Block),
        "\\* List item"
    );
    assert_eq!(escape_markdown("a * b * c", Escape::Block), "a * b * c");
}

#[test]
fn a_leading_angle_bracket_is_escaped_and_a_later_one_is_not() {
    assert_eq!(
        escape_markdown("> Blockquote", Escape::Block),
        "\\> Blockquote"
    );
    assert_eq!(
        escape_markdown("Text > not a blockquote", Escape::Block),
        "Text > not a blockquote"
    );
}

#[test]
fn a_run_of_hashes_before_whitespace_is_escaped_once() {
    assert_eq!(escape_markdown("# Heading", Escape::Block), "\\# Heading");
    assert_eq!(
        escape_markdown("### Heading", Escape::Block),
        "\\### Heading"
    );
    // No whitespace after the run, so nothing is a heading and nothing is
    // escaped.
    assert_eq!(
        escape_markdown("#Not a heading", Escape::Block),
        "#Not a heading"
    );
    // Exactly one match, even when two would qualify.
    assert_eq!(escape_markdown("a # b # c", Escape::Block), "a \\# b # c");
}

#[test]
fn a_run_of_hashes_backtracks_to_nothing_rather_than_to_a_shorter_run() {
    // `#+` cannot match `##` here and then find whitespace, and it cannot
    // match `#` either, because the next character is another `#`.
    assert_eq!(escape_markdown("##a## b", Escape::Block), "##a\\## b");
}

#[test]
fn non_breaking_spaces_become_entities_in_every_class() {
    assert_eq!(escape_markdown("a\u{a0}b", Escape::Block), "a&nbsp;b");
    assert_eq!(escape_markdown("a\u{a0}b", Escape::Parens), "a&nbsp;b");
    assert_eq!(escape_markdown("a\u{a0}b", Escape::Wrapping), "a&nbsp;b");
}

use accent_proust::ast::{Function, IndexMap, Node, NodeType, PathSegment, Value, Variable};
use accent_proust::format::{FormatOptions, MAX_FORMAT_DEPTH, MAX_HEADING_LEVEL, OrderedListMode};
use accent_proust::grammar::{Attribute, TagItem, parse_tag};

fn map(attributes: &[(&str, Value)]) -> IndexMap<Value> {
    let mut map = IndexMap::new();
    for (key, value) in attributes {
        map.insert((*key).to_owned(), value.clone());
    }
    map
}

/// A tag node with a name and attributes.
fn tag(name: &str, attributes: &[(&str, Value)]) -> Node<'static> {
    Node::with(NodeType::Tag, map(attributes), Vec::new(), Some(name.to_owned()))
}

fn block(node_type: NodeType, attributes: &[(&str, Value)], children: Vec<Node<'static>>) -> Node<'static> {
    Node::with(node_type, map(attributes), children, None)
}

fn text(content: &str) -> Node<'static> {
    block(NodeType::Text, &[("content", Value::String(content.to_owned()))], Vec::new())
}

fn inline(content: &str) -> Node<'static> {
    block(NodeType::Inline, &[], vec![text(content)])
}

fn num(spelling: &str) -> Value {
    Value::Number(spelling.to_owned())
}

fn dismantle(node: Node<'_>) {
    let mut pending = vec![node];
    while let Some(mut current) = pending.pop() {
        pending.append(&mut current.children);
        for (_, slot) in current.slots.entries.drain(..) {
            pending.push(slot);
        }
    }
}

#[test]
fn a_null_value_formats_as_nothing() {
    assert_eq!(accent_proust::format::format_value(&Value::Null), "");
}

#[test]
fn a_variable_reprints_each_step_in_its_shortest_spelling() {
    let variable = Value::Variable(Variable::new(vec![
        PathSegment::Key("gates".to_owned()),
        PathSegment::Key("a-b".to_owned()),
        PathSegment::Key("with space".to_owned()),
        PathSegment::Index("5".to_owned()),
    ]));
    assert_eq!(accent_proust::format::format_value(&variable), "$gates.a-b[\"with space\"][5]");
}

#[test]
fn a_function_drops_its_parameter_names() {
    let mut parameters = IndexMap::new();
    parameters.insert("0".to_owned(), Value::String("test".to_owned()));
    parameters.insert("x".to_owned(), num("1"));
    let function = Value::Function(Function::new("default".to_owned(), parameters));
    assert_eq!(accent_proust::format::format_value(&function), "default(\"test\", 1)");
}

#[test]
fn a_hash_key_is_quoted_only_when_it_is_not_an_identifier() {
    let mut inner = IndexMap::new();
    inner.insert("with space".to_owned(), num("5"));
    let mut outer = IndexMap::new();
    outer.insert("e".to_owned(), Value::Hash(inner));
    let node = tag("x", &[("b", Value::Hash(outer))]);
    assert_eq!(accent_proust::format::format(&node).trim(), "{% x b={e: {\"with space\": 5}} /%}");
}

#[test]
fn a_string_attribute_is_json_encoded() {
    let node = tag("x", &[("a", Value::String("quote \" slash \\ tab \t".to_owned()))]);
    assert_eq!(
        accent_proust::format::format(&node).trim(),
        "{% x a=\"quote \\\" slash \\\\ tab \\t\" /%}"
    );
}

#[test]
fn an_id_attribute_contracts_only_when_its_value_is_an_identifier() {
    let identifier = tag("x", &[("id", Value::String("intro".to_owned()))]);
    assert_eq!(accent_proust::format::format(&identifier).trim(), "{% x #intro /%}");

    let with_space = tag("x", &[("id", Value::String("in tro".to_owned()))]);
    assert_eq!(accent_proust::format::format(&with_space).trim(), "{% x id=\"in tro\" /%}");
}

#[test]
fn a_class_whose_name_is_not_an_identifier_prints_the_whole_hash() {
    let mut classes = IndexMap::new();
    classes.insert("ok".to_owned(), Value::Boolean(true));
    classes.insert("not ok".to_owned(), Value::Boolean(true));
    let node = tag("x", &[("class", Value::Hash(classes))]);
    assert_eq!(
        accent_proust::format::format(&node).trim(),
        "{% x .ok not ok={ok: true, \"not ok\": true} /%}"
    );
}

#[test]
fn a_class_attribute_that_is_not_a_hash_stays_an_ordinary_attribute() {
    let node = tag("x", &[("class", Value::String("class with space".to_owned()))]);
    assert_eq!(accent_proust::format::format(&node).trim(), "{% x class=\"class with space\" /%}");
}

#[test]
fn the_tag_opening_width_is_a_setting() {
    let node = tag(
        "tag",
        &[
            ("a", Value::Boolean(true)),
            ("b", Value::String("My very long text well over 80 characters in total".to_owned())),
        ],
    );
    assert!(accent_proust::format::format(&node).contains('\n'));

    let wide = FormatOptions::new().max_tag_opening_width(usize::MAX);
    assert_eq!(accent_proust::format::format_with(&node, &wide).lines().count(), 1);
}

#[test]
fn a_heading_level_is_bounded_rather_than_allocated() {
    let mut node = Node::new(NodeType::Heading);
    node.set("level", num("1e+30"));
    let formatted = accent_proust::format::format(&node);
    assert_eq!(formatted.trim().len(), MAX_HEADING_LEVEL);

    for level in [num("0"), Value::Boolean(true), Value::Null] {
        let mut node = Node::new(NodeType::Heading);
        node.set("level", level);
        assert_eq!(accent_proust::format::format(&node), "# \n");
    }
}

#[test]
fn a_deeply_nested_tree_formats_without_exhausting_the_stack() {
    let mut node = Node::new(NodeType::Paragraph);
    for _ in 0..50_000 {
        node = Node::with(NodeType::Tag, IndexMap::new(), vec![node], Some("a".to_owned()));
    }
    let formatted = accent_proust::format::format(&node);
    assert_eq!(formatted.matches("{% a %}").count(), MAX_FORMAT_DEPTH - 1);
    assert_eq!(formatted.matches("{% /a %}").count(), MAX_FORMAT_DEPTH - 1);
    assert_eq!(formatted.matches("{% a /%}").count(), 1);
    dismantle(node);
}

#[test]
fn a_deeply_nested_value_formats_without_exhausting_the_stack() {
    let mut value = num("1");
    for _ in 0..MAX_FORMAT_DEPTH * 4 {
        value = Value::Array(vec![value]);
    }
    let node = tag("x", &[("a", value)]);
    let formatted = accent_proust::format::format(&node);
    assert_eq!(formatted.matches('[').count(), MAX_FORMAT_DEPTH);
    assert_eq!(formatted.matches(']').count(), MAX_FORMAT_DEPTH);
    assert!(formatted.contains("a=["));
}

#[test]
fn an_error_node_prints_nothing() {
    assert_eq!(accent_proust::format::format(&Node::new(NodeType::Error)), "");
    assert_eq!(accent_proust::format::format(&Node::new(NodeType::Node)), "");
}

#[test]
fn a_document_prints_its_blocks_and_drops_leading_blank_lines() {
    let document = block(
        NodeType::Document,
        &[],
        vec![
            block(NodeType::Heading, &[("level", num("2"))], vec![inline("Title")]),
            block(NodeType::Paragraph, &[], vec![inline("Some text.")]),
            block(NodeType::Hr, &[], Vec::new()),
        ],
    );
    assert_eq!(
        accent_proust::format::format(&document),
        "## Title\n\nSome text.\n\n---\n"
    );
}

#[test]
fn text_escapes_the_leading_character_that_would_start_a_block() {
    let paragraph = block(NodeType::Paragraph, &[], vec![inline("# not a heading")]);
    assert_eq!(accent_proust::format::format(&paragraph), "\\# not a heading\n");
}

#[test]
fn a_strong_node_reprints_its_own_marker_and_escapes_inside_it() {
    let strong = block(NodeType::Strong, &[("marker", Value::String("__".to_owned()))], vec![text("a*b")]);
    let paragraph = block(NodeType::Paragraph, &[], vec![block(NodeType::Inline, &[], vec![strong])]);
    assert_eq!(accent_proust::format::format(&paragraph), "__a\\*b__\n");
}

#[test]
fn a_link_whose_text_is_its_destination_prints_as_an_autolink() {
    let auto = block(
        NodeType::Link,
        &[("href", Value::String("https://a.b".to_owned()))],
        vec![text("https://a.b")],
    );
    assert_eq!(accent_proust::format::format(&auto), "<https://a.b>");
    let titled = block(
        NodeType::Link,
        &[
            ("href", Value::String("/u(1)".to_owned())),
            ("title", Value::String("T".to_owned())),
        ],
        vec![text("text")],
    );
    assert_eq!(accent_proust::format::format(&titled), "[text](/u\\(1\\) \"T\")");
}

#[test]
fn an_image_prints_its_alt_source_and_title() {
    let image = block(
        NodeType::Image,
        &[
            ("alt", Value::String("alt text".to_owned())),
            ("src", Value::String("/i.png".to_owned())),
        ],
        Vec::new(),
    );
    assert_eq!(accent_proust::format::format(&image), "![alt text](/i.png)");
}

#[test]
fn inline_code_and_a_variable_in_text_reprint_as_written() {
    let code = block(NodeType::Code, &[("content", Value::String(" x ".to_owned()))], Vec::new());
    assert_eq!(accent_proust::format::format(&code), "`x`");
    let variable = Value::Variable(Variable::new(vec![PathSegment::Key("user".to_owned())]));
    let node = block(NodeType::Text, &[("content", variable)], Vec::new());
    assert_eq!(accent_proust::format::format(&node), "{% $user %}");
}

#[test]
fn a_fence_is_longer_than_any_run_of_backticks_it_holds() {
    let fence = block(
        NodeType::Fence,
        &[
            ("content", Value::String("a ```` b\n".to_owned())),
            ("language", Value::String("js".to_owned())),
        ],
        Vec::new(),
    );
    assert_eq!(accent_proust::format::format(&fence), "`````js\na ```` b\n`````\n");
    let empty = block(NodeType::Fence, &[], Vec::new());
    assert_eq!(accent_proust::format::format(&empty), "```\n\n```\n");
}

#[test]
fn a_blockquote_quotes_every_line_of_every_child() {
    let paragraph = block(
        NodeType::Paragraph,
        &[],
        vec![block(
            NodeType::Inline,
            &[],
            vec![text("a"), block(NodeType::Softbreak, &[], Vec::new()), text("b")],
        )],
    );
    let quote = block(NodeType::Blockquote, &[], vec![paragraph]);
    assert_eq!(accent_proust::format::format(&quote), "> a\n> b\n");
}

#[test]
fn an_ordered_list_repeats_or_counts_its_numbers() {
    let list = || {
        block(
            NodeType::List,
            &[("ordered", Value::Boolean(true)), ("start", num("3"))],
            vec![
                block(NodeType::Item, &[], vec![inline("one")]),
                block(NodeType::Item, &[], vec![inline("two")]),
                block(NodeType::Item, &[], vec![inline("three")]),
            ],
        )
    };
    assert_eq!(accent_proust::format::format(&list()), "3. one\n1. two\n1. three\n");
    let counting = FormatOptions::new().ordered_list_mode(OrderedListMode::Increment);
    assert_eq!(
        accent_proust::format::format_with(&list(), &counting),
        "3. one\n4. two\n5. three\n"
    );
}

#[test]
fn an_unordered_list_uses_its_marker() {
    let list = block(
        NodeType::List,
        &[("marker", Value::String("*".to_owned()))],
        vec![block(NodeType::Item, &[], vec![inline("a")]), block(NodeType::Item, &[], vec![inline("b")])],
    );
    assert_eq!(accent_proust::format::format(&list), "* a\n* b\n");
}

fn cell(node_type: NodeType, content: &str) -> Node<'static> {
    block(node_type, &[], vec![inline(content)])
}

fn table() -> Node<'static> {
    block(
        NodeType::Table,
        &[],
        vec![
            block(
                NodeType::Thead,
                &[],
                vec![block(NodeType::Tr, &[], vec![cell(NodeType::Th, "Name"), cell(NodeType::Th, "N")])],
            ),
            block(
                NodeType::Tbody,
                &[],
                vec![block(NodeType::Tr, &[], vec![cell(NodeType::Td, "a"), cell(NodeType::Td, "longer")])],
            ),
        ],
    )
}

#[test]
fn a_pipe_table_pads_its_columns_to_line_up() {
    assert_eq!(
        accent_proust::format::format(&table()),
        "| Name | N      |\n| ---- | ------ |\n| a    | longer |\n"
    );
}

#[test]
fn a_table_inside_a_table_tag_prints_as_lists() {
    let node = Node::with(NodeType::Tag, IndexMap::new(), vec![table()], Some("table".to_owned()));
    assert_eq!(
        accent_proust::format::format(&node),
        "{% table %}\n- Name\n- N\n---\n- a\n- longer\n{% /table %}\n"
    );
}

#[test]
fn a_comment_ends_its_line_only_when_it_stands_on_one() {
    let comment = block(NodeType::Comment, &[("content", Value::String("note".to_owned()))], Vec::new());
    assert_eq!(accent_proust::format::format(&comment), "<!-- note -->\n");
}

#[test]
fn annotations_reprint_as_written() {
    let mut paragraph = block(NodeType::Paragraph, &[], vec![inline("Text")]);
    paragraph.annotations = vec![
        Attribute::Attribute { name: "id".to_owned(), value: Value::String("intro".to_owned()) },
        Attribute::Class { name: "lead".to_owned() },
    ];
    assert_eq!(accent_proust::format::format(&paragraph), "Text{% #intro .lead %}\n");
}

#[test]
fn a_string_value_reads_back_through_the_tag_grammar() {
    let mut entries = IndexMap::new();
    entries.insert("k".to_string(), Value::String("say \"hi\"\\\n\tthere\r".to_string()));
    let value = Value::Hash(entries);
    let written = accent_proust::format::format_value(&value);
    assert_eq!(written, "{k: \"say \\\"hi\\\"\\\\\\n\\tthere\\r\"}");
    match parse_tag(&format!("x a={written}")).expect("parses") {
        TagItem::TagOpen { attributes, .. } => {
            assert_eq!(attributes, vec![Attribute::Attribute { name: "a".to_string(), value }]);
        }
        other => panic!("not a tag: {other:?}"),
    }
}

#[test]
fn a_nested_value_reads_back_through_the_tag_grammar() {
    let mut inner = IndexMap::new();
    inner.insert("on".to_string(), Value::Boolean(true));
    inner.insert("two words".to_string(), Value::Null);
    let value = Value::Array(vec![
        Value::Number("-1.5".to_string()),
        Value::Hash(inner),
        Value::Array(vec![]),
        Value::String("x".to_string()),
    ]);
    let mut outer = IndexMap::new();
    outer.insert("list".to_string(), value);
    let hash = Value::Hash(outer);
    let written = accent_proust::format::format_value(&hash);
    assert_eq!(written, "{list: [-1.5, {on: true, \"two words\": null}, [], \"x\"]}");
    match parse_tag(&format!("x a={written}")).expect("parses") {
        TagItem::TagOpen { attributes, .. } => {
            assert_eq!(attributes, vec![Attribute::Attribute { name: "a".to_string(), value: hash }]);
        }
        other => panic!("not a tag: {other:?}"),
    }
}

#[test]
fn a_variable_reads_back_through_the_tag_grammar() {
    let variable = Value::Variable(Variable {
        path: vec![
            PathSegment::Key("user".to_string()),
            PathSegment::Index("0".to_string()),
            PathSegment::Key("first name".to_string()),
            PathSegment::Key("x".to_string()),
        ],
    });
    let mut outer = IndexMap::new();
    outer.insert("v".to_string(), Value::Array(vec![variable]));
    let hash = Value::Hash(outer);
    let written = accent_proust::format::format_value(&hash);
    assert_eq!(written, "{v: [$user[0][\"first name\"].x]}");
    match parse_tag(&format!("x a={written}")).expect("parses") {
        TagItem::TagOpen { attributes, .. } => {
            assert_eq!(attributes, vec![Attribute::Attribute { name: "a".to_string(), value: hash }]);
        }
        other => panic!("not a tag: {other:?}"),
    }
}

#[test]
fn a_call_reads_back_through_the_tag_grammar() {
    let mut params = IndexMap::new();
    params.insert(
        "0".to_string(),
        Value::Variable(Variable { path: vec![PathSegment::Key("a".to_string())] }),
    );
    params.insert("1".to_string(), Value::Number("1".to_string()));
    let call = Value::Function(Function { name: "equals".to_string(), parameters: params });
    let mut outer = IndexMap::new();
    outer.insert("when".to_string(), call);
    let hash = Value::Hash(outer);
    let written = accent_proust::format::format_value(&hash);
    assert_eq!(written, "{when: equals($a, 1)}");
    match parse_tag(&format!("x a={written}")).expect("parses") {
        TagItem::TagOpen { attributes, .. } => {
            assert_eq!(attributes, vec![Attribute::Attribute { name: "a".to_string(), value: hash }]);
        }
        other => panic!("not a tag: {other:?}"),
    }
}
