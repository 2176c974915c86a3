//! The configuration vocabulary: paths, error messages, shapes, key lists.

use accent_proust::schema::{
    ATTRIBUTE_KEYS, Error, ErrorKind, Path, SCHEMA_KEYS, SLOT_KEYS, Shape, TOP_LEVEL,
};

#[test]
fn a_reason_is_appended_to_the_vocabularys_sentence() {
    let error = Error::new(
        Path::root().child("tags").child("x").child("validate"),
        ErrorKind::UnknownKey {
            key: "validate".to_owned(),
            expected: &SCHEMA_KEYS,
        },
    )
    .explained("a hook is code");
    let text = error.to_string();
    assert!(
        text.starts_with("config.tags.x.validate: unrecognised key."),
        "{text}"
    );
    assert!(text.ends_with(" -- a hook is code"), "{text}");
}

#[test]
fn a_value_with_no_counterpart_says_so() {
    let error = Error::new(
        Path::root().child("variables").child("d"),
        ErrorKind::NoCounterpart("date".to_owned()),
    );
    let text = error.to_string();
    assert!(
        text.starts_with("config.variables.d: a date has no Markdoc counterpart"),
        "{text}"
    );
}

#[test]
fn the_key_lists_are_the_format() {
    // Cited by both hosts, so a change here is a change to the format.
    assert_eq!(TOP_LEVEL, ["tags", "nodes", "variables"]);
    assert_eq!(
        SCHEMA_KEYS,
        [
            "render",
            "children",
            "attributes",
            "slots",
            "selfClosing",
            "inline",
            "description"
        ]
    );
    assert_eq!(
        ATTRIBUTE_KEYS,
        [
            "type",
            "default",
            "required",
            "matches",
            "render",
            "errorLevel",
            "description"
        ]
    );
}

#[test]
fn a_path_names_children_and_indexes() {
    let path = Path::root().child("tags").child("x").child("attributes").child("a").child("type").index(0);
    assert_eq!(path.to_string(), "config.tags.x.attributes.a.type[0]");
    assert_eq!(Path::root().index(12).to_string(), "config[12]");
}

#[test]
fn the_wrong_shape_reads_as_a_sentence() {
    let error = Error::new(
        Path::root().child("tags"),
        ErrorKind::Expected {
            what: "an object",
            got: Shape::String,
        },
    );
    assert_eq!(error.to_string(), "config.tags: expected an object, not a string");
}

#[test]
fn every_shape_describes_itself() {
    assert_eq!(Shape::Null.describe(), "null");
    assert_eq!(Shape::Boolean.describe(), "a boolean");
    assert_eq!(Shape::Number.describe(), "a number");
    assert_eq!(Shape::String.describe(), "a string");
    assert_eq!(Shape::List.describe(), "a list");
    assert_eq!(Shape::Object.describe(), "an object");
    assert_eq!(Shape::Other("date").describe(), "a date");
}

#[test]
fn each_kind_has_its_sentence() {
    let at = || Path::root().child("nodes").child("headline");
    let text = Error::new(at(), ErrorKind::UnknownNodeType("headline".to_owned())).to_string();
    assert!(text.starts_with("config.nodes.headline: unknown node type \"headline\"; expected one of blockquote, code,"), "{text}");
    assert!(text.contains("heading"), "{text}");
    assert!(text.ends_with("thead, tr"), "{text}");
    let text = Error::new(at(), ErrorKind::TagAsNodeType).to_string();
    assert!(text.contains("looked up by its name"), "{text}");
    assert!(text.contains("\"tags\""), "{text}");
    let text = Error::new(at(), ErrorKind::UnknownAttributeType("Str".to_owned())).to_string();
    assert!(text.contains("\"Str\""), "{text}");
    let text = Error::new(at(), ErrorKind::UnknownErrorLevel("loud".to_owned())).to_string();
    assert!(text.ends_with("expected one of debug, info, warning, error, critical"), "{text}");
    let text = Error::new(at(), ErrorKind::UnrenderableTrue).to_string();
    assert_eq!(text, "config.nodes.headline: expected an element name or false, not true");
    let text = Error::new(at(), ErrorKind::MatchesNotAList).to_string();
    assert!(text.contains("regular expression"), "{text}");
    let text = Error::new(at(), ErrorKind::UnknownKey { key: "x".to_owned(), expected: &SLOT_KEYS }).to_string();
    assert_eq!(text, "config.nodes.headline: unrecognised key. Expected one of render, required");
}
