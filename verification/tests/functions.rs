//! The built-in functions.

use accent_proust::ast::{Function, IndexMap, Value};
use accent_proust::functions::{Parameters, and, debug, equals, not, or};

/// Positional arguments, keyed by index; `None` is an argument that resolved
/// to nothing, and it keeps its key.
fn params(arguments: &[Option<Value>]) -> Parameters {
    let mut parameters = Parameters::new();
    for (index, argument) in arguments.iter().enumerate() {
        parameters.insert(Function::positional_key(index), argument.clone());
    }
    parameters
}

fn some(value: Value) -> Option<Value> {
    Some(value)
}

fn string(text: &str) -> Option<Value> {
    Some(Value::String(text.to_string()))
}

fn num(spelling: &str) -> Option<Value> {
    Some(Value::Number(spelling.to_string()))
}

#[test]
fn truthiness_is_markdocs_rather_than_javascripts() {
    assert_eq!(and(&params(&[num("0"), string("")])), some(Value::Boolean(true)));
    assert_eq!(
        or(&params(&[some(Value::Boolean(false)), num("0")])),
        some(Value::Boolean(true))
    );
    assert_eq!(not(&params(&[string("")])), some(Value::Boolean(false)));
}

#[test]
fn null_and_undefined_are_both_untruthy() {
    assert_eq!(
        and(&params(&[some(Value::Null), some(Value::Boolean(true))])),
        some(Value::Boolean(false))
    );
    assert_eq!(and(&params(&[None, some(Value::Boolean(true))])), some(Value::Boolean(false)));
    assert_eq!(not(&params(&[None])), some(Value::Boolean(true)));
}

#[test]
fn an_empty_call_follows_javascript_array_semantics() {
    assert_eq!(and(&params(&[])), some(Value::Boolean(true)));
    assert_eq!(or(&params(&[])), some(Value::Boolean(false)));
    assert_eq!(equals(&params(&[])), some(Value::Boolean(true)));
}

#[test]
fn equals_compares_every_argument_against_the_first() {
    assert_eq!(
        equals(&params(&[string("a"), string("a"), string("a")])),
        some(Value::Boolean(true))
    );
    assert_eq!(equals(&params(&[string("a"), string("b")])), some(Value::Boolean(false)));
    assert_eq!(equals(&params(&[None, None])), some(Value::Boolean(true)));
    assert_eq!(equals(&params(&[None, some(Value::Null)])), some(Value::Boolean(false)));
    assert_eq!(equals(&params(&[None, string("test")])), some(Value::Boolean(false)));
}

#[test]
fn default_falls_through_undefined_but_not_null() {
    assert_eq!(accent_proust::functions::default(&params(&[None, string("x")])), string("x"));
    assert_eq!(accent_proust::functions::default(&params(&[some(Value::Null), string("x")])), some(Value::Null));
    assert_eq!(accent_proust::functions::default(&params(&[string("a"), string("x")])), string("a"));
    assert_eq!(accent_proust::functions::default(&params(&[])), None);
}

#[test]
fn debug_prints_indented_json() {
    let mut entries = IndexMap::new();
    entries.insert("a".to_string(), Value::Number("1".to_string()));
    entries.insert(
        "b".to_string(),
        Value::Array(vec![Value::Boolean(true), Value::Null]),
    );
    let value = Value::Hash(entries);
    assert_eq!(
        debug(&params(&[Some(value)])),
        string("{\n  \"a\": 1,\n  \"b\": [\n    true,\n    null\n  ]\n}")
    );
    assert_eq!(debug(&params(&[])), None);
    assert_eq!(debug(&params(&[string("x\"y")])), string("\"x\\\"y\""));
}

#[test]
fn debug_writes_empty_containers_and_full_numbers() {
    assert_eq!(debug(&params(&[some(Value::Array(vec![]))])), string("[]"));
    assert_eq!(debug(&params(&[some(Value::Hash(IndexMap::new()))])), string("{}"));
    assert_eq!(debug(&params(&[num("1e+21")])), string("1000000000000000000000"));
    assert_eq!(debug(&params(&[num("NaN")])), string("null"));
}
