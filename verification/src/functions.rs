//! The built-in functions a tag attribute can call: `and`, `or`, `not`,
//! `equals`, `default` and `debug`.
//!
//! Functions are pure and total: they take resolved parameters and return a
//! value, or nothing. Positional arguments are keyed by their index, as
//! decimal strings, so `not($x)` reads the parameter `"0"`. A parameter that
//! resolved to nothing keeps its key with no value: `and`, `or` and `equals`
//! read every parameter, and `default` tells nothing apart from `null`.
//!
//! Truthiness here is Markdoc's: everything but nothing, `null` and `false`
//! is truthy, so `and(0, "")` is `true`.

use vstd::prelude::*;

use crate::ast::{
    Function, IndexMap, SpecValue, Value, clone_value, key_index, lemma_key_index, value_eq,
    values_equal,
};
use crate::format::{json_string_spec, push_json_string};
use crate::json::{jnum, push_jnum};
use crate::text::{chars_of, decimal, join, push_chars, push_str};

verus! {

/// What a function is called with: each parameter under the key the call
/// wrote it with, and no value where it resolved to nothing.
pub type Parameters = IndexMap<Option<Value>>;

/// What a parameter holds.
pub open spec fn param_view(p: Option<Value>) -> Option<SpecValue> {
    match p {
        Some(v) => Some(v.deep()),
        None => None,
    }
}

/// Markdoc's truthiness: anything but nothing, `null` and `false`.
pub open spec fn truthy_spec(v: Option<SpecValue>) -> bool {
    match v {
        None => false,
        Some(SpecValue::Null) => false,
        Some(SpecValue::Boolean(b)) => b,
        Some(_) => true,
    }
}

/// Whether a value, or nothing, is truthy.
pub fn truthy(value: Option<&Value>) -> (b: bool)
    ensures
        b == truthy_spec(
            match value {
                Some(v) => Some(v.deep()),
                None => None,
            },
        ),
{
    match value {
        None => false,
        Some(Value::Null) => false,
        Some(Value::Boolean(b)) => *b,
        Some(_) => true,
    }
}

/// The parameter at position `index`, or nothing.
pub open spec fn positional_spec(params: Seq<(String, Option<Value>)>, index: nat) -> Option<
    SpecValue,
> {
    let k = key_index(params, decimal(index));
    if k < 0 {
        None
    } else {
        param_view(params[k].1)
    }
}

/// The value of the argument at `index`, or `None` for one that resolved to
/// nothing and for one that was never written.
fn positional(parameters: &Parameters, index: usize) -> (r: Option<&Value>)
    ensures
        match r {
            Some(v) => positional_spec(parameters@, index as nat) == Some(v.deep()),
            None => positional_spec(parameters@, index as nat) is None,
        },
{
    let key = Function::positional_key(index);
    let k = key.as_str();
    assert(k@ == decimal(index as nat));
    proof {
        lemma_key_index(parameters@, decimal(index as nat));
    }
    let found = parameters.get(k);
    match found {
        Some(p) => {
            assert(key_index(parameters@, decimal(index as nat)) >= 0);
            assert(*p == parameters@[key_index(parameters@, decimal(index as nat))].1);
            match p {
                Some(v) => Some(v),
                None => None,
            }
        },
        None => None,
    }
}

/// Truthiness leaves out exactly nothing, `null` and `false`: every other
/// value is truthy, an empty list or object, `0` and `""` included.
pub proof fn law_truthy(v: Option<SpecValue>)
    ensures
        truthy_spec(v) <==> (v is Some && !(v->0 is Null) && v->0 != SpecValue::Boolean(false)),
        truthy_spec(Some(SpecValue::Array(Seq::empty()))),
        truthy_spec(Some(SpecValue::Hash(Seq::empty()))),
{
}

/// `not` answers the opposite of truthiness: `not` of an empty list, of `0`
/// or of `""` is `false`, and `not` is `true` exactly for nothing, `null`
/// and `false`.
pub proof fn law_not(v: Option<SpecValue>)
    ensures
        !truthy_spec(v) <==> (v is None || v->0 is Null || v->0 == SpecValue::Boolean(false)),
{
}

/// Whether every parameter is truthy.
pub open spec fn all_truthy(params: Seq<(String, Option<Value>)>) -> bool {
    forall|i: int| 0 <= i < params.len() ==> truthy_spec(param_view(#[trigger] params[i].1))
}

/// Whether some parameter is truthy.
pub open spec fn any_truthy(params: Seq<(String, Option<Value>)>) -> bool {
    exists|i: int| 0 <= i < params.len() && truthy_spec(param_view(#[trigger] params[i].1))
}

/// `and(...)`: every argument is truthy. An empty call is `true`.
pub fn and(parameters: &Parameters) -> (r: Option<Value>)
    ensures
        r matches Some(Value::Boolean(b)) && b == all_truthy(parameters@),
{
    let mut i: usize = 0;
    while i < parameters.entries.len()
        invariant
            i <= parameters@.len(),
            forall|j: int| 0 <= j < i ==> truthy_spec(param_view(#[trigger] parameters@[j].1)),
        decreases parameters.entries.len() - i,
    {
        if !truthy(parameters.entries[i].1.as_ref()) {
            assert(!truthy_spec(param_view(parameters@[i as int].1)));
            return Some(Value::Boolean(false));
        }
        i = i + 1;
    }
    Some(Value::Boolean(true))
}

/// `or(...)`: some argument is truthy. An empty call is `false`.
pub fn or(parameters: &Parameters) -> (r: Option<Value>)
    ensures
        r matches Some(Value::Boolean(b)) && b == any_truthy(parameters@),
{
    let mut i: usize = 0;
    while i < parameters.entries.len()
        invariant
            i <= parameters@.len(),
            forall|j: int| 0 <= j < i ==> !truthy_spec(param_view(#[trigger] parameters@[j].1)),
        decreases parameters.entries.len() - i,
    {
        if truthy(parameters.entries[i].1.as_ref()) {
            assert(truthy_spec(param_view(parameters@[i as int].1)));
            return Some(Value::Boolean(true));
        }
        i = i + 1;
    }
    Some(Value::Boolean(false))
}

/// `not(x)`: the first argument is not truthy.
pub fn not(parameters: &Parameters) -> (r: Option<Value>)
    ensures
        r matches Some(Value::Boolean(b)) && b == !truthy_spec(positional_spec(parameters@, 0)),
{
    Some(Value::Boolean(!truthy(positional(parameters, 0))))
}

/// Two parameters are equal: both nothing, or values equal in structure.
pub open spec fn param_eq(a: Option<SpecValue>, b: Option<SpecValue>) -> bool {
    match (a, b) {
        (None, None) => true,
        (Some(x), Some(y)) => value_eq(x, y),
        _ => false,
    }
}

/// Whether every parameter equals the first, which holds of no parameters.
pub open spec fn all_equal_first(params: Seq<(String, Option<Value>)>) -> bool {
    forall|i: int|
        0 <= i < params.len() ==> param_eq(
            param_view(#[trigger] params[i].1),
            param_view(params[0].1),
        )
}

/// Two parameters compared as `equals` compares them.
fn params_equal(a: &Option<Value>, b: &Option<Value>) -> (r: bool)
    ensures
        r == param_eq(param_view(*a), param_view(*b)),
{
    match (a, b) {
        (None, None) => true,
        (Some(x), Some(y)) => values_equal(x, y),
        _ => false,
    }
}

/// `equals(...)`: every argument equals the first. Values compare by
/// structure; nothing equals only nothing. An empty call is `true`.
pub fn equals(parameters: &Parameters) -> (r: Option<Value>)
    ensures
        r matches Some(Value::Boolean(b)) && b == all_equal_first(parameters@),
{
    if parameters.entries.len() == 0 {
        return Some(Value::Boolean(true));
    }
    let first = &parameters.entries[0].1;
    let mut i: usize = 0;
    while i < parameters.entries.len()
        invariant
            0 < parameters@.len(),
            i <= parameters@.len(),
            *first == parameters@[0].1,
            forall|j: int|
                0 <= j < i ==> param_eq(
                    param_view(#[trigger] parameters@[j].1),
                    param_view(parameters@[0].1),
                ),
        decreases parameters.entries.len() - i,
    {
        if !params_equal(&parameters.entries[i].1, first) {
            return Some(Value::Boolean(false));
        }
        i = i + 1;
    }
    Some(Value::Boolean(true))
}

/// `default(value, fallback)`: the first argument, or the second when the
/// first resolved to nothing. `null` is a value and is returned as one.
pub fn default(parameters: &Parameters) -> (r: Option<Value>)
    ensures
        param_view(r) == match positional_spec(parameters@, 0) {
            Some(v) => Some(v),
            None => positional_spec(parameters@, 1),
        },
{
    match positional(parameters, 0) {
        Some(value) => Some(clone_value(value)),
        None => match positional(parameters, 1) {
            Some(value) => Some(clone_value(value)),
            None => None,
        },
    }
}

/// Two spaces more than `pad`.
pub open spec fn deeper(pad: Seq<char>) -> Seq<char> {
    pad + seq![' ', ' ']
}

/// A value as indented JSON, `pad` being the indentation of the line it
/// starts on: a container spreads its members over lines of their own two
/// spaces deeper, an empty one is `[]` or `{}`, a number is written out in
/// full or as `null`, and a reference that was never resolved is `null`.
pub open spec fn pretty(v: SpecValue, pad: Seq<char>) -> Seq<char>
    decreases v, 1nat,
{
    match v {
        SpecValue::Null => "null"@,
        SpecValue::Boolean(b) => if b {
            "true"@
        } else {
            "false"@
        },
        SpecValue::Number(n) => jnum(n),
        SpecValue::String(t) => json_string_spec(t),
        SpecValue::Array(items) => if items.len() == 0 {
            seq!['[', ']']
        } else {
            seq!['[', '\n'] + join(pretty_items(items, deeper(pad)), seq![',', '\n']) + seq!['\n']
                + pad + seq![']']
        },
        SpecValue::Hash(entries) => if entries.len() == 0 {
            seq!['{', '}']
        } else {
            seq!['{', '\n'] + join(pretty_entries(entries, deeper(pad)), seq![',', '\n'])
                + seq!['\n'] + pad + seq!['}']
        },
        SpecValue::Function(_, _) => "null"@,
        SpecValue::Variable(_) => "null"@,
    }
}

/// Each item on its own line at `pad`.
pub open spec fn pretty_items(items: Seq<SpecValue>, pad: Seq<char>) -> Seq<Seq<char>>
    decreases items, 0nat,
{
    Seq::new(
        items.len(),
        |i: int|
            if 0 <= i < items.len() {
                pad + pretty(items[i], pad)
            } else {
                Seq::empty()
            },
    )
}

/// Each entry on its own line at `pad`, as `"key": value`.
pub open spec fn pretty_entries(entries: Seq<(Seq<char>, SpecValue)>, pad: Seq<char>) -> Seq<
    Seq<char>,
>
    decreases entries, 0nat,
{
    Seq::new(
        entries.len(),
        |i: int|
            if 0 <= i < entries.len() {
                pad + json_string_spec(entries[i].0) + seq![':', ' '] + pretty(entries[i].1, pad)
            } else {
                Seq::empty()
            },
    )
}

/// `debug(value)`: the first argument as indented JSON, or nothing when it
/// resolved to nothing.
pub fn debug(parameters: &Parameters) -> (r: Option<Value>)
    ensures
        match positional_spec(parameters@, 0) {
            Some(v) => r matches Some(Value::String(s)) && s@ == pretty(v, Seq::empty()),
            None => r is None,
        },
{
    match positional(parameters, 0) {
        Some(value) => {
            let mut out: Vec<char> = Vec::new();
            let pad: Vec<char> = Vec::new();
            write_json(value, &pad, &mut out);
            assert(out@ =~= pretty(value.deep(), Seq::empty()));
            Some(Value::String(crate::text::string_of(&out)))
        },
        None => None,
    }
}

/// Two spaces deeper than `pad`.
fn deeper_pad(pad: &Vec<char>) -> (r: Vec<char>)
    ensures
        r@ == deeper(pad@),
{
    let mut r: Vec<char> = Vec::new();
    push_chars(&mut r, pad);
    r.push(' ');
    r.push(' ');
    assert(r@ =~= deeper(pad@));
    r
}

/// Append a value as indented JSON.
fn write_json(value: &Value, pad: &Vec<char>, out: &mut Vec<char>)
    ensures
        final(out)@ == old(out)@ + pretty(value.deep(), pad@),
    decreases value,
{
    let ghost start = out@;
    match value {
        Value::Null => push_str(out, "null"),
        Value::Boolean(b) => if *b {
            push_str(out, "true")
        } else {
            push_str(out, "false")
        },
        Value::Number(n) => push_jnum(out, n.as_str()),
        Value::String(t) => {
            let chars = chars_of(t.as_str());
            push_json_string(out, &chars);
        },
        Value::Array(items) => {
            proof {
                crate::ast::lemma_values_view(items@);
            }
            out.push('[');
            if items.len() == 0 {
                out.push(']');
                assert(out@ =~= start + pretty(value.deep(), pad@));
                return;
            }
            out.push('\n');
            let inner = deeper_pad(pad);
            proof {
                assert(decreases_to!(*value => (*value)->Array_0));
            }
            write_json_items(items, &inner, out);
            out.push('\n');
            push_chars(out, pad);
            out.push(']');
            assert(out@ =~= start + pretty(value.deep(), pad@));
        },
        Value::Hash(map) => {
            proof {
                crate::grammar::lemma_entries_view(map.entries@);
            }
            out.push('{');
            if map.entries.len() == 0 {
                out.push('}');
                assert(out@ =~= start + pretty(value.deep(), pad@));
                return;
            }
            out.push('\n');
            let inner = deeper_pad(pad);
            proof {
                assert(decreases_to!(*value => (*value)->Hash_0));
                assert(decreases_to!((*value)->Hash_0 => (*value)->Hash_0.entries));
            }
            write_json_entries(&map.entries, &inner, out);
            out.push('\n');
            push_chars(out, pad);
            out.push('}');
            assert(out@ =~= start + pretty(value.deep(), pad@));
        },
        Value::Function(_) => push_str(out, "null"),
        Value::Variable(_) => push_str(out, "null"),
    }
}

/// Append items, each on its own line at `pad`, separated by `,`.
fn write_json_items(items: &Vec<Value>, pad: &Vec<char>, out: &mut Vec<char>)
    ensures
        final(out)@ == old(out)@ + join(
            pretty_items(crate::ast::values_view(items@), pad@),
            seq![',', '\n'],
        ),
    decreases items,
{
    let ghost start = out@;
    let ghost vv = crate::ast::values_view(items@);
    let ghost texts = pretty_items(vv, pad@);
    proof {
        crate::ast::lemma_values_view(items@);
    }
    let mut i: usize = 0;
    while i < items.len()
        invariant
            i <= items@.len(),
            vv == crate::ast::values_view(items@),
            vv.len() == items@.len(),
            forall|j: int| 0 <= j < items@.len() ==> #[trigger] vv[j] == items@[j].deep(),
            texts == pretty_items(vv, pad@),
            out@ == start + join(texts.take(i as int), seq![',', '\n']),
        decreases items.len() - i,
    {
        proof {
            assert(texts.take(i + 1).drop_last() =~= texts.take(i as int));
            assert(texts.take(i + 1).last() == texts[i as int]);
            assert(texts[i as int] == pad@ + pretty(items@[i as int].deep(), pad@));
            if i == 0 {
                assert(texts.take(1)[0] == texts[0]);
            }
            assert(decreases_to!(*items => items@));
            assert(decreases_to!(items@ => items@[i as int]));
        }
        if i > 0 {
            out.push(',');
            out.push('\n');
        }
        push_chars(out, pad);
        write_json(&items[i], pad, out);
        i = i + 1;
        assert(out@ =~= start + join(texts.take(i as int), seq![',', '\n']));
    }
    assert(texts.take(i as int) =~= texts);
}

/// Append entries, each on its own line at `pad` as `"key": value`,
/// separated by `,`.
fn write_json_entries(entries: &Vec<(String, Value)>, pad: &Vec<char>, out: &mut Vec<char>)
    ensures
        final(out)@ == old(out)@ + join(
            pretty_entries(crate::ast::entries_view(entries@), pad@),
            seq![',', '\n'],
        ),
    decreases entries,
{
    let ghost start = out@;
    let ghost ev = crate::ast::entries_view(entries@);
    let ghost texts = pretty_entries(ev, pad@);
    proof {
        crate::grammar::lemma_entries_view(entries@);
    }
    let mut i: usize = 0;
    while i < entries.len()
        invariant
            i <= entries@.len(),
            ev == crate::ast::entries_view(entries@),
            ev.len() == entries@.len(),
            forall|j: int|
                0 <= j < entries@.len() ==> #[trigger] ev[j] == (
                    entries@[j].0@,
                    entries@[j].1.deep(),
                ),
            texts == pretty_entries(ev, pad@),
            out@ == start + join(texts.take(i as int), seq![',', '\n']),
        decreases entries.len() - i,
    {
        proof {
            assert(texts.take(i + 1).drop_last() =~= texts.take(i as int));
            assert(texts.take(i + 1).last() == texts[i as int]);
            assert(ev[i as int] == (entries@[i as int].0@, entries@[i as int].1.deep()));
            if i == 0 {
                assert(texts.take(1)[0] == texts[0]);
            }
            assert(decreases_to!(*entries => entries@));
            assert(decreases_to!(entries@ => entries@[i as int]));
            assert(decreases_to!(entries@[i as int] => entries@[i as int].1));
        }
        if i > 0 {
            out.push(',');
            out.push('\n');
        }
        push_chars(out, pad);
        let key = chars_of(entries[i].0.as_str());
        push_json_string(out, &key);
        out.push(':');
        out.push(' ');
        write_json(&entries[i].1, pad, out);
        i = i + 1;
        assert(out@ =~= start + join(texts.take(i as int), seq![',', '\n']));
    }
    assert(texts.take(i as int) =~= texts);
}

} // verus!
