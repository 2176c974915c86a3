//! Values as they are written inside a tag, and as they print in content.
//!
//! Two printings that look alike and are not. As a *literal* -- the right-hand
//! side of an attribute -- a string prints quoted and escaped, so that reading
//! the output back gives the value again. As *content* -- a variable's value
//! in running text, an image's `alt` -- a string prints as its characters.
//!
//! Both walks are bounded at [`MAX_FORMAT_DEPTH`] levels of nesting: below
//! that a value prints as nothing and the brackets above it still close.

use vstd::prelude::*;

use crate::ast::{
    Function, PathSegment, SpecSegment, SpecValue, Value, entries_view, lemma_values_view,
    path_view, segment_view, values_view,
};
use crate::format::chunk::{Out, SpecChunk, text};
use crate::grammar::{Attribute, lemma_entries_view};
use crate::text::{push_chars, push_joined, push_str, join};

verus! {

/// How deep the formatter walks before it stops. Nesting depth is chosen by
/// whoever built the tree; past this a node or a value prints as nothing.
pub const MAX_FORMAT_DEPTH: usize = 512;

/// A character an unquoted name may hold: `[a-zA-Z0-9_-]`.
pub open spec fn ident_char(c: char) -> bool {
    ('a' <= c && c <= 'z') || ('A' <= c && c <= 'Z') || ('0' <= c && c <= '9') || c == '_' || c
        == '-'
}

/// Whether a name can be written without quotes.
pub open spec fn is_identifier_spec(s: Seq<char>) -> bool {
    s.len() > 0 && forall|i: int| 0 <= i < s.len() ==> #[trigger] ident_char(s[i])
}

/// Whether a name can be written without quotes: a hash key, an `id` that
/// contracts to `#id`, a class that contracts to `.class`.
pub fn is_identifier(name: &Vec<char>) -> (b: bool)
    ensures
        b == is_identifier_spec(name@),
{
    if name.len() == 0 {
        return false;
    }
    let mut i: usize = 0;
    while i < name.len()
        invariant
            i <= name@.len(),
            forall|j: int| 0 <= j < i ==> #[trigger] ident_char(name@[j]),
        decreases name.len() - i,
    {
        let c = name[i];
        if !(('a' <= c && c <= 'z') || ('A' <= c && c <= 'Z') || ('0' <= c && c <= '9') || c
            == '_' || c == '-') {
            assert(!ident_char(name@[i as int]));
            return false;
        }
        i = i + 1;
    }
    true
}

/// A lower-case hexadecimal digit.
pub open spec fn hex_digit(d: nat) -> char {
    if d == 0 { '0' }
    else if d == 1 { '1' }
    else if d == 2 { '2' }
    else if d == 3 { '3' }
    else if d == 4 { '4' }
    else if d == 5 { '5' }
    else if d == 6 { '6' }
    else if d == 7 { '7' }
    else if d == 8 { '8' }
    else if d == 9 { '9' }
    else if d == 10 { 'a' }
    else if d == 11 { 'b' }
    else if d == 12 { 'c' }
    else if d == 13 { 'd' }
    else if d == 14 { 'e' }
    else { 'f' }
}

/// One character as `JSON.stringify` writes it inside a string.
pub open spec fn json_char(c: char) -> Seq<char> {
    if c == '"' {
        seq!['\\', '"']
    } else if c == '\\' {
        seq!['\\', '\\']
    } else if c == '\u{8}' {
        seq!['\\', 'b']
    } else if c == '\u{c}' {
        seq!['\\', 'f']
    } else if c == '\n' {
        seq!['\\', 'n']
    } else if c == '\r' {
        seq!['\\', 'r']
    } else if c == '\t' {
        seq!['\\', 't']
    } else if (c as u32) < 0x20 {
        seq!['\\', 'u', '0', '0', hex_digit((c as u32 / 16) as nat), hex_digit((c as u32 % 16) as nat)]
    } else {
        seq![c]
    }
}

/// Every character of `s`, as `JSON.stringify` writes it inside a string.
pub open spec fn json_chars(s: Seq<char>) -> Seq<char>
    decreases s.len(),
{
    if s.len() == 0 {
        Seq::empty()
    } else {
        json_chars(s.drop_last()) + json_char(s.last())
    }
}

/// `JSON.stringify` of a string: quoted, with quote, backslash and the C0
/// controls escaped and nothing else.
pub open spec fn json_string_spec(s: Seq<char>) -> Seq<char> {
    seq!['"'] + json_chars(s) + seq!['"']
}

pub fn hex(d: u32) -> (c: char)
    requires
        d < 16,
    ensures
        c == hex_digit(d as nat),
{
    if d == 0 { '0' }
    else if d == 1 { '1' }
    else if d == 2 { '2' }
    else if d == 3 { '3' }
    else if d == 4 { '4' }
    else if d == 5 { '5' }
    else if d == 6 { '6' }
    else if d == 7 { '7' }
    else if d == 8 { '8' }
    else if d == 9 { '9' }
    else if d == 10 { 'a' }
    else if d == 11 { 'b' }
    else if d == 12 { 'c' }
    else if d == 13 { 'd' }
    else if d == 14 { 'e' }
    else { 'f' }
}

/// Append a string as a JSON string literal.
pub fn push_json_string(out: &mut Vec<char>, s: &Vec<char>)
    ensures
        final(out)@ == old(out)@ + json_string_spec(s@),
{
    let ghost start = out@;
    out.push('"');
    let mut i: usize = 0;
    while i < s.len()
        invariant
            i <= s@.len(),
            out@ == start + seq!['"'] + json_chars(s@.take(i as int)),
        decreases s.len() - i,
    {
        let ghost before = out@;
        let c = s[i];
        if c == '"' {
            out.push('\\');
            out.push('"');
        } else if c == '\\' {
            out.push('\\');
            out.push('\\');
        } else if c == '\u{8}' {
            out.push('\\');
            out.push('b');
        } else if c == '\u{c}' {
            out.push('\\');
            out.push('f');
        } else if c == '\n' {
            out.push('\\');
            out.push('n');
        } else if c == '\r' {
            out.push('\\');
            out.push('r');
        } else if c == '\t' {
            out.push('\\');
            out.push('t');
        } else if (c as u32) < 0x20 {
            out.push('\\');
            out.push('u');
            out.push('0');
            out.push('0');
            out.push(hex(c as u32 / 16));
            out.push(hex(c as u32 % 16));
        } else {
            out.push(c);
        }
        assert(out@ =~= before + json_char(c));
        assert(s@.take(i + 1).drop_last() =~= s@.take(i as int));
        i = i + 1;
    }
    out.push('"');
    assert(s@.take(i as int) =~= s@);
    assert(out@ =~= start + json_string_spec(s@));
}


/// A JSON string holds no raw control character: everything below U+0020
/// is written as an escape.
pub proof fn lemma_json_no_controls(s: Seq<char>)
    ensures
        forall|i: int| 0 <= i < json_chars(s).len() ==> (#[trigger] json_chars(s)[i] as u32) >= 0x20,
    decreases s.len(),
{
    if s.len() > 0 {
        lemma_json_no_controls(s.drop_last());
        let c = s.last();
        let head = json_chars(s.drop_last());
        let tail = json_char(c);
        assert(forall|k: int| 0 <= k < 16 ==> (#[trigger] hex_digit(k as nat) as u32) >= 0x30);
        assert forall|i: int| 0 <= i < json_chars(s).len() implies (#[trigger] json_chars(s)[i] as u32) >= 0x20 by {
            if i < head.len() {
                assert(json_chars(s)[i] == head[i]);
            } else {
                assert(json_chars(s)[i] == tail[i - head.len()]);
                if (c as u32) < 0x20 && c != '\u{8}' && c != '\u{c}' && c != '\n' && c != '\r' && c != '\t' {
                    assert((c as u32 / 16) < 16);
                    assert((c as u32 % 16) < 16);
                }
            }
        }
    }
}

/// One step of a variable path. The first is written bare; after it, a name
/// that is an identifier as `.name`, a number as `[0]`, anything else as
/// `["name"]`.
pub open spec fn segment_literal(first: bool, seg: SpecSegment) -> Seq<char> {
    match seg {
        SpecSegment::Key(k) => if first {
            k
        } else if is_identifier_spec(k) {
            seq!['.'] + k
        } else {
            seq!['[', '"'] + k + seq!['"', ']']
        },
        SpecSegment::Index(n) => if first {
            n
        } else {
            seq!['['] + n + seq![']']
        },
    }
}

/// The steps of a variable path, printed.
pub open spec fn path_literal(path: Seq<SpecSegment>) -> Seq<char>
    decreases path.len(),
{
    if path.len() == 0 {
        Seq::empty()
    } else {
        path_literal(path.drop_last()) + segment_literal(path.len() == 1, path.last())
    }
}

/// A variable reference as it is written: `$a.b[0]["c d"]`.
pub open spec fn variable_literal_spec(path: Seq<SpecSegment>) -> Seq<char> {
    seq!['$'] + path_literal(path)
}

/// Append a variable reference.
pub fn push_variable(out: &mut Vec<char>, path: &Vec<PathSegment>)
    ensures
        final(out)@ == old(out)@ + variable_literal_spec(path_view(path@)),
{
    let ghost start = out@;
    let ghost pv = path_view(path@);
    out.push('$');
    let mut i: usize = 0;
    while i < path.len()
        invariant
            i <= path@.len(),
            pv == path_view(path@),
            out@ == start + seq!['$'] + path_literal(pv.take(i as int)),
        decreases path.len() - i,
    {
        let ghost before = out@;
        proof {
            assert(pv.take(i + 1).drop_last() =~= pv.take(i as int));
            assert(pv.take(i + 1).last() == segment_view(path@[i as int]));
        }
        match &path[i] {
            PathSegment::Key(k) => {
                let chars = crate::text::chars_of(k.as_str());
                if i == 0 {
                    push_chars(out, &chars);
                } else if is_identifier(&chars) {
                    out.push('.');
                    push_chars(out, &chars);
                } else {
                    out.push('[');
                    out.push('"');
                    push_chars(out, &chars);
                    out.push('"');
                    out.push(']');
                }
            },
            PathSegment::Index(n) => {
                if i == 0 {
                    push_str(out, n.as_str());
                } else {
                    out.push('[');
                    push_str(out, n.as_str());
                    out.push(']');
                }
            },
        }
        assert(out@ =~= before + segment_literal(i == 0, segment_view(path@[i as int])));
        i = i + 1;
    }
    assert(pv.take(i as int) =~= pv);
}

/// A hash key: bare when it is an identifier, in quotes when it is not.
pub open spec fn key_literal(k: Seq<char>) -> Seq<char> {
    if is_identifier_spec(k) {
        k
    } else {
        seq!['"'] + k + seq!['"']
    }
}

/// `true` or `false`.
pub open spec fn bool_literal(b: bool) -> Seq<char> {
    if b {
        seq!['t', 'r', 'u', 'e']
    } else {
        seq!['f', 'a', 'l', 's', 'e']
    }
}

/// A value as it is written inside a tag, `depth` levels down.
pub open spec fn scalar_spec(v: SpecValue, depth: nat) -> Seq<char>
    decreases v, 0nat,
{
    if depth >= MAX_FORMAT_DEPTH {
        Seq::empty()
    } else {
        match v {
            SpecValue::Variable(path) => variable_literal_spec(path),
            SpecValue::Function(name, params) => name + seq!['('] + params_literal(
                params,
                depth + 1,
            ) + seq![')'],
            SpecValue::Null => seq!['n', 'u', 'l', 'l'],
            SpecValue::Array(items) => seq!['['] + items_literal(items, depth + 1) + seq![']'],
            SpecValue::Hash(entries) => seq!['{'] + entries_literal(entries, depth + 1) + seq![
                '}',
            ],
            SpecValue::Boolean(b) => bool_literal(b),
            SpecValue::Number(n) => n,
            SpecValue::String(t) => json_string_spec(t),
        }
    }
}

/// Values as literals, comma-separated.
pub open spec fn items_literal(items: Seq<SpecValue>, depth: nat) -> Seq<char>
    decreases items, 1nat,
{
    if items.len() == 0 {
        Seq::empty()
    } else if items.len() == 1 {
        scalar_spec(items[0], depth)
    } else {
        items_literal(items.drop_last(), depth) + seq![',', ' '] + scalar_spec(items.last(), depth)
    }
}

/// A function's arguments as literals, comma-separated, without their names.
pub open spec fn params_literal(entries: Seq<(Seq<char>, SpecValue)>, depth: nat) -> Seq<char>
    decreases entries, 1nat,
{
    if entries.len() == 0 {
        Seq::empty()
    } else if entries.len() == 1 {
        scalar_spec(entries[0].1, depth)
    } else {
        params_literal(entries.drop_last(), depth) + seq![',', ' '] + scalar_spec(
            entries.last().1,
            depth,
        )
    }
}

/// A hash's entries as `key: literal`, comma-separated.
pub open spec fn entries_literal(entries: Seq<(Seq<char>, SpecValue)>, depth: nat) -> Seq<char>
    decreases entries, 1nat,
{
    if entries.len() == 0 {
        Seq::empty()
    } else if entries.len() == 1 {
        key_literal(entries[0].0) + seq![':', ' '] + scalar_spec(entries[0].1, depth)
    } else {
        entries_literal(entries.drop_last(), depth) + seq![',', ' '] + key_literal(
            entries.last().0,
        ) + seq![':', ' '] + scalar_spec(entries.last().1, depth)
    }
}

/// Append a value as it is written inside a tag, `depth` levels down.
pub fn push_scalar(out: &mut Vec<char>, v: &Value, depth: usize)
    requires
        depth <= MAX_FORMAT_DEPTH,
    ensures
        final(out)@ == old(out)@ + scalar_spec(v.deep(), depth as nat),
    decreases v,
{
    if depth >= MAX_FORMAT_DEPTH {
        assert(old(out)@ + scalar_spec(v.deep(), depth as nat) =~= old(out)@);
        return;
    }
    let ghost start = out@;
    match v {
        Value::Variable(var) => push_variable(out, &var.path),
        Value::Function(f) => {
            push_str(out, f.name.as_str());
            out.push('(');
            proof {
                assert(decreases_to!(*v => (*v)->Function_0));
                assert(decreases_to!((*v)->Function_0 => (*v)->Function_0.parameters));
            }
            push_entries(out, &f.parameters.entries, depth + 1, false);
            out.push(')');
            proof {
                lemma_entries_view(f.parameters.entries@);
            }
            assert(out@ =~= start + scalar_spec(v.deep(), depth as nat));
        },
        Value::Null => {
            out.push('n');
            out.push('u');
            out.push('l');
            out.push('l');
            assert(out@ =~= start + scalar_spec(v.deep(), depth as nat));
        },
        Value::Array(items) => {
            out.push('[');
            proof {
                assert(decreases_to!(*v => (*v)->Array_0));
            }
            push_items(out, items, depth + 1);
            out.push(']');
            assert(out@ =~= start + scalar_spec(v.deep(), depth as nat));
        },
        Value::Hash(map) => {
            out.push('{');
            proof {
                assert(decreases_to!(*v => (*v)->Hash_0));
            }
            push_entries(out, &map.entries, depth + 1, true);
            out.push('}');
            assert(out@ =~= start + scalar_spec(v.deep(), depth as nat));
        },
        Value::Boolean(b) => {
            if *b {
                out.push('t');
                out.push('r');
                out.push('u');
                out.push('e');
            } else {
                out.push('f');
                out.push('a');
                out.push('l');
                out.push('s');
                out.push('e');
            }
            assert(out@ =~= start + scalar_spec(v.deep(), depth as nat));
        },
        Value::Number(n) => push_str(out, n.as_str()),
        Value::String(t) => {
            let chars = crate::text::chars_of(t.as_str());
            push_json_string(out, &chars);
        },
    }
}

/// Append values as literals, comma-separated.
fn push_items(out: &mut Vec<char>, items: &Vec<Value>, depth: usize)
    requires
        depth <= MAX_FORMAT_DEPTH,
    ensures
        final(out)@ == old(out)@ + items_literal(values_view(items@), depth as nat),
    decreases items,
{
    let ghost start = out@;
    let ghost vv = values_view(items@);
    proof {
        lemma_values_view(items@);
    }
    let mut i: usize = 0;
    while i < items.len()
        invariant
            i <= items@.len(),
            vv == values_view(items@),
            vv.len() == items@.len(),
            forall|j: int| 0 <= j < items@.len() ==> #[trigger] vv[j] == items@[j].deep(),
            depth <= MAX_FORMAT_DEPTH,
            out@ == start + items_literal(vv.take(i as int), depth as nat),
        decreases items.len() - i,
    {
        proof {
            assert(vv.take(i + 1).drop_last() =~= vv.take(i as int));
            assert(vv.take(i + 1).last() == items@[i as int].deep());
            if i == 0 {
                assert(vv.take(1)[0] == items@[0].deep());
            }
            assert(decreases_to!(*items => items@));
            assert(decreases_to!(items@ => items@[i as int]));
        }
        if i > 0 {
            out.push(',');
            out.push(' ');
        }
        push_scalar(out, &items[i], depth);
        i = i + 1;
        assert(out@ =~= start + items_literal(vv.take(i as int), depth as nat));
    }
    assert(vv.take(i as int) =~= vv);
}

/// Append keyed values as literals, comma-separated: `key: literal` for a
/// hash, the literal alone for a function's arguments.
#[verifier::rlimit(40)]
fn push_entries(out: &mut Vec<char>, entries: &Vec<(String, Value)>, depth: usize, keyed: bool)
    requires
        depth <= MAX_FORMAT_DEPTH,
    ensures
        keyed ==> final(out)@ == old(out)@ + entries_literal(entries_view(entries@), depth as nat),
        !keyed ==> final(out)@ == old(out)@ + params_literal(entries_view(entries@), depth as nat),
    decreases entries,
{
    let ghost start = out@;
    let ghost ev = entries_view(entries@);
    proof {
        lemma_entries_view(entries@);
    }
    let mut i: usize = 0;
    while i < entries.len()
        invariant
            i <= entries@.len(),
            ev == entries_view(entries@),
            ev.len() == entries@.len(),
            forall|j: int| 0 <= j < entries@.len() ==> #[trigger] ev[j] == (entries@[j].0@, entries@[j].1.deep()),
            depth <= MAX_FORMAT_DEPTH,
            keyed ==> out@ == start + entries_literal(ev.take(i as int), depth as nat),
            !keyed ==> out@ == start + params_literal(ev.take(i as int), depth as nat),
        decreases entries.len() - i,
    {
        proof {
            assert(ev.take(i + 1).drop_last() =~= ev.take(i as int));
            assert(ev.take(i + 1).last() == ev[i as int]);
            if i == 0 {
                assert(ev.take(1)[0] == ev[0]);
            }
            assert(decreases_to!(*entries => entries@));
            assert(decreases_to!(entries@ => entries@[i as int]));
            assert(decreases_to!(entries@[i as int] => entries@[i as int].1));
        }
        if i > 0 {
            out.push(',');
            out.push(' ');
        }
        if keyed {
            let key = crate::text::chars_of(entries[i].0.as_str());
            if is_identifier(&key) {
                push_chars(out, &key);
            } else {
                out.push('"');
                push_chars(out, &key);
                out.push('"');
            }
            out.push(':');
            out.push(' ');
        }
        push_scalar(out, &entries[i].1, depth);
        i = i + 1;
        assert(keyed ==> out@ =~= start + entries_literal(ev.take(i as int), depth as nat));
        assert(!keyed ==> out@ =~= start + params_literal(ev.take(i as int), depth as nat));
    }
    assert(ev.take(i as int) =~= ev);
}

/// A value as it is written inside a tag.
pub fn scalar(v: &Value) -> (r: Vec<char>)
    ensures
        r@ == scalar_spec(v.deep(), 0),
{
    let mut out: Vec<char> = Vec::new();
    push_scalar(&mut out, v, 0);
    assert(out@ =~= scalar_spec(v.deep(), 0));
    out
}

/// Which of two shapes an attribute has. A class is not merely an attribute
/// named `class`: it contracts to `.name`, and its value is the presence of
/// the name rather than anything printable.
#[derive(Clone, Copy, Debug, PartialEq, Eq, Structural)]
pub enum AttributeKind {
    /// `name=value`, or one of its contractions.
    Attribute,
    /// A class, which contracts to `.name`.
    Class,
}

/// The name `primary`.
pub open spec fn primary_name() -> Seq<char> {
    seq!['p', 'r', 'i', 'm', 'a', 'r', 'y']
}

/// The name `id`.
pub open spec fn id_name() -> Seq<char> {
    seq!['i', 'd']
}

/// The name `class`.
pub open spec fn class_name() -> Seq<char> {
    seq!['c', 'l', 'a', 's', 's']
}

/// One attribute in its shortest spelling: a `primary` attribute as its bare
/// value, an `id` that is an identifier as `#id`, a class whose name is an
/// identifier as `.name`, and anything else as `name=value`.
pub open spec fn annotation_spec(kind: AttributeKind, name: Seq<char>, value: SpecValue) -> Seq<
    char,
> {
    let formatted = scalar_spec(value, 0);
    if name == primary_name() {
        formatted
    } else if name == id_name() && value is String && is_identifier_spec(value->String_0) {
        seq!['#'] + value->String_0
    } else if kind == AttributeKind::Class && is_identifier_spec(name) {
        seq!['.'] + name
    } else {
        name + seq!['='] + formatted
    }
}

/// Whether `name` spells `lit`.
fn name_is(name: &Vec<char>, lit: &str) -> (b: bool)
    ensures
        b == (name@ == lit@),
{
    let l = crate::text::chars_of(lit);
    if name.len() != l.len() {
        return false;
    }
    let mut i: usize = 0;
    while i < name.len()
        invariant
            i <= name@.len(),
            name@.len() == l@.len(),
            l@ == lit@,
            forall|j: int| 0 <= j < i ==> name@[j] == l@[j],
        decreases name.len() - i,
    {
        if name[i] != l[i] {
            return false;
        }
        i = i + 1;
    }
    assert(name@ =~= l@);
    true
}

/// One attribute in its shortest spelling.
pub fn annotation_value(kind: AttributeKind, name: &Vec<char>, value: &Value) -> (r: Vec<char>)
    ensures
        r@ == annotation_spec(kind, name@, value.deep()),
{
    let formatted = scalar(value);
    proof {
        reveal_strlit("primary");
        reveal_strlit("id");
        assert("primary"@ =~= primary_name());
        assert("id"@ =~= id_name());
    }
    if name_is(name, "primary") {
        return formatted;
    }
    if name_is(name, "id") {
        if let Value::String(t) = value {
            let chars = crate::text::chars_of(t.as_str());
            if is_identifier(&chars) {
                let mut out: Vec<char> = vec!['#'];
                push_chars(&mut out, &chars);
                assert(out@ =~= seq!['#'] + chars@);
                return out;
            }
        }
    }
    if kind == AttributeKind::Class && is_identifier(name) {
        let mut out: Vec<char> = vec!['.'];
        push_chars(&mut out, name);
        assert(out@ =~= seq!['.'] + name@);
        return out;
    }
    let mut out: Vec<char> = Vec::new();
    push_chars(&mut out, name);
    out.push('=');
    push_chars(&mut out, &formatted);
    assert(out@ =~= name@ + seq!['='] + formatted@);
    out
}

/// The spellings one attribute entry contributes. A `class` hash gives one
/// `.name` per class -- and what it passes as each class's value is the whole
/// hash, which shows only when a class name is not an identifier.
pub open spec fn entry_parts(k: Seq<char>, v: SpecValue) -> Seq<Seq<char>> {
    if k == class_name() && v is Hash {
        Seq::new(
            v->Hash_0.len(),
            |i: int| annotation_spec(AttributeKind::Class, v->Hash_0[i].0, v),
        )
    } else {
        seq![annotation_spec(AttributeKind::Attribute, k, v)]
    }
}

/// The spellings of an attribute map, in authored order.
pub open spec fn attribute_parts(entries: Seq<(Seq<char>, SpecValue)>) -> Seq<Seq<char>>
    decreases entries.len(),
{
    if entries.len() == 0 {
        Seq::empty()
    } else {
        attribute_parts(entries.drop_last()) + entry_parts(entries.last().0, entries.last().1)
    }
}

/// The characters of each string.
pub open spec fn texts_view(items: Seq<Vec<char>>) -> Seq<Seq<char>> {
    Seq::new(items.len(), |i: int| items[i]@)
}

/// Viewing distributes over a push.
pub proof fn lemma_texts_view_push(s: Seq<Vec<char>>, x: Vec<char>)
    ensures
        texts_view(s.push(x)) == texts_view(s).push(x@),
{
    assert(texts_view(s.push(x)) =~= texts_view(s).push(x@));
}

/// A tag's attributes, each in its shortest spelling, in authored order.
pub fn attributes(entries: &Vec<(String, Value)>) -> (r: Vec<Vec<char>>)
    ensures
        texts_view(r@) == attribute_parts(entries_view(entries@)),
{
    let ghost ev = entries_view(entries@);
    proof {
        lemma_entries_view(entries@);
        reveal_strlit("class");
        assert("class"@ =~= class_name());
    }
    let mut out: Vec<Vec<char>> = Vec::new();
    let mut i: usize = 0;
    while i < entries.len()
        invariant
            i <= entries@.len(),
            ev == entries_view(entries@),
            ev.len() == entries@.len(),
            forall|j: int| 0 <= j < entries@.len() ==> #[trigger] ev[j] == (entries@[j].0@, entries@[j].1.deep()),
            texts_view(out@) == attribute_parts(ev.take(i as int)),
        decreases entries.len() - i,
    {
        proof {
            assert(ev.take(i + 1).drop_last() =~= ev.take(i as int));
            assert(ev.take(i + 1).last() == ev[i as int]);
        }
        let ghost before = texts_view(out@);
        proof {
            reveal_strlit("class");
            assert("class"@ =~= class_name());
        }
        let key = crate::text::chars_of(entries[i].0.as_str());
        let value = &entries[i].1;
        let mut is_class_hash = false;
        if name_is(&key, "class") {
            if let Value::Hash(classes) = value {
                is_class_hash = true;
                let ghost cv = entries_view(classes.entries@);
                proof {
                    lemma_entries_view(classes.entries@);
                }
                let mut j: usize = 0;
                while j < classes.entries.len()
                    invariant
                        j <= classes.entries@.len(),
                        cv == entries_view(classes.entries@),
                        cv.len() == classes.entries@.len(),
                        forall|m: int| 0 <= m < classes.entries@.len() ==> #[trigger] cv[m] == (classes.entries@[m].0@, classes.entries@[m].1.deep()),
                        *value == Value::Hash(*classes),
                        texts_view(out@) == before + Seq::new(
                            j as nat,
                            |m: int| annotation_spec(AttributeKind::Class, cv[m].0, value.deep()),
                        ),
                    decreases classes.entries.len() - j,
                {
                    let name = crate::text::chars_of(classes.entries[j].0.as_str());
                    let part = annotation_value(AttributeKind::Class, &name, value);
                    let ghost prior = out@;
                    assert(cv[j as int].0 == name@);
                    out.push(part);
                    proof {
                        lemma_texts_view_push(prior, part);
                        assert((before + Seq::new(
                            j as nat,
                            |m: int| annotation_spec(AttributeKind::Class, cv[m].0, value.deep()),
                        )).push(part@) =~= before + Seq::new(
                            (j + 1) as nat,
                            |m: int| annotation_spec(AttributeKind::Class, cv[m].0, value.deep()),
                        ));
                    }
                    j = j + 1;
                }
                assert(value.deep() == SpecValue::Hash(cv));
                assert(entry_parts(ev[i as int].0, ev[i as int].1) =~= Seq::new(
                    j as nat,
                    |m: int| annotation_spec(AttributeKind::Class, cv[m].0, value.deep()),
                ));
            }
        }
        if !is_class_hash {
            let part = annotation_value(AttributeKind::Attribute, &key, value);
            let ghost prior = out@;
            out.push(part);
            proof {
                lemma_texts_view_push(prior, part);
            }
            assert(texts_view(out@) =~= before + seq![part@]);
            assert(entry_parts(ev[i as int].0, ev[i as int].1) =~= seq![part@]);
        }
        i = i + 1;
        assert(texts_view(out@) =~= attribute_parts(ev.take(i as int)));
    }
    assert(ev.take(i as int) =~= ev);
    out
}

/// How an annotation written on a node reprints.
pub open spec fn annotation_of(a: Attribute) -> Seq<char> {
    match a {
        Attribute::Attribute { name, value } => annotation_spec(
            AttributeKind::Attribute,
            name@,
            value.deep(),
        ),
        Attribute::Class { name } => annotation_spec(
            AttributeKind::Class,
            name@,
            SpecValue::Boolean(true),
        ),
    }
}

/// `{% `, then `%}`.
pub open spec fn open_delim() -> Seq<char> {
    seq!['{', '%', ' ']
}

/// ` %}`.
pub open spec fn close_delim() -> Seq<char> {
    seq![' ', '%', '}']
}

/// A node's annotations as `{% #id .cls key=value %}`, in three pieces, or
/// nothing when it has none.
pub open spec fn annotations_chunks(anns: Seq<Attribute>) -> Seq<SpecChunk> {
    if anns.len() == 0 {
        Seq::empty()
    } else {
        text(open_delim()) + text(
            join(Seq::new(anns.len(), |i: int| annotation_of(anns[i])), seq![' ']),
        ) + text(close_delim())
    }
}

/// Emit a node's annotations.
pub fn push_annotations(out: &mut Out, anns: &Vec<Attribute>)
    ensures
        final(out)@ == old(out)@ + annotations_chunks(anns@),
{
    if anns.len() == 0 {
        assert(old(out)@ + annotations_chunks(anns@) =~= old(out)@);
        return;
    }
    let ghost start = out@;
    let mut values: Vec<Vec<char>> = Vec::new();
    let mut i: usize = 0;
    while i < anns.len()
        invariant
            i <= anns@.len(),
            texts_view(values@) == Seq::new(i as nat, |j: int| annotation_of(anns@[j])),
        decreases anns.len() - i,
    {
        let part = match &anns[i] {
            Attribute::Attribute { name, value } => {
                let n = crate::text::chars_of(name.as_str());
                annotation_value(AttributeKind::Attribute, &n, value)
            },
            Attribute::Class { name } => {
                let n = crate::text::chars_of(name.as_str());
                let t = Value::Boolean(true);
                assert(t.deep() == SpecValue::Boolean(true));
                annotation_value(AttributeKind::Class, &n, &t)
            },
        };
        assert(part@ == annotation_of(anns@[i as int]));
        let ghost prior = values@;
        values.push(part);
        proof {
            lemma_texts_view_push(prior, part);
            assert(Seq::new(i as nat, |j: int| annotation_of(anns@[j])).push(part@) =~= Seq::new(
                (i + 1) as nat,
                |j: int| annotation_of(anns@[j]),
            ));
        }
        i = i + 1;
    }
    out.text(vec!['{', '%', ' ']);
    let mut joined: Vec<char> = Vec::new();
    let space = vec![' '];
    push_joined(&mut joined, &values, &space);
    assert(Seq::new(values@.len(), |k: int| values@[k]@) =~= texts_view(values@));
    assert(space@ =~= seq![' ']);
    out.text(joined);
    out.text(vec![' ', '%', '}']);
    assert(out@ =~= start + annotations_chunks(anns@));
}

/// A value printed as content, `depth` levels down: nothing for `null`, a
/// string as its characters, an array as its items one after another, and
/// anything else as its literal.
pub open spec fn value_chunks(v: SpecValue, depth: nat) -> Seq<SpecChunk>
    decreases v, 0nat,
{
    if depth >= MAX_FORMAT_DEPTH {
        Seq::empty()
    } else {
        match v {
            SpecValue::Null => Seq::empty(),
            SpecValue::Boolean(b) => text(bool_literal(b)),
            SpecValue::Number(n) => text(n),
            SpecValue::String(t) => text(t),
            SpecValue::Array(items) => items_chunks(items, depth + 1),
            _ => text(scalar_spec(v, depth + 1)),
        }
    }
}

/// Values printed as content, one after another.
pub open spec fn items_chunks(items: Seq<SpecValue>, depth: nat) -> Seq<SpecChunk>
    decreases items, 1nat,
{
    if items.len() == 0 {
        Seq::empty()
    } else {
        items_chunks(items.drop_last(), depth) + value_chunks(items.last(), depth)
    }
}

/// Emit a value as content, `depth` levels down.
pub fn push_value(out: &mut Out, v: &Value, depth: usize)
    requires
        depth <= MAX_FORMAT_DEPTH,
    ensures
        final(out)@ == old(out)@ + value_chunks(v.deep(), depth as nat),
    decreases v,
{
    if depth >= MAX_FORMAT_DEPTH {
        assert(old(out)@ + value_chunks(v.deep(), depth as nat) =~= old(out)@);
        return;
    }
    let ghost start = out@;
    match v {
        Value::Null => {
            assert(out@ =~= start + value_chunks(v.deep(), depth as nat));
        },
        Value::Boolean(b) => {
            let t = if *b { vec!['t', 'r', 'u', 'e'] } else { vec!['f', 'a', 'l', 's', 'e'] };
            assert(t@ =~= bool_literal(*b));
            out.text(t);
        },
        Value::Number(n) => out.text(crate::text::chars_of(n.as_str())),
        Value::String(t) => out.text(crate::text::chars_of(t.as_str())),
        Value::Array(items) => {
            let ghost vv = values_view(items@);
            proof {
                lemma_values_view(items@);
            }
            let mut i: usize = 0;
            while i < items.len()
                invariant
                    i <= items@.len(),
                    *v == Value::Array(*items),
                    vv == values_view(items@),
                    vv.len() == items@.len(),
                    forall|j: int| 0 <= j < items@.len() ==> #[trigger] vv[j] == items@[j].deep(),
                    depth < MAX_FORMAT_DEPTH,
                    out@ == start + items_chunks(vv.take(i as int), (depth + 1) as nat),
                decreases items.len() - i,
            {
                proof {
                    assert(vv.take(i + 1).drop_last() =~= vv.take(i as int));
                    assert(vv.take(i + 1).last() == items@[i as int].deep());
                    assert(decreases_to!(*v => (*v)->Array_0));
                    assert(decreases_to!(*items => items@));
                    assert(decreases_to!(items@ => items@[i as int]));
                }
                push_value(out, &items[i], depth + 1);
                i = i + 1;
                assert(out@ =~= start + items_chunks(vv.take(i as int), (depth + 1) as nat));
            }
            assert(vv.take(i as int) =~= vv);
        },
        _ => {
            let mut t: Vec<char> = Vec::new();
            push_scalar(&mut t, v, depth + 1);
            assert(t@ =~= scalar_spec(v.deep(), (depth + 1) as nat));
            out.text(t);
        },
    }
}

} // verus!
