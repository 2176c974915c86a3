//! JSON for a syntax tree and a renderable tree, written by hand.
//!
//! The shapes a Markdoc consumer expects come from Markdoc's own objects: a
//! node is `{"$$mdtype":"Node","type":..}` with its fields in Markdoc's
//! order, a tag is `{"$$mdtype":"Tag",..}`, an annotation is
//! `{ type, name, value }`, and a location's `file` is present only when set.
//! Columns and offsets are bytes.
//!
//! A tree's depth is its author's, so the writer is a worklist: a container
//! writes its first character, schedules the rest -- its closing bracket
//! first, its contents in reverse with commas between -- and everything pops
//! in writing order.

use vstd::prelude::*;

use crate::ast::{
    ErrorLevel, Function, Location, Node, PathSegment, SpecSegment, SpecValue, ValidationError,
    Value, Variable,
    entries_view, level_name, node_type_name, path_view, values_view,
};
use crate::format::hex_digit;
use crate::grammar::Attribute;
use crate::renderable::{RenderableTreeNode, RenderableTreeNodes, Scalar, Tag};
use crate::text::{chars_of, decimal, join, push_decimal, push_str, string_of};

verus! {

/// One character inside a JSON string: quote, backslash and the C0 controls
/// escaped, and nothing else.
pub open spec fn jchar(c: char) -> Seq<char> {
    if c == '"' {
        seq!['\\', '"']
    } else if c == '\\' {
        seq!['\\', '\\']
    } else if c == '\n' {
        seq!['\\', 'n']
    } else if c == '\r' {
        seq!['\\', 'r']
    } else if c == '\t' {
        seq!['\\', 't']
    } else if (c as u32) < 0x20 {
        seq!['\\', 'u', '0', '0', hex_digit((c as u32 / 16) as nat), hex_digit((c as u32 % 16) as nat)]
    } else {
        seq![c]
    }
}

/// The characters of a JSON string's body.
pub open spec fn jchars(s: Seq<char>) -> Seq<char>
    decreases s.len(),
{
    if s.len() == 0 {
        Seq::empty()
    } else {
        jchars(s.drop_last()) + jchar(s.last())
    }
}

/// A JSON string.
pub open spec fn jstr(s: Seq<char>) -> Seq<char> {
    seq!['"'] + jchars(s) + seq!['"']
}

/// `n` zeros.
pub open spec fn zeros(n: nat) -> Seq<char> {
    Seq::new(n, |i: int| '0')
}

/// The mantissa's digits, without its point.
pub open spec fn mantissa_digits(m: Seq<char>) -> Seq<char>
    decreases m.len(),
{
    if m.len() == 0 {
        Seq::empty()
    } else {
        mantissa_digits(m.drop_last()) + if m.last() == '.' {
            Seq::<char>::empty()
        } else {
            seq![m.last()]
        }
    }
}

/// A number written out in full, as a JSON number: the JavaScript spelling
/// with its exponent, if it has one, expanded into plain digits; `null` for
/// a value JSON cannot spell.
pub open spec fn jnum(s: Seq<char>) -> Seq<char> {
    if s == seq!['N', 'a', 'N'] || s == seq!['I', 'n', 'f', 'i', 'n', 'i', 't', 'y'] || s == seq![
        '-',
        'I',
        'n',
        'f',
        'i',
        'n',
        'i',
        't',
        'y',
    ] {
        jnull()
    } else {
        let e = crate::ast::first_index(s, 'e');
        if e < 0 || e + 2 > s.len() {
            s
        } else {
            let neg = s.len() > 0 && s[0] == '-';
            let sign = if neg { seq!['-'] } else { Seq::empty() };
            let m = if neg { s.subrange(1, e) } else { s.take(e) };
            let d = mantissa_digits(m);
            let rest = s.skip(e + 2);
            let n = crate::format::digits_value(rest.take(crate::format::digit_run(rest) as int));
            if n > 400 {
                s
            } else {
                sign + expand_digits(d, s[e + 1] == '-', n)
            }
        }
    }
}

/// The digits `d` of a mantissa `d[0].d[1..]` times ten to `n` (to `-n`
/// when `minus`), written without an exponent.
pub open spec fn expand_digits(d: Seq<char>, minus: bool, n: nat) -> Seq<char> {
    if minus {
        seq!['0', '.'] + zeros(if n >= 1 { (n - 1) as nat } else { 0 }) + d
    } else if n + 1 >= d.len() {
        d + zeros((n + 1 - d.len()) as nat)
    } else {
        d.take((n + 1) as int) + seq!['.'] + d.skip((n + 1) as int)
    }
}

/// `true` or `false`.
pub open spec fn jbool(b: bool) -> Seq<char> {
    if b {
        "true"@
    } else {
        "false"@
    }
}

/// `null`.
pub open spec fn jnull() -> Seq<char> {
    "null"@
}

/// `[` + items joined with commas + `]`.
pub open spec fn jarr(items: Seq<Seq<char>>) -> Seq<char> {
    seq!['['] + join(items, seq![',']) + seq![']']
}

/// `{` + entries joined with commas + `}`.
pub open spec fn jobj(entries: Seq<Seq<char>>) -> Seq<char> {
    seq!['{'] + join(entries, seq![',']) + seq!['}']
}

/// A path step: a key as a string, an index as a number.
pub open spec fn jsegment(s: SpecSegment) -> Seq<char> {
    match s {
        SpecSegment::Key(k) => jstr(k),
        SpecSegment::Index(n) => jnum(n),
    }
}

/// A syntax-tree value as JSON: data as itself, a function call and a
/// variable in Markdoc's object shapes.
pub open spec fn jvalue(v: SpecValue) -> Seq<char>
    decreases v, 1nat,
{
    match v {
        SpecValue::Null => jnull(),
        SpecValue::Boolean(b) => jbool(b),
        SpecValue::Number(n) => jnum(n),
        SpecValue::String(t) => jstr(t),
        SpecValue::Array(items) => jarr(jvalues(items)),
        SpecValue::Hash(entries) => jobj(jentries(entries)),
        SpecValue::Function(name, params) => seq!['{'] + "\"$$mdtype\":\"Function\",\"name\":"@
            + jstr(name) + ",\"parameters\":"@ + jobj(jentries(params)) + seq!['}'],
        SpecValue::Variable(path) => seq!['{'] + "\"$$mdtype\":\"Variable\",\"path\":"@ + jarr(
            jsegments(path),
        ) + seq!['}'],
    }
}

/// Each value as JSON.
pub open spec fn jvalues(items: Seq<SpecValue>) -> Seq<Seq<char>>
    decreases items, 0nat,
{
    Seq::new(
        items.len(),
        |i: int|
            if 0 <= i < items.len() {
                jvalue(items[i])
            } else {
                Seq::empty()
            },
    )
}

/// Each keyed value as `"key":value`.
pub open spec fn jentries(entries: Seq<(Seq<char>, SpecValue)>) -> Seq<Seq<char>>
    decreases entries, 0nat,
{
    Seq::new(
        entries.len(),
        |i: int|
            if 0 <= i < entries.len() {
                jstr(entries[i].0) + seq![':'] + jvalue(entries[i].1)
            } else {
                Seq::empty()
            },
    )
}

/// Each path step as JSON.
pub open spec fn jsegments(path: Seq<SpecSegment>) -> Seq<Seq<char>> {
    Seq::new(path.len(), |i: int| jsegment(path[i]))
}

/// A renderable-tree scalar as JSON.
pub open spec fn jscalar(s: Scalar) -> Seq<char>
    decreases s, 1nat,
{
    match s {
        Scalar::Null => jnull(),
        Scalar::Boolean(b) => jbool(b),
        Scalar::Number(n) => jnum(n@),
        Scalar::String(t) => jstr(t@),
        Scalar::Array(items) => jarr(jscalars(items@)),
        Scalar::Object(map) => jobj(jscalar_entries(map.entries@)),
    }
}

/// Each scalar as JSON.
pub open spec fn jscalars(items: Seq<Scalar>) -> Seq<Seq<char>>
    decreases items, 0nat,
{
    Seq::new(
        items.len(),
        |i: int|
            if 0 <= i < items.len() {
                jscalar(items[i])
            } else {
                Seq::empty()
            },
    )
}

/// Each keyed scalar as `"key":scalar`.
pub open spec fn jscalar_entries(entries: Seq<(String, Scalar)>) -> Seq<Seq<char>>
    decreases entries, 0nat,
{
    Seq::new(
        entries.len(),
        |i: int|
            if 0 <= i < entries.len() {
                jstr(entries[i].0@) + seq![':'] + jscalar(entries[i].1)
            } else {
                Seq::empty()
            },
    )
}

/// A renderable-tree node as JSON: a scalar as itself, a tag in Markdoc's
/// object shape.
pub open spec fn jrend(n: RenderableTreeNode) -> Seq<char>
    decreases n, 2nat,
{
    match n {
        RenderableTreeNode::Scalar(s) => jscalar(s),
        RenderableTreeNode::Tag(t) => jtag(t),
    }
}

/// A tag as JSON: `{"$$mdtype":"Tag","name":..,"attributes":{..},"children":[..]}`.
pub open spec fn jtag(t: Tag) -> Seq<char>
    decreases t, 2nat,
{
    seq!['{'] + "\"$$mdtype\":\"Tag\",\"name\":"@ + jstr(t.name@) + ",\"attributes\":"@ + jobj(
        jrend_entries(t.attributes.entries@),
    ) + ",\"children\":"@ + jarr(jrend_list(t.children@)) + seq!['}']
}

/// Each renderable node as JSON.
pub open spec fn jrend_list(items: Seq<RenderableTreeNode>) -> Seq<Seq<char>>
    decreases items, 1nat,
{
    Seq::new(
        items.len(),
        |i: int|
            if 0 <= i < items.len() {
                jrend(items[i])
            } else {
                Seq::empty()
            },
    )
}

/// Each tag attribute as `"name":subtree`.
pub open spec fn jrend_entries(entries: Seq<(String, RenderableTreeNodes)>) -> Seq<Seq<char>>
    decreases entries, 1nat,
{
    Seq::new(
        entries.len(),
        |i: int|
            if 0 <= i < entries.len() {
                jstr(entries[i].0@) + seq![':'] + jrends(entries[i].1)
            } else {
                Seq::empty()
            },
    )
}

/// An attribute's renderable subtree as JSON: one node as itself, a list as
/// an array.
pub open spec fn jrends(r: RenderableTreeNodes) -> Seq<char>
    decreases r, 2nat,
{
    match r {
        RenderableTreeNodes::One(n) => jrend(n),
        RenderableTreeNodes::Many(list) => jarr(jrend_list(list@)),
    }
}

/// A location as JSON: `file` only when set, then `start` and `end` as
/// `line`, `column` and `offset`.
pub open spec fn jloc<'a>(l: Location<'a>) -> Seq<char> {
    seq!['{'] + match l.file {
        Some(f) => "\"file\":"@ + jstr(f@) + seq![','],
        None => Seq::empty(),
    } + "\"start\":{\"line\":"@ + decimal(l.start.line as nat) + ",\"column\":"@ + decimal(
        l.start.column as nat,
    ) + ",\"offset\":"@ + decimal(l.start.offset as nat) + "},\"end\":{\"line\":"@ + decimal(
        l.end.line as nat,
    ) + ",\"column\":"@ + decimal(l.end.column as nat) + ",\"offset\":"@ + decimal(
        l.end.offset as nat,
    ) + "}}"@
}

/// A validation error as JSON: `id`, `level`, `message`, and `location`
/// when known.
pub open spec fn jerr<'a>(e: ValidationError<'a>) -> Seq<char> {
    seq!['{'] + "\"id\":"@ + jstr(e.id@) + ",\"level\":"@ + jstr(level_name(e.level))
        + ",\"message\":"@ + jstr(e.message@) + match e.location {
        Some(l) => ",\"location\":"@ + jloc(l),
        None => Seq::empty(),
    } + seq!['}']
}

/// An annotation as JSON: `{ type, name, value }`, a class carrying `true`.
pub open spec fn jann(a: Attribute) -> Seq<char> {
    match a {
        Attribute::Attribute { name, value } => seq!['{'] + "\"type\":\"attribute\",\"name\":"@
            + jstr(name@) + ",\"value\":"@ + jvalue(value.deep()) + seq!['}'],
        Attribute::Class { name } => seq!['{'] + "\"type\":\"class\",\"name\":"@ + jstr(name@)
            + ",\"value\":true}"@,
    }
}

/// Each line number as JSON.
pub open spec fn jlines(lines: Seq<usize>) -> Seq<Seq<char>> {
    Seq::new(lines.len(), |i: int| decimal(lines[i] as nat))
}

/// Each annotation as JSON.
pub open spec fn janns(anns: Seq<Attribute>) -> Seq<Seq<char>> {
    Seq::new(anns.len(), |i: int| jann(anns[i]))
}

/// Each error as JSON.
pub open spec fn jerrs<'a>(errors: Seq<ValidationError<'a>>) -> Seq<Seq<char>> {
    Seq::new(errors.len(), |i: int| jerr(errors[i]))
}

/// Each attribute of a node as `"name":value`.
pub open spec fn jattrs(entries: Seq<(String, Value)>) -> Seq<Seq<char>> {
    Seq::new(entries.len(), |i: int| jstr(entries[i].0@) + seq![':'] + jvalue(entries[i].1.deep()))
}

/// A node's type, tag and attributes, after its opening brace.
pub open spec fn node_head<'a>(n: Node<'a>) -> Seq<char> {
    "\"$$mdtype\":\"Node\",\"type\":"@ + jstr(node_type_name(n.node_type)) + ",\"tag\":"@
        + match n.tag {
        Some(t) => jstr(t@),
        None => jnull(),
    } + ",\"attributes\":"@ + jobj(jattrs(n.attributes.entries@))
}

/// A node's children and slots.
pub open spec fn node_subtrees<'a>(n: Node<'a>) -> Seq<char>
    decreases n, 0nat,
{
    ",\"children\":"@ + jarr(jnodes(n.children@)) + ",\"slots\":"@ + jobj(jslots(n.slots.entries@))
}

/// A node's lines, location and inline flag.
pub open spec fn node_place<'a>(n: Node<'a>) -> Seq<char> {
    ",\"lines\":"@ + jarr(jlines(n.lines@)) + ",\"location\":"@ + match n.location {
        Some(l) => jloc(l),
        None => jnull(),
    } + ",\"inline\":"@ + jbool(n.inline)
}

/// A node's annotations and errors, and its closing brace.
pub open spec fn node_notes<'a>(n: Node<'a>) -> Seq<char> {
    ",\"annotations\":"@ + jarr(janns(n.annotations@)) + ",\"errors\":"@ + jarr(jerrs(n.errors@))
        + seq!['}']
}

/// A syntax-tree node as JSON, every field, in Markdoc's order.
pub open spec fn jnode<'a>(n: Node<'a>) -> Seq<char>
    decreases n, 1nat,
{
    seq!['{'] + node_head(n) + node_subtrees(n) + node_place(n) + node_notes(n)
}

/// Each node as JSON.
pub open spec fn jnodes<'a>(items: Seq<Node<'a>>) -> Seq<Seq<char>>
    decreases items, 0nat,
{
    Seq::new(
        items.len(),
        |i: int|
            if 0 <= i < items.len() {
                jnode(items[i])
            } else {
                Seq::empty()
            },
    )
}

/// Each slot as `"name":node`.
pub open spec fn jslots<'a>(entries: Seq<(String, Node<'a>)>) -> Seq<Seq<char>>
    decreases entries, 0nat,
{
    Seq::new(
        entries.len(),
        |i: int|
            if 0 <= i < entries.len() {
                jstr(entries[i].0@) + seq![':'] + jnode(entries[i].1)
            } else {
                Seq::empty()
            },
    )
}

/// Append a JSON string.
fn push_jstr(out: &mut Vec<char>, s: &str)
    ensures
        final(out)@ == old(out)@ + jstr(s@),
{
    let chars = chars_of(s);
    let ghost start = out@;
    out.push('"');
    let mut i: usize = 0;
    while i < chars.len()
        invariant
            i <= chars@.len(),
            chars@ == s@,
            out@ == start + seq!['"'] + jchars(chars@.take(i as int)),
        decreases chars.len() - i,
    {
        let ghost before = out@;
        let c = chars[i];
        if c == '"' {
            out.push('\\');
            out.push('"');
        } else if c == '\\' {
            out.push('\\');
            out.push('\\');
        } else if c == '\n' {
            out.push('\\');
            out.push('n');
        } else if c == '\r' {
            out.push('\\');
            out.push('r');
        } else if c == '\t' {
            out.push('\\');
            out.push('t');
        } else if (c as u32) < 0x20 {
            out.push('\\');
            out.push('u');
            out.push('0');
            out.push('0');
            out.push(crate::format::hex(c as u32 / 16));
            out.push(crate::format::hex(c as u32 % 16));
        } else {
            out.push(c);
        }
        assert(out@ =~= before + jchar(c));
        assert(chars@.take(i + 1).drop_last() =~= chars@.take(i as int));
        i = i + 1;
    }
    out.push('"');
    assert(chars@.take(i as int) =~= chars@);
    assert(out@ =~= start + jstr(s@));
}

/// Append `n` zeros.
fn push_zeros(out: &mut Vec<char>, n: usize)
    ensures
        final(out)@ == old(out)@ + zeros(n as nat),
{
    let ghost start = out@;
    let mut i: usize = 0;
    while i < n
        invariant
            i <= n,
            out@ == start + zeros(i as nat),
        decreases n - i,
    {
        out.push('0');
        i = i + 1;
        assert(out@ =~= start + zeros(i as nat));
    }
}

/// The digits of a mantissa, without its point.
fn mantissa_of(m: &Vec<char>) -> (r: Vec<char>)
    ensures
        r@ == mantissa_digits(m@),
{
    let mut r: Vec<char> = Vec::new();
    let mut i: usize = 0;
    while i < m.len()
        invariant
            i <= m@.len(),
            r@ == mantissa_digits(m@.take(i as int)),
        decreases m.len() - i,
    {
        assert(m@.take(i + 1).drop_last() =~= m@.take(i as int));
        if m[i] != '.' {
            r.push(m[i]);
        }
        i = i + 1;
        assert(r@ =~= mantissa_digits(m@.take(i as int)));
    }
    assert(m@.take(i as int) =~= m@);
    r
}

/// Append a number written out in full.
pub(crate) fn push_jnum(out: &mut Vec<char>, s: &str)
    ensures
        final(out)@ == old(out)@ + jnum(s@),
{
    let chars = chars_of(s);
    let nan = vec!['N', 'a', 'N'];
    let inf = vec!['I', 'n', 'f', 'i', 'n', 'i', 't', 'y'];
    let ninf = vec!['-', 'I', 'n', 'f', 'i', 'n', 'i', 't', 'y'];
    assert(nan@ =~= seq!['N', 'a', 'N']);
    assert(inf@ =~= seq!['I', 'n', 'f', 'i', 'n', 'i', 't', 'y']);
    assert(ninf@ =~= seq!['-', 'I', 'n', 'f', 'i', 'n', 'i', 't', 'y']);
    if crate::format::same_chars(&chars, &nan) || crate::format::same_chars(&chars, &inf)
        || crate::format::same_chars(&chars, &ninf) {
        push_str(out, "null");
        return;
    }
    let e = match crate::format::find_char(&chars, 'e') {
        Some(e) => e,
        None => {
            push_str(out, s);
            return;
        },
    };
    if e >= chars.len() || chars.len() - e < 2 {
        push_str(out, s);
        return;
    }
    let (run, n) = crate::format::lead_digits(&chars, e + 2, 401);
    proof {
        assert(chars@.subrange(e + 2, e + 2 + run) =~= s@.skip(e + 2).take(run as int));
    }
    if n > 400 {
        push_str(out, s);
        return;
    }
    let ghost start = out@;
    let neg = chars.len() > 0 && chars[0] == '-';
    if neg {
        out.push('-');
    }
    let m = if neg && e >= 1 {
        crate::text::sub_chars_of(&chars, 1, e)
    } else {
        crate::text::sub_chars_of(&chars, 0, e)
    };
    let d = mantissa_of(&m);
    let ghost sign = if neg { seq!['-'] } else { Seq::<char>::empty() };
    assert(out@ =~= start + sign);
    push_expanded(out, &d, chars[e + 1] == '-', n);
    assert(out@ =~= start + jnum(s@));
}

/// Append `expand_digits`.
fn push_expanded(out: &mut Vec<char>, d: &Vec<char>, minus: bool, n: u64)
    requires
        n <= 400,
    ensures
        final(out)@ == old(out)@ + expand_digits(d@, minus, n as nat),
{
    let ghost start = out@;
    if minus {
        out.push('0');
        out.push('.');
        let z: u64 = if n >= 1 { n - 1 } else { 0 };
        push_zeros(out, z as usize);
        crate::text::push_chars(out, d);
    } else if n + 1 >= d.len() as u64 {
        crate::text::push_chars(out, d);
        push_zeros(out, (n + 1 - d.len() as u64) as usize);
    } else {
        let k = (n + 1) as usize;
        crate::text::push_chars(out, &crate::text::sub_chars_of(d, 0, k));
        out.push('.');
        crate::text::push_chars(out, &crate::text::sub_chars_of(d, k, d.len()));
    }
    assert(out@ =~= start + expand_digits(d@, minus, n as nat));
}

/// Append a location.
fn push_loc<'a>(out: &mut Vec<char>, l: &Location<'a>)
    ensures
        final(out)@ == old(out)@ + jloc(*l),
{
    let ghost start = out@;
    out.push('{');
    match l.file {
        Some(f) => {
            push_str(out, "\"file\":");
            push_jstr(out, f);
            out.push(',');
        },
        None => {},
    }
    push_str(out, "\"start\":{\"line\":");
    push_decimal(out, l.start.line as u64);
    push_str(out, ",\"column\":");
    push_decimal(out, l.start.column as u64);
    push_str(out, ",\"offset\":");
    push_decimal(out, l.start.offset as u64);
    push_str(out, "},\"end\":{\"line\":");
    push_decimal(out, l.end.line as u64);
    push_str(out, ",\"column\":");
    push_decimal(out, l.end.column as u64);
    push_str(out, ",\"offset\":");
    push_decimal(out, l.end.offset as u64);
    push_str(out, "}}");
    assert(out@ =~= start + jloc(*l));
}

/// Append a validation error.
fn push_err<'a>(out: &mut Vec<char>, e: &ValidationError<'a>)
    ensures
        final(out)@ == old(out)@ + jerr(*e),
{
    let ghost start = out@;
    out.push('{');
    push_str(out, "\"id\":");
    push_jstr(out, e.id);
    push_str(out, ",\"level\":");
    push_jstr(out, e.level.as_str());
    push_str(out, ",\"message\":");
    push_jstr(out, e.message.as_str());
    match &e.location {
        Some(l) => {
            push_str(out, ",\"location\":");
            push_loc(out, l);
        },
        None => {},
    }
    out.push('}');
    assert(out@ =~= start + jerr(*e));
}

/// One unit of writing.
enum Step<'a> {
    /// A punctuation character.
    Char(char),
    /// Literal text: a key that is a constant.
    Text(&'static str),
    /// A string, escaped.
    Str(&'a str),
    /// A number, written out in full.
    Num(&'a str),
    /// A count: a line number.
    Count(usize),
    /// `true` or `false`.
    Bool(bool),
    /// A syntax-tree value.
    Value(&'a Value),
    /// `"key":value` in a hash or a function's parameters.
    ValueEntry(&'a str, &'a Value),
    /// A renderable-tree scalar.
    Scalar(&'a Scalar),
    /// `"key":scalar` in an object.
    ScalarEntry(&'a str, &'a Scalar),
    /// A syntax-tree node.
    Node(&'a Node<'a>),
    /// `"name":node` among a node's slots.
    SlotEntry(&'a str, &'a Node<'a>),
    /// A renderable-tree node.
    Renderable(&'a RenderableTreeNode),
    /// `"name":subtree` among a tag's attributes.
    RenderableEntry(&'a str, &'a RenderableTreeNodes),
    /// A location.
    Location(&'a Location<'a>),
    /// A validation error.
    Error(&'a ValidationError<'a>),
    /// An annotation.
    Annotation(&'a Attribute),
}

/// What a step writes.
#[verifier::opaque]
spec fn step_text<'a>(st: Step<'a>) -> Seq<char> {
    match st {
        Step::Char(c) => seq![c],
        Step::Text(t) => t@,
        Step::Str(t) => jstr(t@),
        Step::Num(t) => jnum(t@),
        Step::Count(n) => decimal(n as nat),
        Step::Bool(b) => jbool(b),
        Step::Value(v) => jvalue(v.deep()),
        Step::ValueEntry(k, v) => jstr(k@) + seq![':'] + jvalue(v.deep()),
        Step::Scalar(v) => jscalar(*v),
        Step::ScalarEntry(k, v) => jstr(k@) + seq![':'] + jscalar(*v),
        Step::Node(n) => jnode(*n),
        Step::SlotEntry(k, n) => jstr(k@) + seq![':'] + jnode(*n),
        Step::Renderable(r) => jrend(*r),
        Step::RenderableEntry(k, r) => jstr(k@) + seq![':'] + jrends(*r),
        Step::Location(l) => jloc(*l),
        Step::Error(e) => jerr(*e),
        Step::Annotation(a) => jann(*a),
    }
}

/// What a stack of steps writes, popping from the end.
spec fn pending<'a>(stack: Seq<Step<'a>>) -> Seq<char>
    decreases stack.len(),
{
    if stack.len() == 0 {
        Seq::empty()
    } else {
        step_text(stack.last()) + pending(stack.drop_last())
    }
}

/// What each step of a list writes.
spec fn step_texts<'a>(items: Seq<Step<'a>>) -> Seq<Seq<char>> {
    Seq::new(items.len(), |i: int| step_text(items[i]))
}

/// Listing the steps' texts distributes over a push.
proof fn lemma_step_texts_push<'a>(items: Seq<Step<'a>>, x: Step<'a>)
    ensures
        step_texts(items.push(x)) == step_texts(items).push(step_text(x)),
{
    assert(step_texts(items.push(x)) =~= step_texts(items).push(step_text(x)));
}

fn push_item<'a>(xs: &mut Vec<Step<'a>>, x: Step<'a>)
    ensures
        final(xs)@ == old(xs)@.push(x),
        step_texts(final(xs)@) == step_texts(old(xs)@).push(step_text(x)),
{
    let ghost before = xs@;
    xs.push(x);
    proof {
        lemma_step_texts_push(before, x);
    }
}

fn push_step<'a>(stack: &mut Vec<Step<'a>>, x: Step<'a>)
    ensures
        pending(final(stack)@) == step_text(x) + pending(old(stack)@),
{
    let ghost before = stack@;
    stack.push(x);
    assert(stack@.drop_last() =~= before);
}

/// Schedule a punctuation character.
fn sched_char<'a>(stack: &mut Vec<Step<'a>>, c: char)
    ensures
        pending(final(stack)@) == seq![c] + pending(old(stack)@),
{
    reveal(step_text);
    push_step(stack, Step::Char(c));
}

/// Schedule literal text.
fn sched_text<'a>(stack: &mut Vec<Step<'a>>, t: &'static str)
    ensures
        pending(final(stack)@) == t@ + pending(old(stack)@),
{
    reveal(step_text);
    push_step(stack, Step::Text(t));
}

/// Schedule a string.
fn sched_str<'a>(stack: &mut Vec<Step<'a>>, t: &'a str)
    ensures
        pending(final(stack)@) == jstr(t@) + pending(old(stack)@),
{
    reveal(step_text);
    push_step(stack, Step::Str(t));
}

/// Schedule `true` or `false`.
fn sched_bool<'a>(stack: &mut Vec<Step<'a>>, b: bool)
    ensures
        pending(final(stack)@) == jbool(b) + pending(old(stack)@),
{
    reveal(step_text);
    push_step(stack, Step::Bool(b));
}

/// Schedule a location.
fn sched_location<'a>(stack: &mut Vec<Step<'a>>, l: &'a Location<'a>)
    ensures
        pending(final(stack)@) == jloc(*l) + pending(old(stack)@),
{
    reveal(step_text);
    push_step(stack, Step::Location(l));
}

/// Schedule a value.
fn sched_value<'a>(stack: &mut Vec<Step<'a>>, v: &'a Value)
    ensures
        pending(final(stack)@) == jvalue(v.deep()) + pending(old(stack)@),
{
    reveal(step_text);
    push_step(stack, Step::Value(v));
}

/// Schedule a renderable node.
fn sched_renderable<'a>(stack: &mut Vec<Step<'a>>, r: &'a RenderableTreeNode)
    ensures
        pending(final(stack)@) == jrend(*r) + pending(old(stack)@),
{
    reveal(step_text);
    push_step(stack, Step::Renderable(r));
}

/// Schedule a scalar.
fn sched_scalar<'a>(stack: &mut Vec<Step<'a>>, v: &'a Scalar)
    ensures
        pending(final(stack)@) == jscalar(*v) + pending(old(stack)@),
{
    reveal(step_text);
    push_step(stack, Step::Scalar(v));
}

/// Schedule a syntax-tree node.
fn sched_node<'a>(stack: &mut Vec<Step<'a>>, n: &'a Node<'a>)
    ensures
        pending(final(stack)@) == jnode(*n) + pending(old(stack)@),
{
    reveal(step_text);
    push_step(stack, Step::Node(n));
}

/// `,` before the join of `texts` from `j` on, when `j` is not the first.
spec fn joined_from(texts: Seq<Seq<char>>, j: int) -> Seq<char> {
    (if 0 < j < texts.len() {
        seq![',']
    } else {
        Seq::empty()
    }) + join(texts.skip(j), seq![','])
}

proof fn lemma_join_front(texts: Seq<Seq<char>>)
    requires
        texts.len() >= 1,
    ensures
        join(texts, seq![',']) == texts[0] + if texts.len() > 1 {
            seq![','] + join(texts.drop_first(), seq![','])
        } else {
            Seq::empty()
        },
    decreases texts.len(),
{
    let sep = seq![','];
    if texts.len() > 2 {
        lemma_join_front(texts.drop_last());
        assert(texts.drop_last().drop_first() =~= texts.drop_first().drop_last());
        assert(texts.drop_last()[0] == texts[0]);
        assert(texts.drop_first().last() == texts.last());
        assert(join(texts.drop_first(), sep) == join(texts.drop_first().drop_last(), sep) + sep
            + texts.drop_first().last());
        assert(join(texts, sep) == join(texts.drop_last(), sep) + sep + texts.last());
        assert(join(texts, sep) =~= texts[0] + sep + join(texts.drop_first(), sep));
    } else if texts.len() == 2 {
        assert(texts.drop_first().len() == 1);
        assert(texts.drop_last().len() == 1);
        assert(join(texts.drop_last(), sep) == texts.drop_last()[0]);
        assert(join(texts.drop_first(), sep) == texts.drop_first()[0]);
        assert(join(texts, sep) == join(texts.drop_last(), sep) + sep + texts.last());
    }
}

/// Schedule `items`, comma-separated, then `close`: they pop in order.
fn push_seq<'a>(stack: &mut Vec<Step<'a>>, items: Vec<Step<'a>>, close: char)
    ensures
        pending(final(stack)@) == join(step_texts(items@), seq![',']) + seq![close] + pending(
            old(stack)@,
        ),
{
    let ghost texts = step_texts(items@);
    sched_char(stack, close);
    let ghost base = stack@;
    let mut items = items;
    let mut j = items.len();
    assert(texts.skip(j as int) =~= Seq::<Seq<char>>::empty());
    while j > 0
        invariant
            j == items@.len(),
            j <= texts.len(),
            forall|k: int| 0 <= k < j ==> #[trigger] step_text(items@[k]) == texts[k],
            pending(stack@) == joined_from(texts, j as int) + pending(base),
        decreases j,
    {
        let ghost before = stack@;
        let k = j - 1;
        let x = items.pop().unwrap();
        assert(step_text(x) == texts[k as int]);
        push_step(stack, x);
        proof {
            let rest = texts.skip(k as int);
            assert(rest[0] == texts[k as int]);
            assert(rest.drop_first() =~= texts.skip(j as int));
            lemma_join_front(rest);
        }
        if k > 0 {
            sched_char(stack, ',');
        }
        assert(pending(stack@) =~= joined_from(texts, k as int) + pending(base));
        j = k;
    }
    assert(texts.skip(0) =~= texts);
}

/// What a writing step promises: everything it owes is written or
/// scheduled, and it either wrote something or scheduled nothing.
spec fn wrote_or_kept<'a>(
    out0: Seq<char>,
    out1: Seq<char>,
    stack0: Seq<Step<'a>>,
    stack1: Seq<Step<'a>>,
    owed: Seq<char>,
) -> bool {
    &&& out1 + pending(stack1) == out0 + owed + pending(stack0)
    &&& (out1.len() > out0.len() || stack1 == stack0)
}

/// One step per value.
fn value_steps<'a>(items: &'a Vec<Value>) -> (xs: Vec<Step<'a>>)
    ensures
        step_texts(xs@) == jvalues(values_view(items@)),
{
    let ghost vv = values_view(items@);
    proof {
        crate::ast::lemma_values_view(items@);
    }
    let mut xs: Vec<Step<'a>> = Vec::new();
    let mut i: usize = 0;
    while i < items.len()
        invariant
            i <= items@.len(),
            vv == values_view(items@),
            vv.len() == items@.len(),
            forall|j: int| 0 <= j < items@.len() ==> #[trigger] vv[j] == items@[j].deep(),
            step_texts(xs@) == Seq::new(i as nat, |j: int| jvalue(vv[j])),
        decreases items.len() - i,
    {
        reveal(step_text);
        push_item(&mut xs, Step::Value(&items[i]));
        assert(vv[i as int] == items@[i as int].deep());
        i = i + 1;
        assert(step_texts(xs@) =~= Seq::new(i as nat, |j: int| jvalue(vv[j])));
    }
    assert(step_texts(xs@) =~= jvalues(vv));
    xs
}

/// One `"key":value` step per entry.
fn value_entry_steps<'a>(entries: &'a Vec<(String, Value)>) -> (xs: Vec<Step<'a>>)
    ensures
        step_texts(xs@) == jentries(entries_view(entries@)),
{
    let ghost ev = entries_view(entries@);
    proof {
        crate::grammar::lemma_entries_view(entries@);
    }
    let mut xs: Vec<Step<'a>> = Vec::new();
    let mut i: usize = 0;
    while i < entries.len()
        invariant
            i <= entries@.len(),
            ev == entries_view(entries@),
            ev.len() == entries@.len(),
            forall|j: int|
                0 <= j < entries@.len() ==> #[trigger] ev[j] == (entries@[j].0@, entries@[j].1.deep()),
            step_texts(xs@) == Seq::new(
                i as nat,
                |j: int| jstr(ev[j].0) + seq![':'] + jvalue(ev[j].1),
            ),
        decreases entries.len() - i,
    {
        reveal(step_text);
        push_item(&mut xs, Step::ValueEntry(entries[i].0.as_str(), &entries[i].1));
        assert(ev[i as int] == (entries@[i as int].0@, entries@[i as int].1.deep()));
        i = i + 1;
        assert(step_texts(xs@) =~= Seq::new(
            i as nat,
            |j: int| jstr(ev[j].0) + seq![':'] + jvalue(ev[j].1),
        ));
    }
    assert(step_texts(xs@) =~= jentries(ev));
    xs
}

/// One step per path segment.
fn segment_steps<'a>(path: &'a Vec<PathSegment>) -> (xs: Vec<Step<'a>>)
    ensures
        step_texts(xs@) == jsegments(path_view(path@)),
{
    let ghost pv = path_view(path@);
    let mut xs: Vec<Step<'a>> = Vec::new();
    let mut i: usize = 0;
    while i < path.len()
        invariant
            i <= path@.len(),
            pv == path_view(path@),
            step_texts(xs@) == Seq::new(i as nat, |j: int| jsegment(pv[j])),
        decreases path.len() - i,
    {
        reveal(step_text);
        match &path[i] {
            PathSegment::Key(k) => push_item(&mut xs, Step::Str(k.as_str())),
            PathSegment::Index(n) => push_item(&mut xs, Step::Num(n.as_str())),
        }
        assert(pv[i as int] == crate::ast::segment_view(path@[i as int]));
        i = i + 1;
        assert(step_texts(xs@) =~= Seq::new(i as nat, |j: int| jsegment(pv[j])));
    }
    assert(step_texts(xs@) =~= jsegments(pv));
    xs
}

/// Write `[` and schedule the items and `]`.
fn expand_array<'a>(out: &mut Vec<char>, stack: &mut Vec<Step<'a>>, items: &'a Vec<Value>)
    ensures
        final(out)@ == old(out)@.push('['),
        final(out)@ + pending(final(stack)@) == old(out)@ + jvalue(
            SpecValue::Array(values_view(items@)),
        ) + pending(old(stack)@),
{
    let ghost out0 = out@;
    let ghost stack0 = stack@;
    out.push('[');
    push_seq(stack, value_steps(items), ']');
    assert(out@ + pending(stack@) =~= out0 + jvalue(SpecValue::Array(values_view(items@)))
        + pending(stack0));
}

/// Write `{` and schedule the entries and `}`.
fn expand_hash<'a>(
    out: &mut Vec<char>,
    stack: &mut Vec<Step<'a>>,
    entries: &'a Vec<(String, Value)>,
)
    ensures
        final(out)@ == old(out)@.push('{'),
        final(out)@ + pending(final(stack)@) == old(out)@ + jvalue(
            SpecValue::Hash(entries_view(entries@)),
        ) + pending(old(stack)@),
{
    let ghost out0 = out@;
    let ghost stack0 = stack@;
    out.push('{');
    push_seq(stack, value_entry_steps(entries), '}');
    assert(out@ + pending(stack@) =~= out0 + jvalue(SpecValue::Hash(entries_view(entries@)))
        + pending(stack0));
}

/// Write `{` and schedule the rest of a function call's object.
fn expand_function<'a>(out: &mut Vec<char>, stack: &mut Vec<Step<'a>>, f: &'a Function)
    ensures
        final(out)@ == old(out)@.push('{'),
        final(out)@ + pending(final(stack)@) == old(out)@ + jvalue(
            SpecValue::Function(f.name@, entries_view(f.parameters.entries@)),
        ) + pending(old(stack)@),
{
    let ghost out0 = out@;
    let ghost stack0 = stack@;
    out.push('{');
    sched_char(stack, '}');
    push_seq(stack, value_entry_steps(&f.parameters.entries), '}');
    sched_char(stack, '{');
    sched_text(stack, ",\"parameters\":");
    sched_str(stack, f.name.as_str());
    sched_text(stack, "\"$$mdtype\":\"Function\",\"name\":");
    assert(out@ + pending(stack@) =~= out0 + jvalue(
        SpecValue::Function(f.name@, entries_view(f.parameters.entries@)),
    ) + pending(stack0));
}

/// Write `{` and schedule the rest of a variable's object.
fn expand_variable<'a>(out: &mut Vec<char>, stack: &mut Vec<Step<'a>>, var: &'a Variable)
    ensures
        final(out)@ == old(out)@.push('{'),
        final(out)@ + pending(final(stack)@) == old(out)@ + jvalue(
            SpecValue::Variable(path_view(var.path@)),
        ) + pending(old(stack)@),
{
    let ghost out0 = out@;
    let ghost stack0 = stack@;
    out.push('{');
    sched_char(stack, '}');
    push_seq(stack, segment_steps(&var.path), ']');
    sched_char(stack, '[');
    sched_text(stack, "\"$$mdtype\":\"Variable\",\"path\":");
    assert(out@ + pending(stack@) =~= out0 + jvalue(SpecValue::Variable(path_view(var.path@)))
        + pending(stack0));
}

/// Write a value, or its first character with the rest scheduled.
fn expand_value<'a>(out: &mut Vec<char>, stack: &mut Vec<Step<'a>>, v: &'a Value)
    ensures
        wrote_or_kept(old(out)@, final(out)@, old(stack)@, final(stack)@, jvalue(v.deep())),
{
    match v {
        Value::Null => push_str(out, "null"),
        Value::Boolean(b) => if *b {
            push_str(out, "true")
        } else {
            push_str(out, "false")
        },
        Value::Number(n) => push_jnum(out, n.as_str()),
        Value::String(t) => push_jstr(out, t.as_str()),
        Value::Array(items) => expand_array(out, stack, items),
        Value::Hash(map) => expand_hash(out, stack, &map.entries),
        Value::Function(f) => expand_function(out, stack, f),
        Value::Variable(var) => expand_variable(out, stack, var),
    }
}

/// One step per scalar.
fn scalar_steps<'a>(items: &'a Vec<Scalar>) -> (xs: Vec<Step<'a>>)
    ensures
        step_texts(xs@) == jscalars(items@),
{
    let mut xs: Vec<Step<'a>> = Vec::new();
    let mut i: usize = 0;
    while i < items.len()
        invariant
            i <= items@.len(),
            step_texts(xs@) == Seq::new(i as nat, |j: int| jscalar(items@[j])),
        decreases items.len() - i,
    {
        reveal(step_text);
        push_item(&mut xs, Step::Scalar(&items[i]));
        i = i + 1;
        assert(step_texts(xs@) =~= Seq::new(i as nat, |j: int| jscalar(items@[j])));
    }
    assert(step_texts(xs@) =~= jscalars(items@));
    xs
}

/// One `"key":scalar` step per entry.
fn scalar_entry_steps<'a>(entries: &'a Vec<(String, Scalar)>) -> (xs: Vec<Step<'a>>)
    ensures
        step_texts(xs@) == jscalar_entries(entries@),
{
    let mut xs: Vec<Step<'a>> = Vec::new();
    let mut i: usize = 0;
    while i < entries.len()
        invariant
            i <= entries@.len(),
            step_texts(xs@) == Seq::new(i as nat, |j: int| jstr(entries@[j].0@) + seq![':'] + jscalar(entries@[j].1)),
        decreases entries.len() - i,
    {
        reveal(step_text);
        push_item(&mut xs, Step::ScalarEntry(entries[i].0.as_str(), &entries[i].1));
        i = i + 1;
        assert(step_texts(xs@) =~= Seq::new(i as nat, |j: int| jstr(entries@[j].0@) + seq![':'] + jscalar(entries@[j].1)));
    }
    assert(step_texts(xs@) =~= jscalar_entries(entries@));
    xs
}

/// One step per renderable node.
fn renderable_steps<'a>(items: &'a Vec<RenderableTreeNode>) -> (xs: Vec<Step<'a>>)
    ensures
        step_texts(xs@) == jrend_list(items@),
{
    let mut xs: Vec<Step<'a>> = Vec::new();
    let mut i: usize = 0;
    while i < items.len()
        invariant
            i <= items@.len(),
            step_texts(xs@) == Seq::new(i as nat, |j: int| jrend(items@[j])),
        decreases items.len() - i,
    {
        reveal(step_text);
        push_item(&mut xs, Step::Renderable(&items[i]));
        i = i + 1;
        assert(step_texts(xs@) =~= Seq::new(i as nat, |j: int| jrend(items@[j])));
    }
    assert(step_texts(xs@) =~= jrend_list(items@));
    xs
}

/// One `"name":subtree` step per tag attribute.
fn renderable_entry_steps<'a>(entries: &'a Vec<(String, RenderableTreeNodes)>) -> (xs: Vec<Step<'a>>)
    ensures
        step_texts(xs@) == jrend_entries(entries@),
{
    let mut xs: Vec<Step<'a>> = Vec::new();
    let mut i: usize = 0;
    while i < entries.len()
        invariant
            i <= entries@.len(),
            step_texts(xs@) == Seq::new(i as nat, |j: int| jstr(entries@[j].0@) + seq![':'] + jrends(entries@[j].1)),
        decreases entries.len() - i,
    {
        reveal(step_text);
        push_item(&mut xs, Step::RenderableEntry(entries[i].0.as_str(), &entries[i].1));
        i = i + 1;
        assert(step_texts(xs@) =~= Seq::new(i as nat, |j: int| jstr(entries@[j].0@) + seq![':'] + jrends(entries@[j].1)));
    }
    assert(step_texts(xs@) =~= jrend_entries(entries@));
    xs
}

/// One `"name":value` step per node attribute.
fn attribute_steps<'a>(entries: &'a Vec<(String, Value)>) -> (xs: Vec<Step<'a>>)
    ensures
        step_texts(xs@) == jattrs(entries@),
{
    let mut xs: Vec<Step<'a>> = Vec::new();
    let mut i: usize = 0;
    while i < entries.len()
        invariant
            i <= entries@.len(),
            step_texts(xs@) == Seq::new(i as nat, |j: int| jstr(entries@[j].0@) + seq![':'] + jvalue(entries@[j].1.deep())),
        decreases entries.len() - i,
    {
        reveal(step_text);
        push_item(&mut xs, Step::ValueEntry(entries[i].0.as_str(), &entries[i].1));
        i = i + 1;
        assert(step_texts(xs@) =~= Seq::new(i as nat, |j: int| jstr(entries@[j].0@) + seq![':'] + jvalue(entries@[j].1.deep())));
    }
    assert(step_texts(xs@) =~= jattrs(entries@));
    xs
}

/// One step per child node.
fn node_steps<'a>(items: &'a Vec<Node<'a>>) -> (xs: Vec<Step<'a>>)
    ensures
        step_texts(xs@) == jnodes(items@),
{
    let mut xs: Vec<Step<'a>> = Vec::new();
    let mut i: usize = 0;
    while i < items.len()
        invariant
            i <= items@.len(),
            step_texts(xs@) == Seq::new(i as nat, |j: int| jnode(items@[j])),
        decreases items.len() - i,
    {
        reveal(step_text);
        push_item(&mut xs, Step::Node(&items[i]));
        i = i + 1;
        assert(step_texts(xs@) =~= Seq::new(i as nat, |j: int| jnode(items@[j])));
    }
    assert(step_texts(xs@) =~= jnodes(items@));
    xs
}

/// One `"name":node` step per slot.
fn slot_steps<'a>(entries: &'a Vec<(String, Node<'a>)>) -> (xs: Vec<Step<'a>>)
    ensures
        step_texts(xs@) == jslots(entries@),
{
    let mut xs: Vec<Step<'a>> = Vec::new();
    let mut i: usize = 0;
    while i < entries.len()
        invariant
            i <= entries@.len(),
            step_texts(xs@) == Seq::new(i as nat, |j: int| jstr(entries@[j].0@) + seq![':'] + jnode(entries@[j].1)),
        decreases entries.len() - i,
    {
        reveal(step_text);
        push_item(&mut xs, Step::SlotEntry(entries[i].0.as_str(), &entries[i].1));
        i = i + 1;
        assert(step_texts(xs@) =~= Seq::new(i as nat, |j: int| jstr(entries@[j].0@) + seq![':'] + jnode(entries@[j].1)));
    }
    assert(step_texts(xs@) =~= jslots(entries@));
    xs
}

/// One step per line number.
fn line_steps<'a>(lines: &'a Vec<usize>) -> (xs: Vec<Step<'a>>)
    ensures
        step_texts(xs@) == jlines(lines@),
{
    let mut xs: Vec<Step<'a>> = Vec::new();
    let mut i: usize = 0;
    while i < lines.len()
        invariant
            i <= lines@.len(),
            step_texts(xs@) == Seq::new(i as nat, |j: int| decimal(lines@[j] as nat)),
        decreases lines.len() - i,
    {
        reveal(step_text);
        push_item(&mut xs, Step::Count(lines[i]));
        i = i + 1;
        assert(step_texts(xs@) =~= Seq::new(i as nat, |j: int| decimal(lines@[j] as nat)));
    }
    assert(step_texts(xs@) =~= jlines(lines@));
    xs
}

/// One step per annotation.
fn annotation_steps<'a>(items: &'a Vec<Attribute>) -> (xs: Vec<Step<'a>>)
    ensures
        step_texts(xs@) == janns(items@),
{
    let mut xs: Vec<Step<'a>> = Vec::new();
    let mut i: usize = 0;
    while i < items.len()
        invariant
            i <= items@.len(),
            step_texts(xs@) == Seq::new(i as nat, |j: int| jann(items@[j])),
        decreases items.len() - i,
    {
        reveal(step_text);
        push_item(&mut xs, Step::Annotation(&items[i]));
        i = i + 1;
        assert(step_texts(xs@) =~= Seq::new(i as nat, |j: int| jann(items@[j])));
    }
    assert(step_texts(xs@) =~= janns(items@));
    xs
}

/// One step per validation error.
fn error_steps<'a>(items: &'a Vec<ValidationError<'a>>) -> (xs: Vec<Step<'a>>)
    ensures
        step_texts(xs@) == jerrs(items@),
{
    let mut xs: Vec<Step<'a>> = Vec::new();
    let mut i: usize = 0;
    while i < items.len()
        invariant
            i <= items@.len(),
            step_texts(xs@) == Seq::new(i as nat, |j: int| jerr(items@[j])),
        decreases items.len() - i,
    {
        reveal(step_text);
        push_item(&mut xs, Step::Error(&items[i]));
        i = i + 1;
        assert(step_texts(xs@) =~= Seq::new(i as nat, |j: int| jerr(items@[j])));
    }
    assert(step_texts(xs@) =~= jerrs(items@));
    xs
}

/// Write a scalar, or its first character with the rest scheduled.
fn expand_scalar<'a>(out: &mut Vec<char>, stack: &mut Vec<Step<'a>>, v: &'a Scalar)
    ensures
        wrote_or_kept(old(out)@, final(out)@, old(stack)@, final(stack)@, jscalar(*v)),
{
    let ghost out0 = out@;
    let ghost stack0 = stack@;
    match v {
        Scalar::Null => push_str(out, "null"),
        Scalar::Boolean(b) => if *b {
            push_str(out, "true")
        } else {
            push_str(out, "false")
        },
        Scalar::Number(n) => push_jnum(out, n.as_str()),
        Scalar::String(t) => push_jstr(out, t.as_str()),
        Scalar::Array(items) => {
            out.push('[');
            push_seq(stack, scalar_steps(items), ']');
            assert(out@ + pending(stack@) =~= out0 + jscalar(*v) + pending(stack0));
        },
        Scalar::Object(map) => {
            out.push('{');
            push_seq(stack, scalar_entry_steps(&map.entries), '}');
            assert(out@ + pending(stack@) =~= out0 + jscalar(*v) + pending(stack0));
        },
    }
}

/// Schedule `,"children":[..]}`.
fn schedule_children<'a>(stack: &mut Vec<Step<'a>>, children: &'a Vec<RenderableTreeNode>)
    ensures
        pending(final(stack)@) == ",\"children\":"@ + jarr(jrend_list(children@)) + seq!['}']
            + pending(old(stack)@),
{
    let ghost p0 = pending(stack@);
    sched_char(stack, '}');
    push_seq(stack, renderable_steps(children), ']');
    sched_char(stack, '[');
    sched_text(stack, ",\"children\":");
    assert(pending(stack@) =~= ",\"children\":"@ + jarr(jrend_list(children@)) + seq!['}'] + p0);
}

/// Schedule `"$$mdtype":"Tag","name":..,"attributes":{..}`.
fn schedule_tag_head<'a>(
    stack: &mut Vec<Step<'a>>,
    name: &'a str,
    entries: &'a Vec<(String, RenderableTreeNodes)>,
)
    ensures
        pending(final(stack)@) == "\"$$mdtype\":\"Tag\",\"name\":"@ + jstr(name@)
            + ",\"attributes\":"@ + jobj(jrend_entries(entries@)) + pending(old(stack)@),
{
    let ghost p0 = pending(stack@);
    push_seq(stack, renderable_entry_steps(entries), '}');
    sched_char(stack, '{');
    sched_text(stack, ",\"attributes\":");
    sched_str(stack, name);
    sched_text(stack, "\"$$mdtype\":\"Tag\",\"name\":");
    assert(pending(stack@) =~= "\"$$mdtype\":\"Tag\",\"name\":"@ + jstr(name@)
        + ",\"attributes\":"@ + jobj(jrend_entries(entries@)) + p0);
}

/// Write `{` and schedule the rest of a tag's object.
fn expand_tag<'a>(out: &mut Vec<char>, stack: &mut Vec<Step<'a>>, t: &'a Tag)
    ensures
        final(out)@ == old(out)@.push('{'),
        final(out)@ + pending(final(stack)@) == old(out)@ + jtag(*t) + pending(old(stack)@),
{
    let ghost out0 = out@;
    let ghost p0 = pending(stack@);
    out.push('{');
    schedule_children(stack, &t.children);
    schedule_tag_head(stack, t.name.as_str(), &t.attributes.entries);
    assert(out@ + pending(stack@) =~= out0 + jtag(*t) + p0);
}

/// Write a renderable node, or its first character with the rest scheduled.
fn expand_renderable<'a>(
    out: &mut Vec<char>,
    stack: &mut Vec<Step<'a>>,
    r: &'a RenderableTreeNode,
)
    ensures
        wrote_or_kept(old(out)@, final(out)@, old(stack)@, final(stack)@, jrend(*r)),
{
    match r {
        RenderableTreeNode::Scalar(v) => expand_scalar(out, stack, v),
        RenderableTreeNode::Tag(t) => expand_tag(out, stack, t),
    }
}

/// Write `"name":` and schedule an attribute's subtree.
fn expand_renderable_entry<'a>(
    out: &mut Vec<char>,
    stack: &mut Vec<Step<'a>>,
    k: &'a str,
    r: &'a RenderableTreeNodes,
)
    ensures
        final(out)@.len() > old(out)@.len(),
        final(out)@ + pending(final(stack)@) == old(out)@ + (jstr(k@) + seq![':'] + jrends(*r))
            + pending(old(stack)@),
{
    let ghost out0 = out@;
    let ghost stack0 = stack@;
    push_jstr(out, k);
    out.push(':');
    match r {
        RenderableTreeNodes::One(n) => sched_renderable(stack, n),
        RenderableTreeNodes::Many(list) => {
            push_seq(stack, renderable_steps(list), ']');
            sched_char(stack, '[');
        },
    }
    assert(out@ + pending(stack@) =~= out0 + (jstr(k@) + seq![':'] + jrends(*r)) + pending(
        stack0,
    ));
}

/// Write `{` and schedule the rest of an annotation's object.
fn expand_annotation<'a>(out: &mut Vec<char>, stack: &mut Vec<Step<'a>>, a: &'a Attribute)
    ensures
        final(out)@.len() > old(out)@.len(),
        final(out)@ + pending(final(stack)@) == old(out)@ + jann(*a) + pending(old(stack)@),
{
    let ghost out0 = out@;
    let ghost stack0 = stack@;
    out.push('{');
    match a {
        Attribute::Attribute { name, value } => {
            sched_char(stack, '}');
            sched_value(stack, value);
            sched_text(stack, ",\"value\":");
            sched_str(stack, name.as_str());
            sched_text(stack, "\"type\":\"attribute\",\"name\":");
        },
        Attribute::Class { name } => {
            push_str(out, "\"type\":\"class\",\"name\":");
            push_jstr(out, name.as_str());
            push_str(out, ",\"value\":true}");
        },
    }
    assert(out@ + pending(stack@) =~= out0 + jann(*a) + pending(stack0));
}

/// Schedule `,"annotations":[..],"errors":[..]}`.
fn schedule_node_notes<'a>(stack: &mut Vec<Step<'a>>, n: &'a Node<'a>)
    ensures
        pending(final(stack)@) == node_notes(*n) + pending(old(stack)@),
{
    let ghost p0 = pending(stack@);
    sched_char(stack, '}');
    push_seq(stack, error_steps(&n.errors), ']');
    sched_char(stack, '[');
    sched_text(stack, ",\"errors\":");
    push_seq(stack, annotation_steps(&n.annotations), ']');
    sched_char(stack, '[');
    sched_text(stack, ",\"annotations\":");
    assert(pending(stack@) =~= node_notes(*n) + p0);
}

/// Schedule `,"lines":[..],"location":..,"inline":..`.
fn schedule_node_place<'a>(stack: &mut Vec<Step<'a>>, n: &'a Node<'a>)
    ensures
        pending(final(stack)@) == node_place(*n) + pending(old(stack)@),
{
    let ghost p0 = pending(stack@);
    sched_bool(stack, n.inline);
    sched_text(stack, ",\"inline\":");
    match &n.location {
        Some(l) => sched_location(stack, l),
        None => sched_text(stack, "null"),
    }
    sched_text(stack, ",\"location\":");
    push_seq(stack, line_steps(&n.lines), ']');
    sched_char(stack, '[');
    sched_text(stack, ",\"lines\":");
    assert(pending(stack@) =~= node_place(*n) + p0);
}

/// Schedule `,"children":[..]`.
fn schedule_node_children<'a>(stack: &mut Vec<Step<'a>>, children: &'a Vec<Node<'a>>)
    ensures
        pending(final(stack)@) == ",\"children\":"@ + jarr(jnodes(children@)) + pending(
            old(stack)@,
        ),
{
    let ghost p0 = pending(stack@);
    let xs = node_steps(children);
    push_seq(stack, xs, ']');
    sched_char(stack, '[');
    sched_text(stack, ",\"children\":");
    assert(pending(stack@) =~= ",\"children\":"@ + jarr(jnodes(children@)) + p0);
}

/// Schedule `,"slots":{..}`.
fn schedule_node_slots<'a>(stack: &mut Vec<Step<'a>>, entries: &'a Vec<(String, Node<'a>)>)
    ensures
        pending(final(stack)@) == ",\"slots\":"@ + jobj(jslots(entries@)) + pending(old(stack)@),
{
    let ghost p0 = pending(stack@);
    push_seq(stack, slot_steps(entries), '}');
    sched_char(stack, '{');
    sched_text(stack, ",\"slots\":");
    assert(pending(stack@) =~= ",\"slots\":"@ + jobj(jslots(entries@)) + p0);
}

/// Schedule `,"children":[..],"slots":{..}`.
fn schedule_node_subtrees<'a>(stack: &mut Vec<Step<'a>>, n: &'a Node<'a>)
    ensures
        pending(final(stack)@) == node_subtrees(*n) + pending(old(stack)@),
{
    let ghost p0 = pending(stack@);
    schedule_node_slots(stack, &n.slots.entries);
    schedule_node_children(stack, &n.children);
    assert(pending(stack@) =~= node_subtrees(*n) + p0);
}

/// Schedule `"$$mdtype":"Node","type":..,"tag":..,"attributes":{..}`.
fn schedule_node_head<'a>(stack: &mut Vec<Step<'a>>, n: &'a Node<'a>)
    ensures
        pending(final(stack)@) == node_head(*n) + pending(old(stack)@),
{
    let ghost p0 = pending(stack@);
    push_seq(stack, attribute_steps(&n.attributes.entries), '}');
    sched_char(stack, '{');
    sched_text(stack, ",\"attributes\":");
    match &n.tag {
        Some(t) => sched_str(stack, t.as_str()),
        None => sched_text(stack, "null"),
    }
    sched_text(stack, ",\"tag\":");
    sched_str(stack, n.node_type.as_str());
    sched_text(stack, "\"$$mdtype\":\"Node\",\"type\":");
    assert(pending(stack@) =~= node_head(*n) + p0);
}

/// Regrouping an opening brace written ahead of four scheduled parts.
proof fn lemma_regroup(
    o: Seq<char>,
    a: Seq<char>,
    b: Seq<char>,
    c: Seq<char>,
    d: Seq<char>,
    p: Seq<char>,
)
    ensures
        o.push('{') + (a + (b + (c + (d + p)))) == o + (seq!['{'] + a + b + c + d) + p,
{
    assert(o.push('{') + (a + (b + (c + (d + p)))) =~= o + (seq!['{'] + a + b + c + d) + p);
}

/// Write `{` and schedule the rest of a node's object.
fn expand_node<'a>(out: &mut Vec<char>, stack: &mut Vec<Step<'a>>, n: &'a Node<'a>)
    ensures
        final(out)@ == old(out)@.push('{'),
        final(out)@ + pending(final(stack)@) == old(out)@ + jnode(*n) + pending(old(stack)@),
{
    let ghost out0 = out@;
    let ghost p0 = pending(stack@);
    out.push('{');
    schedule_node_notes(stack, n);
    schedule_node_place(stack, n);
    schedule_node_subtrees(stack, n);
    schedule_node_head(stack, n);
    proof {
        lemma_regroup(out0, node_head(*n), node_subtrees(*n), node_place(*n), node_notes(*n), p0);
    }
}

/// Whether a step is written whole, scheduling nothing.
spec fn is_leaf<'a>(st: Step<'a>) -> bool {
    ||| st is Char
    ||| st is Text
    ||| st is Str
    ||| st is Num
    ||| st is Count
    ||| st is Bool
    ||| st is Location
    ||| st is Error
}

/// Write a step that schedules nothing.
fn write_leaf<'a>(out: &mut Vec<char>, st: Step<'a>)
    requires
        is_leaf(st),
    ensures
        final(out)@ == old(out)@ + step_text(st),
{
    reveal(step_text);
    let ghost out0 = out@;
    match st {
        Step::Char(c) => {
            out.push(c);
            assert(out@ =~= out0 + seq![c]);
        },
        Step::Text(t) => push_str(out, t),
        Step::Str(t) => push_jstr(out, t),
        Step::Num(t) => push_jnum(out, t),
        Step::Count(n) => push_decimal(out, n as u64),
        Step::Bool(b) => if b {
            push_str(out, "true")
        } else {
            push_str(out, "false")
        },
        Step::Location(l) => push_loc(out, l),
        Step::Error(e) => push_err(out, e),
        _ => {},
    }
}

/// What each kind of step that schedules writes.
proof fn lemma_step_text<'a>(st: Step<'a>)
    ensures
        st matches Step::ValueEntry(k, v) ==> step_text(st) == jstr(k@) + seq![':'] + jvalue(
            v.deep(),
        ),
        st matches Step::ScalarEntry(k, v) ==> step_text(st) == jstr(k@) + seq![':'] + jscalar(
            *v,
        ),
        st matches Step::SlotEntry(k, n) ==> step_text(st) == jstr(k@) + seq![':'] + jnode(*n),
        st matches Step::RenderableEntry(k, r) ==> step_text(st) == jstr(k@) + seq![':']
            + jrends(*r),
        st matches Step::Value(v) ==> step_text(st) == jvalue(v.deep()),
        st matches Step::Scalar(v) ==> step_text(st) == jscalar(*v),
        st matches Step::Node(n) ==> step_text(st) == jnode(*n),
        st matches Step::Renderable(r) ==> step_text(st) == jrend(*r),
        st matches Step::Annotation(a) ==> step_text(st) == jann(*a),
{
    reveal(step_text);
}

/// Write `"key":value` for a value entry, the value scheduled.
fn write_value_entry<'a>(out: &mut Vec<char>, stack: &mut Vec<Step<'a>>, k: &'a str, v: &'a Value)
    ensures
        final(out)@.len() > old(out)@.len(),
        final(out)@ + pending(final(stack)@) == old(out)@ + (jstr(k@) + seq![':'] + jvalue(
            v.deep(),
        )) + pending(old(stack)@),
{
    let ghost out0 = out@;
    let ghost p0 = pending(stack@);
    push_jstr(out, k);
    out.push(':');
    sched_value(stack, v);
    assert(out@ + pending(stack@) =~= out0 + (jstr(k@) + seq![':'] + jvalue(v.deep())) + p0);
}

/// Write `"key":` for a scalar entry, the scalar scheduled.
fn write_scalar_entry<'a>(
    out: &mut Vec<char>,
    stack: &mut Vec<Step<'a>>,
    k: &'a str,
    v: &'a Scalar,
)
    ensures
        final(out)@.len() > old(out)@.len(),
        final(out)@ + pending(final(stack)@) == old(out)@ + (jstr(k@) + seq![':'] + jscalar(*v))
            + pending(old(stack)@),
{
    let ghost out0 = out@;
    let ghost p0 = pending(stack@);
    push_jstr(out, k);
    out.push(':');
    sched_scalar(stack, v);
    assert(out@ + pending(stack@) =~= out0 + (jstr(k@) + seq![':'] + jscalar(*v)) + p0);
}

/// Write `"name":` for a slot, the node scheduled.
fn write_slot_entry<'a>(
    out: &mut Vec<char>,
    stack: &mut Vec<Step<'a>>,
    k: &'a str,
    n: &'a Node<'a>,
)
    ensures
        final(out)@.len() > old(out)@.len(),
        final(out)@ + pending(final(stack)@) == old(out)@ + (jstr(k@) + seq![':'] + jnode(*n))
            + pending(old(stack)@),
{
    let ghost out0 = out@;
    let ghost p0 = pending(stack@);
    push_jstr(out, k);
    out.push(':');
    sched_node(stack, n);
    assert(out@ + pending(stack@) =~= out0 + (jstr(k@) + seq![':'] + jnode(*n)) + p0);
}

/// Write one step: what it writes at once, and the rest scheduled.
fn write_step<'a>(out: &mut Vec<char>, stack: &mut Vec<Step<'a>>, st: Step<'a>)
    ensures
        wrote_or_kept(old(out)@, final(out)@, old(stack)@, final(stack)@, step_text(st)),
{
    if is_leaf_step(&st) {
        write_leaf(out, st);
    } else {
        proof {
            lemma_step_text(st);
        }
        match st {
            Step::ValueEntry(k, v) => write_value_entry(out, stack, k, v),
            Step::ScalarEntry(k, v) => write_scalar_entry(out, stack, k, v),
            Step::SlotEntry(k, n) => write_slot_entry(out, stack, k, n),
            Step::Value(v) => expand_value(out, stack, v),
            Step::Scalar(v) => expand_scalar(out, stack, v),
            Step::Node(n) => expand_node(out, stack, n),
            Step::Renderable(r) => expand_renderable(out, stack, r),
            Step::RenderableEntry(k, r) => expand_renderable_entry(out, stack, k, r),
            Step::Annotation(a) => expand_annotation(out, stack, a),
            _ => {},
        }
    }
}

/// Whether a step is written whole.
fn is_leaf_step<'a>(st: &Step<'a>) -> (b: bool)
    ensures
        b == is_leaf(*st),
{
    match st {
        Step::Char(_) | Step::Text(_) | Step::Str(_) | Step::Num(_) | Step::Count(_)
        | Step::Bool(_) | Step::Location(_) | Step::Error(_) => true,
        _ => false,
    }
}

/// Drain the worklist into `out`, last step first.
fn run<'a>(out: &mut Vec<char>, stack: Vec<Step<'a>>)
    ensures
        final(out)@ == old(out)@ + pending(stack@),
{
    let ghost target = out@ + pending(stack@);
    let mut stack = stack;
    while stack.len() > 0
        invariant
            out@ + pending(stack@) == target,
        decreases pending(stack@).len(), stack@.len(),
    {
        let ghost out0 = out@;
        let ghost before = stack@;
        let st = stack.pop().unwrap();
        assert(before.drop_last() =~= stack@);
        let ghost popped = stack@;
        write_step(out, &mut stack, st);
        assert(pending(before) == step_text(st) + pending(popped));
        assert(out@ + pending(stack@) =~= target);
    }
    assert(pending(stack@) =~= Seq::<char>::empty());
}

/// Append a syntax tree as JSON.
pub fn node<'a>(out: &mut String, root: &'a Node<'a>)
    ensures
        final(out)@ == old(out)@ + jnode(*root),
{
    let mut chars = chars_of(out.as_str());
    let mut stack: Vec<Step<'a>> = Vec::new();
    sched_node(&mut stack, root);
    assert(pending(Seq::<Step<'a>>::empty()) =~= Seq::<char>::empty());
    run(&mut chars, stack);
    *out = string_of(&chars);
}

/// Append a renderable tree's nodes as one JSON array.
pub fn renderable<'a>(out: &mut String, nodes: &'a [RenderableTreeNode])
    ensures
        final(out)@ == old(out)@ + jarr(jrend_list(nodes@)),
{
    let mut chars = chars_of(out.as_str());
    let mut xs: Vec<Step<'a>> = Vec::new();
    let mut i: usize = 0;
    while i < nodes.len()
        invariant
            i <= nodes@.len(),
            step_texts(xs@) == Seq::new(i as nat, |j: int| jrend(nodes@[j])),
        decreases nodes.len() - i,
    {
        reveal(step_text);
        push_item(&mut xs, Step::Renderable(&nodes[i]));
        i = i + 1;
        assert(step_texts(xs@) =~= Seq::new(i as nat, |j: int| jrend(nodes@[j])));
    }
    assert(step_texts(xs@) =~= jrend_list(nodes@));
    let mut stack: Vec<Step<'a>> = Vec::new();
    push_seq(&mut stack, xs, ']');
    sched_char(&mut stack, '[');
    assert(pending(Seq::<Step<'a>>::empty()) =~= Seq::<char>::empty());
    assert(pending(stack@) =~= jarr(jrend_list(nodes@)));
    run(&mut chars, stack);
    *out = string_of(&chars);
}

} // verus!
