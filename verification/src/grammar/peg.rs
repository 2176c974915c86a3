//! The tag grammar, as a specification.
//!
//! Markdoc's tag grammar, one spec function per production, over the body's
//! characters and a position. Each returns what the production matches there
//! and where the match ends, or `None`. Ordered choice is written as the order
//! of the tests: the first alternative that matches wins.

use vstd::prelude::*;

use crate::ast::{SpecSegment, SpecValue, canonical_number, spec_truthy};
use crate::grammar::{SpecAttribute, SpecTagItem};
use crate::text::decimal;

verus! {

/// The deepest a value may nest before the parser gives up.
pub const MAX_VALUE_DEPTH: usize = 64;

/// Markdoc's `_`: a space, a newline or a tab.
pub open spec fn is_ws(c: char) -> bool {
    c == ' ' || c == '\n' || c == '\t'
}

/// Markdoc's `Identifier` class, `[a-zA-Z0-9_-]`.
pub open spec fn is_ident_char(c: char) -> bool {
    ('a' <= c && c <= 'z') || ('A' <= c && c <= 'Z') || ('0' <= c && c <= '9') || c == '_' || c
        == '-'
}

/// An ASCII digit.
pub open spec fn is_digit(c: char) -> bool {
    '0' <= c && c <= '9'
}

/// Whether `s[p]` exists and is `c`.
pub open spec fn char_at(s: Seq<char>, p: int, c: char) -> bool {
    0 <= p < s.len() && s[p] == c
}

/// The end of the run of whitespace at `p`.
pub open spec fn ws_end(s: Seq<char>, p: int) -> int
    decreases s.len() - p,
{
    if 0 <= p < s.len() && is_ws(s[p]) {
        ws_end(s, p + 1)
    } else {
        p
    }
}

/// The end of the run of identifier characters at `p`.
pub open spec fn ident_end(s: Seq<char>, p: int) -> int
    decreases s.len() - p,
{
    if 0 <= p < s.len() && is_ident_char(s[p]) {
        ident_end(s, p + 1)
    } else {
        p
    }
}

/// The end of the run of digits at `p`.
pub open spec fn digits_end(s: Seq<char>, p: int) -> int
    decreases s.len() - p,
{
    if 0 <= p < s.len() && is_digit(s[p]) {
        digits_end(s, p + 1)
    } else {
        p
    }
}

/// Runs end at or after where they start, and within the text.
pub proof fn lemma_run_ends(s: Seq<char>, p: int)
    requires
        0 <= p <= s.len(),
    ensures
        p <= ws_end(s, p) <= s.len(),
        p <= ident_end(s, p) <= s.len(),
        p <= digits_end(s, p) <= s.len(),
        forall|i: int| p <= i < ident_end(s, p) ==> is_ident_char(#[trigger] s[i]),
        forall|i: int| p <= i < digits_end(s, p) ==> is_digit(#[trigger] s[i]),
    decreases s.len() - p,
{
    if p < s.len() {
        lemma_run_ends(s, p + 1);
    }
}

/// `Identifier`: one or more identifier characters.
pub open spec fn identifier(s: Seq<char>, p: int) -> Option<(Seq<char>, int)> {
    let e = ident_end(s, p);
    if e > p {
        Some((s.subrange(p, e), e))
    } else {
        None
    }
}

/// What a backslash escape inside a string stands for.
pub open spec fn unescaped(c: char) -> Option<char> {
    if c == '"' {
        Some('"')
    } else if c == '\\' {
        Some('\\')
    } else if c == 'n' {
        Some('\n')
    } else if c == 'r' {
        Some('\r')
    } else if c == 't' {
        Some('\t')
    } else {
        None
    }
}

/// `ValueStringChars*`: the unescaped content from `p`, and where it stops.
pub open spec fn string_chars(s: Seq<char>, p: int) -> (Seq<char>, int)
    decreases s.len() - p,
{
    if p < 0 || p >= s.len() {
        (Seq::empty(), p)
    } else if s[p] == '\\' {
        if p + 1 < s.len() && unescaped(s[p + 1]) is Some {
            let (rest, e) = string_chars(s, p + 2);
            (seq![unescaped(s[p + 1])->0] + rest, e)
        } else {
            (Seq::empty(), p)
        }
    } else if s[p] == '"' || (s[p] as u32) <= 0x1f {
        (Seq::empty(), p)
    } else {
        let (rest, e) = string_chars(s, p + 1);
        (seq![s[p]] + rest, e)
    }
}

/// String content ends at or after where it starts, within the text.
pub proof fn lemma_string_chars(s: Seq<char>, p: int)
    requires
        0 <= p <= s.len(),
    ensures
        p <= string_chars(s, p).1 <= s.len(),
    decreases s.len() - p,
{
    if p < s.len() {
        if s[p] == '\\' {
            if p + 1 < s.len() && unescaped(s[p + 1]) is Some {
                lemma_string_chars(s, p + 2);
            }
        } else if !(s[p] == '"' || (s[p] as u32) <= 0x1f) {
            lemma_string_chars(s, p + 1);
        }
    }
}

/// `ValueString`: a double-quoted string, unescaped.
pub open spec fn string_literal(s: Seq<char>, p: int) -> Option<(Seq<char>, int)> {
    if char_at(s, p, '"') {
        let (text, e) = string_chars(s, p + 1);
        if char_at(s, e, '"') {
            Some((text, e + 1))
        } else {
            None
        }
    } else {
        None
    }
}

/// Where `ValueNumber`, `'-'? [0-9]+ ('.' [0-9]+)?`, ends, or -1.
pub open spec fn number_end(s: Seq<char>, p: int) -> int {
    let q = if char_at(s, p, '-') { p + 1 } else { p };
    let e = digits_end(s, q);
    if !(0 <= q < s.len()) || e == q {
        -1
    } else if char_at(s, e, '.') && digits_end(s, e + 1) > e + 1 {
        digits_end(s, e + 1)
    } else {
        e
    }
}

/// `ValueNumber`.
pub open spec fn number(s: Seq<char>, p: int) -> Option<(Seq<char>, int)> {
    let e = number_end(s, p);
    if e < 0 {
        None
    } else {
        Some((canonical_number(s.subrange(p, e)), e))
    }
}

/// A number ends past where it starts, within the text.
pub proof fn lemma_number_end(s: Seq<char>, p: int)
    requires
        0 <= p <= s.len(),
    ensures
        number_end(s, p) == -1 || p < number_end(s, p) <= s.len(),
{
    let q = if char_at(s, p, '-') { p + 1 } else { p };
    if q <= s.len() {
        lemma_run_ends(s, q);
        let e = digits_end(s, q);
        if e + 1 <= s.len() {
            lemma_run_ends(s, e + 1);
        }
    }
}

/// `null`.
pub open spec fn value_null(s: Seq<char>, p: int) -> Option<(SpecValue, int)> {
    if 0 <= p && p + 4 <= s.len() && s.subrange(p, p + 4) == seq!['n', 'u', 'l', 'l'] {
        Some((SpecValue::Null, p + 4))
    } else {
        None
    }
}

/// `true` or `false`.
pub open spec fn value_boolean(s: Seq<char>, p: int) -> Option<(SpecValue, int)> {
    if 0 <= p && p + 4 <= s.len() && s.subrange(p, p + 4) == seq!['t', 'r', 'u', 'e'] {
        Some((SpecValue::Boolean(true), p + 4))
    } else if 0 <= p && p + 5 <= s.len() && s.subrange(p, p + 5) == seq!['f', 'a', 'l', 's', 'e'] {
        Some((SpecValue::Boolean(false), p + 5))
    } else {
        None
    }
}

/// `VariableTail`: `.name`, `[0]` or `["name"]`.
pub open spec fn variable_tail(s: Seq<char>, p: int) -> Option<(SpecSegment, int)> {
    if char_at(s, p, '.') {
        match identifier(s, p + 1) {
            Some((name, e)) => Some((SpecSegment::Key(name), e)),
            None => None,
        }
    } else if char_at(s, p, '[') {
        let inner = match number(s, p + 1) {
            Some((n, e)) => Some((SpecSegment::Index(n), e)),
            None => match string_literal(s, p + 1) {
                Some((t, e)) => Some((SpecSegment::Key(t), e)),
                None => None,
            },
        };
        match inner {
            Some((segment, e)) => if char_at(s, e, ']') {
                Some((segment, e + 1))
            } else {
                None
            },
            None => None,
        }
    } else {
        None
    }
}

/// A variable tail ends past where it starts, within the text.
pub proof fn lemma_variable_tail(s: Seq<char>, p: int)
    requires
        0 <= p <= s.len(),
    ensures
        variable_tail(s, p) matches Some((_, e)) ==> p < e <= s.len(),
{
    if p + 1 <= s.len() {
        lemma_run_ends(s, p + 1);
        lemma_number_end(s, p + 1);
    }
    if p + 2 <= s.len() {
        lemma_string_chars(s, p + 2);
    }
}

/// `VariableTail*`, accumulated onto `acc`.
pub open spec fn variable_tails(s: Seq<char>, p: int, acc: Seq<SpecSegment>) -> (
    Seq<SpecSegment>,
    int,
)
    decreases s.len() - p,
{
    if 0 <= p <= s.len() {
        match variable_tail(s, p) {
            Some((segment, e)) => {
                proof {
                    lemma_variable_tail(s, p);
                }
                variable_tails(s, e, acc.push(segment))
            },
            None => (acc, p),
        }
    } else {
        (acc, p)
    }
}

/// A path step as the value an `@` path holds.
pub open spec fn step_value(segment: SpecSegment) -> SpecValue {
    match segment {
        SpecSegment::Key(k) => SpecValue::String(k),
        SpecSegment::Index(n) => SpecValue::Number(n),
    }
}

/// `Variable`: `$` or `@`, an identifier, and its tail. A `$` path is a
/// variable; an `@` path is a plain array of its steps.
pub open spec fn variable(s: Seq<char>, p: int) -> Option<(SpecValue, int)> {
    if char_at(s, p, '$') || char_at(s, p, '@') {
        match identifier(s, p + 1) {
            Some((head, q)) => {
                let (path, e) = variable_tails(s, q, seq![SpecSegment::Key(head)]);
                if s[p] == '@' {
                    Some((SpecValue::Array(path.map_values(|g: SpecSegment| step_value(g))), e))
                } else {
                    Some((SpecValue::Variable(path), e))
                }
            },
            None => None,
        }
    } else {
        None
    }
}

/// The index of the entry whose key is `key`, or -1.
pub open spec fn spec_key_index(entries: Seq<(Seq<char>, SpecValue)>, key: Seq<char>) -> int
    decreases entries.len(),
{
    if entries.len() == 0 {
        -1
    } else if entries.last().0 == key {
        entries.len() - 1
    } else {
        spec_key_index(entries.drop_last(), key)
    }
}

/// Set `key` in an ordered map: a present key keeps its place and takes the
/// value, a new one goes last.
pub open spec fn spec_insert(entries: Seq<(Seq<char>, SpecValue)>, key: Seq<char>, value: SpecValue) -> Seq<
    (Seq<char>, SpecValue),
> {
    let i = spec_key_index(entries, key);
    if i >= 0 {
        entries.update(i, (key, value))
    } else {
        entries.push((key, value))
    }
}


/// Setting a key and reading it back gives the value set. A key already
/// present keeps its first position; a new key goes last; every other entry
/// is untouched.
pub proof fn lemma_insert_reads_back(
    entries: Seq<(Seq<char>, SpecValue)>,
    key: Seq<char>,
    value: SpecValue,
)
    ensures
        ({
            let after = spec_insert(entries, key, value);
            let i = spec_key_index(after, key);
            &&& i == if spec_key_index(entries, key) >= 0 {
                spec_key_index(entries, key)
            } else {
                entries.len() as int
            }
            &&& 0 <= i < after.len()
            &&& after[i] == (key, value)
            &&& after.len() == if spec_key_index(entries, key) >= 0 {
                entries.len()
            } else {
                entries.len() + 1
            }
            &&& forall|j: int| 0 <= j < entries.len() && j != i ==> #[trigger] after[j] == entries[j]
        }),
{
    lemma_spec_key_index(entries, key);
    let i = spec_key_index(entries, key);
    let after = spec_insert(entries, key, value);
    if i >= 0 {
        lemma_spec_key_index_after(after, key, i);
    } else {
        assert(after.last().0 == key);
    }
}

/// `spec_key_index` finds the last entry with the key, or says there is none.
pub proof fn lemma_spec_key_index(entries: Seq<(Seq<char>, SpecValue)>, key: Seq<char>)
    ensures
        -1 <= spec_key_index(entries, key) < entries.len(),
        spec_key_index(entries, key) >= 0 ==> entries[spec_key_index(entries, key)].0 == key,
        forall|j: int|
            spec_key_index(entries, key) < j < entries.len() ==> #[trigger] entries[j].0 != key,
    decreases entries.len(),
{
    if entries.len() > 0 {
        lemma_spec_key_index(entries.drop_last(), key);
        assert forall|j: int|
            spec_key_index(entries, key) < j < entries.len() implies #[trigger] entries[j].0 != key by {
            if j < entries.len() - 1 {
                assert(entries[j] == entries.drop_last()[j]);
            }
        }
    }
}

/// An entry with the key, and none after it, is what `spec_key_index` finds.
pub proof fn lemma_spec_key_index_after(entries: Seq<(Seq<char>, SpecValue)>, key: Seq<char>, i: int)
    requires
        0 <= i < entries.len(),
        entries[i].0 == key,
        forall|j: int| i < j < entries.len() ==> #[trigger] entries[j].0 != key,
    ensures
        spec_key_index(entries, key) == i,
    decreases entries.len(),
{
    if entries.len() - 1 > i {
        let t = entries.drop_last();
        assert forall|j: int| i < j < t.len() implies #[trigger] t[j].0 != key by {
            assert(t[j] == entries[j]);
        }
        assert(entries.last().0 != key);
        lemma_spec_key_index_after(t, key, i);
    }
}

/// Insert every item, in order; an item that is `None` (a `$$mdtype` key)
/// inserts nothing.
pub open spec fn insert_items(
    acc: Seq<(Seq<char>, SpecValue)>,
    item: Option<(Seq<char>, SpecValue)>,
) -> Seq<(Seq<char>, SpecValue)> {
    match item {
        Some((k, v)) => spec_insert(acc, k, v),
        None => acc,
    }
}

/// A positional parameter's key, or its name.
pub open spec fn parameter_key(name: Option<Seq<char>>, index: int) -> Seq<char> {
    match name {
        Some(n) => n,
        None => decimal(index as nat),
    }
}

/// Key every parameter from `index` on into `acc`.
pub open spec fn keyed(
    params: Seq<(Option<Seq<char>>, SpecValue)>,
    index: int,
    acc: Seq<(Seq<char>, SpecValue)>,
) -> Seq<(Seq<char>, SpecValue)>
    decreases params.len() - index,
{
    if index < 0 || index >= params.len() {
        acc
    } else {
        keyed(
            params,
            index + 1,
            spec_insert(acc, parameter_key(params[index].0, index), params[index].1),
        )
    }
}

/// The measure under which the value productions recurse.
pub open spec fn depth_left(d: int) -> int {
    if d < MAX_VALUE_DEPTH { MAX_VALUE_DEPTH - d } else { 0 }
}

/// `Value`, at nesting depth `d`.
pub open spec fn value(s: Seq<char>, p: int, d: int) -> Option<(SpecValue, int)>
    decreases depth_left(d), s.len() - p, 0int,
{
    if d >= MAX_VALUE_DEPTH || d < 0 {
        None
    } else {
        value_alternatives(s, p, d + 1)
    }
}

/// The alternatives of `Value`, in the grammar's order.
pub open spec fn value_alternatives(s: Seq<char>, p: int, d: int) -> Option<(SpecValue, int)>
    decreases depth_left(d), s.len() - p, 2int,
{
    if p < 0 || p > s.len() || d < 1 || d > MAX_VALUE_DEPTH {
        None
    } else if value_null(s, p) is Some {
        value_null(s, p)
    } else if value_boolean(s, p) is Some {
        value_boolean(s, p)
    } else if string_literal(s, p) is Some {
        let (text, e) = string_literal(s, p)->0;
        Some((SpecValue::String(text), e))
    } else if number(s, p) is Some {
        let (n, e) = number(s, p)->0;
        Some((SpecValue::Number(n), e))
    } else if value_array(s, p, d) is Some {
        value_array(s, p, d)
    } else if value_hash(s, p, d) is Some {
        value_hash(s, p, d)
    } else if function(s, p, d) is Some {
        function(s, p, d)
    } else {
        variable(s, p)
    }
}

/// `TrailingComma`: `(_* ',')?`.
pub open spec fn trailing_comma(s: Seq<char>, p: int) -> int {
    let t = ws_end(s, p);
    if char_at(s, t, ',') {
        t + 1
    } else {
        p
    }
}

/// `ValueArrayTail*`, accumulated onto `acc`.
pub open spec fn array_tail(s: Seq<char>, p: int, d: int, acc: Seq<SpecValue>) -> (
    Seq<SpecValue>,
    int,
)
    decreases depth_left(d), s.len() - p, 1int,
{
    if p < 0 || p > s.len() {
        (acc, p)
    } else {
        let t = ws_end(s, p);
        proof {
            lemma_run_ends(s, p);
        }
        if char_at(s, t, ',') {
            proof {
                lemma_run_ends(s, t + 1);
            }
            let u = ws_end(s, t + 1);
            match value(s, u, d) {
                Some((v, e)) => if p < e <= s.len() {
                    array_tail(s, e, d, acc.push(v))
                } else {
                    (acc, p)
                },
                None => (acc, p),
            }
        } else {
            (acc, p)
        }
    }
}

/// `ValueArray`.
pub open spec fn value_array(s: Seq<char>, p: int, d: int) -> Option<(SpecValue, int)>
    decreases depth_left(d), s.len() - p, 1int,
{
    if !char_at(s, p, '[') {
        None
    } else {
        proof {
            lemma_run_ends(s, p + 1);
        }
        let q = ws_end(s, p + 1);
        let (items, r) = match value(s, q, d) {
            Some((v, q1)) => if q < q1 <= s.len() {
                let (all, q2) = array_tail(s, q1, d, seq![v]);
                (all, trailing_comma(s, q2))
            } else {
                (Seq::empty(), q)
            },
            None => (Seq::empty(), q),
        };
        let t = ws_end(s, r);
        if char_at(s, t, ']') {
            Some((SpecValue::Array(items), t + 1))
        } else {
            None
        }
    }
}

/// `ValueHashItem`: a key, `:`, and a value. `Some(None)` for a `$$mdtype`
/// key, which parses and is then discarded.
pub open spec fn hash_item(s: Seq<char>, p: int, d: int) -> Option<
    (Option<(Seq<char>, SpecValue)>, int),
>
    decreases depth_left(d), s.len() - p, 1int,
{
    if p < 0 || p > s.len() {
        None
    } else {
        let key = if identifier(s, p) is Some {
            identifier(s, p)
        } else {
            string_literal(s, p)
        };
        match key {
            Some((k, q)) => {
                proof {
                    lemma_run_ends(s, p);
                    lemma_string_chars(s, p + 1);
                }
                if char_at(s, q, ':') && p < q {
                    proof {
                        lemma_run_ends(s, q + 1);
                    }
                    match value(s, ws_end(s, q + 1), d) {
                        Some((v, e)) => if k == "$$mdtype"@ {
                            Some((None, e))
                        } else {
                            Some((Some((k, v)), e))
                        },
                        None => None,
                    }
                } else {
                    None
                }
            },
            None => None,
        }
    }
}

/// `ValueHashTail*`, inserted into `acc`.
pub open spec fn hash_tail(s: Seq<char>, p: int, d: int, acc: Seq<(Seq<char>, SpecValue)>) -> (
    Seq<(Seq<char>, SpecValue)>,
    int,
)
    decreases depth_left(d), s.len() - p, 1int,
{
    if p < 0 || p > s.len() {
        (acc, p)
    } else {
        proof {
            lemma_run_ends(s, p);
        }
        let t = ws_end(s, p);
        if char_at(s, t, ',') {
            proof {
                lemma_run_ends(s, t + 1);
            }
            match hash_item(s, ws_end(s, t + 1), d) {
                Some((item, e)) => if p < e <= s.len() {
                    hash_tail(s, e, d, insert_items(acc, item))
                } else {
                    (acc, p)
                },
                None => (acc, p),
            }
        } else {
            (acc, p)
        }
    }
}

/// `ValueHash`.
pub open spec fn value_hash(s: Seq<char>, p: int, d: int) -> Option<(SpecValue, int)>
    decreases depth_left(d), s.len() - p, 1int,
{
    if !char_at(s, p, '{') {
        None
    } else {
        proof {
            lemma_run_ends(s, p + 1);
        }
        let q = ws_end(s, p + 1);
        let (entries, r) = match hash_item(s, q, d) {
            Some((item, q1)) => if q < q1 <= s.len() {
                let (all, q2) = hash_tail(s, q1, d, insert_items(Seq::empty(), item));
                (all, trailing_comma(s, q2))
            } else {
                (Seq::empty(), q)
            },
            None => (Seq::empty(), q),
        };
        let t = ws_end(s, r);
        if char_at(s, t, '}') {
            Some((SpecValue::Hash(entries), t + 1))
        } else {
            None
        }
    }
}

/// `FunctionParameter`: an optional `name=`, then a value.
pub open spec fn function_parameter(s: Seq<char>, p: int, d: int) -> Option<
    ((Option<Seq<char>>, SpecValue), int),
>
    decreases depth_left(d), s.len() - p, 1int,
{
    if p < 0 || p > s.len() {
        None
    } else {
        let (name, q) = match identifier(s, p) {
            Some((id, e)) => if char_at(s, e, '=') {
                (Some(id), e + 1)
            } else {
                (None, p)
            },
            None => (None, p),
        };
        proof {
            lemma_run_ends(s, p);
        }
        if p <= q <= s.len() {
            match value(s, q, d) {
                Some((v, e)) => Some(((name, v), e)),
                None => None,
            }
        } else {
            None
        }
    }
}

/// `FunctionParameterTail*`, accumulated onto `acc`.
pub open spec fn function_tail(
    s: Seq<char>,
    p: int,
    d: int,
    acc: Seq<(Option<Seq<char>>, SpecValue)>,
) -> (Seq<(Option<Seq<char>>, SpecValue)>, int)
    decreases depth_left(d), s.len() - p, 1int,
{
    if p < 0 || p > s.len() {
        (acc, p)
    } else {
        proof {
            lemma_run_ends(s, p);
        }
        let t = ws_end(s, p);
        if char_at(s, t, ',') {
            proof {
                lemma_run_ends(s, t + 1);
            }
            match function_parameter(s, ws_end(s, t + 1), d) {
                Some((param, e)) => if p < e <= s.len() {
                    function_tail(s, e, d, acc.push(param))
                } else {
                    (acc, p)
                },
                None => (acc, p),
            }
        } else {
            (acc, p)
        }
    }
}

/// `Function`: `name(` parameters `)`. When the first parameter fails but the
/// tail still matches, the call has no parameters.
pub open spec fn function(s: Seq<char>, p: int, d: int) -> Option<(SpecValue, int)>
    decreases depth_left(d), s.len() - p, 1int,
{
    match identifier(s, p) {
        Some((name, q0)) => if char_at(s, q0, '(') && p < q0 {
            proof {
                lemma_run_ends(s, q0 + 1);
            }
            let q = ws_end(s, q0 + 1);
            let (head, h) = match function_parameter(s, q, d) {
                Some((param, e)) => (Some(param), e),
                None => (None, q),
            };
            if q <= h <= s.len() {
                let (params, t) = function_tail(s, h, d, Seq::empty());
                if char_at(s, t, ')') {
                    let parameters = match head {
                        Some(first) => keyed(seq![first] + params, 0, Seq::empty()),
                        None => Seq::empty(),
                    };
                    Some((SpecValue::Function(name, parameters), t + 1))
                } else {
                    None
                }
            } else {
                None
            }
        } else {
            None
        },
        None => None,
    }
}

// ---- the productions above `Value` ----------------------------------------

/// `TagAttributesItem`: `#id`, `.class`, or `name=value`.
pub open spec fn tag_attributes_item(s: Seq<char>, p: int) -> Option<(SpecAttribute, int)> {
    if char_at(s, p, '#') && identifier(s, p + 1) is Some {
        let (name, e) = identifier(s, p + 1)->0;
        Some((SpecAttribute::Attribute("id"@, SpecValue::String(name)), e))
    } else if char_at(s, p, '.') && identifier(s, p + 1) is Some {
        let (name, e) = identifier(s, p + 1)->0;
        Some((SpecAttribute::Class(name), e))
    } else {
        match identifier(s, p) {
            Some((name, q)) => if char_at(s, q, '=') {
                match value(s, q + 1, 0) {
                    Some((v, e)) => Some((SpecAttribute::Attribute(name, v), e)),
                    None => None,
                }
            } else {
                None
            },
            None => None,
        }
    }
}

/// `(_+ TagAttributesItem)*`, accumulated onto `acc`.
pub open spec fn attributes_tail(s: Seq<char>, p: int, acc: Seq<SpecAttribute>) -> (
    Seq<SpecAttribute>,
    int,
)
    decreases s.len() - p,
{
    if p < 0 || p > s.len() {
        (acc, p)
    } else {
        proof {
            lemma_run_ends(s, p);
        }
        let w = ws_end(s, p);
        if w > p {
            match tag_attributes_item(s, w) {
                Some((a, e)) => if p < e <= s.len() {
                    attributes_tail(s, e, acc.push(a))
                } else {
                    (acc, p)
                },
                None => (acc, p),
            }
        } else {
            (acc, p)
        }
    }
}

/// `TagAttributes`: one item, then more separated by whitespace.
pub open spec fn tag_attributes(s: Seq<char>, p: int) -> Option<(Seq<SpecAttribute>, int)> {
    match tag_attributes_item(s, p) {
        Some((a, e)) => Some(attributes_tail(s, e, seq![a])),
        None => None,
    }
}

/// `TopLevelValue`: a variable or a function call.
pub open spec fn top_level_value(s: Seq<char>, p: int) -> Option<(SpecTagItem, int)> {
    match variable(s, p) {
        Some((v, e)) => Some((SpecTagItem::Variable(v), e)),
        None => match function(s, p, 0) {
            Some((v, e)) => Some((SpecTagItem::Variable(v), e)),
            None => None,
        },
    }
}

/// `Annotation`: attributes and trailing whitespace.
pub open spec fn annotation(s: Seq<char>, p: int) -> Option<(SpecTagItem, int)> {
    match tag_attributes(s, p) {
        Some((attributes, e)) => Some((SpecTagItem::Annotation(attributes), ws_end(s, e))),
        None => None,
    }
}

/// `TagOpen`: a name, an optional primary value, attributes, and an optional
/// `/`. A falsy primary value is parsed and dropped.
pub open spec fn tag_open(s: Seq<char>, p: int) -> Option<(SpecTagItem, int)> {
    match identifier(s, p) {
        Some((name, q0)) => {
            let q1 = ws_end(s, q0);
            let (primary, q2) = match value(s, q1, 0) {
                Some((v, e)) => (Some(v), if 0 <= e < s.len() && is_ws(s[e]) {
                    e + 1
                } else {
                    e
                }),
                None => (None, q1),
            };
            let (items, q3) = match tag_attributes(s, q2) {
                Some((items, e)) => (items, e),
                None => (Seq::empty(), q2),
            };
            let q4 = ws_end(s, q3);
            let closing = char_at(s, q4, '/');
            let attributes = match primary {
                Some(v) => if spec_truthy(v) {
                    seq![SpecAttribute::Attribute("primary"@, v)] + items
                } else {
                    items
                },
                None => items,
            };
            Some((SpecTagItem::TagOpen(name, attributes, closing), if closing { q4 + 1 } else { q4 }))
        },
        None => None,
    }
}

/// `TagClose`: `/` and a name.
pub open spec fn tag_close(s: Seq<char>, p: int) -> Option<(SpecTagItem, int)> {
    if char_at(s, p, '/') {
        match identifier(s, p + 1) {
            Some((name, e)) => Some((SpecTagItem::TagClose(name), e)),
            None => None,
        }
    } else {
        None
    }
}

/// `Top`: the first of the four alternatives that matches at the start.
pub open spec fn top(s: Seq<char>) -> Option<(SpecTagItem, int)> {
    if top_level_value(s, 0) is Some {
        top_level_value(s, 0)
    } else if annotation(s, 0) is Some {
        annotation(s, 0)
    } else if tag_open(s, 0) is Some {
        tag_open(s, 0)
    } else {
        tag_close(s, 0)
    }
}

/// What a tag body parses to: the start rule, when it consumes the whole body.
pub open spec fn parses_to(s: Seq<char>) -> Option<SpecTagItem> {
    match top(s) {
        Some((item, e)) => if e == s.len() {
            Some(item)
        } else {
            None
        },
        None => None,
    }
}

} // verus!
