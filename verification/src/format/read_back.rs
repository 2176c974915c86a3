//! What the formatter writes inside a tag, the tag grammar reads back.
//!
//! A value printed as an attribute -- `null`, a boolean, a number in the
//! grammar's own spelling, a string, and arrays and hashes of them -- parses
//! to the value it was printed from, and the parse stops where the printing
//! did. The exceptions are the formatter's, and each precondition below
//! names one: a control character the grammar has no escape for, a hash key
//! written in quotes without escaping, a number spelled with an exponent, a
//! call's parameter names, which the formatter leaves out.

use vstd::prelude::*;

use crate::ast::{SpecSegment, SpecValue, canonical_number};
use crate::text::{decimal, digit_char};
use crate::format::literal::{
    MAX_FORMAT_DEPTH, bool_literal, entries_literal, ident_char, is_identifier_spec, items_literal,
    json_char, json_chars, json_string_spec, key_literal, params_literal, path_literal,
    scalar_spec, segment_literal,
};
use crate::grammar::peg::{
    MAX_VALUE_DEPTH, array_tail, char_at, digits_end, hash_item, hash_tail, ident_end, identifier,
    insert_items, is_digit, is_ident_char, is_ws, lemma_run_ends, lemma_spec_key_index, number,
    number_end, spec_insert, spec_key_index, string_chars, string_literal, trailing_comma,
    unescaped, value, value_alternatives, value_array, value_boolean, value_hash, value_null,
    ws_end, function, function_parameter, function_tail, keyed, parameter_key, variable,
    variable_tail, variable_tails,
};

verus! {

/// Whether the tag grammar reads `c` back from how a string writes it: any
/// character but the controls that have no escape of its own there.
pub open spec fn reads_back(c: char) -> bool {
    (c as u32) >= 0x20 || c == '\n' || c == '\r' || c == '\t'
}

/// Writing a string's characters distributes over a first character.
pub proof fn lemma_json_chars_front(c: char, s: Seq<char>)
    ensures
        json_chars(seq![c] + s) == json_char(c) + json_chars(s),
    decreases s.len(),
{
    if s.len() == 0 {
        assert(seq![c] + s =~= seq![c]);
        assert(seq![c].drop_last() =~= s);
        assert(json_chars(s) == Seq::<char>::empty());
        assert(json_chars(seq![c]) == json_chars(s) + json_char(c));
        assert(json_chars(seq![c]) =~= json_char(c) + json_chars(s));
    } else {
        lemma_json_chars_front(c, s.drop_last());
        assert((seq![c] + s).drop_last() =~= seq![c] + s.drop_last());
        assert(json_chars(seq![c] + s) =~= json_char(c) + json_chars(s));
    }
}

/// The grammar reads a string's written characters back, up to the quote
/// that follows them.
pub proof fn lemma_string_chars_read_back(s: Seq<char>, pre: Seq<char>, post: Seq<char>)
    requires
        forall|i: int| 0 <= i < s.len() ==> reads_back(#[trigger] s[i]),
        post.len() > 0,
        post[0] == '"',
    ensures
        string_chars(pre + json_chars(s) + post, pre.len() as int) == (
            s,
            (pre.len() + json_chars(s).len()) as int,
        ),
    decreases s.len(),
{
    let x = pre + json_chars(s) + post;
    let p = pre.len() as int;
    if s.len() == 0 {
        assert(x[p] == post[0]);
    } else {
        let c = s[0];
        let rest = s.drop_first();
        assert(seq![c] + rest =~= s);
        lemma_json_chars_front(c, rest);
        let pre2 = pre + json_char(c);
        assert(x =~= pre2 + json_chars(rest) + post);
        assert forall|i: int| 0 <= i < rest.len() implies reads_back(#[trigger] rest[i]) by {
            assert(rest[i] == s[i + 1]);
        }
        lemma_string_chars_read_back(rest, pre2, post);
        assert(reads_back(s[0]));
        if c == '"' || c == '\\' || c == '\n' || c == '\r' || c == '\t' {
            assert(x[p] == '\\');
            assert(x[p + 1] == json_char(c)[1]);
            assert(unescaped(x[p + 1]) == Some(c));
        } else {
            assert(json_char(c) == seq![c]);
            assert(x[p] == c);
        }
        assert(seq![c] + rest == s);
    }
}

/// A string attribute reads back as itself: the tag grammar's string
/// literal, run over what the formatter writes for `s` and whatever follows
/// it, gives `s` and stops just past the closing quote -- for every string
/// without a control character other than newline, return and tab, which
/// the formatter escapes in a way the grammar does not read.
pub proof fn lemma_string_round_trip(s: Seq<char>, rest: Seq<char>)
    requires
        forall|i: int| 0 <= i < s.len() ==> reads_back(#[trigger] s[i]),
    ensures
        string_literal(json_string_spec(s) + rest, 0) == Some(
            (s, json_string_spec(s).len() as int),
        ),
{
    let x = json_string_spec(s) + rest;
    let post = seq!['"'] + rest;
    assert(x =~= seq!['"'] + json_chars(s) + post);
    lemma_string_chars_read_back(s, seq!['"'], post);
    assert(x[0] == '"');
    assert(x[1 + json_chars(s).len() as int] == '"');
}


/// Whether `w` is written in `s` at `p`.
pub open spec fn written_at(s: Seq<char>, p: int, w: Seq<char>) -> bool {
    0 <= p && p + w.len() <= s.len() && s.subrange(p, p + w.len()) == w
}

/// Whether a number's digits stop at `i`: the text ends there, or what
/// follows is neither a digit nor a point.
pub open spec fn ends_number(s: Seq<char>, i: int) -> bool {
    i == s.len() || (0 <= i < s.len() && s[i] != '.' && !is_digit(s[i]))
}

/// Whether a value written before `i` stops there: the text ends, or what
/// follows could not continue a number, a name or a variable's path.
pub open spec fn ends_value(s: Seq<char>, i: int) -> bool {
    i == s.len() || (0 <= i < s.len() && s[i] != '.' && s[i] != '[' && !is_ident_char(s[i]))
}

/// A number spelled as the grammar reads one, `-`, digits and an optional
/// fraction, in its canonical spelling.
pub open spec fn number_reads_back(n: Seq<char>) -> bool {
    number_end(n, 0) == n.len() && canonical_number(n) == n
}

/// A character a quoted hash key may hold: the formatter writes a key that
/// is not an identifier between quotes and does not escape it.
pub open spec fn plain_char(c: char) -> bool {
    c != '"' && c != '\\' && (c as u32) >= 0x20
}

/// A hash key the grammar reads back from how the formatter writes it.
pub open spec fn key_reads_back(k: Seq<char>) -> bool {
    &&& k != "$$mdtype"@
    &&& is_identifier_spec(k) || forall|i: int| 0 <= i < k.len() ==> plain_char(#[trigger] k[i])
}

/// No key occurs twice.
pub open spec fn keys_distinct(entries: Seq<(Seq<char>, SpecValue)>) -> bool {
    forall|i: int, j: int|
        0 <= i < j < entries.len() ==> #[trigger] entries[i].0 != #[trigger] entries[j].0
}

/// A step of a variable's path, after the first, that reads back: a name
/// that is an identifier or holds only plain characters, or an index in the
/// grammar's spelling.
pub open spec fn segment_reads_back(seg: SpecSegment) -> bool {
    match seg {
        SpecSegment::Key(k) => is_identifier_spec(k) || forall|i: int|
            0 <= i < k.len() ==> plain_char(#[trigger] k[i]),
        SpecSegment::Index(n) => number_reads_back(n),
    }
}

/// A variable's path that reads back: a first step that is a name written
/// as an identifier, and steps after it that read back.
pub open spec fn path_reads_back(path: Seq<SpecSegment>) -> bool {
    &&& path.len() > 0
    &&& path[0] matches SpecSegment::Key(k) && is_identifier_spec(k)
    &&& forall|i: int| 1 <= i < path.len() ==> segment_reads_back(#[trigger] path[i])
}

/// A function name the grammar reads back where a value starts: an
/// identifier that does not begin like a number or a keyword.
pub open spec fn function_name_reads_back(name: Seq<char>) -> bool {
    &&& is_identifier_spec(name)
    &&& !is_digit(name[0]) && name[0] != '-'
    &&& !(name.len() >= 4 && name.subrange(0, 4) == seq!['n', 'u', 'l', 'l'])
    &&& !(name.len() >= 4 && name.subrange(0, 4) == seq!['t', 'r', 'u', 'e'])
    &&& !(name.len() >= 5 && name.subrange(0, 5) == seq!['f', 'a', 'l', 's', 'e'])
}

/// A function's parameters that read back: the formatter writes the values
/// alone, so each key must be its position, as the grammar numbers them.
pub open spec fn params_read_back(params: Seq<(Seq<char>, SpecValue)>, d: int, fd: nat) -> bool
    decreases params, 0nat,
{
    forall|i: int|
        #![trigger params[i]]
        0 <= i < params.len() ==> params[i].0 == decimal(i as nat) && value_reads_back(
            params[i].1,
            d,
            fd,
        )
}

/// A value the tag grammar reads back from how the formatter writes it,
/// parsed at nesting `d` and printed at nesting `fd`: null, a boolean, a
/// number in the grammar's spelling, a string of characters that read back,
/// a variable whose path reads back, a call whose parameters are positional,
/// and arrays and hashes of them, within both depth limits.
pub open spec fn value_reads_back(v: SpecValue, d: int, fd: nat) -> bool
    decreases v, 1nat,
{
    &&& 0 <= d < MAX_VALUE_DEPTH
    &&& fd < MAX_FORMAT_DEPTH
    &&& match v {
        SpecValue::Null => true,
        SpecValue::Boolean(_) => true,
        SpecValue::Number(n) => number_reads_back(n),
        SpecValue::String(t) => forall|i: int| 0 <= i < t.len() ==> reads_back(#[trigger] t[i]),
        SpecValue::Array(items) => items_read_back(items, d + 1, fd + 1),
        SpecValue::Hash(entries) => entries_read_back(entries, d + 1, fd + 1) && keys_distinct(
            entries,
        ),
        SpecValue::Variable(path) => path_reads_back(path),
        SpecValue::Function(name, params) => function_name_reads_back(name) && params_read_back(
            params,
            d + 1,
            fd + 1,
        ),
    }
}

/// Every item reads back.
pub open spec fn items_read_back(items: Seq<SpecValue>, d: int, fd: nat) -> bool
    decreases items, 0nat,
{
    forall|i: int| 0 <= i < items.len() ==> value_reads_back(#[trigger] items[i], d, fd)
}

/// Every key and every value reads back.
pub open spec fn entries_read_back(entries: Seq<(Seq<char>, SpecValue)>, d: int, fd: nat) -> bool
    decreases entries, 0nat,
{
    forall|i: int|
        #![trigger entries[i]]
        0 <= i < entries.len() ==> key_reads_back(entries[i].0) && value_reads_back(
            entries[i].1,
            d,
            fd,
        )
}

/// A run of digits ends where the digits do.
proof fn lemma_digits_run(s: Seq<char>, q: int, b: int)
    requires
        0 <= q <= b <= s.len(),
        forall|i: int| q <= i < b ==> is_digit(#[trigger] s[i]),
        b == s.len() || !is_digit(s[b]),
    ensures
        digits_end(s, q) == b,
    decreases b - q,
{
    if q < b {
        lemma_digits_run(s, q + 1, b);
    }
}

/// A run of identifier characters ends where they do.
proof fn lemma_ident_run(s: Seq<char>, q: int, b: int)
    requires
        0 <= q <= b <= s.len(),
        forall|i: int| q <= i < b ==> is_ident_char(#[trigger] s[i]),
        b == s.len() || !is_ident_char(s[b]),
    ensures
        ident_end(s, q) == b,
    decreases b - q,
{
    if q < b {
        lemma_ident_run(s, q + 1, b);
    }
}

/// A number written where its digits stop reads back.
proof fn lemma_number_at(s: Seq<char>, p: int, n: Seq<char>)
    requires
        written_at(s, p, n),
        number_reads_back(n),
        ends_number(s, p + n.len()),
    ensures
        number(s, p) == Some((n, p + n.len())),
{
    let len = n.len() as int;
    assert forall|i: int| 0 <= i < len implies s[p + i] == #[trigger] n[i] by {
        assert(s.subrange(p, p + len)[i] == s[p + i]);
    }
    let q0: int = if char_at(n, 0, '-') { 1 } else { 0 };
    let e = digits_end(n, q0);
    assert(0 <= q0 < len);
    lemma_run_ends(n, q0);
    assert(char_at(s, p, '-') == char_at(n, 0, '-'));
    assert forall|i: int| p + q0 <= i < p + e implies is_digit(#[trigger] s[i]) by {
        assert(s[i] == n[i - p]);
    }
    if char_at(n, e, '.') && digits_end(n, e + 1) > e + 1 {
        lemma_run_ends(n, e + 1);
        assert(s[p + e] == n[e]);
        lemma_digits_run(s, p + q0, p + e);
        assert forall|i: int| p + e + 1 <= i < p + len implies is_digit(#[trigger] s[i]) by {
            assert(s[i] == n[i - p]);
        }
        lemma_digits_run(s, p + e + 1, p + len);
    } else {
        assert(e == len);
        lemma_digits_run(s, p + q0, p + len);
    }
    assert(number_end(s, p) == p + len);
    assert(s.subrange(p, p + len) == n);
}

/// Plain characters are written as themselves inside a string.
proof fn lemma_plain_json(k: Seq<char>)
    requires
        forall|i: int| 0 <= i < k.len() ==> plain_char(#[trigger] k[i]),
    ensures
        json_chars(k) == k,
    decreases k.len(),
{
    if k.len() > 0 {
        assert forall|i: int| 0 <= i < k.drop_last().len() implies plain_char(
            #[trigger] k.drop_last()[i],
        ) by {
            assert(k.drop_last()[i] == k[i]);
        }
        lemma_plain_json(k.drop_last());
        assert(plain_char(k[k.len() - 1]));
        assert(json_char(k.last()) == seq![k.last()]);
        assert(json_chars(k) =~= k);
    }
}

/// A string written where it is reads back.
proof fn lemma_string_at(s: Seq<char>, p: int, t: Seq<char>)
    requires
        written_at(s, p, json_string_spec(t)),
        forall|i: int| 0 <= i < t.len() ==> reads_back(#[trigger] t[i]),
    ensures
        string_literal(s, p) == Some((t, p + json_string_spec(t).len())),
{
    let w = json_string_spec(t);
    let j = json_chars(t);
    let pre = s.take(p + 1);
    let post = s.skip(p + 1 + j.len());
    assert(s.subrange(p, p + w.len())[0] == s[p]);
    assert(s.subrange(p, p + w.len())[w.len() - 1] == s[p + w.len() - 1]);
    assert(s.subrange(p + 1, p + 1 + j.len()) =~= s.subrange(p, p + w.len()).subrange(
        1,
        1 + j.len() as int,
    ));
    assert(s.subrange(p, p + w.len()).subrange(1, 1 + j.len() as int) =~= j);
    assert(s =~= pre + j + post);
    assert(post[0] == s[p + 1 + j.len()]);
    lemma_string_chars_read_back(t, pre, post);
}

/// What is written at `p` is written piece by piece.
proof fn lemma_written_split(s: Seq<char>, p: int, a: Seq<char>, b: Seq<char>)
    requires
        written_at(s, p, a + b),
    ensures
        written_at(s, p, a),
        written_at(s, p + a.len(), b),
{
    let w = a + b;
    assert(s.subrange(p, p + a.len()) =~= s.subrange(p, p + w.len()).subrange(0, a.len() as int));
    assert(w.subrange(0, a.len() as int) =~= a);
    assert(s.subrange(p + a.len(), p + a.len() + b.len()) =~= s.subrange(p, p + w.len()).subrange(
        a.len() as int,
        w.len() as int,
    ));
    assert(w.subrange(a.len() as int, w.len() as int) =~= b);
}

/// A character of what is written at `p`.
proof fn lemma_written_char(s: Seq<char>, p: int, w: Seq<char>, i: int)
    requires
        written_at(s, p, w),
        0 <= i < w.len(),
    ensures
        s[p + i] == w[i],
{
    assert(s.subrange(p, p + w.len())[i] == s[p + i]);
}

/// `, item` for each item, from the front.
pub open spec fn sep_items(xs: Seq<SpecValue>, fd: nat) -> Seq<char>
    decreases xs.len(),
{
    if xs.len() == 0 {
        Seq::empty()
    } else {
        seq![',', ' '] + scalar_spec(xs[0], fd) + sep_items(xs.drop_first(), fd)
    }
}

/// One hash entry as the formatter writes it.
pub open spec fn entry_text(e: (Seq<char>, SpecValue), fd: nat) -> Seq<char> {
    key_literal(e.0) + seq![':', ' '] + scalar_spec(e.1, fd)
}

/// `, entry` for each entry, from the front.
pub open spec fn sep_entries(xs: Seq<(Seq<char>, SpecValue)>, fd: nat) -> Seq<char>
    decreases xs.len(),
{
    if xs.len() == 0 {
        Seq::empty()
    } else {
        seq![',', ' '] + entry_text(xs[0], fd) + sep_entries(xs.drop_first(), fd)
    }
}

proof fn lemma_sep_items_push(xs: Seq<SpecValue>, x: SpecValue, fd: nat)
    ensures
        sep_items(xs.push(x), fd) == sep_items(xs, fd) + seq![',', ' '] + scalar_spec(x, fd),
    decreases xs.len(),
{
    if xs.len() == 0 {
        assert(xs.push(x).drop_first() =~= xs);
        assert(sep_items(xs.push(x), fd) =~= sep_items(xs, fd) + seq![',', ' '] + scalar_spec(x, fd));
    } else {
        lemma_sep_items_push(xs.drop_first(), x, fd);
        assert(xs.push(x).drop_first() =~= xs.drop_first().push(x));
        assert(sep_items(xs.push(x), fd) =~= sep_items(xs, fd) + seq![',', ' '] + scalar_spec(x, fd));
    }
}

/// The items, written from the front.
proof fn lemma_items_front(items: Seq<SpecValue>, fd: nat)
    requires
        items.len() > 0,
    ensures
        items_literal(items, fd) == scalar_spec(items[0], fd) + sep_items(items.drop_first(), fd),
    decreases items.len(),
{
    if items.len() == 1 {
        assert(items.drop_first().len() == 0);
        assert(items_literal(items, fd) =~= scalar_spec(items[0], fd) + sep_items(
            items.drop_first(),
            fd,
        ));
    } else {
        let init = items.drop_last();
        lemma_items_front(init, fd);
        lemma_sep_items_push(init.drop_first(), items.last(), fd);
        assert(init.drop_first().push(items.last()) =~= items.drop_first());
        assert(init[0] == items[0]);
        assert(items_literal(items, fd) =~= scalar_spec(items[0], fd) + sep_items(
            items.drop_first(),
            fd,
        ));
    }
}

proof fn lemma_sep_entries_push(
    xs: Seq<(Seq<char>, SpecValue)>,
    x: (Seq<char>, SpecValue),
    fd: nat,
)
    ensures
        sep_entries(xs.push(x), fd) == sep_entries(xs, fd) + seq![',', ' '] + entry_text(x, fd),
    decreases xs.len(),
{
    if xs.len() == 0 {
        assert(xs.push(x).drop_first() =~= xs);
        assert(sep_entries(xs.push(x), fd) =~= sep_entries(xs, fd) + seq![',', ' '] + entry_text(
            x,
            fd,
        ));
    } else {
        lemma_sep_entries_push(xs.drop_first(), x, fd);
        assert(xs.push(x).drop_first() =~= xs.drop_first().push(x));
        assert(sep_entries(xs.push(x), fd) =~= sep_entries(xs, fd) + seq![',', ' '] + entry_text(
            x,
            fd,
        ));
    }
}

/// The entries, written from the front.
proof fn lemma_entries_front(entries: Seq<(Seq<char>, SpecValue)>, fd: nat)
    requires
        entries.len() > 0,
    ensures
        entries_literal(entries, fd) == entry_text(entries[0], fd) + sep_entries(
            entries.drop_first(),
            fd,
        ),
    decreases entries.len(),
{
    if entries.len() == 1 {
        assert(entries.drop_first().len() == 0);
        assert(entries_literal(entries, fd) =~= entry_text(entries[0], fd) + sep_entries(
            entries.drop_first(),
            fd,
        ));
    } else {
        let init = entries.drop_last();
        lemma_entries_front(init, fd);
        lemma_sep_entries_push(init.drop_first(), entries.last(), fd);
        assert(init.drop_first().push(entries.last()) =~= entries.drop_first());
        assert(init[0] == entries[0]);
        assert(entries_literal(entries, fd) =~= entry_text(entries[0], fd) + sep_entries(
            entries.drop_first(),
            fd,
        ));
    }
}

/// What a value that reads back is written as starts with a character that
/// is not whitespace.
proof fn lemma_first_char(v: SpecValue, d: int, fd: nat)
    requires
        value_reads_back(v, d, fd),
    ensures
        scalar_spec(v, fd).len() > 0,
        !is_ws(scalar_spec(v, fd)[0]),
{
    match v {
        SpecValue::Number(n) => {
            assert(number_end(n, 0) == n.len());
            if n.len() == 0 {
                assert(number_end(n, 0) == -1);
            }
            if n[0] != '-' {
                assert(digits_end(n, 0) != 0);
            }
        },
        SpecValue::Function(name, params) => {
            assert(ident_char(name[0]));
            let w = name + seq!['('] + params_literal(params, fd + 1) + seq![')'];
            assert(w[0] == name[0]);
        },
        _ => {},
    }
}

/// A key as written starts with a character that is not whitespace.
proof fn lemma_key_first_char(k: Seq<char>)
    requires
        key_reads_back(k),
    ensures
        key_literal(k).len() > 0,
        !is_ws(key_literal(k)[0]),
{
    if is_identifier_spec(k) {
        assert(ident_char(k[0]));
    }
}

/// No value starts at a closing bracket or brace.
proof fn lemma_no_value_at_close(s: Seq<char>, q: int, d: int)
    requires
        0 <= q < s.len(),
        s[q] == ']' || s[q] == '}' || s[q] == ')',
        0 <= d,
    ensures
        value(s, q, d) is None,
{
    if d < MAX_VALUE_DEPTH {
        if q + 4 <= s.len() {
            assert(s.subrange(q, q + 4)[0] == s[q]);
        }
        if q + 5 <= s.len() {
            assert(s.subrange(q, q + 5)[0] == s[q]);
        }
        assert(digits_end(s, q) == q);
        assert(ident_end(s, q) == q);
        assert(value_null(s, q) is None);
        assert(value_boolean(s, q) is None);
        assert(number(s, q) is None);
        assert(function(s, q, d + 1) is None);
        assert(variable(s, q) is None);
    }
}

/// A value written where it is reads back, and the parse stops where the
/// writing did.
proof fn lemma_value_at(s: Seq<char>, p: int, v: SpecValue, d: int, fd: nat)
    requires
        value_reads_back(v, d, fd),
        written_at(s, p, scalar_spec(v, fd)),
        ends_value(s, p + scalar_spec(v, fd).len()),
    ensures
        value(s, p, d) == Some((v, p + scalar_spec(v, fd).len())),
    decreases MAX_VALUE_DEPTH - d, 0int,
{
    let w = scalar_spec(v, fd);
    lemma_first_char(v, d, fd);
    lemma_written_char(s, p, w, 0);
    if p + 4 <= s.len() {
        assert(s.subrange(p, p + 4)[0] == s[p]);
    }
    if p + 5 <= s.len() {
        assert(s.subrange(p, p + 5)[0] == s[p]);
    }
    match v {
        SpecValue::Null => {
            assert(w == seq!['n', 'u', 'l', 'l']);
            assert(s.subrange(p, p + 4) == w);
        },
        SpecValue::Boolean(b) => {
            assert(w == bool_literal(b));
            assert(s.subrange(p, p + w.len()) == w);
        },
        SpecValue::String(t) => {
            lemma_string_at(s, p, t);
        },
        SpecValue::Number(n) => {
            assert(ends_number(s, p + n.len()));
            lemma_number_at(s, p, n);
        },
        SpecValue::Variable(path) => {
            assert(digits_end(s, p) == p);
            assert(number(s, p) is None);
            assert(ident_end(s, p) == p);
            lemma_variable_at(s, p, path);
        },
        SpecValue::Array(items) => {
            assert(digits_end(s, p) == p);
            assert(number(s, p) is None);
            lemma_array_at(s, p, items, d + 1, fd + 1);
        },
        SpecValue::Hash(entries) => {
            assert(digits_end(s, p) == p);
            assert(number(s, p) is None);
            lemma_hash_at(s, p, entries, d + 1, fd + 1);
        },
        SpecValue::Function(name, params) => {
            let k = name.len() as int;
            lemma_written_split(s, p, name + seq!['('] + params_literal(params, fd + 1), seq![')']);
            lemma_written_split(s, p, name + seq!['('], params_literal(params, fd + 1));
            lemma_written_split(s, p, name, seq!['(']);
            lemma_written_char(s, p + k, seq!['('], 0);
            lemma_written_char(s, p, name, 0);
            if p + 4 <= s.len() {
                if k >= 4 {
                    assert(s.subrange(p, p + 4) =~= name.subrange(0, 4));
                } else {
                    assert(s.subrange(p, p + 4)[k] == s[p + k]);
                }
            }
            if p + 5 <= s.len() {
                if k >= 5 {
                    assert(s.subrange(p, p + 5) =~= name.subrange(0, 5));
                } else {
                    assert(s.subrange(p, p + 5)[k] == s[p + k]);
                }
            }
            assert(value_null(s, p) is None);
            assert(value_boolean(s, p) is None);
            assert(digits_end(s, p) == p);
            assert(number(s, p) is None);
            lemma_function_at(s, p, name, params, d + 1, fd + 1);
        },
    }
}

/// An array written where it is reads back.
proof fn lemma_array_at(s: Seq<char>, p: int, items: Seq<SpecValue>, d: int, fd: nat)
    requires
        1 <= d <= MAX_VALUE_DEPTH,
        items_read_back(items, d, fd),
        written_at(s, p, seq!['['] + items_literal(items, fd) + seq![']']),
    ensures
        value_array(s, p, d) == Some(
            (SpecValue::Array(items), p + 2 + items_literal(items, fd).len()),
        ),
    decreases MAX_VALUE_DEPTH - d, 2 * items.len() + 2,
{
    let body = items_literal(items, fd);
    let w = seq!['['] + body + seq![']'];
    let q = p + 1;
    let close = p + 1 + body.len();
    lemma_written_char(s, p, w, 0);
    lemma_written_char(s, p, w, w.len() - 1);
    lemma_written_split(s, p, seq!['['] + body, seq![']']);
    lemma_written_split(s, p, seq!['['], body);
    assert(ws_end(s, close) == close);
    assert(trailing_comma(s, close) == close);
    if items.len() == 0 {
        assert(body.len() == 0);
        lemma_no_value_at_close(s, q, d);
        assert(items =~= Seq::<SpecValue>::empty());
        assert(char_at(s, close, ']'));
    } else {
        let first = items[0];
        let rest = items.drop_first();
        assert(value_reads_back(first, d, fd));
        lemma_items_front(items, fd);
        lemma_written_split(s, q, scalar_spec(first, fd), sep_items(rest, fd));
        lemma_first_char(first, d, fd);
        lemma_written_char(s, q, body, 0);
        assert(ws_end(s, q) == q);
        let q1 = q + scalar_spec(first, fd).len();
        if rest.len() > 0 {
            lemma_written_char(s, q1, sep_items(rest, fd), 0);
        }
        lemma_value_at(s, q, first, d, fd);
        assert forall|i: int| 0 <= i < rest.len() implies value_reads_back(#[trigger] rest[i], d, fd) by {
            assert(rest[i] == items[i + 1]);
        }
        lemma_array_tail_at(s, q1, rest, d, fd, seq![first]);
        assert(seq![first] + rest =~= items);
        assert(q1 + sep_items(rest, fd).len() == close);
        assert(value(s, q, d) == Some((first, q1)));
        assert(array_tail(s, q1, d, seq![first]) == (items, close));
        assert(char_at(s, close, ']'));
    }
}

/// The rest of an array's items, after the first, read back.
proof fn lemma_array_tail_at(
    s: Seq<char>,
    p: int,
    xs: Seq<SpecValue>,
    d: int,
    fd: nat,
    acc: Seq<SpecValue>,
)
    requires
        1 <= d <= MAX_VALUE_DEPTH,
        items_read_back(xs, d, fd),
        written_at(s, p, sep_items(xs, fd)),
        p + sep_items(xs, fd).len() < s.len(),
        s[p + sep_items(xs, fd).len()] == ']',
    ensures
        array_tail(s, p, d, acc) == (acc + xs, p + sep_items(xs, fd).len()),
    decreases MAX_VALUE_DEPTH - d, 2 * xs.len() + 1,
{
    let w = sep_items(xs, fd);
    if xs.len() == 0 {
        assert(acc + xs =~= acc);
    } else {
        let x = xs[0];
        let rest = xs.drop_first();
        assert(value_reads_back(x, d, fd));
        let head = seq![',', ' '] + scalar_spec(x, fd);
        lemma_written_split(s, p, head, sep_items(rest, fd));
        lemma_written_split(s, p, seq![',', ' '], scalar_spec(x, fd));
        lemma_written_char(s, p, w, 0);
        lemma_written_char(s, p, w, 1);
        lemma_first_char(x, d, fd);
        lemma_written_char(s, p + 2, scalar_spec(x, fd), 0);
        assert(ws_end(s, p + 2) == p + 2);
        assert(ws_end(s, p + 1) == p + 2);
        assert(ws_end(s, p) == p);
        let e = p + 2 + scalar_spec(x, fd).len();
        if rest.len() > 0 {
            lemma_written_char(s, e, sep_items(rest, fd), 0);
        }
        lemma_value_at(s, p + 2, x, d, fd);
        assert forall|i: int| 0 <= i < rest.len() implies value_reads_back(#[trigger] rest[i], d, fd) by {
            assert(rest[i] == xs[i + 1]);
        }
        lemma_array_tail_at(s, e, rest, d, fd, acc.push(x));
        assert(acc.push(x) + rest =~= acc + xs);
    }
}

/// A hash entry written where it is reads back.
proof fn lemma_hash_item_at(s: Seq<char>, p: int, e: (Seq<char>, SpecValue), d: int, fd: nat)
    requires
        key_reads_back(e.0),
        value_reads_back(e.1, d, fd),
        written_at(s, p, entry_text(e, fd)),
        ends_value(s, p + entry_text(e, fd).len()),
    ensures
        hash_item(s, p, d) == Some((Some(e), p + entry_text(e, fd).len())),
    decreases MAX_VALUE_DEPTH - d, 1int,
{
    let k = e.0;
    let key = key_literal(k);
    lemma_written_split(s, p, key + seq![':', ' '], scalar_spec(e.1, fd));
    lemma_written_split(s, p, key, seq![':', ' ']);
    let q = p + key.len();
    lemma_written_char(s, q, seq![':', ' '], 0);
    lemma_written_char(s, q, seq![':', ' '], 1);
    lemma_first_char(e.1, d, fd);
    lemma_written_char(s, q + 2, scalar_spec(e.1, fd), 0);
    assert(ws_end(s, q + 2) == q + 2);
    assert(ws_end(s, q + 1) == q + 2);
    if is_identifier_spec(k) {
        assert forall|i: int| p <= i < q implies is_ident_char(#[trigger] s[i]) by {
            lemma_written_char(s, p, key, i - p);
            assert(ident_char(k[i - p]));
        }
        lemma_ident_run(s, p, q);
        assert(s.subrange(p, q) == k);
    } else {
        lemma_plain_json(k);
        assert(key =~= json_string_spec(k));
        lemma_written_char(s, p, key, 0);
        assert(ident_end(s, p) == p);
        assert forall|i: int| 0 <= i < k.len() implies reads_back(#[trigger] k[i]) by {
            assert(plain_char(k[i]));
        }
        lemma_string_at(s, p, k);
    }
    lemma_value_at(s, q + 2, e.1, d, fd);
}

/// The rest of a hash's entries, after the first, read back into `acc`.
proof fn lemma_hash_tail_at(
    s: Seq<char>,
    p: int,
    xs: Seq<(Seq<char>, SpecValue)>,
    d: int,
    fd: nat,
    acc: Seq<(Seq<char>, SpecValue)>,
)
    requires
        1 <= d <= MAX_VALUE_DEPTH,
        entries_read_back(xs, d, fd),
        keys_distinct(xs),
        forall|i: int, j: int|
            0 <= i < acc.len() && 0 <= j < xs.len() ==> #[trigger] acc[i].0 != #[trigger] xs[j].0,
        written_at(s, p, sep_entries(xs, fd)),
        p + sep_entries(xs, fd).len() < s.len(),
        s[p + sep_entries(xs, fd).len()] == '}',
    ensures
        hash_tail(s, p, d, acc) == (acc + xs, p + sep_entries(xs, fd).len()),
    decreases MAX_VALUE_DEPTH - d, 2 * xs.len() + 1,
{
    let w = sep_entries(xs, fd);
    if xs.len() == 0 {
        assert(acc + xs =~= acc);
    } else {
        let x = xs[0];
        let rest = xs.drop_first();
        assert(key_reads_back(x.0) && value_reads_back(x.1, d, fd));
        let head = seq![',', ' '] + entry_text(x, fd);
        lemma_written_split(s, p, head, sep_entries(rest, fd));
        lemma_written_split(s, p, seq![',', ' '], entry_text(x, fd));
        lemma_written_char(s, p, w, 0);
        lemma_written_char(s, p, w, 1);
        lemma_key_first_char(x.0);
        lemma_written_char(s, p + 2, entry_text(x, fd), 0);
        assert(entry_text(x, fd)[0] == key_literal(x.0)[0]);
        assert(ws_end(s, p + 2) == p + 2);
        assert(ws_end(s, p + 1) == p + 2);
        assert(ws_end(s, p) == p);
        let e = p + 2 + entry_text(x, fd).len();
        if rest.len() > 0 {
            lemma_written_char(s, e, sep_entries(rest, fd), 0);
        }
        lemma_hash_item_at(s, p + 2, x, d, fd);
        lemma_spec_key_index(acc, x.0);
        assert(spec_key_index(acc, x.0) == -1);
        assert(insert_items(acc, Some(x)) == acc.push(x));
        assert forall|i: int|
            #![trigger rest[i]]
            0 <= i < rest.len() implies key_reads_back(rest[i].0) && value_reads_back(
            rest[i].1,
            d,
            fd,
        ) by {
            assert(rest[i] == xs[i + 1]);
        }
        assert forall|i: int, j: int| 0 <= i < acc.push(x).len() && 0 <= j < rest.len() implies #[trigger] acc.push(x)[i].0 != #[trigger] rest[j].0 by {
            assert(rest[j] == xs[j + 1]);
            if i < acc.len() {
                assert(acc.push(x)[i] == acc[i]);
            }
        }
        assert forall|i: int, j: int| 0 <= i < j < rest.len() implies #[trigger] rest[i].0 != #[trigger] rest[j].0 by {
            assert(rest[i] == xs[i + 1]);
            assert(rest[j] == xs[j + 1]);
        }
        lemma_hash_tail_at(s, e, rest, d, fd, acc.push(x));
        assert(acc.push(x) + rest =~= acc + xs);
    }
}

/// A hash written where it is reads back.
proof fn lemma_hash_at(
    s: Seq<char>,
    p: int,
    entries: Seq<(Seq<char>, SpecValue)>,
    d: int,
    fd: nat,
)
    requires
        1 <= d <= MAX_VALUE_DEPTH,
        entries_read_back(entries, d, fd),
        keys_distinct(entries),
        written_at(s, p, seq!['{'] + entries_literal(entries, fd) + seq!['}']),
    ensures
        value_hash(s, p, d) == Some(
            (SpecValue::Hash(entries), p + 2 + entries_literal(entries, fd).len()),
        ),
    decreases MAX_VALUE_DEPTH - d, 2 * entries.len() + 2,
{
    let body = entries_literal(entries, fd);
    let w = seq!['{'] + body + seq!['}'];
    let q = p + 1;
    let close = p + 1 + body.len();
    lemma_written_char(s, p, w, 0);
    lemma_written_char(s, p, w, w.len() - 1);
    lemma_written_split(s, p, seq!['{'] + body, seq!['}']);
    lemma_written_split(s, p, seq!['{'], body);
    assert(ws_end(s, close) == close);
    assert(trailing_comma(s, close) == close);
    if entries.len() == 0 {
        assert(body.len() == 0);
        assert(ident_end(s, q) == q);
        assert(hash_item(s, q, d) is None);
        assert(entries =~= Seq::<(Seq<char>, SpecValue)>::empty());
        assert(char_at(s, close, '}'));
    } else {
        let first = entries[0];
        let rest = entries.drop_first();
        assert(key_reads_back(first.0) && value_reads_back(first.1, d, fd));
        lemma_entries_front(entries, fd);
        lemma_written_split(s, q, entry_text(first, fd), sep_entries(rest, fd));
        lemma_key_first_char(first.0);
        lemma_written_char(s, q, entry_text(first, fd), 0);
        assert(entry_text(first, fd)[0] == key_literal(first.0)[0]);
        assert(ws_end(s, q) == q);
        let q1 = q + entry_text(first, fd).len();
        if rest.len() > 0 {
            lemma_written_char(s, q1, sep_entries(rest, fd), 0);
        }
        lemma_hash_item_at(s, q, first, d, fd);
        assert(spec_key_index(Seq::<(Seq<char>, SpecValue)>::empty(), first.0) == -1);
        assert(insert_items(Seq::empty(), Some(first)) =~= seq![first]);
        assert forall|i: int|
            #![trigger rest[i]]
            0 <= i < rest.len() implies key_reads_back(rest[i].0) && value_reads_back(
            rest[i].1,
            d,
            fd,
        ) by {
            assert(rest[i] == entries[i + 1]);
        }
        assert forall|i: int, j: int| 0 <= i < seq![first].len() && 0 <= j < rest.len() implies #[trigger] seq![first][i].0 != #[trigger] rest[j].0 by {
            assert(rest[j] == entries[j + 1]);
        }
        assert forall|i: int, j: int| 0 <= i < j < rest.len() implies #[trigger] rest[i].0 != #[trigger] rest[j].0 by {
            assert(rest[i] == entries[i + 1]);
            assert(rest[j] == entries[j + 1]);
        }
        lemma_hash_tail_at(s, q1, rest, d, fd, seq![first]);
        assert(seq![first] + rest =~= entries);
        assert(q1 + sep_entries(rest, fd).len() == close);
        assert(hash_item(s, q, d) == Some((Some(first), q1)));
        assert(hash_tail(s, q1, d, insert_items(Seq::empty(), Some(first))) == (entries, close));
        assert(char_at(s, close, '}'));
    }
}

/// The steps of a path after the first, written from the front.
pub open spec fn tails_literal(xs: Seq<SpecSegment>) -> Seq<char>
    decreases xs.len(),
{
    if xs.len() == 0 {
        Seq::empty()
    } else {
        segment_literal(false, xs[0]) + tails_literal(xs.drop_first())
    }
}

proof fn lemma_tails_push(xs: Seq<SpecSegment>, x: SpecSegment)
    ensures
        tails_literal(xs.push(x)) == tails_literal(xs) + segment_literal(false, x),
    decreases xs.len(),
{
    if xs.len() == 0 {
        assert(xs.push(x).drop_first() =~= xs);
        assert(tails_literal(xs.push(x)) =~= tails_literal(xs) + segment_literal(false, x));
    } else {
        lemma_tails_push(xs.drop_first(), x);
        assert(xs.push(x).drop_first() =~= xs.drop_first().push(x));
        assert(tails_literal(xs.push(x)) =~= tails_literal(xs) + segment_literal(false, x));
    }
}

/// A path, written from the front.
proof fn lemma_path_front(path: Seq<SpecSegment>)
    requires
        path.len() > 0,
    ensures
        path_literal(path) == segment_literal(true, path[0]) + tails_literal(path.drop_first()),
    decreases path.len(),
{
    if path.len() == 1 {
        assert(path.drop_first().len() == 0);
        assert(path.drop_last().len() == 0);
        assert(path_literal(path.drop_last()) == Seq::<char>::empty());
        assert(tails_literal(path.drop_first()) == Seq::<char>::empty());
        assert(path.last() == path[0]);
        assert(path_literal(path) =~= segment_literal(true, path[0]) + tails_literal(
            path.drop_first(),
        ));
    } else {
        let init = path.drop_last();
        lemma_path_front(init);
        lemma_tails_push(init.drop_first(), path.last());
        assert(init.drop_first().push(path.last()) =~= path.drop_first());
        assert(init[0] == path[0]);
        assert(path_literal(path) =~= segment_literal(true, path[0]) + tails_literal(
            path.drop_first(),
        ));
    }
}

/// A step written where it is reads back.
proof fn lemma_segment_at(s: Seq<char>, p: int, x: SpecSegment)
    requires
        segment_reads_back(x),
        written_at(s, p, segment_literal(false, x)),
        p + segment_literal(false, x).len() == s.len() || !is_ident_char(
            s[p + segment_literal(false, x).len()],
        ),
    ensures
        variable_tail(s, p) == Some((x, p + segment_literal(false, x).len())),
{
    let w = segment_literal(false, x);
    let e = p + w.len();
    lemma_written_char(s, p, w, 0);
    match x {
        SpecSegment::Key(k) => {
            if is_identifier_spec(k) {
                lemma_written_split(s, p, seq!['.'], k);
                assert forall|i: int| p + 1 <= i < e implies is_ident_char(#[trigger] s[i]) by {
                    lemma_written_char(s, p + 1, k, i - p - 1);
                    assert(ident_char(k[i - p - 1]));
                }
                lemma_ident_run(s, p + 1, e);
                assert(s.subrange(p + 1, e) == k);
            } else {
                let quoted = seq!['"'] + k + seq!['"'];
                assert(w =~= seq!['['] + quoted + seq![']']);
                lemma_written_split(s, p, seq!['['] + quoted, seq![']']);
                lemma_written_split(s, p, seq!['['], quoted);
                lemma_written_char(s, p, w, w.len() - 1);
                lemma_plain_json(k);
                assert(quoted =~= json_string_spec(k));
                lemma_written_char(s, p + 1, quoted, 0);
                assert(digits_end(s, p + 1) == p + 1);
                assert(number(s, p + 1) is None);
                assert forall|i: int| 0 <= i < k.len() implies reads_back(#[trigger] k[i]) by {
                    assert(plain_char(k[i]));
                }
                lemma_string_at(s, p + 1, k);
            }
        },
        SpecSegment::Index(n) => {
            lemma_written_split(s, p, seq!['['] + n, seq![']']);
            lemma_written_split(s, p, seq!['['], n);
            lemma_written_char(s, p, w, w.len() - 1);
            lemma_number_at(s, p + 1, n);
        },
    }
}

/// The steps of a path after the first read back onto `acc`.
proof fn lemma_tails_at(s: Seq<char>, p: int, xs: Seq<SpecSegment>, acc: Seq<SpecSegment>)
    requires
        forall|i: int| 0 <= i < xs.len() ==> segment_reads_back(#[trigger] xs[i]),
        written_at(s, p, tails_literal(xs)),
        ends_value(s, p + tails_literal(xs).len()),
    ensures
        variable_tails(s, p, acc) == (acc + xs, p + tails_literal(xs).len()),
    decreases xs.len(),
{
    if xs.len() == 0 {
        assert(variable_tail(s, p) is None);
        assert(acc + xs =~= acc);
    } else {
        let x = xs[0];
        let rest = xs.drop_first();
        lemma_written_split(s, p, segment_literal(false, x), tails_literal(rest));
        let e = p + segment_literal(false, x).len();
        if rest.len() > 0 {
            lemma_written_char(s, e, tails_literal(rest), 0);
            assert(tails_literal(rest)[0] == segment_literal(false, rest[0])[0]);
        }
        lemma_segment_at(s, p, x);
        assert forall|i: int| 0 <= i < rest.len() implies segment_reads_back(#[trigger] rest[i]) by {
            assert(rest[i] == xs[i + 1]);
        }
        lemma_tails_at(s, e, rest, acc.push(x));
        assert(acc.push(x) + rest =~= acc + xs);
    }
}

/// A variable written where it is reads back.
proof fn lemma_variable_at(s: Seq<char>, p: int, path: Seq<SpecSegment>)
    requires
        path_reads_back(path),
        written_at(s, p, seq!['$'] + path_literal(path)),
        ends_value(s, p + 1 + path_literal(path).len()),
    ensures
        variable(s, p) == Some((SpecValue::Variable(path), p + 1 + path_literal(path).len())),
{
    let k = path[0]->Key_0;
    let rest = path.drop_first();
    lemma_path_front(path);
    lemma_written_split(s, p, seq!['$'], path_literal(path));
    lemma_written_split(s, p + 1, k, tails_literal(rest));
    lemma_written_char(s, p, seq!['$'] + path_literal(path), 0);
    let q = p + 1 + k.len();
    if rest.len() > 0 {
        lemma_written_char(s, q, tails_literal(rest), 0);
        assert(tails_literal(rest)[0] == segment_literal(false, rest[0])[0]);
    }
    assert forall|i: int| p + 1 <= i < q implies is_ident_char(#[trigger] s[i]) by {
        lemma_written_char(s, p + 1, k, i - p - 1);
        assert(ident_char(k[i - p - 1]));
    }
    lemma_ident_run(s, p + 1, q);
    assert(s.subrange(p + 1, q) == k);
    assert forall|i: int| 0 <= i < rest.len() implies segment_reads_back(#[trigger] rest[i]) by {
        assert(rest[i] == path[i + 1]);
    }
    lemma_tails_at(s, q, rest, seq![SpecSegment::Key(k)]);
    assert(seq![SpecSegment::Key(k)] + rest =~= path);
}

/// A decimal spelling has at least one digit, and two from ten on.
proof fn lemma_decimal_len(n: nat)
    ensures
        decimal(n).len() >= 1,
        n >= 10 ==> decimal(n).len() >= 2,
    decreases n,
{
    if n >= 10 {
        lemma_decimal_len(n / 10);
    }
}

/// Different numbers are spelled differently.
proof fn lemma_decimal_injective(a: nat, b: nat)
    requires
        decimal(a) == decimal(b),
    ensures
        a == b,
    decreases a,
{
    lemma_decimal_len(a);
    lemma_decimal_len(b);
    if a >= 10 && b >= 10 {
        assert(decimal(a).drop_last() == decimal(a / 10));
        assert(decimal(b).drop_last() == decimal(b / 10));
        assert(decimal(a).last() == digit_char(a % 10));
        assert(decimal(b).last() == digit_char(b % 10));
        lemma_decimal_injective(a / 10, b / 10);
    } else if a < 10 && b < 10 {
        assert(decimal(a)[0] == digit_char(a));
        assert(decimal(b)[0] == digit_char(b));
    }
}

/// The values of a function's parameters, in order.
pub open spec fn param_values(params: Seq<(Seq<char>, SpecValue)>) -> Seq<SpecValue> {
    Seq::new(params.len(), |i: int| params[i].1)
}

/// Parameters as written are their values as written.
proof fn lemma_params_items(params: Seq<(Seq<char>, SpecValue)>, fd: nat)
    ensures
        params_literal(params, fd) == items_literal(param_values(params), fd),
    decreases params.len(),
{
    let vals = param_values(params);
    if params.len() > 1 {
        lemma_params_items(params.drop_last(), fd);
        assert(param_values(params.drop_last()) =~= vals.drop_last());
        assert(vals.last() == params.last().1);
    } else if params.len() == 1 {
        assert(vals[0] == params[0].1);
    }
}

/// A number's spelling holds only a sign, digits and a point.
proof fn lemma_number_chars(n: Seq<char>)
    requires
        number_end(n, 0) == n.len(),
    ensures
        forall|i: int| 0 <= i < n.len() ==> #[trigger] n[i] == '-' || is_digit(n[i]) || n[i] == '.',
{
    let q0: int = if char_at(n, 0, '-') { 1 } else { 0 };
    let e = digits_end(n, q0);
    lemma_run_ends(n, q0);
    if char_at(n, e, '.') && digits_end(n, e + 1) > e + 1 {
        lemma_run_ends(n, e + 1);
    }
}

/// The run of identifier characters from `q` does not stop at `=` when
/// none comes before `stop` and `stop` ends it.
proof fn lemma_ident_stop(s: Seq<char>, q: int, stop: int)
    requires
        0 <= q <= stop <= s.len(),
        forall|i: int| q <= i < stop ==> #[trigger] s[i] != '=',
        stop == s.len() || (!is_ident_char(s[stop]) && s[stop] != '='),
    ensures
        ident_end(s, q) == s.len() || s[ident_end(s, q)] != '=',
    decreases stop - q,
{
    if q < stop && is_ident_char(s[q]) {
        lemma_ident_stop(s, q + 1, stop);
    }
}

/// A positional parameter written where it is reads back.
proof fn lemma_param_at(s: Seq<char>, p: int, v: SpecValue, d: int, fd: nat)
    requires
        value_reads_back(v, d, fd),
        written_at(s, p, scalar_spec(v, fd)),
        p + scalar_spec(v, fd).len() < s.len(),
        s[p + scalar_spec(v, fd).len()] == ',' || s[p + scalar_spec(v, fd).len()] == ')',
    ensures
        function_parameter(s, p, d) == Some(((None::<Seq<char>>, v), p + scalar_spec(v, fd).len())),
    decreases MAX_VALUE_DEPTH - d, 1int,
{
    let w = scalar_spec(v, fd);
    let e = p + w.len();
    lemma_first_char(v, d, fd);
    lemma_written_char(s, p, w, 0);
    if is_ident_char(s[p]) {
        match v {
            SpecValue::Number(n) => {
                lemma_number_chars(n);
                assert forall|i: int| p <= i < e implies #[trigger] s[i] != '=' by {
                    lemma_written_char(s, p, w, i - p);
                }
                lemma_ident_stop(s, p, e);
            },
            SpecValue::Function(name, params) => {
                let k = name.len() as int;
                lemma_written_split(s, p, name + seq!['('] + params_literal(params, fd + 1), seq![')']);
                lemma_written_split(s, p, name + seq!['('], params_literal(params, fd + 1));
                lemma_written_split(s, p, name, seq!['(']);
                lemma_written_char(s, p + k, seq!['('], 0);
                assert forall|i: int| p <= i < p + k implies #[trigger] s[i] != '=' by {
                    lemma_written_char(s, p, name, i - p);
                    assert(ident_char(name[i - p]));
                }
                lemma_ident_stop(s, p, p + k);
            },
            _ => {
                assert forall|i: int| p <= i < e implies #[trigger] s[i] != '=' by {
                    lemma_written_char(s, p, w, i - p);
                }
                lemma_ident_stop(s, p, e);
            },
        }
    } else {
        assert(ident_end(s, p) == p);
    }
    lemma_value_at(s, p, v, d, fd);
}

/// The positional parameters, as the grammar pairs them with no name.
pub open spec fn unnamed(xs: Seq<SpecValue>) -> Seq<(Option<Seq<char>>, SpecValue)> {
    Seq::new(xs.len(), |i: int| (None::<Seq<char>>, xs[i]))
}

/// The parameters after the first read back onto `acc`.
proof fn lemma_function_tail_at(
    s: Seq<char>,
    p: int,
    xs: Seq<SpecValue>,
    d: int,
    fd: nat,
    acc: Seq<(Option<Seq<char>>, SpecValue)>,
)
    requires
        1 <= d <= MAX_VALUE_DEPTH,
        items_read_back(xs, d, fd),
        written_at(s, p, sep_items(xs, fd)),
        p + sep_items(xs, fd).len() < s.len(),
        s[p + sep_items(xs, fd).len()] == ')',
    ensures
        function_tail(s, p, d, acc) == (acc + unnamed(xs), p + sep_items(xs, fd).len()),
    decreases MAX_VALUE_DEPTH - d, 2 * xs.len() + 1,
{
    let w = sep_items(xs, fd);
    if xs.len() == 0 {
        assert(acc + unnamed(xs) =~= acc);
    } else {
        let x = xs[0];
        let rest = xs.drop_first();
        assert(value_reads_back(x, d, fd));
        let head = seq![',', ' '] + scalar_spec(x, fd);
        lemma_written_split(s, p, head, sep_items(rest, fd));
        lemma_written_split(s, p, seq![',', ' '], scalar_spec(x, fd));
        lemma_written_char(s, p, w, 0);
        lemma_written_char(s, p, w, 1);
        lemma_first_char(x, d, fd);
        lemma_written_char(s, p + 2, scalar_spec(x, fd), 0);
        assert(ws_end(s, p + 2) == p + 2);
        assert(ws_end(s, p + 1) == p + 2);
        assert(ws_end(s, p) == p);
        let e = p + 2 + scalar_spec(x, fd).len();
        if rest.len() > 0 {
            lemma_written_char(s, e, sep_items(rest, fd), 0);
        }
        lemma_param_at(s, p + 2, x, d, fd);
        assert forall|i: int| 0 <= i < rest.len() implies value_reads_back(#[trigger] rest[i], d, fd) by {
            assert(rest[i] == xs[i + 1]);
        }
        lemma_function_tail_at(s, e, rest, d, fd, acc.push((None::<Seq<char>>, x)));
        assert(acc.push((None::<Seq<char>>, x)) + unnamed(rest) =~= acc + unnamed(xs));
    }
}

/// Positional parameters are keyed by their positions.
proof fn lemma_keyed(
    params: Seq<(Option<Seq<char>>, SpecValue)>,
    index: int,
    acc: Seq<(Seq<char>, SpecValue)>,
)
    requires
        forall|i: int| 0 <= i < params.len() ==> (#[trigger] params[i]).0 is None,
        0 <= index <= params.len(),
        acc.len() == index,
        forall|j: int| 0 <= j < index ==> #[trigger] acc[j] == (decimal(j as nat), params[j].1),
    ensures
        keyed(params, index, acc) == Seq::new(
            params.len(),
            |j: int| (decimal(j as nat), params[j].1),
        ),
    decreases params.len() - index,
{
    if index >= params.len() {
        assert(acc =~= Seq::new(params.len(), |j: int| (decimal(j as nat), params[j].1)));
    } else {
        let key = parameter_key(params[index].0, index);
        assert(key == decimal(index as nat));
        lemma_spec_key_index(acc, key);
        let k = spec_key_index(acc, key);
        if k >= 0 {
            assert(acc[k] == (decimal(k as nat), params[k].1));
            lemma_decimal_injective(k as nat, index as nat);
        }
        assert(spec_insert(acc, key, params[index].1) == acc.push((key, params[index].1)));
        lemma_keyed(params, index + 1, acc.push((key, params[index].1)));
    }
}

/// A call written where it is reads back.
#[verifier::rlimit(40)]
proof fn lemma_function_at(
    s: Seq<char>,
    p: int,
    name: Seq<char>,
    params: Seq<(Seq<char>, SpecValue)>,
    d: int,
    fd: nat,
)
    requires
        1 <= d <= MAX_VALUE_DEPTH,
        function_name_reads_back(name),
        params_read_back(params, d, fd),
        written_at(s, p, name + seq!['('] + params_literal(params, fd) + seq![')']),
    ensures
        function(s, p, d) == Some(
            (SpecValue::Function(name, params), p + name.len() + 2 + params_literal(params, fd).len()),
        ),
    decreases MAX_VALUE_DEPTH - d, 2 * params.len() + 2,
{
    let body = params_literal(params, fd);
    let k = name.len() as int;
    let q0 = p + k;
    let q = q0 + 1;
    let close = q + body.len();
    let w = name + seq!['('] + body + seq![')'];
    lemma_written_split(s, p, name + seq!['('] + body, seq![')']);
    lemma_written_split(s, p, name + seq!['('], body);
    lemma_written_split(s, p, name, seq!['(']);
    lemma_written_char(s, q0, seq!['('], 0);
    lemma_written_char(s, close, seq![')'], 0);
    assert forall|i: int| p <= i < q0 implies is_ident_char(#[trigger] s[i]) by {
        lemma_written_char(s, p, name, i - p);
        assert(ident_char(name[i - p]));
    }
    lemma_ident_run(s, p, q0);
    assert(s.subrange(p, q0) == name);
    assert(ws_end(s, close) == close);
    let vals = param_values(params);
    lemma_params_items(params, fd);
    assert forall|i: int| 0 <= i < vals.len() implies value_reads_back(#[trigger] vals[i], d, fd) by {
        assert(params[i].0 == decimal(i as nat) && value_reads_back(params[i].1, d, fd));
    }
    if params.len() == 0 {
        assert(body.len() == 0);
        assert(ident_end(s, q) == q);
        lemma_no_value_at_close(s, q, d);
        assert(function_parameter(s, q, d) is None);
        assert(function_tail(s, q, d, Seq::empty()) == (
            Seq::<(Option<Seq<char>>, SpecValue)>::empty(),
            q,
        ));
        assert(params =~= Seq::<(Seq<char>, SpecValue)>::empty());
    } else {
        let first = vals[0];
        let rest = vals.drop_first();
        lemma_items_front(vals, fd);
        lemma_written_split(s, q, scalar_spec(first, fd), sep_items(rest, fd));
        lemma_first_char(first, d, fd);
        lemma_written_char(s, q, body, 0);
        assert(ws_end(s, q) == q);
        let q1 = q + scalar_spec(first, fd).len();
        if rest.len() > 0 {
            lemma_written_char(s, q1, sep_items(rest, fd), 0);
        }
        lemma_param_at(s, q, first, d, fd);
        assert forall|i: int| 0 <= i < rest.len() implies value_reads_back(#[trigger] rest[i], d, fd) by {
            assert(rest[i] == vals[i + 1]);
        }
        lemma_function_tail_at(s, q1, rest, d, fd, Seq::empty());
        let all = seq![(None::<Seq<char>>, first)] + unnamed(rest);
        assert(Seq::<(Option<Seq<char>>, SpecValue)>::empty() + unnamed(rest) =~= unnamed(rest));
        assert forall|i: int| 0 <= i < all.len() implies (#[trigger] all[i]).0 is None by {}
        assert forall|i: int| 0 <= i < all.len() implies (#[trigger] all[i]).1 == params[i].1 by {
            if i > 0 {
                assert(all[i] == unnamed(rest)[i - 1]);
            }
        }
        lemma_keyed(all, 0, Seq::empty());
        assert(Seq::new(all.len(), |j: int| (decimal(j as nat), all[j].1)) =~= params);
    }
}

/// A value reads back as itself: the tag grammar's value, run over what the
/// formatter writes for an attribute value and whatever follows it, gives
/// the value and stops where the writing did -- for null, booleans, numbers
/// spelled as the grammar reads them, strings of characters that read back,
/// variables whose paths read back, calls whose parameters are positional,
/// and arrays and hashes of these with distinct keys that read back, nested
/// within the grammar's depth, when what follows could not continue the
/// value.
pub proof fn lemma_value_round_trip(v: SpecValue, rest: Seq<char>)
    requires
        value_reads_back(v, 0, 0),
        rest.len() == 0 || (rest[0] != '.' && rest[0] != '[' && !is_ident_char(rest[0])),
    ensures
        value(scalar_spec(v, 0) + rest, 0, 0) == Some((v, scalar_spec(v, 0).len() as int)),
{
    let w = scalar_spec(v, 0);
    let s = w + rest;
    assert(s.subrange(0, w.len() as int) =~= w);
    if rest.len() > 0 {
        assert(s[w.len() as int] == rest[0]);
    }
    lemma_value_at(s, 0, v, 0, 0);
}

} // verus!
