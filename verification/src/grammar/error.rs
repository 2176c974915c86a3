//! Syntax errors, in Markdoc's words.
//!
//! Markdoc generates its parser with peggy, and three cases in the
//! conformance corpus assert peggy's `SyntaxError` message character for
//! character. So this module reproduces peggy's algorithm: what the parser
//! would have accepted at the furthest position it reached is described,
//! sorted, de-duplicated and joined.

use vstd::prelude::*;

use crate::text::{push_chars, push_str, string_of};

verus! {

/// Something the parser was willing to accept at a given position.
#[derive(Clone, Copy, Debug, PartialEq, Eq)]
pub enum Expectation {
    /// A literal string, printed quoted: `","`.
    Literal(&'static str),
    /// A named rule, printed as its name: `identifier`.
    Named(&'static str),
    /// The end of the input, printed as `end of input`.
    EndOfInput,
}

/// An uppercase hexadecimal digit.
pub open spec fn hex_upper(d: nat) -> char {
    if d < 10 {
        crate::text::digit_char(d)
    } else if d == 10 {
        'A'
    } else if d == 11 {
        'B'
    } else if d == 12 {
        'C'
    } else if d == 13 {
        'D'
    } else if d == 14 {
        'E'
    } else {
        'F'
    }
}

/// How peggy's `literalEscape` writes one character.
pub open spec fn escape_char_spec(c: char) -> Seq<char> {
    let u = c as u32;
    if c == '\\' {
        seq!['\\', '\\']
    } else if c == '"' {
        seq!['\\', '"']
    } else if u == 0 {
        seq!['\\', '0']
    } else if c == '\t' {
        seq!['\\', 't']
    } else if c == '\n' {
        seq!['\\', 'n']
    } else if c == '\r' {
        seq!['\\', 'r']
    } else if 1 <= u <= 0xF {
        seq!['\\', 'x', '0', hex_upper(u as nat)]
    } else if (0x10 <= u <= 0x1F) || (0x7F <= u <= 0x9F) {
        seq!['\\', 'x', hex_upper((u / 16) as nat), hex_upper((u % 16) as nat)]
    } else {
        seq![c]
    }
}

/// peggy's `literalEscape` over a string.
pub open spec fn escape_spec(s: Seq<char>) -> Seq<char>
    decreases s.len(),
{
    if s.len() == 0 {
        Seq::empty()
    } else {
        escape_spec(s.drop_last()) + escape_char_spec(s.last())
    }
}

/// How peggy's `describeExpectation` writes one expectation.
pub open spec fn describe_spec(e: Expectation) -> Seq<char> {
    match e {
        Expectation::Literal(text) => seq!['"'] + escape_spec(text@) + seq!['"'],
        Expectation::Named(name) => name@,
        Expectation::EndOfInput => "end of input"@,
    }
}

/// Byte order on strings, which for UTF-8 is code point order.
pub open spec fn lex_lt(a: Seq<char>, b: Seq<char>) -> bool
    decreases a.len(),
{
    if a.len() == 0 {
        b.len() > 0
    } else if b.len() == 0 {
        false
    } else if (a[0] as int) < (b[0] as int) {
        true
    } else if (a[0] as int) > (b[0] as int) {
        false
    } else {
        lex_lt(a.drop_first(), b.drop_first())
    }
}

/// Strictly rising in byte order: sorted, and nothing twice.
pub open spec fn strictly_sorted(l: Seq<Seq<char>>) -> bool {
    forall|i: int, j: int| 0 <= i < j < l.len() ==> lex_lt(#[trigger] l[i], #[trigger] l[j])
}

/// `l` holds exactly the elements of `d`, sorted, once each.
pub open spec fn sorted_unique_of(l: Seq<Seq<char>>, d: Seq<Seq<char>>) -> bool {
    &&& strictly_sorted(l)
    &&& forall|x: Seq<char>| l.contains(x) <==> d.contains(x)
}

/// The descriptions of the expectations.
pub open spec fn descriptions(variants: Seq<Expectation>) -> Seq<Seq<char>> {
    Seq::new(variants.len(), |i: int| describe_spec(variants[i]))
}

/// The sorted, de-duplicated descriptions.
pub open spec fn sorted_descriptions(variants: Seq<Expectation>) -> Seq<Seq<char>> {
    choose|l: Seq<Seq<char>>| sorted_unique_of(l, descriptions(variants))
}

/// `items` joined with `sep`.
pub open spec fn join_spec(items: Seq<Seq<char>>, sep: Seq<char>) -> Seq<char>
    decreases items.len(),
{
    if items.len() == 0 {
        Seq::empty()
    } else if items.len() == 1 {
        items[0]
    } else {
        join_spec(items.drop_last(), sep) + sep + items.last()
    }
}

/// What the message says was expected.
pub open spec fn expected_spec(l: Seq<Seq<char>>) -> Seq<char> {
    if l.len() == 0 {
        "end of input"@
    } else if l.len() == 1 {
        l[0]
    } else if l.len() == 2 {
        l[0] + " or "@ + l[1]
    } else {
        join_spec(l.drop_last(), ", "@) + ", or "@ + l.last()
    }
}

/// What the message says was found.
pub open spec fn found_spec(found: Option<char>) -> Seq<char> {
    match found {
        Some(c) => seq!['"'] + escape_char_spec(c) + seq!['"'],
        None => "end of input"@,
    }
}

/// peggy's message for a set of expectations and what was found instead.
pub open spec fn message_spec(variants: Seq<Expectation>, found: Option<char>) -> Seq<char> {
    "Expected "@ + expected_spec(sorted_descriptions(variants)) + " but "@ + found_spec(found)
        + " found."@
}

// ---- the order ------------------------------------------------------------

/// Byte order is irreflexive.
pub proof fn lemma_lex_irreflexive(a: Seq<char>)
    ensures
        !lex_lt(a, a),
    decreases a.len(),
{
    if a.len() > 0 {
        lemma_lex_irreflexive(a.drop_first());
    }
}

/// Byte order is transitive.
pub proof fn lemma_lex_transitive(a: Seq<char>, b: Seq<char>, c: Seq<char>)
    requires
        lex_lt(a, b),
        lex_lt(b, c),
    ensures
        lex_lt(a, c),
    decreases a.len(),
{
    if a.len() > 0 && b.len() > 0 && c.len() > 0 {
        if a[0] == b[0] && b[0] == c[0] {
            lemma_lex_transitive(a.drop_first(), b.drop_first(), c.drop_first());
        }
    }
}

/// Byte order is total.
pub proof fn lemma_lex_total(a: Seq<char>, b: Seq<char>)
    ensures
        a == b || lex_lt(a, b) || lex_lt(b, a),
    decreases a.len(),
{
    if a.len() > 0 && b.len() > 0 {
        if (a[0] as int) == (b[0] as int) {
            lemma_lex_total(a.drop_first(), b.drop_first());
            if a.drop_first() == b.drop_first() {
                assert(a =~= seq![a[0]] + a.drop_first());
                assert(b =~= seq![b[0]] + b.drop_first());
            }
        }
    } else if a.len() == 0 && b.len() == 0 {
        assert(a =~= b);
    }
}

/// Two strictly sorted sequences with the same elements are the same.
pub proof fn lemma_sorted_unique_is_unique(a: Seq<Seq<char>>, b: Seq<Seq<char>>)
    requires
        strictly_sorted(a),
        strictly_sorted(b),
        forall|x: Seq<char>| a.contains(x) <==> b.contains(x),
    ensures
        a == b,
    decreases a.len(),
{
    if a.len() == 0 {
        if b.len() > 0 {
            assert(b.contains(b[0]));
        }
        assert(a =~= b);
    } else if b.len() == 0 {
        assert(a.contains(a[0]));
    } else {
        // Both heads are the least element.
        assert(a.contains(b[0]));
        assert(b.contains(a[0]));
        let i = choose|i: int| 0 <= i < a.len() && a[i] == b[0];
        let j = choose|j: int| 0 <= j < b.len() && b[j] == a[0];
        if i > 0 {
            assert(lex_lt(a[0], a[i]));
            if j > 0 {
                assert(lex_lt(b[0], b[j]));
                lemma_lex_transitive(a[0], b[0], a[0]);
                lemma_lex_irreflexive(a[0]);
            } else {
                lemma_lex_irreflexive(a[0]);
            }
        }
        assert(a[0] == b[0]);
        let ta = a.drop_first();
        let tb = b.drop_first();
        assert forall|x: Seq<char>| ta.contains(x) <==> tb.contains(x) by {
            if ta.contains(x) {
                let k = choose|k: int| 0 <= k < ta.len() && ta[k] == x;
                assert(lex_lt(a[0], a[k + 1]));
                assert(b.contains(x));
                let m = choose|m: int| 0 <= m < b.len() && b[m] == x;
                if m == 0 {
                    lemma_lex_irreflexive(x);
                }
                assert(tb[m - 1] == x);
            }
            if tb.contains(x) {
                let k = choose|k: int| 0 <= k < tb.len() && tb[k] == x;
                assert(lex_lt(b[0], b[k + 1]));
                assert(a.contains(x));
                let m = choose|m: int| 0 <= m < a.len() && a[m] == x;
                if m == 0 {
                    lemma_lex_irreflexive(x);
                }
                assert(ta[m - 1] == x);
            }
        }
        lemma_sorted_unique_is_unique(ta, tb);
        assert(a =~= seq![a[0]] + ta);
        assert(b =~= seq![b[0]] + tb);
    }
}

// ---- the executable half --------------------------------------------------

fn hex_digit(d: u32) -> (c: char)
    requires
        d < 16,
    ensures
        c == hex_upper(d as nat),
{
    if d == 0 { '0' }
    else if d == 1 { '1' }
    else if d == 2 { '2' }
    else if d == 3 { '3' }
    else if d == 4 { '4' }
    else if d == 5 { '5' }
    else if d == 6 { '6' }
    else if d == 7 { '7' }
    else if d == 8 { '8' }
    else if d == 9 { '9' }
    else if d == 10 { 'A' }
    else if d == 11 { 'B' }
    else if d == 12 { 'C' }
    else if d == 13 { 'D' }
    else if d == 14 { 'E' }
    else { 'F' }
}

/// Append peggy's escape of one character.
fn push_escaped_char(out: &mut Vec<char>, c: char)
    ensures
        final(out)@ == old(out)@ + escape_char_spec(c),
{
    let ghost start = out@;
    let u = c as u32;
    if c == '\\' {
        out.push('\\');
        out.push('\\');
    } else if c == '"' {
        out.push('\\');
        out.push('"');
    } else if u == 0 {
        out.push('\\');
        out.push('0');
    } else if c == '\t' {
        out.push('\\');
        out.push('t');
    } else if c == '\n' {
        out.push('\\');
        out.push('n');
    } else if c == '\r' {
        out.push('\\');
        out.push('r');
    } else if 1 <= u && u <= 0xF {
        out.push('\\');
        out.push('x');
        out.push('0');
        out.push(hex_digit(u));
    } else if (0x10 <= u && u <= 0x1F) || (0x7F <= u && u <= 0x9F) {
        out.push('\\');
        out.push('x');
        out.push(hex_digit(u / 16));
        out.push(hex_digit(u % 16));
    } else {
        out.push(c);
    }
    assert(out@ =~= start + escape_char_spec(c));
}

/// Append peggy's escape of a string.
fn push_escaped(out: &mut Vec<char>, text: &str)
    ensures
        final(out)@ == old(out)@ + escape_spec(text@),
{
    let chars = crate::text::chars_of(text);
    let ghost start = out@;
    let mut i: usize = 0;
    while i < chars.len()
        invariant
            i <= chars@.len(),
            chars@ == text@,
            out@ == start + escape_spec(chars@.take(i as int)),
        decreases chars.len() - i,
    {
        push_escaped_char(out, chars[i]);
        assert(chars@.take(i + 1).drop_last() =~= chars@.take(i as int));
        i = i + 1;
        assert(out@ =~= start + escape_spec(chars@.take(i as int)));
    }
    assert(chars@.take(i as int) =~= chars@);
}

/// Escapes a string for a message, as peggy's `literalEscape` does.
///
/// Control characters become `\xNN` with uppercase hex.
pub fn escape(text: &str) -> (s: String)
    ensures
        s@ == escape_spec(text@),
{
    let mut out: Vec<char> = Vec::new();
    push_escaped(&mut out, text);
    assert(out@ =~= escape_spec(text@));
    string_of(&out)
}

impl Expectation {
    /// Describes this expectation the way peggy's `describeExpectation` does.
    pub fn describe(self) -> (d: Vec<char>)
        ensures
            d@ == describe_spec(self),
    {
        let mut out: Vec<char> = Vec::new();
        match self {
            Expectation::Literal(text) => {
                out.push('"');
                push_escaped(&mut out, text);
                out.push('"');
                assert(out@ =~= seq!['"'] + escape_spec(text@) + seq!['"']);
            },
            Expectation::Named(name) => {
                push_str(&mut out, name);
                assert(out@ =~= name@);
            },
            Expectation::EndOfInput => {
                push_str(&mut out, "end of input");
                assert(out@ =~= "end of input"@);
            },
        }
        out
    }
}

/// Whether `a` comes before `b` in byte order.
fn less(a: &Vec<char>, b: &Vec<char>) -> (r: bool)
    ensures
        r == lex_lt(a@, b@),
{
    let mut i: usize = 0;
    assert(a@.skip(0) =~= a@);
    assert(b@.skip(0) =~= b@);
    while i < a.len() && i < b.len() && a[i] == b[i]
        invariant
            i <= a@.len(),
            i <= b@.len(),
            lex_lt(a@, b@) == lex_lt(a@.skip(i as int), b@.skip(i as int)),
        decreases a.len() - i,
    {
        assert(a@.skip(i as int).drop_first() =~= a@.skip(i + 1));
        assert(b@.skip(i as int).drop_first() =~= b@.skip(i + 1));
        i = i + 1;
    }
    if i == a.len() {
        i < b.len()
    } else if i == b.len() {
        false
    } else {
        assert(a@.skip(i as int)[0] == a@[i as int]);
        assert(b@.skip(i as int)[0] == b@[i as int]);
        a[i] < b[i]
    }
}

/// Whether two character vectors are equal.
fn same(a: &Vec<char>, b: &Vec<char>) -> (r: bool)
    ensures
        r == (a@ == b@),
{
    if a.len() != b.len() {
        return false;
    }
    let mut i: usize = 0;
    while i < a.len()
        invariant
            i <= a@.len() == b@.len(),
            forall|k: int| 0 <= k < i ==> a@[k] == b@[k],
        decreases a.len() - i,
    {
        if a[i] != b[i] {
            return false;
        }
        i = i + 1;
    }
    assert(a@ =~= b@);
    true
}

/// The descriptions, sorted and de-duplicated.
fn sort_unique(variants: &[Expectation]) -> (l: Vec<Vec<char>>)
    ensures
        sorted_unique_of(l@.map_values(|v: Vec<char>| v@), descriptions(variants@)),
{
    let mut out: Vec<Vec<char>> = Vec::new();
    let ghost d = descriptions(variants@);
    let mut i: usize = 0;
    while i < variants.len()
        invariant
            i <= variants@.len(),
            d == descriptions(variants@),
            sorted_unique_of(out@.map_values(|v: Vec<char>| v@), d.take(i as int)),
        decreases variants.len() - i,
    {
        let text = variants[i].describe();
        let ghost prev = d.take(i as int);
        let ghost next = d.take(i + 1);
        let ghost before = out@.map_values(|v: Vec<char>| v@);
        // Find where `text` goes.
        let mut j: usize = 0;
        while j < out.len() && less(&out[j], &text)
            invariant
                j <= out@.len(),
                before == out@.map_values(|v: Vec<char>| v@),
                forall|k: int| 0 <= k < j ==> lex_lt(#[trigger] before[k], text@),
            decreases out.len() - j,
        {
            j = j + 1;
        }
        assert(next =~= prev.push(text@));
        if j < out.len() && same(&out[j], &text) {
            // Already present.
            assert forall|x: Seq<char>| before.contains(x) <==> next.contains(x) by {
                if next.contains(x) && x == text@ {
                    assert(before[j as int] == x);
                }
                if prev.contains(x) {
                    let k = choose|k: int| 0 <= k < i && prev[k] == x;
                    assert(next[k] == x);
                }
                if next.contains(x) && x != text@ {
                    let k = choose|k: int| 0 <= k < i + 1 && next[k] == x;
                    assert(prev[k] == x);
                }
            }
        } else {
            out.insert(j, text);
            let ghost after = out@.map_values(|v: Vec<char>| v@);
            assert(after =~= before.insert(j as int, text@));
            proof {
                if j < before.len() {
                    lemma_lex_total(before[j as int], text@);
                }
                assert forall|a: int, b: int| 0 <= a < b < after.len() implies lex_lt(
                    #[trigger] after[a],
                    #[trigger] after[b],
                ) by {
                    if b < j {
                        assert(after[a] == before[a] && after[b] == before[b]);
                    } else if b == j {
                        assert(after[a] == before[a]);
                    } else if a == j {
                        assert(after[b] == before[b - 1]);
                        if b - 1 > j {
                            assert(lex_lt(before[j as int], before[b - 1]));
                            lemma_lex_transitive(text@, before[j as int], before[b - 1]);
                        }
                    } else if a < j {
                        assert(after[a] == before[a] && after[b] == before[b - 1]);
                    } else {
                        assert(after[a] == before[a - 1] && after[b] == before[b - 1]);
                    }
                }
                assert forall|x: Seq<char>| after.contains(x) <==> next.contains(x) by {
                    if after.contains(x) {
                        let k = choose|k: int| 0 <= k < after.len() && after[k] == x;
                        if k < j {
                            assert(before[k] == x);
                        } else if k > j {
                            assert(before[k - 1] == x);
                        }
                        if x != text@ {
                            assert(before.contains(x));
                            let m = choose|m: int| 0 <= m < i && prev[m] == x;
                            assert(next[m] == x);
                        } else {
                            assert(next[i as int] == x);
                        }
                    }
                    if next.contains(x) {
                        let k = choose|k: int| 0 <= k < i + 1 && next[k] == x;
                        if k == i {
                            assert(after[j as int] == x);
                        } else {
                            assert(prev[k] == x);
                            assert(before.contains(x));
                            let m = choose|m: int| 0 <= m < before.len() && before[m] == x;
                            if m < j {
                                assert(after[m] == x);
                            } else {
                                assert(after[m + 1] == x);
                            }
                        }
                    }
                }
            }
        }
        i = i + 1;
    }
    assert(d.take(i as int) =~= d);
    out
}

/// Builds peggy's message from the expectation set and the offending
/// character.
pub fn build_message(variants: &[Expectation], found: Option<char>) -> (s: String)
    ensures
        s@ == message_spec(variants@, found),
{
    let list = sort_unique(variants);
    let ghost l = list@.map_values(|v: Vec<char>| v@);
    proof {
        let c = sorted_descriptions(variants@);
        assert(sorted_unique_of(c, descriptions(variants@)));
        lemma_sorted_unique_is_unique(l, c);
    }
    let mut out: Vec<char> = Vec::new();
    push_str(&mut out, "Expected ");
    let ghost before = out@;
    let n = list.len();
    if n == 0 {
        push_str(&mut out, "end of input");
    } else if n == 1 {
        push_chars(&mut out, &list[0]);
    } else if n == 2 {
        push_chars(&mut out, &list[0]);
        push_str(&mut out, " or ");
        push_chars(&mut out, &list[1]);
    } else {
        let mut k: usize = 0;
        while k < n - 1
            invariant
                k <= n - 1,
                n == list@.len(),
                n > 2,
                l == list@.map_values(|v: Vec<char>| v@),
                k == 0 ==> out@ == before,
                k > 0 ==> out@ == before + join_spec(l.take(k as int), ", "@),
            decreases n - 1 - k,
        {
            if k > 0 {
                push_str(&mut out, ", ");
            }
            push_chars(&mut out, &list[k]);
            proof {
                if k > 0 {
                    assert(l.take(k + 1).drop_last() =~= l.take(k as int));
                } else {
                    assert(l.take(1) =~= seq![l[0]]);
                }
            }
            k = k + 1;
        }
        push_str(&mut out, ", or ");
        push_chars(&mut out, &list[n - 1]);
        assert(l.drop_last() =~= l.take(n - 1));
    }
    assert(out@ =~= "Expected "@ + expected_spec(l));
    push_str(&mut out, " but ");
    match found {
        Some(c) => {
            out.push('"');
            push_escaped_char(&mut out, c);
            out.push('"');
        },
        None => {
            push_str(&mut out, "end of input");
        },
    }
    push_str(&mut out, " found.");
    assert(out@ =~= message_spec(variants@, found));
    string_of(&out)
}

/// A tag body that is not a tag.
///
/// The message is Markdoc's; the offsets are byte offsets into the tag body
/// that was parsed.
#[derive(Clone, Debug)]
pub struct TagError {
    message: String,
    start: usize,
    end: usize,
}

impl TagError {
    /// The message, as plain data.
    pub closed spec fn spec_message(&self) -> Seq<char> {
        self.message@
    }

    /// Where the parse failed.
    pub closed spec fn spec_start(&self) -> usize {
        self.start
    }

    /// Just past the offending character.
    pub closed spec fn spec_end(&self) -> usize {
        self.end
    }

    /// An error at a byte range of the tag body.
    pub fn new(message: String, start: usize, end: usize) -> (e: TagError)
        ensures
            e.spec_message() == message@,
            e.spec_start() == start,
            e.spec_end() == end,
    {
        TagError { message, start, end }
    }

    /// The message, which is Markdoc's message for the same input.
    pub fn message(&self) -> (s: &str)
        ensures
            s@ == self.spec_message(),
    {
        self.message.as_str()
    }

    /// The byte offset where the parse failed.
    pub fn start(&self) -> (n: usize)
        ensures
            n == self.spec_start(),
    {
        self.start
    }

    /// The byte offset just past the offending character.
    pub fn end(&self) -> (n: usize)
        ensures
            n == self.spec_end(),
    {
        self.end
    }
}

} // verus!
