//! The three character classes the formatter escapes, and the one it replaces.
//!
//! Two classes are global replacements over a character set; the third is a
//! non-global alternation, `/^\*|#+\s|^>/`, so it rewrites one match in the
//! whole string. Every class ends with the same substitution: a non-breaking
//! space becomes `&nbsp;`.

use vstd::prelude::*;

use crate::text::{chars_of, push_str, string_of};

verus! {

/// Which characters to escape.
#[derive(Clone, Copy, Debug, PartialEq, Eq, Structural)]
pub enum Escape {
    /// `/[()]/g` -- parentheses that would close a link destination early.
    Parens,
    /// `/[*_~]/g` -- markers that would close a `strong`, `em` or `s` early.
    Wrapping,
    /// `/^\*|#+\s|^>/` -- a leading `*`, a run of `#` before whitespace, or a
    /// leading `>`. One match, not global, `^` meaning the start of the text.
    Block,
}

/// Whether a character of `class`'s set is escaped wherever it appears.
pub open spec fn in_set(class: Escape, c: char) -> bool {
    match class {
        Escape::Parens => c == '(' || c == ')',
        Escape::Wrapping => c == '*' || c == '_' || c == '~',
        Escape::Block => false,
    }
}

/// A global replacement of a character set, each match prefixed with `\`.
pub open spec fn escape_set_spec(s: Seq<char>, class: Escape) -> Seq<char>
    decreases s.len(),
{
    if s.len() == 0 {
        Seq::empty()
    } else {
        escape_set_spec(s.drop_last(), class) + if in_set(class, s.last()) {
            seq!['\\', s.last()]
        } else {
            seq![s.last()]
        }
    }
}

/// Unicode `White_Space`, which is Rust's `char::is_whitespace`.
pub open spec fn unicode_whitespace(c: char) -> bool {
    let u = c as u32;
    (0x9 <= u <= 0xD) || u == 0x20 || u == 0x85 || u == 0xA0 || u == 0x1680 || (0x2000 <= u
        <= 0x200A) || u == 0x2028 || u == 0x2029 || u == 0x202F || u == 0x205F || u == 0x3000
}

/// JavaScript's `\s`, near enough: Unicode `White_Space` and U+FEFF.
pub open spec fn js_whitespace(c: char) -> bool {
    unicode_whitespace(c) || c == '\u{feff}'
}

/// The end of the run of `#` starting at `i`.
pub open spec fn hash_run_end(s: Seq<char>, i: int) -> int
    decreases s.len() - i,
{
    if i < 0 || i >= s.len() || s[i] != '#' {
        i
    } else {
        hash_run_end(s, i + 1)
    }
}

/// The first run of `#` at or after `i` that is followed by whitespace, or -1.
pub open spec fn hash_match_from(s: Seq<char>, i: int) -> int
    decreases s.len() - i,
{
    if i < 0 || i >= s.len() {
        -1
    } else if s[i] != '#' {
        hash_match_from(s, i + 1)
    } else {
        let e = hash_run_end(s, i);
        if e < s.len() && js_whitespace(s[e]) {
            i
        } else if i < e <= s.len() {
            hash_match_from(s, e)
        } else {
            -1
        }
    }
}

/// Where `/^\*|#+\s|^>/` matches first, or -1.
pub open spec fn first_block_match_spec(s: Seq<char>) -> int {
    if s.len() > 0 && (s[0] == '*' || s[0] == '>') {
        0
    } else {
        hash_match_from(s, 0)
    }
}

/// A backslash before the first match of the block class.
pub open spec fn escape_block_spec(s: Seq<char>) -> Seq<char> {
    let m = first_block_match_spec(s);
    if m < 0 {
        s
    } else {
        s.take(m) + seq!['\\'] + s.skip(m)
    }
}

/// U+00A0 written as `&nbsp;`.
pub open spec fn nbsp_spec(s: Seq<char>) -> Seq<char>
    decreases s.len(),
{
    if s.len() == 0 {
        Seq::empty()
    } else {
        nbsp_spec(s.drop_last()) + if s.last() == '\u{a0}' {
            "&nbsp;"@
        } else {
            seq![s.last()]
        }
    }
}

/// The escaped text for `class`.
pub open spec fn escape_markdown_spec(s: Seq<char>, class: Escape) -> Seq<char> {
    nbsp_spec(
        match class {
            Escape::Block => escape_block_spec(s),
            _ => escape_set_spec(s, class),
        },
    )
}

fn is_js_whitespace(c: char) -> (b: bool)
    ensures
        b == js_whitespace(c),
{
    let u = c as u32;
    (0x9 <= u && u <= 0xD) || u == 0x20 || u == 0x85 || u == 0xA0 || u == 0x1680 || (0x2000 <= u
        && u <= 0x200A) || u == 0x2028 || u == 0x2029 || u == 0x202F || u == 0x205F || u == 0x3000
        || u == 0xFEFF
}

fn escape_set(text: &Vec<char>, class: Escape) -> (out: Vec<char>)
    requires
        class != Escape::Block,
    ensures
        out@ == escape_set_spec(text@, class),
{
    let mut out: Vec<char> = Vec::new();
    let mut i: usize = 0;
    while i < text.len()
        invariant
            i <= text@.len(),
            class != Escape::Block,
            out@ == escape_set_spec(text@.take(i as int), class),
        decreases text.len() - i,
    {
        let c = text[i];
        let escaped = match class {
            Escape::Parens => c == '(' || c == ')',
            _ => c == '*' || c == '_' || c == '~',
        };
        if escaped {
            out.push('\\');
        }
        out.push(c);
        assert(text@.take(i + 1).drop_last() =~= text@.take(i as int));
        i = i + 1;
        assert(out@ =~= escape_set_spec(text@.take(i as int), class));
    }
    assert(text@.take(i as int) =~= text@);
    out
}

/// Where the single block-class match starts, if there is one.
fn first_block_match(text: &Vec<char>) -> (r: Option<usize>)
    ensures
        r matches Some(m) ==> first_block_match_spec(text@) == m as int && m < text@.len(),
        r is None ==> first_block_match_spec(text@) == -1,
{
    if text.len() > 0 && (text[0] == '*' || text[0] == '>') {
        return Some(0);
    }
    let mut i: usize = 0;
    while i < text.len()
        invariant
            i <= text@.len(),
            hash_match_from(text@, 0) == hash_match_from(text@, i as int),
            first_block_match_spec(text@) == hash_match_from(text@, 0),
        decreases text.len() - i,
    {
        if text[i] != '#' {
            i = i + 1;
            continue;
        }
        let mut e = i;
        while e < text.len() && text[e] == '#'
            invariant
                i <= e <= text@.len(),
                i < text@.len(),
                text@[i as int] == '#',
                hash_match_from(text@, 0) == hash_match_from(text@, i as int),
                first_block_match_spec(text@) == hash_match_from(text@, 0),
                hash_run_end(text@, i as int) == hash_run_end(text@, e as int),
            decreases text.len() - e,
        {
            e = e + 1;
        }
        assert(hash_run_end(text@, e as int) == e as int);
        if e < text.len() && is_js_whitespace(text[e]) {
            return Some(i);
        }
        i = e;
    }
    None
}

fn escape_block(text: &Vec<char>) -> (out: Vec<char>)
    ensures
        out@ == escape_block_spec(text@),
{
    let mut out: Vec<char> = Vec::new();
    match first_block_match(text) {
        None => {
            let mut i: usize = 0;
            while i < text.len()
                invariant
                    i <= text@.len(),
                    out@ == text@.take(i as int),
                decreases text.len() - i,
            {
                out.push(text[i]);
                i = i + 1;
                assert(out@ =~= text@.take(i as int));
            }
            assert(text@.take(i as int) =~= text@);
        },
        Some(m) => {
            let mut i: usize = 0;
            while i < text.len()
                invariant
                    i <= text@.len(),
                    m <= text@.len(),
                    i <= m ==> out@ == text@.take(i as int),
                    i > m ==> out@ == text@.take(m as int) + seq!['\\'] + text@.subrange(m as int, i as int),
                decreases text.len() - i,
            {
                if i == m {
                    out.push('\\');
                }
                out.push(text[i]);
                i = i + 1;
                assert(i <= m ==> out@ =~= text@.take(i as int));
                assert(i > m ==> out@ =~= text@.take(m as int) + seq!['\\'] + text@.subrange(m as int, i as int));
            }
            if m == text.len() {
                out.push('\\');
            }
            assert(out@ =~= text@.take(m as int) + seq!['\\'] + text@.skip(m as int));
        },
    }
    out
}

fn non_breaking_spaces(text: &Vec<char>) -> (out: Vec<char>)
    ensures
        out@ == nbsp_spec(text@),
{
    let mut out: Vec<char> = Vec::new();
    let mut i: usize = 0;
    while i < text.len()
        invariant
            i <= text@.len(),
            out@ == nbsp_spec(text@.take(i as int)),
        decreases text.len() - i,
    {
        if text[i] == '\u{a0}' {
            push_str(&mut out, "&nbsp;");
        } else {
            out.push(text[i]);
        }
        assert(text@.take(i + 1).drop_last() =~= text@.take(i as int));
        i = i + 1;
        assert(out@ =~= nbsp_spec(text@.take(i as int)));
    }
    assert(text@.take(i as int) =~= text@);
    out
}

/// Escape `text` for the given class, then write non-breaking spaces as
/// entities.
pub fn escape_markdown(text: &str, class: Escape) -> (s: String)
    ensures
        s@ == escape_markdown_spec(text@, class),
{
    let chars = chars_of(text);
    let escaped = match class {
        Escape::Block => escape_block(&chars),
        _ => escape_set(&chars, class),
    };
    let out = non_breaking_spaces(&escaped);
    string_of(&out)
}

} // verus!
