//! markdown-it's `escapeHtml`, character for character.
//!
//! Exactly four characters are replaced -- `&`, `<`, `>` and `"` -- and
//! nothing else, including the single quote: every attribute the renderer
//! writes is double-quoted, so an apostrophe can never end one.

use vstd::prelude::*;
use vstd::string::StringExecFns;

use crate::text::{chars_of, push_str, string_of};

verus! {

/// What one character escapes to.
pub open spec fn escape_html_char(c: char) -> Seq<char> {
    if c == '&' {
        "&amp;"@
    } else if c == '<' {
        "&lt;"@
    } else if c == '>' {
        "&gt;"@
    } else if c == '"' {
        "&quot;"@
    } else {
        seq![c]
    }
}

/// The escaped form of a whole string.
pub open spec fn escape_html_spec(s: Seq<char>) -> Seq<char>
    decreases s.len(),
{
    if s.len() == 0 {
        Seq::empty()
    } else {
        escape_html_spec(s.drop_last()) + escape_html_char(s.last())
    }
}

/// Escaping distributes over concatenation.
pub proof fn lemma_escape_html_append(a: Seq<char>, b: Seq<char>)
    ensures
        escape_html_spec(a + b) == escape_html_spec(a) + escape_html_spec(b),
    decreases b.len(),
{
    if b.len() == 0 {
        assert(a + b =~= a);
        assert(escape_html_spec(a) + Seq::<char>::empty() =~= escape_html_spec(a));
    } else {
        lemma_escape_html_append(a, b.drop_last());
        assert((a + b).drop_last() =~= a + b.drop_last());
        assert((a + b).last() == b.last());
    }
}

/// Append the escaped form of `input` to a buffer of characters.
pub fn escape_html_chars(out: &mut Vec<char>, input: &str)
    ensures
        final(out)@ == old(out)@ + escape_html_spec(input@),
{
    let chars = chars_of(input);
    let ghost start = out@;
    let mut i: usize = 0;
    while i < chars.len()
        invariant
            i <= chars@.len(),
            chars@ == input@,
            out@ == start + escape_html_spec(chars@.take(i as int)),
        decreases chars.len() - i,
    {
        let c = chars[i];
        if c == '&' {
            push_str(out, "&amp;");
        } else if c == '<' {
            push_str(out, "&lt;");
        } else if c == '>' {
            push_str(out, "&gt;");
        } else if c == '"' {
            push_str(out, "&quot;");
        } else {
            out.push(c);
        }
        assert(chars@.take(i + 1).drop_last() =~= chars@.take(i as int));
        i = i + 1;
        assert(out@ =~= start + escape_html_spec(chars@.take(i as int)));
    }
    assert(chars@.take(i as int) =~= chars@);
}

/// Append the escaped form of `input` to `out`.
pub fn escape_html_into(out: &mut String, input: &str)
    ensures
        final(out)@ == old(out)@ + escape_html_spec(input@),
{
    let mut chars: Vec<char> = Vec::new();
    escape_html_chars(&mut chars, input);
    assert(chars@ =~= escape_html_spec(input@));
    let text = string_of(&chars);
    out.append(text.as_str());
}

/// Whether `c` is one of the four characters that escape.
pub open spec fn is_html_special(c: char) -> bool {
    c == '&' || c == '<' || c == '>' || c == '"'
}

/// A string with none of the four characters escapes to itself.
pub proof fn lemma_escape_html_plain(s: Seq<char>)
    requires
        forall|i: int| 0 <= i < s.len() ==> !is_html_special(#[trigger] s[i]),
    ensures
        escape_html_spec(s) == s,
    decreases s.len(),
{
    if s.len() > 0 {
        lemma_escape_html_plain(s.drop_last());
        assert(s.drop_last().push(s.last()) =~= s);
    }
}

/// Escape a string exactly as markdown-it's `escapeHtml` does.
///
/// Replaces `&`, `<`, `>` and `"` with their named entities and leaves
/// everything else unchanged. Returns the input borrowed when it contains
/// none of the four.
pub fn escape_html(input: &str) -> (r: std::borrow::Cow<'_, str>)
    ensures
        r@ == escape_html_spec(input@),
        r is Borrowed <==> forall|i: int| 0 <= i < input@.len() ==> !is_html_special(#[trigger] input@[i]),
{
    let chars = chars_of(input);
    let mut i: usize = 0;
    while i < chars.len()
        invariant
            i <= chars@.len(),
            chars@ == input@,
            forall|j: int| 0 <= j < i ==> !is_html_special(#[trigger] chars@[j]),
        decreases chars.len() - i,
    {
        let c = chars[i];
        if c == '&' || c == '<' || c == '>' || c == '"' {
            let mut out: Vec<char> = Vec::new();
            escape_html_chars(&mut out, input);
            assert(out@ =~= escape_html_spec(input@));
            return std::borrow::Cow::Owned(string_of(&out));
        }
        i = i + 1;
    }
    proof {
        lemma_escape_html_plain(input@);
    }
    std::borrow::Cow::Borrowed(input)
}

} // verus!
