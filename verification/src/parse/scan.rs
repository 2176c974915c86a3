//! Finding `{%` and `%}` in raw text.
//!
//! A tag attribute can hold a string, and a string can hold `%}`:
//! `{% foo bar="100%}" %}`. So the end of a tag is found by a three-state
//! machine -- normal, inside a string, just after a backslash -- rather than
//! by a search for the first `%}`.

use vstd::prelude::*;
use vstd::utf8::is_char_boundary;
use vstd::string::StringSliceAdditionalSpecFns;

verus! {

/// The opening delimiter.
pub const OPEN: &'static str = "{%";

/// The closing delimiter.
pub const CLOSE: &'static str = "%}";

/// Where the tag-end scanner is.
#[derive(Clone, Copy, PartialEq, Eq, Structural)]
pub enum ScanState {
    /// Outside any string.
    Normal,
    /// Inside a double-quoted string.
    String,
    /// Just after a backslash inside a string.
    Escape,
}

/// Whether `b[pos..]` starts with `{%`.
pub open spec fn opens_at(b: Seq<u8>, pos: int) -> bool {
    0 <= pos && pos + 1 < b.len() && b[pos] == 123u8 && b[pos + 1] == 37u8
}

/// Whether `b[pos..]` starts with `%}`.
pub open spec fn closes_at(b: Seq<u8>, pos: int) -> bool {
    0 <= pos && pos + 1 < b.len() && b[pos] == 37u8 && b[pos + 1] == 125u8
}

/// The offset of the first `%}` outside a string, scanning from `pos` in
/// `state`.
pub open spec fn scan_tag_end(b: Seq<u8>, pos: int, state: ScanState) -> Option<int>
    decreases b.len() - pos,
{
    if pos < 0 || pos >= b.len() {
        None
    } else {
        match state {
            ScanState::String => if b[pos] == 34u8 {
                scan_tag_end(b, pos + 1, ScanState::Normal)
            } else if b[pos] == 92u8 {
                scan_tag_end(b, pos + 1, ScanState::Escape)
            } else {
                scan_tag_end(b, pos + 1, ScanState::String)
            },
            ScanState::Escape => scan_tag_end(b, pos + 1, ScanState::String),
            ScanState::Normal => if b[pos] == 34u8 {
                scan_tag_end(b, pos + 1, ScanState::String)
            } else if closes_at(b, pos) {
                Some(pos)
            } else {
                scan_tag_end(b, pos + 1, ScanState::Normal)
            },
        }
    }
}

/// The offset of the `%}` closing a tag opened at or after `start`.
pub open spec fn tag_end(b: Seq<u8>, start: int) -> Option<int> {
    if start > b.len() {
        None
    } else {
        scan_tag_end(b, start, ScanState::Normal)
    }
}

/// A found end is a `%}` at or after the start.
pub proof fn lemma_scan_tag_end(b: Seq<u8>, pos: int, state: ScanState)
    ensures
        scan_tag_end(b, pos, state) matches Some(e) ==> pos <= e && closes_at(b, e),
    decreases b.len() - pos,
{
    if 0 <= pos < b.len() {
        lemma_scan_tag_end(b, pos + 1, ScanState::Normal);
        lemma_scan_tag_end(b, pos + 1, ScanState::String);
        lemma_scan_tag_end(b, pos + 1, ScanState::Escape);
    }
}

/// The byte offset of the `%}` that closes a tag opened at or after `start`.
///
/// Returns the offset of the `%` itself; [`None`] means the tag is never
/// closed, which is not an error: unclosed `{%` is ordinary text. A start past
/// the end, or one that is not on a character boundary, yields [`None`].
pub fn find_tag_end(content: &str, start: usize) -> (r: Option<usize>)
    ensures
        !is_char_boundary(content.spec_bytes(), start as int) ==> r is None,
        is_char_boundary(content.spec_bytes(), start as int) ==> (r matches Some(e) ==> tag_end(
            content.spec_bytes(),
            start as int,
        ) == Some(e as int)),
        is_char_boundary(content.spec_bytes(), start as int) ==> (r is None ==> tag_end(
            content.spec_bytes(),
            start as int,
        ) is None),
{
    if start > content.as_bytes().len() {
        return None;
    }
    if !content.is_char_boundary(start) {
        return None;
    }
    find_tag_end_bytes(content.as_bytes(), start)
}

/// A `{%` in a string starts a character.
pub proof fn lemma_open_boundary(s: &str, i: int)
    requires
        opens_at(s.spec_bytes(), i),
    ensures
        is_char_boundary(s.spec_bytes(), i),
{
    vstd::utf8::encode_utf8_valid_utf8(s@);
    vstd::utf8::is_char_boundary_iff_is_leading_byte(s.spec_bytes(), i);
}

/// [`find_tag_end`] over bytes.
pub fn find_tag_end_bytes(bytes: &[u8], start: usize) -> (r: Option<usize>)
    ensures
        r matches Some(e) ==> tag_end(bytes@, start as int) == Some(e as int),
        r is None ==> tag_end(bytes@, start as int) is None,
{
    if start > bytes.len() {
        return None;
    }
    let mut state = ScanState::Normal;
    let mut pos = start;
    while pos < bytes.len()
        invariant
            start <= pos <= bytes@.len(),
            tag_end(bytes@, start as int) == scan_tag_end(bytes@, pos as int, state),
        decreases bytes.len() - pos,
    {
        let byte = bytes[pos];
        match state {
            ScanState::String => {
                if byte == 34u8 {
                    state = ScanState::Normal;
                } else if byte == 92u8 {
                    state = ScanState::Escape;
                }
            },
            ScanState::Escape => {
                state = ScanState::String;
            },
            ScanState::Normal => {
                if byte == 34u8 {
                    state = ScanState::String;
                } else if pos + 1 < bytes.len() && byte == 37u8 && bytes[pos + 1] == 125u8 {
                    return Some(pos);
                }
            },
        }
        pos = pos + 1;
    }
    None
}

/// Whether `b` has the byte sequence `needle` at `at`.
pub open spec fn has_at(b: Seq<u8>, needle: Seq<u8>, at: int) -> bool {
    0 <= at && at + needle.len() <= b.len() && b.subrange(at, at + needle.len()) == needle
}

/// Whether `b` contains `needle`.
pub open spec fn contains_bytes(b: Seq<u8>, needle: Seq<u8>) -> bool {
    exists|at: int| #[trigger] has_at(b, needle, at)
}

/// The first offset at or after `pos` that opens a tag which closes, or -1.
pub open spec fn first_closed_tag(b: Seq<u8>, pos: int) -> int
    decreases b.len() - pos,
{
    if pos < 0 || pos >= b.len() {
        -1
    } else if !opens_at(b, pos) {
        first_closed_tag(b, pos + 1)
    } else if tag_end(b, pos) is None {
        first_closed_tag(b, pos + 2)
    } else {
        pos
    }
}

/// ASCII whitespace, as `u8::is_ascii_whitespace` has it.
pub open spec fn is_ascii_whitespace_byte(b: u8) -> bool {
    b == 32u8 || b == 9u8 || b == 10u8 || b == 12u8 || b == 13u8
}

/// Where the word ending at `pos` begins: just after the nearest whitespace
/// byte before it, or the start of the text.
pub open spec fn word_start(b: Seq<u8>, pos: int) -> int
    decreases pos,
{
    if pos <= 0 || pos > b.len() {
        if pos <= 0 { 0 } else { pos }
    } else if is_ascii_whitespace_byte(b[pos - 1]) {
        pos
    } else {
        word_start(b, pos - 1)
    }
}

/// A protocol followed by `://`.
pub open spec fn scheme_marker(protocol: &str) -> Seq<u8> {
    protocol.spec_bytes() + seq![58u8, 47u8, 47u8]
}

/// Markdoc's link rule: whether the text before the first closed tag, back
/// to the preceding whitespace, names one of `protocols` followed by `://`.
pub open spec fn tag_in_url(b: Seq<u8>, protocols: Seq<&str>) -> bool {
    let pos = first_closed_tag(b, 0);
    pos >= 0 && exists|i: int|
        0 <= i < protocols.len() && contains_bytes(
            b.subrange(word_start(b, pos), pos),
            scheme_marker(#[trigger] protocols[i]),
        )
}

/// Whether `needle` occurs in `hay[from..to]`.
fn contains_in(hay: &[u8], from: usize, to: usize, needle: &Vec<u8>) -> (r: bool)
    requires
        from <= to <= hay@.len(),
    ensures
        r == contains_bytes(hay@.subrange(from as int, to as int), needle@),
{
    let ghost window = hay@.subrange(from as int, to as int);
    if needle.len() > to - from {
        assert forall|at: int| !#[trigger] has_at(window, needle@, at) by {}
        return false;
    }
    let mut at = from;
    while needle.len() <= to - at
        invariant
            from <= at <= to,
            needle@.len() <= to - from,
            to <= hay@.len(),
            window == hay@.subrange(from as int, to as int),
            forall|k: int| 0 <= k < at - from ==> !#[trigger] has_at(window, needle@, k),
        decreases to - at,
    {
        let mut j: usize = 0;
        while j < needle.len() && hay[at + j] == needle[j]
            invariant
                j <= needle@.len(),
                at + needle@.len() <= to <= hay@.len(),
                forall|k: int| 0 <= k < j ==> hay@[at + k] == needle@[k],
            decreases needle.len() - j,
        {
            j = j + 1;
        }
        if j == needle.len() {
            assert(window.subrange(at - from, at - from + needle@.len()) =~= needle@);
            assert(has_at(window, needle@, at - from));
            return true;
        }
        assert(window[at - from + j] == hay@[at + j as int]);
        at = at + 1;
    }
    assert forall|k: int| !#[trigger] has_at(window, needle@, k) by {
        if 0 <= k && k + needle@.len() <= window.len() {
            assert(k < at - from);
        }
    }
    false
}

/// Whether a run of inline text puts a tag or a variable inside a URL.
///
/// Find the first `{%` that closes, walk back to the preceding whitespace,
/// and report whether the text between there and the tag contains one of
/// `protocols` followed by `://`. Only the first tag is considered, as
/// Markdoc has it.
pub fn contains_markdoc_tag_in_url(content: &str, protocols: &[&str]) -> (r: bool)
    ensures
        r == tag_in_url(content.spec_bytes(), protocols@),
{
    let bytes = content.as_bytes();
    let ghost b = bytes@;
    let mut pos: usize = 0;
    while pos < bytes.len()
        invariant
            b == bytes@,
            b == content.spec_bytes(),
            pos <= bytes@.len() + 1,
            first_closed_tag(b, 0) == first_closed_tag(b, pos as int),
        decreases bytes.len() + 1 - pos,
    {
        if !(pos + 1 < bytes.len() && bytes[pos] == 123u8 && bytes[pos + 1] == 37u8) {
            pos = pos + 1;
            continue;
        }
        if find_tag_end_bytes(bytes, pos).is_none() {
            pos = pos + 2;
            continue;
        }
        let mut start = pos;
        while start > 0 && !(bytes[start - 1] == 32u8 || bytes[start - 1] == 9u8 || bytes[start - 1]
            == 10u8 || bytes[start - 1] == 12u8 || bytes[start - 1] == 13u8)
            invariant
                start <= pos < bytes@.len(),
                b == bytes@,
                word_start(b, pos as int) == word_start(b, start as int),
            decreases start,
        {
            assert(word_start(b, start as int) == word_start(b, start - 1));
            start = start - 1;
        }
        assert(first_closed_tag(b, pos as int) == pos as int);
        let mut i: usize = 0;
        while i < protocols.len()
            invariant
                i <= protocols@.len(),
                start <= pos < bytes@.len(),
                b == bytes@,
                b == content.spec_bytes(),
                pos as int == first_closed_tag(b, 0),
                start as int == word_start(b, pos as int),
                forall|k: int|
                    0 <= k < i ==> !contains_bytes(
                        b.subrange(start as int, pos as int),
                        scheme_marker(#[trigger] protocols@[k]),
                    ),
            decreases protocols.len() - i,
        {
            let mut needle: Vec<u8> = Vec::new();
            let proto = protocols[i].as_bytes();
            let mut j: usize = 0;
            while j < proto.len()
                invariant
                    j <= proto@.len(),
                    needle@ == proto@.take(j as int),
                decreases proto.len() - j,
            {
                needle.push(proto[j]);
                j = j + 1;
                assert(needle@ =~= proto@.take(j as int));
            }
            needle.push(58u8);
            needle.push(47u8);
            needle.push(47u8);
            assert(needle@ =~= scheme_marker(protocols@[i as int]));
            if contains_in(bytes, start, pos, &needle) {
                assert(contains_bytes(
                    b.subrange(word_start(b, pos as int), pos as int),
                    scheme_marker(protocols@[i as int]),
                ));
                return true;
            }
            i = i + 1;
        }
        return false;
    }
    false
}

} // verus!
