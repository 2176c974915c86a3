//! Splitting raw text into tags and runs of Markdown.
//!
//! Tag syntax is resolved before the CommonMark parse, by scanning raw text
//! line by line. Three jobs, in one pass:
//!
//! 1. **Block-level tags.** A line whose first non-blank content is `{%` and
//!    whose `%}` ends a line is a block of its own. It splits the document,
//!    so the Markdown on either side is tokenized separately.
//! 2. **Fences.** Inside a fenced code block nothing is a tag.
//! 3. **Inline tags, by masking.** A tag inside a text run is recorded, and
//!    its interior overwritten with `x` in a copy of the source that is what
//!    the tokenizer reads. Newlines survive, so every offset the tokenizer
//!    reports still indexes the original, and the block structure around a
//!    multi-line tag is unchanged.
//!
//! `segment_spec` states the scan; [`segment`] is proved to compute it.

use core::ops::Range;

use vstd::prelude::*;
use vstd::string::{StringExecFns, StringSliceAdditionalSpecFns};
use vstd::utf8::*;

use crate::format::unicode_whitespace;
use crate::parse::scan::{find_tag_end, lemma_scan_tag_end, opens_at, tag_end};
use crate::text::{chars_of, str_get};

verus! {

/// The span of one `{% ... %}`.
#[derive(Debug, PartialEq, Eq)]
pub struct TagSpan {
    /// The whole tag, delimiters included.
    pub outer: Range<usize>,
    /// What lies between the delimiters, untrimmed.
    pub inner: Range<usize>,
    /// The zero-based lines the tag spans, as `[first, last + 1]`.
    pub lines: [usize; 2],
}

/// One top-level piece of a document.
#[derive(Debug, PartialEq, Eq)]
pub enum Block {
    /// A run of ordinary Markdown, to be tokenized.
    Markdown(Range<usize>),
    /// A block-level tag, which the tokenizer never sees.
    Tag(TagSpan),
}

/// What one pass over the source produced.
pub struct Segmentation {
    /// The source with every inline tag's interior overwritten, byte for byte.
    pub masked: String,
    /// The document's blocks, in order.
    pub blocks: Vec<Block>,
    /// Every inline tag, in source order.
    pub inline_tags: Vec<TagSpan>,
}

/// A tag span, as plain data.
pub struct SpecSpan {
    /// The whole tag.
    pub outer: (int, int),
    /// Between the delimiters.
    pub inner: (int, int),
    /// First line, and one past the last.
    pub lines: (int, int),
}

/// A block, as plain data.
pub enum SpecBlock {
    /// A run of Markdown.
    Markdown(int, int),
    /// A block-level tag.
    Tag(SpecSpan),
}

/// Where a scan is: the masked copy, what has been found, where the pending
/// Markdown run starts, and the open fence if there is one.
pub struct SegState {
    /// The masked copy.
    pub masked: Seq<u8>,
    /// The blocks so far.
    pub blocks: Seq<SpecBlock>,
    /// The inline tags so far.
    pub inline: Seq<SpecSpan>,
    /// Where the pending Markdown run starts.
    pub markdown_start: int,
    /// The open fence's marker and length.
    pub fence: Option<(u8, int)>,
}

/// What a tag span means.
pub open spec fn span_view(t: TagSpan) -> SpecSpan {
    SpecSpan {
        outer: (t.outer.start as int, t.outer.end as int),
        inner: (t.inner.start as int, t.inner.end as int),
        lines: (t.lines[0] as int, t.lines[1] as int),
    }
}

/// What a block means.
pub open spec fn block_view(b: Block) -> SpecBlock {
    match b {
        Block::Markdown(r) => SpecBlock::Markdown(r.start as int, r.end as int),
        Block::Tag(t) => SpecBlock::Tag(span_view(t)),
    }
}

/// What a list of blocks means.
pub open spec fn blocks_view(bs: Seq<Block>) -> Seq<SpecBlock> {
    bs.map_values(|b: Block| block_view(b))
}

/// What a list of tag spans means.
pub open spec fn spans_view(ts: Seq<TagSpan>) -> Seq<SpecSpan> {
    ts.map_values(|t: TagSpan| span_view(t))
}

// ---- lines -----------------------------------------------------------------

/// The first newline at or after `i`, or the length.
pub open spec fn next_newline(src: Seq<u8>, i: int) -> int
    decreases src.len() - i,
{
    if i < 0 || i >= src.len() {
        src.len() as int
    } else if src[i] == 10u8 {
        i
    } else {
        next_newline(src, i + 1)
    }
}

/// A newline search stays in range and finds no newline before it stops.
pub proof fn lemma_next_newline(src: Seq<u8>, i: int)
    requires
        0 <= i <= src.len(),
    ensures
        i <= next_newline(src, i) <= src.len(),
        next_newline(src, i) < src.len() ==> src[next_newline(src, i)] == 10u8,
        forall|j: int| i <= j < next_newline(src, i) ==> src[j] != 10u8,
    decreases src.len() - i,
{
    if i < src.len() && src[i] != 10u8 {
        lemma_next_newline(src, i + 1);
    }
}

/// The lines from `start` on, each a byte range with its newline excluded.
pub open spec fn lines_from(src: Seq<u8>, start: int) -> Seq<(int, int)>
    decreases src.len() - start,
{
    if start < 0 || start > src.len() {
        Seq::empty()
    } else {
        let e = next_newline(src, start);
        proof {
            lemma_next_newline(src, start);
        }
        if e >= src.len() {
            seq![(start, src.len() as int)]
        } else {
            seq![(start, e)] + lines_from(src, e + 1)
        }
    }
}

/// Each line of a source, as a byte range with its newline excluded. A
/// trailing newline opens one last, empty line.
pub open spec fn line_ranges_spec(src: Seq<u8>) -> Seq<(int, int)> {
    lines_from(src, 0)
}

/// Lines lie in order within the source.
pub proof fn lemma_lines_from(src: Seq<u8>, start: int)
    requires
        0 <= start <= src.len(),
    ensures
        lines_from(src, start).len() >= 1,
        forall|k: int|
            0 <= k < lines_from(src, start).len() ==> start <= (#[trigger] lines_from(src, start)[k]).0
                <= lines_from(src, start)[k].1 <= src.len(),
    decreases src.len() - start,
{
    lemma_next_newline(src, start);
    let e = next_newline(src, start);
    if e < src.len() {
        lemma_lines_from(src, e + 1);
        let rest = lines_from(src, e + 1);
        assert forall|k: int| 0 <= k < lines_from(src, start).len() implies start <= (
        #[trigger] lines_from(src, start)[k]).0 <= lines_from(src, start)[k].1 <= src.len() by {
            if k > 0 {
                assert(lines_from(src, start)[k] == rest[k - 1]);
            }
        }
    }
}

/// The byte ranges of each line, newline excluded.
fn line_ranges(source: &[u8]) -> (out: Vec<(usize, usize)>)
    ensures
        out@.len() == line_ranges_spec(source@).len(),
        forall|k: int| 0 <= k < out@.len() ==> (#[trigger] out@[k]).0 as int == line_ranges_spec(
            source@,
        )[k].0 && out@[k].1 as int == line_ranges_spec(source@)[k].1,
{
    let ghost src = source@;
    let mut out: Vec<(usize, usize)> = Vec::new();
    let ghost mut done: Seq<(int, int)> = Seq::empty();
    let mut start: usize = 0;
    let mut i: usize = 0;
    while i < source.len()
        invariant
            start <= i <= src.len(),
            src == source@,
            next_newline(src, start as int) == next_newline(src, i as int),
            done + lines_from(src, start as int) == line_ranges_spec(src),
            out@.len() == done.len(),
            forall|k: int| 0 <= k < out@.len() ==> (#[trigger] out@[k]).0 as int == done[k].0 && out@[k].1 as int == done[k].1,
        decreases source.len() - i,
    {
        if source[i] == 10u8 {
            proof {
                lemma_next_newline(src, start as int);
                assert(lines_from(src, start as int) == seq![(start as int, i as int)] + lines_from(src, i + 1));
                assert(done + lines_from(src, start as int) =~= done.push((start as int, i as int)) + lines_from(src, i + 1));
                done = done.push((start as int, i as int));
            }
            out.push((start, i));
            start = i + 1;
        }
        i = i + 1;
    }
    proof {
        assert(next_newline(src, i as int) == src.len());
        assert(lines_from(src, start as int) == seq![(start as int, src.len() as int)]);
        done = done.push((start as int, src.len() as int));
    }
    out.push((start, source.len()));
    assert(done =~= line_ranges_spec(src));
    out
}

// ---- small scanners ----------------------------------------------------------

/// The end of the run of spaces and tabs at `p`, within `[p, e)`.
pub open spec fn indent_end(src: Seq<u8>, p: int, e: int) -> int
    decreases e - p,
{
    if 0 <= p < e && p < src.len() && (src[p] == 32u8 || src[p] == 9u8) {
        indent_end(src, p + 1, e)
    } else {
        p
    }
}

/// The end of the run of `m` at `p`, within `[p, e)`.
pub open spec fn run_end(src: Seq<u8>, p: int, e: int, m: u8) -> int
    decreases e - p,
{
    if 0 <= p < e && p < src.len() && src[p] == m {
        run_end(src, p + 1, e, m)
    } else {
        p
    }
}

/// Whether `m` occurs in `[p, e)`.
pub open spec fn has_byte(src: Seq<u8>, p: int, e: int, m: u8) -> bool
    decreases e - p,
{
    if p < 0 || p >= e || p >= src.len() {
        false
    } else {
        src[p] == m || has_byte(src, p + 1, e, m)
    }
}

/// Runs stay within their window.
pub proof fn lemma_runs(src: Seq<u8>, p: int, e: int, m: u8)
    requires
        0 <= p <= e <= src.len(),
    ensures
        p <= indent_end(src, p, e) <= e,
        p <= run_end(src, p, e, m) <= e,
    decreases e - p,
{
    if p < e {
        lemma_runs(src, p + 1, e, m);
    }
}

fn indent_end_of(src: &[u8], p: usize, e: usize) -> (r: usize)
    requires
        p <= e <= src@.len(),
    ensures
        r == indent_end(src@, p as int, e as int),
{
    let mut q = p;
    while q < e && (src[q] == 32u8 || src[q] == 9u8)
        invariant
            p <= q <= e <= src@.len(),
            indent_end(src@, p as int, e as int) == indent_end(src@, q as int, e as int),
        decreases e - q,
    {
        q = q + 1;
    }
    q
}

fn run_end_of(src: &[u8], p: usize, e: usize, m: u8) -> (r: usize)
    requires
        p <= e <= src@.len(),
    ensures
        r == run_end(src@, p as int, e as int, m),
{
    let mut q = p;
    while q < e && src[q] == m
        invariant
            p <= q <= e <= src@.len(),
            run_end(src@, p as int, e as int, m) == run_end(src@, q as int, e as int, m),
        decreases e - q,
    {
        q = q + 1;
    }
    q
}

fn has_byte_in(src: &[u8], p: usize, e: usize, m: u8) -> (r: bool)
    requires
        p <= e <= src@.len(),
    ensures
        r == has_byte(src@, p as int, e as int, m),
{
    let mut q = p;
    while q < e
        invariant
            p <= q <= e <= src@.len(),
            has_byte(src@, p as int, e as int, m) == has_byte(src@, q as int, e as int, m),
        decreases e - q,
    {
        if src[q] == m {
            return true;
        }
        q = q + 1;
    }
    false
}

/// The characters of the bytes `[a, b)`, when both ends are on character
/// boundaries.
pub open spec fn sub_chars(src: Seq<u8>, a: int, b: int) -> Option<Seq<char>> {
    if 0 <= a <= b <= src.len() && is_char_boundary(src, a) && is_char_boundary(src, b) {
        Some(decode_utf8(src.subrange(a, b)))
    } else {
        None
    }
}

/// Whether every character is whitespace: what `trim().is_empty()` asks.
pub open spec fn blank(t: Seq<char>) -> bool {
    forall|i: int| 0 <= i < t.len() ==> unicode_whitespace(#[trigger] t[i])
}

/// Whether the first character that is not whitespace is `$`: what
/// `trim_start().starts_with('$')` asks.
pub open spec fn starts_with_dollar(t: Seq<char>) -> bool {
    exists|k: int|
        0 <= k < t.len() && t[k] == '$' && forall|i: int| 0 <= i < k ==> unicode_whitespace(#[trigger] t[i])
}

fn is_unicode_whitespace(c: char) -> (b: bool)
    ensures
        b == unicode_whitespace(c),
{
    let u = c as u32;
    (0x9 <= u && u <= 0xD) || u == 0x20 || u == 0x85 || u == 0xA0 || u == 0x1680 || (0x2000 <= u
        && u <= 0x200A) || u == 0x2028 || u == 0x2029 || u == 0x202F || u == 0x205F || u == 0x3000
}

/// The characters of `source[a..b]`, if both ends are boundaries.
fn sub_text(source: &str, a: usize, b: usize) -> (r: Option<Vec<char>>)
    ensures
        match sub_chars(source.spec_bytes(), a as int, b as int) {
            Some(t) => r matches Some(v) && v@ == t,
            None => r is None,
        },
{
    match str_get(source, a, b) {
        Some(t) => {
            proof {
                encode_utf8_decode_utf8(t@);
            }
            Some(chars_of(t))
        },
        None => None,
    }
}

fn is_blank(t: &Vec<char>) -> (b: bool)
    ensures
        b == blank(t@),
{
    let mut i: usize = 0;
    while i < t.len()
        invariant
            i <= t@.len(),
            forall|j: int| 0 <= j < i ==> unicode_whitespace(#[trigger] t@[j]),
        decreases t.len() - i,
    {
        if !is_unicode_whitespace(t[i]) {
            return false;
        }
        i = i + 1;
    }
    true
}

fn begins_with_dollar(t: &Vec<char>) -> (b: bool)
    ensures
        b == starts_with_dollar(t@),
{
    let mut i: usize = 0;
    while i < t.len()
        invariant
            i <= t@.len(),
            forall|j: int| 0 <= j < i ==> unicode_whitespace(#[trigger] t@[j]),
        decreases t.len() - i,
    {
        if !is_unicode_whitespace(t[i]) {
            if t[i] == '$' {
                return true;
            }
            proof {
                assert forall|k: int|
                    0 <= k < t@.len() && t@[k] == '$' implies !(forall|j: int|
                    0 <= j < k ==> unicode_whitespace(#[trigger] t@[j])) by {
                    if k > i {
                        assert(!unicode_whitespace(t@[i as int]));
                    }
                }
            }
            return false;
        }
        i = i + 1;
    }
    false
}

// ---- fences --------------------------------------------------------------------

/// An open fenced code block.
struct Fence {
    marker: u8,
    length: usize,
}

/// Whether the line `[s, e)` opens a fence, and with what marker and length.
/// Any indentation is accepted; a backtick fence's info string may not hold a
/// backtick, which keeps an inline code span from opening one.
pub open spec fn opens_fence_spec(src: Seq<u8>, s: int, e: int) -> Option<(u8, int)> {
    let t = indent_end(src, s, e);
    if t >= e {
        None
    } else {
        let m = src[t];
        if m != 96u8 && m != 126u8 {
            None
        } else {
            let len = run_end(src, t, e, m) - t;
            if len < 3 {
                None
            } else if m == 96u8 && has_byte(src, t + len, e, 96u8) {
                None
            } else {
                Some((m, len))
            }
        }
    }
}

/// Whether the line `[s, e)` closes an open fence: a run of its marker at
/// least as long, and nothing after it but whitespace.
pub open spec fn closes_fence_spec(src: Seq<u8>, s: int, e: int, marker: u8, length: int) -> bool {
    let t = indent_end(src, s, e);
    let len = run_end(src, t, e, marker) - t;
    len >= length && (sub_chars(src, t + len, e) matches Some(rest) && blank(rest))
}

fn opens_fence(source: &str, src: &[u8], s: usize, e: usize) -> (r: Option<Fence>)
    requires
        src@ == source.spec_bytes(),
        s <= e <= src@.len(),
    ensures
        match opens_fence_spec(src@, s as int, e as int) {
            Some((m, len)) => r matches Some(f) && f.marker == m && f.length == len,
            None => r is None,
        },
{
    proof {
        lemma_runs(src@, s as int, e as int, 0u8);
    }
    let t = indent_end_of(src, s, e);
    if t >= e {
        return None;
    }
    let m = src[t];
    if m != 96u8 && m != 126u8 {
        return None;
    }
    proof {
        lemma_runs(src@, t as int, e as int, m);
    }
    let end = run_end_of(src, t, e, m);
    let len = end - t;
    if len < 3 {
        return None;
    }
    if m == 96u8 && has_byte_in(src, end, e, 96u8) {
        return None;
    }
    Some(Fence { marker: m, length: len })
}

fn closes_fence(source: &str, src: &[u8], s: usize, e: usize, fence: &Fence) -> (b: bool)
    requires
        src@ == source.spec_bytes(),
        s <= e <= src@.len(),
    ensures
        b == closes_fence_spec(src@, s as int, e as int, fence.marker, fence.length as int),
{
    proof {
        lemma_runs(src@, s as int, e as int, 0u8);
    }
    let t = indent_end_of(src, s, e);
    proof {
        lemma_runs(src@, t as int, e as int, fence.marker);
    }
    let end = run_end_of(src, t, e, fence.marker);
    if end - t < fence.length {
        return false;
    }
    match sub_text(source, end, e) {
        Some(rest) => is_blank(&rest),
        None => false,
    }
}

// ---- tags ----------------------------------------------------------------------

/// The line holding `offset`, searching forward from `i`, or -1.
pub open spec fn line_from(lines: Seq<(int, int)>, i: int, offset: int) -> int
    decreases lines.len() - i,
{
    if i < 0 || i >= lines.len() {
        -1
    } else if offset <= lines[i].1 {
        i
    } else {
        line_from(lines, i + 1, offset)
    }
}

/// The line holding `offset`, searching forward from `from`; past the end,
/// the last line, and never before `from`.
pub open spec fn line_of_spec(lines: Seq<(int, int)>, from: int, offset: int) -> int {
    let r = line_from(lines, from, offset);
    if r >= 0 {
        r
    } else {
        let last = if lines.len() >= 1 {
            lines.len() - 1
        } else {
            0
        };
        if last >= from {
            last
        } else {
            from
        }
    }
}

/// Searching from a line finds that line or a later one.
pub proof fn lemma_line_of(lines: Seq<(int, int)>, from: int, offset: int)
    requires
        0 <= from < lines.len(),
    ensures
        from <= line_of_spec(lines, from, offset) < lines.len(),
{
    lemma_line_from(lines, from, offset);
}

/// A forward search finds a line at or after where it started.
pub proof fn lemma_line_from(lines: Seq<(int, int)>, i: int, offset: int)
    requires
        0 <= i,
    ensures
        line_from(lines, i, offset) == -1 || i <= line_from(lines, i, offset) < lines.len(),
    decreases lines.len() - i,
{
    if i < lines.len() && offset > lines[i].1 {
        lemma_line_from(lines, i + 1, offset);
    }
}

fn line_of(lines: &Vec<(usize, usize)>, from: usize, offset: usize) -> (r: usize)
    ensures
        r as int == line_of_spec(lines@.map_values(|l: (usize, usize)| (l.0 as int, l.1 as int)), from as int, offset as int),
{
    let ghost ls = lines@.map_values(|l: (usize, usize)| (l.0 as int, l.1 as int));
    let mut i = from;
    while i < lines.len()
        invariant
            from <= i,
            ls == lines@.map_values(|l: (usize, usize)| (l.0 as int, l.1 as int)),
            line_from(ls, from as int, offset as int) == line_from(ls, i as int, offset as int),
        decreases lines.len() - i,
    {
        if offset <= lines[i].1 {
            return i;
        }
        i = i + 1;
    }
    let last = if lines.len() >= 1 { lines.len() - 1 } else { 0 };
    if last >= from {
        last
    } else {
        from
    }
}

/// Whether the line `index`, whose content starts at `cs`, is a block-level
/// tag, and its span: the line starts with `{%`, the tag closes, what it
/// holds does not start with `$`, and nothing but whitespace follows `%}` on
/// the line that closes it.
pub open spec fn block_tag_spec(src: Seq<u8>, lines: Seq<(int, int)>, index: int, cs: int) -> Option<SpecSpan> {
    if !opens_at(src, cs) {
        None
    } else {
        match tag_end(src, cs) {
            None => None,
            Some(te) => match sub_chars(src, cs + 2, te) {
                None => None,
                Some(inner) => if starts_with_dollar(inner) {
                    None
                } else {
                    let outer_end = te + 2;
                    let last = line_of_spec(lines, index, outer_end);
                    if !(0 <= last < lines.len()) {
                        None
                    } else {
                        match sub_chars(src, outer_end, lines[last].1) {
                            Some(rest) => if blank(rest) {
                                Some(
                                    SpecSpan {
                                        outer: (cs, outer_end),
                                        inner: (cs + 2, te),
                                        lines: (index, last + 1),
                                    },
                                )
                            } else {
                                None
                            },
                            None => None,
                        }
                    }
                },
            },
        }
    }
}

/// Overwrite `[a, b)` with `x`, keeping newlines.
pub open spec fn mask_spec(masked: Seq<u8>, a: int, b: int) -> Seq<u8> {
    Seq::new(
        masked.len(),
        |i: int|
            if a <= i < b && masked[i] != 10u8 {
                120u8
            } else {
                masked[i]
            },
    )
}

/// Close the pending Markdown run at `end`, if it is not empty.
pub open spec fn flush_spec(st: SegState, end: int, n: int) -> SegState {
    if end > st.markdown_start {
        SegState {
            blocks: st.blocks.push(SpecBlock::Markdown(st.markdown_start, if end < n { end } else { n })),
            ..st
        }
    } else {
        st
    }
}

/// How much of line `index` lies at or after `pos`.
pub open spec fn left_on_line(lines: Seq<(int, int)>, index: int, pos: int) -> int {
    if 0 <= index < lines.len() && pos < lines[index].1 {
        lines[index].1 - pos
    } else {
        0
    }
}

/// Record and mask every tag on the line `index` from `pos` on; returns the
/// state and the next line to handle.
pub open spec fn mask_from(
    src: Seq<u8>,
    lines: Seq<(int, int)>,
    index: int,
    pos: int,
    last: int,
    st: SegState,
) -> (SegState, int)
    decreases left_on_line(lines, index, pos),
{
    if !(0 <= index < lines.len()) || pos < 0 || pos >= lines[index].1 {
        (st, last + 1)
    } else if !opens_at(src, pos) {
        mask_from(src, lines, index, pos + 1, last, st)
    } else {
        match tag_end(src, pos) {
            None => mask_from(src, lines, index, pos + 2, last, st),
            Some(te) => {
                proof {
                    lemma_scan_tag_end(src, pos, crate::parse::scan::ScanState::Normal);
                }
                let outer_end = te + 2;
                let l = line_of_spec(lines, index, outer_end);
                let next = SegState {
                    masked: mask_spec(st.masked, pos + 2, te),
                    inline: st.inline.push(
                        SpecSpan { outer: (pos, outer_end), inner: (pos + 2, te), lines: (index, l + 1) },
                    ),
                    ..st
                };
                mask_from(src, lines, index, outer_end, l, next)
            },
        }
    }
}

/// One line of the scan: returns the state and the next line to handle.
pub open spec fn line_step(src: Seq<u8>, lines: Seq<(int, int)>, index: int, st: SegState) -> (SegState, int) {
    if !(0 <= index < lines.len()) {
        (st, index + 1)
    } else {
        let s = lines[index].0;
        let e = lines[index].1;
        let (ts, te) = if sub_chars(src, s, e) is Some {
            (s, e)
        } else {
            (s, s)
        };
        match st.fence {
            Some((marker, length)) => (
                if closes_fence_spec(src, ts, te, marker, length) {
                    SegState { fence: None, ..st }
                } else {
                    st
                },
                index + 1,
            ),
            None => match opens_fence_spec(src, ts, te) {
                Some(f) => (SegState { fence: Some(f), ..st }, index + 1),
                None => {
                    let cs = s + (indent_end(src, ts, te) - ts);
                    match block_tag_spec(src, lines, index, cs) {
                        Some(span) => {
                            let next = span.lines.1;
                            let flushed = flush_spec(st, s, src.len() as int);
                            (
                                SegState {
                                    markdown_start: if 0 <= next < lines.len() {
                                        lines[next].0
                                    } else {
                                        src.len() as int
                                    },
                                    blocks: flushed.blocks.push(SpecBlock::Tag(span)),
                                    ..flushed
                                },
                                if next > index + 1 {
                                    next
                                } else {
                                    index + 1
                                },
                            )
                        },
                        None => mask_from(src, lines, index, s, index, st),
                    }
                },
            },
        }
    }
}

/// The next line a step hands on to is after the one it handled.
pub proof fn lemma_line_step_advances(src: Seq<u8>, lines: Seq<(int, int)>, index: int, st: SegState)
    requires
        0 <= index,
    ensures
        line_step(src, lines, index, st).1 > index,
{
    if 0 <= index < lines.len() {
        lemma_mask_from_advances(src, lines, index, lines[index].0, index, st);
    }
}

/// Masking a line hands on a line after it.
pub proof fn lemma_mask_from_advances(
    src: Seq<u8>,
    lines: Seq<(int, int)>,
    index: int,
    pos: int,
    last: int,
    st: SegState,
)
    requires
        0 <= index <= last,
    ensures
        mask_from(src, lines, index, pos, last, st).1 > index,
    decreases left_on_line(lines, index, pos),
{
    if !(!(0 <= index < lines.len()) || pos < 0 || pos >= lines[index].1) {
        if !opens_at(src, pos) {
            lemma_mask_from_advances(src, lines, index, pos + 1, last, st);
        } else {
            match tag_end(src, pos) {
                None => lemma_mask_from_advances(src, lines, index, pos + 2, last, st),
                Some(te) => {
                    lemma_scan_tag_end(src, pos, crate::parse::scan::ScanState::Normal);
                    let outer_end = te + 2;
                    let l = line_of_spec(lines, index, outer_end);
                    lemma_line_from(lines, index, outer_end);
                    let next = SegState {
                        masked: mask_spec(st.masked, pos + 2, te),
                        inline: st.inline.push(
                            SpecSpan { outer: (pos, outer_end), inner: (pos + 2, te), lines: (index, l + 1) },
                        ),
                        ..st
                    };
                    lemma_mask_from_advances(src, lines, index, outer_end, l, next);
                },
            }
        }
    }
}

/// The scan from line `index` on.
pub open spec fn scan_lines(src: Seq<u8>, lines: Seq<(int, int)>, index: int, st: SegState) -> SegState
    decreases if index < lines.len() {
        lines.len() - index
    } else {
        0
    },
{
    if index < 0 || index >= lines.len() {
        st
    } else {
        let (next_state, next) = line_step(src, lines, index, st);
        proof {
            lemma_line_step_advances(src, lines, index, st);
        }
        scan_lines(src, lines, next, next_state)
    }
}

/// What a document segments into.
pub open spec fn segment_spec(src: Seq<u8>) -> SegState {
    let lines = line_ranges_spec(src);
    let start = SegState {
        masked: src,
        blocks: Seq::empty(),
        inline: Seq::empty(),
        markdown_start: 0,
        fence: None,
    };
    flush_spec(scan_lines(src, lines, 0, start), src.len() as int, src.len() as int)
}

// ---- the scan ----------------------------------------------------------------

/// `String::from_utf8`: the bytes as a string, when they are UTF-8.
#[verifier::external_body]
fn string_from_utf8(bytes: Vec<u8>) -> (r: Option<String>)
    ensures
        r is Some <==> valid_utf8(bytes@),
        r matches Some(s) ==> s@ == decode_utf8(bytes@),
{
    String::from_utf8(bytes).ok()
}

/// What a fence means.
spec fn fence_view(f: Option<Fence>) -> Option<(u8, int)> {
    match f {
        Some(f) => Some((f.marker, f.length as int)),
        None => None,
    }
}

/// The lines, as plain data.
pub open spec fn lines_view(lines: Seq<(usize, usize)>) -> Seq<(int, int)> {
    lines.map_values(|l: (usize, usize)| (l.0 as int, l.1 as int))
}

struct Scan<'s> {
    source: &'s str,
    src: &'s [u8],
    masked: Vec<u8>,
    blocks: Vec<Block>,
    inline_tags: Vec<TagSpan>,
    markdown_start: usize,
    fence: Option<Fence>,
}

impl<'s> Scan<'s> {
    spec fn state(&self) -> SegState {
        SegState {
            masked: self.masked@,
            blocks: blocks_view(self.blocks@),
            inline: spans_view(self.inline_tags@),
            markdown_start: self.markdown_start as int,
            fence: fence_view(self.fence),
        }
    }

    spec fn wf(&self) -> bool {
        &&& self.src@ == self.source.spec_bytes()
        &&& self.masked@.len() == self.src@.len()
    }

    /// Overwrite `[a, b)` of the masked copy with `x`, keeping newlines.
    fn mask(&mut self, a: usize, b: usize)
        requires
            old(self).wf(),
        ensures
            final(self).wf(),
            final(self).source == old(self).source,
            final(self).src == old(self).src,
            final(self).state() == (SegState { masked: mask_spec(old(self).masked@, a as int, b as int), ..old(self).state() }),
    {
        let ghost start = self.masked@;
        let mut i = a;
        assert(mask_spec(start, a as int, a as int) =~= start);
        while i < b
            invariant
                a <= i <= b || (i == a && b < a),
                self.wf(),
                self.source == old(self).source,
                self.src == old(self).src,
                self.blocks == old(self).blocks,
                self.inline_tags == old(self).inline_tags,
                self.markdown_start == old(self).markdown_start,
                self.fence == old(self).fence,
                start == old(self).masked@,
                self.masked@ == mask_spec(start, a as int, i as int),
            decreases b - i,
        {
            if i < self.masked.len() && self.masked[i] != 10u8 {
                self.masked.set(i, 120u8);
            }
            i = i + 1;
            assert(self.masked@ =~= mask_spec(start, a as int, i as int));
        }
        assert(self.masked@ =~= mask_spec(start, a as int, b as int));
    }

    /// Close the pending Markdown run at `end`, if it is not empty.
    fn flush_markdown(&mut self, end: usize)
        requires
            old(self).wf(),
        ensures
            final(self).wf(),
            final(self).source == old(self).source,
            final(self).src == old(self).src,
            final(self).state() == flush_spec(old(self).state(), end as int, old(self).src@.len() as int),
    {
        if end > self.markdown_start {
            let stop = if end < self.src.len() { end } else { self.src.len() };
            let ghost before = self.blocks@;
            self.blocks.push(Block::Markdown(self.markdown_start..stop));
            assert(blocks_view(self.blocks@) =~= blocks_view(before).push(
                SpecBlock::Markdown(self.markdown_start as int, stop as int),
            ));
        }
    }

    /// Whether the line `index`, whose content starts at `cs`, is a
    /// block-level tag, and its span.
    fn block_tag(&self, lines: &Vec<(usize, usize)>, index: usize, cs: usize) -> (r: Option<TagSpan>)
        requires
            self.wf(),
            index < lines@.len(),
            lines_view(lines@) == line_ranges_spec(self.src@),
        ensures
            match block_tag_spec(self.src@, lines_view(lines@), index as int, cs as int) {
                Some(span) => r matches Some(t) && span_view(t) == span,
                None => r is None,
            },
    {
        let n = self.src.len();
        if !(cs < n && cs + 1 < n && self.src[cs] == 123u8 && self.src[cs + 1] == 37u8) {
            return None;
        }
        proof {
            crate::parse::scan::lemma_open_boundary(self.source, cs as int);
        }
        let te = match find_tag_end(self.source, cs) {
            Some(t) => t,
            None => return None,
        };
        proof {
            lemma_scan_tag_end(self.src@, cs as int, crate::parse::scan::ScanState::Normal);
        }
        let inner = match sub_text(self.source, cs + 2, te) {
            Some(t) => t,
            None => return None,
        };
        if begins_with_dollar(&inner) {
            return None;
        }
        let outer_end = te + 2;
        let last = line_of(lines, index, outer_end);
        if last >= lines.len() {
            return None;
        }
        let rest = match sub_text(self.source, outer_end, lines[last].1) {
            Some(r) => r,
            None => return None,
        };
        if !is_blank(&rest) {
            return None;
        }
        Some(TagSpan { outer: cs..outer_end, inner: (cs + 2)..te, lines: [index, last + 1] })
    }

    /// Record and mask every tag on line `index`; returns the next line.
    fn mask_inline_tags(&mut self, lines: &Vec<(usize, usize)>, index: usize) -> (next: usize)
        requires
            old(self).wf(),
            index < lines@.len(),
            lines_view(lines@) == line_ranges_spec(old(self).src@),
        ensures
            final(self).wf(),
            final(self).source == old(self).source,
            final(self).src == old(self).src,
            (final(self).state(), next as int) == mask_from(
                old(self).src@,
                lines_view(lines@),
                index as int,
                lines@[index as int].0 as int,
                index as int,
                old(self).state(),
            ),
    {
        let ghost ls = lines_view(lines@);
        let ghost src = self.src@;
        proof {
            lemma_lines_from(src, 0);
            assert(ls[index as int] == (lines@[index as int].0 as int, lines@[index as int].1 as int));
        }
        let (s, e) = lines[index];
        let _count = lines.len();
        let mut pos = s;
        let mut last = index;
        let ghost target = mask_from(src, ls, index as int, s as int, index as int, self.state());
        while pos < e
            invariant
                self.wf(),
                self.source == old(self).source,
                self.src == old(self).src,
                src == self.src@,
                ls == lines_view(lines@),
                ls == line_ranges_spec(src),
                index < lines@.len(),
                e as int == ls[index as int].1,
                e <= src.len(),
                index <= last < lines@.len() <= usize::MAX,
                mask_from(src, ls, index as int, pos as int, last as int, self.state()) == target,
            decreases if pos < e {
                e - pos
            } else {
                0
            },
        {
            let n = self.src.len();
            if pos < n && pos + 1 < n && self.src[pos] == 123u8 && self.src[pos + 1] == 37u8 {
                proof {
                    crate::parse::scan::lemma_open_boundary(self.source, pos as int);
                }
                match find_tag_end(self.source, pos) {
                    None => {
                        pos = pos + 2;
                    },
                    Some(te) => {
                        proof {
                            lemma_scan_tag_end(src, pos as int, crate::parse::scan::ScanState::Normal);
                        }
                        let outer_end = te + 2;
                        let l = line_of(lines, index, outer_end);
                        proof {
                            lemma_line_of(ls, index as int, outer_end as int);
                        }
                        let ghost before = self.state();
                        self.mask(pos + 2, te);
                        let ghost spans = self.inline_tags@;
                        self.inline_tags.push(
                            TagSpan { outer: pos..outer_end, inner: (pos + 2)..te, lines: [index, l + 1] },
                        );
                        proof {
                            assert(spans_view(self.inline_tags@) =~= spans_view(spans).push(
                                SpecSpan {
                                    outer: (pos as int, outer_end as int),
                                    inner: (pos + 2, te as int),
                                    lines: (index as int, l + 1),
                                },
                            ));
                        }
                        last = l;
                        pos = outer_end;
                    },
                }
            } else {
                pos = pos + 1;
            }
        }
        last + 1
    }

    /// Handle line `index`; returns the next line to handle.
    fn line(&mut self, lines: &Vec<(usize, usize)>, index: usize) -> (next: usize)
        requires
            old(self).wf(),
            index < lines@.len(),
            lines_view(lines@) == line_ranges_spec(old(self).src@),
        ensures
            final(self).wf(),
            final(self).source == old(self).source,
            final(self).src == old(self).src,
            (final(self).state(), next as int) == line_step(
                old(self).src@,
                lines_view(lines@),
                index as int,
                old(self).state(),
            ),
    {
        let ghost ls = lines_view(lines@);
        let ghost src = self.src@;
        let _count = lines.len();
        proof {
            lemma_lines_from(src, 0);
            assert(ls[index as int] == (lines@[index as int].0 as int, lines@[index as int].1 as int));
        }
        let (s, e) = lines[index];
        let (ts, te) = if str_get(self.source, s, e).is_some() {
            (s, e)
        } else {
            (s, s)
        };
        match &self.fence {
            Some(f) => {
                if closes_fence(self.source, self.src, ts, te, f) {
                    self.fence = None;
                }
                return index + 1;
            },
            None => {},
        }
        match opens_fence(self.source, self.src, ts, te) {
            Some(f) => {
                self.fence = Some(f);
                return index + 1;
            },
            None => {},
        }
        proof {
            lemma_runs(src, ts as int, te as int, 0u8);
        }
        let cs = s + (indent_end_of(self.src, ts, te) - ts);
        match self.block_tag(lines, index, cs) {
            Some(span) => {
                let next = span.lines[1];
                self.flush_markdown(s);
                self.markdown_start = if next < lines.len() {
                    lines[next].0
                } else {
                    self.src.len()
                };
                let ghost before = self.blocks@;
                let ghost sv = span_view(span);
                self.blocks.push(Block::Tag(span));
                assert(blocks_view(self.blocks@) =~= blocks_view(before).push(SpecBlock::Tag(sv)));
                if next > index + 1 {
                    next
                } else {
                    index + 1
                }
            },
            None => self.mask_inline_tags(lines, index),
        }
    }
}

/// Scan a document: its blocks, its inline tags, and the masked copy the
/// tokenizer reads. The masked copy has the source's length, byte for byte;
/// should it ever fail to be UTF-8, the source itself stands in for it.
pub fn segment(source: &str) -> (r: Segmentation)
    ensures
        blocks_view(r.blocks@) == segment_spec(source.spec_bytes()).blocks,
        spans_view(r.inline_tags@) == segment_spec(source.spec_bytes()).inline,
        r.masked@ == if valid_utf8(segment_spec(source.spec_bytes()).masked) {
            decode_utf8(segment_spec(source.spec_bytes()).masked)
        } else {
            source@
        },
{
    let src = source.as_bytes();
    let lines = line_ranges(src);
    let ghost ls = lines_view(lines@);
    assert(ls =~= line_ranges_spec(src@));
    let mut masked: Vec<u8> = Vec::new();
    let mut i: usize = 0;
    while i < src.len()
        invariant
            i <= src@.len(),
            masked@ == src@.take(i as int),
        decreases src.len() - i,
    {
        masked.push(src[i]);
        i = i + 1;
        assert(masked@ =~= src@.take(i as int));
    }
    assert(masked@ =~= src@);
    let mut state = Scan {
        source,
        src,
        masked,
        blocks: Vec::new(),
        inline_tags: Vec::new(),
        markdown_start: 0,
        fence: None,
    };
    let ghost start = state.state();
    assert(blocks_view(state.blocks@) =~= Seq::empty());
    assert(spans_view(state.inline_tags@) =~= Seq::empty());
    assert(start == (SegState {
        masked: src@,
        blocks: Seq::empty(),
        inline: Seq::empty(),
        markdown_start: 0,
        fence: None,
    }));
    let mut index: usize = 0;
    while index < lines.len()
        invariant
            state.wf(),
            state.source == source,
            state.src == src,
            ls == lines_view(lines@),
            ls == line_ranges_spec(src@),
            scan_lines(src@, ls, index as int, state.state()) == scan_lines(src@, ls, 0, start),
        decreases if index < lines.len() {
            lines.len() - index
        } else {
            0
        },
    {
        proof {
            lemma_line_step_advances(src@, ls, index as int, state.state());
        }
        index = state.line(&lines, index);
    }
    state.flush_markdown(src.len());
    let masked = match string_from_utf8(state.masked) {
        Some(s) => s,
        None => String::from_str(source),
    };
    Segmentation { masked, blocks: state.blocks, inline_tags: state.inline_tags }
}

} // verus!
