//! Where a node came from in the source it was parsed from.
//!
//! A location is a byte range, the line and column of each edge, and the text
//! itself, borrowed. Lines and columns are zero-based; columns count bytes.

use vstd::prelude::*;
use vstd::string::StringSliceAdditionalSpecFns;

use crate::text::str_get;

verus! {

/// One edge of a [`Location`]: zero-based, byte-denominated.
#[derive(Clone, Copy, Debug, Default, PartialEq, Eq, Structural)]
pub struct Position {
    /// Zero-based line.
    pub line: usize,
    /// Zero-based byte column within the line.
    pub column: usize,
    /// Absolute byte offset into the source.
    pub offset: usize,
}

impl Position {
    /// A position at the very start of a source buffer.
    pub fn start() -> (p: Position)
        ensures
            p.line == 0 && p.column == 0 && p.offset == 0,
    {
        Position { line: 0, column: 0, offset: 0 }
    }
}

/// A byte range in a source document, and the text it covers.
#[derive(Clone, Copy, Debug, PartialEq, Eq)]
pub struct Location<'a> {
    /// The caller's name for the document. A label, not a path.
    pub file: Option<&'a str>,
    /// The first byte of the span.
    pub start: Position,
    /// One past the last byte of the span.
    pub end: Position,
    /// The source text of the span, borrowed.
    pub text: &'a str,
}

impl<'a> Location<'a> {
    /// The byte range this location covers.
    pub fn span(&self) -> (r: core::ops::Range<usize>)
        ensures
            r.start == self.start.offset,
            r.end == self.end.offset,
    {
        self.start.offset..self.end.offset
    }

    /// How many bytes the span covers.
    pub fn len(&self) -> (n: usize)
        ensures
            n == if self.end.offset >= self.start.offset {
                self.end.offset - self.start.offset
            } else {
                0
            },
    {
        self.end.offset.saturating_sub(self.start.offset)
    }

    /// Whether the span is empty.
    pub fn is_empty(&self) -> (b: bool)
        ensures
            b == (self.end.offset <= self.start.offset),
    {
        self.len() == 0
    }
}

/// The offsets at which the lines of `bytes[..k]` start: 0, and one past
/// every newline.
pub open spec fn line_starts(bytes: Seq<u8>, k: int) -> Seq<usize>
    decreases k,
{
    if k <= 0 {
        seq![0usize]
    } else if bytes[k - 1] == 10u8 {
        line_starts(bytes, k - 1).push(k as usize)
    } else {
        line_starts(bytes, k - 1)
    }
}

/// The starts of every line of a source.
pub open spec fn source_line_starts(source: &str) -> Seq<usize> {
    line_starts(source.spec_bytes(), source.spec_bytes().len() as int)
}

/// `p` is where byte `offset` sits among lines starting at `starts`.
pub open spec fn is_position_of(starts: Seq<usize>, offset: usize, p: Position) -> bool {
    &&& p.offset == offset
    &&& p.line < starts.len()
    &&& starts[p.line as int] <= offset
    &&& p.line + 1 < starts.len() ==> offset < starts[p.line + 1]
    &&& p.column == offset - starts[p.line as int]
}

/// Line starts begin at zero, rise strictly, and stay within the source.
pub proof fn lemma_line_starts(bytes: Seq<u8>, k: int)
    requires
        0 <= k <= bytes.len(),
        k <= usize::MAX,
    ensures
        line_starts(bytes, k).len() >= 1,
        line_starts(bytes, k)[0] == 0,
        forall|i: int, j: int|
            0 <= i < j < line_starts(bytes, k).len() ==> line_starts(bytes, k)[i] < line_starts(
                bytes,
                k,
            )[j],
        forall|i: int| 0 <= i < line_starts(bytes, k).len() ==> line_starts(bytes, k)[i] <= k,
    decreases k,
{
    if k > 0 {
        lemma_line_starts(bytes, k - 1);
        let prev = line_starts(bytes, k - 1);
        let cur = line_starts(bytes, k);
        if bytes[k - 1] == 10u8 {
            assert(cur == prev.push(k as usize));
            assert forall|i: int, j: int| 0 <= i < j < cur.len() implies cur[i] < cur[j] by {
                if j < prev.len() {
                    assert(cur[i] == prev[i] && cur[j] == prev[j]);
                } else {
                    assert(cur[i] == prev[i]);
                    assert(prev[i] <= k - 1);
                    assert(cur[j] == k as usize);
                }
            }
        }
    }
}

/// Turns byte offsets into line and column, for one source buffer.
#[derive(Debug)]
pub struct Lines<'a> {
    source: &'a str,
    starts: Vec<usize>,
}

impl<'a> Lines<'a> {
    #[verifier::type_invariant]
    spec fn starts_match(self) -> bool {
        self.starts@ == source_line_starts(self.source)
    }

    /// The source this index was built over.
    pub closed spec fn spec_source(&self) -> &'a str {
        self.source
    }

    /// The line starts of the source.
    pub open spec fn starts(&self) -> Seq<usize> {
        source_line_starts(self.spec_source())
    }

    /// Index a source buffer.
    pub fn new(source: &'a str) -> (lines: Lines<'a>)
        ensures
            lines.spec_source() == source,
    {
        let bytes = source.as_bytes();
        let mut starts: Vec<usize> = Vec::new();
        starts.push(0);
        let mut i: usize = 0;
        while i < bytes.len()
            invariant
                i <= bytes@.len(),
                bytes@ == source.spec_bytes(),
                starts@ == line_starts(bytes@, i as int),
            decreases bytes.len() - i,
        {
            if bytes[i] == 10u8 {
                starts.push(i + 1);
            }
            i = i + 1;
        }
        Lines { source, starts }
    }

    /// The source this index was built over.
    pub fn source(&self) -> (s: &'a str)
        ensures
            s == self.spec_source(),
    {
        self.source
    }

    /// The zero-based line and column of a byte offset.
    ///
    /// An offset past the end of the source lands on the last line.
    pub fn position(&self, offset: usize) -> (p: Position)
        ensures
            is_position_of(self.starts(), offset, p),
    {
        let bytes = self.source.as_bytes();
        let _n = bytes.len();
        proof {
            use_type_invariant(self);
            lemma_line_starts(
                self.source.spec_bytes(),
                self.source.spec_bytes().len() as int,
            );
        }
        // The largest index whose start is at or before `offset`, by binary
        // search over the rising starts.
        let mut low: usize = 0;
        let mut high: usize = self.starts.len();
        while low + 1 < high
            invariant
                0 <= low < high <= self.starts@.len(),
                self.starts@ == self.starts(),
                self.starts@[low as int] <= offset,
                high < self.starts@.len() ==> offset < self.starts@[high as int],
                forall|i: int, j: int|
                    0 <= i < j < self.starts@.len() ==> self.starts@[i] < self.starts@[j],
            decreases high - low,
        {
            let middle = low + (high - low) / 2;
            if self.starts[middle] <= offset {
                low = middle;
            } else {
                high = middle;
            }
        }
        Position { line: low, column: offset - self.starts[low], offset }
    }

    /// Build a [`Location`] for a byte range.
    ///
    /// A range whose end runs past the source is clamped, and a reversed range
    /// is treated as empty at its start. A range that splits a character
    /// covers no text.
    pub fn locate(&self, range: core::ops::Range<usize>, file: Option<&'a str>) -> (l: Location<'a>)
        ensures
            ({
                let len = self.spec_source().spec_bytes().len() as usize;
                let start = if range.start <= len { range.start } else { len };
                let end = if range.end < start { start } else if range.end > len { len } else { range.end };
                &&& l.file == file
                &&& is_position_of(self.starts(), start, l.start)
                &&& is_position_of(self.starts(), end, l.end)
                &&& (str_get_spec(self.spec_source(), start, end) ==> l.text.spec_bytes()
                    == self.spec_source().spec_bytes().subrange(start as int, end as int))
                &&& (!str_get_spec(self.spec_source(), start, end) ==> l.text@ == Seq::<char>::empty())
            }),
    {
        let len = self.source.len();
        let start = if range.start <= len { range.start } else { len };
        let end = if range.end < start { start } else if range.end > len { len } else { range.end };
        let text = match str_get(self.source, start, end) {
            Some(text) => text,
            None => "",
        };
        proof {
            reveal_strlit("");
        }
        assert(str_get_spec(self.source, start, end) ==> text.spec_bytes()
                    == self.source.spec_bytes().subrange(start as int, end as int));
        assert(!str_get_spec(self.source, start, end) ==> text@ == Seq::<char>::empty());
        Location { file, start: self.position(start), end: self.position(end), text }
    }
}

/// Whether `s[start..end]` is a slice on character boundaries.
pub open spec fn str_get_spec(s: &str, start: usize, end: usize) -> bool {
    start <= end <= s.spec_bytes().len() && vstd::utf8::is_char_boundary(s.spec_bytes(), start as int)
        && vstd::utf8::is_char_boundary(s.spec_bytes(), end as int)
}

} // verus!
