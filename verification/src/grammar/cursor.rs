//! The parsing cursor: position, backtracking, terminals, and the bookkeeping
//! that lets a failure explain itself.
//!
//! Positions are character indices into the tag body; the error converts the
//! position it reports into a byte offset. A production that fails leaves
//! the position where it found it, which is what PEG ordered choice needs:
//! the next alternative sees exactly what the failed one saw.

use vstd::prelude::*;

use crate::grammar::peg::{MAX_VALUE_DEPTH, digits_end, ident_end, is_digit, is_ident_char, is_ws, ws_end};
use crate::grammar::{Expectation, TagError, build_message, message_spec};
use crate::text::{byte_len, char_width, chars_of, lemma_byte_len_is_encoded_len, lemma_byte_len_take, string_of, width_of};

verus! {

/// Whether `t` occurs in `s` at `p`.
pub open spec fn matches_at(s: Seq<char>, p: int, t: Seq<char>) -> bool {
    0 <= p && p + t.len() <= s.len() && s.subrange(p, p + t.len()) == t
}

/// A one-character literal matches where that character stands.
pub proof fn lemma_matches_one(s: Seq<char>, p: int, c: char)
    ensures
        matches_at(s, p, seq![c]) == (0 <= p < s.len() && s[p] == c),
{
    if 0 <= p < s.len() && s[p] == c {
        assert(s.subrange(p, p + 1) =~= seq![c]);
    }
    if matches_at(s, p, seq![c]) {
        assert(s.subrange(p, p + 1)[0] == s[p]);
    }
}

/// The character at `at`, if there is one.
pub open spec fn char_at_index(s: Seq<char>, at: int) -> Option<char> {
    if 0 <= at < s.len() {
        Some(s[at])
    } else {
        None
    }
}

/// Markdoc's identifier class.
fn is_ident(c: char) -> (b: bool)
    ensures
        b == is_ident_char(c),
{
    ('a' <= c && c <= 'z') || ('A' <= c && c <= 'Z') || ('0' <= c && c <= '9') || c == '_' || c
        == '-'
}

/// The message for a body nested past [`MAX_VALUE_DEPTH`].
pub open spec fn depth_message() -> Seq<char> {
    "Value nesting exceeds the maximum depth of 64."@
}

/// A position in the tag body, plus what is needed to explain a failure.
pub(crate) struct Cursor {
    /// The tag body.
    pub(crate) chars: Vec<char>,
    /// How many bytes the body takes.
    pub(crate) bytes: usize,
    /// The current position, a character index.
    pub(crate) pos: usize,
    /// The furthest position an expectation was recorded at.
    pub(crate) furthest: usize,
    /// What would have been accepted at `furthest`.
    pub(crate) variants: Vec<Expectation>,
    /// Nesting of named rules; expectations inside one are dropped.
    pub(crate) silent: u32,
    /// How deep inside values the parse is.
    pub(crate) depth: usize,
    /// Where the nesting limit was first exceeded.
    pub(crate) depth_exhausted: Option<usize>,
}

impl Cursor {
    /// The cursor's fields agree with each other.
    pub(crate) open spec fn wf(&self) -> bool {
        &&& self.pos <= self.chars@.len() <= usize::MAX
        &&& self.furthest <= self.chars@.len()
        &&& self.depth <= MAX_VALUE_DEPTH
        &&& byte_len(self.chars@) == self.bytes as int
        &&& (self.depth_exhausted matches Some(x) ==> x <= self.chars@.len())
    }

    /// A step kept the body, the depth and the invariant.
    pub(crate) open spec fn same_input(&self, before: Cursor) -> bool {
        &&& self.wf()
        &&& self.chars@ == before.chars@
        &&& self.bytes == before.bytes
        &&& self.depth == before.depth
    }

    /// The body.
    pub(crate) open spec fn s(&self) -> Seq<char> {
        self.chars@
    }

    /// The position, as an integer.
    pub(crate) open spec fn at(&self) -> int {
        self.pos as int
    }

    /// What recording `e` does: nothing inside a named rule or behind the
    /// furthest position; at a new furthest position `e` alone; at the
    /// furthest position `e` added. The silence and the depth stay.
    pub(crate) open spec fn recorded(&self, before: Cursor, e: Expectation) -> bool {
        &&& self.silent == before.silent
        &&& self.depth_exhausted == before.depth_exhausted
        &&& if before.silent > 0 || before.pos < before.furthest {
            self.furthest == before.furthest && self.variants@ == before.variants@
        } else if before.pos > before.furthest {
            self.furthest == before.pos && self.variants@ == seq![e]
        } else {
            self.furthest == before.furthest && self.variants@ == before.variants@.push(e)
        }
    }

    /// A cursor at the start of `input`.
    pub(crate) fn new(input: &str) -> (c: Cursor)
        ensures
            c.wf(),
            c.chars@ == input@,
            c.pos == 0,
            c.depth == 0,
    {
        let chars = chars_of(input);
        let _ = chars.len();
        let bytes = input.as_bytes().len();
        proof {
            lemma_byte_len_is_encoded_len(input@);
        }
        Cursor {
            chars,
            bytes,
            pos: 0,
            furthest: 0,
            variants: Vec::new(),
            silent: 0,
            depth: 0,
            depth_exhausted: None,
        }
    }

    /// Whether the whole body has been consumed.
    pub(crate) fn at_end(&self) -> (b: bool)
        requires
            self.wf(),
        ensures
            b == (self.pos == self.chars@.len()),
    {
        self.pos >= self.chars.len()
    }

    /// The next character, unconsumed.
    pub(crate) fn peek(&self) -> (r: Option<char>)
        requires
            self.wf(),
        ensures
            r == char_at_index(self.s(), self.at()),
    {
        if self.pos < self.chars.len() {
            Some(self.chars[self.pos])
        } else {
            None
        }
    }

    /// Records that the parser would have accepted `expectation` here.
    ///
    /// A position further along replaces everything recorded before; one
    /// inside a named rule is dropped, because the rule spoke for it.
    pub(crate) fn expect(&mut self, expectation: Expectation)
        requires
            old(self).wf(),
        ensures
            final(self).same_input(*old(self)),
            final(self).pos == old(self).pos,
            final(self).recorded(*old(self), expectation),
    {
        if self.silent > 0 || self.pos < self.furthest {
            return;
        }
        if self.pos > self.furthest {
            self.furthest = self.pos;
            self.variants = Vec::new();
        }
        self.variants.push(expectation);
    }

    /// Records the end of the input as the only acceptable thing here.
    pub(crate) fn expect_end_of_input(&mut self)
        requires
            old(self).wf(),
        ensures
            final(self).same_input(*old(self)),
            final(self).pos == old(self).pos,
            final(self).recorded(*old(self), Expectation::EndOfInput),
    {
        self.expect(Expectation::EndOfInput);
    }

    /// Enters a named rule: record its name, then silence its internals.
    pub(crate) fn enter_named(&mut self, name: &'static str)
        requires
            old(self).wf(),
        ensures
            final(self).same_input(*old(self)),
            final(self).pos == old(self).pos,
            final(self).depth_exhausted == old(self).depth_exhausted,
            final(self).silent == if old(self).silent < u32::MAX {
                (old(self).silent + 1) as u32
            } else {
                u32::MAX
            },
            if old(self).silent > 0 || old(self).pos < old(self).furthest {
                final(self).furthest == old(self).furthest && final(self).variants@ == old(
                    self,
                ).variants@
            } else if old(self).pos > old(self).furthest {
                final(self).furthest == old(self).pos && final(self).variants@ == seq![
                    Expectation::Named(name),
                ]
            } else {
                final(self).furthest == old(self).furthest && final(self).variants@ == old(
                    self,
                ).variants@.push(Expectation::Named(name))
            },
    {
        self.expect(Expectation::Named(name));
        self.silent = self.silent.saturating_add(1);
    }

    /// Leaves a named rule.
    pub(crate) fn leave_named(&mut self)
        requires
            old(self).wf(),
        ensures
            final(self).same_input(*old(self)),
            final(self).pos == old(self).pos,
            final(self).furthest == old(self).furthest,
            final(self).variants@ == old(self).variants@,
            final(self).depth_exhausted == old(self).depth_exhausted,
            final(self).silent == if old(self).silent > 0 {
                (old(self).silent - 1) as u32
            } else {
                0
            },
    {
        self.silent = self.silent.saturating_sub(1);
    }

    /// Matches a literal, recording it as an expectation first.
    pub(crate) fn literal(&mut self, text: &'static str) -> (r: bool)
        requires
            old(self).wf(),
        ensures
            final(self).same_input(*old(self)),
            r == matches_at(old(self).s(), old(self).at(), text@),
            final(self).pos == if r {
                old(self).at() + text@.len()
            } else {
                old(self).at()
            },
    {
        self.expect(Expectation::Literal(text));
        let t = chars_of(text);
        if t.len() > self.chars.len() - self.pos {
            return false;
        }
        let mut i: usize = 0;
        while i < t.len()
            invariant
                self.same_input(*old(self)),
                self.pos == old(self).pos,
                i <= t@.len(),
                t@ == text@,
                self.pos + t@.len() <= self.chars@.len() <= usize::MAX,
                forall|j: int| 0 <= j < i ==> self.chars@[self.pos + j] == t@[j],
            decreases t.len() - i,
        {
            if self.chars[self.pos + i] != t[i] {
                assert(self.s().subrange(self.at(), self.at() + t@.len())[i as int] != t@[i as int]);
                return false;
            }
            i = i + 1;
        }
        assert(self.s().subrange(self.at(), self.at() + t@.len()) =~= t@);
        self.pos = self.pos + t.len();
        true
    }

    /// Markdoc's `_`: one space, newline or tab.
    pub(crate) fn whitespace(&mut self) -> (r: bool)
        requires
            old(self).wf(),
        ensures
            final(self).same_input(*old(self)),
            r == (old(self).pos < old(self).chars@.len() && is_ws(old(self).s()[old(self).at()])),
            final(self).pos == if r {
                old(self).pos + 1
            } else {
                old(self).pos as int
            },
    {
        self.expect(Expectation::Named("whitespace"));
        if self.pos < self.chars.len() {
            let c = self.chars[self.pos];
            if c == ' ' || c == '\n' || c == '\t' {
                self.pos = self.pos + 1;
                return true;
            }
        }
        false
    }

    /// `_*`.
    pub(crate) fn whitespace_star(&mut self)
        requires
            old(self).wf(),
        ensures
            final(self).same_input(*old(self)),
            final(self).pos == ws_end(old(self).s(), old(self).at()),
    {
        let ghost start = self.at();
        let ghost before = *self;
        loop
            invariant
                self.same_input(before),
                start <= self.pos,
                ws_end(self.s(), self.at()) == ws_end(self.s(), start),
            ensures
                self.same_input(before),
                self.pos == ws_end(self.s(), start),
            decreases self.chars@.len() - self.pos,
        {
            if !self.whitespace() {
                break;
            }
        }
    }

    /// `_+`: whether there was any whitespace; the run is consumed either way.
    pub(crate) fn whitespace_plus(&mut self) -> (r: bool)
        requires
            old(self).wf(),
        ensures
            final(self).same_input(*old(self)),
            r == (ws_end(old(self).s(), old(self).at()) > old(self).at()),
            final(self).pos == ws_end(old(self).s(), old(self).at()),
    {
        let ghost p = self.at();
        if !self.whitespace() {
            assert(ws_end(self.s(), p) == p);
            return false;
        }
        proof {
            crate::grammar::peg::lemma_run_ends(self.s(), p + 1);
            assert(ws_end(self.s(), p) == ws_end(self.s(), p + 1));
        }
        self.whitespace_star();
        true
    }

    /// The text between two positions.
    pub(crate) fn slice(&self, start: usize, end: usize) -> (t: Vec<char>)
        requires
            start <= end <= self.chars@.len(),
        ensures
            t@ == self.s().subrange(start as int, end as int),
    {
        let mut t: Vec<char> = Vec::new();
        let mut i = start;
        while i < end
            invariant
                start <= i <= end <= self.chars@.len(),
                t@ == self.s().subrange(start as int, i as int),
            decreases end - i,
        {
            t.push(self.chars[i]);
            i = i + 1;
            assert(t@ =~= self.s().subrange(start as int, i as int));
        }
        t
    }

    /// Markdoc's `Identifier`: `[a-zA-Z0-9_-]+`.
    pub(crate) fn identifier(&mut self) -> (r: Option<String>)
        requires
            old(self).wf(),
        ensures
            final(self).same_input(*old(self)),
            match crate::grammar::peg::identifier(old(self).s(), old(self).at()) {
                Some((name, e)) => r matches Some(n) && n@ == name && final(self).pos == e,
                None => r is None && final(self).pos == old(self).pos,
            },
    {
        self.enter_named("identifier");
        let start = self.pos;
        let mut end = start;
        while end < self.chars.len() && is_ident(self.chars[end])
            invariant
                self.wf(),
                start <= end <= self.chars@.len(),
                ident_end(self.s(), end as int) == ident_end(self.s(), start as int),
            decreases self.chars.len() - end,
        {
            end = end + 1;
        }
        self.leave_named();
        if end == start {
            return None;
        }
        let t = self.slice(start, end);
        self.pos = end;
        Some(string_of(&t))
    }

    /// One ASCII digit.
    pub(crate) fn digit(&mut self) -> (r: bool)
        requires
            old(self).wf(),
        ensures
            final(self).same_input(*old(self)),
            r == (old(self).pos < old(self).chars@.len() && is_digit(old(self).s()[old(self).at()])),
            final(self).pos == if r {
                old(self).pos + 1
            } else {
                old(self).pos as int
            },
    {
        if self.pos < self.chars.len() {
            let c = self.chars[self.pos];
            if '0' <= c && c <= '9' {
                self.pos = self.pos + 1;
                return true;
            }
        }
        false
    }

    /// `[0-9]*`.
    pub(crate) fn digits(&mut self)
        requires
            old(self).wf(),
        ensures
            final(self).same_input(*old(self)),
            final(self).pos == digits_end(old(self).s(), old(self).at()),
    {
        let ghost start = self.at();
        let ghost before = *self;
        loop
            invariant
                self.same_input(before),
                start <= self.pos,
                digits_end(self.s(), self.at()) == digits_end(self.s(), start),
            ensures
                self.same_input(before),
                self.pos == digits_end(self.s(), start),
            decreases self.chars@.len() - self.pos,
        {
            if !self.digit() {
                break;
            }
        }
    }

    /// Enters a nested value, or reports that the nesting limit is reached.
    pub(crate) fn enter_value(&mut self) -> (r: bool)
        requires
            old(self).wf(),
        ensures
            final(self).wf(),
            final(self).chars@ == old(self).chars@,
            final(self).bytes == old(self).bytes,
            final(self).pos == old(self).pos,
            r == (old(self).depth < MAX_VALUE_DEPTH),
            final(self).depth == if r {
                old(self).depth + 1
            } else {
                old(self).depth as int
            },
    {
        if self.depth >= MAX_VALUE_DEPTH {
            if self.depth_exhausted.is_none() {
                self.depth_exhausted = Some(self.pos);
            }
            return false;
        }
        self.depth = self.depth + 1;
        true
    }

    /// Leaves a nested value.
    pub(crate) fn leave_value(&mut self)
        requires
            old(self).wf(),
            old(self).depth >= 1,
        ensures
            final(self).wf(),
            final(self).chars@ == old(self).chars@,
            final(self).bytes == old(self).bytes,
            final(self).pos == old(self).pos,
            final(self).depth == old(self).depth - 1,
    {
        self.depth = self.depth - 1;
    }

    /// The byte offset of the character at `at`.
    fn byte_offset(&self, at: usize) -> (n: usize)
        requires
            self.wf(),
            at <= self.chars@.len(),
        ensures
            n == byte_len(self.s().take(at as int)),
    {
        let mut n: usize = 0;
        let mut i: usize = 0;
        while i < at
            invariant
                self.wf(),
                i <= at <= self.chars@.len(),
                n == byte_len(self.s().take(i as int)),
            decreases at - i,
        {
            proof {
                lemma_byte_len_take(self.s(), i as int);
                lemma_byte_len_take(self.s(), i + 1);
            }
            n = n + width_of(self.chars[i]);
            i = i + 1;
        }
        n
    }

    /// The byte range of the character at `at`: empty at the end of the body.
    fn char_span(&self, at: usize) -> (r: (usize, usize))
        requires
            self.wf(),
            at <= self.chars@.len(),
        ensures
            r.0 == byte_len(self.s().take(at as int)),
            r.1 == r.0 + match char_at_index(self.s(), at as int) {
                Some(c) => char_width(c),
                None => 0,
            },
    {
        let start = self.byte_offset(at);
        if at < self.chars.len() {
            proof {
                lemma_byte_len_take(self.s(), at as int);
                lemma_byte_len_take(self.s(), at + 1);
            }
            (start, start + width_of(self.chars[at]))
        } else {
            (start, start)
        }
    }

    /// Turns the recorded expectations into the error Markdoc would raise.
    pub(crate) fn into_error(self) -> (e: TagError)
        requires
            self.wf(),
        ensures
            error_at(self.s(), e, match self.depth_exhausted {
                Some(x) => x as int,
                None => self.furthest as int,
            }),
            self.depth_exhausted is Some ==> e.spec_message() == depth_message(),
            self.depth_exhausted is None ==> e.spec_message() == message_spec(
                self.variants@,
                char_at_index(self.s(), self.furthest as int),
            ),
    {
        match self.depth_exhausted {
            Some(offset) => {
                let (start, end) = self.char_span(offset);
                let message = string_of(&chars_of("Value nesting exceeds the maximum depth of 64."));
                TagError::new(message, start, end)
            },
            None => {
                let (start, end) = self.char_span(self.furthest);
                let found = if self.furthest < self.chars.len() {
                    Some(self.chars[self.furthest])
                } else {
                    None
                };
                TagError::new(build_message(self.variants.as_slice(), found), start, end)
            },
        }
    }
}

/// `e` reports the character at index `at` of `s`: its byte range, or the
/// empty range at the end of the body.
pub open spec fn error_at(s: Seq<char>, e: TagError, at: int) -> bool {
    &&& 0 <= at <= s.len()
    &&& e.spec_start() == byte_len(s.take(at))
    &&& e.spec_end() == e.spec_start() + match char_at_index(s, at) {
        Some(c) => char_width(c),
        None => 0,
    }
}

} // verus!
