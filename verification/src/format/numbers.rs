//! The arithmetic the printer does on numbers and widths.
//!
//! A number is held as its JavaScript spelling. Two node attributes are read
//! as numbers: a heading's `level`, which decides how many `#` it prints, and
//! a list's `start`, which numbers its items. Widths are counted as
//! JavaScript's `length` counts them, in UTF-16 code units.

use vstd::prelude::*;

use crate::ast::first_index;
use crate::text::{decimal, push_decimal};

verus! {

/// The largest number of `#` a heading prints. A host can set `level` to
/// anything; the bound is far above CommonMark's six, so a parsed document
/// never meets it.
pub const MAX_HEADING_LEVEL: usize = 1024;

/// How many UTF-16 code units `c` takes.
pub open spec fn utf16_width(c: char) -> nat {
    if (c as u32) >= 0x10000 {
        2
    } else {
        1
    }
}

/// How many UTF-16 code units `s` takes: JavaScript's `length`.
pub open spec fn utf16_len(s: Seq<char>) -> nat
    decreases s.len(),
{
    if s.len() == 0 {
        0
    } else {
        utf16_len(s.drop_last()) + utf16_width(s.last())
    }
}

/// A string never takes more than two code units per character.
pub proof fn lemma_utf16_len_bound(s: Seq<char>)
    ensures
        s.len() <= utf16_len(s) <= 2 * s.len(),
    decreases s.len(),
{
    if s.len() > 0 {
        lemma_utf16_len_bound(s.drop_last());
    }
}

/// JavaScript's `length` of `s`, as a machine word holds it: saturating at
/// `usize::MAX`, which no text in memory reaches.
pub open spec fn utf16_sat(s: Seq<char>) -> nat {
    min_nat(utf16_len(s), usize::MAX as nat)
}

/// How many UTF-16 code units `s` takes.
pub fn utf16_count(s: &Vec<char>) -> (n: usize)
    ensures
        n == utf16_sat(s@),
{
    let mut n: usize = 0;
    let mut i: usize = 0;
    while i < s.len()
        invariant
            i <= s@.len(),
            n == utf16_sat(s@.take(i as int)),
        decreases s.len() - i,
    {
        proof {
            assert(s@.take(i + 1).drop_last() =~= s@.take(i as int));
        }
        if (s[i] as u32) >= 0x10000 {
            n = n.saturating_add(2);
        } else {
            n = n.saturating_add(1);
        }
        i = i + 1;
    }
    assert(s@.take(i as int) =~= s@);
    n
}

/// Whether `c` is an ASCII digit.
pub open spec fn is_digit(c: char) -> bool {
    '0' <= c && c <= '9'
}

/// How many ASCII digits `s` starts with.
pub open spec fn digit_run(s: Seq<char>) -> nat
    decreases s.len(),
{
    if s.len() > 0 && is_digit(s[0]) {
        1 + digit_run(s.drop_first())
    } else {
        0
    }
}

/// The value of a run of ASCII digits.
pub open spec fn digits_value(t: Seq<char>) -> nat
    decreases t.len(),
{
    if t.len() == 0 {
        0
    } else {
        digits_value(t.drop_last()) * 10 + ((t.last() as nat) - ('0' as nat)) as nat
    }
}

/// The smaller of two naturals.
pub open spec fn min_nat(a: nat, b: nat) -> nat {
    if a <= b {
        a
    } else {
        b
    }
}

proof fn lemma_digit_run(s: Seq<char>, k: int)
    requires
        0 <= k <= s.len(),
        forall|j: int| 0 <= j < k ==> is_digit(#[trigger] s[j]),
        k < s.len() ==> !is_digit(s[k]),
    ensures
        digit_run(s) == k,
    decreases k,
{
    if k > 0 {
        let t = s.drop_first();
        assert forall|j: int| 0 <= j < k - 1 implies is_digit(#[trigger] t[j]) by {
            assert(t[j] == s[j + 1]);
        }
        if k - 1 < t.len() {
            assert(t[k - 1] == s[k]);
        }
        lemma_digit_run(t, k - 1);
    }
}

/// The run of digits starting at `from`, and its value capped at `cap`.
pub fn lead_digits(s: &Vec<char>, from: usize, cap: u64) -> (r: (usize, u64))
    requires
        from <= s@.len(),
        cap <= 0x20_0000_0000_0000,
    ensures
        r.0 <= s@.len() - from,
        r.0 == digit_run(s@.skip(from as int)),
        r.1 == min_nat(digits_value(s@.subrange(from as int, from + r.0)), cap as nat),
{
    let mut i = from;
    let mut v: u64 = 0;
    while i < s.len() && '0' <= s[i] && s[i] <= '9'
        invariant
            from <= i <= s@.len(),
            cap <= 0x20_0000_0000_0000,
            forall|j: int| from <= j < i ==> is_digit(#[trigger] s@[j]),
            v == min_nat(digits_value(s@.subrange(from as int, i as int)), cap as nat),
        decreases s.len() - i,
    {
        let d = (s[i] as u32 - '0' as u32) as u64;
        proof {
            let t = s@.subrange(from as int, i + 1);
            assert(t.drop_last() =~= s@.subrange(from as int, i as int));
            assert(t.last() == s@[i as int]);
        }
        let next = v * 10 + d;
        v = if next > cap { cap } else { next };
        i = i + 1;
    }
    proof {
        let t = s@.skip(from as int);
        assert forall|j: int| 0 <= j < i - from implies is_digit(#[trigger] t[j]) by {
            assert(t[j] == s@[from + j]);
        }
        if i < s@.len() {
            assert(t[i - from] == s@[i as int]);
        }
        lemma_digit_run(t, i - from);
    }
    (i - from, v)
}

/// The name `Infinity`.
pub open spec fn infinity_name() -> Seq<char> {
    seq!['I', 'n', 'f', 'i', 'n', 'i', 't', 'y']
}

/// How many `#` a heading of numeric `level` prints: the level truncated,
/// at most [`MAX_HEADING_LEVEL`], and one for a level below one -- negative,
/// zero, a fraction, or not a number.
pub open spec fn heading_marks(s: Seq<char>) -> nat {
    if s.len() > 0 && s[0] == '-' {
        1
    } else if s == infinity_name() {
        MAX_HEADING_LEVEL as nat
    } else if first_index(s, 'e') >= 0 {
        let e = first_index(s, 'e');
        if e + 1 < s.len() && s[e + 1] == '-' {
            1
        } else {
            MAX_HEADING_LEVEL as nat
        }
    } else {
        let v = digits_value(s.take(digit_run(s) as int));
        if v == 0 {
            1
        } else {
            min_nat(v, MAX_HEADING_LEVEL as nat)
        }
    }
}

proof fn lemma_first_index(s: Seq<char>, c: char, k: int)
    requires
        0 <= k <= s.len(),
        forall|j: int| 0 <= j < k ==> #[trigger] s[j] != c,
        k < s.len() ==> s[k] == c,
    ensures
        first_index(s, c) == if k < s.len() { k } else { -1 },
    decreases k,
{
    if k > 0 {
        let t = s.drop_first();
        assert forall|j: int| 0 <= j < k - 1 implies #[trigger] t[j] != c by {
            assert(t[j] == s[j + 1]);
        }
        if k - 1 < t.len() {
            assert(t[k - 1] == s[k]);
        }
        lemma_first_index(t, c, k - 1);
        assert(s[0] != c);
    }
}

/// The index of the first `c` in `s`, if there is one.
pub fn find_char(s: &Vec<char>, c: char) -> (r: Option<usize>)
    ensures
        match r {
            Some(i) => i == first_index(s@, c) && i < s@.len(),
            None => first_index(s@, c) == -1,
        },
{
    let mut i: usize = 0;
    while i < s.len() && s[i] != c
        invariant
            i <= s@.len(),
            forall|j: int| 0 <= j < i ==> #[trigger] s@[j] != c,
        decreases s.len() - i,
    {
        i = i + 1;
    }
    proof {
        lemma_first_index(s@, c, i as int);
    }
    if i < s.len() {
        Some(i)
    } else {
        None
    }
}

/// How many `#` a heading of numeric `level` prints.
pub fn heading_marks_of(s: &Vec<char>) -> (n: usize)
    ensures
        n == heading_marks(s@),
        1 <= n <= MAX_HEADING_LEVEL,
{
    if s.len() > 0 && s[0] == '-' {
        return 1;
    }
    let inf = vec!['I', 'n', 'f', 'i', 'n', 'i', 't', 'y'];
    assert(inf@ =~= infinity_name());
    if same_chars(s, &inf) {
        return MAX_HEADING_LEVEL;
    }
    match find_char(s, 'e') {
        Some(e) => {
            if e + 1 < s.len() && s[e + 1] == '-' {
                1
            } else {
                MAX_HEADING_LEVEL
            }
        },
        None => {
            let (run, v) = lead_digits(s, 0, 2000);
            assert(s@.skip(0) =~= s@);
            assert(s@.subrange(0, run as int) =~= s@.take(run as int));
            if v == 0 {
                1
            } else if v > 1024 {
                MAX_HEADING_LEVEL
            } else {
                v as usize
            }
        },
    }
}

/// Whether two texts are the same.
pub fn same_chars(a: &Vec<char>, b: &Vec<char>) -> (r: bool)
    ensures
        r == (a@ == b@),
{
    if a.len() != b.len() {
        return false;
    }
    let mut i: usize = 0;
    while i < a.len()
        invariant
            i <= a@.len(),
            a@.len() == b@.len(),
            forall|j: int| 0 <= j < i ==> a@[j] == b@[j],
        decreases a.len() - i,
    {
        if a[i] != b[i] {
            return false;
        }
        i = i + 1;
    }
    assert(a@ =~= b@);
    true
}

/// The largest integer a JavaScript number counts exactly.
pub open spec fn exact_limit() -> nat {
    0x20_0000_0000_0000
}

/// A number spelled `-?digits(.digits)?`, as its integer part with its sign,
/// when that part is counted exactly; `None` for any other spelling.
pub open spec fn plain_int_part(s: Seq<char>) -> Option<int> {
    let neg = s.len() > 0 && s[0] == '-';
    let body = if neg { s.drop_first() } else { s };
    let r = digit_run(body);
    let rest = body.skip(r as int);
    let frac_ok = rest.len() == 0 || (rest[0] == '.' && rest.len() > 1 && digit_run(
        rest.drop_first(),
    ) == rest.len() - 1);
    let v = digits_value(body.take(r as int));
    if r > 0 && frac_ok && v < exact_limit() {
        Some(if neg { -(v as int) } else { v as int })
    } else {
        None
    }
}

/// An integer's decimal spelling, with a `-` when it is negative.
pub open spec fn signed_decimal(x: int) -> Seq<char> {
    if x < 0 {
        seq!['-'] + decimal((-x) as nat)
    } else {
        decimal(x as nat)
    }
}

/// The number of the list item `k` places after one numbered `start`,
/// counting from `start`'s integer part. A start that is not spelled as a
/// plain decimal, or that is too large to count exactly, is printed
/// unchanged.
pub open spec fn incremented(start: Seq<char>, k: nat) -> Seq<char> {
    match plain_int_part(start) {
        Some(v) => signed_decimal(v + k),
        None => start,
    }
}

/// The integer part of a plain decimal spelling, if it has one.
pub fn plain_int_part_of(s: &Vec<char>) -> (r: Option<i64>)
    ensures
        match plain_int_part(s@) {
            Some(v) => r == Some(v as i64) && -exact_limit() < v < exact_limit(),
            None => r is None,
        },
{
    let neg = s.len() > 0 && s[0] == '-';
    let from: usize = if neg { 1 } else { 0 };
    let ghost body = if neg { s@.drop_first() } else { s@ };
    assert(s@.skip(from as int) =~= body);
    let (r, v) = lead_digits(s, from, 0x20_0000_0000_0000);
    assert(s@.subrange(from as int, from + r) =~= body.take(r as int));
    let rest_start = from + r;
    assert(body.skip(r as int) =~= s@.skip(rest_start as int));
    let frac_ok = if rest_start == s.len() {
        true
    } else if s[rest_start] == '.' && rest_start + 1 < s.len() {
        let (fr, _fv) = lead_digits(s, rest_start + 1, 0);
        assert(s@.skip(rest_start as int).drop_first() =~= s@.skip(rest_start + 1));
        fr == s.len() - rest_start - 1
    } else {
        false
    };
    if r > 0 && frac_ok && v < 0x20_0000_0000_0000 {
        let x = v as i64;
        if neg {
            Some(-x)
        } else {
            Some(x)
        }
    } else {
        None
    }
}

/// Append an integer's decimal spelling.
pub fn push_signed(out: &mut Vec<char>, x: i64)
    requires
        x > i64::MIN,
    ensures
        final(out)@ == old(out)@ + signed_decimal(x as int),
{
    if x < 0 {
        out.push('-');
        let ghost mid = out@;
        push_decimal(out, (-x) as u64);
        assert(out@ =~= old(out)@ + signed_decimal(x as int));
    } else {
        push_decimal(out, x as u64);
    }
}

/// The number of the list item `k` places after one numbered `start`.
pub fn incremented_of(start: &Vec<char>, k: usize) -> (r: Vec<char>)
    requires
        k < 0x1_0000_0000,
    ensures
        r@ == incremented(start@, k as nat),
{
    match plain_int_part_of(start) {
        Some(v) => {
            let mut out: Vec<char> = Vec::new();
            push_signed(&mut out, v + k as i64);
            assert(out@ =~= incremented(start@, k as nat));
            out
        },
        None => start.clone(),
    }
}

} // verus!
