//! Text helpers shared by every stage: moving between `&str`, `Vec<char>`
//! and `String`, slicing a string by byte offsets, and counting the bytes a
//! run of characters occupies in UTF-8.

use vstd::prelude::*;
use vstd::utf8::*;
use vstd::string::StringSliceAdditionalSpecFns;

use crate::format::unicode_whitespace;

verus! {

/// The characters of a string, in order.
pub fn chars_of(s: &str) -> (v: Vec<char>)
    ensures
        v@ == s@,
{
    let mut v: Vec<char> = Vec::new();
    for c in it: s.chars()
        invariant
            v@ == it.seq().take(it.index() as int),
            it.seq() == s@,
    {
        v.push(c);
    }
    v
}

/// A string holding exactly `chars`.
#[verifier::external_body]
pub(crate) fn string_of(chars: &Vec<char>) -> (s: String)
    ensures
        s@ == chars@,
{
    chars.iter().collect()
}

/// Append the characters of `s`.
pub fn push_str(out: &mut Vec<char>, s: &str)
    ensures
        final(out)@ == old(out)@ + s@,
{
    let chars = chars_of(s);
    push_chars(out, &chars);
}

/// Append `chars`.
pub fn push_chars(out: &mut Vec<char>, chars: &Vec<char>)
    ensures
        final(out)@ == old(out)@ + chars@,
{
    let ghost start = out@;
    let mut i: usize = 0;
    while i < chars.len()
        invariant
            i <= chars.len(),
            out@ == start + chars@.take(i as int),
        decreases chars.len() - i,
    {
        out.push(chars[i]);
        i = i + 1;
        assert(out@ =~= start + chars@.take(i as int));
    }
    assert(chars@.take(i as int) =~= chars@);
}

/// The bytes `s[start..end]`, when both ends are on character boundaries
/// and in range.
#[verifier::external_body]
pub(crate) fn str_get<'a>(s: &'a str, start: usize, end: usize) -> (r: Option<&'a str>)
    ensures
        r is Some <==> (start <= end <= s.spec_bytes().len() && is_char_boundary(
            s.spec_bytes(),
            start as int,
        ) && is_char_boundary(s.spec_bytes(), end as int)),
        r matches Some(t) ==> t.spec_bytes() == s.spec_bytes().subrange(start as int, end as int),
{
    s.get(start..end)
}

/// How many bytes `c` takes in UTF-8.
pub open spec fn char_width(c: char) -> nat {
    if (c as u32) <= 0x7F {
        1
    } else if (c as u32) <= 0x7FF {
        2
    } else if (c as u32) <= 0xFFFF {
        3
    } else {
        4
    }
}

/// How many bytes `s` takes in UTF-8.
pub open spec fn byte_len(s: Seq<char>) -> nat
    decreases s.len(),
{
    if s.len() == 0 {
        0
    } else {
        byte_len(s.drop_last()) + char_width(s.last())
    }
}

/// `byte_len` is the length of the UTF-8 encoding.
pub proof fn lemma_byte_len_is_encoded_len(s: Seq<char>)
    ensures
        byte_len(s) == encode_utf8(s).len(),
    decreases s.len(),
{
    if s.len() > 0 {
        lemma_byte_len_append(seq![s[0]], s.drop_first());
        assert(seq![s[0]] + s.drop_first() =~= s);
        lemma_byte_len_is_encoded_len(s.drop_first());
        char_is_scalar(s[0]);
        reveal_with_fuel(byte_len, 2);
        assert(seq![s[0]].drop_last() =~= Seq::<char>::empty());
    }
}

/// Byte lengths add up over concatenation.
pub proof fn lemma_byte_len_append(a: Seq<char>, b: Seq<char>)
    ensures
        byte_len(a + b) == byte_len(a) + byte_len(b),
    decreases b.len(),
{
    if b.len() == 0 {
        assert(a + b =~= a);
    } else {
        lemma_byte_len_append(a, b.drop_last());
        assert((a + b).drop_last() =~= a + b.drop_last());
    }
}

/// A prefix takes no more bytes than the whole.
pub proof fn lemma_byte_len_take(s: Seq<char>, i: int)
    requires
        0 <= i <= s.len(),
    ensures
        byte_len(s.take(i)) <= byte_len(s),
        i < s.len() ==> byte_len(s.take(i + 1)) == byte_len(s.take(i)) + char_width(s[i]),
{
    lemma_byte_len_append(s.take(i), s.skip(i));
    assert(s.take(i) + s.skip(i) =~= s);
    if i < s.len() {
        assert(s.take(i + 1).drop_last() =~= s.take(i));
    }
}

/// The number of bytes `c` takes in UTF-8.
pub fn width_of(c: char) -> (w: usize)
    ensures
        w == char_width(c),
{
    if (c as u32) <= 0x7F {
        1
    } else if (c as u32) <= 0x7FF {
        2
    } else if (c as u32) <= 0xFFFF {
        3
    } else {
        4
    }
}

/// The decimal spelling of a natural number.
pub open spec fn decimal(n: nat) -> Seq<char>
    decreases n,
{
    if n < 10 {
        seq![digit_char(n)]
    } else {
        decimal(n / 10).push(digit_char(n % 10))
    }
}

/// The character for a digit.
pub open spec fn digit_char(d: nat) -> char {
    if d == 0 { '0' }
    else if d == 1 { '1' }
    else if d == 2 { '2' }
    else if d == 3 { '3' }
    else if d == 4 { '4' }
    else if d == 5 { '5' }
    else if d == 6 { '6' }
    else if d == 7 { '7' }
    else if d == 8 { '8' }
    else { '9' }
}

fn digit(d: u64) -> (c: char)
    requires
        d < 10,
    ensures
        c == digit_char(d as nat),
{
    if d == 0 { '0' }
    else if d == 1 { '1' }
    else if d == 2 { '2' }
    else if d == 3 { '3' }
    else if d == 4 { '4' }
    else if d == 5 { '5' }
    else if d == 6 { '6' }
    else if d == 7 { '7' }
    else if d == 8 { '8' }
    else { '9' }
}

/// Append the decimal spelling of `n`.
pub fn push_decimal(out: &mut Vec<char>, n: u64)
    ensures
        final(out)@ == old(out)@ + decimal(n as nat),
    decreases n,
{
    if n < 10 {
        out.push(digit(n));
    } else {
        push_decimal(out, n / 10);
        out.push(digit(n % 10));
    }
}

/// The decimal spelling of `n`, as a string.
pub fn decimal_string(n: u64) -> (s: String)
    ensures
        s@ == decimal(n as nat),
{
    let mut out: Vec<char> = Vec::new();
    push_decimal(&mut out, n);
    assert(out@ =~= decimal(n as nat));
    string_of(&out)
}

/// Whether `c` is Unicode `White_Space`, as `char::is_whitespace` decides.
pub fn is_white(c: char) -> (b: bool)
    ensures
        b == unicode_whitespace(c),
{
    let u = c as u32;
    (0x9 <= u && u <= 0xD) || u == 0x20 || u == 0x85 || u == 0xA0 || u == 0x1680 || (0x2000 <= u
        && u <= 0x200A) || u == 0x2028 || u == 0x2029 || u == 0x202F || u == 0x205F || u == 0x3000
}

/// How many whitespace characters `s` starts with.
pub open spec fn lead_ws(s: Seq<char>) -> nat
    decreases s.len(),
{
    if s.len() == 0 {
        0
    } else if unicode_whitespace(s[0]) {
        1 + lead_ws(s.drop_first())
    } else {
        0
    }
}

/// How many whitespace characters `s` ends with.
pub open spec fn trail_ws(s: Seq<char>) -> nat
    decreases s.len(),
{
    if s.len() == 0 {
        0
    } else if unicode_whitespace(s.last()) {
        1 + trail_ws(s.drop_last())
    } else {
        0
    }
}

/// `s` without its leading whitespace: `str::trim_start`.
pub open spec fn trim_start_spec(s: Seq<char>) -> Seq<char> {
    s.skip(lead_ws(s) as int)
}

/// `s` without its trailing whitespace: `str::trim_end`.
pub open spec fn trim_end_spec(s: Seq<char>) -> Seq<char> {
    s.take(s.len() - trail_ws(s))
}

/// `s` without whitespace at either end: `str::trim`.
pub open spec fn trim_spec(s: Seq<char>) -> Seq<char> {
    trim_end_spec(trim_start_spec(s))
}

/// The leading whitespace is the run before the first other character.
pub proof fn lemma_lead_ws(s: Seq<char>, k: int)
    requires
        0 <= k <= s.len(),
        forall|j: int| 0 <= j < k ==> unicode_whitespace(#[trigger] s[j]),
        k < s.len() ==> !unicode_whitespace(s[k]),
    ensures
        lead_ws(s) == k,
    decreases k,
{
    if k > 0 {
        let t = s.drop_first();
        assert forall|j: int| 0 <= j < k - 1 implies unicode_whitespace(#[trigger] t[j]) by {
            assert(t[j] == s[j + 1]);
        }
        if k - 1 < t.len() {
            assert(t[k - 1] == s[k]);
        }
        lemma_lead_ws(t, k - 1);
        assert(unicode_whitespace(s[0]));
    }
}

/// The trailing whitespace is the run after the last other character.
pub proof fn lemma_trail_ws(s: Seq<char>, k: int)
    requires
        0 <= k <= s.len(),
        forall|j: int| s.len() - k <= j < s.len() ==> unicode_whitespace(#[trigger] s[j]),
        k < s.len() ==> !unicode_whitespace(s[s.len() - k - 1]),
    ensures
        trail_ws(s) == k,
    decreases k,
{
    if k > 0 {
        let t = s.drop_last();
        assert forall|j: int| t.len() - (k - 1) <= j < t.len() implies unicode_whitespace(
            #[trigger] t[j],
        ) by {
            assert(t[j] == s[j]);
        }
        if k - 1 < t.len() {
            assert(t[t.len() - (k - 1) - 1] == s[s.len() - k - 1]);
        }
        lemma_trail_ws(t, k - 1);
        assert(unicode_whitespace(s[s.len() - 1]));
    }
}

/// The characters `s[a..b]`.
pub fn sub_chars_of(s: &Vec<char>, a: usize, b: usize) -> (r: Vec<char>)
    requires
        a <= b <= s@.len(),
    ensures
        r@ == s@.subrange(a as int, b as int),
{
    let mut r: Vec<char> = Vec::new();
    let mut i = a;
    while i < b
        invariant
            a <= i <= b <= s@.len(),
            r@ == s@.subrange(a as int, i as int),
        decreases b - i,
    {
        r.push(s[i]);
        i = i + 1;
        assert(r@ =~= s@.subrange(a as int, i as int));
    }
    r
}

/// How many whitespace characters `s` starts with.
pub fn count_lead_ws(s: &Vec<char>) -> (n: usize)
    ensures
        n == lead_ws(s@),
{
    let mut i: usize = 0;
    while i < s.len() && is_white(s[i])
        invariant
            i <= s@.len(),
            forall|j: int| 0 <= j < i ==> unicode_whitespace(#[trigger] s@[j]),
        decreases s.len() - i,
    {
        i = i + 1;
    }
    proof {
        lemma_lead_ws(s@, i as int);
    }
    i
}

/// How many whitespace characters `s` ends with.
pub fn count_trail_ws(s: &Vec<char>) -> (n: usize)
    ensures
        n == trail_ws(s@),
{
    let mut k: usize = 0;
    while k < s.len() && is_white(s[s.len() - k - 1])
        invariant
            k <= s@.len(),
            forall|j: int| s@.len() - k <= j < s@.len() ==> unicode_whitespace(#[trigger] s@[j]),
        decreases s.len() - k,
    {
        k = k + 1;
    }
    proof {
        lemma_trail_ws(s@, k as int);
    }
    k
}

/// `s` without its leading whitespace.
pub fn trim_start_chars(s: &Vec<char>) -> (r: Vec<char>)
    ensures
        r@ == trim_start_spec(s@),
{
    let n = count_lead_ws(s);
    proof {
        lemma_lead_bound(s@);
    }
    sub_chars_of(s, n, s.len())
}

/// `s` without whitespace at either end.
pub fn trim_chars(s: &Vec<char>) -> (r: Vec<char>)
    ensures
        r@ == trim_spec(s@),
{
    let t = trim_start_chars(s);
    let k = count_trail_ws(&t);
    proof {
        lemma_trail_bound(t@);
    }
    sub_chars_of(&t, 0, t.len() - k)
}

/// There is no more trailing whitespace than there are characters.
pub proof fn lemma_trail_bound(s: Seq<char>)
    ensures
        trail_ws(s) <= s.len(),
    decreases s.len(),
{
    if s.len() > 0 {
        lemma_trail_bound(s.drop_last());
    }
}

/// There is no more leading whitespace than there are characters.
pub proof fn lemma_lead_bound(s: Seq<char>)
    ensures
        lead_ws(s) <= s.len(),
    decreases s.len(),
{
    if s.len() > 0 {
        lemma_lead_bound(s.drop_first());
    }
}

/// A string of `n` copies of `c`.
pub open spec fn repeat_char(c: char, n: nat) -> Seq<char> {
    Seq::new(n, |i: int| c)
}

/// Append `n` copies of `c`.
pub fn push_repeat(out: &mut Vec<char>, c: char, n: usize)
    ensures
        final(out)@ == old(out)@ + repeat_char(c, n as nat),
{
    let ghost start = out@;
    let mut i: usize = 0;
    while i < n
        invariant
            i <= n,
            out@ == start + repeat_char(c, i as nat),
        decreases n - i,
    {
        out.push(c);
        i = i + 1;
        assert(out@ =~= start + repeat_char(c, i as nat));
    }
}

/// `items` joined with `sep` between each two: `[T]::join`.
pub open spec fn join(items: Seq<Seq<char>>, sep: Seq<char>) -> Seq<char>
    decreases items.len(),
{
    if items.len() == 0 {
        Seq::empty()
    } else if items.len() == 1 {
        items[0]
    } else {
        join(items.drop_last(), sep) + sep + items.last()
    }
}

/// Append `items`, joined with `sep`.
pub fn push_joined(out: &mut Vec<char>, items: &Vec<Vec<char>>, sep: &Vec<char>)
    ensures
        final(out)@ == old(out)@ + join(Seq::new(items@.len(), |i: int| items@[i]@), sep@),
{
    let ghost start = out@;
    let ghost all = Seq::new(items@.len(), |i: int| items@[i]@);
    let mut i: usize = 0;
    while i < items.len()
        invariant
            i <= items@.len(),
            all == Seq::new(items@.len(), |i: int| items@[i]@),
            out@ == start + join(all.take(i as int), sep@),
        decreases items.len() - i,
    {
        proof {
            let next = all.take(i + 1);
            assert(next.drop_last() =~= all.take(i as int));
            assert(next.last() == items@[i as int]@);
            if i == 0 {
                assert(join(all.take(0), sep@) =~= Seq::<char>::empty());
            }
        }
        if i > 0 {
            push_chars(out, sep);
        }
        push_chars(out, &items[i]);
        i = i + 1;
        assert(out@ =~= start + join(all.take(i as int), sep@));
    }
    assert(all.take(i as int) =~= all);
}

/// Trimmed text starts with something other than whitespace.
pub proof fn lemma_trim_start_clean(s: Seq<char>)
    ensures
        trim_start_spec(s).len() > 0 ==> !unicode_whitespace(trim_start_spec(s)[0]),
    decreases s.len(),
{
    if s.len() > 0 && unicode_whitespace(s[0]) {
        lemma_trim_start_clean(s.drop_first());
        lemma_lead_bound(s.drop_first());
        assert(s.skip(lead_ws(s) as int) =~= s.drop_first().skip(lead_ws(s.drop_first()) as int));
    }
}

} // verus!
