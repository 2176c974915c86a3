//! Numbers, carried as the ECMAScript spelling of their decimal value.
//!
//! Markdoc parses every numeric literal with `parseFloat` and prints every
//! number with `Number::toString`. This crate keeps a number as the spelling
//! that `toString` gives for the literal's exact decimal value: `1.0` and `1`
//! are the same number and both spell `1`, `-0` spells `0`, and a value at or
//! past `1e21`, or below `1e-6`, switches to exponent notation. What is not
//! modelled is the rounding to double precision: a literal with more than
//! seventeen significant digits keeps all of them.

use vstd::prelude::*;

use crate::format::digits_value;
use vstd::arithmetic::power::pow;
use crate::text::{decimal, push_decimal};

verus! {

/// How many leading characters of `s` are `c`.
pub open spec fn leading(s: Seq<char>, c: char) -> nat
    decreases s.len(),
{
    if s.len() == 0 || s[0] != c {
        0
    } else {
        1 + leading(s.drop_first(), c)
    }
}

/// How many trailing characters of `s` are `c`.
pub open spec fn trailing(s: Seq<char>, c: char) -> nat
    decreases s.len(),
{
    if s.len() == 0 || s.last() != c {
        0
    } else {
        1 + trailing(s.drop_last(), c)
    }
}

/// `n` copies of `c`.
pub open spec fn repeat(c: char, n: nat) -> Seq<char> {
    Seq::new(n, |i: int| c)
}

/// ECMAScript `Number::toString` for `s * 10^(n - len(s))`, where `s` is a
/// digit string with no leading or trailing zero.
pub open spec fn ecma_digits(s: Seq<char>, n: int) -> Seq<char> {
    let k = s.len() as int;
    if k <= n && n <= 21 {
        s + repeat('0', (n - k) as nat)
    } else if 0 < n && n <= 21 {
        s.take(n) + seq!['.'] + s.skip(n)
    } else if -6 < n && n <= 0 {
        seq!['0', '.'] + repeat('0', (-n) as nat) + s
    } else {
        let e = n - 1;
        let mantissa = if k == 1 { s } else { s.take(1) + seq!['.'] + s.skip(1) };
        mantissa + seq!['e', if e < 0 { '-' } else { '+' }] + decimal(if e < 0 { (-e) as nat } else { e as nat })
    }
}

/// The index of the first `c` in `s`, or -1.
pub open spec fn first_index(s: Seq<char>, c: char) -> int
    decreases s.len(),
{
    if s.len() == 0 {
        -1
    } else if s[0] == c {
        0
    } else if first_index(s.drop_first(), c) < 0 {
        -1
    } else {
        1 + first_index(s.drop_first(), c)
    }
}

proof fn lemma_first_index(s: Seq<char>, c: char)
    ensures
        -1 <= first_index(s, c) < s.len(),
        first_index(s, c) >= 0 ==> s[first_index(s, c)] == c,
        forall|i: int| 0 <= i < s.len() && (first_index(s, c) < 0 || i < first_index(s, c)) ==> #[trigger] s[i] != c,
    decreases s.len(),
{
    if s.len() > 0 {
        lemma_first_index(s.drop_first(), c);
        assert forall|i: int| 0 < i < s.len() implies #[trigger] s[i] == s.drop_first()[i - 1] by {}
    }
}

/// The digits of a literal's integer and fractional parts, and where its
/// decimal point sits among them.
pub open spec fn literal_digits(body: Seq<char>) -> (Seq<char>, int) {
    let point = first_index(body, '.');
    if point >= 0 {
        (body.take(point) + body.skip(point + 1), point)
    } else {
        (body, body.len() as int)
    }
}

/// The ECMAScript spelling of a numeric literal `-?[0-9]+(\.[0-9]+)?`.
pub open spec fn canonical_number(literal: Seq<char>) -> Seq<char> {
    let negative = literal.len() > 0 && literal[0] == '-';
    let body = if negative { literal.drop_first() } else { literal };
    let (digits, point) = literal_digits(body);
    let lz = leading(digits, '0');
    if lz == digits.len() {
        seq!['0']
    } else {
        let stripped = digits.skip(lz as int);
        let s = stripped.take(stripped.len() - trailing(stripped, '0'));
        let text = ecma_digits(s, point - lz);
        if negative { seq!['-'] + text } else { text }
    }
}

/// The trailing run of `c` counted by `trailing` is all `c`.
proof fn lemma_trailing_run(s: Seq<char>, c: char)
    ensures
        trailing(s, c) <= s.len(),
        forall|i: int| s.len() - trailing(s, c) <= i < s.len() ==> s[i] == c,
    decreases s.len(),
{
    if s.len() > 0 && s.last() == c {
        lemma_trailing_run(s.drop_last(), c);
        assert forall|i: int| s.len() - trailing(s, c) <= i < s.len() implies s[i] == c by {
            if i < s.len() - 1 {
                assert(s.drop_last()[i] == s[i]);
            }
        }
    }
}

/// An integer literal of at most 21 digits with no leading zero is already
/// its own ECMAScript spelling: `100` stays `100`, trailing zeros and all.
pub proof fn law_integer_literal_unchanged(lit: Seq<char>)
    requires
        1 <= lit.len() <= 21,
        forall|i: int| 0 <= i < lit.len() ==> '0' <= #[trigger] lit[i] <= '9',
        lit[0] != '0',
    ensures
        canonical_number(lit) == lit,
{
    lemma_first_index(lit, '.');
    if first_index(lit, '.') >= 0 {
        assert(lit[first_index(lit, '.')] == '.');
    }
    assert(literal_digits(lit) == (lit, lit.len() as int));
    assert(leading(lit, '0') == 0);
    assert(lit.skip(0) =~= lit);
    lemma_trailing_run(lit, '0');
    let t = trailing(lit, '0');
    let s = lit.take(lit.len() - t);
    assert(s + repeat('0', t) =~= lit);
    assert(ecma_digits(s, lit.len() as int) == s + repeat('0', (lit.len() - s.len()) as nat));
}

/// Zeros in front of a digit run add nothing to its value.
proof fn lemma_leading_zeros_value(m: nat, x: Seq<char>)
    ensures
        digits_value(repeat('0', m) + x) == digits_value(x),
    decreases x.len() + m,
{
    if x.len() == 0 {
        assert(repeat('0', m) + x =~= repeat('0', m));
        if m > 0 {
            assert(repeat('0', m).drop_last() =~= repeat('0', (m - 1) as nat));
            lemma_leading_zeros_value((m - 1) as nat, x);
            assert(repeat('0', (m - 1) as nat) + x =~= repeat('0', (m - 1) as nat));
        }
    } else {
        let z = repeat('0', m) + x;
        assert(z.drop_last() =~= repeat('0', m) + x.drop_last());
        assert(z.last() == x.last());
        lemma_leading_zeros_value(m, x.drop_last());
    }
}

/// A digit run of zeros only is worth nothing.
proof fn lemma_zeros_value(x: Seq<char>)
    requires
        forall|i: int| 0 <= i < x.len() ==> #[trigger] x[i] == '0',
    ensures
        digits_value(x) == 0,
    decreases x.len(),
{
    if x.len() > 0 {
        assert forall|i: int| 0 <= i < x.drop_last().len() implies #[trigger] x.drop_last()[i] == '0' by {
            assert(x.drop_last()[i] == x[i]);
        }
        lemma_zeros_value(x.drop_last());
    }
}

/// The leading run of `c` counted by `leading` is all `c`, and what follows
/// it does not start with `c`.
proof fn lemma_leading_run(s: Seq<char>, c: char)
    ensures
        leading(s, c) <= s.len(),
        forall|i: int| 0 <= i < leading(s, c) ==> #[trigger] s[i] == c,
        leading(s, c) < s.len() ==> s[leading(s, c) as int] != c,
    decreases s.len(),
{
    if s.len() > 0 && s[0] == c {
        lemma_leading_run(s.drop_first(), c);
        assert forall|i: int| 0 <= i < leading(s, c) implies #[trigger] s[i] == c by {
            if i > 0 {
                assert(s.drop_first()[i - 1] == s[i]);
            }
        }
        if leading(s, c) < s.len() {
            assert(s.drop_first()[leading(s, c) - 1] == s[leading(s, c) as int]);
        }
    }
}

/// Spelling an integer literal keeps its value: for a run of digits, leading
/// zeros and all, whose significant digits number at most 21, the ECMAScript
/// spelling is a run of digits with the same value (`007` spells `7`, `100`
/// spells `100`, `000` spells `0`).
pub proof fn law_integer_literal_value(lit: Seq<char>)
    requires
        1 <= lit.len(),
        forall|i: int| 0 <= i < lit.len() ==> '0' <= #[trigger] lit[i] <= '9',
        lit.len() - leading(lit, '0') <= 21,
    ensures
        forall|i: int|
            0 <= i < canonical_number(lit).len() ==> '0' <= #[trigger] canonical_number(lit)[i] <= '9',
        digits_value(canonical_number(lit)) == digits_value(lit),
{
    lemma_first_index(lit, '.');
    if first_index(lit, '.') >= 0 {
        assert(lit[first_index(lit, '.')] == '.');
    }
    assert(literal_digits(lit) == (lit, lit.len() as int));
    lemma_leading_run(lit, '0');
    let lz = leading(lit, '0');
    if lz == lit.len() {
        assert(canonical_number(lit) == seq!['0']);
        assert(seq!['0'].drop_last() =~= Seq::<char>::empty());
        assert(digits_value(Seq::<char>::empty()) == 0);
        assert(digits_value(seq!['0']) == 0);
        lemma_zeros_value(lit);
    } else {
        let stripped = lit.skip(lz as int);
        assert(stripped[0] == lit[lz as int]);
        lemma_trailing_run(stripped, '0');
        let t = trailing(stripped, '0');
        let s = stripped.take(stripped.len() - t);
        assert(s + repeat('0', t) =~= stripped);
        assert(ecma_digits(s, lit.len() - lz) == s + repeat('0', (lit.len() - lz - s.len()) as nat));
        assert(canonical_number(lit) == stripped);
        assert(repeat('0', lz) + stripped =~= lit);
        lemma_leading_zeros_value(lz, stripped);
        assert(digits_value(canonical_number(lit)) == digits_value(lit));
    }
}

/// The value of a digit run is that of its head shifted past its tail.
proof fn lemma_digits_value_concat(x: Seq<char>, y: Seq<char>)
    ensures
        digits_value(x + y) == digits_value(x) * pow(10, y.len()) + digits_value(y),
    decreases y.len(),
{
    reveal(pow);
    if y.len() == 0 {
        assert(x + y =~= x);
        assert(pow(10, 0) == 1);
    } else {
        let y0 = y.drop_last();
        assert((x + y).drop_last() =~= x + y0);
        assert((x + y).last() == y.last());
        lemma_digits_value_concat(x, y0);
        let p0 = pow(10, y0.len());
        assert(pow(10, y.len()) == 10 * p0);
        let dx = digits_value(x) as int;
        let dy0 = digits_value(y0) as int;
        assert((dx * p0 + dy0) * 10 == dx * (10 * p0) + dy0 * 10) by (nonlinear_arith);
    }
}

/// A digit run that is not all zeros is its leading zeros, its significant
/// digits, and its trailing zeros; only the last two count.
proof fn lemma_significant(d: Seq<char>)
    requires
        forall|i: int| 0 <= i < d.len() ==> '0' <= #[trigger] d[i] <= '9',
        leading(d, '0') < d.len(),
    ensures
        ({
            let lz = leading(d, '0');
            let stripped = d.skip(lz as int);
            let t = trailing(stripped, '0');
            let s = stripped.take(stripped.len() - t);
            &&& s.len() >= 1
            &&& lz + s.len() + t == d.len()
            &&& forall|i: int| 0 <= i < s.len() ==> '0' <= #[trigger] s[i] <= '9'
            &&& digits_value(d) == digits_value(s) * pow(10, t)
        }),
{
    lemma_leading_run(d, '0');
    let lz = leading(d, '0');
    let stripped = d.skip(lz as int);
    assert(stripped[0] == d[lz as int]);
    lemma_trailing_run(stripped, '0');
    let t = trailing(stripped, '0');
    let s = stripped.take(stripped.len() - t);
    assert forall|i: int| 0 <= i < s.len() implies '0' <= #[trigger] s[i] <= '9' by {
        assert(s[i] == d[lz + i]);
    }
    let z1 = repeat('0', lz);
    let z2 = repeat('0', t);
    let whole = z1 + (s + z2);
    assert forall|i: int| 0 <= i < d.len() implies #[trigger] d[i] == whole[i] by {
        if i < lz {
            assert(d[i] == '0');
        } else if i < lz + s.len() {
            assert(whole[i] == s[i - lz]);
            assert(s[i - lz] == stripped[i - lz]);
        } else {
            assert(stripped[i - lz] == '0');
            assert(d[i] == stripped[i - lz]);
        }
    }
    assert(d =~= whole);
    lemma_leading_zeros_value(lz, s + z2);
    lemma_digits_value_concat(s, z2);
    lemma_zeros_value(z2);
}

/// Spelling a decimal literal keeps its value. For a literal `a` or `a.b`
/// (runs of digits, `a` not empty) whose spelling needs no exponent, the
/// spelling is either a run of digits or two runs `x.y`, and, counting each
/// as its digits over a power of ten, it has the literal's value:
/// `1.50` spells `1.5`, `007.25` spells `7.25`, `0.0010` spells `0.001`.
pub proof fn law_decimal_literal_value(a: Seq<char>, b: Seq<char>)
    requires
        1 <= a.len(),
        forall|i: int| 0 <= i < a.len() ==> '0' <= #[trigger] a[i] <= '9',
        forall|i: int| 0 <= i < b.len() ==> '0' <= #[trigger] b[i] <= '9',
        leading(a + b, '0') < (a + b).len() ==> -6 < a.len() - leading(a + b, '0') <= 21,
    ensures
        ({
            let lit = if b.len() == 0 { a } else { a + seq!['.'] + b };
            let c = canonical_number(lit);
            ||| (forall|i: int| 0 <= i < c.len() ==> '0' <= #[trigger] c[i] <= '9') && digits_value(c) * pow(
                10,
                b.len(),
            ) == digits_value(a + b)
            ||| exists|x: Seq<char>, y: Seq<char>|
                c == x + seq!['.'] + y && (forall|i: int| 0 <= i < x.len() ==> '0' <= #[trigger] x[i] <= '9')
                    && (forall|i: int| 0 <= i < y.len() ==> '0' <= #[trigger] y[i] <= '9') && #[trigger] digits_value(
                    x + y,
                ) * pow(10, b.len()) == digits_value(a + b) * pow(10, y.len())
        }),
{
    let lit = if b.len() == 0 { a } else { a + seq!['.'] + b };
    let d = a + b;
    lemma_first_index(lit, '.');
    if b.len() == 0 {
        assert(d =~= a);
        if first_index(lit, '.') >= 0 {
            assert(lit[first_index(lit, '.')] == '.');
        }
        assert(literal_digits(lit) == (d, a.len() as int));
    } else {
        let fi = first_index(lit, '.');
        assert(lit[a.len() as int] == '.');
        if fi != a.len() {
            if fi >= 0 {
                assert(lit[fi] == '.');
                if fi < a.len() {
                    assert(lit[fi] == a[fi]);
                } else {
                    assert(lit[fi] == b[fi - a.len() - 1]);
                }
            }
            assert(false);
        }
        assert(lit.take(fi) + lit.skip(fi + 1) =~= d);
        assert(literal_digits(lit) == (d, a.len() as int));
    }
    assert(lit[0] == a[0]);
    assert forall|i: int| 0 <= i < d.len() implies '0' <= #[trigger] d[i] <= '9' by {
        if i < a.len() {
            assert(d[i] == a[i]);
        } else {
            assert(d[i] == b[i - a.len()]);
        }
    }
    lemma_leading_run(d, '0');
    let lz = leading(d, '0');
    let c = canonical_number(lit);
    if lz == d.len() {
        assert(c == seq!['0']);
        assert(seq!['0'].drop_last() =~= Seq::<char>::empty());
        assert(digits_value(Seq::<char>::empty()) == 0);
        assert(digits_value(seq!['0']) == 0);
        lemma_zeros_value(d);
        assert(digits_value(c) * pow(10, b.len()) == 0);
    } else {
        let stripped = d.skip(lz as int);
        let t = trailing(stripped, '0');
        let s = stripped.take(stripped.len() - t);
        let k = s.len() as int;
        let n = a.len() - lz;
        lemma_significant(d);
        let ds = digits_value(s) as int;
        assert(b.len() == k + t - n);
        let text = ecma_digits(s, n);
        assert(c == text);
        if k <= n && n <= 21 {
            let z = repeat('0', (n - k) as nat);
            assert(c == s + z);
            lemma_digits_value_concat(s, z);
            lemma_zeros_value(z);
            assert forall|i: int| 0 <= i < c.len() implies '0' <= #[trigger] c[i] <= '9' by {
                if i < k {
                    assert(c[i] == s[i]);
                } else {
                    assert(c[i] == z[i - k]);
                }
            }
            vstd::arithmetic::power::lemma_pow_adds(10, (n - k) as nat, b.len());
            assert(((n - k) as nat) + b.len() == t);
            let p1 = pow(10, (n - k) as nat);
            let p2 = pow(10, b.len());
            assert((ds * p1) * p2 == ds * (p1 * p2)) by (nonlinear_arith);
        } else {
            let (x, y) = if 0 < n {
                (s.take(n), s.skip(n))
            } else {
                (seq!['0'], repeat('0', (-n) as nat) + s)
            };
            assert(c =~= x + seq!['.'] + y);
            assert(y.len() == k - n);
            if 0 < n {
                assert(x + y =~= s);
            } else {
                assert(x + y =~= repeat('0', (1 - n) as nat) + s);
                lemma_leading_zeros_value((1 - n) as nat, s);
            }
            assert(digits_value(x + y) == ds);
            assert forall|i: int| 0 <= i < x.len() implies '0' <= #[trigger] x[i] <= '9' by {
                if 0 < n {
                    assert(x[i] == s[i]);
                }
            }
            assert forall|i: int| 0 <= i < y.len() implies '0' <= #[trigger] y[i] <= '9' by {
                if 0 < n {
                    assert(y[i] == s[i + n]);
                } else if i >= -n {
                    assert(y[i] == s[i + n]);
                }
            }
            vstd::arithmetic::power::lemma_pow_adds(10, t as nat, y.len());
            assert((t as nat) + y.len() == b.len());
            let p1 = pow(10, t as nat);
            let p2 = pow(10, y.len());
            assert((ds * p1) * p2 == ds * (p1 * p2)) by (nonlinear_arith);
            assert(digits_value(x + y) * pow(10, b.len()) == digits_value(a + b) * pow(10, y.len()));
        }
    }
}

proof fn lemma_leading_step(s: Seq<char>, c: char, i: int)
    requires
        0 <= i <= s.len(),
        leading(s, c) >= i,
    ensures
        leading(s, c) == i + leading(s.skip(i), c),
    decreases i,
{
    if i > 0 {
        assert(s.skip(1) =~= s.drop_first());
        lemma_leading_step(s.drop_first(), c, i - 1);
        assert(s.drop_first().skip(i - 1) =~= s.skip(i));
    } else {
        assert(s.skip(0) =~= s);
    }
}

proof fn lemma_trailing_step(s: Seq<char>, c: char, i: int)
    requires
        0 <= i <= s.len(),
        trailing(s, c) >= i,
    ensures
        trailing(s, c) == i + trailing(s.take(s.len() - i), c),
    decreases i,
{
    if i > 0 {
        lemma_trailing_step(s.drop_last(), c, i - 1);
        assert(s.drop_last().take(s.drop_last().len() - (i - 1)) =~= s.take(s.len() - i));
    } else {
        assert(s.take(s.len() as int) =~= s);
    }
}

proof fn lemma_trailing_all(s: Seq<char>, c: char)
    ensures
        trailing(s, c) <= s.len(),
        s.len() > 0 && trailing(s, c) == s.len() ==> s[0] == c,
    decreases s.len(),
{
    if s.len() > 0 && s.last() == c {
        lemma_trailing_all(s.drop_last(), c);
        if s.len() > 1 {
            assert(s.drop_last()[0] == s[0]);
        }
    }
}

/// Append `n` copies of `c`.
fn push_repeat(out: &mut Vec<char>, c: char, n: usize)
    ensures
        final(out)@ == old(out)@ + repeat(c, n as nat),
{
    let ghost start = out@;
    let mut i: usize = 0;
    while i < n
        invariant
            i <= n,
            out@ == start + repeat(c, i as nat),
        decreases n - i,
    {
        out.push(c);
        i = i + 1;
        assert(out@ =~= start + repeat(c, i as nat));
    }
}

/// Append `s[from..to]`.
fn push_range(out: &mut Vec<char>, s: &Vec<char>, from: usize, to: usize)
    requires
        from <= to <= s@.len(),
    ensures
        final(out)@ == old(out)@ + s@.subrange(from as int, to as int),
{
    let ghost start = out@;
    let mut i = from;
    while i < to
        invariant
            from <= i <= to <= s@.len(),
            out@ == start + s@.subrange(from as int, i as int),
        decreases to - i,
    {
        out.push(s[i]);
        i = i + 1;
        assert(out@ =~= start + s@.subrange(from as int, i as int));
    }
}

/// Append `ecma_digits(s, n)`.
fn push_ecma_digits(out: &mut Vec<char>, s: &Vec<char>, n: i128)
    requires
        1 <= s@.len(),
        -0xFFFF_FFFF_FFFF_FFFF < n <= 0xFFFF_FFFF_FFFF_FFFF,
    ensures
        final(out)@ == old(out)@ + ecma_digits(s@, n as int),
{
    let ghost start = out@;
    let k = s.len() as i128;
    if k <= n && n <= 21 {
        push_range(out, s, 0, s.len());
        push_repeat(out, '0', (n - k) as usize);
        assert(s@.subrange(0, s@.len() as int) =~= s@);
    } else if 0 < n && n <= 21 {
        push_range(out, s, 0, n as usize);
        out.push('.');
        push_range(out, s, n as usize, s.len());
        assert(out@ =~= start + (s@.take(n as int) + seq!['.'] + s@.skip(n as int)));
    } else if -6 < n && n <= 0 {
        out.push('0');
        out.push('.');
        push_repeat(out, '0', (-n) as usize);
        push_range(out, s, 0, s.len());
        assert(s@.subrange(0, s@.len() as int) =~= s@);
        assert(out@ =~= start + (seq!['0', '.'] + repeat('0', (-n) as nat) + s@));
    } else {
        let e = n - 1;
        if k == 1 {
            push_range(out, s, 0, 1);
            assert(s@.subrange(0, 1) =~= s@);
        } else {
            push_range(out, s, 0, 1);
            out.push('.');
            push_range(out, s, 1, s.len());
        }
        let ghost mid = out@;
        out.push('e');
        if e < 0 {
            out.push('-');
            push_decimal(out, (-e) as u64);
        } else {
            out.push('+');
            push_decimal(out, e as u64);
        }
        assert(out@ =~= start + ecma_digits(s@, n as int));
    }
}

/// The digits of `literal[start..]` and the position of its point.
fn split_literal(literal: &Vec<char>, start: usize) -> (r: (Vec<char>, usize))
    requires
        start <= literal@.len(),
    ensures
        literal_digits(literal@.skip(start as int)) == (r.0@, r.1 as int),
        r.0@.len() <= literal@.len(),
        r.1 <= literal@.len(),
{
    let ghost body = literal@.skip(start as int);
    proof {
        lemma_first_index(body, '.');
    }
    let mut p = start;
    while p < literal.len() && literal[p] != '.'
        invariant
            start <= p <= literal@.len(),
            body == literal@.skip(start as int),
            forall|i: int| start <= i < p ==> literal@[i] != '.',
        decreases literal.len() - p,
    {
        p = p + 1;
    }
    let mut digits: Vec<char> = Vec::new();
    if p < literal.len() {
        proof {
            if first_index(body, '.') < 0 || first_index(body, '.') != p - start {
                if first_index(body, '.') >= 0 && first_index(body, '.') < p - start {
                    assert(literal@[start + first_index(body, '.')] == body[first_index(body, '.')]);
                } else {
                    assert(body[(p - start) as int] == literal@[p as int]);
                }
            }
        }
        push_range(&mut digits, literal, start, p);
        push_range(&mut digits, literal, p + 1, literal.len());
        assert(digits@ =~= body.take(p - start) + body.skip(p - start + 1));
        (digits, p - start)
    } else {
        proof {
            if first_index(body, '.') >= 0 {
                assert(body[first_index(body, '.')] == literal@[start + first_index(body, '.')]);
            }
        }
        push_range(&mut digits, literal, start, literal.len());
        assert(digits@ =~= body);
        (digits, literal.len() - start)
    }
}

/// How many leading zeros `digits` has.
fn count_leading_zeros(digits: &Vec<char>) -> (lz: usize)
    ensures
        lz == leading(digits@, '0'),
        lz <= digits@.len(),
{
    let mut lz: usize = 0;
    while lz < digits.len() && digits[lz] == '0'
        invariant
            lz <= digits@.len(),
            leading(digits@, '0') >= lz,
        decreases digits.len() - lz,
    {
        proof {
            lemma_leading_step(digits@, '0', lz as int);
            assert(digits@.skip(lz as int)[0] == digits@[lz as int]);
            reveal_with_fuel(leading, 2);
        }
        lz = lz + 1;
    }
    proof {
        lemma_leading_step(digits@, '0', lz as int);
        if lz < digits.len() {
            assert(digits@.skip(lz as int)[0] == digits@[lz as int]);
        }
    }
    lz
}

/// How many trailing zeros `digits` has.
fn count_trailing_zeros(digits: &Vec<char>) -> (tz: usize)
    ensures
        tz == trailing(digits@, '0'),
        tz <= digits@.len(),
{
    let mut tz: usize = 0;
    while tz < digits.len() && digits[digits.len() - 1 - tz] == '0'
        invariant
            tz <= digits@.len(),
            trailing(digits@, '0') >= tz,
        decreases digits.len() - tz,
    {
        proof {
            lemma_trailing_step(digits@, '0', tz as int);
            let rest = digits@.take(digits@.len() - tz);
            assert(rest.last() == digits@[digits@.len() - 1 - tz]);
            reveal_with_fuel(trailing, 2);
        }
        tz = tz + 1;
    }
    proof {
        lemma_trailing_step(digits@, '0', tz as int);
        if tz < digits.len() {
            let rest = digits@.take(digits@.len() - tz);
            assert(rest.last() == digits@[digits@.len() - 1 - tz]);
        }
    }
    tz
}

/// The ECMAScript spelling of a numeric literal.
///
/// `literal` is what the tag grammar's number rule matched:
/// `-?[0-9]+(\.[0-9]+)?`.
pub fn canonical_number_of(literal: &Vec<char>) -> (out: Vec<char>)
    ensures
        out@ == canonical_number(literal@),
{
    let negative = literal.len() > 0 && literal[0] == '-';
    let start: usize = if negative { 1 } else { 0 };
    assert(literal@.skip(start as int) =~= if negative { literal@.drop_first() } else { literal@ });
    let (digits, point) = split_literal(literal, start);
    let lz = count_leading_zeros(&digits);
    let mut out: Vec<char> = Vec::new();
    if lz == digits.len() {
        out.push('0');
        assert(out@ =~= seq!['0']);
        return out;
    }
    let mut stripped: Vec<char> = Vec::new();
    push_range(&mut stripped, &digits, lz, digits.len());
    assert(stripped@ =~= digits@.skip(lz as int));
    proof {
        lemma_leading_step(digits@, '0', lz as int);
        reveal_with_fuel(leading, 2);
        assert(stripped@[0] != '0');
        reveal_with_fuel(trailing, 2);
    }
    let tz = count_trailing_zeros(&stripped);
    proof {
        lemma_trailing_all(stripped@, '0');
    }
    let mut s: Vec<char> = Vec::new();
    push_range(&mut s, &stripped, 0, stripped.len() - tz);
    assert(s@ =~= stripped@.take(stripped@.len() - trailing(stripped@, '0')));
    if negative {
        out.push('-');
    }
    let ghost before = out@;
    push_ecma_digits(&mut out, &s, point as i128 - lz as i128);
    assert(out@ =~= canonical_number(literal@));
    out
}

} // verus!
