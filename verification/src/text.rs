//! Character-level helpers shared by the text formats: whitespace, line and
//! token splitting, prefixes, decimal rendering and number syntax.
//!
//! Text is handled as a vector of `char`s; ranges `[start, end)` index into
//! it.

use vstd::prelude::*;
use vstd::std_specs::iter::IteratorSpec;

verus! {

/// The characters of `s`, in order, as a `Vec`.
pub(crate) fn chars_of(s: &str) -> (v: Vec<char>)
    ensures
        v@ == s@,
{
    broadcast use {vstd::string::axiom_spec_iter, vstd::string::next_postcondition};
    let mut v: Vec<char> = Vec::new();
    let mut it = s.chars();
    loop
        invariant_except_break
            v@ + it.remaining() == s@,
            it.decrease() is Some,
        ensures
            v@ == s@,
        decreases it.decrease()->0,
    {
        let ghost before = it.remaining();
        match it.next() {
            Some(c) => {
                v.push(c);
                assert(v@ + it.remaining() =~= s@) by {
                    assert(before =~= seq![c] + before.drop_first());
                }
            },
            None => {
                assert(v@ + Seq::<char>::empty() =~= v@);
                break;
            },
        }
    }
    v
}

/// The string made of the characters `cs`: `String`'s `FromIterator<&char>`.
/// Trusted to hold exactly those characters, in order.
#[verifier::external_body]
pub(crate) fn string_from_chars(cs: &[char]) -> (s: String)
    ensures
        s@ == cs@,
{
    cs.iter().collect()
}

/// The string holding `chars[start..end]`.
pub fn substring(chars: &Vec<char>, start: usize, end: usize) -> (s: String)
    requires
        start <= end <= chars@.len(),
    ensures
        s@ == chars@.subrange(start as int, end as int),
{
    let slice = chars.as_slice();
    string_from_chars(&slice[start..end])
}

/// Unicode `White_Space`, as std's `char::is_whitespace` classifies it.
pub open spec fn is_ws(c: char) -> bool {
    ||| ('\u{9}' <= c && c <= '\u{d}')
    ||| c == ' '
    ||| c == '\u{85}'
    ||| c == '\u{a0}'
    ||| c == '\u{1680}'
    ||| ('\u{2000}' <= c && c <= '\u{200a}')
    ||| c == '\u{2028}'
    ||| c == '\u{2029}'
    ||| c == '\u{202f}'
    ||| c == '\u{205f}'
    ||| c == '\u{3000}'
}

/// Executable [`is_ws`].
pub fn is_whitespace(c: char) -> (b: bool)
    ensures
        b == is_ws(c),
{
    ('\u{9}' <= c && c <= '\u{d}') || c == ' ' || c == '\u{85}' || c == '\u{a0}' || c == '\u{1680}'
        || ('\u{2000}' <= c && c <= '\u{200a}') || c == '\u{2028}' || c == '\u{2029}' || c == '\u{202f}'
        || c == '\u{205f}' || c == '\u{3000}'
}

/// `s` without leading whitespace.
pub open spec fn trim_start(s: Seq<char>) -> Seq<char>
    decreases s.len(),
{
    if s.len() > 0 && is_ws(s[0]) {
        trim_start(s.drop_first())
    } else {
        s
    }
}

/// `s` without trailing whitespace.
pub open spec fn trim_end(s: Seq<char>) -> Seq<char>
    decreases s.len(),
{
    if s.len() > 0 && is_ws(s.last()) {
        trim_end(s.drop_last())
    } else {
        s
    }
}

/// `s` without leading and trailing whitespace (std `str::trim`).
pub open spec fn trim(s: Seq<char>) -> Seq<char> {
    trim_end(trim_start(s))
}

/// `s` begins with `prefix`.
pub open spec fn has_prefix(s: Seq<char>, prefix: Seq<char>) -> bool {
    prefix.len() <= s.len() && s.take(prefix.len() as int) == prefix
}

/// Position of the first `c` in `s`, or `s.len()` when absent.
pub open spec fn find_char(s: Seq<char>, c: char) -> nat
    decreases s.len(),
{
    if s.len() == 0 {
        0
    } else if s[0] == c {
        0
    } else {
        1 + find_char(s.drop_first(), c)
    }
}

/// `line` without one trailing carriage return.
pub open spec fn strip_cr(line: Seq<char>) -> Seq<char> {
    if line.len() > 0 && line.last() == '\r' {
        line.drop_last()
    } else {
        line
    }
}

/// The lines of `s` (std `str::lines`): split at `\n`, a `\r` before the
/// `\n` is dropped, and a final line ending adds no empty line.
pub open spec fn lines(s: Seq<char>) -> Seq<Seq<char>>
    decreases s.len(),
{
    if s.len() == 0 {
        Seq::empty()
    } else {
        let i = find_char(s, '\n');
        if i >= s.len() {
            seq![s]
        } else {
            seq![strip_cr(s.take(i as int))] + lines(s.skip(i + 1 as int))
        }
    }
}

/// The whitespace-separated tokens of `s` (std `str::split_whitespace`).
pub open spec fn tokens(s: Seq<char>) -> Seq<Seq<char>>
    decreases s.len(),
{
    let t = trim_start(s);
    if t.len() == 0 {
        Seq::empty()
    } else {
        let k = first_ws(t);
        proof {
            lemma_trim_start_len(s);
            lemma_first_ws_bounds(t);
        }
        seq![t.take(k as int)] + tokens(t.skip(k as int))
    }
}

/// Trimming never lengthens.
pub proof fn lemma_trim_start_len(s: Seq<char>)
    ensures
        trim_start(s).len() <= s.len(),
        trim_start(s).len() > 0 ==> !is_ws(trim_start(s)[0]),
    decreases s.len(),
{
    if s.len() > 0 && is_ws(s[0]) {
        lemma_trim_start_len(s.drop_first());
    }
}

/// `first_ws` stays within `s`, and is positive when `s` starts with a
/// non-whitespace character.
pub proof fn lemma_first_ws_bounds(s: Seq<char>)
    ensures
        first_ws(s) <= s.len(),
        s.len() > 0 && !is_ws(s[0]) ==> first_ws(s) > 0,
    decreases s.len(),
{
    if s.len() > 0 && !is_ws(s[0]) {
        lemma_first_ws_bounds(s.drop_first());
    }
}

/// Position of the first whitespace character of `s`, or `s.len()`.
pub open spec fn first_ws(s: Seq<char>) -> nat
    decreases s.len(),
{
    if s.len() == 0 {
        0
    } else if is_ws(s[0]) {
        0
    } else {
        1 + first_ws(s.drop_first())
    }
}

/// An ASCII decimal digit.
pub open spec fn is_digit(c: char) -> bool {
    '0' <= c && c <= '9'
}

/// Every character of `s` is an ASCII decimal digit.
pub open spec fn all_digits(s: Seq<char>) -> bool {
    forall|i: int| 0 <= i < s.len() ==> #[trigger] is_digit(s[i])
}

/// The value of a run of ASCII digits.
pub open spec fn digits_value(s: Seq<char>) -> nat
    decreases s.len(),
{
    if s.len() == 0 {
        0
    } else {
        digits_value(s.drop_last()) * 10 + ((s.last() as nat) - ('0' as nat)) as nat
    }
}

/// What std's `str::parse::<usize>` gives: an optional `+`, then one or
/// more ASCII digits whose value fits in `usize`.
pub open spec fn parse_usize(s: Seq<char>) -> Option<usize> {
    let body = if s.len() > 0 && s[0] == '+' { s.drop_first() } else { s };
    if body.len() > 0 && all_digits(body) && digits_value(body) <= usize::MAX {
        Some(digits_value(body) as usize)
    } else {
        None
    }
}

/// `s` matches `literal`, ignoring ASCII case.
pub open spec fn eq_ignore_case(s: Seq<char>, literal: Seq<char>) -> bool {
    &&& s.len() == literal.len()
    &&& forall|i: int| 0 <= i < s.len() ==> #[trigger] ascii_lower(s[i]) == ascii_lower(literal[i])
}

/// The code of `c` after ASCII lower-casing.
pub open spec fn ascii_lower(c: char) -> u32 {
    if 'A' <= c && c <= 'Z' {
        ((c as u32) + 32) as u32
    } else {
        c as u32
    }
}

/// A decimal number: digits with an optional fraction point (at least one
/// digit on either side), then an optional exponent `e`/`E`, optional sign,
/// one or more digits.
pub open spec fn is_decimal_number(s: Seq<char>) -> bool {
    let e = find_exp(s);
    let mantissa = s.take(e as int);
    let dot = find_char(mantissa, '.');
    let int_part = mantissa.take(dot as int);
    let frac_part = if dot < mantissa.len() { mantissa.skip(dot + 1 as int) } else { Seq::empty() };
    &&& all_digits(int_part)
    &&& all_digits(frac_part)
    &&& int_part.len() + frac_part.len() > 0
    &&& (e < s.len() ==> {
        let exp = s.skip(e + 1 as int);
        let digits = if exp.len() > 0 && (exp[0] == '+' || exp[0] == '-') { exp.drop_first() } else { exp };
        digits.len() > 0 && all_digits(digits)
    })
}

/// Position of the first `e` or `E` in `s`, or `s.len()`.
pub open spec fn find_exp(s: Seq<char>) -> nat
    decreases s.len(),
{
    if s.len() == 0 {
        0
    } else if s[0] == 'e' || s[0] == 'E' {
        0
    } else {
        1 + find_exp(s.drop_first())
    }
}

/// What std's `str::parse::<f32>` accepts: an optional sign, then a
/// decimal number or (ignoring case) `inf`, `infinity` or `nan`.
pub open spec fn is_float_literal(s: Seq<char>) -> bool {
    let body = if s.len() > 0 && (s[0] == '+' || s[0] == '-') { s.drop_first() } else { s };
    ||| is_decimal_number(body)
    ||| eq_ignore_case(body, "inf"@)
    ||| eq_ignore_case(body, "infinity"@)
    ||| eq_ignore_case(body, "nan"@)
}

/// The ASCII digit for `d` (0..=9).
pub open spec fn digit_char(d: nat) -> char {
    if d == 0 { '0' }
    else if d == 1 { '1' }
    else if d == 2 { '2' }
    else if d == 3 { '3' }
    else if d == 4 { '4' }
    else if d == 5 { '5' }
    else if d == 6 { '6' }
    else if d == 7 { '7' }
    else if d == 8 { '8' }
    else { '9' }
}

/// Decimal rendering of a natural number, most significant digit first,
/// without leading zeros.
pub open spec fn decimal(n: nat) -> Seq<char>
    decreases n,
{
    if n < 10 {
        seq![digit_char(n)]
    } else {
        decimal(n / 10).push(digit_char(n % 10))
    }
}

fn digit_str(d: u128) -> (s: &'static str)
    requires
        d < 10,
    ensures
        s@ == seq![digit_char(d as nat)],
{
    proof {
        reveal_strlit("0");
        reveal_strlit("1");
        reveal_strlit("2");
        reveal_strlit("3");
        reveal_strlit("4");
        reveal_strlit("5");
        reveal_strlit("6");
        reveal_strlit("7");
        reveal_strlit("8");
        reveal_strlit("9");
    }
    match d {
        0 => "0",
        1 => "1",
        2 => "2",
        3 => "3",
        4 => "4",
        5 => "5",
        6 => "6",
        7 => "7",
        8 => "8",
        _ => "9",
    }
}

/// Appends the decimal rendering of `n` to `out`.
pub fn push_decimal(out: &mut String, n: u128)
    ensures
        final(out)@ == old(out)@ + decimal(n as nat),
    decreases n,
{
    if n < 10 {
        out.append(digit_str(n));
    } else {
        push_decimal(out, n / 10);
        out.append(digit_str(n % 10));
        proof {
            assert(decimal(n as nat) == decimal((n / 10) as nat).push(digit_char((n % 10) as nat)));
        }
    }
}


/// `chars[start..end]`, trimmed, as a range (std `str::trim`).
pub fn trim_range(chars: &Vec<char>, start: usize, end: usize) -> (r: (usize, usize))
    requires
        start <= end <= chars@.len(),
    ensures
        start <= r.0 <= r.1 <= end,
        chars@.subrange(r.0 as int, r.1 as int) == trim(chars@.subrange(start as int, end as int)),
{
    let mut a = start;
    while a < end && is_whitespace(chars[a])
        invariant
            start <= a <= end <= chars@.len(),
            trim_start(chars@.subrange(start as int, end as int)) == trim_start(chars@.subrange(a as int, end as int)),
        decreases end - a,
    {
        assert(chars@.subrange(a as int, end as int).drop_first() =~= chars@.subrange(a + 1, end as int));
        a += 1;
    }
    assert(trim_start(chars@.subrange(a as int, end as int)) == chars@.subrange(a as int, end as int));
    let mut b = end;
    while b > a && is_whitespace(chars[b - 1])
        invariant
            start <= a <= b <= end <= chars@.len(),
            trim_end(chars@.subrange(a as int, end as int)) == trim_end(chars@.subrange(a as int, b as int)),
        decreases b - a,
    {
        assert(chars@.subrange(a as int, b as int).drop_last() =~= chars@.subrange(a as int, b - 1));
        b -= 1;
    }
    assert(trim_end(chars@.subrange(a as int, b as int)) == chars@.subrange(a as int, b as int));
    (a, b)
}

/// Whether `chars[start..end]` begins with `prefix`.
pub fn range_has_prefix(chars: &Vec<char>, start: usize, end: usize, prefix: &Vec<char>) -> (b: bool)
    requires
        start <= end <= chars@.len(),
    ensures
        b == has_prefix(chars@.subrange(start as int, end as int), prefix@),
{
    let ghost sub = chars@.subrange(start as int, end as int);
    if prefix.len() > end - start {
        return false;
    }
    let mut i: usize = 0;
    while i < prefix.len()
        invariant
            start <= end <= chars@.len(),
            sub == chars@.subrange(start as int, end as int),
            prefix@.len() <= sub.len(),
            i <= prefix@.len(),
            forall|k: int| 0 <= k < i ==> sub[k] == prefix@[k],
        decreases prefix@.len() - i,
    {
        if chars[start + i] != prefix[i] {
            assert(sub.take(prefix@.len() as int)[i as int] != prefix@[i as int]);
            return false;
        }
        i += 1;
    }
    assert(sub.take(prefix@.len() as int) =~= prefix@);
    true
}

/// Position of the first `c` in `chars[start..end]` (or `end`).
pub fn find_char_range(chars: &Vec<char>, start: usize, end: usize, c: char) -> (i: usize)
    requires
        start <= end <= chars@.len(),
    ensures
        start <= i <= end,
        i - start == find_char(chars@.subrange(start as int, end as int), c),
{
    let mut i = start;
    while i < end && chars[i] != c
        invariant
            start <= i <= end <= chars@.len(),
            find_char(chars@.subrange(start as int, end as int), c) == (i - start) + find_char(chars@.subrange(i as int, end as int), c),
        decreases end - i,
    {
        assert(chars@.subrange(i as int, end as int).drop_first() =~= chars@.subrange(i + 1, end as int));
        i += 1;
    }
    i
}

/// Lemma: a `find_char` result is within the sequence, and names a match
/// when it is below the length.
pub proof fn lemma_find_char(s: Seq<char>, c: char)
    ensures
        find_char(s, c) <= s.len(),
        find_char(s, c) < s.len() ==> s[find_char(s, c) as int] == c,
        forall|k: int| 0 <= k < find_char(s, c) ==> s[k] != c,
    decreases s.len(),
{
    if s.len() > 0 && s[0] != c {
        lemma_find_char(s.drop_first(), c);
        assert forall|k: int| 0 <= k < find_char(s, c) implies s[k] != c by {
            if k > 0 {
                assert(s[k] == s.drop_first()[k - 1]);
            }
        }
    }
}

/// The line ranges of `chars` (std `str::lines`).
pub fn line_ranges(chars: &Vec<char>) -> (r: Vec<(usize, usize)>)
    ensures
        r@.len() == lines(chars@).len(),
        forall|i: int| 0 <= i < r@.len() ==> (#[trigger] r@[i]).0 <= r@[i].1 <= chars@.len(),
        forall|i: int| 0 <= i < r@.len() ==> chars@.subrange((#[trigger] r@[i]).0 as int, r@[i].1 as int) == lines(chars@)[i],
{
    let n = chars.len();
    let mut out: Vec<(usize, usize)> = Vec::new();
    let mut p: usize = 0;
    assert(chars@.skip(0) =~= chars@);
    while p < n
        invariant
            n == chars@.len(),
            p <= n,
            forall|i: int| 0 <= i < out@.len() ==> (#[trigger] out@[i]).0 <= out@[i].1 <= n,
            lines(chars@) == Seq::new(out@.len(), |i: int| chars@.subrange(out@[i].0 as int, out@[i].1 as int)) + lines(chars@.skip(p as int)),
        decreases n - p,
    {
        let ghost rest = chars@.skip(p as int);
        let q = find_char_range(chars, p, n, '\n');
        assert(chars@.subrange(p as int, n as int) =~= rest);
        proof {
            lemma_find_char(rest, '\n');
        }
        let ghost before = Seq::new(out@.len(), |i: int| chars@.subrange(out@[i].0 as int, out@[i].1 as int));
        if q == n {
            out.push((p, n));
            proof {
                assert(lines(rest) == seq![rest]);
                assert(chars@.skip(n as int) =~= Seq::<char>::empty());
                assert(Seq::new(out@.len(), |i: int| chars@.subrange(out@[i].0 as int, out@[i].1 as int)) =~= before.push(rest));
            }
            p = n;
        } else {
            let mut e = q;
            if e > p && chars[e - 1] == '\r' {
                e = e - 1;
            }
            proof {
                let line = rest.take((q - p) as int);
                assert(line =~= chars@.subrange(p as int, q as int));
                if q > p && chars@[q - 1] == '\r' {
                    assert(strip_cr(line) =~= chars@.subrange(p as int, e as int));
                } else {
                    assert(strip_cr(line) =~= chars@.subrange(p as int, e as int));
                }
                assert(rest.skip((q - p) + 1) =~= chars@.skip(q + 1));
            }
            out.push((p, e));
            proof {
                assert(Seq::new(out@.len(), |i: int| chars@.subrange(out@[i].0 as int, out@[i].1 as int)) =~= before.push(chars@.subrange(p as int, e as int)));
            }
            p = q + 1;
        }
    }
    assert(chars@.skip(n as int) =~= Seq::<char>::empty());
    proof {
        let v = Seq::new(out@.len(), |i: int| chars@.subrange(out@[i].0 as int, out@[i].1 as int));
        assert(lines(chars@) =~= v);
    }
    out
}


/// The whitespace-separated token ranges of `chars[start..end]`.
pub fn token_ranges(chars: &Vec<char>, start: usize, end: usize) -> (r: Vec<(usize, usize)>)
    requires
        start <= end <= chars@.len(),
    ensures
        r@.len() == tokens(chars@.subrange(start as int, end as int)).len(),
        forall|i: int| 0 <= i < r@.len() ==> start <= (#[trigger] r@[i]).0 <= r@[i].1 <= end,
        forall|i: int| 0 <= i < r@.len() ==> chars@.subrange((#[trigger] r@[i]).0 as int, r@[i].1 as int) == tokens(chars@.subrange(start as int, end as int))[i],
{
    let mut out: Vec<(usize, usize)> = Vec::new();
    let mut p = start;
    while p < end
        invariant
            start <= p <= end <= chars@.len(),
            forall|i: int| 0 <= i < out@.len() ==> start <= (#[trigger] out@[i]).0 <= out@[i].1 <= end,
            tokens(chars@.subrange(start as int, end as int)) == Seq::new(out@.len(), |i: int| chars@.subrange(out@[i].0 as int, out@[i].1 as int)) + tokens(chars@.subrange(p as int, end as int)),
        decreases end - p,
    {
        let ghost before = Seq::new(out@.len(), |i: int| chars@.subrange(out@[i].0 as int, out@[i].1 as int));
        let ghost rest = chars@.subrange(p as int, end as int);
        // Skip whitespace.
        let mut a = p;
        while a < end && is_whitespace(chars[a])
            invariant
                p <= a <= end <= chars@.len(),
                trim_start(rest) == trim_start(chars@.subrange(a as int, end as int)),
                rest == chars@.subrange(p as int, end as int),
            decreases end - a,
        {
            assert(chars@.subrange(a as int, end as int).drop_first() =~= chars@.subrange(a + 1, end as int));
            a += 1;
        }
        let ghost t = chars@.subrange(a as int, end as int);
        assert(trim_start(t) == t);
        if a == end {
            assert(tokens(rest) =~= Seq::<Seq<char>>::empty());
            assert(tokens(chars@.subrange(end as int, end as int)) =~= Seq::<Seq<char>>::empty());
            p = end;
        } else {
            let mut b = a;
            while b < end && !is_whitespace(chars[b])
                invariant
                    a <= b <= end <= chars@.len(),
                    first_ws(t) == (b - a) + first_ws(chars@.subrange(b as int, end as int)),
                    t == chars@.subrange(a as int, end as int),
                decreases end - b,
            {
                assert(chars@.subrange(b as int, end as int).drop_first() =~= chars@.subrange(b + 1, end as int));
                b += 1;
            }
            assert(first_ws(t) == b - a);
            assert(t.take((b - a) as int) =~= chars@.subrange(a as int, b as int));
            assert(t.skip((b - a) as int) =~= chars@.subrange(b as int, end as int));
            assert(tokens(rest) == seq![chars@.subrange(a as int, b as int)] + tokens(chars@.subrange(b as int, end as int)));
            out.push((a, b));
            assert(Seq::new(out@.len(), |i: int| chars@.subrange(out@[i].0 as int, out@[i].1 as int)) =~= before.push(chars@.subrange(a as int, b as int)));
            p = b;
        }
    }
    assert(tokens(chars@.subrange(end as int, end as int)) =~= Seq::<Seq<char>>::empty());
    proof {
        let v = Seq::new(out@.len(), |i: int| chars@.subrange(out@[i].0 as int, out@[i].1 as int));
        assert(tokens(chars@.subrange(start as int, end as int)) =~= v);
    }
    out
}

/// Whether every character of `chars[start..end]` is an ASCII digit.
pub fn all_digits_range(chars: &Vec<char>, start: usize, end: usize) -> (b: bool)
    requires
        start <= end <= chars@.len(),
    ensures
        b == all_digits(chars@.subrange(start as int, end as int)),
{
    let mut i = start;
    while i < end
        invariant
            start <= i <= end <= chars@.len(),
            forall|k: int| start <= k < i ==> is_digit(chars@[k]),
        decreases end - i,
    {
        if !('0' <= chars[i] && chars[i] <= '9') {
            assert(!is_digit(chars@.subrange(start as int, end as int)[i - start]));
            return false;
        }
        i += 1;
    }
    assert forall|k: int| 0 <= k < end - start implies #[trigger] is_digit(chars@.subrange(start as int, end as int)[k]) by {
        assert(chars@.subrange(start as int, end as int)[k] == chars@[start + k]);
    }
    true
}

proof fn lemma_digits_value_monotone(s: Seq<char>, k: int)
    requires
        0 <= k <= s.len(),
        all_digits(s),
    ensures
        digits_value(s.take(k)) <= digits_value(s),
    decreases s.len() - k,
{
    if k < s.len() {
        assert(s.take(k + 1).drop_last() =~= s.take(k));
        assert(is_digit(s[k]));
        lemma_digits_value_monotone(s, k + 1);
    } else {
        assert(s.take(k) =~= s);
    }
}

/// std `str::parse::<usize>` on `chars[start..end]`.
pub fn parse_usize_range(chars: &Vec<char>, start: usize, end: usize) -> (v: Option<usize>)
    requires
        start <= end <= chars@.len(),
    ensures
        v == parse_usize(chars@.subrange(start as int, end as int)),
{
    let ghost s = chars@.subrange(start as int, end as int);
    let mut a = start;
    if a < end && chars[a] == '+' {
        a += 1;
    }
    let ghost body = chars@.subrange(a as int, end as int);
    assert(body =~= if s.len() > 0 && s[0] == '+' { s.drop_first() } else { s });
    if a == end || !all_digits_range(chars, a, end) {
        return None;
    }
    let mut value: usize = 0;
    let mut i = a;
    while i < end
        invariant
            a <= i <= end <= chars@.len(),
            body == chars@.subrange(a as int, end as int),
            s == chars@.subrange(start as int, end as int),
            body == (if s.len() > 0 && s[0] == '+' { s.drop_first() } else { s }),
            body.len() > 0,
            all_digits(body),
            value == digits_value(body.take((i - a) as int)),
        decreases end - i,
    {
        assert(body.take((i - a) + 1).drop_last() =~= body.take((i - a) as int));
        assert(body[(i - a) as int] == chars@[i as int]);
        assert(is_digit(body[(i - a) as int]));
        let d = (chars[i] as u32 - '0' as u32) as usize;
        assert(d <= 9);
        if value > (usize::MAX - d) / 10 {
            proof {
                assert(value * 10 + d > usize::MAX) by (nonlinear_arith)
                    requires
                        value > (usize::MAX - d) / 10,
                        d <= 9,
                ;
                assert(body.take((i - a) + 1).last() == chars@[i as int]);
                assert(digits_value(body.take((i - a) + 1)) == value * 10 + d);
                lemma_digits_value_monotone(body, (i - a) + 1);
                assert(digits_value(body) > usize::MAX);
            }
            return None;
        }
        assert(value * 10 + d <= usize::MAX) by (nonlinear_arith)
            requires
                value <= (usize::MAX - d) / 10,
                d <= 9,
        ;
        value = value * 10 + d;
        i += 1;
    }
    assert(body.take((end - a) as int) =~= body);
    Some(value)
}

/// Whether `chars[start..end]` equals `literal`, ignoring ASCII case.
pub fn eq_ignore_case_range(chars: &Vec<char>, start: usize, end: usize, literal: &Vec<char>) -> (b: bool)
    requires
        start <= end <= chars@.len(),
    ensures
        b == eq_ignore_case(chars@.subrange(start as int, end as int), literal@),
{
    let ghost s = chars@.subrange(start as int, end as int);
    if end - start != literal.len() {
        return false;
    }
    let mut i: usize = 0;
    while i < literal.len()
        invariant
            start <= end <= chars@.len(),
            s == chars@.subrange(start as int, end as int),
            s.len() == literal@.len(),
            i <= literal@.len(),
            forall|k: int| 0 <= k < i ==> #[trigger] ascii_lower(s[k]) == ascii_lower(literal@[k]),
        decreases literal@.len() - i,
    {
        let x = chars[start + i];
        let y = literal[i];
        let lx: u32 = if 'A' <= x && x <= 'Z' { (x as u32) + 32 } else { x as u32 };
        let ly: u32 = if 'A' <= y && y <= 'Z' { (y as u32) + 32 } else { y as u32 };
        if lx != ly {
            assert(s[i as int] == x);
            assert(ascii_lower(s[i as int]) != ascii_lower(literal@[i as int]));
            return false;
        }
        assert(s[i as int] == x);
        i += 1;
    }
    true
}


/// Position of the first `e`/`E` in `chars[start..end]` (or `end`).
pub fn find_exp_range(chars: &Vec<char>, start: usize, end: usize) -> (i: usize)
    requires
        start <= end <= chars@.len(),
    ensures
        start <= i <= end,
        i - start == find_exp(chars@.subrange(start as int, end as int)),
{
    let mut i = start;
    while i < end && chars[i] != 'e' && chars[i] != 'E'
        invariant
            start <= i <= end <= chars@.len(),
            find_exp(chars@.subrange(start as int, end as int)) == (i - start) + find_exp(chars@.subrange(i as int, end as int)),
        decreases end - i,
    {
        assert(chars@.subrange(i as int, end as int).drop_first() =~= chars@.subrange(i + 1, end as int));
        i += 1;
    }
    i
}

/// Whether `chars[start..end]` is a decimal number (see
/// [`is_decimal_number`]).
fn is_decimal_number_range(chars: &Vec<char>, start: usize, end: usize) -> (b: bool)
    requires
        start <= end <= chars@.len(),
    ensures
        b == is_decimal_number(chars@.subrange(start as int, end as int)),
{
    let ghost s = chars@.subrange(start as int, end as int);
    let e = find_exp_range(chars, start, end);
    let ghost mantissa = s.take((e - start) as int);
    assert(mantissa =~= chars@.subrange(start as int, e as int));
    let dot = find_char_range(chars, start, e, '.');
    let ghost int_part = mantissa.take((dot - start) as int);
    assert(int_part =~= chars@.subrange(start as int, dot as int));
    let int_ok = all_digits_range(chars, start, dot);
    let mut frac_len: usize = 0;
    let frac_ok = if dot < e {
        assert(mantissa.skip((dot - start) + 1) =~= chars@.subrange(dot + 1, e as int));
        frac_len = e - dot - 1;
        all_digits_range(chars, dot + 1, e)
    } else {
        assert(all_digits(Seq::<char>::empty()));
        true
    };
    if !int_ok || !frac_ok || (dot - start) + frac_len == 0 {
        return false;
    }
    if e < end {
        let mut x = e + 1;
        assert(s.skip((e - start) + 1) =~= chars@.subrange(e + 1, end as int));
        if x < end && (chars[x] == '+' || chars[x] == '-') {
            x += 1;
        }
        assert(chars@.subrange(x as int, end as int) =~= {
            let exp = s.skip((e - start) + 1);
            if exp.len() > 0 && (exp[0] == '+' || exp[0] == '-') { exp.drop_first() } else { exp }
        });
        x < end && all_digits_range(chars, x, end)
    } else {
        true
    }
}

/// Whether `chars[start..end]` is accepted by std's `str::parse::<f32>`
/// (see [`is_float_literal`]).
pub fn is_float_literal_range(chars: &Vec<char>, start: usize, end: usize) -> (b: bool)
    requires
        start <= end <= chars@.len(),
    ensures
        b == is_float_literal(chars@.subrange(start as int, end as int)),
{
    let ghost s = chars@.subrange(start as int, end as int);
    let mut a = start;
    if a < end && (chars[a] == '+' || chars[a] == '-') {
        a += 1;
    }
    assert(chars@.subrange(a as int, end as int) =~= if s.len() > 0 && (s[0] == '+' || s[0] == '-') { s.drop_first() } else { s });
    let inf = chars_of("inf");
    let infinity = chars_of("infinity");
    let nan = chars_of("nan");
    is_decimal_number_range(chars, a, end) || eq_ignore_case_range(chars, a, end, &inf)
        || eq_ignore_case_range(chars, a, end, &infinity) || eq_ignore_case_range(chars, a, end, &nan)
}


/// Position of the first occurrence of `pat` in `s`, or `s.len()`.
pub open spec fn find_sub(s: Seq<char>, pat: Seq<char>) -> nat
    decreases s.len(),
{
    if has_prefix(s, pat) {
        0
    } else if s.len() == 0 {
        0
    } else {
        1 + find_sub(s.drop_first(), pat)
    }
}

pub proof fn lemma_find_sub(s: Seq<char>, pat: Seq<char>)
    ensures
        find_sub(s, pat) <= s.len(),
        find_sub(s, pat) < s.len() ==> has_prefix(s.skip(find_sub(s, pat) as int), pat),
    decreases s.len(),
{
    if !has_prefix(s, pat) && s.len() > 0 {
        lemma_find_sub(s.drop_first(), pat);
        if find_sub(s, pat) < s.len() {
            assert(s.skip(find_sub(s, pat) as int) =~= s.drop_first().skip(find_sub(s.drop_first(), pat) as int));
        }
    } else if has_prefix(s, pat) {
        assert(s.skip(0) =~= s);
    }
}

/// The pieces of `s` between occurrences of `pat` (std `str::split`).
pub open spec fn split_pieces(s: Seq<char>, pat: Seq<char>) -> Seq<Seq<char>>
    decreases s.len(),
{
    let k = find_sub(s, pat);
    if pat.len() == 0 || k >= s.len() {
        seq![s]
    } else {
        proof {
            lemma_find_sub(s, pat);
        }
        seq![s.take(k as int)] + split_pieces(s.skip((k + pat.len()) as int), pat)
    }
}

/// Position of the first occurrence of `pat` in `chars[start..end]` (or
/// `end`).
pub fn find_sub_range(chars: &Vec<char>, start: usize, end: usize, pat: &Vec<char>) -> (i: usize)
    requires
        start <= end <= chars@.len(),
    ensures
        start <= i <= end,
        i - start == find_sub(chars@.subrange(start as int, end as int), pat@),
{
    let mut i = start;
    while i < end && !range_has_prefix(chars, i, end, pat)
        invariant
            start <= i <= end <= chars@.len(),
            find_sub(chars@.subrange(start as int, end as int), pat@) == (i - start) + find_sub(chars@.subrange(i as int, end as int), pat@),
        decreases end - i,
    {
        assert(chars@.subrange(i as int, end as int).drop_first() =~= chars@.subrange(i + 1, end as int));
        i += 1;
    }
    i
}

/// Ranges of the pieces after the first in `std::str::split(chars, pat)`,
/// i.e. the text following each occurrence of `pat` up to the next one.
pub fn pieces_after_first(chars: &Vec<char>, pat: &Vec<char>) -> (r: Vec<(usize, usize)>)
    requires
        pat@.len() > 0,
    ensures
        r@.len() == split_pieces(chars@, pat@).len() - 1,
        forall|i: int| 0 <= i < r@.len() ==> (#[trigger] r@[i]).0 <= r@[i].1 <= chars@.len(),
        forall|i: int| 0 <= i < r@.len() ==> chars@.subrange((#[trigger] r@[i]).0 as int, r@[i].1 as int) == split_pieces(chars@, pat@)[i + 1],
{
    let n = chars.len();
    let mut out: Vec<(usize, usize)> = Vec::new();
    assert(chars@.subrange(0, n as int) =~= chars@);
    let first = find_sub_range(chars, 0, n, pat);
    proof {
        lemma_find_sub(chars@, pat@);
    }
    if first == n {
        return out;
    }
    let mut p = first + pat.len();
    assert(split_pieces(chars@, pat@) == seq![chars@.take(first as int)] + split_pieces(chars@.skip(p as int), pat@));
    loop
        invariant
            n == chars@.len(),
            pat@.len() > 0,
            p <= n,
            forall|i: int| 0 <= i < out@.len() ==> (#[trigger] out@[i]).0 <= out@[i].1 <= n,
            split_pieces(chars@, pat@).drop_first() == Seq::new(out@.len(), |i: int| chars@.subrange(out@[i].0 as int, out@[i].1 as int)) + split_pieces(chars@.skip(p as int), pat@),
        decreases n - p,
    {
        let ghost rest = chars@.skip(p as int);
        assert(chars@.subrange(p as int, n as int) =~= rest);
        let ghost before = Seq::new(out@.len(), |i: int| chars@.subrange(out@[i].0 as int, out@[i].1 as int));
        let k = find_sub_range(chars, p, n, pat);
        proof {
            lemma_find_sub(rest, pat@);
        }
        out.push((p, k));
        assert(Seq::new(out@.len(), |i: int| chars@.subrange(out@[i].0 as int, out@[i].1 as int)) =~= before.push(chars@.subrange(p as int, k as int)));
        if k == n {
            assert(split_pieces(rest, pat@) == seq![rest]);
            let ghost pieces = split_pieces(chars@, pat@);
            assert(pieces.drop_first() =~= Seq::new(out@.len(), |i: int| chars@.subrange(out@[i].0 as int, out@[i].1 as int)));
            assert forall|i: int| 0 <= i < out@.len() implies chars@.subrange((#[trigger] out@[i]).0 as int, out@[i].1 as int) == pieces[i + 1] by {
                assert(pieces.drop_first()[i] == pieces[i + 1]);
            }
            return out;
        }
        assert(rest.take((k - p) as int) =~= chars@.subrange(p as int, k as int));
        assert(rest.skip((k - p) + pat@.len()) =~= chars@.skip(k + pat@.len()));
        p = k + pat.len();
    }
}

} // verus!
