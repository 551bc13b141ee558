//! Checks whether text is accepted by the standard number parsers.
use vstd::prelude::*;

verus! {

/// An ASCII decimal digit.
pub open spec fn is_digit(c: char) -> bool {
    '0' <= c && c <= '9'
}

pub open spec fn all_digits(s: Seq<char>) -> bool {
    forall|i: int| 0 <= i < s.len() ==> is_digit(#[trigger] s[i])
}

pub open spec fn digit_value(c: char) -> int {
    (c as int) - ('0' as int)
}

/// The number that a run of decimal digits denotes.
pub open spec fn digits_value(s: Seq<char>) -> int
    decreases s.len(),
{
    if s.len() == 0 {
        0
    } else {
        digits_value(s.drop_last()) * 10 + digit_value(s.last())
    }
}

/// `s` without a single leading `+`, if it has one.
pub open spec fn without_plus(s: Seq<char>) -> Seq<char> {
    if s.len() > 0 && s[0] == '+' {
        s.drop_first()
    } else {
        s
    }
}

/// Text that `str::parse::<u32>` accepts: an optional `+`, then one or more
/// decimal digits whose value fits in 32 bits.
pub open spec fn u32_text(s: Seq<char>) -> bool {
    let d = without_plus(s);
    d.len() > 0 && all_digits(d) && digits_value(d) <= u32::MAX
}

proof fn lemma_digits_value_nonneg(s: Seq<char>)
    requires
        all_digits(s),
    ensures
        digits_value(s) >= 0,
    decreases s.len(),
{
    if s.len() > 0 {
        lemma_digits_value_nonneg(s.drop_last());
    }
}

/// Extending a run of digits never lowers its value.
proof fn lemma_digits_value_prefix(s: Seq<char>, k: int)
    requires
        all_digits(s),
        0 <= k <= s.len(),
    ensures
        digits_value(s.subrange(0, k)) <= digits_value(s),
    decreases s.len(),
{
    if k < s.len() {
        assert(s.drop_last() =~= s.subrange(0, s.len() - 1));
        lemma_digits_value_prefix(s.drop_last(), k);
        assert(s.drop_last().subrange(0, k) =~= s.subrange(0, k));
        lemma_digits_value_nonneg(s.drop_last());
    } else {
        assert(s.subrange(0, k) =~= s);
    }
}

/// Whether `string_number` parses as a `u32`.
pub fn can_parse_u32(string_number: &String) -> (r: bool)
    ensures
        r == u32_text(string_number@),
{
    let s = string_number.as_str();
    let n = s.unicode_len();
    let start: usize = if n > 0 && s.get_char(0) == '+' { 1 } else { 0 };
    let ghost d = without_plus(s@);
    assert(d =~= s@.subrange(start as int, n as int));
    if start == n {
        return false;
    }
    let mut value: u64 = 0;
    let mut i: usize = start;
    while i < n
        invariant
            start <= i <= n,
            n == s@.len(),
            s@ == string_number@,
            d == without_plus(s@),
            d =~= s@.subrange(start as int, n as int),
            all_digits(d.subrange(0, i - start)),
            value == digits_value(d.subrange(0, i - start)),
            value <= u32::MAX,
        decreases n - i,
    {
        let c = s.get_char(i);
        if !('0' <= c && c <= '9') {
            assert(d[i - start] == c);
            assert(!all_digits(d));
            return false;
        }
        let ghost prev = d.subrange(0, i - start);
        let ghost next = d.subrange(0, i + 1 - start);
        assert(next.drop_last() =~= prev);
        assert(next.last() == c);
        assert(digits_value(next) == digits_value(prev) * 10 + digit_value(c));
        value = value * 10 + (c as u64 - '0' as u64);
        i = i + 1;
        assert(all_digits(next));
        if value > u32::MAX as u64 {
            proof {
                if all_digits(d) {
                    lemma_digits_value_prefix(d, i - start);
                    assert(digits_value(d) > u32::MAX);
                }
            }
            return false;
        }
    }
    assert(d.subrange(0, n - start) =~= d);
    true
}

/// `s` without a single leading `+` or `-`, if it has one.
pub open spec fn without_sign(s: Seq<char>) -> Seq<char> {
    if s.len() > 0 && (s[0] == '+' || s[0] == '-') {
        s.drop_first()
    } else {
        s
    }
}

/// `c` is the ASCII letter `lower`, in either case.
pub open spec fn same_letter(c: char, lower: char) -> bool {
    c == lower || (c as int) + 32 == (lower as int)
}

/// `s` spells the lower-case ASCII `word`, ignoring the case of each letter.
pub open spec fn spells(s: Seq<char>, word: Seq<char>) -> bool {
    s.len() == word.len() && forall|i: int| 0 <= i < s.len() ==> same_letter(#[trigger] s[i], word[i])
}

/// `Digit+ | Digit+ '.' Digit* | Digit* '.' Digit+`
pub open spec fn mantissa_text(m: Seq<char>) -> bool {
    ||| m.len() > 0 && all_digits(m)
    ||| m.len() > 1 && exists|d: int|
        0 <= d < m.len() && #[trigger] m[d] == '.' && all_digits(m.subrange(0, d)) && all_digits(
            m.subrange(d + 1, m.len() as int),
        )
}

/// `'e' Sign? Digit+`, the letter in either case.
pub open spec fn exponent_text(x: Seq<char>) -> bool {
    &&& x.len() > 0
    &&& (x[0] == 'e' || x[0] == 'E')
    &&& without_sign(x.drop_first()).len() > 0
    &&& all_digits(without_sign(x.drop_first()))
}

/// A mantissa followed by an optional exponent.
pub open spec fn number_text(t: Seq<char>) -> bool {
    exists|k: int|
        0 <= k <= t.len() && #[trigger] mantissa_text(t.subrange(0, k)) && (k == t.len()
            || exponent_text(t.subrange(k, t.len() as int)))
}

/// Text that `str::parse::<f32>` accepts: an optional sign, then `inf`,
/// `infinity` or `nan` in any case, or a decimal number.
pub open spec fn f32_text(s: Seq<char>) -> bool {
    let t = without_sign(s);
    ||| spells(t, "inf"@)
    ||| spells(t, "infinity"@)
    ||| spells(t, "nan"@)
    ||| number_text(t)
}

fn all_digits_in(s: &str, lo: usize, hi: usize) -> (r: bool)
    requires
        lo <= hi <= s@.len(),
    ensures
        r == all_digits(s@.subrange(lo as int, hi as int)),
{
    let mut i: usize = lo;
    while i < hi
        invariant
            lo <= i <= hi <= s@.len(),
            forall|j: int| lo <= j < i ==> is_digit(#[trigger] s@[j]),
        decreases hi - i,
    {
        let c = s.get_char(i);
        if !('0' <= c && c <= '9') {
            assert(s@.subrange(lo as int, hi as int)[i - lo] == c);
            return false;
        }
        i = i + 1;
    }
    assert forall|j: int| 0 <= j < hi - lo implies is_digit(#[trigger] s@.subrange(lo as int, hi as int)[j]) by {
        assert(s@.subrange(lo as int, hi as int)[j] == s@[lo + j]);
    }
    true
}

/// The first index in `lo..hi` that holds `a` or `b`, or `hi` if none does.
fn find_either(s: &str, lo: usize, hi: usize, a: char, b: char) -> (p: usize)
    requires
        lo <= hi <= s@.len(),
    ensures
        lo <= p <= hi,
        forall|j: int| lo <= j < p ==> #[trigger] s@[j] != a && s@[j] != b,
        p < hi ==> s@[p as int] == a || s@[p as int] == b,
{
    let mut i: usize = lo;
    while i < hi
        invariant
            lo <= i <= hi <= s@.len(),
            forall|j: int| lo <= j < i ==> #[trigger] s@[j] != a && s@[j] != b,
        decreases hi - i,
    {
        let c = s.get_char(i);
        if c == a || c == b {
            return i;
        }
        i = i + 1;
    }
    hi
}

fn spells_in(s: &str, lo: usize, hi: usize, word: &str) -> (r: bool)
    requires
        lo <= hi <= s@.len(),
    ensures
        r == spells(s@.subrange(lo as int, hi as int), word@),
{
    let n = word.unicode_len();
    if hi - lo != n {
        return false;
    }
    let ghost t = s@.subrange(lo as int, hi as int);
    let mut i: usize = 0;
    while i < n
        invariant
            n == word@.len() == hi - lo,
            lo <= hi <= s@.len(),
            t == s@.subrange(lo as int, hi as int),
            i <= n,
            forall|j: int| 0 <= j < i ==> same_letter(#[trigger] t[j], word@[j]),
        decreases n - i,
    {
        let c = s.get_char(lo + i);
        let w = word.get_char(i);
        assert(t[i as int] == c);
        if !(c == w || (c as u32) + 32 == (w as u32)) {
            return false;
        }
        i = i + 1;
    }
    true
}

fn mantissa_in(s: &str, lo: usize, hi: usize) -> (r: bool)
    requires
        lo <= hi <= s@.len(),
    ensures
        r == mantissa_text(s@.subrange(lo as int, hi as int)),
{
    let ghost m = s@.subrange(lo as int, hi as int);
    let p = find_either(s, lo, hi, '.', '.');
    if p == hi {
        let r = hi > lo && all_digits_in(s, lo, hi);
        assert(!exists|d: int| 0 <= d < m.len() && #[trigger] m[d] == '.') by {
            assert forall|d: int| 0 <= d < m.len() implies #[trigger] m[d] != '.' by {
                assert(m[d] == s@[lo + d]);
            }
        }
        return r;
    }
    let d = p - lo;
    assert(m[d as int] == '.');
    assert(s@.subrange(lo as int, p as int) =~= m.subrange(0, d as int));
    assert(s@.subrange(p + 1, hi as int) =~= m.subrange(d + 1, m.len() as int));
    let r = hi - lo > 1 && all_digits_in(s, lo, p) && all_digits_in(s, p + 1, hi);
    if !r && hi - lo > 1 {
        assert forall|e: int|
            0 <= e < m.len() && #[trigger] m[e] == '.' implies !(all_digits(m.subrange(0, e)) && all_digits(
                m.subrange(e + 1, m.len() as int),
            )) by {
            if e < d {
                assert(s@[lo + e] == '.');
            } else if e > d {
                assert(m.subrange(0, e)[d as int] == '.');
            }
        }
    }
    assert(!all_digits(m)) by {
        assert(!is_digit(m[d as int]));
    }
    r
}

fn exponent_in(s: &str, lo: usize, hi: usize) -> (r: bool)
    requires
        lo <= hi <= s@.len(),
    ensures
        r == exponent_text(s@.subrange(lo as int, hi as int)),
{
    let ghost x = s@.subrange(lo as int, hi as int);
    if lo == hi {
        return false;
    }
    let c = s.get_char(lo);
    if !(c == 'e' || c == 'E') {
        return false;
    }
    let mut k: usize = lo + 1;
    if k < hi {
        let sign = s.get_char(k);
        if sign == '+' || sign == '-' {
            k = k + 1;
        }
    }
    assert(without_sign(x.drop_first()) =~= s@.subrange(k as int, hi as int));
    k < hi && all_digits_in(s, k, hi)
}

/// No character of a mantissa is an exponent letter.
proof fn lemma_mantissa_has_no_e(m: Seq<char>, j: int)
    requires
        mantissa_text(m),
        0 <= j < m.len(),
    ensures
        m[j] != 'e' && m[j] != 'E',
{
    if !(m.len() > 0 && all_digits(m)) {
        let d = choose|d: int|
            0 <= d < m.len() && #[trigger] m[d] == '.' && all_digits(m.subrange(0, d)) && all_digits(
                m.subrange(d + 1, m.len() as int),
            );
        if j < d {
            assert(m.subrange(0, d)[j] == m[j]);
        } else if j > d {
            assert(m.subrange(d + 1, m.len() as int)[j - d - 1] == m[j]);
        }
    }
}

fn number_in(s: &str, lo: usize, hi: usize) -> (r: bool)
    requires
        lo <= hi <= s@.len(),
    ensures
        r == number_text(s@.subrange(lo as int, hi as int)),
{
    let ghost t = s@.subrange(lo as int, hi as int);
    let p = find_either(s, lo, hi, 'e', 'E');
    let ghost k0 = p - lo;
    assert(s@.subrange(lo as int, p as int) =~= t.subrange(0, k0));
    assert(s@.subrange(p as int, hi as int) =~= t.subrange(k0, t.len() as int));
    let r = mantissa_in(s, lo, p) && (p == hi || exponent_in(s, p, hi));
    if r {
        assert(mantissa_text(t.subrange(0, k0)));
    } else {
        assert forall|k: int|
            0 <= k <= t.len() && #[trigger] mantissa_text(t.subrange(0, k)) implies !(k == t.len()
                || exponent_text(t.subrange(k, t.len() as int))) by {
            if k < k0 {
                assert(t.subrange(k, t.len() as int)[0] == s@[lo + k]);
            } else if k > k0 {
                lemma_mantissa_has_no_e(t.subrange(0, k), k0);
                assert(t.subrange(0, k)[k0] == s@[p as int]);
            }
        }
    }
    r
}

/// Whether `string_number` parses as an `f32`.
pub fn can_parse_f32(string_number: &String) -> (r: bool)
    ensures
        r == f32_text(string_number@),
{
    let s = string_number.as_str();
    let n = s.unicode_len();
    let mut lo: usize = 0;
    if n > 0 {
        let c = s.get_char(0);
        if c == '+' || c == '-' {
            lo = 1;
        }
    }
    assert(without_sign(s@) =~= s@.subrange(lo as int, n as int));
    spells_in(s, lo, n, "inf") || spells_in(s, lo, n, "infinity") || spells_in(s, lo, n, "nan")
        || number_in(s, lo, n)
}

} // verus!
