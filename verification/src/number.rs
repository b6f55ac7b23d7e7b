//! Decimal numbers as text: reading and writing unsigned and signed integers,
//! and recognising float literals.

use vstd::prelude::*;

verus! {

pub open spec fn is_digit(c: char) -> bool {
    '0' <= c <= '9'
}

/// The value of a decimal digit; 0 for any other character.
pub open spec fn digit_value(c: char) -> nat {
    if is_digit(c) {
        (c as u32 - '0' as u32) as nat
    } else {
        0
    }
}

/// The character of a decimal digit `d < 10`.
pub open spec fn digit_char(d: nat) -> char {
    ('0' as u32 + d) as char
}

pub open spec fn all_digits(s: Seq<char>) -> bool {
    forall|i: int| 0 <= i < s.len() ==> is_digit(#[trigger] s[i])
}

/// One decimal digit or more, and nothing else.
pub open spec fn is_number(s: Seq<char>) -> bool {
    s.len() > 0 && all_digits(s)
}

/// The number that the digits of `s` write in base ten.
pub open spec fn decimal_value(s: Seq<char>) -> nat
    decreases s.len(),
{
    if s.len() == 0 {
        0
    } else {
        decimal_value(s.drop_last()) * 10 + digit_value(s.last())
    }
}

/// The shortest decimal writing of `n`.
pub open spec fn decimal_digits(n: nat) -> Seq<char>
    decreases n,
{
    if n < 10 {
        seq![digit_char(n)]
    } else {
        decimal_digits(n / 10).push(digit_char(n % 10))
    }
}

/// `s` without a leading `+`.
pub open spec fn strip_plus(s: Seq<char>) -> Seq<char> {
    if s.len() > 0 && s[0] == '+' {
        s.drop_first()
    } else {
        s
    }
}

/// `s` without a leading `+` or `-`.
pub open spec fn strip_sign(s: Seq<char>) -> Seq<char> {
    if s.len() > 0 && (s[0] == '+' || s[0] == '-') {
        s.drop_first()
    } else {
        s
    }
}

/// An unsigned integer: an optional `+`, then digits whose value fits `usize`.
pub open spec fn parse_usize(s: Seq<char>) -> Option<usize> {
    let digits = strip_plus(s);
    if is_number(digits) && decimal_value(digits) <= usize::MAX {
        Some(decimal_value(digits) as usize)
    } else {
        None
    }
}

/// A signed integer: an optional `+` or `-`, then digits; the signed value fits `i64`.
pub open spec fn parse_i64(s: Seq<char>) -> Option<i64> {
    let digits = strip_sign(s);
    let magnitude = decimal_value(digits) as int;
    let value = if s.len() > 0 && s[0] == '-' {
        -magnitude
    } else {
        magnitude
    };
    if is_number(digits) && i64::MIN <= value <= i64::MAX {
        Some(value as i64)
    } else {
        None
    }
}

/// The end of the run of digits that starts at `from`.
pub open spec fn digits_end(s: Seq<char>, from: int) -> int
    decreases s.len() - from,
{
    if 0 <= from < s.len() && is_digit(s[from]) {
        digits_end(s, from + 1)
    } else {
        from
    }
}

/// The position after an optional `+` or `-` at `from`.
pub open spec fn sign_end(s: Seq<char>, from: int) -> int {
    if 0 <= from < s.len() && (s[from] == '+' || s[from] == '-') {
        from + 1
    } else {
        from
    }
}

/// `s[at..]` is an exponent: `e` or `E`, an optional sign, then digits up to the end.
pub open spec fn is_exponent(s: Seq<char>, at: int) -> bool {
    &&& 0 <= at < s.len()
    &&& (s[at] == 'e' || s[at] == 'E')
    &&& sign_end(s, at + 1) < s.len()
    &&& digits_end(s, sign_end(s, at + 1)) == s.len()
}

/// `s` spells a word, each letter in either of its two cases.
pub open spec fn is_word(s: Seq<char>, lower: Seq<char>, upper: Seq<char>) -> bool {
    &&& lower.len() == upper.len()
    &&& s.len() == lower.len()
    &&& forall|i: int| 0 <= i < s.len() ==> s[i] == lower[i] || s[i] == upper[i]
}

/// The names of the floats that no digits write.
pub open spec fn is_special_float(s: Seq<char>) -> bool {
    ||| is_word(s, "inf"@, "INF"@)
    ||| is_word(s, "infinity"@, "INFINITY"@)
    ||| is_word(s, "nan"@, "NAN"@)
}

/// A float literal: an optional sign, then either a special name, or digits
/// with a fraction point, an exponent, or both. There is a digit before or
/// after the point. Digits alone, with their sign, are a float only where
/// they are no integer: where their value does not fit `i64`.
pub open spec fn is_float_literal(s: Seq<char>) -> bool {
    let start = sign_end(s, 0);
    let int_end = digits_end(s, start);
    ||| is_special_float(s.skip(start))
    ||| if int_end < s.len() && s[int_end] == '.' {
        let frac_end = digits_end(s, int_end + 1);
        frac_end - start > 1 && (frac_end == s.len() || is_exponent(s, frac_end))
    } else {
        int_end > start && (is_exponent(s, int_end) || (int_end == s.len() && parse_i64(s) is None))
    }
}

/// A longer run of digits never writes a smaller number than its prefix.
pub proof fn lemma_decimal_prefix(s: Seq<char>, k: int)
    requires
        0 <= k <= s.len(),
    ensures
        decimal_value(s.take(k)) <= decimal_value(s),
    decreases s.len(),
{
    if k == s.len() {
        assert(s.take(k) == s);
    } else {
        assert(s.drop_last().take(k) == s.take(k));
        lemma_decimal_prefix(s.drop_last(), k);
    }
}

/// The decimal writing of a number is a number, and writes that number.
pub proof fn lemma_decimal_digits(n: nat)
    ensures
        is_number(decimal_digits(n)),
        decimal_value(decimal_digits(n)) == n,
    decreases n,
{
    let s = decimal_digits(n);
    if n < 10 {
        assert(s.drop_last() == Seq::<char>::empty());
        assert(decimal_value(s.drop_last()) == 0);
    } else {
        lemma_decimal_digits(n / 10);
        assert(s.drop_last() == decimal_digits(n / 10));
    }
}

/// Writing a number and reading it back gives the number.
pub proof fn lemma_parse_usize_of_digits(n: usize)
    ensures
        parse_usize(decimal_digits(n as nat)) == Some(n),
{
    lemma_decimal_digits(n as nat);
}

fn digit_of(c: char) -> (d: Option<u64>)
    ensures
        d is Some <==> is_digit(c),
        d matches Some(x) ==> x == digit_value(c) && x <= 9,
{
    if c >= '0' && c <= '9' {
        Some((c as u32 - '0' as u32) as u64)
    } else {
        None
    }
}

/// Reads the digits of `v[from..]`. `None` unless they are a number no larger than `limit`.
fn read_digits(v: &Vec<char>, from: usize, limit: u64) -> (r: Option<u64>)
    requires
        from <= v.len(),
        limit >= 9,
    ensures
        r == if is_number(v@.skip(from as int)) && decimal_value(v@.skip(from as int)) <= limit {
            Some(decimal_value(v@.skip(from as int)) as u64)
        } else {
            None
        },
{
    let ghost s = v@.skip(from as int);
    if from == v.len() {
        return None;
    }
    let mut acc: u64 = 0;
    let mut i: usize = from;
    while i < v.len()
        invariant
            from <= i <= v.len(),
            limit >= 9,
            s == v@.skip(from as int),
            all_digits(s.take(i - from)),
            acc == decimal_value(s.take(i - from)),
            acc <= limit,
        decreases v.len() - i,
    {
        let ghost next = s.take(i - from + 1);
        proof {
            assert(next.drop_last() == s.take(i - from));
            assert(next.last() == v@[i as int]);
            lemma_decimal_prefix(s, i - from + 1);
        }
        match digit_of(v[i]) {
            None => {
                assert(!is_digit(s[i - from]));
                return None;
            },
            Some(d) => {
                if acc > (limit - d) / 10 {
                    return None;
                }
                acc = acc * 10 + d;
                assert forall|j: int| 0 <= j < next.len() implies is_digit(#[trigger] next[j]) by {
                    if j < i - from {
                        assert(next[j] == s.take(i - from)[j]);
                    }
                }
            },
        }
        i += 1;
    }
    proof {
        assert(s.take(i - from) == s);
    }
    Some(acc)
}

/// Reads an unsigned integer.
pub fn read_usize(v: &Vec<char>) -> (r: Option<usize>)
    ensures
        r == parse_usize(v@),
{
    let from: usize = if v.len() > 0 && v[0] == '+' {
        1
    } else {
        0
    };
    proof {
        assert(v@.skip(0) == v@);
        assert(v@.skip(from as int) == strip_plus(v@));
    }
    match read_digits(v, from, usize::MAX as u64) {
        Some(n) => Some(n as usize),
        None => None,
    }
}

/// Reads a signed integer.
pub fn read_i64(v: &Vec<char>) -> (r: Option<i64>)
    ensures
        r == parse_i64(v@),
{
    let negative = v.len() > 0 && v[0] == '-';
    let from: usize = if v.len() > 0 && (v[0] == '+' || v[0] == '-') {
        1
    } else {
        0
    };
    proof {
        assert(v@.skip(0) == v@);
        assert(v@.skip(from as int) == strip_sign(v@));
    }
    if negative {
        match read_digits(v, from, 0x8000_0000_0000_0000u64) {
            Some(n) => if n == 0x8000_0000_0000_0000u64 {
                Some(i64::MIN)
            } else {
                Some(-(n as i64))
            },
            None => None,
        }
    } else {
        match read_digits(v, from, 0x7fff_ffff_ffff_ffffu64) {
            Some(n) => Some(n as i64),
            None => None,
        }
    }
}

fn is_digit_char(c: char) -> (r: bool)
    ensures
        r == is_digit(c),
{
    c >= '0' && c <= '9'
}

fn scan_digits(v: &Vec<char>, from: usize) -> (end: usize)
    requires
        from <= v.len(),
    ensures
        end == digits_end(v@, from as int),
        from <= end <= v.len(),
{
    let mut i: usize = from;
    while i < v.len() && is_digit_char(v[i])
        invariant
            from <= i <= v.len(),
            digits_end(v@, from as int) == digits_end(v@, i as int),
        decreases v.len() - i,
    {
        i += 1;
    }
    i
}

fn scan_sign(v: &Vec<char>, from: usize) -> (end: usize)
    requires
        from <= v.len(),
    ensures
        end == sign_end(v@, from as int),
        from <= end <= v.len(),
{
    if from < v.len() && (v[from] == '+' || v[from] == '-') {
        from + 1
    } else {
        from
    }
}

fn exponent_at(v: &Vec<char>, at: usize) -> (r: bool)
    requires
        at <= v.len(),
    ensures
        r == is_exponent(v@, at as int),
{
    if at < v.len() && (v[at] == 'e' || v[at] == 'E') {
        let digits = scan_sign(v, at + 1);
        digits < v.len() && scan_digits(v, digits) == v.len()
    } else {
        false
    }
}

fn spells(v: &Vec<char>, lower: &str, upper: &str) -> (r: bool)
    ensures
        r == is_word(v@, lower@, upper@),
{
    let lo = crate::text::chars_of(lower);
    let up = crate::text::chars_of(upper);
    if lo.len() != up.len() || v.len() != lo.len() {
        return false;
    }
    let mut i: usize = 0;
    while i < v.len()
        invariant
            i <= v.len(),
            lo@ == lower@,
            up@ == upper@,
            v.len() == lo.len(),
            lo.len() == up.len(),
            forall|j: int| 0 <= j < i ==> v@[j] == lo@[j] || v@[j] == up@[j],
        decreases v.len() - i,
    {
        if v[i] != lo[i] && v[i] != up[i] {
            return false;
        }
        i += 1;
    }
    true
}

/// Whether `v` is a float literal.
pub fn float_literal(v: &Vec<char>) -> (r: bool)
    ensures
        r == is_float_literal(v@),
{
    let start = scan_sign(v, 0);
    let name = crate::text::slice_of(v, start, v.len());
    assert(name@ == v@.skip(start as int));
    if spells(&name, "inf", "INF") || spells(&name, "infinity", "INFINITY") || spells(
        &name,
        "nan",
        "NAN",
    ) {
        return true;
    }
    let int_end = scan_digits(v, start);
    if int_end < v.len() && v[int_end] == '.' {
        let frac_end = scan_digits(v, int_end + 1);
        frac_end - start > 1 && (frac_end == v.len() || exponent_at(v, frac_end))
    } else {
        int_end > start && (exponent_at(v, int_end) || (int_end == v.len() && read_i64(v).is_none()))
    }
}

fn char_of_digit(d: u64) -> (c: char)
    requires
        d < 10,
    ensures
        c == digit_char(d as nat),
{
    (('0' as u8) + (d as u8)) as char
}

/// Appends the decimal writing of `n` to `out`.
pub fn push_decimal(out: &mut Vec<char>, n: u64)
    ensures
        final(out)@ == old(out)@ + decimal_digits(n as nat),
    decreases n,
{
    if n >= 10 {
        push_decimal(out, n / 10);
    }
    out.push(char_of_digit(n % 10));
}

} // verus!
