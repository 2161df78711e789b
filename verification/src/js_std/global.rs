use vstd::prelude::*;

use crate::js_std::number::{bits_is_finite, bits_is_nan, f64_is_finite, f64_is_nan};
use crate::js_std::string::{iterator, std_trim, trim_end_chars, trim_start_chars};

verus! {

/// `isNaN`: whether the argument, converted to a number (given by its bits), is NaN.
pub fn is_nan(number: u64) -> (r: bool)
    ensures
        r == f64_is_nan(number),
{
    bits_is_nan(number)
}

/// `isFinite`: whether the argument, converted to a number (given by its bits), is neither
/// infinite nor NaN.
pub fn is_finite(number: u64) -> (r: bool)
    ensures
        r == f64_is_finite(number),
{
    bits_is_finite(number)
}

/// The value of a character as a digit in bases up to 36: `0`-`9`, then `a`-`z` or `A`-`Z` for
/// 10 to 35; 36 for any other character.
pub open spec fn digit_value(c: char) -> int {
    let u = c as u32;
    if 0x30 <= u && u <= 0x39 {
        u - 0x30
    } else if 0x61 <= u && u <= 0x7A {
        u - 0x61 + 10
    } else if 0x41 <= u && u <= 0x5A {
        u - 0x41 + 10
    } else {
        36
    }
}

/// The first offset at or after `i` that does not hold a digit of the given base (or the end).
pub open spec fn radix_digits_end(s: Seq<char>, i: int, radix: int) -> int
    decreases s.len() - i,
{
    if 0 <= i < s.len() && digit_value(s[i]) < radix {
        radix_digits_end(s, i + 1, radix)
    } else {
        i
    }
}

/// The number that the digits spell in the given base.
pub open spec fn digits_value(s: Seq<char>, radix: int) -> int
    decreases s.len(),
{
    if s.len() == 0 {
        0
    } else {
        digits_value(s.drop_last(), radix) * radix + digit_value(s.last())
    }
}

/// How `parseInt` reads its input: whether a minus sign leads, the base, and the digits that
/// spell the number (none when the input does not start with a number). No base given counts as
/// base 0: a leading `0x` or `0X` then selects base 16, and otherwise the base is 10. `None` when
/// the base asked for is out of range.
pub open spec fn parse_int_digits(input: Seq<char>, radix_arg: Option<i32>) -> Option<(bool, int, Seq<char>)> {
    let t = trim_end_chars(trim_start_chars(input));
    let negative = t.len() > 0 && t[0] == '-';
    let u = if t.len() > 0 && (t[0] == '+' || t[0] == '-') {
        t.drop_first()
    } else {
        t
    };
    let r0: int = match radix_arg {
        Some(r) => r as int,
        None => 0,
    };
    if r0 != 0 && (r0 < 2 || r0 > 36) {
        None
    } else {
        let strip_prefix = r0 == 0 || r0 == 16;
        let hex = strip_prefix && u.len() >= 2 && u[0] == '0' && (u[1] == 'x' || u[1] == 'X');
        let radix = if hex {
            16
        } else if r0 == 0 {
            10
        } else {
            r0
        };
        let w = if hex {
            u.subrange(2, u.len() as int)
        } else {
            u
        };
        Some((negative, radix, w.take(radix_digits_end(w, 0, radix))))
    }
}

/// What `parseInt` gives: the number, or `None` for NaN.
pub open spec fn parse_int_value(input: Seq<char>, radix_arg: Option<i32>) -> Option<int> {
    match parse_int_digits(input, radix_arg) {
        None => None,
        Some((negative, radix, z)) => if z.len() == 0 {
            None
        } else if negative {
            Some(-digits_value(z, radix))
        } else {
            Some(digits_value(z, radix))
        },
    }
}

/// Whether the digits that `parseInt` reads spell a number that fits in an `i128`.
pub open spec fn parse_int_fits(input: Seq<char>, radix_arg: Option<i32>) -> bool {
    parse_int_digits(input, radix_arg) matches Some((_, radix, z)) ==> digits_value(z, radix) <= i128::MAX
}

proof fn lemma_digits_value_mono(s: Seq<char>, k: int, m: int, radix: int)
    requires
        0 <= k <= m <= s.len(),
        radix >= 1,
    ensures
        0 <= digits_value(s.take(k), radix) <= digits_value(s.take(m), radix),
    decreases m,
{
    if m > 0 {
        assert(s.take(m).drop_last() == s.take(m - 1));
        if k < m {
            lemma_digits_value_mono(s, k, m - 1, radix);
        } else {
            lemma_digits_value_mono(s, k - 1, m - 1, radix);
        }
        let v = digits_value(s.take(m - 1), radix);
        assert(v * radix >= v) by (nonlinear_arith)
            requires
                v >= 0,
                radix >= 1,
        ;
        assert(digit_value(s.take(m).last()) >= 0);
    }
}

fn digit_of(c: char) -> (r: u32)
    ensures
        r == digit_value(c),
{
    let u = c as u32;
    if 0x30 <= u && u <= 0x39 {
        u - 0x30
    } else if 0x61 <= u && u <= 0x7A {
        u - 0x61 + 10
    } else if 0x41 <= u && u <= 0x5A {
        u - 0x41 + 10
    } else {
        36
    }
}

/// Reads what `parseInt` reads: whether a minus sign leads, the base, and the characters with the
/// digits at `start..end`. `None` when the base is out of range.
fn scan_int(input: &str, radix: Option<i32>) -> (r: Option<(bool, u32, Vec<char>, usize, usize)>)
    ensures
        match parse_int_digits(input@, radix) {
            None => r is None,
            Some((negative, base, z)) => r matches Some((neg, b, chars, start, end)) && neg == negative && b == base
                && 2 <= b <= 36 && start <= end <= chars@.len() && chars@.subrange(start as int, end as int) == z,
        },
{
    let trimmed = std_trim(input);
    let chars = iterator(trimmed);
    let ghost t = chars@;
    let n = chars.len();
    let negative = n > 0 && chars[0] == '-';
    let mut start: usize = if n > 0 && (chars[0] == '+' || chars[0] == '-') {
        1
    } else {
        0
    };
    let ghost u = if start == 1 { t.drop_first() } else { t };
    assert(u =~= t.subrange(start as int, n as int));
    let r0: i32 = match radix {
        Some(r) => r,
        None => 0,
    };
    if r0 != 0 && (r0 < 2 || r0 > 36) {
        return None;
    }
    let ghost start0 = start as int;
    let strip_prefix = r0 == 0 || r0 == 16;
    let mut base: u32 = if r0 == 0 {
        10
    } else {
        r0 as u32
    };
    if strip_prefix && n - start >= 2 && chars[start] == '0' && (chars[start + 1] == 'x'
        || chars[start + 1] == 'X') {
        start = start + 2;
        base = 16;
    }
    let ghost w = t.subrange(start as int, n as int);
    proof {
        if start as int == start0 + 2 {
            assert(u[0] == chars@[start0] && u[1] == chars@[start0 + 1]);
            assert(w =~= u.subrange(2, u.len() as int));
        } else {
            assert(w =~= u);
        }
        lemma_radix_digits_end_bounds(w, 0, base as int);
    }
    let ghost end = radix_digits_end(w, 0, base as int);
    let mut i = start;
    while i < n && digit_of(chars[i]) < base
        invariant
            start <= i <= n,
            n == t.len(),
            chars@ == t,
            w == t.subrange(start as int, n as int),
            0 <= end <= w.len(),
            radix_digits_end(w, i - start, base as int) == end,
            i - start <= end,
        decreases n - i,
    {
        proof {
            assert(w[i - start] == chars@[i as int]);
            lemma_radix_digits_end_bounds(w, i - start + 1, base as int);
        }
        i = i + 1;
    }
    proof {
        if i < n {
            assert(w[i - start] == chars@[i as int]);
        }
        assert(i - start == end);
        assert(chars@.subrange(start as int, i as int) =~= w.take(end));
    }
    Some((negative, base, chars, start, i))
}

/// `parseInt`: the integer that the input starts with, after white space and an optional sign,
/// read in the given base (with base 16, base 0 or none given, a leading `0x` or `0X` selects
/// base 16; otherwise base 0 and none given read base 10). `None` stands for NaN: no digits, or a base out of range.
pub fn parse_int(input: &str, radix: Option<i32>) -> (r: Option<i128>)
    requires
        parse_int_fits(input@, radix),
    ensures
        match parse_int_value(input@, radix) {
            Some(v) => r == Some(v as i128),
            None => r is None,
        },
{
    let (negative, base, chars, start, end) = match scan_int(input, radix) {
        Some(x) => x,
        None => {
            return None;
        },
    };
    let ghost z = chars@.subrange(start as int, end as int);
    let mut i = start;
    let mut acc: i128 = 0;
    while i < end
        invariant
            start <= i <= end <= chars@.len(),
            z == chars@.subrange(start as int, end as int),
            2 <= base <= 36,
            acc == digits_value(z.take(i - start), base as int),
            0 <= acc,
            digits_value(z, base as int) <= i128::MAX,
        decreases end - i,
    {
        let d = digit_of(chars[i]);
        let ghost j = i - start;
        proof {
            assert(z[j] == chars@[i as int]);
            assert(z.take(j + 1).drop_last() == z.take(j));
            assert(z.take(z.len() as int) == z);
            lemma_digits_value_mono(z, j + 1, z.len() as int, base as int);
            lemma_digits_value_mono(z, j, j + 1, base as int);
        }
        acc = acc * (base as i128) + (d as i128);
        i = i + 1;
    }
    assert(z.take(z.len() as int) == z);
    if i == start {
        None
    } else if negative {
        Some(-acc)
    } else {
        Some(acc)
    }
}

/// Whether the digits that `parseInt` reads spell a number that fits in an `i128` (as `parse_int`
/// requires).
pub fn parse_int_in_range(input: &str, radix: Option<i32>) -> (r: bool)
    ensures
        r == parse_int_fits(input@, radix),
{
    let (_negative, base, chars, start, end) = match scan_int(input, radix) {
        Some(x) => x,
        None => {
            return true;
        },
    };
    let ghost z = chars@.subrange(start as int, end as int);
    assert(parse_int_fits(input@, radix) <==> digits_value(z, base as int) <= i128::MAX);
    let mut i = start;
    let mut acc: i128 = 0;
    while i < end
        invariant
            start <= i <= end <= chars@.len(),
            z == chars@.subrange(start as int, end as int),
            2 <= base <= 36,
            acc == digits_value(z.take(i - start), base as int),
            0 <= acc,
            parse_int_fits(input@, radix) <==> digits_value(z, base as int) <= i128::MAX,
        decreases end - i,
    {
        let d = digit_of(chars[i]);
        let ghost j = i - start;
        proof {
            assert(z[j] == chars@[i as int]);
            assert(z.take(j + 1).drop_last() == z.take(j));
            assert(z.take(z.len() as int) == z);
            lemma_digits_value_mono(z, j + 1, z.len() as int, base as int);
            lemma_digits_value_mono(z, j, j + 1, base as int);
            assert(z.take(j + 1).last() == z[j]);
            assert(digits_value(z.take(j + 1), base as int) == acc * base + d);
        }
        let next = match acc.checked_mul(base as i128) {
            Some(m) => m.checked_add(d as i128),
            None => None,
        };
        match next {
            Some(v) => {
                acc = v;
            },
            None => {
                proof {
                    assert(acc * base >= acc) by (nonlinear_arith)
                        requires
                            acc >= 0,
                            base >= 2,
                    ;
                }
                return false;
            },
        }
        i = i + 1;
    }
    assert(z.take(z.len() as int) == z);
    true
}

proof fn lemma_radix_digits_end_bounds(s: Seq<char>, i: int, radix: int)
    requires
        0 <= i <= s.len(),
    ensures
        i <= radix_digits_end(s, i, radix) <= s.len(),
        radix_digits_end(s, i, radix) < s.len() ==> digit_value(s[radix_digits_end(s, i, radix)]) >= radix,
    decreases s.len() - i,
{
    if i < s.len() && digit_value(s[i]) < radix {
        lemma_radix_digits_end_bounds(s, i + 1, radix);
    }
}

} // verus!
