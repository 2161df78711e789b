use vstd::prelude::*;

use crate::js_std::{js_error, thrown, ErrorKind, JsError};
use crate::json::parser::{decimal_chars, push_decimal};

verus! {

// Numbers are IEEE 754 doubles, handled here by their bits.

/// The biased exponent of a double.
pub open spec fn f64_exponent(bits: u64) -> u64 {
    (bits >> 52u64) & 0x7FFu64
}

/// The fraction (mantissa) bits of a double.
pub open spec fn f64_fraction(bits: u64) -> u64 {
    bits & 0xF_FFFF_FFFF_FFFFu64
}

/// The bits of a double without its sign: the bits of its absolute value.
pub open spec fn f64_magnitude(bits: u64) -> u64 {
    bits & 0x7FFF_FFFF_FFFF_FFFFu64
}

/// Whether the double is NaN: all exponent bits set and a fraction other than zero.
pub open spec fn f64_is_nan(bits: u64) -> bool {
    f64_exponent(bits) == 0x7FF && f64_fraction(bits) != 0
}

/// Whether the double is neither infinite nor NaN: not all exponent bits set.
pub open spec fn f64_is_finite(bits: u64) -> bool {
    f64_exponent(bits) != 0x7FF
}

/// The bits of the largest safe integer, 2^53 - 1, as a double.
pub const MAX_SAFE_INTEGER_BITS: u64 = 0x433F_FFFF_FFFF_FFFF;

/// Whether the double lies between the smallest and the largest safe integer, both included.
/// Doubles of one sign are ordered as their magnitude bits are, and every NaN has magnitude bits
/// above those of any finite double.
pub open spec fn f64_in_safe_range(bits: u64) -> bool {
    f64_magnitude(bits) <= MAX_SAFE_INTEGER_BITS
}

pub(crate) fn bits_is_nan(bits: u64) -> (r: bool)
    ensures
        r == f64_is_nan(bits),
{
    (bits >> 52u64) & 0x7FFu64 == 0x7FF && bits & 0xF_FFFF_FFFF_FFFFu64 != 0
}

pub(crate) fn bits_is_finite(bits: u64) -> (r: bool)
    ensures
        r == f64_is_finite(bits),
{
    (bits >> 52u64) & 0x7FFu64 != 0x7FF
}

/// `Number.isFinite`: whether the first argument is a number that is neither infinite nor NaN.
/// `first` holds the bits of the first argument when that is a number.
pub fn is_finite(first: Option<u64>) -> (r: bool)
    ensures
        r == (first matches Some(bits) && f64_is_finite(bits)),
{
    match first {
        Some(bits) => bits_is_finite(bits),
        None => false,
    }
}

/// `Number.isNaN`: whether the first argument is a number that is NaN.
/// `first` holds the bits of the first argument when that is a number.
pub fn is_nan(first: Option<u64>) -> (r: bool)
    ensures
        r == (first matches Some(bits) && f64_is_nan(bits)),
{
    match first {
        Some(bits) => bits_is_nan(bits),
        None => false,
    }
}

/// `Number.isSafeInteger`: whether the first argument is a number between the smallest and the
/// largest safe integer. (Whether it is integral is not tested.)
/// `first` holds the bits of the first argument when that is a number.
pub fn is_safe_integer(first: Option<u64>) -> (r: bool)
    ensures
        r == (first matches Some(bits) && f64_in_safe_range(bits)),
{
    match first {
        Some(bits) => bits & 0x7FFF_FFFF_FFFF_FFFFu64 <= MAX_SAFE_INTEGER_BITS,
        None => false,
    }
}

/// How `Number.prototype.toString` writes a number in a given radix.
#[derive(Debug, Clone, Copy, PartialEq, Eq)]
pub enum RadixFormat {
    /// The integer part in base 2.
    Binary,
    /// The shortest decimal form of the number.
    Decimal,
    /// The integer part in base 16.
    Hexadecimal,
}

/// The format that `Number.prototype.toString` writes in for a radix (the radix argument converted
/// to a number and then to a `u8`; `None` where there is no argument): 2, 10 and 16 are supported
/// and 10 is the default; `None` for any other radix.
pub open spec fn radix_format(radix: Option<u8>) -> Option<RadixFormat> {
    match radix {
        None => Some(RadixFormat::Decimal),
        Some(2) => Some(RadixFormat::Binary),
        Some(10) => Some(RadixFormat::Decimal),
        Some(16) => Some(RadixFormat::Hexadecimal),
        Some(_) => None,
    }
}

/// The message of the `RangeError` for an unsupported radix.
pub open spec fn invalid_radix_message(radix: u8) -> Seq<char> {
    "Invalid radix: "@ + decimal_chars(radix as nat)
}

/// The radix decision of `Number.prototype.toString`: the format of a supported radix, or a
/// `RangeError` naming the radix.
pub fn to_string_format(radix: Option<u8>) -> (r: Result<RadixFormat, JsError>)
    ensures
        match radix_format(radix) {
            Some(f) => r == Ok::<RadixFormat, JsError>(f),
            None => r matches Err(e) && radix matches Some(n) && thrown(e, ErrorKind::RangeError, invalid_radix_message(n)),
        },
{
    let radix = match radix {
        Some(r) => r,
        None => 10,
    };
    match radix {
        2 => Ok(RadixFormat::Binary),
        10 => Ok(RadixFormat::Decimal),
        16 => Ok(RadixFormat::Hexadecimal),
        _ => {
            let mut message = String::from_str("Invalid radix: ");
            push_decimal(&mut message, radix as usize);
            Err(JsError { kind: ErrorKind::RangeError, message })
        },
    }
}

/// `Number.prototype.toString`: what to write, given the receiver (the bits of `this` when it is a
/// number primitive, `None` otherwise) and the radix as `to_string_format` takes it. A receiver
/// that is not a number is a `TypeError`, whatever the radix; otherwise the number is written in
/// the format of the radix, or the radix is a `RangeError`.
pub fn to_string(this: Option<u64>, radix: Option<u8>) -> (r: Result<(u64, RadixFormat), JsError>)
    ensures
        match this {
            None => r matches Err(e) && thrown(e, ErrorKind::TypeError, "Number.prototype.toString called on non-number"@),
            Some(bits) => match radix_format(radix) {
                Some(f) => r == Ok::<(u64, RadixFormat), JsError>((bits, f)),
                None => r matches Err(e) && radix matches Some(n) && thrown(e, ErrorKind::RangeError, invalid_radix_message(n)),
            },
        },
{
    let num = match this {
        Some(bits) => bits,
        None => {
            return Err(js_error(ErrorKind::TypeError, "Number.prototype.toString called on non-number"));
        },
    };
    match to_string_format(radix) {
        Ok(f) => Ok((num, f)),
        Err(e) => Err(e),
    }
}

} // verus!
