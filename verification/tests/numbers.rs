use dash_vm::js_std::{ErrorKind, JsError};
use dash_vm::js_std::number::{to_string, RadixFormat};
use dash_vm::js_std::{global, number};

fn bits(x: f64) -> Option<u64> {
    Some(x.to_bits())
}

#[test]
fn number_is_finite() {
    assert!(number::is_finite(bits(1.5)));
    assert!(number::is_finite(bits(-0.0)));
    assert!(!number::is_finite(bits(f64::INFINITY)));
    assert!(!number::is_finite(bits(f64::NEG_INFINITY)));
    assert!(!number::is_finite(bits(f64::NAN)));
    assert!(!number::is_finite(None));
}

#[test]
fn number_is_nan() {
    assert!(number::is_nan(bits(f64::NAN)));
    assert!(!number::is_nan(bits(f64::INFINITY)));
    assert!(!number::is_nan(bits(0.0)));
    assert!(!number::is_nan(None));
}

#[test]
fn number_is_safe_integer() {
    assert!(number::is_safe_integer(bits(9007199254740991.0)));
    assert!(number::is_safe_integer(bits(-9007199254740991.0)));
    assert!(!number::is_safe_integer(bits(9007199254740992.0)));
    assert!(!number::is_safe_integer(bits(-9007199254740992.0)));
    assert!(number::is_safe_integer(bits(0.0)));
    // Only the range is tested, not whether the number is integral.
    assert!(number::is_safe_integer(bits(1.5)));
    assert!(!number::is_safe_integer(bits(f64::NAN)));
    assert!(!number::is_safe_integer(bits(f64::INFINITY)));
    assert!(!number::is_safe_integer(None));
}

#[test]
fn global_is_nan_and_is_finite() {
    assert!(global::is_nan(f64::NAN.to_bits()));
    assert!(!global::is_nan(3.0f64.to_bits()));
    assert!(global::is_finite(3.0f64.to_bits()));
    assert!(!global::is_finite(f64::NEG_INFINITY.to_bits()));
    assert!(!global::is_finite(f64::NAN.to_bits()));
}

#[test]
fn parse_int_decimal() {
    assert_eq!(global::parse_int("  42px", None), Some(42));
    assert_eq!(global::parse_int("-17", None), Some(-17));
    assert_eq!(global::parse_int("+7", Some(0)), Some(7));
    assert_eq!(global::parse_int("\t\n 0012 ", Some(10)), Some(12));
}

#[test]
fn parse_int_hexadecimal_prefix() {
    // Without a base argument the base counts as 0: a `0x` prefix selects base 16.
    assert_eq!(global::parse_int("0x1A", None), Some(26));
    assert_eq!(global::parse_int("0x1F", None), Some(31));
    assert_eq!(global::parse_int("  -12px", None), Some(-12));
    assert_eq!(global::parse_int("-0X1a", Some(16)), Some(-26));
    assert_eq!(global::parse_int("0x1A", Some(0)), Some(26));
    // With another base the prefix is not stripped.
    assert_eq!(global::parse_int("0x1A", Some(10)), Some(0));
}

#[test]
fn parse_int_other_bases() {
    assert_eq!(global::parse_int("ff", Some(16)), Some(255));
    assert_eq!(global::parse_int("z", Some(36)), Some(35));
    assert_eq!(global::parse_int("1012", Some(2)), Some(5));
}

#[test]
fn parse_int_nan() {
    assert_eq!(global::parse_int("abc", None), None);
    assert_eq!(global::parse_int("", None), None);
    assert_eq!(global::parse_int("-", None), None);
    assert_eq!(global::parse_int("12", Some(1)), None);
    assert_eq!(global::parse_int("7", Some(1)), None);
    assert_eq!(global::parse_int("12", Some(37)), None);
    assert_eq!(global::parse_int("12", Some(-5)), None);
}

#[test]
fn parse_int_range_check() {
    assert!(global::parse_int_in_range("170141183460469231731687303715884105727", None));
    assert_eq!(
        global::parse_int("170141183460469231731687303715884105727", None),
        Some(i128::MAX)
    );
    assert!(!global::parse_int_in_range("170141183460469231731687303715884105728", None));
    assert!(global::parse_int_in_range("zzz", Some(2)));
    assert!(global::parse_int_in_range("12", Some(99)));
}

#[test]
fn number_to_string_radix_decision() {
    assert_eq!(dash_vm::js_std::number::to_string_format(None), Ok(dash_vm::js_std::number::RadixFormat::Decimal));
    assert_eq!(dash_vm::js_std::number::to_string_format(Some(2)), Ok(dash_vm::js_std::number::RadixFormat::Binary));
    assert_eq!(dash_vm::js_std::number::to_string_format(Some(10)), Ok(dash_vm::js_std::number::RadixFormat::Decimal));
    assert_eq!(dash_vm::js_std::number::to_string_format(Some(16)), Ok(dash_vm::js_std::number::RadixFormat::Hexadecimal));
    assert_eq!(dash_vm::js_std::number::to_string_format(Some(8)), Err(JsError { kind: ErrorKind::RangeError, message: "Invalid radix: 8".to_string() }));
    assert_eq!(dash_vm::js_std::number::to_string_format(Some(37)), Err(JsError { kind: ErrorKind::RangeError, message: "Invalid radix: 37".to_string() }));
    assert_eq!(dash_vm::js_std::number::to_string_format(Some(255)), Err(JsError { kind: ErrorKind::RangeError, message: "Invalid radix: 255".to_string() }));
}

#[test]
fn number_to_string_checks_the_receiver_first() {
    let bits = 255f64.to_bits();
    assert_eq!(to_string(Some(bits), Some(16)), Ok((bits, RadixFormat::Hexadecimal)));
    assert_eq!(to_string(Some(bits), Some(2)), Ok((bits, RadixFormat::Binary)));
    assert_eq!(to_string(Some(bits), None), Ok((bits, RadixFormat::Decimal)));
    assert_eq!(to_string(Some(bits), Some(37)), Err(JsError { kind: ErrorKind::RangeError, message: "Invalid radix: 37".to_string() }));
    assert_eq!(to_string(None, Some(16)), Err(JsError { kind: ErrorKind::TypeError, message: "Number.prototype.toString called on non-number".to_string() }));
    assert_eq!(to_string(None, Some(37)), Err(JsError { kind: ErrorKind::TypeError, message: "Number.prototype.toString called on non-number".to_string() }));
}
