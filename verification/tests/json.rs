use dash_vm::json::parser::{ConversionError, JsonParseError, JsonValue, Parser, Utf8Fault};

fn parse(src: &[u8]) -> Result<JsonValue, JsonParseError> {
    Parser::new(src).parse()
}

fn num(digits: &str) -> JsonValue {
    JsonValue::Number(digits.as_bytes().to_vec())
}

fn string(s: &str) -> JsonValue {
    JsonValue::String(s.as_bytes().to_vec())
}

#[test]
fn parses_an_array_of_numbers_and_strings() {
    let v = parse(b"[1, \"a\",  23 ]").unwrap();
    assert_eq!(v, JsonValue::Array(vec![num("1"), string("a"), num("23")]));
}

#[test]
fn parses_nested_values() {
    let v = parse(b"{\"a\": [1, [\"b\"]], \"d\": {\"e\": 4}}").unwrap();
    assert_eq!(
        v,
        JsonValue::Object(vec![
            (b"a".to_vec(), JsonValue::Array(vec![num("1"), JsonValue::Array(vec![string("b")])])),
            (b"d".to_vec(), JsonValue::Object(vec![(b"e".to_vec(), num("4"))])),
        ])
    );
}

#[test]
fn an_object_leaves_its_closing_brace_unread() {
    // Inside an array, the brace that closes an object is then read as the next item.
    assert_eq!(parse(b"{\"a\": [1, {\"b\": \"c\"}], \"d\": 4}"), Err(JsonParseError::UnexpectedToken(b'}', 19)));
}

#[test]
fn a_repeated_key_keeps_its_place_and_takes_the_last_value() {
    let v = parse(b"{\"k\": 1, \"j\": 2, \"k\": 3}").unwrap();
    assert_eq!(v, JsonValue::Object(vec![(b"k".to_vec(), num("3")), (b"j".to_vec(), num("2"))]));
}

#[test]
fn a_number_ends_at_the_first_non_digit() {
    assert_eq!(parse(b"  123abc").unwrap(), num("123"));
    assert_eq!(parse(b"1.5").unwrap(), num("1"));
}

#[test]
fn empty_input_is_an_unexpected_end() {
    assert_eq!(parse(b""), Err(JsonParseError::UnexpectedEof));
    assert_eq!(parse(b"   \n "), Err(JsonParseError::UnexpectedEof));
}

#[test]
fn an_unterminated_string_is_an_unexpected_end() {
    assert_eq!(parse(b"\"abc"), Err(JsonParseError::UnexpectedEof));
}

#[test]
fn an_unknown_token_reports_its_position() {
    assert_eq!(parse(b"  x"), Err(JsonParseError::UnexpectedToken(b'x', 2)));
    assert_eq!(parse(b"[1, t]"), Err(JsonParseError::UnexpectedToken(b't', 4)));
}

#[test]
fn invalid_utf8_in_a_string_is_reported_after_the_string() {
    assert_eq!(parse(b"\"a\xffb\""), Err(JsonParseError::Utf8Error(5)));
    assert_eq!(parse(b"{\"\xff\": 1}"), Err(JsonParseError::Utf8Error(4)));
}

#[test]
fn an_unclosed_array_ends_with_the_input() {
    assert_eq!(parse(b"[1, 2").unwrap(), JsonValue::Array(vec![num("1"), num("2")]));
}

#[test]
fn error_messages() {
    assert_eq!(JsonParseError::UnexpectedEof.to_string(), "Unexpected end of JSON input");
    assert_eq!(JsonParseError::UnexpectedToken(b'x', 17).to_string(), "Unexpected token x at position 17");
    assert_eq!(JsonParseError::UnexpectedToken(0xE9, 0).to_string(), "Unexpected token \u{e9} at position 0");
    assert_eq!(JsonParseError::Utf8Error(5).to_string(), "Utf8 Error at position 5");
    assert_eq!(JsonParseError::ParseFloatError(1234).to_string(), "Failed to parse number at position 1234");
}

fn fault_of(bytes: &[u8]) -> (Utf8Fault, String) {
    let e = std::str::from_utf8(bytes).unwrap_err();
    let fault = Utf8Fault { valid_up_to: e.valid_up_to(), error_len: e.error_len().map(|n| n as u8) };
    (fault, e.to_string())
}

#[test]
fn conversion_error_messages_match_the_standard_library() {
    let (fault, expected) = fault_of(b"ab\xffcd");
    assert_eq!(ConversionError::Utf8Error(fault).to_string(), expected);
    assert_eq!(ConversionError::Utf8Error(fault).to_string(), "invalid utf-8 sequence of 1 bytes from index 2");

    let (fault, expected) = fault_of(b"abc\xe2\x82");
    assert_eq!(ConversionError::Utf8Error(fault).to_string(), expected);
    assert_eq!(ConversionError::Utf8Error(fault).to_string(), "incomplete utf-8 byte sequence from index 3");
}
