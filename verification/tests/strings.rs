use dash_vm::js_std::string;
use dash_vm::js_std::string::SliceBound;
use dash_vm::js_std::{ErrorKind, JsError};

fn b(s: &str) -> Vec<u8> {
    s.as_bytes().to_vec()
}

#[test]
fn char_at_and_char_code_at() {
    assert_eq!(string::char_at("abc", 1), Some(b("b")));
    assert_eq!(string::char_at("abc", 3), None);
    assert_eq!(string::char_code_at("abc", 2), Some(b'c'));
    assert_eq!(string::char_code_at("abc", 9), None);
    // A byte above 0x7F is taken as the character with that code.
    assert_eq!(string::char_at("\u{e9}", 0), Some(b("\u{c3}")));
}

#[test]
fn concat_strings() {
    assert_eq!(string::concat("a", &["b".to_string(), "cd".to_string()]), b("abcd"));
    assert_eq!(string::concat("a", &[]), b("aundefined"));
}

#[test]
fn starts_ends_includes() {
    assert!(string::starts_with("hello", "he"));
    assert!(!string::starts_with("hello", "lo"));
    assert!(string::ends_with("hello", "lo"));
    assert!(!string::ends_with("lo", "hello"));
    assert!(string::includes("hello", "ll"));
    assert!(!string::includes("hello", "x"));
    assert!(string::includes("hello", ""));
}

#[test]
fn index_of_and_last_index_of() {
    assert_eq!(string::index_of("hello", "l", 0), Some(2));
    assert_eq!(string::index_of("hello", "l", 3), Some(3));
    assert_eq!(string::index_of("hello", "l", 4), None);
    assert_eq!(string::index_of("hello", "", 10), Some(10));
    assert_eq!(string::last_index_of("hello", "l", None), Some(3));
    assert_eq!(string::last_index_of("hello", "l", Some(2)), Some(2));
    assert_eq!(string::last_index_of("hello", "x", None), None);
}

#[test]
fn padding() {
    assert_eq!(string::pad_start("5", 3, Some("0")), b("005"));
    assert_eq!(string::pad_end("ab", 4, None), b("ab  "));
    assert_eq!(string::pad_end("abc", 2, Some("x")), b("abc"));
    assert_eq!(string::pad_end("abc", 6, Some("")), b("abc"));
    // The filler is repeated and cut to the missing length.
    assert_eq!(string::pad_end("abc", 5, Some("12")), b("abc12"));
    assert_eq!(string::pad_start("abc", 6, Some("12")), b("121abc"));
    assert_eq!(string::pad_end("abc", 6, Some("12")), b("abc121"));
    assert_eq!(string::pad_start("x", 4, Some("abcdef")), b("abcx"));
}

#[test]
fn repeating() {
    assert_eq!(string::repeat("ab", 3), Ok(b("ababab")));
    assert_eq!(string::repeat("ab", 0), Ok(b("")));
    assert_eq!(string::repeat("ab", -1), Err(JsError { kind: ErrorKind::RangeError, message: "Invalid count value".to_string() }));
}

#[test]
fn substr_and_substring() {
    assert_eq!(string::substr("hello", Some(1), Some(3)), b("ell"));
    assert_eq!(string::substr("hello", Some(-3), None), b("llo"));
    assert_eq!(string::substr("hello", None, None), b("hello"));
    assert_eq!(string::substring("hello", Some(3), Some(1)), b("el"));
    assert_eq!(string::substring("hello", Some(-2), Some(2)), b("he"));
    assert_eq!(string::substring("hello", Some(2), None), b("llo"));
}

#[test]
fn trimming() {
    assert_eq!(string::trim("  a b \n"), b("a b"));
    assert_eq!(string::trim_start("\u{a0} x "), b("x "));
    assert_eq!(string::trim_end(" x \t"), b(" x"));
}

#[test]
fn case_mapping() {
    assert_eq!(string::to_uppercase("abc\u{df}"), b("ABCSS"));
    assert_eq!(string::to_lowercase("ABC"), b("abc"));
}

#[test]
fn from_char_code_and_iterator() {
    assert_eq!(string::from_char_code(65), 'A');
    assert_eq!(string::from_char_code(0xD800), '\u{FFFD}');
    assert_eq!(string::from_char_code(-1), '\u{FFFD}');
    assert_eq!(string::iterator("a\u{e9}b"), vec!['a', '\u{e9}', 'b']);
}

#[test]
fn replace_all_occurrences() {
    assert_eq!(string::replace_all("a-b-c", "-", "+"), b("a+b+c"));
    assert_eq!(string::replace_all("aaa", "aa", "b"), b("ba"));
    assert_eq!(string::replace_all("ab", "", "-"), b("-a-b-"));
}

#[test]
fn splitting() {
    assert_eq!(string::split("a,b,,c", ","), vec![b("a"), b("b"), b(""), b("c")]);
    assert_eq!(string::split("abc", ""), vec![b("a"), b("b"), b("c")]);
    assert_eq!(string::split("", ","), vec![b("")]);
    // Joining the pieces with the separator gives the string back.
    assert_eq!(string::split("a,b,c", ","), vec![b("a"), b("b"), b("c")]);
    for (s, sep) in [("a,b,,c", ","), ("xxabxxcdxx", "xx"), ("", ";"), ("no separator", "|")] {
        assert_eq!(string::split(s, sep).join(sep.as_bytes()), s.as_bytes().to_vec());
    }
}

#[test]
fn substr_decodes_a_cut_character_lossily() {
    // The first byte of a two-byte character alone is not UTF-8: it becomes U+FFFD.
    assert_eq!(string::substr("\u{e9}x", Some(0), Some(1)), b("\u{fffd}"));
    assert_eq!(string::substring("a\u{e9}", Some(2), Some(3)), b("\u{fffd}"));
}

#[test]
fn string_to_string() {
    assert_eq!(string::to_string(Some("abc")), Ok("abc".to_string()));
    assert_eq!(string::to_string(None), Err(JsError { kind: ErrorKind::TypeError, message: "String.prototype.toString called on non-string value".to_string() }));
}

#[test]
fn replace_first_occurrence() {
    assert_eq!(string::replace("a-b-c", "-", "+"), b"a+b-c".to_vec());
    assert_eq!(string::replace("abc", "x", "y"), b"abc".to_vec());
    assert_eq!(string::replace("abc", "", "_"), b"_abc".to_vec());
    assert_eq!(string::replace("aaa", "aa", "b"), b"ba".to_vec());
}

#[test]
fn slice_with_bounds() {
    assert_eq!(string::slice("hello world", SliceBound::NonNegative(6), None), b"world".to_vec());
    assert_eq!(string::slice("hello world", SliceBound::Negative(-5), None), b"world".to_vec());
    assert_eq!(string::slice("hello", SliceBound::NonNegative(1), Some(SliceBound::Negative(-1))), b"ell".to_vec());
    assert_eq!(string::slice("hello", SliceBound::NegInfinity, Some(SliceBound::NonNegative(usize::MAX))), b"hello".to_vec());
    assert_eq!(string::slice("hello", SliceBound::NonNegative(3), Some(SliceBound::NonNegative(1))), b"".to_vec());
    assert_eq!(string::slice("hello", SliceBound::Negative(-100), Some(SliceBound::NegInfinity)), b"".to_vec());
}

#[test]
fn html_methods() {
    assert_eq!(string::big("x"), b"<big>x</big>".to_vec());
    assert_eq!(string::blink("x"), b"<blink>x</blink>".to_vec());
    assert_eq!(string::bold("x"), b"<b>x</b>".to_vec());
    assert_eq!(string::fixed("x"), b"<tt>x</tt>".to_vec());
    assert_eq!(string::italics("x"), b"<i>x</i>".to_vec());
    assert_eq!(string::strike("x"), b"<strike>x</strike>".to_vec());
    assert_eq!(string::sub("x"), b"<sub>x</sub>".to_vec());
    assert_eq!(string::sup("x"), b"<sup>x</sup>".to_vec());
    assert_eq!(string::fontcolor("x", "red"), b"<font color=\"red\">x</font>".to_vec());
    assert_eq!(string::fontsize("x", "7"), b"<font size=\"7\">x</font>".to_vec());
    assert_eq!(string::link("x", "a\"b"), b"<a href=\"a&quot;b\">x</a>".to_vec());
}
