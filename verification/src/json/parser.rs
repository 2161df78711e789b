use vstd::prelude::*;
use vstd::slice::{slice_subrange, slice_to_vec};
use vstd::utf8::valid_utf8;

use crate::js_std::string::latin1_char_bytes;

verus! {

/// A parsed JSON value. Numbers keep the digits of their literal; object entries keep the
/// order in which their keys first appeared.
#[derive(Debug, PartialEq, Eq)]
pub enum JsonValue {
    Array(Vec<JsonValue>),
    Object(Vec<(Vec<u8>, JsonValue)>),
    String(Vec<u8>),
    Number(Vec<u8>),
}

/// A JSON value as a mathematical object.
pub enum JsonSpec {
    Array(Seq<JsonSpec>),
    Object(Seq<(Seq<u8>, JsonSpec)>),
    String(Seq<u8>),
    Number(Seq<u8>),
}

impl JsonValue {
    pub open spec fn view(self) -> JsonSpec
        decreases self,
    {
        match self {
            JsonValue::Array(items) => JsonSpec::Array(
                Seq::new(
                    items@.len(),
                    |i: int|
                        if 0 <= i < items@.len() {
                            proof {
                                assert(decreases_to!(self => items@[i]));
                            }
                            items@[i].view()
                        } else {
                            JsonSpec::Number(Seq::empty())
                        },
                ),
            ),
            JsonValue::Object(entries) => JsonSpec::Object(
                Seq::new(
                    entries@.len(),
                    |i: int|
                        if 0 <= i < entries@.len() {
                            proof {
                                assert(decreases_to!(self => entries@[i]));
                                assert(decreases_to!(entries@[i] => entries@[i].1));
                            }
                            (entries@[i].0@, entries@[i].1.view())
                        } else {
                            (Seq::empty(), JsonSpec::Number(Seq::empty()))
                        },
                ),
            ),
            JsonValue::String(b) => JsonSpec::String(b@),
            JsonValue::Number(b) => JsonSpec::Number(b@),
        }
    }
}

/// An error that occurred during parsing JSON
///
/// If possible, variants carry an additional `usize` with them which is the offset
/// of where the error occurred
#[derive(Debug, Clone, Copy, PartialEq, Eq)]
pub enum JsonParseError {
    /// Unexpected end of file
    UnexpectedEof,
    /// Unexpected token
    UnexpectedToken(u8, usize),
    /// A string literal is not valid UTF-8
    Utf8Error(usize),
    /// Failed to parse a number
    ParseFloatError(usize),
}

/// The decimal digits of `n`, as characters.
pub open spec fn decimal_chars(n: nat) -> Seq<char>
    decreases n,
{
    if n < 10 {
        seq![(0x30 + n) as char]
    } else {
        decimal_chars(n / 10).push((0x30 + n % 10) as char)
    }
}

/// The message of a JSON error.
pub open spec fn parse_error_message(e: JsonParseError) -> Seq<char> {
    match e {
        JsonParseError::UnexpectedEof => "Unexpected end of JSON input"@,
        JsonParseError::UnexpectedToken(token, position) => "Unexpected token "@ + seq![token as char]
            + " at position "@ + decimal_chars(position as nat),
        JsonParseError::Utf8Error(position) => "Utf8 Error at position "@ + decimal_chars(position as nat),
        JsonParseError::ParseFloatError(position) => "Failed to parse number at position "@
            + decimal_chars(position as nat),
    }
}

/// Calls `String::push`, which appends one character.
#[verifier::external_body]
fn push_char(s: &mut String, c: char)
    ensures
        final(s)@ == old(s)@.push(c),
{
    s.push(c);
}

/// Appends the decimal digits of `n`.
pub(crate) fn push_decimal(s: &mut String, n: usize)
    ensures
        final(s)@ == old(s)@ + decimal_chars(n as nat),
    decreases n,
{
    if n >= 10 {
        push_decimal(s, n / 10);
    }
    let d = (n % 10) as u8;
    push_char(s, (0x30u8 + d) as char);
    assert(decimal_chars(n as nat) =~= if n < 10 {
        seq![(0x30 + n) as char]
    } else {
        decimal_chars((n / 10) as nat).push((0x30 + n % 10) as char)
    });
}

impl JsonParseError {
    /// Tries to format a JSON error
    pub fn to_string(&self) -> (r: String)
        ensures
            r@ == parse_error_message(*self),
    {
        match self {
            JsonParseError::UnexpectedEof => String::from_str("Unexpected end of JSON input"),
            JsonParseError::UnexpectedToken(token, position) => {
                let mut s = String::from_str("Unexpected token ");
                push_char(&mut s, *token as char);
                s.append(" at position ");
                push_decimal(&mut s, *position);
                s
            },
            JsonParseError::Utf8Error(position) => {
                let mut s = String::from_str("Utf8 Error at position ");
                push_decimal(&mut s, *position);
                s
            },
            JsonParseError::ParseFloatError(position) => {
                let mut s = String::from_str("Failed to parse number at position ");
                push_decimal(&mut s, *position);
                s
            },
        }
    }
}

/// Where a byte sequence stops being valid UTF-8: the length of its valid prefix, and the length
/// of the invalid sequence that follows it (none where the input ends in the middle of a
/// character).
#[derive(Debug, Clone, Copy, PartialEq, Eq)]
pub struct Utf8Fault {
    pub valid_up_to: usize,
    pub error_len: Option<u8>,
}

/// An error that may occur during converting
#[derive(Debug, Clone, Copy, PartialEq, Eq)]
pub enum ConversionError {
    /// UTF8 encoding error
    Utf8Error(Utf8Fault),
}

/// The message of a conversion error: the text that the standard library gives a UTF-8 error.
pub open spec fn conversion_error_message(e: ConversionError) -> Seq<char> {
    match e {
        ConversionError::Utf8Error(u) => match u.error_len {
            Some(n) => "invalid utf-8 sequence of "@ + decimal_chars(n as nat) + " bytes from index "@
                + decimal_chars(u.valid_up_to as nat),
            None => "incomplete utf-8 byte sequence from index "@ + decimal_chars(u.valid_up_to as nat),
        },
    }
}

impl ConversionError {
    /// Formats this error as the underlying error formats itself
    pub fn to_string(&self) -> (r: String)
        ensures
            r@ == conversion_error_message(*self),
    {
        match self {
            ConversionError::Utf8Error(u) => match u.error_len {
                Some(n) => {
                    let mut s = String::from_str("invalid utf-8 sequence of ");
                    push_decimal(&mut s, n as usize);
                    s.append(" bytes from index ");
                    push_decimal(&mut s, u.valid_up_to);
                    s
                },
                None => {
                    let mut s = String::from_str("incomplete utf-8 byte sequence from index ");
                    push_decimal(&mut s, u.valid_up_to);
                    s
                },
            },
        }
    }
}

pub open spec fn is_json_whitespace(b: u8) -> bool {
    b == 0x20 || b == 0x0A
}

pub open spec fn is_ascii_digit(b: u8) -> bool {
    0x30 <= b <= 0x39
}

/// The first offset at or after `i` that does not hold a space or a newline.
pub open spec fn skip_ws(src: Seq<u8>, i: int) -> int
    decreases src.len() - i,
{
    if 0 <= i < src.len() && is_json_whitespace(src[i]) {
        skip_ws(src, i + 1)
    } else {
        i
    }
}

/// The first offset at or after `j` that holds a double quote.
pub open spec fn quote_at_or_after(src: Seq<u8>, j: int) -> Option<int>
    decreases src.len() - j,
{
    if j < 0 || j >= src.len() {
        None
    } else if src[j] == 0x22 {
        Some(j)
    } else {
        quote_at_or_after(src, j + 1)
    }
}

/// The first offset at or after `j` that does not hold a digit (or the end).
pub open spec fn digits_end(src: Seq<u8>, j: int) -> int
    decreases src.len() - j,
{
    if 0 <= j < src.len() && is_ascii_digit(src[j]) {
        digits_end(src, j + 1)
    } else {
        j
    }
}

/// The first entry with key `k`.
pub open spec fn find_key(entries: Seq<(Seq<u8>, JsonSpec)>, k: Seq<u8>) -> Option<int>
    decreases entries.len(),
{
    if entries.len() == 0 {
        None
    } else {
        match find_key(entries.drop_last(), k) {
            Some(i) => Some(i),
            None => if entries.last().0 == k {
                Some(entries.len() - 1)
            } else {
                None
            },
        }
    }
}

/// The entries with `k` set to `v`: the value of an existing key is replaced where it stands,
/// a new key is added at the end.
pub open spec fn insert_entry(entries: Seq<(Seq<u8>, JsonSpec)>, k: Seq<u8>, v: JsonSpec) -> Seq<(Seq<u8>, JsonSpec)> {
    match find_key(entries, k) {
        Some(i) => entries.update(i, (k, v)),
        None => entries.push((k, v)),
    }
}

proof fn lemma_find_key(entries: Seq<(Seq<u8>, JsonSpec)>, k: Seq<u8>)
    ensures
        match find_key(entries, k) {
            Some(i) => 0 <= i < entries.len() && entries[i].0 == k && forall|j: int| 0 <= j < i ==> entries[j].0 != k,
            None => forall|j: int| 0 <= j < entries.len() ==> entries[j].0 != k,
        },
    decreases entries.len(),
{
    if entries.len() > 0 {
        lemma_find_key(entries.drop_last(), k);
        assert forall|j: int| 0 <= j < entries.len() - 1 implies entries.drop_last()[j] == entries[j] by {}
    }
}

/// Setting a key of an object: afterwards the key is found and holds the new value; every other
/// key is found where it was, with its value; the entries keep their order, a new key coming
/// last; and setting the same key twice is setting it to the later value (so in
/// `{"a": 1, "a": 2}` the second value wins and the key appears once).
pub proof fn lemma_insert_entry_laws(e: Seq<(Seq<u8>, JsonSpec)>, k: Seq<u8>, v: JsonSpec, w: JsonSpec, k2: Seq<u8>)
    ensures
        find_key(insert_entry(e, k, v), k) matches Some(i) && insert_entry(e, k, v)[i] == (k, v),
        k2 != k ==> find_key(insert_entry(e, k, v), k2) == find_key(e, k2),
        k2 != k ==> (find_key(e, k2) matches Some(i) ==> insert_entry(e, k, v)[i] == e[i]),
        insert_entry(e, k, v).len() == e.len() + if find_key(e, k) is Some { 0int } else { 1int },
        insert_entry(insert_entry(e, k, v), k, w) == insert_entry(e, k, w),
{
    lemma_find_key(e, k);
    lemma_find_key(e, k2);
    let r = insert_entry(e, k, v);
    lemma_find_key(r, k);
    lemma_find_key(r, k2);
    match find_key(e, k) {
        Some(i) => {
            assert(r == e.update(i, (k, v)));
            match find_key(r, k) {
                Some(i2) => {
                    if i2 < i {
                        assert(r[i2] == e[i2]);
                    }
                    if i < i2 {
                        assert(r[i].0 == k);
                    }
                },
                None => {
                    assert(r[i].0 == k);
                },
            }
            match find_key(r, k2) {
                Some(i2) => {
                    assert(r[i2] == e[i2] || i2 == i);
                    match find_key(e, k2) {
                        Some(i3) => {
                            if i3 < i2 {
                                assert(r[i3] == e[i3]);
                            }
                            if i2 < i3 && k2 != k {
                                assert(e[i2] == r[i2]);
                            }
                        },
                        None => {
                            if k2 != k {
                                assert(e[i2] == r[i2]);
                            }
                        },
                    }
                },
                None => {
                    match find_key(e, k2) {
                        Some(i3) => {
                            if k2 != k {
                                assert(r[i3] == e[i3]);
                            }
                        },
                        None => {},
                    }
                },
            }
            let r2 = insert_entry(r, k, w);
            assert(r2 =~= e.update(i, (k, w)));
        },
        None => {
            assert(r == e.push((k, v)));
            match find_key(r, k) {
                Some(i2) => {
                    if i2 < e.len() {
                        assert(r[i2] == e[i2]);
                    }
                },
                None => {
                    assert(r[e.len() as int].0 == k);
                },
            }
            match find_key(r, k2) {
                Some(i2) => {
                    match find_key(e, k2) {
                        Some(i3) => {
                            assert(r[i3] == e[i3]);
                            if i2 < i3 {
                                assert(e[i2] == r[i2]);
                            }
                        },
                        None => {
                            if i2 < e.len() {
                                assert(e[i2] == r[i2]);
                            }
                        },
                    }
                },
                None => {
                    match find_key(e, k2) {
                        Some(i3) => {
                            assert(r[i3] == e[i3]);
                        },
                        None => {},
                    }
                },
            }
            let r2 = insert_entry(r, k, w);
            assert(r2 =~= e.push((k, w)));
        },
    }
}

/// Parses one value starting at offset `i`: the result and the offset after it.
pub open spec fn parse_at(src: Seq<u8>, i: int) -> (Result<JsonSpec, JsonParseError>, int)
    decreases src.len() + 2 - i, 0int,
{
    if i < 0 || i > src.len() + 1 {
        (Err(JsonParseError::UnexpectedEof), i)
    } else {
        let j = skip_ws(src, i);
        if j >= src.len() || j < i {
            (Err(JsonParseError::UnexpectedEof), j)
        } else {
            let cur = src[j];
            if cur == 0x5B {
                array_items(src, j + 1, Seq::empty())
            } else if cur == 0x7B {
                object_entries(src, j + 1, Seq::empty())
            } else if cur == 0x22 {
                match quote_at_or_after(src, j + 1) {
                    Some(e) => {
                        let body = src.subrange(j + 1, e);
                        if valid_utf8(body) {
                            (Ok(JsonSpec::String(body)), e + 1)
                        } else {
                            (Err(JsonParseError::Utf8Error((e + 1) as usize)), e + 1)
                        }
                    },
                    None => (Err(JsonParseError::UnexpectedEof), src.len() as int),
                }
            } else if is_ascii_digit(cur) {
                let e = digits_end(src, j + 1);
                (Ok(JsonSpec::Number(src.subrange(j, e))), e)
            } else {
                (Err(JsonParseError::UnexpectedToken(cur, j as usize)), j)
            }
        }
    }
}

/// Parses the rest of an array whose items so far are `acc`, from offset `i`.
pub open spec fn array_items(src: Seq<u8>, i: int, acc: Seq<JsonSpec>) -> (Result<JsonSpec, JsonParseError>, int)
    decreases src.len() + 2 - i, 1int,
{
    if i < 0 || i > src.len() + 1 {
        (Err(JsonParseError::UnexpectedEof), i)
    } else {
        let j = skip_ws(src, i);
        if j < i {
            (Err(JsonParseError::UnexpectedEof), j)
        } else if j >= src.len() {
            (Ok(JsonSpec::Array(acc)), j)
        } else if src[j] == 0x5D {
            (Ok(JsonSpec::Array(acc)), j + 1)
        } else {
            let k = if src[j] == 0x2C { j + 1 } else { j };
            let (r, k2) = parse_at(src, k);
            match r {
                Err(e) => (Err(e), k2),
                Ok(v) => if i < k2 <= src.len() + 1 {
                    array_items(src, k2, acc.push(v))
                } else {
                    (Err(JsonParseError::UnexpectedEof), k2)
                },
            }
        }
    }
}

/// Parses the rest of an object whose entries so far are `acc`, from offset `i`.
pub open spec fn object_entries(src: Seq<u8>, i: int, acc: Seq<(Seq<u8>, JsonSpec)>) -> (Result<JsonSpec, JsonParseError>, int)
    decreases src.len() + 2 - i, 1int,
{
    if i < 0 || i > src.len() + 1 {
        (Err(JsonParseError::UnexpectedEof), i)
    } else {
        let j = skip_ws(src, i);
        if j < i {
            (Err(JsonParseError::UnexpectedEof), j)
        } else if j >= src.len() {
            (Ok(JsonSpec::Object(acc)), j)
        } else if src[j] == 0x7D {
            (Ok(JsonSpec::Object(acc)), j)
        } else {
            let k = if src[j] == 0x2C { j + 1 } else { j };
            let k0 = skip_ws(src, k);
            match quote_at_or_after(src, k0 + 1) {
                None => (Err(JsonParseError::UnexpectedEof), src.len() as int),
                Some(e) => {
                    let key = src.subrange(k0 + 1, e);
                    let k1 = e + 1;
                    if !valid_utf8(key) {
                        (Err(JsonParseError::Utf8Error(k1 as usize)), k1)
                    } else {
                        let k3 = skip_ws(src, k1) + 1;
                        if k3 <= i || k3 > src.len() + 1 {
                            (Err(JsonParseError::UnexpectedEof), k3)
                        } else {
                            let (r, k4) = parse_at(src, k3);
                            match r {
                                Err(err) => (Err(err), k4),
                                Ok(v) => if i < k4 <= src.len() + 1 {
                                    object_entries(src, k4, insert_entry(acc, key, v))
                                } else {
                                    (Err(JsonParseError::UnexpectedEof), k4)
                                },
                            }
                        }
                    }
                },
            }
        }
    }
}

/// Parsing again where a value ended fails once nothing but white space is left: the parser
/// reports the end of the input.
pub proof fn lemma_parse_at_end(src: Seq<u8>, i: int)
    requires
        0 <= i <= src.len() + 1,
        skip_ws(src, i) >= src.len(),
    ensures
        parse_at(src, i).0 == Err::<JsonSpec, JsonParseError>(JsonParseError::UnexpectedEof),
{
}

proof fn lemma_skip_ws_bounds(src: Seq<u8>, i: int)
    ensures
        skip_ws(src, i) >= i,
        i <= src.len() ==> skip_ws(src, i) <= src.len(),
        i > src.len() ==> skip_ws(src, i) == i,
        0 <= skip_ws(src, i) < src.len() ==> !is_json_whitespace(src[skip_ws(src, i)]),
    decreases src.len() - i,
{
    if 0 <= i < src.len() && is_json_whitespace(src[i]) {
        lemma_skip_ws_bounds(src, i + 1);
    }
}

proof fn lemma_skip_ws_run(src: Seq<u8>, i: int, n: int)
    requires
        0 <= i,
        0 <= n,
        i + n <= src.len(),
        forall|k: int| i <= k < i + n ==> is_json_whitespace(#[trigger] src[k]),
        i + n < src.len() ==> !is_json_whitespace(src[i + n]),
    ensures
        skip_ws(src, i) == i + n,
    decreases n,
{
    if n > 0 {
        lemma_skip_ws_run(src, i + 1, n - 1);
    }
}

proof fn lemma_quote_run(src: Seq<u8>, j: int, n: int)
    requires
        0 <= j,
        0 <= n,
        j + n < src.len(),
        forall|k: int| j <= k < j + n ==> #[trigger] src[k] != 0x22,
        src[j + n] == 0x22,
    ensures
        quote_at_or_after(src, j) == Some(j + n),
    decreases n,
{
    if n > 0 {
        lemma_quote_run(src, j + 1, n - 1);
    }
}

proof fn lemma_digits_run(src: Seq<u8>, j: int, n: int)
    requires
        0 <= j,
        0 <= n,
        j + n < src.len(),
        forall|k: int| j <= k < j + n ==> is_ascii_digit(#[trigger] src[k]),
        !is_ascii_digit(src[j + n]),
    ensures
        digits_end(src, j) == j + n,
    decreases n,
{
    if n > 0 {
        lemma_digits_run(src, j + 1, n - 1);
    }
}

/// The text of an object with one entry whose value is a number: `{"key"` then `w1`, a colon,
/// `w2`, the digits and `}`.
pub open spec fn one_entry_object(key: Seq<u8>, w1: Seq<u8>, w2: Seq<u8>, digits: Seq<u8>) -> Seq<u8> {
    seq![0x7Bu8, 0x22u8] + key + seq![0x22u8] + w1 + seq![0x3Au8] + w2 + digits + seq![0x7Du8]
}

/// White space around the colon of an object entry changes nothing: for every key (without a
/// double quote, valid UTF-8), every run of spaces and newlines before and after the colon, and
/// every number, `{"key" <w1> : <w2> digits}` parses to the object with that one entry. So
/// `{"a" : 1}` parses as `{"a":1}` does.
pub proof fn lemma_object_entry_white_space(key: Seq<u8>, w1: Seq<u8>, w2: Seq<u8>, digits: Seq<u8>)
    requires
        forall|k: int| 0 <= k < key.len() ==> #[trigger] key[k] != 0x22,
        valid_utf8(key),
        forall|k: int| 0 <= k < w1.len() ==> is_json_whitespace(#[trigger] w1[k]),
        forall|k: int| 0 <= k < w2.len() ==> is_json_whitespace(#[trigger] w2[k]),
        digits.len() > 0,
        forall|k: int| 0 <= k < digits.len() ==> is_ascii_digit(#[trigger] digits[k]),
    ensures
        parse_at(one_entry_object(key, w1, w2, digits), 0).0 == Ok::<JsonSpec, JsonParseError>(
            JsonSpec::Object(seq![(key, JsonSpec::Number(digits))]),
        ),
{
    let src = one_entry_object(key, w1, w2, digits);
    let kl = key.len() as int;
    let a = w1.len() as int;
    let b = w2.len() as int;
    let d = digits.len() as int;
    let p = 4 + kl + a + b;
    assert(src.len() == p + d + 1);
    assert(src[0] == 0x7B);
    assert(src[1] == 0x22);
    assert forall|k: int| 2 <= k < 2 + kl implies #[trigger] src[k] != 0x22 by {
        assert(src[k] == key[k - 2]);
    }
    assert(src[2 + kl] == 0x22);
    assert forall|k: int| 3 + kl <= k < 3 + kl + a implies is_json_whitespace(#[trigger] src[k]) by {
        assert(src[k] == w1[k - 3 - kl]);
    }
    assert(src[3 + kl + a] == 0x3A);
    assert forall|k: int| 4 + kl + a <= k < p implies is_json_whitespace(#[trigger] src[k]) by {
        assert(src[k] == w2[k - 4 - kl - a]);
    }
    assert forall|k: int| p <= k < p + d implies is_ascii_digit(#[trigger] src[k]) by {
        assert(src[k] == digits[k - p]);
    }
    assert(src[p] == digits[0]);
    assert(src[p + d] == 0x7D);
    assert(src.subrange(2, 2 + kl) =~= key);
    assert(src.subrange(p, p + d) =~= digits);
    lemma_skip_ws_run(src, 0, 0);
    lemma_skip_ws_run(src, 1, 0);
    lemma_quote_run(src, 2, kl);
    lemma_skip_ws_run(src, 3 + kl, a);
    lemma_skip_ws_run(src, 4 + kl + a, b);
    lemma_digits_run(src, p + 1, d - 1);
    lemma_skip_ws_run(src, p + d, 0);
    let v = JsonSpec::Number(digits);
    assert(parse_at(src, 4 + kl + a) == (Ok::<JsonSpec, JsonParseError>(v), p + d));
    let acc = insert_entry(Seq::empty(), key, v);
    assert(acc =~= seq![(key, v)]);
    assert(object_entries(src, p + d, acc) == (Ok::<JsonSpec, JsonParseError>(JsonSpec::Object(acc)), p + d));
    assert(object_entries(src, 1, Seq::empty()) == object_entries(src, p + d, acc));
}

/// A number after white space parses to its digits, wherever the digits end: `w` then the
/// digits then anything that does not start with a digit.
pub proof fn lemma_number_after_white_space(w: Seq<u8>, digits: Seq<u8>, rest: Seq<u8>)
    requires
        forall|k: int| 0 <= k < w.len() ==> is_json_whitespace(#[trigger] w[k]),
        digits.len() > 0,
        forall|k: int| 0 <= k < digits.len() ==> is_ascii_digit(#[trigger] digits[k]),
        rest.len() > 0,
        !is_ascii_digit(rest[0]),
    ensures
        parse_at(w + digits + rest, 0) == (Ok::<JsonSpec, JsonParseError>(JsonSpec::Number(digits)), (w.len() + digits.len()) as int),
{
    let src = w + digits + rest;
    let a = w.len() as int;
    let d = digits.len() as int;
    assert forall|k: int| 0 <= k < a implies is_json_whitespace(#[trigger] src[k]) by {
        assert(src[k] == w[k]);
    }
    assert forall|k: int| a <= k < a + d implies is_ascii_digit(#[trigger] src[k]) by {
        assert(src[k] == digits[k - a]);
    }
    assert(src[a] == digits[0]);
    assert(src[a + d] == rest[0]);
    assert(src.subrange(a, a + d) =~= digits);
    lemma_skip_ws_run(src, 0, a);
    lemma_digits_run(src, a + 1, d - 1);
}

/// A string after white space parses to the bytes between its quotes, when they are valid UTF-8
/// and hold no quote.
pub proof fn lemma_string_after_white_space(w: Seq<u8>, body: Seq<u8>)
    requires
        forall|k: int| 0 <= k < w.len() ==> is_json_whitespace(#[trigger] w[k]),
        forall|k: int| 0 <= k < body.len() ==> #[trigger] body[k] != 0x22,
        valid_utf8(body),
    ensures
        parse_at(w + seq![0x22u8] + body + seq![0x22u8], 0) == (Ok::<JsonSpec, JsonParseError>(JsonSpec::String(body)), (w.len() + body.len() + 2) as int),
{
    let src = w + seq![0x22u8] + body + seq![0x22u8];
    let a = w.len() as int;
    let n = body.len() as int;
    assert forall|k: int| 0 <= k < a implies is_json_whitespace(#[trigger] src[k]) by {
        assert(src[k] == w[k]);
    }
    assert(src[a] == 0x22);
    assert forall|k: int| a + 1 <= k < a + 1 + n implies #[trigger] src[k] != 0x22 by {
        assert(src[k] == body[k - a - 1]);
    }
    assert(src[a + 1 + n] == 0x22);
    assert(src.subrange(a + 1, a + 1 + n) =~= body);
    lemma_skip_ws_run(src, 0, a);
    lemma_quote_run(src, a + 1, n);
}

/// The text of an array of two numbers, with white space around every item and separator.
pub open spec fn two_number_array(w0: Seq<u8>, d1: Seq<u8>, w1: Seq<u8>, w2: Seq<u8>, d2: Seq<u8>, w3: Seq<u8>) -> Seq<u8> {
    seq![0x5Bu8] + w0 + d1 + w1 + seq![0x2Cu8] + w2 + d2 + w3 + seq![0x5Du8]
}

/// White space around the items and the comma of an array changes nothing: `[ d1 , d2 ]` with
/// any runs of spaces and newlines parses to the array of the two numbers.
pub proof fn lemma_array_white_space(w0: Seq<u8>, d1: Seq<u8>, w1: Seq<u8>, w2: Seq<u8>, d2: Seq<u8>, w3: Seq<u8>)
    requires
        forall|k: int| 0 <= k < w0.len() ==> is_json_whitespace(#[trigger] w0[k]),
        forall|k: int| 0 <= k < w1.len() ==> is_json_whitespace(#[trigger] w1[k]),
        forall|k: int| 0 <= k < w2.len() ==> is_json_whitespace(#[trigger] w2[k]),
        forall|k: int| 0 <= k < w3.len() ==> is_json_whitespace(#[trigger] w3[k]),
        d1.len() > 0,
        forall|k: int| 0 <= k < d1.len() ==> is_ascii_digit(#[trigger] d1[k]),
        d2.len() > 0,
        forall|k: int| 0 <= k < d2.len() ==> is_ascii_digit(#[trigger] d2[k]),
    ensures
        parse_at(two_number_array(w0, d1, w1, w2, d2, w3), 0).0 == Ok::<JsonSpec, JsonParseError>(
            JsonSpec::Array(seq![JsonSpec::Number(d1), JsonSpec::Number(d2)]),
        ),
{
    let src = two_number_array(w0, d1, w1, w2, d2, w3);
    let a = w0.len() as int;
    let e1 = d1.len() as int;
    let b = w1.len() as int;
    let c2 = w2.len() as int;
    let e2 = d2.len() as int;
    let e = w3.len() as int;
    let p1 = 1 + a;
    let q1 = p1 + e1;
    let c = q1 + b;
    let p2 = c + 1 + c2;
    let q2 = p2 + e2;
    let r = q2 + e;
    assert(src.len() == r + 1);
    assert(src[0] == 0x5B);
    assert forall|k: int| 1 <= k < p1 implies is_json_whitespace(#[trigger] src[k]) by {
        assert(src[k] == w0[k - 1]);
    }
    assert forall|k: int| p1 <= k < q1 implies is_ascii_digit(#[trigger] src[k]) by {
        assert(src[k] == d1[k - p1]);
    }
    assert forall|k: int| q1 <= k < c implies is_json_whitespace(#[trigger] src[k]) by {
        assert(src[k] == w1[k - q1]);
    }
    assert(src[c] == 0x2C);
    assert forall|k: int| c + 1 <= k < p2 implies is_json_whitespace(#[trigger] src[k]) by {
        assert(src[k] == w2[k - c - 1]);
    }
    assert forall|k: int| p2 <= k < q2 implies is_ascii_digit(#[trigger] src[k]) by {
        assert(src[k] == d2[k - p2]);
    }
    assert forall|k: int| q2 <= k < r implies is_json_whitespace(#[trigger] src[k]) by {
        assert(src[k] == w3[k - q2]);
    }
    assert(src[r] == 0x5D);
    assert(src[p1] == d1[0]);
    assert(src[p2] == d2[0]);
    assert(src.subrange(p1, q1) =~= d1);
    assert(src.subrange(p2, q2) =~= d2);
    lemma_skip_ws_run(src, 0, 0);
    lemma_skip_ws_run(src, 1, a);
    lemma_skip_ws_run(src, p1, 0);
    lemma_digits_run(src, p1 + 1, e1 - 1);
    lemma_skip_ws_run(src, q1, b);
    lemma_skip_ws_run(src, c + 1, c2);
    lemma_digits_run(src, p2 + 1, e2 - 1);
    lemma_skip_ws_run(src, q2, e);
    let v1 = JsonSpec::Number(d1);
    let v2 = JsonSpec::Number(d2);
    assert(parse_at(src, p1) == (Ok::<JsonSpec, JsonParseError>(v1), q1));
    assert(parse_at(src, c + 1) == (Ok::<JsonSpec, JsonParseError>(v2), q2));
    let acc2 = seq![v1].push(v2);
    assert(array_items(src, q2, acc2) == (Ok::<JsonSpec, JsonParseError>(JsonSpec::Array(acc2)), r + 1));
    assert(array_items(src, q1, seq![v1]) == array_items(src, q2, acc2));
    assert(Seq::<JsonSpec>::empty().push(v1) =~= seq![v1]);
    assert(array_items(src, 1, Seq::empty()) == array_items(src, q1, seq![v1]));
    assert(acc2 =~= seq![v1, v2]);
}

proof fn lemma_quote_bounds(src: Seq<u8>, j: int)
    ensures
        quote_at_or_after(src, j) matches Some(e) ==> j <= e < src.len() && src[e] == 0x22,
    decreases src.len() - j,
{
    if 0 <= j < src.len() && src[j] != 0x22 {
        lemma_quote_bounds(src, j + 1);
    }
}

proof fn lemma_digits_end_bounds(src: Seq<u8>, j: int)
    ensures
        digits_end(src, j) >= j,
        j <= src.len() ==> digits_end(src, j) <= src.len(),
    decreases src.len() - j,
{
    if 0 <= j < src.len() && is_ascii_digit(src[j]) {
        lemma_digits_end_bounds(src, j + 1);
    }
}

/// The mathematical values of a list of parsed values.
pub open spec fn views(v: Seq<JsonValue>) -> Seq<JsonSpec> {
    v.map_values(|x: JsonValue| x@)
}

/// The mathematical values of a list of parsed object entries.
pub open spec fn entry_views(v: Seq<(Vec<u8>, JsonValue)>) -> Seq<(Seq<u8>, JsonSpec)> {
    v.map_values(|e: (Vec<u8>, JsonValue)| (e.0@, e.1@))
}

/// Calls `std::str::from_utf8` and tells whether it accepted the bytes, which it does exactly when
/// they are valid UTF-8.
#[verifier::external_body]
fn is_valid_utf8(bytes: &[u8]) -> (r: bool)
    ensures
        r == valid_utf8(bytes@),
{
    std::str::from_utf8(bytes).is_ok()
}

fn bytes_eq(a: &[u8], b: &[u8]) -> (r: bool)
    ensures
        r == (a@ == b@),
{
    if a.len() != b.len() {
        return false;
    }
    let mut i: usize = 0;
    while i < a.len()
        invariant
            a@.len() == b@.len(),
            i <= a@.len(),
            forall|k: int| 0 <= k < i ==> a@[k] == b@[k],
        decreases a@.len() - i,
    {
        if a[i] != b[i] {
            return false;
        }
        i = i + 1;
    }
    assert(a@ =~= b@);
    true
}

/// Sets `key` to `value` among the entries: the value of an existing key is replaced where it
/// stands, a new key is added at the end.
fn insert_entry_vec(entries: &mut Vec<(Vec<u8>, JsonValue)>, key: Vec<u8>, value: JsonValue)
    ensures
        entry_views(final(entries)@) == insert_entry(entry_views(old(entries)@), key@, value@),
{
    let ghost ev = entry_views(entries@);
    let mut i: usize = 0;
    while i < entries.len()
        invariant
            i <= entries@.len(),
            ev == entry_views(entries@),
            entries@ == old(entries)@,
            find_key(ev.subrange(0, i as int), key@) is None,
        decreases entries@.len() - i,
    {
        if bytes_eq(entries[i].0.as_slice(), key.as_slice()) {
            proof {
                assert(ev.subrange(0, i + 1).drop_last() == ev.subrange(0, i as int));
                assert(find_key(ev.subrange(0, i + 1), key@) == Some(i as int));
                lemma_find_key_prefix(ev, key@, i + 1);
            }
            entries.set(i, (key, value));
            assert(entry_views(entries@) =~= ev.update(i as int, (key@, value@)));
            return;
        }
        proof {
            assert(ev.subrange(0, i + 1).drop_last() == ev.subrange(0, i as int));
        }
        i = i + 1;
    }
    proof {
        assert(ev.subrange(0, ev.len() as int) == ev);
    }
    entries.push((key, value));
    assert(entry_views(entries@) =~= ev.push((key@, value@)));
}

/// A first match within a prefix is the first match of the whole list.
proof fn lemma_find_key_prefix(entries: Seq<(Seq<u8>, JsonSpec)>, k: Seq<u8>, n: int)
    requires
        0 <= n <= entries.len(),
        find_key(entries.subrange(0, n), k) is Some,
    ensures
        find_key(entries, k) == find_key(entries.subrange(0, n), k),
    decreases entries.len() - n,
{
    if n < entries.len() {
        assert(entries.subrange(0, n + 1).drop_last() == entries.subrange(0, n));
        lemma_find_key_prefix(entries, k, n + 1);
    } else {
        assert(entries.subrange(0, n) == entries);
    }
}

/// A tiny, zero-copy JSON parser over the bytes of its input.
pub struct Parser<'a> {
    source: &'a [u8],
    idx: usize,
}

impl<'a> Parser<'a> {
    /// The input.
    pub closed spec fn src(&self) -> Seq<u8> {
        self.source@
    }

    /// The current offset in the input.
    pub closed spec fn pos(&self) -> int {
        self.idx as int
    }

    /// The offset stays within one past the end, and offsets never overflow.
    pub open spec fn wf(&self) -> bool {
        &&& self.pos() <= self.src().len() + 1
        &&& self.src().len() + 3 <= usize::MAX
    }

    /// Creates a new JSON parser
    pub fn new(source: &'a [u8]) -> (r: Self)
        requires
            source@.len() + 3 <= usize::MAX,
        ensures
            r.wf(),
            r.src() == source@,
            r.pos() == 0,
    {
        Parser { source, idx: 0 }
    }

    /// Returns the current byte, if present
    fn current(&self) -> (r: Option<u8>)
        ensures
            0 <= self.pos() < self.src().len() ==> r == Some(self.src()[self.pos()]),
            !(0 <= self.pos() < self.src().len()) ==> r is None,
    {
        if self.idx < self.source.len() {
            Some(self.source[self.idx])
        } else {
            None
        }
    }

    /// Skips any unnecessary tokens, such as whitespaces and returns the next relevant byte
    fn skip_to_relevant_token(&mut self) -> (r: Option<u8>)
        requires
            old(self).wf(),
        ensures
            final(self).wf(),
            final(self).src() == old(self).src(),
            final(self).pos() == skip_ws(old(self).src(), old(self).pos()),
            0 <= final(self).pos() < final(self).src().len() ==> r == Some(final(self).src()[final(self).pos()]),
            !(0 <= final(self).pos() < final(self).src().len()) ==> r is None,
    {
        self.skip_whitespaces();
        self.current()
    }

    /// Moves one byte on and returns the byte there, if present
    fn next(&mut self) -> (r: Option<u8>)
        requires
            old(self).pos() + 1 <= old(self).src().len() + 1,
            old(self).src().len() + 3 <= usize::MAX,
        ensures
            final(self).src() == old(self).src(),
            final(self).pos() == old(self).pos() + 1,
            0 <= final(self).pos() < final(self).src().len() ==> r == Some(final(self).src()[final(self).pos()]),
            !(0 <= final(self).pos() < final(self).src().len()) ==> r is None,
    {
        self.idx = self.idx + 1;
        self.current()
    }

    /// Reads a string literal starting at the current position: the bytes after the current one up
    /// to the next double quote.
    fn read_string_literal(&mut self) -> (r: Result<&'a [u8], JsonParseError>)
        requires
            old(self).wf(),
            old(self).pos() <= old(self).src().len(),
        ensures
            final(self).wf(),
            final(self).src() == old(self).src(),
            match quote_at_or_after(old(self).src(), old(self).pos() + 1) {
                Some(e) => r is Ok && r->Ok_0@ == old(self).src().subrange(old(self).pos() + 1, e)
                    && final(self).pos() == e + 1,
                None => r == Err::<&[u8], JsonParseError>(JsonParseError::UnexpectedEof),
            },
    {
        let start = self.idx + 1;
        let ghost src = self.src();
        let n = self.source.len();
        let mut i = start;
        while i < n && self.source[i] != 0x22
            invariant
                n == src.len(),
                src == self.src(),
                start <= i <= n + 1,
                quote_at_or_after(src, start as int) == quote_at_or_after(src, i as int),
            decreases n - i,
        {
            i = i + 1;
        }
        if i < n {
            assert(quote_at_or_after(src, i as int) == Some(i as int));
            self.idx = i + 1;
            Ok(slice_subrange(self.source, start, i))
        } else {
            assert(quote_at_or_after(src, i as int) is None);
            self.idx = i;
            Err(JsonParseError::UnexpectedEof)
        }
    }

    /// Reads a number literal at the current position: the current digit and the digits after it.
    /// (A point or an exponent ends the literal, as any other non-digit does.)
    fn read_number_literal(&mut self) -> (r: Result<&'a [u8], JsonParseError>)
        requires
            old(self).wf(),
            old(self).pos() < old(self).src().len(),
        ensures
            final(self).wf(),
            final(self).src() == old(self).src(),
            r is Ok,
            r->Ok_0@ == old(self).src().subrange(old(self).pos(), digits_end(old(self).src(), old(self).pos() + 1)),
            final(self).pos() == digits_end(old(self).src(), old(self).pos() + 1),
    {
        let start = self.idx;
        let ghost src = self.src();
        let n = self.source.len();
        let mut has_point = false;
        let mut has_expo = false;
        let mut i = start + 1;
        let mut done = false;
        while !done && i < n
            invariant
                n == src.len(),
                src == self.src(),
                start < i <= n,
                !done ==> digits_end(src, start + 1) == digits_end(src, i as int),
                done ==> digits_end(src, start + 1) == i,
                !has_point,
                !has_expo,
            decreases n - i, (if done { 0int } else { 1int }),
        {
            let cur = self.source[i];
            if cur == 0x2E {
                if has_point {
                    // A second point cannot be reached: the first one ends the literal.
                } else {
                    has_point = true;
                }
            } else if cur == 0x65 {
                if has_expo {
                } else {
                    has_expo = true;
                }
            }
            if !(0x30 <= cur && cur <= 0x39) {
                assert(digits_end(src, i as int) == i);
                done = true;
                has_point = false;
                has_expo = false;
            } else {
                i = i + 1;
            }
        }
        if !done {
            assert(digits_end(src, i as int) == i);
        }
        self.idx = i;
        Ok(slice_subrange(self.source, start, i))
    }

    /// Skips any whitespace token
    pub fn skip_whitespaces(&mut self)
        requires
            old(self).wf(),
        ensures
            final(self).wf(),
            final(self).src() == old(self).src(),
            final(self).pos() == skip_ws(old(self).src(), old(self).pos()),
    {
        let ghost src = self.src();
        let n = self.source.len();
        let mut i = self.idx;
        while i < n && (self.source[i] == 0x20 || self.source[i] == 0x0A)
            invariant
                n == src.len(),
                src == self.src(),
                old(self).pos() <= i <= n + 1,
                skip_ws(src, old(self).pos()) == skip_ws(src, i as int),
            decreases n + 1 - i,
        {
            i = i + 1;
        }
        assert(skip_ws(src, i as int) == i);
        self.idx = i;
    }

    /// Parses the value at the current position.
    ///
    /// Any more calls will fail because the index will have reached the end of the value
    pub fn parse(&mut self) -> (r: Result<JsonValue, JsonParseError>)
        requires
            old(self).wf(),
        ensures
            final(self).wf(),
            final(self).src() == old(self).src(),
            parse_at(old(self).src(), old(self).pos()).0 == match r {
                Ok(v) => Ok::<JsonSpec, JsonParseError>(v@),
                Err(e) => Err::<JsonSpec, JsonParseError>(e),
            },
            r is Ok ==> final(self).pos() == parse_at(old(self).src(), old(self).pos()).1
                && old(self).pos() < final(self).pos(),
    {
        let (r, idx) = parse_value(self.source, self.idx);
        self.idx = idx;
        r
    }
}

/// Parses the value at offset `idx` of `source`: the result and the offset reached.
fn parse_value<'a>(source: &'a [u8], idx: usize) -> (r: (Result<JsonValue, JsonParseError>, usize))
    requires
        idx <= source@.len() + 1,
        source@.len() + 3 <= usize::MAX,
    ensures
        r.1 <= source@.len() + 1,
        parse_at(source@, idx as int).0 == match r.0 {
            Ok(v) => Ok::<JsonSpec, JsonParseError>(v@),
            Err(e) => Err::<JsonSpec, JsonParseError>(e),
        },
        r.0 is Ok ==> r.1 == parse_at(source@, idx as int).1 && idx < r.1,
    decreases source@.len() + 2 - idx,
{
    let ghost src = source@;
    let ghost i0 = idx as int;
    let mut p = Parser { source, idx };
    proof {
        lemma_skip_ws_bounds(src, i0);
    }
    p.skip_whitespaces();
    let cur = match p.current() {
        Some(c) => c,
        None => {
            return (Err(JsonParseError::UnexpectedEof), p.idx);
        },
    };
    let ghost j = p.pos();
    if cur == 0x5B {
        let mut arr: Vec<JsonValue> = Vec::new();
        p.idx = p.idx + 1;
        assert(views(arr@) =~= Seq::<JsonSpec>::empty());
        assert(parse_at(src, i0) == array_items(src, j + 1, Seq::empty()));
        loop
            invariant
                src == source@,
                i0 == idx as int,
                p.wf(),
                p.src() == src,
                i0 < p.pos(),
                array_items(src, p.pos(), views(arr@)) == parse_at(src, i0),
            decreases src.len() + 2 - p.pos(),
        {
            let ghost q = p.pos();
            proof {
                lemma_skip_ws_bounds(src, q);
            }
            let c = p.skip_to_relevant_token();
            match c {
                None => {
                    proof {
                        lemma_array_view(arr@);
                    }
                    return (Ok(JsonValue::Array(arr)), p.idx);
                },
                Some(c) => {
                    if c == 0x5D {
                        p.idx = p.idx + 1;
                        proof {
                            lemma_array_view(arr@);
                        }
                        return (Ok(JsonValue::Array(arr)), p.idx);
                    }
                    if c == 0x2C {
                        p.idx = p.idx + 1;
                    }
                    let (res, next) = parse_value(source, p.idx);
                    let v = match res {
                        Ok(v) => v,
                        Err(e) => {
                            return (Err(e), next);
                        },
                    };
                    let ghost before = views(arr@);
                    let ghost vv = v@;
                    arr.push(v);
                    assert(views(arr@) =~= before.push(vv));
                    p.idx = next;
                },
            }
        }
    } else if cur == 0x7B {
        let mut obj: Vec<(Vec<u8>, JsonValue)> = Vec::new();
        p.idx = p.idx + 1;
        assert(entry_views(obj@) =~= Seq::<(Seq<u8>, JsonSpec)>::empty());
        assert(parse_at(src, i0) == object_entries(src, j + 1, Seq::empty()));
        loop
            invariant
                src == source@,
                i0 == idx as int,
                p.wf(),
                p.src() == src,
                i0 < p.pos(),
                object_entries(src, p.pos(), entry_views(obj@)) == parse_at(src, i0),
            decreases src.len() + 2 - p.pos(),
        {
            let ghost q = p.pos();
            proof {
                lemma_skip_ws_bounds(src, q);
            }
            let c = p.skip_to_relevant_token();
            match c {
                None => {
                    proof {
                        lemma_object_view(obj@);
                    }
                    return (Ok(JsonValue::Object(obj)), p.idx);
                },
                Some(c) => {
                    if c == 0x7D {
                        proof {
                            lemma_object_view(obj@);
                        }
                        return (Ok(JsonValue::Object(obj)), p.idx);
                    }
                    if c == 0x2C {
                        p.idx = p.idx + 1;
                    }
                    let ghost k = p.pos();
                    proof {
                        lemma_skip_ws_bounds(src, k);
                    }
                    p.skip_whitespaces();
                    let ghost k0 = p.pos();
                    proof {
                        lemma_quote_bounds(src, k0 + 1);
                    }
                    let key = match p.read_string_literal() {
                        Ok(key) => key,
                        Err(e) => {
                            return (Err(e), p.idx);
                        },
                    };
                    if !is_valid_utf8(key) {
                        return (Err(JsonParseError::Utf8Error(p.idx)), p.idx);
                    }
                    let ghost k1 = p.pos();
                    proof {
                        lemma_skip_ws_bounds(src, k1);
                    }
                    p.skip_whitespaces();
                    p.idx = p.idx + 1;
                    let (res, next) = parse_value(source, p.idx);
                    let v = match res {
                        Ok(v) => v,
                        Err(e) => {
                            return (Err(e), next);
                        },
                    };
                    insert_entry_vec(&mut obj, slice_to_vec(key), v);
                    p.idx = next;
                },
            }
        }
    } else if cur == 0x22 {
        proof {
            lemma_quote_bounds(src, j + 1);
        }
        let lit = match p.read_string_literal() {
            Ok(lit) => lit,
            Err(e) => {
                return (Err(e), p.idx);
            },
        };
        if is_valid_utf8(lit) {
            (Ok(JsonValue::String(slice_to_vec(lit))), p.idx)
        } else {
            (Err(JsonParseError::Utf8Error(p.idx)), p.idx)
        }
    } else if 0x30 <= cur && cur <= 0x39 {
        proof {
            lemma_digits_end_bounds(src, j + 1);
        }
        let digits = match p.read_number_literal() {
            Ok(d) => d,
            Err(e) => {
                return (Err(e), p.idx);
            },
        };
        (Ok(JsonValue::Number(slice_to_vec(digits))), p.idx)
    } else {
        (Err(JsonParseError::UnexpectedToken(cur, p.idx)), p.idx)
    }
}

proof fn lemma_array_view(arr: Seq<JsonValue>)
    ensures
        forall|v: Vec<JsonValue>| v@ == arr ==> (#[trigger] JsonValue::Array(v)@) == JsonSpec::Array(views(arr)),
{
    assert forall|v: Vec<JsonValue>| v@ == arr implies (#[trigger] JsonValue::Array(v)@) == JsonSpec::Array(views(arr)) by {
        assert(JsonValue::Array(v)@->Array_0 =~= views(arr));
    }
}

proof fn lemma_object_view(entries: Seq<(Vec<u8>, JsonValue)>)
    ensures
        forall|v: Vec<(Vec<u8>, JsonValue)>| v@ == entries ==> (#[trigger] JsonValue::Object(v)@) == JsonSpec::Object(entry_views(entries)),
{
    assert forall|v: Vec<(Vec<u8>, JsonValue)>| v@ == entries implies (#[trigger] JsonValue::Object(v)@) == JsonSpec::Object(entry_views(entries)) by {
        assert(JsonValue::Object(v)@->Object_0 =~= entry_views(entries));
    }
}

} // verus!
