use vstd::prelude::*;
use vstd::string::*;
use vstd::slice::{slice_subrange, slice_to_vec};
use vstd::utf8::*;

use crate::js_std::{js_error, thrown, ErrorKind, JsError};

verus! {

/// Whether `needle` occurs in `hay` at byte offset `i`.
pub open spec fn occurs_at(hay: Seq<u8>, needle: Seq<u8>, i: int) -> bool {
    0 <= i && i + needle.len() <= hay.len() && hay.subrange(i, i + needle.len()) == needle
}

/// `r` is the first offset at or after `from` where `needle` occurs in `hay`, if there is one.
pub open spec fn is_first_occurrence_from(hay: Seq<u8>, needle: Seq<u8>, from: int, r: Option<usize>) -> bool {
    match r {
        Some(i) => from <= i && occurs_at(hay, needle, i as int)
            && forall|j: int| from <= j < i ==> !occurs_at(hay, needle, j),
        None => forall|j: int| from <= j ==> !occurs_at(hay, needle, j),
    }
}

/// `r` is the last offset where `needle` occurs in `hay`, if there is one.
pub open spec fn is_last_occurrence(hay: Seq<u8>, needle: Seq<u8>, r: Option<usize>) -> bool {
    match r {
        Some(i) => occurs_at(hay, needle, i as int)
            && forall|j: int| i < j ==> !occurs_at(hay, needle, j),
        None => forall|j: int| !occurs_at(hay, needle, j),
    }
}

/// Whether `needle` occurs at `i`, checked byte by byte.
fn matches_at(hay: &[u8], needle: &[u8], i: usize) -> (r: bool)
    requires
        i + needle@.len() <= hay@.len(),
    ensures
        r == occurs_at(hay@, needle@, i as int),
{
    let n = hay.len();
    let mut k: usize = 0;
    while k < needle.len()
        invariant
            k <= needle@.len(),
            n == hay@.len(),
            i + needle@.len() <= hay@.len(),
            forall|m: int| 0 <= m < k ==> hay@[i + m] == needle@[m],
        decreases needle@.len() - k,
    {
        if hay[i + k] != needle[k] {
            assert(hay@.subrange(i as int, i + needle@.len())[k as int] != needle@[k as int]);
            return false;
        }
        k = k + 1;
    }
    assert(hay@.subrange(i as int, i + needle@.len()) =~= needle@);
    true
}

/// The first offset at or after `from` where `needle` occurs in `hay`.
fn find_from(hay: &[u8], needle: &[u8], from: usize) -> (r: Option<usize>)
    ensures
        is_first_occurrence_from(hay@, needle@, from as int, r),
{
    if needle.len() > hay.len() || from > hay.len() - needle.len() {
        return None;
    }
    let last = hay.len() - needle.len();
    let mut i = from;
    loop
        invariant
            from <= i <= last,
            last + needle@.len() == hay@.len(),
            forall|j: int| from <= j < i ==> !occurs_at(hay@, needle@, j),
        decreases last - i,
    {
        if matches_at(hay, needle, i) {
            return Some(i);
        }
        if i == last {
            return None;
        }
        i = i + 1;
    }
}

/// The last offset at which `needle` occurs entirely within the first `end` bytes of `hay`.
fn rfind_within(hay: &[u8], needle: &[u8], end: usize) -> (r: Option<usize>)
    requires
        end <= hay@.len(),
    ensures
        is_last_occurrence(hay@.subrange(0, end as int), needle@, r),
{
    let ghost h = hay@.subrange(0, end as int);
    if needle.len() > end {
        return None;
    }
    let mut i = end - needle.len();
    loop
        invariant
            i + needle@.len() <= end,
            end <= hay@.len(),
            h == hay@.subrange(0, end as int),
            forall|j: int| i < j ==> !occurs_at(h, needle@, j),
        decreases i,
    {
        let m = matches_at(hay, needle, i);
        assert(occurs_at(h, needle@, i as int) == occurs_at(hay@, needle@, i as int)) by {
            assert(h.subrange(i as int, i + needle@.len()) =~= hay@.subrange(i as int, i + needle@.len()));
        }
        if m {
            return Some(i);
        }
        if i == 0 {
            return None;
        }
        i = i - 1;
    }
}

/// The byte `c` as a character (code point `c`), encoded in UTF-8.
pub open spec fn latin1_char_bytes(c: u8) -> Seq<u8> {
    if c < 0x80 {
        seq![c]
    } else {
        seq![(0xC0 + c / 64) as u8, (0x80 + c % 64) as u8]
    }
}

/// The character whose code point is the byte at `index`, if the string has a byte there.
/// (The index counts bytes, not characters.)
pub fn char_at(this: &str, index: usize) -> (r: Option<Vec<u8>>)
    ensures
        index < this.spec_bytes().len() ==> r is Some && r->0@ == latin1_char_bytes(this.spec_bytes()[index as int]),
        index >= this.spec_bytes().len() ==> r is None,
{
    let bytes = this.as_bytes();
    if index < bytes.len() {
        let c = bytes[index];
        let mut v: Vec<u8> = Vec::new();
        if c < 0x80 {
            v.push(c);
        } else {
            v.push(0xC0 + c / 64);
            v.push(0x80 + c % 64);
        }
        assert(v@ =~= latin1_char_bytes(c));
        Some(v)
    } else {
        None
    }
}

/// The byte at `index`, if the string has one. (The index counts bytes, not characters.)
pub fn char_code_at(this: &str, index: usize) -> (r: Option<u8>)
    ensures
        index < this.spec_bytes().len() ==> r == Some(this.spec_bytes()[index as int]),
        index >= this.spec_bytes().len() ==> r is None,
{
    let bytes = this.as_bytes();
    if index < bytes.len() {
        Some(bytes[index])
    } else {
        None
    }
}

/// Appends `bytes` to `out`.
pub(crate) fn append_bytes(out: &mut Vec<u8>, bytes: &[u8])
    ensures
        final(out)@ == old(out)@ + bytes@,
{
    let mut i: usize = 0;
    while i < bytes.len()
        invariant
            i <= bytes@.len(),
            out@ == old(out)@ + bytes@.subrange(0, i as int),
        decreases bytes@.len() - i,
    {
        out.push(bytes[i]);
        i = i + 1;
        assert(bytes@.subrange(0, i as int) == bytes@.subrange(0, i - 1).push(bytes@[i - 1]));
    }
    assert(bytes@.subrange(0, bytes@.len() as int) == bytes@);
}

/// The concatenation of the bytes of a list of strings.
pub open spec fn concat_all(args: Seq<String>) -> Seq<u8>
    decreases args.len(),
{
    if args.len() == 0 {
        Seq::empty()
    } else {
        concat_all(args.drop_last()) + encode_utf8(args.last()@)
    }
}

/// The text of the value `undefined` converted to a string.
pub open spec fn undefined_text() -> Seq<u8> {
    seq![0x75u8, 0x6e, 0x64, 0x65, 0x66, 0x69, 0x6e, 0x65, 0x64]
}

/// `this` followed by the arguments, each already converted to a string. Without any argument,
/// the text `undefined` is appended (the missing argument converts to it).
pub fn concat(this: &str, args: &[String]) -> (r: Vec<u8>)
    ensures
        args@.len() == 0 ==> r@ == this.spec_bytes() + undefined_text(),
        args@.len() > 0 ==> r@ == this.spec_bytes() + concat_all(args@),
{
    let mut out = slice_to_vec(this.as_bytes());
    if args.len() == 0 {
        let undefined: [u8; 9] = [0x75, 0x6e, 0x64, 0x65, 0x66, 0x69, 0x6e, 0x65, 0x64];
        append_bytes(&mut out, &undefined);
        assert(undefined@ =~= undefined_text());
        return out;
    }
    let mut i: usize = 0;
    while i < args.len()
        invariant
            i <= args@.len(),
            out@ == this.spec_bytes() + concat_all(args@.subrange(0, i as int)),
        decreases args@.len() - i,
    {
        append_bytes(&mut out, args[i].as_str().as_bytes());
        i = i + 1;
        assert(args@.subrange(0, i as int).drop_last() == args@.subrange(0, i - 1));
    }
    assert(args@.subrange(0, args@.len() as int) == args@);
    out
}

/// Whether the string ends with `other`.
pub fn ends_with(this: &str, other: &str) -> (r: bool)
    ensures
        r == (other.spec_bytes().len() <= this.spec_bytes().len() && occurs_at(this.spec_bytes(), other.spec_bytes(),
            this.spec_bytes().len() - other.spec_bytes().len())),
{
    let h = this.as_bytes();
    let n = other.as_bytes();
    if n.len() > h.len() {
        return false;
    }
    matches_at(h, n, h.len() - n.len())
}

/// Whether the string starts with `other`.
pub fn starts_with(this: &str, other: &str) -> (r: bool)
    ensures
        r == occurs_at(this.spec_bytes(), other.spec_bytes(), 0),
{
    let h = this.as_bytes();
    let n = other.as_bytes();
    if n.len() > h.len() {
        return false;
    }
    matches_at(h, n, 0)
}

/// Whether `other` occurs anywhere in the string.
pub fn includes(this: &str, other: &str) -> (r: bool)
    ensures
        r == exists|i: int| occurs_at(this.spec_bytes(), other.spec_bytes(), i),
{
    let found = find_from(this.as_bytes(), other.as_bytes(), 0);
    match found {
        Some(i) => true,
        None => {
            assert forall|i: int| !occurs_at(this.spec_bytes(), other.spec_bytes(), i) by {
                if i < 0 {
                }
            }
            false
        },
    }
}

/// The byte offset of the first occurrence of `other` at or after `start_index`; `None` stands for -1.
/// When `start_index` is past the end of the string or not at a character boundary, the search
/// runs in the empty string: an empty `other` is then found at `start_index` and anything else is not.
pub fn index_of(this: &str, other: &str, start_index: usize) -> (r: Option<usize>)
    ensures
        start_index <= this.spec_bytes().len() && is_char_boundary(this.spec_bytes(), start_index as int)
            ==> is_first_occurrence_from(this.spec_bytes(), other.spec_bytes(), start_index as int, r),
        !(start_index <= this.spec_bytes().len() && is_char_boundary(this.spec_bytes(), start_index as int))
            ==> r == (if other.spec_bytes().len() == 0 { Some(start_index) } else { None::<usize> }),
{
    let h = this.as_bytes();
    if start_index <= h.len() && this.is_char_boundary(start_index) {
        find_from(h, other.as_bytes(), start_index)
    } else if other.as_bytes().len() == 0 {
        Some(start_index)
    } else {
        None
    }
}

/// The byte offset of the last occurrence of `other` that ends within the first `from + 1` bytes
/// (`from` being the position argument, when given) or within the whole string (when not); `None`
/// stands for -1. When that prefix is longer than the string or does not end at a character
/// boundary, the whole string is searched.
pub fn last_index_of(this: &str, other: &str, from: Option<usize>) -> (r: Option<usize>)
    requires
        from matches Some(n) ==> n < usize::MAX,
    ensures
        ({
            let h = this.spec_bytes();
            let end = match from {
                Some(n) => n + 1,
                None => h.len() as int,
            };
            let limit = if end <= h.len() && is_char_boundary(h, end) { end } else { h.len() as int };
            is_last_occurrence(h.subrange(0, limit), other.spec_bytes(), r)
        }),
{
    let h = this.as_bytes();
    let end_index = match from {
        Some(n) => n + 1,
        None => h.len(),
    };
    let limit = if end_index <= h.len() && this.is_char_boundary(end_index) {
        end_index
    } else {
        h.len()
    };
    rfind_within(h, other.as_bytes(), limit)
}

/// `count` copies of `bytes`.
pub open spec fn repeat_bytes(bytes: Seq<u8>, count: nat) -> Seq<u8>
    decreases count,
{
    if count == 0 {
        Seq::empty()
    } else {
        repeat_bytes(bytes, (count - 1) as nat) + bytes
    }
}

proof fn lemma_repeat_len(bytes: Seq<u8>, count: nat)
    ensures
        repeat_bytes(bytes, count).len() == bytes.len() * count,
    decreases count,
{
    if count > 0 {
        lemma_repeat_len(bytes, (count - 1) as nat);
        let c1 = (count - 1) as nat;
        assert(repeat_bytes(bytes, count).len() == repeat_bytes(bytes, c1).len() + bytes.len());
        vstd::arithmetic::mul::lemma_mul_is_distributive_add(bytes.len() as int, c1 as int, 1);
    } else {
        vstd::arithmetic::mul::lemma_mul_basics(bytes.len() as int);
    }
}

/// `count` copies of `bytes`, built in a fresh vector.
fn repeat_vec(bytes: &[u8], count: usize) -> (r: Vec<u8>)
    requires
        bytes@.len() * count <= usize::MAX,
    ensures
        r@ == repeat_bytes(bytes@, count as nat),
{
    let mut out: Vec<u8> = Vec::new();
    let mut i: usize = 0;
    while i < count
        invariant
            i <= count,
            out@ == repeat_bytes(bytes@, i as nat),
        decreases count - i,
    {
        append_bytes(&mut out, bytes);
        i = i + 1;
    }
    out
}

/// The bytes of an optional string.
pub open spec fn opt_bytes(s: Option<&str>) -> Option<Seq<u8>> {
    match s {
        Some(f) => Some(f.spec_bytes()),
        None => None,
    }
}

/// Where padding goes.
pub enum PadPlacement {
    Start,
    End,
}

/// The first `n` bytes of `f` repeated without end: byte `i` is byte `i mod |f|` of `f`.
pub open spec fn cycled(f: Seq<u8>, n: nat) -> Seq<u8>
    recommends
        f.len() > 0,
{
    Seq::new(n, |i: int| f[i % (f.len() as int)])
}

/// `n` bytes of the filler repeated and cut off where the count is reached.
fn cycled_vec(f: &[u8], n: usize) -> (r: Vec<u8>)
    requires
        f@.len() > 0,
    ensures
        r@ == cycled(f@, n as nat),
{
    let mut out: Vec<u8> = Vec::new();
    let mut i: usize = 0;
    let mut j: usize = 0;
    let ghost mut q: int = 0;
    while i < n
        invariant
            i <= n,
            j < f@.len(),
            0 <= q,
            i == q * f@.len() + j,
            out@ == cycled(f@, i as nat),
        decreases n - i,
    {
        proof {
            vstd::arithmetic::div_mod::lemma_fundamental_div_mod_converse(
                i as int,
                f@.len() as int,
                q,
                j as int,
            );
        }
        out.push(f[j]);
        i = i + 1;
        if j + 1 == f.len() {
            j = 0;
            proof {
                let d = f@.len() as int;
                assert((q + 1) * d == q * d + d) by (nonlinear_arith);
                q = q + 1;
            }
        } else {
            j = j + 1;
        }
        assert(out@ == cycled(f@, i as nat));
    }
    out
}

/// The padded string: unchanged if it is already `max_length` bytes or longer, or if the filler is
/// empty; otherwise the filler (a space when there is none) repeated and cut to the
/// `max_length - |s|` missing bytes, put before or after the string.
pub open spec fn padded(s: Seq<u8>, max_length: int, filler: Option<Seq<u8>>, start: bool) -> Seq<u8> {
    let f = match filler {
        Some(f) => f,
        None => seq![0x20u8],
    };
    if max_length <= s.len() || f.len() == 0 {
        s
    } else {
        let fill = cycled(f, (max_length - s.len()) as nat);
        if start {
            fill + s
        } else {
            s + fill
        }
    }
}

/// What padding gives, for a filler that is not empty (or none, a space): a string already at
/// least `m` bytes long comes back as it is; otherwise the result is exactly `m` bytes, with the
/// string kept at the end (`padStart`) or the start (`padEnd`); the filler comes first in the
/// padding, cut off where the padding ends when it is longer; and padding to one more byte only
/// adds a byte to the padding.
pub proof fn lemma_pad_laws(s: Seq<u8>, m: int, filler: Option<Seq<u8>>, start: bool)
    requires
        filler matches Some(f) ==> f.len() > 0,
    ensures
        m <= s.len() ==> padded(s, m, filler, start) == s,
        m > s.len() ==> padded(s, m, filler, start).len() == m,
        m > s.len() && start ==> padded(s, m, filler, true).subrange(m - s.len(), m) == s,
        m > s.len() && !start ==> padded(s, m, filler, false).subrange(0, s.len() as int) == s,
        m > s.len() && (filler matches Some(f) && m - s.len() <= f.len()) ==> padded(s, m, filler, true)
            == filler->Some_0.subrange(0, m - s.len()) + s,
        m >= s.len() ==> padded(s, m + 1, filler, false).subrange(0, m) == padded(s, m, filler, false),
{
    let f = match filler {
        Some(f) => f,
        None => seq![0x20u8],
    };
    if m > s.len() {
        let n = (m - s.len()) as nat;
        let p = padded(s, m, filler, start);
        if filler is Some && m - s.len() <= f.len() {
            assert forall|i: int| 0 <= i < n implies #[trigger] cycled(f, n)[i] == f[i] by {
                vstd::arithmetic::div_mod::lemma_small_mod(i as nat, f.len());
            }
            assert(cycled(f, n) =~= f.subrange(0, n as int));
        }
        if start {
            assert(p.subrange(m - s.len(), m) =~= s);
        } else {
            assert(p.subrange(0, s.len() as int) =~= s);
        }
    }
    if m >= s.len() {
        let a = padded(s, m + 1, filler, false);
        let b = padded(s, m, filler, false);
        assert(a.subrange(0, m) =~= b);
    }
}

fn string_pad(this: &str, max_length: usize, filler: Option<&str>, placement: PadPlacement) -> (r: Vec<u8>)
    ensures
        r@ == padded(this.spec_bytes(), max_length as int, opt_bytes(filler), placement is Start),
{
    let s = this.as_bytes();
    let string_length = s.len();
    if max_length <= string_length {
        return slice_to_vec(s);
    }
    let space: [u8; 1] = [0x20];
    let filler_bytes: &[u8] = match filler {
        Some(f) => f.as_bytes(),
        None => &space,
    };
    assert(filler_bytes@ == (match opt_bytes(filler) {
        Some(f) => f,
        None => seq![0x20u8],
    }));
    if filler_bytes.len() == 0 {
        return slice_to_vec(s);
    }
    let fill_len = max_length - string_length;
    let truncated_string_filler = cycled_vec(filler_bytes, fill_len);
    match placement {
        PadPlacement::Start => {
            let mut out = truncated_string_filler;
            append_bytes(&mut out, s);
            out
        },
        PadPlacement::End => {
            let mut out = slice_to_vec(s);
            append_bytes(&mut out, truncated_string_filler.as_slice());
            out
        },
    }
}

/// Pads the end of the string up to `max_length` bytes.
pub fn pad_end(this: &str, max_length: usize, filler: Option<&str>) -> (r: Vec<u8>)
    ensures
        r@ == padded(this.spec_bytes(), max_length as int, opt_bytes(filler), false),
{
    string_pad(this, max_length, filler, PadPlacement::End)
}

/// Pads the start of the string up to `max_length` bytes.
pub fn pad_start(this: &str, max_length: usize, filler: Option<&str>) -> (r: Vec<u8>)
    ensures
        r@ == padded(this.spec_bytes(), max_length as int, opt_bytes(filler), true),
{
    string_pad(this, max_length, filler, PadPlacement::Start)
}

/// `count` copies of the string; a negative count is a `RangeError`.
pub fn repeat(this: &str, count: i64) -> (r: Result<Vec<u8>, JsError>)
    requires
        count >= 0 ==> this.spec_bytes().len() * count <= usize::MAX,
        count <= usize::MAX,
    ensures
        count < 0 ==> (r matches Err(e) && thrown(e, ErrorKind::RangeError, "Invalid count value"@)),
        count >= 0 ==> r is Ok && r->Ok_0@ == repeat_bytes(this.spec_bytes(), count as nat),
{
    if count < 0 {
        return Err(js_error(ErrorKind::RangeError, "Invalid count value"));
    }
    Ok(repeat_vec(this.as_bytes(), count as usize))
}

/// What `String::from_utf8_lossy` makes of a byte sequence: each invalid UTF-8 sequence is
/// replaced by U+FFFD.
pub uninterp spec fn utf8_lossy(bytes: Seq<u8>) -> Seq<u8>;

/// Calls `String::from_utf8_lossy` and returns the bytes of the result. The result is named by
/// `utf8_lossy`; beyond that, only what the documentation states is claimed: valid UTF-8 comes back
/// unchanged. How invalid sequences are replaced is left unsaid.
#[verifier::external_body]
fn from_utf8_lossy(bytes: &[u8]) -> (r: Vec<u8>)
    ensures
        r@ == utf8_lossy(bytes@),
        valid_utf8(bytes@) ==> r@ == bytes@,
{
    String::from_utf8_lossy(bytes).into_owned().into_bytes()
}

/// The bytes `start..end` of `bytes`, or nothing when that range is not within them.
pub open spec fn byte_range(bytes: Seq<u8>, start: int, end: int) -> Seq<u8> {
    if start <= end && end <= bytes.len() {
        bytes.subrange(start, end)
    } else {
        Seq::empty()
    }
}

fn get_range(bytes: &[u8], start: usize, end: usize) -> (r: &[u8])
    ensures
        r@ == byte_range(bytes@, start as int, end as int),
{
    if start <= end && end <= bytes.len() {
        slice_subrange(bytes, start, end)
    } else {
        let empty: &[u8] = &[];
        assert(empty@ =~= Seq::<u8>::empty());
        empty
    }
}

/// The start offset of `substr`: a negative start counts back from the byte length (with the length
/// taken as a 32-bit integer); the sum is then taken as an unsigned offset.
pub open spec fn substr_start(len: int, start: Option<i32>) -> int {
    match start {
        Some(num) => if num < 0 {
            (num + (len as i32)) as usize as int
        } else {
            num as usize as int
        },
        None => 0,
    }
}

/// The end offset of `substr`, before it is clipped to the length.
pub open spec fn substr_end(len: int, start: Option<i32>, length: Option<i32>) -> int {
    substr_start(len, start) + match length {
        Some(n) => n as usize as int,
        None => len,
    }
}

/// The bytes that `substr` takes from `h` (before it decodes them).
pub open spec fn substr_text(h: Seq<u8>, start: Option<i32>, length: Option<i32>) -> Seq<u8> {
    let end = substr_end(h.len() as int, start, length);
    let end = if end < h.len() { end } else { h.len() as int };
    byte_range(h, substr_start(h.len() as int, start), end)
}

/// What `substr` takes: `n` bytes from offset `s` when they lie within the string; as many as
/// there are up to the end when the length reaches past it, as if no length were given; a
/// negative start `-k` counts back from the end, as the start `len - k` does.
pub proof fn lemma_substr_laws(h: Seq<u8>, s: i32, n: i32, k: i32, length: Option<i32>)
    ensures
        0 <= s && 0 <= n && s + n <= h.len() ==> substr_text(h, Some(s), Some(n)) == h.subrange(s as int, s + n),
        0 <= s <= h.len() && 0 <= n && s + n >= h.len() ==> substr_text(h, Some(s), Some(n)) == substr_text(
            h,
            Some(s),
            None,
        ),
        0 <= s <= h.len() ==> substr_text(h, Some(s), None) == h.subrange(s as int, h.len() as int),
        0 < k <= h.len() <= i32::MAX ==> substr_text(h, Some((-k) as i32), length) == substr_text(h, Some((h.len() - k) as i32), length),
        substr_text(h, None, length) == substr_text(h, Some(0), length),
{
}

/// The part of the string from a start offset over a given length, in bytes; the bytes are then
/// decoded lossily.
pub fn substr(this: &str, start: Option<i32>, length: Option<i32>) -> (r: Vec<u8>)
    requires
        match start {
            Some(num) => num < 0 ==> i32::MIN <= num + (this.spec_bytes().len() as i32) <= i32::MAX,
            None => true,
        },
        substr_end(this.spec_bytes().len() as int, start, length) <= usize::MAX,
    ensures
        ({
            let h = this.spec_bytes();
            let end = substr_end(h.len() as int, start, length);
            let end = if end < h.len() { end } else { h.len() as int };
            let range = byte_range(h, substr_start(h.len() as int, start), end);
            &&& r@ == utf8_lossy(range)
            &&& valid_utf8(range) ==> r@ == range
        }),
{
    let bytes = this.as_bytes();
    let len = bytes.len();
    let start = match start {
        Some(num) => {
            if num < 0 {
                (num + len as i32) as usize
            } else {
                num as usize
            }
        },
        None => 0,
    };
    let end = match length {
        Some(n) => n as usize,
        None => len,
    };
    let end = start + end;
    let end = if end < len { end } else { len };
    from_utf8_lossy(get_range(bytes, start, end))
}

/// The offsets of `substring`: the start clipped below at zero, the end (taken as an unsigned
/// offset) clipped above at the length, then swapped if the start is the larger.
pub open spec fn substring_bounds(len: int, start: Option<i32>, end: Option<i32>) -> (int, int) {
    let s = match start {
        Some(n) => if n < 0 { 0 } else { n as int },
        None => 0,
    };
    let e = match end {
        Some(n) => if (n as usize as int) < len { n as usize as int } else { len },
        None => len,
    };
    if s > e { (e, s) } else { (s, e) }
}

/// The bytes that `substring` takes from `h` (before it decodes them).
pub open spec fn substring_text(h: Seq<u8>, start: Option<i32>, end: Option<i32>) -> Seq<u8> {
    let b = substring_bounds(h.len() as int, start, end);
    byte_range(h, b.0, b.1)
}

/// What `substring` takes: with both offsets within the string, the bytes between them, in
/// whichever order the offsets come; no start is offset 0; an end at or past the length (or
/// one that is negative, which as an unsigned size is past any length) is the length, as if no
/// end were given.
pub proof fn lemma_substring_laws(h: Seq<u8>, start: Option<i32>, a: i32, b: i32, n: i32)
    ensures
        0 <= a <= b <= h.len() ==> substring_text(h, Some(a), Some(b)) == h.subrange(a as int, b as int),
        0 <= a <= h.len() && 0 <= b <= h.len() ==> substring_text(h, Some(a), Some(b)) == substring_text(h, Some(b), Some(a)),
        substring_text(h, None, Some(b)) == substring_text(h, Some(0), Some(b)),
        n as usize >= h.len() ==> substring_text(h, start, Some(n)) == substring_text(h, start, None),
        substring_text(h, None, None) == h,
{
    assert(h.subrange(0, h.len() as int) =~= h);
}

/// The part of the string between two offsets, in bytes, decoded lossily.
pub fn substring(this: &str, start: Option<i32>, end: Option<i32>) -> (r: Vec<u8>)
    ensures
        ({
            let h = this.spec_bytes();
            let b = substring_bounds(h.len() as int, start, end);
            &&& r@ == utf8_lossy(byte_range(h, b.0, b.1))
            &&& valid_utf8(byte_range(h, b.0, b.1)) ==> r@ == byte_range(h, b.0, b.1)
        }),
{
    let bytes = this.as_bytes();
    let len = bytes.len();
    let mut start: usize = match start {
        Some(n) => if n < 0 { 0 } else { n as usize },
        None => 0,
    };
    let mut end: usize = match end {
        Some(n) => if (n as usize) < len { n as usize } else { len },
        None => len,
    };
    if start > end {
        let tmp = start;
        start = end;
        end = tmp;
    }
    from_utf8_lossy(get_range(bytes, start, end))
}

/// Whether a character has the Unicode `White_Space` property.
pub open spec fn is_white_space(c: char) -> bool {
    let u = c as u32;
    (0x9 <= u && u <= 0xD) || u == 0x20 || u == 0x85 || u == 0xA0 || u == 0x1680 || (0x2000 <= u && u <= 0x200A)
        || u == 0x2028 || u == 0x2029 || u == 0x202F || u == 0x205F || u == 0x3000
}

/// The characters without their leading white space.
pub open spec fn trim_start_chars(s: Seq<char>) -> Seq<char>
    decreases s.len(),
{
    if s.len() > 0 && is_white_space(s[0]) {
        trim_start_chars(s.drop_first())
    } else {
        s
    }
}

/// The characters without their trailing white space.
pub open spec fn trim_end_chars(s: Seq<char>) -> Seq<char>
    decreases s.len(),
{
    if s.len() > 0 && is_white_space(s.last()) {
        trim_end_chars(s.drop_last())
    } else {
        s
    }
}

/// What trimming the start does: it removes a run of white space at the start, all of it, and
/// nothing else; so trimming again changes nothing.
pub proof fn lemma_trim_start_laws(s: Seq<char>)
    ensures
        trim_start_chars(s).len() <= s.len(),
        trim_start_chars(s) == s.subrange(s.len() - trim_start_chars(s).len(), s.len() as int),
        forall|j: int| 0 <= j < s.len() - trim_start_chars(s).len() ==> is_white_space(#[trigger] s[j]),
        trim_start_chars(s).len() > 0 ==> !is_white_space(trim_start_chars(s)[0]),
        trim_start_chars(trim_start_chars(s)) == trim_start_chars(s),
    decreases s.len(),
{
    if s.len() > 0 && is_white_space(s[0]) {
        lemma_trim_start_laws(s.drop_first());
        let t = trim_start_chars(s.drop_first());
        assert(s.drop_first().subrange(s.len() - 1 - t.len(), s.len() - 1) =~= s.subrange(s.len() - t.len(), s.len() as int));
        assert forall|j: int| 0 <= j < s.len() - t.len() implies is_white_space(#[trigger] s[j]) by {
            if j > 0 {
                assert(s[j] == s.drop_first()[j - 1]);
            }
        }
    } else {
        assert(s.subrange(0, s.len() as int) =~= s);
    }
}

/// What trimming the end does: it removes a run of white space at the end, all of it, and
/// nothing else; so trimming again changes nothing.
pub proof fn lemma_trim_end_laws(s: Seq<char>)
    ensures
        trim_end_chars(s).len() <= s.len(),
        trim_end_chars(s) == s.subrange(0, trim_end_chars(s).len() as int),
        forall|j: int| trim_end_chars(s).len() <= j < s.len() ==> is_white_space(#[trigger] s[j]),
        trim_end_chars(s).len() > 0 ==> !is_white_space(trim_end_chars(s).last()),
        trim_end_chars(trim_end_chars(s)) == trim_end_chars(s),
    decreases s.len(),
{
    if s.len() > 0 && is_white_space(s.last()) {
        lemma_trim_end_laws(s.drop_last());
        let t = trim_end_chars(s.drop_last());
        assert(s.drop_last().subrange(0, t.len() as int) =~= s.subrange(0, t.len() as int));
        assert forall|j: int| t.len() <= j < s.len() implies is_white_space(#[trigger] s[j]) by {
            if j < s.len() - 1 {
                assert(s[j] == s.drop_last()[j]);
            }
        }
    } else {
        assert(s.subrange(0, s.len() as int) =~= s);
    }
}

/// Calls `str::trim_start`, which removes the leading characters with the `White_Space` property.
#[verifier::external_body]
fn std_trim_start(s: &str) -> (r: &str)
    ensures
        r@ == trim_start_chars(s@),
{
    s.trim_start()
}

/// Calls `str::trim_end`, which removes the trailing characters with the `White_Space` property.
#[verifier::external_body]
fn std_trim_end(s: &str) -> (r: &str)
    ensures
        r@ == trim_end_chars(s@),
{
    s.trim_end()
}

/// Calls `str::trim`, which removes the leading and trailing characters with the `White_Space` property.
#[verifier::external_body]
pub(crate) fn std_trim(s: &str) -> (r: &str)
    ensures
        r@ == trim_end_chars(trim_start_chars(s@)),
{
    s.trim()
}

/// The string without leading and trailing white space.
pub fn trim(this: &str) -> (r: Vec<u8>)
    ensures
        r@ == encode_utf8(trim_end_chars(trim_start_chars(this@))),
{
    slice_to_vec(std_trim(this).as_bytes())
}

/// The string without leading white space.
pub fn trim_start(this: &str) -> (r: Vec<u8>)
    ensures
        r@ == encode_utf8(trim_start_chars(this@)),
{
    slice_to_vec(std_trim_start(this).as_bytes())
}

/// The string without trailing white space.
pub fn trim_end(this: &str) -> (r: Vec<u8>)
    ensures
        r@ == encode_utf8(trim_end_chars(this@)),
{
    slice_to_vec(std_trim_end(this).as_bytes())
}

/// What `str::to_uppercase` makes of a string (Unicode uppercase mapping).
pub uninterp spec fn str_to_uppercase(s: Seq<char>) -> Seq<char>;

/// What `str::to_lowercase` makes of a string (Unicode lowercase mapping).
pub uninterp spec fn str_to_lowercase(s: Seq<char>) -> Seq<char>;

/// Calls `str::to_uppercase`; its result is named by `str_to_uppercase`, the Unicode mapping itself is not stated.
#[verifier::external_body]
fn std_to_uppercase(s: &str) -> (r: String)
    ensures
        r@ == str_to_uppercase(s@),
{
    s.to_uppercase()
}

/// Calls `str::to_lowercase`; its result is named by `str_to_lowercase`, the Unicode mapping itself is not stated.
#[verifier::external_body]
fn std_to_lowercase(s: &str) -> (r: String)
    ensures
        r@ == str_to_lowercase(s@),
{
    s.to_lowercase()
}

/// The string in upper case.
pub fn to_uppercase(this: &str) -> (r: Vec<u8>)
    ensures
        r@ == encode_utf8(str_to_uppercase(this@)),
{
    let s = std_to_uppercase(this);
    slice_to_vec(s.as_str().as_bytes())
}

/// The string in lower case.
pub fn to_lowercase(this: &str) -> (r: Vec<u8>)
    ensures
        r@ == encode_utf8(str_to_lowercase(this@)),
{
    let s = std_to_lowercase(this);
    slice_to_vec(s.as_str().as_bytes())
}

/// Whether `u` is a Unicode scalar value, that is, the code of a `char`.
pub open spec fn is_scalar_value(u: u32) -> bool {
    u < 0xD800 || (0xE000 <= u && u <= 0x10FFFF)
}

/// Calls `char::from_u32`, which gives the character with code `u` when `u` is a Unicode scalar value.
#[verifier::external_body]
fn char_from_u32(u: u32) -> (r: Option<char>)
    ensures
        is_scalar_value(u) ==> r == Some(u as char),
        !is_scalar_value(u) ==> r is None,
{
    char::from_u32(u)
}

/// The character with the given code (taken as unsigned), or U+FFFD when there is none.
pub fn from_char_code(code: i32) -> (r: char)
    ensures
        is_scalar_value(code as u32) ==> r == (code as u32) as char,
        !is_scalar_value(code as u32) ==> r == '\u{FFFD}',
{
    match char_from_u32(code as u32) {
        Some(c) => c,
        None => '\u{FFFD}',
    }
}

/// The characters of the string, in order.
pub fn iterator(this: &str) -> (r: Vec<char>)
    ensures
        r@ == this@,
{
    let mut out: Vec<char> = Vec::new();
    for c in it: this.chars()
        invariant
            it.seq() == this@,
            out@ == it.seq().take(it.index() as int),
    {
        out.push(c);
    }
    out
}

/// The first offset at or after `pos` where `needle` occurs in `hay`.
pub open spec fn first_occ(hay: Seq<u8>, needle: Seq<u8>, pos: int) -> Option<int>
    decreases hay.len() + 1 - pos,
{
    if pos < 0 || pos + needle.len() > hay.len() {
        None
    } else if occurs_at(hay, needle, pos) {
        Some(pos)
    } else {
        first_occ(hay, needle, pos + 1)
    }
}

proof fn lemma_first_occ(hay: Seq<u8>, needle: Seq<u8>, pos: int, r: Option<usize>)
    requires
        0 <= pos,
        is_first_occurrence_from(hay, needle, pos, r),
    ensures
        first_occ(hay, needle, pos) == match r {
            Some(i) => Some(i as int),
            None => None::<int>,
        },
    decreases hay.len() + 1 - pos,
{
    if pos + needle.len() > hay.len() {
        if let Some(i) = r {
            assert(occurs_at(hay, needle, i as int));
        }
    } else if occurs_at(hay, needle, pos) {
    } else {
        lemma_first_occ(hay, needle, pos + 1, r);
    }
}

/// Every non-overlapping occurrence of a non-empty `needle`, searched left to right from `pos`,
/// replaced by `rep`.
pub open spec fn replace_from(hay: Seq<u8>, needle: Seq<u8>, rep: Seq<u8>, pos: int) -> Seq<u8>
    decreases hay.len() - pos,
{
    if needle.len() == 0 || pos < 0 || pos > hay.len() {
        Seq::empty()
    } else {
        match first_occ(hay, needle, pos) {
            Some(i) => if i >= pos && i + needle.len() <= hay.len() {
                hay.subrange(pos, i) + rep + replace_from(hay, needle, rep, i + needle.len())
            } else {
                Seq::empty()
            },
            None => hay.subrange(pos, hay.len() as int),
        }
    }
}

/// `rep` inserted at every character boundary of `hay` from offset `i` on (the end included).
pub open spec fn insert_at_boundaries(hay: Seq<u8>, rep: Seq<u8>, i: int) -> Seq<u8>
    decreases hay.len() - i,
{
    if i < 0 || i > hay.len() {
        Seq::empty()
    } else {
        (if is_char_boundary(hay, i) { rep } else { Seq::empty() }) + (if i < hay.len() {
            seq![hay[i]] + insert_at_boundaries(hay, rep, i + 1)
        } else {
            Seq::empty()
        })
    }
}

/// The string with every occurrence of `search` replaced by `replacement`. An empty `search`
/// occurs at every character boundary.
pub fn replace_all(this: &str, search: &str, replacement: &str) -> (r: Vec<u8>)
    ensures
        search.spec_bytes().len() > 0 ==> r@ == replace_from(this.spec_bytes(), search.spec_bytes(), replacement.spec_bytes(), 0),
        search.spec_bytes().len() == 0 ==> r@ == insert_at_boundaries(this.spec_bytes(), replacement.spec_bytes(), 0),
{
    let h = this.as_bytes();
    let n = search.as_bytes();
    let rep = replacement.as_bytes();
    let mut out: Vec<u8> = Vec::new();
    if n.len() == 0 {
        let mut pieces: Vec<u8> = Vec::new();
        let mut k: usize = 0;
        loop
            invariant
                k <= h@.len(),
                n@.len() == 0,
                n@ == search.spec_bytes(),
                h@ == this.spec_bytes(),
                rep@ == replacement.spec_bytes(),
                pieces@ + insert_at_boundaries(h@, rep@, k as int) == insert_at_boundaries(h@, rep@, 0),
            decreases h@.len() + 1 - k,
        {
            if this.is_char_boundary(k) {
                append_bytes(&mut pieces, rep);
            }
            if k < h.len() {
                pieces.push(h[k]);
            }
            proof {
                assert(pieces@ + insert_at_boundaries(h@, rep@, k + 1) == insert_at_boundaries(h@, rep@, 0));
            }
            if k == h.len() {
                assert(insert_at_boundaries(h@, rep@, k + 1) =~= Seq::<u8>::empty());
                assert(pieces@ =~= insert_at_boundaries(h@, rep@, 0));
                return pieces;
            }
            k = k + 1;
        }
    }
    let hl = h.len();
    let mut pos: usize = 0;
    loop
        invariant
            hl == h@.len(),
            pos <= h@.len(),
            n@.len() > 0,
            h@ == this.spec_bytes(),
            n@ == search.spec_bytes(),
            rep@ == replacement.spec_bytes(),
            out@ + replace_from(h@, n@, rep@, pos as int) == replace_from(h@, n@, rep@, 0),
        decreases h@.len() - pos,
    {
        let found = find_from(h, n, pos);
        proof {
            lemma_first_occ(h@, n@, pos as int, found);
        }
        match found {
            Some(i) => {
                append_bytes(&mut out, get_range(h, pos, i));
                append_bytes(&mut out, rep);
                proof {
                    assert(out@ + replace_from(h@, n@, rep@, i + n@.len()) == replace_from(h@, n@, rep@, 0));
                }
                pos = i + n.len();
            },
            None => {
                append_bytes(&mut out, get_range(h, pos, h.len()));
                assert(out@ == replace_from(h@, n@, rep@, 0));
                return out;
            },
        }
    }
}

/// The pieces of `hay` from `pos` on, between the non-overlapping occurrences of a non-empty `sep`
/// found left to right.
pub open spec fn split_from(hay: Seq<u8>, sep: Seq<u8>, pos: int) -> Seq<Seq<u8>>
    decreases hay.len() - pos,
{
    if sep.len() == 0 || pos < 0 || pos > hay.len() {
        Seq::empty()
    } else {
        match first_occ(hay, sep, pos) {
            Some(i) => if i >= pos && i + sep.len() <= hay.len() {
                seq![hay.subrange(pos, i)] + split_from(hay, sep, i + sep.len())
            } else {
                Seq::empty()
            },
            None => seq![hay.subrange(pos, hay.len() as int)],
        }
    }
}

/// How many times `sep` occurs in `hay` from `pos` on, counted left to right without overlap.
pub open spec fn occurrences(hay: Seq<u8>, sep: Seq<u8>, pos: int) -> nat
    decreases hay.len() - pos,
{
    if sep.len() == 0 || pos < 0 || pos > hay.len() {
        0
    } else {
        match first_occ(hay, sep, pos) {
            Some(i) => if i >= pos && i + sep.len() <= hay.len() {
                1 + occurrences(hay, sep, i + sep.len())
            } else {
                0
            },
            None => 0,
        }
    }
}

/// The pieces put back together, with `sep` between every two of them.
pub open spec fn joined(pieces: Seq<Seq<u8>>, sep: Seq<u8>) -> Seq<u8>
    decreases pieces.len(),
{
    if pieces.len() == 0 {
        Seq::empty()
    } else if pieces.len() == 1 {
        pieces[0]
    } else {
        pieces[0] + sep + joined(pieces.drop_first(), sep)
    }
}

proof fn lemma_first_occ_found(hay: Seq<u8>, needle: Seq<u8>, pos: int)
    ensures
        first_occ(hay, needle, pos) matches Some(i) ==> pos <= i && occurs_at(hay, needle, i),
    decreases hay.len() + 1 - pos,
{
    if pos < 0 || pos + needle.len() > hay.len() {
    } else if occurs_at(hay, needle, pos) {
    } else {
        lemma_first_occ_found(hay, needle, pos + 1);
    }
}

/// Splitting at a non-empty separator from `pos` on and joining the pieces with it gives the rest
/// of the string back; there is one piece more than there are occurrences of the separator.
pub proof fn lemma_split_then_join(hay: Seq<u8>, sep: Seq<u8>, pos: int)
    requires
        sep.len() > 0,
        0 <= pos <= hay.len(),
    ensures
        split_from(hay, sep, pos).len() == occurrences(hay, sep, pos) + 1,
        joined(split_from(hay, sep, pos), sep) == hay.subrange(pos, hay.len() as int),
    decreases hay.len() - pos,
{
    lemma_first_occ_found(hay, sep, pos);
    match first_occ(hay, sep, pos) {
        Some(i) => {
            lemma_split_then_join(hay, sep, i + sep.len());
            let rest = split_from(hay, sep, i + sep.len());
            let pieces = split_from(hay, sep, pos);
            assert(pieces == seq![hay.subrange(pos, i)] + rest);
            assert(pieces.drop_first() =~= rest);
            assert(hay.subrange(i, i + sep.len()) == sep);
            assert(hay.subrange(pos, hay.len() as int) =~= hay.subrange(pos, i) + sep + hay.subrange(i + sep.len(), hay.len() as int));
        },
        None => {},
    }
}

/// What `split` gives for a non-empty separator, joined with that separator, is the string; there
/// is one piece more than there are occurrences of the separator.
pub proof fn lemma_split_join(s: Seq<u8>, sep: Seq<u8>)
    requires
        sep.len() > 0,
    ensures
        split_from(s, sep, 0).len() == occurrences(s, sep, 0) + 1,
        joined(split_from(s, sep, 0), sep) == s,
{
    lemma_split_then_join(s, sep, 0);
    assert(s.subrange(0, s.len() as int) =~= s);
}

/// Replacing every occurrence of a non-empty separator from `pos` on is splitting the rest at it
/// and joining the pieces with the replacement.
pub proof fn lemma_replace_from_is_split_join(hay: Seq<u8>, sep: Seq<u8>, rep: Seq<u8>, pos: int)
    requires
        sep.len() > 0,
        0 <= pos <= hay.len(),
    ensures
        replace_from(hay, sep, rep, pos) == joined(split_from(hay, sep, pos), rep),
    decreases hay.len() - pos,
{
    lemma_first_occ_found(hay, sep, pos);
    match first_occ(hay, sep, pos) {
        Some(i) => {
            lemma_replace_from_is_split_join(hay, sep, rep, i + sep.len());
            lemma_split_then_join(hay, sep, i + sep.len());
            let rest = split_from(hay, sep, i + sep.len());
            let pieces = split_from(hay, sep, pos);
            assert(pieces == seq![hay.subrange(pos, i)] + rest);
            assert(pieces.drop_first() =~= rest);
            assert(pieces[0] == hay.subrange(pos, i));
        },
        None => {},
    }
}

/// What `replaceAll` does with a non-empty search string: the pieces of the string between its
/// occurrences, joined with the replacement; so replacing it with itself gives the string back,
/// and a string in which it does not occur comes back unchanged.
pub proof fn lemma_replace_all_laws(hay: Seq<u8>, sep: Seq<u8>, rep: Seq<u8>)
    requires
        sep.len() > 0,
    ensures
        replace_from(hay, sep, rep, 0) == joined(split_from(hay, sep, 0), rep),
        replace_from(hay, sep, sep, 0) == hay,
        (forall|j: int| !occurs_at(hay, sep, j)) ==> replace_from(hay, sep, rep, 0) == hay,
{
    lemma_replace_from_is_split_join(hay, sep, rep, 0);
    lemma_replace_from_is_split_join(hay, sep, sep, 0);
    lemma_split_join(hay, sep);
    if forall|j: int| !occurs_at(hay, sep, j) {
        lemma_first_occ(hay, sep, 0, None);
        assert(hay.subrange(0, hay.len() as int) =~= hay);
    }
}

/// What `replace` does with a search string: when its first occurrence is at `i`, the string up
/// to `i`, the replacement, and the string after the occurrence; when it does not occur, the
/// string unchanged.
pub proof fn lemma_replace_laws(hay: Seq<u8>, needle: Seq<u8>, rep: Seq<u8>, i: int)
    ensures
        hay.len() <= usize::MAX && occurs_at(hay, needle, i) && (forall|j: int| 0 <= j < i ==> !occurs_at(hay, needle, j))
            ==> replace_first(hay, needle, rep) == hay.subrange(0, i) + rep + hay.subrange(i + needle.len(), hay.len() as int),
        (forall|j: int| !occurs_at(hay, needle, j)) ==> replace_first(hay, needle, rep) == hay,
{
    if hay.len() <= usize::MAX && occurs_at(hay, needle, i) && (forall|j: int| 0 <= j < i ==> !occurs_at(hay, needle, j)) {
        lemma_first_occ(hay, needle, 0, Some(i as usize));
    }
    if forall|j: int| !occurs_at(hay, needle, j) {
        lemma_first_occ(hay, needle, 0, None);
    }
}

/// The UTF-8 bytes of each character.
pub open spec fn char_strings(cs: Seq<char>) -> Seq<Seq<u8>> {
    cs.map_values(|c: char| encode_utf8(seq![c]))
}

/// Calls `char::to_string`, which makes the string of the one character.
#[verifier::external_body]
fn char_to_string(c: char) -> (r: String)
    ensures
        r@ == seq![c],
{
    c.to_string()
}

/// The pieces of the string between the occurrences of `separator`; with an empty separator,
/// the characters of the string.
pub fn split(this: &str, separator: &str) -> (r: Vec<Vec<u8>>)
    ensures
        separator.spec_bytes().len() == 0 ==> r@.map_values(|v: Vec<u8>| v@) == char_strings(this@),
        separator.spec_bytes().len() > 0 ==> r@.map_values(|v: Vec<u8>| v@) == split_from(this.spec_bytes(), separator.spec_bytes(), 0),
{
    let h = this.as_bytes();
    let n = separator.as_bytes();
    let mut out: Vec<Vec<u8>> = Vec::new();
    if n.len() == 0 {
        for c in it: this.chars()
            invariant
                it.seq() == this@,
                out@.map_values(|v: Vec<u8>| v@) == char_strings(it.seq().take(it.index() as int)),
        {
            let ghost before = out@.map_values(|v: Vec<u8>| v@);
            let s = char_to_string(c);
            out.push(slice_to_vec(s.as_str().as_bytes()));
            proof {
                assert(it.seq().take(it.index() + 1) == it.seq().take(it.index() as int).push(c));
                assert(out@.map_values(|v: Vec<u8>| v@) =~= before.push(encode_utf8(seq![c])));
                assert(char_strings(it.seq().take(it.index() as int).push(c)) =~= char_strings(it.seq().take(it.index() as int)).push(encode_utf8(seq![c])));
                assert(out@.map_values(|v: Vec<u8>| v@) =~= char_strings(it.seq().take(it.index() + 1)));
            }
        }
        proof {
            assert(this@.take(this@.len() as int) =~= this@);
        }
        return out;
    }
    let hl = h.len();
    let mut pos: usize = 0;
    loop
        invariant
            hl == h@.len(),
            pos <= h@.len(),
            n@.len() > 0,
            h@ == this.spec_bytes(),
            n@ == separator.spec_bytes(),
            out@.map_values(|v: Vec<u8>| v@) + split_from(h@, n@, pos as int) == split_from(h@, n@, 0),
        decreases h@.len() - pos,
    {
        let found = find_from(h, n, pos);
        proof {
            lemma_first_occ(h@, n@, pos as int, found);
        }
        match found {
            Some(i) => {
                let ghost before = out@.map_values(|v: Vec<u8>| v@);
                out.push(slice_to_vec(get_range(h, pos, i)));
                proof {
                    assert(out@.map_values(|v: Vec<u8>| v@) =~= before.push(h@.subrange(pos as int, i as int)));
                    assert(out@.map_values(|v: Vec<u8>| v@) + split_from(h@, n@, i + n@.len()) =~= split_from(h@, n@, 0));
                }
                pos = i + n.len();
            },
            None => {
                let ghost before = out@.map_values(|v: Vec<u8>| v@);
                out.push(slice_to_vec(get_range(h, pos, h.len())));
                proof {
                    assert(out@.map_values(|v: Vec<u8>| v@) =~= split_from(h@, n@, 0));
                }
                return out;
            },
        }
    }
}

/// `String.prototype.toString`: the string the receiver holds (its `[[StringData]]` slot, read by
/// the caller); a `TypeError` where it holds none.
pub fn to_string(value: Option<&str>) -> (r: Result<String, JsError>)
    ensures
        match value {
            Some(v) => r matches Ok(s) && s@ == v@,
            None => r matches Err(e) && thrown(e, ErrorKind::TypeError, "String.prototype.toString called on non-string value"@),
        },
{
    match value {
        Some(v) => Ok(v.to_string()),
        None => Err(js_error(ErrorKind::TypeError, "String.prototype.toString called on non-string value")),
    }
}

/// The string with its first occurrence of `needle` replaced by `rep`; an empty `needle` occurs
/// at the very start.
pub open spec fn replace_first(hay: Seq<u8>, needle: Seq<u8>, rep: Seq<u8>) -> Seq<u8> {
    match first_occ(hay, needle, 0) {
        Some(i) => hay.subrange(0, i) + rep + hay.subrange(i + needle.len(), hay.len() as int),
        None => hay,
    }
}

/// `String.prototype.replace` with a string to search for: the first occurrence of `search` is
/// replaced by `replacement`.
pub fn replace(this: &str, search: &str, replacement: &str) -> (r: Vec<u8>)
    ensures
        r@ == replace_first(this.spec_bytes(), search.spec_bytes(), replacement.spec_bytes()),
{
    let h = this.as_bytes();
    let n = search.as_bytes();
    let rep = replacement.as_bytes();
    let found = find_from(h, n, 0);
    proof {
        lemma_first_occ(h@, n@, 0, found);
    }
    match found {
        Some(i) => {
            assert(occurs_at(h@, n@, i as int));
            let hl = h.len();
            let nl = n.len();
            assert(i + nl <= hl);
            let after = i + nl;
            let mut out: Vec<u8> = Vec::new();
            append_bytes(&mut out, get_range(h, 0, i));
            append_bytes(&mut out, rep);
            append_bytes(&mut out, get_range(h, after, h.len()));
            out
        },
        None => slice_to_vec(h),
    }
}

/// A bound of `slice` after conversion to an integer: negative infinity, or a finite value below
/// zero (`Negative`, whose value is below zero) or not (`-0` is not below zero, and positive
/// infinity is `NonNegative(usize::MAX)`). Finite values are taken as `isize` or `usize` the way a
/// float is converted, saturating.
pub enum SliceBound {
    NegInfinity,
    Negative(isize),
    NonNegative(usize),
}

/// Where a bound of `slice` falls in a string of `len` bytes.
pub open spec fn slice_offset(len: int, bound: SliceBound) -> int {
    match bound {
        SliceBound::NegInfinity => 0,
        SliceBound::Negative(n) => if len + n < 0 { 0 } else { len + n },
        SliceBound::NonNegative(n) => if n < len { n as int } else { len },
    }
}

/// The bytes that `slice` takes from `h` (before it decodes them).
pub open spec fn slice_text(h: Seq<u8>, start: SliceBound, end: Option<SliceBound>) -> Seq<u8> {
    let from = slice_offset(h.len() as int, start);
    let to = match end {
        Some(b) => slice_offset(h.len() as int, b),
        None => h.len() as int,
    };
    if from >= to { Seq::empty() } else { h.subrange(from, to) }
}

/// What `slice` takes: the bytes between two offsets within the string, none when the end is not
/// after the start; an end at or past the length is the length, as if no end were given; a
/// negative bound `n` names offset `len + n`, and 0 when that is still negative, as -Infinity
/// does.
pub proof fn lemma_slice_laws(h: Seq<u8>, a: usize, b: usize, n: isize, end: Option<SliceBound>)
    ensures
        a <= b <= h.len() ==> slice_text(h, SliceBound::NonNegative(a), Some(SliceBound::NonNegative(b)))
            == h.subrange(a as int, b as int),
        b <= a ==> slice_text(h, SliceBound::NonNegative(a), Some(SliceBound::NonNegative(b))) == Seq::<u8>::empty(),
        b >= h.len() ==> slice_text(h, SliceBound::NonNegative(a), Some(SliceBound::NonNegative(b))) == slice_text(
            h,
            SliceBound::NonNegative(a),
            None,
        ),
        n < 0 && h.len() + n >= 0 && h.len() <= usize::MAX ==> slice_text(h, SliceBound::Negative(n), end) == slice_text(
            h,
            SliceBound::NonNegative((h.len() + n) as usize),
            end,
        ),
        n < 0 && h.len() + n >= 0 && h.len() <= usize::MAX ==> slice_text(h, SliceBound::NonNegative(a), Some(SliceBound::Negative(n)))
            == slice_text(h, SliceBound::NonNegative(a), Some(SliceBound::NonNegative((h.len() + n) as usize))),
        n < 0 && h.len() + n < 0 ==> slice_text(h, SliceBound::Negative(n), end) == slice_text(
            h,
            SliceBound::NegInfinity,
            end,
        ),
        slice_text(h, SliceBound::NegInfinity, end) == slice_text(h, SliceBound::NonNegative(0), end),
{
}

fn to_slice_offset(len: usize, bound: SliceBound) -> (r: usize)
    requires
        bound matches SliceBound::Negative(n) ==> n < 0,
    ensures
        r == slice_offset(len as int, bound),
{
    match bound {
        SliceBound::NegInfinity => 0,
        SliceBound::Negative(n) => {
            let v = len as i128 + n as i128;
            if v < 0 { 0 } else { v as usize }
        },
        SliceBound::NonNegative(n) => if n < len { n } else { len },
    }
}

/// `String.prototype.slice`: the bytes from `start` up to `end` (the end of the string where no
/// end is given), counted from the end for negative bounds, decoded lossily; empty where the start
/// is not before the end.
pub fn slice(this: &str, start: SliceBound, end: Option<SliceBound>) -> (r: Vec<u8>)
    requires
        start matches SliceBound::Negative(n) ==> n < 0,
        end matches Some(SliceBound::Negative(n)) ==> n < 0,
    ensures
        ({
            let h = this.spec_bytes();
            let from = slice_offset(h.len() as int, start);
            let to = match end {
                Some(b) => slice_offset(h.len() as int, b),
                None => h.len() as int,
            };
            &&& r@ == if from >= to { Seq::<u8>::empty() } else { utf8_lossy(h.subrange(from, to)) }
            &&& from < to && valid_utf8(h.subrange(from, to)) ==> r@ == h.subrange(from, to)
        }),
{
    let bytes = this.as_bytes();
    let len = bytes.len();
    let from = to_slice_offset(len, start);
    let to = match end {
        Some(b) => to_slice_offset(len, b),
        None => len,
    };
    if from >= to {
        Vec::new()
    } else {
        from_utf8_lossy(get_range(bytes, from, to))
    }
}

/// The bytes with each double quote replaced by `&quot;`.
pub open spec fn escape_quotes(v: Seq<u8>) -> Seq<u8>
    decreases v.len(),
{
    if v.len() == 0 {
        Seq::empty()
    } else {
        escape_quotes(v.drop_last()) + if v.last() == 34u8 {
            seq![38u8, 113u8, 117u8, 111u8, 116u8, 59u8]
        } else {
            seq![v.last()]
        }
    }
}

/// The HTML element `<tag>s</tag>`, with ` key="value"` (its double quotes escaped) after the tag
/// name where there is an attribute.
pub open spec fn html_element(s: Seq<u8>, tag: Seq<u8>, attribute: Option<(Seq<u8>, Seq<u8>)>) -> Seq<u8> {
    let attr = match attribute {
        Some((key, value)) => seq![32u8] + key + seq![61u8, 34u8] + escape_quotes(value) + seq![34u8],
        None => Seq::empty(),
    };
    seq![60u8] + tag + attr + seq![62u8] + s + seq![60u8, 47u8] + tag + seq![62u8]
}

fn push_escaped(out: &mut Vec<u8>, v: &[u8])
    ensures
        final(out)@ == old(out)@ + escape_quotes(v@),
{
    let mut k: usize = 0;
    while k < v.len()
        invariant
            k <= v@.len(),
            out@ == old(out)@ + escape_quotes(v@.take(k as int)),
        decreases v@.len() - k,
    {
        let ghost before = out@;
        let b = v[k];
        if b == 34u8 {
            out.push(38u8);
            out.push(113u8);
            out.push(117u8);
            out.push(111u8);
            out.push(116u8);
            out.push(59u8);
        } else {
            out.push(b);
        }
        proof {
            assert(v@.take(k + 1).drop_last() =~= v@.take(k as int));
            assert(out@ =~= old(out)@ + escape_quotes(v@.take(k + 1)));
        }
        k = k + 1;
    }
    proof {
        assert(v@.take(v@.len() as int) =~= v@);
    }
}

/// Builds the HTML element of an HTML method of `String.prototype`.
fn create_html(this: &str, tag: &str, attribute: Option<(&str, &str)>) -> (r: Vec<u8>)
    ensures
        r@ == html_element(this.spec_bytes(), tag.spec_bytes(), match attribute {
            Some((k, v)) => Some((k.spec_bytes(), v.spec_bytes())),
            None => None,
        }),
{
    let mut out: Vec<u8> = Vec::new();
    out.push(60u8);
    append_bytes(&mut out, tag.as_bytes());
    match attribute {
        Some((key, value)) => {
            out.push(32u8);
            append_bytes(&mut out, key.as_bytes());
            out.push(61u8);
            out.push(34u8);
            push_escaped(&mut out, value.as_bytes());
            out.push(34u8);
        },
        None => {},
    }
    out.push(62u8);
    append_bytes(&mut out, this.as_bytes());
    out.push(60u8);
    out.push(47u8);
    append_bytes(&mut out, tag.as_bytes());
    out.push(62u8);
    proof {
        let attr = match attribute {
            Some((k, v)) => Some((k.spec_bytes(), v.spec_bytes())),
            None => None,
        };
        assert(out@ =~= html_element(this.spec_bytes(), tag.spec_bytes(), attr));
    }
    out
}

/// The bytes of a string of ASCII characters.
pub open spec fn ascii(s: &str) -> Seq<u8> {
    s@.map_values(|c: char| c as u8)
}

proof fn lemma_ascii(s: &str)
    requires
        is_ascii(s),
    ensures
        s.spec_bytes() == ascii(s),
{
    is_ascii_spec_bytes(s);
    assert(s.spec_bytes() =~= ascii(s));
}

/// `String.prototype.big`: `<big>this</big>`.
pub fn big(this: &str) -> (r: Vec<u8>)
    ensures
        r@ == html_element(this.spec_bytes(), ascii("big"), None),
{
    proof {
        reveal_strlit("big");
        lemma_ascii("big");
    }
    create_html(this, "big", None)
}

/// `String.prototype.blink`: `<blink>this</blink>`.
pub fn blink(this: &str) -> (r: Vec<u8>)
    ensures
        r@ == html_element(this.spec_bytes(), ascii("blink"), None),
{
    proof {
        reveal_strlit("blink");
        lemma_ascii("blink");
    }
    create_html(this, "blink", None)
}

/// `String.prototype.bold`: `<b>this</b>`.
pub fn bold(this: &str) -> (r: Vec<u8>)
    ensures
        r@ == html_element(this.spec_bytes(), ascii("b"), None),
{
    proof {
        reveal_strlit("b");
        lemma_ascii("b");
    }
    create_html(this, "b", None)
}

/// `String.prototype.fixed`: `<tt>this</tt>`.
pub fn fixed(this: &str) -> (r: Vec<u8>)
    ensures
        r@ == html_element(this.spec_bytes(), ascii("tt"), None),
{
    proof {
        reveal_strlit("tt");
        lemma_ascii("tt");
    }
    create_html(this, "tt", None)
}

/// `String.prototype.italics`: `<i>this</i>`.
pub fn italics(this: &str) -> (r: Vec<u8>)
    ensures
        r@ == html_element(this.spec_bytes(), ascii("i"), None),
{
    proof {
        reveal_strlit("i");
        lemma_ascii("i");
    }
    create_html(this, "i", None)
}

/// `String.prototype.strike`: `<strike>this</strike>`.
pub fn strike(this: &str) -> (r: Vec<u8>)
    ensures
        r@ == html_element(this.spec_bytes(), ascii("strike"), None),
{
    proof {
        reveal_strlit("strike");
        lemma_ascii("strike");
    }
    create_html(this, "strike", None)
}

/// `String.prototype.sub`: `<sub>this</sub>`.
pub fn sub(this: &str) -> (r: Vec<u8>)
    ensures
        r@ == html_element(this.spec_bytes(), ascii("sub"), None),
{
    proof {
        reveal_strlit("sub");
        lemma_ascii("sub");
    }
    create_html(this, "sub", None)
}

/// `String.prototype.sup`: `<sup>this</sup>`.
pub fn sup(this: &str) -> (r: Vec<u8>)
    ensures
        r@ == html_element(this.spec_bytes(), ascii("sup"), None),
{
    proof {
        reveal_strlit("sup");
        lemma_ascii("sup");
    }
    create_html(this, "sup", None)
}

/// `String.prototype.fontcolor`: `<font color="color">this</font>`.
pub fn fontcolor(this: &str, color: &str) -> (r: Vec<u8>)
    ensures
        r@ == html_element(this.spec_bytes(), ascii("font"), Some((ascii("color"), color.spec_bytes()))),
{
    proof {
        reveal_strlit("font");
        reveal_strlit("color");
        lemma_ascii("font");
        lemma_ascii("color");
    }
    create_html(this, "font", Some(("color", color)))
}

/// `String.prototype.fontsize`: `<font size="size">this</font>`.
pub fn fontsize(this: &str, size: &str) -> (r: Vec<u8>)
    ensures
        r@ == html_element(this.spec_bytes(), ascii("font"), Some((ascii("size"), size.spec_bytes()))),
{
    proof {
        reveal_strlit("font");
        reveal_strlit("size");
        lemma_ascii("font");
        lemma_ascii("size");
    }
    create_html(this, "font", Some(("size", size)))
}

/// `String.prototype.link`: `<a href="url">this</a>`.
pub fn link(this: &str, url: &str) -> (r: Vec<u8>)
    ensures
        r@ == html_element(this.spec_bytes(), ascii("a"), Some((ascii("href"), url.spec_bytes()))),
{
    proof {
        reveal_strlit("a");
        reveal_strlit("href");
        lemma_ascii("a");
        lemma_ascii("href");
    }
    create_html(this, "a", Some(("href", url)))
}

} // verus!
