use vstd::prelude::*;

use crate::js_std::{js_error, thrown, ErrorKind, JsError};
use crate::js_std::string::append_bytes;
use vstd::utf8::encode_utf8;
use vstd::string::StringSliceAdditionalSpecFns;

verus! {

// An array is modelled by its elements in index order, `None` standing for `undefined` (and for
// holes, which read as `undefined`), except in the methods that call back for each element,
// further down, which tell holes apart.

/// `Array(size)`: an array of `size` holes. `size` is the argument converted to a length.
pub fn constructor<T: Copy>(size: usize) -> (r: Vec<Option<T>>)
    ensures
        r@ == Seq::new(size as nat, |i: int| None::<T>),
{
    let mut v: Vec<Option<T>> = Vec::new();
    let mut i: usize = 0;
    while i < size
        invariant
            i <= size,
            v@ == Seq::new(i as nat, |j: int| None::<T>),
        decreases size - i,
    {
        v.push(None);
        i = i + 1;
        assert(v@ =~= Seq::new(i as nat, |j: int| None::<T>));
    }
    v
}

/// `Array.prototype.entries`, which is not implemented: it throws an `Error`.
pub fn entries() -> (r: Result<(), JsError>)
    ensures
        r matches Err(e) && thrown(e, ErrorKind::Error, "Not implemented"@),
{
    Err(js_error(ErrorKind::Error, "Not implemented"))
}

/// `Array.prototype.keys`, which is not implemented: it throws an `Error`.
pub fn keys() -> (r: Result<(), JsError>)
    ensures
        r matches Err(e) && thrown(e, ErrorKind::Error, "Not implemented"@),
{
    Err(js_error(ErrorKind::Error, "Not implemented"))
}

/// `Array.prototype.flat`, which is not implemented: it throws an `Error`.
pub fn flat() -> (r: Result<(), JsError>)
    ensures
        r matches Err(e) && thrown(e, ErrorKind::Error, "Not implemented"@),
{
    Err(js_error(ErrorKind::Error, "Not implemented"))
}

/// The element at `index` when it is in range, `undefined` otherwise.
pub open spec fn element_at<T>(elements: Seq<Option<T>>, index: int) -> Option<T> {
    if 0 <= index < elements.len() {
        elements[index]
    } else {
        None
    }
}

/// What `at` gives for `index`: the element there, counting from the end when it is negative.
pub open spec fn at_value<T>(elements: Seq<Option<T>>, index: int) -> Option<T> {
    element_at(elements, if index < 0 { index + elements.len() } else { index })
}

/// What `at` reads: the element at an index within the array; a negative index `-k` reads what
/// `len - k` does, so -1 is the last element; past either end there is nothing.
pub proof fn lemma_at_laws<T>(elements: Seq<Option<T>>, i: int, k: int)
    ensures
        0 <= i < elements.len() ==> at_value(elements, i) == elements[i],
        0 < k <= elements.len() ==> at_value(elements, -k) == at_value(elements, elements.len() - k),
        elements.len() > 0 ==> at_value(elements, -1) == elements.last(),
        i >= elements.len() || i < -elements.len() ==> at_value(elements, i) is None,
{
}

/// `Array.prototype.at`: the element at `index`, counting from the end when it is negative.
/// `index` is the argument converted to an integer.
pub fn at<T: Copy>(elements: &Vec<Option<T>>, index: i64) -> (r: Option<T>)
    requires
        elements@.len() <= i64::MAX,
    ensures
        r == at_value(elements@, index as int),
{
    let len = elements.len() as i64;
    let mut index = index;
    if index < 0 {
        index = index + len;
    }
    if index < 0 || index >= len {
        return None;
    }
    elements[index as usize]
}

/// A relative position resolved against the length: counted from the end when negative, clamped
/// to `0..=len`.
pub open spec fn relative_index(len: int, relative: int) -> int {
    if relative < 0 {
        if len + relative > 0 { len + relative } else { 0 }
    } else {
        if relative < len { relative } else { len }
    }
}

fn resolve_relative(len: usize, relative: i64) -> (r: usize)
    requires
        len <= i64::MAX,
    ensures
        r == relative_index(len as int, relative as int),
{
    if relative < 0 {
        let k = len as i64 + relative;
        if k > 0 { k as usize } else { 0 }
    } else {
        if (relative as u64) < (len as u64) { relative as usize } else { len }
    }
}

/// `b` is `a` with the elements from `start` up to `end` (both relative, `end` defaulting to the
/// length) set to `value`.
pub open spec fn filled<T>(a: Seq<Option<T>>, b: Seq<Option<T>>, value: Option<T>, start: int, end: Option<i64>) -> bool {
    let len = a.len() as int;
    let k = relative_index(len, start);
    let f = match end {
        Some(e) => relative_index(len, e as int),
        None => len,
    };
    &&& b.len() == len
    &&& forall|i: int| 0 <= i < len ==> #[trigger] b[i] == if k <= i < f { value } else { a[i] }
}

/// What `fill` does with its range: positions within the array are taken as they are, so the
/// elements from `s` up to `e` are set and the others kept; an end at or past the length is the
/// length, as if no end were given; a negative position counts back from the end, and one that
/// reaches back past the start is 0. So filling from 0 with no end sets every element.
pub proof fn lemma_fill_laws<T>(a: Seq<Option<T>>, b: Seq<Option<T>>, value: Option<T>, s: int, e: i64, m: int)
    ensures
        0 <= s <= e <= a.len() && filled(a, b, value, s, Some(e)) ==> b == a.subrange(0, s) + Seq::new(
            (e - s) as nat,
            |i: int| value,
        ) + a.subrange(e as int, a.len() as int),
        e >= a.len() ==> (filled(a, b, value, s, Some(e)) <==> filled(a, b, value, s, None)),
        filled(a, b, value, 0, None) ==> b == Seq::new(a.len(), |i: int| value),
        0 < m <= a.len() && filled(a, b, value, -m, None) ==> b == a.subrange(0, a.len() - m) + Seq::new(
            m as nat,
            |i: int| value,
        ),
        m >= a.len() ==> (filled(a, b, value, -m, None) <==> filled(a, b, value, 0, None)),
{
    let len = a.len() as int;
    if 0 <= s <= e <= len && filled(a, b, value, s, Some(e)) {
        assert(b =~= a.subrange(0, s) + Seq::new((e - s) as nat, |i: int| value) + a.subrange(e as int, len));
    }
    if filled(a, b, value, 0, None) {
        assert(b =~= Seq::new(a.len(), |i: int| value));
    }
    if 0 < m <= len && filled(a, b, value, -m, None) {
        assert(b =~= a.subrange(0, len - m) + Seq::new(m as nat, |i: int| value));
    }
}

/// `Array.prototype.fill`: sets the elements from `start` up to `end` (both relative, `end`
/// defaulting to the length) to `value`. The positions are the arguments converted to integers.
pub fn fill<T: Copy>(elements: &mut Vec<Option<T>>, value: Option<T>, start: i64, end: Option<i64>)
    requires
        old(elements)@.len() <= i64::MAX,
    ensures
        filled(old(elements)@, final(elements)@, value, start as int, end),
{
    let len = elements.len();
    let k = resolve_relative(len, start);
    let fin = match end {
        Some(e) => resolve_relative(len, e),
        None => len,
    };
    let mut i = k;
    while i < fin
        invariant
            k <= i,
            i <= fin || i == k,
            fin <= len,
            k <= len,
            elements@.len() == len,
            len == old(elements)@.len(),
            forall|j: int| 0 <= j < len ==> #[trigger] elements@[j] == if k <= j < i { value } else { old(elements)@[j] },
        decreases fin - i,
    {
        elements.set(i, value);
        i = i + 1;
    }
    assert(i == fin || fin < k);
}

/// `Array.prototype.reverse`: swaps the element at `i` with the one at `len - i - 1` for every `i`
/// below half the length.
pub fn reverse<T: Copy>(elements: &mut Vec<Option<T>>)
    ensures
        final(elements)@ == old(elements)@.reverse(),
{
    let len = elements.len();
    let mut k: usize = 0;
    while k < len / 2
        invariant
            k <= len / 2,
            elements@.len() == len,
            len == old(elements)@.len(),
            forall|j: int| 0 <= j < len ==> #[trigger] elements@[j] == if j < k || j >= len - k {
                old(elements)@[len - 1 - j]
            } else {
                old(elements)@[j]
            },
        decreases len / 2 - k,
    {
        let a = elements[k];
        let b = elements[len - k - 1];
        elements.set(k, b);
        elements.set(len - k - 1, a);
        k = k + 1;
    }
    assert(elements@ =~= old(elements)@.reverse());
}

/// Reversing an array twice gives back the array.
pub proof fn lemma_reverse_twice<T>(elements: Seq<Option<T>>)
    ensures
        elements.reverse().reverse() == elements,
{
    assert(elements.reverse().reverse() =~= elements);
}

/// `Array.prototype.push`: appends the arguments (or, without any, one `undefined`) and returns
/// the last argument (`undefined` without any).
pub fn push<T: Copy>(elements: &mut Vec<Option<T>>, args: &[Option<T>]) -> (r: Option<T>)
    ensures
        args@.len() == 0 ==> final(elements)@ == old(elements)@.push(None) && r is None,
        args@.len() > 0 ==> final(elements)@ == old(elements)@ + args@ && r == args@.last(),
{
    if args.len() == 0 {
        elements.push(None);
        return None;
    }
    let mut last: Option<T> = None;
    let mut i: usize = 0;
    while i < args.len()
        invariant
            i <= args@.len(),
            elements@ == old(elements)@ + args@.subrange(0, i as int),
            i > 0 ==> last == args@[i - 1],
        decreases args@.len() - i,
    {
        last = args[i];
        elements.push(args[i]);
        i = i + 1;
        assert(args@.subrange(0, i as int) == args@.subrange(0, i - 1).push(args@[i - 1]));
    }
    assert(args@.subrange(0, args@.len() as int) == args@);
    last
}

/// `Array.prototype.unshift`: shifts the elements right by the number of arguments and writes
/// the arguments at the front; returns the new length.
pub fn unshift<T: Copy>(elements: &mut Vec<Option<T>>, args: &[Option<T>]) -> (r: usize)
    requires
        old(elements)@.len() + args@.len() <= usize::MAX,
    ensures
        r == old(elements)@.len() + args@.len(),
        final(elements)@ == args@ + old(elements)@,
{
    let len = elements.len();
    let shift = args.len();
    let new_len = len + shift;
    let mut out: Vec<Option<T>> = Vec::new();
    let mut i: usize = 0;
    while i < shift
        invariant
            i <= shift,
            shift == args@.len(),
            out@ == args@.take(i as int),
        decreases shift - i,
    {
        out.push(args[i]);
        i = i + 1;
        assert(out@ =~= args@.take(i as int));
    }
    let mut k: usize = 0;
    while k < len
        invariant
            k <= len,
            len == elements@.len(),
            elements@ == old(elements)@,
            shift == args@.len(),
            out@ == args@ + old(elements)@.take(k as int),
        decreases len - k,
    {
        out.push(elements[k]);
        k = k + 1;
        assert(out@ =~= args@ + old(elements)@.take(k as int));
    }
    assert(old(elements)@.take(len as int) =~= old(elements)@);
    *elements = out;
    new_len
}

/// A position given to `slice`: counted from the end when negative (and then not below zero).
pub open spec fn slice_index(len: int, index: int) -> int {
    if index < 0 {
        if len + index < 0 { 0 } else { len + index }
    } else {
        index
    }
}

fn to_slice_index(index: i32, len: usize) -> (r: usize)
    ensures
        r == slice_index(len as int, index as int),
{
    if index < 0 {
        let new_index = len as i128 + index as i128;
        if new_index < 0 { 0 } else { new_index as usize }
    } else {
        index as usize
    }
}

/// What `slice` gives of the elements: `end - start` of them from `start`, reading `undefined`
/// past the end of the array, with each bound counted from the end when negative.
pub open spec fn slice_elements<T>(elements: Seq<Option<T>>, start: Option<i32>, end: Option<i32>) -> Seq<Option<T>> {
    let len = elements.len() as int;
    let s = match start {
        Some(v) => slice_index(len, v as int),
        None => 0,
    };
    let e = match end {
        Some(v) => slice_index(len, v as int),
        None => len,
    };
    Seq::new(if e > s { (e - s) as nat } else { 0 }, |i: int| element_at(elements, s + i))
}

/// What `slice` takes: with `0 <= a <= b <= len`, the elements from `a` up to `b`; none when the
/// end is not after the start; a negative bound `-k` is the bound `len - k`, and 0 when that is
/// still negative; no start is 0 and no end is the length.
pub proof fn lemma_slice_laws<T>(elements: Seq<Option<T>>, a: i32, b: i32, k: i32, end: Option<i32>)
    ensures
        0 <= a <= b <= elements.len() ==> slice_elements(elements, Some(a), Some(b)) == elements.subrange(
            a as int,
            b as int,
        ),
        0 <= b <= a ==> slice_elements(elements, Some(a), Some(b)) == Seq::<Option<T>>::empty(),
        0 < k <= elements.len() <= i32::MAX ==> slice_elements(elements, Some((-k) as i32), end) == slice_elements(
            elements,
            Some((elements.len() - k) as i32),
            end,
        ),
        0 < k <= elements.len() ==> slice_elements(elements, Some(0), Some((-k) as i32)) == elements.subrange(
            0,
            elements.len() - k,
        ),
        k < 0 && elements.len() + k < 0 ==> slice_elements(elements, Some(k), end) == slice_elements(elements, Some(0), end),
        slice_elements(elements, None, end) == slice_elements(elements, Some(0), end),
        elements.len() <= i32::MAX ==> slice_elements(elements, Some(a), None) == slice_elements(
            elements,
            Some(a),
            Some(elements.len() as i32),
        ),
{
    let len = elements.len() as int;
    if 0 <= a <= b <= len {
        assert(slice_elements(elements, Some(a), Some(b)) =~= elements.subrange(a as int, b as int));
    }
    if 0 <= b <= a {
        assert(slice_elements(elements, Some(a), Some(b)) =~= Seq::<Option<T>>::empty());
    }
    if 0 < k <= len {
        assert(slice_elements(elements, Some(0), Some((-k) as i32)) =~= elements.subrange(0, len - k));
    }
}

/// `Array.prototype.slice`: the elements from `start` up to `end` (each counted from the end when
/// negative, `end` defaulting to the length); positions past the end read as `undefined`. The
/// positions are the arguments converted to 32-bit integers.
pub fn slice<T: Copy>(elements: &Vec<Option<T>>, start: Option<i32>, end: Option<i32>) -> (r: Vec<Option<T>>)
    ensures
        r@ == slice_elements(elements@, start, end),
{
    let len = elements.len();
    let s = match start {
        Some(v) => to_slice_index(v, len),
        None => 0,
    };
    let e = match end {
        Some(v) => to_slice_index(v, len),
        None => len,
    };
    let mut values: Vec<Option<T>> = Vec::new();
    let mut k = s;
    while k < e
        invariant
            s <= k,
            k <= e || k == s,
            values@ == Seq::new((k - s) as nat, |i: int| element_at(elements@, s + i)),
        decreases e - k,
    {
        let v = if k < elements.len() {
            elements[k]
        } else {
            None
        };
        values.push(v);
        k = k + 1;
        assert(values@ =~= Seq::new((k - s) as nat, |i: int| element_at(elements@, s + i)));
    }
    assert(values@ =~= Seq::new(if e > s { (e - s) as nat } else { 0 }, |i: int| element_at(elements@, s + i)));
    values
}

/// The elements of the arrays, one array after the other.
pub open spec fn flatten<T>(arrays: Seq<Vec<Option<T>>>) -> Seq<Option<T>>
    decreases arrays.len(),
{
    if arrays.len() == 0 {
        Seq::empty()
    } else {
        flatten(arrays.drop_last()) + arrays.last()@
    }
}

/// `Array.prototype.concat`: a new array of the elements of `this` followed by those of each
/// argument (given as an array; an argument that is not array-like has no elements).
pub fn concat<T: Copy>(this: &Vec<Option<T>>, args: &[Vec<Option<T>>]) -> (r: Vec<Option<T>>)
    ensures
        r@ == this@ + flatten(args@),
{
    let mut array: Vec<Option<T>> = Vec::new();
    let mut j: usize = 0;
    while j < this.len()
        invariant
            j <= this@.len(),
            array@ == this@.subrange(0, j as int),
        decreases this@.len() - j,
    {
        array.push(this[j]);
        j = j + 1;
    }
    assert(this@.subrange(0, this@.len() as int) == this@);
    let mut a: usize = 0;
    while a < args.len()
        invariant
            a <= args@.len(),
            array@ == this@ + flatten(args@.subrange(0, a as int)),
        decreases args@.len() - a,
    {
        let arg = &args[a];
        let ghost before = array@;
        let mut i: usize = 0;
        while i < arg.len()
            invariant
                i <= arg@.len(),
                array@ == before + arg@.subrange(0, i as int),
            decreases arg@.len() - i,
        {
            array.push(arg[i]);
            i = i + 1;
            assert(arg@.subrange(0, i as int) == arg@.subrange(0, i - 1).push(arg@[i - 1]));
        }
        assert(arg@.subrange(0, arg@.len() as int) == arg@);
        a = a + 1;
        assert(args@.subrange(0, a as int).drop_last() == args@.subrange(0, a - 1));
        assert(array@ == this@ + flatten(args@.subrange(0, a as int)));
    }
    assert(args@.subrange(0, args@.len() as int) == args@);
    array
}

/// The joined text: the parts in order, the separator between each two; a `None` part (a
/// `null` or `undefined` element) adds nothing.
pub open spec fn joined(parts: Seq<Option<String>>, separator: Seq<u8>) -> Seq<u8>
    decreases parts.len(),
{
    if parts.len() == 0 {
        Seq::empty()
    } else {
        let init = joined(parts.drop_last(), separator);
        let sep = if parts.len() > 1 { separator } else { Seq::empty() };
        let last = match parts.last() {
            Some(s) => encode_utf8(s@),
            None => Seq::empty(),
        };
        init + sep + last
    }
}

/// `Array.prototype.join`: the elements, converted to strings (`None` for `null` and
/// `undefined`), with the separator between each two.
pub fn join(parts: &[Option<String>], separator: &str) -> (r: Vec<u8>)
    ensures
        r@ == joined(parts@, separator.spec_bytes()),
{
    let mut result: Vec<u8> = Vec::new();
    let mut i: usize = 0;
    while i < parts.len()
        invariant
            i <= parts@.len(),
            result@ == joined(parts@.subrange(0, i as int), separator.spec_bytes()),
        decreases parts@.len() - i,
    {
        let ghost prefix = parts@.subrange(0, i + 1);
        proof {
            assert(prefix.drop_last() == parts@.subrange(0, i as int));
        }
        if i > 0 {
            append_bytes(&mut result, separator.as_bytes());
        }
        match &parts[i] {
            Some(s) => {
                append_bytes(&mut result, s.as_str().as_bytes());
            },
            None => {},
        }
        proof {
            assert(result@ =~= joined(prefix, separator.spec_bytes()));
        }
        i = i + 1;
    }
    assert(parts@.subrange(0, parts@.len() as int) == parts@);
    result
}

/// The message of the error that `sort` throws when no compare function is given.
pub open spec fn sort_needs_compare_message() -> Seq<char> {
    "Array.prototype.sort currently requires an explicit compare function, try `.sort((a, b) => a - b)` to sort from lowest to highest"@
}

/// Why `sort` failed.
pub enum SortError<E> {
    /// No compare function was given.
    MissingCompareFunction(JsError),
    /// The compare function threw.
    Thrown(E),
}

proof fn lemma_swap_adjacent_multiset<T>(s: Seq<T>, j: int)
    requires
        1 <= j < s.len(),
    ensures
        s.update(j - 1, s[j]).update(j, s[j - 1]).to_multiset() =~= s.to_multiset(),
{
    broadcast use vstd::seq_lib::group_to_multiset_ensures;
    broadcast use vstd::multiset::group_multiset_axioms;
    let t = s.update(j - 1, s[j]).update(j, s[j - 1]);
    assert(t.remove(j).remove(j - 1) =~= s.remove(j).remove(j - 1));
    assert(t.remove(j)[j - 1] == s[j]);
    assert(s.remove(j)[j - 1] == s[j - 1]);
    let m = s.remove(j).remove(j - 1).to_multiset();
    assert(s.remove(j).to_multiset() =~= m.insert(s[j - 1]));
    assert(s.to_multiset() =~= s.remove(j).to_multiset().insert(s[j]));
    assert(t.remove(j).to_multiset() =~= m.insert(s[j]));
    assert(t.to_multiset() =~= t.remove(j).to_multiset().insert(s[j - 1]));
}

/// Whether the compare function, in some call, put `a` before `b`: it returned a number that is
/// not positive for `(a, b)`, or a positive one for `(b, a)`.
pub open spec fn placed_before<T, E, F: Fn(Option<T>, Option<T>) -> Result<i32, E>>(f: F, a: Option<T>, b: Option<T>) -> bool {
    ||| exists|o: i32| o <= 0 && #[trigger] call_ensures(f, (a, b), Ok::<i32, E>(o))
    ||| exists|o: i32| o > 0 && #[trigger] call_ensures(f, (b, a), Ok::<i32, E>(o))
}

/// The compare function put the element at `k` before the one at `k + 1`.
pub open spec fn pair_placed<T, E, F: Fn(Option<T>, Option<T>) -> Result<i32, E>>(f: F, s: Seq<Option<T>>, k: int) -> bool {
    placed_before(f, s[k], s[k + 1])
}

/// The compare function can throw `e`: on some pair of elements it returns that error.
pub open spec fn can_throw<T, E, F: Fn(Option<T>, Option<T>) -> Result<i32, E>>(f: F, e: E) -> bool {
    exists|a: Option<T>, b: Option<T>| #[trigger] call_ensures(f, (a, b), Err::<i32, E>(e))
}

/// The compare function returns no error on any pair of elements.
pub open spec fn never_throws<T, E, F: Fn(Option<T>, Option<T>) -> Result<i32, E>>(f: F) -> bool {
    forall|a: Option<T>, b: Option<T>, e: E| !#[trigger] call_ensures(f, (a, b), Err::<i32, E>(e))
}

/// Every two neighbouring elements are in the order that the compare function gave them.
pub open spec fn ordered_by<T, E, F: Fn(Option<T>, Option<T>) -> Result<i32, E>>(f: F, s: Seq<Option<T>>) -> bool {
    forall|k: int| 0 <= k < s.len() - 1 ==> #[trigger] pair_placed(f, s, k)
}

/// Whether the compare function, in some call, answered that `a` comes after `b`: a positive
/// number for `(a, b)`.
pub open spec fn swapped_by<T, E, F: Fn(Option<T>, Option<T>) -> Result<i32, E>>(f: F, a: Option<T>, b: Option<T>) -> bool {
    exists|o: i32| o > 0 && #[trigger] call_ensures(f, (a, b), Ok::<i32, E>(o))
}

/// `new` is `old` rearranged by `perm` (the element at `k` came from `perm[k]`), and every two
/// elements that came out in the other order than they went in were answered by the compare
/// function to be out of order: equal elements keep their order.
pub open spec fn stable_rearrangement<T, E, F: Fn(Option<T>, Option<T>) -> Result<i32, E>>(
    f: F,
    old: Seq<Option<T>>,
    new: Seq<Option<T>>,
    perm: Seq<int>,
) -> bool {
    &&& perm.len() == old.len()
    &&& new.len() == old.len()
    &&& forall|k: int| 0 <= k < new.len() ==> 0 <= #[trigger] perm[k] < old.len() && new[k] == old[perm[k]]
    &&& forall|k: int, l: int| 0 <= k < l < new.len() ==> #[trigger] perm[k] != #[trigger] perm[l]
    &&& forall|k: int, l: int| 0 <= k < l < new.len() && #[trigger] perm[k] > #[trigger] perm[l] ==> swapped_by(f, new[l], new[k])
}

/// `new` is a stable rearrangement of `old` by the compare function.
pub open spec fn stably_rearranged<T, E, F: Fn(Option<T>, Option<T>) -> Result<i32, E>>(
    f: F,
    old: Seq<Option<T>>,
    new: Seq<Option<T>>,
) -> bool {
    exists|perm: Seq<int>| #[trigger] stable_rearrangement(f, old, new, perm)
}

/// Swapping two neighbours that the compare function answered to be out of order keeps the
/// rearrangement stable.
proof fn lemma_swap_keeps_stable<T, E, F: Fn(Option<T>, Option<T>) -> Result<i32, E>>(
    f: F,
    old: Seq<Option<T>>,
    cur: Seq<Option<T>>,
    perm: Seq<int>,
    j: int,
)
    requires
        stable_rearrangement(f, old, cur, perm),
        1 <= j < cur.len(),
        swapped_by(f, cur[j - 1], cur[j]),
    ensures
        stable_rearrangement(f, old, cur.update(j - 1, cur[j]).update(j, cur[j - 1]), perm.update(j - 1, perm[j]).update(j, perm[j - 1])),
{
    let new = cur.update(j - 1, cur[j]).update(j, cur[j - 1]);
    let np = perm.update(j - 1, perm[j]).update(j, perm[j - 1]);
    // The position in `cur` of what stands at `k` in `new`.
    let sigma = |k: int| if k == j - 1 { j } else if k == j { j - 1 } else { k };
    assert forall|k: int| 0 <= k < new.len() implies 0 <= #[trigger] np[k] < old.len() && new[k] == old[np[k]] by {
        assert(np[k] == perm[sigma(k)] && new[k] == cur[sigma(k)]);
    }
    assert forall|k: int, l: int| 0 <= k < l < new.len() implies #[trigger] np[k] != #[trigger] np[l] by {
        assert(np[k] == perm[sigma(k)] && np[l] == perm[sigma(l)]);
        if sigma(k) < sigma(l) {
            assert(perm[sigma(k)] != perm[sigma(l)]);
        } else {
            assert(perm[sigma(l)] != perm[sigma(k)]);
        }
    }
    assert forall|k: int, l: int| 0 <= k < l < new.len() && #[trigger] np[k] > #[trigger] np[l] implies swapped_by(f, new[l], new[k]) by {
        assert(np[k] == perm[sigma(k)] && np[l] == perm[sigma(l)]);
        assert(new[k] == cur[sigma(k)] && new[l] == cur[sigma(l)]);
        if k == j - 1 && l == j {
        } else {
            assert(sigma(k) < sigma(l));
            assert(perm[sigma(k)] > perm[sigma(l)]);
        }
    }
}

/// `Array.prototype.sort`: an insertion sort that moves each element down while the compare
/// function returns a positive number for it and the element before it. Without a compare
/// function it throws an `Error`; when the compare function throws, so does the sort, leaving the
/// elements as far as it got. Either way the elements are a permutation of what they were, and
/// when the sort completes, every two neighbours are in the order the compare function gave them
/// (so that a compare function that orders consistently leaves the elements sorted).
pub fn sort<T: Copy, E, F: Fn(Option<T>, Option<T>) -> Result<i32, E>>(elements: &mut Vec<Option<T>>, compare: Option<F>) -> (r: Result<(), SortError<E>>)
    requires
        compare matches Some(f) ==> forall|a: Option<T>, b: Option<T>| call_requires(f, (a, b)),
    ensures
        final(elements)@.to_multiset() == old(elements)@.to_multiset(),
        compare is None ==> (r matches Err(SortError::MissingCompareFunction(e)) && thrown(e, ErrorKind::Error,
            sort_needs_compare_message())) && final(elements)@
            == old(elements)@,
        compare is Some && r is Err ==> (r matches Err(SortError::Thrown(_))),
        compare matches Some(f) ==> (r matches Err(SortError::Thrown(e)) ==> can_throw(f, e)),
        compare matches Some(f) ==> (never_throws(f) ==> r is Ok),
        r is Ok ==> (compare matches Some(f) ==> ordered_by(f, final(elements)@)),
        compare matches Some(f) ==> stably_rearranged(f, old(elements)@, final(elements)@),
{
    let f = match compare {
        Some(f) => f,
        None => {
            return Err(
                SortError::MissingCompareFunction(
                    js_error(
                        ErrorKind::Error,
                        "Array.prototype.sort currently requires an explicit compare function, try `.sort((a, b) => a - b)` to sort from lowest to highest",
                    ),
                ),
            );
        },
    };
    let len = elements.len();
    let ghost mut perm: Seq<int> = Seq::new(len as nat, |k: int| k);
    proof {
        assert(stable_rearrangement(f, old(elements)@, elements@, perm));
        assert(stably_rearranged(f, old(elements)@, elements@));
    }
    if len == 0 {
        return Ok(());
    }
    let mut i: usize = 1;
    while i < len
        invariant
            1 <= i <= len,
            elements@.len() == len,
            elements@.to_multiset() == old(elements)@.to_multiset(),
            forall|a: Option<T>, b: Option<T>| call_requires(f, (a, b)),
            compare == Some(f),
            ordered_by(f, elements@.subrange(0, i as int)),
            stable_rearrangement(f, old(elements)@, elements@, perm),
        decreases len - i,
    {
        let ghost prefix = elements@.subrange(0, i as int);
        let ghost tail = elements@.subrange(i + 1, len as int);
        let ghost moving = elements@[i as int];
        let mut j = i;
        while j >= 1
            invariant
                j <= i < len,
                elements@.len() == len,
                elements@.to_multiset() == old(elements)@.to_multiset(),
                forall|a: Option<T>, b: Option<T>| call_requires(f, (a, b)),
                compare == Some(f),
                elements@.subrange(0, j as int) + elements@.subrange(j + 1, i + 1) == prefix,
                elements@[j as int] == moving,
                elements@.subrange(i + 1, len as int) == tail,
                j < i ==> placed_before(f, moving, elements@[j + 1]),
                stable_rearrangement(f, old(elements)@, elements@, perm),
            ensures
                stable_rearrangement(f, old(elements)@, elements@, perm),
                elements@.len() == len,
                elements@.to_multiset() == old(elements)@.to_multiset(),
                elements@.subrange(0, j as int) + elements@.subrange(j + 1, i + 1) == prefix,
                elements@[j as int] == moving,
                elements@.subrange(i + 1, len as int) == tail,
                j < i ==> placed_before(f, moving, elements@[j + 1]),
                j >= 1 ==> placed_before(f, elements@[j - 1], moving),
            decreases j,
        {
            let previous = elements[j - 1];
            let current = elements[j];
            let ordering = match f(previous, current) {
                Ok(o) => o,
                Err(e) => {
                    assert(stable_rearrangement(f, old(elements)@, elements@, perm));
                    assert(stably_rearranged(f, old(elements)@, elements@));
                    assert(call_ensures(f, (previous, current), Err::<i32, E>(e)));
                    assert(can_throw(f, e));
                    assert(!never_throws(f));
                    return Err(SortError::Thrown(e));
                },
            };
            if ordering > 0 {
                let ghost before = elements@;
                proof {
                    lemma_swap_adjacent_multiset(elements@, j as int);
                    assert(swapped_by(f, previous, current));
                    lemma_swap_keeps_stable(f, old(elements)@, elements@, perm, j as int);
                    perm = perm.update(j - 1, perm[j as int]).update(j as int, perm[j - 1]);
                }
                elements.set(j - 1, current);
                elements.set(j, previous);
                proof {
                    assert(placed_before(f, current, previous));
                    assert(elements@.subrange(0, j - 1) =~= before.subrange(0, j - 1));
                    assert(elements@.subrange(j as int, i + 1) =~= before.subrange(j - 1, j as int) + before.subrange(j + 1, i + 1));
                    assert(before.subrange(0, j as int) =~= before.subrange(0, j - 1).push(previous));
                    assert(elements@.subrange(0, j - 1) + elements@.subrange(j as int, i + 1) =~= before.subrange(0, j as int) + before.subrange(j + 1, i + 1));
                    assert(elements@.subrange(i + 1, len as int) =~= before.subrange(i + 1, len as int));
                }
                j = j - 1;
            } else {
                proof {
                    assert(placed_before(f, previous, current));
                }
                break;
            }
        }
        proof {
            let s = elements@.subrange(0, i + 1);
            assert(s.subrange(0, j as int) =~= elements@.subrange(0, j as int));
            assert(s.subrange(j + 1, s.len() as int) =~= elements@.subrange(j + 1, i + 1));
            lemma_insert_keeps_order(f, prefix, s, j as int, moving);
            assert(elements@.subrange(0, i + 1) =~= elements@.subrange(0, (i + 1) as int));
        }
        i = i + 1;
    }
    proof {
        assert(elements@.subrange(0, len as int) =~= elements@);
        assert(stable_rearrangement(f, old(elements)@, elements@, perm));
    }
    Ok(())
}

/// A compare function that answers by an order `le` (not positive: `a` may come first; positive:
/// `b` must) leaves a completed sort sorted by that order: every element is `le` every later one.
pub proof fn lemma_sorted_by_consistent_compare<T, E, F: Fn(Option<T>, Option<T>) -> Result<i32, E>>(
    f: F,
    le: spec_fn(Option<T>, Option<T>) -> bool,
    s: Seq<Option<T>>,
)
    requires
        forall|a: Option<T>, b: Option<T>, o: i32| #[trigger] call_ensures(f, (a, b), Ok::<i32, E>(o))
            ==> (o <= 0 ==> le(a, b)) && (o > 0 ==> le(b, a)),
        forall|a: Option<T>, b: Option<T>, c: Option<T>| #[trigger] le(a, b) && #[trigger] le(b, c) ==> le(a, c),
        ordered_by(f, s),
    ensures
        forall|i: int, j: int| 0 <= i < j < s.len() ==> le(s[i], s[j]),
{
    assert forall|i: int, j: int| 0 <= i < j < s.len() implies le(s[i], s[j]) by {
        lemma_sorted_from(f, le, s, i, j);
    }
}

proof fn lemma_sorted_from<T, E, F: Fn(Option<T>, Option<T>) -> Result<i32, E>>(
    f: F,
    le: spec_fn(Option<T>, Option<T>) -> bool,
    s: Seq<Option<T>>,
    i: int,
    j: int,
)
    requires
        forall|a: Option<T>, b: Option<T>, o: i32| #[trigger] call_ensures(f, (a, b), Ok::<i32, E>(o))
            ==> (o <= 0 ==> le(a, b)) && (o > 0 ==> le(b, a)),
        forall|a: Option<T>, b: Option<T>, c: Option<T>| #[trigger] le(a, b) && #[trigger] le(b, c) ==> le(a, c),
        ordered_by(f, s),
        0 <= i < j < s.len(),
    ensures
        le(s[i], s[j]),
    decreases j - i,
{
    assert(pair_placed(f, s, j - 1));
    assert(le(s[j - 1], s[j]));
    if i < j - 1 {
        lemma_sorted_from(f, le, s, i, j - 1);
    }
}

/// A compare function that answers by an order `le` (positive only where `a` may not come before
/// `b`) leaves equal elements in their original order: of two elements that are each `le` the
/// other, the one that came first still comes first.
pub proof fn lemma_sort_stable<T, E, F: Fn(Option<T>, Option<T>) -> Result<i32, E>>(
    f: F,
    le: spec_fn(Option<T>, Option<T>) -> bool,
    old: Seq<Option<T>>,
    new: Seq<Option<T>>,
    perm: Seq<int>,
)
    requires
        forall|a: Option<T>, b: Option<T>, o: i32| #[trigger] call_ensures(f, (a, b), Ok::<i32, E>(o)) ==> (o > 0 ==> !le(a, b)),
        stable_rearrangement(f, old, new, perm),
    ensures
        forall|k: int, l: int| 0 <= k < l < new.len() && le(new[k], new[l]) && le(new[l], new[k]) ==> perm[k] < perm[l],
{
    assert forall|k: int, l: int| 0 <= k < l < new.len() && le(new[k], new[l]) && le(new[l], new[k]) implies perm[k] < perm[l] by {
        assert(perm[k] != perm[l]);
        if perm[k] > perm[l] {
            assert(swapped_by(f, new[l], new[k]));
            let o = choose|o: i32| o > 0 && #[trigger] call_ensures(f, (new[l], new[k]), Ok::<i32, E>(o));
        }
    }
}

/// Inserting `x` at `j` into a sequence whose neighbours are in order keeps them in order, when
/// `x` is placed after its left neighbour and before its right one.
proof fn lemma_insert_keeps_order<T, E, F: Fn(Option<T>, Option<T>) -> Result<i32, E>>(f: F, prefix: Seq<Option<T>>, s: Seq<Option<T>>, j: int, x: Option<T>)
    requires
        ordered_by(f, prefix),
        s.len() == prefix.len() + 1,
        0 <= j < s.len(),
        s.subrange(0, j) + s.subrange(j + 1, s.len() as int) == prefix,
        s[j] == x,
        j + 1 < s.len() ==> placed_before(f, x, s[j + 1]),
        j >= 1 ==> placed_before(f, s[j - 1], x),
    ensures
        ordered_by(f, s),
{
    assert forall|k: int| 0 <= k < s.len() - 1 implies #[trigger] pair_placed(f, s, k) by {
        if k + 1 < j {
            assert(s[k] == prefix[k]);
            assert(s[k + 1] == prefix[k + 1]);
            assert(pair_placed(f, prefix, k));
        } else if k + 1 == j {
        } else if k == j {
        } else {
            assert(s[k] == prefix[k - 1]);
            assert(s[k + 1] == prefix[k]);
            assert(pair_placed(f, prefix, k - 1));
        }
    }
}

/// Whether the strict-equality test reported the element at `k` equal to the search element.
pub open spec fn reported<T, F: Fn(Option<T>, Option<T>) -> bool>(same: F, elements: Seq<Option<T>>, search: Option<T>, k: int, result: bool) -> bool {
    call_ensures(same, (element_at(elements, k), search), result)
}

/// The outcome of searching `from..to` upwards: the first index where the test reported a match,
/// with a mismatch reported at every index before it; or `None` with a mismatch reported at every
/// index.
pub open spec fn found_first<T, F: Fn(Option<T>, Option<T>) -> bool>(same: F, elements: Seq<Option<T>>, search: Option<T>, from: int, to: int, r: Option<usize>) -> bool {
    match r {
        Some(k) => from <= k < to && reported(same, elements, search, k as int, true) && forall|j: int|
            from <= j < k ==> #[trigger] reported(same, elements, search, j, false),
        None => forall|j: int| from <= j < to ==> #[trigger] reported(same, elements, search, j, false),
    }
}

/// `Array.prototype.includes`: whether the strict-equality test `same` reports some element equal to
/// the search element.
pub fn includes<T: Copy, F: Fn(Option<T>, Option<T>) -> bool>(elements: &Vec<Option<T>>, search: Option<T>, same: F) -> (r: bool)
    requires
        forall|a: Option<T>, b: Option<T>| call_requires(same, (a, b)),
    ensures
        r ==> exists|k: int| 0 <= k < elements@.len() && #[trigger] reported(same, elements@, search, k, true),
        !r ==> forall|k: int| 0 <= k < elements@.len() ==> #[trigger] reported(same, elements@, search, k, false),
{
    let mut k: usize = 0;
    while k < elements.len()
        invariant
            k <= elements@.len(),
            forall|a: Option<T>, b: Option<T>| call_requires(same, (a, b)),
            forall|j: int| 0 <= j < k ==> #[trigger] reported(same, elements@, search, j, false),
        decreases elements@.len() - k,
    {
        if same(elements[k], search) {
            assert(reported(same, elements@, search, k as int, true));
            return true;
        }
        k = k + 1;
    }
    false
}

/// A search position after conversion to an integer: infinite, or a finite value on either side of
/// zero (negative zero counts as negative, and is `Negative(0)`). Finite values are taken as
/// `usize` or `isize` the way a float is converted, saturating.
pub enum SearchStart {
    PosInfinity,
    NegInfinity,
    NonNegative(usize),
    Negative(isize),
}

/// Where the upward search of `indexOf` starts.
pub open spec fn index_of_start(len: int, from: SearchStart) -> int {
    match from {
        SearchStart::NonNegative(n) => n as int,
        SearchStart::Negative(n) => if len + n < 0 { 0 } else { len + n },
        _ => 0,
    }
}

fn search_up<T: Copy, F: Fn(Option<T>, Option<T>) -> bool>(elements: &Vec<Option<T>>, search: Option<T>, from: usize, same: &F) -> (r: Option<usize>)
    requires
        forall|a: Option<T>, b: Option<T>| call_requires(*same, (a, b)),
    ensures
        found_first(*same, elements@, search, from as int, elements@.len() as int, r),
{
    let mut k = from;
    while k < elements.len()
        invariant
            from <= k,
            forall|a: Option<T>, b: Option<T>| call_requires(*same, (a, b)),
            forall|j: int| from <= j < k && j < elements@.len() ==> #[trigger] reported(*same, elements@, search, j, false),
        decreases elements@.len() - k,
    {
        if same(elements[k], search) {
            return Some(k);
        }
        k = k + 1;
    }
    None
}

/// How the start of `indexOf` relates across its forms: a negative start `n` names position
/// `len + n`, as that non-negative start does, and 0 when that is still negative.
pub proof fn lemma_index_of_starts<T, F: Fn(Option<T>, Option<T>) -> bool>(
    same: F,
    elements: Seq<Option<T>>,
    search: Option<T>,
    r: Option<usize>,
    n: isize,
)
    ensures
        n < 0 && elements.len() + n >= 0 && elements.len() <= usize::MAX ==> (found_first(
            same,
            elements,
            search,
            index_of_start(elements.len() as int, SearchStart::Negative(n)),
            elements.len() as int,
            r,
        ) <==> found_first(
            same,
            elements,
            search,
            index_of_start(elements.len() as int, SearchStart::NonNegative((elements.len() + n) as usize)),
            elements.len() as int,
            r,
        )),
        n < 0 && elements.len() + n < 0 ==> (found_first(
            same,
            elements,
            search,
            index_of_start(elements.len() as int, SearchStart::Negative(n)),
            elements.len() as int,
            r,
        ) <==> found_first(
            same,
            elements,
            search,
            index_of_start(elements.len() as int, SearchStart::NonNegative(0)),
            elements.len() as int,
            r,
        )),
{
}

/// `Array.prototype.indexOf`: the first index at or after the start where the strict-equality test
/// `same` reports a match, `None` standing for -1. An empty array and a start at +Infinity give
/// -1; a start at -Infinity gives 0 without a search; a negative start counts from the end (and
/// not below zero).
pub fn index_of<T: Copy, F: Fn(Option<T>, Option<T>) -> bool>(elements: &Vec<Option<T>>, search: Option<T>, from: SearchStart, same: F) -> (r: Option<usize>)
    requires
        forall|a: Option<T>, b: Option<T>| call_requires(same, (a, b)),
        from matches SearchStart::Negative(n) ==> n <= 0,
    ensures
        elements@.len() == 0 ==> r is None,
        elements@.len() > 0 ==> match from {
            SearchStart::PosInfinity => r is None,
            SearchStart::NegInfinity => r == Some(0usize),
            _ => found_first(same, elements@, search, index_of_start(elements@.len() as int, from), elements@.len() as int, r),
        },
{
    let len = elements.len();
    if len == 0 {
        return None;
    }
    let start = match from {
        SearchStart::PosInfinity => {
            return None;
        },
        SearchStart::NegInfinity => {
            return Some(0);
        },
        SearchStart::NonNegative(n) => n,
        SearchStart::Negative(n) => {
            let k = len as i128 + n as i128;
            if k < 0 {
                0
            } else {
                k as usize
            }
        },
    };
    search_up(elements, search, start, &same)
}

/// Where the downward search of `lastIndexOf` starts: from the last element when no start is
/// given; a non-negative start is capped at the last element; a negative start counts from the
/// end, and searches from the first element when that is still negative.
pub open spec fn last_index_of_start(len: int, from: Option<SearchStart>) -> int {
    match from {
        None => len - 1,
        Some(SearchStart::NonNegative(n)) => if n < len - 1 { n as int } else { len - 1 },
        Some(SearchStart::PosInfinity) => len - 1,
        Some(SearchStart::Negative(n)) => if len + n < 0 { 0 } else { len + n },
        Some(SearchStart::NegInfinity) => -1,
    }
}

/// What `lastIndexOf` may answer: nothing for an empty array; otherwise the highest index at or
/// below the start where the test reported a match, with a mismatch reported at every index
/// between it and the start, or nothing with a mismatch reported at every index up to the start.
pub open spec fn last_found<T, F: Fn(Option<T>, Option<T>) -> bool>(
    same: F,
    elements: Seq<Option<T>>,
    search: Option<T>,
    from: Option<SearchStart>,
    r: Option<usize>,
) -> bool {
    if elements.len() == 0 {
        r is None
    } else {
        let start = last_index_of_start(elements.len() as int, from);
        match r {
            Some(k) => 0 <= k <= start && reported(same, elements, search, k as int, true) && forall|j: int|
                k < j <= start ==> #[trigger] reported(same, elements, search, j, false),
            None => forall|j: int| 0 <= j <= start ==> #[trigger] reported(same, elements, search, j, false),
        }
    }
}

/// How the start of `lastIndexOf` relates across its forms: a negative start `n` names position
/// `len + n`, so -1 is the last element, as if no start were given, and `len + n` given as a
/// non-negative start searches the same; one that reaches back past the first element searches
/// from the first; +Infinity, or a non-negative start at or past the last element, is the same as
/// no start.
pub proof fn lemma_last_index_of_starts<T, F: Fn(Option<T>, Option<T>) -> bool>(
    same: F,
    elements: Seq<Option<T>>,
    search: Option<T>,
    r: Option<usize>,
    n: isize,
    m: usize,
)
    ensures
        last_found(same, elements, search, Some(SearchStart::Negative(-1isize)), r) <==> last_found(
            same,
            elements,
            search,
            None,
            r,
        ),
        n < 0 && elements.len() + n >= 0 && elements.len() <= usize::MAX ==> (last_found(same, elements, search, Some(SearchStart::Negative(n)), r)
            <==> last_found(same, elements, search, Some(SearchStart::NonNegative((elements.len() + n) as usize)), r)),
        n < 0 && elements.len() + n < 0 ==> (last_found(same, elements, search, Some(SearchStart::Negative(n)), r)
            <==> last_found(same, elements, search, Some(SearchStart::NonNegative(0)), r)),
        last_found(same, elements, search, Some(SearchStart::PosInfinity), r) <==> last_found(
            same,
            elements,
            search,
            None,
            r,
        ),
        m + 1 >= elements.len() ==> (last_found(same, elements, search, Some(SearchStart::NonNegative(m)), r)
            <==> last_found(same, elements, search, None, r)),
{
}

/// `Array.prototype.lastIndexOf`: the last index at or before the start where the strict-equality
/// test `same` reports a match, `None` standing for -1.
pub fn last_index_of<T: Copy, F: Fn(Option<T>, Option<T>) -> bool>(elements: &Vec<Option<T>>, search: Option<T>, from: Option<SearchStart>, same: F) -> (r: Option<usize>)
    requires
        forall|a: Option<T>, b: Option<T>| call_requires(same, (a, b)),
        from matches Some(SearchStart::Negative(n)) ==> n <= 0,
    ensures
        last_found(same, elements@, search, from, r),
{
    let len = elements.len();
    if len == 0 {
        return None;
    }
    let start: usize = match from {
        None => len - 1,
        Some(SearchStart::NonNegative(n)) => if n < len - 1 { n } else { len - 1 },
        Some(SearchStart::PosInfinity) => len - 1,
        Some(SearchStart::Negative(n)) => {
            let k = len as i128 + n as i128;
            if k < 0 {
                0
            } else {
                k as usize
            }
        },
        Some(SearchStart::NegInfinity) => {
            return None;
        },
    };
    let mut k: usize = start;
    loop
        invariant
            k <= start,
            start <= len,
            len == elements@.len(),
            len > 0,
            start == last_index_of_start(len as int, from),
            forall|a: Option<T>, b: Option<T>| call_requires(same, (a, b)),
            forall|j: int| k < j <= start ==> #[trigger] reported(same, elements@, search, j, false),
        decreases k,
    {
        let v = if k < len {
            elements[k]
        } else {
            None
        };
        if same(v, search) {
            return Some(k);
        }
        if k == 0 {
            return None;
        }
        k = k - 1;
    }
}

// The methods below call back for each element that is present: here `None` stands for a hole,
// an index that the array has no element at (an element that is `undefined` is a `T`). The
// callback stands for the JavaScript one, applied to the element, its index and the array with the
// requested `this`, its result converted as the method needs.

/// The callback, called on the element at `k`, which is no hole, gave `r`.
pub open spec fn answered<T, R, F: Fn(T, usize) -> R>(f: F, elements: Seq<Option<T>>, k: int, r: R) -> bool {
    elements[k] matches Some(v) && call_ensures(f, (v, k as usize), r)
}

/// The callback gave `r` for every element before `k` that is no hole.
pub open spec fn answered_all<T, R, F: Fn(T, usize) -> R>(f: F, elements: Seq<Option<T>>, k: int, r: R) -> bool {
    forall|j: int| 0 <= j < k && elements[j] is Some ==> #[trigger] answered(f, elements, j, r)
}

/// The first element that is no hole and for which the callback did not give `go`: it gave `r`
/// there, and `go` for every element before it.
pub open spec fn first_other<T, R, F: Fn(T, usize) -> R>(f: F, elements: Seq<Option<T>>, go: R, r: R) -> bool {
    exists|k: int| 0 <= k < elements.len() && #[trigger] answered(f, elements, k, r) && answered_all(f, elements, k, go)
}

/// Calls back for each element that is no hole, in index order, until the callback gives
/// something other than `Ok(go)`; returns where it stopped and what the callback gave there.
fn scan_until<T: Copy, E, F: Fn(T, usize) -> Result<bool, E>>(elements: &Vec<Option<T>>, f: &F, go: bool) -> (r: Option<(usize, Result<bool, E>)>)
    requires
        forall|v: T, k: usize| call_requires(*f, (v, k)),
    ensures
        r is None ==> answered_all(*f, elements@, elements@.len() as int, Ok::<bool, E>(go)),
        r matches Some((k, x)) ==> k < elements@.len() && answered(*f, elements@, k as int, x)
            && x != Ok::<bool, E>(go) && answered_all(*f, elements@, k as int, Ok::<bool, E>(go)),
{
    let mut k: usize = 0;
    while k < elements.len()
        invariant
            k <= elements@.len(),
            forall|v: T, k: usize| call_requires(*f, (v, k)),
            answered_all(*f, elements@, k as int, Ok::<bool, E>(go)),
        decreases elements@.len() - k,
    {
        match elements[k] {
            None => {},
            Some(v) => {
                let x = f(v, k);
                let stop = match &x {
                    Ok(b) => *b != go,
                    Err(_) => true,
                };
                if stop {
                    return Some((k, x));
                }
            },
        }
        k = k + 1;
    }
    None
}

/// `Array.prototype.every`: whether the callback gives `true` for every element. It stops at the
/// first element the callback gives `false` for, and throws what the callback throws.
pub fn every<T: Copy, E, F: Fn(T, usize) -> Result<bool, E>>(elements: &Vec<Option<T>>, callback: F) -> (r: Result<bool, E>)
    requires
        forall|v: T, k: usize| call_requires(callback, (v, k)),
    ensures
        match r {
            Ok(true) => answered_all(callback, elements@, elements@.len() as int, Ok::<bool, E>(true)),
            Ok(false) => first_other(callback, elements@, Ok::<bool, E>(true), Ok::<bool, E>(false)),
            Err(x) => first_other(callback, elements@, Ok::<bool, E>(true), Err::<bool, E>(x)),
        },
{
    let f = &callback;
    let stop = scan_until(elements, f, true);
    assert(*f == callback);
    match stop {
        None => Ok(true),
        Some((k, x)) => {
            assert(answered(callback, elements@, k as int, x));
            match x {
                Ok(b) => {
                    assert(b == false);
                    assert(answered(callback, elements@, k as int, Ok::<bool, E>(false)));
                    Ok(false)
                },
                Err(e) => Err(e),
            }
        },
    }
}

/// `Array.prototype.some`: whether the callback gives `true` for some element. It stops at the
/// first element the callback gives `true` for, and throws what the callback throws.
pub fn some<T: Copy, E, F: Fn(T, usize) -> Result<bool, E>>(elements: &Vec<Option<T>>, callback: F) -> (r: Result<bool, E>)
    requires
        forall|v: T, k: usize| call_requires(callback, (v, k)),
    ensures
        match r {
            Ok(false) => answered_all(callback, elements@, elements@.len() as int, Ok::<bool, E>(false)),
            Ok(true) => first_other(callback, elements@, Ok::<bool, E>(false), Ok::<bool, E>(true)),
            Err(x) => first_other(callback, elements@, Ok::<bool, E>(false), Err::<bool, E>(x)),
        },
{
    let f = &callback;
    let stop = scan_until(elements, f, false);
    assert(*f == callback);
    match stop {
        None => Ok(false),
        Some((k, x)) => {
            assert(answered(callback, elements@, k as int, x));
            match x {
                Ok(b) => {
                    assert(b == true);
                    assert(answered(callback, elements@, k as int, Ok::<bool, E>(true)));
                    Ok(true)
                },
                Err(e) => Err(e),
            }
        },
    }
}

/// `Array.prototype.find`: the first element the callback gives `true` for; `None` (which the
/// caller turns into `undefined`) where there is none. It throws what the callback throws.
pub fn find<T: Copy, E, F: Fn(T, usize) -> Result<bool, E>>(elements: &Vec<Option<T>>, callback: F) -> (r: Result<Option<T>, E>)
    requires
        forall|v: T, k: usize| call_requires(callback, (v, k)),
    ensures
        match r {
            Ok(None) => answered_all(callback, elements@, elements@.len() as int, Ok::<bool, E>(false)),
            Ok(Some(v)) => exists|k: int| 0 <= k < elements@.len() && elements@[k] == Some(v)
                && #[trigger] answered(callback, elements@, k, Ok::<bool, E>(true))
                && answered_all(callback, elements@, k, Ok::<bool, E>(false)),
            Err(x) => first_other(callback, elements@, Ok::<bool, E>(false), Err::<bool, E>(x)),
        },
{
    let f = &callback;
    let stop = scan_until(elements, f, false);
    assert(*f == callback);
    match stop {
        None => Ok(None),
        Some((k, x)) => {
            assert(answered(callback, elements@, k as int, x));
            match x {
                Ok(b) => {
                    assert(b == true);
                    assert(answered(callback, elements@, k as int, Ok::<bool, E>(true)));
                    Ok(elements[k])
                },
                Err(e) => Err(e),
            }
        },
    }
}

/// `Array.prototype.findIndex`: the index of the first element the callback gives `true` for;
/// `None` (which the caller turns into `-1`) where there is none. It throws what the callback
/// throws.
pub fn find_index<T: Copy, E, F: Fn(T, usize) -> Result<bool, E>>(elements: &Vec<Option<T>>, callback: F) -> (r: Result<Option<usize>, E>)
    requires
        forall|v: T, k: usize| call_requires(callback, (v, k)),
    ensures
        match r {
            Ok(None) => answered_all(callback, elements@, elements@.len() as int, Ok::<bool, E>(false)),
            Ok(Some(k)) => k < elements@.len() && answered(callback, elements@, k as int, Ok::<bool, E>(true))
                && answered_all(callback, elements@, k as int, Ok::<bool, E>(false)),
            Err(x) => first_other(callback, elements@, Ok::<bool, E>(false), Err::<bool, E>(x)),
        },
{
    let f = &callback;
    let stop = scan_until(elements, f, false);
    assert(*f == callback);
    match stop {
        None => Ok(None),
        Some((k, x)) => {
            assert(answered(callback, elements@, k as int, x));
            match x {
                Ok(b) => {
                    assert(b == true);
                    assert(answered(callback, elements@, k as int, Ok::<bool, E>(true)));
                    Ok(Some(k))
                },
                Err(e) => Err(e),
            }
        },
    }
}

/// `Array.prototype.forEach`: calls back for every element, stopping only when the callback
/// throws, which it throws again.
pub fn for_each<T: Copy, E, F: Fn(T, usize) -> Result<(), E>>(elements: &Vec<Option<T>>, callback: F) -> (r: Result<(), E>)
    requires
        forall|v: T, k: usize| call_requires(callback, (v, k)),
    ensures
        match r {
            Ok(()) => answered_all(callback, elements@, elements@.len() as int, Ok::<(), E>(())),
            Err(x) => first_other(callback, elements@, Ok::<(), E>(()), Err::<(), E>(x)),
        },
{
    let mut k: usize = 0;
    while k < elements.len()
        invariant
            k <= elements@.len(),
            forall|v: T, k: usize| call_requires(callback, (v, k)),
            answered_all(callback, elements@, k as int, Ok::<(), E>(())),
        decreases elements@.len() - k,
    {
        match elements[k] {
            None => {},
            Some(v) => {
                let res = callback(v, k);
                match res {
                    Ok(u) => {
                        assert(u == ());
                        assert(res == Ok::<(), E>(()));
                        assert(answered(callback, elements@, k as int, Ok::<(), E>(())));
                    },
                    Err(e) => {
                        assert(answered(callback, elements@, k as int, Err::<(), E>(e)));
                        return Err(e);
                    },
                }
            },
        }
        k = k + 1;
    }
    Ok(())
}

/// `answers[j]` is what the callback gave for each element before `k` that is no hole (the
/// entries for holes say nothing).
pub open spec fn answers_given<T, U, E, F: Fn(T, usize) -> Result<U, E>>(f: F, elements: Seq<Option<T>>, answers: Seq<U>, k: int) -> bool {
    &&& answers.len() == k
    &&& forall|j: int| 0 <= j < k && elements[j] is Some ==> #[trigger] answered(f, elements, j, Ok::<U, E>(answers[j]))
}

/// The elements that are no hole and whose answer in `keep` is `true`, in order.
pub open spec fn selected<T>(elements: Seq<Option<T>>, keep: Seq<bool>) -> Seq<T>
    decreases elements.len(),
{
    if elements.len() == 0 {
        Seq::empty()
    } else {
        let rest = selected(elements.drop_last(), keep.drop_last());
        match elements.last() {
            Some(v) => if keep.last() {
                rest.push(v)
            } else {
                rest
            },
            None => rest,
        }
    }
}

/// The answers for the elements that are no hole, in order.
pub open spec fn present_answers<T, U>(elements: Seq<Option<T>>, answers: Seq<U>) -> Seq<U>
    decreases elements.len(),
{
    if elements.len() == 0 {
        Seq::empty()
    } else {
        let rest = present_answers(elements.drop_last(), answers.drop_last());
        if elements.last() is Some {
            rest.push(answers.last())
        } else {
            rest
        }
    }
}

/// The callback threw `x` at the first element that is no hole for which it did not answer, all
/// elements before having been answered as `answers` says.
pub open spec fn thrown_after<T, U, E, F: Fn(T, usize) -> Result<U, E>>(f: F, elements: Seq<Option<T>>, x: E) -> bool {
    exists|answers: Seq<U>, k: int| 0 <= k < elements.len() && #[trigger] answers_given(f, elements, answers, k)
        && answered(f, elements, k, Err::<U, E>(x))
}

/// `Array.prototype.filter`: the elements the callback gives `true` for, in order (holes are
/// skipped). It throws what the callback throws.
pub fn filter<T: Copy, E, F: Fn(T, usize) -> Result<bool, E>>(elements: &Vec<Option<T>>, callback: F) -> (r: Result<Vec<T>, E>)
    requires
        forall|v: T, k: usize| call_requires(callback, (v, k)),
    ensures
        match r {
            Ok(out) => exists|keep: Seq<bool>| #[trigger] answers_given(callback, elements@, keep, elements@.len() as int)
                && out@ == selected(elements@, keep),
            Err(x) => thrown_after::<T, bool, E, F>(callback, elements@, x),
        },
{
    let mut out: Vec<T> = Vec::new();
    let ghost mut keep: Seq<bool> = Seq::empty();
    let mut k: usize = 0;
    while k < elements.len()
        invariant
            k <= elements@.len(),
            forall|v: T, k: usize| call_requires(callback, (v, k)),
            answers_given(callback, elements@, keep, k as int),
            out@ == selected(elements@.take(k as int), keep),
        decreases elements@.len() - k,
    {
        let ghost before = keep;
        proof {
            assert(elements@.take(k + 1).drop_last() =~= elements@.take(k as int));
        }
        match elements[k] {
            None => {
                proof {
                    keep = keep.push(false);
                    assert(keep.drop_last() =~= before);
                }
            },
            Some(v) => {
                let res = callback(v, k);
                match res {
                    Ok(b) => {
                        proof {
                            keep = keep.push(b);
                            assert(keep.drop_last() =~= before);
                            assert(answered(callback, elements@, k as int, Ok::<bool, E>(b)));
                        }
                        if b {
                            out.push(v);
                        }
                    },
                    Err(e) => {
                        proof {
                            assert(answered(callback, elements@, k as int, Err::<bool, E>(e)));
                            assert(answers_given(callback, elements@, keep, k as int));
                        }
                        return Err(e);
                    },
                }
            },
        }
        proof {
            assert forall|j: int| 0 <= j < k + 1 && elements@[j] is Some implies #[trigger] answered(callback, elements@, j, Ok::<bool, E>(keep[j])) by {
                if j < k {
                    assert(answered(callback, elements@, j, Ok::<bool, E>(before[j])));
                }
            }
        }
        k = k + 1;
    }
    proof {
        assert(elements@.take(elements@.len() as int) =~= elements@);
        assert(answers_given(callback, elements@, keep, elements@.len() as int));
    }
    Ok(out)
}

/// `Array.prototype.map`: what the callback gives for each element that is no hole, in order
/// (holes are skipped, so the result has no holes). It throws what the callback throws.
pub fn map<T: Copy, U, E, F: Fn(T, usize) -> Result<U, E>>(elements: &Vec<Option<T>>, callback: F) -> (r: Result<Vec<U>, E>)
    requires
        forall|v: T, k: usize| call_requires(callback, (v, k)),
    ensures
        match r {
            Ok(out) => exists|answers: Seq<U>| #[trigger] answers_given(callback, elements@, answers, elements@.len() as int)
                && out@ == present_answers(elements@, answers),
            Err(x) => thrown_after::<T, U, E, F>(callback, elements@, x),
        },
{
    let mut out: Vec<U> = Vec::new();
    let ghost mut answers: Seq<U> = Seq::empty();
    let mut k: usize = 0;
    while k < elements.len()
        invariant
            k <= elements@.len(),
            forall|v: T, k: usize| call_requires(callback, (v, k)),
            answers_given(callback, elements@, answers, k as int),
            out@ == present_answers(elements@.take(k as int), answers),
        decreases elements@.len() - k,
    {
        let ghost before = answers;
        proof {
            assert(elements@.take(k + 1).drop_last() =~= elements@.take(k as int));
        }
        match elements[k] {
            None => {
                proof {
                    answers = answers.push(vstd::pervasive::arbitrary());
                    assert(answers.drop_last() =~= before);
                }
            },
            Some(v) => {
                let res = callback(v, k);
                match res {
                    Ok(u) => {
                        proof {
                            answers = answers.push(u);
                            assert(answers.drop_last() =~= before);
                            assert(answered(callback, elements@, k as int, Ok::<U, E>(u)));
                        }
                        out.push(u);
                    },
                    Err(e) => {
                        proof {
                            assert(answered(callback, elements@, k as int, Err::<U, E>(e)));
                            assert(answers_given(callback, elements@, answers, k as int));
                        }
                        return Err(e);
                    },
                }
            },
        }
        proof {
            assert forall|j: int| 0 <= j < k + 1 && elements@[j] is Some implies #[trigger] answered(callback, elements@, j, Ok::<U, E>(answers[j])) by {
                if j < k {
                    assert(answered(callback, elements@, j, Ok::<U, E>(before[j])));
                }
            }
        }
        k = k + 1;
    }
    proof {
        assert(elements@.take(elements@.len() as int) =~= elements@);
        assert(answers_given(callback, elements@, answers, elements@.len() as int));
    }
    Ok(out)
}

/// Why `Array.prototype.reduce` threw.
#[derive(Debug, PartialEq, Eq)]
pub enum ReduceError<E> {
    /// The array was empty and no initial value was given.
    EmptyWithoutInitialValue(JsError),
    /// The callback threw.
    Thrown(E),
}

/// Step `i` of a chain of accumulators over the elements from `start` on: the callback gave the
/// next accumulator for the one before, the element and its index.
pub open spec fn reduce_step<T, E, F: Fn(T, T, usize) -> Result<T, E>>(f: F, elements: Seq<T>, start: int, accs: Seq<T>, i: int) -> bool {
    call_ensures(f, (accs[i], elements[start + i], (start + i) as usize), Ok::<T, E>(accs[i + 1]))
}

/// `accs` is a chain of `n` steps over the elements from `start` on.
pub open spec fn reduce_chain<T, E, F: Fn(T, T, usize) -> Result<T, E>>(f: F, elements: Seq<T>, start: int, accs: Seq<T>, n: int) -> bool {
    &&& accs.len() == n + 1
    &&& forall|i: int| 0 <= i < n ==> #[trigger] reduce_step(f, elements, start, accs, i)
}

/// What folding the elements from `start` on into `acc` gives: the last accumulator of a full
/// chain, or what the callback threw at some step after a chain up to it.
pub open spec fn folded<T, E, F: Fn(T, T, usize) -> Result<T, E>>(f: F, elements: Seq<T>, start: int, acc: T, r: Result<T, E>) -> bool {
    match r {
        Ok(v) => exists|accs: Seq<T>| #[trigger] reduce_chain(f, elements, start, accs, elements.len() - start)
            && accs[0] == acc && v == accs.last(),
        Err(x) => exists|accs: Seq<T>, n: int| 0 <= n < elements.len() - start
            && #[trigger] reduce_chain(f, elements, start, accs, n) && accs[0] == acc
            && call_ensures(f, (accs[n], elements[start + n], (start + n) as usize), Err::<T, E>(x)),
    }
}

fn fold_from<T: Copy, E, F: Fn(T, T, usize) -> Result<T, E>>(elements: &Vec<T>, start: usize, acc: T, f: &F) -> (r: Result<T, E>)
    requires
        start <= elements@.len(),
        forall|a: T, b: T, k: usize| call_requires(*f, (a, b, k)),
    ensures
        folded(*f, elements@, start as int, acc, r),
{
    let mut accumulator = acc;
    let ghost mut accs: Seq<T> = seq![acc];
    let mut k = start;
    while k < elements.len()
        invariant
            start <= k <= elements@.len(),
            forall|a: T, b: T, k: usize| call_requires(*f, (a, b, k)),
            reduce_chain(*f, elements@, start as int, accs, k - start),
            accs[0] == acc,
            accs.last() == accumulator,
        decreases elements@.len() - k,
    {
        let res = f(accumulator, elements[k], k);
        match res {
            Ok(next) => {
                proof {
                    let old_accs = accs;
                    accs = accs.push(next);
                    assert(reduce_step(*f, elements@, start as int, accs, k - start));
                    assert forall|i: int| 0 <= i < k + 1 - start implies #[trigger] reduce_step(*f, elements@, start as int, accs, i) by {
                        if i < k - start {
                            assert(reduce_step(*f, elements@, start as int, old_accs, i));
                        }
                    }
                }
                accumulator = next;
            },
            Err(e) => {
                proof {
                    assert(reduce_chain(*f, elements@, start as int, accs, k - start));
                }
                return Err(e);
            },
        }
        k = k + 1;
    }
    Ok(accumulator)
}

/// `Array.prototype.reduce` over the elements read one by one (a hole reads as `undefined`, which
/// the caller puts in its place): it folds the elements into the initial value with the callback,
/// from the first element on; without an initial value it starts with the first element, and
/// where there are at least two, with what the callback gives for the first two (the second at
/// index 1). An empty array without an initial value throws a `TypeError`; the callback's throws
/// are thrown again.
pub fn reduce<T: Copy, E, F: Fn(T, T, usize) -> Result<T, E>>(elements: &Vec<T>, initial: Option<T>, callback: F) -> (r: Result<T, ReduceError<E>>)
    requires
        forall|a: T, b: T, k: usize| call_requires(callback, (a, b, k)),
    ensures
        match initial {
            Some(i) => match r {
                Ok(v) => folded(callback, elements@, 0, i, Ok::<T, E>(v)),
                Err(ReduceError::Thrown(x)) => folded(callback, elements@, 0, i, Err::<T, E>(x)),
                Err(ReduceError::EmptyWithoutInitialValue(_)) => false,
            },
            None => if elements@.len() == 0 {
                r matches Err(ReduceError::EmptyWithoutInitialValue(e)) && thrown(e, ErrorKind::TypeError,
                    "Reduce of empty array with no initial value"@)
            } else if elements@.len() == 1 {
                r == Ok::<T, ReduceError<E>>(elements@[0])
            } else {
                match r {
                    Ok(v) => exists|first: T| #[trigger] call_ensures(callback, (elements@[0], elements@[1], 1usize), Ok::<T, E>(first))
                        && folded(callback, elements@, 2, first, Ok::<T, E>(v)),
                    Err(ReduceError::Thrown(x)) => call_ensures(callback, (elements@[0], elements@[1], 1usize), Err::<T, E>(x))
                        || exists|first: T| #[trigger] call_ensures(callback, (elements@[0], elements@[1], 1usize), Ok::<T, E>(first))
                        && folded(callback, elements@, 2, first, Err::<T, E>(x)),
                    Err(ReduceError::EmptyWithoutInitialValue(_)) => false,
                }
            },
        },
{
    let f = &callback;
    let len = elements.len();
    let (start, acc) = match initial {
        Some(i) => (0, i),
        None => {
            if len == 0 {
                return Err(
                    ReduceError::EmptyWithoutInitialValue(js_error(ErrorKind::TypeError, "Reduce of empty array with no initial value")),
                );
            }
            if len == 1 {
                return Ok(elements[0]);
            }
            let res = callback(elements[0], elements[1], 1);
            match res {
                Ok(first) => (2, first),
                Err(e) => {
                    return Err(ReduceError::Thrown(e));
                },
            }
        },
    };
    let folded_result = fold_from(elements, start, acc, f);
    assert(*f == callback);
    match folded_result {
        Ok(v) => Ok(v),
        Err(e) => Err(ReduceError::Thrown(e)),
    }
}

/// `Array.prototype.pop`: takes the last element off and returns it (`undefined` for a hole);
/// an empty array stays empty and gives `undefined`.
pub fn pop<T: Copy>(elements: &mut Vec<Option<T>>) -> (r: Option<T>)
    ensures
        old(elements)@.len() == 0 ==> r is None && final(elements)@ == old(elements)@,
        old(elements)@.len() > 0 ==> r == old(elements)@.last() && final(elements)@ == old(elements)@.drop_last(),
{
    match elements.pop() {
        Some(v) => v,
        None => None,
    }
}

/// `Array.prototype.shift`: takes the first element off, moving the others down by one, and
/// returns it (`undefined` for a hole); an empty array stays empty and gives `undefined`.
pub fn shift<T: Copy>(elements: &mut Vec<Option<T>>) -> (r: Option<T>)
    ensures
        old(elements)@.len() == 0 ==> r is None && final(elements)@ == old(elements)@,
        old(elements)@.len() > 0 ==> r == old(elements)@[0] && final(elements)@ == old(elements)@.drop_first(),
{
    let len = elements.len();
    if len == 0 {
        return None;
    }
    let first = elements[0];
    let mut k: usize = 1;
    while k < len
        invariant
            1 <= k <= len,
            len == old(elements)@.len(),
            elements@.len() == len,
            forall|j: int| 0 <= j < k - 1 ==> elements@[j] == old(elements)@[j + 1],
            forall|j: int| k - 1 < j < len ==> elements@[j] == old(elements)@[j],
        decreases len - k,
    {
        let v = elements[k];
        elements.set(k - 1, v);
        k = k + 1;
    }
    elements.pop();
    proof {
        assert(elements@ =~= old(elements)@.drop_first());
    }
    first
}

} // verus!
