use dash_vm::js_std::array::{self, ReduceError, SearchStart, SortError};
use dash_vm::js_std::{ErrorKind, JsError};

fn arr(v: &[i32]) -> Vec<Option<i32>> {
    v.iter().map(|x| Some(*x)).collect()
}

fn strict(a: Option<i32>, b: Option<i32>) -> bool {
    a == b
}

#[test]
fn constructor_makes_holes() {
    let a: Vec<Option<i32>> = array::constructor(3);
    assert_eq!(a, vec![None, None, None]);
}

#[test]
fn not_implemented_methods_throw() {
    assert_eq!(array::entries(), Err(JsError { kind: ErrorKind::Error, message: "Not implemented".to_string() }));
    assert_eq!(array::keys(), Err(JsError { kind: ErrorKind::Error, message: "Not implemented".to_string() }));
    assert_eq!(array::flat(), Err(JsError { kind: ErrorKind::Error, message: "Not implemented".to_string() }));
}

#[test]
fn at_counts_from_the_end_for_negative_indices() {
    let a = arr(&[1, 2, 3]);
    assert_eq!(array::at(&a, 0), Some(1));
    assert_eq!(array::at(&a, -1), Some(3));
    assert_eq!(array::at(&a, 3), None);
    assert_eq!(array::at(&a, -4), None);
}

#[test]
fn fill_a_range() {
    let mut a = arr(&[1, 2, 3, 4, 5]);
    array::fill(&mut a, Some(0), 1, Some(3));
    assert_eq!(a, arr(&[1, 0, 0, 4, 5]));
    let mut a = arr(&[1, 2, 3, 4, 5]);
    array::fill(&mut a, Some(9), -2, None);
    assert_eq!(a, arr(&[1, 2, 3, 9, 9]));
    let mut a = arr(&[1, 2, 3]);
    array::fill(&mut a, Some(9), i64::MIN, Some(i64::MIN));
    assert_eq!(a, arr(&[1, 2, 3]));
    let mut a = arr(&[1, 2, 3]);
    array::fill(&mut a, Some(9), 2, Some(1));
    assert_eq!(a, arr(&[1, 2, 3]));
}

#[test]
fn reverse_twice_is_the_identity() {
    let mut a = arr(&[1, 2, 3, 4]);
    array::reverse(&mut a);
    assert_eq!(a, arr(&[4, 3, 2, 1]));
    array::reverse(&mut a);
    assert_eq!(a, arr(&[1, 2, 3, 4]));
    let mut b = arr(&[1, 2, 3]);
    array::reverse(&mut b);
    assert_eq!(b, arr(&[3, 2, 1]));
}

#[test]
fn push_appends_and_returns_the_last_argument() {
    let mut a = arr(&[1]);
    assert_eq!(array::push(&mut a, &[Some(2), Some(3)]), Some(3));
    assert_eq!(a, arr(&[1, 2, 3]));
    assert_eq!(array::push(&mut a, &[]), None);
    assert_eq!(a, vec![Some(1), Some(2), Some(3), None]);
}

#[test]
fn unshift_shifts_elements_right() {
    let mut a = arr(&[1, 2]);
    assert_eq!(array::unshift(&mut a, &[Some(0)]), 3);
    assert_eq!(a, arr(&[0, 1, 2]));
    let mut a = arr(&[1, 2, 3]);
    assert_eq!(array::unshift(&mut a, &[Some(0)]), 4);
    assert_eq!(a, arr(&[0, 1, 2, 3]));
    let mut a = arr(&[1, 2, 3]);
    assert_eq!(array::unshift(&mut a, &[Some(7), Some(8)]), 5);
    assert_eq!(a, arr(&[7, 8, 1, 2, 3]));
    let mut a = arr(&[1]);
    assert_eq!(array::unshift(&mut a, &[Some(5), Some(6), Some(7)]), 4);
    assert_eq!(a, arr(&[5, 6, 7, 1]));
    let mut a = arr(&[1, 2]);
    assert_eq!(array::unshift(&mut a, &[]), 2);
    assert_eq!(a, arr(&[1, 2]));
}

#[test]
fn slice_ranges() {
    let a = arr(&[1, 2, 3, 4]);
    assert_eq!(array::slice(&a, Some(1), Some(3)), arr(&[2, 3]));
    assert_eq!(array::slice(&a, Some(-2), None), arr(&[3, 4]));
    assert_eq!(array::slice(&a, None, None), a);
    assert_eq!(array::slice(&a, Some(3), Some(1)), vec![]);
    // Positions past the end read as undefined.
    assert_eq!(array::slice(&a, Some(3), Some(6)), vec![Some(4), None, None]);
}

#[test]
fn concat_flattens_the_arguments() {
    let r = array::concat(&arr(&[]), &[arr(&[1, 2]), arr(&[]), arr(&[3])]);
    assert_eq!(r, arr(&[1, 2, 3]));
}

#[test]
fn concat_puts_this_first() {
    let this = arr(&[1, 2]);
    let r = array::concat(&this, &[arr(&[3])]);
    assert_eq!(r, arr(&[1, 2, 3]));
    assert_eq!(this, arr(&[1, 2]));
    assert_eq!(array::concat(&arr(&[7]), &[]), arr(&[7]));
}

#[test]
fn join_skips_nullish_elements() {
    let parts = vec![Some("a".to_string()), None, Some("b".to_string())];
    assert_eq!(array::join(&parts, ","), b"a,,b".to_vec());
    assert_eq!(array::join(&[], ","), b"".to_vec());
    assert_eq!(array::join(&[Some("x".to_string())], "--"), b"x".to_vec());
}

#[test]
fn sort_with_a_compare_function() {
    let mut a = arr(&[3, 1, 2]);
    let r = array::sort(&mut a, Some(|x: Option<i32>, y: Option<i32>| -> Result<i32, ()> { Ok(x.unwrap() - y.unwrap()) }));
    assert!(r.is_ok());
    assert_eq!(a, arr(&[1, 2, 3]));
}

#[test]
fn sort_descending_and_empty() {
    let mut a = arr(&[5, 9, 1, 5, 7, 0]);
    let r = array::sort(&mut a, Some(|x: Option<i32>, y: Option<i32>| -> Result<i32, ()> { Ok(y.unwrap() - x.unwrap()) }));
    assert!(r.is_ok());
    assert_eq!(a, arr(&[9, 7, 5, 5, 1, 0]));
    let mut empty: Vec<Option<i32>> = Vec::new();
    let r = array::sort(&mut empty, Some(|x: Option<i32>, y: Option<i32>| -> Result<i32, ()> { Ok(x.unwrap() - y.unwrap()) }));
    assert!(r.is_ok());
    assert!(empty.is_empty());
}

#[test]
fn sort_without_a_compare_function_throws() {
    let mut a = arr(&[3, 1, 2]);
    let r = array::sort(&mut a, None::<fn(Option<i32>, Option<i32>) -> Result<i32, ()>>);
    assert!(matches!(&r, Err(SortError::MissingCompareFunction(e)) if e.kind == ErrorKind::Error
        && e.message.starts_with("Array.prototype.sort currently requires an explicit compare function")));
    assert_eq!(a, arr(&[3, 1, 2]));
}

#[test]
fn sort_stops_when_the_compare_function_throws() {
    let mut a = arr(&[3, 1, 2]);
    let r = array::sort(&mut a, Some(|_: Option<i32>, _: Option<i32>| -> Result<i32, &str> { Err("boom") }));
    assert!(matches!(r, Err(SortError::Thrown("boom"))));
    assert_eq!(a, arr(&[3, 1, 2]));
}

#[test]
fn includes_and_index_of() {
    let a = arr(&[1, 2, 3, 2]);
    assert!(array::includes(&a, Some(2), strict));
    assert!(!array::includes(&a, Some(9), strict));
    assert_eq!(array::index_of(&a, Some(2), SearchStart::NonNegative(0), strict), Some(1));
    assert_eq!(array::index_of(&a, Some(2), SearchStart::NonNegative(2), strict), Some(3));
    assert_eq!(array::index_of(&a, Some(2), SearchStart::Negative(-1), strict), Some(3));
    assert_eq!(array::index_of(&a, Some(9), SearchStart::NonNegative(0), strict), None);
    assert_eq!(array::index_of(&a, Some(2), SearchStart::PosInfinity, strict), None);
    // A start at -Infinity gives 0 without searching.
    assert_eq!(array::index_of(&a, Some(9), SearchStart::NegInfinity, strict), Some(0));
    // Negative zero starts at the length.
    assert_eq!(array::index_of(&a, Some(1), SearchStart::Negative(0), strict), None);
    assert_eq!(array::index_of(&arr(&[]), Some(1), SearchStart::NegInfinity, strict), None);
}

#[test]
fn last_index_of_searches_down() {
    let a = arr(&[1, 2, 3, 2]);
    assert_eq!(array::last_index_of(&a, Some(2), None, strict), Some(3));
    assert_eq!(array::last_index_of(&a, Some(2), Some(SearchStart::NonNegative(2)), strict), Some(1));
    assert_eq!(array::last_index_of(&a, Some(1), Some(SearchStart::Negative(-2)), strict), Some(0));
    assert_eq!(array::last_index_of(&a, Some(2), Some(SearchStart::NegInfinity), strict), None);
    // A start that is still negative after counting from the end searches the first element.
    assert_eq!(array::last_index_of(&a, Some(1), Some(SearchStart::Negative(-10)), strict), Some(0));
    assert_eq!(array::last_index_of(&a, Some(9), None, strict), None);
}

#[test]
fn every_and_some() {
    let a = arr(&[2, 4, 6]);
    assert_eq!(array::every(&a, |v: i32, _: usize| -> Result<bool, ()> { Ok(v % 2 == 0) }), Ok(true));
    assert_eq!(array::every(&a, |v: i32, _: usize| -> Result<bool, ()> { Ok(v < 5) }), Ok(false));
    assert_eq!(array::some(&a, |v: i32, _: usize| -> Result<bool, ()> { Ok(v > 5) }), Ok(true));
    assert_eq!(array::some(&a, |v: i32, _: usize| -> Result<bool, ()> { Ok(v > 6) }), Ok(false));
    // Holes are skipped.
    let holey = vec![Some(2), None, Some(4)];
    assert_eq!(array::every(&holey, |v: i32, _: usize| -> Result<bool, ()> { Ok(v % 2 == 0) }), Ok(true));
    let empty: Vec<Option<i32>> = Vec::new();
    assert_eq!(array::every(&empty, |_: i32, _: usize| -> Result<bool, ()> { Ok(false) }), Ok(true));
    assert_eq!(array::some(&empty, |_: i32, _: usize| -> Result<bool, ()> { Ok(true) }), Ok(false));
}

#[test]
fn every_stops_at_the_first_throw() {
    let a = arr(&[1, 2, 3]);
    let r = array::every(&a, |v: i32, k: usize| -> Result<bool, usize> { if v == 2 { Err(k) } else { Ok(true) } });
    assert_eq!(r, Err(1));
}

#[test]
fn find_and_find_index() {
    let a = vec![Some(5), None, Some(12), Some(8), Some(130)];
    assert_eq!(array::find(&a, |v: i32, _: usize| -> Result<bool, ()> { Ok(v > 10) }), Ok(Some(12)));
    assert_eq!(array::find_index(&a, |v: i32, _: usize| -> Result<bool, ()> { Ok(v > 10) }), Ok(Some(2)));
    assert_eq!(array::find(&a, |v: i32, _: usize| -> Result<bool, ()> { Ok(v > 1000) }), Ok(None));
    assert_eq!(array::find_index(&a, |v: i32, _: usize| -> Result<bool, ()> { Ok(v > 1000) }), Ok(None));
}

#[test]
fn for_each_visits_every_element() {
    let a = vec![Some(1), None, Some(3)];
    let seen = std::cell::RefCell::new(Vec::new());
    let r = array::for_each(&a, |v: i32, k: usize| -> Result<(), ()> {
        seen.borrow_mut().push((k, v));
        Ok(())
    });
    assert_eq!(r, Ok(()));
    assert_eq!(*seen.borrow(), vec![(0, 1), (2, 3)]);
    let r = array::for_each(&a, |v: i32, _: usize| -> Result<(), i32> { if v == 3 { Err(v) } else { Ok(()) } });
    assert_eq!(r, Err(3));
}

#[test]
fn filter_and_map() {
    let a = vec![Some(1), Some(2), None, Some(3), Some(4)];
    assert_eq!(array::filter(&a, |v: i32, _: usize| -> Result<bool, ()> { Ok(v % 2 == 0) }), Ok(vec![2, 4]));
    assert_eq!(array::map(&a, |v: i32, k: usize| -> Result<i64, ()> { Ok(v as i64 * 10 + k as i64) }), Ok(vec![10, 21, 33, 44]));
    assert_eq!(array::map(&a, |v: i32, _: usize| -> Result<i32, &str> { if v == 3 { Err("three") } else { Ok(v) } }), Err("three"));
    assert_eq!(array::filter(&a, |v: i32, _: usize| -> Result<bool, i32> { if v > 1 { Err(v) } else { Ok(true) } }), Err(2));
}

#[test]
fn reduce_cases() {
    let add = |acc: i32, v: i32, _: usize| -> Result<i32, ()> { Ok(acc + v) };
    assert_eq!(array::reduce(&vec![1, 2, 3, 4], None, add), Ok(10));
    assert_eq!(array::reduce(&vec![1, 2, 3, 4], Some(100), add), Ok(110));
    assert_eq!(array::reduce(&vec![7], None, add), Ok(7));
    assert_eq!(array::reduce(&Vec::<i32>::new(), Some(5), add), Ok(5));
    assert_eq!(
        array::reduce(&Vec::<i32>::new(), None, add),
        Err(ReduceError::EmptyWithoutInitialValue(JsError {
            kind: ErrorKind::TypeError,
            message: "Reduce of empty array with no initial value".to_string()
        }))
    );
    // The indices handed to the callback: 1 for the first two elements, then their own.
    let indices = |acc: i32, _: i32, k: usize| -> Result<i32, ()> { Ok(acc * 10 + k as i32) };
    assert_eq!(array::reduce(&vec![0, 0, 0, 0], None, indices), Ok(123));
    let throws = |_: i32, v: i32, _: usize| -> Result<i32, i32> { Err(v) };
    assert_eq!(array::reduce(&vec![1, 2, 3], None, throws), Err(ReduceError::Thrown(2)));
}

#[test]
fn pop_and_shift() {
    let mut a = vec![Some(1), None, Some(3)];
    assert_eq!(array::pop(&mut a), Some(3));
    assert_eq!(array::pop(&mut a), None);
    assert_eq!(a, vec![Some(1)]);
    let mut b = vec![Some(1), Some(2), Some(3)];
    assert_eq!(array::shift(&mut b), Some(1));
    assert_eq!(b, vec![Some(2), Some(3)]);
    let mut empty: Vec<Option<i32>> = Vec::new();
    assert_eq!(array::pop(&mut empty), None);
    assert_eq!(array::shift(&mut empty), None);
    assert!(empty.is_empty());
}

#[test]
fn sort_is_stable() {
    let mut a: Vec<Option<(i32, char)>> = vec![Some((2, 'a')), Some((1, 'b')), Some((2, 'c')), Some((1, 'd')), Some((0, 'e'))];
    let r = array::sort(&mut a, Some(|x: Option<(i32, char)>, y: Option<(i32, char)>| -> Result<i32, ()> { Ok(x.unwrap().0 - y.unwrap().0) }));
    assert!(r.is_ok());
    assert_eq!(a, vec![Some((0, 'e')), Some((1, 'b')), Some((1, 'd')), Some((2, 'a')), Some((2, 'c'))]);
}
