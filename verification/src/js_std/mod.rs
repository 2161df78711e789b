use vstd::prelude::*;

pub mod array;
pub mod boolean;
pub mod global;
pub mod number;
pub mod string;

verus! {

/// The kind of JavaScript error that a built-in throws.
#[derive(Debug, Clone, Copy, PartialEq, Eq)]
pub enum ErrorKind {
    Error,
    TypeError,
    RangeError,
    SyntaxError,
}

/// An error that a built-in throws: its kind and its message.
#[derive(Debug, Clone, PartialEq, Eq)]
pub struct JsError {
    pub kind: ErrorKind,
    pub message: String,
}

/// The error is of the given kind and carries the given message.
pub open spec fn thrown(e: JsError, kind: ErrorKind, message: Seq<char>) -> bool {
    e.kind == kind && e.message@ == message
}

/// An error of the given kind with the given message.
pub fn js_error(kind: ErrorKind, message: &str) -> (r: JsError)
    ensures
        thrown(r, kind, message@),
{
    JsError { kind, message: message.to_owned() }
}

} // verus!
