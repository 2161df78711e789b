//! `Boolean.prototype` methods. The boolean a receiver holds (its `[[BooleanData]]` slot, or none
//! where it is no boolean) is read by the caller and handed in.
use vstd::prelude::*;

use crate::js_std::{js_error, thrown, ErrorKind, JsError};

verus! {

/// The text of a boolean.
pub open spec fn boolean_text(b: bool) -> Seq<char> {
    if b {
        seq!['t', 'r', 'u', 'e']
    } else {
        seq!['f', 'a', 'l', 's', 'e']
    }
}

/// `Boolean.prototype.toString`: `"true"` or `"false"`; a `TypeError` where the receiver holds
/// no boolean.
pub fn to_string(value: Option<bool>) -> (r: Result<String, JsError>)
    ensures
        match value {
            Some(b) => r matches Ok(s) && s@ == boolean_text(b),
            None => r matches Err(e) && thrown(e, ErrorKind::TypeError, "Boolean.prototype.toString called on non-boolean value"@),
        },
{
    match value {
        Some(true) => {
            proof {
                reveal_strlit("true");
            }
            Ok(String::from_str("true"))
        },
        Some(false) => {
            proof {
                reveal_strlit("false");
            }
            Ok(String::from_str("false"))
        },
        None => Err(js_error(ErrorKind::TypeError, "Boolean.prototype.toString called on non-boolean value")),
    }
}

/// `Boolean.prototype.valueOf`: the boolean itself; a `TypeError` where the receiver holds no
/// boolean.
pub fn value_of(value: Option<bool>) -> (r: Result<bool, JsError>)
    ensures
        match value {
            Some(b) => r == Ok::<bool, JsError>(b),
            None => r matches Err(e) && thrown(e, ErrorKind::TypeError, "Boolean.prototype.valueOf called on non-boolean value"@),
        },
{
    match value {
        Some(b) => Ok(b),
        None => Err(js_error(ErrorKind::TypeError, "Boolean.prototype.valueOf called on non-boolean value")),
    }
}

} // verus!
