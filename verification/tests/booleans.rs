use dash_vm::js_std::boolean;
use dash_vm::js_std::{ErrorKind, JsError};

#[test]
fn boolean_to_string() {
    assert_eq!(boolean::to_string(Some(true)), Ok("true".to_string()));
    assert_eq!(boolean::to_string(Some(false)), Ok("false".to_string()));
    assert_eq!(boolean::to_string(None), Err(JsError { kind: ErrorKind::TypeError, message: "Boolean.prototype.toString called on non-boolean value".to_string() }));
}

#[test]
fn boolean_value_of() {
    assert_eq!(boolean::value_of(Some(true)), Ok(true));
    assert_eq!(boolean::value_of(Some(false)), Ok(false));
    assert_eq!(boolean::value_of(None), Err(JsError { kind: ErrorKind::TypeError, message: "Boolean.prototype.valueOf called on non-boolean value".to_string() }));
}
