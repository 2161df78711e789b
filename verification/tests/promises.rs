use dash_vm::localscope::{drive_promise, PromiseState};
use dash_vm::PromiseAction;

fn pending() -> PromiseState<&'static str, i32> {
    PromiseState::Pending { resolve: vec!["on_ok_1", "on_ok_2"], reject: vec!["on_err"] }
}

#[test]
fn resolve_runs_resolve_handlers() {
    let mut state = pending();
    let handlers = drive_promise(PromiseAction::Resolve, &mut state, 5);
    assert_eq!(handlers, vec!["on_ok_1", "on_ok_2"]);
    assert!(matches!(state, PromiseState::Resolved(5)));
}

#[test]
fn reject_with_handler_is_caught() {
    let mut state = pending();
    let handlers = drive_promise(PromiseAction::Reject, &mut state, 7);
    assert_eq!(handlers, vec!["on_err"]);
    assert!(matches!(state, PromiseState::Rejected { value: 7, caught: true }));
}

#[test]
fn reject_without_handler_is_uncaught() {
    let mut state: PromiseState<&'static str, i32> = PromiseState::Pending { resolve: vec!["on_ok"], reject: vec![] };
    let handlers = drive_promise(PromiseAction::Reject, &mut state, 1);
    assert!(handlers.is_empty());
    assert!(matches!(state, PromiseState::Rejected { value: 1, caught: false }));
}

#[test]
fn settling_again_runs_no_handler() {
    let mut state = pending();
    drive_promise(PromiseAction::Resolve, &mut state, 1);
    let handlers = drive_promise(PromiseAction::Reject, &mut state, 2);
    assert!(handlers.is_empty());
    assert!(matches!(state, PromiseState::Rejected { value: 2, caught: false }));
}
