//! Settling a promise: what resolving or rejecting it does to its state, and which of its
//! reaction handlers the scope has to run.
use vstd::prelude::*;

use crate::PromiseAction;

verus! {

/// The state of a promise; `H` is a reaction handler and `V` a value.
pub enum PromiseState<H, V> {
    /// Not settled yet: the handlers to run once it is resolved and once it is rejected.
    Pending { resolve: Vec<H>, reject: Vec<H> },
    Resolved(V),
    /// Rejected with `value`; `caught` says whether a handler was there to take the rejection.
    Rejected { value: V, caught: bool },
}

/// The state, with the handler lists taken by their views.
pub enum PromiseView<H, V> {
    Pending { resolve: Seq<H>, reject: Seq<H> },
    Resolved(V),
    Rejected { value: V, caught: bool },
}

impl<H, V> PromiseState<H, V> {
    pub open spec fn view(self) -> PromiseView<H, V> {
        match self {
            PromiseState::Pending { resolve, reject } => PromiseView::Pending { resolve: resolve@, reject: reject@ },
            PromiseState::Resolved(v) => PromiseView::Resolved(v),
            PromiseState::Rejected { value, caught } => PromiseView::Rejected { value, caught },
        }
    }
}

/// The handlers that settling a promise in `state` by `action` sets off: those registered for
/// that outcome while the promise was pending, none once it was settled.
pub open spec fn handlers_for<H, V>(state: PromiseView<H, V>, action: PromiseAction) -> Seq<H> {
    match state {
        PromiseView::Pending { resolve, reject } => match action {
            PromiseAction::Resolve => resolve,
            PromiseAction::Reject => reject,
        },
        _ => Seq::empty(),
    }
}

/// The state of a promise after `action` settled it with `arg`, whatever state it was in.
pub open spec fn settled<H, V>(state: PromiseView<H, V>, action: PromiseAction, arg: V) -> PromiseView<H, V> {
    match action {
        PromiseAction::Resolve => PromiseView::Resolved(arg),
        PromiseAction::Reject => PromiseView::Rejected { value: arg, caught: handlers_for(state, action).len() > 0 },
    }
}

/// Settles a promise: resolving or rejecting it with `arg` (the first argument of the call,
/// `undefined` where there is none). Gives back, in the order in which they were registered,
/// the handlers that the scope has to run, each bound to the call's arguments, as asynchronous
/// tasks. A rejected promise has also to be recorded among the rejected promises, whether or not
/// a handler caught it.
pub fn drive_promise<H, V>(action: PromiseAction, state: &mut PromiseState<H, V>, arg: V) -> (r: Vec<H>)
    ensures
        r@ == handlers_for(old(state).view(), action),
        final(state).view() == settled(old(state).view(), action, arg),
{
    let ghost before = state.view();
    let mut handlers: Vec<H> = Vec::new();
    match state {
        PromiseState::Pending { resolve, reject } => {
            match action {
                PromiseAction::Resolve => {
                    std::mem::swap(&mut handlers, resolve);
                },
                PromiseAction::Reject => {
                    std::mem::swap(&mut handlers, reject);
                },
            }
        },
        _ => {},
    }
    let has_handler = handlers.len() > 0;
    *state = match action {
        PromiseAction::Resolve => PromiseState::Resolved(arg),
        PromiseAction::Reject => PromiseState::Rejected { value: arg, caught: has_handler },
    };
    handlers
}

/// The handlers of a promise run once: once settled, settling it again sets off none.
pub proof fn lemma_handlers_run_once<H, V>(state: PromiseView<H, V>, first: PromiseAction, arg: V, second: PromiseAction)
    ensures
        handlers_for(settled(state, first, arg), second) == Seq::<H>::empty(),
{
}

} // verus!
