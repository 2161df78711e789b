use vstd::prelude::*;

use crate::frame::{FrameState, TryBlock};

verus! {

/// How the execution of a frame ended: with a returned, a yielded or an awaited value.
pub enum HandleResult<V> {
    Return(V),
    Yield(V),
    Await(V),
}

impl<V> HandleResult<V> {
    /// The value the frame ended with, whichever way it ended.
    pub open spec fn value(self) -> V {
        match self {
            HandleResult::Return(v) => v,
            HandleResult::Yield(v) => v,
            HandleResult::Await(v) => v,
        }
    }

    pub fn into_value(self) -> (r: V)
        ensures
            r == self.value(),
    {
        match self {
            HandleResult::Return(v) => v,
            HandleResult::Yield(v) => v,
            HandleResult::Await(v) => v,
        }
    }
}

/// Drops the last `tc_depth` `try` blocks: those of the frame that is left.
fn drain_try_blocks(try_blocks: &mut Vec<TryBlock>, tc_depth: u16)
    requires
        tc_depth <= old(try_blocks)@.len(),
    ensures
        final(try_blocks)@ == old(try_blocks)@.take(old(try_blocks)@.len() - tc_depth),
{
    let keep = try_blocks.len() - tc_depth as usize;
    try_blocks.truncate(keep);
}

/// Which value a returning call produces.
#[derive(Debug, Clone, Copy, PartialEq, Eq)]
pub enum ReturnedValue {
    /// The value of the `return`.
    Value,
    /// The object that a constructor call built, in place of a returned value that is no object.
    This,
}

/// How the interpreter goes on after a frame returned.
#[derive(Debug, Clone, Copy, PartialEq, Eq)]
pub enum ReturnOutcome {
    /// The top level frame of a module finished: it goes back on the frame stack, where the
    /// module's exports are read from it, and the value is returned.
    ModuleDone,
    /// The produced value is returned from the interpreter loop.
    Return(ReturnedValue),
    /// A flat call ended: the produced value is pushed on the stack and the caller goes on.
    Push(ReturnedValue),
}

/// How a frame of kind `state` returns a value, given whether the value is an object.
pub open spec fn return_outcome<O, V>(state: FrameState<O, V>, value_is_object: bool) -> ReturnOutcome {
    match state {
        FrameState::Module(_) => ReturnOutcome::ModuleDone,
        FrameState::Function { new_target, is_flat_call } => {
            let produced = if new_target is Some && !value_is_object {
                ReturnedValue::This
            } else {
                ReturnedValue::Value
            };
            if is_flat_call {
                ReturnOutcome::Push(produced)
            } else {
                ReturnOutcome::Return(produced)
            }
        },
    }
}

/// Returns from a frame that was just popped: drops its `try` blocks (the last `tc_depth`) and
/// its stack space (from `sp` on), and decides what becomes of the returned value.
pub fn ret_inner<V, O, X>(
    try_blocks: &mut Vec<TryBlock>,
    stack: &mut Vec<V>,
    sp: usize,
    tc_depth: u16,
    state: &FrameState<O, X>,
    value_is_object: bool,
) -> (r: ReturnOutcome)
    requires
        tc_depth <= old(try_blocks)@.len(),
        sp <= old(stack)@.len(),
    ensures
        final(try_blocks)@ == old(try_blocks)@.take(old(try_blocks)@.len() - tc_depth),
        final(stack)@ == old(stack)@.take(sp as int),
        r == return_outcome(*state, value_is_object),
{
    drain_try_blocks(try_blocks, tc_depth);
    stack.truncate(sp);
    match state {
        FrameState::Module(_) => ReturnOutcome::ModuleDone,
        FrameState::Function { new_target, is_flat_call } => {
            let produced = if new_target.is_some() && !value_is_object {
                ReturnedValue::This
            } else {
                ReturnedValue::Value
            };
            if *is_flat_call {
                ReturnOutcome::Push(produced)
            } else {
                ReturnOutcome::Return(produced)
            }
        },
    }
}

/// The finally block that the first `try` block of frame `frame_idx` that has one names.
pub open spec fn enclosing_finally(try_blocks: Seq<TryBlock>, frame_idx: usize) -> Option<usize>
    decreases try_blocks.len(),
{
    if try_blocks.len() == 0 {
        None
    } else if try_blocks[0].frame_idx == frame_idx && try_blocks[0].finally_ip is Some {
        try_blocks[0].finally_ip
    } else {
        enclosing_finally(try_blocks.drop_first(), frame_idx)
    }
}

fn find_enclosing_finally(try_blocks: &Vec<TryBlock>, frame_idx: usize) -> (r: Option<usize>)
    ensures
        r == enclosing_finally(try_blocks@, frame_idx),
{
    let mut k: usize = 0;
    proof {
        assert(try_blocks@.subrange(0, try_blocks@.len() as int) =~= try_blocks@);
    }
    while k < try_blocks.len()
        invariant
            k <= try_blocks@.len(),
            enclosing_finally(try_blocks@, frame_idx) == enclosing_finally(try_blocks@.subrange(k as int, try_blocks@.len() as int), frame_idx),
        decreases try_blocks@.len() - k,
    {
        let b = try_blocks[k];
        proof {
            let rest = try_blocks@.subrange(k as int, try_blocks@.len() as int);
            assert(rest.drop_first() =~= try_blocks@.subrange(k + 1, try_blocks@.len() as int));
        }
        if b.frame_idx == frame_idx {
            match b.finally_ip {
                Some(f) => {
                    return Some(f);
                },
                None => {},
            }
        }
        k = k + 1;
    }
    None
}

/// What the `FinallyEnd` instruction does once a finally block of frame `frame_idx` has run.
#[derive(Debug, PartialEq, Eq)]
pub enum FinallyEnd<V> {
    /// Nothing was delayed: execution goes on after the block.
    Continue,
    /// The block ran because of an error, which is thrown again.
    Throw(V),
    /// Another finally block of the frame encloses this one: its `try` blocks (the last
    /// `tc_depth`) are dropped and execution jumps there.
    JumpTo(usize),
    /// The frame returns the value whose return the block delayed.
    Return(V),
}

/// Decides what happens at the end of a finally block, given the return or error that it delayed,
/// if any.
pub fn finally_end<V>(try_blocks: &mut Vec<TryBlock>, delayed_ret: Option<Result<V, V>>, frame_idx: usize, tc_depth: u16) -> (r: FinallyEnd<V>)
    requires
        delayed_ret matches Some(Ok(_)) && enclosing_finally(old(try_blocks)@, frame_idx) is Some
            ==> tc_depth <= old(try_blocks)@.len(),
    ensures
        match delayed_ret {
            None => r == FinallyEnd::<V>::Continue && final(try_blocks)@ == old(try_blocks)@,
            Some(Err(e)) => r == FinallyEnd::Throw(e) && final(try_blocks)@ == old(try_blocks)@,
            Some(Ok(v)) => match enclosing_finally(old(try_blocks)@, frame_idx) {
                Some(f) => r == FinallyEnd::<V>::JumpTo(f)
                    && final(try_blocks)@ == old(try_blocks)@.take(old(try_blocks)@.len() - tc_depth),
                None => r == FinallyEnd::Return(v) && final(try_blocks)@ == old(try_blocks)@,
            },
        },
{
    match delayed_ret {
        None => FinallyEnd::Continue,
        Some(Err(e)) => FinallyEnd::Throw(e),
        Some(Ok(v)) => match find_enclosing_finally(try_blocks, frame_idx) {
            Some(f) => {
                drain_try_blocks(try_blocks, tc_depth);
                FinallyEnd::JumpTo(f)
            },
            None => FinallyEnd::Return(v),
        },
    }
}

/// The binary operators of compound assignments (`+=`, `-=`, ...), and of increments.
#[derive(Debug, Clone, Copy, PartialEq, Eq)]
pub enum AssignOp {
    Add,
    Sub,
    Mul,
    Div,
    Rem,
    Pow,
    Shl,
    Shr,
    Ushr,
    BitAnd,
    BitOr,
    BitXor,
}

/// How a local is assigned to: a plain or compound assignment of a value, or an increment or
/// decrement written before or after the name.
#[derive(Debug, Clone, Copy, PartialEq, Eq)]
pub enum AssignKind<V> {
    Assignment(V),
    Compound(AssignOp, V),
    PrefixIncrement,
    PrefixDecrement,
    PostfixIncrement,
    PostfixDecrement,
}

/// The right operand of the update of a local: a given value, or the number 1.
#[derive(Debug, Clone, Copy, PartialEq, Eq)]
pub enum Operand<V> {
    Value(V),
    One,
}

/// What storing to a local does: `Store(v)` stores `v`; `Update` applies `op` to the local's value
/// (first converted to a number where `to_number`) and `right`, and stores the result. Afterwards
/// the stored value is pushed, or where `push_old` the local's value as the operator took it.
#[derive(Debug, Clone, Copy, PartialEq, Eq)]
pub enum StorePlan<V> {
    Store(V),
    Update { op: AssignOp, right: Operand<V>, to_number: bool, push_old: bool },
}

/// What storing with an assignment of the given kind does: a plain assignment stores the value; a
/// compound one applies its operator to the current value and the given one; an increment or
/// decrement adds or subtracts 1. A postfix one converts the current value to a number first and
/// pushes that converted old value; a prefix one pushes the new value, and converts the current
/// value first only where `convert_prefix`.
pub open spec fn store_plan<V>(kind: AssignKind<V>, convert_prefix: bool) -> StorePlan<V> {
    match kind {
        AssignKind::Assignment(v) => StorePlan::Store(v),
        AssignKind::Compound(op, v) => StorePlan::Update { op, right: Operand::Value(v), to_number: false, push_old: false },
        AssignKind::PrefixIncrement => StorePlan::Update {
            op: AssignOp::Add,
            right: Operand::One,
            to_number: convert_prefix,
            push_old: false,
        },
        AssignKind::PrefixDecrement => StorePlan::Update {
            op: AssignOp::Sub,
            right: Operand::One,
            to_number: convert_prefix,
            push_old: false,
        },
        AssignKind::PostfixIncrement => StorePlan::Update { op: AssignOp::Add, right: Operand::One, to_number: true, push_old: true },
        AssignKind::PostfixDecrement => StorePlan::Update { op: AssignOp::Sub, right: Operand::One, to_number: true, push_old: true },
    }
}

/// What an assignment stores to: a local of the frame, a local captured from an enclosing function
/// (an external), a global, or a property of an object.
#[derive(Debug, Clone, Copy, PartialEq, Eq)]
pub enum AssignTarget {
    Local,
    External,
    Global,
    Property,
}

/// How the instructions that store to each kind of target handle each kind of assignment: a prefix
/// increment or decrement converts the current value to a number first, except on an external;
/// the rest is the same for every target (`store_plan`).
pub fn assign_plan<V>(target: AssignTarget, kind: AssignKind<V>) -> (r: StorePlan<V>)
    ensures
        r == store_plan(kind, target != AssignTarget::External),
{
    let convert_prefix = match target {
        AssignTarget::External => false,
        _ => true,
    };
    match kind {
        AssignKind::Assignment(v) => StorePlan::Store(v),
        AssignKind::Compound(op, v) => StorePlan::Update { op, right: Operand::Value(v), to_number: false, push_old: false },
        AssignKind::PrefixIncrement => StorePlan::Update { op: AssignOp::Add, right: Operand::One, to_number: convert_prefix, push_old: false },
        AssignKind::PrefixDecrement => StorePlan::Update { op: AssignOp::Sub, right: Operand::One, to_number: convert_prefix, push_old: false },
        AssignKind::PostfixIncrement => StorePlan::Update { op: AssignOp::Add, right: Operand::One, to_number: true, push_old: true },
        AssignKind::PostfixDecrement => StorePlan::Update { op: AssignOp::Sub, right: Operand::One, to_number: true, push_old: true },
    }
}

} // verus!
