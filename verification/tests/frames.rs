use dash_vm::dispatch::{
    assign_plan, finally_end, ret_inner, AssignKind, AssignTarget, AssignOp, FinallyEnd, HandleResult, Operand, ReturnOutcome,
    ReturnedValue, StorePlan,
};
use dash_vm::frame::{Exports, FrameState, LoopCounter, LoopCounterMap, TryBlock};
use dash_vm::{handle_rt_error, ErrorTarget};
use dash_vm::util::unlikely;

#[test]
fn a_loop_gets_hot_after_more_than_a_hundred_backjumps() {
    let mut c = LoopCounter::new();
    for _ in 0..100 {
        c.inc();
    }
    assert!(!c.is_hot());
    c.inc();
    assert!(c.is_hot());
}

#[test]
fn loop_counter_map_keeps_one_counter_per_header() {
    let mut map = LoopCounterMap::new();
    map.get_or_insert(4).inc();
    map.get_or_insert(4).inc();
    map.get_or_insert(9).inc();
    assert_eq!(map.get_or_insert(4).0, 2);
    assert_eq!(map.get_or_insert(9).0, 1);
    assert_eq!(map.get_or_insert(1).0, 0);
}

#[test]
fn handle_result_value() {
    assert_eq!(HandleResult::Return(1).into_value(), 1);
    assert_eq!(HandleResult::Yield(2).into_value(), 2);
    assert_eq!(HandleResult::Await(3).into_value(), 3);
}

#[test]
fn unlikely_is_identity() {
    assert!(unlikely(true));
    assert!(!unlikely(false));
}

fn block(catch_ip: Option<usize>, finally_ip: Option<usize>, frame_idx: usize) -> TryBlock {
    TryBlock { catch_ip, finally_ip, frame_idx }
}

#[test]
fn rt_error_without_try_block_propagates() {
    let mut blocks: Vec<TryBlock> = Vec::new();
    assert_eq!(handle_rt_error(&mut blocks, 0), ErrorTarget::Propagate);
    assert!(blocks.is_empty());
}

#[test]
fn rt_error_does_not_unwind_below_the_execution() {
    let mut blocks = vec![block(Some(10), None, 1)];
    assert_eq!(handle_rt_error(&mut blocks, 2), ErrorTarget::Propagate);
    assert_eq!(blocks.len(), 1);
}

#[test]
fn rt_error_goes_to_catch() {
    let mut blocks = vec![block(Some(4), None, 0), block(Some(10), None, 2)];
    assert_eq!(handle_rt_error(&mut blocks, 1), ErrorTarget::Catch { frame_count: 2, catch_ip: 10 });
    assert_eq!(blocks.len(), 1);
    assert_eq!(blocks[0].catch_ip, Some(4));
}

#[test]
fn rt_error_in_catch_with_finally_keeps_the_finally() {
    let mut blocks = vec![block(Some(10), Some(20), 3)];
    assert_eq!(handle_rt_error(&mut blocks, 0), ErrorTarget::Catch { frame_count: 3, catch_ip: 10 });
    assert_eq!(blocks.len(), 1);
    assert_eq!(blocks[0].catch_ip, None);
    assert_eq!(blocks[0].finally_ip, Some(20));
    assert_eq!(blocks[0].frame_idx, 3);
    // A second error, thrown inside the catch block, goes to the finally block.
    assert_eq!(handle_rt_error(&mut blocks, 0), ErrorTarget::Finally { frame_count: 3, ip: 21 });
    assert!(blocks.is_empty());
}

#[test]
fn rt_error_with_neither_catch_nor_finally_unwinds() {
    let mut blocks = vec![block(None, None, 1)];
    assert_eq!(handle_rt_error(&mut blocks, 1), ErrorTarget::Unwind { frame_count: 1 });
    assert!(blocks.is_empty());
}

#[test]
fn constructor_returning_a_primitive_gives_this() {
    let mut blocks = vec![block(Some(1), None, 0), block(Some(2), None, 1), block(None, Some(3), 1)];
    let mut stack = vec![10, 11, 12, 13];
    let state: FrameState<u32, i32> = FrameState::Function { new_target: Some(7), is_flat_call: false };
    let r = ret_inner(&mut blocks, &mut stack, 2, 2, &state, false);
    assert_eq!(r, ReturnOutcome::Return(ReturnedValue::This));
    assert_eq!(blocks.len(), 1);
    assert_eq!(stack, vec![10, 11]);
}

#[test]
fn flat_call_pushes_the_returned_object() {
    let mut blocks: Vec<TryBlock> = Vec::new();
    let mut stack = vec![1, 2, 3];
    let state: FrameState<u32, i32> = FrameState::Function { new_target: Some(7), is_flat_call: true };
    assert_eq!(ret_inner(&mut blocks, &mut stack, 3, 0, &state, true), ReturnOutcome::Push(ReturnedValue::Value));
    let plain: FrameState<u32, i32> = FrameState::Function { new_target: None, is_flat_call: true };
    assert_eq!(ret_inner(&mut blocks, &mut stack, 0, 0, &plain, false), ReturnOutcome::Push(ReturnedValue::Value));
    assert!(stack.is_empty());
}

#[test]
fn module_frame_returns_its_exports() {
    let mut blocks: Vec<TryBlock> = Vec::new();
    let mut stack: Vec<i32> = vec![1];
    let state: FrameState<u32, i32> = FrameState::Module(Exports { default: Some(3), named: Vec::new() });
    assert_eq!(ret_inner(&mut blocks, &mut stack, 1, 0, &state, false), ReturnOutcome::ModuleDone);
    assert_eq!(stack, vec![1]);
}

#[test]
fn finally_end_decisions() {
    let mut blocks = vec![block(None, Some(40), 0), block(Some(5), None, 1), block(None, Some(50), 1), block(None, None, 1)];
    assert_eq!(finally_end::<i32>(&mut blocks, None, 1, 2), FinallyEnd::Continue);
    assert_eq!(blocks.len(), 4);
    assert_eq!(finally_end(&mut blocks, Some(Err(9)), 1, 2), FinallyEnd::Throw(9));
    assert_eq!(blocks.len(), 4);
    assert_eq!(finally_end(&mut blocks, Some(Ok(8)), 1, 2), FinallyEnd::JumpTo(50));
    assert_eq!(blocks.len(), 2);
    assert_eq!(finally_end(&mut blocks, Some(Ok(8)), 2, 2), FinallyEnd::Return(8));
    assert_eq!(blocks.len(), 2);
}

#[test]
fn storing_with_each_kind_of_assignment() {
    for target in [AssignTarget::Local, AssignTarget::External, AssignTarget::Global, AssignTarget::Property] {
        assert_eq!(assign_plan(target, AssignKind::Assignment(5)), StorePlan::Store(5));
        assert_eq!(
            assign_plan(target, AssignKind::Compound(AssignOp::Mul, 3)),
            StorePlan::Update { op: AssignOp::Mul, right: Operand::Value(3), to_number: false, push_old: false }
        );
        // `x++` and `x--` push the old value, converted to a number.
        assert_eq!(
            assign_plan::<u8>(target, AssignKind::PostfixIncrement),
            StorePlan::Update { op: AssignOp::Add, right: Operand::One, to_number: true, push_old: true }
        );
        assert_eq!(
            assign_plan::<u8>(target, AssignKind::PostfixDecrement),
            StorePlan::Update { op: AssignOp::Sub, right: Operand::One, to_number: true, push_old: true }
        );
    }
    // `++x` pushes the new value; the current value is converted to a number first, except on
    // an external.
    for target in [AssignTarget::Local, AssignTarget::Global, AssignTarget::Property] {
        assert_eq!(
            assign_plan::<u8>(target, AssignKind::PrefixIncrement),
            StorePlan::Update { op: AssignOp::Add, right: Operand::One, to_number: true, push_old: false }
        );
        assert_eq!(
            assign_plan::<u8>(target, AssignKind::PrefixDecrement),
            StorePlan::Update { op: AssignOp::Sub, right: Operand::One, to_number: true, push_old: false }
        );
    }
    assert_eq!(
        assign_plan::<u8>(AssignTarget::External, AssignKind::PrefixIncrement),
        StorePlan::Update { op: AssignOp::Add, right: Operand::One, to_number: false, push_old: false }
    );
    assert_eq!(
        assign_plan::<u8>(AssignTarget::External, AssignKind::PrefixDecrement),
        StorePlan::Update { op: AssignOp::Sub, right: Operand::One, to_number: false, push_old: false }
    );
}
