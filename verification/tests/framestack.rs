use dash_vm::framestack::{BaseFrame, FrameId, FrameStack, MAX_FRAME_COUNT};

fn frame(ip: usize, name: &'static str) -> BaseFrame<&'static str> {
    BaseFrame { ip, function: name }
}

#[test]
fn push_and_pop_frames() {
    let mut stack: FrameStack<&'static str, u32> = FrameStack::new();
    assert_eq!(stack.len(), 0);
    assert_eq!(stack.push(frame(0, "main"), 10), Ok(()));
    assert_eq!(stack.push(frame(5, "f"), 20), Ok(()));
    assert_eq!(stack.len(), 2);
    assert_eq!(stack.current_id(), FrameId(1));
    assert_eq!(stack.current_ip(), 5);
    assert_eq!(*stack.current_extended(), 20);

    stack.set_ip(7);
    assert_eq!(stack.current_ip(), 7);

    let (base, ext) = stack.pop();
    assert_eq!(base.ip, 7);
    assert_eq!(base.function, "f");
    assert_eq!(ext, 20);
    assert_eq!(stack.len(), 1);
    assert_eq!(stack.current_ip(), 0);
    assert_eq!(*stack.current_extended(), 10);

    stack.pop_discard();
    assert_eq!(stack.len(), 0);
}

#[test]
fn unwind_to_removes_frames_above() {
    let mut stack: FrameStack<&'static str, u32> = FrameStack::new();
    for i in 0..5u32 {
        assert_eq!(stack.push(frame(i as usize * 10, "f"), i), Ok(()));
    }
    stack.unwind_to(FrameId(1));
    assert_eq!(stack.len(), 2);
    assert_eq!(stack.current_ip(), 10);
    assert_eq!(*stack.current_extended(), 1);

    // Unwinding to the active frame (or above it) changes nothing.
    stack.unwind_to(FrameId(1));
    assert_eq!(stack.len(), 2);
    stack.unwind_to(FrameId(7));
    assert_eq!(stack.len(), 2);
    assert_eq!(stack.current_ip(), 10);

    stack.unwind_to(FrameId(0));
    assert_eq!(stack.len(), 1);
    assert_eq!(stack.current_ip(), 0);
    assert_eq!(*stack.current_extended(), 0);
}

#[test]
fn push_fails_when_full() {
    let mut stack: FrameStack<(), ()> = FrameStack::new();
    for _ in 0..MAX_FRAME_COUNT {
        assert_eq!(stack.push(BaseFrame { ip: 0, function: () }, ()), Ok(()));
    }
    assert_eq!(stack.push(BaseFrame { ip: 1, function: () }, ()), Err(()));
    assert_eq!(stack.len(), MAX_FRAME_COUNT);
    assert_eq!(stack.current_ip(), 0);
}
