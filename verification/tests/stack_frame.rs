use bdecode::stack_frame::{StackFrame, StackFrameState};
use std::mem;

#[test]
fn test_stack_frame() {
    let mut frame = StackFrame::new(23, StackFrameState::Key);
    assert_eq!(frame.token(), 23);
    for n in 0..=10 {
        if n % 2 == 0 {
            assert_eq!(frame.state(), StackFrameState::Key);
        } else {
            assert_eq!(frame.state(), StackFrameState::Value);
        }
        frame.toggle_state();
    }
}

#[test]
fn test_stack_frame_size() {
    assert_eq!(mem::size_of::<StackFrame>(), 4);
}

#[test]
fn stack_frame_keeps_token_and_state() {
    let mut frame = StackFrame::new(0x7FFF_FFFF, StackFrameState::Value);
    assert_eq!(frame.token(), 0x7FFF_FFFF);
    assert_eq!(frame.state(), StackFrameState::Value);
    frame.toggle_state();
    assert_eq!(frame.token(), 0x7FFF_FFFF);
    assert_eq!(frame.state(), StackFrameState::Key);
    let frame = StackFrame::new(0x8000_0005, StackFrameState::Key);
    assert_eq!(frame.token(), 5);
    assert_eq!(frame.state(), StackFrameState::Key);
}
