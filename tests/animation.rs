use rust_wasm::adder::adder;
use rust_wasm::animation::{FrameAction, FrameSchedule, REDUCED_FPS_DELAY_MS};

#[test]
fn adds() {
    assert_eq!(4, adder(1, 3));
    assert_eq!(u64::MAX, adder(u64::MAX - 1, 1));
}

#[test]
fn stops_when_nothing_alive() {
    let mut s = FrameSchedule::new();
    assert_eq!(s.after_frame(false), FrameAction::Stop);
    s.toggle_reduce_fps();
    assert_eq!(s.after_frame(false), FrameAction::Stop);
}

#[test]
fn frame_rate_decides_next_request() {
    let mut s = FrameSchedule::new();
    assert_eq!(s.after_frame(true), FrameAction::RequestFrame);
    s.toggle_reduce_fps();
    assert!(s.reduce_fps);
    assert_eq!(s.after_frame(true), FrameAction::RequestAfterTimeout(REDUCED_FPS_DELAY_MS));
    assert_eq!(REDUCED_FPS_DELAY_MS, 30);
}

#[test]
fn pause_hands_back_pending_requests() {
    let mut s = FrameSchedule::new();
    assert!(!s.is_running());
    s.next_frame = Some(7);
    assert!(s.is_running());
    s.next_timeout = Some(9);
    assert_eq!(s.pause(), (Some(7), Some(9)));
    assert!(!s.is_running());
    assert_eq!(s.pause(), (None, None));
}
