//! Decisions of the animation loop. The host performs what they ask for
//! (request a frame, set a timeout, cancel both) and reports back.
use vstd::prelude::*;

verus! {

/// Delay before the next frame when the frame rate is reduced, in ms.
pub const REDUCED_FPS_DELAY_MS: i32 = 30;

/// What the host does once a frame is drawn.
#[derive(Copy, Clone, Debug, PartialEq, Eq, Structural)]
pub enum FrameAction {
    /// Nothing is alive any more: stop the animation.
    Stop,
    /// Ask for the next frame after a timeout of this many ms.
    RequestAfterTimeout(i32),
    /// Ask for the next animation frame at once.
    RequestFrame,
}

/// The pending frame request and timeout of the animation, by the handles
/// the host gave them, and whether the frame rate is reduced.
#[derive(Copy, Clone, Debug, PartialEq, Eq, Structural)]
pub struct FrameSchedule {
    pub next_frame: Option<i32>,
    pub next_timeout: Option<i32>,
    pub reduce_fps: bool,
}

impl FrameSchedule {
    /// A stopped animation at the full frame rate.
    pub fn new() -> (r: FrameSchedule)
        ensures
            r.next_frame is None,
            r.next_timeout is None,
            !r.reduce_fps,
    {
        FrameSchedule { next_frame: None, next_timeout: None, reduce_fps: false }
    }

    /// Whether a frame request or a timeout is pending.
    pub fn is_running(&self) -> (r: bool)
        ensures
            r == (self.next_frame is Some || self.next_timeout is Some),
    {
        self.next_frame.is_some() || self.next_timeout.is_some()
    }

    /// What follows a drawn frame: stop when nothing is alive, else ask for
    /// the next frame, after a delay where the frame rate is reduced.
    pub fn after_frame(&self, has_alive: bool) -> (r: FrameAction)
        ensures
            !has_alive ==> r == FrameAction::Stop,
            has_alive && self.reduce_fps ==> r == FrameAction::RequestAfterTimeout(REDUCED_FPS_DELAY_MS),
            has_alive && !self.reduce_fps ==> r == FrameAction::RequestFrame,
    {
        if !has_alive {
            FrameAction::Stop
        } else if self.reduce_fps {
            FrameAction::RequestAfterTimeout(REDUCED_FPS_DELAY_MS)
        } else {
            FrameAction::RequestFrame
        }
    }

    /// Stops the animation and hands back the pending frame request and
    /// timeout, for the host to cancel.
    pub fn pause(&mut self) -> (r: (Option<i32>, Option<i32>))
        ensures
            r == (old(self).next_frame, old(self).next_timeout),
            final(self).next_frame is None,
            final(self).next_timeout is None,
            final(self).reduce_fps == old(self).reduce_fps,
    {
        let frame = self.next_frame.take();
        let timeout = self.next_timeout.take();
        (frame, timeout)
    }

    /// Switches between the full and the reduced frame rate.
    pub fn toggle_reduce_fps(&mut self)
        ensures
            final(self).reduce_fps == !old(self).reduce_fps,
            final(self).next_frame == old(self).next_frame,
            final(self).next_timeout == old(self).next_timeout,
    {
        self.reduce_fps = !self.reduce_fps;
    }
}

} // verus!
