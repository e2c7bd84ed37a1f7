//! State of a render session between frames.
//!
//! Each frame the caller reports whether the user asked to quit and the
//! time on a millisecond clock. The session answers with what to do: stop,
//! or draw the model turned by an angle that grows by one radian for each
//! second that has passed.

use vstd::prelude::*;

verus! {

/// Pause after presenting a frame, in nanoseconds: about 120 frames a second.
pub const FRAME_DELAY_NS: u32 = 1_000_000_000 / 120;

/// What the caller does this frame.
#[derive(Clone, Copy, Debug, PartialEq, Eq, Structural)]
pub enum FrameAction {
    /// End the session.
    Quit,
    /// Draw the frame with the model turned by `theta_ms` milliradians.
    Render { theta_ms: u64 },
}

/// Clock readings and the rotation angle carried from frame to frame.
#[derive(Clone, Copy, Debug, PartialEq, Eq, Structural)]
pub struct Session {
    /// Clock reading of the previous frame, in milliseconds.
    pub prev_ms: u64,
    /// Rotation so far, in milliradians (one per elapsed millisecond).
    pub theta_ms: u64,
}

/// Milliseconds from `prev` to `now`; none where the clock went back.
pub open spec fn elapsed_ms(prev: u64, now: u64) -> int {
    if now >= prev {
        now - prev
    } else {
        0
    }
}

/// The rotation after `elapsed` more milliseconds, held at `u64::MAX`.
pub open spec fn advanced(theta: u64, elapsed: int) -> u64 {
    if theta + elapsed <= u64::MAX {
        (theta + elapsed) as u64
    } else {
        u64::MAX
    }
}

impl Session {
    /// A session whose clock started at `start_ms`, not yet turned.
    pub fn new(start_ms: u64) -> (s: Session)
        ensures
            s.prev_ms == start_ms,
            s.theta_ms == 0,
    {
        Session { prev_ms: start_ms, theta_ms: 0 }
    }

    /// Decides one frame. A quit request ends the session and leaves it as
    /// it was; otherwise the time since the previous frame turns the model
    /// and the frame is drawn at the new angle.
    pub fn step(&mut self, quit_requested: bool, now_ms: u64) -> (a: FrameAction)
        ensures
            quit_requested ==> a == FrameAction::Quit && *final(self) == *old(self),
            !quit_requested ==> {
                &&& final(self).prev_ms == now_ms
                &&& final(self).theta_ms == advanced(
                    old(self).theta_ms,
                    elapsed_ms(old(self).prev_ms, now_ms),
                )
                &&& a == FrameAction::Render { theta_ms: final(self).theta_ms }
            },
    {
        if quit_requested {
            return FrameAction::Quit;
        }
        let elapsed: u64 = if now_ms >= self.prev_ms { now_ms - self.prev_ms } else { 0 };
        self.theta_ms = self.theta_ms.saturating_add(elapsed);
        self.prev_ms = now_ms;
        FrameAction::Render { theta_ms: self.theta_ms }
    }
}

} // verus!
