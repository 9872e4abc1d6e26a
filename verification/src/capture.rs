//! One output's capture as a small state machine: the compositor's frame
//! events drive it from "waiting" through "buffer negotiated" to "done",
//! and each step says what the caller must do next.

use vstd::prelude::*;

verus! {

/// The buffer the compositor dictates for a capture: format tag and geometry.
#[derive(Clone, Copy, Debug, PartialEq)]
pub struct BufferParams {
    /// Raw pixel-format tag as the protocol carries it.
    pub format: u32,
    pub width: u32,
    pub height: u32,
    pub stride: u32,
}

/// Dispatch-loop state for one capture request.
#[derive(Clone, Copy, Debug, PartialEq)]
pub struct CaptureState {
    /// A terminal event (ready or failed) has arrived.
    pub done: bool,
    /// The terminal event was a failure.
    pub failed: bool,
    /// The buffer parameters, once the compositor has announced them.
    pub params: Option<BufferParams>,
}

/// Events a capture object delivers.
#[derive(Clone, Copy, Debug)]
pub enum FrameEvent {
    /// The compositor announces the buffer it wants the client to supply.
    BufferParams { format: u32, width: u32, height: u32, stride: u32 },
    /// The copy into the client's buffer finished.
    Ready,
    /// The capture failed; the output contributes no frame.
    Failed,
    Other,
}

/// What the caller must do after a step: allocate backing storage of `size`
/// bytes, wrap it as a buffer with the given geometry and issue the copy
/// request - or nothing.
#[derive(Clone, Copy, Debug, PartialEq)]
pub enum CaptureAction {
    CreateBuffer { format: u32, width: u32, height: u32, stride: u32, size: u64 },
    NoAction,
}

/// The state a capture starts from.
pub open spec fn spec_capture_start() -> CaptureState {
    CaptureState { done: false, failed: false, params: None }
}

pub fn capture_start() -> (st: CaptureState)
    ensures
        st == spec_capture_start(),
{
    CaptureState { done: false, failed: false, params: None }
}

/// One step of the capture state machine.
pub open spec fn spec_capture_step(st: CaptureState, e: FrameEvent) -> (CaptureState, CaptureAction) {
    match e {
        FrameEvent::BufferParams { format, width, height, stride } => (
            CaptureState { params: Some(BufferParams { format, width, height, stride }), ..st },
            CaptureAction::CreateBuffer {
                format,
                width,
                height,
                stride,
                size: (height * stride) as u64,
            },
        ),
        FrameEvent::Ready => (CaptureState { done: true, ..st }, CaptureAction::NoAction),
        FrameEvent::Failed => (
            CaptureState { done: true, failed: true, ..st },
            CaptureAction::NoAction,
        ),
        FrameEvent::Other => (st, CaptureAction::NoAction),
    }
}

/// Drive the capture state machine by one event.
///
/// On a buffer announcement the returned action asks for backing storage of
/// exactly `height * stride` bytes; a terminal event marks the state done.
pub fn capture_step(st: &mut CaptureState, e: FrameEvent) -> (a: CaptureAction)
    ensures
        (*final(st), a) == spec_capture_step(*old(st), e),
{
    match e {
        FrameEvent::BufferParams { format, width, height, stride } => {
            st.params = Some(BufferParams { format, width, height, stride });
            proof {
                assert((height as int) * (stride as int) <= u64::MAX) by (nonlinear_arith)
                    requires
                        height <= u32::MAX,
                        stride <= u32::MAX,
                ;
            }
            let size = (height as u64) * (stride as u64);
            CaptureAction::CreateBuffer { format, width, height, stride, size }
        },
        FrameEvent::Ready => {
            st.done = true;
            CaptureAction::NoAction
        },
        FrameEvent::Failed => {
            st.done = true;
            st.failed = true;
            CaptureAction::NoAction
        },
        FrameEvent::Other => CaptureAction::NoAction,
    }
}

} // verus!
