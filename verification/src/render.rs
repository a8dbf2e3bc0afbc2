//! Render snapshot interface.
//!
//! The core layer defines the contract the device layer consumes; it holds
//! no platform graphics logic.
use vstd::prelude::*;

verus! {

/// Frame-end render submission data contract.
#[derive(Clone, Copy, Debug, Default, PartialEq, Eq, Structural)]
pub struct RenderSnapshot {
    frame: u64,
}

impl RenderSnapshot {
    /// The frame index in the model.
    pub closed spec fn frame_spec(&self) -> u64 {
        self.frame
    }

    /// A snapshot for a given frame index.
    pub fn new(frame: u64) -> (s: Self)
        ensures
            s.frame_spec() == frame,
    {
        RenderSnapshot { frame }
    }

    /// The frame index this snapshot belongs to.
    pub fn frame(&self) -> (f: u64)
        ensures
            f == self.frame_spec(),
    {
        self.frame
    }
}

/// Sink for render snapshots (implemented by the device layer).
pub trait RenderSink {
    /// Receives one frame's snapshot.
    fn submit(&mut self, snapshot: &RenderSnapshot);
}

/// No-op sink used by tests and the core-only path.
pub struct NullRenderSink;

impl RenderSink for NullRenderSink {
    fn submit(&mut self, snapshot: &RenderSnapshot) {
    }
}

} // verus!
