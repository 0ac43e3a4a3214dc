//! The voxelar engine backend: the parts of it that are plain logic.
//!
//! - receivable\_events: which window events a window receives
//! - result: the library's error type, its `Result` and the `Context` conversion
//! - voxel: voxel coordinates, the `Voxel` trait, the `VoxelStorage` trait and the dense voxel
//!   grid
//! - vulkan: the bookkeeping of free memory ranges, the dedicated pool allocator, the choice of
//!   memory types and present modes, and the checks of a graphics pipeline's required state
//!
//! It also holds `Voxelar`, the context from which everything is initialized.
pub mod receivable_events;
pub mod result;
pub mod voxel;
pub mod vulkan;

pub use result::{Result, VoxelarError};

use std::time::Instant;

use vstd::prelude::*;

verus! {

#[verifier::external_type_specification]
#[verifier::external_body]
pub struct ExInstant(std::time::Instant);

/// Calls `std::time::Instant::now`, which reads the monotonic clock; nothing is promised of the
/// instant it returns.
#[verifier::external_body]
fn instant_now() -> Instant {
    Instant::now()
}

/// The main Voxelar context from which everything is initialized. It remembers when it was
/// created, so that times can be measured from there.
pub struct Voxelar {
    start_time: Instant,
}

impl Voxelar {
    /// The instant at which this context was created.
    pub closed spec fn created_at(self) -> Instant {
        self.start_time
    }

    /// Creates a new Voxelar context; this cannot fail.
    pub fn new() -> (r: Result<Self>)
        ensures
            r is Ok,
    {
        Ok(Self { start_time: instant_now() })
    }

    /// Returns the instant at which this context was created.
    pub fn start_time(&self) -> (t: Instant)
        ensures
            t == self.created_at(),
    {
        self.start_time
    }
}

} // verus!
