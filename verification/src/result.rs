//! The library's error type and the `Result` alias that uses it.
//!
//! Every failure that a verified function can report is a variant of `VoxelarError`, so that
//! contracts can say exactly which error comes on which input.
use vstd::prelude::*;

use crate::voxel::VoxelCoordinate;

verus! {

/// The errors that the library reports.
#[derive(Debug, PartialEq, Eq)]
pub enum VoxelarError {
    /// A range was given whose first offset lies after its last offset.
    StartAfterEnd { start: u64, end: u64 },
    /// A range was given whose first offset lies before the managed range.
    StartOutsideRange { start: u64 },
    /// A range was given whose last offset lies after the managed range.
    EndOutsideRange { end: u64 },
    /// A voxel grid was requested with a width of 0.
    ZeroWidth,
    /// A voxel grid was requested with a height of 0.
    ZeroHeight,
    /// A voxel grid was requested with a depth of 0.
    ZeroDepth,
    /// A voxel coordinate lies outside the grid of the given size.
    CoordinateOutOfBounds {
        coordinate: VoxelCoordinate,
        width: usize,
        height: usize,
        depth: usize,
    },
    /// No free range of a memory pool can hold a request of this size.
    PoolCannotFit { size: u64 },
    /// An allocation does not belong to the memory pool it was handed to.
    AllocationNotInPool { memory: u64, offset: u64, size: u64 },
    /// No pools were set up for this memory type index.
    NoPoolForMemoryType { memory_type_index: u32 },
    /// The present mode with this raw value is not supported by the surface.
    PresentModeNotSupported { mode: i32 },
    /// A required piece of state was not set; the string names it.
    StateNotSet(String),
    /// A custom error message.
    Custom(String),
}

/// The library's `Result`, with `VoxelarError` as the error type.
pub type Result<T> = core::result::Result<T, VoxelarError>;

/// Converts a value into the library's `Result`, attaching a message for the failure case.
pub trait Context<T> {
    /// Converts `self` into a `Result<T>`, failing with `ctx` as the message.
    fn context(self, ctx: String) -> Result<T>;
}

impl<T> Context<T> for Option<T> {
    /// `Some(v)` becomes `Ok(v)`; `None` fails with the custom message `ctx`.
    fn context(self, ctx: String) -> (r: Result<T>)
        ensures
            match self {
                Some(v) => r == Ok::<T, VoxelarError>(v),
                None => r == Err::<T, VoxelarError>(VoxelarError::Custom(ctx)),
            },
    {
        match self {
            Some(value) => Ok(value),
            None => Err(VoxelarError::Custom(ctx)),
        }
    }
}

} // verus!
