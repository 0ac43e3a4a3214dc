//! The description of a sub-allocation of device memory.
use vstd::prelude::*;

verus! {

/// A part of a device memory allocation: the raw handle of the `VkDeviceMemory` that holds it,
/// its offset in that memory and its size in bytes.
#[derive(Debug, PartialEq, Eq, Clone, Copy)]
pub struct Allocation {
    pub memory: u64,
    pub offset: u64,
    pub size: u64,
}

} // verus!
