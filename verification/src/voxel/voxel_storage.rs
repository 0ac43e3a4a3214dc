//! The `VoxelStorage` trait: read and write access to voxels by coordinate.
use vstd::prelude::*;

use super::VoxelCoordinate;
use crate::result::Result;

verus! {

/// The size of the voxel storage's bounding box on all three axes.
#[derive(Debug, PartialEq, Eq, Clone, Copy)]
pub struct VoxelStorageBBExtent {
    pub width: usize,
    pub height: usize,
    pub depth: usize,
}

/// Read and write access to voxels by coordinate.
pub trait VoxelStorage<V> {
    /// The storage is consistent, so that its lookups are defined.
    spec fn storage_inv(&self) -> bool;

    /// The size of the storage's bounding box.
    fn size(&self) -> VoxelStorageBBExtent;

    /// The voxel at `coordinate`, or an error where the storage holds none there.
    fn get_voxel(&self, coordinate: VoxelCoordinate) -> Result<&V>
        requires
            self.storage_inv(),
    ;

    /// Mutable access to the voxel at `coordinate`, or an error where the storage holds none
    /// there.
    fn get_voxel_mut(&mut self, coordinate: VoxelCoordinate) -> Result<&mut V>
        requires
            old(self).storage_inv(),
    ;

    /// Replaces the voxel at `coordinate` with `new_voxel`, or fails where the storage holds
    /// none there.
    fn set_voxel(&mut self, coordinate: VoxelCoordinate, new_voxel: V) -> Result<()>
        requires
            old(self).storage_inv(),
    ;
}

} // verus!
