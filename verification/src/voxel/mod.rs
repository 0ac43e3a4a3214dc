//! Voxel storage: the `Voxel` trait, voxel coordinates and the dense `VoxelGrid`.
pub mod voxel_grid;
pub mod voxel_storage;

use vstd::prelude::*;

verus! {

/// A position inside a voxel storage, one unsigned index per axis.
#[derive(Debug, PartialEq, Eq, Clone, Copy)]
pub struct VoxelCoordinate {
    pub x: usize,
    pub y: usize,
    pub z: usize,
}

impl VoxelCoordinate {
    /// Creates the coordinate `(x, y, z)`.
    pub fn new(x: usize, y: usize, z: usize) -> (c: Self)
        ensures
            c.x == x,
            c.y == y,
            c.z == z,
    {
        VoxelCoordinate { x, y, z }
    }
}

/// A voxel type that can be stored in a voxel storage.
pub trait Voxel: Sized {
    /// The voxel that fills a freshly created storage.
    fn empty() -> Self;
}

} // verus!
