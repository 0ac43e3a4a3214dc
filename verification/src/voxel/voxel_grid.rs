//! A dense, fixed-size voxel grid stored as one flat vector, x first, then y, then z.
use vstd::prelude::*;

use super::voxel_storage::{VoxelStorage, VoxelStorageBBExtent};
use super::{Voxel, VoxelCoordinate};
use crate::result::{Result, VoxelarError};

verus! {

/// The flat index of `(x, y, z)` in a grid of the given width and height.
pub open spec fn flat_index(x: int, y: int, z: int, width: int, height: int) -> int {
    x + y * width + z * width * height
}

/// `c` lies inside a grid of the given size.
pub open spec fn in_bounds(c: VoxelCoordinate, width: int, height: int, depth: int) -> bool {
    c.x < width && c.y < height && c.z < depth
}

/// A dense voxel grid of `size.0 * size.1 * size.2` voxels.
pub struct VoxelGrid<V: Voxel> {
    /// Width, height and depth of the grid.
    pub size: (usize, usize, usize),
    /// The voxels, indexed by `x + y * width + z * width * height`.
    pub voxels: Vec<V>,
}

impl<V: Voxel> VoxelGrid<V> {
    /// The grid holds exactly one voxel per coordinate.
    pub open spec fn wf(&self) -> bool {
        self.voxels@.len() == self.size.0 * self.size.1 * self.size.2
    }

    /// The flat index of `c` in this grid.
    pub open spec fn index_of(&self, c: VoxelCoordinate) -> int {
        flat_index(c.x as int, c.y as int, c.z as int, self.size.0 as int, self.size.1 as int)
    }

    /// `c` lies inside this grid.
    pub open spec fn holds(&self, c: VoxelCoordinate) -> bool {
        in_bounds(c, self.size.0 as int, self.size.1 as int, self.size.2 as int)
    }

    /// The error that a lookup of `c` outside this grid reports.
    pub open spec fn out_of_bounds(&self, c: VoxelCoordinate) -> VoxelarError {
        VoxelarError::CoordinateOutOfBounds {
            coordinate: c,
            width: self.size.0,
            height: self.size.1,
            depth: self.size.2,
        }
    }

    /// Creates a `width` x `height` x `depth` grid filled with `V::empty()`, or fails where a
    /// dimension is 0.
    pub fn new(width: usize, height: usize, depth: usize) -> (r: Result<Self>)
        requires
            width > 0 && height > 0 && depth > 0 ==> width * height * depth <= usize::MAX,
        ensures
            width == 0 ==> r == Err::<Self, VoxelarError>(VoxelarError::ZeroWidth),
            width > 0 && height == 0 ==> r == Err::<Self, VoxelarError>(VoxelarError::ZeroHeight),
            width > 0 && height > 0 && depth == 0 ==> r == Err::<Self, VoxelarError>(
                VoxelarError::ZeroDepth,
            ),
            width > 0 && height > 0 && depth > 0 ==> (r matches Ok(g) && g.wf() && g.size == (
                width,
                height,
                depth,
            ) && forall|i: int|
                0 <= i < g.voxels@.len() ==> call_ensures(V::empty, (), #[trigger] g.voxels@[i])),
    {
        if !(width > 0) {
            return Err(VoxelarError::ZeroWidth);
        }
        if !(height > 0) {
            return Err(VoxelarError::ZeroHeight);
        }
        if !(depth > 0) {
            return Err(VoxelarError::ZeroDepth);
        }
        assert(width * height <= width * height * depth) by (nonlinear_arith)
            requires
                depth > 0,
        ;
        let size = width * height * depth;
        let mut voxels: Vec<V> = Vec::with_capacity(size);
        let mut n: usize = 0;
        while n < size
            invariant
                n <= size,
                voxels@.len() == n,
                forall|i: int| 0 <= i < n ==> call_ensures(V::empty, (), #[trigger] voxels@[i]),
            decreases size - n,
        {
            voxels.push(V::empty());
            n = n + 1;
        }
        Ok(Self { voxels, size: (width, height, depth) })
    }
}


impl<V: Voxel> VoxelGrid<V> {
    /// Returns the width of the grid.
    pub fn width(&self) -> (w: usize)
        ensures
            w == self.size.0,
    {
        self.size.0
    }

    /// Returns the height of the grid.
    pub fn height(&self) -> (h: usize)
        ensures
            h == self.size.1,
    {
        self.size.1
    }

    /// Returns the depth of the grid.
    pub fn depth(&self) -> (d: usize)
        ensures
            d == self.size.2,
    {
        self.size.2
    }

    /// Returns whether `coordinate` lies inside the grid.
    pub fn is_in_bounds(&self, coordinate: VoxelCoordinate) -> (b: bool)
        ensures
            b == self.holds(coordinate),
    {
        coordinate.x < self.width() && coordinate.y < self.height() && coordinate.z
            < self.depth()
    }

    /// The flat index of `coordinate`, which lies inside the grid.
    pub fn convert_coordinate_to_index(&self, coordinate: VoxelCoordinate) -> (i: usize)
        requires
            self.wf(),
            self.holds(coordinate),
        ensures
            i == self.index_of(coordinate),
            i < self.voxels@.len(),
    {
        proof {
            lemma_flat_index_in_bounds(
                coordinate.x as int,
                coordinate.y as int,
                coordinate.z as int,
                self.size.0 as int,
                self.size.1 as int,
                self.size.2 as int,
            );
            assert(self.voxels@.len() == self.voxels.len());
        }
        coordinate.x + coordinate.y * self.width() + coordinate.z * self.width() * self.height()
    }
}

/// Every coordinate inside a grid has a flat index inside the grid, and the partial sums of the
/// index stay below it.
pub proof fn lemma_flat_index_in_bounds(x: int, y: int, z: int, w: int, h: int, d: int)
    requires
        0 <= x < w,
        0 <= y < h,
        0 <= z < d,
    ensures
        0 <= y * w,
        0 <= z * w * h,
        0 <= w * h,
        y * w <= flat_index(x, y, z, w, h),
        x + y * w <= flat_index(x, y, z, w, h),
        0 <= z * w <= z * w * h,
        z * w * h <= flat_index(x, y, z, w, h),
        w * h <= w * h * d,
        flat_index(x, y, z, w, h) < w * h * d,
{
    assert(0 <= y * w) by (nonlinear_arith)
        requires
            0 <= y,
            0 <= w,
    ;
    assert(0 <= w * h) by (nonlinear_arith)
        requires
            0 <= h,
            0 <= w,
    ;
    assert(0 <= z * w * h) by (nonlinear_arith)
        requires
            0 <= z,
            0 <= w * h,
    ;
    assert(0 <= z * w <= z * w * h) by (nonlinear_arith)
        requires
            0 <= z,
            0 <= w,
            1 <= h,
    ;
    assert(w * h <= w * h * d) by (nonlinear_arith)
        requires
            0 <= w * h,
            1 <= d,
    ;
    assert(x + y * w < w * h) by (nonlinear_arith)
        requires
            0 <= x < w,
            0 <= y < h,
    ;
    assert(z * w * h + w * h <= w * h * d) by (nonlinear_arith)
        requires
            0 <= z < d,
            0 <= w * h,
    ;
}

impl<V: Voxel> VoxelStorage<V> for VoxelGrid<V> {
    open spec fn storage_inv(&self) -> bool {
        self.wf()
    }

    fn size(&self) -> (e: VoxelStorageBBExtent)
        ensures
            e.width == self.size.0,
            e.height == self.size.1,
            e.depth == self.size.2,
    {
        VoxelStorageBBExtent { width: self.width(), height: self.height(), depth: self.depth() }
    }

    fn get_voxel(&self, coordinate: VoxelCoordinate) -> (r: Result<&V>)
        ensures
            self.holds(coordinate) ==> (r matches Ok(v) && *v == self.voxels@[self.index_of(
                coordinate,
            )]),
            !self.holds(coordinate) ==> r == Err::<&V, VoxelarError>(
                self.out_of_bounds(coordinate),
            ),
    {
        if !self.is_in_bounds(coordinate) {
            return Err(
                VoxelarError::CoordinateOutOfBounds {
                    coordinate,
                    width: self.size.0,
                    height: self.size.1,
                    depth: self.size.2,
                },
            );
        }
        let index = self.convert_coordinate_to_index(coordinate);
        Ok(&self.voxels[index])
    }

    fn get_voxel_mut(&mut self, coordinate: VoxelCoordinate) -> (r: Result<&mut V>)
        ensures
            match r {
                Ok(v) => {
                    &&& old(self).holds(coordinate)
                    &&& *v == old(self).voxels@[old(self).index_of(coordinate)]
                    &&& final(self).size == old(self).size
                    &&& final(self).voxels@ == old(self).voxels@.update(
                        old(self).index_of(coordinate),
                        *final(v),
                    )
                },
                Err(e) => {
                    &&& !old(self).holds(coordinate)
                    &&& e == old(self).out_of_bounds(coordinate)
                    &&& *final(self) == *old(self)
                },
            },
    {
        if !self.is_in_bounds(coordinate) {
            return Err(
                VoxelarError::CoordinateOutOfBounds {
                    coordinate,
                    width: self.size.0,
                    height: self.size.1,
                    depth: self.size.2,
                },
            );
        }
        let index = self.convert_coordinate_to_index(coordinate);
        Ok(&mut self.voxels[index])
    }

    fn set_voxel(&mut self, coordinate: VoxelCoordinate, new_voxel: V) -> (r: Result<()>)
        ensures
            final(self).size == old(self).size,
            old(self).holds(coordinate) ==> r is Ok && final(self).voxels@ == old(
                self,
            ).voxels@.update(old(self).index_of(coordinate), new_voxel),
            !old(self).holds(coordinate) ==> r == Err::<(), VoxelarError>(
                old(self).out_of_bounds(coordinate),
            ) && final(self).voxels@ == old(self).voxels@,
    {
        if !self.is_in_bounds(coordinate) {
            return Err(
                VoxelarError::CoordinateOutOfBounds {
                    coordinate,
                    width: self.size.0,
                    height: self.size.1,
                    depth: self.size.2,
                },
            );
        }
        let index = self.convert_coordinate_to_index(coordinate);
        self.voxels.set(index, new_voxel);
        Ok(())
    }
}

/// Distinct coordinates inside a grid have distinct flat indices.
pub proof fn law_flat_index_injective(
    c1: VoxelCoordinate,
    c2: VoxelCoordinate,
    w: int,
    h: int,
    d: int,
)
    requires
        in_bounds(c1, w, h, d),
        in_bounds(c2, w, h, d),
        flat_index(c1.x as int, c1.y as int, c1.z as int, w, h) == flat_index(
            c2.x as int,
            c2.y as int,
            c2.z as int,
            w,
            h,
        ),
    ensures
        c1 == c2,
{
    let (x1, y1, z1) = (c1.x as int, c1.y as int, c1.z as int);
    let (x2, y2, z2) = (c2.x as int, c2.y as int, c2.z as int);
    lemma_flat_index_in_bounds(x1, y1, z1, w, h, d);
    lemma_flat_index_in_bounds(x2, y2, z2, w, h, d);
    assert(x1 + y1 * w < w * h) by (nonlinear_arith)
        requires
            0 <= x1 < w,
            0 <= y1 < h,
    ;
    assert(x2 + y2 * w < w * h) by (nonlinear_arith)
        requires
            0 <= x2 < w,
            0 <= y2 < h,
    ;
    let n = flat_index(x1, y1, z1, w, h);
    assert(n == z1 * (w * h) + (x1 + y1 * w)) by (nonlinear_arith)
        requires
            n == x1 + y1 * w + z1 * w * h,
    ;
    assert(n == z2 * (w * h) + (x2 + y2 * w)) by (nonlinear_arith)
        requires
            n == x2 + y2 * w + z2 * w * h,
    ;
    vstd::arithmetic::div_mod::lemma_fundamental_div_mod_converse(n, w * h, z1, x1 + y1 * w);
    vstd::arithmetic::div_mod::lemma_fundamental_div_mod_converse(n, w * h, z2, x2 + y2 * w);
    let m = x1 + y1 * w;
    assert(m == y1 * w + x1);
    assert(m == y2 * w + x2);
    vstd::arithmetic::div_mod::lemma_fundamental_div_mod_converse(m, w, y1, x1);
    vstd::arithmetic::div_mod::lemma_fundamental_div_mod_converse(m, w, y2, x2);
}

/// The layout of a grid's voxels: the flat index of a coordinate inside the grid is
/// `x + y * width + z * width * height` (x varies fastest, then y, then z), it lies below the
/// number of voxels, and distinct coordinates inside the grid never share an index.
pub proof fn law_index_layout<V: Voxel>(g: &VoxelGrid<V>, c1: VoxelCoordinate, c2: VoxelCoordinate)
    requires
        g.wf(),
        g.holds(c1),
        g.holds(c2),
    ensures
        g.index_of(c1) == c1.x + c1.y * g.size.0 + c1.z * g.size.0 * g.size.1,
        0 <= g.index_of(c1) < g.voxels@.len(),
        g.index_of(c1) == g.index_of(c2) ==> c1 == c2,
{
    let (w, h, d) = (g.size.0 as int, g.size.1 as int, g.size.2 as int);
    lemma_flat_index_in_bounds(c1.x as int, c1.y as int, c1.z as int, w, h, d);
    if g.index_of(c1) == g.index_of(c2) {
        law_flat_index_injective(c1, c2, w, h, d);
    }
}

/// What reading a grid gives after a write: after `set_voxel(c, v)` on coordinates inside the
/// grid, the voxel at `c` is `v` and the voxel at every other coordinate is the one before.
pub proof fn law_set_then_get<V: Voxel>(g: &VoxelGrid<V>, c: VoxelCoordinate, d: VoxelCoordinate, v: V)
    requires
        g.wf(),
        g.holds(c),
        g.holds(d),
    ensures
        g.voxels@.update(g.index_of(c), v)[g.index_of(d)] == if c == d {
            v
        } else {
            g.voxels@[g.index_of(d)]
        },
{
    let (w, h, dd) = (g.size.0 as int, g.size.1 as int, g.size.2 as int);
    lemma_flat_index_in_bounds(c.x as int, c.y as int, c.z as int, w, h, dd);
    lemma_flat_index_in_bounds(d.x as int, d.y as int, d.z as int, w, h, dd);
    if c != d && g.index_of(c) == g.index_of(d) {
        law_flat_index_injective(c, d, w, h, dd);
    }
}

} // verus!
