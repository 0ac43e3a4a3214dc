//! The bookkeeping of a pool allocator for device memory.
//!
//! For every memory type there is a bundle of pools; every pool is one block of device memory,
//! whose free offsets a `FreeMemoryRanges` keeps and whose sub-allocations are remembered by
//! their offsets. Device memory itself is identified by its raw handle; allocating and freeing
//! it is left to the caller, who is told which blocks to create and which to free.
use vstd::prelude::*;

use super::allocator::Allocation;
use super::memory_range::{
    law_unfree_then_free,
    separated,
    first_fit,
    fit_scan_fits,
    free_outcome,
    range_check,
    unfree_defined,
    unfree_outcome,
    FreeMemoryRange,
    FreeMemoryRanges,
};
use crate::result::{Result, VoxelarError};

verus! {

broadcast use super::memory_range::lemma_range_of;

/// The smallest block of device memory that a pool is created with.
pub const PRE_ALLOCATION_BASE_AMOUNT: u64 = 4_194_304;

/// A sub-allocation of a pool, remembered by its offset.
#[derive(Debug, PartialEq, Eq, Clone, Copy)]
pub struct SubAllocation {
    pub offset: u64,
}

/// One block of device memory and its sub-allocations.
#[derive(Debug)]
pub struct MemoryPoolWithSubAllocations {
    memory: u64,
    free_memory_ranges: FreeMemoryRanges,
    sub_allocations: Vec<SubAllocation>,
}

/// The index of the first sub-allocation of `subs`, from `k` on, at `offset`, or `subs.len()`.
pub open spec fn first_sub_at(subs: Seq<SubAllocation>, offset: u64, k: int) -> int
    decreases subs.len() - k,
{
    if k >= subs.len() || k < 0 {
        subs.len() as int
    } else if subs[k].offset == offset {
        k
    } else {
        first_sub_at(subs, offset, k + 1)
    }
}

/// The error that a deallocation reports for an allocation that the pool does not hold.
pub open spec fn not_in_pool(a: Allocation) -> VoxelarError {
    VoxelarError::AllocationNotInPool { memory: a.memory, offset: a.offset, size: a.size }
}

impl MemoryPoolWithSubAllocations {
    /// The raw handle of the pool's device memory.
    pub closed spec fn memory_handle(self) -> u64 {
        self.memory
    }

    /// The bookkeeping of the pool's free offsets.
    pub closed spec fn ranges(self) -> FreeMemoryRanges {
        self.free_memory_ranges
    }

    /// The pool's sub-allocations, in the order in which they were made.
    pub closed spec fn subs(self) -> Seq<SubAllocation> {
        self.sub_allocations@
    }

    /// The pool manages the offsets from 0 on, and its last offset lies below `u64::MAX`.
    pub open spec fn wf(self) -> bool {
        &&& self.ranges().wf()
        &&& self.ranges().lower() == 0
        &&& self.ranges().upper() < u64::MAX
    }

    /// The free list of the pool.
    pub open spec fn free_list(self) -> Seq<FreeMemoryRange> {
        self.ranges().free_list()
    }

    /// The pool's free ranges account for all of its offsets.
    pub open spec fn unused(self) -> bool {
        self.ranges().unfree_count() == 0
    }

    /// The pool has a free range for a request of `size` bytes.
    pub open spec fn fits(self, size: u64) -> bool {
        first_fit(self.free_list(), size) is Some
    }

    /// Allocating `size` bytes from the pool runs without overflow and without a missing range.
    pub open spec fn allocate_defined(self, size: u64) -> bool {
        &&& fit_scan_fits(self.free_list(), size, 0)
        &&& match first_fit(self.free_list(), size) {
            Some(r) => size > 0 ==> {
                let end = (r.lo() + size - 1) as u64;
                !(r.lo() == 0 && end == self.ranges().upper()) ==> unfree_defined(
                    self.free_list(),
                    r.lo(),
                    end,
                )
            },
            None => true,
        }
    }

    /// `after` is what allocating `size` bytes from the first free range `r` that fits makes of
    /// `self`: the range's first `size` offsets are marked as used and a sub-allocation at its
    /// start is remembered; a request of 0 bytes changes nothing.
    pub open spec fn allocated(self, after: Self, size: u64, r: FreeMemoryRange) -> bool {
        if size == 0 {
            after == self
        } else {
            &&& after.memory_handle() == self.memory_handle()
            &&& after.ranges().lower() == self.ranges().lower()
            &&& after.ranges().upper() == self.ranges().upper()
            &&& after.free_list() == unfree_outcome(
                self.free_list(),
                self.ranges().lower(),
                self.ranges().upper(),
                r.lo(),
                (r.lo() + size - 1) as u64,
            )
            &&& after.subs() == self.subs().push(SubAllocation { offset: r.lo() })
        }
    }

    /// `after` and `r` are what giving `a` back to `self` leaves and returns: where the pool
    /// holds a sub-allocation at the offset of `a` and `a` is not empty, its offsets are marked
    /// as free and the first such sub-allocation is forgotten; otherwise an error comes and
    /// nothing changes.
    pub open spec fn deallocated(self, after: Self, a: Allocation, r: Result<()>) -> bool {
        let i = first_sub_at(self.subs(), a.offset, 0);
        let end = (a.offset + a.size - 1) as u64;
        if a.memory != self.memory_handle() || a.size == 0 || i == self.subs().len() {
            r == Err::<(), VoxelarError>(not_in_pool(a)) && after == self
        } else {
            match range_check(0, self.ranges().upper(), a.offset, end) {
                Some(e) => r == Err::<(), VoxelarError>(e) && after == self,
                None => {
                    &&& r is Ok
                    &&& after.memory_handle() == self.memory_handle()
                    &&& after.ranges().lower() == self.ranges().lower()
                    &&& after.ranges().upper() == self.ranges().upper()
                    &&& after.free_list() == free_outcome(
                        self.free_list(),
                        0,
                        self.ranges().upper(),
                        a.offset,
                        end,
                    )
                    &&& after.subs() == self.subs().remove(i)
                },
            }
        }
    }

    /// Creates the bookkeeping for a block of device memory with the raw handle `memory`, whose
    /// offsets `[0, allocation_size]` are all free.
    pub fn new(memory: u64, allocation_size: u64) -> (p: Self)
        requires
            allocation_size < u64::MAX,
        ensures
            p.wf(),
            p.memory_handle() == memory,
            p.ranges().lower() == 0,
            p.ranges().upper() == allocation_size,
            p.free_list() == seq![super::memory_range::range_of(0, allocation_size)],
            p.subs() == Seq::<SubAllocation>::empty(),
    {
        let free_memory_ranges = match FreeMemoryRanges::fully_free(0, allocation_size) {
            Ok(f) => f,
            Err(_) => {
                proof {
                    assert(false);
                }
                FreeMemoryRanges::fully_free(0, 0).unwrap()
            },
        };
        Self { memory, free_memory_ranges, sub_allocations: Vec::new() }
    }

    /// Returns the raw handle of the pool's device memory.
    pub fn memory(&self) -> (m: u64)
        ensures
            m == self.memory_handle(),
    {
        self.memory
    }

    /// Returns the number of the pool's offsets that its free ranges do not account for.
    pub fn used_memory(&self) -> (n: u64)
        requires
            self.wf(),
        ensures
            n == self.ranges().unfree_count(),
    {
        self.free_memory_ranges.unfree_len()
    }

    /// Returns the number of offsets of the pool.
    pub fn total_memory(&self) -> (n: u64)
        requires
            self.wf(),
        ensures
            n == self.ranges().region_len(),
    {
        self.free_memory_ranges.len()
    }

    /// Returns whether the pool's free ranges account for all of its offsets.
    pub fn is_unused(&self) -> (b: bool)
        requires
            self.wf(),
        ensures
            b == self.unused(),
    {
        self.used_memory() == 0
    }

    /// Returns whether the pool has a free range for a request of `size` bytes.
    pub fn can_fit_allocation(&self, size: u64) -> (b: bool)
        requires
            fit_scan_fits(self.free_list(), size, 0),
        ensures
            b == self.fits(size),
    {
        self.free_memory_ranges.find_range_that_can_fit_width(size).is_some()
    }

    /// Returns whether allocating `size` bytes from the pool is defined (see
    /// `allocate_defined`).
    pub fn can_allocate(&self, size: u64) -> (b: bool)
        requires
            self.wf(),
        ensures
            b == self.allocate_defined(size),
    {
        if !self.free_memory_ranges.can_search_width(size) {
            return false;
        }
        match self.free_memory_ranges.find_range_that_can_fit_width(size) {
            Some(range) => {
                if size > 0 {
                    proof {
                        lemma_first_fit_within(self.free_list(), size, self.ranges().upper());
                    }
                    let end = range.start() + size - 1;
                    if !(range.start() == 0 && end == self.free_memory_ranges.region_end()) {
                        return self.free_memory_ranges.can_unfree(range.start(), end);
                    }
                }
                true
            },
            None => true,
        }
    }

    /// Allocates `size` bytes from the first free range that is wide enough, or fails where no
    /// range is. A request of 0 bytes is placed but not remembered.
    pub fn allocate(&mut self, size: u64) -> (r: Result<Allocation>)
        requires
            old(self).wf(),
            old(self).allocate_defined(size),
        ensures
            final(self).wf(),
            match first_fit(old(self).free_list(), size) {
                None => r == Err::<Allocation, VoxelarError>(VoxelarError::PoolCannotFit { size })
                    && *final(self) == *old(self),
                Some(range) => r == Ok::<Allocation, VoxelarError>(
                    Allocation { memory: old(self).memory_handle(), offset: range.lo(), size },
                ) && old(self).allocated(*final(self), size, range),
            },
    {
        let range = match self.free_memory_ranges.find_range_that_can_fit_width(size) {
            Some(range) => range,
            None => {
                return Err(VoxelarError::PoolCannotFit { size });
            },
        };
        if size > 0 {
            proof {
                lemma_first_fit_within(self.free_list(), size, self.ranges().upper());
            }
            let end = range.start() + size - 1;
            match self.free_memory_ranges.unfree_range(range.start(), end) {
                Ok(()) => {},
                Err(e) => {
                    proof {
                        assert(false);
                    }
                    return Err(e);
                },
            }
            self.sub_allocations.push(SubAllocation { offset: range.start() });
        }
        Ok(Allocation { memory: self.memory, offset: range.start(), size })
    }

    /// Returns whether `allocation` lies in this pool's device memory.
    pub fn has_allocation(&self, allocation: Allocation) -> (b: bool)
        ensures
            b == (allocation.memory == self.memory_handle()),
    {
        allocation.memory == self.memory
    }

    /// Gives the offsets of `allocation` back to the pool and forgets its sub-allocation, or
    /// fails where the pool holds no such sub-allocation or its end lies outside the pool.
    pub fn deallocate(&mut self, allocation: Allocation) -> (r: Result<()>)
        requires
            old(self).wf(),
            allocation.memory == old(self).memory_handle() && allocation.size > 0 && first_sub_at(
                old(self).subs(),
                allocation.offset,
                0,
            ) < old(self).subs().len() ==> allocation.offset + allocation.size <= u64::MAX,
        ensures
            final(self).wf(),
            old(self).deallocated(*final(self), allocation, r),
    {
        if !(allocation.memory == self.memory) {
            return Err(
                VoxelarError::AllocationNotInPool {
                    memory: allocation.memory,
                    offset: allocation.offset,
                    size: allocation.size,
                },
            );
        }
        if allocation.size > 0 {
            let ghost subs = self.sub_allocations@;
            let mut i: usize = 0;
            while i < self.sub_allocations.len()
                invariant
                    *self == *old(self),
                    allocation.memory == old(self).memory_handle(),
                    allocation.size > 0,
                    old(self).wf(),
                    first_sub_at(old(self).subs(), allocation.offset, 0) < old(self).subs().len()
                        ==> allocation.offset + allocation.size <= u64::MAX,
                    subs == self.sub_allocations@,
                    0 <= i <= subs.len(),
                    first_sub_at(subs, allocation.offset, 0) == first_sub_at(
                        subs,
                        allocation.offset,
                        i as int,
                    ),
                decreases subs.len() - i,
            {
                let sub_alloc = self.sub_allocations[i];
                if sub_alloc.offset == allocation.offset {
                    proof {
                        assert(first_sub_at(subs, allocation.offset, i as int) == i);
                        let end = (sub_alloc.offset + allocation.size - 1) as u64;
                        if end <= self.ranges().upper() {
                            let l = self.free_list();
                            let pushed = l.push(super::memory_range::range_of(sub_alloc.offset, end));
                            assert forall|k: int| 0 <= k < pushed.len() implies (
                            #[trigger] pushed[k]).hi() <= self.ranges().upper() by {
                                assert(self.wf());
                                if k < l.len() {
                                    assert(pushed[k] == l[k]);
                                    assert(super::memory_range::all_within(l, 0, self.ranges().upper()));
                                    assert(l[k].hi() <= self.ranges().upper());
                                } else {
                                    super::memory_range::lemma_range_of(sub_alloc.offset, end);
                                    assert(pushed[k] == super::memory_range::range_of(
                                        sub_alloc.offset,
                                        end,
                                    ));
                                    assert(pushed[k].hi() == end);
                                }
                            }
                            lemma_ends_below_max(
                                self.free_list().push(super::memory_range::range_of(
                                    sub_alloc.offset,
                                    end,
                                )),
                                self.ranges().upper(),
                            );
                            super::memory_range::lemma_merge_all_defined_below_max(
                                self.free_list().push(super::memory_range::range_of(
                                    sub_alloc.offset,
                                    end,
                                )),
                            );
                        }
                    }
                    match self.free_memory_ranges.free_range(
                        sub_alloc.offset,
                        sub_alloc.offset + allocation.size - 1,
                    ) {
                        Ok(()) => {},
                        Err(e) => {
                            return Err(e);
                        },
                    }
                    self.sub_allocations.remove(i);
                    return Ok(());
                }
                i = i + 1;
            }
        }
        Err(
            VoxelarError::AllocationNotInPool {
                memory: allocation.memory,
                offset: allocation.offset,
                size: allocation.size,
            },
        )
    }
}

/// The range that the search for `width` finds lies within the region `[0, upper]` of a list
/// that lies within it, and is at least `width` wide.
proof fn lemma_first_fit_within(rs: Seq<FreeMemoryRange>, width: u64, upper: u64)
    requires
        super::memory_range::all_within(rs, 0, upper),
        first_fit(rs, width) is Some,
    ensures
        first_fit(rs, width).unwrap().hi() <= upper,
        first_fit(rs, width).unwrap().span() >= width,
{
    lemma_first_fit_from_found(rs, width, 0);
    let k = super::memory_range::first_fit_from(rs, width, 0);
    assert(rs[k].hi() <= upper);
}

proof fn lemma_first_fit_from_found(rs: Seq<FreeMemoryRange>, width: u64, k: int)
    requires
        0 <= k,
    ensures
        k <= rs.len() ==> k <= super::memory_range::first_fit_from(rs, width, k) <= rs.len(),
        super::memory_range::first_fit_from(rs, width, k) < rs.len() ==> rs[super::memory_range::first_fit_from(
            rs,
            width,
            k,
        )].span() >= width,
    decreases rs.len() - k,
{
    if k < rs.len() && rs[k].span() < width {
        lemma_first_fit_from_found(rs, width, k + 1);
    }
}

/// A list within `[0, upper]` with `upper < u64::MAX` has no range that ends at `u64::MAX`.
proof fn lemma_ends_below_max(rs: Seq<FreeMemoryRange>, upper: u64)
    requires
        forall|i: int| 0 <= i < rs.len() ==> (#[trigger] rs[i]).hi() <= upper,
        upper < u64::MAX,
    ensures
        super::memory_range::ends_below_max(rs),
{
    assert forall|i: int| 0 <= i < rs.len() implies #[trigger] rs[i].hi() < u64::MAX by {
        assert(rs[i].hi() <= upper);
    }
}

/// The first of `p, 2p, 4p, ...` that is at least `x`; from `p == 1` on, the smallest power of
/// two that is at least `x`.
pub open spec fn next_power_from(x: nat, p: nat) -> nat
    decreases if p < x {
        x - p
    } else {
        0
    },
{
    if p >= x || p == 0 {
        p
    } else {
        next_power_from(x, 2 * p)
    }
}

/// The smallest power of two that is at least `x` (1 for 0), for `x` up to `2^63`, whose next
/// power of two is the largest that a `u64` holds.
fn next_power_of_two(x: u64) -> (r: u64)
    requires
        x <= 0x8000_0000_0000_0000,
    ensures
        r == next_power_from(x as nat, 1),
{
    proof {
        vstd::arithmetic::power2::lemma2_to64();
        vstd::arithmetic::power2::lemma2_to64_rest();
    }
    let mut p: u64 = 1;
    let ghost mut k: nat = 0;
    while p < x
        invariant
            x <= 0x8000_0000_0000_0000,
            k <= 63,
            p == vstd::arithmetic::power2::pow2(k),
            1 <= p <= 0x8000_0000_0000_0000,
            next_power_from(x as nat, p as nat) == next_power_from(x as nat, 1),
        decreases 63 - k,
    {
        proof {
            vstd::arithmetic::power2::lemma2_to64();
            vstd::arithmetic::power2::lemma2_to64_rest();
            if k >= 63 {
                if k > 63 {
                    vstd::arithmetic::power2::lemma_pow2_strictly_increases(63, k);
                }
                assert(false);
            }
            vstd::arithmetic::power2::lemma_pow2_unfold(k + 1);
            if k + 1 < 63 {
                vstd::arithmetic::power2::lemma_pow2_strictly_increases(k + 1, 63);
            }
        }
        p = p * 2;
        proof {
            k = k + 1;
        }
    }
    p
}

/// The size of the block of device memory that a new pool for a request of `size` bytes gets:
/// the smallest power of two that is at least `size`, but no less than
/// `PRE_ALLOCATION_BASE_AMOUNT`.
pub open spec fn new_pool_size(size: u64) -> int {
    let power = next_power_from(size as nat, 1);
    if power < PRE_ALLOCATION_BASE_AMOUNT {
        PRE_ALLOCATION_BASE_AMOUNT as int
    } else {
        power as int
    }
}

/// Returns the size of the block of device memory for a new pool that has to hold a request of
/// `size` bytes: the next power of two of `size`, or `PRE_ALLOCATION_BASE_AMOUNT` where that is
/// smaller.
pub fn pool_allocation_size(size: u64) -> (n: u64)
    requires
        size <= 0x8000_0000_0000_0000,
    ensures
        n == new_pool_size(size),
        size <= n <= 0x8000_0000_0000_0000,
{
    proof {
        vstd::arithmetic::power2::lemma2_to64();
        vstd::arithmetic::power2::lemma2_to64_rest();
        lemma_next_power_bounds(size as nat, 0);
    }
    let power = next_power_of_two(size);
    if power < PRE_ALLOCATION_BASE_AMOUNT {
        PRE_ALLOCATION_BASE_AMOUNT
    } else {
        power
    }
}

/// Starting from `2^k <= 2^63`, the first power of two that is at least `x <= 2^63` lies between
/// `x` and `2^63`.
proof fn lemma_next_power_bounds(x: nat, k: nat)
    requires
        x <= 0x8000_0000_0000_0000,
        k <= 63,
    ensures
        x <= next_power_from(x, vstd::arithmetic::power2::pow2(k)) <= 0x8000_0000_0000_0000,
    decreases 63 - k,
{
    let p = vstd::arithmetic::power2::pow2(k);
    vstd::arithmetic::power2::lemma2_to64();
    vstd::arithmetic::power2::lemma2_to64_rest();
    vstd::arithmetic::power2::lemma_pow2_pos(k);
    if k < 63 {
        vstd::arithmetic::power2::lemma_pow2_strictly_increases(k, 63);
    }
    if p < x {
        assert(k < 63);
        vstd::arithmetic::power2::lemma_pow2_unfold(k + 1);
        assert(vstd::arithmetic::power2::pow2(k + 1) == 2 * p);
        lemma_next_power_bounds(x, k + 1);
    }
}

// ---------------------------------------------------------------------------------------------
// The pools of one memory type.
// ---------------------------------------------------------------------------------------------

/// The pools of device memory of one memory type.
#[derive(Debug)]
pub struct PoolBundleForType {
    memory_type_index: u32,
    memory_pools: Vec<MemoryPoolWithSubAllocations>,
}

/// Every pool of `ps` is well formed.
pub open spec fn pools_wf(ps: Seq<MemoryPoolWithSubAllocations>) -> bool {
    forall|i: int| 0 <= i < ps.len() ==> (#[trigger] ps[i]).wf()
}

/// The index of the first pool of `ps`, from `k` on, that fits `size` bytes, or `ps.len()`.
pub open spec fn first_fitting_pool_from(
    ps: Seq<MemoryPoolWithSubAllocations>,
    size: u64,
    k: int,
) -> int
    decreases ps.len() - k,
{
    if k >= ps.len() || k < 0 {
        ps.len() as int
    } else if ps[k].fits(size) {
        k
    } else {
        first_fitting_pool_from(ps, size, k + 1)
    }
}

/// Every pool that the search for `size` bytes looks at, from `k` on, can be searched without
/// overflow.
pub open spec fn pool_scan_defined(ps: Seq<MemoryPoolWithSubAllocations>, size: u64, k: int) -> bool
    decreases ps.len() - k,
{
    if k >= ps.len() || k < 0 {
        true
    } else {
        fit_scan_fits(ps[k].free_list(), size, 0) && (ps[k].fits(size) || pool_scan_defined(
            ps,
            size,
            k + 1,
        ))
    }
}

/// The index of the first pool of `ps`, from `k` on, whose memory is `memory`, or `ps.len()`.
pub open spec fn first_pool_with_memory_from(
    ps: Seq<MemoryPoolWithSubAllocations>,
    memory: u64,
    k: int,
) -> int
    decreases ps.len() - k,
{
    if k >= ps.len() || k < 0 {
        ps.len() as int
    } else if ps[k].memory_handle() == memory {
        k
    } else {
        first_pool_with_memory_from(ps, memory, k + 1)
    }
}

/// The pools of `ps` that are in use, in order.
pub open spec fn kept_pools(ps: Seq<MemoryPoolWithSubAllocations>) -> Seq<
    MemoryPoolWithSubAllocations,
>
    decreases ps.len(),
{
    if ps.len() == 0 {
        Seq::empty()
    } else if ps.last().unused() {
        kept_pools(ps.drop_last())
    } else {
        kept_pools(ps.drop_last()).push(ps.last())
    }
}

/// The memory handles of the pools of `ps` that are not in use, in order.
pub open spec fn unused_memory(ps: Seq<MemoryPoolWithSubAllocations>) -> Seq<u64>
    decreases ps.len(),
{
    if ps.len() == 0 {
        Seq::empty()
    } else if ps.last().unused() {
        unused_memory(ps.drop_last()).push(ps.last().memory_handle())
    } else {
        unused_memory(ps.drop_last())
    }
}

proof fn lemma_kept_pools_wf(ps: Seq<MemoryPoolWithSubAllocations>)
    requires
        pools_wf(ps),
    ensures
        pools_wf(kept_pools(ps)),
    decreases ps.len(),
{
    if ps.len() > 0 {
        let init = ps.drop_last();
        assert(pools_wf(init)) by {
            assert forall|i: int| 0 <= i < init.len() implies (#[trigger] init[i]).wf() by {
                assert(init[i] == ps[i]);
            }
        }
        lemma_kept_pools_wf(init);
        let k = kept_pools(init);
        if !ps.last().unused() {
            assert forall|i: int| 0 <= i < k.len() + 1 implies (#[trigger] k.push(ps.last())[i]).wf() by {
                if i < k.len() {
                    assert(k.push(ps.last())[i] == k[i]);
                }
            }
        }
    }
}

impl PoolBundleForType {
    /// The memory type of the bundle's pools.
    pub closed spec fn type_index(self) -> u32 {
        self.memory_type_index
    }

    /// The bundle's pools, in the order in which they were created.
    pub closed spec fn pools(self) -> Seq<MemoryPoolWithSubAllocations> {
        self.memory_pools@
    }

    /// Every pool of the bundle is well formed.
    pub open spec fn wf(self) -> bool {
        pools_wf(self.pools())
    }

    /// Creates the bundle for `memory_type_index` with the one pool `pool`.
    pub fn new(memory_type_index: u32, pool: MemoryPoolWithSubAllocations) -> (b: Self)
        requires
            pool.wf(),
        ensures
            b.wf(),
            b.type_index() == memory_type_index,
            b.pools() == seq![pool],
    {
        let mut memory_pools = Vec::new();
        memory_pools.push(pool);
        Self { memory_type_index, memory_pools }
    }

    /// Returns the memory type of the bundle's pools.
    pub fn memory_type_index(&self) -> (i: u32)
        ensures
            i == self.type_index(),
    {
        self.memory_type_index
    }

    /// Returns the index of the first pool that fits `size` bytes.
    pub fn find_pool_for_allocation(&self, size: u64) -> (p: Option<usize>)
        requires
            pool_scan_defined(self.pools(), size, 0),
        ensures
            match p {
                Some(i) => i == first_fitting_pool_from(self.pools(), size, 0) && i < self.pools().len(),
                None => first_fitting_pool_from(self.pools(), size, 0) == self.pools().len(),
            },
            p matches Some(i) ==> exists|r: int|
                0 <= r < self.pools()[i as int].free_list().len() && (
                #[trigger] self.pools()[i as int].free_list()[r]).hi()
                    - self.pools()[i as int].free_list()[r].lo() + 1 >= size,
            forall|q: int, r: int|
                0 <= q < self.pools().len() && (p matches Some(i) ==> q < i) && 0 <= r
                    < self.pools()[q].free_list().len() ==> (#[trigger] self.pools()[q].free_list()[r]).hi()
                    - self.pools()[q].free_list()[r].lo() + 1 < size,
    {
        let ghost ps = self.memory_pools@;
        let mut i: usize = 0;
        while i < self.memory_pools.len()
            invariant
                ps == self.memory_pools@,
                0 <= i <= ps.len(),
                pool_scan_defined(ps, size, i as int),
                first_fitting_pool_from(ps, size, 0) == first_fitting_pool_from(ps, size, i as int),
            decreases ps.len() - i,
        {
            if self.memory_pools[i].can_fit_allocation(size) {
                proof {
                    law_first_fitting_pool(ps, size);
                }
                return Some(i);
            }
            i = i + 1;
        }
        proof {
            law_first_fitting_pool(ps, size);
        }
        None
    }

    /// Returns the index of the first pool whose memory holds `allocation`.
    pub fn find_pool_of_allocation(&self, allocation: Allocation) -> (p: Option<usize>)
        ensures
            match p {
                Some(i) => i == first_pool_with_memory_from(self.pools(), allocation.memory, 0)
                    && i < self.pools().len(),
                None => first_pool_with_memory_from(self.pools(), allocation.memory, 0)
                    == self.pools().len(),
            },
    {
        let ghost ps = self.memory_pools@;
        let mut i: usize = 0;
        while i < self.memory_pools.len()
            invariant
                ps == self.memory_pools@,
                0 <= i <= ps.len(),
                first_pool_with_memory_from(ps, allocation.memory, 0)
                    == first_pool_with_memory_from(ps, allocation.memory, i as int),
            decreases ps.len() - i,
        {
            if self.memory_pools[i].has_allocation(allocation) {
                return Some(i);
            }
            i = i + 1;
        }
        None
    }

    /// Appends a pool for the block of device memory `memory` of `allocation_size` bytes and
    /// returns its index.
    pub fn add_pool(&mut self, memory: u64, allocation_size: u64) -> (i: usize)
        requires
            old(self).wf(),
            allocation_size < u64::MAX,
        ensures
            final(self).wf(),
            final(self).type_index() == old(self).type_index(),
            final(self).pools().len() == old(self).pools().len() + 1,
            final(self).pools().drop_last() == old(self).pools(),
            i == old(self).pools().len(),
            final(self).pools()[i as int].memory_handle() == memory,
            final(self).pools()[i as int].ranges().upper() == allocation_size,
            final(self).pools()[i as int].free_list() == seq![
                super::memory_range::range_of(0, allocation_size),
            ],
            final(self).pools()[i as int].subs() == Seq::<SubAllocation>::empty(),
    {
        let pool = MemoryPoolWithSubAllocations::new(memory, allocation_size);
        self.memory_pools.push(pool);
        proof {
            assert(self.memory_pools@.drop_last() =~= old(self).memory_pools@);
            assert forall|k: int| 0 <= k < self.memory_pools@.len() implies (
            #[trigger] self.memory_pools@[k]).wf() by {
                if k < old(self).memory_pools@.len() {
                    assert(self.memory_pools@[k] == old(self).memory_pools@[k]);
                }
            }
        }
        self.memory_pools.len() - 1
    }

    /// Allocates `size` bytes from the pool at index `p`.
    pub fn allocate_in_pool(&mut self, p: usize, size: u64) -> (r: Result<Allocation>)
        requires
            old(self).wf(),
            p < old(self).pools().len(),
            old(self).pools()[p as int].allocate_defined(size),
        ensures
            final(self).wf(),
            final(self).type_index() == old(self).type_index(),
            final(self).pools().len() == old(self).pools().len(),
            forall|k: int|
                0 <= k < old(self).pools().len() && k != p ==> #[trigger] final(self).pools()[k]
                    == old(self).pools()[k],
            ({
                let old_pool = old(self).pools()[p as int];
                match first_fit(old_pool.free_list(), size) {
                    None => r == Err::<Allocation, VoxelarError>(
                        VoxelarError::PoolCannotFit { size },
                    ) && final(self).pools()[p as int] == old_pool,
                    Some(range) => r == Ok::<Allocation, VoxelarError>(
                        Allocation { memory: old_pool.memory_handle(), offset: range.lo(), size },
                    ) && old_pool.allocated(final(self).pools()[p as int], size, range),
                }
            }),
    {
        proof {
            assert(self.memory_pools@[p as int].wf());
        }
        let r = self.memory_pools[p].allocate(size);
        proof {
            assert forall|k: int| 0 <= k < self.memory_pools@.len() implies (
            #[trigger] self.memory_pools@[k]).wf() by {
                if k != p {
                    assert(self.memory_pools@[k] == old(self).memory_pools@[k]);
                }
            }
        }
        r
    }

    /// Gives `allocation` back to the pool at index `p`.
    pub fn deallocate_in_pool(&mut self, p: usize, allocation: Allocation) -> (r: Result<()>)
        requires
            old(self).wf(),
            p < old(self).pools().len(),
            allocation.memory == old(self).pools()[p as int].memory_handle() && allocation.size
                > 0 && first_sub_at(old(self).pools()[p as int].subs(), allocation.offset, 0)
                < old(self).pools()[p as int].subs().len() ==> allocation.offset
                + allocation.size <= u64::MAX,
        ensures
            final(self).wf(),
            final(self).type_index() == old(self).type_index(),
            final(self).pools().len() == old(self).pools().len(),
            forall|k: int|
                0 <= k < old(self).pools().len() && k != p ==> #[trigger] final(self).pools()[k]
                    == old(self).pools()[k],
            old(self).pools()[p as int].deallocated(final(self).pools()[p as int], allocation, r),
    {
        proof {
            assert(self.memory_pools@[p as int].wf());
        }
        let r = self.memory_pools[p].deallocate(allocation);
        proof {
            assert forall|k: int| 0 <= k < self.memory_pools@.len() implies (
            #[trigger] self.memory_pools@[k]).wf() by {
                if k != p {
                    assert(self.memory_pools@[k] == old(self).memory_pools@[k]);
                }
            }
        }
        r
    }

    /// Removes the pools that are not in use, keeping the order of the others, and returns the
    /// memory handles of the removed pools, in order, so that their memory can be freed.
    pub fn destroy_unused_pools(&mut self) -> (freed: Vec<u64>)
        requires
            old(self).wf(),
        ensures
            final(self).wf(),
            final(self).type_index() == old(self).type_index(),
            final(self).pools() == kept_pools(old(self).pools()),
            freed@ == unused_memory(old(self).pools()),
    {
        let ghost ps = self.memory_pools@;
        let mut remaining: Vec<MemoryPoolWithSubAllocations> = Vec::new();
        std::mem::swap(&mut remaining, &mut self.memory_pools);
        let mut kept: Vec<MemoryPoolWithSubAllocations> = Vec::new();
        let mut freed: Vec<u64> = Vec::new();
        let ghost mut done: int = 0;
        assert(ps.take(0) =~= Seq::<MemoryPoolWithSubAllocations>::empty());
        while remaining.len() > 0
            invariant
                pools_wf(ps),
                0 <= done <= ps.len(),
                remaining@ == ps.skip(done),
                kept@ == kept_pools(ps.take(done)),
                freed@ == unused_memory(ps.take(done)),
            decreases remaining@.len(),
        {
            let pool = remaining.remove(0);
            proof {
                assert(pool == ps[done]);
                assert(ps.take(done + 1).drop_last() =~= ps.take(done));
                assert(ps.skip(done + 1) =~= ps.skip(done).subrange(1, ps.skip(done).len() as int));
                assert(ps[done].wf());
            }
            if pool.is_unused() {
                freed.push(pool.memory());
            } else {
                kept.push(pool);
            }
            proof {
                done = done + 1;
            }
        }
        proof {
            assert(ps.take(done) =~= ps);
            lemma_kept_pools_wf(ps);
        }
        self.memory_pools = kept;
        freed
    }

    /// Returns the memory handles of all pools, in order.
    pub fn memory_handles(&self) -> (handles: Vec<u64>)
        ensures
            handles@ == self.pools().map_values(|p: MemoryPoolWithSubAllocations| p.memory_handle()),
    {
        let ghost ps = self.memory_pools@;
        let mut handles: Vec<u64> = Vec::new();
        let mut i: usize = 0;
        while i < self.memory_pools.len()
            invariant
                ps == self.memory_pools@,
                0 <= i <= ps.len(),
                handles@ == ps.take(i as int).map_values(
                    |p: MemoryPoolWithSubAllocations| p.memory_handle(),
                ),
            decreases ps.len() - i,
        {
            handles.push(self.memory_pools[i].memory());
            proof {
                assert(ps.take(i as int + 1).map_values(
                    |p: MemoryPoolWithSubAllocations| p.memory_handle(),
                ) =~= ps.take(i as int).map_values(
                    |p: MemoryPoolWithSubAllocations| p.memory_handle(),
                ).push(ps[i as int].memory_handle()));
            }
            i = i + 1;
        }
        assert(ps.take(i as int) =~= ps);
        handles
    }
}

// ---------------------------------------------------------------------------------------------
// The allocator.
// ---------------------------------------------------------------------------------------------

/// What an allocation request leads to: either it was placed in an existing pool, and the pools
/// that are no longer in use were removed, whose memory the caller frees; or no pool fits it, and
/// the caller has to create a block of device memory of `allocation_size` bytes for a new pool
/// (see `DedicatedPoolAllocator::allocate_in_new_pool`).
#[derive(Debug, PartialEq, Eq)]
pub enum AllocationStep {
    Allocated { allocation: Allocation, freed_memory: Vec<u64> },
    NeedsNewPool { allocation_size: u64 },
}

/// A pool allocator with a bundle of pools per memory type.
#[derive(Debug)]
pub struct DedicatedPoolAllocator {
    pool_bundles: Vec<PoolBundleForType>,
}

/// Every bundle of `bs` is well formed.
pub open spec fn bundles_wf(bs: Seq<PoolBundleForType>) -> bool {
    forall|i: int| 0 <= i < bs.len() ==> (#[trigger] bs[i]).wf()
}

/// The index of the first bundle of `bs`, from `k` on, for `memory_type_index`, or `bs.len()`.
pub open spec fn first_bundle_for_type_from(
    bs: Seq<PoolBundleForType>,
    memory_type_index: u32,
    k: int,
) -> int
    decreases bs.len() - k,
{
    if k >= bs.len() || k < 0 {
        bs.len() as int
    } else if bs[k].type_index() == memory_type_index {
        k
    } else {
        first_bundle_for_type_from(bs, memory_type_index, k + 1)
    }
}

/// The index of the first bundle of `bs`, from `k` on, with a pool whose memory is `memory`, or
/// `bs.len()`.
pub open spec fn first_bundle_with_memory_from(bs: Seq<PoolBundleForType>, memory: u64, k: int) -> int
    decreases bs.len() - k,
{
    if k >= bs.len() || k < 0 {
        bs.len() as int
    } else if first_pool_with_memory_from(bs[k].pools(), memory, 0) < bs[k].pools().len() {
        k
    } else {
        first_bundle_with_memory_from(bs, memory, k + 1)
    }
}

/// The memory handles of all pools of `bs`, bundle by bundle.
pub open spec fn all_memory(bs: Seq<PoolBundleForType>) -> Seq<u64> {
    bs.flat_map(
        |b: PoolBundleForType| b.pools().map_values(|p: MemoryPoolWithSubAllocations| p.memory_handle()),
    )
}

impl DedicatedPoolAllocator {
    /// The bundles, in the order in which they were set up.
    pub closed spec fn bundles(self) -> Seq<PoolBundleForType> {
        self.pool_bundles@
    }

    /// Every bundle is well formed.
    pub open spec fn wf(self) -> bool {
        bundles_wf(self.bundles())
    }

    /// Allocating `size` bytes of memory type `memory_type_index` runs without overflow and
    /// without a missing range: the pools that the search looks at can be searched, the pool that
    /// it finds can be allocated from, and where none fits, `size` has a next power of two.
    pub open spec fn allocate_defined(self, memory_type_index: u32, size: u64) -> bool {
        let b = first_bundle_for_type_from(self.bundles(), memory_type_index, 0);
        b < self.bundles().len() ==> {
            let ps = self.bundles()[b].pools();
            let p = first_fitting_pool_from(ps, size, 0);
            &&& pool_scan_defined(ps, size, 0)
            &&& p < ps.len() ==> ps[p].allocate_defined(size)
            &&& p >= ps.len() ==> size <= 0x8000_0000_0000_0000
        }
    }

    /// Creates an allocator without any bundle.
    pub fn new() -> (a: Self)
        ensures
            a.wf(),
            a.bundles() == Seq::<PoolBundleForType>::empty(),
    {
        Self { pool_bundles: Vec::new() }
    }

    /// Returns the number of bundles.
    pub fn pool_bundle_count(&self) -> (n: usize)
        ensures
            n == self.bundles().len(),
    {
        self.pool_bundles.len()
    }

    /// Appends the bundle for `memory_type_index` with one pool for the block of device memory
    /// `memory` of `PRE_ALLOCATION_BASE_AMOUNT` bytes; setting up the allocator does this for
    /// every memory type, in order.
    pub fn add_pool_bundle(&mut self, memory_type_index: u32, memory: u64)
        requires
            old(self).wf(),
        ensures
            final(self).wf(),
            final(self).bundles().len() == old(self).bundles().len() + 1,
            final(self).bundles().drop_last() == old(self).bundles(),
            final(self).bundles().last().type_index() == memory_type_index,
            final(self).bundles().last().pools().len() == 1,
            final(self).bundles().last().pools()[0].memory_handle() == memory,
            final(self).bundles().last().pools()[0].ranges().upper() == PRE_ALLOCATION_BASE_AMOUNT,
            final(self).bundles().last().pools()[0].free_list() == seq![
                super::memory_range::range_of(0, PRE_ALLOCATION_BASE_AMOUNT),
            ],
            final(self).bundles().last().pools()[0].subs() == Seq::<SubAllocation>::empty(),
    {
        let pool = MemoryPoolWithSubAllocations::new(memory, PRE_ALLOCATION_BASE_AMOUNT);
        self.pool_bundles.push(PoolBundleForType::new(memory_type_index, pool));
        proof {
            assert(self.pool_bundles@.drop_last() =~= old(self).pool_bundles@);
            assert forall|k: int| 0 <= k < self.pool_bundles@.len() implies (
            #[trigger] self.pool_bundles@[k]).wf() by {
                if k < old(self).pool_bundles@.len() {
                    assert(self.pool_bundles@[k] == old(self).pool_bundles@[k]);
                }
            }
        }
    }

    /// Returns the index of the first bundle for `memory_type_index`, or fails where none was
    /// set up.
    pub fn find_pools_for_memory_type_index(&self, memory_type_index: u32) -> (r: Result<usize>)
        ensures
            ({
                let b = first_bundle_for_type_from(self.bundles(), memory_type_index, 0);
                if b < self.bundles().len() {
                    r matches Ok(i) && i == b
                } else {
                    r == Err::<usize, VoxelarError>(
                        VoxelarError::NoPoolForMemoryType { memory_type_index },
                    )
                }
            }),
    {
        let ghost bs = self.pool_bundles@;
        let mut i: usize = 0;
        while i < self.pool_bundles.len()
            invariant
                bs == self.pool_bundles@,
                0 <= i <= bs.len(),
                first_bundle_for_type_from(bs, memory_type_index, 0)
                    == first_bundle_for_type_from(bs, memory_type_index, i as int),
            decreases bs.len() - i,
        {
            if self.pool_bundles[i].memory_type_index() == memory_type_index {
                return Ok(i);
            }
            i = i + 1;
        }
        Err(VoxelarError::NoPoolForMemoryType { memory_type_index })
    }

    /// Returns the index of the first bundle with a pool whose memory holds `allocation`, and
    /// the index of that pool in the bundle.
    pub fn find_pool_bundle_and_pool_index_of_allocation(&self, allocation: Allocation) -> (r:
        Option<(usize, usize)>)
        ensures
            ({
                let b = first_bundle_with_memory_from(self.bundles(), allocation.memory, 0);
                if b < self.bundles().len() {
                    r matches Some((i, j)) && i == b && j == first_pool_with_memory_from(
                        self.bundles()[b].pools(),
                        allocation.memory,
                        0,
                    )
                } else {
                    r is None
                }
            }),
            r is None <==> !is_pool_memory(self.bundles(), allocation.memory),
            r matches Some((i, j)) ==> i < self.bundles().len() && j < self.bundles()[i as int].pools().len()
                && self.bundles()[i as int].pools()[j as int].memory_handle() == allocation.memory,
            r matches Some((i, j)) ==> forall|c: int, k: int|
                0 <= c < i && 0 <= k < self.bundles()[c].pools().len() ==> (
                #[trigger] self.bundles()[c].pools()[k]).memory_handle() != allocation.memory,
    {
        let ghost bs = self.pool_bundles@;
        let mut i: usize = 0;
        while i < self.pool_bundles.len()
            invariant
                bs == self.pool_bundles@,
                0 <= i <= bs.len(),
                first_bundle_with_memory_from(bs, allocation.memory, 0)
                    == first_bundle_with_memory_from(bs, allocation.memory, i as int),
            decreases bs.len() - i,
        {
            if let Some(pool_index) = self.pool_bundles[i].find_pool_of_allocation(allocation) {
                proof {
                    lemma_bundle_search_found(bs, allocation.memory);
                    law_first_bundle_with_memory(bs, allocation.memory);
                }
                return Some((i, pool_index));
            }
            i = i + 1;
        }
        proof {
            lemma_bundle_search_found(bs, allocation.memory);
        }
        None
    }
}

/// In a fresh pool for `[0, n]`, a request of `1 <= size <= n` bytes can be allocated.
proof fn lemma_fresh_pool_allocate_defined(n: u64, size: u64)
    requires
        1 <= size <= n,
        n < u64::MAX,
    ensures
        ({
            let rs = seq![super::memory_range::range_of(0, n)];
            &&& fit_scan_fits(rs, size, 0)
            &&& first_fit(rs, size) == Some(super::memory_range::range_of(0, n))
            &&& unfree_defined(rs, 0, (size - 1) as u64)
        }),
{
    let r = super::memory_range::range_of(0, n);
    let rs = seq![r];
    assert(fit_scan_fits(rs, size, 1));
    assert(super::memory_range::first_fit_from(rs, size, 0) == 0);
    let end = (size - 1) as u64;
    // Splitting the one range at 0 leaves it as it is.
    let f0 = super::memory_range::splitter(0);
    assert(rs.map_values(f0) =~= seq![super::memory_range::split_piece(r, 0)]);
    rs.map_values(f0).lemma_flatten_one_element();
    let first = super::memory_range::split_all(rs, 0);
    assert(first =~= seq![r]);
    assert(!super::memory_range::split_overflows(rs, 0));
    if size == 1 {
        assert(super::memory_range::last_covering(rs, 0) == Some(0int));
    } else {
        assert(!super::memory_range::split_overflows(first, end));
        assert(super::memory_range::last_covering(first, end) == Some(0int));
        let fe = super::memory_range::splitter(end);
        assert(first.map_values(fe) =~= seq![super::memory_range::split_piece(r, end)]);
        first.map_values(fe).lemma_flatten_one_element();
        assert(super::memory_range::split_piece(r, end).len() >= 1);
    }
}

impl DedicatedPoolAllocator {
    /// Allocates `size` bytes of memory type `memory_type_index` from the first pool of its
    /// bundle that fits them and then removes the pools that are no longer in use; fails where
    /// no bundle for the memory type was set up; asks for a new pool where none fits.
    pub fn allocate(&mut self, memory_type_index: u32, size: u64) -> (r: Result<AllocationStep>)
        requires
            old(self).wf(),
            old(self).allocate_defined(memory_type_index, size),
        ensures
            final(self).wf(),
            ({
                let bs = old(self).bundles();
                let b = first_bundle_for_type_from(bs, memory_type_index, 0);
                if b >= bs.len() {
                    r == Err::<AllocationStep, VoxelarError>(
                        VoxelarError::NoPoolForMemoryType { memory_type_index },
                    ) && *final(self) == *old(self)
                } else {
                    let ps = bs[b].pools();
                    let p = first_fitting_pool_from(ps, size, 0);
                    if p >= ps.len() {
                        (r matches Ok(AllocationStep::NeedsNewPool { allocation_size })
                            && allocation_size == new_pool_size(size)) && *final(self) == *old(self)
                    } else {
                        let range = first_fit(ps[p].free_list(), size).unwrap();
                        &&& r matches Ok(AllocationStep::Allocated { allocation, freed_memory })
                        &&& allocation == Allocation {
                            memory: ps[p].memory_handle(),
                            offset: range.lo(),
                            size,
                        }
                        &&& final(self).bundles().len() == bs.len()
                        &&& forall|k: int|
                            0 <= k < bs.len() && k != b ==> #[trigger] final(self).bundles()[k]
                                == bs[k]
                        &&& final(self).bundles()[b].type_index() == bs[b].type_index()
                        &&& exists|after: MemoryPoolWithSubAllocations|
                            #[trigger] ps[p].allocated(after, size, range)
                                && final(self).bundles()[b].pools() == kept_pools(ps.update(p, after))
                                && freed_memory@ == unused_memory(ps.update(p, after))
                    }
                }
            }),
    {
        let b = match self.find_pools_for_memory_type_index(memory_type_index) {
            Ok(b) => b,
            Err(e) => {
                return Err(e);
            },
        };
        proof {
            lemma_first_bundle_for_type_bounds(self.pool_bundles@, memory_type_index, 0);
            assert(self.pool_bundles@[b as int].wf());

        }
        let p = match self.pool_bundles[b].find_pool_for_allocation(size) {
            Some(p) => p,
            None => {
                let allocation_size = pool_allocation_size(size);
                return Ok(AllocationStep::NeedsNewPool { allocation_size });
            },
        };
        let ghost ps = self.pool_bundles@[b as int].pools();
        let ghost bs = self.pool_bundles@;
        let allocation = match self.pool_bundles[b].allocate_in_pool(p, size) {
            Ok(a) => a,
            Err(e) => {
                proof {
                    lemma_first_fitting_pool_fits(ps, size, 0);
                    assert(false);
                }
                return Err(e);
            },
        };
        let ghost after = self.pool_bundles@[b as int].pools()[p as int];
        proof {
            assert(self.pool_bundles@[b as int].pools() =~= ps.update(p as int, after));
        }
        let freed_memory = self.pool_bundles[b].destroy_unused_pools();
        proof {
            assert forall|k: int| 0 <= k < self.pool_bundles@.len() implies (
            #[trigger] self.pool_bundles@[k]).wf() by {
                if k != b {
                    assert(self.pool_bundles@[k] == bs[k]);
                }
            }
            assert(ps[p as int].allocated(after, size, first_fit(ps[p as int].free_list(), size).unwrap()));
        }
        Ok(AllocationStep::Allocated { allocation, freed_memory })
    }
}

/// The pool that the search for `size` bytes finds fits them.
proof fn lemma_first_fitting_pool_fits(ps: Seq<MemoryPoolWithSubAllocations>, size: u64, k: int)
    requires
        0 <= k,
    ensures
        k <= ps.len() ==> k <= first_fitting_pool_from(ps, size, k) <= ps.len(),
        first_fitting_pool_from(ps, size, k) < ps.len() ==> ps[first_fitting_pool_from(
            ps,
            size,
            k,
        )].fits(size),
    decreases ps.len() - k,
{
    if k < ps.len() && !ps[k].fits(size) {
        lemma_first_fitting_pool_fits(ps, size, k + 1);
    }
}

/// The search for the bundle of a memory type, from `k` on, finds an index from `k` on.
proof fn lemma_first_bundle_for_type_bounds(bs: Seq<PoolBundleForType>, memory_type_index: u32, k: int)
    requires
        0 <= k <= bs.len(),
    ensures
        k <= first_bundle_for_type_from(bs, memory_type_index, k) <= bs.len(),
    decreases bs.len() - k,
{
    if k < bs.len() && bs[k].type_index() != memory_type_index {
        lemma_first_bundle_for_type_bounds(bs, memory_type_index, k + 1);
    }
}

/// `after` is a pool for the block of device memory `memory` of the size `n` that a request of
/// `size` bytes asks for, from whose start `size` bytes were allocated.
pub open spec fn fresh_pool_after(
    after: MemoryPoolWithSubAllocations,
    memory: u64,
    n: u64,
    size: u64,
) -> bool {
    &&& n == new_pool_size(size)
    &&& after.memory_handle() == memory
    &&& after.ranges().lower() == 0
    &&& after.ranges().upper() == n
    &&& size == 0 ==> after.free_list() == seq![super::memory_range::range_of(0, n)]
        && after.subs() == Seq::<SubAllocation>::empty()
    &&& size > 0 ==> after.free_list() == super::memory_range::unfree_result(
        seq![super::memory_range::range_of(0, n)],
        0,
        (size - 1) as u64,
    ) && after.subs() == seq![SubAllocation { offset: 0 }]
}

impl DedicatedPoolAllocator {
    /// Adds a pool for the block of device memory `memory`, which the caller created with the
    /// size that `allocate` asked for, to the bundle of `memory_type_index`, allocates `size`
    /// bytes from it and then removes the pools that are not in use; fails where no bundle for
    /// the memory type was set up.
    pub fn allocate_in_new_pool(&mut self, memory_type_index: u32, size: u64, memory: u64) -> (r:
        Result<(Allocation, Vec<u64>)>)
        requires
            old(self).wf(),
            size <= 0x8000_0000_0000_0000,
        ensures
            final(self).wf(),
            ({
                let bs = old(self).bundles();
                let b = first_bundle_for_type_from(bs, memory_type_index, 0);
                if b >= bs.len() {
                    r == Err::<(Allocation, Vec<u64>), VoxelarError>(
                        VoxelarError::NoPoolForMemoryType { memory_type_index },
                    ) && *final(self) == *old(self)
                } else {
                    let ps = bs[b].pools();
                    &&& r matches Ok((allocation, freed_memory))
                    &&& allocation == Allocation { memory, offset: 0, size }
                    &&& final(self).bundles().len() == bs.len()
                    &&& forall|k: int|
                        0 <= k < bs.len() && k != b ==> #[trigger] final(self).bundles()[k]
                            == bs[k]
                    &&& final(self).bundles()[b].type_index() == bs[b].type_index()
                    &&& exists|n: u64, after: MemoryPoolWithSubAllocations|
                        #[trigger] fresh_pool_after(after, memory, n, size)
                            && final(self).bundles()[b].pools() == kept_pools(ps.push(after))
                            && freed_memory@ == unused_memory(ps.push(after))
                }
            }),
    {
        let b = match self.find_pools_for_memory_type_index(memory_type_index) {
            Ok(b) => b,
            Err(e) => {
                return Err(e);
            },
        };
        proof {
            lemma_first_bundle_for_type_bounds(self.pool_bundles@, memory_type_index, 0);
            assert(self.pool_bundles@[b as int].wf());
        }
        let ghost bs = self.pool_bundles@;
        let ghost ps = bs[b as int].pools();
        let allocation_size = pool_allocation_size(size);
        let p = self.pool_bundles[b].add_pool(memory, allocation_size);
        let ghost fresh = self.pool_bundles@[b as int].pools()[p as int];
        proof {
            if size > 0 {
                lemma_fresh_pool_allocate_defined(allocation_size, size);
            } else {
                assert(fit_scan_fits(fresh.free_list(), 0, 1));
                assert(super::memory_range::first_fit_from(fresh.free_list(), 0, 0) == 0);
            }
        }
        let allocation = match self.pool_bundles[b].allocate_in_pool(p, size) {
            Ok(a) => a,
            Err(e) => {
                proof {
                    if size > 0 {
                        lemma_fresh_pool_allocate_defined(allocation_size, size);
                    }
                    assert(false);
                }
                return Err(e);
            },
        };
        let ghost after = self.pool_bundles@[b as int].pools()[p as int];
        proof {
            let added = self.pool_bundles@[b as int].pools();
            assert(added =~= ps.push(after)) by {
                assert forall|k: int| 0 <= k < ps.len() implies added[k] == ps[k] by {
                    assert(added[k] == ps.push(fresh)[k]);
                }
            }
            if size > 0 {
                lemma_fresh_pool_allocate_defined(allocation_size, size);
            }
        }
        let freed_memory = self.pool_bundles[b].destroy_unused_pools();
        proof {
            assert forall|k: int| 0 <= k < self.pool_bundles@.len() implies (
            #[trigger] self.pool_bundles@[k]).wf() by {
                if k != b {
                    assert(self.pool_bundles@[k] == bs[k]);
                }
            }
            assert(fresh_pool_after(after, memory, allocation_size, size));
        }
        Ok((allocation, freed_memory))
    }
}

impl MemoryPoolWithSubAllocations {
    /// Returns whether the pool remembers a sub-allocation at `offset`.
    pub fn has_sub_allocation_at(&self, offset: u64) -> (b: bool)
        ensures
            b == (first_sub_at(self.subs(), offset, 0) < self.subs().len()),
    {
        let ghost subs = self.sub_allocations@;
        let mut i: usize = 0;
        while i < self.sub_allocations.len()
            invariant
                subs == self.sub_allocations@,
                0 <= i <= subs.len(),
                first_sub_at(subs, offset, 0) == first_sub_at(subs, offset, i as int),
            decreases subs.len() - i,
        {
            if self.sub_allocations[i].offset == offset {
                return true;
            }
            i = i + 1;
        }
        false
    }
}

/// The search for the pool of a memory handle, from `k` on, finds an index from `k` on.
proof fn lemma_first_pool_with_memory_bounds(ps: Seq<MemoryPoolWithSubAllocations>, memory: u64, k: int)
    requires
        0 <= k <= ps.len(),
    ensures
        k <= first_pool_with_memory_from(ps, memory, k) <= ps.len(),
        first_pool_with_memory_from(ps, memory, k) < ps.len() ==> ps[first_pool_with_memory_from(
            ps,
            memory,
            k,
        )].memory_handle() == memory,
    decreases ps.len() - k,
{
    if k < ps.len() && ps[k].memory_handle() != memory {
        lemma_first_pool_with_memory_bounds(ps, memory, k + 1);
    }
}

/// The search for the bundle of a memory handle, from `k` on, finds an index from `k` on.
proof fn lemma_first_bundle_with_memory_bounds(bs: Seq<PoolBundleForType>, memory: u64, k: int)
    requires
        0 <= k <= bs.len(),
    ensures
        k <= first_bundle_with_memory_from(bs, memory, k) <= bs.len(),
        first_bundle_with_memory_from(bs, memory, k) < bs.len() ==> first_pool_with_memory_from(
            bs[first_bundle_with_memory_from(bs, memory, k)].pools(),
            memory,
            0,
        ) < bs[first_bundle_with_memory_from(bs, memory, k)].pools().len(),
    decreases bs.len() - k,
{
    if k < bs.len() && !(first_pool_with_memory_from(bs[k].pools(), memory, 0)
        < bs[k].pools().len()) {
        lemma_first_bundle_with_memory_bounds(bs, memory, k + 1);
    }
}

impl DedicatedPoolAllocator {
    /// Giving `allocation` back runs without overflow: where the pool that holds its memory
    /// remembers a sub-allocation at its offset and it is not empty, its end fits in a `u64`.
    pub open spec fn deallocate_defined(self, allocation: Allocation) -> bool {
        let b = first_bundle_with_memory_from(self.bundles(), allocation.memory, 0);
        b < self.bundles().len() ==> {
            let ps = self.bundles()[b].pools();
            let p = first_pool_with_memory_from(ps, allocation.memory, 0);
            allocation.size > 0 && first_sub_at(ps[p].subs(), allocation.offset, 0)
                < ps[p].subs().len() ==> allocation.offset + allocation.size <= u64::MAX
        }
    }

    /// Returns whether allocating `size` bytes of memory type `memory_type_index` is defined
    /// (see `allocate_defined`).
    pub fn can_allocate(&self, memory_type_index: u32, size: u64) -> (ok: bool)
        requires
            self.wf(),
        ensures
            ok == self.allocate_defined(memory_type_index, size),
    {
        let b = match self.find_pools_for_memory_type_index(memory_type_index) {
            Ok(b) => b,
            Err(_) => {
                return true;
            },
        };
        proof {
            lemma_first_bundle_for_type_bounds(self.pool_bundles@, memory_type_index, 0);
            assert(self.pool_bundles@[b as int].wf());
        }
        let bundle = &self.pool_bundles[b];
        let ghost ps = bundle.memory_pools@;
        let mut i: usize = 0;
        while i < bundle.memory_pools.len()
            invariant
                ps == bundle.memory_pools@,
                b < self.bundles().len(),
                b == first_bundle_for_type_from(self.bundles(), memory_type_index, 0),
                ps == self.bundles()[b as int].pools(),
                pools_wf(ps),
                0 <= i <= ps.len(),
                pool_scan_defined(ps, size, 0) == pool_scan_defined(ps, size, i as int),
                first_fitting_pool_from(ps, size, 0) == first_fitting_pool_from(ps, size, i as int),
            decreases ps.len() - i,
        {
            let pool = &bundle.memory_pools[i];
            proof {
                assert(ps[i as int].wf());
            }
            if !pool.free_memory_ranges.can_search_width(size) {
                return false;
            }
            if pool.can_fit_allocation(size) {
                return pool.can_allocate(size);
            }
            i = i + 1;
        }
        size <= 0x8000_0000_0000_0000
    }

    /// Returns whether giving `allocation` back is defined (see `deallocate_defined`).
    pub fn can_deallocate(&self, allocation: Allocation) -> (ok: bool)
        ensures
            ok == self.deallocate_defined(allocation),
    {
        match self.find_pool_bundle_and_pool_index_of_allocation(allocation) {
            Some((b, p)) => {
                proof {
                    lemma_first_bundle_with_memory_bounds(self.pool_bundles@, allocation.memory, 0);
                }
                let pool = &self.pool_bundles[b].memory_pools[p];
                if allocation.size > 0 && pool.has_sub_allocation_at(allocation.offset) {
                    allocation.offset <= u64::MAX - allocation.size
                } else {
                    true
                }
            },
            None => true,
        }
    }

    /// Gives `allocation` back to the pool whose memory holds it, where there is one; what the
    /// pool reports is dropped.
    pub fn deallocate(&mut self, allocation: Allocation)
        requires
            old(self).wf(),
            old(self).deallocate_defined(allocation),
        ensures
            final(self).wf(),
            ({
                let bs = old(self).bundles();
                let b = first_bundle_with_memory_from(bs, allocation.memory, 0);
                if b >= bs.len() {
                    *final(self) == *old(self)
                } else {
                    let ps = bs[b].pools();
                    let p = first_pool_with_memory_from(ps, allocation.memory, 0);
                    &&& final(self).bundles().len() == bs.len()
                    &&& forall|k: int|
                        0 <= k < bs.len() && k != b ==> #[trigger] final(self).bundles()[k]
                            == bs[k]
                    &&& final(self).bundles()[b].type_index() == bs[b].type_index()
                    &&& exists|after: MemoryPoolWithSubAllocations, r: Result<()>|
                        #[trigger] ps[p].deallocated(after, allocation, r)
                            && final(self).bundles()[b].pools() == ps.update(p, after)
                }
            }),
    {
        if let Some((b, p)) = self.find_pool_bundle_and_pool_index_of_allocation(allocation) {
            proof {
                lemma_first_bundle_with_memory_bounds(self.pool_bundles@, allocation.memory, 0);
                lemma_first_pool_with_memory_bounds(
                    self.pool_bundles@[b as int].pools(),
                    allocation.memory,
                    0,
                );
                assert(self.pool_bundles@[b as int].wf());
            }
            let ghost bs = self.pool_bundles@;
            let ghost ps = bs[b as int].pools();
            let r = self.pool_bundles[b].deallocate_in_pool(p, allocation);
            proof {
                let after = self.pool_bundles@[b as int].pools()[p as int];
                assert(self.pool_bundles@[b as int].pools() =~= ps.update(p as int, after));
                assert(ps[p as int].deallocated(after, allocation, r));
                assert forall|k: int| 0 <= k < self.pool_bundles@.len() implies (
                #[trigger] self.pool_bundles@[k]).wf() by {
                    if k != b {
                        assert(self.pool_bundles@[k] == bs[k]);
                    }
                }
            }
        }
    }

    /// Returns the memory handles of all pools, bundle by bundle, so that destroying the
    /// allocator can free them.
    pub fn destroy(&self) -> (handles: Vec<u64>)
        ensures
            handles@ == all_memory(self.bundles()),
            handles@.len() == pool_count(self.bundles()),
            forall|b: int, j: int|
                0 <= b < self.bundles().len() && 0 <= j < self.bundles()[b].pools().len()
                    ==> handles@.contains((#[trigger] self.bundles()[b].pools()[j]).memory_handle()),
    {
        proof {
            law_all_memory(self.pool_bundles@);
        }
        let ghost bs = self.pool_bundles@;
        let ghost g = |b: PoolBundleForType|
            b.pools().map_values(|p: MemoryPoolWithSubAllocations| p.memory_handle());
        let mut handles: Vec<u64> = Vec::new();
        let mut i: usize = 0;
        assert(bs.take(0).map_values(g) =~= Seq::<Seq<u64>>::empty());
        while i < self.pool_bundles.len()
            invariant
                bs == self.pool_bundles@,
                g == (|b: PoolBundleForType|
                    b.pools().map_values(|p: MemoryPoolWithSubAllocations| p.memory_handle())),
                0 <= i <= bs.len(),
                handles@ == bs.take(i as int).flat_map(g),
            decreases bs.len() - i,
        {
            let mut bundle_handles = self.pool_bundles[i].memory_handles();
            proof {
                bs.take(i as int).lemma_flat_map_push(g, bs[i as int]);
                assert(bs.take(i as int).push(bs[i as int]) =~= bs.take(i as int + 1));
            }
            handles.append(&mut bundle_handles);
            i = i + 1;
        }
        assert(bs.take(i as int) =~= bs);
        handles
    }
}

/// Appending a sub-allocation at an offset at which none was remembered and then forgetting the
/// first one at that offset gives the list back.
proof fn lemma_push_then_remove_first(subs: Seq<SubAllocation>, offset: u64)
    requires
        first_sub_at(subs, offset, 0) == subs.len(),
    ensures
        first_sub_at(subs.push(SubAllocation { offset }), offset, 0) == subs.len(),
        subs.push(SubAllocation { offset }).remove(subs.len() as int) == subs,
{
    lemma_first_sub_at_push(subs, offset, 0);
    assert(subs.push(SubAllocation { offset }).remove(subs.len() as int) =~= subs);
}

proof fn lemma_first_sub_at_push(subs: Seq<SubAllocation>, offset: u64, k: int)
    requires
        0 <= k <= subs.len(),
        first_sub_at(subs, offset, k) == subs.len(),
    ensures
        first_sub_at(subs.push(SubAllocation { offset }), offset, k) == subs.len(),
    decreases subs.len() - k,
{
    if k < subs.len() {
        assert(subs.push(SubAllocation { offset })[k] == subs[k]);
        lemma_first_sub_at_push(subs, offset, k + 1);
    }
}

/// Deallocation gives back what allocation took: in a pool of whose free ranges no two touch,
/// allocating `size` bytes from the first range `[a, b]` that fits, at an offset at which no
/// sub-allocation is remembered, and then deallocating the allocation that came back succeeds
/// and leaves the same sub-allocations and the same free list, where the allocation ends before
/// `b`, or else the free list with `[a, b]` moved to its end. It fails for allocations of 0 or 1
/// byte, and for those that end at `b - 1`.
pub proof fn law_pool_allocate_then_deallocate(
    p: MemoryPoolWithSubAllocations,
    q: MemoryPoolWithSubAllocations,
    t: MemoryPoolWithSubAllocations,
    size: u64,
    r: Result<()>,
)
    requires
        p.wf(),
        separated(p.free_list()),
        2 <= size,
        first_fit(p.free_list(), size) matches Some(f) && {
            &&& first_sub_at(p.subs(), f.lo(), 0) == p.subs().len()
            &&& f.lo() + size != f.hi()
            &&& p.allocated(q, size, f)
            &&& q.deallocated(t, Allocation { memory: p.memory_handle(), offset: f.lo(), size }, r)
        },
    ensures
        r is Ok,
        t.memory_handle() == p.memory_handle(),
        t.subs() == p.subs(),
        ({
            let f = first_fit(p.free_list(), size).unwrap();
            let k = super::memory_range::first_fit_from(p.free_list(), size, 0);
            t.free_list() == if f.lo() + size - 1 < f.hi() {
                p.free_list()
            } else {
                p.free_list().remove(k).push(f)
            }
        }),
{
    let rs = p.free_list();
    let f = first_fit(rs, size).unwrap();
    let k = super::memory_range::first_fit_from(rs, size, 0);
    lemma_first_fit_from_found(rs, size, 0);
    lemma_first_fit_within(rs, size, p.ranges().upper());
    assert(f == rs[k]);
    let e = (f.lo() + size - 1) as u64;
    law_unfree_then_free(rs, 0, p.ranges().upper(), k, e);
    lemma_push_then_remove_first(p.subs(), f.lo());
}

// ---------------------------------------------------------------------------------------------
// What the searches and the lists of the allocator are.
// ---------------------------------------------------------------------------------------------

/// The number of pools of all bundles of `bs`.
pub open spec fn pool_count(bs: Seq<PoolBundleForType>) -> nat
    decreases bs.len(),
{
    if bs.len() == 0 {
        0
    } else {
        pool_count(bs.drop_last()) + bs.last().pools().len()
    }
}

/// The sub-allocation that a deallocation at `offset` forgets is the first one at `offset`;
/// where there is none, the search ends at the end of the list.
pub proof fn law_first_sub_at(subs: Seq<SubAllocation>, offset: u64)
    ensures
        ({
            let i = first_sub_at(subs, offset, 0);
            &&& 0 <= i <= subs.len()
            &&& i < subs.len() ==> subs[i].offset == offset
            &&& forall|j: int| 0 <= j < i ==> (#[trigger] subs[j]).offset != offset
        }),
{
    lemma_first_sub_at_scan(subs, offset, 0);
}

proof fn lemma_first_sub_at_scan(subs: Seq<SubAllocation>, offset: u64, k: int)
    requires
        0 <= k <= subs.len(),
    ensures
        ({
            let i = first_sub_at(subs, offset, k);
            &&& k <= i <= subs.len()
            &&& i < subs.len() ==> subs[i].offset == offset
            &&& forall|j: int| k <= j < i ==> (#[trigger] subs[j]).offset != offset
        }),
    decreases subs.len() - k,
{
    if k < subs.len() && subs[k].offset != offset {
        lemma_first_sub_at_scan(subs, offset, k + 1);
    }
}

/// A pool holds a free range of at least `size` offsets exactly where the search of its free
/// list for `size` finds one.
proof fn lemma_fits_iff_wide_range(pool: MemoryPoolWithSubAllocations, size: u64)
    ensures
        pool.fits(size) <==> exists|i: int|
            0 <= i < pool.free_list().len() && (#[trigger] pool.free_list()[i]).hi()
                - pool.free_list()[i].lo() + 1 >= size,
{
    super::memory_range::law_first_fit(pool.free_list(), size);
}

/// The pool that a request of `size` bytes is placed in is the first pool of the bundle with a
/// free range of at least `size` offsets (`hi - lo + 1 >= size`); no pool before it has one, and
/// where the search finds none (and a new pool is asked for), no pool of the bundle has one.
pub proof fn law_first_fitting_pool(ps: Seq<MemoryPoolWithSubAllocations>, size: u64)
    ensures
        ({
            let p = first_fitting_pool_from(ps, size, 0);
            &&& 0 <= p <= ps.len()
            &&& p < ps.len() ==> exists|i: int|
                0 <= i < ps[p].free_list().len() && (#[trigger] ps[p].free_list()[i]).hi()
                    - ps[p].free_list()[i].lo() + 1 >= size
            &&& forall|q: int, i: int|
                0 <= q < p && 0 <= i < ps[q].free_list().len() ==> (
                #[trigger] ps[q].free_list()[i]).hi() - ps[q].free_list()[i].lo() + 1 < size
        }),
{
    lemma_first_fitting_pool_scan(ps, size, 0);
}

proof fn lemma_first_fitting_pool_scan(ps: Seq<MemoryPoolWithSubAllocations>, size: u64, k: int)
    requires
        0 <= k <= ps.len(),
    ensures
        ({
            let p = first_fitting_pool_from(ps, size, k);
            &&& k <= p <= ps.len()
            &&& p < ps.len() ==> exists|i: int|
                0 <= i < ps[p].free_list().len() && (#[trigger] ps[p].free_list()[i]).hi()
                    - ps[p].free_list()[i].lo() + 1 >= size
            &&& forall|q: int, i: int|
                k <= q < p && 0 <= i < ps[q].free_list().len() ==> (
                #[trigger] ps[q].free_list()[i]).hi() - ps[q].free_list()[i].lo() + 1 < size
        }),
    decreases ps.len() - k,
{
    if k < ps.len() {
        lemma_fits_iff_wide_range(ps[k], size);
        if !ps[k].fits(size) {
            lemma_first_fitting_pool_scan(ps, size, k + 1);
        }
    }
}

/// The pool that the search for a memory handle finds is the first pool with that handle; where
/// it finds none, no pool has it.
pub proof fn law_first_pool_with_memory(ps: Seq<MemoryPoolWithSubAllocations>, memory: u64)
    ensures
        ({
            let p = first_pool_with_memory_from(ps, memory, 0);
            &&& 0 <= p <= ps.len()
            &&& p < ps.len() ==> ps[p].memory_handle() == memory
            &&& forall|q: int| 0 <= q < p ==> (#[trigger] ps[q]).memory_handle() != memory
        }),
{
    lemma_first_pool_with_memory_scan(ps, memory, 0);
}

proof fn lemma_first_pool_with_memory_scan(ps: Seq<MemoryPoolWithSubAllocations>, memory: u64, k: int)
    requires
        0 <= k <= ps.len(),
    ensures
        ({
            let p = first_pool_with_memory_from(ps, memory, k);
            &&& k <= p <= ps.len()
            &&& p < ps.len() ==> ps[p].memory_handle() == memory
            &&& forall|q: int| k <= q < p ==> (#[trigger] ps[q]).memory_handle() != memory
        }),
    decreases ps.len() - k,
{
    if k < ps.len() && ps[k].memory_handle() != memory {
        lemma_first_pool_with_memory_scan(ps, memory, k + 1);
    }
}

/// The bundle that the search for a memory type finds is the first bundle of that type; where
/// it finds none, no bundle has it.
pub proof fn law_first_bundle_for_type(bs: Seq<PoolBundleForType>, memory_type_index: u32)
    ensures
        ({
            let b = first_bundle_for_type_from(bs, memory_type_index, 0);
            &&& 0 <= b <= bs.len()
            &&& b < bs.len() ==> bs[b].type_index() == memory_type_index
            &&& forall|c: int| 0 <= c < b ==> (#[trigger] bs[c]).type_index() != memory_type_index
        }),
{
    lemma_first_bundle_for_type_scan(bs, memory_type_index, 0);
}

proof fn lemma_first_bundle_for_type_scan(bs: Seq<PoolBundleForType>, memory_type_index: u32, k: int)
    requires
        0 <= k <= bs.len(),
    ensures
        ({
            let b = first_bundle_for_type_from(bs, memory_type_index, k);
            &&& k <= b <= bs.len()
            &&& b < bs.len() ==> bs[b].type_index() == memory_type_index
            &&& forall|c: int| k <= c < b ==> (#[trigger] bs[c]).type_index() != memory_type_index
        }),
    decreases bs.len() - k,
{
    if k < bs.len() && bs[k].type_index() != memory_type_index {
        lemma_first_bundle_for_type_scan(bs, memory_type_index, k + 1);
    }
}

/// The bundle in which a deallocation of memory `memory` looks is the first bundle with a pool
/// of that memory, searched over every bundle: it has such a pool, no bundle before it has one,
/// and where the search finds none, no pool of any bundle has that memory.
pub proof fn law_first_bundle_with_memory(bs: Seq<PoolBundleForType>, memory: u64)
    ensures
        ({
            let b = first_bundle_with_memory_from(bs, memory, 0);
            &&& 0 <= b <= bs.len()
            &&& b < bs.len() ==> exists|j: int|
                0 <= j < bs[b].pools().len() && (#[trigger] bs[b].pools()[j]).memory_handle()
                    == memory
            &&& forall|c: int, j: int|
                0 <= c < b && 0 <= j < bs[c].pools().len() ==> (
                #[trigger] bs[c].pools()[j]).memory_handle() != memory
        }),
{
    lemma_first_bundle_with_memory_scan(bs, memory, 0);
}

proof fn lemma_first_bundle_with_memory_scan(bs: Seq<PoolBundleForType>, memory: u64, k: int)
    requires
        0 <= k <= bs.len(),
    ensures
        ({
            let b = first_bundle_with_memory_from(bs, memory, k);
            &&& k <= b <= bs.len()
            &&& b < bs.len() ==> exists|j: int|
                0 <= j < bs[b].pools().len() && (#[trigger] bs[b].pools()[j]).memory_handle()
                    == memory
            &&& forall|c: int, j: int|
                k <= c < b && 0 <= j < bs[c].pools().len() ==> (
                #[trigger] bs[c].pools()[j]).memory_handle() != memory
        }),
    decreases bs.len() - k,
{
    if k < bs.len() {
        law_first_pool_with_memory(bs[k].pools(), memory);
        let p = first_pool_with_memory_from(bs[k].pools(), memory, 0);
        if p < bs[k].pools().len() {
            assert(bs[k].pools()[p].memory_handle() == memory);
        } else {
            lemma_first_bundle_with_memory_scan(bs, memory, k + 1);
        }
    }
}

/// `h` is the memory handle of a pool of some bundle of `bs`.
pub open spec fn is_pool_memory(bs: Seq<PoolBundleForType>, h: u64) -> bool {
    exists|b: int, j: int|
        0 <= b < bs.len() && 0 <= j < bs[b].pools().len() && (#[trigger] bs[b].pools()[j]).memory_handle()
            == h
}

/// `h` is the memory handle of a pool of `ps` that is not in use.
pub open spec fn is_unused_pool_memory(ps: Seq<MemoryPoolWithSubAllocations>, h: u64) -> bool {
    exists|i: int| 0 <= i < ps.len() && (#[trigger] ps[i]).unused() && ps[i].memory_handle() == h
}

/// Destroying the allocator hands back the memory of every pool of every bundle, one handle per
/// pool: the list holds exactly as many handles as there are pools, every pool's handle occurs
/// in it, and every handle in it is that of some pool.
pub proof fn law_all_memory(bs: Seq<PoolBundleForType>)
    ensures
        all_memory(bs).len() == pool_count(bs),
        forall|b: int, j: int|
            0 <= b < bs.len() && 0 <= j < bs[b].pools().len() ==> all_memory(bs).contains(
                (#[trigger] bs[b].pools()[j]).memory_handle(),
            ),
        forall|n: int|
            0 <= n < all_memory(bs).len() ==> is_pool_memory(bs, #[trigger] all_memory(bs)[n]),
    decreases bs.len(),
{
    let g = |b: PoolBundleForType|
        b.pools().map_values(|p: MemoryPoolWithSubAllocations| p.memory_handle());
    if bs.len() == 0 {
        assert(bs.map_values(g) =~= Seq::<Seq<u64>>::empty());
        assert(all_memory(bs) =~= Seq::<u64>::empty());
    } else {
        let init = bs.drop_last();
        let last = bs.last();
        law_all_memory(init);
        init.lemma_flat_map_push(g, last);
        assert(init.push(last) =~= bs);
        let a = all_memory(init);
        let h = g(last);
        assert(all_memory(bs) =~= a + h);
        assert forall|b: int, j: int|
            0 <= b < bs.len() && 0 <= j < bs[b].pools().len() implies all_memory(bs).contains(
            (#[trigger] bs[b].pools()[j]).memory_handle(),
        ) by {
            if b < init.len() {
                assert(init[b] == bs[b]);
                assert(init[b].pools()[j] == bs[b].pools()[j]);
                let n = choose|n: int| 0 <= n < a.len() && a[n] == init[b].pools()[j].memory_handle();
                assert((a + h)[n] == a[n]);
            } else {
                assert(bs[b] == last);
                assert((a + h)[a.len() + j] == h[j]);
            }
        }
        assert forall|n: int| 0 <= n < all_memory(bs).len() implies is_pool_memory(
            bs,
            #[trigger] all_memory(bs)[n],
        ) by {
            if n < a.len() {
                assert((a + h)[n] == a[n]);
                assert(is_pool_memory(init, a[n]));
                let (b, j) = choose|b: int, j: int|
                    0 <= b < init.len() && 0 <= j < init[b].pools().len() && (#[trigger] init[b].pools()[j]).memory_handle()
                        == a[n];
                assert(init[b] == bs[b]);
                assert(0 <= b < bs.len() && 0 <= j < bs[b].pools().len() && bs[b].pools()[j].memory_handle()
                    == all_memory(bs)[n]);
            } else {
                let j = n - a.len();
                assert((a + h)[n] == h[j]);
                assert(bs[bs.len() - 1] == last);
                assert(bs[bs.len() - 1].pools()[j].memory_handle() == all_memory(bs)[n]);
            }
        }
    }
}

/// Removing the pools that are no longer in use keeps exactly the pools in use and frees the
/// memory of exactly the others: no kept pool is unused, every pool in use is kept, every unused
/// pool's memory is freed, every freed handle is that of an unused pool, and every pool is
/// either kept or freed.
pub proof fn law_kept_and_unused(ps: Seq<MemoryPoolWithSubAllocations>)
    ensures
        kept_pools(ps).len() + unused_memory(ps).len() == ps.len(),
        forall|k: int| 0 <= k < kept_pools(ps).len() ==> !(#[trigger] kept_pools(ps)[k]).unused(),
        forall|i: int| 0 <= i < ps.len() && !(#[trigger] ps[i]).unused() ==> kept_pools(ps).contains(ps[i]),
        forall|i: int|
            0 <= i < ps.len() && (#[trigger] ps[i]).unused() ==> unused_memory(ps).contains(
                ps[i].memory_handle(),
            ),
        forall|n: int|
            0 <= n < unused_memory(ps).len() ==> is_unused_pool_memory(
                ps,
                #[trigger] unused_memory(ps)[n],
            ),
    decreases ps.len(),
{
    if ps.len() > 0 {
        let init = ps.drop_last();
        let last = ps.last();
        law_kept_and_unused(init);
        let k = kept_pools(init);
        let u = unused_memory(init);
        assert forall|i: int| 0 <= i < init.len() implies init[i] == ps[i] by {}
        assert(ps[ps.len() - 1] == last);
        if last.unused() {
            let u2 = u.push(last.memory_handle());
            assert forall|i: int|
                0 <= i < ps.len() && (#[trigger] ps[i]).unused() implies u2.contains(
                ps[i].memory_handle(),
            ) by {
                if i < init.len() {
                    let n = choose|n: int| 0 <= n < u.len() && u[n] == init[i].memory_handle();
                    assert(u2[n] == u[n]);
                } else {
                    assert(u2[u.len() as int] == last.memory_handle());
                }
            }
            assert forall|n: int| 0 <= n < u2.len() implies is_unused_pool_memory(
                ps,
                #[trigger] u2[n],
            ) by {
                if n < u.len() {
                    assert(u2[n] == u[n]);
                    assert(is_unused_pool_memory(init, u[n]));
                    let i = choose|i: int|
                        0 <= i < init.len() && (#[trigger] init[i]).unused() && init[i].memory_handle()
                            == u[n];
                    assert(ps[i] == init[i]);
                    assert(0 <= i < ps.len() && ps[i].unused() && ps[i].memory_handle() == u2[n]);
                } else {
                    assert(ps[ps.len() - 1].memory_handle() == u2[n]);
                }
            }
            assert(unused_memory(ps) == u2);
            assert(kept_pools(ps) == k);
            assert forall|i: int| 0 <= i < ps.len() && !(#[trigger] ps[i]).unused() implies k.contains(
                ps[i],
            ) by {
                assert(i < init.len());
                assert(init[i] == ps[i]);
            }
        } else {
            let k2 = k.push(last);
            assert forall|j: int| 0 <= j < k2.len() implies !(#[trigger] k2[j]).unused() by {
                if j < k.len() {
                    assert(k2[j] == k[j]);
                }
            }
            assert forall|i: int| 0 <= i < ps.len() && !(#[trigger] ps[i]).unused() implies k2.contains(
                ps[i],
            ) by {
                if i < init.len() {
                    assert(init[i] == ps[i]);
                    let n = choose|n: int| 0 <= n < k.len() && k[n] == init[i];
                    assert(k2[n] == k[n]);
                } else {
                    assert(k2[k.len() as int] == last);
                }
            }
            assert forall|i: int|
                0 <= i < ps.len() && (#[trigger] ps[i]).unused() implies u.contains(
                ps[i].memory_handle(),
            ) by {
                assert(i < init.len());
                assert(init[i] == ps[i]);
            }
            assert forall|n: int| 0 <= n < u.len() implies is_unused_pool_memory(
                ps,
                #[trigger] u[n],
            ) by {
                assert(is_unused_pool_memory(init, u[n]));
                let i = choose|i: int|
                    0 <= i < init.len() && (#[trigger] init[i]).unused() && init[i].memory_handle()
                        == u[n];
                assert(ps[i] == init[i]);
                assert(0 <= i < ps.len() && ps[i].unused() && ps[i].memory_handle() == u[n]);
            }
            assert(unused_memory(ps) == u);
            assert(kept_pools(ps) == k2);
        }
    }
}

/// What the search for the bundle and pool of a memory handle gives: where some pool has the
/// handle, the first bundle with such a pool and its first pool with the handle.
proof fn lemma_bundle_search_found(bs: Seq<PoolBundleForType>, memory: u64)
    ensures
        ({
            let b = first_bundle_with_memory_from(bs, memory, 0);
            &&& b < bs.len() <==> is_pool_memory(bs, memory)
            &&& b < bs.len() ==> first_pool_with_memory_from(bs[b].pools(), memory, 0)
                < bs[b].pools().len() && bs[b].pools()[first_pool_with_memory_from(
                bs[b].pools(),
                memory,
                0,
            )].memory_handle() == memory
        }),
{
    law_first_bundle_with_memory(bs, memory);
    let b = first_bundle_with_memory_from(bs, memory, 0);
    if b < bs.len() {
        law_first_pool_with_memory(bs[b].pools(), memory);
        let j = choose|j: int|
            0 <= j < bs[b].pools().len() && (#[trigger] bs[b].pools()[j]).memory_handle() == memory;
        assert(first_pool_with_memory_from(bs[b].pools(), memory, 0) <= j);
    } else if is_pool_memory(bs, memory) {
        let (c, j) = choose|c: int, j: int|
            0 <= c < bs.len() && 0 <= j < bs[c].pools().len() && (#[trigger] bs[c].pools()[j]).memory_handle()
                == memory;
        assert(bs[c].pools()[j].memory_handle() != memory);
    }
}

/// From a power of two `p = 2^k` below which no power of two reaches `x`, the first of
/// `p, 2p, 4p, ...` that reaches `x` is a power of two, reaches `x`, and is 1 or has a half
/// below `x`.
proof fn lemma_next_power_least(x: nat, k: nat)
    requires
        x <= 0x8000_0000_0000_0000,
        k <= 63,
        vstd::arithmetic::power2::pow2(k) == 1 || vstd::arithmetic::power2::pow2(k) / 2 < x,
    ensures
        ({
            let r = next_power_from(x, vstd::arithmetic::power2::pow2(k));
            &&& exists|e: nat| e <= 63 && #[trigger] vstd::arithmetic::power2::pow2(e) == r
            &&& x <= r
            &&& r == 1 || r / 2 < x
        }),
    decreases 63 - k,
{
    let p = vstd::arithmetic::power2::pow2(k);
    vstd::arithmetic::power2::lemma2_to64();
    vstd::arithmetic::power2::lemma2_to64_rest();
    vstd::arithmetic::power2::lemma_pow2_pos(k);
    if k < 63 {
        vstd::arithmetic::power2::lemma_pow2_strictly_increases(k, 63);
    }
    if p < x {
        assert(k < 63);
        vstd::arithmetic::power2::lemma_pow2_unfold(k + 1);
        assert(vstd::arithmetic::power2::pow2(k + 1) == 2 * p);
        assert(vstd::arithmetic::power2::pow2(k + 1) / 2 == p);
        lemma_next_power_least(x, k + 1);
    } else {
        assert(next_power_from(x, p) == p);
        assert(vstd::arithmetic::power2::pow2(k) == p);
    }
}

/// The size of a new pool for a request of `size` bytes is a power of two, holds the request,
/// is at least `PRE_ALLOCATION_BASE_AMOUNT`, and is either that amount or the smallest power of
/// two that holds the request (its half does not).
pub proof fn law_new_pool_size(size: u64)
    requires
        size <= 0x8000_0000_0000_0000,
    ensures
        exists|e: nat| e <= 63 && #[trigger] vstd::arithmetic::power2::pow2(e) == new_pool_size(size),
        size <= new_pool_size(size),
        PRE_ALLOCATION_BASE_AMOUNT <= new_pool_size(size),
        new_pool_size(size) == PRE_ALLOCATION_BASE_AMOUNT || new_pool_size(size) / 2 < size,
{
    vstd::arithmetic::power2::lemma2_to64();
    lemma_next_power_least(size as nat, 0);
    if next_power_from(size as nat, 1) < PRE_ALLOCATION_BASE_AMOUNT {
        assert(vstd::arithmetic::power2::pow2(22) == PRE_ALLOCATION_BASE_AMOUNT);
    }
}

} // verus!
