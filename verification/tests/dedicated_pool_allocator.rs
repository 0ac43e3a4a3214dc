use voxelar::vulkan::allocator::Allocation;
use voxelar::vulkan::dedicated_pool_allocator::{
    pool_allocation_size, AllocationStep, DedicatedPoolAllocator, MemoryPoolWithSubAllocations,
    PRE_ALLOCATION_BASE_AMOUNT,
};
use voxelar::VoxelarError;

#[test]
fn a_new_pool_size_is_the_next_power_of_two_but_at_least_the_base_amount() {
    assert_eq!(PRE_ALLOCATION_BASE_AMOUNT, pool_allocation_size(0));
    assert_eq!(PRE_ALLOCATION_BASE_AMOUNT, pool_allocation_size(1000));
    assert_eq!(PRE_ALLOCATION_BASE_AMOUNT, pool_allocation_size(4_194_304));
    assert_eq!(8_388_608, pool_allocation_size(5_000_000));
    assert_eq!(8_388_608, pool_allocation_size(4_194_305));
    assert_eq!(1 << 63, pool_allocation_size((1 << 62) + 1));
}

#[test]
fn a_pool_allocates_from_the_start_of_its_first_fitting_range() {
    let mut pool = MemoryPoolWithSubAllocations::new(77, 1023);
    assert_eq!(1024, pool.total_memory());
    assert_eq!(0, pool.used_memory());
    assert!(pool.is_unused());
    let first = pool.allocate(100).unwrap();
    assert_eq!(Allocation { memory: 77, offset: 0, size: 100 }, first);
    let second = pool.allocate(24).unwrap();
    assert_eq!(Allocation { memory: 77, offset: 100, size: 24 }, second);
    assert_eq!(124, pool.used_memory());
    assert!(!pool.is_unused());
    assert!(pool.can_fit_allocation(900));
    assert!(!pool.can_fit_allocation(901));
    assert_eq!(Err(VoxelarError::PoolCannotFit { size: 901 }), pool.allocate(901));
}

#[test]
fn deallocating_gives_the_memory_back() {
    let mut pool = MemoryPoolWithSubAllocations::new(5, 1023);
    let allocation = pool.allocate(100).unwrap();
    assert!(pool.has_allocation(allocation));
    assert!(pool.has_sub_allocation_at(0));
    pool.deallocate(allocation).unwrap();
    assert!(pool.is_unused());
    assert!(!pool.has_sub_allocation_at(0));
    assert_eq!(
        Err(VoxelarError::AllocationNotInPool { memory: 5, offset: 0, size: 100 }),
        pool.deallocate(allocation)
    );
    let foreign = Allocation { memory: 6, offset: 0, size: 100 };
    assert!(!pool.has_allocation(foreign));
    assert_eq!(
        Err(VoxelarError::AllocationNotInPool { memory: 6, offset: 0, size: 100 }),
        pool.deallocate(foreign)
    );
}

#[test]
fn a_request_of_zero_bytes_is_placed_but_not_remembered() {
    let mut pool = MemoryPoolWithSubAllocations::new(5, 1023);
    let allocation = pool.allocate(0).unwrap();
    assert_eq!(Allocation { memory: 5, offset: 0, size: 0 }, allocation);
    assert!(pool.is_unused());
    assert_eq!(
        Err(VoxelarError::AllocationNotInPool { memory: 5, offset: 0, size: 0 }),
        pool.deallocate(allocation)
    );
}

#[test]
fn an_allocator_without_bundles_reports_the_missing_memory_type() {
    let mut allocator = DedicatedPoolAllocator::new();
    assert_eq!(0, allocator.pool_bundle_count());
    assert!(allocator.can_allocate(3, 64));
    assert_eq!(
        Err(VoxelarError::NoPoolForMemoryType { memory_type_index: 3 }),
        allocator.allocate(3, 64)
    );
    assert!(allocator.allocate_in_new_pool(3, 64, 10).is_err());
}

#[test]
fn allocations_come_from_the_bundle_of_their_memory_type() {
    let mut allocator = DedicatedPoolAllocator::new();
    allocator.add_pool_bundle(0, 100);
    allocator.add_pool_bundle(1, 200);
    assert_eq!(2, allocator.pool_bundle_count());
    assert!(allocator.can_allocate(1, 4096));
    match allocator.allocate(1, 4096).unwrap() {
        AllocationStep::Allocated { allocation, freed_memory } => {
            assert_eq!(Allocation { memory: 200, offset: 0, size: 4096 }, allocation);
            assert!(freed_memory.is_empty());
        }
        other => panic!("unexpected step {other:?}"),
    }
    assert_eq!(vec![100, 200], allocator.destroy());
}

#[test]
fn a_request_that_no_pool_fits_asks_for_a_new_pool() {
    let mut allocator = DedicatedPoolAllocator::new();
    allocator.add_pool_bundle(0, 100);
    let size = 5_000_000;
    assert_eq!(
        AllocationStep::NeedsNewPool { allocation_size: 8_388_608 },
        allocator.allocate(0, size).unwrap()
    );
    let (allocation, freed) = allocator.allocate_in_new_pool(0, size, 300).unwrap();
    assert_eq!(Allocation { memory: 300, offset: 0, size }, allocation);
    // The pool that was set up first is not in use, so it goes.
    assert_eq!(vec![100], freed);
    assert_eq!(vec![300], allocator.destroy());
}

#[test]
fn deallocation_frees_the_pool_of_the_allocation() {
    let mut allocator = DedicatedPoolAllocator::new();
    allocator.add_pool_bundle(0, 100);
    let first = match allocator.allocate(0, 64).unwrap() {
        AllocationStep::Allocated { allocation, .. } => allocation,
        other => panic!("unexpected step {other:?}"),
    };
    let second = match allocator.allocate(0, 64).unwrap() {
        AllocationStep::Allocated { allocation, .. } => allocation,
        other => panic!("unexpected step {other:?}"),
    };
    assert_eq!(64, second.offset);
    assert!(allocator.can_deallocate(first));
    allocator.deallocate(first);
    allocator.deallocate(second);
    // The freed ranges are merged in list order: the range behind the second allocation joins
    // the rest of the pool, which comes first in the list, so the next allocation starts there.
    let third = match allocator.allocate(0, 64).unwrap() {
        AllocationStep::Allocated { allocation, .. } => allocation,
        other => panic!("unexpected step {other:?}"),
    };
    assert_eq!(Allocation { memory: 100, offset: 64, size: 64 }, third);
    // An allocation of unknown memory is ignored.
    allocator.deallocate(Allocation { memory: 999, offset: 0, size: 8 });
    assert_eq!(vec![100], allocator.destroy());
}

#[test]
fn a_pool_keeps_its_free_ranges() {
    let mut pool = MemoryPoolWithSubAllocations::new(1, 99);
    pool.allocate(10).unwrap();
    assert!(pool.can_allocate(50));
    assert_eq!(1, pool.memory());
    assert!(pool.can_fit_allocation(90));
    assert!(!pool.can_fit_allocation(91));
}

#[test]
fn allocating_from_a_later_range_and_deallocating_restores_the_pool() {
    let mut pool = MemoryPoolWithSubAllocations::new(1, 1023);
    let first = pool.allocate(100).unwrap();
    pool.allocate(10).unwrap();
    pool.deallocate(first).unwrap();
    pool.allocate(900).unwrap();
    // The free ranges are now [1010, 1023] and [0, 99].
    assert_eq!(910, pool.used_memory());
    let later = pool.allocate(50).unwrap();
    assert_eq!(Allocation { memory: 1, offset: 0, size: 50 }, later);
    assert_eq!(960, pool.used_memory());
    pool.deallocate(later).unwrap();
    assert_eq!(910, pool.used_memory());
    assert!(pool.can_fit_allocation(100));
    assert!(!pool.can_fit_allocation(101));
    assert!(!pool.has_sub_allocation_at(0));
    assert_eq!(Allocation { memory: 1, offset: 1010, size: 14 }, pool.allocate(14).unwrap());
}
