use voxelar::vulkan::memory_range::{FreeMemoryRange, FreeMemoryRanges};
use voxelar::VoxelarError;

fn assert_ranges(range: &FreeMemoryRanges, start: u64, end: u64, expected: Vec<FreeMemoryRange>) {
    assert_eq!(start, range.region_start());
    assert_eq!(end, range.region_end());
    assert_eq!(expected, range.ranges());
}

#[test]
fn merging_neighboring_ranges_results_in_correct_result() {
    let first = FreeMemoryRange::new(0, 25);
    let second = FreeMemoryRange::new(14, 56);
    let expected = FreeMemoryRange::new(0, 56);
    assert_eq!(Some(expected), first.maybe_merge_with(second));
    assert_eq!(Some(expected), second.maybe_merge_with(first));
}

#[test]
fn merging_non_neighboring_ranges_results_in_none_value() {
    let first = FreeMemoryRange::new(0, 56);
    let second = FreeMemoryRange::new(146, 891);
    assert_eq!(None, first.maybe_merge_with(second));
    assert_eq!(None, second.maybe_merge_with(first));
}

#[test]
fn unfreeing_entire_range_results_in_empty_range() {
    let mut range = FreeMemoryRanges::fully_free(0, 64).unwrap();
    range.unfree_range(0, 64).unwrap();
    let expected = FreeMemoryRanges::fully_occupied(0, 64).unwrap();
    assert_eq!(expected, range);
}

#[test]
fn unfreeing_range_from_start_results_in_correct_ranges() {
    let mut range = FreeMemoryRanges::fully_free(5, 102).unwrap();
    range.unfree_range(5, 64).unwrap();
    assert_ranges(&range, 5, 102, vec![FreeMemoryRange::new(65, 102)]);
}

#[test]
fn unfreeing_range_from_start_multiple_times_results_in_correct_ranges() {
    let mut range = FreeMemoryRanges::fully_free(5, 102).unwrap();
    range.unfree_range(5, 64).unwrap();
    range.unfree_range(5, 100).unwrap();
    assert_ranges(&range, 5, 102, vec![FreeMemoryRange::new(101, 102)]);
}

#[test]
fn unfreeing_range_to_end_results_in_correct_ranges() {
    let mut range = FreeMemoryRanges::fully_free(12, 96).unwrap();
    range.unfree_range(66, 96).unwrap();
    assert_ranges(&range, 12, 96, vec![FreeMemoryRange::new(12, 65)]);
}

#[test]
fn unfreeing_inbetween_range_results_in_correct_ranges() {
    let mut range = FreeMemoryRanges::fully_free(6, 400).unwrap();
    range.unfree_range(55, 100).unwrap();
    assert_ranges(
        &range,
        6,
        400,
        vec![FreeMemoryRange::new(6, 54), FreeMemoryRange::new(101, 400)],
    );
}

#[test]
fn unfreeing_range_to_end_and_then_inbetween_results_in_correct_ranges() {
    let mut range = FreeMemoryRanges::fully_free(40, 1300).unwrap();
    range.unfree_range(1200, 1300).unwrap();
    range.unfree_range(100, 400).unwrap();
    assert_ranges(
        &range,
        40,
        1300,
        vec![FreeMemoryRange::new(40, 99), FreeMemoryRange::new(401, 1199)],
    );
}

#[test]
fn unfreeing_random_inbetween_ranges_results_in_correct_ranges() {
    let mut range = FreeMemoryRanges::fully_free(10, 1000).unwrap();
    range.unfree_range(700, 700).unwrap();
    range.unfree_range(15, 100).unwrap();
    range.unfree_range(75, 200).unwrap();
    range.unfree_range(750, 800).unwrap();
    range.unfree_range(500, 600).unwrap();
    assert_ranges(
        &range,
        10,
        1000,
        vec![
            FreeMemoryRange::new(10, 14),
            FreeMemoryRange::new(201, 499),
            FreeMemoryRange::new(601, 699),
            FreeMemoryRange::new(701, 749),
            FreeMemoryRange::new(801, 1000),
        ],
    );
}

#[test]
fn freeing_entire_range_results_in_correct_ranges() {
    let mut range = FreeMemoryRanges::fully_occupied(6, 109).unwrap();
    range.free_range(6, 109).unwrap();
    let expected = FreeMemoryRanges::fully_free(6, 109).unwrap();
    assert_eq!(expected, range);
}

#[test]
fn freeing_range_from_start_results_in_correct_ranges() {
    let mut range = FreeMemoryRanges::fully_occupied(7, 96).unwrap();
    range.free_range(7, 55).unwrap();
    assert_ranges(&range, 7, 96, vec![FreeMemoryRange::new(7, 55)]);
}

#[test]
fn freeing_range_from_end_results_in_correct_ranges() {
    let mut range = FreeMemoryRanges::fully_occupied(46, 204).unwrap();
    range.free_range(150, 204).unwrap();
    assert_ranges(&range, 46, 204, vec![FreeMemoryRange::new(150, 204)]);
}

#[test]
fn freeing_range_from_end_multiple_times_results_in_correct_ranges() {
    let mut range = FreeMemoryRanges::fully_occupied(601, 1000).unwrap();
    range.free_range(705, 1000).unwrap();
    range.free_range(622, 1000).unwrap();
    assert_ranges(&range, 601, 1000, vec![FreeMemoryRange::new(622, 1000)]);
}

#[test]
fn freeing_random_inbetween_ranges_results_in_correct_ranges() {
    let mut range = FreeMemoryRanges::fully_occupied(41, 2000).unwrap();
    range.free_range(300, 300).unwrap();
    range.free_range(45, 100).unwrap();
    range.free_range(85, 110).unwrap();
    range.free_range(711, 800).unwrap();
    range.free_range(520, 600).unwrap();
    assert_ranges(
        &range,
        41,
        2000,
        vec![
            FreeMemoryRange::new(300, 300),
            FreeMemoryRange::new(45, 110),
            FreeMemoryRange::new(711, 800),
            FreeMemoryRange::new(520, 600),
        ],
    );
}

#[test]
fn freeing_neighboring_ranges_results_in_correct_ranges() {
    let mut range = FreeMemoryRanges::fully_occupied(0, 1000).unwrap();
    range.free_range(0, 100).unwrap();
    range.free_range(101, 200).unwrap();
    assert_ranges(&range, 0, 1000, vec![FreeMemoryRange::new(0, 200)]);
}

// ----- Further cases -----

#[test]
fn creating_a_region_whose_start_lies_after_its_end_fails() {
    assert_eq!(
        Err(VoxelarError::StartAfterEnd { start: 9, end: 3 }),
        FreeMemoryRanges::fully_free(9, 3)
    );
    assert_eq!(
        Err(VoxelarError::StartAfterEnd { start: 9, end: 3 }),
        FreeMemoryRanges::fully_occupied(9, 3)
    );
}

#[test]
fn unfreeing_with_invalid_arguments_reports_each_error_and_changes_nothing() {
    let mut range = FreeMemoryRanges::fully_free(10, 100).unwrap();
    assert_eq!(
        Err(VoxelarError::StartAfterEnd { start: 50, end: 40 }),
        range.unfree_range(50, 40)
    );
    assert_eq!(
        Err(VoxelarError::StartOutsideRange { start: 5 }),
        range.unfree_range(5, 40)
    );
    assert_eq!(
        Err(VoxelarError::EndOutsideRange { end: 101 }),
        range.unfree_range(20, 101)
    );
    assert_eq!(FreeMemoryRanges::fully_free(10, 100).unwrap(), range);
}

#[test]
fn freeing_with_invalid_arguments_reports_each_error_and_changes_nothing() {
    let mut range = FreeMemoryRanges::fully_occupied(10, 100).unwrap();
    assert_eq!(
        Err(VoxelarError::StartAfterEnd { start: 50, end: 40 }),
        range.free_range(50, 40)
    );
    assert_eq!(
        Err(VoxelarError::StartOutsideRange { start: 9 }),
        range.free_range(9, 40)
    );
    assert_eq!(
        Err(VoxelarError::EndOutsideRange { end: 200 }),
        range.free_range(20, 200)
    );
    assert_eq!(FreeMemoryRanges::fully_occupied(10, 100).unwrap(), range);
}

#[test]
fn unfreeing_then_freeing_a_prefix_restores_the_free_range() {
    let mut range = FreeMemoryRanges::fully_free(0, 1000).unwrap();
    range.unfree_range(0, 99).unwrap();
    assert_ranges(&range, 0, 1000, vec![FreeMemoryRange::new(100, 1000)]);
    range.free_range(0, 99).unwrap();
    assert_ranges(&range, 0, 1000, vec![FreeMemoryRange::new(0, 1000)]);
}

#[test]
fn unfreeing_then_freeing_a_prefix_of_a_later_range_restores_the_list() {
    let mut range = FreeMemoryRanges::fully_free(0, 1000).unwrap();
    range.unfree_range(0, 99).unwrap();
    range.unfree_range(500, 599).unwrap();
    let before = vec![FreeMemoryRange::new(100, 499), FreeMemoryRange::new(600, 1000)];
    assert_ranges(&range, 0, 1000, before.clone());
    range.unfree_range(600, 699).unwrap();
    assert_ranges(
        &range,
        0,
        1000,
        vec![FreeMemoryRange::new(100, 499), FreeMemoryRange::new(700, 1000)],
    );
    range.free_range(600, 699).unwrap();
    assert_ranges(&range, 0, 1000, before);
}

#[test]
fn unfreeing_then_freeing_a_whole_range_moves_it_to_the_end() {
    let mut range = FreeMemoryRanges::fully_free(0, 1000).unwrap();
    range.unfree_range(0, 99).unwrap();
    range.unfree_range(500, 599).unwrap();
    range.unfree_range(100, 499).unwrap();
    assert_ranges(&range, 0, 1000, vec![FreeMemoryRange::new(600, 1000)]);
    range.free_range(100, 499).unwrap();
    assert_ranges(
        &range,
        0,
        1000,
        vec![FreeMemoryRange::new(600, 1000), FreeMemoryRange::new(100, 499)],
    );
}

#[test]
fn split_ranges_reports_the_range_that_held_the_split() {
    let mut range = FreeMemoryRanges::fully_free(0, 100).unwrap();
    assert_eq!(Some(0), range.split_ranges(40));
    assert_eq!(
        vec![FreeMemoryRange::new(0, 39), FreeMemoryRange::new(41, 100)],
        range.ranges()
    );
    assert_eq!(None, range.split_ranges(40));
    assert_eq!(Some(1), range.split_ranges(41));
    assert_eq!(
        vec![FreeMemoryRange::new(0, 39), FreeMemoryRange::new(41, 100)],
        range.ranges()
    );
}

#[test]
fn the_first_range_wide_enough_is_found() {
    let mut range = FreeMemoryRanges::fully_free(0, 100).unwrap();
    range.unfree_range(10, 19).unwrap();
    assert_eq!(Some(FreeMemoryRange::new(0, 9)), range.find_range_that_can_fit_width(10));
    assert_eq!(Some(FreeMemoryRange::new(20, 100)), range.find_range_that_can_fit_width(11));
    assert_eq!(None, range.find_range_that_can_fit_width(82));
}

#[test]
fn range_widths_neighbours_and_lengths() {
    let r = FreeMemoryRange::new(10, 19);
    assert_eq!(10, r.width());
    assert!(r.contains(10) && r.contains(19) && !r.contains(20));
    assert!(r.contains_or_is_neighbor(9) && r.contains_or_is_neighbor(20));
    assert!(!r.contains_or_is_neighbor(8) && !r.contains_or_is_neighbor(21));
    assert!(FreeMemoryRange::new(0, 4).contains_or_is_neighbor(0));
    let mut range = FreeMemoryRanges::fully_free(0, 99).unwrap();
    assert_eq!(100, range.len());
    assert_eq!(0, range.unfree_len());
    range.unfree_range(0, 29).unwrap();
    assert_eq!(30, range.unfree_len());
    assert!(range.can_unfree(30, 40));
    assert!(!range.can_unfree(10, 20));
    assert!(range.can_search_width(5));
}

#[test]
fn splitting_touches_only_the_range_that_holds_the_split() {
    let mut range = FreeMemoryRanges::fully_free(0, 1000).unwrap();
    range.unfree_range(200, 299).unwrap();
    range.unfree_range(600, 699).unwrap();
    let before = vec![
        FreeMemoryRange::new(0, 199),
        FreeMemoryRange::new(300, 599),
        FreeMemoryRange::new(700, 1000),
    ];
    assert_ranges(&range, 0, 1000, before.clone());
    assert_eq!(None, range.split_ranges(250));
    assert_ranges(&range, 0, 1000, before);
    assert_eq!(Some(1), range.split_ranges(400));
    assert_ranges(
        &range,
        0,
        1000,
        vec![
            FreeMemoryRange::new(0, 199),
            FreeMemoryRange::new(300, 399),
            FreeMemoryRange::new(401, 599),
            FreeMemoryRange::new(700, 1000),
        ],
    );
}
