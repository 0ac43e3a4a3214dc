//! Bookkeeping of the free parts of a linear memory region.
//!
//! A `FreeMemoryRange` is an inclusive range of offsets `[start, end]`. A `FreeMemoryRanges`
//! manages the offsets `[start, end]` of one memory region and keeps the list of its ranges
//! that are currently free.
use vstd::prelude::*;

use crate::result::{Result, VoxelarError};

verus! {

/// An inclusive range of memory offsets that is free for use.
#[derive(Debug, PartialEq, Eq, Clone, Copy)]
pub struct FreeMemoryRange {
    start: u64,
    end: u64,
}

/// The range with first offset `start` and last offset `end`.
pub closed spec fn range_of(start: u64, end: u64) -> FreeMemoryRange {
    FreeMemoryRange { start, end }
}

impl FreeMemoryRange {
    /// The first offset of the range.
    pub closed spec fn lo(self) -> u64 {
        self.start
    }

    /// The last offset of the range.
    pub closed spec fn hi(self) -> u64 {
        self.end
    }

    /// `v` lies in the range.
    pub open spec fn covers(self, v: int) -> bool {
        self.lo() <= v <= self.hi()
    }

    /// The offset below the range, or 0 where the range starts at 0.
    pub open spec fn reach_lo(self) -> int {
        if self.lo() == 0 {
            0
        } else {
            self.lo() - 1
        }
    }

    /// `v` lies in the range or right next to it.
    pub open spec fn touches(self, v: int) -> bool {
        self.reach_lo() <= v <= self.hi() + 1
    }

    /// The number of offsets in the range.
    pub open spec fn span(self) -> int {
        self.hi() - self.lo() + 1
    }

    /// `span` fits in a `u64`.
    pub open spec fn span_fits(self) -> bool {
        self.lo() <= self.hi() && self.hi() - self.lo() < u64::MAX
    }

    /// `touches(v)` can be evaluated in `u64` arithmetic.
    pub open spec fn touch_check_fits(self, v: u64) -> bool {
        v >= self.reach_lo() ==> self.hi() < u64::MAX
    }

    /// What merging `self` with `other` gives: the range from the start of the range that the
    /// other one's start touches to the end of the other one, if there is such a range.
    pub open spec fn merged(self, other: FreeMemoryRange) -> Option<FreeMemoryRange> {
        if self.touches(other.lo() as int) {
            Some(range_of(self.lo(), other.hi()))
        } else if other.touches(self.lo() as int) {
            Some(range_of(other.lo(), self.hi()))
        } else {
            None
        }
    }

    /// `merged(other)` can be evaluated in `u64` arithmetic.
    pub open spec fn merge_check_fits(self, other: FreeMemoryRange) -> bool {
        &&& self.touch_check_fits(other.lo())
        &&& !self.touches(other.lo() as int) ==> other.touch_check_fits(self.lo())
    }

    /// Creates the range `[start, end]`.
    pub fn new(start: u64, end: u64) -> (r: Self)
        ensures
            r == range_of(start, end),
            r.lo() == start,
            r.hi() == end,
    {
        Self { start, end }
    }

    /// Returns whether `value` lies in the range.
    pub fn contains(&self, value: u64) -> (b: bool)
        ensures
            b == self.covers(value as int),
    {
        value >= self.start && value <= self.end
    }

    /// Returns whether `value` lies in the range or right next to it.
    pub fn contains_or_is_neighbor(&self, value: u64) -> (b: bool)
        requires
            self.touch_check_fits(value),
        ensures
            b == self.touches(value as int),
    {
        let start = if self.start == 0 {
            self.start
        } else {
            self.start - 1
        };
        value >= start && value <= self.end + 1
    }

    /// Returns the number of offsets in the range.
    pub fn width(&self) -> (w: u64)
        requires
            self.span_fits(),
        ensures
            w == self.span(),
    {
        self.end - self.start + 1
    }

    /// Returns the first offset of the range.
    pub fn start(&self) -> (s: u64)
        ensures
            s == self.lo(),
    {
        self.start
    }

    /// Returns the last offset of the range.
    pub fn end(&self) -> (e: u64)
        ensures
            e == self.hi(),
    {
        self.end
    }

    /// Merges `self` with `other` where the start of one touches the other.
    pub fn maybe_merge_with(&self, other: Self) -> (m: Option<Self>)
        requires
            self.merge_check_fits(other),
        ensures
            m == self.merged(other),
    {
        if self.contains_or_is_neighbor(other.start) {
            Some(Self::new(self.start, other.end))
        } else if other.contains_or_is_neighbor(self.start) {
            Some(Self::new(other.start, self.end))
        } else {
            None
        }
    }
}

/// Two ranges with the same first and last offsets are equal.
pub broadcast proof fn lemma_range_ext(a: FreeMemoryRange, b: FreeMemoryRange)
    requires
        a.lo() == b.lo(),
        a.hi() == b.hi(),
    ensures
        #[trigger] a.lo() == #[trigger] b.lo() && a == b,
{
}

/// The first and last offsets of `range_of(start, end)`.
pub broadcast proof fn lemma_range_of(start: u64, end: u64)
    ensures
        #[trigger] range_of(start, end).lo() == start,
        range_of(start, end).hi() == end,
{
}

// ---------------------------------------------------------------------------------------------
// The model of splitting, merging and searching a list of free ranges.
// ---------------------------------------------------------------------------------------------

/// What splitting one range at `split` leaves of it. A range that does not hold `split` stays
/// as it is. Otherwise the part before `split` stays, if there is one, and so does the part
/// after `split`, which starts at `split` itself where nothing lies before it, and which is
/// kept only where its start lies before the range's last offset.
pub open spec fn split_piece(r: FreeMemoryRange, split: u64) -> Seq<FreeMemoryRange> {
    if r.covers(split as int) {
        let has_left = r.lo() != split;
        let left: Seq<FreeMemoryRange> = if has_left {
            seq![range_of(r.lo(), (split - 1) as u64)]
        } else {
            Seq::empty()
        };
        let right_start: int = if has_left {
            split + 1
        } else {
            split as int
        };
        let right: Seq<FreeMemoryRange> = if right_start < r.hi() {
            seq![range_of(right_start as u64, r.hi())]
        } else {
            Seq::empty()
        };
        left + right
    } else {
        seq![r]
    }
}

/// `split_piece` at `split`, as a function of the range.
pub open spec fn splitter(split: u64) -> spec_fn(FreeMemoryRange) -> Seq<FreeMemoryRange> {
    |r: FreeMemoryRange| split_piece(r, split)
}

/// Splitting every range of `rs` at `split`, in order.
pub open spec fn split_all(rs: Seq<FreeMemoryRange>, split: u64) -> Seq<FreeMemoryRange> {
    rs.flat_map(splitter(split))
}

/// The index of the last range of `rs` that holds `v`.
pub open spec fn last_covering(rs: Seq<FreeMemoryRange>, v: u64) -> Option<int>
    decreases rs.len(),
{
    if rs.len() == 0 {
        None
    } else if rs.last().covers(v as int) {
        Some(rs.len() - 1)
    } else {
        last_covering(rs.drop_last(), v)
    }
}

/// Splitting `rs` at `split` would need an offset past `u64::MAX`.
pub open spec fn split_overflows(rs: Seq<FreeMemoryRange>, split: u64) -> bool {
    split == u64::MAX && exists|i: int|
        0 <= i < rs.len() && #[trigger] rs[i].covers(split as int) && rs[i].lo() != split
}

/// The index of the first range of `acc`, from `k` on, that merges with `r`, or `acc.len()`.
pub open spec fn first_merge_from(acc: Seq<FreeMemoryRange>, r: FreeMemoryRange, k: int) -> int
    decreases acc.len() - k,
{
    if k >= acc.len() {
        acc.len() as int
    } else if acc[k].merged(r) is Some {
        k
    } else {
        first_merge_from(acc, r, k + 1)
    }
}

/// Adding `r` to the merged list `acc`: the first range of `acc` that merges with `r` is
/// replaced by the merge, or `r` is appended where none does.
pub open spec fn merge_into(acc: Seq<FreeMemoryRange>, r: FreeMemoryRange) -> Seq<
    FreeMemoryRange,
> {
    let j = first_merge_from(acc, r, 0);
    if j < acc.len() {
        acc.update(j, acc[j].merged(r).unwrap())
    } else {
        acc.push(r)
    }
}

/// Merging the ranges of `rs` one after the other, starting from an empty list.
pub open spec fn merge_all(rs: Seq<FreeMemoryRange>) -> Seq<FreeMemoryRange>
    decreases rs.len(),
{
    if rs.len() == 0 {
        Seq::empty()
    } else {
        merge_into(merge_all(rs.drop_last()), rs.last())
    }
}

/// No range of `rs` ends at `u64::MAX`.
pub open spec fn ends_below_max(rs: Seq<FreeMemoryRange>) -> bool {
    forall|i: int| 0 <= i < rs.len() ==> #[trigger] rs[i].hi() < u64::MAX
}

/// Adding `r` to the merged list `acc` can be computed in `u64` arithmetic: every merge that the
/// search for the first range that merges with `r` tries can be.
pub open spec fn merge_into_defined(acc: Seq<FreeMemoryRange>, r: FreeMemoryRange) -> bool {
    forall|j: int|
        0 <= j < acc.len() && j <= first_merge_from(acc, r, 0) ==> (#[trigger] acc[j]).merge_check_fits(
            r,
        )
}

/// `merge_all(rs)` can be computed in `u64` arithmetic.
pub open spec fn merge_all_defined(rs: Seq<FreeMemoryRange>) -> bool
    decreases rs.len(),
{
    rs.len() == 0 || (merge_all_defined(rs.drop_last()) && merge_into_defined(
        merge_all(rs.drop_last()),
        rs.last(),
    ))
}

/// The index of the first range of `rs`, from `k` on, that is at least `width` wide, or
/// `rs.len()`.
pub open spec fn first_fit_from(rs: Seq<FreeMemoryRange>, width: u64, k: int) -> int
    decreases rs.len() - k,
{
    if k >= rs.len() || k < 0 {
        rs.len() as int
    } else if rs[k].span() >= width {
        k
    } else {
        first_fit_from(rs, width, k + 1)
    }
}

/// Every range that the search for `width` looks at, from `k` on, has a width that fits in a
/// `u64`.
pub open spec fn fit_scan_fits(rs: Seq<FreeMemoryRange>, width: u64, k: int) -> bool
    decreases rs.len() - k,
{
    if k >= rs.len() || k < 0 {
        true
    } else {
        rs[k].span_fits() && (rs[k].span() >= width || fit_scan_fits(rs, width, k + 1))
    }
}

/// The range of `rs` that the search for `width` finds.
pub open spec fn first_fit(rs: Seq<FreeMemoryRange>, width: u64) -> Option<FreeMemoryRange> {
    let k = first_fit_from(rs, width, 0);
    if k < rs.len() {
        Some(rs[k])
    } else {
        None
    }
}

/// The list of free ranges that `unfree_range(start, end)` leaves, for arguments that pass its
/// checks and do not cover the whole managed region.
pub open spec fn unfree_result(rs: Seq<FreeMemoryRange>, start: u64, end: u64) -> Seq<
    FreeMemoryRange,
> {
    if start == end {
        split_all(rs, start)
    } else {
        let first = split_all(rs, start);
        split_all(first, end).remove(last_covering(first, end).unwrap())
    }
}

/// `unfree_result(rs, start, end)` can be computed without overflow and without a missing
/// range.
pub open spec fn unfree_defined(rs: Seq<FreeMemoryRange>, start: u64, end: u64) -> bool {
    if start == end {
        &&& !split_overflows(rs, start)
        &&& last_covering(rs, start) is Some
    } else {
        let first = split_all(rs, start);
        &&& !split_overflows(rs, start)
        &&& !split_overflows(first, end)
        &&& last_covering(first, end) is Some
        &&& last_covering(first, end).unwrap() < split_all(first, end).len()
    }
}

/// The list of free ranges that `free_range(start, end)` leaves, for arguments that pass its
/// checks and do not cover the whole managed region.
pub open spec fn free_result(rs: Seq<FreeMemoryRange>, start: u64, end: u64) -> Seq<
    FreeMemoryRange,
> {
    merge_all(rs.push(range_of(start, end)))
}

/// The list of free ranges that `unfree_range(start, end)` leaves in the region
/// `[lower, upper]`, for arguments that pass its checks: none where the whole region is marked
/// as used, else `unfree_result`.
pub open spec fn unfree_outcome(
    rs: Seq<FreeMemoryRange>,
    lower: u64,
    upper: u64,
    start: u64,
    end: u64,
) -> Seq<FreeMemoryRange> {
    if start == lower && end == upper {
        Seq::empty()
    } else {
        unfree_result(rs, start, end)
    }
}

/// The list of free ranges that `free_range(start, end)` leaves in the region `[lower, upper]`,
/// for arguments that pass its checks: the whole region where it is marked as free, else
/// `free_result`.
pub open spec fn free_outcome(
    rs: Seq<FreeMemoryRange>,
    lower: u64,
    upper: u64,
    start: u64,
    end: u64,
) -> Seq<FreeMemoryRange> {
    if start == lower && end == upper {
        seq![range_of(start, end)]
    } else {
        free_result(rs, start, end)
    }
}

/// The checks that `unfree_range` and `free_range` make, in their order.
pub open spec fn range_check(lower: u64, upper: u64, start: u64, end: u64) -> Option<
    VoxelarError,
> {
    if start > end {
        Some(VoxelarError::StartAfterEnd { start, end })
    } else if start < lower {
        Some(VoxelarError::StartOutsideRange { start })
    } else if end > upper {
        Some(VoxelarError::EndOutsideRange { end })
    } else {
        None
    }
}

// ---------------------------------------------------------------------------------------------
// Proofs about the model.
// ---------------------------------------------------------------------------------------------

/// Every range of `rs` lies within `[lower, upper]`.
pub open spec fn all_within(rs: Seq<FreeMemoryRange>, lower: u64, upper: u64) -> bool {
    forall|i: int|
        0 <= i < rs.len() ==> lower <= (#[trigger] rs[i]).lo() <= upper && lower <= rs[i].hi()
            <= upper
}

proof fn lemma_split_piece_within(r: FreeMemoryRange, split: u64, lower: u64, upper: u64)
    requires
        lower <= r.lo() <= upper,
        lower <= r.hi() <= upper,
    ensures
        all_within(split_piece(r, split), lower, upper),
{
    broadcast use lemma_range_of;

}

proof fn lemma_split_all_within(rs: Seq<FreeMemoryRange>, split: u64, lower: u64, upper: u64)
    requires
        all_within(rs, lower, upper),
    ensures
        all_within(split_all(rs, split), lower, upper),
    decreases rs.len(),
{
    if rs.len() > 0 {
        let init = rs.drop_last();
        lemma_split_all_within(init, split, lower, upper);
        lemma_split_piece_within(rs.last(), split, lower, upper);
        init.lemma_flat_map_push(splitter(split), rs.last());
        assert(init.push(rs.last()) =~= rs);
        let a = split_all(init, split);
        let b = split_piece(rs.last(), split);
        assert(split_all(rs, split) =~= a + b);
        assert forall|i: int| 0 <= i < (a + b).len() implies lower <= #[trigger] (a + b)[i].lo()
            <= upper && lower <= (a + b)[i].hi() <= upper by {
            if i < a.len() {
                assert((a + b)[i] == a[i]);
            } else {
                assert((a + b)[i] == b[i - a.len()]);
            }
        }
    }
}

proof fn lemma_merge_into_within(acc: Seq<FreeMemoryRange>, r: FreeMemoryRange, lower: u64, upper: u64)
    requires
        all_within(acc, lower, upper),
        lower <= r.lo() <= upper,
        lower <= r.hi() <= upper,
    ensures
        all_within(merge_into(acc, r), lower, upper),
{
    broadcast use lemma_range_of;

    let j = first_merge_from(acc, r, 0);
    lemma_first_merge_from_bounds(acc, r, 0);
    if j < acc.len() {
        let m = acc[j].merged(r).unwrap();
        assert(lower <= m.lo() <= upper && lower <= m.hi() <= upper);
        assert forall|i: int| 0 <= i < acc.len() implies lower <= #[trigger] acc.update(
            j,
            m,
        )[i].lo() <= upper && lower <= acc.update(j, m)[i].hi() <= upper by {
            if i != j {
                assert(acc.update(j, m)[i] == acc[i]);
            }
        }
    } else {
        assert forall|i: int| 0 <= i < acc.len() + 1 implies lower <= #[trigger] acc.push(r)[i].lo()
            <= upper && lower <= acc.push(r)[i].hi() <= upper by {
            if i < acc.len() {
                assert(acc.push(r)[i] == acc[i]);
            }
        }
    }
}

proof fn lemma_merge_all_within(rs: Seq<FreeMemoryRange>, lower: u64, upper: u64)
    requires
        all_within(rs, lower, upper),
    ensures
        all_within(merge_all(rs), lower, upper),
    decreases rs.len(),
{
    if rs.len() > 0 {
        let init = rs.drop_last();
        assert(all_within(init, lower, upper)) by {
            assert forall|i: int| 0 <= i < init.len() implies lower <= #[trigger] init[i].lo()
                <= upper && lower <= init[i].hi() <= upper by {
                assert(init[i] == rs[i]);
            }
        }
        lemma_merge_all_within(init, lower, upper);
        lemma_merge_into_within(merge_all(init), rs.last(), lower, upper);
    }
}

proof fn lemma_first_merge_from_bounds(acc: Seq<FreeMemoryRange>, r: FreeMemoryRange, k: int)
    requires
        0 <= k,
    ensures
        k <= first_merge_from(acc, r, k) || first_merge_from(acc, r, k) == acc.len(),
        first_merge_from(acc, r, k) <= acc.len() || k > acc.len(),
        first_merge_from(acc, r, k) < acc.len() ==> acc[first_merge_from(acc, r, k)].merged(r) is Some,
    decreases acc.len() - k,
{
    if k < acc.len() && !(acc[k].merged(r) is Some) {
        lemma_first_merge_from_bounds(acc, r, k + 1);
    }
}

proof fn lemma_merge_into_ends_below_max(acc: Seq<FreeMemoryRange>, r: FreeMemoryRange)
    requires
        ends_below_max(acc),
        r.hi() < u64::MAX,
    ensures
        ends_below_max(merge_into(acc, r)),
{
    broadcast use lemma_range_of;

    let j = first_merge_from(acc, r, 0);
    lemma_first_merge_from_bounds(acc, r, 0);
    if j < acc.len() {
        let m = acc[j].merged(r).unwrap();
        assert forall|i: int| 0 <= i < acc.len() implies #[trigger] acc.update(j, m)[i].hi()
            < u64::MAX by {
            if i != j {
                assert(acc.update(j, m)[i] == acc[i]);
            }
        }
    } else {
        assert forall|i: int| 0 <= i < acc.len() + 1 implies #[trigger] acc.push(r)[i].hi()
            < u64::MAX by {
            if i < acc.len() {
                assert(acc.push(r)[i] == acc[i]);
            }
        }
    }
}

proof fn lemma_merge_all_ends_below_max(rs: Seq<FreeMemoryRange>)
    requires
        ends_below_max(rs),
    ensures
        ends_below_max(merge_all(rs)),
    decreases rs.len(),
{
    if rs.len() > 0 {
        let init = rs.drop_last();
        assert(ends_below_max(init)) by {
            assert forall|i: int| 0 <= i < init.len() implies #[trigger] init[i].hi()
                < u64::MAX by {
                assert(init[i] == rs[i]);
            }
        }
        lemma_merge_all_ends_below_max(init);
        lemma_merge_into_ends_below_max(merge_all(init), rs.last());
    }
}

proof fn lemma_merge_all_defined_take(rs: Seq<FreeMemoryRange>, k: int)
    requires
        merge_all_defined(rs),
        0 <= k <= rs.len(),
    ensures
        merge_all_defined(rs.take(k)),
    decreases rs.len() - k,
{
    if k < rs.len() {
        assert(rs.drop_last().take(k) =~= rs.take(k));
        lemma_merge_all_defined_take(rs.drop_last(), k);
    } else {
        assert(rs.take(k) =~= rs);
    }
}

/// A list whose ranges all end below `u64::MAX` can be merged in `u64` arithmetic.
pub proof fn lemma_merge_all_defined_below_max(rs: Seq<FreeMemoryRange>)
    requires
        ends_below_max(rs),
    ensures
        merge_all_defined(rs),
    decreases rs.len(),
{
    if rs.len() > 0 {
        let init = rs.drop_last();
        assert(ends_below_max(init)) by {
            assert forall|i: int| 0 <= i < init.len() implies #[trigger] init[i].hi()
                < u64::MAX by {
                assert(init[i] == rs[i]);
            }
        }
        lemma_merge_all_defined_below_max(init);
        lemma_merge_all_ends_below_max(init);
        assert(rs.last() == rs[rs.len() - 1]);
    }
}

// ---------------------------------------------------------------------------------------------
// The managed region and its free list.
// ---------------------------------------------------------------------------------------------

/// The free parts of the memory offsets `[start, end]`.
#[derive(Debug, PartialEq, Eq)]
pub struct FreeMemoryRanges {
    start: u64,
    end: u64,
    ranges: Vec<FreeMemoryRange>,
}

impl FreeMemoryRanges {
    /// The first offset of the managed region.
    pub closed spec fn lower(self) -> u64 {
        self.start
    }

    /// The last offset of the managed region.
    pub closed spec fn upper(self) -> u64 {
        self.end
    }

    /// The free ranges, in the order in which they are kept.
    pub closed spec fn free_list(self) -> Seq<FreeMemoryRange> {
        self.ranges@
    }

    /// The region is not empty and every free range lies within it.
    pub open spec fn wf(self) -> bool {
        &&& self.lower() <= self.upper()
        &&& all_within(self.free_list(), self.lower(), self.upper())
    }

    /// Creates the bookkeeping for `[start, end]` with no free range, or fails where
    /// `start > end`.
    pub fn fully_occupied(start: u64, end: u64) -> (r: Result<Self>)
        ensures
            start > end ==> r == Err::<Self, VoxelarError>(
                VoxelarError::StartAfterEnd { start, end },
            ),
            start <= end ==> (r matches Ok(f) && f.wf() && f.lower() == start && f.upper() == end
                && f.free_list() == Seq::<FreeMemoryRange>::empty()),
    {
        if !(start <= end) {
            return Err(VoxelarError::StartAfterEnd { start, end });
        }
        Ok(Self { start, end, ranges: Vec::new() })
    }

    /// Creates the bookkeeping for `[start, end]` with the whole region free, or fails where
    /// `start > end`.
    pub fn fully_free(start: u64, end: u64) -> (r: Result<Self>)
        ensures
            start > end ==> r == Err::<Self, VoxelarError>(
                VoxelarError::StartAfterEnd { start, end },
            ),
            start <= end ==> (r matches Ok(f) && f.wf() && f.lower() == start && f.upper() == end
                && f.free_list() == seq![range_of(start, end)]),
    {
        if !(start <= end) {
            return Err(VoxelarError::StartAfterEnd { start, end });
        }
        let mut ranges = Vec::new();
        ranges.push(FreeMemoryRange::new(start, end));
        Ok(Self { start, end, ranges })
    }

    /// Returns the first offset of the managed region.
    pub fn region_start(&self) -> (s: u64)
        ensures
            s == self.lower(),
    {
        self.start
    }

    /// Returns the last offset of the managed region.
    pub fn region_end(&self) -> (e: u64)
        ensures
            e == self.upper(),
    {
        self.end
    }

    /// Returns a copy of the free ranges, in the order in which they are kept.
    pub fn ranges(&self) -> (v: Vec<FreeMemoryRange>)
        ensures
            v@ == self.free_list(),
    {
        self.ranges.clone()
    }

    /// Splits every free range at `split` (see `split_piece`) and returns the index, in the
    /// list before the split, of the last range that held `split`.
    pub fn split_ranges(&mut self, split: u64) -> (idx: Option<usize>)
        requires
            !split_overflows(old(self).free_list(), split),
        ensures
            final(self).lower() == old(self).lower(),
            final(self).upper() == old(self).upper(),
            final(self).free_list() == split_all(old(self).free_list(), split),
            match idx {
                Some(i) => last_covering(old(self).free_list(), split) == Some(i as int),
                None => last_covering(old(self).free_list(), split) is None,
            },
            old(self).wf() ==> final(self).wf(),
    {
        let ghost old_list = self.ranges@;
        let ghost f = splitter(split);
        let mut new_ranges: Vec<FreeMemoryRange> = Vec::new();
        let mut split_index: Option<usize> = None;
        let mut index: usize = 0;
        assert(old_list.take(0) =~= Seq::<FreeMemoryRange>::empty());
        assert(Seq::<FreeMemoryRange>::empty().map_values(f) =~= Seq::<Seq<FreeMemoryRange>>::empty());
        while index < self.ranges.len()
            invariant
                self.ranges@ == old_list,
                f == splitter(split),
                !split_overflows(old_list, split),
                0 <= index <= old_list.len(),
                new_ranges@ == split_all(old_list.take(index as int), split),
                match split_index {
                    Some(i) => last_covering(old_list.take(index as int), split) == Some(
                        i as int,
                    ),
                    None => last_covering(old_list.take(index as int), split) is None,
                },
            decreases old_list.len() - index,
        {
            let range = self.ranges[index];
            let ghost before = new_ranges@;
            proof {
                old_list.take(index as int).lemma_flat_map_push(f, range);
                assert(old_list.take(index as int).push(range) =~= old_list.take(
                    index as int + 1,
                ));
                assert(old_list.take(index as int + 1).drop_last() =~= old_list.take(
                    index as int,
                ));
                assert(f(range) == split_piece(range, split));
                assert(split_all(old_list.take(index as int + 1), split) == split_all(
                    old_list.take(index as int),
                    split,
                ) + split_piece(range, split));
            }
            if range.contains(split) {
                let mut has_left_split = false;
                if range.start != split {
                    new_ranges.push(FreeMemoryRange::new(range.start, split - 1));
                    has_left_split = true;
                }
                if split == u64::MAX {
                    assert(range.lo() == split);
                }
                let start_offset: u64 = if has_left_split {
                    1
                } else {
                    0
                };
                if split + start_offset < range.end {
                    new_ranges.push(FreeMemoryRange::new(split + start_offset, range.end));
                }
                split_index = Some(index);
                proof {
                    assert(new_ranges@ =~= before + split_piece(range, split));
                }
            } else {
                new_ranges.push(range);
                proof {
                    assert(new_ranges@ =~= before + split_piece(range, split));
                }
            }
            index = index + 1;
        }
        assert(old_list.take(index as int) =~= old_list);
        self.ranges = new_ranges;
        proof {
            if all_within(old_list, self.start, self.end) {
                lemma_split_all_within(old_list, split, self.start, self.end);
            }
        }
        split_index
    }
}


impl FreeMemoryRanges {
    /// Marks `[start, end]` as used. The whole region becomes fully used; a single offset is
    /// split out of the free ranges; a longer range splits the free ranges at `start` and at
    /// `end` and drops the piece that the second split found (see `unfree_result`).
    pub fn unfree_range(&mut self, start: u64, end: u64) -> (r: Result<()>)
        requires
            old(self).wf(),
            range_check(old(self).lower(), old(self).upper(), start, end) is None && !(start
                == old(self).lower() && end == old(self).upper()) ==> unfree_defined(
                old(self).free_list(),
                start,
                end,
            ),
        ensures
            final(self).wf(),
            final(self).lower() == old(self).lower(),
            final(self).upper() == old(self).upper(),
            match range_check(old(self).lower(), old(self).upper(), start, end) {
                Some(e) => r == Err::<(), VoxelarError>(e) && *final(self) == *old(self),
                None => r is Ok && final(self).free_list() == unfree_outcome(
                    old(self).free_list(),
                    old(self).lower(),
                    old(self).upper(),
                    start,
                    end,
                ),
            },
    {
        if !(start <= end) {
            return Err(VoxelarError::StartAfterEnd { start, end });
        }
        if !(start >= self.start) {
            return Err(VoxelarError::StartOutsideRange { start });
        }
        if !(end <= self.end) {
            return Err(VoxelarError::EndOutsideRange { end });
        }
        if self.start == start && self.end == end {
            self.ranges = Vec::new();
        } else {
            if start == end {
                self.split_ranges(start).unwrap();
            } else {
                self.split_ranges(start);
                let split_entry_index = self.split_ranges(end).unwrap();
                self.ranges.remove(split_entry_index);
                proof {
                    let l = self.ranges@;
                    let before = split_all(split_all(old(self).ranges@, start), end);
                    assert forall|i: int| 0 <= i < l.len() implies self.start <= #[trigger] l[i].lo()
                        <= self.end && self.start <= l[i].hi() <= self.end by {
                        if i < split_entry_index {
                            assert(l[i] == before[i]);
                        } else {
                            assert(l[i] == before[i + 1]);
                        }
                    }
                }
            }
        }
        Ok(())
    }

    /// Merges the free ranges one after the other into a new list (see `merge_all`).
    fn merge_ranges(&mut self)
        requires
            merge_all_defined(old(self).free_list()),
        ensures
            final(self).lower() == old(self).lower(),
            final(self).upper() == old(self).upper(),
            final(self).free_list() == merge_all(old(self).free_list()),
    {
        let ghost old_list = self.ranges@;
        let mut new_ranges: Vec<FreeMemoryRange> = Vec::new();
        let mut i: usize = 0;
        assert(old_list.take(0) =~= Seq::<FreeMemoryRange>::empty());
        while i < self.ranges.len()
            invariant
                self.ranges@ == old_list,
                merge_all_defined(old_list),
                0 <= i <= old_list.len(),
                new_ranges@ == merge_all(old_list.take(i as int)),
            decreases old_list.len() - i,
        {
            let range = self.ranges[i];
            let ghost acc = new_ranges@;
            proof {
                lemma_merge_all_defined_take(old_list, i as int + 1);
                assert(old_list.take(i as int + 1).drop_last() =~= old_list.take(i as int));
                lemma_first_merge_from_bounds(acc, range, 0);
            }
            let mut new_ranges_updated = false;
            let mut j: usize = 0;
            while !new_ranges_updated && j < new_ranges.len()
                invariant
                    merge_into_defined(acc, range),
                    j <= acc.len(),
                    first_merge_from(acc, range, 0) <= acc.len(),
                    !new_ranges_updated ==> new_ranges@ == acc && first_merge_from(acc, range, 0)
                        == first_merge_from(acc, range, j as int),
                    new_ranges_updated ==> new_ranges@ == merge_into(acc, range),
                decreases 2 * (acc.len() - j) + if new_ranges_updated {
                    0int
                } else {
                    1int
                },
            {
                proof {
                    lemma_first_merge_from_bounds(acc, range, j as int);
                    assert(acc[j as int].merge_check_fits(range));
                }
                match new_ranges[j].maybe_merge_with(range) {
                    Some(merged) => {
                        new_ranges.set(j, merged);
                        new_ranges_updated = true;
                    },
                    None => {
                        j = j + 1;
                    },
                }
            }
            if !new_ranges_updated {
                new_ranges.push(range);
            }
            i = i + 1;
        }
        assert(old_list.take(i as int) =~= old_list);
        self.ranges = new_ranges;
    }

    /// Marks `[start, end]` as free. The whole region becomes fully free; otherwise the range is
    /// appended to the free ranges and the list is merged (see `free_result`).
    pub fn free_range(&mut self, start: u64, end: u64) -> (r: Result<()>)
        requires
            old(self).wf(),
            range_check(old(self).lower(), old(self).upper(), start, end) is None && !(start
                == old(self).lower() && end == old(self).upper()) ==> merge_all_defined(
                old(self).free_list().push(range_of(start, end)),
            ),
        ensures
            final(self).wf(),
            final(self).lower() == old(self).lower(),
            final(self).upper() == old(self).upper(),
            match range_check(old(self).lower(), old(self).upper(), start, end) {
                Some(e) => r == Err::<(), VoxelarError>(e) && *final(self) == *old(self),
                None => r is Ok && final(self).free_list() == free_outcome(
                    old(self).free_list(),
                    old(self).lower(),
                    old(self).upper(),
                    start,
                    end,
                ),
            },
    {
        if !(start <= end) {
            return Err(VoxelarError::StartAfterEnd { start, end });
        }
        if !(start >= self.start) {
            return Err(VoxelarError::StartOutsideRange { start });
        }
        if !(end <= self.end) {
            return Err(VoxelarError::EndOutsideRange { end });
        }
        if self.start == start && self.end == end {
            let mut ranges = Vec::new();
            ranges.push(FreeMemoryRange::new(start, end));
            self.ranges = ranges;
        } else {
            let ghost old_list = self.ranges@;
            self.ranges.push(FreeMemoryRange::new(start, end));
            proof {
                let l = self.ranges@;
                assert(l == old_list.push(range_of(start, end)));
                assert forall|i: int| 0 <= i < l.len() implies self.start <= #[trigger] l[i].lo()
                    <= self.end && self.start <= l[i].hi() <= self.end by {
                    if i < old_list.len() {
                        assert(l[i] == old_list[i]);
                    }
                }
                lemma_merge_all_within(l, self.start, self.end);
            }
            self.merge_ranges();
        }
        Ok(())
    }

    /// Returns the first free range that is at least `width` wide.
    pub fn find_range_that_can_fit_width(&self, width: u64) -> (found: Option<FreeMemoryRange>)
        requires
            fit_scan_fits(self.free_list(), width, 0),
        ensures
            found == first_fit(self.free_list(), width),
    {
        let ghost rs = self.ranges@;
        let mut i: usize = 0;
        while i < self.ranges.len()
            invariant
                rs == self.ranges@,
                0 <= i <= rs.len(),
                fit_scan_fits(rs, width, i as int),
                first_fit_from(rs, width, 0) == first_fit_from(rs, width, i as int),
            decreases rs.len() - i,
        {
            let range = self.ranges[i];
            if range.width() >= width {
                return Some(range);
            }
            i = i + 1;
        }
        None
    }
}


/// The number of offsets that the valid ranges of `rs` span, where a range whose start lies after
/// its end spans none.
pub open spec fn span_sum(rs: Seq<FreeMemoryRange>) -> int
    decreases rs.len(),
{
    if rs.len() == 0 {
        0
    } else {
        span_sum(rs.drop_last()) + if rs.last().lo() <= rs.last().hi() {
            rs.last().span()
        } else {
            0
        }
    }
}

proof fn lemma_span_sum_bounds(rs: Seq<FreeMemoryRange>)
    ensures
        0 <= span_sum(rs) <= rs.len() * 0x1_0000_0000_0000_0000,
    decreases rs.len(),
{
    if rs.len() > 0 {
        lemma_span_sum_bounds(rs.drop_last());
    }
}

impl FreeMemoryRanges {
    /// The number of offsets of the managed region.
    pub open spec fn region_len(self) -> int {
        self.upper() - self.lower() + 1
    }

    /// The number of offsets of the region less the number of offsets that the free ranges
    /// span, or 0 where the free ranges span more than the region.
    pub open spec fn unfree_count(self) -> int {
        let used = self.region_len() - span_sum(self.free_list());
        if used < 0 {
            0
        } else {
            used
        }
    }

    /// Returns the number of offsets of the managed region.
    pub fn len(&self) -> (n: u64)
        requires
            self.wf(),
            self.region_len() <= u64::MAX,
        ensures
            n == self.region_len(),
    {
        self.end - self.start + 1
    }

    /// Returns the number of offsets of the region that the free ranges do not account for
    /// (see `unfree_count`).
    pub fn unfree_len(&self) -> (n: u64)
        requires
            self.wf(),
            self.region_len() <= u64::MAX,
        ensures
            n == self.unfree_count(),
    {
        let ghost rs = self.ranges@;
        let mut sum: u128 = 0;
        let mut i: usize = 0;
        assert(rs.take(0) =~= Seq::<FreeMemoryRange>::empty());
        while i < self.ranges.len()
            invariant
                rs == self.ranges@,
                0 <= i <= rs.len(),
                sum == span_sum(rs.take(i as int)),
            decreases rs.len() - i,
        {
            let range = self.ranges[i];
            proof {
                assert(rs.take(i as int + 1).drop_last() =~= rs.take(i as int));
                lemma_span_sum_bounds(rs.take(i as int));
                assert(rs.len() <= usize::MAX);
                assert(span_sum(rs.take(i as int)) <= i * 0x1_0000_0000_0000_0000) by (
                nonlinear_arith)
                    requires
                        span_sum(rs.take(i as int)) <= rs.take(i as int).len()
                            * 0x1_0000_0000_0000_0000,
                        rs.take(i as int).len() == i,
                ;
                assert(i * 0x1_0000_0000_0000_0000 <= 0xffff_ffff_ffff_ffff
                    * 0x1_0000_0000_0000_0000) by (nonlinear_arith)
                    requires
                        i <= 0xffff_ffff_ffff_ffffu64,
                ;
            }
            if range.start <= range.end {
                sum = sum + (range.end as u128 - range.start as u128 + 1);
            }
            i = i + 1;
        }
        assert(rs.take(i as int) =~= rs);
        let total = self.len();
        if sum >= total as u128 {
            0
        } else {
            total - sum as u64
        }
    }

    /// Returns whether splitting at `split` would need an offset past `u64::MAX`.
    fn split_would_overflow(&self, split: u64) -> (b: bool)
        ensures
            b == split_overflows(self.free_list(), split),
    {
        if split != u64::MAX {
            return false;
        }
        let ghost rs = self.ranges@;
        let mut i: usize = 0;
        while i < self.ranges.len()
            invariant
                rs == self.ranges@,
                split == u64::MAX,
                0 <= i <= rs.len(),
                forall|k: int| 0 <= k < i ==> !(#[trigger] rs[k].covers(split as int) && rs[k].lo()
                    != split),
            decreases rs.len() - i,
        {
            let range = self.ranges[i];
            if range.contains(split) && range.start != split {
                return true;
            }
            i = i + 1;
        }
        false
    }

    /// Returns whether `unfree_result(start, end)` is defined for the current free ranges (see
    /// `unfree_defined`), so that `unfree_range(start, end)` runs without overflow and without
    /// a missing range.
    pub fn can_unfree(&self, start: u64, end: u64) -> (b: bool)
        ensures
            b == unfree_defined(self.free_list(), start, end),
    {
        let mut probe = FreeMemoryRanges {
            start: self.start,
            end: self.end,
            ranges: self.ranges.clone(),
        };
        if probe.split_would_overflow(start) {
            return false;
        }
        if start == end {
            return probe.split_ranges(start).is_some();
        }
        probe.split_ranges(start);
        if probe.split_would_overflow(end) {
            return false;
        }
        match probe.split_ranges(end) {
            Some(i) => i < probe.ranges.len(),
            None => false,
        }
    }

    /// Returns whether the search for a range of `width` meets only ranges whose width fits in
    /// a `u64` (see `fit_scan_fits`).
    pub fn can_search_width(&self, width: u64) -> (b: bool)
        ensures
            b == fit_scan_fits(self.free_list(), width, 0),
    {
        let ghost rs = self.ranges@;
        let mut i: usize = 0;
        while i < self.ranges.len()
            invariant
                rs == self.ranges@,
                0 <= i <= rs.len(),
                fit_scan_fits(rs, width, 0) == fit_scan_fits(rs, width, i as int),
            decreases rs.len() - i,
        {
            let range = self.ranges[i];
            if !(range.start <= range.end && range.end - range.start < u64::MAX) {
                return false;
            }
            if range.end - range.start + 1 >= width {
                return true;
            }
            i = i + 1;
        }
        true
    }
}

// ---------------------------------------------------------------------------------------------
// Laws.
// ---------------------------------------------------------------------------------------------

/// Merging two ranges that overlap or are adjacent, where the first starts more than one offset
/// before the second and ends no later than it, gives the range from the first's start to the
/// second's end, in either order.
pub proof fn law_merge_neighbors(x: FreeMemoryRange, y: FreeMemoryRange)
    requires
        x.lo() + 1 < y.lo() <= x.hi() + 1,
        x.hi() <= y.hi(),
    ensures
        x.merged(y) == Some(range_of(x.lo(), y.hi())),
        y.merged(x) == Some(range_of(x.lo(), y.hi())),
{
}

/// Merging two ranges with a gap of at least one offset between them gives nothing, in either
/// order.
pub proof fn law_merge_apart(x: FreeMemoryRange, y: FreeMemoryRange)
    requires
        x.lo() <= x.hi(),
        y.lo() <= y.hi(),
        x.hi() + 1 < y.lo(),
    ensures
        x.merged(y) is None,
        y.merged(x) is None,
{
}

/// No two ranges of `rs` touch: none lies in or right next to another.
pub open spec fn separated(rs: Seq<FreeMemoryRange>) -> bool {
    forall|i: int, j: int|
        0 <= i < rs.len() && 0 <= j < rs.len() && i != j ==> #[trigger] rs[i].merged(rs[j]) is None
}

/// Splitting a list of which no range holds `split` changes nothing.
proof fn lemma_split_all_untouched(rs: Seq<FreeMemoryRange>, split: u64)
    requires
        forall|j: int| 0 <= j < rs.len() ==> !(#[trigger] rs[j]).covers(split as int),
    ensures
        split_all(rs, split) == rs,
    decreases rs.len(),
{
    if rs.len() > 0 {
        let init = rs.drop_last();
        assert forall|j: int| 0 <= j < init.len() implies !(#[trigger] init[j]).covers(
            split as int,
        ) by {
            assert(init[j] == rs[j]);
        }
        lemma_split_all_untouched(init, split);
        init.lemma_flat_map_push(splitter(split), rs.last());
        assert(init.push(rs.last()) =~= rs);
        assert(!rs[rs.len() - 1].covers(split as int));
        assert(split_piece(rs.last(), split) =~= seq![rs.last()]);
        assert(init + seq![rs.last()] =~= rs);
    }
}

/// Splitting a list of which only the range at `k` holds `split` replaces that range by its
/// pieces.
proof fn lemma_split_all_at(rs: Seq<FreeMemoryRange>, split: u64, k: int)
    requires
        0 <= k < rs.len(),
        forall|j: int| 0 <= j < rs.len() && j != k ==> !(#[trigger] rs[j]).covers(split as int),
    ensures
        split_all(rs, split) == rs.take(k) + split_piece(rs[k], split) + rs.skip(k + 1),
    decreases rs.len(),
{
    let init = rs.drop_last();
    let f = splitter(split);
    init.lemma_flat_map_push(f, rs.last());
    assert(init.push(rs.last()) =~= rs);
    if k == rs.len() - 1 {
        assert forall|j: int| 0 <= j < init.len() implies !(#[trigger] init[j]).covers(
            split as int,
        ) by {
            assert(init[j] == rs[j]);
        }
        lemma_split_all_untouched(init, split);
        assert(rs.take(k) =~= init);
        assert(rs.skip(k + 1) =~= Seq::<FreeMemoryRange>::empty());
        assert(split_all(rs, split) =~= rs.take(k) + split_piece(rs[k], split) + rs.skip(k + 1));
    } else {
        assert forall|j: int| 0 <= j < init.len() && j != k implies !(
        #[trigger] init[j]).covers(split as int) by {
            assert(init[j] == rs[j]);
        }
        lemma_split_all_at(init, split, k);
        assert(!rs[rs.len() - 1].covers(split as int));
        assert(split_piece(rs.last(), split) =~= seq![rs.last()]);
        assert(init.take(k) =~= rs.take(k));
        assert(init.skip(k + 1) + seq![rs.last()] =~= rs.skip(k + 1));
        assert(init[k] == rs[k]);
        assert(split_all(rs, split) =~= rs.take(k) + split_piece(rs[k], split) + rs.skip(k + 1));
    }
}

/// The last range of a list that holds `v`, where only the range at `k` does, is the one at
/// `k`.
proof fn lemma_last_covering_at(rs: Seq<FreeMemoryRange>, v: u64, k: int)
    requires
        0 <= k < rs.len(),
        rs[k].covers(v as int),
        forall|j: int| 0 <= j < rs.len() && j != k ==> !(#[trigger] rs[j]).covers(v as int),
    ensures
        last_covering(rs, v) == Some(k),
    decreases rs.len(),
{
    if k < rs.len() - 1 {
        let init = rs.drop_last();
        assert(!rs[rs.len() - 1].covers(v as int));
        assert forall|j: int| 0 <= j < init.len() && j != k implies !(
        #[trigger] init[j]).covers(v as int) by {
            assert(init[j] == rs[j]);
        }
        assert(init[k] == rs[k]);
        lemma_last_covering_at(init, v, k);
    }
}

/// The first range of `acc`, from `k` on, that merges with `r` is the one at `j`, where none
/// before it does and, if `j` lies in `acc`, the one at `j` does.
proof fn lemma_first_merge_from_at(acc: Seq<FreeMemoryRange>, r: FreeMemoryRange, j: int, k: int)
    requires
        0 <= k <= j <= acc.len(),
        forall|i: int| k <= i < j ==> (#[trigger] acc[i]).merged(r) is None,
        j < acc.len() ==> acc[j].merged(r) is Some,
    ensures
        first_merge_from(acc, r, k) == j,
    decreases j - k,
{
    if k < j {
        lemma_first_merge_from_at(acc, r, j, k + 1);
    }
}

/// Merging a list of which no two ranges touch gives it back.
proof fn lemma_merge_all_separated(rs: Seq<FreeMemoryRange>)
    requires
        separated(rs),
    ensures
        merge_all(rs) == rs,
    decreases rs.len(),
{
    if rs.len() > 0 {
        let init = rs.drop_last();
        let last = rs.last();
        assert forall|i: int, j: int|
            0 <= i < init.len() && 0 <= j < init.len() && i != j implies #[trigger] init[i].merged(
            init[j],
        ) is None by {
            assert(init[i] == rs[i] && init[j] == rs[j]);
        }
        lemma_merge_all_separated(init);
        assert forall|i: int| 0 <= i < init.len() implies (#[trigger] init[i]).merged(
            last,
        ) is None by {
            assert(init[i] == rs[i]);
            assert(rs[i].merged(rs[rs.len() - 1]) is None);
        }
        lemma_first_merge_from_at(init, last, init.len() as int, 0);
        assert(init.push(last) =~= rs);
    }
}

/// Every range of `rs` holds at least one offset and no two of them share an offset.
pub open spec fn non_overlapping(rs: Seq<FreeMemoryRange>) -> bool {
    &&& forall|i: int| 0 <= i < rs.len() ==> (#[trigger] rs[i]).lo() <= rs[i].hi()
    &&& forall|i: int, j: int|
        #![trigger rs[i], rs[j]]
        0 <= i < rs.len() && 0 <= j < rs.len() && i != j ==> rs[i].hi() < rs[j].lo() || rs[j].hi()
            < rs[i].lo()
}

/// `last_covering` finds a range that holds `v`, after which none does, or finds none where no
/// range holds `v`.
proof fn lemma_last_covering_found(rs: Seq<FreeMemoryRange>, v: u64)
    ensures
        match last_covering(rs, v) {
            Some(k) => 0 <= k < rs.len() && rs[k].covers(v as int),
            None => forall|j: int| 0 <= j < rs.len() ==> !(#[trigger] rs[j]).covers(v as int),
        },
    decreases rs.len(),
{
    if rs.len() > 0 && !rs.last().covers(v as int) {
        let init = rs.drop_last();
        lemma_last_covering_found(init, v);
        if last_covering(init, v) is None {
            assert forall|j: int| 0 <= j < rs.len() implies !(#[trigger] rs[j]).covers(
                v as int,
            ) by {
                if j < init.len() {
                    assert(init[j] == rs[j]);
                }
            }
        } else {
            assert(init[last_covering(init, v).unwrap()] == rs[last_covering(init, v).unwrap()]);
        }
    }
}

/// Splitting a list of ranges that share no offset at `split` (what `split_ranges` does) touches
/// only the range that holds `split`: where one does, it is replaced by its pieces, the ranges
/// before and after it are kept in their order, it is the only range that holds `split`, and its
/// index is the one that `split_ranges` returns; where none does, the list stays as it is and
/// `split_ranges` returns `None`.
pub proof fn law_split_replaces_only_the_holder(rs: Seq<FreeMemoryRange>, split: u64)
    requires
        non_overlapping(rs),
    ensures
        match last_covering(rs, split) {
            Some(k) => {
                &&& 0 <= k < rs.len()
                &&& rs[k].covers(split as int)
                &&& forall|j: int|
                    0 <= j < rs.len() && j != k ==> !(#[trigger] rs[j]).covers(split as int)
                &&& split_all(rs, split) == rs.take(k) + split_piece(rs[k], split) + rs.skip(k + 1)
            },
            None => split_all(rs, split) == rs,
        },
{
    lemma_last_covering_found(rs, split);
    match last_covering(rs, split) {
        Some(k) => {
            assert forall|j: int| 0 <= j < rs.len() && j != k implies !(
            #[trigger] rs[j]).covers(split as int) by {
                assert(rs[j].hi() < rs[k].lo() || rs[k].hi() < rs[j].lo());
            }
            lemma_split_all_at(rs, split, k);
        },
        None => {
            lemma_split_all_untouched(rs, split);
        },
    }
}

/// Where the ranges of `rs` lie within `[lower, upper]` and no two of them touch, marking as
/// used the first offsets `[a, e]` of its range `[a, b]` at `k`, and then marking them as free
/// again, gives the free list back: the range where `e` lies before `b`, else the list with that
/// range moved to its end. In between, the range is shortened to `[e + 1, b]`, or dropped where
/// `e` is `b`. The first step passes its checks and runs without overflow, and so does the
/// second. It fails where `[a, e]` is one offset (the range is cut down to that offset) or ends
/// at `b - 1` (the offset `b` is lost).
pub proof fn law_unfree_then_free(
    rs: Seq<FreeMemoryRange>,
    lower: u64,
    upper: u64,
    k: int,
    e: u64,
)
    requires
        all_within(rs, lower, upper),
        upper < u64::MAX,
        separated(rs),
        0 <= k < rs.len(),
        rs[k].lo() < e <= rs[k].hi(),
        e + 1 != rs[k].hi(),
    ensures
        ({
            let a = rs[k].lo();
            let b = rs[k].hi();
            let used = unfree_outcome(rs, lower, upper, a, e);
            &&& range_check(lower, upper, a, e) is None
            &&& !(a == lower && e == upper) ==> unfree_defined(rs, a, e)
            &&& merge_all_defined(used.push(range_of(a, e)))
            &&& used == if e < b {
                rs.update(k, range_of((e + 1) as u64, b))
            } else {
                rs.remove(k)
            }
            &&& free_outcome(used, lower, upper, a, e) == if e < b {
                rs
            } else {
                rs.remove(k).push(rs[k])
            }
        }),
{
    broadcast use lemma_range_of;

    let r = rs[k];
    let a = r.lo();
    let b = r.hi();
    let m = range_of(a, e);
    assert(lower <= r.lo() <= upper && lower <= r.hi() <= upper);
    // No other range holds, touches or is touched by an offset of `[a, b]`.
    assert forall|j: int| 0 <= j < rs.len() && j != k implies !(#[trigger] rs[j]).touches(a as int)
        && !r.touches(rs[j].lo() as int) by {
        assert(rs[j].merged(rs[k]) is None);
    }
    assert forall|j: int| 0 <= j < rs.len() && j != k implies !(#[trigger] rs[j]).covers(
        a as int,
    ) && !rs[j].covers(e as int) by {
        assert(!rs[j].touches(a as int) && !r.touches(rs[j].lo() as int));
    }
    // Neither split overflows.
    assert(!split_overflows(rs, a));
    // The first split changes nothing.
    lemma_split_all_at(rs, a, k);
    assert(split_piece(r, a) =~= seq![r]);
    assert(rs.take(k) + seq![r] + rs.skip(k + 1) =~= rs);
    let first = split_all(rs, a);
    assert(first == rs);
    assert(!split_overflows(first, e));
    // The second split cuts `[a, b]` at `e`.
    lemma_split_all_at(rs, e, k);
    lemma_last_covering_at(rs, e, k);
    let second = split_all(rs, e);
    if a == lower && e == upper {
        // The range is the whole region, so it is the only one.
        assert(rs.len() == 1) by {
            if rs.len() > 1 {
                let j: int = if k == 0 {
                    1
                } else {
                    0
                };
                assert(lower <= rs[j].lo() <= upper);
                assert(!r.touches(rs[j].lo() as int));
            }
        }
        assert(rs.remove(k) =~= Seq::<FreeMemoryRange>::empty());
        assert(rs.remove(k).push(rs[k]) =~= seq![r]);
        lemma_range_ext(range_of(a, e), r);
        assert(Seq::<FreeMemoryRange>::empty().push(m) =~= seq![m]);
        lemma_merge_all_defined_below_max(seq![m]);
    } else {
        let used = second.remove(k);
        assert(unfree_outcome(rs, lower, upper, a, e) == used);
        if e < b {
            let rest = range_of((e + 1) as u64, b);
            assert(split_piece(r, e) =~= seq![range_of(a, (e - 1) as u64), rest]);
            assert(used =~= rs.update(k, rest));
            // The shortened range touches no other range either.
            assert forall|i: int, j: int|
                0 <= i < used.len() && 0 <= j < used.len() && i != j implies #[trigger] used[i].merged(
                used[j],
            ) is None by {
                if i != k && j != k {
                    assert(rs[i].merged(rs[j]) is None);
                } else if i == k {
                    assert(!rs[j].touches(a as int) && !r.touches(rs[j].lo() as int));
                } else {
                    assert(!rs[i].touches(a as int) && !r.touches(rs[i].lo() as int));
                }
            }
            lemma_merge_all_separated(used);
            assert forall|i: int| 0 <= i < k implies (#[trigger] used[i]).merged(m) is None by {
                assert(!rs[i].touches(a as int) && !r.touches(rs[i].lo() as int));
            }
            assert(used[k].merged(m) == Some(range_of(a, b)));
            lemma_first_merge_from_at(used, m, k, 0);
            let pushed = used.push(m);
            assert(pushed.drop_last() =~= used);
            assert(merge_all(pushed) == merge_into(merge_all(pushed.drop_last()), pushed.last()));
            lemma_range_ext(range_of(a, b), r);
            assert(merge_into(used, m) =~= rs);
            assert forall|i: int| 0 <= i < pushed.len() implies (#[trigger] pushed[i]).hi()
                < u64::MAX by {
                if i < used.len() && i != k {
                    assert(pushed[i] == rs[i]);
                }
            }
            lemma_merge_all_defined_below_max(pushed);
        } else {
            assert(split_piece(r, e) =~= seq![range_of(a, (e - 1) as u64)]);
            assert(used =~= rs.remove(k));
            assert forall|i: int, j: int|
                0 <= i < used.len() && 0 <= j < used.len() && i != j implies #[trigger] used[i].merged(
                used[j],
            ) is None by {
                let i0 = if i < k {
                    i
                } else {
                    i + 1
                };
                let j0 = if j < k {
                    j
                } else {
                    j + 1
                };
                assert(used[i] == rs[i0] && used[j] == rs[j0]);
                assert(rs[i0].merged(rs[j0]) is None);
            }
            lemma_merge_all_separated(used);
            assert forall|i: int| 0 <= i < used.len() implies (#[trigger] used[i]).merged(
                m,
            ) is None by {
                let i0 = if i < k {
                    i
                } else {
                    i + 1
                };
                assert(used[i] == rs[i0]);
                assert(!rs[i0].touches(a as int) && !r.touches(rs[i0].lo() as int));
            }
            lemma_first_merge_from_at(used, m, used.len() as int, 0);
            let pushed = used.push(m);
            assert(pushed.drop_last() =~= used);
            assert(merge_all(pushed) == merge_into(merge_all(pushed.drop_last()), pushed.last()));
            lemma_range_ext(m, r);
            assert forall|i: int| 0 <= i < pushed.len() implies (#[trigger] pushed[i]).hi()
                < u64::MAX by {
                if i < used.len() {
                    let i0 = if i < k {
                        i
                    } else {
                        i + 1
                    };
                    assert(pushed[i] == rs[i0]);
                }
            }
            lemma_merge_all_defined_below_max(pushed);
        }
    }
}

/// The search for a range of `width` offsets from `k` on stops at the first range from `k` on
/// whose last offset lies at least `width - 1` offsets after its first, or at the end.
proof fn lemma_first_fit_scan(rs: Seq<FreeMemoryRange>, width: u64, k: int)
    requires
        0 <= k <= rs.len(),
    ensures
        ({
            let m = first_fit_from(rs, width, k);
            &&& k <= m <= rs.len()
            &&& m < rs.len() ==> rs[m].hi() - rs[m].lo() + 1 >= width
            &&& forall|j: int| k <= j < m ==> (#[trigger] rs[j]).hi() - rs[j].lo() + 1 < width
        }),
    decreases rs.len() - k,
{
    if k < rs.len() && rs[k].span() < width {
        lemma_first_fit_scan(rs, width, k + 1);
    }
}

/// First fit: the range that the search for `width` offsets finds is the first range of `rs`
/// that holds at least `width` offsets (`hi - lo + 1 >= width`), every range before it holds
/// fewer, and it finds none exactly where every range holds fewer.
pub proof fn law_first_fit(rs: Seq<FreeMemoryRange>, width: u64)
    ensures
        match first_fit(rs, width) {
            Some(r) => exists|k: int|
                0 <= k < rs.len() && rs[k] == r && r.hi() - r.lo() + 1 >= width && forall|j: int|
                    0 <= j < k ==> (#[trigger] rs[j]).hi() - rs[j].lo() + 1 < width,
            None => forall|j: int|
                0 <= j < rs.len() ==> (#[trigger] rs[j]).hi() - rs[j].lo() + 1 < width,
        },
{
    lemma_first_fit_scan(rs, width, 0);
    let k = first_fit_from(rs, width, 0);
    if k < rs.len() {
        assert(rs[k] == first_fit(rs, width).unwrap());
    }
}

/// The range that the search for `v` picks holds `v` and no range after it does; where it picks
/// none, no range holds `v`.
pub proof fn law_last_covering(rs: Seq<FreeMemoryRange>, v: u64)
    ensures
        match last_covering(rs, v) {
            Some(k) => 0 <= k < rs.len() && rs[k].lo() <= v <= rs[k].hi() && forall|j: int|
                k < j < rs.len() ==> !((#[trigger] rs[j]).lo() <= v <= rs[j].hi()),
            None => forall|j: int| 0 <= j < rs.len() ==> !((#[trigger] rs[j]).lo() <= v <= rs[j].hi()),
        },
    decreases rs.len(),
{
    if rs.len() > 0 && !rs.last().covers(v as int) {
        let init = rs.drop_last();
        law_last_covering(init, v);
        assert forall|j: int| 0 <= j < init.len() implies init[j] == rs[j] by {}
        assert(rs[rs.len() - 1] == rs.last());
    }
}

/// Adding `r` to a merged list merges it into the first range of the list that it merges with,
/// and into no range before that one.
pub proof fn law_first_merge(acc: Seq<FreeMemoryRange>, r: FreeMemoryRange)
    ensures
        ({
            let j = first_merge_from(acc, r, 0);
            &&& 0 <= j <= acc.len()
            &&& j < acc.len() ==> acc[j].merged(r) is Some
            &&& forall|i: int| 0 <= i < j ==> (#[trigger] acc[i]).merged(r) is None
        }),
{
    lemma_first_merge_scan(acc, r, 0);
}

proof fn lemma_first_merge_scan(acc: Seq<FreeMemoryRange>, r: FreeMemoryRange, k: int)
    requires
        0 <= k <= acc.len(),
    ensures
        ({
            let j = first_merge_from(acc, r, k);
            &&& k <= j <= acc.len()
            &&& j < acc.len() ==> acc[j].merged(r) is Some
            &&& forall|i: int| k <= i < j ==> (#[trigger] acc[i]).merged(r) is None
        }),
    decreases acc.len() - k,
{
    if k < acc.len() && !(acc[k].merged(r) is Some) {
        lemma_first_merge_scan(acc, r, k + 1);
    }
}

} // verus!
