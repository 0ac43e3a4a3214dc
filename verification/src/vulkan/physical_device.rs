//! Choosing a memory type of the physical device for an allocation.
use vstd::prelude::*;

verus! {

/// Memory type `index` is allowed by the bit mask `memory_type_bits` and its property flags
/// `flags` include all of `required`.
pub open spec fn memory_type_matches(memory_type_bits: u32, required: u32, flags: u32, index: u32) -> bool {
    (1u32 << index) & memory_type_bits != 0 && flags & required == required
}

/// The first index, from `k` on, of a memory type in `type_flags` that matches, or
/// `type_flags.len()`.
pub open spec fn first_matching_type_from(
    memory_type_bits: u32,
    required: u32,
    type_flags: Seq<u32>,
    k: int,
) -> int
    decreases type_flags.len() - k,
{
    if k >= type_flags.len() || k < 0 {
        type_flags.len() as int
    } else if memory_type_matches(memory_type_bits, required, type_flags[k], k as u32) {
        k
    } else {
        first_matching_type_from(memory_type_bits, required, type_flags, k + 1)
    }
}

/// Returns the index of the first memory type, of the device's memory types with the property
/// flags `type_flags`, that an allocation with the memory type bit mask `memory_type_bits` may
/// use and whose flags include all of `required`.
pub fn find_memory_type_index(memory_type_bits: u32, required: u32, type_flags: &Vec<u32>) -> (r:
    Option<u32>)
    requires
        type_flags@.len() <= 32,
    ensures
        ({
            let k = first_matching_type_from(memory_type_bits, required, type_flags@, 0);
            if k < type_flags@.len() {
                r == Some(k as u32)
            } else {
                r is None
            }
        }),
        r matches Some(k) ==> (1u32 << k) & memory_type_bits != 0 && type_flags@[k as int] & required
            == required,
        forall|j: int|
            0 <= j < type_flags@.len() && (r matches Some(k) ==> j < k) ==> !((1u32 << (j as u32))
                & memory_type_bits != 0 && (#[trigger] type_flags@[j]) & required == required),
{
    let ghost flags = type_flags@;
    let mut index: usize = 0;
    while index < type_flags.len()
        invariant
            flags == type_flags@,
            flags.len() <= 32,
            0 <= index <= flags.len(),
            first_matching_type_from(memory_type_bits, required, flags, 0)
                == first_matching_type_from(memory_type_bits, required, flags, index as int),
        decreases flags.len() - index,
    {
        let i = index as u32;
        if (1u32 << i) & memory_type_bits != 0 && type_flags[index] & required == required {
            proof {
                law_memory_type_choice(memory_type_bits, required, flags);
            }
            return Some(i);
        }
        index = index + 1;
    }
    proof {
        law_memory_type_choice(memory_type_bits, required, flags);
    }
    None
}

/// The memory type that the search picks: where it finds one, the type at the returned index `k`
/// is allowed by the bit mask (`(1 << k) & memory_type_bits != 0`) and its flags hold every bit
/// of `required` (`flags & required == required`), and no type before it is both; where it finds
/// none, no type of the list is both.
pub proof fn law_memory_type_choice(memory_type_bits: u32, required: u32, type_flags: Seq<u32>)
    requires
        type_flags.len() <= 32,
    ensures
        ({
            let k = first_matching_type_from(memory_type_bits, required, type_flags, 0);
            &&& 0 <= k <= type_flags.len()
            &&& k < type_flags.len() ==> (1u32 << (k as u32)) & memory_type_bits != 0
                && type_flags[k] & required == required
            &&& forall|j: int|
                0 <= j < k ==> !((1u32 << (j as u32)) & memory_type_bits != 0 && (
                #[trigger] type_flags[j]) & required == required)
        }),
{
    lemma_first_matching_type(memory_type_bits, required, type_flags, 0);
}

proof fn lemma_first_matching_type(memory_type_bits: u32, required: u32, type_flags: Seq<u32>, k: int)
    requires
        0 <= k <= type_flags.len(),
    ensures
        ({
            let m = first_matching_type_from(memory_type_bits, required, type_flags, k);
            &&& k <= m <= type_flags.len()
            &&& m < type_flags.len() ==> (1u32 << (m as u32)) & memory_type_bits != 0
                && type_flags[m] & required == required
            &&& forall|j: int|
                k <= j < m ==> !((1u32 << (j as u32)) & memory_type_bits != 0 && (
                #[trigger] type_flags[j]) & required == required)
        }),
    decreases type_flags.len() - k,
{
    if k < type_flags.len() && !memory_type_matches(
        memory_type_bits,
        required,
        type_flags[k],
        k as u32,
    ) {
        lemma_first_matching_type(memory_type_bits, required, type_flags, k + 1);
    }
}

} // verus!
