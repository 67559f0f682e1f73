//! The serial bitonic sorter: the bitonic network run on one thread.

use vstd::prelude::*;
use crate::order::{sorted, sorted_range_dir, same_values};
use crate::buffer::{pad_to_power_of_two, lemma_drop_padding};
use crate::network::{
    is_pow2, bitonic, window_perm, unchanged_outside, compare_swap_range, lemma_half_clean,
    lemma_ascending_descending_bitonic, lemma_join_sorted_halves, lemma_two_halves,
};

verus! {

/// One half-cleaner step on the window `lo..lo + n`: each position of the
/// first half is compared with the position `n / 2` further on and the pair is
/// put in order `rev`.
fn bitonic_merge(nums: &mut Vec<i32>, lo: usize, n: usize, rev: bool)
    requires
        n % 2 == 0,
        lo + n <= old(nums).len(),
    ensures
        crate::network::half_cleaned(old(nums)@, final(nums)@, lo as int, n as int / 2, rev),
        unchanged_outside(old(nums)@, final(nums)@, lo as int, lo + n),
        window_perm(old(nums)@, final(nums)@, lo as int, lo + n),
{
    compare_swap_range(nums, lo, n / 2, 0, n / 2, rev);
}

/// Sorts the bitonic window `lo..lo + n` in direction `rev` by half-cleaning
/// it and then each of its halves, down to windows of one value.
fn merge_cascade(nums: &mut Vec<i32>, lo: usize, n: usize, rev: bool)
    requires
        is_pow2(n as int),
        lo + n <= old(nums).len(),
        bitonic(old(nums)@, lo as int, n as int),
    ensures
        unchanged_outside(old(nums)@, final(nums)@, lo as int, lo + n),
        window_perm(old(nums)@, final(nums)@, lo as int, lo + n),
        sorted_range_dir(final(nums)@, lo as int, lo + n, rev),
    decreases n,
{
    if n <= 1 {
        return;
    }
    let h = n / 2;
    let ghost s0 = nums@;
    bitonic_merge(nums, lo, n, rev);
    let ghost s1 = nums@;
    proof {
        lemma_half_clean(s0, s1, lo as int, h as int, rev);
    }
    merge_cascade(nums, lo, h, rev);
    let ghost s2 = nums@;
    proof {
        lemma_two_halves(s1, s2, s2, lo as int, h as int, rev);
    }
    merge_cascade(nums, lo + h, h, rev);
    proof {
        lemma_two_halves(s1, s2, nums@, lo as int, h as int, rev);
        lemma_join_sorted_halves(s1, nums@, lo as int, h as int, rev);
    }
}

/// Sorts the window `lo..lo + n` in direction `rev`: the first half ascending,
/// the second descending, which makes the window bitonic, then the cascade.
fn bitonic_sort_range(nums: &mut Vec<i32>, lo: usize, n: usize, rev: bool)
    requires
        is_pow2(n as int),
        lo + n <= old(nums).len(),
    ensures
        unchanged_outside(old(nums)@, final(nums)@, lo as int, lo + n),
        window_perm(old(nums)@, final(nums)@, lo as int, lo + n),
        sorted_range_dir(final(nums)@, lo as int, lo + n, rev),
    decreases n,
{
    if n <= 1 {
        return;
    }
    let h = n / 2;
    let ghost s0 = nums@;
    bitonic_sort_range(nums, lo, h, false);
    let ghost s1 = nums@;
    bitonic_sort_range(nums, lo + h, h, true);
    proof {
        lemma_two_halves(s0, s1, nums@, lo as int, h as int, false);
        lemma_ascending_descending_bitonic(nums@, lo as int, h as int);
    }
    merge_cascade(nums, lo, n, rev);
}

/// Sorts `nums` ascending with the bitonic network on the calling thread.
/// The buffer is padded with its maximum to a power-of-two length while it is
/// sorted and comes back with its original length.
pub fn bitonic_sort(nums: &mut Vec<i32>)
    requires
        old(nums)@.len() <= usize::MAX / 2,
    ensures
        final(nums)@.len() == old(nums)@.len(),
        sorted(final(nums)@),
        same_values(old(nums)@, final(nums)@),
{
    if nums.len() == 0 {
        return;
    }
    let ghost orig = nums@;
    let origin_len = pad_to_power_of_two(nums);
    let n = nums.len();
    let ghost pad = nums@;
    bitonic_sort_range(nums, 0, n, false);
    let ghost out = nums@;
    proof {
        assert(pad.subrange(0, n as int) == pad);
        assert(out.subrange(0, n as int) == out);
    }
    nums.truncate(origin_len);
    proof {
        lemma_drop_padding(orig, pad, out);
    }
}

} // verus!
