//! The partitioned bitonic sorter: the bitonic network with its work divided
//! by a parallelism budget. The two recursive halves of a sort each receive
//! half the budget, and the pairs of every half-cleaner step are split into
//! contiguous, disjoint chunks, one per worker. Every worker owns a set of
//! positions that no other worker of the same step touches, so the steps of
//! one round may run in any order, and they are run here one after another.

use vstd::prelude::*;
use crate::order::{sorted, sorted_range_dir, same_values};
use crate::buffer::{pad_to_power_of_two, lemma_drop_padding, coerce_parallelism, split_work};
use crate::network::{
    is_pow2, bitonic, lower, upper, half_cleaned, window_perm, unchanged_outside,
    compare_swap_range, lemma_half_clean, lemma_ascending_descending_bitonic,
    lemma_join_sorted_halves, lemma_two_halves,
};

verus! {

/// One half-cleaner step on the window `lo..lo + n`, its `n / 2` pairs split
/// among up to `parallel` workers, each owning one contiguous chunk of pairs.
fn bitonic_merge(nums: &mut Vec<i32>, lo: usize, n: usize, rev: bool, parallel: u8)
    requires
        is_pow2(n as int),
        n >= 2,
        is_pow2(parallel as int),
        lo + n <= old(nums).len(),
    ensures
        half_cleaned(old(nums)@, final(nums)@, lo as int, n as int / 2, rev),
        unchanged_outside(old(nums)@, final(nums)@, lo as int, lo + n),
        window_perm(old(nums)@, final(nums)@, lo as int, lo + n),
{
    let h = n / 2;
    if parallel <= 1 {
        compare_swap_range(nums, lo, h, 0, h, rev);
        return;
    }
    let (workers, chunk) = split_work(h, parallel as usize);
    let ghost orig = nums@;
    let mut start: usize = 0;
    let mut w: usize = 0;
    while w < workers
        invariant
            h == n / 2,
            lo + n <= nums.len(),
            n == 2 * h,
            workers * chunk == h,
            w <= workers,
            start == w * chunk,
            nums@.len() == orig.len(),
            forall|i: int| lo <= i < lo + start ==> #[trigger] nums@[i] == lower(orig[i], orig[i + h], rev),
            forall|i: int|
                lo + h <= i < lo + h + start ==> #[trigger] nums@[i] == upper(orig[i - h], orig[i], rev),
            forall|i: int|
                0 <= i < orig.len() && !(lo <= i < lo + start) && !(lo + h <= i < lo + h + start)
                    ==> #[trigger] nums@[i] == orig[i],
            window_perm(orig, nums@, lo as int, lo + n),
        decreases workers - w,
    {
        proof {
            assert((w + 1) * chunk == w * chunk + chunk) by (nonlinear_arith);
            assert((w + 1) * chunk <= workers * chunk) by (nonlinear_arith)
                requires
                    w + 1 <= workers,
            ;
        }
        let ghost before = nums@;
        compare_swap_range(nums, lo, h, start, start + chunk, rev);
        proof {
            assert forall|i: int| lo + start <= i < lo + start + chunk implies #[trigger] nums@[i] == lower(orig[i], orig[i + h], rev) by {
                assert(before[i] == orig[i]);
                assert(before[i + h] == orig[i + h]);
            }
            assert forall|i: int| lo + h + start <= i < lo + h + start + chunk implies #[trigger] nums@[i] == upper(orig[i - h], orig[i], rev) by {
                assert(before[i] == orig[i]);
                assert(before[i - h] == orig[i - h]);
            }
        }
        start = start + chunk;
        w = w + 1;
    }
}

/// Sorts the bitonic window `lo..lo + n` in direction `rev`: a half-cleaner
/// step over the whole window, then the same on each half, each step divided
/// among up to `parallel` workers.
fn merge_cascade(nums: &mut Vec<i32>, lo: usize, n: usize, rev: bool, parallel: u8)
    requires
        is_pow2(n as int),
        is_pow2(parallel as int),
        lo + n <= old(nums).len(),
        bitonic(old(nums)@, lo as int, n as int),
    ensures
        unchanged_outside(old(nums)@, final(nums)@, lo as int, lo + n),
        window_perm(old(nums)@, final(nums)@, lo as int, lo + n),
        sorted_range_dir(final(nums)@, lo as int, lo + n, rev),
    decreases n,
{
    if n <= 1 {
        return;
    }
    let h = n / 2;
    let ghost s0 = nums@;
    bitonic_merge(nums, lo, n, rev, parallel);
    let ghost s1 = nums@;
    proof {
        lemma_half_clean(s0, s1, lo as int, h as int, rev);
    }
    merge_cascade(nums, lo, h, rev, parallel);
    let ghost s2 = nums@;
    proof {
        lemma_two_halves(s1, s2, s2, lo as int, h as int, rev);
    }
    merge_cascade(nums, lo + h, h, rev, parallel);
    proof {
        lemma_two_halves(s1, s2, nums@, lo as int, h as int, rev);
        lemma_join_sorted_halves(s1, nums@, lo as int, h as int, rev);
    }
}

/// Sorts the window `lo..lo + n` in direction `rev` within a budget of
/// `parallel` workers: with a budget above one, the ascending first half and
/// the descending second half are two tasks of half the budget each; then the
/// cascade merges the window with the whole budget.
fn bitonic_sort_range(nums: &mut Vec<i32>, lo: usize, n: usize, rev: bool, parallel: u8)
    requires
        is_pow2(n as int),
        is_pow2(parallel as int),
        lo + n <= old(nums).len(),
    ensures
        unchanged_outside(old(nums)@, final(nums)@, lo as int, lo + n),
        window_perm(old(nums)@, final(nums)@, lo as int, lo + n),
        sorted_range_dir(final(nums)@, lo as int, lo + n, rev),
    decreases n,
{
    if n <= 1 {
        return;
    }
    let h = n / 2;
    let budget = if parallel <= 1 { parallel } else { parallel / 2 };
    let ghost s0 = nums@;
    bitonic_sort_range(nums, lo, h, false, budget);
    let ghost s1 = nums@;
    bitonic_sort_range(nums, lo + h, h, true, budget);
    proof {
        lemma_two_halves(s0, s1, nums@, lo as int, h as int, false);
        lemma_ascending_descending_bitonic(nums@, lo as int, h as int);
    }
    merge_cascade(nums, lo, n, rev, parallel);
}

/// Sorts `nums` ascending with the bitonic network, its work divided among at
/// most `parallel` workers (coerced to the largest power of two not above it,
/// and to 1 for 0). The result does not depend on `parallel`. The buffer is
/// padded with its maximum to a power-of-two length while it is sorted and
/// comes back with its original length.
pub fn bitonic_sort(nums: &mut Vec<i32>, parallel: u8)
    requires
        old(nums)@.len() <= usize::MAX / 2,
    ensures
        final(nums)@.len() == old(nums)@.len(),
        sorted(final(nums)@),
        same_values(old(nums)@, final(nums)@),
{
    if nums.len() == 0 {
        return;
    }
    let parallel = coerce_parallelism(parallel);
    let ghost orig = nums@;
    let origin_len = pad_to_power_of_two(nums);
    let n = nums.len();
    let ghost pad = nums@;
    bitonic_sort_range(nums, 0, n, false, parallel);
    let ghost out = nums@;
    proof {
        assert(pad.subrange(0, n as int) == pad);
        assert(out.subrange(0, n as int) == out);
    }
    nums.truncate(origin_len);
    proof {
        lemma_drop_padding(orig, pad, out);
    }
}

} // verus!
