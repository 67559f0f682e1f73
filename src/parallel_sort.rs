//! The hybrid sorter: the buffer is cut into one contiguous chunk per worker,
//! each chunk is sorted on its own, and adjacent sorted runs are then merged
//! pairwise, round after round, halving the number of workers and doubling the
//! run length each round, until one run spans the buffer. The chunks of one
//! round are disjoint, so its workers may run in any order; here they run one
//! after another.

use vstd::prelude::*;
use vstd::seq_lib::{group_to_multiset_ensures, lemma_multiset_commutative};
use crate::order::{sorted, sorted_range_dir, same_values};
use crate::buffer::{pad_to_power_of_two, lemma_drop_padding, coerce_parallelism, split_work};
use crate::network::{
    is_pow2, window_perm, unchanged_outside, lemma_window_perm_whole, lemma_sorted_frame,
};

verus! {

/// Run `k` of length `size` (positions `k * size..k * size + size`) is ascending.
pub open spec fn run_sorted(s: Seq<i32>, size: int, k: int) -> bool {
    sorted_range_dir(s, k * size, k * size + size, false)
}

/// Relies on `slice::sort_unstable`, which sorts a slice ascending in place:
/// applied to positions `lo..hi` of the buffer, it orders them and keeps their
/// values, and leaves every other position alone.
#[verifier::external_body]
fn sort_chunk(nums: &mut Vec<i32>, lo: usize, hi: usize)
    requires
        lo <= hi <= old(nums).len(),
    ensures
        unchanged_outside(old(nums)@, final(nums)@, lo as int, hi as int),
        window_perm(old(nums)@, final(nums)@, lo as int, hi as int),
        sorted_range_dir(final(nums)@, lo as int, hi as int, false),
{
    nums[lo..hi].sort_unstable();
}

/// Merges the ascending runs `lo..lo + half` and `lo + half..lo + 2 * half`
/// into one ascending run: a two-pointer merge into a temporary buffer the
/// size of the window, copied back over the window.
pub fn merge_adjacent(nums: &mut Vec<i32>, lo: usize, half: usize)
    requires
        lo + 2 * half <= old(nums).len(),
        sorted_range_dir(old(nums)@, lo as int, lo + half, false),
        sorted_range_dir(old(nums)@, lo + half, lo + 2 * half, false),
    ensures
        unchanged_outside(old(nums)@, final(nums)@, lo as int, lo + 2 * half),
        window_perm(old(nums)@, final(nums)@, lo as int, lo + 2 * half),
        sorted_range_dir(final(nums)@, lo as int, lo + 2 * half, false),
{
    broadcast use group_to_multiset_ensures;
    broadcast use vstd::seq_lib::to_multiset_build;
    broadcast use vstd::multiset::group_multiset_axioms;

    let ghost s = nums@;
    let mid = lo + half;
    let end = lo + 2 * half;
    let mut tmp: Vec<i32> = Vec::with_capacity(2 * half);
    let mut l: usize = lo;
    let mut r: usize = mid;
    while l < mid || r < end
        invariant
            lo <= l <= mid <= r <= end,
            mid == lo + half,
            end == lo + 2 * half,
            end <= nums.len(),
            nums@ == s,
            sorted_range_dir(s, lo as int, mid as int, false),
            sorted_range_dir(s, mid as int, end as int, false),
            tmp@.len() == (l - lo) + (r - mid),
            tmp@.to_multiset() == s.subrange(lo as int, l as int).to_multiset().add(
                s.subrange(mid as int, r as int).to_multiset(),
            ),
            sorted_range_dir(tmp@, 0, tmp@.len() as int, false),
            forall|k: int| 0 <= k < tmp@.len() && l < mid ==> #[trigger] tmp@[k] <= s[l as int],
            forall|k: int| 0 <= k < tmp@.len() && r < end ==> #[trigger] tmp@[k] <= s[r as int],
        decreases (mid - l) + (end - r),
    {
        let ghost t0 = tmp@;
        if r == end || (l < mid && nums[l] <= nums[r]) {
            let x = nums[l];
            tmp.push(x);
            proof {
                assert(s.subrange(lo as int, l + 1) =~= s.subrange(lo as int, l as int).push(x));
                assert(tmp@ == t0.push(x));
                vstd::seq_lib::to_multiset_build(t0, x);
                vstd::seq_lib::to_multiset_build(s.subrange(lo as int, l as int), x);
                assert(tmp@.to_multiset() == t0.to_multiset().insert(x));
                assert(s.subrange(lo as int, l + 1).to_multiset() == s.subrange(lo as int, l as int).to_multiset().insert(x));
                assert(s.subrange(lo as int, l as int).to_multiset().insert(x).add(
                    s.subrange(mid as int, r as int).to_multiset(),
                ) =~= s.subrange(lo as int, l as int).to_multiset().add(
                    s.subrange(mid as int, r as int).to_multiset(),
                ).insert(x));
                assert forall|k: int| 0 <= k < tmp@.len() && l + 1 < mid implies #[trigger] tmp@[k] <= s[l + 1] by {
                    assert(s[l as int] <= s[l + 1]);
                    if k < t0.len() {
                        assert(t0[k] == tmp@[k]);
                    }
                }
                assert forall|k: int| 0 <= k < tmp@.len() && r < end implies #[trigger] tmp@[k] <= s[r as int] by {
                    if k < t0.len() {
                        assert(t0[k] == tmp@[k]);
                    }
                }
                assert forall|i: int, j: int| 0 <= i < j < tmp@.len() implies #[trigger] tmp@[i] <= #[trigger] tmp@[j] by {
                    if j < t0.len() {
                        assert(t0[i] <= t0[j]);
                    } else {
                        assert(t0[i] <= s[l as int]);
                    }
                }
            }
            l = l + 1;
        } else {
            let x = nums[r];
            tmp.push(x);
            proof {
                assert(s.subrange(mid as int, r + 1) =~= s.subrange(mid as int, r as int).push(x));
                assert(tmp@ == t0.push(x));
                vstd::seq_lib::to_multiset_build(t0, x);
                vstd::seq_lib::to_multiset_build(s.subrange(mid as int, r as int), x);
                assert(tmp@.to_multiset() == t0.to_multiset().insert(x));
                assert(s.subrange(mid as int, r + 1).to_multiset() == s.subrange(mid as int, r as int).to_multiset().insert(x));
                assert(s.subrange(lo as int, l as int).to_multiset().add(
                    s.subrange(mid as int, r as int).to_multiset().insert(x),
                ) =~= s.subrange(lo as int, l as int).to_multiset().add(
                    s.subrange(mid as int, r as int).to_multiset(),
                ).insert(x));
                assert forall|k: int| 0 <= k < tmp@.len() && r + 1 < end implies #[trigger] tmp@[k] <= s[r + 1] by {
                    assert(s[r as int] <= s[r + 1]);
                    if k < t0.len() {
                        assert(t0[k] == tmp@[k]);
                    }
                }
                assert forall|k: int| 0 <= k < tmp@.len() && l < mid implies #[trigger] tmp@[k] <= s[l as int] by {
                    if k < t0.len() {
                        assert(t0[k] == tmp@[k]);
                    }
                }
                assert forall|i: int, j: int| 0 <= i < j < tmp@.len() implies #[trigger] tmp@[i] <= #[trigger] tmp@[j] by {
                    if j < t0.len() {
                        assert(t0[i] <= t0[j]);
                    } else {
                        assert(t0[i] <= s[r as int]);
                    }
                }
            }
            r = r + 1;
        }
    }
    proof {
        assert(s.subrange(lo as int, end as int) =~= s.subrange(lo as int, mid as int) + s.subrange(mid as int, end as int));
        lemma_multiset_commutative(s.subrange(lo as int, mid as int), s.subrange(mid as int, end as int));
    }
    let mut k: usize = 0;
    while k < 2 * half
        invariant
            end == lo + 2 * half,
            end <= nums.len(),
            tmp@.len() == 2 * half,
            k <= 2 * half,
            nums@.len() == s.len(),
            forall|i: int| lo <= i < lo + k ==> #[trigger] nums@[i] == tmp@[i - lo],
            forall|i: int| 0 <= i < s.len() && !(lo <= i < lo + k) ==> #[trigger] nums@[i] == s[i],
        decreases 2 * half - k,
    {
        nums[lo + k] = tmp[k];
        k = k + 1;
    }
    proof {
        assert(nums@.subrange(lo as int, end as int) =~= tmp@);
        assert forall|i: int, j: int| lo <= i < j < end implies #[trigger] nums@[i] <= #[trigger] nums@[j] by {
            assert(tmp@[i - lo] <= tmp@[j - lo]);
        }
    }
}

/// Sorts `nums` ascending by sorting one chunk per worker and then merging
/// adjacent runs pairwise, with at most `parallel` workers (coerced to the
/// largest power of two not above it, and to 1 for 0). The result does not
/// depend on `parallel`. The buffer is padded with its maximum to a
/// power-of-two length while it is sorted and comes back with its original
/// length.
pub fn parallel_sort(nums: &mut Vec<i32>, parallel: u8)
    requires
        old(nums)@.len() <= usize::MAX / 2,
    ensures
        final(nums)@.len() == old(nums)@.len(),
        sorted(final(nums)@),
        same_values(old(nums)@, final(nums)@),
{
    if nums.len() == 0 {
        return;
    }
    let ghost orig = nums@;
    let origin_len = pad_to_power_of_two(nums);
    let len = nums.len();
    let ghost pad = nums@;
    let parallel = coerce_parallelism(parallel);
    let (mut workers, mut size) = split_work(len, parallel as usize);
    proof {
        assert(is_pow2(workers as int));
    }
    // every worker sorts its own chunk
    let mut i: usize = 0;
    let mut start: usize = 0;
    while i < workers
        invariant
            workers * size == len,
            len == nums.len(),
            i <= workers,
            start == i * size,
            same_values(pad, nums@),
            forall|k: int| 0 <= k < i ==> #[trigger] run_sorted(nums@, size as int, k),
        decreases workers - i,
    {
        proof {
            assert((i + 1) * size == i * size + size) by (nonlinear_arith);
            assert((i + 1) * size <= workers * size) by (nonlinear_arith)
                requires
                    i + 1 <= workers,
            ;
        }
        let ghost before = nums@;
        sort_chunk(nums, start, start + size);
        proof {
            lemma_window_perm_whole(before, nums@, start as int, start + size);
            assert forall|k: int| 0 <= k < i + 1 implies #[trigger] run_sorted(nums@, size as int, k) by {
                if k < i {
                    assert(k * size + size <= i * size) by (nonlinear_arith)
                        requires
                            k < i,
                            size >= 0,
                    ;
                    assert(k * size >= 0) by (nonlinear_arith)
                        requires
                            k >= 0,
                            size >= 0,
                    ;
                    assert(run_sorted(before, size as int, k));
                    lemma_sorted_frame(before, nums@, k * size, k * size + size, false);
                }
            }
        }
        start = start + size;
        i = i + 1;
    }
    // adjacent runs are merged pairwise until one run is left
    while workers > 1
        invariant
            workers * size == len,
            len == nums.len(),
            workers >= 1,
            size >= 1,
            is_pow2(workers as int),
            same_values(pad, nums@),
            forall|k: int| 0 <= k < workers ==> #[trigger] run_sorted(nums@, size as int, k),
        decreases workers,
    {
        let ghost half = size as int;
        let ghost pairs_before = workers as int;
        proof {
            assert(size * 2 <= len) by (nonlinear_arith)
                requires
                    workers * size == len,
                    workers >= 2,
                    size >= 1,
            ;
        }
        let half_size = size;
        workers = workers / 2;
        size = size * 2;
        proof {
            assert(workers * size == len) by (nonlinear_arith)
                requires
                    pairs_before == 2 * workers,
                    pairs_before * half == len,
                    size == 2 * half,
            ;
        }
        let mut i: usize = 0;
        let mut start: usize = 0;
        while i < workers
            invariant
                workers * size == len,
                size == 2 * half_size,
                len == nums.len(),
                i <= workers,
                start == i * size,
                same_values(pad, nums@),
                forall|k: int| 0 <= k < i ==> #[trigger] run_sorted(nums@, size as int, k),
                forall|k: int|
                    2 * i <= k < 2 * workers ==> #[trigger] run_sorted(nums@, half_size as int, k),
            decreases workers - i,
        {
            proof {
                assert((i + 1) * size == i * size + size) by (nonlinear_arith);
                assert((i + 1) * size <= workers * size) by (nonlinear_arith)
                    requires
                        i + 1 <= workers,
                ;
                assert((2 * i) * half_size == start) by (nonlinear_arith)
                    requires
                        start == i * size,
                        size == 2 * half_size,
                ;
                assert((2 * i + 1) * half_size == start + half_size) by (nonlinear_arith)
                    requires
                        start == i * size,
                        size == 2 * half_size,
                ;
                assert(run_sorted(nums@, half_size as int, 2 * i));
                assert(run_sorted(nums@, half_size as int, 2 * i + 1));
            }
            let ghost before = nums@;
            merge_adjacent(nums, start, half_size);
            proof {
                lemma_window_perm_whole(before, nums@, start as int, start + size);
                assert forall|k: int| 0 <= k < i + 1 implies #[trigger] run_sorted(nums@, size as int, k) by {
                    if k < i {
                        assert(k * size + size <= i * size) by (nonlinear_arith)
                            requires
                                k < i,
                                size >= 0,
                        ;
                        assert(k * size >= 0) by (nonlinear_arith)
                            requires
                                k >= 0,
                                size >= 0,
                        ;
                        assert(run_sorted(before, size as int, k));
                        lemma_sorted_frame(before, nums@, k * size, k * size + size, false);
                    }
                }
                assert forall|k: int| 2 * (i + 1) <= k < 2 * workers implies #[trigger] run_sorted(nums@, half_size as int, k) by {
                    assert(k * half_size >= start + size) by (nonlinear_arith)
                        requires
                            k >= 2 * i + 2,
                            half_size >= 0,
                            start == i * size,
                            size == 2 * half_size,
                    ;
                    assert(k * half_size + half_size <= len) by (nonlinear_arith)
                        requires
                            k < 2 * workers,
                            half_size >= 0,
                            workers * size == len,
                            size == 2 * half_size,
                    ;
                    assert(run_sorted(before, half_size as int, k));
                    lemma_sorted_frame(before, nums@, k * half_size, k * half_size + half_size, false);
                }
            }
            start = start + size;
            i = i + 1;
        }
    }
    assert(run_sorted(nums@, size as int, 0));
    let ghost out = nums@;
    proof {
        assert(out.subrange(0, len as int) == out);
    }
    nums.truncate(origin_len);
    proof {
        lemma_drop_padding(orig, pad, out);
    }
}

} // verus!
