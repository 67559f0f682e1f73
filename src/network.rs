//! The bitonic comparison network shared by the bitonic engines: the shape of a
//! bitonic window, the half-cleaner step, and why a cascade of half-cleaners
//! sorts a bitonic window.
//!
//! Shapes are stated per threshold: a window is bitonic when, for every
//! threshold `t`, the positions holding a value `>= t` form one contiguous
//! block or the complement of one.

use vstd::prelude::*;
use crate::order::{in_order, sorted_range_dir};
use vstd::seq_lib::{group_to_multiset_ensures, lemma_multiset_commutative};

verus! {

/// `n` is a power of two.
pub open spec fn is_pow2(n: int) -> bool
    decreases n,
{
    if n <= 0 {
        false
    } else if n == 1 {
        true
    } else {
        n % 2 == 0 && is_pow2(n / 2)
    }
}

/// The value a half-cleaner keeps in the first half of a pair.
pub open spec fn lower(x: i32, y: i32, rev: bool) -> i32 {
    if in_order(x, y, rev) {
        x
    } else {
        y
    }
}

/// The value a half-cleaner moves to the second half of a pair.
pub open spec fn upper(x: i32, y: i32, rev: bool) -> i32 {
    if in_order(x, y, rev) {
        y
    } else {
        x
    }
}

/// Offset `k` of the window starting at `lo` holds a value of at least `t`.
pub open spec fn at_least(s: Seq<i32>, lo: int, t: int) -> spec_fn(int) -> bool {
    |k: int| s[lo + k] >= t
}

/// On offsets `0..n`, `f` is `v` exactly on `p..q`.
pub open spec fn shape_at(f: spec_fn(int) -> bool, n: int, p: int, q: int, v: bool) -> bool {
    &&& 0 <= p <= q <= n
    &&& forall|k: int| 0 <= k < n ==> #[trigger] f(k) == (v == (p <= k < q))
}

/// On offsets `0..n`, the positions where `f` holds form a block or the
/// complement of a block.
pub open spec fn block_shaped(f: spec_fn(int) -> bool, n: int) -> bool {
    exists|p: int, q: int, v: bool| #[trigger] shape_at(f, n, p, q, v)
}

/// The window `lo..lo + n` of `s` is bitonic.
pub open spec fn bitonic(s: Seq<i32>, lo: int, n: int) -> bool {
    forall|t: int| #[trigger] block_shaped(at_least(s, lo, t), n)
}

/// `new` is `old` after one half-cleaner step on the window `lo..lo + 2 * h`:
/// each pair `(i, i + h)` is put in order `rev`.
pub open spec fn half_cleaned(old: Seq<i32>, new: Seq<i32>, lo: int, h: int, rev: bool) -> bool {
    &&& new.len() == old.len()
    &&& forall|i: int| lo <= i < lo + h ==> #[trigger] new[i] == lower(old[i], old[i + h], rev)
    &&& forall|i: int|
        lo + h <= i < lo + 2 * h ==> #[trigger] new[i] == upper(old[i - h], old[i], rev)
}

/// Every value of the first half of the window `lo..lo + 2 * h` may stand
/// before every value of its second half.
pub open spec fn halves_separated(s: Seq<i32>, lo: int, h: int, rev: bool) -> bool {
    forall|i: int, j: int|
        lo <= i < lo + h && lo + h <= j < lo + 2 * h ==> in_order(#[trigger] s[i], #[trigger] s[j], rev)
}

/// The window `lo..hi` of `new` holds the values of the same window of `old`.
pub open spec fn window_perm(old: Seq<i32>, new: Seq<i32>, lo: int, hi: int) -> bool {
    new.subrange(lo, hi).to_multiset() == old.subrange(lo, hi).to_multiset()
}

/// `new` equals `old` outside the window `lo..hi`.
pub open spec fn unchanged_outside(old: Seq<i32>, new: Seq<i32>, lo: int, hi: int) -> bool {
    &&& new.len() == old.len()
    &&& forall|i: int| 0 <= i < old.len() && !(lo <= i < hi) ==> #[trigger] new[i] == old[i]
}

proof fn lemma_block_negated(f: spec_fn(int) -> bool, g: spec_fn(int) -> bool, n: int)
    requires
        block_shaped(f, n),
        forall|k: int| 0 <= k < n ==> #[trigger] g(k) == !f(k),
    ensures
        block_shaped(g, n),
{
    let (p, q, v) = choose|p: int, q: int, v: bool| #[trigger] shape_at(f, n, p, q, v);
    assert(shape_at(g, n, p, q, !v));
}

/// Half-cleaning a single block of ones: both halves stay block-shaped, and
/// either no pair holds two ones or every pair holds at least one.
proof fn lemma_block_halves_of_ones(
    a: spec_fn(int) -> bool,
    both: spec_fn(int) -> bool,
    either: spec_fn(int) -> bool,
    h: int,
    p: int,
    q: int,
)
    requires
        h >= 1,
        shape_at(a, 2 * h, p, q, true),
        forall|k: int| 0 <= k < h ==> #[trigger] both(k) == (a(k) && a(k + h)),
        forall|k: int| 0 <= k < h ==> #[trigger] either(k) == (a(k) || a(k + h)),
    ensures
        block_shaped(both, h),
        block_shaped(either, h),
        (forall|k: int| 0 <= k < h ==> !#[trigger] both(k)) || (forall|k: int|
            0 <= k < h ==> #[trigger] either(k)),
{
    assert forall|k: int| #![trigger both(k)] #![trigger either(k)] 0 <= k < h implies a(k) == (p <= k < q) && a(k + h) == (p <= k + h < q) by {
        assert(0 <= k + h < 2 * h);
    }
    if q - p <= h {
        assert forall|k: int| 0 <= k < h implies !#[trigger] both(k) by {}
        assert(shape_at(both, h, 0, 0, true));
        if q <= h {
            assert(shape_at(either, h, p, q, true));
        } else if p >= h {
            assert(shape_at(either, h, p - h, q - h, true));
        } else {
            assert(shape_at(either, h, q - h, p, false));
        }
    } else {
        assert forall|k: int| 0 <= k < h implies #[trigger] either(k) by {}
        assert(shape_at(either, h, 0, h, true));
        assert(shape_at(both, h, p, q - h, true));
    }
}

/// Half-cleaning any block-shaped window: both halves stay block-shaped, and
/// either no pair holds two ones or every pair holds at least one.
proof fn lemma_block_halves(
    a: spec_fn(int) -> bool,
    both: spec_fn(int) -> bool,
    either: spec_fn(int) -> bool,
    h: int,
)
    requires
        h >= 1,
        block_shaped(a, 2 * h),
        forall|k: int| 0 <= k < h ==> #[trigger] both(k) == (a(k) && a(k + h)),
        forall|k: int| 0 <= k < h ==> #[trigger] either(k) == (a(k) || a(k + h)),
    ensures
        block_shaped(both, h),
        block_shaped(either, h),
        (forall|k: int| 0 <= k < h ==> !#[trigger] both(k)) || (forall|k: int|
            0 <= k < h ==> #[trigger] either(k)),
{
    let (p, q, v) = choose|p: int, q: int, v: bool| #[trigger] shape_at(a, 2 * h, p, q, v);
    if v {
        lemma_block_halves_of_ones(a, both, either, h, p, q);
    } else {
        let c = |k: int| !a(k);
        let not_either = |k: int| !either(k);
        let not_both = |k: int| !both(k);
        assert(shape_at(c, 2 * h, p, q, true));
        lemma_block_halves_of_ones(c, not_either, not_both, h, p, q);
        lemma_block_negated(not_either, either, h);
        lemma_block_negated(not_both, both, h);
        if forall|k: int| 0 <= k < h ==> !#[trigger] not_either(k) {
            assert forall|k: int| 0 <= k < h implies #[trigger] either(k) by {
                assert(!not_either(k));
            }
        } else {
            assert forall|k: int| 0 <= k < h implies !#[trigger] both(k) by {
                assert(not_both(k));
            }
        }
    }
}

/// One threshold of a half-cleaner step on a bitonic window: both halves stay
/// block-shaped, and one half is clean (all below `t` in the half that takes
/// the smaller values, or all at least `t` in the other).
proof fn lemma_half_clean_threshold(old: Seq<i32>, new: Seq<i32>, lo: int, h: int, rev: bool, t: int)
    requires
        h >= 1,
        0 <= lo,
        lo + 2 * h <= old.len(),
        block_shaped(at_least(old, lo, t), 2 * h),
        half_cleaned(old, new, lo, h, rev),
    ensures
        block_shaped(at_least(new, lo, t), h),
        block_shaped(at_least(new, lo + h, t), h),
        !rev ==> (forall|k: int| 0 <= k < h ==> !#[trigger] at_least(new, lo, t)(k)) || (forall|k: int|
            0 <= k < h ==> #[trigger] at_least(new, lo + h, t)(k)),
        rev ==> (forall|k: int| 0 <= k < h ==> !#[trigger] at_least(new, lo + h, t)(k)) || (forall|k: int|
            0 <= k < h ==> #[trigger] at_least(new, lo, t)(k)),
{
    let a = at_least(old, lo, t);
    let first = at_least(new, lo, t);
    let second = at_least(new, lo + h, t);
    assert forall|k: int| 0 <= k < h implies #[trigger] first(k) == (if rev {
        a(k) || a(k + h)
    } else {
        a(k) && a(k + h)
    }) && second(k) == (if rev {
        a(k) && a(k + h)
    } else {
        a(k) || a(k + h)
    }) by {
        assert(new[lo + k] == lower(old[lo + k], old[lo + k + h], rev));
        assert(new[lo + h + k] == upper(old[lo + h + k - h], old[lo + h + k], rev));
        assert(lo + h + k - h == lo + k);
        assert(lo + k + h == lo + h + k);
    }
    if rev {
        lemma_block_halves(a, second, first, h);
    } else {
        lemma_block_halves(a, first, second, h);
    }
}

/// A half-cleaner step on a bitonic window leaves two bitonic halves, every
/// value of the first of which may stand before every value of the second.
pub proof fn lemma_half_clean(old: Seq<i32>, new: Seq<i32>, lo: int, h: int, rev: bool)
    requires
        h >= 1,
        0 <= lo,
        lo + 2 * h <= old.len(),
        bitonic(old, lo, 2 * h),
        half_cleaned(old, new, lo, h, rev),
    ensures
        bitonic(new, lo, h),
        bitonic(new, lo + h, h),
        halves_separated(new, lo, h, rev),
{
    assert forall|t: int|
        #[trigger] block_shaped(at_least(new, lo, t), h) && block_shaped(at_least(new, lo + h, t), h) by {
        assert(block_shaped(at_least(old, lo, t), 2 * h));
        lemma_half_clean_threshold(old, new, lo, h, rev, t);
    }
    assert forall|t: int| #[trigger] block_shaped(at_least(new, lo + h, t), h) by {
        assert(block_shaped(at_least(new, lo, t), h));
    }
    assert forall|i: int, j: int|
        lo <= i < lo + h && lo + h <= j < lo + 2 * h implies in_order(#[trigger] new[i], #[trigger] new[j], rev) by {
        if !in_order(new[i], new[j], rev) {
            let t: int = if rev { new[j] as int } else { new[i] as int };
            assert(block_shaped(at_least(old, lo, t), 2 * h));
            lemma_half_clean_threshold(old, new, lo, h, rev, t);
            assert(at_least(new, lo, t)(i - lo) == (new[lo + (i - lo)] >= t));
            assert(at_least(new, lo + h, t)(j - lo - h) == (new[lo + h + (j - lo - h)] >= t));
        }
    }
}

/// The window `lo..lo + n` of a sequence ordered in one direction splits at a
/// threshold: the offsets holding a value of at least `t` are a suffix
/// (ascending) or a prefix (descending).
proof fn lemma_threshold_split(s: Seq<i32>, lo: int, n: int, rev: bool, t: int) -> (m: int)
    requires
        0 <= lo,
        0 <= n,
        lo + n <= s.len(),
        sorted_range_dir(s, lo, lo + n, rev),
    ensures
        0 <= m <= n,
        forall|k: int| 0 <= k < n ==> #[trigger] at_least(s, lo, t)(k) == (if rev { k < m } else { m <= k }),
    decreases n,
{
    if n == 0 {
        0
    } else {
        let m0 = lemma_threshold_split(s, lo, n - 1, rev, t);
        let f = at_least(s, lo, t);
        assert(f(n - 1) == (s[lo + n - 1] >= t));
        if rev {
            if s[lo + n - 1] >= t {
                assert forall|k: int| 0 <= k < n - 1 implies #[trigger] f(k) by {
                    assert(in_order(s[lo + k], s[lo + n - 1], rev));
                }
                n
            } else {
                m0
            }
        } else {
            if s[lo + n - 1] >= t {
                m0
            } else {
                assert forall|k: int| 0 <= k < n - 1 implies !#[trigger] f(k) by {
                    assert(in_order(s[lo + k], s[lo + n - 1], rev));
                }
                n
            }
        }
    }
}

/// An ascending half followed by a descending half is a bitonic window.
pub proof fn lemma_ascending_descending_bitonic(s: Seq<i32>, lo: int, h: int)
    requires
        0 <= lo,
        0 <= h,
        lo + 2 * h <= s.len(),
        sorted_range_dir(s, lo, lo + h, false),
        sorted_range_dir(s, lo + h, lo + 2 * h, true),
    ensures
        bitonic(s, lo, 2 * h),
{
    assert forall|t: int| #[trigger] block_shaped(at_least(s, lo, t), 2 * h) by {
        let p = lemma_threshold_split(s, lo, h, false, t);
        let m = lemma_threshold_split(s, lo + h, h, true, t);
        let f = at_least(s, lo, t);
        assert forall|k: int| 0 <= k < 2 * h implies #[trigger] f(k) == (true == (p <= k < h + m)) by {
            if k >= h {
                assert(at_least(s, lo + h, t)(k - h) == (s[lo + h + (k - h)] >= t));
            } else {
                assert(at_least(s, lo, t)(k) == (s[lo + k] >= t));
            }
        }
        assert(shape_at(f, 2 * h, p, h + m, true));
    }
}

/// A value in the window `lo..hi` of `new` comes from the same window of `old`.
pub proof fn lemma_perm_member(old: Seq<i32>, new: Seq<i32>, lo: int, hi: int, i: int)
    requires
        0 <= lo <= i < hi <= old.len(),
        hi <= new.len(),
        window_perm(old, new, lo, hi),
    ensures
        exists|k: int| lo <= k < hi && old[k] == new[i],
{
    broadcast use group_to_multiset_ensures;

    let ns = new.subrange(lo, hi);
    let os = old.subrange(lo, hi);
    assert(ns[i - lo] == new[i]);
    assert(ns.contains(new[i]));
    assert(os.to_multiset().count(new[i]) > 0);
    assert(os.contains(new[i]));
    let k = choose|k: int| 0 <= k < os.len() && os[k] == new[i];
    assert(old[lo + k] == new[i]);
}

/// Permuting two adjacent windows permutes their union.
pub proof fn lemma_window_perm_join(old: Seq<i32>, new: Seq<i32>, lo: int, mid: int, hi: int)
    requires
        0 <= lo <= mid <= hi <= old.len(),
        hi <= new.len(),
        window_perm(old, new, lo, mid),
        window_perm(old, new, mid, hi),
    ensures
        window_perm(old, new, lo, hi),
{
    assert(old.subrange(lo, hi) =~= old.subrange(lo, mid) + old.subrange(mid, hi));
    assert(new.subrange(lo, hi) =~= new.subrange(lo, mid) + new.subrange(mid, hi));
    lemma_multiset_commutative(old.subrange(lo, mid), old.subrange(mid, hi));
    lemma_multiset_commutative(new.subrange(lo, mid), new.subrange(mid, hi));
}

/// Two ordered halves whose values were separated before they were each
/// permuted make an ordered window.
pub proof fn lemma_join_sorted_halves(mid: Seq<i32>, out: Seq<i32>, lo: int, h: int, rev: bool)
    requires
        0 <= lo,
        0 <= h,
        lo + 2 * h <= mid.len(),
        lo + 2 * h <= out.len(),
        halves_separated(mid, lo, h, rev),
        window_perm(mid, out, lo, lo + h),
        window_perm(mid, out, lo + h, lo + 2 * h),
        sorted_range_dir(out, lo, lo + h, rev),
        sorted_range_dir(out, lo + h, lo + 2 * h, rev),
    ensures
        sorted_range_dir(out, lo, lo + 2 * h, rev),
        window_perm(mid, out, lo, lo + 2 * h),
{
    assert forall|i: int, j: int| lo <= i < j < lo + 2 * h implies in_order(#[trigger] out[i], #[trigger] out[j], rev) by {
        if i < lo + h && j >= lo + h {
            lemma_perm_member(mid, out, lo, lo + h, i);
            lemma_perm_member(mid, out, lo + h, lo + 2 * h, j);
            let a = choose|k: int| lo <= k < lo + h && mid[k] == out[i];
            let b = choose|k: int| lo + h <= k < lo + 2 * h && mid[k] == out[j];
            assert(in_order(mid[a], mid[b], rev));
        }
    }
    lemma_window_perm_join(mid, out, lo, lo + h, lo + 2 * h);
}

/// Swapping two positions of a window permutes that window.
proof fn lemma_swap_window_perm(s: Seq<i32>, lo: int, hi: int, i: int, j: int)
    requires
        0 <= lo <= i < hi <= s.len(),
        lo <= j < hi,
        i != j,
    ensures
        window_perm(s, s.update(i, s[j]).update(j, s[i]), lo, hi),
{
    broadcast use vstd::seq_lib::to_multiset_update;
    broadcast use vstd::multiset::group_multiset_axioms;
    broadcast use group_to_multiset_ensures;

    let sub = s.subrange(lo, hi);
    let t = s.update(i, s[j]).update(j, s[i]);
    let u = sub.update(i - lo, s[j]);
    assert(t.subrange(lo, hi) =~= u.update(j - lo, s[i]));
    assert(u[j - lo] == s[j]);
    assert(sub[i - lo] == s[i]);
    assert(sub.contains(s[i]));
    let m = sub.to_multiset();
    assert(m.count(s[i]) > 0);
    assert(sub.to_multiset().insert(s[j]).remove(s[i]).insert(s[i]).remove(s[j]) =~= sub.to_multiset());
}

/// Puts each pair `(lo + k, lo + h + k)` with `k` in `a..b` in order `rev`,
/// leaving every other position alone: the share of one half-cleaner step that
/// one worker performs on the window `lo..lo + 2 * h`.
pub fn compare_swap_range(nums: &mut Vec<i32>, lo: usize, h: usize, a: usize, b: usize, rev: bool)
    requires
        a <= b <= h,
        lo + 2 * h <= old(nums)@.len(),
    ensures
        final(nums)@.len() == old(nums)@.len(),
        forall|i: int|
            lo + a <= i < lo + b ==> #[trigger] final(nums)@[i] == lower(old(nums)@[i], old(nums)@[i + h], rev),
        forall|i: int|
            lo + h + a <= i < lo + h + b ==> #[trigger] final(nums)@[i] == upper(old(nums)@[i - h], old(nums)@[i], rev),
        forall|i: int|
            0 <= i < old(nums)@.len() && !(lo + a <= i < lo + b) && !(lo + h + a <= i < lo + h + b)
                ==> #[trigger] final(nums)@[i] == old(nums)@[i],
        window_perm(old(nums)@, final(nums)@, lo as int, lo + 2 * h),
{
    let ghost orig = nums@;
    let mut k: usize = a;
    while k < b
        invariant
            a <= k <= b <= h,
            lo + 2 * h <= orig.len(),
            lo + 2 * h <= nums.len(),
            nums@.len() == orig.len(),
            forall|i: int| lo + a <= i < lo + k ==> #[trigger] nums@[i] == lower(orig[i], orig[i + h], rev),
            forall|i: int|
                lo + h + a <= i < lo + h + k ==> #[trigger] nums@[i] == upper(orig[i - h], orig[i], rev),
            forall|i: int|
                0 <= i < orig.len() && !(lo + a <= i < lo + k) && !(lo + h + a <= i < lo + h + k)
                    ==> #[trigger] nums@[i] == orig[i],
            window_perm(orig, nums@, lo as int, lo + 2 * h),
        decreases b - k,
    {
        let i = lo + k;
        let j = lo + h + k;
        let x = nums[i];
        let y = nums[j];
        assert(x == orig[i as int] && y == orig[j as int]);
        if (x > y) ^ rev {
            proof {
                lemma_swap_window_perm(nums@, lo as int, lo + 2 * h, i as int, j as int);
            }
            nums[i] = y;
            nums[j] = x;
        }
        assert(nums@[i as int] == lower(orig[i as int], orig[i + h], rev));
        assert(nums@[j as int] == upper(orig[j - h], orig[j as int], rev));
        k += 1;
    }
}

/// Bitonicity of a window depends on that window alone.
pub proof fn lemma_bitonic_frame(s: Seq<i32>, u: Seq<i32>, lo: int, n: int)
    requires
        bitonic(s, lo, n),
        forall|i: int| lo <= i < lo + n ==> #[trigger] u[i] == s[i],
    ensures
        bitonic(u, lo, n),
{
    assert forall|t: int| #[trigger] block_shaped(at_least(u, lo, t), n) by {
        assert(block_shaped(at_least(s, lo, t), n));
        let (p, q, v) = choose|p: int, q: int, v: bool| #[trigger] shape_at(at_least(s, lo, t), n, p, q, v);
        assert forall|k: int| 0 <= k < n implies #[trigger] at_least(u, lo, t)(k) == (v == (p <= k < q)) by {
            assert(u[lo + k] == s[lo + k]);
            assert(at_least(s, lo, t)(k) == (s[lo + k] >= t));
        }
        assert(shape_at(at_least(u, lo, t), n, p, q, v));
    }
}

/// Working on the first half of a window and then on its second half: what
/// each step permutes, the two steps together permute, and each step leaves
/// the other half as it found it.
pub proof fn lemma_two_halves(s0: Seq<i32>, s1: Seq<i32>, s2: Seq<i32>, lo: int, h: int, rev: bool)
    requires
        0 <= lo,
        0 <= h,
        lo + 2 * h <= s0.len(),
        unchanged_outside(s0, s1, lo, lo + h),
        window_perm(s0, s1, lo, lo + h),
        unchanged_outside(s1, s2, lo + h, lo + 2 * h),
        window_perm(s1, s2, lo + h, lo + 2 * h),
    ensures
        unchanged_outside(s0, s2, lo, lo + 2 * h),
        window_perm(s0, s2, lo, lo + h),
        window_perm(s0, s2, lo + h, lo + 2 * h),
        window_perm(s0, s2, lo, lo + 2 * h),
        sorted_range_dir(s1, lo, lo + h, rev) ==> sorted_range_dir(s2, lo, lo + h, rev),
        bitonic(s0, lo + h, h) ==> bitonic(s1, lo + h, h),
{
    assert(s2.subrange(lo, lo + h) =~= s1.subrange(lo, lo + h));
    assert(s1.subrange(lo + h, lo + 2 * h) =~= s0.subrange(lo + h, lo + 2 * h));
    lemma_window_perm_join(s0, s2, lo, lo + h, lo + 2 * h);
    if bitonic(s0, lo + h, h) {
        lemma_bitonic_frame(s0, s1, lo + h, h);
    }
    if sorted_range_dir(s1, lo, lo + h, rev) {
        assert forall|i: int, j: int| lo <= i < j < lo + h implies in_order(#[trigger] s2[i], #[trigger] s2[j], rev) by {
            assert(s2[i] == s1[i] && s2[j] == s1[j]);
        }
    }
}

/// Permuting one window and leaving the rest alone permutes the whole sequence.
pub proof fn lemma_window_perm_whole(old: Seq<i32>, new: Seq<i32>, lo: int, hi: int)
    requires
        0 <= lo <= hi <= old.len(),
        window_perm(old, new, lo, hi),
        unchanged_outside(old, new, lo, hi),
    ensures
        old.to_multiset() == new.to_multiset(),
{
    let n = old.len() as int;
    assert(old =~= old.subrange(0, lo) + old.subrange(lo, hi) + old.subrange(hi, n));
    assert(new =~= new.subrange(0, lo) + new.subrange(lo, hi) + new.subrange(hi, n));
    assert(old.subrange(0, lo) =~= new.subrange(0, lo));
    assert(old.subrange(hi, n) =~= new.subrange(hi, n));
    lemma_multiset_commutative(old.subrange(0, lo) + old.subrange(lo, hi), old.subrange(hi, n));
    lemma_multiset_commutative(new.subrange(0, lo) + new.subrange(lo, hi), new.subrange(hi, n));
    lemma_multiset_commutative(old.subrange(0, lo), old.subrange(lo, hi));
    lemma_multiset_commutative(new.subrange(0, lo), new.subrange(lo, hi));
}

/// Order within a window depends on that window alone.
pub proof fn lemma_sorted_frame(s: Seq<i32>, u: Seq<i32>, lo: int, hi: int, rev: bool)
    requires
        sorted_range_dir(s, lo, hi, rev),
        forall|i: int| lo <= i < hi ==> #[trigger] u[i] == s[i],
    ensures
        sorted_range_dir(u, lo, hi, rev),
{
    assert forall|i: int, j: int| lo <= i < j < hi implies in_order(#[trigger] u[i], #[trigger] u[j], rev) by {
        assert(u[i] == s[i] && u[j] == s[j]);
    }
}

} // verus!
