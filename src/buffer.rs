//! The pipeline every engine shares: pad the buffer with its own maximum up to
//! a power-of-two length, and drop the padding again once the buffer is sorted.
//! Also the coercion of a requested parallelism degree to a power of two.

use vstd::prelude::*;
use vstd::seq_lib::{group_to_multiset_ensures, lemma_multiset_commutative};
use crate::order::{sorted, same_values};
use crate::network::is_pow2;

verus! {

/// The largest value of a non-empty sequence.
pub open spec fn seq_max(s: Seq<i32>) -> i32
    recommends
        s.len() > 0,
    decreases s.len(),
{
    if s.len() <= 1 {
        s[0]
    } else {
        let m = seq_max(s.drop_last());
        if m >= s.last() {
            m
        } else {
            s.last()
        }
    }
}

/// The largest value of a sequence is one of its values and bounds all of them.
pub proof fn lemma_seq_max(s: Seq<i32>)
    requires
        s.len() > 0,
    ensures
        exists|j: int| 0 <= j < s.len() && s[j] == seq_max(s),
        forall|j: int| 0 <= j < s.len() ==> #[trigger] s[j] <= seq_max(s),
    decreases s.len(),
{
    if s.len() > 1 {
        lemma_seq_max(s.drop_last());
        assert forall|j: int| 0 <= j < s.len() implies #[trigger] s[j] <= seq_max(s) by {
            if j < s.len() - 1 {
                assert(s.drop_last()[j] == s[j]);
            }
        }
        let m = seq_max(s.drop_last());
        if m >= s.last() {
            let d = s.drop_last();
            let j = choose|j: int| 0 <= j < d.len() && d[j] == m;
            assert(d[j] == s[j]);
            assert(0 <= j < s.len() && s[j] == seq_max(s));
        } else {
            assert(s[s.len() - 1] == seq_max(s));
        }
    } else {
        assert(s[0] == seq_max(s));
    }
}

/// The padded form of a buffer: its values, then copies of its maximum up to
/// the smallest power-of-two length that holds them.
pub open spec fn padded(old: Seq<i32>, new: Seq<i32>) -> bool {
    &&& is_pow2(new.len() as int)
    &&& old.len() <= new.len() < 2 * old.len()
    &&& new.subrange(0, old.len() as int) == old
    &&& forall|i: int| old.len() <= i < new.len() ==> #[trigger] new[i] == seq_max(old)
}

/// Extends a non-empty buffer with copies of its largest value up to the
/// next power-of-two length, and returns its original length. A buffer whose
/// length is already a power of two is left as it is.
pub fn pad_to_power_of_two(nums: &mut Vec<i32>) -> (origin_len: usize)
    requires
        0 < old(nums)@.len() <= usize::MAX / 2,
    ensures
        origin_len == old(nums)@.len(),
        padded(old(nums)@, final(nums)@),
{
    let origin_len = nums.len();
    let mut max = nums[0];
    let mut i: usize = 1;
    while i < origin_len
        invariant
            1 <= i <= origin_len,
            origin_len == nums@.len(),
            max == seq_max(nums@.subrange(0, i as int)),
        decreases origin_len - i,
    {
        assert(nums@.subrange(0, i + 1).drop_last() == nums@.subrange(0, i as int));
        if nums[i] > max {
            max = nums[i];
        }
        i += 1;
    }
    assert(nums@.subrange(0, origin_len as int) == nums@);
    let mut target: usize = 1;
    while target < origin_len
        invariant
            1 <= target,
            target < 2 * origin_len,
            origin_len <= usize::MAX / 2,
            is_pow2(target as int),
        decreases 2 * origin_len - target,
    {
        assert(is_pow2((target * 2) as int)) by {
            assert((target * 2) as int / 2 == target);
        }
        target = target * 2;
    }
    let ghost orig = nums@;
    while nums.len() < target
        invariant
            origin_len == orig.len(),
            origin_len <= nums@.len() <= target,
            nums@.subrange(0, origin_len as int) == orig,
            forall|i: int| origin_len <= i < nums@.len() ==> #[trigger] nums@[i] == max,
        decreases target - nums@.len(),
    {
        nums.push(max);
        assert(nums@.subrange(0, origin_len as int) =~= orig);
    }
    origin_len
}

proof fn lemma_count_le_len(s: Seq<i32>, x: i32)
    ensures
        s.to_multiset().count(x) <= s.len(),
        (forall|i: int| 0 <= i < s.len() ==> #[trigger] s[i] == x) ==> s.to_multiset().count(x) == s.len(),
    decreases s.len(),
{
    broadcast use group_to_multiset_ensures;
    broadcast use vstd::seq_lib::to_multiset_build;
    broadcast use vstd::multiset::group_multiset_axioms;

    if s.len() > 0 {
        let d = s.drop_last();
        lemma_count_le_len(d, x);
        assert(s == d.push(s.last()));
        if forall|i: int| 0 <= i < s.len() ==> #[trigger] s[i] == x {
            assert forall|i: int| 0 <= i < d.len() implies #[trigger] d[i] == x by {
                assert(s[i] == x);
            }
        }
    } else {
        assert(s.to_multiset() =~= vstd::multiset::Multiset::empty());
    }
}

/// Sorting a padded buffer pushes every copy of the padding value to the
/// tail, so dropping the tail leaves exactly the original values, in order.
pub proof fn lemma_drop_padding(old: Seq<i32>, pad: Seq<i32>, out: Seq<i32>)
    requires
        old.len() > 0,
        padded(old, pad),
        sorted(out),
        same_values(pad, out),
    ensures
        sorted(out.subrange(0, old.len() as int)),
        same_values(old, out.subrange(0, old.len() as int)),
{
    broadcast use group_to_multiset_ensures;
    broadcast use vstd::multiset::group_multiset_axioms;

    let r = old.len() as int;
    let n = pad.len() as int;
    let m = seq_max(old);
    lemma_seq_max(old);
    assert(out.len() == n) by {
        vstd::seq_lib::to_multiset_len(pad);
        vstd::seq_lib::to_multiset_len(out);
    }
    // every value is at most the maximum
    assert forall|i: int| 0 <= i < n implies #[trigger] out[i] <= m by {
        assert(out.contains(out[i]));
        assert(out.to_multiset().count(out[i]) > 0);
        assert(pad.contains(out[i]));
        let k = choose|k: int| 0 <= k < n && pad[k] == out[i];
        if k < r {
            assert(pad.subrange(0, r)[k] == pad[k]);
        }
    }
    // the maximum occurs more often than there are padding positions
    let tail = pad.subrange(r, n);
    assert(pad =~= old + tail);
    lemma_multiset_commutative(old, tail);
    lemma_count_le_len(tail, m);
    assert(old.contains(m));
    assert(pad.to_multiset().count(m) >= n - r + 1);
    // so the last `n - r` positions of the sorted output all hold it
    assert forall|i: int| r <= i < n implies #[trigger] out[i] == m by {
        if out[i] < m {
            let lo_part = out.subrange(0, i + 1);
            let hi_part = out.subrange(i + 1, n);
            assert(out =~= lo_part + hi_part);
            lemma_multiset_commutative(lo_part, hi_part);
            lemma_count_le_len(hi_part, m);
            if lo_part.to_multiset().count(m) > 0 {
                assert(lo_part.contains(m));
                let k = choose|k: int| 0 <= k < i + 1 && lo_part[k] == m;
                assert(out[k] <= out[i]);
            }
        }
    }
    let head = out.subrange(0, r);
    let rest = out.subrange(r, n);
    assert(out =~= head + rest);
    assert(rest =~= tail);
    lemma_multiset_commutative(head, rest);
    assert(head.to_multiset() =~= old.to_multiset()) by {
        assert forall|v: i32| head.to_multiset().count(v) == old.to_multiset().count(v) by {
            assert(out.to_multiset().count(v) == head.to_multiset().count(v) + tail.to_multiset().count(v));
            assert(pad.to_multiset().count(v) == old.to_multiset().count(v) + tail.to_multiset().count(v));
        }
    }
}

/// The parallelism degree actually used for a requested one: the largest power
/// of two not above the request, and 1 for a request of 0 or 1.
pub fn coerce_parallelism(parallel: u8) -> (r: u8)
    ensures
        is_pow2(r as int),
        r >= 1,
        parallel <= 1 ==> r == 1,
        parallel >= 1 ==> r <= parallel < 2 * r,
{
    let mut r: u8 = 1;
    while r <= parallel / 2
        invariant
            1 <= r,
            parallel <= 1 ==> r == 1,
            parallel >= 1 ==> r <= parallel,
            is_pow2(r as int),
        decreases parallel - r,
    {
        assert(is_pow2((r * 2) as int)) by {
            assert((r * 2) as int / 2 == r);
        }
        r = r * 2;
    }
    r
}

/// Of two powers of two, the smaller one doubled is at most the larger.
pub proof fn lemma_pow2_lt(a: int, b: int)
    requires
        is_pow2(a),
        is_pow2(b),
        a < b,
    ensures
        2 * a <= b,
    decreases b,
{
    if a > 1 {
        lemma_pow2_lt(a / 2, b / 2);
    }
}

/// Splits `items` units of work among at most `parallel` workers: as many
/// workers as allowed, each with the same number of units, and fewer workers,
/// each with one unit, when there are fewer units than workers. The workers
/// together cover every unit exactly once.
pub fn split_work(items: usize, parallel: usize) -> (r: (usize, usize))
    requires
        is_pow2(items as int),
        is_pow2(parallel as int),
    ensures
        r.0 == if parallel <= items { parallel } else { items },
        r.0 * r.1 == items,
        r.1 >= 1,
        is_pow2(r.1 as int),
{
    let mut workers: usize = 1;
    let mut chunk: usize = items;
    while workers < parallel && chunk > 1
        invariant
            workers * chunk == items,
            is_pow2(workers as int),
            is_pow2(chunk as int),
            is_pow2(parallel as int),
            is_pow2(items as int),
            workers <= parallel,
        decreases chunk,
    {
        proof {
            lemma_pow2_lt(workers as int, parallel as int);
            let c2 = chunk as int / 2;
            assert(chunk as int == 2 * c2);
            assert((2 * workers) * c2 == workers * chunk) by (nonlinear_arith)
                requires
                    chunk as int == 2 * c2,
            ;
        }
        workers = workers * 2;
        chunk = chunk / 2;
    }
    proof {
        if chunk == 1 {
            assert(workers == items);
        } else {
            assert(workers == parallel);
            assert(parallel <= items) by (nonlinear_arith)
                requires
                    workers * chunk == items,
                    chunk >= 2,
                    workers == parallel,
            ;
        }
        if workers == items && workers < parallel {
            assert(items < parallel);
        }
    }
    (workers, chunk)
}

} // verus!
