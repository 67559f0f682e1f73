//! The order that every engine produces, and the laws that tie engines together.

use vstd::prelude::*;
use vstd::relations::{sorted_by, total_ordering};
use vstd::seq_lib::lemma_sorted_unique;

verus! {

/// `a` may stand before `b` in a sequence ordered ascending (`rev == false`)
/// or descending (`rev == true`).
pub open spec fn in_order(a: i32, b: i32, rev: bool) -> bool {
    if rev {
        a >= b
    } else {
        a <= b
    }
}

/// Positions `lo..hi` of `s` are ordered in direction `rev`.
pub open spec fn sorted_range_dir(s: Seq<i32>, lo: int, hi: int, rev: bool) -> bool {
    forall|i: int, j: int| lo <= i < j < hi ==> in_order(#[trigger] s[i], #[trigger] s[j], rev)
}

/// `s` is non-decreasing.
pub open spec fn sorted(s: Seq<i32>) -> bool {
    forall|i: int, j: int| 0 <= i < j < s.len() ==> #[trigger] s[i] <= #[trigger] s[j]
}

/// `t` holds the same values as `s`, each as often: what every engine leaves in
/// the buffer is a permutation of what it was given.
pub open spec fn same_values(s: Seq<i32>, t: Seq<i32>) -> bool {
    s.to_multiset() == t.to_multiset()
}

/// The sorted arrangement of a buffer is unique: two non-decreasing sequences
/// holding the same values are equal. Hence every engine, at every parallelism
/// degree, leaves the same sequence for the same input.
pub proof fn lemma_sorted_permutation_unique(a: Seq<i32>, b: Seq<i32>)
    requires
        sorted(a),
        sorted(b),
        same_values(a, b),
    ensures
        a == b,
{
    let leq = |x: i32, y: i32| x <= y;
    assert(total_ordering(leq));
    assert(sorted_by(a, leq)) by {
        assert forall|i: int, j: int| 0 <= i < j < a.len() implies #[trigger] leq(a[i], a[j]) by {}
    }
    assert(sorted_by(b, leq)) by {
        assert forall|i: int, j: int| 0 <= i < j < b.len() implies #[trigger] leq(b[i], b[j]) by {}
    }
    lemma_sorted_unique(a, b, leq);
}

/// The outcome of sorting does not depend on how the work was divided: two
/// outcomes that are each a non-decreasing permutation of the same input, as
/// every engine guarantees at every parallelism degree, are the same sequence.
pub proof fn lemma_outcome_independent_of_parallelism(input: Seq<i32>, out_p: Seq<i32>, out_q: Seq<i32>)
    requires
        sorted(out_p),
        same_values(input, out_p),
        sorted(out_q),
        same_values(input, out_q),
    ensures
        out_p == out_q,
{
    lemma_sorted_permutation_unique(out_p, out_q);
}

/// Sorting is idempotent: a buffer that is already non-decreasing is the only
/// sorted permutation of itself, so an engine leaves it exactly as it was.
pub proof fn lemma_sorting_sorted_is_identity(s: Seq<i32>, out: Seq<i32>)
    requires
        sorted(s),
        sorted(out),
        same_values(s, out),
    ensures
        out == s,
{
    lemma_sorted_permutation_unique(s, out);
}

} // verus!
