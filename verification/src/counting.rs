//! Facts about sequences of distinct indices that several modules lean on.

use vstd::prelude::*;
use vstd::set_lib::{lemma_int_range, lemma_len_subset, set_int_range};

verus! {

/// A sequence of distinct indices below `n` holds at most `n` of them, and
/// holds every one of them once it has `n`.
pub proof fn lemma_distinct_indices(s: Seq<int>, n: int)
    requires
        0 <= n,
        s.no_duplicates(),
        forall|i: int| 0 <= i < s.len() ==> 0 <= #[trigger] s[i] < n,
    ensures
        s.len() <= n,
        s.len() == n ==> forall|k: int| 0 <= k < n ==> s.contains(k),
        (forall|k: int| 0 <= k < n ==> s.contains(k)) ==> s.len() == n,
{
    lemma_int_range(0, n);
    s.unique_seq_to_set();
    assert(s.to_set().subset_of(set_int_range(0, n))) by {
        assert forall|x: int| s.to_set().contains(x) implies set_int_range(0, n).contains(x) by {
            let i = s.index_of(x);
            assert(s[i] == x);
        }
    }
    lemma_len_subset(s.to_set(), set_int_range(0, n));
    if s.len() == n {
        vstd::set_lib::lemma_subset_equality(s.to_set(), set_int_range(0, n));
        assert forall|k: int| 0 <= k < n implies s.contains(k) by {
            assert(set_int_range(0, n).contains(k));
            assert(s.to_set().contains(k));
        }
    }
    if forall|k: int| 0 <= k < n ==> s.contains(k) {
        assert(set_int_range(0, n).subset_of(s.to_set())) by {
            assert forall|x: int| set_int_range(0, n).contains(x) implies s.to_set().contains(x) by {
                assert(s.contains(x));
            }
        }
        vstd::set_lib::lemma_set_subset_finite(s.to_set(), set_int_range(0, n));
        lemma_len_subset(set_int_range(0, n), s.to_set());
    }
}

/// Among the indices below `n` that satisfy `pred`, one scores lowest.
pub proof fn lemma_lowest_scoring(n: int, pred: spec_fn(int) -> bool, score: spec_fn(int) -> int)
    requires
        exists|i: int| 0 <= i < n && #[trigger] pred(i),
    ensures
        exists|m: int| #![trigger score(m)]
            0 <= m < n && pred(m) && (forall|i: int| 0 <= i < n && #[trigger] pred(i) ==> score(m) <= score(i)),
    decreases n,
{
    if exists|i: int| 0 <= i < n - 1 && #[trigger] pred(i) {
        lemma_lowest_scoring(n - 1, pred, score);
        let m = choose|m: int| #![trigger score(m)]
            0 <= m < n - 1 && pred(m) && (forall|i: int| 0 <= i < n - 1 && #[trigger] pred(i) ==> score(m) <= score(i));
        if pred(n - 1) && score(n - 1) < score(m) {
            assert forall|i: int| 0 <= i < n && #[trigger] pred(i) implies score(n - 1) <= score(i) by {
                if i < n - 1 {
                }
            }
        } else {
            assert forall|i: int| 0 <= i < n && #[trigger] pred(i) implies score(m) <= score(i) by {
                if i < n - 1 {
                }
            }
        }
    } else {
        assert(pred(n - 1));
        assert forall|i: int| 0 <= i < n && #[trigger] pred(i) implies score(n - 1) <= score(i) by {
            if i < n - 1 {
                assert(pred(i));
            }
        }
    }
}

} // verus!
