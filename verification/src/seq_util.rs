//! Selections from sequences that the matcher and the clustering share: the
//! first least item, the last greatest item.

use vstd::prelude::*;

verus! {

/// The views of a sequence of values, in order.
pub open spec fn views<T: View>(items: Seq<T>) -> Seq<T::V> {
    Seq::new(items.len(), |i: int| items[i]@)
}

/// `i` is the first position of `s` that holds its least value.
pub open spec fn is_first_min(s: Seq<int>, i: int) -> bool {
    &&& 0 <= i < s.len()
    &&& forall|j: int| 0 <= j < s.len() ==> s[i] <= #[trigger] s[j]
    &&& forall|j: int| 0 <= j < i ==> s[i] < #[trigger] s[j]
}

/// The first position of `s` that holds its least value (for a non-empty `s`).
pub open spec fn first_min(s: Seq<int>) -> int {
    choose|i: int| is_first_min(s, i)
}

/// `i` is the last position of `s` that holds its greatest value.
pub open spec fn is_last_max(s: Seq<int>, i: int) -> bool {
    &&& 0 <= i < s.len()
    &&& forall|j: int| 0 <= j < s.len() ==> #[trigger] s[j] <= s[i]
    &&& forall|j: int| i < j < s.len() ==> #[trigger] s[j] < s[i]
}

/// The last position of `s` that holds its greatest value (for a non-empty `s`).
pub open spec fn last_max(s: Seq<int>) -> int {
    choose|i: int| is_last_max(s, i)
}

/// There is only one first least position.
pub proof fn lemma_first_min_is(s: Seq<int>, i: int)
    requires
        is_first_min(s, i),
    ensures
        first_min(s) == i,
{
    let c = first_min(s);
    if i < c {
        assert(s[i] <= s[c]);
    }
}

/// Every non-empty sequence has a first least position.
pub proof fn lemma_first_min_exists(s: Seq<int>)
    requires
        s.len() > 0,
    ensures
        is_first_min(s, first_min(s)),
    decreases s.len(),
{
    if s.len() == 1 {
        assert(is_first_min(s, 0));
    } else {
        let t = s.drop_last();
        lemma_first_min_exists(t);
        let p = first_min(t);
        if s.last() < t[p] {
            assert forall|j: int| 0 <= j < s.len() - 1 implies s[s.len() - 1] < #[trigger] s[j] by {
                assert(t[p] <= t[j]);
            }
            assert(is_first_min(s, s.len() - 1));
        } else {
            assert forall|j: int| 0 <= j < s.len() implies s[p] <= #[trigger] s[j] by {
                if j < t.len() {
                    assert(t[p] <= t[j]);
                }
            }
            assert forall|j: int| 0 <= j < p implies s[p] < #[trigger] s[j] by {
                assert(t[p] < t[j]);
            }
            assert(is_first_min(s, p));
        }
    }
}

/// There is only one last greatest position.
pub proof fn lemma_last_max_is(s: Seq<int>, i: int)
    requires
        is_last_max(s, i),
    ensures
        last_max(s) == i,
{
    let c = last_max(s);
    if i < c {
        assert(s[i] <= s[c]);
    }
}

/// Every non-empty sequence has a last greatest position.
pub proof fn lemma_last_max_exists(s: Seq<int>)
    requires
        s.len() > 0,
    ensures
        is_last_max(s, last_max(s)),
    decreases s.len(),
{
    if s.len() == 1 {
        assert(is_last_max(s, 0));
    } else {
        let t = s.drop_last();
        lemma_last_max_exists(t);
        let p = last_max(t);
        if s.last() >= t[p] {
            assert forall|j: int| 0 <= j < s.len() implies #[trigger] s[j] <= s[s.len() - 1] by {
                if j < t.len() {
                    assert(t[j] <= t[p]);
                }
            }
            assert(is_last_max(s, s.len() - 1));
        } else {
            assert forall|j: int| 0 <= j < s.len() implies #[trigger] s[j] <= s[p] by {
                if j < t.len() {
                    assert(t[j] <= t[p]);
                }
            }
            assert forall|j: int| p < j < s.len() implies #[trigger] s[j] < s[p] by {
                if j < t.len() {
                    assert(t[j] < t[p]);
                }
            }
            assert(is_last_max(s, p));
        }
    }
}

} // verus!
