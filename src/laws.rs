use vstd::prelude::*;
use crate::order::{sorted, perm};

verus! {

broadcast use vstd::seq_lib::group_to_multiset_ensures;

/// A sequence has exactly one sorted permutation: two sorted sequences that
/// hold the same values are equal.
pub proof fn lemma_sorted_perm_unique(a: Seq<i32>, b: Seq<i32>)
    requires
        sorted(a),
        sorted(b),
        perm(a, b),
    ensures
        a == b,
    decreases a.len(),
{
    assert(a.len() == a.to_multiset().len());
    assert(b.len() == b.to_multiset().len());
    if a.len() == 0 {
        assert(a =~= b);
    } else {
        assert(a.contains(a[0]));
        assert(a.to_multiset().count(a[0]) > 0);
        assert(b.to_multiset().count(a[0]) > 0);
        assert(b.contains(a[0]));
        let j = choose|j: int| 0 <= j < b.len() && b[j] == a[0];
        assert(b[0] <= a[0]);
        assert(b.contains(b[0]));
        assert(b.to_multiset().count(b[0]) > 0);
        assert(a.to_multiset().count(b[0]) > 0);
        assert(a.contains(b[0]));
        let k = choose|k: int| 0 <= k < a.len() && a[k] == b[0];
        assert(a[0] <= b[0]);
        let ra = a.drop_first();
        let rb = b.drop_first();
        assert(a.remove(0) =~= ra);
        assert(b.remove(0) =~= rb);
        assert(ra.to_multiset() == a.to_multiset().remove(a[0]));
        assert(rb.to_multiset() == b.to_multiset().remove(b[0]));
        assert forall|x: int, y: int| 0 <= x < y < ra.len() implies ra[x] <= ra[y] by {
            assert(a[x + 1] <= a[y + 1]);
        }
        assert forall|x: int, y: int| 0 <= x < y < rb.len() implies rb[x] <= rb[y] by {
            assert(b[x + 1] <= b[y + 1]);
        }
        lemma_sorted_perm_unique(ra, rb);
        assert(a =~= b) by {
            assert forall|x: int| 0 <= x < a.len() implies a[x] == b[x] by {
                if x > 0 {
                    assert(ra[x - 1] == rb[x - 1]);
                }
            }
        }
    }
}

/// Sorting is idempotent: when `t` is the sorted form of `s`, sorting `t`
/// again gives `t` back.
pub proof fn lemma_sort_idempotent(s: Seq<i32>, t: Seq<i32>, u: Seq<i32>)
    requires
        sorted(t),
        perm(t, s),
        sorted(u),
        perm(u, t),
    ensures
        u == t,
{
    lemma_sorted_perm_unique(u, t);
}

/// The empty sequence and a one-element sequence are their own sorted form.
pub proof fn lemma_sort_fixed_points(x: i32, t0: Seq<i32>, t1: Seq<i32>)
    requires
        sorted(t0),
        perm(t0, Seq::<i32>::empty()),
        sorted(t1),
        perm(t1, seq![x]),
    ensures
        t0 == Seq::<i32>::empty(),
        t1 == seq![x],
{
    assert(sorted(Seq::<i32>::empty()));
    lemma_sorted_perm_unique(t0, Seq::<i32>::empty());
    assert(sorted(seq![x]));
    lemma_sorted_perm_unique(t1, seq![x]);
}

} // verus!
