use vstd::prelude::*;

verus! {

broadcast use vstd::seq_lib::group_to_multiset_ensures;

/// Non-decreasing order.
pub open spec fn sorted(s: Seq<i32>) -> bool {
    forall|i: int, j: int| 0 <= i < j < s.len() ==> s[i] <= s[j]
}

/// The two sequences hold the same values, each as many times.
pub open spec fn perm(a: Seq<i32>, b: Seq<i32>) -> bool {
    a.to_multiset() == b.to_multiset()
}

/// Every element is at most `p`.
pub open spec fn all_le(s: Seq<i32>, p: i32) -> bool {
    forall|i: int| 0 <= i < s.len() ==> s[i] <= p
}

/// Every element is at least `p`.
pub open spec fn all_ge(s: Seq<i32>, p: i32) -> bool {
    forall|i: int| 0 <= i < s.len() ==> s[i] >= p
}

/// `s` with the elements at `i` and `j` exchanged.
pub open spec fn swapped(s: Seq<i32>, i: int, j: int) -> Seq<i32> {
    s.update(i, s[j]).update(j, s[i])
}

pub proof fn lemma_swapped_perm(s: Seq<i32>, i: int, j: int)
    requires
        0 <= i < s.len(),
        0 <= j < s.len(),
    ensures
        perm(swapped(s, i, j), s),
        swapped(s, i, j).len() == s.len(),
{
    broadcast use vstd::seq_lib::to_multiset_update;
    broadcast use vstd::multiset::group_multiset_axioms;

    let t = s.update(i, s[j]);
    assert(t[j] == s[j] || i == j);
    if i == j {
        assert(swapped(s, i, j) =~= s);
    } else {
        assert(t.to_multiset() == s.to_multiset().insert(s[j]).remove(s[i]));
        assert(t.update(j, s[i]).to_multiset() == t.to_multiset().insert(s[i]).remove(s[j]));
        assert(t.update(j, s[i]).to_multiset() =~= s.to_multiset());
    }
}

pub proof fn lemma_perm_le(a: Seq<i32>, b: Seq<i32>, p: i32)
    requires
        perm(a, b),
        all_le(a, p),
    ensures
        all_le(b, p),
{
    assert forall|i: int| 0 <= i < b.len() implies b[i] <= p by {
        assert(b.contains(b[i]));
        assert(b.to_multiset().count(b[i]) > 0);
        assert(a.to_multiset().count(b[i]) > 0);
        assert(a.contains(b[i]));
    }
}

pub proof fn lemma_perm_ge(a: Seq<i32>, b: Seq<i32>, p: i32)
    requires
        perm(a, b),
        all_ge(a, p),
    ensures
        all_ge(b, p),
{
    assert forall|i: int| 0 <= i < b.len() implies b[i] >= p by {
        assert(b.contains(b[i]));
        assert(b.to_multiset().count(b[i]) > 0);
        assert(a.to_multiset().count(b[i]) > 0);
        assert(a.contains(b[i]));
    }
}

pub proof fn lemma_perm_contains(a: Seq<i32>, b: Seq<i32>, x: i32)
    requires
        perm(a, b),
        a.contains(x),
    ensures
        b.contains(x),
{
    assert(a.to_multiset().count(x) > 0);
    assert(b.to_multiset().count(x) > 0);
}

/// Multisets of a concatenation add up.
pub proof fn lemma_perm_concat(a1: Seq<i32>, a2: Seq<i32>, b1: Seq<i32>, b2: Seq<i32>)
    requires
        perm(a1, b1),
        perm(a2, b2),
    ensures
        perm(a1 + a2, b1 + b2),
{
    vstd::seq_lib::lemma_multiset_commutative(a1, a2);
    vstd::seq_lib::lemma_multiset_commutative(b1, b2);
}

/// Two sorted halves, all of the first below all of the second, make a
/// sorted whole.
pub proof fn lemma_sorted_concat(a: Seq<i32>, b: Seq<i32>, p: i32)
    requires
        sorted(a),
        sorted(b),
        all_le(a, p),
        all_ge(b, p),
    ensures
        sorted(a + b),
{
    let s = a + b;
    assert forall|i: int, j: int| 0 <= i < j < s.len() implies s[i] <= s[j] by {
        if j < a.len() {
            assert(s[i] == a[i] && s[j] == a[j]);
        } else if i >= a.len() {
            assert(s[i] == b[i - a.len()] && s[j] == b[j - a.len()]);
        } else {
            assert(s[i] == a[i] && s[j] == b[j - a.len()]);
        }
    }
}

} // verus!
