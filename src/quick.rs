use vstd::prelude::*;
use crate::array::{Buffer, TargetArray, lemma_sorted_halves, lemma_split_vals};
use crate::context::Context;
use crate::order::{sorted, perm, all_le, all_ge, lemma_swapped_perm};
use crate::partition::{left_ok, right_ok};

verus! {

/// Textbook quicksort: middle element as pivot, two cursors that cross.
pub fn school_quicksort(data: &TargetArray, buf: &mut Buffer, ctx: &mut Context)
    requires
        data.wf(old(buf)),
    ensures
        data.sorted_within(old(buf), final(buf)),
{
    quicksort_recur(*data, buf, ctx);
}

fn quicksort_recur(data: TargetArray, buf: &mut Buffer, ctx: &mut Context)
    requires
        data.wf(old(buf)),
    ensures
        data.sorted_within(old(buf), final(buf)),
    decreases data.spec_len(),
{
    let n = data.len();
    if n <= 1 {
        proof {
            assert(sorted(data.vals(buf)));
        }
        return;
    }
    let ghost s0 = data.vals(buf);
    let pivot = data.get(buf, (n - 1) / 2);
    let mut i: usize = 0;
    // One past the right cursor.
    let mut j1: usize = n;
    assert(data.vals(buf)[(n - 1) / 2] == pivot);
    while i < j1
        invariant
            data.wf(buf),
            n == data.spec_len(),
            n > 1,
            i <= n,
            j1 <= n,
            (i == 0 && j1 == n) || (i >= 1 && j1 < n),
            data.frame(old(buf), buf),
            s0 == data.vals(old(buf)),
            perm(data.vals(buf), s0),
            left_ok(data.vals(buf), i as int, pivot),
            right_ok(data.vals(buf), j1 - 1, pivot),
            i < j1 ==> exists|a: int| i <= a < n && data.vals(buf)[a] >= pivot,
            i < j1 ==> exists|b: int| 0 <= b < j1 && data.vals(buf)[b] <= pivot,
        decreases n + j1 - i,
    {
        let ghost s = data.vals(buf);
        let ghost wa = choose|a: int| i <= a < n && s[a] >= pivot;
        let ghost wb = choose|b: int| 0 <= b < j1 && s[b] <= pivot;
        let ghost i0 = i;
        let ghost j0 = j1;
        ctx.compare();
        let mut v = data.get(buf, i);
        while v < pivot
            invariant
                data.wf(buf),
                n == data.spec_len(),
                data.vals(buf) == s,
                data.frame(old(buf), buf),
                i0 <= i <= wa < n,
                s[wa] >= pivot,
                v == s[i as int],
                left_ok(s, i as int, pivot),
            decreases wa - i,
        {
            i = i + 1;
            ctx.compare();
            v = data.get(buf, i);
        }
        ctx.compare();
        let mut w = data.get(buf, j1 - 1);
        while w > pivot
            invariant
                data.wf(buf),
                n == data.spec_len(),
                data.vals(buf) == s,
                data.frame(old(buf), buf),
                0 <= wb < j1 <= j0 <= n,
                s.len() == n,
                s[wb] <= pivot,
                w == s[j1 - 1],
                right_ok(s, j1 - 1, pivot),
            decreases j1 - wb,
        {
            j1 = j1 - 1;
            ctx.compare();
            w = data.get(buf, j1 - 1);
        }
        if i < j1 {
            if i + 1 < j1 {
                ctx.swap();
                data.swap(buf, i, j1 - 1);
                proof {
                    lemma_swapped_perm(s, i as int, j1 - 1);
                }
            }
            proof {
                let t = data.vals(buf);
                assert(t[i as int] <= pivot);
                assert(t[j1 - 1] >= pivot);
                if i + 1 < j1 - 1 {
                    assert(i + 1 <= j1 - 1 < n && t[j1 - 1] >= pivot);
                    assert(0 <= i < j1 - 1 && t[i as int] <= pivot);
                }
            }
            i = i + 1;
            j1 = j1 - 1;
        }
    }
    let ghost b1 = *buf;
    let (l, r) = data.split_at(i);
    let (a, m) = l.split_at(j1);
    proof {
        let s = data.vals(&b1);
        lemma_split_vals(data, l, r, i as int, &b1);
        lemma_split_vals(l, a, m, j1 as int, &b1);
        assert(all_le(l.vals(&b1), pivot)) by {
            assert forall|x: int| 0 <= x < i implies l.vals(&b1)[x] <= pivot by {
                assert(s[x] <= pivot);
            }
        }
        assert(all_ge(r.vals(&b1), pivot)) by {
            assert forall|x: int| 0 <= x < n - i implies r.vals(&b1)[x] >= pivot by {
                assert(s[i + x] >= pivot);
            }
        }
        assert(all_le(a.vals(&b1), pivot)) by {
            assert forall|x: int| 0 <= x < j1 implies a.vals(&b1)[x] <= pivot by {
                assert(s[x] <= pivot);
            }
        }
        assert(all_ge(m.vals(&b1), pivot)) by {
            assert forall|x: int| 0 <= x < i - j1 implies m.vals(&b1)[x] >= pivot by {
                assert(s[j1 + x] >= pivot);
            }
        }
        assert(sorted(m.vals(&b1))) by {
            assert forall|x: int, y: int| 0 <= x < y < i - j1 implies m.vals(&b1)[x] <= m.vals(&b1)[y] by {
                assert(s[j1 + x] <= pivot && s[j1 + y] >= pivot);
            }
        }
        assert(l.vals(&b1).subrange(0, j1 as int) == a.vals(&b1));
        assert(l.vals(&b1).subrange(j1 as int, i as int) == m.vals(&b1));
        assert(data.vals(&b1).subrange(0, i as int) == l.vals(&b1));
        assert(data.vals(&b1).subrange(i as int, n as int) == r.vals(&b1));
    }
    quicksort_recur(a, buf, ctx);
    let ghost b2 = *buf;
    proof {
        assert(m.sorted_within(&b2, &b2)) by {
            lemma_split_vals(l, a, m, j1 as int, &b2);
            assert(m.vals(&b2) =~= m.vals(&b1)) by {
                assert forall|x: int| 0 <= x < m.spec_len() implies m.vals(&b2)[x] == m.vals(&b1)[x] by {
                    assert(b2@[m.start + x] == b1@[m.start + x]);
                }
            }
        }
        lemma_sorted_halves(l, a, m, j1 as int, pivot, &b1, &b2, &b2);
    }
    quicksort_recur(r, buf, ctx);
    proof {
        lemma_sorted_halves(data, l, r, i as int, pivot, &b1, &b2, buf);
    }
}

} // verus!
