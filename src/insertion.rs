use vstd::prelude::*;
use crate::array::{Buffer, TargetArray};
use crate::order::{sorted, perm};

verus! {

broadcast use vstd::seq_lib::group_to_multiset_ensures;

/// Views of at most this many elements are sorted by insertion.
pub const INSERTION_SORT_THRESHOLD: usize = 8;

/// Shift-insertion sort of the view.
pub fn insertion_sort(data: &TargetArray, buf: &mut Buffer)
    requires
        data.wf(old(buf)),
    ensures
        data.sorted_within(old(buf), final(buf)),
{
    let n = data.len();
    let ghost s0 = data.vals(buf);
    if n <= 1 {
        return;
    }
    let mut i: usize = 1;
    while i < n
        invariant
            data.wf(buf),
            n == data.spec_len(),
            1 <= i <= n,
            data.frame(old(buf), buf),
            s0 == data.vals(old(buf)),
            perm(data.vals(buf), s0),
            sorted(data.vals(buf).subrange(0, i as int)),
        decreases n - i,
    {
        let ghost s = data.vals(buf);
        let a = data.get(buf, i - 1);
        let b = data.get(buf, i);
        if a > b {
            let mut slide_from = i;
            let sliding_value = data.get(buf, slide_from);
            let mut go = true;
            while go
                invariant
                    data.wf(buf),
                    n == data.spec_len(),
                    1 <= i < n,
                    0 <= slide_from <= i,
                    sliding_value == s[i as int],
                    data.frame(old(buf), buf),
                    data.vals(buf).len() == s.len(),
                    go ==> slide_from > 0 && s[slide_from - 1] > sliding_value,
                    !go ==> slide_from == 0 || s[slide_from - 1] <= sliding_value,
                    forall|x: int| 0 <= x < slide_from ==> data.vals(buf)[x] == s[x],
                    forall|x: int| slide_from < x <= i ==> data.vals(buf)[x] == s[x - 1],
                    forall|x: int| i < x < n ==> data.vals(buf)[x] == s[x],
                    forall|x: int| slide_from <= x < i ==> s[x] > sliding_value,
                decreases slide_from,
            {
                let u = data.get(buf, slide_from - 1);
                data.set(buf, slide_from, u);
                slide_from = slide_from - 1;
                if slide_from > 0 {
                    let w = data.get(buf, slide_from - 1);
                    go = w > sliding_value;
                } else {
                    go = false;
                }
            }
            let ghost t0 = data.vals(buf);
            data.set(buf, slide_from, sliding_value);
            proof {
                let t = data.vals(buf);
                assert(t == t0.update(slide_from as int, sliding_value));
                let v = sliding_value;
                assert(t =~= s.remove(i as int).insert(slide_from as int, v));
                assert(s.remove(i as int).to_multiset() == s.to_multiset().remove(v));
                assert(t.to_multiset() == s.remove(i as int).to_multiset().insert(v));
                assert(t.to_multiset() =~= s.to_multiset());
                assert forall|x: int, y: int| 0 <= x < y <= i implies #[trigger] t[x] <= #[trigger] t[y] by {
                    let sp = s.subrange(0, i as int);
                    if y < slide_from {
                        assert(t[x] == s[x] && t[y] == s[y]);
                        assert(sp[x] <= sp[y]);
                    } else if x > slide_from {
                        assert(t[x] == s[x - 1] && t[y] == s[y - 1]);
                        assert(sp[x - 1] <= sp[y - 1]);
                    } else if x == slide_from {
                        assert(t[y] == s[y - 1]);
                    } else if y == slide_from {
                        assert(t[x] == s[x]);
                        assert(sp[x] <= sp[slide_from - 1]);
                    } else {
                        assert(t[x] == s[x] && t[y] == s[y - 1]);
                        assert(sp[x] <= sp[y - 1]);
                    }
                }
                assert(sorted(t.subrange(0, i + 1)));
            }
        } else {
            proof {
                let t = data.vals(buf);
                assert forall|x: int, y: int| 0 <= x < y <= i implies #[trigger] t[x] <= #[trigger] t[y] by {
                    assert(t.subrange(0, i as int)[x] == t[x]);
                    if y < i {
                        assert(t.subrange(0, i as int)[y] == t[y]);
                    } else {
                        assert(t.subrange(0, i as int)[i - 1] == t[i - 1]);
                    }
                }
                assert(sorted(t.subrange(0, i + 1)));
            }
        }
        i = i + 1;
    }
    assert(data.vals(buf).subrange(0, n as int) =~= data.vals(buf));
}

} // verus!
