use vstd::prelude::*;
use crate::array::{Buffer, TargetArray, lemma_split_vals, lemma_sub_frame};
use crate::context::Context;
use crate::order::{sorted, perm, swapped, all_le, lemma_swapped_perm, lemma_perm_concat, lemma_perm_le};

verus! {

broadcast use vstd::seq_lib::group_to_multiset_ensures;

pub open spec fn parent(i: int) -> int {
    (i - 1) / 2
}

/// Every element of `s[..n]` whose parent index is at least `from` is at
/// most its parent.
pub open spec fn heap_from(s: Seq<i32>, n: int, from: int) -> bool {
    forall|i: int| 0 < i < n && parent(i) >= from ==> s[parent(i)] >= #[trigger] s[i]
}

proof fn lemma_heap_root_max(s: Seq<i32>, n: int, x: int)
    requires
        heap_from(s, n, 0),
        0 <= x < n,
    ensures
        s[0] >= s[x],
    decreases x,
{
    if x > 0 {
        lemma_heap_root_max(s, n, parent(x));
    }
}

/// After the maximum of the heap `s[..end + 1]` went to `end` and the rest
/// of the heap was rearranged, the sorted tail grows by one.
proof fn lemma_pop_step(s: Seq<i32>, h1: Seq<i32>, h2: Seq<i32>, t: Seq<i32>, end: int, len: int)
    requires
        0 <= end < len == s.len() == t.len(),
        heap_from(s, end + 1, 0),
        sorted(s.subrange(end + 1, len)),
        end + 1 < len ==> forall|x: int| 0 <= x < end + 1 ==> #[trigger] s[x] <= s[end + 1],
        h1 == swapped(s, 0, end).subrange(0, end),
        perm(h2, h1),
        h2 == t.subrange(0, end),
        t.subrange(end, len) == swapped(s, 0, end).subrange(end, len),
    ensures
        sorted(t.subrange(end, len)),
        forall|x: int| 0 <= x < end ==> t[x] <= t[end],
{
    assert forall|x: int| 0 <= x < end + 1 implies s[0] >= #[trigger] s[x] by {
        lemma_heap_root_max(s, end + 1, x);
    }
    assert(all_le(h1, s[0])) by {
        assert forall|x: int| 0 <= x < h1.len() implies h1[x] <= s[0] by {
            if x > 0 {
                assert(h1[x] == s[x]);
            }
        }
    }
    lemma_perm_le(h1, h2, s[0]);
    assert(t[end] == t.subrange(end, len)[0]);
    assert forall|x: int| 0 <= x < end implies t[x] <= t[end] by {
        assert(h2[x] == t[x]);
    }
    let tail = t.subrange(end, len);
    assert forall|x: int, y: int| 0 <= x < y < tail.len() implies tail[x] <= tail[y] by {
        if x == 0 {
            assert(tail[y] == s[end + y]);
            if end + 1 < len {
                assert(s.subrange(end + 1, len)[0] <= s.subrange(end + 1, len)[y - 1]);
            }
        } else {
            assert(tail[x] == s[end + x]);
            assert(tail[y] == s[end + y]);
            assert(s.subrange(end + 1, len)[x - 1] <= s.subrange(end + 1, len)[y - 1]);
        }
    }
}

/// Moves the element at `node` down until neither child is greater.
fn sift_down(v: &TargetArray, buf: &mut Buffer, node: usize, ctx: &mut Context)
    requires
        v.wf(old(buf)),
        node < v.spec_len(),
        heap_from(v.vals(old(buf)), v.spec_len() as int, node + 1),
    ensures
        v.frame(old(buf), final(buf)),
        perm(v.vals(final(buf)), v.vals(old(buf))),
        heap_from(v.vals(final(buf)), v.spec_len() as int, node as int),
{
    let n = v.len();
    let ghost s0 = v.vals(buf);
    let mut cur = node;
    loop
        invariant
            v.wf(buf),
            n == v.spec_len(),
            node <= cur < n,
            v.frame(old(buf), buf),
            s0 == v.vals(old(buf)),
            perm(v.vals(buf), s0),
            forall|i: int|
                0 < i < n && parent(i) >= node && parent(i) != cur ==> v.vals(buf)[parent(i)]
                    >= #[trigger] v.vals(buf)[i],
            cur != node ==> forall|c: int|
                0 < c < n && parent(c) == cur ==> v.vals(buf)[parent(cur as int)]
                    >= #[trigger] v.vals(buf)[c],
        decreases n - cur,
    {
        let ghost s = v.vals(buf);
        if cur >= (n - 1) / 2 + 1 || 2 * cur + 1 >= n {
            assert forall|i: int| 0 < i < n && parent(i) >= node implies s[parent(i)] >= #[trigger] s[i] by {
                assert(parent(i) != cur);
            }
            return;
        }
        let mut child = 2 * cur + 1;
        if child + 1 < n {
            let a = v.get(buf, child);
            let b = v.get(buf, child + 1);
            if a < b {
                child = child + 1;
            }
        }
        ctx.compare();
        let x = v.get(buf, cur);
        let y = v.get(buf, child);
        assert(parent(child as int) == cur);
        assert(forall|c: int| 0 < c < n && parent(c) == cur ==> c == 2 * cur + 1 || c == 2 * cur + 2);
        if x >= y {
            assert forall|i: int| 0 < i < n && parent(i) >= node implies s[parent(i)] >= #[trigger] s[i] by {
                if parent(i) == cur {
                    assert(i == 2 * cur + 1 || i == 2 * cur + 2);
                }
            }
            return;
        }
        ctx.swap();
        v.swap(buf, cur, child);
        proof {
            lemma_swapped_perm(s, cur as int, child as int);
            let t = v.vals(buf);
            assert(t == swapped(s, cur as int, child as int));
            assert forall|i: int|
                0 < i < n && parent(i) >= node && parent(i) != child implies t[parent(i)]
                    >= #[trigger] t[i] by {
                if parent(i) == cur {
                    assert(i == 2 * cur + 1 || i == 2 * cur + 2);
                } else if i == cur {
                    assert(t[parent(i)] == s[parent(cur as int)]);
                } else if i == child {
                } else {
                    assert(t[i] == s[i]);
                }
            }
            assert forall|c: int| 0 < c < n && parent(c) == child implies t[parent(child as int)]
                >= #[trigger] t[c] by {
                assert(c != cur && c != child);
                assert(t[c] == s[c]);
                assert(s[child as int] >= s[c]);
            }
        }
        cur = child;
    }
}

/// Heapsort of the view: builds a max-heap bottom-up, then moves the
/// maximum behind the shrinking heap.
pub fn heapsort(data: &TargetArray, buf: &mut Buffer, ctx: &mut Context)
    requires
        data.wf(old(buf)),
    ensures
        data.sorted_within(old(buf), final(buf)),
{
    let len = data.len();
    let ghost s0 = data.vals(buf);
    ctx.set_phase("build the heap");
    let mut i = len / 2;
    assert(heap_from(data.vals(buf), len as int, i as int)) by {
        assert forall|k: int| 0 < k < len implies parent(k) < len / 2 by {}
    }
    while i > 0
        invariant
            data.wf(buf),
            len == data.spec_len(),
            i <= len / 2,
            data.frame(old(buf), buf),
            s0 == data.vals(old(buf)),
            perm(data.vals(buf), s0),
            heap_from(data.vals(buf), len as int, i as int),
        decreases i,
    {
        i = i - 1;
        sift_down(data, buf, i, ctx);
    }
    ctx.set_phase("pop maximum value from heap");
    let mut end = len;
    while end > 1
        invariant
            data.wf(buf),
            len == data.spec_len(),
            end <= len,
            len > 0 ==> end >= 1,
            data.frame(old(buf), buf),
            s0 == data.vals(old(buf)),
            perm(data.vals(buf), s0),
            heap_from(data.vals(buf), end as int, 0),
            sorted(data.vals(buf).subrange(end as int, len as int)),
            end < len ==> forall|x: int| 0 <= x < end ==> data.vals(buf)[x] <= data.vals(buf)[end as int],
        decreases end,
    {
        end = end - 1;
        let ghost s = data.vals(buf);
        ctx.swap();
        data.swap(buf, 0, end);
        let ghost s1 = data.vals(buf);
        let ghost b1 = *buf;
        proof {
            lemma_swapped_perm(s, 0, end as int);
            assert(s1 == swapped(s, 0, end as int));
        }
        let (a, tail) = data.split_at(end);
        proof {
            lemma_split_vals(*data, a, tail, end as int, &b1);
            assert(heap_from(a.vals(&b1), end as int, 1)) by {
                assert forall|k: int| 0 < k < end && parent(k) >= 1 implies a.vals(&b1)[parent(k)]
                    >= #[trigger] a.vals(&b1)[k] by {
                    assert(s1[k] == s[k]);
                    assert(s1[parent(k)] == s[parent(k)]);
                }
            }
        }
        sift_down(&a, buf, 0, ctx);
        proof {
            lemma_sub_frame(*data, a, &b1, buf);
            lemma_split_vals(*data, a, tail, end as int, buf);
            let t = data.vals(buf);
            assert(tail.vals(buf) =~= tail.vals(&b1)) by {
                assert forall|x: int| 0 <= x < tail.spec_len() implies tail.vals(buf)[x] == tail.vals(&b1)[x] by {
                    assert(t[end + x] == s1[end + x]);
                }
            }
            lemma_perm_concat(a.vals(buf), tail.vals(buf), a.vals(&b1), tail.vals(&b1));
            lemma_pop_step(s, a.vals(&b1), a.vals(buf), t, end as int, len as int);
        }
    }
    proof {
        let t = data.vals(buf);
        assert forall|x: int, y: int| 0 <= x < y < len implies t[x] <= t[y] by {
            if x >= end {
                assert(t.subrange(end as int, len as int)[x - end] <= t.subrange(end as int, len as int)[y - end]);
            } else if y >= end {
                if end < len {
                    assert(t[x] <= t[end as int]);
                    if y > end {
                        assert(t.subrange(end as int, len as int)[0] <= t.subrange(end as int, len as int)[y - end]);
                    }
                }
            }
        }
    }
}

} // verus!
