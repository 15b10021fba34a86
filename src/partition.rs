use vstd::prelude::*;
use crate::array::{Buffer, TargetArray};
use crate::context::Context;
use crate::order::{perm, swapped, all_le, all_ge, lemma_swapped_perm, lemma_perm_contains, lemma_perm_le, lemma_perm_ge};

verus! {

/// Number of elements scanned at once on each side of a block partition.
pub const PARTITION_BLOCK: usize = 128;

/// Every element before `left` is at most `p`.
pub open spec fn left_ok(s: Seq<i32>, left: int, p: i32) -> bool {
    forall|x: int| 0 <= x < left ==> s[x] <= p
}

/// Every element after `right` is at least `p`.
pub open spec fn right_ok(s: Seq<i32>, right: int, p: i32) -> bool {
    forall|x: int| right < x < s.len() ==> s[x] >= p
}

/// `k` splits `s` into a front that is at most `p` and a back that is at
/// least `p`.
pub open spec fn partitioned(s: Seq<i32>, k: int, p: i32) -> bool {
    &&& 0 <= k <= s.len()
    &&& left_ok(s, k, p)
    &&& right_ok(s, k - 1, p)
}

/// `offs[from..from + cnt]` are strictly increasing offsets within a block.
pub open spec fn offsets_ok(offs: Seq<usize>, from: int, cnt: int) -> bool {
    &&& offs.len() == PARTITION_BLOCK
    &&& 0 <= from
    &&& 0 <= cnt
    &&& from + cnt <= PARTITION_BLOCK
    &&& forall|k: int| from <= k < from + cnt ==> #[trigger] offs[k] < PARTITION_BLOCK
    &&& forall|k1: int, k2: int|
        from <= k1 < k2 < from + cnt ==> #[trigger] offs[k1] < #[trigger] offs[k2]
}

/// Offset `o` is among `offs[from..from + cnt]`.
pub open spec fn listed(offs: Seq<usize>, from: int, cnt: int, o: int) -> bool {
    exists|k: int| from <= k < from + cnt && offs[k] == o
}

/// The pending offsets of the block starting at `left` are exactly where it
/// holds elements above `p`, up to position `limit`.
pub open spec fn left_pending(
    s: Seq<i32>,
    left: int,
    offs: Seq<usize>,
    from: int,
    cnt: int,
    p: i32,
    limit: int,
) -> bool {
    &&& offsets_ok(offs, from, cnt)
    &&& 0 <= left
    &&& left + PARTITION_BLOCK <= s.len()
    &&& forall|k: int| from <= k < from + cnt ==> s[left + #[trigger] offs[k]] > p
    &&& forall|o: int|
        0 <= o < PARTITION_BLOCK && left + o < limit && #[trigger] s[left + o] > p ==> listed(
            offs,
            from,
            cnt,
            o,
        )
}

/// The pending offsets of the block ending at `right` are exactly where it
/// holds elements below `p`, down to position `limit` (exclusive).
pub open spec fn right_pending(
    s: Seq<i32>,
    right: int,
    offs: Seq<usize>,
    from: int,
    cnt: int,
    p: i32,
    limit: int,
) -> bool {
    &&& offsets_ok(offs, from, cnt)
    &&& right < s.len()
    &&& PARTITION_BLOCK <= right + 1
    &&& forall|k: int| from <= k < from + cnt ==> s[right - #[trigger] offs[k]] < p
    &&& forall|o: int|
        0 <= o < PARTITION_BLOCK && right - o > limit && #[trigger] s[right - o] < p ==> listed(
            offs,
            from,
            cnt,
            o,
        )
}

proof fn lemma_listed_drop_first(offs: Seq<usize>, from: int, cnt: int, o: int)
    requires
        listed(offs, from, cnt, o),
        offs[from] != o,
    ensures
        listed(offs, from + 1, cnt - 1, o),
{
    let k = choose|k: int| from <= k < from + cnt && offs[k] == o;
    assert(from + 1 <= k);
}

fn new_offsets() -> (r: Vec<usize>)
    ensures
        r@.len() == PARTITION_BLOCK,
{
    let mut r: Vec<usize> = Vec::new();
    let mut i: usize = 0;
    while i < PARTITION_BLOCK
        invariant
            i <= PARTITION_BLOCK,
            r@.len() == i,
        decreases PARTITION_BLOCK - i,
    {
        r.push(0);
        i = i + 1;
    }
    r
}

/// Records, in increasing order, the offsets within `[left, left + B)` of
/// the elements greater than `pivot`; returns how many there are.
fn collect_left(
    data: &TargetArray,
    buf: &mut Buffer,
    left: usize,
    pivot: i32,
    offs: &mut Vec<usize>,
) -> (cnt: usize)
    requires
        data.wf(old(buf)),
        left + PARTITION_BLOCK <= data.spec_len(),
        old(offs)@.len() == PARTITION_BLOCK,
    ensures
        final(buf)@ == old(buf)@,
        left_pending(
            data.vals(old(buf)),
            left as int,
            final(offs)@,
            0,
            cnt as int,
            pivot,
            data.spec_len() as int,
        ),
{
    let ghost s = data.vals(buf);
    let mut cnt: usize = 0;
    let mut i: usize = 0;
    while i < PARTITION_BLOCK
        invariant
            data.wf(buf),
            buf@ == old(buf)@,
            s == data.vals(buf),
            left + PARTITION_BLOCK <= data.spec_len(),
            offs@.len() == PARTITION_BLOCK,
            cnt <= i <= PARTITION_BLOCK,
            forall|k: int| 0 <= k < cnt ==> #[trigger] offs@[k] < i && s[left + offs@[k]] > pivot,
            forall|k1: int, k2: int| 0 <= k1 < k2 < cnt ==> #[trigger] offs@[k1] < #[trigger] offs@[k2],
            forall|o: int| 0 <= o < i && #[trigger] s[left + o] > pivot ==> listed(offs@, 0, cnt as int, o),
        decreases PARTITION_BLOCK - i,
    {
        let ghost before = offs@;
        offs.set(cnt, i);
        let v = data.get(buf, left + i);
        let ghost cnt0 = cnt;
        if pivot < v {
            cnt = cnt + 1;
        }
        proof {
            assert forall|o: int| 0 <= o < i + 1 && #[trigger] s[left + o] > pivot implies listed(
                offs@,
                0,
                cnt as int,
                o,
            ) by {
                if o == i {
                    assert(offs@[cnt0 as int] == o);
                } else {
                    let k = choose|k: int| 0 <= k < cnt0 && before[k] == o;
                    assert(offs@[k] == o);
                }
            }
        }
        i = i + 1;
    }
    cnt
}

/// Records, in increasing order, the offsets back from `right` within
/// `(right - B, right]` of the elements less than `pivot`; returns how many
/// there are.
fn collect_right(
    data: &TargetArray,
    buf: &mut Buffer,
    right: usize,
    pivot: i32,
    offs: &mut Vec<usize>,
) -> (cnt: usize)
    requires
        data.wf(old(buf)),
        right < data.spec_len(),
        PARTITION_BLOCK <= right + 1,
        old(offs)@.len() == PARTITION_BLOCK,
    ensures
        final(buf)@ == old(buf)@,
        right_pending(data.vals(old(buf)), right as int, final(offs)@, 0, cnt as int, pivot, -1),
{
    let ghost s = data.vals(buf);
    let mut cnt: usize = 0;
    let mut i: usize = 0;
    while i < PARTITION_BLOCK
        invariant
            data.wf(buf),
            buf@ == old(buf)@,
            s == data.vals(buf),
            right < data.spec_len(),
            PARTITION_BLOCK <= right + 1,
            offs@.len() == PARTITION_BLOCK,
            cnt <= i <= PARTITION_BLOCK,
            forall|k: int| 0 <= k < cnt ==> #[trigger] offs@[k] < i && s[right - offs@[k]] < pivot,
            forall|k1: int, k2: int| 0 <= k1 < k2 < cnt ==> #[trigger] offs@[k1] < #[trigger] offs@[k2],
            forall|o: int| 0 <= o < i && #[trigger] s[right - o] < pivot ==> listed(offs@, 0, cnt as int, o),
        decreases PARTITION_BLOCK - i,
    {
        let ghost before = offs@;
        offs.set(cnt, i);
        let v = data.get(buf, right - i);
        let ghost cnt0 = cnt;
        if pivot > v {
            cnt = cnt + 1;
        }
        proof {
            assert forall|o: int| 0 <= o < i + 1 && #[trigger] s[right - o] < pivot implies listed(
                offs@,
                0,
                cnt as int,
                o,
            ) by {
                if o == i {
                    assert(offs@[cnt0 as int] == o);
                } else {
                    let k = choose|k: int| 0 <= k < cnt0 && before[k] == o;
                    assert(offs@[k] == o);
                }
            }
        }
        i = i + 1;
    }
    cnt
}

/// Exchanges `num` pending elements of the left block with as many of the
/// right block, taking both from the front of their lists.
fn swap_blocks(
    data: &TargetArray,
    buf: &mut Buffer,
    left: usize,
    right: usize,
    loffs: &Vec<usize>,
    ls: usize,
    ll: usize,
    roffs: &Vec<usize>,
    rs: usize,
    rl: usize,
    num: usize,
    pivot: i32,
)
    requires
        data.wf(old(buf)),
        right < data.spec_len(),
        left + 2 * PARTITION_BLOCK <= right + 1,
        num <= ll,
        num <= rl,
        left_pending(
            data.vals(old(buf)),
            left as int,
            loffs@,
            ls as int,
            ll as int,
            pivot,
            data.spec_len() as int,
        ),
        right_pending(data.vals(old(buf)), right as int, roffs@, rs as int, rl as int, pivot, -1),
    ensures
        data.frame(old(buf), final(buf)),
        perm(data.vals(final(buf)), data.vals(old(buf))),
        left_pending(
            data.vals(final(buf)),
            left as int,
            loffs@,
            ls + num,
            ll - num,
            pivot,
            data.spec_len() as int,
        ),
        right_pending(data.vals(final(buf)), right as int, roffs@, rs + num, rl - num, pivot, -1),
        forall|x: int|
            0 <= x < data.spec_len() && !(left <= x < left + PARTITION_BLOCK) && !(right
                - PARTITION_BLOCK < x <= right) ==> #[trigger] data.vals(final(buf))[x]
                == data.vals(old(buf))[x],
{
    let ghost s0 = data.vals(buf);
    let ghost n = data.spec_len() as int;
    let mut i: usize = 0;
    while i < num
        invariant
            data.wf(buf),
            n == data.spec_len(),
            right < n,
            left + 2 * PARTITION_BLOCK <= right + 1,
            i <= num,
            num <= ll,
            num <= rl,
            data.frame(old(buf), buf),
            perm(data.vals(buf), s0),
            left_pending(data.vals(buf), left as int, loffs@, ls + i, ll - i, pivot, n),
            right_pending(data.vals(buf), right as int, roffs@, rs + i, rl - i, pivot, -1),
            forall|x: int|
                0 <= x < n && !(left <= x < left + PARTITION_BLOCK) && !(right - PARTITION_BLOCK
                    < x <= right) ==> #[trigger] data.vals(buf)[x] == s0[x],
        decreases num - i,
    {
        let ghost s = data.vals(buf);
        let a = left + loffs[ls + i];
        let b = right - roffs[rs + i];
        data.swap(buf, a, b);
        proof {
            lemma_swapped_perm(s, a as int, b as int);
            let t = data.vals(buf);
            assert(t == swapped(s, a as int, b as int));
            assert forall|o: int|
                0 <= o < PARTITION_BLOCK && left + o < n && #[trigger] t[left + o] > pivot implies listed(
                loffs@,
                ls + i + 1,
                ll - i - 1,
                o,
            ) by {
                assert(left + o != b);
                if o == loffs@[ls + i] {
                    assert(t[left + o] == s[b as int]);
                } else {
                    assert(t[left + o] == s[left + o]);
                    lemma_listed_drop_first(loffs@, ls + i, ll - i, o);
                }
            }
            assert forall|o: int|
                0 <= o < PARTITION_BLOCK && right - o > -1 && #[trigger] t[right - o] < pivot implies listed(
                roffs@,
                rs + i + 1,
                rl - i - 1,
                o,
            ) by {
                assert(right - o != a);
                if o == roffs@[rs + i] {
                    assert(t[right - o] == s[a as int]);
                } else {
                    assert(t[right - o] == s[right - o]);
                    lemma_listed_drop_first(roffs@, rs + i, rl - i, o);
                }
            }
            assert forall|k: int| ls + i + 1 <= k < ls + ll ==> t[left + #[trigger] loffs@[k]] > pivot by {
                if ls + i + 1 <= k < ls + ll {
                    assert(loffs@[ls + i] < loffs@[k]);
                }
            }
            assert forall|k: int| rs + i + 1 <= k < rs + rl ==> t[right - #[trigger] roffs@[k]] < pivot by {
                if rs + i + 1 <= k < rs + rl {
                    assert(roffs@[rs + i] < roffs@[k]);
                }
            }
        }
        i = i + 1;
    }
}

/// Recovery when only the right block still holds pending elements: the
/// left cursor walks up and trades each element above the pivot for a
/// pending one.  Returns `(true, k)` with the partition point when the
/// cursors meet, or `(false, left)` once the right block is used up.
fn retain_right_buffer(
    data: &TargetArray,
    buf: &mut Buffer,
    left: usize,
    right: usize,
    roffs: &Vec<usize>,
    rs: usize,
    rl: usize,
    pivot: i32,
) -> (r: (bool, usize))
    requires
        data.wf(old(buf)),
        right < data.spec_len(),
        left + PARTITION_BLOCK <= right,
        rl > 0,
        left_ok(data.vals(old(buf)), left as int, pivot),
        right_ok(data.vals(old(buf)), right as int, pivot),
        right_pending(data.vals(old(buf)), right as int, roffs@, rs as int, rl as int, pivot, left as int),
    ensures
        data.frame(old(buf), final(buf)),
        perm(data.vals(final(buf)), data.vals(old(buf))),
        r.0 ==> partitioned(data.vals(final(buf)), r.1 as int, pivot),
        !r.0 ==> {
            let s = data.vals(final(buf));
            &&& r.1 <= right
            &&& left_ok(s, r.1 as int, pivot)
            &&& right_ok(s, right as int, pivot)
            &&& s[r.1 as int] <= pivot
            &&& exists|i: int| r.1 <= i < s.len() && s[i] >= pivot
        },
{
    let ghost s0 = data.vals(buf);
    let ghost n = data.spec_len() as int;
    let mut left = left;
    let mut rs = rs;
    let mut rl = rl;
    loop
        invariant
            data.wf(buf),
            n == data.spec_len(),
            right < n,
            rl > 0,
            data.frame(old(buf), buf),
            s0 == data.vals(old(buf)),
            perm(data.vals(buf), s0),
            right_pending(data.vals(buf), right as int, roffs@, rs as int, rl as int, pivot, left as int),
            left <= right - roffs@[rs as int],
            left_ok(data.vals(buf), left as int, pivot),
            right_ok(data.vals(buf), right as int, pivot),
        decreases (right - roffs@[rs as int]) - left,
    {
        let ghost s = data.vals(buf);
        let v = data.get(buf, left);
        if pivot < v {
            let q = right - roffs[rs];
            data.swap(buf, left, q);
            proof {
                lemma_swapped_perm(s, left as int, q as int);
                let t = data.vals(buf);
                assert(t == swapped(s, left as int, q as int));
                assert forall|o: int|
                    0 <= o < PARTITION_BLOCK && right - o > left && #[trigger] t[right - o] < pivot implies listed(
                    roffs@,
                    rs + 1,
                    rl - 1,
                    o,
                ) by {
                    if o == roffs@[rs as int] {
                        assert(t[right - o] == s[left as int]);
                    } else {
                        assert(t[right - o] == s[right - o]);
                        lemma_listed_drop_first(roffs@, rs as int, rl as int, o);
                    }
                }
                assert forall|k: int| rs + 1 <= k < rs + rl ==> t[right - #[trigger] roffs@[k]] < pivot by {
                    if rs + 1 <= k < rs + rl {
                        assert(roffs@[rs as int] < roffs@[k]);
                        assert(s[right - roffs@[k]] < pivot);
                    }
                }
                assert(t[q as int] > pivot);
            }
            rl = rl - 1;
            rs = rs + 1;
            if rl == 0 {
                return (false, left);
            }
        }
        if left >= right - roffs[rs] {
            proof {
                let t = data.vals(buf);
                assert forall|x: int| left < x < t.len() implies t[x] >= pivot by {
                    if x <= right {
                        let o = right - x;
                        if t[x] < pivot {
                            assert(t[right - o] < pivot);
                            let k = choose|k: int| rs <= k < rs + rl && roffs@[k] == o;
                            if k != rs {
                                assert(roffs@[rs as int] < roffs@[k]);
                            }
                        }
                    }
                }
            }
            return (true, left + 1);
        }
        left = left + 1;
    }
}

/// Recovery when only the left block still holds pending elements: the
/// right cursor walks down and trades each element below the pivot for a
/// pending one.  Returns `(true, k)` with the partition point when the
/// cursors meet, or `(false, right)` once the left block is used up.
fn retain_left_buffer(
    data: &TargetArray,
    buf: &mut Buffer,
    left: usize,
    right: usize,
    loffs: &Vec<usize>,
    ls: usize,
    ll: usize,
    pivot: i32,
) -> (r: (bool, usize))
    requires
        data.wf(old(buf)),
        right < data.spec_len(),
        left + PARTITION_BLOCK <= right,
        ll > 0,
        left_ok(data.vals(old(buf)), left as int, pivot),
        right_ok(data.vals(old(buf)), right as int, pivot),
        left_pending(data.vals(old(buf)), left as int, loffs@, ls as int, ll as int, pivot, right as int),
    ensures
        data.frame(old(buf), final(buf)),
        perm(data.vals(final(buf)), data.vals(old(buf))),
        r.0 ==> partitioned(data.vals(final(buf)), r.1 as int, pivot),
        !r.0 ==> {
            let s = data.vals(final(buf));
            &&& left <= r.1 < s.len()
            &&& left_ok(s, left as int, pivot)
            &&& right_ok(s, r.1 as int, pivot)
            &&& s[r.1 as int] >= pivot
            &&& exists|j: int| 0 <= j <= r.1 && s[j] <= pivot
        },
{
    let ghost s0 = data.vals(buf);
    let ghost n = data.spec_len() as int;
    let mut right = right;
    let mut ls = ls;
    let mut ll = ll;
    loop
        invariant
            data.wf(buf),
            n == data.spec_len(),
            right < n,
            ll > 0,
            data.frame(old(buf), buf),
            s0 == data.vals(old(buf)),
            perm(data.vals(buf), s0),
            left_pending(data.vals(buf), left as int, loffs@, ls as int, ll as int, pivot, right as int),
            left + loffs@[ls as int] <= right,
            left_ok(data.vals(buf), left as int, pivot),
            right_ok(data.vals(buf), right as int, pivot),
        decreases right - (left + loffs@[ls as int]),
    {
        let ghost s = data.vals(buf);
        let v = data.get(buf, right);
        if pivot > v {
            let q = left + loffs[ls];
            data.swap(buf, right, q);
            proof {
                lemma_swapped_perm(s, right as int, q as int);
                let t = data.vals(buf);
                assert(t == swapped(s, right as int, q as int));
                assert forall|o: int|
                    0 <= o < PARTITION_BLOCK && left + o < right && #[trigger] t[left + o] > pivot implies listed(
                    loffs@,
                    ls + 1,
                    ll - 1,
                    o,
                ) by {
                    if o == loffs@[ls as int] {
                        assert(t[left + o] == s[right as int]);
                    } else {
                        assert(t[left + o] == s[left + o]);
                        lemma_listed_drop_first(loffs@, ls as int, ll as int, o);
                    }
                }
                assert forall|k: int| ls + 1 <= k < ls + ll ==> t[left + #[trigger] loffs@[k]] > pivot by {
                    if ls + 1 <= k < ls + ll {
                        assert(loffs@[ls as int] < loffs@[k]);
                        assert(s[left + loffs@[k]] > pivot);
                    }
                }
                assert(t[q as int] < pivot);
            }
            ll = ll - 1;
            ls = ls + 1;
            if ll == 0 {
                return (false, right);
            }
        }
        if left + loffs[ls] >= right {
            proof {
                let t = data.vals(buf);
                assert forall|x: int| 0 <= x < right implies t[x] <= pivot by {
                    if x >= left {
                        let o = x - left;
                        if t[x] > pivot {
                            assert(t[left + o] > pivot);
                            let k = choose|k: int| ls <= k < ls + ll && loffs@[k] == o;
                            if k != ls {
                                assert(loffs@[ls as int] < loffs@[k]);
                            }
                        }
                    }
                }
            }
            return (true, right);
        }
        right = right - 1;
    }
}

/// Two-cursor Hoare scan over what lies between `left` and `right`.  The
/// scans need no bounds checks: an element at least the pivot lies at or
/// after `left`, and one at most the pivot at or before `right`.
fn hoare_scan(
    data: &TargetArray,
    buf: &mut Buffer,
    left: usize,
    right: usize,
    pivot: i32,
    ctx: &mut Context,
) -> (k: usize)
    requires
        data.wf(old(buf)),
        right < data.spec_len(),
        left <= right + 1,
        left_ok(data.vals(old(buf)), left as int, pivot),
        right_ok(data.vals(old(buf)), right as int, pivot),
        exists|i: int| left <= i < data.spec_len() && data.vals(old(buf))[i] >= pivot,
        exists|j: int| 0 <= j <= right && data.vals(old(buf))[j] <= pivot,
    ensures
        data.frame(old(buf), final(buf)),
        perm(data.vals(final(buf)), data.vals(old(buf))),
        partitioned(data.vals(final(buf)), k as int, pivot),
{
    let ghost s0 = data.vals(buf);
    let ghost n = data.spec_len() as int;
    let mut left = left;
    let mut right = right;
    loop
        invariant
            data.wf(buf),
            n == data.spec_len(),
            right < n,
            left <= right + 1,
            data.frame(old(buf), buf),
            s0 == data.vals(old(buf)),
            perm(data.vals(buf), s0),
            left_ok(data.vals(buf), left as int, pivot),
            right_ok(data.vals(buf), right as int, pivot),
            exists|i: int| left <= i < n && data.vals(buf)[i] >= pivot,
            exists|j: int| 0 <= j <= right && data.vals(buf)[j] <= pivot,
        decreases right + 1 - left,
    {
        let ghost s = data.vals(buf);
        let ghost wi = choose|i: int| left <= i < n && s[i] >= pivot;
        let ghost wj = choose|j: int| 0 <= j <= right && s[j] <= pivot;
        let ghost left0 = left;
        let ghost right0 = right;
        ctx.set_phase("Hoare Partition: Left");
        ctx.compare();
        let mut v = data.get(buf, left);
        while v < pivot
            invariant
                data.wf(buf),
                n == data.spec_len(),
                data.vals(buf) == s,
                data.frame(old(buf), buf),
                left0 <= left <= wi < n,
                s[wi] >= pivot,
                v == s[left as int],
                left_ok(s, left as int, pivot),
            decreases wi - left,
        {
            ctx.compare();
            left = left + 1;
            v = data.get(buf, left);
        }
        ctx.set_phase("Hoare Partition: Right");
        ctx.compare();
        let mut w = data.get(buf, right);
        while w > pivot
            invariant
                data.wf(buf),
                n == data.spec_len(),
                data.vals(buf) == s,
                data.frame(old(buf), buf),
                0 <= wj <= right <= right0 < n,
                s[wj] <= pivot,
                w == s[right as int],
                right_ok(s, right as int, pivot),
            decreases right - wj,
        {
            ctx.compare();
            right = right - 1;
            w = data.get(buf, right);
        }
        if left >= right {
            return left;
        }
        data.swap(buf, left, right);
        proof {
            lemma_swapped_perm(s, left as int, right as int);
            let t = data.vals(buf);
            assert(t[right as int] >= pivot);
            assert(t[left as int] <= pivot);
        }
        left = left + 1;
        right = right - 1;
    }
}

/// Finds a position holding `x`.
fn find_value(data: &TargetArray, buf: &mut Buffer, x: i32) -> (m: usize)
    requires
        data.wf(old(buf)),
        data.vals(old(buf)).contains(x),
    ensures
        final(buf)@ == old(buf)@,
        m < data.spec_len(),
        data.vals(old(buf))[m as int] == x,
{
    let ghost s = data.vals(buf);
    let ghost w = choose|i: int| 0 <= i < s.len() && s[i] == x;
    let mut m: usize = 0;
    let mut v = data.get(buf, 0);
    while v != x
        invariant
            data.wf(buf),
            buf@ == old(buf)@,
            s == data.vals(buf),
            0 <= w < s.len(),
            s[w] == x,
            m <= w,
            v == s[m as int],
        decreases w - m,
    {
        m = m + 1;
        v = data.get(buf, m);
    }
    m
}

/// Moves the partition point off either end of a view longer than one, by
/// placing an element equal to the pivot on the short side.
fn ensure_progress(data: &TargetArray, buf: &mut Buffer, k: usize, pivot: i32) -> (r: usize)
    requires
        data.wf(old(buf)),
        data.vals(old(buf)).contains(pivot),
        partitioned(data.vals(old(buf)), k as int, pivot),
    ensures
        data.frame(old(buf), final(buf)),
        perm(data.vals(final(buf)), data.vals(old(buf))),
        partitioned(data.vals(final(buf)), r as int, pivot),
        data.spec_len() > 1 ==> 0 < r < data.spec_len(),
{
    let n = data.len();
    let ghost s = data.vals(buf);
    if n > 1 && k == 0 {
        let m = find_value(data, buf, pivot);
        data.swap(buf, 0, m);
        proof {
            lemma_swapped_perm(s, 0, m as int);
        }
        1
    } else if n > 1 && k == n {
        let m = find_value(data, buf, pivot);
        data.swap(buf, m, n - 1);
        proof {
            lemma_swapped_perm(s, m as int, n - 1);
        }
        n - 1
    } else {
        k
    }
}

/// Block partition: rearranges the view around `pivot`, a value that it
/// holds, and returns `k` such that everything before `k` is at most the
/// pivot and everything from `k` on is at least the pivot.  On a view of
/// more than one element both sides are non-empty.  A view whose values all
/// equal the pivot keeps its values.
pub fn block_partition(data: &TargetArray, buf: &mut Buffer, pivot: i32, ctx: &mut Context) -> (k: usize)
    requires
        data.wf(old(buf)),
        data.vals(old(buf)).contains(pivot),
    ensures
        data.frame(old(buf), final(buf)),
        perm(data.vals(final(buf)), data.vals(old(buf))),
        partitioned(data.vals(final(buf)), k as int, pivot),
        data.spec_len() > 1 ==> 0 < k < data.spec_len(),
        all_le(data.vals(old(buf)), pivot) && all_ge(data.vals(old(buf)), pivot) ==> data.vals(
            final(buf),
        ) == data.vals(old(buf)),
{
    let ghost s0 = data.vals(buf);
    let n = data.len();
    let ghost ni = n as int;

    let mut left: usize = 0;
    let mut ls: usize = 0;
    let mut ll: usize = 0;
    let mut loffs = new_offsets();

    let mut right: usize = n - 1;
    let mut rs: usize = 0;
    let mut rl: usize = 0;
    let mut roffs = new_offsets();

    while right - left + 1 > 2 * PARTITION_BLOCK
        invariant
            data.wf(buf),
            n == data.spec_len(),
            ni == n,
            left <= right < n,
            loffs@.len() == PARTITION_BLOCK,
            roffs@.len() == PARTITION_BLOCK,
            data.frame(old(buf), buf),
            s0 == data.vals(old(buf)),
            perm(data.vals(buf), s0),
            left_ok(data.vals(buf), left as int, pivot),
            right_ok(data.vals(buf), right as int, pivot),
            ll == 0 || rl == 0,
            ll > 0 ==> left + PARTITION_BLOCK <= right && left_pending(
                data.vals(buf),
                left as int,
                loffs@,
                ls as int,
                ll as int,
                pivot,
                ni,
            ),
            rl > 0 ==> left + PARTITION_BLOCK <= right && right_pending(
                data.vals(buf),
                right as int,
                roffs@,
                rs as int,
                rl as int,
                pivot,
                -1,
            ),
            ll == 0 && rl == 0 ==> (left == 0 && right + 1 == n) || (0 < left && right + 1 < n),
        decreases right - left,
    {
        if ll == 0 {
            ctx.set_phase("Block Partition: collect left");
            ls = 0;
            ll = collect_left(data, buf, left, pivot, &mut loffs);
        }
        if rl == 0 {
            ctx.set_phase("Block Partition: collect right");
            rs = 0;
            rl = collect_right(data, buf, right, pivot, &mut roffs);
        }
        ctx.set_phase("Block Partition: rearrangement");
        let num = if ll < rl { ll } else { rl };
        let ghost s = data.vals(buf);
        swap_blocks(data, buf, left, right, &loffs, ls, ll, &roffs, rs, rl, num, pivot);
        proof {
            let t = data.vals(buf);
            assert forall|x: int| 0 <= x < left implies t[x] <= pivot by {
                assert(t[x] == s[x]);
            }
            assert forall|x: int| right < x < ni implies t[x] >= pivot by {
                assert(t[x] == s[x]);
            }
        }
        ll = ll - num;
        rl = rl - num;
        ls = ls + num;
        rs = rs + num;
        if ll == 0 {
            proof {
                let t = data.vals(buf);
                assert forall|x: int| 0 <= x < left + PARTITION_BLOCK implies t[x] <= pivot by {
                    if x >= left {
                        assert(t[left + (x - left)] == t[x]);
                    }
                }
            }
            left = left + PARTITION_BLOCK;
        }
        if rl == 0 {
            proof {
                let t = data.vals(buf);
                assert forall|x: int| right - PARTITION_BLOCK < x < ni implies t[x] >= pivot by {
                    if x <= right {
                        assert(t[right - (right - x)] == t[x]);
                    }
                }
            }
            right = right - PARTITION_BLOCK;
        }
    }

    let mut found = false;
    let mut k: usize = 0;
    if rl > 0 && ll == 0 {
        ctx.set_phase("Retain Right Buffer");
        let r = retain_right_buffer(data, buf, left, right, &roffs, rs, rl, pivot);
        found = r.0;
        if found {
            k = r.1;
        } else {
            left = r.1;
        }
    } else if ll > 0 && rl == 0 {
        ctx.set_phase("Retain Left Buffer");
        let r = retain_left_buffer(data, buf, left, right, &loffs, ls, ll, pivot);
        found = r.0;
        if found {
            k = r.1;
        } else {
            right = r.1;
        }
    } else {
        proof {
            let s = data.vals(buf);
            if left == 0 {
                lemma_perm_contains(s0, s, pivot);
                let w = choose|i: int| 0 <= i < s.len() && s[i] == pivot;
                assert(left <= w < ni && s[w] >= pivot);
                assert(0 <= w <= right && s[w] <= pivot);
            } else {
                assert(s[right + 1] >= pivot);
                assert(s[left - 1] <= pivot);
            }
        }
    }
    if !found {
        k = hoare_scan(data, buf, left, right, pivot, ctx);
    }
    proof {
        lemma_perm_contains(s0, data.vals(buf), pivot);
    }
    let r = ensure_progress(data, buf, k, pivot);
    proof {
        let t = data.vals(buf);
        if all_le(s0, pivot) && all_ge(s0, pivot) {
            lemma_perm_le(s0, t, pivot);
            lemma_perm_ge(s0, t, pivot);
            assert(t =~= s0);
        }
    }
    r
}

} // verus!
