use vstd::prelude::*;
use vstd::multiset::Multiset;
use crate::array::{Buffer, TargetArray};
use crate::order::{sorted, perm};

verus! {

broadcast use vstd::seq_lib::group_to_multiset_ensures, vstd::multiset::group_multiset_axioms;

/// The largest difference between the greatest and the least value that
/// bucket sort takes on; it bounds the counter array.
pub const BUCKET_SPREAD_LIMIT: i64 = 128_000;

/// Why a sort refused its input.
#[derive(Clone, Copy, Debug, PartialEq, Eq, Structural)]
pub enum SortError {
    /// The values lie further apart than the counter array allows.
    SpreadTooLarge,
}

/// Two values of `s` lie more than `bound` apart.
pub open spec fn spread_exceeds(s: Seq<i32>, bound: int) -> bool {
    exists|i: int, j: int| 0 <= i < s.len() && 0 <= j < s.len() && s[j] - s[i] > bound
}

/// Bucket (counting) sort of the view.  Fails, changing no value, when the
/// greatest and least values differ by more than `BUCKET_SPREAD_LIMIT`.
pub fn bucket_sort(data: &TargetArray, buf: &mut Buffer) -> (r: Result<(), SortError>)
    requires
        data.wf(old(buf)),
    ensures
        r is Err <==> spread_exceeds(data.vals(old(buf)), BUCKET_SPREAD_LIMIT as int),
        r is Ok ==> data.sorted_within(old(buf), final(buf)),
        r is Err ==> final(buf)@ == old(buf)@ && r == Err::<(), SortError>(SortError::SpreadTooLarge),
{
    let n = data.len();
    let ghost s = data.vals(buf);
    if n == 0 {
        return Ok(());
    }
    let first = data.get(buf, 0);
    let mut min = first;
    let mut max = first;
    let ghost mut wmin: int = 0;
    let ghost mut wmax: int = 0;
    let mut i: usize = 1;
    while i < n
        invariant
            data.wf(buf),
            buf@ == old(buf)@,
            s == data.vals(buf),
            n == data.spec_len(),
            1 <= i <= n,
            forall|x: int| 0 <= x < i ==> min <= #[trigger] s[x] <= max,
            0 <= wmin < n,
            0 <= wmax < n,
            s[wmin] == min,
            s[wmax] == max,
        decreases n - i,
    {
        let v = data.get(buf, i);
        if v < min {
            min = v;
            proof {
                wmin = i as int;
            }
        }
        if v > max {
            max = v;
            proof {
                wmax = i as int;
            }
        }
        i = i + 1;
    }
    let diff: i64 = max as i64 - min as i64;
    if diff > BUCKET_SPREAD_LIMIT {
        assert(s[wmax] - s[wmin] > BUCKET_SPREAD_LIMIT);
        return Err(SortError::SpreadTooLarge);
    }
    assert(!spread_exceeds(s, BUCKET_SPREAD_LIMIT as int)) by {
        assert forall|a: int, b: int| 0 <= a < s.len() && 0 <= b < s.len() implies !(s[b] - s[a]
            > BUCKET_SPREAD_LIMIT) by {
            assert(min <= s[a] && s[b] <= max);
        }
    }
    let size = (diff + 1) as usize;
    let mut counter: Vec<usize> = Vec::new();
    let mut k: usize = 0;
    while k < size
        invariant
            k <= size,
            counter@.len() == k,
            forall|x: int| 0 <= x < k ==> counter@[x] == 0,
        decreases size - k,
    {
        counter.push(0);
        k = k + 1;
    }
    let mut i: usize = 0;
    while i < n
        invariant
            data.wf(buf),
            buf@ == old(buf)@,
            s == data.vals(buf),
            n == data.spec_len(),
            i <= n,
            size == max - min + 1,
            counter@.len() == size,
            forall|x: int| 0 <= x < n ==> min <= #[trigger] s[x] <= max,
            forall|x: int| 0 <= x < size ==> #[trigger] counter@[x] == s.subrange(0, i as int).to_multiset().count((min + x) as i32),
        decreases n - i,
    {
        let v = data.get(buf, i);
        let idx = (v as i64 - min as i64) as usize;
        proof {
            assert(s.subrange(0, i + 1) =~= s.subrange(0, i as int).push(v));
            let m = s.subrange(0, i as int).to_multiset();
            assert(m.count(v) <= m.len());
            assert(m.len() == i);
            assert(((min + idx) as i32) == v);
        }
        let c = counter[idx];
        counter.set(idx, c + 1);
        proof {
            assert forall|x: int| 0 <= x < size implies #[trigger] counter@[x] == s.subrange(0, i + 1).to_multiset().count((min + x) as i32) by {
                assert(s.subrange(0, i + 1) =~= s.subrange(0, i as int).push(v));
            }
        }
        i = i + 1;
    }
    assert(s.subrange(0, n as int) =~= s);
    let ghost ms = s.to_multiset();
    let ghost mut rest = ms;
    let mut index: usize = 0;
    let mut i: usize = 0;
    proof {
        assert forall|v: i32| rest.count(v) > 0 implies min <= v <= max by {
            assert(s.contains(v));
        }
        assert(data.vals(buf).subrange(0, 0).to_multiset() =~= Multiset::empty());
        assert(data.vals(buf).subrange(0, 0).to_multiset().add(rest) =~= ms);
    }
    while i < size
        invariant
            data.wf(buf),
            n == data.spec_len(),
            s == data.vals(old(buf)),
            ms == s.to_multiset(),
            data.frame(old(buf), buf),
            i <= size,
            index <= n,
            size == max - min + 1,
            counter@.len() == size,
            data.vals(buf).subrange(0, index as int).to_multiset().add(rest) == ms,
            forall|v: i32| rest.count(v) > 0 ==> min + i <= v <= max,
            forall|x: int| i <= x < size ==> #[trigger] counter@[x] == rest.count((min + x) as i32),
            sorted(data.vals(buf).subrange(0, index as int)),
            forall|z: int| 0 <= z < index ==> data.vals(buf)[z] < min + i,
        decreases size - i,
    {
        let count = counter[i];
        let value = (min as i64 + i as i64) as i32;
        let mut j: usize = 0;
        while j < count
            invariant
                data.wf(buf),
                n == data.spec_len(),
                ms == s.to_multiset(),
                s.len() == n,
                data.frame(old(buf), buf),
                i < size,
                j <= count,
                index <= n,
                value == min + i,
                size == max - min + 1,
                counter@.len() == size,
                data.vals(buf).subrange(0, index as int).to_multiset().add(rest) == ms,
                forall|v: i32| rest.count(v) > 0 ==> min + i <= v <= max,
                rest.count(value) == count - j,
                forall|x: int| i < x < size ==> #[trigger] counter@[x] == rest.count((min + x) as i32),
                sorted(data.vals(buf).subrange(0, index as int)),
                forall|z: int| 0 <= z < index ==> data.vals(buf)[z] <= value,
            decreases count - j,
        {
            let ghost t = data.vals(buf);
            let ghost p = t.subrange(0, index as int).to_multiset();
            proof {
                assert(rest.count(value) <= rest.len());
                assert(p.len() == index);
                assert(p.add(rest).len() == ms.len());
                assert(ms.len() == n);
            }
            data.set(buf, index, value);
            proof {
                let t2 = data.vals(buf);
                assert(t2.subrange(0, index + 1) =~= t.subrange(0, index as int).push(value));
                let r2 = rest.remove(value);
                assert(p.insert(value).add(r2) =~= p.add(rest));
                rest = r2;
                let u = t2.subrange(0, index + 1);
                assert forall|a: int, b: int| 0 <= a < b < index + 1 implies #[trigger] u[a]
                    <= #[trigger] u[b] by {
                    assert(u[a] == t[a]);
                    if b < index {
                        assert(t.subrange(0, index as int)[a] <= t.subrange(0, index as int)[b]);
                    } else {
                        assert(t[a] <= value);
                    }
                }
                assert(sorted(t2.subrange(0, index + 1)));
            }
            index = index + 1;
            j = j + 1;
        }
        assert(forall|v: i32| rest.count(v) > 0 ==> min + i + 1 <= v <= max);
        i = i + 1;
    }
    proof {
        let t = data.vals(buf);
        assert(rest =~= Multiset::empty()) by {
            assert forall|v: i32| rest.count(v) == 0 by {
                if rest.count(v) > 0 {
                    assert(min + size <= v <= max);
                }
            }
        }
        let p = t.subrange(0, index as int).to_multiset();
        assert(p.add(rest) =~= p);
        assert(p.len() == index);
        assert(index == n);
        assert(t.subrange(0, n as int) =~= t);
    }
    Ok(())
}

} // verus!
