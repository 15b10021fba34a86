use vstd::prelude::*;
use rand::Rng;
use crate::array::{Buffer, TargetArray, lemma_sorted_halves, lemma_split_vals};
use crate::context::Context;
use crate::heap::heapsort;
use crate::insertion::{insertion_sort, INSERTION_SORT_THRESHOLD};
use crate::order::{sorted, perm, all_le, all_ge};
use crate::partition::block_partition;

verus! {

/// Relies on rand::Rng::gen_range on rand::thread_rng: a uniformly drawn
/// value of the half-open range `0..len`, which must not be empty.
#[verifier::external_body]
fn random_index(len: usize) -> (r: usize)
    requires
        len > 0,
    ensures
        r < len,
{
    rand::thread_rng().gen_range(0..len)
}

/// Floor of the base-two logarithm; zero for zero and one.
pub open spec fn log2(n: nat) -> nat
    decreases n,
{
    if n <= 1 {
        0
    } else {
        1 + log2(n / 2)
    }
}

proof fn lemma_log2_bound(n: nat)
    requires
        n >= 1,
    ensures
        2 * log2(n) <= n,
    decreases n,
{
    if n >= 4 {
        lemma_log2_bound(n / 2);
    } else if n >= 2 {
        assert(log2(n / 2) == 0);
    }
}

/// The recursion budget of introsort: twice the base-two logarithm of the
/// length.
pub fn depth_limit(len: usize) -> (r: usize)
    ensures
        r == 2 * log2(len as nat),
{
    let mut n = len;
    let mut r: usize = 0;
    while n > 1
        invariant
            r + 2 * log2(n as nat) == 2 * log2(len as nat),
            len >= 1 ==> n >= 1,
            n <= len,
        decreases n,
    {
        proof {
            lemma_log2_bound(len as nat);
        }
        n = n / 2;
        r = r + 2;
    }
    r
}

/// Introsort: block-partition quicksort on a random pivot, insertion sort
/// for short views, and heapsort once the recursion budget is spent.
pub fn introsort(data: &TargetArray, buf: &mut Buffer, ctx: &mut Context)
    requires
        data.wf(old(buf)),
    ensures
        data.sorted_within(old(buf), final(buf)),
{
    let len = data.len();
    let limit = depth_limit(len);
    introsort_recur(*data, buf, ctx, limit);
}

fn introsort_recur(data: TargetArray, buf: &mut Buffer, ctx: &mut Context, recur_limit: usize)
    requires
        data.wf(old(buf)),
    ensures
        data.sorted_within(old(buf), final(buf)),
    decreases recur_limit,
{
    let len = data.len();
    if len <= 1 {
        proof {
            assert(sorted(data.vals(buf)));
        }
        return;
    }
    if len <= INSERTION_SORT_THRESHOLD {
        insertion_sort(&data, buf);
        return;
    }
    if recur_limit == 0 {
        heapsort(&data, buf, ctx);
        return;
    }
    let index = random_index(len);
    let guard = data.acquire_pivot(buf, index);
    let pivot = guard.value();
    proof {
        assert(data.vals(buf)[index as int] == pivot);
    }
    let partition = block_partition(&data, buf, pivot, ctx);
    guard.release(buf);
    let ghost b1 = *buf;
    let (a, b) = data.split_at(partition);
    proof {
        lemma_split_vals(data, a, b, partition as int, &b1);
        let s = data.vals(&b1);
        assert(all_le(s.subrange(0, partition as int), pivot)) by {
            assert forall|x: int| 0 <= x < partition implies s.subrange(0, partition as int)[x] <= pivot by {
                assert(s[x] <= pivot);
            }
        }
        assert(all_ge(s.subrange(partition as int, len as int), pivot)) by {
            assert forall|x: int| 0 <= x < len - partition implies s.subrange(partition as int, len as int)[x] >= pivot by {
                assert(s[partition + x] >= pivot);
            }
        }
    }
    introsort_recur(a, buf, ctx, recur_limit - 1);
    let ghost b2 = *buf;
    introsort_recur(b, buf, ctx, recur_limit - 1);
    proof {
        lemma_sorted_halves(data, a, b, partition as int, pivot, &b1, &b2, buf);
    }
}

} // verus!
