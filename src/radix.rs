use vstd::prelude::*;
use crate::array::{Buffer, TargetArray};
use crate::order::{perm, sorted, all_ge, lemma_perm_ge};

verus! {

broadcast use vstd::seq_lib::group_to_multiset_ensures;

/// Bit `b` of the two's-complement pattern of `v`.
pub open spec fn has_bit(v: i32, b: u32) -> bool {
    v & (1i32 << b) != 0
}

pub open spec fn pow2(b: nat) -> nat
    decreases b,
{
    if b == 0 {
        1
    } else {
        2 * pow2((b - 1) as nat)
    }
}

/// The number formed by the lowest `b` bits of `v`.
pub open spec fn low_bits(v: i32, b: nat) -> nat
    decreases b,
{
    if b == 0 {
        0
    } else {
        low_bits(v, (b - 1) as nat) + if has_bit(v, (b - 1) as u32) {
            pow2((b - 1) as nat)
        } else {
            0
        }
    }
}

/// The value of the 32-bit pattern of `v` read as an unsigned number; for a
/// non-negative `v` it is `v` itself.
pub open spec fn bit_pattern(v: i32) -> nat {
    low_bits(v, 32)
}

/// Non-decreasing in the lowest `b` bits.
pub open spec fn sorted_by_low(s: Seq<i32>, b: nat) -> bool {
    forall|i: int, j: int| 0 <= i < j < s.len() ==> low_bits(s[i], b) <= low_bits(s[j], b)
}

/// How many of `s[..i]` have bit `b` clear.
pub open spec fn count_clear(s: Seq<i32>, b: u32, i: int) -> int
    decreases i,
{
    if i <= 0 {
        0
    } else {
        count_clear(s, b, i - 1) + if has_bit(s[i - 1], b) {
            0int
        } else {
            1int
        }
    }
}

proof fn lemma_low_bits_bound(v: i32, b: nat)
    ensures
        low_bits(v, b) < pow2(b),
    decreases b,
{
    if b > 0 {
        lemma_low_bits_bound(v, (b - 1) as nat);
    }
}

proof fn lemma_count_clear_mono(s: Seq<i32>, b: u32, i: int, j: int)
    requires
        0 <= i <= j,
    ensures
        0 <= count_clear(s, b, j) - count_clear(s, b, i) <= j - i,
    decreases j - i,
{
    if i < j {
        lemma_count_clear_mono(s, b, i, j - 1);
    }
}

/// Bits from `b` up to `c` that are all clear add nothing.
proof fn lemma_low_bits_stable(v: i32, b: nat, c: nat)
    requires
        b <= c <= 32,
        forall|k: u32| b <= k < c ==> !has_bit(v, k),
    ensures
        low_bits(v, c) == low_bits(v, b),
    decreases c,
{
    if b < c {
        assert(!has_bit(v, (c - 1) as u32));
        lemma_low_bits_stable(v, b, (c - 1) as nat);
    }
}

proof fn lemma_pow2_shift(b: u32)
    requires
        b < 32,
    ensures
        pow2(b as nat) == (1u32 << b) as nat,
    decreases b,
{
    if b > 0 {
        let c: u32 = (b - 1) as u32;
        lemma_pow2_shift(c);
        assert((1u32 << b) == 2 * (1u32 << c)) by (bit_vector)
            requires
                c < 31,
                b == c + 1,
        ;
    } else {
        assert((1u32 << 0u32) == 1) by (bit_vector);
    }
}

proof fn lemma_low_bits_mask(v: i32, b: u32)
    requires
        b <= 31,
    ensures
        low_bits(v, b as nat) == ((v as u32) & (((1u32 << b) - 1) as u32)) as nat,
    decreases b,
{
    let x = v as u32;
    if b == 0 {
        assert((x & (((1u32 << 0u32) - 1) as u32)) == 0) by (bit_vector);
    } else {
        let c: u32 = (b - 1) as u32;
        lemma_low_bits_mask(v, c);
        lemma_pow2_shift(c);
        assert(has_bit(v, c) == ((x & (1u32 << c)) != 0)) by (bit_vector)
            requires
                c < 31,
                x == v as u32,
        ;
        assert((x & (((1u32 << b) - 1) as u32)) == (x & (((1u32 << c) - 1) as u32)) + if (x & (1u32
            << c)) != 0 {
            1u32 << c
        } else {
            0u32
        }) by (bit_vector)
            requires
                c < 31,
                b == c + 1,
        ;
    }
}

/// The bit pattern of a non-negative value reads as the value itself.
pub proof fn lemma_bit_pattern_nonneg(v: i32)
    requires
        v >= 0,
    ensures
        bit_pattern(v) == v,
{
    let x = v as u32;
    lemma_low_bits_mask(v, 31);
    assert(!has_bit(v, 31)) by (bit_vector)
        requires
            v >= 0,
    ;
    assert((x & (((1u32 << 31u32) - 1) as u32)) == x) by (bit_vector)
        requires
            v >= 0,
            x == v as u32,
    ;
    assert(low_bits(v, 32) == low_bits(v, 31));
}

/// One stable pass on bit `b`: the elements with the bit clear, then those
/// with it set, each group in its earlier order.
fn radix_pass(data: &TargetArray, buf: &mut Buffer, temp: &mut Vec<i32>, bit: u32)
    requires
        data.wf(old(buf)),
        bit < 32,
        old(temp)@.len() == data.spec_len(),
        sorted_by_low(data.vals(old(buf)), bit as nat),
    ensures
        data.frame(old(buf), final(buf)),
        perm(data.vals(final(buf)), data.vals(old(buf))),
        sorted_by_low(data.vals(final(buf)), bit as nat + 1),
        final(temp)@.len() == data.spec_len(),
{
    let n = data.len();
    let ghost s = data.vals(buf);
    let mut counter: usize = 0;
    let mut i: usize = 0;
    while i < n
        invariant
            data.wf(buf),
            buf@ == old(buf)@,
            s == data.vals(buf),
            n == data.spec_len(),
            bit < 32,
            i <= n,
            temp@.len() == n,
            forall|x: int| 0 <= x < i ==> temp@[x] == s[x],
            counter == count_clear(s, bit, i as int),
            counter <= i,
        decreases n - i,
    {
        let value = data.get(buf, i);
        temp.set(i, value);
        if (value & (1i32 << bit)) == 0 {
            counter = counter + 1;
        }
        i = i + 1;
    }
    let ghost t = temp@;
    assert(t =~= s);
    proof {
        lemma_count_clear_mono(t, bit, 0, n as int);
    }
    let mut idx0: usize = 0;
    let mut idx1: usize = counter;
    let mut i: usize = 0;
    while i < n
        invariant
            data.wf(buf),
            n == data.spec_len(),
            s == data.vals(old(buf)),
            t == s,
            temp@ == t,
            t.len() == n,
            data.frame(old(buf), buf),
            bit < 32,
            i <= n,
            sorted_by_low(t, bit as nat),
            counter == count_clear(t, bit, n as int),
            idx0 == count_clear(t, bit, i as int),
            idx1 == counter + (i - idx0),
            idx0 <= counter <= idx1 <= n,
            forall|x: int| 0 <= x < idx0 ==> !has_bit(#[trigger] data.vals(buf)[x], bit),
            forall|x: int| counter <= x < idx1 ==> has_bit(#[trigger] data.vals(buf)[x], bit),
            forall|x: int, y: int|
                0 <= x < y < idx0 ==> low_bits(#[trigger] data.vals(buf)[x], bit as nat) <= low_bits(
                    #[trigger] data.vals(buf)[y],
                    bit as nat,
                ),
            forall|x: int, y: int|
                counter <= x < y < idx1 ==> low_bits(#[trigger] data.vals(buf)[x], bit as nat)
                    <= low_bits(#[trigger] data.vals(buf)[y], bit as nat),
            i < n ==> forall|x: int|
                (0 <= x < idx0 || counter <= x < idx1) ==> low_bits(#[trigger] data.vals(buf)[x], bit as nat)
                    <= low_bits(t[i as int], bit as nat),
            (data.vals(buf).subrange(0, idx0 as int) + data.vals(buf).subrange(
                counter as int,
                idx1 as int,
            )).to_multiset() == t.subrange(0, i as int).to_multiset(),
        decreases n - i,
    {
        let ghost out = data.vals(buf);
        let value = temp[i];
        proof {
            lemma_count_clear_mono(t, bit, i as int, i + 1);
            lemma_count_clear_mono(t, bit, i + 1, n as int);
            assert(t.subrange(0, i + 1) =~= t.subrange(0, i as int).push(value));
            vstd::seq_lib::lemma_multiset_commutative(
                out.subrange(0, idx0 as int),
                out.subrange(counter as int, idx1 as int),
            );
        }
        if (value & (1i32 << bit)) == 0 {
            data.set(buf, idx0, value);
            proof {
                let o2 = data.vals(buf);
                assert(o2.subrange(0, idx0 + 1) =~= out.subrange(0, idx0 as int).push(value));
                assert(o2.subrange(counter as int, idx1 as int) =~= out.subrange(counter as int, idx1 as int));
                vstd::seq_lib::lemma_multiset_commutative(
                    o2.subrange(0, idx0 + 1),
                    o2.subrange(counter as int, idx1 as int),
                );
                assert((o2.subrange(0, idx0 + 1) + o2.subrange(counter as int, idx1 as int)).to_multiset()
                    =~= t.subrange(0, i + 1).to_multiset());
                if i + 1 < n {
                    assert(low_bits(t[i as int], bit as nat) <= low_bits(t[i + 1], bit as nat));
                }
            }
            idx0 = idx0 + 1;
        } else {
            data.set(buf, idx1, value);
            proof {
                let o2 = data.vals(buf);
                assert(o2.subrange(0, idx0 as int) =~= out.subrange(0, idx0 as int));
                assert(o2.subrange(counter as int, idx1 + 1) =~= out.subrange(counter as int, idx1 as int).push(value));
                vstd::seq_lib::lemma_multiset_commutative(
                    o2.subrange(0, idx0 as int),
                    o2.subrange(counter as int, idx1 + 1),
                );
                assert((o2.subrange(0, idx0 as int) + o2.subrange(counter as int, idx1 + 1)).to_multiset()
                    =~= t.subrange(0, i + 1).to_multiset());
                if i + 1 < n {
                    assert(low_bits(t[i as int], bit as nat) <= low_bits(t[i + 1], bit as nat));
                }
            }
            idx1 = idx1 + 1;
        }
        i = i + 1;
    }
    proof {
        let o = data.vals(buf);
        assert(o =~= o.subrange(0, idx0 as int) + o.subrange(counter as int, idx1 as int));
        assert(t.subrange(0, n as int) =~= t);
        assert forall|x: int, y: int| 0 <= x < y < n implies low_bits(o[x], bit as nat + 1) <= low_bits(
            o[y],
            bit as nat + 1,
        ) by {
            assert(low_bits(o[x], bit as nat + 1) == low_bits(o[x], bit as nat) + if has_bit(o[x], bit) {
                pow2(bit as nat)
            } else {
                0
            });
            assert(low_bits(o[y], bit as nat + 1) == low_bits(o[y], bit as nat) + if has_bit(o[y], bit) {
                pow2(bit as nat)
            } else {
                0
            });
            lemma_low_bits_bound(o[x], bit as nat);
        }
    }
}

/// Least-significant-bit radix sort of the view, one stable pass per bit
/// up to the highest bit set in any value.  The result is ordered by the
/// unsigned reading of each value's bit pattern, which is the numeric order
/// when no value is negative.
pub fn radixsort(data: &TargetArray, buf: &mut Buffer)
    requires
        data.wf(old(buf)),
    ensures
        data.frame(old(buf), final(buf)),
        perm(data.vals(final(buf)), data.vals(old(buf))),
        forall|i: int, j: int|
            0 <= i < j < data.spec_len() ==> bit_pattern(data.vals(final(buf))[i]) <= bit_pattern(
                data.vals(final(buf))[j],
            ),
        all_ge(data.vals(old(buf)), 0) ==> sorted(data.vals(final(buf))),
{
    let n = data.len();
    let ghost s0 = data.vals(buf);
    let mut temp: Vec<i32> = Vec::new();
    let mut k: usize = 0;
    while k < n
        invariant
            k <= n,
            temp@.len() == k,
        decreases n - k,
    {
        temp.push(0);
        k = k + 1;
    }
    let mut max_bits: u32 = 0;
    let mut i: usize = 0;
    while i < n
        invariant
            data.wf(buf),
            buf@ == old(buf)@,
            s0 == data.vals(buf),
            n == data.spec_len(),
            i <= n,
            max_bits < 32,
            forall|x: int, b: u32| 0 <= x < i && max_bits < b < 32 ==> !#[trigger] has_bit(s0[x], b),
        decreases n - i,
    {
        let value = data.get(buf, i);
        let mut bit: u32 = 0;
        while bit < 32
            invariant
                bit <= 32,
                max_bits < 32,
                value == s0[i as int],
                i < n,
                forall|x: int, b: u32| 0 <= x < i && max_bits < b < 32 ==> !#[trigger] has_bit(s0[x], b),
                forall|b: u32| b < bit && max_bits < b ==> !has_bit(value, b),
            decreases 32 - bit,
        {
            if (value & (1i32 << bit)) != 0 {
                if bit > max_bits {
                    max_bits = bit;
                }
            }
            bit = bit + 1;
        }
        i = i + 1;
    }
    let mut bit: u32 = 0;
    while bit <= max_bits
        invariant
            data.wf(buf),
            n == data.spec_len(),
            s0 == data.vals(old(buf)),
            max_bits < 32,
            bit <= max_bits + 1,
            temp@.len() == n,
            data.frame(old(buf), buf),
            perm(data.vals(buf), s0),
            sorted_by_low(data.vals(buf), bit as nat),
        decreases max_bits + 1 - bit,
    {
        radix_pass(data, buf, &mut temp, bit);
        bit = bit + 1;
    }
    proof {
        let o = data.vals(buf);
        assert forall|x: int| 0 <= x < n implies low_bits(#[trigger] o[x], 32) == low_bits(o[x], max_bits as nat + 1) by {
            assert(o.contains(o[x]));
            assert(o.to_multiset().count(o[x]) > 0);
            assert(s0.to_multiset().count(o[x]) > 0);
            assert(s0.contains(o[x]));
            let w = choose|w: int| 0 <= w < n && s0[w] == o[x];
            assert forall|b: u32| max_bits + 1 <= b < 32 implies !has_bit(o[x], b) by {
                assert(!has_bit(s0[w], b));
            }
            lemma_low_bits_stable(o[x], max_bits as nat + 1, 32);
        }
        if all_ge(s0, 0) {
            lemma_perm_ge(s0, o, 0);
            assert forall|x: int, y: int| 0 <= x < y < o.len() implies o[x] <= o[y] by {
                lemma_bit_pattern_nonneg(o[x]);
                lemma_bit_pattern_nonneg(o[y]);
            }
        }
    }
}

} // verus!
