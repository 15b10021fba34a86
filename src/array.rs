use vstd::prelude::*;
use crate::mark::{Mark, MarkType, Value};
use crate::order::{swapped, sorted, perm, all_le, all_ge, lemma_perm_le, lemma_perm_ge, lemma_perm_concat, lemma_sorted_concat};

verus! {

/// The elements that one sort works on.
pub struct Buffer {
    pub data: Vec<Value>,
}

impl View for Buffer {
    type V = Seq<i32>;

    open spec fn view(&self) -> Seq<i32> {
        Seq::new(self.data@.len(), |i: int| self.data@[i].value)
    }
}

/// An element after one more shown frame: its mark clears once it has been
/// shown for `shown_frames` frames, else it counts the frame.
pub open spec fn ticked(e: Value, shown_frames: usize) -> Value {
    if e.mark.frames + 1 >= shown_frames {
        marked(e.value, MarkType::Unmarked)
    } else {
        Value { value: e.value, mark: Mark { ty: e.mark.ty, frames: (e.mark.frames + 1) as usize } }
    }
}

impl Buffer {
    /// A buffer holding `values`, none of them marked.
    pub fn new(values: &Vec<i32>) -> (r: Buffer)
        ensures
            r@ == values@,
            forall|i: int| 0 <= i < r.data@.len() ==> r.data@[i].mark.ty == MarkType::Unmarked,
    {
        let mut data: Vec<Value> = Vec::new();
        let mut i: usize = 0;
        while i < values.len()
            invariant
                i <= values.len(),
                data@.len() == i,
                forall|k: int| 0 <= k < i ==> (#[trigger] data@[k]).value == values@[k],
                forall|k: int| 0 <= k < i ==> (#[trigger] data@[k]).mark.ty == MarkType::Unmarked,
            decreases values.len() - i,
        {
            let v = Value::new(values[i]);
            data.push(v);
            assert(data@[i as int] == v);
            assert(v.mark.ty == MarkType::Unmarked);
            i = i + 1;
        }
        let r = Buffer { data };
        assert(r@ =~= values@);
        r
    }

    pub fn len(&self) -> (r: usize)
        ensures
            r == self@.len(),
    {
        self.data.len()
    }

    /// The values, in order.
    pub fn values(&self) -> (r: Vec<i32>)
        ensures
            r@ == self@,
    {
        let mut r: Vec<i32> = Vec::new();
        let mut i: usize = 0;
        while i < self.data.len()
            invariant
                i <= self.data@.len(),
                r@ =~= self@.subrange(0, i as int),
            decreases self.data@.len() - i,
        {
            r.push(self.data[i].value);
            i = i + 1;
        }
        r
    }

    pub fn mark_type(&self, index: usize) -> (r: MarkType)
        requires
            index < self@.len(),
        ensures
            r == self.data@[index as int].mark.ty,
    {
        self.data[index].mark.ty
    }

    /// Counts one shown frame on every mark; a mark shown for `shown_frames`
    /// frames is cleared.  The values stay.
    pub fn tick_marks(&mut self, shown_frames: usize)
        ensures
            final(self)@ == old(self)@,
            final(self).data@.len() == old(self).data@.len(),
            forall|i: int| 0 <= i < old(self).data@.len() ==> #[trigger] final(self).data@[i] == ticked(old(self).data@[i], shown_frames),
    {
        let mut i: usize = 0;
        while i < self.data.len()
            invariant
                i <= self.data@.len(),
                self.data@.len() == old(self).data@.len(),
                self@ == old(self)@,
                forall|k: int| i <= k < self.data@.len() ==> self.data@[k] == old(self).data@[k],
                forall|k: int| 0 <= k < i ==> #[trigger] self.data@[k] == ticked(old(self).data@[k], shown_frames),
            decreases self.data@.len() - i,
        {
            let mut e = self.data[i];
            e.mark.tick(shown_frames);
            self.data.set(i, e);
            i = i + 1;
            assert(self@ =~= old(self)@);
        }
    }

    fn mark_at(&mut self, index: usize, ty: MarkType)
        requires
            index < old(self)@.len(),
        ensures
            final(self)@ == old(self)@,
            final(self).data@.len() == old(self).data@.len(),
            final(self).data@ == old(self).data@.update(index as int, marked(old(self).data@[index as int].value, ty)),
    {
        let mut e = self.data[index];
        e.mark.set(ty);
        self.data.set(index, e);
        assert(self@ =~= old(self)@);
    }

    fn write_at(&mut self, index: usize, value: i32)
        requires
            index < old(self)@.len(),
        ensures
            final(self)@ == old(self)@.update(index as int, value),
            final(self).data@.len() == old(self).data@.len(),
            final(self).data@ == old(self).data@.update(index as int, marked(value, MarkType::Write)),
    {
        let mut e = self.data[index];
        e.value = value;
        e.mark.set(MarkType::Write);
        self.data.set(index, e);
        assert(self@ =~= old(self)@.update(index as int, value));
    }
}

/// An element holding `value` whose mark was just set to `ty`.
pub open spec fn marked(value: i32, ty: MarkType) -> Value {
    Value { value, mark: Mark { ty, frames: 0 } }
}

/// A view of the range `[start, end)` of a buffer.  Indices given to its
/// methods are relative to `start`.
#[derive(Clone, Copy, Debug, PartialEq, Eq, Structural)]
pub struct TargetArray {
    pub start: usize,
    pub end: usize,
}

impl TargetArray {
    /// The view lies within `buf`.
    pub open spec fn wf(self, buf: &Buffer) -> bool {
        self.start <= self.end <= buf@.len()
    }

    pub open spec fn spec_len(self) -> nat {
        (self.end - self.start) as nat
    }

    /// The values that the view sees.
    pub open spec fn vals(self, buf: &Buffer) -> Seq<i32> {
        buf@.subrange(self.start as int, self.end as int)
    }

    /// `b` differs from `a` at most inside the view.
    pub open spec fn frame(self, a: &Buffer, b: &Buffer) -> bool {
        &&& a@.len() == b@.len()
        &&& forall|i: int|
            0 <= i < a@.len() && !(self.start <= i < self.end) ==> #[trigger] b@[i] == a@[i]
    }

    /// From `a` to `b` the view became a sorted permutation of what it held,
    /// and nothing outside it changed.
    pub open spec fn sorted_within(self, a: &Buffer, b: &Buffer) -> bool {
        &&& self.frame(a, b)
        &&& sorted(self.vals(b))
        &&& perm(self.vals(b), self.vals(a))
    }

    /// A view of the whole of `buf`.
    pub fn whole(buf: &Buffer) -> (r: TargetArray)
        ensures
            r.wf(buf),
            r.vals(buf) == buf@,
            r.start == 0,
    {
        let r = TargetArray { start: 0, end: buf.len() };
        assert(r.vals(buf) =~= buf@);
        r
    }

    pub fn len(&self) -> (r: usize)
        requires
            self.start <= self.end,
        ensures
            r == self.spec_len(),
    {
        self.end - self.start
    }

    pub fn range(&self) -> (r: std::ops::Range<usize>)
        ensures
            r.start == self.start,
            r.end == self.end,
    {
        self.start..self.end
    }

    /// Reads the element at `index`, marking it as read.
    pub fn get(&self, buf: &mut Buffer, index: usize) -> (r: i32)
        requires
            self.wf(old(buf)),
            index < self.spec_len(),
        ensures
            r == self.vals(old(buf))[index as int],
            final(buf)@ == old(buf)@,
            final(buf).data@[self.start + index].mark.ty == MarkType::Read,
            final(buf).data@ == old(buf).data@.update(
                self.start + index,
                marked(old(buf).data@[self.start + index].value, MarkType::Read),
            ),
    {
        buf.mark_at(self.start + index, MarkType::Read);
        buf.data[self.start + index].value
    }

    /// Reads the element at `index`, marking it as the pivot.
    pub fn get_pivot(&self, buf: &mut Buffer, index: usize) -> (r: i32)
        requires
            self.wf(old(buf)),
            index < self.spec_len(),
        ensures
            r == self.vals(old(buf))[index as int],
            final(buf)@ == old(buf)@,
            final(buf).data@[self.start + index].mark.ty == MarkType::Pivot,
            final(buf).data@ == old(buf).data@.update(
                self.start + index,
                marked(old(buf).data@[self.start + index].value, MarkType::Pivot),
            ),
    {
        buf.mark_at(self.start + index, MarkType::Pivot);
        buf.data[self.start + index].value
    }

    /// Stores `value` at `index`, marking it as written.
    pub fn set(&self, buf: &mut Buffer, index: usize, value: i32)
        requires
            self.wf(old(buf)),
            index < self.spec_len(),
        ensures
            self.vals(final(buf)) == self.vals(old(buf)).update(index as int, value),
            self.frame(old(buf), final(buf)),
            final(buf).data@[self.start + index].mark.ty == MarkType::Write,
            final(buf).data@ == old(buf).data@.update(self.start + index, marked(value, MarkType::Write)),
    {
        buf.write_at(self.start + index, value);
        assert(self.vals(buf) =~= self.vals(old(buf)).update(index as int, value));
    }

    /// Exchanges the elements at `a` and `b`, marking both as written.
    pub fn swap(&self, buf: &mut Buffer, a: usize, b: usize)
        requires
            self.wf(old(buf)),
            a < self.spec_len(),
            b < self.spec_len(),
        ensures
            self.vals(final(buf)) == swapped(self.vals(old(buf)), a as int, b as int),
            self.frame(old(buf), final(buf)),
            final(buf).data@[self.start + a].mark.ty == MarkType::Write,
            final(buf).data@[self.start + b].mark.ty == MarkType::Write,
            final(buf).data@ == old(buf).data@.update(
                self.start + a,
                marked(old(buf).data@[self.start + b].value, MarkType::Write),
            ).update(self.start + b, marked(old(buf).data@[self.start + a].value, MarkType::Write)),
    {
        let va = buf.data[self.start + a].value;
        let vb = buf.data[self.start + b].value;
        buf.write_at(self.start + a, vb);
        buf.write_at(self.start + b, va);
        assert(self.vals(buf) =~= swapped(self.vals(old(buf)), a as int, b as int));
    }

    /// Reads the element at `index` and highlights it as the pivot until the
    /// returned guard is released.
    pub fn acquire_pivot(&self, buf: &mut Buffer, index: usize) -> (g: PivotGuard)
        requires
            self.wf(old(buf)),
            index < self.spec_len(),
        ensures
            g.value == self.vals(old(buf))[index as int],
            g.index == self.start + index,
            final(buf)@ == old(buf)@,
            final(buf).data@[self.start + index].mark.ty == MarkType::Pivot,
            final(buf).data@ == old(buf).data@.update(
                self.start + index,
                marked(old(buf).data@[self.start + index].value, MarkType::Pivot),
            ),
    {
        let value = self.get_pivot(buf, index);
        PivotGuard { value, index: self.start + index }
    }

    /// The views of `[0, index)` and `[index, len)` of this one.
    pub fn split_at(&self, index: usize) -> (r: (TargetArray, TargetArray))
        requires
            self.start <= self.end,
            index <= self.spec_len(),
        ensures
            r.0.start == self.start,
            r.0.end == self.start + index,
            r.1.start == self.start + index,
            r.1.end == self.end,
    {
        let mid = self.start + index;
        (TargetArray { start: self.start, end: mid }, TargetArray { start: mid, end: self.end })
    }
}

/// A value read as a pivot, with the buffer position whose pivot mark it
/// holds.
pub struct PivotGuard {
    pub value: i32,
    pub index: usize,
}

impl PivotGuard {
    pub fn value(&self) -> (r: i32)
        ensures
            r == self.value,
    {
        self.value
    }

    /// Clears the pivot mark; no value changes.
    pub fn release(self, buf: &mut Buffer)
        requires
            self.index < old(buf)@.len(),
        ensures
            final(buf)@ == old(buf)@,
            final(buf).data@[self.index as int].mark.ty == MarkType::Unmarked,
            final(buf).data@ == old(buf).data@.update(
                self.index as int,
                marked(old(buf).data@[self.index as int].value, MarkType::Unmarked),
            ),
    {
        buf.mark_at(self.index, MarkType::Unmarked);
    }
}

/// The views made by `split_at(k)` see the two parts of what their parent
/// sees.
pub proof fn lemma_split_vals(data: TargetArray, a: TargetArray, b: TargetArray, k: int, buf: &Buffer)
    requires
        data.wf(buf),
        0 <= k <= data.spec_len(),
        a.start == data.start,
        a.end == data.start + k,
        b.start == data.start + k,
        b.end == data.end,
    ensures
        a.wf(buf),
        b.wf(buf),
        a.vals(buf) == data.vals(buf).subrange(0, k),
        b.vals(buf) == data.vals(buf).subrange(k, data.spec_len() as int),
        data.vals(buf) == a.vals(buf) + b.vals(buf),
{
    assert(a.vals(buf) =~= data.vals(buf).subrange(0, k));
    assert(b.vals(buf) =~= data.vals(buf).subrange(k, data.spec_len() as int));
    assert(data.vals(buf) =~= a.vals(buf) + b.vals(buf));
}

/// A change inside a sub-view is a change inside its parent, and leaves the
/// rest of the parent as it was.
pub proof fn lemma_sub_frame(data: TargetArray, a: TargetArray, b1: &Buffer, b2: &Buffer)
    requires
        data.wf(b1),
        data.start <= a.start <= a.end <= data.end,
        a.frame(b1, b2),
    ensures
        data.frame(b1, b2),
        data.wf(b2),
        a.wf(b2),
        forall|x: int|
            0 <= x < data.spec_len() && !(a.start - data.start <= x < a.end - data.start)
                ==> #[trigger] data.vals(b2)[x] == data.vals(b1)[x],
{
    assert forall|x: int|
        0 <= x < data.spec_len() && !(a.start - data.start <= x < a.end - data.start)
            implies #[trigger] data.vals(b2)[x] == data.vals(b1)[x] by {
        assert(b2@[data.start + x] == b1@[data.start + x]);
    }
}

/// Sorting both sides of a partition point sorts the whole view.
pub proof fn lemma_sorted_halves(
    data: TargetArray,
    a: TargetArray,
    b: TargetArray,
    k: int,
    p: i32,
    b0: &Buffer,
    b1: &Buffer,
    b2: &Buffer,
)
    requires
        data.wf(b0),
        0 <= k <= data.spec_len(),
        a.start == data.start,
        a.end == data.start + k,
        b.start == data.start + k,
        b.end == data.end,
        all_le(data.vals(b0).subrange(0, k), p),
        all_ge(data.vals(b0).subrange(k, data.spec_len() as int), p),
        a.sorted_within(b0, b1),
        b.sorted_within(b1, b2),
    ensures
        data.sorted_within(b0, b2),
{
    lemma_split_vals(data, a, b, k, b0);
    lemma_sub_frame(data, a, b0, b1);
    lemma_split_vals(data, a, b, k, b1);
    lemma_sub_frame(data, b, b1, b2);
    lemma_split_vals(data, a, b, k, b2);
    assert(b.vals(b1) =~= b.vals(b0)) by {
        assert forall|x: int| 0 <= x < b.spec_len() implies b.vals(b1)[x] == b.vals(b0)[x] by {
            assert(data.vals(b1)[k + x] == data.vals(b0)[k + x]);
        }
    }
    assert(a.vals(b2) =~= a.vals(b1)) by {
        assert forall|x: int| 0 <= x < a.spec_len() implies a.vals(b2)[x] == a.vals(b1)[x] by {
            assert(data.vals(b2)[x] == data.vals(b1)[x]);
        }
    }
    lemma_perm_le(a.vals(b0), a.vals(b2), p);
    lemma_perm_ge(b.vals(b0), b.vals(b2), p);
    lemma_sorted_concat(a.vals(b2), b.vals(b2), p);
    lemma_perm_concat(a.vals(b2), b.vals(b2), a.vals(b0), b.vals(b0));
}

} // verus!
