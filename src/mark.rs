use vstd::prelude::*;

verus! {

/// The kind of the last access made to an element.
#[derive(Clone, Copy, Debug, PartialEq, Eq, Structural)]
pub enum MarkType {
    Unmarked,
    Read,
    Write,
    Pivot,
}

/// Display annotation of one element: the kind of its last access, and the
/// number of frames it has been shown for since.
#[derive(Clone, Copy, Debug, PartialEq, Eq, Structural)]
pub struct Mark {
    pub ty: MarkType,
    pub frames: usize,
}

impl Mark {
    pub fn new(ty: MarkType) -> (r: Mark)
        ensures
            r.ty == ty,
            r.frames == 0,
    {
        Mark { ty, frames: 0 }
    }

    pub fn set(&mut self, ty: MarkType)
        ensures
            final(self).ty == ty,
            final(self).frames == 0,
    {
        self.ty = ty;
        self.frames = 0;
    }

    pub fn reset(&mut self)
        ensures
            final(self).ty == MarkType::Unmarked,
            final(self).frames == 0,
    {
        self.ty = MarkType::Unmarked;
        self.frames = 0;
    }

    /// Counts one more shown frame; once `shown_frames` frames have passed,
    /// the mark goes back to `Unmarked`.
    pub fn tick(&mut self, shown_frames: usize)
        ensures
            old(self).frames + 1 >= shown_frames ==> final(self).ty == MarkType::Unmarked && final(self).frames == 0,
            old(self).frames + 1 < shown_frames ==> final(self).ty == old(self).ty
                && final(self).frames == old(self).frames + 1,
    {
        if self.frames >= shown_frames || self.frames + 1 >= shown_frames {
            self.reset();
        } else {
            self.frames = self.frames + 1;
        }
    }
}

/// One element of a buffer: the value that is sorted, and its display mark.
#[derive(Clone, Copy, Debug, PartialEq, Eq, Structural)]
pub struct Value {
    pub value: i32,
    pub mark: Mark,
}

impl Value {
    pub fn new(value: i32) -> (r: Value)
        ensures
            r.value == value,
            r.mark.ty == MarkType::Unmarked,
            r.mark.frames == 0,
    {
        Value { value, mark: Mark::new(MarkType::Unmarked) }
    }
}

} // verus!
