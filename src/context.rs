use vstd::prelude::*;

verus! {

/// Observer of a running sort: the name of its current phase and counters
/// of the comparisons, swaps and writes it has reported.  It never affects
/// what a sort does.
#[derive(Clone, Debug)]
pub struct Context {
    pub phase_name: String,
    pub compare: usize,
    pub swap: usize,
    pub write: usize,
}

/// A counter after one more event; it stays at the largest value.
pub open spec fn bumped(n: usize) -> usize {
    if n < usize::MAX { (n + 1) as usize } else { n }
}

impl Context {
    pub fn new() -> (r: Context)
        ensures
            r.phase_name@ == Seq::<char>::empty(),
            r.compare == 0,
            r.swap == 0,
            r.write == 0,
    {
        Context { phase_name: String::new(), compare: 0, swap: 0, write: 0 }
    }

    pub fn set_phase(&mut self, phase: &str)
        ensures
            final(self).phase_name@ == phase@,
            final(self).compare == old(self).compare,
            final(self).swap == old(self).swap,
            final(self).write == old(self).write,
    {
        self.phase_name = phase.to_owned();
    }

    pub fn compare(&mut self)
        ensures
            final(self).compare == bumped(old(self).compare),
            final(self).phase_name == old(self).phase_name,
            final(self).swap == old(self).swap,
            final(self).write == old(self).write,
    {
        self.compare = self.compare.saturating_add(1);
    }

    pub fn swap(&mut self)
        ensures
            final(self).swap == bumped(old(self).swap),
            final(self).phase_name == old(self).phase_name,
            final(self).compare == old(self).compare,
            final(self).write == old(self).write,
    {
        self.swap = self.swap.saturating_add(1);
    }

    pub fn write(&mut self)
        ensures
            final(self).write == bumped(old(self).write),
            final(self).phase_name == old(self).phase_name,
            final(self).compare == old(self).compare,
            final(self).swap == old(self).swap,
    {
        self.write = self.write.saturating_add(1);
    }

    /// Sets the three counters back to zero; the phase name stays.
    pub fn reset(&mut self)
        ensures
            final(self).phase_name == old(self).phase_name,
            final(self).compare == 0,
            final(self).swap == 0,
            final(self).write == 0,
    {
        self.compare = 0;
        self.swap = 0;
        self.write = 0;
    }
}

} // verus!
