use vstd::prelude::*;

verus! {

/// The first revision of every runtime.
pub const START: u64 = 1;

/// A logical version of the whole input store: a strictly positive counter.
#[derive(Debug, Clone, Copy, PartialEq, Eq, Structural, PartialOrd, Ord, Hash)]
pub struct Revision {
    raw: u64,
}

impl Revision {
    /// The numeric value of this revision.
    pub closed spec fn value(&self) -> nat {
        self.raw as nat
    }

    /// A revision is never zero.
    pub open spec fn wf(&self) -> bool {
        self.value() >= START
    }

    pub fn new() -> (r: Self)
        ensures
            r.wf(),
            r.value() == START,
    {
        Self::from(START)
    }

    pub fn increment(&mut self)
        requires
            old(self).value() < u64::MAX,
        ensures
            final(self).wf(),
            final(self).value() == old(self).value() + 1,
    {
        *self = Self::from(self.raw + 1)
    }

    pub fn as_raw(&self) -> (r: u64)
        ensures
            r == self.value(),
    {
        self.raw
    }

    pub fn from(raw: u64) -> (r: Self)
        requires
            raw >= 1,
        ensures
            r.wf(),
            r.value() == raw,
    {
        Revision { raw }
    }
}

impl Default for Revision {
    fn default() -> (r: Self)
        ensures
            r.wf(),
            r.value() == START,
    {
        Self::new()
    }
}

} // verus!
