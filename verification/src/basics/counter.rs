//! A counter that yields 1, 2, ..., up to a maximum.
use vstd::prelude::*;

verus! {

/// Counts from 1 up to `max`.
pub struct Counter {
    count: u32,
    max: u32,
}

impl Counter {
    /// The counter never passes its maximum.
    #[verifier::type_invariant]
    spec fn inv(self) -> bool {
        self.count <= self.max
    }

    /// How many numbers have been yielded.
    pub closed spec fn spec_count(&self) -> u32 {
        self.count
    }

    /// The last number the counter yields.
    pub closed spec fn spec_max(&self) -> u32 {
        self.max
    }

    /// A counter that will yield 1 to `max`.
    pub fn new(max: u32) -> (c: Self)
        ensures
            c.spec_count() == 0,
            c.spec_max() == max,
    {
        Self { count: 0, max }
    }

    /// The next number, or `None` once `max` has been yielded.
    pub fn next(&mut self) -> (r: Option<u32>)
        ensures
            final(self).spec_count() <= final(self).spec_max(),
            final(self).spec_max() == old(self).spec_max(),
            old(self).spec_count() < old(self).spec_max() ==> r == Some(
                (old(self).spec_count() + 1) as u32,
            ) && final(self).spec_count() == old(self).spec_count() + 1,
            old(self).spec_count() >= old(self).spec_max() ==> r is None && final(self).spec_count()
                == old(self).spec_count(),
    {
        proof {
            use_type_invariant(&*self);
        }
        if self.count < self.max {
            self.count = self.count + 1;
            Some(self.count)
        } else {
            None
        }
    }

    /// The number of values still to come (as `ExactSizeIterator::len`).
    pub fn len(&self) -> (r: usize)
        ensures
            r == self.spec_max() - self.spec_count(),
    {
        proof {
            use_type_invariant(self);
        }
        (self.max - self.count) as usize
    }
}

} // verus!
