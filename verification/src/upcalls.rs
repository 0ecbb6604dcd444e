//! The decisions of an event loop with two upcalls sharing a counter: the first upcall
//! adds one, the second adds two; the loop always waits for the next event.
use vstd::prelude::*;

verus! {

/// The state the two upcalls share.
pub struct UpcallCounter {
    pub counter: usize,
}

impl UpcallCounter {
    /// A counter at zero.
    pub fn new() -> (s: UpcallCounter)
        ensures
            s.counter == 0,
    {
        UpcallCounter { counter: 0 }
    }

    /// The first upcall: adds one to the counter.
    pub fn one(&mut self)
        requires
            old(self).counter + 1 <= usize::MAX,
        ensures
            final(self).counter == old(self).counter + 1,
    {
        self.counter = self.counter + 1;
    }

    /// The second upcall: adds two to the counter.
    pub fn two(&mut self)
        requires
            old(self).counter + 2 <= usize::MAX,
        ensures
            final(self).counter == old(self).counter + 2,
    {
        self.counter = self.counter + 2;
    }
}

} // verus!
