use vstd::prelude::*;

verus! {

/// A counter that scripts create and step.
#[derive(Clone, Debug)]
pub struct Counter {
    value: i64,
}

impl View for Counter {
    type V = int;

    /// The count so far.
    closed spec fn view(&self) -> int {
        self.value as int
    }
}

impl Counter {
    /// A counter at zero.
    pub fn new() -> (r: Counter)
        ensures
            r@ == 0,
    {
        Counter { value: 0 }
    }

    /// Adds one to the count.
    pub fn increment(&mut self)
        requires
            old(self)@ < i64::MAX,
        ensures
            final(self)@ == old(self)@ + 1,
    {
        self.value = self.value + 1;
    }
}

} // verus!
