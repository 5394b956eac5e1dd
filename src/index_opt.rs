use vstd::prelude::*;

verus! {

/// Largest representable index, reserved as the "absent" marker.
pub const THRESHOLD: usize = usize::MAX;

/// An optional index packed into one machine word: `usize::MAX` stands for `None`.
#[derive(Copy, Clone)]
pub struct IndexOpt {
    value: usize,
}

impl View for IndexOpt {
    type V = Option<usize>;

    closed spec fn view(&self) -> Option<usize> {
        if self.value < THRESHOLD {
            Some(self.value)
        } else {
            None
        }
    }
}

impl IndexOpt {
    /// The absent index.
    pub fn none() -> (r: Self)
        ensures
            r@ == None::<usize>,
    {
        Self { value: THRESHOLD }
    }

    /// A present index; `usize::MAX` itself cannot be represented.
    pub fn some(value: usize) -> (r: Self)
        requires
            value < THRESHOLD,
        ensures
            r@ == Some(value),
    {
        Self { value }
    }

    /// The index as an ordinary `Option`.
    pub fn as_opt(&self) -> (r: Option<usize>)
        ensures
            r == self@,
    {
        if self.value < THRESHOLD {
            Some(self.value)
        } else {
            None
        }
    }
}

} // verus!
