use vstd::prelude::*;

verus! {

/// A signed machine-word integer leaf.
#[derive(Debug, Clone, Copy, PartialEq, Eq)]
pub struct Integer(pub i32);

impl View for Integer {
    type V = int;

    open spec fn view(&self) -> int {
        self.0 as int
    }
}

impl Integer {
    /// Wraps a machine integer as a leaf.
    pub fn new(n: i32) -> (r: Integer)
        ensures
            r@ == n as int,
    {
        Integer(n)
    }

    /// The wrapped machine integer.
    pub fn num(&self) -> (n: i32)
        ensures
            n as int == self@,
    {
        self.0
    }
}

} // verus!
