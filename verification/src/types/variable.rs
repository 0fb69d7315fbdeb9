use vstd::prelude::*;

verus! {

/// A symbolic variable, named by an identifier.
#[derive(Debug, Clone, PartialEq, Eq)]
pub struct Variable(pub String);

impl View for Variable {
    type V = Seq<char>;

    open spec fn view(&self) -> Seq<char> {
        self.0@
    }
}

impl Variable {
    /// Wraps an identifier as a variable.
    pub fn new(name: String) -> (r: Variable)
        ensures
            r@ == name@,
    {
        Variable(name)
    }

    /// The variable's name.
    pub fn as_str(&self) -> (s: &str)
        ensures
            s@ == self@,
    {
        self.0.as_str()
    }
}

} // verus!
