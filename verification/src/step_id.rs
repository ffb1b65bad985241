//! Identifiers of steps.

use vstd::prelude::*;

verus! {

/// The optional name of a step, unique within its job. Identifiers are compared
/// as text, letter case included.
#[derive(Debug, Default, Hash, Eq, PartialOrd, Ord)]
pub struct StepId(String);

impl View for StepId {
    type V = Seq<char>;

    closed spec fn view(&self) -> Seq<char> {
        self.0@
    }
}

impl Clone for StepId {
    fn clone(&self) -> (r: Self)
        ensures
            r@ == self@,
    {
        StepId(self.0.clone())
    }
}

impl PartialEq for StepId {
    fn eq(&self, other: &Self) -> (r: bool) {
        self.0 == other.0
    }
}

impl vstd::std_specs::cmp::PartialEqSpecImpl for StepId {
    open spec fn obeys_eq_spec() -> bool {
        true
    }

    open spec fn eq_spec(&self, other: &Self) -> bool {
        self@ == other@
    }
}

impl StepId {
    /// The identifier spelled `id`.
    pub fn new(id: String) -> (r: Self)
        ensures
            r@ == id@,
    {
        StepId(id)
    }

    /// The identifier's text.
    pub fn as_str(&self) -> (s: &str)
        ensures
            s@ == self@,
    {
        self.0.as_str()
    }
}

} // verus!
