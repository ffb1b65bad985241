//! Identifiers of jobs.

use vstd::prelude::*;

verus! {

/// The name under which a job is defined. Identifiers are compared as text,
/// letter case included.
#[derive(Debug, Default, Hash, Eq, PartialOrd, Ord)]
pub struct JobId(String);

impl View for JobId {
    type V = Seq<char>;

    closed spec fn view(&self) -> Seq<char> {
        self.0@
    }
}

impl Clone for JobId {
    fn clone(&self) -> (r: Self)
        ensures
            r@ == self@,
    {
        JobId(self.0.clone())
    }
}

impl PartialEq for JobId {
    fn eq(&self, other: &Self) -> (r: bool) {
        self.0 == other.0
    }
}

impl vstd::std_specs::cmp::PartialEqSpecImpl for JobId {
    open spec fn obeys_eq_spec() -> bool {
        true
    }

    open spec fn eq_spec(&self, other: &Self) -> bool {
        self@ == other@
    }
}

impl JobId {
    /// The identifier spelled `id`.
    pub fn new(id: String) -> (r: Self)
        ensures
            r@ == id@,
    {
        JobId(id)
    }

    /// The identifier's text.
    pub fn as_str(&self) -> (s: &str)
        ensures
            s@ == self@,
    {
        self.0.as_str()
    }
}

} // verus!
