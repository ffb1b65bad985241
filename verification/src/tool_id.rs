//! Identifiers of tools.

use vstd::prelude::*;

verus! {

/// The name of a tool that the workspace asks for. Identifiers are compared
/// as text, letter case included.
#[derive(Debug, Default, Hash, Eq, PartialOrd, Ord)]
pub struct ToolId(String);

impl View for ToolId {
    type V = Seq<char>;

    closed spec fn view(&self) -> Seq<char> {
        self.0@
    }
}

impl Clone for ToolId {
    fn clone(&self) -> (r: Self)
        ensures
            r@ == self@,
    {
        ToolId(self.0.clone())
    }
}

impl PartialEq for ToolId {
    fn eq(&self, other: &Self) -> (r: bool) {
        self.0 == other.0
    }
}

impl vstd::std_specs::cmp::PartialEqSpecImpl for ToolId {
    open spec fn obeys_eq_spec() -> bool {
        true
    }

    open spec fn eq_spec(&self, other: &Self) -> bool {
        self@ == other@
    }
}

impl ToolId {
    /// The identifier spelled `id`.
    pub fn new(id: String) -> (r: Self)
        ensures
            r@ == id@,
    {
        ToolId(id)
    }

    /// The identifier's text.
    pub fn as_str(&self) -> (s: &str)
        ensures
            s@ == self@,
    {
        self.0.as_str()
    }
}

} // verus!
