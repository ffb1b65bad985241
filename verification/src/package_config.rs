//! What a package declares for itself.

use vstd::prelude::*;

verus! {

/// The settings of a single package.
#[derive(Debug, Clone, Default, PartialEq, Eq)]
pub struct PackageConfig {
    /// The modifier flags that decide which steps of each job run for the
    /// package.
    pub modifiers: Option<Vec<String>>,
}

impl PackageConfig {
    /// The flags the package declares; none where it declares no list.
    pub open spec fn flags(&self) -> Seq<String> {
        match self.modifiers {
            Some(list) => list@,
            None => Seq::empty(),
        }
    }

    /// The modifiers of this package, if it declares any.
    pub fn modifiers(&self) -> (r: Option<&[String]>)
        ensures
            match r {
                Some(list) => self.modifiers matches Some(own) && list@ == own@,
                None => self.modifiers is None,
            },
    {
        match &self.modifiers {
            Some(list) => Some(list.as_slice()),
            None => None,
        }
    }

    /// The flags the package declares; none where it declares no list.
    pub fn declared(&self) -> (r: &[String])
        ensures
            r@ == self.flags(),
    {
        match &self.modifiers {
            Some(list) => list.as_slice(),
            None => {
                let none: &[String] = &[];
                assert(none@ =~= Seq::<String>::empty());
                none
            },
        }
    }
}

} // verus!
