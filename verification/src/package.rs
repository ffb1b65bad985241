//! Packages: the units a job is run for.

use vstd::prelude::*;
use crate::package_config::PackageConfig;
use crate::variables::Variable;

verus! {

/// One package of the workspace, as workspace discovery describes it.
#[derive(Debug, Clone, PartialEq, Eq)]
pub struct Package {
    /// The package's name.
    pub name: String,
    /// The directory of the package; commands for the package run there.
    pub root: String,
    /// The path of the package's manifest.
    pub manifest_path: String,
    /// What the package declares for itself.
    pub config: PackageConfig,
    /// The variables the package declares.
    pub variables: Vec<Variable>,
    /// Whether the package is a member of the workspace.
    pub member: bool,
    /// Whether the package is among those used when none is asked for.
    pub default_member: bool,
}

/// Why a package selection was refused.
#[derive(Debug, Clone, PartialEq, Eq)]
pub enum PackageError {
    /// No member of the workspace is the package asked for under `name`.
    NotAMember { name: String },
}

impl PackageError {
    /// The error in words.
    pub open spec fn message_text(&self) -> Seq<char> {
        match self {
            PackageError::NotAMember { name } => "package '"@ + name@
                + "' is not a member of the workspace"@,
        }
    }

    /// The error in words.
    pub fn message(&self) -> (r: String)
        ensures
            r@ == self.message_text(),
    {
        match self {
            PackageError::NotAMember { name } => "package '".to_owned().concat(
                name.as_str(),
            ).concat("' is not a member of the workspace"),
        }
    }
}

/// The position of the first package named `name`.
pub open spec fn first_named(packages: Seq<Package>, name: Seq<char>, at: int) -> bool {
    &&& 0 <= at < packages.len()
    &&& packages[at].name@ == name
    &&& forall|j: int| 0 <= j < at ==> (#[trigger] packages[j]).name@ != name
}

/// Whether `name` can be selected: the first package of that name is a
/// member of the workspace.
pub open spec fn selectable(packages: Seq<Package>, name: Seq<char>) -> bool {
    exists|at: int| #[trigger] first_named(packages, name, at) && packages[at].member
}

/// The positions of the default members among the first `upto` packages.
pub open spec fn default_members(packages: Seq<Package>, upto: int) -> Seq<usize>
    decreases upto,
{
    if upto <= 0 {
        Seq::empty()
    } else if packages[upto - 1].default_member {
        default_members(packages, upto - 1).push((upto - 1) as usize)
    } else {
        default_members(packages, upto - 1)
    }
}

/// The position of the first package named `name`.
pub fn find_package(packages: &[Package], name: &String) -> (r: Option<usize>)
    ensures
        match r {
            Some(at) => first_named(packages@, name@, at as int),
            None => forall|j: int| 0 <= j < packages@.len() ==> (#[trigger] packages@[j]).name@
                != name@,
        },
{
    let mut i: usize = 0;
    while i < packages.len()
        invariant
            i <= packages@.len(),
            forall|j: int| 0 <= j < i ==> (#[trigger] packages@[j]).name@ != name@,
        decreases packages@.len() - i,
    {
        if packages[i].name == *name {
            return Some(i);
        }
        i += 1;
    }
    None
}

/// Picks the packages to run jobs for, as positions in `packages`.
///
/// With no name given these are the default members, in the order of
/// `packages`. Otherwise there is one package for each name, in the order of
/// the names: the first package of that name, which has to be a member of
/// the workspace. The first name that is not gives the error.
pub fn select_packages(names: &[String], packages: &[Package]) -> (r: Result<
    Vec<usize>,
    PackageError,
>)
    ensures
        match r {
            Ok(chosen) => if names@.len() == 0 {
                chosen@ == default_members(packages@, packages@.len() as int)
            } else {
                &&& chosen@.len() == names@.len()
                &&& forall|k: int|
                    0 <= k < names@.len() ==> first_named(
                        packages@,
                        (#[trigger] names@[k])@,
                        chosen@[k] as int,
                    ) && packages@[chosen@[k] as int].member
            },
            Err(PackageError::NotAMember { name }) => exists|k: int|
                {
                    &&& 0 <= k < names@.len()
                    &&& name@ == (#[trigger] names@[k])@
                    &&& !selectable(packages@, names@[k]@)
                    &&& forall|e: int| 0 <= e < k ==> selectable(packages@, (#[trigger] names@[e])@)
                },
        },
        r matches Ok(chosen) ==> forall|k: int|
            0 <= k < chosen@.len() ==> #[trigger] chosen@[k] < packages@.len(),
{
    let mut chosen: Vec<usize> = Vec::new();
    if names.len() == 0 {
        let mut i: usize = 0;
        while i < packages.len()
            invariant
                i <= packages@.len(),
                chosen@ == default_members(packages@, i as int),
                forall|k: int| 0 <= k < chosen@.len() ==> #[trigger] chosen@[k] < i,
            decreases packages@.len() - i,
        {
            if packages[i].default_member {
                chosen.push(i);
            }
            i += 1;
        }
        return Ok(chosen);
    }
    let mut k: usize = 0;
    while k < names.len()
        invariant
            k <= names@.len(),
            chosen@.len() == k,
            forall|e: int|
                0 <= e < k ==> first_named(packages@, (#[trigger] names@[e])@, chosen@[e] as int)
                    && packages@[chosen@[e] as int].member,
            forall|e: int| 0 <= e < k ==> selectable(packages@, (#[trigger] names@[e])@),
        decreases names@.len() - k,
    {
        let name = &names[k];
        match find_package(packages, name) {
            Some(at) => {
                if !packages[at].member {
                    proof {
                        assert forall|other: int| #[trigger]
                            first_named(packages@, name@, other) implies !packages@[other].member by {
                            assert(other == at);
                        }
                    }
                    return Err(PackageError::NotAMember { name: name.clone() });
                }
                chosen.push(at);
            },
            None => {
                return Err(PackageError::NotAMember { name: name.clone() });
            },
        }
        k += 1;
    }
    assert forall|e: int| 0 <= e < chosen@.len() implies #[trigger] chosen@[e] < packages@.len() by {
        assert(first_named(packages@, names@[e]@, chosen@[e] as int));
    }
    Ok(chosen)
}

} // verus!
