//! Versions, as the `semver` crate reads and writes them.

use vstd::prelude::*;

verus! {

/// `semver::Version`; nothing is known of what is in it.
#[verifier::external_type_specification]
#[verifier::external_body]
pub struct ExVersion(semver::Version);

/// `semver::Error`; nothing is known of what is in it.
#[verifier::external_type_specification]
#[verifier::external_body]
pub struct ExSemverError(semver::Error);

/// `Version::clone`; nothing is stated of the copy.
pub assume_specification[ <semver::Version as Clone>::clone ](version: &semver::Version) -> (copy:
    semver::Version)
;

/// Whether `semver::Version::parse` accepts `text`.
pub uninterp spec fn version_parses(text: Seq<char>) -> bool;

/// `semver::Version::parse`: reads a version such as `1.2.3-beta.1`. The
/// result is `Ok` exactly for the texts that [`version_parses`] names.
#[verifier::external_body]
pub(crate) fn parse_version(text: &str) -> (r: Result<semver::Version, semver::Error>)
    ensures
        r is Ok <==> version_parses(text@),
{
    semver::Version::parse(text)
}

/// The `Display` text of a version.
#[verifier::external_body]
pub(crate) fn version_text(version: &semver::Version) -> (text: String) {
    version.to_string()
}

} // verus!
