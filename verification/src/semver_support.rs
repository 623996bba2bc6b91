//! The boundary to the `semver` crate, which parses version strings.
//!
//! The semantic-versioning grammar and the value a version string denotes are
//! not restated here: they are given names, and every contract that mentions a
//! parsed version speaks through those names.

use vstd::prelude::*;

verus! {

/// `semver::Version` is carried through the tokenizer as an opaque parsed
/// version value.
#[verifier::external_type_specification]
#[verifier::external_body]
pub struct ExVersion(semver::Version);

/// `semver::Error` is the parser's error value; the tokenizer replaces it
/// with an error of its own.
#[verifier::external_type_specification]
#[verifier::external_body]
pub struct ExSemverError(semver::Error);

/// Whether the semantic-versioning grammar accepts these characters as a
/// version string.
pub uninterp spec fn semver_accepts(s: Seq<char>) -> bool;

/// The version value that a string accepted by the grammar denotes.
pub uninterp spec fn semver_version_of(s: Seq<char>) -> semver::Version;

/// Relies on `semver::Version::parse`: it parses a version string into a
/// version value or fails, and the outcome depends on the characters alone.
#[verifier::external_body]
pub(crate) fn parse_version(text: &str) -> (r: Result<semver::Version, semver::Error>)
    ensures
        r is Ok <==> semver_accepts(text@),
        r matches Ok(v) ==> v == semver_version_of(text@),
{
    semver::Version::parse(text)
}

} // verus!
