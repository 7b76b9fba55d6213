//! Is the mdbook that calls the preprocessor one that it was built for? The
//! two versions are read and compared by semver; what is decided here is
//! which failure comes first and what the caller is told.

use semver::{Version, VersionReq};
use vstd::prelude::*;
use vstd::string::*;

verus! {

/// What semver says against `text` as a version; nothing where it reads it.
pub uninterp spec fn version_fault(text: Seq<char>) -> Option<Seq<char>>;

/// What semver says against `text` as a version requirement; nothing where it
/// reads it.
pub uninterp spec fn requirement_fault(text: Seq<char>) -> Option<Seq<char>>;

/// The requirement that semver reads from `requirement` admits the version
/// that it reads from `version`.
pub uninterp spec fn requirement_admits(requirement: Seq<char>, version: Seq<char>) -> bool;

/// The characters of an optional text.
pub open spec fn optional_chars(text: Option<String>) -> Option<Seq<char>> {
    match text {
        Some(t) => Some(t@),
        None => None,
    }
}

/// Reads `text` with `semver::Version::parse` and returns the message of the
/// error, if there is one. Whether there is one, and what it says, depends on
/// the text alone.
#[verifier::external_body]
fn parse_version_fault(text: &str) -> (fault: Option<String>)
    ensures
        optional_chars(fault) == version_fault(text@),
{
    match Version::parse(text) {
        Ok(_) => None,
        Err(e) => Some(e.to_string()),
    }
}

/// Reads `text` with `semver::VersionReq::parse` and returns the message of
/// the error, if there is one. Whether there is one, and what it says,
/// depends on the text alone.
#[verifier::external_body]
fn parse_requirement_fault(text: &str) -> (fault: Option<String>)
    ensures
        optional_chars(fault) == requirement_fault(text@),
{
    match VersionReq::parse(text) {
        Ok(_) => None,
        Err(e) => Some(e.to_string()),
    }
}

/// Asks `semver::VersionReq::matches` whether the requirement admits the
/// version. Both are handed over as texts that semver reads; the answer
/// depends on the two texts alone.
#[verifier::external_body]
fn requirement_matches(requirement: &str, version: &str) -> (admitted: bool)
    requires
        requirement_fault(requirement@) is None,
        version_fault(version@) is None,
    ensures
        admitted == requirement_admits(requirement@, version@),
{
    match (VersionReq::parse(requirement), Version::parse(version)) {
        (Ok(requirement), Ok(version)) => requirement.matches(&version),
        _ => false,
    }
}

/// Why two versions could not be compared. Each failure carries what semver
/// said.
#[derive(Debug, Clone, PartialEq, Eq)]
pub enum VersionFailure {
    /// The version of the calling mdbook is no version.
    CalledFrom(String),
    /// The version that the preprocessor was built against is no requirement.
    BuiltAgainst(String),
}

/// A failure with its message as characters.
pub enum VersionFailureModel {
    CalledFrom(Seq<char>),
    BuiltAgainst(Seq<char>),
}

impl View for VersionFailure {
    type V = VersionFailureModel;

    open spec fn view(&self) -> VersionFailureModel {
        match self {
            VersionFailure::CalledFrom(said) => VersionFailureModel::CalledFrom(said@),
            VersionFailure::BuiltAgainst(said) => VersionFailureModel::BuiltAgainst(said@),
        }
    }
}

impl VersionFailure {
    /// What semver said.
    pub fn message(&self) -> (text: &str)
        ensures
            self@ == VersionFailureModel::CalledFrom(text@) || self@
                == VersionFailureModel::BuiltAgainst(text@),
    {
        match self {
            VersionFailure::CalledFrom(said) => said.as_str(),
            VersionFailure::BuiltAgainst(said) => said.as_str(),
        }
    }
}

/// A verdict with the failure's message as characters.
pub open spec fn verdict_model(verdict: Result<bool, VersionFailure>) -> Result<
    bool,
    VersionFailureModel,
> {
    match verdict {
        Ok(compatible) => Ok(compatible),
        Err(failure) => Err(failure@),
    }
}

/// The verdict, given what semver said of the two texts and whether the
/// requirement admitted the version. A fault in the caller's version comes
/// before one in the version built against.
pub open spec fn verdict_from(
    called_from_fault: Option<Seq<char>>,
    built_against_fault: Option<Seq<char>>,
    admitted: bool,
) -> Result<bool, VersionFailureModel> {
    match called_from_fault {
        Some(said) => Err(VersionFailureModel::CalledFrom(said)),
        None => match built_against_fault {
            Some(said) => Err(VersionFailureModel::BuiltAgainst(said)),
            None => Ok(admitted),
        },
    }
}

/// Whether the mdbook of version `called_from` is one that a preprocessor
/// built against `built_against` was built for.
pub open spec fn compatibility(called_from: Seq<char>, built_against: Seq<char>) -> Result<
    bool,
    VersionFailureModel,
> {
    verdict_from(
        version_fault(called_from),
        requirement_fault(built_against),
        requirement_admits(built_against, called_from),
    )
}

/// Turns what semver said into the verdict.
pub fn version_verdict(
    called_from_fault: Option<String>,
    built_against_fault: Option<String>,
    admitted: bool,
) -> (verdict: Result<bool, VersionFailure>)
    ensures
        verdict_model(verdict) == verdict_from(
            optional_chars(called_from_fault),
            optional_chars(built_against_fault),
            admitted,
        ),
{
    match called_from_fault {
        Some(said) => Err(VersionFailure::CalledFrom(said)),
        None => match built_against_fault {
            Some(said) => Err(VersionFailure::BuiltAgainst(said)),
            None => Ok(admitted),
        },
    }
}

/// Compares the version of the calling mdbook with the version that the
/// preprocessor was built against, read as a requirement. `Ok(false)` is a
/// mismatch that the caller may warn of; a text that semver cannot read is a
/// failure.
pub fn check_version(called_from: &str, built_against: &str) -> (verdict: Result<
    bool,
    VersionFailure,
>)
    ensures
        verdict_model(verdict) == compatibility(called_from@, built_against@),
{
    let called_from_fault = parse_version_fault(called_from);
    let built_against_fault = parse_requirement_fault(built_against);
    let admitted = if called_from_fault.is_none() && built_against_fault.is_none() {
        requirement_matches(built_against, called_from)
    } else {
        false
    };
    version_verdict(called_from_fault, built_against_fault, admitted)
}

} // verus!
