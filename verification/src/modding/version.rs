//! Semantic versions and version requirements, parsed and matched by the
//! `semver` crate.

use vstd::prelude::*;

verus! {

#[verifier::external_type_specification]
#[verifier::external_body]
pub struct ExVersion(semver::Version);

#[verifier::external_type_specification]
#[verifier::external_body]
pub struct ExVersionReq(semver::VersionReq);

#[verifier::external_type_specification]
#[verifier::external_body]
pub struct ExSemverError(semver::Error);

/// Whether `semver` accepts `text` as a version (`1.2.3`, with optional
/// pre-release and build metadata).
pub uninterp spec fn version_parses(text: Seq<char>) -> bool;

/// Whether `semver` accepts `text` as a version requirement (`^1.0`,
/// `>=1.0, <2.0`, `*`, ...).
pub uninterp spec fn requirement_parses(text: Seq<char>) -> bool;

/// Whether the version requirement written `req` matches the version written
/// `version`, as `semver` evaluates them.
pub uninterp spec fn requirement_matches(req: Seq<char>, version: Seq<char>) -> bool;

/// `semver::Version::parse`: it succeeds exactly on the texts that
/// `version_parses` names; what the version holds is not stated.
#[verifier::external_body]
fn semver_parse_version(text: &str) -> (r: Result<semver::Version, semver::Error>)
    ensures
        r is Ok <==> version_parses(text@),
{
    semver::Version::parse(text)
}

/// `semver::VersionReq::parse`: it succeeds exactly on the texts that
/// `requirement_parses` names; what the requirement holds is not stated.
#[verifier::external_body]
fn semver_parse_requirement(text: &str) -> (r: Result<semver::VersionReq, semver::Error>)
    ensures
        r is Ok <==> requirement_parses(text@),
{
    semver::VersionReq::parse(text)
}

/// `semver::VersionReq::parse` and `semver::Version::parse` of the two texts,
/// then `semver::VersionReq::matches` of the results: `None` exactly when a
/// text does not parse, otherwise whether the requirement matches the
/// version, as `requirement_matches` names it.
#[verifier::external_body]
fn semver_matches(req: &str, ver: &str) -> (r: Option<bool>)
    ensures
        r is Some <==> (requirement_parses(req@) && version_parses(ver@)),
        r is Some ==> r == Some(requirement_matches(req@, ver@)),
{
    match (semver::VersionReq::parse(req), semver::Version::parse(ver)) {
        (Ok(q), Ok(v)) => Some(q.matches(&v)),
        _ => None,
    }
}

/// A version text that `semver` accepts.
pub struct ParsedVersion {
    text: String,
}

impl ParsedVersion {
    #[verifier::type_invariant]
    spec fn parses(self) -> bool {
        version_parses(self.text@)
    }
}

impl View for ParsedVersion {
    type V = Seq<char>;

    closed spec fn view(&self) -> Seq<char> {
        self.text@
    }
}

/// A version requirement text that `semver` accepts.
pub struct ParsedRequirement {
    text: String,
}

impl ParsedRequirement {
    #[verifier::type_invariant]
    spec fn parses(self) -> bool {
        requirement_parses(self.text@)
    }
}

impl View for ParsedRequirement {
    type V = Seq<char>;

    closed spec fn view(&self) -> Seq<char> {
        self.text@
    }
}

/// Checks a version; `None` where `semver` rejects the text.
pub fn parse_version(text: &str) -> (r: Option<ParsedVersion>)
    ensures
        r is Some <==> version_parses(text@),
        r matches Some(v) ==> v@ == text@,
{
    match semver_parse_version(text) {
        Ok(_) => Some(ParsedVersion { text: String::from_str(text) }),
        Err(_) => None,
    }
}

/// Checks a version requirement; `None` where `semver` rejects the text.
pub fn parse_requirement(text: &str) -> (r: Option<ParsedRequirement>)
    ensures
        r is Some <==> requirement_parses(text@),
        r matches Some(q) ==> q@ == text@,
{
    match semver_parse_requirement(text) {
        Ok(_) => Some(ParsedRequirement { text: String::from_str(text) }),
        Err(_) => None,
    }
}

impl ParsedRequirement {
    /// Whether `version` satisfies the requirement.
    pub fn matches(&self, version: &ParsedVersion) -> (r: bool)
        ensures
            r == requirement_matches(self@, version@),
    {
        proof {
            use_type_invariant(self);
            use_type_invariant(version);
        }
        match semver_matches(self.text.as_str(), version.text.as_str()) {
            Some(b) => b,
            None => false,
        }
    }
}

/// Whether the requirement written `requirement` matches the version written
/// `version`; `None` when either text does not parse.
pub fn check_requirement(requirement: &str, version: &str) -> (r: Option<bool>)
    ensures
        r == if requirement_parses(requirement@) && version_parses(version@) {
            Some(requirement_matches(requirement@, version@))
        } else {
            None::<bool>
        },
{
    semver_matches(requirement, version)
}

} // verus!
