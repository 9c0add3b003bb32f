//! Version texts and how they relate.
//!
//! Versions are compared by the `version_compare` crate. Its parser and its
//! comparison are not verified here: `version_parses` and `version_outcome`
//! stand for what they return, and the three functions at the end of this
//! file are the only places where the crate is called.

use vstd::prelude::*;

verus! {

/// The six comparison operators a requirement can carry. The three strict
/// ones, `Lt`, `Eq` and `Gt`, also serve as the outcome of comparing two
/// versions.
#[derive(Clone, Copy, Debug, PartialEq, Eq, Structural)]
pub enum Relation {
    Eq,
    Ne,
    Lt,
    Le,
    Ge,
    Gt,
}

impl Relation {
    /// `Lt`, `Eq` or `Gt`: what a comparison of two versions can yield.
    pub open spec fn is_outcome(self) -> bool {
        self == Relation::Lt || self == Relation::Eq || self == Relation::Gt
    }

    /// Whether this operator is met by two versions that compare as `outcome`.
    pub open spec fn admits(self, outcome: Relation) -> bool {
        match outcome {
            Relation::Eq => self == Relation::Eq || self == Relation::Le || self == Relation::Ge,
            Relation::Lt => self == Relation::Ne || self == Relation::Lt || self == Relation::Le,
            Relation::Gt => self == Relation::Ne || self == Relation::Gt || self == Relation::Ge,
            _ => false,
        }
    }
}

/// Whether `version_compare::Version::from` accepts `version`.
pub uninterp spec fn version_parses(version: Seq<char>) -> bool;

/// The outcome of `version_compare::compare` on two texts that both parse:
/// how `a` stands to `b`.
pub uninterp spec fn version_outcome(a: Seq<char>, b: Seq<char>) -> Relation;

/// How `a` stands to `b` as versions, where both parse.
pub open spec fn version_order(a: Seq<char>, b: Seq<char>) -> Option<Relation> {
    if version_parses(a) && version_parses(b) {
        Some(version_outcome(a, b))
    } else {
        None
    }
}

/// Calls `version_compare::Version::from` and tells whether it returned a
/// version. Trusted: the result is, by definition, `version_parses`.
#[verifier::external_body]
pub(crate) fn parses(version: &str) -> (r: bool)
    ensures
        r == version_parses(version@),
{
    version_compare::Version::from(version).is_some()
}

/// Calls `version_compare::compare`. Trusted: the comparison fails exactly
/// when one of the two texts does not parse, and otherwise yields one of
/// `Lt`, `Eq`, `Gt`.
#[verifier::external_body]
pub(crate) fn order_versions(a: &str, b: &str) -> (r: Option<Relation>)
    ensures
        r == (if version_parses(a@) && version_parses(b@) {
            Some(version_outcome(a@, b@))
        } else {
            None
        }),
        r is Some ==> r->0.is_outcome(),
{
    match version_compare::compare(a, b) {
        Ok(version_compare::Cmp::Eq) => Some(Relation::Eq),
        Ok(version_compare::Cmp::Ne) => Some(Relation::Ne),
        Ok(version_compare::Cmp::Lt) => Some(Relation::Lt),
        Ok(version_compare::Cmp::Le) => Some(Relation::Le),
        Ok(version_compare::Cmp::Ge) => Some(Relation::Ge),
        Ok(version_compare::Cmp::Gt) => Some(Relation::Gt),
        Err(()) => None,
    }
}

/// Calls `version_compare::compare_to`. Trusted: it compares as
/// `version_compare::compare` does and then tests the outcome against
/// `operator`, as `Relation::admits` spells out.
#[verifier::external_body]
pub(crate) fn versions_relate(a: &str, b: &str, operator: Relation) -> (r: Option<bool>)
    ensures
        r == match version_order(a@, b@) {
            Some(outcome) => Some(operator.admits(outcome)),
            None => None,
        },
{
    let operator = match operator {
        Relation::Eq => version_compare::Cmp::Eq,
        Relation::Ne => version_compare::Cmp::Ne,
        Relation::Lt => version_compare::Cmp::Lt,
        Relation::Le => version_compare::Cmp::Le,
        Relation::Ge => version_compare::Cmp::Ge,
        Relation::Gt => version_compare::Cmp::Gt,
    };
    version_compare::compare_to(a, b, operator).ok()
}

} // verus!
