//! Requirements: a name, and optionally an operator and a version that a
//! candidate must stand in that relation to.

use crate::error::DataError;
use crate::package::RPMPackageVersion;
use crate::text::{
    chars_of, clone_text, contains_infix, has_infix, hash_text, same_text, text_hash, HASH_MODULUS,
};
use crate::version::{parses, version_order, version_parses, versions_relate, Relation};
use vstd::prelude::*;
use vstd::std_specs::cmp::PartialEqSpecImpl;
use vstd::string::StringExecFns;

verus! {

/// One entry of a package's requires, suggests or provides list, as the
/// repository metadata gives it.
#[derive(Debug)]
pub struct Requirement {
    /// A package name or a capability that packages provide.
    pub name: String,
    /// The operator's name: `EQ`, `NE`, `LT`, `LE`, `GE` or `GT`.
    pub flags: Option<String>,
    pub epoch: Option<String>,
    pub version: Option<String>,
}

/// The mathematical content of a [`Requirement`].
pub struct RequirementView {
    pub name: Seq<char>,
    pub flags: Option<Seq<char>>,
    pub epoch: Option<Seq<char>>,
    pub version: Option<Seq<char>>,
}

impl View for Requirement {
    type V = RequirementView;

    open spec fn view(&self) -> RequirementView {
        RequirementView {
            name: self.name@,
            flags: self.flags.deep_view(),
            epoch: self.epoch.deep_view(),
            version: self.version.deep_view(),
        }
    }
}

impl DeepView for Requirement {
    type V = RequirementView;

    open spec fn deep_view(&self) -> RequirementView {
        self@
    }
}

impl Default for Requirement {
    fn default() -> (r: Self)
        ensures
            r@.name.len() == 0,
            r@.flags is None,
            r@.epoch is None,
            r@.version is None,
    {
        Requirement { name: String::new(), flags: None, epoch: None, version: None }
    }
}

impl Clone for Requirement {
    fn clone(&self) -> (r: Self)
        ensures
            r == *self,
    {
        Requirement {
            name: self.name.clone(),
            flags: clone_text(&self.flags),
            epoch: clone_text(&self.epoch),
            version: clone_text(&self.version),
        }
    }
}

/// A requirement in its role as a set of versions: the versions of a
/// candidate that satisfy it.
#[derive(Debug)]
pub struct RPMRequirement(pub Requirement);

impl View for RPMRequirement {
    type V = RequirementView;

    open spec fn view(&self) -> RequirementView {
        self.0@
    }
}

impl DeepView for RPMRequirement {
    type V = RequirementView;

    open spec fn deep_view(&self) -> RequirementView {
        self.0@
    }
}

impl Clone for RPMRequirement {
    fn clone(&self) -> (r: Self)
        ensures
            r == *self,
    {
        RPMRequirement(self.0.clone())
    }
}

impl PartialEq for RPMRequirement {
    /// Two requirements are the same when name, version and operator agree;
    /// the epoch plays no part.
    fn eq(&self, other: &Self) -> (r: bool) {
        self.0.name == other.0.name && same_text(&self.0.version, &other.0.version) && same_text(
            &self.0.flags,
            &other.0.flags,
        )
    }
}

impl PartialEqSpecImpl for RPMRequirement {
    open spec fn obeys_eq_spec() -> bool {
        true
    }

    open spec fn eq_spec(&self, other: &Self) -> bool {
        self.same_as(other)
    }
}

impl RPMRequirement {
    /// Name, version and operator agree: what `==` tests.
    pub open spec fn same_as(&self, other: &Self) -> bool {
        &&& self@.name == other@.name
        &&& self@.version == other@.version
        &&& self@.flags == other@.flags
    }
}

impl Eq for RPMRequirement {

}

/// The number that stands for an optional text: nought for none, and one
/// more than the number of the text for one that is there.
pub open spec fn optional_hash(text: Option<Seq<char>>) -> u64 {
    match text {
        Some(t) => (text_hash(t) + 1) as u64,
        None => 0,
    }
}

/// One number made of three.
pub open spec fn mixed_hash(first: u64, second: u64, third: u64) -> u64 {
    (((first * 31 + second) % (HASH_MODULUS as int)) * 31 + third) as u64
}

fn hash_optional(text: &Option<String>) -> (h: u64)
    ensures
        h == optional_hash(text.deep_view()),
        h <= HASH_MODULUS,
{
    match text {
        Some(t) => hash_text(&chars_of(t.as_str())) + 1,
        None => 0,
    }
}

impl RPMRequirement {
    /// A number that stands for the requirement where requirements are
    /// hashed. It is made of name, version and operator, as equality is.
    pub open spec fn key_hash(&self) -> u64 {
        mixed_hash(
            text_hash(self@.name),
            optional_hash(self@.version),
            optional_hash(self@.flags),
        )
    }

    /// Computes the number that stands for the requirement.
    pub fn hash_key(&self) -> (h: u64)
        ensures
            h == self.key_hash(),
    {
        let name = hash_text(&chars_of(self.0.name.as_str()));
        let version = hash_optional(&self.0.version);
        let flags = hash_optional(&self.0.flags);
        ((name * 31 + version) % HASH_MODULUS) * 31 + flags
    }

    /// Requirements that are equal have the same number.
    pub proof fn lemma_equal_requirements_hash_alike(&self, other: &Self)
        requires
            self.same_as(other),
        ensures
            self.key_hash() == other.key_hash(),
    {
    }
}

/// The operator that a flags text names, if it names one.
pub open spec fn operator_named(flags: Seq<char>) -> Option<Relation> {
    if flags == seq!['E', 'Q'] {
        Some(Relation::Eq)
    } else if flags == seq!['G', 'T'] {
        Some(Relation::Gt)
    } else if flags == seq!['G', 'E'] {
        Some(Relation::Ge)
    } else if flags == seq!['L', 'T'] {
        Some(Relation::Lt)
    } else if flags == seq!['L', 'E'] {
        Some(Relation::Le)
    } else if flags == seq!['N', 'E'] {
        Some(Relation::Ne)
    } else {
        None
    }
}

/// Reads an operator's name.
pub fn parse_relation(flags: &str) -> (r: Option<Relation>)
    ensures
        r == operator_named(flags@),
{
    let c = chars_of(flags);
    if c.len() != 2 {
        return None;
    }
    let a = c[0];
    let b = c[1];
    assert(flags@ =~= seq![a, b]);
    if a == 'E' && b == 'Q' {
        Some(Relation::Eq)
    } else if a == 'G' && b == 'T' {
        Some(Relation::Gt)
    } else if a == 'G' && b == 'E' {
        Some(Relation::Ge)
    } else if a == 'L' && b == 'T' {
        Some(Relation::Lt)
    } else if a == 'L' && b == 'E' {
        Some(Relation::Le)
    } else if a == 'N' && b == 'E' {
        Some(Relation::Ne)
    } else {
        assert(seq![a, b][0] == a && seq![a, b][1] == b);
        None
    }
}

/// A name that denotes a file: it starts with the path separator.
pub open spec fn is_path(name: Seq<char>) -> bool {
    name.len() > 0 && name[0] == '/'
}

/// A name that holds a condition: ` if ` stands in it.
pub open spec fn is_conditional(name: Seq<char>) -> bool {
    has_infix(name, seq![' ', 'i', 'f', ' '])
}

/// A requirement name that dependency expansion follows: neither a path nor
/// a condition.
pub open spec fn is_supported(name: Seq<char>) -> bool {
    !is_path(name) && !is_conditional(name)
}

/// Whether dependency expansion follows a requirement of this name.
pub fn supported(name: &str) -> (r: bool)
    ensures
        r == is_supported(name@),
{
    let c = chars_of(name);
    if c.len() > 0 && c[0] == '/' {
        return false;
    }
    let needle: Vec<char> = vec![' ', 'i', 'f', ' '];
    assert(needle@ =~= seq![' ', 'i', 'f', ' ']);
    !contains_infix(&c, &needle)
}

/// The text shown where a requirement has no operator or no version.
pub open spec fn undefined() -> Seq<char> {
    seq!['U', 'N', 'D', 'E', 'F']
}

/// An optional text, or `UNDEF` in its absence.
pub open spec fn text_or_undefined(text: Option<Seq<char>>) -> Seq<char> {
    match text {
        Some(t) => t,
        None => undefined(),
    }
}

impl RPMRequirement {
    /// The operator the requirement carries, where its flags name one.
    pub open spec fn operator(&self) -> Option<Relation> {
        match self@.flags {
            Some(flags) => operator_named(flags),
            None => None,
        }
    }

    /// No operator or no version: every candidate satisfies it.
    pub open spec fn is_unconstrained(&self) -> bool {
        self@.flags is None || self@.version is None
    }

    /// What testing `candidate` against the requirement comes to. The
    /// candidate's name and both epochs play no part.
    pub open spec fn verdict(&self, candidate: &RPMPackageVersion) -> Result<bool, DataError> {
        if self.is_unconstrained() {
            Ok(true)
        } else if self.operator() is None {
            Err(DataError::UnknownOperator)
        } else {
            match version_order(candidate.version@, self@.version->0) {
                Some(outcome) => Ok(self.operator()->0.admits(outcome)),
                None => Err(DataError::MalformedVersion),
            }
        }
    }

    /// The test can be made: the requirement is unconstrained, or its
    /// operator is known and both version texts parse.
    pub open spec fn decidable_for(&self, candidate: &RPMPackageVersion) -> bool {
        self.is_unconstrained() || (self.operator() is Some && version_parses(candidate.version@)
            && version_parses(self@.version->0))
    }

    /// The operator of the requirement: none where it has no flags, and an
    /// error where the flags name no operator.
    pub fn relation(&self) -> (r: Result<Option<Relation>, DataError>)
        ensures
            r == match self@.flags {
                None => Ok::<Option<Relation>, DataError>(None),
                Some(flags) => match operator_named(flags) {
                    Some(operator) => Ok(Some(operator)),
                    None => Err(DataError::UnknownOperator),
                },
            },
    {
        match &self.0.flags {
            None => Ok(None),
            Some(flags) => match parse_relation(flags.as_str()) {
                Some(operator) => Ok(Some(operator)),
                None => Err(DataError::UnknownOperator),
            },
        }
    }

    /// Whether `other` satisfies the requirement, for a test that can be
    /// made.
    pub fn contains(&self, other: &RPMPackageVersion) -> (r: bool)
        requires
            self.decidable_for(other),
        ensures
            Ok::<bool, DataError>(r) == self.verdict(other),
            self.is_unconstrained() ==> r,
    {
        match &self.0.flags {
            None => true,
            Some(flags) => match &self.0.version {
                None => true,
                Some(version) => {
                    let operator = parse_relation(flags.as_str());
                    let met = versions_relate(
                        other.version.as_str(),
                        version.as_str(),
                        operator.unwrap(),
                    );
                    met.unwrap()
                },
            },
        }
    }

    /// Whether `other` satisfies the requirement, or what stops the test.
    pub fn try_contains(&self, other: &RPMPackageVersion) -> (r: Result<bool, DataError>)
        ensures
            r == self.verdict(other),
            r is Ok <==> self.decidable_for(other),
    {
        match &self.0.flags {
            None => Ok(true),
            Some(flags) => match &self.0.version {
                None => Ok(true),
                Some(version) => {
                    if parse_relation(flags.as_str()).is_none() {
                        Err(DataError::UnknownOperator)
                    } else if parses(other.version.as_str()) && parses(version.as_str()) {
                        Ok(self.contains(other))
                    } else {
                        Err(DataError::MalformedVersion)
                    }
                },
            },
        }
    }

    /// The text a requirement is shown as.
    pub open spec fn display(&self) -> Seq<char> {
        text_or_undefined(self@.flags) + seq!['-'] + text_or_undefined(self@.version)
    }

    /// Renders operator and version, joined by a hyphen, with `UNDEF` for
    /// one that is absent.
    pub fn to_string(&self) -> (r: String)
        ensures
            r@ == self.display(),
    {
        proof {
            reveal_strlit("UNDEF");
            reveal_strlit("-");
        }
        let mut out = match &self.0.flags {
            Some(flags) => flags.clone(),
            None => String::from_str("UNDEF"),
        };
        assert(out@ =~= text_or_undefined(self@.flags));
        out.append("-");
        match &self.0.version {
            Some(version) => {
                out.append(version.as_str());
            },
            None => {
                out.append("UNDEF");
            },
        }
        assert(out@ =~= self.display());
        out
    }
}

} // verus!
