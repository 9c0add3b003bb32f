//! Package versions: one concrete build of a package, and how two of them
//! are ordered.

use crate::requirement::{Requirement, RequirementView};
use crate::text::{append_integer, decimal};
use crate::version::{order_versions, parses, version_order, version_parses, Relation};
use vstd::prelude::*;
use vstd::std_specs::cmp::PartialEqSpecImpl;
use vstd::string::StringExecFns;

verus! {

/// One build of a package that the repository offers.
#[derive(Debug)]
pub struct RPMPackageVersion {
    pub package: String,
    pub version: String,
    pub epoch: i32,
    /// What must be installed along with it.
    pub requires: Vec<Requirement>,
    /// What may be installed along with it.
    pub suggests: Vec<Requirement>,
}

/// The mathematical content of an [`RPMPackageVersion`].
pub struct PackageVersionView {
    pub package: Seq<char>,
    pub version: Seq<char>,
    pub epoch: int,
    pub requires: Seq<RequirementView>,
    pub suggests: Seq<RequirementView>,
}

impl View for RPMPackageVersion {
    type V = PackageVersionView;

    open spec fn view(&self) -> PackageVersionView {
        PackageVersionView {
            package: self.package@,
            version: self.version@,
            epoch: self.epoch as int,
            requires: self.requires.deep_view(),
            suggests: self.suggests.deep_view(),
        }
    }
}

impl DeepView for RPMPackageVersion {
    type V = PackageVersionView;

    open spec fn deep_view(&self) -> PackageVersionView {
        self@
    }
}

impl Clone for RPMPackageVersion {
    fn clone(&self) -> (r: Self)
        ensures
            r@ == self@,
            r.package == self.package,
            r.version == self.version,
            r.epoch == self.epoch,
            r.requires@ == self.requires@,
            r.suggests@ == self.suggests@,
    {
        let hard = self.requires.clone();
        let soft = self.suggests.clone();
        assert(hard@ =~= self.requires@);
        assert(soft@ =~= self.suggests@);
        assert(hard.deep_view() =~= self.requires.deep_view());
        assert(soft.deep_view() =~= self.suggests.deep_view());
        RPMPackageVersion {
            package: self.package.clone(),
            version: self.version.clone(),
            epoch: self.epoch,
            requires: hard,
            suggests: soft,
        }
    }
}

impl Default for RPMPackageVersion {
    fn default() -> (r: Self)
        ensures
            r.package@.len() == 0,
            r.version@.len() == 0,
            r.epoch == 0,
            r.requires@.len() == 0,
            r.suggests@.len() == 0,
    {
        RPMPackageVersion {
            package: String::new(),
            version: String::new(),
            epoch: 0,
            requires: Vec::new(),
            suggests: Vec::new(),
        }
    }
}

impl PartialEq for RPMPackageVersion {
    /// Two package versions are the same when name and version text agree;
    /// the epoch plays no part.
    fn eq(&self, other: &Self) -> (r: bool) {
        self.package == other.package && self.version == other.version
    }
}

impl PartialEqSpecImpl for RPMPackageVersion {
    open spec fn obeys_eq_spec() -> bool {
        true
    }

    open spec fn eq_spec(&self, other: &Self) -> bool {
        self.package@ == other.package@ && self.version@ == other.version@
    }
}

impl Eq for RPMPackageVersion {

}

/// How two package versions stand, given their epochs and, where the epochs
/// tie, the outcome of comparing their version texts.
pub open spec fn precedence(epoch: int, other_epoch: int, versions: Option<Relation>) -> Relation {
    if epoch < other_epoch {
        Relation::Lt
    } else if epoch > other_epoch {
        Relation::Gt
    } else {
        versions->0
    }
}

/// Orders by epoch; where the epochs tie, `versions` decides.
pub fn rank(epoch: i32, other_epoch: i32, versions: Option<Relation>) -> (r: Relation)
    requires
        epoch == other_epoch ==> versions is Some,
    ensures
        r == precedence(epoch as int, other_epoch as int, versions),
{
    if epoch < other_epoch {
        Relation::Lt
    } else if epoch > other_epoch {
        Relation::Gt
    } else {
        versions.unwrap()
    }
}

impl RPMPackageVersion {
    /// Whether the two can be ordered: their epochs differ, or both version
    /// texts parse.
    pub open spec fn comparable(&self, other: &Self) -> bool {
        self.epoch != other.epoch || (version_parses(self.version@) && version_parses(
            other.version@,
        ))
    }

    /// How `self` stands to `other`: the higher epoch wins, and equal epochs
    /// leave it to the version texts.
    pub open spec fn order(&self, other: &Self) -> Relation {
        precedence(
            self.epoch as int,
            other.epoch as int,
            version_order(self.version@, other.version@),
        )
    }

    /// `self` is strictly preferred to `other`.
    pub open spec fn outranks(&self, other: &Self) -> bool {
        self.order(other) == Relation::Gt
    }

    /// Compares two package versions that can be ordered.
    pub fn compare(&self, other: &Self) -> (r: Relation)
        requires
            self.comparable(other),
        ensures
            r == self.order(other),
            r.is_outcome(),
            self.epoch > other.epoch ==> r == Relation::Gt,
            self.epoch < other.epoch ==> r == Relation::Lt,
            self.epoch == other.epoch ==> Some(r) == version_order(self.version@, other.version@),
    {
        let versions = if self.epoch == other.epoch {
            order_versions(self.version.as_str(), other.version.as_str())
        } else {
            None
        };
        rank(self.epoch, other.epoch, versions)
    }

    /// Compares two package versions, or tells that they cannot be ordered.
    pub fn try_compare(&self, other: &Self) -> (r: Option<Relation>)
        ensures
            r == if self.comparable(other) {
                Some(self.order(other))
            } else {
                None
            },
    {
        if self.epoch != other.epoch || (parses(self.version.as_str()) && parses(
            other.version.as_str(),
        )) {
            Some(self.compare(other))
        } else {
            None
        }
    }

    /// The text a package version is shown as.
    pub open spec fn display(&self) -> Seq<char> {
        if self.epoch == 0 {
            self.version@
        } else {
            self.version@ + seq![' ', '('] + decimal(self.epoch as int) + seq![')']
        }
    }

    /// Renders the version, followed by the epoch in brackets where it is
    /// not zero.
    pub fn to_string(&self) -> (r: String)
        ensures
            r@ == self.display(),
    {
        let mut out = self.version.clone();
        if self.epoch != 0 {
            proof {
                reveal_strlit(" (");
                reveal_strlit(")");
            }
            out.append(" (");
            append_integer(&mut out, self.epoch);
            out.append(")");
            assert(out@ =~= self.display());
        }
        out
    }
}

} // verus!
