//! The package universe: every package version of a repository, each under
//! an identifier, filed by its own name and by the names it provides.

use crate::index::{increasing, NameIndex, SolvableId};
use crate::package::{PackageVersionView, RPMPackageVersion};
use crate::requirement::Requirement;
use vstd::prelude::*;

verus! {

/// One package as the repository metadata describes it.
#[derive(Debug)]
pub struct PackageRecord {
    pub name: String,
    pub version: String,
    pub epoch: i32,
    pub requires: Vec<Requirement>,
    pub suggests: Vec<Requirement>,
    /// The capabilities the package offers under names of their own.
    pub provides: Vec<Requirement>,
}

impl PackageRecord {
    /// One of the first `upto` entries of the provides list bears `name`.
    pub open spec fn provides_among(&self, name: Seq<char>, upto: int) -> bool {
        exists|j: int| 0 <= j < upto && j < self.provides@.len() && self.provides@[j].name@ == name
    }

    /// The package declares that it provides `name`.
    pub open spec fn provides_name(&self, name: Seq<char>) -> bool {
        self.provides_among(name, self.provides@.len() as int)
    }

    /// The package version that the record describes.
    pub open spec fn package_version(&self) -> PackageVersionView {
        PackageVersionView {
            package: self.name@,
            version: self.version@,
            epoch: self.epoch as int,
            requires: self.requires.deep_view(),
            suggests: self.suggests.deep_view(),
        }
    }

    /// Builds the package version that the record describes.
    pub fn to_package_version(&self) -> (r: RPMPackageVersion)
        ensures
            r@ == self.package_version(),
    {
        let hard = self.requires.clone();
        let soft = self.suggests.clone();
        assert(hard@ =~= self.requires@);
        assert(soft@ =~= self.suggests@);
        assert(hard.deep_view() =~= self.requires.deep_view());
        assert(soft.deep_view() =~= self.suggests.deep_view());
        RPMPackageVersion {
            package: self.name.clone(),
            version: self.version.clone(),
            epoch: self.epoch,
            requires: hard,
            suggests: soft,
        }
    }
}

/// The package universe: every package version of a repository, filed by
/// its own name and by each name it provides. It is built once and never
/// changes.
pub struct RPMProvider {
    solvables: Vec<RPMPackageVersion>,
    by_name: NameIndex,
    provides_to_package: NameIndex,
    disable_suggest: bool,
}

impl RPMProvider {
    /// Both indexes hold identifiers of the universe only, and a package
    /// version is filed under its own name and no other.
    #[verifier::type_invariant]
    pub closed spec fn wf(&self) -> bool {
        &&& self.by_name.wf()
        &&& self.by_name.below(self.solvables@.len() as int)
        &&& self.provides_to_package.wf()
        &&& self.provides_to_package.below(self.solvables@.len() as int)
        &&& forall|name: Seq<char>, id: SolvableId| #[trigger]
            self.by_name.ids(name).contains(id) <==> id.0 < self.solvables@.len()
                && self.solvables@[id.0 as int].package@ == name
    }

    /// The package versions of the universe; an identifier is a position in
    /// this sequence.
    pub closed spec fn packages(&self) -> Seq<RPMPackageVersion> {
        self.solvables@
    }

    /// The package versions that declare that they provide `name`.
    pub closed spec fn providers(&self, name: Seq<char>) -> Seq<SolvableId> {
        self.provides_to_package.ids(name)
    }

    /// The package versions whose own name is `name`.
    pub closed spec fn carriers(&self, name: Seq<char>) -> Seq<SolvableId> {
        self.by_name.ids(name)
    }

    /// Whether dependency expansion leaves the suggested packages out.
    pub closed spec fn suggests_disabled(&self) -> bool {
        self.disable_suggest
    }

    /// A universe without packages, in which suggestions are followed.
    pub fn new() -> (p: Self)
        ensures
            p.wf(),
            p.packages().len() == 0,
            !p.suggests_disabled(),
            forall|name: Seq<char>| #[trigger] p.providers(name) == Seq::<SolvableId>::empty(),
            forall|name: Seq<char>| #[trigger] p.carriers(name) == Seq::<SolvableId>::empty(),
    {
        let by_name = NameIndex::new();
        let provides_to_package = NameIndex::new();
        assert forall|name: Seq<char>, id: SolvableId| !(#[trigger] by_name.ids(name).contains(
            id,
        )) by {
            assert(by_name.ids(name) == Seq::<SolvableId>::empty());
        }
        RPMProvider { solvables: Vec::new(), by_name, provides_to_package, disable_suggest: false }
    }

    /// How many package versions the universe holds.
    pub fn len(&self) -> (n: usize)
        ensures
            n == self.packages().len(),
    {
        self.solvables.len()
    }

    /// Whether dependency expansion leaves the suggested packages out.
    pub fn disable_suggest(&self) -> (r: bool)
        ensures
            r == self.suggests_disabled(),
    {
        self.disable_suggest
    }

    /// The package version behind an identifier of the universe.
    pub fn resolve_solvable(&self, id: SolvableId) -> (r: &RPMPackageVersion)
        requires
            id.0 < self.packages().len(),
        ensures
            *r == self.packages()[id.0 as int],
    {
        &self.solvables[id.0]
    }

    /// The package versions that provide `name`, in rising order of their
    /// identifiers; none where nothing provides it.
    pub fn candidates_for(&self, name: &str) -> (r: Vec<SolvableId>)
        ensures
            r@ == self.providers(name@),
            increasing(r@),
            forall|k: int| 0 <= k < r@.len() ==> (#[trigger] r@[k]).0 < self.packages().len(),
    {
        proof {
            use_type_invariant(self);
            self.provides_to_package.lemma_ids(name@, self.solvables@.len() as int);
        }
        self.provides_to_package.get(name)
    }

    /// The package versions whose own name is `name`, in rising order of
    /// their identifiers.
    pub fn packages_named(&self, name: &str) -> (r: Vec<SolvableId>)
        ensures
            r@ == self.carriers(name@),
            increasing(r@),
            forall|id: SolvableId|
                r@.contains(id) <==> id.0 < self.packages().len() && (
                #[trigger] self.packages()[id.0 as int]).package@ == name@,
    {
        proof {
            use_type_invariant(self);
            self.by_name.lemma_ids(name@, self.solvables@.len() as int);
        }
        self.by_name.get(name)
    }

    /// Builds the universe from the packages of a repository, in one pass.
    /// The package at position `i` gets the identifier `i`.
    pub fn from_repodata(records: &Vec<PackageRecord>, disable_suggest: bool) -> (p: Self)
        ensures
            p.wf(),
            p.suggests_disabled() == disable_suggest,
            p.packages().len() == records@.len(),
            forall|i: int|
                0 <= i < records@.len() ==> (#[trigger] p.packages()[i])@
                    == records@[i].package_version(),
            forall|name: Seq<char>, id: SolvableId| #[trigger]
                p.providers(name).contains(id) <==> id.0 < records@.len()
                    && records@[id.0 as int].provides_name(name),
            forall|name: Seq<char>, id: SolvableId| #[trigger]
                p.carriers(name).contains(id) <==> id.0 < records@.len()
                    && records@[id.0 as int].name@ == name,
            forall|name: Seq<char>| increasing(#[trigger] p.providers(name)),
            forall|name: Seq<char>| increasing(#[trigger] p.carriers(name)),
    {
        let mut solvables: Vec<RPMPackageVersion> = Vec::new();
        let mut by_name = NameIndex::new();
        let mut provides_to_package = NameIndex::new();
        let mut i: usize = 0;
        assert forall|name: Seq<char>, id: SolvableId| !(#[trigger] by_name.ids(name).contains(
            id,
        )) by {
            assert(by_name.ids(name) == Seq::<SolvableId>::empty());
        }
        assert forall|name: Seq<char>, id: SolvableId| !(
        #[trigger] provides_to_package.ids(name).contains(id)) by {
            assert(provides_to_package.ids(name) == Seq::<SolvableId>::empty());
        }
        while i < records.len()
            invariant
                i <= records@.len(),
                solvables@.len() == i,
                by_name.wf(),
                by_name.below(i as int),
                provides_to_package.wf(),
                provides_to_package.below(i as int),
                forall|k: int|
                    0 <= k < i ==> (#[trigger] solvables@[k])@ == records@[k].package_version(),
                forall|name: Seq<char>, id: SolvableId| #[trigger]
                    by_name.ids(name).contains(id) <==> id.0 < i && records@[id.0 as int].name@
                        == name,
                forall|name: Seq<char>, id: SolvableId| #[trigger]
                    provides_to_package.ids(name).contains(id) <==> id.0 < i
                        && records@[id.0 as int].provides_name(name),
            decreases records@.len() - i,
        {
            let record = &records[i];
            let id = SolvableId(i);
            solvables.push(record.to_package_version());
            proof {
                by_name.lemma_below(i as int, i + 1);
                provides_to_package.lemma_below(i as int, i + 1);
            }
            by_name.insert(record.name.as_str(), id);
            let mut j: usize = 0;
            while j < record.provides.len()
                invariant
                    i < records@.len(),
                    record == records@[i as int],
                    id == SolvableId(i),
                    j <= record.provides@.len(),
                    provides_to_package.wf(),
                    provides_to_package.below(i + 1),
                    forall|name: Seq<char>, x: SolvableId| #[trigger]
                        provides_to_package.ids(name).contains(x) <==> (x.0 < i
                            && records@[x.0 as int].provides_name(name)) || (x == id
                            && record.provides_among(name, j as int)),
                decreases record.provides@.len() - j,
            {
                let ghost before = provides_to_package;
                provides_to_package.insert(record.provides[j].name.as_str(), id);
                assert forall|name: Seq<char>, x: SolvableId| #[trigger]
                    provides_to_package.ids(name).contains(x) <==> (x.0 < i
                        && records@[x.0 as int].provides_name(name)) || (x == id
                        && record.provides_among(name, j + 1)) by {
                    assert(before.ids(name).contains(x) <==> (x.0 < i
                        && records@[x.0 as int].provides_name(name)) || (x == id
                        && record.provides_among(name, j as int)));
                    if record.provides_among(name, j as int) {
                        let w = choose|w: int|
                            0 <= w < j && w < record.provides@.len() && record.provides@[w].name@
                                == name;
                        assert(0 <= w < j + 1 && record.provides@[w].name@ == name);
                    }
                    if record.provides@[j as int].name@ == name {
                        assert(record.provides_among(name, j + 1));
                    }
                    if record.provides_among(name, j + 1) {
                        let w = choose|w: int|
                            0 <= w < j + 1 && w < record.provides@.len()
                                && record.provides@[w].name@ == name;
                        if w < j {
                            assert(record.provides_among(name, j as int));
                        }
                    }
                }
                j += 1;
            }
            assert forall|name: Seq<char>, x: SolvableId| #[trigger]
                provides_to_package.ids(name).contains(x) <==> x.0 < i + 1
                    && records@[x.0 as int].provides_name(name) by {
                assert(record.provides_among(name, j as int) == record.provides_name(name));
            }
            i += 1;
        }
        proof {
            assert forall|name: Seq<char>| increasing(
                #[trigger] provides_to_package.ids(name),
            ) by {
                provides_to_package.lemma_ids(name, i as int);
            }
            assert forall|name: Seq<char>| increasing(#[trigger] by_name.ids(name)) by {
                by_name.lemma_ids(name, i as int);
            }
        }
        RPMProvider { solvables, by_name, provides_to_package, disable_suggest }
    }
}

impl Default for RPMProvider {
    fn default() -> (p: Self)
        ensures
            p.wf(),
            p.packages().len() == 0,
            !p.suggests_disabled(),
    {
        RPMProvider::new()
    }
}

} // verus!
