//! The operations a solver asks of the package universe: which packages may
//! stand for a name, in what order to try them, and what each of them
//! depends on.

use crate::error::DataError;
use crate::index::SolvableId;
use crate::package::PackageVersionView;
use crate::requirement::{is_supported, supported, RPMRequirement, Requirement, RequirementView};
use crate::universe::RPMProvider;
use crate::version::{parses, version_parses, Relation};
use vstd::prelude::*;

verus! {

/// The package versions that may stand for a name.
#[derive(Debug)]
pub struct Candidates {
    /// Every package version that provides the name.
    pub candidates: Vec<SolvableId>,
    /// One that is to be tried first.
    pub favored: Option<SolvableId>,
    /// The only one that may be chosen.
    pub locked: Option<SolvableId>,
    /// Those whose dependencies can be had at once.
    pub hint_dependencies_available: Vec<SolvableId>,
    /// Those that are left out, each with the reason.
    pub excluded: Vec<(SolvableId, String)>,
}

/// What a package version depends on.
#[derive(Debug)]
pub struct Dependencies {
    /// What must be installed along with it; each entry is filed under the
    /// name it requires.
    pub requirements: Vec<RPMRequirement>,
    /// What restricts other packages without asking for them.
    pub constrains: Vec<RPMRequirement>,
}

/// The requirements that dependency expansion follows: those whose name is
/// neither a path nor a condition, in their order.
pub open spec fn retained(requirements: Seq<RequirementView>) -> Seq<RequirementView> {
    requirements.filter(|r: RequirementView| is_supported(r.name))
}

/// The dependencies of a package version: what it requires and, unless that
/// is switched off, what it suggests.
pub open spec fn expansion(pack: PackageVersionView, suggests_disabled: bool) -> Seq<
    RequirementView,
> {
    if suggests_disabled {
        retained(pack.requires)
    } else {
        retained(pack.requires) + retained(pack.suggests)
    }
}

/// Suggestions are followed after the requirements when they are enabled,
/// and not at all when they are disabled.
pub proof fn lemma_suggestions_follow_the_switch(pack: PackageVersionView)
    ensures
        expansion(pack, true) == retained(pack.requires),
        expansion(pack, false) == expansion(pack, true) + retained(pack.suggests),
{
}

/// Two neighbours that change places leave a sequence with the entries it
/// had.
proof fn lemma_exchange_keeps_entries(s: Seq<SolvableId>, j: int)
    requires
        0 < j < s.len(),
    ensures
        s.update(j - 1, s[j]).update(j, s[j - 1]).to_multiset() == s.to_multiset(),
{
    let before = s.take(j - 1);
    let after = s.skip(j + 1);
    let pair = seq![s[j - 1], s[j]];
    let turned = seq![s[j], s[j - 1]];
    assert(s =~= before + pair + after);
    assert(s.update(j - 1, s[j]).update(j, s[j - 1]) =~= before + turned + after);
    assert(pair =~= seq![s[j - 1]] + seq![s[j]]);
    assert(turned =~= seq![s[j]] + seq![s[j - 1]]);
    vstd::seq_lib::lemma_seq_union_to_multiset_commutative(seq![s[j - 1]], seq![s[j]]);
    vstd::seq_lib::lemma_multiset_commutative(before, pair);
    vstd::seq_lib::lemma_multiset_commutative(before, turned);
    vstd::seq_lib::lemma_multiset_commutative(before + pair, after);
    vstd::seq_lib::lemma_multiset_commutative(before + turned, after);
}

/// Appends to `out` the requirements of a list that dependency expansion
/// follows.
pub fn retain_supported(out: &mut Vec<RPMRequirement>, requirements: &Vec<Requirement>)
    ensures
        final(out).deep_view() == old(out).deep_view() + retained(requirements.deep_view()),
{
    let ghost all = requirements.deep_view();
    let mut i: usize = 0;
    proof {
        reveal(Seq::filter);
        assert(all.take(0) =~= Seq::<RequirementView>::empty());
        assert(out.deep_view() =~= old(out).deep_view() + retained(all.take(0)));
    }
    while i < requirements.len()
        invariant
            i <= requirements@.len(),
            all == requirements.deep_view(),
            out.deep_view() == old(out).deep_view() + retained(all.take(i as int)),
        decreases requirements@.len() - i,
    {
        let requirement = &requirements[i];
        let ghost before = out.deep_view();
        proof {
            reveal(Seq::filter);
            assert(all.take(i + 1).drop_last() =~= all.take(i as int));
            assert(all.take(i + 1).last() == requirement@);
        }
        if supported(requirement.name.as_str()) {
            out.push(RPMRequirement(requirement.clone()));
            assert(out.deep_view() =~= before.push(requirement@));
            assert(out.deep_view() =~= old(out).deep_view() + retained(all.take(i + 1)));
        }
        i += 1;
    }
    assert(all.take(i as int) =~= all);
}

impl RPMProvider {
    /// What the solver is told of a name: the package versions that provide
    /// it, all of them with their dependencies at hand, none favoured,
    /// locked or excluded.
    pub fn get_candidates(&self, name: &str) -> (r: Candidates)
        ensures
            r.candidates@ == self.providers(name@),
            r.hint_dependencies_available@ == self.providers(name@),
            r.favored is None,
            r.locked is None,
            r.excluded@.len() == 0,
    {
        let candidates = self.candidates_for(name);
        let hint_dependencies_available = self.candidates_for(name);
        Candidates {
            candidates,
            favored: None,
            locked: None,
            hint_dependencies_available,
            excluded: Vec::new(),
        }
    }

    /// The dependencies of a package version: its requirements and, unless
    /// suggestions are disabled, its suggestions, each without the entries
    /// whose name is a path or a condition.
    pub fn get_dependencies(&self, solvable: SolvableId) -> (r: Dependencies)
        requires
            solvable.0 < self.packages().len(),
        ensures
            r.requirements.deep_view() == expansion(
                self.packages()[solvable.0 as int]@,
                self.suggests_disabled(),
            ),
            self.suggests_disabled() ==> r.requirements.deep_view() == retained(
                self.packages()[solvable.0 as int]@.requires,
            ),
            !self.suggests_disabled() ==> r.requirements.deep_view() == retained(
                self.packages()[solvable.0 as int]@.requires,
            ) + retained(self.packages()[solvable.0 as int]@.suggests),
            r.constrains@.len() == 0,
    {
        let pack = self.resolve_solvable(solvable);
        let mut requirements: Vec<RPMRequirement> = Vec::new();
        assert(requirements.deep_view() =~= Seq::<RequirementView>::empty());
        retain_supported(&mut requirements, &pack.requires);
        assert(requirements.deep_view() =~= retained(pack@.requires));
        if !self.disable_suggest() {
            retain_supported(&mut requirements, &pack.suggests);
        }
        Dependencies { requirements, constrains: Vec::new() }
    }

    /// The package version behind `a` is strictly preferred to the one
    /// behind `b`: it has the higher epoch or, with equal epochs, the higher
    /// version.
    pub open spec fn outranks(&self, a: SolvableId, b: SolvableId) -> bool {
        self.packages()[a.0 as int].outranks(&self.packages()[b.0 as int])
    }

    /// The package versions behind `a` and `b` can be ordered.
    pub open spec fn comparable(&self, a: SolvableId, b: SolvableId) -> bool {
        self.packages()[a.0 as int].comparable(&self.packages()[b.0 as int])
    }

    /// Every identifier is one of the universe.
    pub open spec fn all_known(&self, ids: Seq<SolvableId>) -> bool {
        forall|i: int| 0 <= i < ids.len() ==> (#[trigger] ids[i]).0 < self.packages().len()
    }

    /// Any two entries of the list can be ordered.
    pub open spec fn all_comparable(&self, ids: Seq<SolvableId>) -> bool {
        forall|i: int, j: int|
            0 <= i < ids.len() && 0 <= j < ids.len() && i != j ==> self.comparable(
                #[trigger] ids[i],
                #[trigger] ids[j],
            )
    }

    /// The list can be sorted: its identifiers are known and any two of
    /// them can be ordered.
    pub open spec fn sortable(&self, ids: Seq<SolvableId>) -> bool {
        self.all_known(ids) && self.all_comparable(ids)
    }

    /// `output` holds the entries of `input`, the entry at position `i`
    /// taken from position `origin[i]`, in the order of preference: an
    /// entry stands before one that came earlier in the input only if it
    /// outranks it, and of two neighbours that kept their order the later
    /// does not outrank the earlier.
    pub open spec fn is_preference_order(
        &self,
        input: Seq<SolvableId>,
        output: Seq<SolvableId>,
        origin: Seq<int>,
    ) -> bool {
        &&& output.len() == input.len()
        &&& origin.len() == input.len()
        &&& forall|i: int|
            0 <= i < output.len() ==> 0 <= #[trigger] origin[i] < input.len() && output[i]
                == input[origin[i]]
        &&& forall|i: int, j: int|
            0 <= i < j < output.len() ==> #[trigger] origin[i] != #[trigger] origin[j]
        &&& forall|i: int, j: int|
            0 <= i < j < output.len() ==> #[trigger] origin[i] < #[trigger] origin[j]
                || self.outranks(output[i], output[j])
        &&& forall|i: int|
            0 <= i && i + 1 < output.len() && #[trigger] origin[i] < origin[i + 1]
                ==> !self.outranks(output[i + 1], output[i])
    }

    /// `sorted` with `x` put before the entries at its end that `x`
    /// outranks.
    pub open spec fn placed(&self, sorted: Seq<SolvableId>, x: SolvableId) -> Seq<SolvableId>
        decreases sorted.len(),
    {
        if sorted.len() > 0 && self.outranks(x, sorted.last()) {
            self.placed(sorted.drop_last(), x).push(sorted.last())
        } else {
            sorted.push(x)
        }
    }

    /// The entries of `ids` in the order of preference: each in its turn is
    /// put behind the entries before it, and then before those at the end
    /// that it outranks.
    pub open spec fn preferred(&self, ids: Seq<SolvableId>) -> Seq<SolvableId>
        decreases ids.len(),
    {
        if ids.len() == 0 {
            ids
        } else {
            self.placed(self.preferred(ids.drop_last()), ids.last())
        }
    }

    /// Whether the package version behind `a` outranks the one behind `b`.
    fn prefers(&self, a: SolvableId, b: SolvableId) -> (r: bool)
        requires
            a.0 < self.packages().len(),
            b.0 < self.packages().len(),
            self.comparable(a, b),
        ensures
            r == self.outranks(a, b),
    {
        let relation = self.resolve_solvable(a).compare(self.resolve_solvable(b));
        match relation {
            Relation::Gt => true,
            _ => false,
        }
    }

    /// Sorts candidates into the order in which they are to be tried: the
    /// highest epoch first and, within an epoch, the highest version.
    /// Candidates that neither outranks the other keep their order.
    pub fn sort_candidates(&self, solvables: &mut Vec<SolvableId>)
        requires
            self.sortable(old(solvables)@),
        ensures
            final(solvables)@ == self.preferred(old(solvables)@),
            exists|origin: Seq<int>|
                self.is_preference_order(old(solvables)@, final(solvables)@, origin),
            final(solvables)@.to_multiset() == old(solvables)@.to_multiset(),
    {
        let n = solvables.len();
        let ghost input = solvables@;
        let ghost mut origin: Seq<int> = Seq::new(n as nat, |i: int| i);
        if n == 0 {
            assert(self.is_preference_order(input, solvables@, origin));
            return;
        }
        proof {
            let first = input.take(1);
            assert(first.drop_last() =~= Seq::<SolvableId>::empty());
            assert(self.preferred(first.drop_last()) =~= Seq::<SolvableId>::empty());
            assert(self.placed(Seq::<SolvableId>::empty(), first.last()) =~= first);
            assert(self.preferred(first) == first);
        }
        let mut k: usize = 1;
        while k < n
            invariant
                1 <= k <= n,
                n == input.len(),
                solvables@.take(k as int) == self.preferred(input.take(k as int)),
                solvables@.len() == n,
                origin.len() == n,
                self.sortable(input),
                solvables@.to_multiset() == input.to_multiset(),
                forall|i: int|
                    0 <= i < n ==> 0 <= #[trigger] origin[i] < n && solvables@[i]
                        == input[origin[i]],
                forall|i: int, j: int|
                    0 <= i < j < n ==> #[trigger] origin[i] != #[trigger] origin[j],
                forall|i: int| k <= i < n ==> #[trigger] origin[i] == i,
                forall|i: int| 0 <= i < k && i < n ==> #[trigger] origin[i] < k,
                forall|i: int, j: int|
                    0 <= i < j < k && j < n ==> #[trigger] origin[i] < #[trigger] origin[j]
                        || self.outranks(solvables@[i], solvables@[j]),
                forall|i: int|
                    0 <= i && i + 1 < k && i + 1 < n && #[trigger] origin[i] < origin[i + 1]
                        ==> !self.outranks(solvables@[i + 1], solvables@[i]),
            decreases n - k,
        {
            let mut j: usize = k;
            let mut moving = true;
            let ghost prefix = solvables@.take(k as int);
            let ghost x = input[k as int];
            proof {
                assert(origin[k as int] == k);
                assert(solvables@[k as int] == x);
                assert(solvables@.subrange(k + 1, k + 1) =~= Seq::<SolvableId>::empty());
                assert(self.placed(prefix, x) =~= self.placed(solvables@.take(j as int), x)
                    + solvables@.subrange(j + 1, k + 1));
            }
            while j > 0 && moving
                invariant
                    j <= k < n,
                    n == input.len(),
                    prefix == self.preferred(input.take(k as int)),
                    x == input[k as int],
                    solvables@[j as int] == x,
                    self.placed(prefix, x) == self.placed(solvables@.take(j as int), x)
                        + solvables@.subrange(j + 1, k + 1),
                    solvables@.len() == n,
                    origin.len() == n,
                    self.sortable(input),
                    solvables@.to_multiset() == input.to_multiset(),
                    forall|i: int|
                        0 <= i < n ==> 0 <= #[trigger] origin[i] < n && solvables@[i]
                            == input[origin[i]],
                    forall|i: int, j: int|
                        0 <= i < j < n ==> #[trigger] origin[i] != #[trigger] origin[j],
                    forall|i: int| k < i < n ==> #[trigger] origin[i] == i,
                    origin[j as int] == k,
                    forall|i: int| 0 <= i <= k && i != j ==> #[trigger] origin[i] < k,
                    forall|a: int, b: int|
                        0 <= a < b <= k && a != j && b != j ==> #[trigger] origin[a]
                            < #[trigger] origin[b] || self.outranks(solvables@[a], solvables@[b]),
                    forall|b: int|
                        j < b <= k ==> self.outranks(
                            solvables@[j as int],
                            #[trigger] solvables@[b],
                        ),
                    forall|a: int|
                        0 <= a && a + 1 <= k && a != j && a + 1 != j && #[trigger] origin[a]
                            < origin[a + 1] ==> !self.outranks(solvables@[a + 1], solvables@[a]),
                    0 < j < k && origin[j - 1] < origin[j + 1] ==> !self.outranks(
                        solvables@[j + 1],
                        solvables@[j - 1],
                    ),
                    !moving ==> j == 0 || !self.outranks(solvables@[j as int], solvables@[j - 1]),
                decreases j + if moving { 1int } else { 0int },
            {
                let x = solvables[j];
                let y = solvables[j - 1];
                proof {
                    assert(origin[j as int] != origin[j - 1]);
                    assert(self.comparable(input[origin[j as int]], input[origin[j - 1]]));
                }
                if self.prefers(x, y) {
                    let ghost before = solvables@;
                    let ghost before_origin = origin;
                    solvables.set(j - 1, x);
                    solvables.set(j, y);
                    proof {
                        assert(before.take(j as int).last() == y);
                        assert(before.take(j as int).drop_last() =~= before.take(j - 1));
                        assert(solvables@.take(j - 1) =~= before.take(j - 1));
                        assert(solvables@.subrange(j as int, k + 1) =~= seq![y] + before.subrange(
                            j + 1,
                            k + 1,
                        ));
                        assert(self.placed(prefix, x) =~= self.placed(solvables@.take(j - 1), x)
                            + solvables@.subrange(j as int, k + 1));
                        lemma_exchange_keeps_entries(before, j as int);
                        assert(solvables@ =~= before.update(j - 1, before[j as int]).update(
                            j as int,
                            before[j - 1],
                        ));
                        origin = origin.update(j - 1, before_origin[j as int]).update(
                            j as int,
                            before_origin[j - 1],
                        );
                        assert forall|a: int, b: int|
                            0 <= a < b <= k && a != j - 1 && b != j - 1 implies #[trigger] origin[a]
                                < #[trigger] origin[b] || self.outranks(
                                solvables@[a],
                                solvables@[b],
                            ) by {
                            if b == j {
                                assert(before_origin[a] < before_origin[j - 1] || self.outranks(
                                    before[a],
                                    before[j - 1],
                                ));
                            } else if a == j {
                                assert(before_origin[j - 1] < before_origin[b] || self.outranks(
                                    before[j - 1],
                                    before[b],
                                ));
                            } else {
                                assert(before_origin[a] < before_origin[b] || self.outranks(
                                    before[a],
                                    before[b],
                                ));
                            }
                        }
                        assert forall|a: int|
                            0 <= a && a + 1 <= k && a != j - 1 && a + 1 != j - 1
                                && #[trigger] origin[a] < origin[a + 1] implies !self.outranks(
                            solvables@[a + 1],
                            solvables@[a],
                        ) by {
                            if a == j {
                                assert(before_origin[j - 1] < before_origin[j + 1]);
                            } else {
                                assert(before_origin[a] < before_origin[a + 1]);
                            }
                        }
                    }
                    j = j - 1;
                } else {
                    moving = false;
                }
            }
            proof {
                if j > 0 {
                    assert(solvables@.take(j as int).last() == solvables@[j - 1]);
                }
                assert(self.placed(solvables@.take(j as int), x) == solvables@.take(j as int).push(
                    x,
                ));
                assert(solvables@.take(j as int).push(x) + solvables@.subrange(j + 1, k + 1)
                    =~= solvables@.take(k + 1));
                assert(input.take(k + 1).drop_last() =~= input.take(k as int));
                assert(input.take(k + 1).last() == x);
                assert(solvables@.take(k + 1) == self.preferred(input.take(k + 1)));
                assert forall|a: int, b: int|
                    0 <= a < b < k + 1 && b < n implies #[trigger] origin[a] < #[trigger] origin[b]
                    || self.outranks(solvables@[a], solvables@[b]) by {
                    if b == j {
                        assert(origin[a] < k);
                    } else if a == j {
                        assert(self.outranks(solvables@[j as int], solvables@[b]));
                    }
                }
                assert forall|a: int|
                    0 <= a && a + 1 < k + 1 && a + 1 < n && #[trigger] origin[a] < origin[a + 1]
                    implies !self.outranks(solvables@[a + 1], solvables@[a]) by {
                    if a == j {
                        assert(origin[a + 1] < k);
                    }
                }
            }
            k = k + 1;
        }
        assert(solvables@.take(n as int) =~= solvables@);
        assert(input.take(n as int) =~= input);
        assert(self.is_preference_order(input, solvables@, origin));
    }

    /// Whether every identifier of the list is one of the universe.
    fn knows_all(&self, ids: &Vec<SolvableId>) -> (r: bool)
        ensures
            r == self.all_known(ids@),
    {
        let mut i: usize = 0;
        while i < ids.len()
            invariant
                i <= ids@.len(),
                forall|k: int| 0 <= k < i ==> (#[trigger] ids@[k]).0 < self.packages().len(),
            decreases ids@.len() - i,
        {
            if ids[i].0 >= self.len() {
                return false;
            }
            i += 1;
        }
        true
    }

    /// Whether any two entries of a list of known identifiers can be
    /// ordered.
    fn can_order(&self, ids: &Vec<SolvableId>) -> (r: bool)
        requires
            self.all_known(ids@),
        ensures
            r == self.all_comparable(ids@),
    {
        let n = ids.len();
        let mut parsed: Vec<bool> = Vec::new();
        let mut i: usize = 0;
        while i < n
            invariant
                n == ids@.len(),
                i <= n,
                parsed@.len() == i,
                self.all_known(ids@),
                forall|k: int|
                    0 <= k < i ==> #[trigger] parsed@[k] == version_parses(
                        self.packages()[ids@[k].0 as int].version@,
                    ),
            decreases n - i,
        {
            parsed.push(parses(self.resolve_solvable(ids[i]).version.as_str()));
            i += 1;
        }
        let mut a: usize = 0;
        while a < n
            invariant
                n == ids@.len(),
                a <= n,
                parsed@.len() == n,
                self.all_known(ids@),
                forall|k: int|
                    0 <= k < n ==> #[trigger] parsed@[k] == version_parses(
                        self.packages()[ids@[k].0 as int].version@,
                    ),
                forall|u: int, v: int|
                    0 <= u < a && u < v < n ==> self.comparable(
                        #[trigger] ids@[u],
                        #[trigger] ids@[v],
                    ),
            decreases n - a,
        {
            let mut b: usize = a + 1;
            while b < n
                invariant
                    n == ids@.len(),
                    a < b <= n,
                    parsed@.len() == n,
                    self.all_known(ids@),
                    forall|k: int|
                        0 <= k < n ==> #[trigger] parsed@[k] == version_parses(
                            self.packages()[ids@[k].0 as int].version@,
                        ),
                    forall|u: int, v: int|
                        0 <= u < a && u < v < n ==> self.comparable(
                            #[trigger] ids@[u],
                            #[trigger] ids@[v],
                        ),
                    forall|v: int|
                        a < v < b ==> self.comparable(ids@[a as int], #[trigger] ids@[v]),
                decreases n - b,
            {
                let epoch = self.resolve_solvable(ids[a]).epoch;
                let tie = epoch == self.resolve_solvable(ids[b]).epoch;
                if tie && !(parsed[a] && parsed[b]) {
                    assert(!self.comparable(ids@[a as int], ids@[b as int]));
                    return false;
                }
                b += 1;
            }
            a += 1;
        }
        assert forall|u: int, v: int| 0 <= u < n && 0 <= v < n && u != v implies self.comparable(
            #[trigger] ids@[u],
            #[trigger] ids@[v],
        ) by {
            if u < v {
                assert(self.comparable(ids@[u], ids@[v]));
            } else {
                assert(self.comparable(ids@[v], ids@[u]));
            }
        }
        true
    }

    /// Sorts candidates as `sort_candidates` does, or leaves the list as it
    /// is and tells what stops the sort: an identifier that the universe
    /// does not know, or two candidates of one epoch of which one has a
    /// version that does not parse.
    pub fn try_sort_candidates(&self, solvables: &mut Vec<SolvableId>) -> (r: Result<
        (),
        DataError,
    >)
        ensures
            r is Ok <==> self.sortable(old(solvables)@),
            r is Ok ==> final(solvables)@ == self.preferred(old(solvables)@),
            r is Ok ==> exists|origin: Seq<int>|
                self.is_preference_order(old(solvables)@, final(solvables)@, origin),
            final(solvables)@.to_multiset() == old(solvables)@.to_multiset(),
            r is Err ==> final(solvables)@ == old(solvables)@,
            r == Err::<(), DataError>(DataError::UnknownSolvable) <==> !self.all_known(
                old(solvables)@,
            ),
            r == Err::<(), DataError>(DataError::MalformedVersion) <==> self.all_known(
                old(solvables)@,
            ) && !self.all_comparable(old(solvables)@),
    {
        if !self.knows_all(solvables) {
            return Err(DataError::UnknownSolvable);
        }
        if !self.can_order(solvables) {
            return Err(DataError::MalformedVersion);
        }
        self.sort_candidates(solvables);
        Ok(())
    }

    /// In an order of preference over entries of which no two outrank each
    /// other, no entry is outranked by its successor.
    pub proof fn lemma_preference_order_descends(
        &self,
        input: Seq<SolvableId>,
        output: Seq<SolvableId>,
        origin: Seq<int>,
    )
        requires
            self.is_preference_order(input, output, origin),
            forall|i: int, j: int|
                0 <= i < output.len() && 0 <= j < output.len() ==> !(self.outranks(
                    #[trigger] output[i],
                    #[trigger] output[j],
                ) && self.outranks(output[j], output[i])),
        ensures
            forall|i: int|
                0 <= i && i + 1 < output.len() ==> !self.outranks(
                    #[trigger] output[i + 1],
                    output[i],
                ),
    {
        assert forall|i: int| 0 <= i && i + 1 < output.len() implies !self.outranks(
            #[trigger] output[i + 1],
            output[i],
        ) by {
            if origin[i] < origin[i + 1] {
            } else {
                assert(origin[i] != origin[i + 1]);
                assert(self.outranks(output[i], output[i + 1]));
            }
        }
    }

    /// The epoch of the package version behind an identifier.
    pub open spec fn epoch_of(&self, id: SolvableId) -> int {
        self.packages()[id.0 as int].epoch as int
    }

    /// In an order of preference the epochs never rise: whatever the
    /// versions are, an entry of a higher epoch stands before every entry of
    /// a lower one.
    pub proof fn lemma_preference_order_by_epoch(
        &self,
        input: Seq<SolvableId>,
        output: Seq<SolvableId>,
        origin: Seq<int>,
        i: int,
        j: int,
    )
        requires
            self.is_preference_order(input, output, origin),
            0 <= i <= j < output.len(),
        ensures
            self.epoch_of(output[i]) >= self.epoch_of(output[j]),
        decreases j - i,
    {
        if i < j {
            self.lemma_preference_order_by_epoch(input, output, origin, i, j - 1);
            if origin[j - 1] < origin[j] {
                assert(!self.outranks(output[j], output[j - 1]));
            } else {
                assert(origin[j - 1] != origin[j]);
                assert(self.outranks(output[j - 1], output[j]));
            }
        }
    }

    /// In an order of preference, two entries that neither outranks the
    /// other stand as they stood in the input.
    pub proof fn lemma_preference_order_stable(
        &self,
        input: Seq<SolvableId>,
        output: Seq<SolvableId>,
        origin: Seq<int>,
        i: int,
        j: int,
    )
        requires
            self.is_preference_order(input, output, origin),
            0 <= i < j < output.len(),
            !self.outranks(output[i], output[j]),
        ensures
            origin[i] < origin[j],
    {
    }
}

} // verus!
