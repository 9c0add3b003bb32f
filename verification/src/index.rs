//! An index from names to the packages filed under them.

use crate::text::{chars_of, hash_text, text_hash};
use std::collections::HashMap;
use vstd::prelude::*;

verus! {

broadcast use vstd::std_specs::hash::group_hash_axioms;

/// The handle of one package version in the universe.
#[derive(Clone, Copy, Debug, PartialEq, Eq, Hash, Structural)]
pub struct SolvableId(pub usize);

/// Identifiers in strictly rising order, hence each at most once.
pub open spec fn increasing(ids: Seq<SolvableId>) -> bool {
    forall|a: int, b: int| 0 <= a < b < ids.len() ==> ids[a].0 < ids[b].0
}

/// One name with the identifiers filed under it.
pub(crate) struct Entry {
    pub(crate) name: String,
    pub(crate) ids: Vec<SolvableId>,
}

/// Maps a name to the identifiers filed under it, each name held once.
pub(crate) struct NameIndex {
    entries: Vec<Entry>,
    /// For each hash, the positions of the entries whose name has it.
    slots: HashMap<u64, Vec<usize>>,
}

impl NameIndex {
    /// Each name stands once, and under each at least one identifier, in
    /// rising order.
    pub closed spec fn wf(&self) -> bool {
        &&& forall|i: int, j: int|
            0 <= i < j < self.entries@.len() ==> self.entries@[i].name@ != self.entries@[j].name@
        &&& forall|i: int|
            0 <= i < self.entries@.len() ==> self.entries@[i].ids@.len() > 0 && increasing(
                #[trigger] self.entries@[i].ids@,
            )
        &&& forall|i: int| 0 <= i < self.entries@.len() ==> #[trigger] self.slotted(i)
        &&& forall|h: u64, k: int|
            self.slots@.contains_key(h) && 0 <= k < self.slots@[h]@.len() ==> (
            #[trigger] self.slots@[h]@[k]) < self.entries@.len()
    }

    /// The entry at position `i` can be found by the hash of its name.
    pub closed spec fn slotted(&self, i: int) -> bool {
        let h = text_hash(self.entries@[i].name@);
        self.slots@.contains_key(h) && exists|t: int|
            0 <= t < self.slots@[h]@.len() && #[trigger] self.slots@[h]@[t] == i
    }

    /// Whether `name` is held at position `i`.
    pub closed spec fn held_at(&self, name: Seq<char>, i: int) -> bool {
        0 <= i < self.entries@.len() && self.entries@[i].name@ == name
    }

    /// The identifiers filed under `name`; none where the name is unknown.
    pub closed spec fn ids(&self, name: Seq<char>) -> Seq<SolvableId> {
        if exists|i: int| self.held_at(name, i) {
            self.entries@[choose|i: int| self.held_at(name, i)].ids@
        } else {
            Seq::empty()
        }
    }

    /// Every identifier in the index lies under `bound`.
    pub closed spec fn below(&self, bound: int) -> bool {
        forall|i: int, k: int|
            0 <= i < self.entries@.len() && 0 <= k < self.entries@[i].ids@.len()
                ==> (#[trigger] self.entries@[i].ids@[k]).0 < bound
    }

    /// An index that holds no name.
    pub fn new() -> (r: Self)
        ensures
            r.wf(),
            r.below(0),
            forall|name: Seq<char>| #[trigger] r.ids(name) == Seq::<SolvableId>::empty(),
    {
        NameIndex { entries: Vec::new(), slots: HashMap::new() }
    }

    /// A bound on the identifiers may be raised.
    pub proof fn lemma_below(&self, bound: int, higher: int)
        requires
            self.below(bound),
            bound <= higher,
        ensures
            self.below(higher),
    {
    }

    /// A name stands at one position only.
    proof fn lemma_position(&self, name: Seq<char>, i: int)
        requires
            self.wf(),
            self.held_at(name, i),
        ensures
            self.ids(name) == self.entries@[i].ids@,
    {
        let j = choose|j: int| self.held_at(name, j);
        assert(i == j);
    }

    /// What is filed under a name stands in rising order and under the
    /// bound of the index.
    pub proof fn lemma_ids(&self, name: Seq<char>, bound: int)
        requires
            self.wf(),
            self.below(bound),
        ensures
            increasing(self.ids(name)),
            forall|k: int|
                0 <= k < self.ids(name).len() ==> (#[trigger] self.ids(name)[k]).0 < bound,
    {
        if exists|i: int| self.held_at(name, i) {
            let i = choose|i: int| self.held_at(name, i);
            assert(increasing(self.entries@[i].ids@));
            assert forall|k: int| 0 <= k < self.ids(name).len() implies (#[trigger] self.ids(
                name,
            )[k]).0 < bound by {
                assert(self.entries@[i].ids@[k].0 < bound);
            }
        }
    }

    /// The position at which `name` is held, if it is.
    fn find(&self, name: &String) -> (r: Option<usize>)
        requires
            self.wf(),
        ensures
            match r {
                Some(i) => self.held_at(name@, i as int),
                None => forall|i: int| !self.held_at(name@, i),
            },
    {
        let h = hash_text(&chars_of(name.as_str()));
        match self.slots.get(&h) {
            None => {
                assert forall|i: int| !self.held_at(name@, i) by {
                    if self.held_at(name@, i) {
                        assert(self.slotted(i));
                    }
                }
                None
            },
            Some(slot) => {
                let mut k: usize = 0;
                while k < slot.len()
                    invariant
                        self.wf(),
                        self.slots@.contains_key(h),
                        *slot == self.slots@[h],
                        k <= slot@.len(),
                        forall|t: int|
                            0 <= t < k ==> !self.held_at(name@, #[trigger] slot@[t] as int),
                    decreases slot@.len() - k,
                {
                    let i = slot[k];
                    assert(self.slots@[h]@[k as int] < self.entries@.len());
                    if self.entries[i].name == *name {
                        return Some(i);
                    }
                    k += 1;
                }
                assert forall|i: int| !self.held_at(name@, i) by {
                    if self.held_at(name@, i) {
                        assert(self.slotted(i));
                        assert(text_hash(self.entries@[i].name@) == h);
                        let t = choose|t: int| 0 <= t < slot@.len() && #[trigger] slot@[t] == i;
                        assert(!self.held_at(name@, slot@[t] as int));
                    }
                }
                None
            },
        }
    }

    /// The identifiers filed under `name`, in rising order.
    pub fn get(&self, name: &str) -> (r: Vec<SolvableId>)
        requires
            self.wf(),
        ensures
            r@ == self.ids(name@),
    {
        let key = name.to_owned();
        match self.find(&key) {
            Some(i) => {
                proof {
                    self.lemma_position(name@, i as int);
                }
                let r = self.entries[i].ids.clone();
                assert(r@ =~= self.entries@[i as int].ids@);
                r
            },
            None => Vec::new(),
        }
    }

    /// Files `id` under `name`, unless it stands there already. No
    /// identifier in the index may lie above `id`.
    pub fn insert(&mut self, name: &str, id: SolvableId)
        requires
            old(self).wf(),
            old(self).below(id.0 + 1),
        ensures
            final(self).wf(),
            final(self).below(id.0 + 1),
            final(self).ids(name@) == if old(self).ids(name@).contains(id) {
                old(self).ids(name@)
            } else {
                old(self).ids(name@).push(id)
            },
            forall|other: Seq<char>|
                other != name@ ==> #[trigger] final(self).ids(other) == old(self).ids(other),
            forall|other: Seq<char>, x: SolvableId| #[trigger]
                final(self).ids(other).contains(x) <==> old(self).ids(other).contains(x) || (other
                    == name@ && x == id),
    {
        let key = name.to_owned();
        match self.find(&key) {
            Some(i) => {
                proof {
                    self.lemma_position(name@, i as int);
                }
                let ghost before = self.entries@[i as int].ids@;
                let n = self.entries[i].ids.len();
                let last = self.entries[i].ids[n - 1];
                if last.0 == id.0 {
                    assert(before[n - 1] == id);
                } else {
                    assert(last.0 < id.0);
                    assert(!before.contains(id)) by {
                        if before.contains(id) {
                            let k = choose|k: int| 0 <= k < before.len() && before[k] == id;
                            assert(before[k].0 <= before[n - 1].0);
                        }
                    }
                    self.entries[i].ids.push(id);
                    assert(self.entries@[i as int].ids@ == before.push(id));
                    assert(increasing(self.entries@[i as int].ids@));
                    assert(self.held_at(name@, i as int));
                    assert forall|j: int| 0 <= j < self.entries@.len() implies self.entries@[j].name
                        == old(self).entries@[j].name by {}
                    assert forall|j: int|
                        0 <= j < self.entries@.len() implies #[trigger] self.slotted(j) by {
                        assert(old(self).slotted(j));
                    }
                    assert(self.wf());
                    proof {
                        self.lemma_position(name@, i as int);
                    }
                    assert forall|other: Seq<char>| other != name@ implies #[trigger] self.ids(
                        other,
                    ) == old(self).ids(other) by {
                        assert forall|j: int| self.held_at(other, j) == old(self).held_at(
                            other,
                            j,
                        ) by {}
                        if exists|j: int| old(self).held_at(other, j) {
                            let j = choose|j: int| old(self).held_at(other, j);
                            old(self).lemma_position(other, j);
                            self.lemma_position(other, j);
                        }
                    }
                }
            },
            None => {
                assert(old(self).ids(name@) == Seq::<SolvableId>::empty());
                let mut ids: Vec<SolvableId> = Vec::new();
                ids.push(id);
                let h = hash_text(&chars_of(name));
                let position = self.entries.len();
                self.entries.push(Entry { name: key, ids });
                let mut slot = match self.slots.remove(&h) {
                    Some(slot) => slot,
                    None => Vec::new(),
                };
                let ghost slot_before = slot@;
                slot.push(position);
                self.slots.insert(h, slot);
                let ghost n = old(self).entries@.len() as int;
                assert(self.slots@.contains_key(h));
                assert(self.slots@[h]@ == slot_before.push(position));
                assert forall|i: int|
                    0 <= i < self.entries@.len() implies #[trigger] self.slotted(i) by {
                    let hi = text_hash(self.entries@[i].name@);
                    if i < n {
                        assert(self.entries@[i] == old(self).entries@[i]);
                        assert(old(self).slotted(i));
                        assert(old(self).slots@.contains_key(hi));
                        let t = choose|t: int|
                            0 <= t < old(self).slots@[hi]@.len() && #[trigger] old(
                                self,
                            ).slots@[hi]@[t] == i;
                        if hi == h {
                            assert(slot_before == old(self).slots@[h]@);
                            assert(slot_before.push(position)[t] == i);
                        }
                        assert(self.slots@.contains_key(hi));
                        assert(self.slots@[hi]@[t] == i);
                    } else {
                        assert(self.entries@[i].name@ == name@);
                        assert(hi == h);
                        assert(self.slots@[h]@[slot_before.len() as int] == i);
                    }
                }
                assert forall|g: u64, k: int|
                    self.slots@.contains_key(g) && 0 <= k < self.slots@[g]@.len() implies (
                #[trigger] self.slots@[g]@[k]) < self.entries@.len() by {
                    if g == h {
                        if k < slot_before.len() {
                            assert(old(self).slots@.contains_key(h));
                            assert(old(self).slots@[h]@[k] < old(self).entries@.len());
                        }
                    } else {
                        assert(old(self).slots@.contains_key(g));
                        assert(old(self).slots@[g]@[k] < old(self).entries@.len());
                    }
                }
                assert(self.held_at(name@, n));
                assert(self.entries@[n].ids@ =~= seq![id]);
                assert forall|i: int, j: int|
                    0 <= i < j < self.entries@.len() implies self.entries@[i].name@
                    != self.entries@[j].name@ by {
                    if j == n {
                        assert(!old(self).held_at(name@, i));
                    }
                }
                assert forall|i: int|
                    0 <= i < self.entries@.len() implies self.entries@[i].ids@.len() > 0
                    && increasing(#[trigger] self.entries@[i].ids@) by {
                    if i < n {
                        assert(self.entries@[i] == old(self).entries@[i]);
                    }
                }
                assert(self.wf());
                proof {
                    self.lemma_position(name@, n);
                }
                assert(self.ids(name@) =~= Seq::<SolvableId>::empty().push(id));
                assert forall|other: Seq<char>| other != name@ implies #[trigger] self.ids(other)
                    == old(self).ids(other) by {
                    assert forall|j: int| self.held_at(other, j) == old(self).held_at(
                        other,
                        j,
                    ) by {}
                    if exists|j: int| old(self).held_at(other, j) {
                        let j = choose|j: int| old(self).held_at(other, j);
                        old(self).lemma_position(other, j);
                        self.lemma_position(other, j);
                    }
                }
            },
        }
        assert forall|other: Seq<char>, x: SolvableId| #[trigger]
            self.ids(other).contains(x) <==> old(self).ids(other).contains(x) || (other == name@
                && x == id) by {
            if other == name@ && !old(self).ids(name@).contains(id) {
                let before = old(self).ids(name@);
                assert(self.ids(name@) == before.push(id));
                assert(before.push(id)[before.len() as int] == id);
                if before.contains(x) {
                    let k = choose|k: int| 0 <= k < before.len() && before[k] == x;
                    assert(before.push(id)[k] == x);
                }
            }
        }
    }
}

} // verus!
