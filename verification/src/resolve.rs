//! What stands around a run of the solver: the requirements a request
//! starts from, and the form in which its result is shown.

use crate::requirement::{RPMRequirement, Requirement, RequirementView};
use crate::text::{chars_of, compare_text, lemma_precedes_transitive, precedes};
use crate::version::Relation;
use vstd::prelude::*;
use vstd::string::StringExecFns;

verus! {

/// The requirement that a request for `name` starts from: any version of
/// that name above `0.0.0`.
pub open spec fn root_of(name: Seq<char>) -> RequirementView {
    RequirementView {
        name,
        flags: Some(seq!['G', 'T']),
        epoch: Some(seq!['0']),
        version: Some(seq!['0', '.', '0', '.', '0']),
    }
}

/// Builds the requirement that a request for `name` starts from.
pub fn root_requirement(name: &str) -> (r: RPMRequirement)
    ensures
        r@ == root_of(name@),
{
    proof {
        reveal_strlit("GT");
        reveal_strlit("0");
        reveal_strlit("0.0.0");
    }
    let flags = String::from_str("GT");
    let epoch = String::from_str("0");
    let version = String::from_str("0.0.0");
    assert(flags@ =~= seq!['G', 'T']);
    assert(epoch@ =~= seq!['0']);
    assert(version@ =~= seq!['0', '.', '0', '.', '0']);
    RPMRequirement(
        Requirement {
            name: String::from_str(name),
            flags: Some(flags),
            epoch: Some(epoch),
            version: Some(version),
        },
    )
}

/// Builds the requirements of a request, one for each name, in their order.
pub fn root_requirements(names: &Vec<String>) -> (r: Vec<RPMRequirement>)
    ensures
        r@.len() == names@.len(),
        forall|i: int| 0 <= i < names@.len() ==> (#[trigger] r@[i])@ == root_of(names@[i]@),
{
    let mut r: Vec<RPMRequirement> = Vec::new();
    let mut i: usize = 0;
    while i < names.len()
        invariant
            i <= names@.len(),
            r@.len() == i,
            forall|k: int| 0 <= k < i ==> (#[trigger] r@[k])@ == root_of(names@[k]@),
        decreases names@.len() - i,
    {
        r.push(root_requirement(names[i].as_str()));
        i += 1;
    }
    r
}

/// Each text comes before every later one, so none stands twice.
pub open spec fn ascending(texts: Seq<Seq<char>>) -> bool {
    forall|i: int, j: int| 0 <= i < j < texts.len() ==> precedes(texts[i], texts[j])
}

/// The texts of a list, each once, in the order of a dictionary: the form in
/// which the packages of a solution are listed.
pub fn sorted_unique(items: &Vec<String>) -> (r: Vec<String>)
    ensures
        ascending(r.deep_view()),
        forall|text: Seq<char>|
            r.deep_view().contains(text) <==> items.deep_view().contains(text),
{
    let mut out: Vec<String> = Vec::new();
    let mut keys: Vec<Vec<char>> = Vec::new();
    let mut i: usize = 0;
    assert(items.deep_view().take(0) =~= Seq::<Seq<char>>::empty());
    while i < items.len()
        invariant
            i <= items@.len(),
            keys@.len() == out@.len(),
            forall|k: int| 0 <= k < out@.len() ==> (#[trigger] keys@[k])@ == out@[k]@,
            ascending(out.deep_view()),
            forall|text: Seq<char>|
                out.deep_view().contains(text) <==> items.deep_view().take(i as int).contains(
                    text,
                ),
        decreases items@.len() - i,
    {
        let item = &items[i];
        let key = chars_of(item.as_str());
        let ghost before = out.deep_view();
        let mut p: usize = 0;
        let mut seeking = true;
        let mut present = false;
        while p < out.len() && seeking
            invariant
                p <= out@.len(),
                key@ == item@,
                before == out.deep_view(),
                keys@.len() == out@.len(),
                forall|k: int| 0 <= k < out@.len() ==> (#[trigger] keys@[k])@ == out@[k]@,
                forall|k: int| 0 <= k < p ==> precedes(#[trigger] before[k], key@),
                !seeking ==> p < out@.len() && if present {
                    before[p as int] == key@
                } else {
                    precedes(key@, before[p as int])
                },
                seeking ==> !present,
            decreases out@.len() - p + if seeking { 1int } else { 0int },
        {
            assert(before[p as int] == keys@[p as int]@);
            match compare_text(&keys[p], &key) {
                Relation::Lt => {
                    p += 1;
                },
                Relation::Eq => {
                    present = true;
                    seeking = false;
                },
                _ => {
                    seeking = false;
                },
            }
        }
        proof {
            let taken = items.deep_view().take(i as int);
            let next = items.deep_view().take(i + 1);
            assert(next =~= taken.push(item@));
            assert forall|text: Seq<char>| next.contains(text) <==> taken.contains(text) || text
                == item@ by {
                assert(next[i as int] == item@);
                if taken.contains(text) {
                    let w = choose|w: int| 0 <= w < taken.len() && taken[w] == text;
                    assert(next[w] == text);
                }
            }
        }
        if !present {
            out.insert(p, item.clone());
            keys.insert(p, key);
            proof {
                let after = out.deep_view();
                assert(after =~= before.insert(p as int, item@));
                assert forall|a: int, b: int| 0 <= a < b < after.len() implies precedes(
                    after[a],
                    after[b],
                ) by {
                    if a == p {
                        if b - 1 > p {
                            lemma_precedes_transitive(item@, before[p as int], before[b - 1]);
                        }
                    } else if b == p {
                    } else if a < p {
                        if b > p {
                            assert(precedes(before[a], before[b - 1]));
                        }
                    } else {
                        assert(precedes(before[a - 1], before[b - 1]));
                    }
                }
                assert forall|text: Seq<char>| after.contains(text) <==> before.contains(text)
                    || text == item@ by {
                    assert(after[p as int] == item@);
                    if before.contains(text) {
                        let w = choose|w: int| 0 <= w < before.len() && before[w] == text;
                        if w < p {
                            assert(after[w] == text);
                        } else {
                            assert(after[w + 1] == text);
                        }
                    }
                    if after.contains(text) && text != item@ {
                        let w = choose|w: int| 0 <= w < after.len() && after[w] == text;
                        if w < p {
                            assert(before[w] == text);
                        } else {
                            assert(before[w - 1] == text);
                        }
                    }
                }
            }
        } else {
            assert(before.contains(item@));
        }
        i += 1;
    }
    assert(items.deep_view().take(i as int) =~= items.deep_view());
    out
}

/// How a request ended: with the packages to install, or with the reason
/// why no choice of packages meets it. There is nothing in between.
#[derive(Debug)]
pub enum Resolution {
    /// The chosen package versions as they are shown, each once, in the
    /// order of a dictionary.
    Resolved(Vec<String>),
    /// The solver's account of the requirements that cannot be met together.
    Unsatisfiable(String),
}

/// Turns what the solver returned into the result of the request: the
/// chosen package versions are listed once each and in order, and a failure
/// is handed on with its explanation and nothing else.
pub fn conclude(outcome: Result<Vec<String>, String>) -> (r: Resolution)
    ensures
        match outcome {
            Ok(shown) => r matches Resolution::Resolved(listed) && ascending(listed.deep_view())
                && (forall|text: Seq<char>|
                listed.deep_view().contains(text) <==> shown.deep_view().contains(text)),
            Err(explanation) => r == Resolution::Unsatisfiable(explanation),
        },
{
    match outcome {
        Ok(shown) => Resolution::Resolved(sorted_unique(&shown)),
        Err(explanation) => Resolution::Unsatisfiable(explanation),
    }
}

} // verus!
