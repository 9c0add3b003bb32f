use rpm_resolve::{
    root_requirement, root_requirements, DataError, PackageRecord, RPMProvider, Requirement,
    SolvableId,
};

fn named(name: &str) -> Requirement {
    Requirement { name: name.to_string(), flags: None, epoch: None, version: None }
}

fn constrained(name: &str, flags: &str, version: &str) -> Requirement {
    Requirement {
        name: name.to_string(),
        flags: Some(flags.to_string()),
        epoch: None,
        version: Some(version.to_string()),
    }
}

fn record(name: &str, version: &str, epoch: i32, provides: &[&str]) -> PackageRecord {
    PackageRecord {
        name: name.to_string(),
        version: version.to_string(),
        epoch,
        requires: Vec::new(),
        suggests: Vec::new(),
        provides: provides.iter().map(|p| named(p)).collect(),
    }
}

fn names_of(requirements: &[rpm_resolve::RPMRequirement]) -> Vec<String> {
    requirements.iter().map(|r| r.0.name.clone()).collect()
}

#[test]
fn candidates_for_a_capability_are_all_its_providers_best_first() {
    let records = vec![
        record("A", "1.0", 0, &["X", "A"]),
        record("B", "2.0", 0, &["X", "B"]),
        record("C", "3.0", 0, &["C"]),
    ];
    let universe = RPMProvider::from_repodata(&records, false);
    let mut found = universe.candidates_for("X");
    assert_eq!(found, vec![SolvableId(0), SolvableId(1)]);
    universe.sort_candidates(&mut found);
    assert_eq!(found, vec![SolvableId(1), SolvableId(0)]);
    assert_eq!(universe.resolve_solvable(found[0]).package, "B");
    assert_eq!(universe.resolve_solvable(found[1]).package, "A");
}

#[test]
fn unknown_name_has_no_candidates() {
    let records = vec![record("A", "1.0", 0, &["A"])];
    let universe = RPMProvider::from_repodata(&records, false);
    assert!(universe.candidates_for("nothing").is_empty());
    assert!(universe.packages_named("nothing").is_empty());
    let told = universe.get_candidates("nothing");
    assert!(told.candidates.is_empty());
    assert!(told.hint_dependencies_available.is_empty());
}

#[test]
fn own_name_is_a_candidate_only_where_it_is_provided() {
    let records = vec![record("A", "1.0", 0, &["X"]), record("B", "1.0", 0, &["B"])];
    let universe = RPMProvider::from_repodata(&records, false);
    assert!(universe.candidates_for("A").is_empty());
    assert_eq!(universe.candidates_for("B"), vec![SolvableId(1)]);
    assert_eq!(universe.packages_named("A"), vec![SolvableId(0)]);
    assert_eq!(universe.packages_named("B"), vec![SolvableId(1)]);
    assert!(universe.packages_named("X").is_empty());
}

#[test]
fn universe_keeps_every_record_under_its_position() {
    let mut first = record("A", "1.0", 4, &["A"]);
    first.requires.push(constrained("B", "GE", "1.0"));
    first.suggests.push(named("C"));
    let records = vec![first, record("A", "2.0", 0, &["A"]), record("B", "1.5", 0, &["B"])];
    let universe = RPMProvider::from_repodata(&records, true);
    assert_eq!(universe.len(), 3);
    assert!(universe.disable_suggest());
    let a = universe.resolve_solvable(SolvableId(0));
    assert_eq!(a.package, "A");
    assert_eq!(a.version, "1.0");
    assert_eq!(a.epoch, 4);
    assert_eq!(a.requires.len(), 1);
    assert_eq!(a.requires[0].name, "B");
    assert_eq!(a.requires[0].flags.as_deref(), Some("GE"));
    assert_eq!(a.requires[0].version.as_deref(), Some("1.0"));
    assert_eq!(a.suggests.len(), 1);
    assert_eq!(a.suggests[0].name, "C");
    assert_eq!(universe.resolve_solvable(SolvableId(2)).version, "1.5");
    assert_eq!(universe.packages_named("A"), vec![SolvableId(0), SolvableId(1)]);
    assert_eq!(universe.candidates_for("A"), vec![SolvableId(0), SolvableId(1)]);
}

#[test]
fn a_capability_listed_twice_files_the_package_once() {
    let records = vec![record("A", "1.0", 0, &["X", "Y", "X"]), record("B", "1.0", 0, &["X"])];
    let universe = RPMProvider::from_repodata(&records, false);
    assert_eq!(universe.candidates_for("X"), vec![SolvableId(0), SolvableId(1)]);
    assert_eq!(universe.candidates_for("Y"), vec![SolvableId(0)]);
}

#[test]
fn empty_repository_gives_an_empty_universe() {
    let universe = RPMProvider::from_repodata(&Vec::new(), false);
    assert_eq!(universe.len(), 0);
    assert!(!universe.disable_suggest());
    assert!(universe.candidates_for("A").is_empty());
    let mut none: Vec<SolvableId> = Vec::new();
    universe.sort_candidates(&mut none);
    assert!(none.is_empty());
}

#[test]
fn get_candidates_offers_every_provider_with_its_dependencies() {
    let records = vec![record("A", "1.0", 0, &["X"]), record("B", "2.0", 0, &["X"])];
    let universe = RPMProvider::from_repodata(&records, false);
    let told = universe.get_candidates("X");
    assert_eq!(told.candidates, vec![SolvableId(0), SolvableId(1)]);
    assert_eq!(told.hint_dependencies_available, vec![SolvableId(0), SolvableId(1)]);
    assert_eq!(told.favored, None);
    assert_eq!(told.locked, None);
    assert!(told.excluded.is_empty());
}

#[test]
fn sort_puts_higher_epoch_then_higher_version_first() {
    let records = vec![
        record("A", "1.2", 0, &["A"]),
        record("A", "9.9", 0, &["A"]),
        record("A", "1.0", 1, &["A"]),
        record("A", "1.10", 0, &["A"]),
        record("A", "1.9", 0, &["A"]),
    ];
    let universe = RPMProvider::from_repodata(&records, false);
    let mut found = universe.candidates_for("A");
    universe.sort_candidates(&mut found);
    assert_eq!(
        found,
        vec![SolvableId(2), SolvableId(1), SolvableId(3), SolvableId(4), SolvableId(0)]
    );
}

#[test]
fn sort_keeps_the_order_of_candidates_that_tie() {
    let records = vec![
        record("A", "1.0", 0, &["X"]),
        record("B", "2.0", 0, &["X"]),
        record("C", "1.0.0", 0, &["X"]),
        record("D", "2", 0, &["X"]),
        record("E", "1", 0, &["X"]),
    ];
    let universe = RPMProvider::from_repodata(&records, false);
    let mut found = universe.candidates_for("X");
    universe.sort_candidates(&mut found);
    assert_eq!(
        found,
        vec![SolvableId(1), SolvableId(3), SolvableId(0), SolvableId(2), SolvableId(4)]
    );
    let mut turned =
        vec![SolvableId(4), SolvableId(3), SolvableId(2), SolvableId(1), SolvableId(0)];
    universe.sort_candidates(&mut turned);
    assert_eq!(
        turned,
        vec![SolvableId(3), SolvableId(1), SolvableId(4), SolvableId(2), SolvableId(0)]
    );
}

#[test]
fn sort_of_a_sorted_list_changes_nothing() {
    let records = vec![
        record("A", "3.0", 0, &["A"]),
        record("A", "2.0", 0, &["A"]),
        record("A", "1.0", 0, &["A"]),
    ];
    let universe = RPMProvider::from_repodata(&records, false);
    let mut found = universe.candidates_for("A");
    universe.sort_candidates(&mut found);
    assert_eq!(found, vec![SolvableId(0), SolvableId(1), SolvableId(2)]);
    let mut one = vec![SolvableId(1)];
    universe.sort_candidates(&mut one);
    assert_eq!(one, vec![SolvableId(1)]);
}

#[test]
fn try_sort_sorts_what_can_be_sorted() {
    let records = vec![record("A", "1.0", 0, &["A"]), record("A", "2.0", 0, &["A"])];
    let universe = RPMProvider::from_repodata(&records, false);
    let mut found = vec![SolvableId(0), SolvableId(1)];
    assert_eq!(universe.try_sort_candidates(&mut found), Ok(()));
    assert_eq!(found, vec![SolvableId(1), SolvableId(0)]);
}

#[test]
fn try_sort_refuses_an_unknown_identifier() {
    let records = vec![record("A", "1.0", 0, &["A"]), record("A", "2.0", 0, &["A"])];
    let universe = RPMProvider::from_repodata(&records, false);
    let mut found = vec![SolvableId(0), SolvableId(2), SolvableId(1)];
    assert_eq!(universe.try_sort_candidates(&mut found), Err(DataError::UnknownSolvable));
    assert_eq!(found, vec![SolvableId(0), SolvableId(2), SolvableId(1)]);
}

#[test]
fn try_sort_refuses_a_malformed_version_within_an_epoch() {
    let records = vec![
        record("A", "1.0", 0, &["A"]),
        record("A", "abc", 0, &["A"]),
        record("A", "xyz", 1, &["A"]),
    ];
    let universe = RPMProvider::from_repodata(&records, false);
    let mut tied = vec![SolvableId(0), SolvableId(1)];
    assert_eq!(universe.try_sort_candidates(&mut tied), Err(DataError::MalformedVersion));
    assert_eq!(tied, vec![SolvableId(0), SolvableId(1)]);
    let mut apart = vec![SolvableId(0), SolvableId(2)];
    assert_eq!(universe.try_sort_candidates(&mut apart), Ok(()));
    assert_eq!(apart, vec![SolvableId(2), SolvableId(0)]);
    let mut twice = vec![SolvableId(2), SolvableId(2)];
    assert_eq!(universe.try_sort_candidates(&mut twice), Err(DataError::MalformedVersion));
}

#[test]
fn expansion_drops_paths_and_conditions() {
    let mut a = record("A", "1.0", 0, &["A"]);
    a.requires.push(constrained("B", "GE", "1.0"));
    a.requires.push(named("/usr/bin/sh"));
    a.requires.push(named("(C if D)"));
    let universe = RPMProvider::from_repodata(&vec![a], false);
    let found = universe.get_dependencies(SolvableId(0));
    assert_eq!(found.requirements.len(), 1);
    assert_eq!(found.requirements[0].0.name, "B");
    assert_eq!(found.requirements[0].0.flags.as_deref(), Some("GE"));
    assert_eq!(found.requirements[0].0.version.as_deref(), Some("1.0"));
    assert!(found.constrains.is_empty());
}

#[test]
fn suggestions_are_expanded_unless_disabled() {
    let mut a = record("A", "1.0", 0, &["A"]);
    a.requires.push(named("B"));
    a.requires.push(named("C"));
    a.suggests.push(named("D"));
    a.suggests.push(named("/bin/true"));
    a.suggests.push(named("E"));
    let records = vec![a];
    let with = RPMProvider::from_repodata(&records, false);
    let without = RPMProvider::from_repodata(&records, true);
    assert_eq!(
        names_of(&with.get_dependencies(SolvableId(0)).requirements),
        vec!["B", "C", "D", "E"]
    );
    assert_eq!(names_of(&without.get_dependencies(SolvableId(0)).requirements), vec!["B", "C"]);
}

#[test]
fn expansion_keeps_order_and_repeats() {
    let mut a = record("A", "1.0", 0, &[]);
    a.requires.push(named("B"));
    a.requires.push(named("/x"));
    a.requires.push(named("B"));
    a.requires.push(named("A if B"));
    a.requires.push(constrained("C", "LT", "3"));
    let universe = RPMProvider::from_repodata(&vec![a, record("Z", "1", 0, &[])], false);
    assert_eq!(
        names_of(&universe.get_dependencies(SolvableId(0)).requirements),
        vec!["B", "B", "C"]
    );
    assert!(universe.get_dependencies(SolvableId(1)).requirements.is_empty());
}

#[test]
fn root_requirement_asks_for_any_version_above_zero() {
    let root = root_requirement("rust");
    assert_eq!(root.0.name, "rust");
    assert_eq!(root.0.flags.as_deref(), Some("GT"));
    assert_eq!(root.0.epoch.as_deref(), Some("0"));
    assert_eq!(root.0.version.as_deref(), Some("0.0.0"));
    assert_eq!(root.to_string(), "GT-0.0.0");
    let all = root_requirements(&vec!["a".to_string(), "b".to_string()]);
    assert_eq!(all.len(), 2);
    assert_eq!(all[0].0.name, "a");
    assert_eq!(all[1].0.name, "b");
    assert_eq!(all[1].0.version.as_deref(), Some("0.0.0"));
    assert!(root_requirements(&Vec::new()).is_empty());
}

#[test]
fn names_that_hash_alike_are_kept_apart() {
    let records = vec![
        record("A", "1.0", 0, &["a_", "b@"]),
        record("B", "1.0", 0, &["b@"]),
        record("C", "1.0", 0, &["a_"]),
    ];
    let universe = RPMProvider::from_repodata(&records, false);
    assert_eq!(universe.candidates_for("a_"), vec![SolvableId(0), SolvableId(2)]);
    assert_eq!(universe.candidates_for("b@"), vec![SolvableId(0), SolvableId(1)]);
    assert!(universe.candidates_for("a").is_empty());
    assert!(universe.candidates_for("_a").is_empty());
}

#[test]
fn large_universe_files_every_package() {
    let mut records = Vec::new();
    for i in 0..3000 {
        let name = format!("pkg{}", i % 1000);
        let version = format!("{}.0", i / 1000);
        let shared = format!("cap{}", i % 7);
        records.push(record(&name, &version, 0, &[name.as_str(), shared.as_str(), "everything"]));
    }
    let universe = RPMProvider::from_repodata(&records, false);
    assert_eq!(universe.len(), 3000);
    assert_eq!(universe.candidates_for("everything").len(), 3000);
    assert_eq!(
        universe.candidates_for("pkg17"),
        vec![SolvableId(17), SolvableId(1017), SolvableId(2017)]
    );
    assert_eq!(universe.packages_named("pkg999"), universe.candidates_for("pkg999"));
    let shared = universe.candidates_for("cap3");
    assert_eq!(shared.len(), 429);
    assert!(shared.iter().all(|id| id.0 % 7 == 3));
    assert!(shared.windows(2).all(|w| w[0].0 < w[1].0));
    let mut best = universe.candidates_for("pkg17");
    universe.sort_candidates(&mut best);
    assert_eq!(best, vec![SolvableId(2017), SolvableId(1017), SolvableId(17)]);
}

#[test]
fn new_universe_is_empty_and_follows_suggestions() {
    let universe = RPMProvider::new();
    assert_eq!(universe.len(), 0);
    assert!(!universe.disable_suggest());
    assert!(universe.candidates_for("A").is_empty());
    assert!(universe.packages_named("A").is_empty());
    let other = RPMProvider::default();
    assert_eq!(other.len(), 0);
    assert!(!other.disable_suggest());
}
