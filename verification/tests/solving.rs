use resolvo::{
    Candidates, DefaultSolvableDisplay, Dependencies, DependencyProvider, NameId, Pool, Solver,
    SolverCache, VersionSet,
};
use rpm_resolve::{
    conclude, root_requirements, sorted_unique, PackageRecord, RPMPackageVersion, RPMProvider,
    RPMRequirement, Relation, Requirement, Resolution, SolvableId,
};
use std::cmp::Ordering;
use std::collections::HashMap;
use std::fmt::{self, Display};
use std::hash::{Hash, Hasher};

#[derive(Debug, Clone)]
struct Version(RPMPackageVersion);

impl PartialEq for Version {
    fn eq(&self, other: &Self) -> bool {
        self.0 == other.0
    }
}

impl Eq for Version {}

impl PartialOrd for Version {
    fn partial_cmp(&self, other: &Self) -> Option<Ordering> {
        Some(self.cmp(other))
    }
}

impl Ord for Version {
    fn cmp(&self, other: &Self) -> Ordering {
        match self.0.try_compare(&other.0) {
            Some(Relation::Lt) => Ordering::Less,
            Some(Relation::Gt) => Ordering::Greater,
            Some(_) => Ordering::Equal,
            None => panic!("versions cannot be compared"),
        }
    }
}

impl Display for Version {
    fn fmt(&self, f: &mut fmt::Formatter<'_>) -> fmt::Result {
        f.write_str(&self.0.to_string())
    }
}

#[derive(Debug, Clone)]
struct Spec(RPMRequirement);

impl PartialEq for Spec {
    fn eq(&self, other: &Self) -> bool {
        self.0 == other.0
    }
}

impl Eq for Spec {}

impl Hash for Spec {
    fn hash<H: Hasher>(&self, state: &mut H) {
        state.write_u64(self.0.hash_key());
    }
}

impl Display for Spec {
    fn fmt(&self, f: &mut fmt::Formatter<'_>) -> fmt::Result {
        f.write_str(&self.0.to_string())
    }
}

impl VersionSet for Spec {
    type V = Version;

    fn contains(&self, other: &Version) -> bool {
        self.0.try_contains(&other.0).unwrap()
    }
}

struct Provider {
    pool: Pool<Spec>,
    universe: RPMProvider,
    handles: Vec<resolvo::SolvableId>,
    positions: HashMap<resolvo::SolvableId, SolvableId>,
}

impl Provider {
    fn new(universe: RPMProvider) -> Self {
        let pool = Pool::default();
        let mut handles = Vec::new();
        let mut positions = HashMap::new();
        for index in 0..universe.len() {
            let pack = universe.resolve_solvable(SolvableId(index));
            let name_id = pool.intern_package_name(pack.package.as_str());
            let handle = pool.intern_solvable(name_id, Version(pack.clone()));
            handles.push(handle);
            positions.insert(handle, SolvableId(index));
        }
        Provider { pool, universe, handles, positions }
    }
}

impl DependencyProvider<Spec> for Provider {
    fn pool(&self) -> &Pool<Spec> {
        &self.pool
    }

    fn sort_candidates(
        &self,
        _solver: &SolverCache<Spec, String, Self>,
        solvables: &mut [resolvo::SolvableId],
    ) {
        let mut ids: Vec<SolvableId> = solvables.iter().map(|s| self.positions[s]).collect();
        self.universe.try_sort_candidates(&mut ids).unwrap();
        for (slot, id) in solvables.iter_mut().zip(ids) {
            *slot = self.handles[id.0];
        }
    }

    fn get_candidates(&self, name: NameId) -> Option<Candidates> {
        let found = self.universe.get_candidates(self.pool.resolve_package_name(name));
        Some(Candidates {
            candidates: found.candidates.iter().map(|id| self.handles[id.0]).collect(),
            hint_dependencies_available: found
                .hint_dependencies_available
                .iter()
                .map(|id| self.handles[id.0])
                .collect(),
            ..Candidates::default()
        })
    }

    fn get_dependencies(&self, solvable: resolvo::SolvableId) -> Dependencies {
        let found = self.universe.get_dependencies(self.positions[&solvable]);
        let mut result = Dependencies::default();
        for requirement in found.requirements {
            let dep_name = self.pool.intern_package_name(requirement.0.name.as_str());
            result.requirements.push(self.pool.intern_version_set(dep_name, Spec(requirement)));
        }
        result
    }
}

fn record(name: &str, version: &str, epoch: i32) -> PackageRecord {
    PackageRecord {
        name: name.to_string(),
        version: version.to_string(),
        epoch,
        requires: Vec::new(),
        suggests: Vec::new(),
        provides: vec![Requirement {
            name: name.to_string(),
            flags: Some("EQ".to_string()),
            epoch: Some(epoch.to_string()),
            version: Some(version.to_string()),
        }],
    }
}

fn needs(name: &str, flags: &str, version: &str) -> Requirement {
    Requirement {
        name: name.to_string(),
        flags: Some(flags.to_string()),
        epoch: None,
        version: Some(version.to_string()),
    }
}

fn resolve(
    records: Vec<PackageRecord>,
    roots: &[&str],
    disable_suggest: bool,
) -> Result<Vec<String>, String> {
    let universe = RPMProvider::from_repodata(&records, disable_suggest);
    let mut solver = Solver::new(Provider::new(universe));
    let names: Vec<String> = roots.iter().map(|r| r.to_string()).collect();
    let mut requirements = Vec::new();
    for root in root_requirements(&names) {
        let name_id = solver.pool().intern_package_name(root.0.name.as_str());
        requirements.push(solver.pool().intern_version_set(name_id, Spec(root)));
    }
    match solver.solve(requirements) {
        Ok(solvables) => {
            let shown: Vec<String> =
                solvables.iter().map(|s| s.display(solver.pool()).to_string()).collect();
            Ok(sorted_unique(&shown))
        }
        Err(problem) => {
            Err(problem.display_user_friendly(&solver, &DefaultSolvableDisplay).to_string())
        }
    }
}

#[test]
fn resolves_to_the_highest_candidate_that_satisfies() {
    let mut a = record("A", "1.0", 0);
    a.requires.push(needs("B", "GE", "1.0"));
    let records = vec![a, record("B", "0.9", 0), record("B", "1.5", 0)];
    assert_eq!(resolve(records, &["A"], false), Ok(vec!["A=1.0".to_string(), "B=1.5".to_string()]));
}

#[test]
fn prefers_the_highest_version_where_several_satisfy() {
    let mut a = record("A", "1.0", 0);
    a.requires.push(needs("B", "GE", "1.0"));
    let records = vec![
        a,
        record("B", "1.2", 0),
        record("B", "1.10", 0),
        record("B", "1.9", 0),
        record("B", "0.5", 3),
    ];
    assert_eq!(
        resolve(records, &["A"], false),
        Ok(vec!["A=1.0".to_string(), "B=1.10".to_string()])
    );
}

#[test]
fn prefers_the_higher_epoch_among_roots() {
    let records = vec![record("A", "9.9", 0), record("A", "1.0", 1)];
    assert_eq!(resolve(records, &["A"], false), Ok(vec!["A=1.0 (1)".to_string()]));
}

#[test]
fn unsatisfiable_requirement_is_reported_not_resolved() {
    let mut a = record("A", "1.0", 0);
    a.requires.push(needs("C", "EQ", "2.0"));
    let records = vec![a, record("C", "1.0", 0)];
    let outcome = resolve(records, &["A"], false);
    assert!(outcome.is_err());
    let explanation = outcome.unwrap_err();
    assert!(!explanation.is_empty());
    assert!(explanation.contains("C"), "{}", explanation);
}

#[test]
fn unknown_root_name_is_unsatisfiable() {
    let records = vec![record("A", "1.0", 0)];
    assert!(resolve(records, &["Z"], false).is_err());
}

#[test]
fn requirement_on_a_capability_is_met_by_its_provider() {
    let mut a = record("A", "1.0", 0);
    a.requires.push(Requirement {
        name: "X".to_string(),
        flags: None,
        epoch: None,
        version: None,
    });
    a.requires.push(Requirement {
        name: "/usr/bin/sh".to_string(),
        flags: None,
        epoch: None,
        version: None,
    });
    let mut b = record("B", "2.0", 0);
    b.provides.push(Requirement {
        name: "X".to_string(),
        flags: None,
        epoch: None,
        version: None,
    });
    let records = vec![a, b, record("C", "1.0", 0)];
    assert_eq!(resolve(records, &["A"], false), Ok(vec!["A=1.0".to_string(), "B=2.0".to_string()]));
}

#[test]
fn suggestions_are_followed_unless_disabled() {
    let mut a = record("A", "1.0", 0);
    a.suggests.push(needs("B", "GE", "1.0"));
    let records = vec![a, record("B", "1.5", 0)];
    assert_eq!(
        resolve(records, &["A"], false),
        Ok(vec!["A=1.0".to_string(), "B=1.5".to_string()])
    );
    let mut a = record("A", "1.0", 0);
    a.suggests.push(needs("B", "GE", "1.0"));
    let records = vec![a, record("B", "1.5", 0)];
    assert_eq!(resolve(records, &["A"], true), Ok(vec!["A=1.0".to_string()]));
}

#[test]
fn resolving_twice_gives_the_same_answer() {
    let build = || {
        let mut a = record("A", "1.0", 0);
        a.requires.push(needs("B", "GE", "1.0"));
        a.requires.push(needs("C", "LT", "3"));
        vec![
            a,
            record("B", "1.0", 0),
            record("B", "1.0.0", 0),
            record("C", "2.0", 0),
            record("C", "3.0", 0),
        ]
    };
    let once = resolve(build(), &["A", "C"], false);
    let again = resolve(build(), &["A", "C"], false);
    assert!(once.is_ok());
    assert_eq!(once, again);
}

#[test]
fn several_roots_are_resolved_together() {
    let records = vec![record("A", "1.0", 0), record("B", "2.0", 0), record("C", "3.0", 0)];
    assert_eq!(
        resolve(records, &["B", "A"], false),
        Ok(vec!["A=1.0".to_string(), "B=2.0".to_string()])
    );
}

#[test]
fn listing_is_sorted_and_holds_each_text_once() {
    let items = vec![
        "b=1".to_string(),
        "a=2".to_string(),
        "b=1".to_string(),
        "a=10".to_string(),
        "B=1".to_string(),
        "a".to_string(),
        "".to_string(),
        "a=2".to_string(),
    ];
    assert_eq!(sorted_unique(&items), vec!["", "B=1", "a", "a=10", "a=2", "b=1"]);
    assert!(sorted_unique(&Vec::new()).is_empty());
    let wide = vec![
        "é".to_string(),
        "z".to_string(),
        "e".to_string(),
        "\u{10000}".to_string(),
        "\u{ffff}".to_string(),
    ];
    let mut expected = wide.clone();
    expected.sort();
    assert_eq!(sorted_unique(&wide), expected);
}

#[test]
fn conclusion_lists_a_solution_and_hands_on_a_failure() {
    let solved = conclude(Ok(vec!["b=1".to_string(), "a=2".to_string(), "b=1".to_string()]));
    match solved {
        Resolution::Resolved(listed) => assert_eq!(listed, vec!["a=2", "b=1"]),
        Resolution::Unsatisfiable(_) => panic!("a solution was handed in"),
    }
    match conclude(Ok(Vec::new())) {
        Resolution::Resolved(listed) => assert!(listed.is_empty()),
        Resolution::Unsatisfiable(_) => panic!("a solution was handed in"),
    }
    match conclude(Err("A cannot be installed".to_string())) {
        Resolution::Resolved(_) => panic!("a failure was handed in"),
        Resolution::Unsatisfiable(why) => assert_eq!(why, "A cannot be installed"),
    }
    match conclude(Err(String::new())) {
        Resolution::Resolved(_) => panic!("a failure was handed in"),
        Resolution::Unsatisfiable(why) => assert!(why.is_empty()),
    }
}
