use mcvm::pkg::{RecommendedPackage, RelationsResult, RequiredPackage};
use mcvm::resolve::{active_compats, resolve, PackageEntry, ResolveError, ResolvedPackage};

fn entry(id: &str) -> PackageEntry {
    PackageEntry { id: id.to_string(), relations: RelationsResult::default() }
}

fn dep(id: &str) -> Vec<RequiredPackage> {
    vec![RequiredPackage { value: id.to_string(), explicit: false }]
}

fn reqs(ids: &[&str]) -> Vec<String> {
    ids.iter().map(|s| s.to_string()).collect()
}

fn ids(plan: &[ResolvedPackage]) -> Vec<String> {
    plan.iter().map(|p| p.id.clone()).collect()
}

#[test]
fn dependencies_come_first() {
    let mut a = entry("a");
    a.relations.deps.push(dep("b"));
    let mut b = entry("b");
    b.relations.deps.push(dep("c"));
    let db = vec![a, b, entry("c")];
    let plan = resolve(&reqs(&["a"]), &db, false).unwrap();
    assert_eq!(ids(&plan), vec!["c", "b", "a"]);
    assert!(plan[2].explicit);
    assert!(!plan[0].explicit);
}

#[test]
fn resolving_twice_gives_the_same_plan() {
    let mut a = entry("a");
    a.relations.deps.push(dep("b"));
    a.relations.bundled.push("d".into());
    let mut b = entry("b");
    b.relations.extensions.push("e".into());
    let db = vec![a, b, entry("d"), entry("e"), entry("f")];
    let first = resolve(&reqs(&["a", "f"]), &db, true).unwrap();
    let second = resolve(&reqs(&["a", "f"]), &db, true).unwrap();
    assert_eq!(first, second);
    assert_eq!(first.len(), 5);
}

#[test]
fn explicit_flag_kept_for_requested_dependency() {
    let mut a = entry("a");
    a.relations.deps.push(dep("x"));
    let db = vec![a, entry("x")];
    let plan = resolve(&reqs(&["a", "x"]), &db, false).unwrap();
    let x = plan.iter().find(|p| p.id == "x").unwrap();
    assert!(x.explicit);
    assert_eq!(plan.len(), 2);
}

#[test]
fn mutual_conflict_fails() {
    let mut a = entry("a");
    a.relations.conflicts.push("b".into());
    let mut b = entry("b");
    b.relations.conflicts.push("a".into());
    let db = vec![a, b];
    let err = resolve(&reqs(&["a", "b"]), &db, false).unwrap_err();
    assert_eq!(err, ResolveError::Conflict("a".into(), "b".into()));
    assert!(resolve(&reqs(&["a"]), &db, false).is_ok());
}

#[test]
fn extension_follows_its_base() {
    let mut a = entry("a");
    a.relations.extensions.push("ext".into());
    let db = vec![a, entry("ext"), entry("other")];
    let with_base = resolve(&reqs(&["a"]), &db, false).unwrap();
    assert!(with_base.iter().any(|p| p.id == "ext"));
    let without_base = resolve(&reqs(&["other"]), &db, false).unwrap();
    assert!(!without_base.iter().any(|p| p.id == "ext"));
}

#[test]
fn missing_packages_and_duplicates() {
    let mut a = entry("a");
    a.relations.deps.push(dep("gone"));
    let db = vec![a];
    assert_eq!(
        resolve(&reqs(&["a"]), &db, false),
        Err(ResolveError::Unresolved { id: "gone".into(), requester: Some("a".into()) })
    );
    assert_eq!(
        resolve(&reqs(&["nope"]), &db, false),
        Err(ResolveError::Unresolved { id: "nope".into(), requester: None })
    );
    assert_eq!(
        resolve(&reqs(&["a", "a"]), &db, false),
        Err(ResolveError::DuplicateRequest("a".into()))
    );
}

#[test]
fn dependency_cycle_fails() {
    let mut a = entry("a");
    a.relations.deps.push(dep("b"));
    let mut b = entry("b");
    b.relations.deps.push(dep("a"));
    let db = vec![a, b];
    assert!(matches!(resolve(&reqs(&["a"]), &db, false), Err(ResolveError::Cycle(_))));
}

#[test]
fn dependency_group_any_member() {
    let mut a = entry("a");
    a.relations.deps.push(vec![
        RequiredPackage { value: "x".into(), explicit: false },
        RequiredPackage { value: "y".into(), explicit: false },
    ]);
    let db = vec![a, entry("x"), entry("y")];
    let plan = resolve(&reqs(&["y", "a"]), &db, false).unwrap();
    assert_eq!(ids(&plan), vec!["y", "a"]);
    let plan = resolve(&reqs(&["a"]), &db, false).unwrap();
    assert_eq!(ids(&plan), vec!["x", "a"]);
}

#[test]
fn recommendations_follow_policy() {
    let mut a = entry("a");
    a.relations.recommendations.push(RecommendedPackage { value: "r".into(), invert: false });
    a.relations.recommendations.push(RecommendedPackage { value: "no".into(), invert: true });
    a.relations.recommendations.push(RecommendedPackage { value: "absent".into(), invert: false });
    let db = vec![a, entry("r"), entry("no")];
    let plan = resolve(&reqs(&["a"]), &db, true).unwrap();
    assert_eq!(ids(&plan), vec!["a", "r"]);
    let plan = resolve(&reqs(&["a"]), &db, false).unwrap();
    assert_eq!(ids(&plan), vec!["a"]);
}

#[test]
fn compat_pairs_activate_when_both_present() {
    let mut a = entry("a");
    a.relations.compats.push(("a".into(), "b".into()));
    a.relations.compats.push(("a".into(), "c".into()));
    let db = vec![a, entry("b"), entry("c")];
    let plan = resolve(&reqs(&["a", "b"]), &db, false).unwrap();
    assert_eq!(active_compats(&db, &plan), vec![("a".to_string(), "b".to_string())]);
}

#[test]
fn cycle_names_a_package_on_the_cycle() {
    let mut a = entry("a");
    a.relations.deps.push(dep("b"));
    let mut b = entry("b");
    b.relations.deps.push(dep("c"));
    let mut c = entry("c");
    c.relations.deps.push(dep("b"));
    let db = vec![a, b, c, entry("free")];
    match resolve(&reqs(&["free", "a"]), &db, false) {
        Err(ResolveError::Cycle(id)) => assert!(id == "a" || id == "b" || id == "c"),
        other => panic!("expected a cycle, got {other:?}"),
    }
    let plan = resolve(&reqs(&["free"]), &db, false).unwrap();
    assert_eq!(ids(&plan), vec!["free"]);
}

#[test]
fn requested_conflict_reported_before_missing_dependency() {
    let mut a = entry("a");
    a.relations.conflicts.push("b".into());
    a.relations.deps.push(dep("missing"));
    let db = vec![a, entry("b")];
    assert_eq!(
        resolve(&reqs(&["a", "b"]), &db, false),
        Err(ResolveError::Conflict("a".into(), "b".into()))
    );
}
