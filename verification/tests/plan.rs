use jtr::actions::{
    blocks_from_tap, dependents_of, doctor_check, install_action, install_plan, pins_from_blocks, update_action,
    update_gate,
    DoctorFinding, UpdateAction, UpdateGate, WriteAction,
};
use jtr::managed::{parse_all, render_block, ManagedBlock, NameError};
use jtr::target::Target;
use jtr::resolve::{pending_fetches, resolve_install_order, Lookup, Plan, RecipeNode, ResolveError};

fn node(name: &str, deps: &[&str]) -> RecipeNode {
    RecipeNode { name: name.to_string(), lookup: Lookup::Loaded(deps.iter().map(|d| d.to_string()).collect()) }
}

fn names(plan: &[Plan]) -> Vec<&str> {
    plan.iter().map(|p| p.name.as_str()).collect()
}

fn no_pins() -> Vec<(String, String)> {
    Vec::new()
}

#[test]
fn resolve_orders_dependencies_before_dependents() {
    let g = vec![node("app", &["lint", "db"]), node("lint", &["fmt"]), node("fmt", &[]), node("db", &[])];
    let plan = resolve_install_order(&g, "app", None, &no_pins()).unwrap();
    assert_eq!(names(&plan), vec!["fmt", "lint", "db", "app"]);
    assert!(!plan[3].is_dependency);
    assert!(plan[..3].iter().all(|p| p.is_dependency));
}

#[test]
fn resolve_diamond_plans_each_recipe_once() {
    let g = vec![node("top", &["left", "right"]), node("left", &["base"]), node("right", &["base"]), node("base", &[])];
    let plan = resolve_install_order(&g, "top", None, &no_pins()).unwrap();
    assert_eq!(names(&plan), vec!["base", "left", "right", "top"]);
}

#[test]
fn resolve_reports_the_cycle_chain() {
    let g = vec![node("a", &["b"]), node("b", &["c"]), node("c", &["a"])];
    match resolve_install_order(&g, "a", None, &no_pins()) {
        Err(ResolveError::Cycle { chain }) => assert_eq!(chain, vec!["a", "b", "c", "a"]),
        other => panic!("expected a cycle, got {other:?}"),
    }
    let g = vec![node("self", &["self"])];
    match resolve_install_order(&g, "self", None, &no_pins()) {
        Err(ResolveError::Cycle { chain }) => assert_eq!(chain, vec!["self", "self"]),
        other => panic!("expected a cycle, got {other:?}"),
    }
}

#[test]
fn resolve_reports_missing_failed_and_invalid() {
    let g = vec![node("a", &["gone"])];
    match resolve_install_order(&g, "a", None, &no_pins()) {
        Err(ResolveError::Missing { name }) => assert_eq!(name, "gone"),
        other => panic!("{other:?}"),
    }
    let g = vec![node("a", &["b"]), RecipeNode { name: "b".to_string(), lookup: Lookup::Failed }];
    match resolve_install_order(&g, "a", None, &no_pins()) {
        Err(ResolveError::LoadFailed { name }) => assert_eq!(name, "b"),
        other => panic!("{other:?}"),
    }
    let g = vec![node("a", &["Bad Dep"])];
    match resolve_install_order(&g, "a", None, &no_pins()) {
        Err(ResolveError::InvalidDependency { recipe, dependency, reason }) => {
            assert_eq!(recipe, "a");
            assert_eq!(dependency, "Bad Dep");
            assert_eq!(reason, NameError::InvalidChars);
        }
        other => panic!("{other:?}"),
    }
}

#[test]
fn resolve_keeps_root_pin_and_installed_dependency_pins() {
    let g = vec![node("app", &["dep", "other"]), node("dep", &[]), node("other", &[])];
    let pins = vec![("dep".to_string(), "0.1.0".to_string()), ("app".to_string(), "9.9.9".to_string())];
    let plan = resolve_install_order(&g, "app", Some("1.0.0"), &pins).unwrap();
    assert_eq!(names(&plan), vec!["dep", "other", "app"]);
    assert_eq!(plan[0].pinned.as_deref(), Some("0.1.0"));
    assert_eq!(plan[1].pinned, None);
    assert_eq!(plan[2].pinned.as_deref(), Some("1.0.0"));
}

fn block(name: &str, version: &str, deps: &[&str], pinned: Option<&str>) -> ManagedBlock {
    ManagedBlock {
        name: name.to_string(),
        version: version.to_string(),
        body: "x:\n    @echo x\n".to_string(),
        dependencies: deps.iter().map(|d| d.to_string()).collect(),
        pinned: pinned.map(|p| p.to_string()),
    }
}

#[test]
fn install_action_classifies_the_write() {
    let blocks = vec![block("foo", "0.1.0", &[], None)];
    assert_eq!(install_action("same", "same", &blocks, "foo"), WriteAction::AlreadyCurrent);
    assert_eq!(install_action("new", "old", &blocks, "foo"), WriteAction::Updated);
    assert_eq!(install_action("new", "old", &blocks, "bar"), WriteAction::Installed);
}

#[test]
fn update_gate_skips_pins_unless_unpinned() {
    let pinned = block("foo", "0.1.0", &[], Some("0.1.0"));
    assert_eq!(update_gate(&pinned, false, true), UpdateGate::SkipPinned("0.1.0".to_string()));
    assert_eq!(update_gate(&pinned, true, true), UpdateGate::Proceed);
    assert_eq!(update_gate(&pinned, true, false), UpdateGate::Orphaned);
    let plain = block("foo", "0.1.0", &[], None);
    assert_eq!(update_gate(&plain, false, false), UpdateGate::Orphaned);
    assert_eq!(update_gate(&plain, false, true), UpdateGate::Proceed);
}

#[test]
fn update_action_classifies_each_write() {
    let root = block("foo", "0.1.0", &[], Some("0.1.0"));
    let now = vec![block("foo", "0.1.0", &[], Some("0.1.0")), block("dep", "0.1.0", &[], None)];
    assert_eq!(update_action("a", "a", &now, "foo", &root, true, "0.2.0"), UpdateAction::AlreadyCurrent);
    assert_eq!(update_action("b", "a", &now, "new", &root, false, "0.2.0"), UpdateAction::Installed);
    assert_eq!(update_action("b", "a", &now, "foo", &root, true, "0.2.0"), UpdateAction::Unpinned);
    assert_eq!(update_action("b", "a", &now, "dep", &root, true, "0.2.0"), UpdateAction::Updated);
    assert_eq!(update_action("b", "a", &now, "dep", &root, true, "0.1.0"), UpdateAction::Refreshed);
}

#[test]
fn dependents_of_names_blocks_that_depend_on_it() {
    let blocks = vec![
        block("a", "1", &["base"], None),
        block("base", "1", &["base"], None),
        block("b", "1", &["x", "base"], None),
        block("c", "1", &["basement"], None),
    ];
    assert_eq!(dependents_of(&blocks, "base"), vec!["a", "b"]);
    assert!(dependents_of(&blocks, "a").is_empty());
}

#[test]
fn blocks_from_tap_respects_the_slash_boundary() {
    let blocks = vec![
        block("alice/recipes/foo", "1", &[], None),
        block("alice/recipes-extra/bar", "1", &[], None),
        block("postgres-dev", "1", &[], None),
    ];
    assert_eq!(blocks_from_tap(&blocks, "alice/recipes"), vec!["alice/recipes/foo"]);
}

#[test]
fn pins_from_blocks_collects_pinned_blocks() {
    let blocks = vec![block("a", "1", &[], Some("1")), block("b", "2", &[], None), block("c", "3", &[], Some("3"))];
    assert_eq!(
        pins_from_blocks(&blocks),
        vec![("a".to_string(), "1".to_string()), ("c".to_string(), "3".to_string())]
    );
}

fn vs(v: &[&str]) -> Vec<String> {
    v.iter().map(|s| s.to_string()).collect()
}

fn finding(orphaned: bool, at_pin: bool, newer_version: bool, pin_unpublished: bool, problems: usize) -> DoctorFinding {
    DoctorFinding { orphaned, at_pin, newer_version, pin_unpublished, problems }
}

#[test]
fn doctor_check_counts_problems() {
    assert_eq!(doctor_check("0.1.0", None, None, &vs(&[]), None), finding(true, false, false, false, 1));
    assert_eq!(
        doctor_check("0.1.0", None, Some("0.1.0"), &vs(&["0.1.0"]), Some(&vec![true, true])),
        finding(false, false, false, false, 0)
    );
    assert_eq!(
        doctor_check("0.1.0", None, Some("0.2.0"), &vs(&["0.2.0"]), Some(&vec![false, true, false])),
        finding(false, false, true, false, 3)
    );
    assert_eq!(doctor_check("0.1.0", None, Some("0.1.0"), &vs(&["0.1.0"]), None), finding(false, false, false, false, 1));
}

#[test]
fn doctor_treats_pinned_blocks_at_their_pin_as_healthy() {
    assert_eq!(
        doctor_check("0.1.0", Some("0.1.0"), Some("0.2.0"), &vs(&["0.2.0", "0.1.0"]), Some(&vec![true])),
        finding(false, true, false, false, 0)
    );
    // A pin that is not the block's own version does not hold it back.
    assert_eq!(
        doctor_check("0.1.0", Some("0.0.9"), Some("0.2.0"), &vs(&["0.2.0", "0.1.0"]), Some(&vec![true])),
        finding(false, false, true, false, 1)
    );
}

#[test]
fn doctor_flags_pinned_version_no_longer_published() {
    assert_eq!(
        doctor_check("0.1.0", Some("0.1.0"), Some("0.2.0"), &vs(&["0.2.0"]), Some(&vec![true])),
        finding(false, true, false, true, 1)
    );
}

#[test]
fn pending_fetches_lists_unfetched_reachable_names_once() {
    let empty: Vec<RecipeNode> = Vec::new();
    let pins = vec![("dep".to_string(), "0.1.0".to_string())];
    assert_eq!(pending_fetches(&empty, "app", Some("2.0.0"), &pins), vec![("app".to_string(), Some("2.0.0".to_string()))]);
    let g = vec![
        node("app", &["dep", "other", "dep", "Bad Name", "app"]),
        RecipeNode { name: "other".to_string(), lookup: Lookup::Missing },
    ];
    assert_eq!(pending_fetches(&g, "app", None, &pins), vec![("dep".to_string(), Some("0.1.0".to_string()))]);
    let g = vec![node("app", &["dep"]), node("dep", &[])];
    assert!(pending_fetches(&g, "app", None, &pins).is_empty());
}

#[test]
fn installing_a_plan_twice_leaves_the_file_unchanged() {
    for target in [Target::Just] {
        let dep = render_block(target, "dep", "0.1.0", None, None, &[], "dep:\n    @echo dep\n");
        let app = render_block(target, "app", "0.2.0", None, None, &["dep".to_string()], "app:\n    @echo app\n");
        let plan = vec![("dep".to_string(), dep), ("app".to_string(), app)];
        let doc = "x:\n    @echo x\n";
        let (once, acts) = install_plan(target, doc, &parse_all(doc), &plan).expect("install");
        assert_eq!(acts, vec![WriteAction::Installed, WriteAction::Installed]);
        let (twice, acts) = install_plan(target, &once, &parse_all(&once), &plan).expect("install again");
        assert_eq!(twice, once);
        assert_eq!(acts.len(), 2);
    }
}
