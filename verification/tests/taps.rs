use jtr::taps::{add_tap, tap_url, Tap, TapsConfig};
use jtr::target::{classify, Target};
use jtr::actions::blocks_from_tap;
use jtr::managed::{parse_all, render};
use jtr::sources::{block_name_for, CURATED};
use jtr::taps::{
    block_belongs_to_tap, default_url, split_branch, url_for_branch, validate_tap_name, BranchError,
    TapNameError,
};

#[test]
fn block_name_curated_is_bare() {
    assert_eq!(block_name_for(CURATED, "postgres-dev"), "postgres-dev");
}

#[test]
fn block_name_tap_is_prefixed() {
    assert_eq!(block_name_for("alice/recipes", "extra-thing"), "alice/recipes/extra-thing");
}

#[test]
fn validate_tap_name_accepts_user_repo() {
    assert!(validate_tap_name("alice/recipes").is_ok());
    assert!(validate_tap_name("a.b-c_d/repo").is_ok());
}

#[test]
fn validate_tap_name_rejects_bad_shapes() {
    assert!(validate_tap_name("bare").is_err());
    assert!(validate_tap_name("too/many/slashes").is_err());
    assert!(validate_tap_name("/leading").is_err());
    assert!(validate_tap_name("trailing/").is_err());
    assert!(validate_tap_name("has spaces/repo").is_err());
}

#[test]
fn default_url_targets_github_main() {
    assert_eq!(
        default_url("alice/recipes"),
        "https://raw.githubusercontent.com/alice/recipes/main/index.json"
    );
}

#[test]
fn url_for_branch_substitutes_the_branch() {
    assert_eq!(
        url_for_branch("alice/recipes", "release/v1"),
        "https://raw.githubusercontent.com/alice/recipes/release/v1/index.json"
    );
}

#[test]
fn split_branch_parses_name_and_optional_branch() {
    assert_eq!(split_branch("alice/recipes").unwrap(), ("alice/recipes", None));
    assert_eq!(
        split_branch("alice/recipes@feature-x").unwrap(),
        ("alice/recipes", Some("feature-x"))
    );
    assert_eq!(
        split_branch("alice/recipes@release/v1").unwrap(),
        ("alice/recipes", Some("release/v1"))
    );
}

#[test]
fn split_branch_rejects_empty_or_malformed_branch() {
    assert!(split_branch("alice/recipes@").is_err());
    assert!(split_branch("alice/recipes@bad branch").is_err());
    assert!(split_branch("alice/recipes@a@b").is_err());
}

#[test]
fn split_branch_does_not_consume_a_version_pin_shape() {
    let (name, branch) = split_branch("alice/recipes@1.0.0").unwrap();
    assert_eq!(name, "alice/recipes");
    assert_eq!(branch, Some("1.0.0"));
}

#[test]
fn block_belongs_to_tap_respects_the_slash_boundary() {
    assert!(block_belongs_to_tap("alice/recipes/foo", "alice/recipes"));
    assert!(!block_belongs_to_tap("alice/recipes-extra/foo", "alice/recipes"));
    assert!(!block_belongs_to_tap("postgres-dev", "alice/recipes"));
}

// ---- further cases

#[test]
fn tap_name_errors_are_distinguished() {
    assert_eq!(validate_tap_name("bare"), Err(TapNameError::NotUserRepo));
    assert_eq!(validate_tap_name("a b/c"), Err(TapNameError::BadChars));
}

#[test]
fn split_branch_errors_are_distinguished() {
    assert_eq!(split_branch("a/b@"), Err(BranchError::Empty));
    assert_eq!(split_branch("a/b@x?y"), Err(BranchError::BadChars));
}

#[test]
fn blocks_from_tap_lists_only_that_tap() {
    let a = render("alice/recipes/x", "1", None, None, &[], "x");
    let b = render("alice/recipes-extra/y", "1", None, None, &[], "y");
    let c = render("plain", "1", None, None, &[], "z");
    let doc = format!("{a}\n{b}\n{c}");
    let blocks = parse_all(&doc);
    assert_eq!(blocks_from_tap(&blocks, "alice/recipes"), vec!["alice/recipes/x".to_string()]);
}

#[test]
fn classify_reads_the_file_name_case_insensitively() {
    assert_eq!(classify("justfile"), Some(Target::Just));
    assert_eq!(classify("JUSTFILE"), Some(Target::Just));
    assert_eq!(classify(".justfile"), Some(Target::Just));
    assert_eq!(classify("Taskfile.yml"), Some(Target::Task));
    assert_eq!(classify("TASKFILE.YAML"), Some(Target::Task));
    assert_eq!(classify("my.taskfile"), None);
    assert_eq!(classify("Makefile"), None);
    assert_eq!(Target::Just.as_str(), "just");
    assert_eq!(Target::Task.as_str(), "task");
}

#[test]
fn validate_tap_name_rejects_uppercase() {
    assert_eq!(validate_tap_name("A/b"), Err(jtr::taps::TapNameError::BadChars));
    assert_eq!(validate_tap_name("alice/Recipes"), Err(jtr::taps::TapNameError::BadChars));
    assert_eq!(split_branch("alice/recipes@Main").map(|(_, b)| b.map(String::from)), Ok(Some("Main".to_string())));
}

#[test]
fn tap_url_prefers_override_then_branch_then_main() {
    assert_eq!(tap_url("a/b", Some("dev"), Some("file:///x.json")), "file:///x.json");
    assert_eq!(tap_url("a/b", Some("dev"), None), "https://raw.githubusercontent.com/a/b/dev/index.json");
    assert_eq!(tap_url("a/b", None, None), "https://raw.githubusercontent.com/a/b/main/index.json");
}

#[test]
fn add_tap_appends_reports_existing_and_refuses_a_conflict() {
    let config = TapsConfig { taps: vec![Tap { name: "a/b".to_string(), url: "u1".to_string() }] };
    assert!(matches!(add_tap(&config, "a/b", "u1"), Ok(None)));
    match add_tap(&config, "a/b", "u2") {
        Err(e) => assert_eq!(e.existing_url, "u1"),
        Ok(_) => panic!("a second URL for a configured tap must be refused"),
    }
    let added = match add_tap(&config, "c/d", "u3") {
        Ok(Some(c)) => c,
        _ => panic!("a new tap must be appended"),
    };
    let pairs: Vec<(String, String)> = added.taps.iter().map(|t| (t.name.clone(), t.url.clone())).collect();
    assert_eq!(pairs, vec![("a/b".to_string(), "u1".to_string()), ("c/d".to_string(), "u3".to_string())]);
}
