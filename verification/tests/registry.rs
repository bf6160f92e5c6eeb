use jtr::index::{
    check_index_version, check_manifest_name, index_cache_name, manifest_matches, resolve_relative, sha256_hex,
    verify_checksum, ChecksumOutcome, ResolveUrlError,
};
use jtr::install::{describe_missing, render_planned_block, split_pin, MissingRecipe, PinError};
use jtr::managed::render_block;
use jtr::target::Target;
use jtr::manifest::{IndexEntry, IndexFile, RecipeManifest, RecipeTarget};
use jtr::sources::{block_name_for, search_matches, Source, Sources, CURATED};

const VALID_MANIFEST: &str = r#"{"name":"foo","version":"0.1.0","description":"x","targets":{"just":{"snippet":"foo:\n    @echo hi\n"}}}"#;

const EMPTY_SHA: &str = "e3b0c44298fc1c149afbf4c8996fb92427ae41e4649b934ca495991b7852b855";
const ABC_SHA: &str = "ba7816bf8f01cfea414140de5dae2223b00361a396177a9cb410ff61f20015ad";

fn entry(name: &str, sha: Option<&str>) -> IndexEntry {
    IndexEntry {
        name: name.to_string(),
        version: "0.1.0".to_string(),
        description: "x".to_string(),
        manifest_url: format!("recipes/{name}.json"),
        targets: vec!["just".to_string()],
        sha256: sha.map(|s| s.to_string()),
    }
}

fn manifest(name: &str) -> RecipeManifest {
    RecipeManifest {
        name: name.to_string(),
        version: "0.1.0".to_string(),
        description: "x".to_string(),
        homepage: None,
        maintainer: None,
        shells_out_to: Vec::new(),
        dependencies: Vec::new(),
        targets: vec![("just".to_string(), RecipeTarget { snippet: "foo:\n    @echo hi\n".to_string() })],
    }
}

fn index(names: &[&str]) -> IndexFile {
    IndexFile { version: 1, updated: None, recipes: names.iter().map(|n| entry(n, None)).collect() }
}

#[test]
fn sha256_hex_known_vectors() {
    assert_eq!(sha256_hex(b""), EMPTY_SHA);
    assert_eq!(sha256_hex(b"abc"), ABC_SHA);
    assert_eq!(sha256_hex(VALID_MANIFEST.as_bytes()).len(), 64);
}

#[test]
fn load_manifest_passes_with_correct_checksum() {
    let sha = sha256_hex(VALID_MANIFEST.as_bytes());
    let e = entry("foo", Some(&sha));
    let outcome = verify_checksum(&e, VALID_MANIFEST.as_bytes(), "file:///tmp/recipes/foo.json").unwrap();
    assert_eq!(outcome, ChecksumOutcome::Verified);
    let m = check_manifest_name(&e, manifest("foo")).unwrap();
    assert_eq!(m.name, "foo");
}

#[test]
fn load_manifest_rejects_bad_checksum() {
    let bogus = "0".repeat(64);
    let e = entry("foo", Some(&bogus));
    let err = verify_checksum(&e, VALID_MANIFEST.as_bytes(), "src").unwrap_err();
    assert_eq!(err.name, "foo");
    assert_eq!(err.expected, bogus);
    assert_eq!(err.actual, sha256_hex(VALID_MANIFEST.as_bytes()));
    assert_eq!(err.source, "src");
}

#[test]
fn load_manifest_succeeds_without_sha_for_backwards_compat() {
    let e = entry("foo", None);
    let outcome = verify_checksum(&e, VALID_MANIFEST.as_bytes(), "src").unwrap();
    assert_eq!(outcome, ChecksumOutcome::Unchecked);
    let m = check_manifest_name(&e, manifest("foo")).unwrap();
    assert_eq!(m.name, "foo");
}

#[test]
fn check_manifest_name_reports_both_names() {
    let err = match check_manifest_name(&entry("foo", None), manifest("bar")) {
        Ok(_) => panic!("names differ"),
        Err(e) => e,
    };
    assert_eq!(err.manifest, "bar");
    assert_eq!(err.entry, "foo");
}

#[test]
fn manifest_matches_compares_the_hash() {
    assert!(manifest_matches("abc", ABC_SHA));
    assert!(!manifest_matches("abd", ABC_SHA));
}

#[test]
fn index_cache_name_is_the_hashed_url() {
    assert_eq!(index_cache_name("abc"), format!("{ABC_SHA}.json"));
}

#[test]
fn check_index_version_accepts_only_v1() {
    assert!(check_index_version(index(&["foo"])).is_ok());
    let mut v2 = index(&["foo"]);
    v2.version = 2;
    assert_eq!(check_index_version(v2).err(), Some(2));
}

#[test]
fn resolve_relative_keeps_absolute_urls() {
    assert_eq!(
        resolve_relative("https://example.com/index.json", "https://other.org/x.json").unwrap(),
        "https://other.org/x.json"
    );
    assert_eq!(resolve_relative("/tmp/index.json", "file:///a/b.json").unwrap(), "file:///a/b.json");
}

#[test]
fn resolve_relative_joins_against_url_or_directory() {
    assert_eq!(
        resolve_relative("https://example.com/tap/index.json", "recipes/foo.json").unwrap(),
        "https://example.com/tap/recipes/foo.json"
    );
    assert_eq!(resolve_relative("/srv/tap/index.json", "recipes/foo.json").unwrap(), "/srv/tap/recipes/foo.json");
    assert_eq!(resolve_relative("", "recipes/foo.json"), Err(ResolveUrlError::NoParent));
}

#[test]
fn split_pin_parses_name_and_version() {
    assert_eq!(split_pin("foo").unwrap(), ("foo".to_string(), None));
    assert_eq!(split_pin("foo@1.2.0").unwrap(), ("foo".to_string(), Some("1.2.0".to_string())));
    assert_eq!(
        split_pin("alice/recipes/foo@0.3.0").unwrap(),
        ("alice/recipes/foo".to_string(), Some("0.3.0".to_string()))
    );
    assert_eq!(split_pin("a@b@c").unwrap(), ("a@b".to_string(), Some("c".to_string())));
}

#[test]
fn split_pin_rejects_empty_halves() {
    assert_eq!(split_pin("@1.0.0"), Err(PinError::EmptyName));
    assert_eq!(split_pin("foo@"), Err(PinError::EmptyVersion { name: "foo".to_string() }));
}

#[test]
fn block_name_curated_and_tap() {
    assert_eq!(block_name_for(CURATED, "postgres-dev"), "postgres-dev");
    assert_eq!(block_name_for("alice/recipes", "extra"), "alice/recipes/extra");
}

fn sources() -> Sources {
    Sources {
        sources: vec![
            Source { label: CURATED.to_string(), index: index(&["foo", "bar"]) },
            Source { label: "alice/recipes".to_string(), index: index(&["foo", "extra"]) },
        ],
    }
}

#[test]
fn sources_find_routes_by_qualified_name() {
    let s = sources();
    let (src, e) = s.find("foo").expect("curated foo");
    assert_eq!(src.label, "curated");
    assert_eq!(e.name, "foo");
    let (src, e) = s.find("alice/recipes/foo").expect("tap foo");
    assert_eq!(src.label, "alice/recipes");
    assert_eq!(e.name, "foo");
    assert_eq!(s.find_index("alice/recipes/extra"), Some((1, 1)));
    assert!(s.find("extra").is_none());
    assert!(s.find("bob/recipes/foo").is_none());
    assert!(s.find("alice/recipes/nope").is_none());
}

#[test]
fn describe_missing_distinguishes_the_four_cases() {
    let s = sources();
    assert_eq!(
        describe_missing(&s, "bob/recipes/foo", "bob/recipes/foo"),
        MissingRecipe::TapNotConfigured { recipe: "bob/recipes/foo".to_string(), tap: "bob/recipes".to_string() }
    );
    assert_eq!(
        describe_missing(&s, "app", "bob/recipes/foo"),
        MissingRecipe::DependencyTapNotConfigured {
            root: "app".to_string(),
            dependency: "bob/recipes/foo".to_string(),
            tap: "bob/recipes".to_string(),
        }
    );
    assert_eq!(describe_missing(&s, "nope", "nope"), MissingRecipe::NotFound { recipe: "nope".to_string() });
    assert_eq!(
        describe_missing(&s, "app", "alice/recipes/nope"),
        MissingRecipe::DependencyNotFound { root: "app".to_string(), dependency: "alice/recipes/nope".to_string() }
    );
}

#[test]
fn manifest_target_looks_up_by_key() {
    let m = manifest("foo");
    assert_eq!(m.target("just").map(|t| t.snippet.as_str()), Some("foo:\n    @echo hi\n"));
    assert!(m.target("task").is_none());
}

#[test]
fn block_names_lead_back_to_their_source() {
    let s = sources();
    let curated = block_name_for(CURATED, "bar");
    assert_eq!(s.find_index(&curated), Some((0, 1)));
    let tapped = block_name_for("alice/recipes", "extra");
    assert_eq!(s.find_index(&tapped), Some((1, 1)));
    assert!(jtr::taps::block_belongs_to_tap(&tapped, "alice/recipes"));
}

#[test]
fn search_matches_name_or_description_case_insensitively() {
    assert!(search_matches("postgres-dev", "Local Postgres in Docker", None));
    assert!(search_matches("postgres-dev", "Local Postgres in Docker", Some("POSTGRES")));
    assert!(search_matches("db", "Local Postgres in Docker", Some("docker")));
    assert!(!search_matches("db", "Local Postgres in Docker", Some("redis")));
}

#[test]
fn source_link_prefers_the_homepage() {
    assert_eq!(jtr::install::source_link(Some("https://h"), "https://base/index.json"), "https://h");
    assert_eq!(jtr::install::source_link(None, "https://base/index.json"), "https://base/index.json");
}

#[test]
fn planned_block_renders_the_targets_snippet() {
    let m = manifest("foo");
    let r = render_planned_block(Target::Just, "foo", &m, "https://example.com", Some("0.1.0")).ok().unwrap();
    assert_eq!(
        r,
        render_block(Target::Just, "foo", "0.1.0", Some("https://example.com"), Some("0.1.0"), &[], "foo:\n    @echo hi\n")
    );
    assert!(r.starts_with("# >>> jtr:foo@0.1.0 >>>\n# source: https://example.com\n# pinned: 0.1.0\n"));
}

#[test]
fn planned_block_without_the_target_lists_the_supported_ones() {
    let m = manifest("foo");
    let e = render_planned_block(Target::Task, "alice/recipes/foo", &m, "https://example.com", None).err().unwrap();
    assert_eq!(e.recipe, "alice/recipes/foo");
    assert_eq!(e.target, "task");
    assert_eq!(e.supported, vec!["just".to_string()]);
}
