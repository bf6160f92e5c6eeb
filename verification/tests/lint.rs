use jtr::lint::{
    apply_checksum_fixes, apply_one_fix, check_manifest_fields, duplicate_flags, index_rewrite, find_sha_field, indent, lint_tap_entries,
    locate_entry, short_sha, ChecksumFix, EntryInput, EntryRead, Finding, ManifestFields, Severity,
    SnippetCheck, TargetCheck, ToolCheck,
};
use jtr::manifest::IndexEntry;

const SAMPLE_INDEX: &str = "{\n  \"version\": 1,\n  \"recipes\": [\n    {\n      \"name\": \"foo\",\n      \"version\": \"0.1.0\",\n      \"description\": \"x\",\n      \"manifest_url\": \"recipes/foo.json\",\n      \"targets\": [\"just\"],\n      \"sha256\": \"deadbeef\"\n    }\n  ]\n}\n";

fn entry(name: &str, version: &str, description: &str, url: &str, sha: Option<&str>) -> IndexEntry {
    IndexEntry {
        name: name.to_string(),
        version: version.to_string(),
        description: description.to_string(),
        manifest_url: url.to_string(),
        targets: vec!["just".to_string()],
        sha256: sha.map(|s| s.to_string()),
    }
}

fn has(findings: &[Finding], sev: Severity, needle: &str) -> bool {
    findings.iter().any(|f| f.severity == sev && f.message.contains(needle))
}

#[test]
fn locate_entry_finds_brace_boundaries() {
    let bounds = locate_entry(SAMPLE_INDEX, "recipes/foo.json").expect("locate entry");
    assert_eq!(&SAMPLE_INDEX[bounds.start..bounds.start + 1], "{");
    assert_eq!(&SAMPLE_INDEX[bounds.end - 1..bounds.end], "}");
    let slice = &SAMPLE_INDEX[bounds.start..bounds.end];
    assert!(slice.contains("\"name\": \"foo\""));
}

#[test]
fn locate_entry_misses_unknown_url() {
    assert!(locate_entry(SAMPLE_INDEX, "recipes/bar.json").is_none());
    assert!(locate_entry("", "recipes/foo.json").is_none());
}

#[test]
fn locate_entry_ignores_braces_inside_strings() {
    let text = "{\"recipes\": [{\"description\": \"a } brace\", \"manifest_url\": \"r/x.json\"}]}";
    let b = locate_entry(text, "r/x.json").expect("locate");
    assert_eq!(&text[b.start..b.end], "{\"description\": \"a } brace\", \"manifest_url\": \"r/x.json\"}");
}

#[test]
fn apply_one_fix_replaces_existing_sha() {
    let new = "a".repeat(64);
    let fix = ChecksumFix {
        manifest_url: "recipes/foo.json".to_string(),
        old: Some("deadbeef".to_string()),
        new: new.clone(),
    };
    let out = apply_one_fix(SAMPLE_INDEX, &fix).expect("apply fix");
    assert!(out.contains(&format!("\"sha256\": \"{new}\"")));
    assert!(!out.contains("deadbeef"));
}

#[test]
fn apply_one_fix_inserts_missing_sha() {
    let without_sha = "{\n  \"version\": 1,\n  \"recipes\": [\n    {\n      \"name\": \"foo\",\n      \"version\": \"0.1.0\",\n      \"description\": \"x\",\n      \"manifest_url\": \"recipes/foo.json\",\n      \"targets\": [\"just\"]\n    }\n  ]\n}\n";
    let new = "b".repeat(64);
    let fix = ChecksumFix {
        manifest_url: "recipes/foo.json".to_string(),
        old: None,
        new: new.clone(),
    };
    let out = apply_one_fix(without_sha, &fix).expect("apply fix");
    assert!(
        out.contains(&format!("\"sha256\": \"{new}\"")),
        "expected sha256 line to be inserted, got: {out}"
    );
    let parsed: serde_json::Value = serde_json::from_str(&out).expect("still valid JSON");
    assert_eq!(parsed["recipes"][0]["sha256"], serde_json::Value::String(new));
}

#[test]
fn apply_one_fix_exact_insertion_text() {
    let text = "{\n    \"manifest_url\": \"u\"\n  }";
    let fix = ChecksumFix { manifest_url: "u".to_string(), old: None, new: "cafe".to_string() };
    let out = apply_one_fix(text, &fix).expect("apply fix");
    assert_eq!(out, "{\n    \"manifest_url\": \"u\",\n    \"sha256\": \"cafe\"\n  }");
}

#[test]
fn apply_one_fix_fails_for_unknown_entry() {
    let fix = ChecksumFix { manifest_url: "nope.json".to_string(), old: None, new: "x".to_string() };
    assert!(apply_one_fix(SAMPLE_INDEX, &fix).is_none());
}

#[test]
fn apply_checksum_fixes_names_the_entry_it_could_not_find() {
    let fixes = vec![ChecksumFix { manifest_url: "missing.json".to_string(), old: None, new: "x".to_string() }];
    let err = apply_checksum_fixes(SAMPLE_INDEX, &fixes).unwrap_err();
    assert_eq!(err.manifest_url, "missing.json");
    let none: Vec<ChecksumFix> = Vec::new();
    assert_eq!(apply_checksum_fixes(SAMPLE_INDEX, &none).unwrap(), SAMPLE_INDEX);
}

#[test]
fn find_sha_field_points_at_the_value() {
    let s = "{\"sha256\":  \"abc\"}";
    let f = find_sha_field(s).expect("field");
    assert_eq!(&s[f.value_start..f.value_end], "abc");
    assert!(find_sha_field("{\"name\": \"x\"}").is_none());
}

#[test]
fn check_manifest_bytes_flags_empty_targets() {
    let tools: Vec<ToolCheck> = Vec::new();
    let targets: Vec<TargetCheck> = Vec::new();
    let findings = check_manifest_fields("foo", "foo", "0.1.0", "ok", &tools, &targets);
    assert!(findings
        .iter()
        .any(|f| f.severity == Severity::Error && f.message.contains("targets")));
}

#[test]
fn check_manifest_fields_reports_each_problem() {
    let tools = vec![
        ToolCheck { tool: "docker".to_string(), on_path: false },
        ToolCheck { tool: "sh".to_string(), on_path: true },
    ];
    let targets = vec![
        TargetCheck { key: "make".to_string(), snippet: "x".to_string(), check: SnippetCheck::Passed },
        TargetCheck { key: "just".to_string(), snippet: "  ".to_string(), check: SnippetCheck::Passed },
    ];
    let findings = check_manifest_fields("m.json", "Bad Name", "", "", &tools, &targets);
    assert!(has(&findings, Severity::Error, "invalid recipe name 'Bad Name'"));
    assert!(has(&findings, Severity::Error, "`version` is empty"));
    assert!(has(&findings, Severity::Warning, "`description` is empty"));
    assert!(has(&findings, Severity::Warning, "docker"));
    assert!(!has(&findings, Severity::Warning, "'sh'"));
    assert!(has(&findings, Severity::Warning, "unknown target 'make'"));
    assert!(has(&findings, Severity::Error, "`targets.just.snippet` is empty"));
    assert!(findings.iter().all(|f| f.scope == "m.json"));
}

#[test]
fn check_manifest_fields_passes_a_clean_manifest() {
    let tools = vec![ToolCheck { tool: "sh".to_string(), on_path: true }];
    let targets = vec![TargetCheck {
        key: "just".to_string(),
        snippet: "foo:\n    @echo hi\n".to_string(),
        check: SnippetCheck::Passed,
    }];
    let findings = check_manifest_fields("foo.json", "foo", "0.1.0", "does foo", &tools, &targets);
    assert!(findings.is_empty(), "{findings:?}");
}

#[test]
fn check_manifest_fields_reports_failed_snippet() {
    let tools: Vec<ToolCheck> = Vec::new();
    let targets = vec![TargetCheck {
        key: "just".to_string(),
        snippet: "foo:\n".to_string(),
        check: SnippetCheck::Failed("error: bad".to_string()),
    }];
    let findings = check_manifest_fields("s", "foo", "1", "d", &tools, &targets);
    assert!(has(&findings, Severity::Error, "error: bad"));
}

#[test]
fn indent_prefixes_each_line() {
    assert_eq!(indent("a\nb", "  "), "  a\n  b");
    assert_eq!(indent("a\nb\n", "> "), "> a\n> b");
    assert_eq!(indent("", "  "), "");
}

#[test]
fn short_sha_keeps_sixteen_characters() {
    assert_eq!(short_sha(&"c".repeat(64)), "c".repeat(16));
    assert_eq!(short_sha("abc"), "abc");
}

fn read(sha: &str, name: &str, version: &str, description: &str) -> EntryRead {
    EntryRead::Read {
        findings: Vec::new(),
        manifest: Some(ManifestFields {
            name: name.to_string(),
            version: version.to_string(),
            description: description.to_string(),
        }),
        actual_sha: sha.to_string(),
    }
}

#[test]
fn lint_tap_entries_detects_sha_mismatch_and_fix_collects_it() {
    let entries = vec![EntryInput {
        entry: entry("foo", "0.1.0", "x", "recipes/foo.json", Some("deadbeef")),
        read: read("abcd", "foo", "0.1.0", "x"),
    }];
    let out = lint_tap_entries("index.json", 1, &entries, false, ".");
    assert!(has(&out.findings, Severity::Error, "sha256 mismatch (index: deadbeef, computed: abcd)"));
    assert!(out.fixes.is_empty());
    let out = lint_tap_entries("index.json", 1, &entries, true, ".");
    assert!(out.findings.is_empty());
    assert_eq!(out.fixes.len(), 1);
    assert_eq!(out.fixes[0].manifest_url, "recipes/foo.json");
    assert_eq!(out.fixes[0].old.as_deref(), Some("deadbeef"));
    assert_eq!(out.fixes[0].new, "abcd");
}

#[test]
fn lint_tap_entries_reports_drift_duplicates_and_version() {
    let entries = vec![
        EntryInput {
            entry: entry("foo", "0.1.0", "x", "recipes/foo.json", Some("aa")),
            read: read("aa", "foo", "0.2.0", "y"),
        },
        EntryInput {
            entry: entry("foo", "0.1.0", "x", "recipes/foo2.json", Some("aa")),
            read: read("aa", "foo", "0.1.0", "x"),
        },
        EntryInput {
            entry: entry("bar", "0.1.0", "x", "https://example.com/bar.json", None),
            read: EntryRead::Unreadable { path: "p".to_string(), error: "e".to_string() },
        },
        EntryInput {
            entry: entry("baz", "0.1.0", "x", "recipes/baz.json", None),
            read: EntryRead::Unreadable { path: "recipes/baz.json".to_string(), error: "gone".to_string() },
        },
    ];
    let out = lint_tap_entries("index.json", 2, &entries, false, ".");
    assert!(has(&out.findings, Severity::Error, "unsupported version 2"));
    assert!(has(&out.findings, Severity::Error, "manifest version '0.2.0' does not match index entry version '0.1.0'"));
    assert!(has(&out.findings, Severity::Warning, "description differs"));
    assert!(has(&out.findings, Severity::Error, "duplicate entry for 'foo'"));
    assert!(has(&out.findings, Severity::Warning, "is absolute"));
    assert!(has(&out.findings, Severity::Error, "could not read manifest at 'recipes/baz.json': gone"));
    assert_eq!(out.findings.len(), 6);
}

#[test]
fn lint_tap_entries_missing_sha_is_added_with_fix() {
    let entries = vec![EntryInput {
        entry: entry("foo", "0.1.0", "x", "recipes/foo.json", None),
        read: read("beef", "foo", "0.1.0", "x"),
    }];
    let out = lint_tap_entries("index.json", 1, &entries, false, "tap");
    assert!(has(&out.findings, Severity::Error, "missing sha256 in index entry (computed: beef). Run `jtr lint --tap tap --fix`"));
    let out = lint_tap_entries("index.json", 1, &entries, true, "tap");
    assert_eq!(out.fixes.len(), 1);
    assert!(out.fixes[0].old.is_none());
}

fn read_back_sha(text: &str, url: &str) -> Option<String> {
    let b = locate_entry(text, url)?;
    let slice = &text[b.start..b.end];
    let f = find_sha_field(slice)?;
    Some(slice[f.value_start..f.value_end].to_string())
}

#[test]
fn replaced_checksum_reads_back_and_refixing_changes_nothing() {
    let new = "0123456789abcdef".repeat(4);
    let fix = ChecksumFix { manifest_url: "recipes/foo.json".to_string(), old: Some("deadbeef".to_string()), new: new.clone() };
    let once = apply_one_fix(SAMPLE_INDEX, &fix).expect("apply fix");
    assert_eq!(read_back_sha(&once, "recipes/foo.json"), Some(new.clone()));
    let twice = apply_one_fix(&once, &fix).expect("apply fix again");
    assert_eq!(twice, once);
}

#[test]
fn added_checksum_reads_back_and_refixing_changes_nothing() {
    let text = "{\"recipes\": [{\"name\": \"a\", \"manifest_url\": \"r/a.json\"}, {\"manifest_url\": \"r/b.json\", \"sha256\": \"00\"}]}";
    let fix = ChecksumFix { manifest_url: "r/a.json".to_string(), old: None, new: "beef".to_string() };
    let once = apply_one_fix(text, &fix).expect("apply fix");
    assert_eq!(read_back_sha(&once, "r/a.json"), Some("beef".to_string()));
    assert_eq!(read_back_sha(&once, "r/b.json"), Some("00".to_string()));
    let twice = apply_one_fix(&once, &fix).expect("apply fix again");
    assert_eq!(twice, once);
}

#[test]
fn scratch_file_wraps_a_task_snippet_in_a_taskfile() {
    assert_eq!(jtr::lint::scratch_file(jtr::target::Target::Just, "a:\n    echo\n\n"), "a:\n    echo\n");
    assert_eq!(
        jtr::lint::scratch_file(jtr::target::Target::Task, "a:\n  cmds:\n    - echo\n"),
        "version: '3'\n\ntasks:\n  a:\n    cmds:\n      - echo\n"
    );
}

#[test]
fn locate_entry_and_find_sha_field_count_bytes() {
    let text = "{\"recipes\": [{\"description\": \"café ☕\", \"manifest_url\": \"r/x.json\", \"sha256\": \"ab\"}]}";
    let b = locate_entry(text, "r/x.json").expect("locate");
    let slice = &text[b.start..b.end];
    assert!(slice.starts_with("{\"description\": \"café ☕\""));
    assert!(slice.ends_with('}'));
    let f = find_sha_field(slice).expect("sha");
    assert_eq!(&slice[f.value_start..f.value_end], "ab");
}

#[test]
fn needs_syntax_check_only_for_known_targets_with_a_snippet() {
    assert!(jtr::lint::needs_syntax_check("just", "a:\n"));
    assert!(jtr::lint::needs_syntax_check("task", "a:\n"));
    assert!(!jtr::lint::needs_syntax_check("make", "a:\n"));
    assert!(!jtr::lint::needs_syntax_check("just", "  \n"));
}

#[test]
fn duplicate_flags_mark_later_entries_of_a_name() {
    let names: Vec<String> = ["a", "b", "a", "c", "b", "a"].iter().map(|s| s.to_string()).collect();
    assert_eq!(duplicate_flags(&names), vec![false, false, true, false, true, true]);
    assert_eq!(duplicate_flags(&Vec::new()), Vec::<bool>::new());
}

#[test]
fn index_rewrite_writes_only_when_there_are_fixes() {
    assert!(matches!(index_rewrite(SAMPLE_INDEX, &Vec::new()), Ok(None)));
    let new = "0123456789abcdef".repeat(4);
    let fixes = vec![ChecksumFix { manifest_url: "recipes/foo.json".to_string(), old: Some("deadbeef".to_string()), new: new.clone() }];
    let written = index_rewrite(SAMPLE_INDEX, &fixes).ok().unwrap().unwrap();
    assert_eq!(written, apply_checksum_fixes(SAMPLE_INDEX, &fixes).ok().unwrap());
    assert_eq!(read_back_sha(&written, "recipes/foo.json"), Some(new));
}
