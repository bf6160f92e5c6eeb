use jtr::managed::{
    append, close_marker, extract_block_text, is_tasks_key, open_marker, parse_all, remove, render,
    render_block, upsert, validate_name, NameError,
};
use jtr::target::Target;

#[test]
fn render_and_parse_roundtrip() {
    let block = render(
        "postgres-dev",
        "0.1.0",
        Some("https://example.com"),
        None,
        &[],
        "pg-up:\n    docker run ...\n",
    );
    let doc = format!("default:\n    @echo hi\n\n{}", block);
    let parsed = parse_all(&doc);
    assert_eq!(parsed.len(), 1);
    assert_eq!(parsed[0].name, "postgres-dev");
    assert_eq!(parsed[0].version, "0.1.0");
    assert!(parsed[0].body.contains("pg-up:"));
    assert!(parsed[0].body.contains("docker run"));
    assert!(parsed[0].dependencies.is_empty());
}

#[test]
fn render_and_parse_roundtrip_with_dependencies() {
    let deps = vec!["clean".to_string(), "alice/recipes/foo".to_string()];
    let block = render(
        "fancy-build",
        "0.2.0",
        Some("https://example.com"),
        None,
        &deps,
        "fancy:\n    @echo hi\n",
    );
    assert!(block.contains("# depends-on: clean, alice/recipes/foo"));

    let parsed = parse_all(&block);
    assert_eq!(parsed.len(), 1);
    assert_eq!(parsed[0].dependencies, deps);
    assert!(!parsed[0].body.contains("depends-on"));
}

#[test]
fn render_and_parse_roundtrip_with_pin() {
    let block = render(
        "postgres-dev",
        "0.1.0",
        Some("https://example.com"),
        Some("0.1.0"),
        &["clean".to_string()],
        "pg-up:\n    docker run ...\n",
    );
    assert!(block.contains("# pinned: 0.1.0"));
    let src = block.find("# source:").unwrap();
    let pin = block.find("# pinned:").unwrap();
    let dep = block.find("# depends-on:").unwrap();
    assert!(src < pin && pin < dep);

    let parsed = parse_all(&block);
    assert_eq!(parsed.len(), 1);
    assert_eq!(parsed[0].pinned.as_deref(), Some("0.1.0"));
    assert_eq!(parsed[0].dependencies, vec!["clean".to_string()]);
    assert!(!parsed[0].body.contains("pinned:"));
    assert!(!parsed[0].body.contains("depends-on"));
}

#[test]
fn render_omits_pinned_line_when_none() {
    let block = render("foo", "0.1.0", None, None, &[], "bar:\n    @echo hi\n");
    assert!(!block.contains("# pinned:"));
}

#[test]
fn render_omits_depends_line_when_empty() {
    let block = render("foo", "0.1.0", None, None, &[], "bar:\n    @echo hi\n");
    assert!(!block.contains("# depends-on:"));
}

#[test]
fn remove_strips_block_and_collapses_blanks() {
    let block = render("foo", "0.1.0", None, None, &[], "bar:\n    @echo hi\n");
    let doc = format!("first:\n    @echo a\n\n{}\nlast:\n    @echo b\n", block);
    let (out, removed) = remove(Target::Just, &doc, "foo");
    assert!(removed);
    assert!(!out.contains("jtr:foo"));
    assert!(out.contains("first:"));
    assert!(out.contains("last:"));
    assert!(out.contains("    @echo a\n\nlast:"));
    assert!(!out.contains("\n\n\n"));
}

#[test]
fn remove_does_not_strip_blocks_with_shared_prefix() {
    let foo = render("foo", "0.1.0", None, None, &[], "foo:\n    @echo a");
    let foo_bar = render("foo-bar", "0.2.0", None, None, &[], "foo-bar:\n    @echo b");
    let doc = format!("default:\n    @echo hi\n\n{}\n{}", foo, foo_bar);

    let (out, removed) = remove(Target::Just, &doc, "foo");
    assert!(removed);
    assert!(!out.contains("# >>> jtr:foo@"));
    assert!(out.contains("# >>> jtr:foo-bar@0.2.0 >>>"));
    assert!(out.contains("foo-bar:\n    @echo b"));
    assert!(out.contains("# <<< jtr:foo-bar <<<"));
}

#[test]
fn remove_trailing_block_does_not_leave_blank_tail() {
    let block = render("foo", "0.1.0", None, None, &[], "bar:\n    @echo hi");
    let doc = format!("default:\n    @echo a\n\n{}", block);
    let (out, _) = remove(Target::Just, &doc, "foo");
    assert!(out.ends_with("@echo a\n"));
}

#[test]
fn upsert_replaces_existing_block() {
    let v1 = render("foo", "0.1.0", None, None, &[], "old-body");
    let v2 = render("foo", "0.2.0", None, None, &[], "new-body");
    let doc = format!("default:\n    @echo hi\n\n{}", v1);
    let updated = upsert(Target::Just, &doc, "foo", &v2).unwrap();
    assert!(updated.contains("new-body"));
    assert!(!updated.contains("old-body"));
    assert!(updated.contains("@0.2.0"));
}

#[test]
fn append_to_empty_doc() {
    let block = render("foo", "0.1.0", None, None, &[], "bar:\n    @echo");
    let out = append("", &block);
    assert_eq!(out, block);
}

#[test]
fn validate_name_rejects_bad_input() {
    assert!(validate_name("").is_err());
    assert!(validate_name("hello world").is_err());
    assert!(validate_name("hello-world").is_ok());
    assert!(validate_name("user/repo").is_ok());
}

const TASK_SNIPPET: &str = "db-up:\n  desc: Start postgres\n  cmds:\n    - docker run --rm postgres";

#[test]
fn task_render_block_indents_every_line_by_two() {
    let rendered = render_block(
        Target::Task,
        "postgres-dev",
        "0.1.0",
        Some("https://example.com"),
        None,
        &[],
        TASK_SNIPPET,
    );
    for line in rendered.lines() {
        if !line.trim().is_empty() {
            assert!(line.starts_with("  "), "line not indented under tasks:: {line:?}");
        }
    }
    assert!(rendered.contains("  # >>> jtr:postgres-dev@0.1.0 >>>"));
    assert!(rendered.contains("  db-up:"));
    assert!(rendered.contains("    desc: Start postgres"));
    assert!(rendered.contains("      - docker run --rm postgres"));
    assert!(rendered.contains("  # <<< jtr:postgres-dev <<<"));
}

#[test]
fn task_render_insert_extract_roundtrips() {
    let taskfile = "version: '3'\n\ntasks:\n  default:\n    cmds:\n      - task --list\n";
    let rendered = render_block(
        Target::Task,
        "postgres-dev",
        "0.1.0",
        Some("https://example.com"),
        None,
        &["clean".to_string()],
        TASK_SNIPPET,
    );
    let merged = upsert(Target::Task, taskfile, "postgres-dev", &rendered).unwrap();

    let extracted = extract_block_text(&merged, "postgres-dev");
    assert_eq!(extracted, rendered, "on-disk block must equal render_block");

    let parsed = parse_all(&merged);
    assert_eq!(parsed.len(), 1);
    assert_eq!(parsed[0].name, "postgres-dev");
    assert_eq!(parsed[0].version, "0.1.0");
    assert_eq!(parsed[0].dependencies, vec!["clean".to_string()]);
}

#[test]
fn task_insert_into_empty_tasks_map() {
    let taskfile = "version: '3'\n\ntasks:\n";
    let rendered = render_block(Target::Task, "foo", "0.1.0", None, None, &[], TASK_SNIPPET);
    let merged = upsert(Target::Task, taskfile, "foo", &rendered).unwrap();
    assert!(merged.contains("tasks:\n  # >>> jtr:foo@0.1.0 >>>"));
    assert!(merged.starts_with("version: '3'"));
}

#[test]
fn task_insert_preserves_following_top_level_key() {
    let taskfile =
        "version: '3'\n\ntasks:\n  default:\n    cmds:\n      - echo hi\n\nvars:\n  FOO: bar\n";
    let rendered = render_block(Target::Task, "foo", "0.1.0", None, None, &[], TASK_SNIPPET);
    let merged = upsert(Target::Task, taskfile, "foo", &rendered).unwrap();
    let foo_at = merged.find("  # >>> jtr:foo@").unwrap();
    let vars_at = merged.find("\nvars:").unwrap();
    let default_at = merged.find("  default:").unwrap();
    assert!(default_at < foo_at, "block should follow existing tasks");
    assert!(foo_at < vars_at, "block must stay inside tasks: not after vars:");
    assert!(merged.contains("vars:\n  FOO: bar"));
}

#[test]
fn task_insert_creates_tasks_map_when_absent() {
    let taskfile = "version: '3'\n\nincludes:\n  docker: ./docker.yml\n";
    let rendered = render_block(Target::Task, "foo", "0.1.0", None, None, &[], TASK_SNIPPET);
    let merged = upsert(Target::Task, taskfile, "foo", &rendered).unwrap();
    assert!(merged.contains("includes:\n  docker: ./docker.yml"));
    assert!(merged.contains("tasks:\n  # >>> jtr:foo@0.1.0 >>>"));
    assert_eq!(parse_all(&merged).len(), 1);
}

#[test]
fn task_install_remove_preserves_sibling_block_scalar() {
    let taskfile = "version: '3'\n\ntasks:\n  greet:\n    cmds:\n      - |\n        echo a\n\n\n        echo b\n";
    let rendered = render_block(Target::Task, "foo", "0.1.0", None, None, &[], TASK_SNIPPET);

    let installed = upsert(Target::Task, taskfile, "foo", &rendered).unwrap();
    assert!(
        installed.contains("        echo a\n\n\n        echo b"),
        "block scalar blanks must survive install"
    );

    let (removed, did) = remove(Target::Task, &installed, "foo");
    assert!(did);
    assert!(!removed.contains("jtr:foo@"));
    assert!(
        removed.contains("        echo a\n\n\n        echo b"),
        "block scalar blanks must survive remove: {removed:?}"
    );
}

#[test]
fn task_remove_mends_seam_to_single_blank() {
    let a = render_block(Target::Task, "a", "0.1.0", None, None, &[], "a-task:\n  cmds:\n    - echo a");
    let b = render_block(Target::Task, "b", "0.1.0", None, None, &[], "b-task:\n  cmds:\n    - echo b");
    let base = "version: '3'\n\ntasks:\n  default:\n    cmds:\n      - echo hi\n";
    let with_a = upsert(Target::Task, base, "a", &a).unwrap();
    let with_both = upsert(Target::Task, &with_a, "b", &b).unwrap();
    let (after, _) = remove(Target::Task, &with_both, "a");
    assert!(!after.contains("\n\n\n"), "seam should collapse to one blank: {after:?}");
    assert!(after.contains("# >>> jtr:b@"));
}

#[test]
fn is_tasks_key_matches_only_block_style_top_level() {
    assert!(is_tasks_key("tasks:"));
    assert!(is_tasks_key("tasks:   "));
    assert!(is_tasks_key("tasks: # the recipes"));
    assert!(!is_tasks_key("  tasks:"));
    assert!(!is_tasks_key("tasks: {}"));
    assert!(!is_tasks_key("tasks_extra:"));
    assert!(!is_tasks_key("version: '3'"));
}

// ---- further cases

#[test]
fn markers_are_exact() {
    assert_eq!(open_marker("foo"), "# >>> jtr:foo@");
    assert_eq!(close_marker("foo"), "# <<< jtr:foo <<<");
}

#[test]
fn render_exact_text() {
    let block = render(
        "foo",
        "0.1.0",
        Some("https://x"),
        Some("0.1.0"),
        &["a".to_string(), "b".to_string()],
        "bar:\n    @echo hi\n\n\n",
    );
    assert_eq!(
        block,
        "# >>> jtr:foo@0.1.0 >>>\n# source: https://x\n# pinned: 0.1.0\n# depends-on: a, b\n# do not edit manually; use `jtr update foo` or `jtr remove foo`\nbar:\n    @echo hi\n# <<< jtr:foo <<<\n"
    );
}

#[test]
fn render_block_just_is_render() {
    let a = render("foo", "1", None, None, &[], "x");
    let b = render_block(Target::Just, "foo", "1", None, None, &[], "x");
    assert_eq!(a, b);
}

#[test]
fn task_block_blank_lines_stay_empty() {
    let out = render_block(Target::Task, "foo", "1", None, None, &[], "a:\n\n  cmds: []");
    assert!(out.contains("  a:\n\n    cmds: []\n"));
}

#[test]
fn parse_all_skips_unclosed_block() {
    let doc = "# >>> jtr:foo@1 >>>\nbody\n";
    assert!(parse_all(doc).is_empty());
}

#[test]
fn parse_all_reads_body_without_header() {
    let block = render("foo", "1", Some("s"), None, &[], "line one\nline two");
    let parsed = parse_all(&block);
    assert_eq!(parsed[0].body, "line one\nline two");
    assert_eq!(parsed[0].pinned, None);
}

#[test]
fn parse_all_accepts_crlf() {
    let doc = "# >>> jtr:foo@1 >>>\r\nx\r\n# <<< jtr:foo <<<\r\n";
    let parsed = parse_all(doc);
    assert_eq!(parsed.len(), 1);
    assert_eq!(parsed[0].body, "x");
}

#[test]
fn remove_missing_block_reports_false() {
    let (out, removed) = remove(Target::Just, "a:\n    @echo\n", "nope");
    assert!(!removed);
    assert_eq!(out, "a:\n    @echo\n");
}

#[test]
fn remove_keeps_missing_final_newline() {
    let (out, _) = remove(Target::Just, "a:\n\n\n  x", "nope");
    assert_eq!(out, "a:\n\n  x");
}

#[test]
fn append_adds_blank_separator() {
    assert_eq!(append("a", "B\n"), "a\n\nB\n");
    assert_eq!(append("a\n", "B\n"), "a\n\nB\n");
    assert_eq!(append("a\n\n", "B\n"), "a\n\nB\n");
}

#[test]
fn upsert_is_idempotent_for_just() {
    let r = render("foo", "0.1.0", Some("s"), None, &[], "foo:\n    @echo");
    let once = upsert(Target::Just, "default:\n    @echo hi\n", "foo", &r).unwrap();
    let twice = upsert(Target::Just, &once, "foo", &r).unwrap();
    assert_eq!(once, twice);
}

#[test]
fn upsert_fails_when_block_would_not_parse() {
    // An unterminated foreign block swallows everything after it.
    let doc = "# >>> jtr:other@1 >>>\nno close here\n";
    let r = render("foo", "1", None, None, &[], "x");
    let e = upsert(Target::Just, doc, "foo", &r).unwrap_err();
    assert_eq!(e.name, "foo");
    assert_eq!(e.found, 0);
}

#[test]
fn extract_block_text_of_missing_block_is_empty() {
    assert_eq!(extract_block_text("a:\n", "foo"), "");
}

#[test]
fn extract_block_text_just_roundtrip() {
    let r = render("foo", "1", None, None, &[], "x:\n    @echo");
    let doc = upsert(Target::Just, "a:\n    @echo a\n", "foo", &r).unwrap();
    assert_eq!(extract_block_text(&doc, "foo"), r);
}

#[test]
fn validate_name_distinguishes_errors() {
    assert_eq!(validate_name(""), Err(NameError::Empty));
    assert_eq!(validate_name("a b"), Err(NameError::InvalidChars));
    assert_eq!(validate_name("A_b-9/x"), Ok(()));
}

#[test]
fn upsert_is_idempotent_for_task() {
    let deps = vec!["clean".to_string()];
    let r = render_block(Target::Task, "foo", "0.1.0", None, Some("0.1.0"), &deps, "foo:\n  cmds:\n    - echo hi\n");
    let docs = [
        "",
        "version: '3'\n",
        "version: '3'\n\ntasks:\n  default:\n    cmds:\n      - task --list\n",
        "version: '3'\n\ntasks:\n  default:\n    cmds:\n      - echo a\n\nincludes:\n  x: ./x.yml\n",
    ];
    for doc in docs {
        let once = upsert(Target::Task, doc, "foo", &r).unwrap();
        let twice = upsert(Target::Task, &once, "foo", &r).unwrap();
        assert_eq!(once, twice, "doc: {doc:?}");
        assert_eq!(extract_block_text(&once, "foo"), r, "doc: {doc:?}");
    }
}

#[test]
fn removed_block_is_gone_and_presence_is_reported() {
    let r = render("foo", "1", None, None, &[], "foo:\n    @echo");
    let doc = format!("a:\n    @echo a\n\n{r}\n{r}");
    let (out, removed) = remove(Target::Just, &doc, "foo");
    assert!(removed);
    assert!(parse_all(&out).iter().all(|b| b.name != "foo"));
    assert_eq!(extract_block_text(&out, "foo"), "");
    let (again, removed_again) = remove(Target::Just, &out, "foo");
    assert!(!removed_again);
    assert_eq!(again, out);
}

fn non_blank(text: &str) -> Vec<String> {
    text.lines().filter(|l| !l.trim().is_empty()).map(|l| l.to_string()).collect()
}

#[test]
fn justfile_install_keeps_the_users_lines_in_order() {
    let old = render("foo", "0.1.0", None, None, &[], "foo:\n    @echo old\n");
    let doc = format!("# mine\nbuild:\n    cargo build\n\n\n{old}\ntest:\n    cargo test\n");
    let new = render("foo", "0.2.0", None, None, &[], "foo:\n    @echo new\n");
    let out = upsert(Target::Just, &doc, "foo", &new).expect("upsert");
    let mut expected = vec!["# mine", "build:", "    cargo build", "test:", "    cargo test"]
        .into_iter()
        .map(String::from)
        .collect::<Vec<_>>();
    expected.extend(non_blank(&new));
    assert_eq!(non_blank(&out), expected);
}

#[test]
fn taskfile_install_keeps_the_users_lines_in_order() {
    let doc = "version: '3'\n\n# tasks below\ntasks:\n  build:\n    cmds:\n      - make\n\nvars:\n  X: 1\n";
    let block = render_block(Target::Task, "foo", "0.1.0", None, None, &[], "foo:\n  cmds:\n    - echo hi\n");
    let out = upsert(Target::Task, doc, "foo", &block).expect("upsert");
    let mut expected: Vec<String> = vec!["version: '3'", "# tasks below", "tasks:", "  build:", "    cmds:", "      - make"]
        .into_iter()
        .map(String::from)
        .collect();
    expected.extend(non_blank(&block));
    expected.push("vars:".to_string());
    expected.push("  X: 1".to_string());
    assert_eq!(non_blank(&out), expected);
}

#[test]
fn taskfile_install_without_tasks_map_adds_the_key_before_the_block() {
    let doc = "version: '3'\nvars:\n  X: 1\n";
    let block = render_block(Target::Task, "foo", "0.1.0", None, None, &[], "foo:\n  cmds:\n    - echo hi\n");
    let out = upsert(Target::Task, doc, "foo", &block).expect("upsert");
    let mut expected: Vec<String> = vec!["version: '3'", "vars:", "  X: 1", "tasks:"].into_iter().map(String::from).collect();
    expected.extend(non_blank(&block));
    assert_eq!(non_blank(&out), expected);
}

#[test]
fn remove_keeps_the_users_lines_in_order() {
    let block = render("foo", "0.1.0", None, None, &[], "foo:\n    @echo x\n");
    let doc = format!("a:\n    @echo a\n\n{block}\n\nb:\n    @echo b\n");
    let (out, removed) = remove(Target::Just, &doc, "foo");
    assert!(removed);
    assert_eq!(non_blank(&out), vec!["a:", "    @echo a", "b:", "    @echo b"]);
}

#[test]
fn justfile_remove_undoes_install() {
    let doc = "a:\n    @echo a\n\n\nb:\n    @echo b\n";
    let block = render("foo", "0.1.0", Some("https://example.com"), None, &[], "foo:\n    @echo foo\n");
    let installed = upsert(Target::Just, doc, "foo", &block).expect("upsert");
    let (after, removed) = remove(Target::Just, &installed, "foo");
    assert!(removed);
    let (plain, _) = remove(Target::Just, doc, "foo");
    assert_eq!(after.lines().collect::<Vec<_>>(), plain.lines().collect::<Vec<_>>());
    assert_eq!(after, "a:\n    @echo a\n\nb:\n    @echo b\n");
}

#[test]
fn taskfile_remove_undoes_install_but_keeps_a_created_tasks_key() {
    let block = render_block(Target::Task, "foo", "0.1.0", None, None, &[], "foo:\n  cmds:\n    - echo hi\n");
    let with_map = "version: '3'\ntasks:\n  build:\n    cmds:\n      - make\n";
    let installed = upsert(Target::Task, with_map, "foo", &block).expect("upsert");
    let (after, _) = remove(Target::Task, &installed, "foo");
    assert_eq!(non_blank(&after), non_blank(with_map));

    let without_map = "version: '3'\n";
    let installed = upsert(Target::Task, without_map, "foo", &block).expect("upsert");
    let (after, _) = remove(Target::Task, &installed, "foo");
    assert_eq!(non_blank(&after), vec!["version: '3'".to_string(), "tasks:".to_string()]);
}

#[test]
fn justfile_remove_restores_a_tidy_file_byte_for_byte() {
    let deps = vec!["clean".to_string(), "alice/recipes/foo".to_string()];
    let block = render("bar", "0.1.0", Some("https://example.com"), Some("0.1.0"), &deps, "bar:\n    @echo bar\n");
    for doc in ["", "a:\n    @echo a\n", "a:\n    @echo a\n\nb:\n    @echo b\n"] {
        let installed = upsert(Target::Just, doc, "bar", &block).expect("upsert");
        assert_eq!(remove(Target::Just, &installed, "bar"), (doc.to_string(), true));
    }
}

#[test]
fn upsert_is_idempotent_and_extracts_with_header_like_snippet_lines() {
    let deps = vec!["alice/recipes/foo".to_string()];
    for target in [Target::Just, Target::Task] {
        let block = render_block(target, "bar", "0.1.0", None, None, &deps, "bar:\n    # source: not a header\n    @echo\n");
        let doc = "x:\n    @echo x\n";
        let once = upsert(target, doc, "bar", &block).expect("upsert");
        assert_eq!(upsert(target, &once, "bar", &block).expect("upsert again"), once);
        assert_eq!(extract_block_text(&once, "bar"), block);
    }
}

#[test]
fn remove_twice_is_remove_once() {
    let block = render("foo", "0.1.0", None, None, &[], "foo:\n    @echo\n");
    let doc = format!("a:\n\n\n{block}\nb:\n");
    for target in [Target::Just, Target::Task] {
        let (once, _) = remove(target, &doc, "foo");
        assert_eq!(remove(target, &once, "foo"), (once.clone(), false));
    }
}

#[test]
fn multi_line_source_and_pin_install_read_back_and_remove() {
    let deps = vec!["clean".to_string()];
    for target in [Target::Just, Target::Task] {
        let block = render_block(
            target,
            "bar",
            "0.2.0",
            Some("https://example.com\nsecond line"),
            Some("0.2.0\n  pinned note"),
            &deps,
            "bar:\n    @echo bar\n",
        );
        let doc = "a:\n    @echo a\n";
        let once = upsert(target, doc, "bar", &block).expect("upsert");
        assert_eq!(upsert(target, &once, "bar", &block).expect("upsert again"), once);
        assert_eq!(extract_block_text(&once, "bar"), block);
        if target == Target::Just {
            assert_eq!(remove(target, &once, "bar"), (doc.to_string(), true));
        }
    }
}

#[test]
fn parsing_after_removal_gives_the_other_blocks() {
    let foo = render("foo", "1", None, None, &[], "foo:\n    @echo foo");
    let foo_bar = render("foo-bar", "2", Some("https://example.com"), None, &[], "fb:\n    @echo fb");
    let baz = render("baz", "3", None, Some("3"), &[], "baz:\n    @echo baz");
    let doc = format!("a:\n    @echo a\n\n{foo}\n{foo_bar}\n{foo}\nz:\n    @echo z\n\n{baz}");
    for target in [Target::Just, Target::Task] {
        let before: Vec<String> = parse_all(&doc).iter().map(|b| b.name.clone()).collect();
        assert_eq!(before, vec!["foo", "foo-bar", "foo", "baz"]);
        let (out, removed) = remove(target, &doc, "foo");
        assert!(removed);
        let after = parse_all(&out);
        let kept: Vec<_> = parse_all(&doc).into_iter().filter(|b| b.name != "foo").collect();
        assert_eq!(after.len(), kept.len());
        for (a, k) in after.iter().zip(kept.iter()) {
            assert_eq!(a.name, k.name);
            assert_eq!(a.version, k.version);
            assert_eq!(a.body, k.body);
            assert_eq!(a.dependencies, k.dependencies);
            assert_eq!(a.pinned, k.pinned);
        }
    }
}
