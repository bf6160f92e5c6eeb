use jtr::scaffold::{find_matching_bracket, index_entry_block, render_manifest, splice_into_recipes_array};
use jtr::target::Target;

#[test]
fn splice_appends_to_populated_array() {
    let original = "{\n  \"version\": 1,\n  \"recipes\": [\n    {\n      \"name\": \"foo\"\n    }\n  ]\n}\n";
    let entry = "    {\n      \"name\": \"bar\"\n    }";
    let spliced = splice_into_recipes_array(original, entry).unwrap();
    assert!(spliced.contains("\"foo\""), "foo entry should survive");
    assert!(spliced.contains("\"bar\""), "bar entry should be inserted");
    let foo_pos = spliced.find("\"foo\"").unwrap();
    let bar_pos = spliced.find("\"bar\"").unwrap();
    assert!(foo_pos < bar_pos, "bar should appear after foo");
    assert!(spliced.contains("    }\n  ]"), "closing bracket indent preserved");
}

#[test]
fn splice_inserts_into_empty_array() {
    let original = "{\n  \"version\": 1,\n  \"recipes\": []\n}\n";
    let entry = "    {\n      \"name\": \"foo\"\n    }";
    let spliced = splice_into_recipes_array(original, entry).unwrap();
    assert!(spliced.contains("\"foo\""));
    assert!(spliced.contains("  ]"));
}

#[test]
fn splice_exact_output_for_populated_array() {
    let original = "{\"recipes\": [\n  {\"a\": 1}\n]}";
    let spliced = splice_into_recipes_array(original, "  {\"b\": 2}").unwrap();
    assert_eq!(spliced, "{\"recipes\": [\n  {\"a\": 1},\n  {\"b\": 2}\n  ]}");
    let spliced = splice_into_recipes_array("{\"recipes\": []}", "E").unwrap();
    assert_eq!(spliced, "{\"recipes\": [\nE\n  ]}");
}

#[test]
fn splice_refuses_without_a_recipes_array() {
    assert!(splice_into_recipes_array("{\"version\": 1}", "x").is_none());
    assert!(splice_into_recipes_array("{\"recipes\": [", "x").is_none());
}

#[test]
fn find_matching_bracket_skips_strings_and_nesting() {
    let s: Vec<char> = "[\"]\", [1, [2]], \"\\\"]\"]".chars().collect();
    assert_eq!(find_matching_bracket(&s, 0), Some(s.len() - 1));
    let t: Vec<char> = "[[]".chars().collect();
    assert_eq!(find_matching_bracket(&t, 0), None);
}

#[test]
fn render_manifest_for_just_target_has_snippet_placeholder() {
    let body = render_manifest("foo", Target::Just);
    let parsed: serde_json::Value = serde_json::from_str(&body).expect("valid JSON");
    assert_eq!(parsed["name"], "foo");
    assert_eq!(parsed["version"], "0.1.0");
    let snippet = parsed["targets"]["just"]["snippet"].as_str().unwrap();
    assert!(snippet.contains("foo:"));
    assert!(snippet.contains("hello from foo"));
}

#[test]
fn render_manifest_for_task_target_emits_task_syntax() {
    let body = render_manifest("bar", Target::Task);
    let parsed: serde_json::Value = serde_json::from_str(&body).expect("valid JSON");
    let snippet = parsed["targets"]["task"]["snippet"].as_str().unwrap();
    assert!(snippet.contains("bar:"));
    assert!(snippet.contains("cmds:"));
}

#[test]
fn render_manifest_escapes_the_snippet_as_a_json_string() {
    let body = render_manifest("foo", Target::Just);
    assert!(body.contains(
        "\"snippet\": \"# TODO: describe what this recipe does\\nfoo:\\n    @echo hello from foo\\n\""
    ));
    assert!(body.starts_with("{\n  \"name\": \"foo\",\n  \"version\": \"0.1.0\""));
    assert!(body.ends_with("\n    }\n  }\n}\n"));
}

#[test]
fn index_entry_block_exact_text() {
    assert_eq!(
        index_entry_block("foo", Target::Task),
        "    {\n      \"name\": \"foo\",\n      \"version\": \"0.1.0\",\n      \"description\": \"TODO: one-line description\",\n      \"manifest_url\": \"recipes/foo.json\",\n      \"targets\": [\"task\"]\n    }"
    );
}
