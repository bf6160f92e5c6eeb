use jtr::diff::unified_diff_lines;

#[test]
fn unified_diff_lines_labels_and_marks_changes() {
    let out = unified_diff_lines("foo", "a\nb\nc\n", "a\nB\nc\n");
    assert_eq!(out, vec!["--- a/foo", "+++ b/foo", "@@ -1,3 +1,3 @@", " a", "-b", "+B", " c"]);
}

#[test]
fn unified_diff_lines_marks_a_block_that_is_not_installed() {
    let out = unified_diff_lines("foo", "", "x\n");
    assert_eq!(out, vec!["--- a/foo (not installed)", "+++ b/foo", "@@ -0,0 +1 @@", "+x"]);
}

#[test]
fn unified_diff_lines_of_equal_texts_has_no_hunks() {
    assert_eq!(unified_diff_lines("foo", "x\n", "x\n"), vec!["--- a/foo", "+++ b/foo"]);
}
