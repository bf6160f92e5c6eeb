//! Validation of recipe manifests and whole taps, and the `--fix` that
//! rewrites `sha256` fields in an `index.json` in place.
use vstd::prelude::*;

use crate::managed::{valid_name};
use crate::text::{
    byte_offset, utf8_len,
    chars_of, extend, is_blank, is_blank_exec, join, lines, lines_exec, starts_with,
    starts_with_exec, string_of, deep, eq_exec,
};

verus! {

#[derive(Debug, Clone, Copy, PartialEq, Eq, Structural)]
pub enum Severity {
    Error,
    Warning,
}

#[derive(Debug)]
pub struct Finding {
    pub scope: String,
    pub severity: Severity,
    pub message: String,
}

pub struct FindingView {
    pub scope: Seq<char>,
    pub severity: Severity,
    pub message: Seq<char>,
}

pub open spec fn finding_view(f: Finding) -> FindingView {
    FindingView { scope: f.scope@, severity: f.severity, message: f.message@ }
}

pub open spec fn findings_view(v: Seq<Finding>) -> Seq<FindingView> {
    v.map_values(|f: Finding| finding_view(f))
}

pub open spec fn err(scope: Seq<char>, message: Seq<char>) -> FindingView {
    FindingView { scope, severity: Severity::Error, message }
}

pub open spec fn warn(scope: Seq<char>, message: Seq<char>) -> FindingView {
    FindingView { scope, severity: Severity::Warning, message }
}

impl Finding {
    pub fn error(scope: String, message: String) -> (f: Self)
        ensures
            finding_view(f) == err(scope@, message@),
    {
        Finding { scope, severity: Severity::Error, message }
    }

    pub fn warning(scope: String, message: String) -> (f: Self)
        ensures
            finding_view(f) == warn(scope@, message@),
    {
        Finding { scope, severity: Severity::Warning, message }
    }
}

/// `a` + `x` + `b`.
pub fn cat3(a: &str, x: &Vec<char>, b: &str) -> (out: Vec<char>)
    ensures
        out@ == a@ + x@ + b@,
{
    let mut m = chars_of(a);
    extend(&mut m, x);
    extend(&mut m, &chars_of(b));
    m
}

/// `a` + `x` + `b` + `y` + `c`.
pub fn cat5(a: &str, x: &Vec<char>, b: &str, y: &Vec<char>, c: &str) -> (out: Vec<char>)
    ensures
        out@ == a@ + x@ + b@ + y@ + c@,
{
    let mut m = cat3(a, x, b);
    extend(&mut m, y);
    extend(&mut m, &chars_of(c));
    m
}

fn finding(sev: Severity, scope: &Vec<char>, message: &Vec<char>) -> (f: Finding)
    ensures
        finding_view(f) == (FindingView { scope: scope@, severity: sev, message: message@ }),
{
    Finding { scope: string_of(scope), severity: sev, message: string_of(message) }
}

/// Prefix every line of `text` with `prefix`.
pub open spec fn indent_spec(text: Seq<char>, prefix: Seq<char>) -> Seq<char> {
    join(lines(text).map_values(|l: Seq<char>| prefix + l), seq!['\n'])
}

pub fn indent(text: &str, prefix: &str) -> (out: String)
    ensures
        out@ == indent_spec(text@, prefix@),
{
    string_of(&indent_v(&chars_of(text), &chars_of(prefix)))
}

fn indent_v(text: &Vec<char>, prefix: &Vec<char>) -> (out: Vec<char>)
    ensures
        out@ == indent_spec(text@, prefix@),
{
    let ls = lines_exec(text);
    let mut shifted: Vec<Vec<char>> = Vec::new();
    let mut i: usize = 0;
    while i < ls.len()
        invariant
            i <= ls.len(),
            deep(shifted@) == deep(ls@).subrange(0, i as int).map_values(|l: Seq<char>| prefix@ + l),
        decreases ls.len() - i,
    {
        let mut line = prefix.clone();
        extend(&mut line, &ls[i]);
        let ghost before = shifted@;
        shifted.push(line);
        i += 1;
        assert(deep(shifted@) =~= deep(ls@).subrange(0, i as int).map_values(|l: Seq<char>| prefix@ + l)) by {
            assert(deep(shifted@) =~= deep(before).push(line@));
        }
    }
    assert(deep(ls@).subrange(0, ls.len() as int) =~= deep(ls@));
    let sep = vec!['\n'];
    assert(sep@ =~= seq!['\n']);
    assert(deep(shifted@) == lines(text@).map_values(|l: Seq<char>| prefix@ + l));
    crate::text::join_exec(&shifted, &sep)
}

/// The first 16 characters of a checksum, for display.
pub open spec fn short_sha_spec(sha: Seq<char>) -> Seq<char> {
    if sha.len() <= 16 {
        sha
    } else {
        sha.subrange(0, 16)
    }
}

pub fn short_sha(sha: &str) -> (out: &str)
    ensures
        out@ == short_sha_spec(sha@),
{
    let n = chars_of(sha).len();
    if n <= 16 {
        sha
    } else {
        sha.substring_char(0, 16)
    }
}

// ------------------------------------------------------------------ manifests

/// What running `just`/`task` on a snippet found.
pub enum SnippetCheck {
    Passed,
    /// Tool not available; the reason says how to enable the check.
    Skipped(String),
    /// The tool rejected the snippet; its output.
    Failed(String),
}

/// Whether a tool listed in `shells_out_to` is on `PATH`.
pub struct ToolCheck {
    pub tool: String,
    pub on_path: bool,
}

/// One `targets` entry of a manifest, with the outcome of its syntax check.
pub struct TargetCheck {
    pub key: String,
    pub snippet: String,
    pub check: SnippetCheck,
}

pub enum CheckView {
    Passed,
    Skipped(Seq<char>),
    Failed(Seq<char>),
}

pub open spec fn check_view(c: SnippetCheck) -> CheckView {
    match c {
        SnippetCheck::Passed => CheckView::Passed,
        SnippetCheck::Skipped(r) => CheckView::Skipped(r@),
        SnippetCheck::Failed(o) => CheckView::Failed(o@),
    }
}

/// The message `validate_name` gives for an invalid name.
pub open spec fn name_error_message(name: Seq<char>) -> Seq<char> {
    if name.len() == 0 {
        "recipe name cannot be empty"@
    } else {
        "invalid recipe name '"@ + name + "': only [a-z0-9_/-] allowed"@
    }
}

pub open spec fn opt1(c: bool, f: FindingView) -> Seq<FindingView> {
    if c {
        seq![f]
    } else {
        seq![]
    }
}

/// Findings on a manifest's name, version, description and target count.
pub open spec fn field_findings(
    scope: Seq<char>,
    name: Seq<char>,
    version: Seq<char>,
    description: Seq<char>,
    n_targets: nat,
) -> Seq<FindingView> {
    opt1(name.len() == 0, err(scope, "`name` is empty"@)) + opt1(
        !valid_name(name),
        err(scope, "invalid `name`: "@ + name_error_message(name)),
    ) + opt1(version.len() == 0, err(scope, "`version` is empty"@)) + (if description.len() == 0 {
        seq![warn(scope, "`description` is empty"@)]
    } else if starts_with(description, "TODO"@) {
        seq![warn(scope, "`description` still contains a `TODO` placeholder"@)]
    } else {
        seq![]
    }) + opt1(
        n_targets == 0,
        err(scope, "`targets` is empty — at least one of `just` or `task` is required"@),
    )
}

/// A warning for each tool that is not on `PATH`.
pub open spec fn tool_findings(scope: Seq<char>, tools: Seq<ToolCheck>) -> Seq<FindingView>
    decreases tools.len(),
{
    if tools.len() == 0 {
        seq![]
    } else {
        let t = tools.last();
        tool_findings(scope, tools.drop_last()) + opt1(
            !t.on_path,
            warn(
                scope,
                "`shells_out_to` lists '"@ + t.tool@
                    + "', but it isn't on PATH — install it locally to verify the recipe actually runs"@,
            ),
        )
    }
}

/// The finding (if any) for one target: unknown key, empty snippet, or what
/// the syntax check found.
pub open spec fn target_finding(scope: Seq<char>, t: TargetCheck) -> Seq<FindingView> {
    let key = t.key@;
    if key != "just"@ && key != "task"@ {
        seq![warn(scope, "unknown target '"@ + key + "' (jtr only renders `just` and `task`)"@)]
    } else if is_blank(t.snippet@) {
        seq![err(scope, "`targets."@ + key + ".snippet` is empty"@)]
    } else {
        match check_view(t.check) {
            CheckView::Passed => seq![],
            CheckView::Skipped(r) => seq![
                warn(scope, "snippet syntax for target '"@ + key + "' was not checked: "@ + r),
            ],
            CheckView::Failed(o) => seq![
                err(scope, "snippet for target '"@ + key + "' failed to parse:\n"@ + indent_spec(o, "    "@)),
            ],
        }
    }
}

pub open spec fn target_findings(scope: Seq<char>, targets: Seq<TargetCheck>) -> Seq<FindingView>
    decreases targets.len(),
{
    if targets.len() == 0 {
        seq![]
    } else {
        target_findings(scope, targets.drop_last()) + target_finding(scope, targets.last())
    }
}

pub open spec fn manifest_findings(
    scope: Seq<char>,
    name: Seq<char>,
    version: Seq<char>,
    description: Seq<char>,
    tools: Seq<ToolCheck>,
    targets: Seq<TargetCheck>,
) -> Seq<FindingView> {
    field_findings(scope, name, version, description, targets.len()) + tool_findings(scope, tools)
        + target_findings(scope, targets)
}

fn push_finding(out: &mut Vec<Finding>, sev: Severity, scope: &Vec<char>, message: &Vec<char>)
    ensures
        findings_view(final(out)@) == findings_view(old(out)@).push(
            FindingView { scope: scope@, severity: sev, message: message@ },
        ),
{
    let ghost before = out@;
    let f = finding(sev, scope, message);
    out.push(f);
    assert(findings_view(out@) =~= findings_view(before).push(finding_view(f)));
}

fn is_key(v: &Vec<char>, lit: &str) -> (b: bool)
    ensures
        b == (v@ == lit@),
{
    eq_exec(v, &chars_of(lit))
}

/// The checks `jtr lint` makes on a parsed manifest: schema fields, tools on
/// `PATH`, and each target's snippet (in target order).
#[verifier::spinoff_prover]
pub fn check_manifest_fields(
    scope: &str,
    name: &str,
    version: &str,
    description: &str,
    tools: &Vec<ToolCheck>,
    targets: &Vec<TargetCheck>,
) -> (out: Vec<Finding>)
    ensures
        findings_view(out@) == manifest_findings(scope@, name@, version@, description@, tools@, targets@),
{
    let sc = chars_of(scope);
    let nm = chars_of(name);
    let mut out: Vec<Finding> = Vec::new();
    let ghost s0 = findings_view(out@);
    if nm.len() == 0 {
        push_finding(&mut out, Severity::Error, &sc, &chars_of("`name` is empty"));
    }
    match crate::managed::validate_name(name) {
        Ok(()) => {},
        Err(_) => {
            let msg = if nm.len() == 0 {
                chars_of("recipe name cannot be empty")
            } else {
                cat3("invalid recipe name '", &nm, "': only [a-z0-9_/-] allowed")
            };
            let mut m = chars_of("invalid `name`: ");
            extend(&mut m, &msg);
            push_finding(&mut out, Severity::Error, &sc, &m);
        },
    }
    if chars_of(version).len() == 0 {
        push_finding(&mut out, Severity::Error, &sc, &chars_of("`version` is empty"));
    }
    let desc = chars_of(description);
    if desc.len() == 0 {
        push_finding(&mut out, Severity::Warning, &sc, &chars_of("`description` is empty"));
    } else if starts_with_exec(&desc, &chars_of("TODO")) {
        push_finding(
            &mut out,
            Severity::Warning,
            &sc,
            &chars_of("`description` still contains a `TODO` placeholder"),
        );
    }
    if targets.len() == 0 {
        push_finding(
            &mut out,
            Severity::Error,
            &sc,
            &chars_of("`targets` is empty — at least one of `just` or `task` is required"),
        );
    }
    assert(findings_view(out@) =~= field_findings(scope@, name@, version@, description@, targets@.len()));
    let ghost base = findings_view(out@);
    let mut i: usize = 0;
    assert(tools@.subrange(0, 0) =~= Seq::<ToolCheck>::empty());
    while i < tools.len()
        invariant
            i <= tools@.len(),
            sc@ == scope@,
            findings_view(out@) == base + tool_findings(scope@, tools@.subrange(0, i as int)),
        decreases tools.len() - i,
    {
        assert(tools@.subrange(0, i + 1).drop_last() =~= tools@.subrange(0, i as int));
        if !tools[i].on_path {
            let m = cat3(
                "`shells_out_to` lists '",
                &chars_of(tools[i].tool.as_str()),
                "', but it isn't on PATH — install it locally to verify the recipe actually runs",
            );
            push_finding(&mut out, Severity::Warning, &sc, &m);
        }
        i += 1;
        assert(findings_view(out@) =~= base + tool_findings(scope@, tools@.subrange(0, i as int)));
    }
    assert(tools@.subrange(0, tools.len() as int) =~= tools@);
    let ghost base2 = findings_view(out@);
    let mut j: usize = 0;
    assert(targets@.subrange(0, 0) =~= Seq::<TargetCheck>::empty());
    while j < targets.len()
        invariant
            j <= targets@.len(),
            sc@ == scope@,
            findings_view(out@) == base2 + target_findings(scope@, targets@.subrange(0, j as int)),
        decreases targets.len() - j,
    {
        assert(targets@.subrange(0, j + 1).drop_last() =~= targets@.subrange(0, j as int));
        let t = &targets[j];
        let key = chars_of(t.key.as_str());
        let ghost mid = findings_view(out@);
        if !is_key(&key, "just") && !is_key(&key, "task") {
            let m = cat3("unknown target '", &key, "' (jtr only renders `just` and `task`)");
            push_finding(&mut out, Severity::Warning, &sc, &m);
        } else if is_blank_exec(&chars_of(t.snippet.as_str())) {
            let m = cat3("`targets.", &key, ".snippet` is empty");
            push_finding(&mut out, Severity::Error, &sc, &m);
        } else {
            match &t.check {
                SnippetCheck::Passed => {},
                SnippetCheck::Skipped(reason) => {
                    let mut m = cat3("snippet syntax for target '", &key, "' was not checked: ");
                    extend(&mut m, &chars_of(reason.as_str()));
                    push_finding(&mut out, Severity::Warning, &sc, &m);
                },
                SnippetCheck::Failed(output) => {
                    let mut m = cat3("snippet for target '", &key, "' failed to parse:\n");
                    extend(&mut m, &indent_v(&chars_of(output.as_str()), &chars_of("    ")));
                    push_finding(&mut out, Severity::Error, &sc, &m);
                },
            }
        }
        assert(findings_view(out@) =~= mid + target_finding(scope@, targets@[j as int]));
        j += 1;
        assert(findings_view(out@) =~= base2 + target_findings(scope@, targets@.subrange(0, j as int)));
    }
    assert(targets@.subrange(0, targets.len() as int) =~= targets@);
    out
}

// ------------------------------------------------------------------ checksum fixes

/// A `sha256` field to set in `index.json`.
pub struct ChecksumFix {
    pub manifest_url: String,
    /// Existing value in the index, if any. `None` means inserting a new field.
    pub old: Option<String>,
    pub new: String,
}

/// `"manifest_url": "<url>"`, as the index writes the field.
pub open spec fn url_needle(url: Seq<char>) -> Seq<char> {
    "\"manifest_url\": \""@ + url + "\""@
}

/// Scanner state: open-brace positions, the entry's `{` once the needle is
/// reached, and JSON string/escape tracking.
pub struct LocState {
    pub stack: Seq<int>,
    pub entry_open: Option<int>,
    pub in_string: bool,
    pub escape: bool,
}

pub enum LocScan {
    Go(LocState),
    Stop(Option<(int, int)>),
}

pub open spec fn loc_step(st: LocState, c: char, i: int, url_pos: int) -> LocScan {
    if st.entry_open.is_none() && i >= url_pos && st.stack.len() == 0 {
        LocScan::Stop(None)
    } else {
        let eo = if st.entry_open.is_none() && i >= url_pos {
            Some(st.stack.last())
        } else {
            st.entry_open
        };
        if st.escape {
            LocScan::Go(LocState { stack: st.stack, entry_open: eo, in_string: st.in_string, escape: false })
        } else if st.in_string {
            if c == '\\' {
                LocScan::Go(LocState { stack: st.stack, entry_open: eo, in_string: true, escape: true })
            } else if c == '"' {
                LocScan::Go(LocState { stack: st.stack, entry_open: eo, in_string: false, escape: false })
            } else {
                LocScan::Go(LocState { stack: st.stack, entry_open: eo, in_string: true, escape: false })
            }
        } else if c == '"' {
            LocScan::Go(LocState { stack: st.stack, entry_open: eo, in_string: true, escape: false })
        } else if c == '{' {
            LocScan::Go(LocState { stack: st.stack.push(i), entry_open: eo, in_string: false, escape: false })
        } else if c == '}' {
            let opened: Option<int> = if st.stack.len() > 0 {
                Some(st.stack.last())
            } else {
                None
            };
            let rest = if st.stack.len() > 0 {
                st.stack.drop_last()
            } else {
                st.stack
            };
            if eo.is_some() && opened == eo {
                LocScan::Stop(Some((eo.unwrap(), i + 1)))
            } else {
                LocScan::Go(LocState { stack: rest, entry_open: eo, in_string: false, escape: false })
            }
        } else {
            LocScan::Go(LocState { stack: st.stack, entry_open: eo, in_string: false, escape: false })
        }
    }
}

pub open spec fn loc_fold(text: Seq<char>, url_pos: int, n: int) -> LocScan
    decreases n,
{
    if n <= 0 {
        LocScan::Go(LocState { stack: seq![], entry_open: None, in_string: false, escape: false })
    } else {
        match loc_fold(text, url_pos, n - 1) {
            LocScan::Stop(r) => LocScan::Stop(r),
            LocScan::Go(st) => loc_step(st, text[n - 1], n - 1, url_pos),
        }
    }
}

/// The JSON object (from its `{` to one past its matching `}`) that holds the
/// first `"manifest_url": "<url>"`.
pub open spec fn locate_spec(text: Seq<char>, url: Seq<char>) -> Option<(int, int)> {
    match crate::text::find_sub(text, url_needle(url)) {
        None => None,
        Some(p) => match loc_fold(text, p, text.len() as int) {
            LocScan::Stop(r) => r,
            LocScan::Go(_) => None,
        },
    }
}

/// Byte positions of an index entry in its text, as `str` slicing counts
/// them: its `{` and one past its `}`.
#[derive(Debug, Clone, Copy, PartialEq, Eq, Structural)]
pub struct EntryBounds {
    pub start: usize,
    pub end: usize,
}

/// Locate the JSON object whose `manifest_url` field equals `target_url`.
pub fn locate_entry(text: &str, target_url: &str) -> (r: Option<EntryBounds>)
    requires
        utf8_len(text@) <= usize::MAX,
    ensures
        match r {
            Some(b) => locate_spec(text@, target_url@) matches Some((s, e)) && b.start == utf8_len(
                text@.subrange(0, s),
            ) && b.end == utf8_len(text@.subrange(0, e)),
            None => locate_spec(text@, target_url@).is_none(),
        },
{
    let t = chars_of(text);
    match locate_v(&t, &chars_of(target_url)) {
        Some((s, e)) => {
            proof {
                lemma_locate_range(text@, target_url@);
            }
            Some(EntryBounds { start: byte_offset(&t, s), end: byte_offset(&t, e) })
        },
        None => None,
    }
}

fn locate_v(t: &Vec<char>, url: &Vec<char>) -> (r: Option<(usize, usize)>)
    ensures
        match r {
            Some(b) => locate_spec(t@, url@) == Some((b.0 as int, b.1 as int)),
            None => locate_spec(t@, url@).is_none(),
        },
{
    let needle = cat3("\"manifest_url\": \"", url, "\"");
    let url_pos = match crate::text::find_sub_exec(t, &needle) {
        Some(p) => p,
        None => {
            return None;
        },
    };
    let mut stack: Vec<usize> = Vec::new();
    let mut entry_open: Option<usize> = None;
    let mut in_string = false;
    let mut escape = false;
    let mut i: usize = 0;
    assert(stack@.map_values(|x: usize| x as int) =~= Seq::<int>::empty());
    while i < t.len()
        invariant
            i <= t.len(),
            crate::text::find_sub(t@, url_needle(url@)) == Some(url_pos as int),
            forall|k: int| 0 <= k < stack@.len() ==> stack@[k] < i,
            entry_open matches Some(o) ==> o < i,
            loc_fold(t@, url_pos as int, i as int) == LocScan::Go(LocState {
                stack: stack@.map_values(|x: usize| x as int),
                entry_open: match entry_open {
                    Some(o) => Some(o as int),
                    None => None,
                },
                in_string,
                escape,
            }),
        decreases t.len() - i,
    {
        let ghost sv = stack@.map_values(|x: usize| x as int);
        let c = t[i];
        if entry_open.is_none() && i >= url_pos {
            if stack.len() == 0 {
                proof {
                    lemma_loc_stop_persists(t@, url_pos as int, i + 1, t@.len() as int);
                }
                return None;
            }
            entry_open = Some(stack[stack.len() - 1]);
        }
        if escape {
            escape = false;
        } else if in_string {
            if c == '\\' {
                escape = true;
            } else if c == '"' {
                in_string = false;
            }
        } else if c == '"' {
            in_string = true;
        } else if c == '{' {
            stack.push(i);
            assert(stack@.map_values(|x: usize| x as int) =~= sv.push(i as int));
        } else if c == '}' {
            let opened = stack.pop();
            proof {
                if sv.len() > 0 {
                    assert(stack@.map_values(|x: usize| x as int) =~= sv.drop_last());
                }
            }
            match (entry_open, opened) {
                (Some(open), Some(op)) => {
                    if op == open {
                        proof {
                            lemma_loc_stop_persists(t@, url_pos as int, i + 1, t@.len() as int);
                        }
                        return Some((open, i + 1));
                    }
                },
                _ => {},
            }
        }
        i += 1;
    }
    None
}

pub open spec fn sha_key() -> Seq<char> {
    "\"sha256\":"@
}

/// Positions (within the entry) of the value of its `"sha256":` field,
/// between the quotes.
pub open spec fn find_sha_spec(e: Seq<char>) -> Option<(int, int)> {
    match crate::text::find_sub(e, sha_key()) {
        None => None,
        Some(kp) => {
            let after = e.subrange(kp, e.len() as int);
            let colon = crate::text::find_char(after, ':');
            if crate::text::find_char(after, '"') >= after.len() || colon >= after.len() {
                None
            } else {
                let after_colon = after.subrange(colon + 1, after.len() as int);
                let q = crate::text::find_char(after_colon, '"');
                if q >= after_colon.len() {
                    None
                } else {
                    let vo = kp + colon + 1 + q + 1;
                    let rest = e.subrange(vo, e.len() as int);
                    let c = crate::text::find_char(rest, '"');
                    if c >= rest.len() {
                        None
                    } else {
                        Some((vo, vo + c))
                    }
                }
            }
        },
    }
}

/// Byte positions, within the entry's text, of the `sha256` value.
#[derive(Debug, Clone, Copy, PartialEq, Eq, Structural)]
pub struct ShaField {
    pub value_start: usize,
    pub value_end: usize,
}

fn find_sha_v(e: &Vec<char>) -> (r: Option<(usize, usize)>)
    ensures
        match r {
            Some(f) => find_sha_spec(e@) == Some((f.0 as int, f.1 as int)) && f.0 <= f.1 <= e.len(),
            None => find_sha_spec(e@).is_none(),
        },
{
    let key = chars_of("\"sha256\":");
    let kp = match crate::text::find_sub_exec(e, &key) {
        Some(k) => k,
        None => {
            return None;
        },
    };
    let n = e.len();
    let q0 = crate::text::find_char_from(e, kp, '"');
    let colon = crate::text::find_char_from(e, kp, ':');
    if q0 == n || colon == n {
        return None;
    }
    let q = crate::text::find_char_from(e, colon + 1, '"');
    proof {
        let after = e@.subrange(kp as int, n as int);
        assert(after.subrange(colon - kp + 1, after.len() as int) =~= e@.subrange(colon + 1, n as int));
    }
    if q == n {
        return None;
    }
    let vo = q + 1;
    let c = crate::text::find_char_from(e, vo, '"');
    if c == n {
        return None;
    }
    Some((vo, c))
}

/// The `sha256` field of an index entry's text, if present.
pub fn find_sha_field(entry_slice: &str) -> (r: Option<ShaField>)
    requires
        utf8_len(entry_slice@) <= usize::MAX,
    ensures
        match r {
            Some(f) => find_sha_spec(entry_slice@) matches Some((vs, ve)) && f.value_start == utf8_len(
                entry_slice@.subrange(0, vs),
            ) && f.value_end == utf8_len(entry_slice@.subrange(0, ve)),
            None => find_sha_spec(entry_slice@).is_none(),
        },
{
    let e = chars_of(entry_slice);
    match find_sha_v(&e) {
        Some((vs, ve)) => Some(ShaField { value_start: byte_offset(&e, vs), value_end: byte_offset(&e, ve) }),
        None => None,
    }
}

/// Index of the last non-whitespace character, or -1.
pub open spec fn rfind_non_ws(s: Seq<char>) -> int
    decreases s.len(),
{
    if s.len() == 0 {
        -1
    } else if !crate::text::is_ws(s.last()) {
        s.len() - 1
    } else {
        rfind_non_ws(s.drop_last())
    }
}

/// The leading whitespace of `s`.
pub open spec fn leading_ws(s: Seq<char>) -> Seq<char>
    decreases s.len(),
{
    if s.len() > 0 && crate::text::is_ws(s[0]) {
        seq![s[0]] + leading_ws(s.drop_first())
    } else {
        seq![]
    }
}

/// Set the `sha256` of the entry for `url` to `new`: replace the existing
/// value in place, or insert a new last field (on its own line, indented like
/// the field before it, with a comma after that field when it lacks one).
pub open spec fn apply_fix_spec(text: Seq<char>, url: Seq<char>, new: Seq<char>) -> Option<Seq<char>> {
    match locate_spec(text, url) {
        None => None,
        Some((s, e)) => {
            let slice = text.subrange(s, e);
            match find_sha_spec(slice) {
                Some((vs, ve)) => Some(
                    text.subrange(0, s + vs) + new + text.subrange(s + ve, text.len() as int),
                ),
                None => {
                    if e < 1 {
                        None
                    } else {
                        let lfe = rfind_non_ws(text.subrange(0, e - 1));
                        if lfe < 0 {
                            None
                        } else {
                            let needs_comma = text[lfe] != ',';
                            let line_start = crate::sources::rfind_char(text.subrange(0, lfe), '\n') + 1;
                            let ind = leading_ws(text.subrange(line_start, text.len() as int));
                            let insertion = (if needs_comma {
                                seq![',']
                            } else {
                                seq![]
                            }) + seq!['\n'] + ind + "\"sha256\": \""@ + new + "\""@;
                            Some(text.subrange(0, lfe + 1) + insertion + text.subrange(lfe + 1, text.len() as int))
                        }
                    }
                },
            }
        },
    }
}

proof fn lemma_rfind_non_ws_range(s: Seq<char>)
    ensures
        -1 <= rfind_non_ws(s) < s.len(),
    decreases s.len(),
{
    if s.len() > 0 {
        lemma_rfind_non_ws_range(s.drop_last());
    }
}

fn apply_fix_v(text: &Vec<char>, url: &Vec<char>, new: &Vec<char>) -> (r: Option<Vec<char>>)
    ensures
        match r {
            Some(o) => apply_fix_spec(text@, url@, new@) == Some(o@),
            None => apply_fix_spec(text@, url@, new@).is_none(),
        },
{
    let b = match locate_v(text, url) {
        Some(b) => b,
        None => {
            return None;
        },
    };
    proof {
        lemma_locate_range(text@, url@);
    }
    let slice = crate::text::slice_of(text, b.0, b.1);
    match find_sha_v(&slice) {
        Some(f) => {
            let mut out = crate::text::slice_of(text, 0, b.0 + f.0);
            extend(&mut out, new);
            extend(&mut out, &crate::text::slice_of(text, b.0 + f.1, text.len()));
            return Some(out);
        },
        None => {},
    }
    if b.1 < 1 {
        return None;
    }
    let close = b.1 - 1;
    let mut k = close;
    while k > 0 && crate::text::is_ws_exec(text[k - 1])
        invariant
            k <= close < text.len(),
            rfind_non_ws(text@.subrange(0, close as int)) == rfind_non_ws(text@.subrange(0, k as int)),
        decreases k,
    {
        assert(text@.subrange(0, k as int).drop_last() =~= text@.subrange(0, k - 1));
        k -= 1;
    }
    if k == 0 {
        assert(text@.subrange(0, 0).len() == 0);
        return None;
    }
    let lfe = k - 1;
    assert(text@.subrange(0, k as int).last() == text@[lfe as int]);
    let needs_comma = text[lfe] != ',';
    let before = crate::text::slice_of(text, 0, lfe);
    let line_start = match crate::sources::rfind_char_exec(&before, '\n') {
        Some(j) => j + 1,
        None => 0,
    };
    let mut ind: Vec<char> = Vec::new();
    let mut p = line_start;
    proof {
        assert(leading_ws(text@.subrange(line_start as int, text.len() as int)) == ind@ + leading_ws(
            text@.subrange(p as int, text.len() as int),
        ));
    }
    while p < text.len() && crate::text::is_ws_exec(text[p])
        invariant
            line_start <= p <= text.len(),
            leading_ws(text@.subrange(line_start as int, text.len() as int)) == ind@ + leading_ws(
                text@.subrange(p as int, text.len() as int),
            ),
        decreases text.len() - p,
    {
        let ghost r = text@.subrange(p as int, text.len() as int);
        assert(r.drop_first() =~= text@.subrange(p + 1, text.len() as int));
        ind.push(text[p]);
        p += 1;
        assert(ind@ + leading_ws(text@.subrange(p as int, text.len() as int)) =~= ind@.drop_last()
            + leading_ws(r));
    }
    proof {
        let r = text@.subrange(p as int, text.len() as int);
        assert(leading_ws(r) =~= Seq::<char>::empty());
    }
    let mut insertion: Vec<char> = Vec::new();
    if needs_comma {
        insertion.push(',');
    }
    insertion.push('\n');
    extend(&mut insertion, &ind);
    extend(&mut insertion, &cat3("\"sha256\": \"", new, "\""));
    let mut out = crate::text::slice_of(text, 0, lfe + 1);
    extend(&mut out, &insertion);
    extend(&mut out, &crate::text::slice_of(text, lfe + 1, text.len()));
    proof {
        let ins = (if needs_comma { seq![','] } else { seq![] }) + seq!['\n'] + ind@ + "\"sha256\": \""@ + new@ + "\""@;
        assert(insertion@ =~= ins);
    }
    Some(out)
}

pub proof fn lemma_loc_stop_persists(text: Seq<char>, url_pos: int, n: int, m: int)
    requires
        0 <= n <= m,
        loc_fold(text, url_pos, n) is Stop,
    ensures
        loc_fold(text, url_pos, m) == loc_fold(text, url_pos, n),
    decreases m - n,
{
    if m > n {
        lemma_loc_stop_persists(text, url_pos, n, m - 1);
    }
}

pub proof fn lemma_locate_range(text: Seq<char>, url: Seq<char>)
    ensures
        locate_spec(text, url) matches Some((s, e)) ==> 0 <= s < e <= text.len(),
{
    match crate::text::find_sub(text, url_needle(url)) {
        None => {},
        Some(p) => {
            lemma_loc_fold_range(text, p, text.len() as int);
        },
    }
}

pub proof fn lemma_loc_fold_range(text: Seq<char>, url_pos: int, n: int)
    requires
        n <= text.len(),
    ensures
        match loc_fold(text, url_pos, n) {
            LocScan::Stop(Some((s, e))) => 0 <= s < e <= n,
            LocScan::Stop(None) => true,
            LocScan::Go(st) => (forall|k: int| 0 <= k < st.stack.len() ==> 0 <= #[trigger] st.stack[k] < n)
                && (st.entry_open matches Some(o) ==> 0 <= o < n),
        },
    decreases n,
{
    if n > 0 {
        lemma_loc_fold_range(text, url_pos, n - 1);
        match loc_fold(text, url_pos, n - 1) {
            LocScan::Stop(_) => {},
            LocScan::Go(st) => {
                if st.stack.len() > 0 {
                    assert(0 <= st.stack[st.stack.len() - 1] < n - 1);
                }
                match loc_step(st, text[n - 1], n - 1, url_pos) {
                    LocScan::Go(st2) => {
                        assert forall|k: int| 0 <= k < st2.stack.len() implies 0 <= #[trigger] st2.stack[k] < n by {
                            if k < st.stack.len() {
                                assert(st2.stack[k] == st.stack[k]);
                            }
                        }
                    },
                    _ => {},
                }
            },
        }
    }
}

/// Apply one checksum fix to the index text; `None` when the entry (or a
/// place for the field) cannot be found.
pub fn apply_one_fix(text: &str, fix: &ChecksumFix) -> (r: Option<String>)
    ensures
        match r {
            Some(o) => apply_fix_spec(text@, fix.manifest_url@, fix.new@) == Some(o@),
            None => apply_fix_spec(text@, fix.manifest_url@, fix.new@).is_none(),
        },
{
    match apply_fix_v(&chars_of(text), &chars_of(fix.manifest_url.as_str()), &chars_of(fix.new.as_str())) {
        Some(o) => Some(string_of(&o)),
        None => None,
    }
}

/// Apply the fixes in order; the first one that fails names its manifest URL.
pub open spec fn apply_fixes_spec(text: Seq<char>, fixes: Seq<ChecksumFix>) -> Result<Seq<char>, Seq<char>>
    decreases fixes.len(),
{
    if fixes.len() == 0 {
        Ok(text)
    } else {
        match apply_fixes_spec(text, fixes.drop_last()) {
            Err(u) => Err(u),
            Ok(t) => match apply_fix_spec(t, fixes.last().manifest_url@, fixes.last().new@) {
                Some(t2) => Ok(t2),
                None => Err(fixes.last().manifest_url@),
            },
        }
    }
}

/// `could not splice sha256 for <manifest_url>`
#[derive(Debug)]
pub struct FixError {
    pub manifest_url: String,
}

/// Rewrite `index_text` with each fix applied to its entry's `sha256` field,
/// preserving the file's whitespace and field order.
pub fn apply_checksum_fixes(index_text: &str, fixes: &Vec<ChecksumFix>) -> (r: Result<String, FixError>)
    ensures
        match r {
            Ok(o) => apply_fixes_spec(index_text@, fixes@) == Ok::<Seq<char>, Seq<char>>(o@),
            Err(e) => apply_fixes_spec(index_text@, fixes@) == Err::<Seq<char>, Seq<char>>(e.manifest_url@),
        },
{
    let mut out = chars_of(index_text);
    let mut i: usize = 0;
    assert(fixes@.subrange(0, 0) =~= Seq::<ChecksumFix>::empty());
    while i < fixes.len()
        invariant
            i <= fixes@.len(),
            apply_fixes_spec(index_text@, fixes@.subrange(0, i as int)) == Ok::<Seq<char>, Seq<char>>(out@),
        decreases fixes.len() - i,
    {
        assert(fixes@.subrange(0, i + 1).drop_last() =~= fixes@.subrange(0, i as int));
        let url = chars_of(fixes[i].manifest_url.as_str());
        match apply_fix_v(&out, &url, &chars_of(fixes[i].new.as_str())) {
            Some(o) => {
                out = o;
            },
            None => {
                proof {
                    assert(fixes@.subrange(0, i + 1).last() == fixes@[i as int]);
                    lemma_fixes_prefix_err(index_text@, fixes@, i as int + 1);
                }
                return Err(FixError { manifest_url: string_of(&url) });
            },
        }
        i += 1;
    }
    assert(fixes@.subrange(0, fixes.len() as int) =~= fixes@);
    Ok(string_of(&out))
}

/// An error in a prefix of the fixes is the error of the whole list.
proof fn lemma_fixes_prefix_err(text: Seq<char>, fixes: Seq<ChecksumFix>, n: int)
    requires
        0 <= n <= fixes.len(),
        apply_fixes_spec(text, fixes.subrange(0, n)) is Err,
    ensures
        apply_fixes_spec(text, fixes) == apply_fixes_spec(text, fixes.subrange(0, n)),
    decreases fixes.len() - n,
{
    if n == fixes.len() {
        assert(fixes.subrange(0, n) =~= fixes);
    } else {
        assert(fixes.subrange(0, n + 1).drop_last() =~= fixes.subrange(0, n));
        lemma_fixes_prefix_err(text, fixes, n + 1);
    }
}

// ------------------------------------------------------------------ taps

/// The fields of a referenced manifest that lint compares with its entry.
pub struct ManifestFields {
    pub name: String,
    pub version: String,
    pub description: String,
}

/// What reading an entry's manifest produced.
pub enum EntryRead {
    /// The file could not be read: its path and the error, for display.
    Unreadable { path: String, error: String },
    Read {
        /// `check_manifest_fields` (or the parse failure) for this manifest.
        findings: Vec<Finding>,
        /// The manifest's fields, when it parsed.
        manifest: Option<ManifestFields>,
        /// SHA-256 (lowercase hex) of the manifest's bytes.
        actual_sha: String,
    },
}

/// What `jtr lint --tap --fix` writes back to `index.json`: nothing when
/// there is no fix to make (the file stays byte for byte as it was), else the
/// index with every fix applied in turn.
pub fn index_rewrite(index_text: &str, fixes: &Vec<ChecksumFix>) -> (r: Result<Option<String>, FixError>)
    ensures
        fixes@.len() == 0 ==> r matches Ok(None),
        fixes@.len() > 0 ==> match r {
            Ok(Some(o)) => apply_fixes_spec(index_text@, fixes@) == Ok::<Seq<char>, Seq<char>>(o@),
            Ok(None) => false,
            Err(e) => apply_fixes_spec(index_text@, fixes@) == Err::<Seq<char>, Seq<char>>(e.manifest_url@),
        },
{
    if fixes.len() == 0 {
        Ok(None)
    } else {
        match apply_checksum_fixes(index_text, fixes) {
            Ok(o) => Ok(Some(o)),
            Err(e) => Err(e),
        }
    }
}

pub struct EntryInput {
    pub entry: crate::manifest::IndexEntry,
    pub read: EntryRead,
}

/// Findings to report and checksum fixes to apply.
pub struct TapLint {
    pub findings: Vec<Finding>,
    pub fixes: Vec<ChecksumFix>,
}

pub struct FixView {
    pub url: Seq<char>,
    pub old: Option<Seq<char>>,
    pub new: Seq<char>,
}

pub open spec fn fix_view(f: ChecksumFix) -> FixView {
    FixView {
        url: f.manifest_url@,
        old: match f.old {
            Some(o) => Some(o@),
            None => None,
        },
        new: f.new@,
    }
}

pub open spec fn fixes_view(v: Seq<ChecksumFix>) -> Seq<FixView> {
    v.map_values(|f: ChecksumFix| fix_view(f))
}

pub open spec fn recipe_scope(name: Seq<char>) -> Seq<char> {
    "recipe '"@ + name + "'"@
}

/// Name/version/description disagreements between manifest and entry.
pub open spec fn mismatch_findings(scope: Seq<char>, e: crate::manifest::IndexEntry, m: Option<ManifestFields>) -> Seq<FindingView> {
    match m {
        None => seq![],
        Some(m) => opt1(
            m.name@ != e.name@,
            err(scope, "manifest name '"@ + m.name@ + "' does not match index entry name '"@ + e.name@ + "'"@),
        ) + opt1(
            m.version@ != e.version@,
            err(
                scope,
                "manifest version '"@ + m.version@ + "' does not match index entry version '"@ + e.version@ + "'"@,
            ),
        ) + opt1(
            m.description@ != e.description@,
            warn(scope, "manifest description differs from index entry description"@),
        ),
    }
}

/// The checksum outcome: fine, a fix to apply (with `--fix`), or an error.
pub open spec fn sha_outcome(
    scope: Seq<char>,
    e: crate::manifest::IndexEntry,
    actual: Seq<char>,
    fix: bool,
    root: Seq<char>,
) -> (Seq<FindingView>, Seq<FixView>) {
    match e.sha256 {
        Some(x) => if x@ == actual {
            (seq![], seq![])
        } else if fix {
            (seq![], seq![FixView { url: e.manifest_url@, old: Some(x@), new: actual }])
        } else {
            (
                seq![
                    err(
                        scope,
                        "sha256 mismatch (index: "@ + x@ + ", computed: "@ + actual + "). Run `jtr lint --tap "@
                            + root + " --fix` to repair."@,
                    ),
                ],
                seq![],
            )
        },
        None => if fix {
            (seq![], seq![FixView { url: e.manifest_url@, old: None, new: actual }])
        } else {
            (
                seq![
                    err(
                        scope,
                        "missing sha256 in index entry (computed: "@ + actual + "). Run `jtr lint --tap "@ + root
                            + " --fix` to add it."@,
                    ),
                ],
                seq![],
            )
        },
    }
}

/// What one index entry contributes: a duplicate name or an absolute
/// manifest URL stops at one finding; otherwise the manifest's own findings,
/// its disagreements with the entry, and the checksum outcome.
pub open spec fn entry_outcome(inp: EntryInput, dup: bool, fix: bool, root: Seq<char>) -> (Seq<FindingView>, Seq<FixView>) {
    let e = inp.entry;
    let scope = recipe_scope(e.name@);
    if dup {
        (seq![err(scope, "duplicate entry for '"@ + e.name@ + "' in index.json"@)], seq![])
    } else if crate::target::contains_seq(e.manifest_url@, "://"@) {
        (
            seq![
                warn(
                    scope,
                    "manifest_url '"@ + e.manifest_url@ + "' is absolute; lint can only validate local relative paths"@,
                ),
            ],
            seq![],
        )
    } else {
        match inp.read {
            EntryRead::Unreadable { path, error } => (
                seq![err(scope, "could not read manifest at '"@ + path@ + "': "@ + error@)],
                seq![],
            ),
            EntryRead::Read { findings, manifest, actual_sha } => {
                let (sf, sx) = sha_outcome(scope, e, actual_sha@, fix, root);
                (findings_view(findings@) + mismatch_findings(scope, e, manifest) + sf, sx)
            },
        }
    }
}

pub open spec fn seen_before(entries: Seq<EntryInput>, i: int) -> bool {
    exists|j: int| 0 <= j < i && (#[trigger] entries[j]).entry.name@ == entries[i].entry.name@
}

/// For each name, whether the same name came earlier: the index entries
/// whose manifests `jtr lint --tap` does not read, reporting them as
/// duplicates instead.
pub fn duplicate_flags(names: &Vec<String>) -> (out: Vec<bool>)
    ensures
        out@.len() == names@.len(),
        forall|i: int|
            0 <= i < names@.len() ==> (#[trigger] out@[i] <==> exists|j: int|
                0 <= j < i && (#[trigger] names@[j])@ == names@[i]@),
{
    let mut out: Vec<bool> = Vec::new();
    let mut i: usize = 0;
    while i < names.len()
        invariant
            i <= names@.len(),
            out@.len() == i,
            forall|k: int|
                0 <= k < i ==> (#[trigger] out@[k] <==> exists|j: int| 0 <= j < k && (#[trigger] names@[j])@ == names@[k]@),
        decreases names.len() - i,
    {
        let name = chars_of(names[i].as_str());
        let mut j: usize = 0;
        while j < i && !eq_exec(&chars_of(names[j].as_str()), &name)
            invariant
                j <= i < names@.len(),
                name@ == names@[i as int]@,
                forall|k: int| 0 <= k < j ==> (#[trigger] names@[k])@ != name@,
            decreases i - j,
        {
            j += 1;
        }
        proof {
            if j == i {
                assert(!exists|k: int| 0 <= k < i && (#[trigger] names@[k])@ == names@[i as int]@);
            } else {
                assert(names@[j as int]@ == names@[i as int]@);
            }
        }
        out.push(j < i);
        i += 1;
    }
    out
}

pub open spec fn lint_fold(entries: Seq<EntryInput>, n: int, fix: bool, root: Seq<char>) -> (Seq<FindingView>, Seq<FixView>)
    decreases n,
{
    if n <= 0 {
        (seq![], seq![])
    } else {
        let (f, x) = lint_fold(entries, n - 1, fix, root);
        let (f2, x2) = entry_outcome(entries[n - 1], seen_before(entries, n - 1), fix, root);
        (f + f2, x + x2)
    }
}

/// A tap's findings: an unsupported index version, then each entry's.
pub open spec fn lint_tap_spec(
    index_scope: Seq<char>,
    version: u32,
    entries: Seq<EntryInput>,
    fix: bool,
    root: Seq<char>,
) -> (Seq<FindingView>, Seq<FixView>) {
    let head = opt1(
        version != 1,
        err(index_scope, "unsupported version "@ + crate::text::decimal(version as nat) + " (jtr supports v1)"@),
    );
    let (f, x) = lint_fold(entries, entries.len() as int, fix, root);
    (head + f, x)
}

fn opt_str_eq(a: &Option<String>, b: &Vec<char>) -> (r: bool)
    ensures
        r == (a matches Some(x) && x@ == b@),
{
    match a {
        Some(x) => eq_exec(&chars_of(x.as_str()), b),
        None => false,
    }
}

#[verifier::spinoff_prover]
#[verifier::rlimit(50)]
fn entry_outcome_v(inp: &EntryInput, dup: bool, fix: bool, root: &Vec<char>, findings: &mut Vec<Finding>, fixes: &mut Vec<ChecksumFix>)
    ensures
        findings_view(final(findings)@) == findings_view(old(findings)@) + entry_outcome(*inp, dup, fix, root@).0,
        fixes_view(final(fixes)@) == fixes_view(old(fixes)@) + entry_outcome(*inp, dup, fix, root@).1,
{
    let ghost f0 = findings_view(findings@);
    let ghost x0 = fixes_view(fixes@);
    let e = &inp.entry;
    let name = chars_of(e.name.as_str());
    let scope = cat3("recipe '", &name, "'");
    let url = chars_of(e.manifest_url.as_str());
    if dup {
        push_finding(findings, Severity::Error, &scope, &cat3("duplicate entry for '", &name, "' in index.json"));
        assert(fixes_view(fixes@) =~= x0 + Seq::<FixView>::empty());
        return;
    }
    if crate::target::contains_exec(&url, &chars_of("://")) {
        push_finding(
            findings,
            Severity::Warning,
            &scope,
            &cat3("manifest_url '", &url, "' is absolute; lint can only validate local relative paths"),
        );
        assert(fixes_view(fixes@) =~= x0 + Seq::<FixView>::empty());
        return;
    }
    match &inp.read {
        EntryRead::Unreadable { path, error } => {
            let mut m = cat3("could not read manifest at '", &chars_of(path.as_str()), "': ");
            extend(&mut m, &chars_of(error.as_str()));
            push_finding(findings, Severity::Error, &scope, &m);
            assert(fixes_view(fixes@) =~= x0 + Seq::<FixView>::empty());
        },
        EntryRead::Read { findings: fs, manifest, actual_sha } => {
            let mut k: usize = 0;
            while k < fs.len()
                invariant
                    k <= fs@.len(),
                    findings_view(findings@) == f0 + findings_view(fs@).subrange(0, k as int),
                decreases fs.len() - k,
            {
                let f = &fs[k];
                push_finding(findings, f.severity, &chars_of(f.scope.as_str()), &chars_of(f.message.as_str()));
                k += 1;
                assert(findings_view(findings@) =~= f0 + findings_view(fs@).subrange(0, k as int));
            }
            assert(findings_view(fs@).subrange(0, fs.len() as int) =~= findings_view(fs@));
            let ghost f1 = findings_view(findings@);
            match manifest {
                None => {},
                Some(m) => {
                    let mn = chars_of(m.name.as_str());
                    let mv = chars_of(m.version.as_str());
                    let ev = chars_of(e.version.as_str());
                    if !eq_exec(&mn, &name) {
                        push_finding(findings, Severity::Error, &scope, &cat5(
                            "manifest name '", &mn, "' does not match index entry name '", &name, "'",
                        ));
                    }
                    if !eq_exec(&mv, &ev) {
                        push_finding(findings, Severity::Error, &scope, &cat5(
                            "manifest version '", &mv, "' does not match index entry version '", &ev, "'",
                        ));
                    }
                    if !eq_exec(&chars_of(m.description.as_str()), &chars_of(e.description.as_str())) {
                        push_finding(findings, Severity::Warning, &scope, &chars_of(
                            "manifest description differs from index entry description",
                        ));
                    }
                },
            }
            assert(findings_view(findings@) =~= f1 + mismatch_findings(scope@, *e, *manifest));
            let ghost f2 = findings_view(findings@);
            let actual = chars_of(actual_sha.as_str());
            if opt_str_eq(&e.sha256, &actual) {
                assert(findings_view(findings@) =~= f2 + Seq::<FindingView>::empty());
                assert(fixes_view(fixes@) =~= x0 + Seq::<FixView>::empty());
            } else {
                match &e.sha256 {
                    Some(x) => {
                        if fix {
                            let ghost before = fixes@;
                            let fx = ChecksumFix {
                                manifest_url: string_of(&url),
                                old: Some(string_of(&chars_of(x.as_str()))),
                                new: string_of(&actual),
                            };
                            fixes.push(fx);
                            assert(fixes_view(fixes@) =~= fixes_view(before).push(fix_view(fx)));
                            assert(findings_view(findings@) =~= f2 + Seq::<FindingView>::empty());
                        } else {
                            let mut m = cat5("sha256 mismatch (index: ", &chars_of(x.as_str()), ", computed: ", &actual, "). Run `jtr lint --tap ");
                            extend(&mut m, root);
                            extend(&mut m, &chars_of(" --fix` to repair."));
                            push_finding(findings, Severity::Error, &scope, &m);
                            assert(fixes_view(fixes@) =~= x0 + Seq::<FixView>::empty());
                        }
                    },
                    None => {
                        if fix {
                            let ghost before = fixes@;
                            let fx = ChecksumFix { manifest_url: string_of(&url), old: None, new: string_of(&actual) };
                            fixes.push(fx);
                            assert(fixes_view(fixes@) =~= fixes_view(before).push(fix_view(fx)));
                            assert(findings_view(findings@) =~= f2 + Seq::<FindingView>::empty());
                        } else {
                            let mut m = cat3("missing sha256 in index entry (computed: ", &actual, "). Run `jtr lint --tap ");
                            extend(&mut m, root);
                            extend(&mut m, &chars_of(" --fix` to add it."));
                            push_finding(findings, Severity::Error, &scope, &m);
                            assert(fixes_view(fixes@) =~= x0 + Seq::<FixView>::empty());
                        }
                    },
                }
            }
        },
    }
}

/// The decisions of `jtr lint --tap`: given the index version and, for each
/// entry in order, what reading its manifest produced, the findings to report
/// and (with `fix`) the checksum fixes to apply.
pub fn lint_tap_entries(index_scope: &str, version: u32, entries: &Vec<EntryInput>, fix: bool, root_display: &str) -> (out: TapLint)
    ensures
        (findings_view(out.findings@), fixes_view(out.fixes@)) == lint_tap_spec(
            index_scope@,
            version,
            entries@,
            fix,
            root_display@,
        ),
{
    let root = chars_of(root_display);
    let mut findings: Vec<Finding> = Vec::new();
    let mut fixes: Vec<ChecksumFix> = Vec::new();
    if version != 1 {
        let m = cat3("unsupported version ", &crate::text::decimal_exec(version as u64), " (jtr supports v1)");
        push_finding(&mut findings, Severity::Error, &chars_of(index_scope), &m);
    }
    let ghost head = findings_view(findings@);
    assert(fixes_view(fixes@) =~= Seq::<FixView>::empty());
    let mut i: usize = 0;
    while i < entries.len()
        invariant
            i <= entries@.len(),
            root@ == root_display@,
            ({
                let (f, x) = lint_fold(entries@, i as int, fix, root_display@);
                findings_view(findings@) == head + f && fixes_view(fixes@) == x
            }),
        decreases entries.len() - i,
    {
        let name = chars_of(entries[i].entry.name.as_str());
        let mut j: usize = 0;
        while j < i && !eq_exec(&chars_of(entries[j].entry.name.as_str()), &name)
            invariant
                j <= i < entries@.len(),
                name@ == entries@[i as int].entry.name@,
                forall|k: int| 0 <= k < j ==> (#[trigger] entries@[k]).entry.name@ != name@,
            decreases i - j,
        {
            j += 1;
        }
        let dup = j < i;
        assert(dup == seen_before(entries@, i as int));
        entry_outcome_v(&entries[i], dup, fix, &root, &mut findings, &mut fixes);
        i += 1;
    }
    TapLint { findings, fixes }
}



/// The scratch file a snippet's syntax is checked in: a justfile holding the
/// snippet, or a Taskfile whose `tasks:` map holds it indented by two spaces.
pub open spec fn scratch_file_spec(target: crate::target::Target, snippet: Seq<char>) -> Seq<char> {
    match target {
        crate::target::Target::Just => crate::managed::trim_trailing_nl(snippet) + seq!['\n'],
        crate::target::Target::Task => "version: '3'\n\ntasks:\n"@ + indent_spec(
            crate::managed::trim_trailing_nl(snippet),
            "  "@,
        ) + seq!['\n'],
    }
}

/// The text `jtr lint` writes to a scratch file before running `just` or
/// `task` on a snippet.
pub fn scratch_file(target: crate::target::Target, snippet: &str) -> (out: String)
    ensures
        out@ == scratch_file_spec(target, snippet@),
{
    let body = crate::managed::trim_trailing_nl_v(&chars_of(snippet));
    let mut out = match target {
        crate::target::Target::Just => body,
        crate::target::Target::Task => {
            let mut o = chars_of("version: '3'\n\ntasks:\n");
            extend(&mut o, &indent_v(&body, &chars_of("  ")));
            o
        },
    };
    out.push('\n');
    string_of(&out)
}


/// Whether `jtr lint` runs the target tool on a manifest target: only for
/// the `just` and `task` keys, and only when the snippet is not blank.
pub fn needs_syntax_check(key: &str, snippet: &str) -> (b: bool)
    ensures
        b == ((key@ == "just"@ || key@ == "task"@) && !is_blank(snippet@)),
{
    let k = chars_of(key);
    (eq_exec(&k, &chars_of("just")) || eq_exec(&k, &chars_of("task"))) && !is_blank_exec(&chars_of(snippet))
}


/// The manifest fields an entry's read produced, if it was read and parsed.
pub open spec fn read_manifest(r: EntryRead) -> Option<ManifestFields> {
    match r {
        EntryRead::Read { manifest, .. } => manifest,
        EntryRead::Unreadable { .. } => None,
    }
}

proof fn lemma_findings_contains_concat(a: Seq<FindingView>, b: Seq<FindingView>, x: FindingView)
    ensures
        a.contains(x) ==> (a + b).contains(x),
        b.contains(x) ==> (a + b).contains(x),
{
    if a.contains(x) {
        let j = choose|j: int| 0 <= j < a.len() && a[j] == x;
        assert((a + b)[j] == x);
    }
    if b.contains(x) {
        let j = choose|j: int| 0 <= j < b.len() && b[j] == x;
        assert((a + b)[a.len() + j] == x);
    }
}

/// Every finding of an entry is among the tap's findings.
proof fn lemma_fold_keeps_entry_findings(
    entries: Seq<EntryInput>,
    n: int,
    i: int,
    fix: bool,
    root: Seq<char>,
    x: FindingView,
)
    requires
        0 <= i < n <= entries.len(),
        entry_outcome(entries[i], seen_before(entries, i), fix, root).0.contains(x),
    ensures
        lint_fold(entries, n, fix, root).0.contains(x),
    decreases n,
{
    let (f, xs) = lint_fold(entries, n - 1, fix, root);
    let (f2, x2) = entry_outcome(entries[n - 1], seen_before(entries, n - 1), fix, root);
    assert(lint_fold(entries, n, fix, root).0 == f + f2);
    if i < n - 1 {
        lemma_fold_keeps_entry_findings(entries, n - 1, i, fix, root, x);
    }
    lemma_findings_contains_concat(f, f2, x);
}

/// The findings of an entry that is read and is neither a duplicate nor
/// absolute include every disagreement between its manifest and the index.
proof fn lemma_entry_mismatch(inp: EntryInput, fix: bool, root: Seq<char>, x: FindingView)
    requires
        !crate::target::contains_seq(inp.entry.manifest_url@, "://"@),
        read_manifest(inp.read) is Some,
        mismatch_findings(recipe_scope(inp.entry.name@), inp.entry, read_manifest(inp.read)).contains(x),
    ensures
        entry_outcome(inp, false, fix, root).0.contains(x),
{
    match inp.read {
        EntryRead::Read { findings, manifest, actual_sha } => {
            let scope = recipe_scope(inp.entry.name@);
            let (sf, sx) = sha_outcome(scope, inp.entry, actual_sha@, fix, root);
            let fv = findings_view(findings@);
            let mf = mismatch_findings(scope, inp.entry, manifest);
            assert(entry_outcome(inp, false, fix, root).0 == fv + mf + sf);
            lemma_findings_contains_concat(fv, mf, x);
            lemma_findings_contains_concat(fv + mf, sf, x);
        },
        EntryRead::Unreadable { .. } => {},
    }
}

/// `jtr lint --tap` reports a manifest whose name or version disagrees with
/// its index entry: for an entry that is read, is not a duplicate and has a
/// relative URL, the tap's findings hold an error naming both values (and a
/// warning when the descriptions differ).
pub proof fn lint_reports_name_and_version_mismatch(
    index_scope: Seq<char>,
    version: u32,
    entries: Seq<EntryInput>,
    fix: bool,
    root: Seq<char>,
    i: int,
)
    requires
        0 <= i < entries.len(),
        !seen_before(entries, i),
        !crate::target::contains_seq(entries[i].entry.manifest_url@, "://"@),
        read_manifest(entries[i].read) is Some,
    ensures
        ({
            let e = entries[i].entry;
            let m = read_manifest(entries[i].read)->0;
            let found = lint_tap_spec(index_scope, version, entries, fix, root).0;
            &&& m.name@ != e.name@ ==> found.contains(FindingView {
                scope: recipe_scope(e.name@),
                severity: Severity::Error,
                message: "manifest name '"@ + m.name@ + "' does not match index entry name '"@ + e.name@ + "'"@,
            })
            &&& m.version@ != e.version@ ==> found.contains(FindingView {
                scope: recipe_scope(e.name@),
                severity: Severity::Error,
                message: "manifest version '"@ + m.version@ + "' does not match index entry version '"@
                    + e.version@ + "'"@,
            })
            &&& m.description@ != e.description@ ==> found.contains(FindingView {
                scope: recipe_scope(e.name@),
                severity: Severity::Warning,
                message: "manifest description differs from index entry description"@,
            })
        }),
{
    let e = entries[i].entry;
    let m = read_manifest(entries[i].read)->0;
    let scope = recipe_scope(e.name@);
    let mf = mismatch_findings(scope, e, read_manifest(entries[i].read));
    let n1 = err(scope, "manifest name '"@ + m.name@ + "' does not match index entry name '"@ + e.name@ + "'"@);
    let v1 = err(
        scope,
        "manifest version '"@ + m.version@ + "' does not match index entry version '"@ + e.version@ + "'"@,
    );
    let a = opt1(m.name@ != e.name@, n1);
    let b = opt1(m.version@ != e.version@, v1);
    let c = opt1(m.description@ != e.description@, warn(scope, "manifest description differs from index entry description"@));
    assert(mf == a + b + c);
    let head = opt1(
        version != 1,
        err(index_scope, "unsupported version "@ + crate::text::decimal(version as nat) + " (jtr supports v1)"@),
    );
    let n = entries.len() as int;
    let f = lint_fold(entries, n, fix, root).0;
    assert(lint_tap_spec(index_scope, version, entries, fix, root).0 == head + f);
    if m.name@ != e.name@ {
        assert(a[0] == n1);
        lemma_findings_contains_concat(a, b, n1);
        lemma_findings_contains_concat(a + b, c, n1);
        lemma_entry_mismatch(entries[i], fix, root, n1);
        lemma_fold_keeps_entry_findings(entries, n, i, fix, root, n1);
        lemma_findings_contains_concat(head, f, n1);
    }
    if m.version@ != e.version@ {
        assert(b[0] == v1);
        lemma_findings_contains_concat(a, b, v1);
        lemma_findings_contains_concat(a + b, c, v1);
        lemma_entry_mismatch(entries[i], fix, root, v1);
        lemma_fold_keeps_entry_findings(entries, n, i, fix, root, v1);
        lemma_findings_contains_concat(head, f, v1);
    }
    if m.description@ != e.description@ {
        let w1 = warn(scope, "manifest description differs from index entry description"@);
        assert(c[0] == w1);
        lemma_findings_contains_concat(a + b, c, w1);
        lemma_entry_mismatch(entries[i], fix, root, w1);
        lemma_fold_keeps_entry_findings(entries, n, i, fix, root, w1);
        lemma_findings_contains_concat(head, f, w1);
    }
}


proof fn lemma_fixes_contains_concat(a: Seq<FixView>, b: Seq<FixView>, x: FixView)
    ensures
        a.contains(x) ==> (a + b).contains(x),
        b.contains(x) ==> (a + b).contains(x),
{
    if a.contains(x) {
        let j = choose|j: int| 0 <= j < a.len() && a[j] == x;
        assert((a + b)[j] == x);
    }
    if b.contains(x) {
        let j = choose|j: int| 0 <= j < b.len() && b[j] == x;
        assert((a + b)[a.len() + j] == x);
    }
}

/// Every fix an entry calls for is among the tap's fixes.
proof fn lemma_fold_keeps_entry_fixes(entries: Seq<EntryInput>, n: int, i: int, fix: bool, root: Seq<char>, x: FixView)
    requires
        0 <= i < n <= entries.len(),
        entry_outcome(entries[i], seen_before(entries, i), fix, root).1.contains(x),
    ensures
        lint_fold(entries, n, fix, root).1.contains(x),
    decreases n,
{
    let (f, xs) = lint_fold(entries, n - 1, fix, root);
    let (f2, x2) = entry_outcome(entries[n - 1], seen_before(entries, n - 1), fix, root);
    assert(lint_fold(entries, n, fix, root).1 == xs + x2);
    if i < n - 1 {
        lemma_fold_keeps_entry_fixes(entries, n - 1, i, fix, root, x);
    }
    lemma_fixes_contains_concat(xs, x2, x);
}

/// An entry's finding is among the tap's findings.
proof fn lemma_tap_keeps_entry_finding(
    index_scope: Seq<char>,
    version: u32,
    entries: Seq<EntryInput>,
    fix: bool,
    root: Seq<char>,
    i: int,
    x: FindingView,
)
    requires
        0 <= i < entries.len(),
        entry_outcome(entries[i], seen_before(entries, i), fix, root).0.contains(x),
    ensures
        lint_tap_spec(index_scope, version, entries, fix, root).0.contains(x),
{
    let head = opt1(
        version != 1,
        err(index_scope, "unsupported version "@ + crate::text::decimal(version as nat) + " (jtr supports v1)"@),
    );
    let n = entries.len() as int;
    let f = lint_fold(entries, n, fix, root).0;
    assert(lint_tap_spec(index_scope, version, entries, fix, root).0 == head + f);
    lemma_fold_keeps_entry_findings(entries, n, i, fix, root, x);
    lemma_findings_contains_concat(head, f, x);
}

/// The actual checksum of an entry's manifest, if it was read.
pub open spec fn read_sha(r: EntryRead) -> Option<Seq<char>> {
    match r {
        EntryRead::Read { actual_sha, .. } => Some(actual_sha@),
        EntryRead::Unreadable { .. } => None,
    }
}

/// `jtr lint --tap` never lets a bad entry pass: a second entry of a name
/// already listed is an error; a relative manifest that cannot be read is an
/// error; and a read manifest whose checksum the entry lacks or gets wrong is
/// an error without `--fix`, and with it a fix that writes the computed
/// checksum for that entry's URL (replacing the recorded value, if any).
pub proof fn lint_reports_bad_entries(
    index_scope: Seq<char>,
    version: u32,
    entries: Seq<EntryInput>,
    fix: bool,
    root: Seq<char>,
    i: int,
)
    requires
        0 <= i < entries.len(),
    ensures
        ({
            let e = entries[i].entry;
            let scope = recipe_scope(e.name@);
            let out = lint_tap_spec(index_scope, version, entries, fix, root);
            let relative = !seen_before(entries, i) && !crate::target::contains_seq(e.manifest_url@, "://"@);
            &&& seen_before(entries, i) ==> out.0.contains(
                err(scope, "duplicate entry for '"@ + e.name@ + "' in index.json"@),
            )
            &&& relative && read_sha(entries[i].read) is None ==> exists|p: int|
                0 <= p < out.0.len() && out.0[p].severity == Severity::Error && out.0[p].scope == scope
            &&& relative && read_sha(entries[i].read) is Some && crate::managed::opt_string(e.sha256) != read_sha(
                entries[i].read,
            ) ==> if fix {
                out.1.contains(
                    FixView {
                        url: e.manifest_url@,
                        old: crate::managed::opt_string(e.sha256),
                        new: read_sha(entries[i].read)->0,
                    },
                )
            } else {
                exists|p: int| 0 <= p < out.0.len() && out.0[p].severity == Severity::Error && out.0[p].scope == scope
            }
        }),
{
    let e = entries[i].entry;
    let scope = recipe_scope(e.name@);
    let dup = seen_before(entries, i);
    let oc = entry_outcome(entries[i], dup, fix, root);
    let out = lint_tap_spec(index_scope, version, entries, fix, root);
    if dup {
        let d = err(scope, "duplicate entry for '"@ + e.name@ + "' in index.json"@);
        assert(oc.0[0] == d);
        lemma_tap_keeps_entry_finding(index_scope, version, entries, fix, root, i, d);
    } else if !crate::target::contains_seq(e.manifest_url@, "://"@) {
        match entries[i].read {
            EntryRead::Unreadable { path, error } => {
                let d = err(scope, "could not read manifest at '"@ + path@ + "': "@ + error@);
                assert(oc.0[0] == d);
                lemma_tap_keeps_entry_finding(index_scope, version, entries, fix, root, i, d);
            },
            EntryRead::Read { findings, manifest, actual_sha } => {
                let actual = actual_sha@;
                let (sf, sx) = sha_outcome(scope, e, actual, fix, root);
                let fv = findings_view(findings@);
                let mf = mismatch_findings(scope, e, manifest);
                assert(oc == (fv + mf + sf, sx));
                if crate::managed::opt_string(e.sha256) != Some(actual) {
                    if fix {
                        let fx = FixView {
                            url: e.manifest_url@,
                            old: crate::managed::opt_string(e.sha256),
                            new: actual,
                        };
                        assert(sx[0] == fx);
                        lemma_fold_keeps_entry_fixes(entries, entries.len() as int, i, fix, root, fx);
                        assert(out.1 == lint_fold(entries, entries.len() as int, fix, root).1);
                    } else {
                        let d = sf[0];
                        assert(d.severity == Severity::Error && d.scope == scope);
                        lemma_findings_contains_concat(fv + mf, sf, d);
                        lemma_tap_keeps_entry_finding(index_scope, version, entries, fix, root, i, d);
                    }
                }
            },
        }
    }
}

} // verus!
