//! `jtr scaffold recipe`: the manifest skeleton and the stub index entry,
//! spliced into an `index.json` without re-serializing it.
use vstd::prelude::*;

use crate::target::{target_key, Target};
use crate::text::{chars_of, extend, find_char, find_char_from, find_sub, find_sub_exec, is_blank, is_blank_exec, slice_of, string_of, trim};

verus! {

/// How serde_json writes one character inside a JSON string.
pub open spec fn json_escape_char(c: char) -> Seq<char> {
    if c == '"' {
        seq!['\\', '"']
    } else if c == '\\' {
        seq!['\\', '\\']
    } else if c == '\u{8}' {
        seq!['\\', 'b']
    } else if c == '\t' {
        seq!['\\', 't']
    } else if c == '\n' {
        seq!['\\', 'n']
    } else if c == '\u{c}' {
        seq!['\\', 'f']
    } else if c == '\r' {
        seq!['\\', 'r']
    } else if (c as u32) < 0x20 {
        seq!['\\', 'u', '0', '0', crate::index::hex_digit((c as u32) as int / 16), crate::index::hex_digit((c as u32) as int % 16)]
    } else {
        seq![c]
    }
}

pub open spec fn json_escape(s: Seq<char>) -> Seq<char>
    decreases s.len(),
{
    if s.len() == 0 {
        seq![]
    } else {
        json_escape(s.drop_last()) + json_escape_char(s.last())
    }
}

/// A JSON string literal holding `s`.
pub open spec fn json_string_spec(s: Seq<char>) -> Seq<char> {
    seq!['"'] + json_escape(s) + seq!['"']
}

/// The JSON string literal for `s`, as `serde_json` writes a string value:
/// quoted, with `"`, `\` and control characters escaped (`\b \t \n \f \r`,
/// other controls as `\u00XX`).
fn json_string(s: &str) -> (out: String)
    ensures
        out@ == json_string_spec(s@),
{
    let cs = chars_of(s);
    let mut out: Vec<char> = Vec::new();
    out.push('"');
    assert(cs@.subrange(0, 0) =~= Seq::<char>::empty());
    let mut i: usize = 0;
    while i < cs.len()
        invariant
            i <= cs@.len(),
            cs@ == s@,
            out@ == seq!['"'] + json_escape(cs@.subrange(0, i as int)),
        decreases cs.len() - i,
    {
        let c = cs[i];
        let ghost before = out@;
        if c == '"' {
            out.push('\\');
            out.push('"');
        } else if c == '\\' {
            out.push('\\');
            out.push('\\');
        } else if c == '\u{8}' {
            out.push('\\');
            out.push('b');
        } else if c == '\t' {
            out.push('\\');
            out.push('t');
        } else if c == '\n' {
            out.push('\\');
            out.push('n');
        } else if c == '\u{c}' {
            out.push('\\');
            out.push('f');
        } else if c == '\r' {
            out.push('\\');
            out.push('r');
        } else if (c as u32) < 0x20 {
            let n: u32 = c as u32;
            out.push('\\');
            out.push('u');
            out.push('0');
            out.push('0');
            out.push(crate::index::hex_digit_exec((n / 16) as u8));
            out.push(crate::index::hex_digit_exec((n % 16) as u8));
        } else {
            out.push(c);
        }
        proof {
            assert(cs@.subrange(0, i + 1).drop_last() =~= cs@.subrange(0, i as int));
            assert(cs@.subrange(0, i + 1).last() == c);
            assert(out@ =~= before + json_escape_char(c));
        }
        i += 1;
    }
    out.push('"');
    assert(cs@.subrange(0, cs@.len() as int) =~= cs@);
    string_of(&out)
}

/// The snippet placeholder for a new recipe.
pub open spec fn skeleton_snippet(name: Seq<char>, target: Target) -> Seq<char> {
    match target {
        Target::Just => "# TODO: describe what this recipe does\n"@ + name + ":\n    @echo hello from "@ + name
            + "\n"@,
        Target::Task => name + ":\n  desc: TODO describe what this recipe does\n  cmds:\n    - echo hello from "@
            + name + "\n"@,
    }
}

/// The manifest skeleton `jtr scaffold recipe` writes.
pub open spec fn render_manifest_spec(name: Seq<char>, target: Target) -> Seq<char> {
    "{\n  \"name\": \""@ + name
        + "\",\n  \"version\": \"0.1.0\",\n  \"description\": \"TODO: one-line description\",\n  \"shells_out_to\": [],\n  \"dependencies\": [],\n  \"targets\": {\n    \""@
        + target_key(target) + "\": {\n      \"snippet\": "@ + json_string_spec(skeleton_snippet(name, target))
        + "\n    }\n  }\n}\n"@
}

fn cat(parts: &mut Vec<char>, s: &str)
    ensures
        final(parts)@ == old(parts)@ + s@,
{
    extend(parts, &chars_of(s));
}

pub fn render_manifest(name: &str, target: Target) -> (out: String)
    ensures
        out@ == render_manifest_spec(name@, target),
{
    let mut snippet: Vec<char> = Vec::new();
    match target {
        Target::Just => {
            cat(&mut snippet, "# TODO: describe what this recipe does\n");
            cat(&mut snippet, name);
            cat(&mut snippet, ":\n    @echo hello from ");
            cat(&mut snippet, name);
            cat(&mut snippet, "\n");
        },
        Target::Task => {
            cat(&mut snippet, name);
            cat(&mut snippet, ":\n  desc: TODO describe what this recipe does\n  cmds:\n    - echo hello from ");
            cat(&mut snippet, name);
            cat(&mut snippet, "\n");
        },
    }
    assert(snippet@ =~= skeleton_snippet(name@, target));
    let snippet_json = json_string(string_of(&snippet).as_str());
    let mut out: Vec<char> = Vec::new();
    cat(&mut out, "{\n  \"name\": \"");
    cat(&mut out, name);
    cat(
        &mut out,
        "\",\n  \"version\": \"0.1.0\",\n  \"description\": \"TODO: one-line description\",\n  \"shells_out_to\": [],\n  \"dependencies\": [],\n  \"targets\": {\n    \"",
    );
    cat(&mut out, target.as_str());
    cat(&mut out, "\": {\n      \"snippet\": ");
    cat(&mut out, snippet_json.as_str());
    cat(&mut out, "\n    }\n  }\n}\n");
    string_of(&out)
}

/// The stub entry appended to a tap's `index.json`.
pub open spec fn index_entry_spec(name: Seq<char>, target: Target) -> Seq<char> {
    "    {\n      \"name\": \""@ + name
        + "\",\n      \"version\": \"0.1.0\",\n      \"description\": \"TODO: one-line description\",\n      \"manifest_url\": \"recipes/"@
        + name + ".json\",\n      \"targets\": [\""@ + target_key(target) + "\"]\n    }"@
}

pub fn index_entry_block(name: &str, target: Target) -> (out: String)
    ensures
        out@ == index_entry_spec(name@, target),
{
    let mut out: Vec<char> = Vec::new();
    cat(&mut out, "    {\n      \"name\": \"");
    cat(&mut out, name);
    cat(
        &mut out,
        "\",\n      \"version\": \"0.1.0\",\n      \"description\": \"TODO: one-line description\",\n      \"manifest_url\": \"recipes/",
    );
    cat(&mut out, name);
    cat(&mut out, ".json\",\n      \"targets\": [\"");
    cat(&mut out, target.as_str());
    cat(&mut out, "\"]\n    }");
    string_of(&out)
}

// ------------------------------------------------------------------ brackets

pub struct BracketState {
    pub depth: int,
    pub in_string: bool,
    pub escape: bool,
}

pub enum BracketScan {
    Go(BracketState),
    Found(int),
}

pub open spec fn bracket_step(st: BracketState, c: char, i: int) -> BracketScan {
    if st.escape {
        BracketScan::Go(BracketState { depth: st.depth, in_string: st.in_string, escape: false })
    } else if c == '\\' && st.in_string {
        BracketScan::Go(BracketState { depth: st.depth, in_string: true, escape: true })
    } else if c == '"' {
        BracketScan::Go(BracketState { depth: st.depth, in_string: !st.in_string, escape: false })
    } else if st.in_string {
        BracketScan::Go(st)
    } else if c == '[' {
        BracketScan::Go(BracketState { depth: st.depth + 1, in_string: false, escape: false })
    } else if c == ']' {
        if st.depth - 1 == 0 {
            BracketScan::Found(i)
        } else {
            BracketScan::Go(BracketState { depth: st.depth - 1, in_string: false, escape: false })
        }
    } else {
        BracketScan::Go(st)
    }
}

/// Scan `s[from..n]`, tracking JSON strings and bracket depth.
pub open spec fn bracket_fold(s: Seq<char>, from: int, n: int) -> BracketScan
    decreases n - from,
{
    if n <= from {
        BracketScan::Go(BracketState { depth: 0, in_string: false, escape: false })
    } else {
        match bracket_fold(s, from, n - 1) {
            BracketScan::Found(i) => BracketScan::Found(i),
            BracketScan::Go(st) => bracket_step(st, s[n - 1], n - 1),
        }
    }
}

/// The `]` that brings the bracket depth (counted from `open`, outside JSON
/// strings) back to zero.
pub open spec fn matching_bracket_spec(s: Seq<char>, open: int) -> Option<int> {
    match bracket_fold(s, open, s.len() as int) {
        BracketScan::Found(i) => Some(i),
        BracketScan::Go(_) => None,
    }
}

proof fn lemma_found_persists(s: Seq<char>, from: int, n: int, m: int)
    requires
        from <= n <= m,
        bracket_fold(s, from, n) is Found,
    ensures
        bracket_fold(s, from, m) == bracket_fold(s, from, n),
    decreases m - n,
{
    if m > n {
        lemma_found_persists(s, from, n, m - 1);
    }
}

pub fn find_matching_bracket(s: &Vec<char>, open_idx: usize) -> (r: Option<usize>)
    requires
        open_idx <= s.len(),
        s.len() < 0x4000_0000_0000_0000,
    ensures
        match r {
            Some(i) => matching_bracket_spec(s@, open_idx as int) == Some(i as int) && open_idx <= i < s.len()
                && (s@[open_idx as int] == '[' ==> open_idx < i),
            None => matching_bracket_spec(s@, open_idx as int).is_none(),
        },
{
    let mut depth: i64 = 0;
    let mut in_string = false;
    let mut escape = false;
    let mut i = open_idx;
    while i < s.len()
        invariant
            open_idx <= i <= s.len() < 0x4000_0000_0000_0000,
            -(i as int) <= depth <= i,
            bracket_fold(s@, open_idx as int, i as int) == BracketScan::Go(
                BracketState { depth: depth as int, in_string, escape },
            ),
        decreases s.len() - i,
    {
        let c = s[i];
        if escape {
            escape = false;
        } else if c == '\\' && in_string {
            escape = true;
        } else if c == '"' {
            in_string = !in_string;
        } else if in_string {
        } else if c == '[' {
            depth += 1;
        } else if c == ']' {
            depth -= 1;
            if depth == 0 {
                proof {
                    lemma_found_persists(s@, open_idx as int, i + 1, s.len() as int);
                }
                return Some(i);
            }
        }
        i += 1;
    }
    None
}

/// `str::trim_end_matches` for a set of characters given by `drop`.
pub open spec fn trim_end_spaces(s: Seq<char>) -> Seq<char>
    decreases s.len(),
{
    if s.len() > 0 && (s.last() == ' ' || s.last() == '\t') {
        trim_end_spaces(s.drop_last())
    } else {
        s
    }
}

pub open spec fn trim_end_newlines(s: Seq<char>) -> Seq<char>
    decreases s.len(),
{
    if s.len() > 0 && s.last() == '\n' {
        trim_end_newlines(s.drop_last())
    } else {
        s
    }
}

/// Splice `entry` as the new last item of the `"recipes": [...]` array,
/// keeping the file's formatting; `None` when the array cannot be found.
pub open spec fn splice_spec(source: Seq<char>, entry: Seq<char>) -> Option<Seq<char>> {
    match find_sub(source, "\"recipes\":"@) {
        None => None,
        Some(rk) => {
            let rel = find_char(source.subrange(rk, source.len() as int), '[');
            if rk + rel >= source.len() {
                None
            } else {
                let ao = rk + rel;
                match matching_bracket_spec(source, ao) {
                    None => None,
                    Some(ac) => {
                        let body = source.subrange(ao + 1, ac);
                        let body_end = ao + 1 + trim_end_spaces(body).len();
                        let middle = if is_blank(body) {
                            seq!['\n'] + entry + seq!['\n'] + seq![' ', ' ']
                        } else {
                            trim_end_newlines(source.subrange(ao + 1, body_end)) + seq![',', '\n'] + entry + seq!['\n']
                                + seq![' ', ' ']
                        };
                        Some(source.subrange(0, ao + 1) + middle + source.subrange(ac, source.len() as int))
                    },
                }
            }
        },
    }
}

proof fn lemma_trim_end_spaces_prefix(s: Seq<char>)
    ensures
        trim_end_spaces(s) == s.subrange(0, trim_end_spaces(s).len() as int),
        trim_end_spaces(s).len() <= s.len(),
    decreases s.len(),
{
    if s.len() > 0 && (s.last() == ' ' || s.last() == '\t') {
        lemma_trim_end_spaces_prefix(s.drop_last());
        assert(s.drop_last().subrange(0, trim_end_spaces(s).len() as int) =~= s.subrange(0, trim_end_spaces(s).len() as int));
    } else {
        assert(s.subrange(0, s.len() as int) =~= s);
    }
}

fn trim_end_spaces_v(s: &Vec<char>) -> (out: Vec<char>)
    ensures
        out@ == trim_end_spaces(s@),
{
    let mut k = s.len();
    assert(s@.subrange(0, k as int) =~= s@);
    while k > 0 && (s[k - 1] == ' ' || s[k - 1] == '\t')
        invariant
            k <= s.len(),
            trim_end_spaces(s@) == trim_end_spaces(s@.subrange(0, k as int)),
        decreases k,
    {
        assert(s@.subrange(0, k as int).drop_last() =~= s@.subrange(0, k - 1));
        k -= 1;
    }
    slice_of(s, 0, k)
}

fn trim_end_newlines_v(s: &Vec<char>) -> (out: Vec<char>)
    ensures
        out@ == trim_end_newlines(s@),
{
    let mut k = s.len();
    assert(s@.subrange(0, k as int) =~= s@);
    while k > 0 && s[k - 1] == '\n'
        invariant
            k <= s.len(),
            trim_end_newlines(s@) == trim_end_newlines(s@.subrange(0, k as int)),
        decreases k,
    {
        assert(s@.subrange(0, k as int).drop_last() =~= s@.subrange(0, k - 1));
        k -= 1;
    }
    slice_of(s, 0, k)
}

fn splice_v(source: &Vec<char>, entry: &Vec<char>) -> (r: Option<Vec<char>>)
    requires
        source.len() < 0x4000_0000_0000_0000,
    ensures
        match r {
            Some(o) => splice_spec(source@, entry@) == Some(o@),
            None => splice_spec(source@, entry@).is_none(),
        },
{
    let rk = match find_sub_exec(source, &chars_of("\"recipes\":")) {
        Some(k) => k,
        None => {
            return None;
        },
    };
    let ao = find_char_from(source, rk, '[');
    if ao == source.len() {
        return None;
    }
    proof {
        crate::text::lemma_find_char(source@.subrange(rk as int, source.len() as int), '[');
        assert(source@[ao as int] == source@.subrange(rk as int, source.len() as int)[ao - rk]);
    }
    let ac = match find_matching_bracket(source, ao) {
        Some(c) => c,
        None => {
            return None;
        },
    };
    let body = slice_of(source, ao + 1, ac);
    let trimmed = trim_end_spaces_v(&body);
    proof {
        lemma_trim_end_spaces_prefix(body@);
    }
    let body_end = ao + 1 + trimmed.len();
    let mut out = slice_of(source, 0, ao + 1);
    if is_blank_exec(&body) {
        out.push('\n');
        extend(&mut out, entry);
        out.push('\n');
        out.push(' ');
        out.push(' ');
    } else {
        let before_close = slice_of(source, ao + 1, body_end);
        extend(&mut out, &trim_end_newlines_v(&before_close));
        out.push(',');
        out.push('\n');
        extend(&mut out, entry);
        out.push('\n');
        out.push(' ');
        out.push(' ');
    }
    extend(&mut out, &slice_of(source, ac, source.len()));
    proof {
        let middle = if is_blank(body@) {
            seq!['\n'] + entry@ + seq!['\n'] + seq![' ', ' ']
        } else {
            trim_end_newlines(source@.subrange(ao + 1, body_end as int)) + seq![',', '\n'] + entry@ + seq!['\n'] + seq![' ', ' ']
        };
        assert(out@ =~= source@.subrange(0, ao + 1) + middle + source@.subrange(ac as int, source.len() as int));
    }
    Some(out)
}

/// Splice `entry` as the new last item of the `"recipes": [...]` array,
/// preserving the file's existing formatting.
pub fn splice_into_recipes_array(source: &str, entry: &str) -> (r: Option<String>)
    ensures
        chars_len_ok(source@) ==> match r {
            Some(o) => splice_spec(source@, entry@) == Some(o@),
            None => splice_spec(source@, entry@).is_none(),
        },
{
    let s = chars_of(source);
    if s.len() as u64 >= 0x4000_0000_0000_0000u64 {
        return None;
    }
    match splice_v(&s, &chars_of(entry)) {
        Some(o) => Some(string_of(&o)),
        None => None,
    }
}

/// Texts short enough for the bracket scanner's depth counter.
pub open spec fn chars_len_ok(s: Seq<char>) -> bool {
    s.len() < 0x4000_0000_0000_0000
}

} // verus!
