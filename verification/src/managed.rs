//! Sentinel-delimited block embedded in the user's justfile/Taskfile.
//!
//! Format:
//!
//! ```text
//! # >>> jtr:<name>@<version> >>>
//! # source: <homepage_or_index>
//! # pinned: <version>                   (omitted when not pinned)
//! # depends-on: <name>, <name>          (omitted when empty)
//! # do not edit manually; use `jtr update <name>` or `jtr remove <name>`
//! <snippet>
//! # <<< jtr:<name> <<<
//! ```
//!
//! Every function here is text surgery on the user's file: the spec functions
//! state each result over the file's characters and lines.
use vstd::prelude::*;

use crate::markers::{
    k_close_head, k_close_head_exec, k_close_tail, k_close_tail_exec, k_depends_key,
    k_depends_key_exec, k_depends_line, k_depends_line_exec, k_dne_head, k_dne_head_exec,
    k_dne_key, k_dne_key_exec, k_dne_mid, k_dne_mid_exec, k_dne_tail, k_dne_tail_exec, k_list_sep,
    k_list_sep_exec, k_open_head, k_open_head_exec, k_open_tail, k_open_tail_exec,
    k_pinned_key, k_pinned_key_exec, k_pinned_line, k_pinned_line_exec, k_source_key,
    k_source_key_exec, k_source_line, k_source_line_exec, k_tasks_key, k_tasks_key_exec,
};
use crate::target::Target;
use crate::text::{
    chars_of, deep, ends_with, eq_exec, extend, find_char, lemma_ends_with_char, find_char_from, is_blank,
    is_blank_exec, join, join_exec, lemma_find_char, lines, lines_exec, matches_at, skip_ws,
    slice_of, starts_with, starts_with_exec, string_of, trim, trim_exec, trim_start,
    trim_start_exec,
};

verus! {

/// Spaces a Task managed block is indented to nest under the top-level `tasks:`
/// map. Fixed (not detected from the file): render and insertion must use the
/// *same* indent or `jtr update`'s `extract_block_text == render_block` no-op
/// check drifts and every update spuriously "refreshes".
pub const TASK_INDENT: usize = 2;

/// One installed block as `parse_all` reads it back.
pub struct ManagedBlock {
    pub name: String,
    pub version: String,
    /// Recipe text between the header lines and the close marker.
    pub body: String,
    /// Names of recipes this block declares as dependencies. Recorded inline so
    /// `jtr remove` can compute reverse-deps without hitting the network.
    pub dependencies: Vec<String>,
    /// When `Some(v)`, the user explicitly asked for this version (`jtr install
    /// foo@v`); `jtr update` then refuses to bump the block.
    pub pinned: Option<String>,
}

/// The abstract content of a [`ManagedBlock`].
pub struct BlockView {
    pub name: Seq<char>,
    pub version: Seq<char>,
    pub body: Seq<char>,
    pub dependencies: Seq<Seq<char>>,
    pub pinned: Option<Seq<char>>,
}

pub open spec fn strings(v: Seq<String>) -> Seq<Seq<char>> {
    v.map_values(|s: String| s@)
}

pub open spec fn opt_string(o: Option<String>) -> Option<Seq<char>> {
    match o {
        Some(s) => Some(s@),
        None => None,
    }
}

pub open spec fn opt_chars(o: Option<Vec<char>>) -> Option<Seq<char>> {
    match o {
        Some(s) => Some(s@),
        None => None,
    }
}

pub open spec fn opt_str(o: Option<&str>) -> Option<Seq<char>> {
    match o {
        Some(s) => Some(s@),
        None => None,
    }
}

impl View for ManagedBlock {
    type V = BlockView;

    open spec fn view(&self) -> BlockView {
        BlockView {
            name: self.name@,
            version: self.version@,
            body: self.body@,
            dependencies: strings(self.dependencies@),
            pinned: opt_string(self.pinned),
        }
    }
}

pub open spec fn blocks_view(v: Seq<ManagedBlock>) -> Seq<BlockView> {
    v.map_values(|b: ManagedBlock| b@)
}

pub open spec fn nl() -> Seq<char> {
    seq!['\n']
}

// ------------------------------------------------------------------ markers

/// `# >>> jtr:<name>@`: the open line's prefix, up to the `@` that bounds the
/// name (so `foo` does not match a `foo-bar` block).
pub open spec fn open_marker_spec(name: Seq<char>) -> Seq<char> {
    k_open_head() + name + seq!['@']
}

/// `# <<< jtr:<name> <<<`.
pub open spec fn close_marker_spec(name: Seq<char>) -> Seq<char> {
    k_close_head() + name + k_close_tail()
}

/// `# >>> jtr:<name>@<version> >>>`.
pub open spec fn open_line(name: Seq<char>, version: Seq<char>) -> Seq<char> {
    k_open_head() + name + seq!['@'] + version + k_open_tail()
}

// ------------------------------------------------------------------ render

pub open spec fn opt_line(prefix: Seq<char>, v: Option<Seq<char>>) -> Seq<char> {
    match v {
        Some(s) => prefix + s + nl(),
        None => seq![],
    }
}

pub open spec fn depends_line(deps: Seq<Seq<char>>) -> Seq<char> {
    if deps.len() == 0 {
        seq![]
    } else {
        k_depends_line() + join(deps, k_list_sep()) + nl()
    }
}

/// `# do not edit manually; use `jtr update <name>` or `jtr remove <name>``
pub open spec fn dne_line(name: Seq<char>) -> Seq<char> {
    k_dne_head() + name + k_dne_mid() + name + k_dne_tail()
}

/// `str::trim_end_matches('\n')`.
pub open spec fn trim_trailing_nl(s: Seq<char>) -> Seq<char>
    decreases s.len(),
{
    if s.len() > 0 && s.last() == '\n' {
        trim_trailing_nl(s.drop_last())
    } else {
        s
    }
}

/// The canonical column-0 block.
pub open spec fn render_spec(
    name: Seq<char>,
    version: Seq<char>,
    source: Option<Seq<char>>,
    pinned: Option<Seq<char>>,
    deps: Seq<Seq<char>>,
    snippet: Seq<char>,
) -> Seq<char> {
    open_line(name, version) + nl() + opt_line(k_source_line(), source) + opt_line(
        k_pinned_line(),
        pinned,
    ) + depends_line(deps) + dne_line(name) + nl() + trim_trailing_nl(snippet) + nl()
        + close_marker_spec(name) + nl()
}

pub open spec fn pad(n: nat) -> Seq<char> {
    Seq::new(n, |i: int| ' ')
}

/// One line of an indented block: blank lines stay empty.
pub open spec fn indent_line(l: Seq<char>, n: nat) -> Seq<char> {
    if is_blank(l) {
        seq![]
    } else {
        pad(n) + l
    }
}

/// Indent every non-blank line by `n` spaces; blank lines become empty, and a
/// final line ending is kept.
pub open spec fn indent_block_spec(text: Seq<char>, n: nat) -> Seq<char> {
    let j = join(lines(text).map_values(|l: Seq<char>| indent_line(l, n)), nl());
    if ends_with(text, nl()) {
        j + nl()
    } else {
        j
    }
}

/// The block as it is written for `target`: column 0 for Just, nested under
/// `tasks:` by [`TASK_INDENT`] spaces for Task.
pub open spec fn render_block_spec(
    target: Target,
    name: Seq<char>,
    version: Seq<char>,
    source: Option<Seq<char>>,
    pinned: Option<Seq<char>>,
    deps: Seq<Seq<char>>,
    snippet: Seq<char>,
) -> Seq<char> {
    let block = render_spec(name, version, source, pinned, deps, snippet);
    match target {
        Target::Just => block,
        Target::Task => indent_block_spec(block, TASK_INDENT as nat),
    }
}

// ------------------------------------------------------------------ parse

/// `# >>> jtr:<name>@<version> >>>` (after leading whitespace), with a
/// non-empty name before the first `@` and a non-empty version after it.
pub open spec fn parse_open_spec(line: Seq<char>) -> Option<(Seq<char>, Seq<char>)> {
    let t = trim_start(line);
    let h = k_open_head().len();
    let tl = k_open_tail().len();
    if starts_with(t, k_open_head()) && t.len() >= h + tl && ends_with(
        t.subrange(h as int, t.len() as int),
        k_open_tail(),
    ) {
        let inner = t.subrange(h as int, t.len() - tl);
        let k = find_char(inner, '@');
        if k < inner.len() && k > 0 && k + 1 < inner.len() {
            Some((inner.subrange(0, k), inner.subrange(k + 1, inner.len() as int)))
        } else {
            None
        }
    } else {
        None
    }
}

/// Index of the first line whose trimmed text is `target`, or `ls.len()`.
pub open spec fn find_line(ls: Seq<Seq<char>>, target: Seq<char>) -> int
    decreases ls.len(),
{
    if ls.len() == 0 {
        0
    } else if trim(ls[0]) == target {
        0
    } else {
        1 + find_line(ls.drop_first(), target)
    }
}

/// A line (after leading whitespace) that the block header may contain.
pub open spec fn is_header_line(t: Seq<char>) -> bool {
    ||| t.len() == 0
    ||| starts_with(t, k_source_key())
    ||| starts_with(t, k_pinned_key())
    ||| starts_with(t, k_depends_key())
    ||| starts_with(t, k_dne_key())
}

/// A header line that the body text leaves out.
pub open spec fn is_written_header(t: Seq<char>) -> bool {
    ||| starts_with(t, k_source_key())
    ||| starts_with(t, k_pinned_key())
    ||| starts_with(t, k_depends_key())
    ||| starts_with(t, k_dne_key())
}

/// The block's lines without the leading header lines that jtr wrote.
pub open spec fn strip_header_spec(ls: Seq<Seq<char>>) -> Seq<Seq<char>>
    decreases ls.len(),
{
    if ls.len() > 0 && is_written_header(trim_start(ls[0])) {
        strip_header_spec(ls.drop_first())
    } else {
        ls
    }
}

/// `s.split(',')`, each piece trimmed, empty pieces dropped.
pub open spec fn split_list(s: Seq<char>) -> Seq<Seq<char>>
    decreases s.len(),
{
    let k = find_char(s, ',');
    let piece = trim(s.subrange(0, k));
    let tail = if 0 <= k < s.len() {
        split_list(s.subrange(k + 1, s.len() as int))
    } else {
        seq![]
    };
    if piece.len() > 0 {
        seq![piece] + tail
    } else {
        tail
    }
}

/// The `# depends-on:` list among the leading header lines, if any.
pub open spec fn parse_dependencies_spec(ls: Seq<Seq<char>>) -> Seq<Seq<char>>
    decreases ls.len(),
{
    if ls.len() == 0 {
        seq![]
    } else {
        let t = trim_start(ls[0]);
        if starts_with(t, k_depends_key()) {
            split_list(t.subrange(k_depends_key().len() as int, t.len() as int))
        } else if is_header_line(t) {
            parse_dependencies_spec(ls.drop_first())
        } else {
            seq![]
        }
    }
}

/// The `# pinned:` value among the leading header lines, if any and non-empty.
pub open spec fn parse_pinned_spec(ls: Seq<Seq<char>>) -> Option<Seq<char>>
    decreases ls.len(),
{
    if ls.len() == 0 {
        None
    } else {
        let t = trim_start(ls[0]);
        if starts_with(t, k_pinned_key()) {
            let v = trim(t.subrange(k_pinned_key().len() as int, t.len() as int));
            if v.len() == 0 {
                None
            } else {
                Some(v)
            }
        } else if is_header_line(t) {
            parse_pinned_spec(ls.drop_first())
        } else {
            None
        }
    }
}

pub open spec fn make_block(
    name: Seq<char>,
    version: Seq<char>,
    body_lines: Seq<Seq<char>>,
) -> BlockView {
    BlockView {
        name,
        version,
        body: join(strip_header_spec(body_lines), nl()),
        dependencies: parse_dependencies_spec(body_lines),
        pinned: parse_pinned_spec(body_lines),
    }
}

/// Scan lines for open markers; each one closed by its own close marker is a
/// block. An open marker with no close ends the scan.
pub open spec fn parse_blocks(ls: Seq<Seq<char>>) -> Seq<BlockView>
    decreases ls.len(),
{
    if ls.len() == 0 {
        seq![]
    } else {
        match parse_open_spec(ls[0]) {
            None => parse_blocks(ls.drop_first()),
            Some((name, version)) => {
                let rest = ls.drop_first();
                let j = find_line(rest, close_marker_spec(name));
                if 0 <= j < rest.len() {
                    seq![make_block(name, version, rest.subrange(0, j))] + parse_blocks(
                        rest.subrange(j + 1, rest.len() as int),
                    )
                } else {
                    seq![]
                }
            },
        }
    }
}

pub open spec fn parse_all_spec(doc: Seq<char>) -> Seq<BlockView> {
    parse_blocks(lines(doc))
}

// ------------------------------------------------------------------ remove

/// The scan that drops a block's lines: `out` holds the kept lines, `seam`
/// the position in `out` where the last dropped block stood.
pub struct StripState {
    pub out: Seq<Seq<char>>,
    pub in_block: bool,
    pub removed: bool,
    pub seam: Option<int>,
}

pub open spec fn strip_step(st: StripState, line: Seq<char>, open: Seq<char>, close: Seq<char>) -> StripState {
    if !st.in_block && starts_with(trim_start(line), open) {
        StripState { out: st.out, in_block: true, removed: true, seam: Some(st.out.len() as int) }
    } else if st.in_block {
        StripState { out: st.out, in_block: trim(line) != close, removed: st.removed, seam: st.seam }
    } else {
        StripState { out: st.out.push(line), in_block: false, removed: st.removed, seam: st.seam }
    }
}

/// Drop every region from a line starting (after indentation) with `open` up
/// to and including the next line whose trimmed text is `close`; an open with
/// no close drops the rest of the text.
pub open spec fn strip_fold(ls: Seq<Seq<char>>, open: Seq<char>, close: Seq<char>) -> StripState
    decreases ls.len(),
{
    if ls.len() == 0 {
        StripState { out: seq![], in_block: false, removed: false, seam: None }
    } else {
        strip_step(strip_fold(ls.drop_last(), open, close), ls.last(), open, close)
    }
}

pub open spec fn strip_block(ls: Seq<Seq<char>>, name: Seq<char>) -> StripState {
    strip_fold(ls, open_marker_spec(name), close_marker_spec(name))
}

/// Collapse every run of blank lines to one.
pub open spec fn collapse_blanks(ls: Seq<Seq<char>>) -> Seq<Seq<char>>
    decreases ls.len(),
{
    if ls.len() == 0 {
        seq![]
    } else {
        let c = collapse_blanks(ls.drop_last());
        if is_blank(ls.last()) && c.len() > 0 && is_blank(c.last()) {
            c
        } else {
            c.push(ls.last())
        }
    }
}

/// Drop trailing blank lines.
pub open spec fn drop_trailing_blanks(ls: Seq<Seq<char>>) -> Seq<Seq<char>>
    decreases ls.len(),
{
    if ls.len() > 0 && is_blank(ls.last()) {
        drop_trailing_blanks(ls.drop_last())
    } else {
        ls
    }
}

/// Re-add the document's final line ending to a non-empty result.
pub open spec fn finish_nl(joined: Seq<char>, doc: Seq<char>) -> Seq<char> {
    if joined.len() > 0 && ends_with(doc, nl()) && !ends_with(joined, nl()) {
        joined + nl()
    } else {
        joined
    }
}

/// If the dropped block sat between two blank lines, keep only one of them.
pub open spec fn mend_seam(out: Seq<Seq<char>>, seam: Option<int>) -> Seq<Seq<char>> {
    match seam {
        Some(i) => if 0 < i < out.len() && is_blank(out[i - 1]) && is_blank(out[i]) {
            out.remove(i)
        } else {
            out
        },
        None => out,
    }
}

/// Justfile removal: drop the block, collapse blank runs, strip trailing blanks.
pub open spec fn remove_just_spec(doc: Seq<char>, name: Seq<char>) -> (Seq<char>, bool) {
    let st = strip_block(lines(doc), name);
    (finish_nl(join(drop_trailing_blanks(collapse_blanks(st.out)), nl()), doc), st.removed)
}

/// Taskfile removal: drop the block, mend only the removal seam (blank lines
/// inside YAML block scalars elsewhere are significant), strip trailing blanks.
pub open spec fn remove_task_spec(doc: Seq<char>, name: Seq<char>) -> (Seq<char>, bool) {
    let st = strip_block(lines(doc), name);
    (finish_nl(join(drop_trailing_blanks(mend_seam(st.out, st.seam)), nl()), doc), st.removed)
}

pub open spec fn remove_spec(target: Target, doc: Seq<char>, name: Seq<char>) -> (Seq<char>, bool) {
    match target {
        Target::Just => remove_just_spec(doc, name),
        Target::Task => remove_task_spec(doc, name),
    }
}

// ------------------------------------------------------------------ insert

/// Append a rendered block, separated from prior content by a blank line.
pub open spec fn append_spec(doc: Seq<char>, rendered: Seq<char>) -> Seq<char> {
    if doc.len() == 0 {
        rendered
    } else {
        let o1 = if !ends_with(doc, nl()) {
            doc + nl()
        } else {
            doc
        };
        let o2 = if !ends_with(doc, seq!['\n', '\n']) {
            o1 + nl()
        } else {
            o1
        };
        o2 + rendered
    }
}

pub open spec fn starts_with_space(line: Seq<char>) -> bool {
    line.len() > 0 && (line[0] == ' ' || line[0] == '\t')
}

/// A column-0 `tasks:` line with nothing after it but whitespace or a comment.
pub open spec fn is_tasks_key_spec(line: Seq<char>) -> bool {
    &&& !starts_with_space(line)
    &&& starts_with(line, k_tasks_key())
    &&& {
        let rest = trim_start(line.subrange(k_tasks_key().len() as int, line.len() as int));
        rest.len() == 0 || rest[0] == '#'
    }
}

/// Index of the first line that is the `tasks:` key, or `ls.len()`.
pub open spec fn find_tasks_key(ls: Seq<Seq<char>>) -> int
    decreases ls.len(),
{
    if ls.len() == 0 {
        0
    } else if is_tasks_key_spec(ls[0]) {
        0
    } else {
        1 + find_tasks_key(ls.drop_first())
    }
}

/// Index of the first column-0 non-blank line in `ls`, or `ls.len()`.
pub open spec fn find_top_level(ls: Seq<Seq<char>>) -> int
    decreases ls.len(),
{
    if ls.len() == 0 {
        0
    } else if !is_blank(ls[0]) && !starts_with_space(ls[0]) {
        0
    } else {
        1 + find_top_level(ls.drop_first())
    }
}

/// Splice an already-indented block at the end of the top-level `tasks:` map
/// (the map runs to the next column-0 line), or create the map at the end.
pub open spec fn insert_into_tasks_spec(doc: Seq<char>, block: Seq<char>) -> Seq<char> {
    let ls = lines(doc);
    let ti = find_tasks_key(ls);
    if ti >= ls.len() {
        let o1 = if doc.len() > 0 && !ends_with(doc, nl()) {
            doc + nl()
        } else {
            doc
        };
        let o2 = if o1.len() > 0 && !ends_with(o1, seq!['\n', '\n']) {
            o1 + nl()
        } else {
            o1
        };
        o2 + k_tasks_key() + nl() + block
    } else {
        let end = ti + 1 + find_top_level(ls.subrange(ti + 1, ls.len() as int));
        let head = drop_trailing_blanks(ls.subrange(0, end));
        let tail = ls.subrange(end, ls.len() as int);
        let sep: Seq<Seq<char>> = if head.len() <= ti + 1 {
            seq![]
        } else {
            seq![seq![]]
        };
        let after: Seq<Seq<char>> = if tail.len() > 0 {
            seq![seq![]] + tail
        } else {
            seq![]
        };
        join(head + sep + lines(block) + after, nl()) + nl()
    }
}

pub open spec fn merge_spec(target: Target, doc: Seq<char>, name: Seq<char>, rendered: Seq<char>) -> Seq<char> {
    let without = remove_spec(target, doc, name).0;
    match target {
        Target::Just => append_spec(without, rendered),
        Target::Task => insert_into_tasks_spec(without, rendered),
    }
}

/// How many blocks carry `name`.
pub open spec fn count_named(bs: Seq<BlockView>, name: Seq<char>) -> nat
    decreases bs.len(),
{
    if bs.len() == 0 {
        0
    } else {
        count_named(bs.drop_last(), name) + if bs.last().name == name {
            1nat
        } else {
            0nat
        }
    }
}

/// The on-disk text of `name`'s block, open line through close line, each
/// line ending in `\n`; empty when there is no such block.
pub open spec fn extract_spec(doc: Seq<char>, name: Seq<char>) -> Seq<char> {
    let ls = lines(doc);
    let start = find_open(ls, open_marker_spec(name));
    if start >= ls.len() {
        seq![]
    } else {
        let rel = find_line(ls.subrange(start, ls.len() as int), close_marker_spec(name));
        if start + rel >= ls.len() {
            seq![]
        } else {
            join(ls.subrange(start, start + rel + 1), nl()) + nl()
        }
    }
}

/// Index of the first line starting (after indentation) with `open`.
pub open spec fn find_open(ls: Seq<Seq<char>>, open: Seq<char>) -> int
    decreases ls.len(),
{
    if ls.len() == 0 {
        0
    } else if starts_with(trim_start(ls[0]), open) {
        0
    } else {
        1 + find_open(ls.drop_first(), open)
    }
}

#[derive(Debug, PartialEq, Eq)]
pub struct UpsertError {
    /// The block that was written.
    pub name: String,
    /// How many blocks with that name the result holds.
    pub found: usize,
}

// ------------------------------------------------------------------ names

pub open spec fn is_name_char(c: char) -> bool {
    ||| ('a' <= c && c <= 'z')
    ||| ('A' <= c && c <= 'Z')
    ||| ('0' <= c && c <= '9')
    ||| c == '-'
    ||| c == '_'
    ||| c == '/'
}

/// A recipe name: non-empty, ASCII letters, digits, `-`, `_` and `/` only.
pub open spec fn valid_name(name: Seq<char>) -> bool {
    name.len() > 0 && forall|i: int| 0 <= i < name.len() ==> is_name_char(#[trigger] name[i])
}

#[derive(Debug, Clone, Copy, PartialEq, Eq, Structural)]
pub enum NameError {
    /// `recipe name cannot be empty`
    Empty,
    /// `invalid recipe name '<name>': only [a-z0-9_/-] allowed`
    InvalidChars,
}

// ================================================================== exec

pub fn open_marker_v(name: &Vec<char>) -> (m: Vec<char>)
    ensures
        m@ == open_marker_spec(name@),
{
    let mut m = k_open_head_exec();
    extend(&mut m, name);
    m.push('@');
    m
}

pub fn close_marker_v(name: &Vec<char>) -> (m: Vec<char>)
    ensures
        m@ == close_marker_spec(name@),
{
    let mut m = k_close_head_exec();
    extend(&mut m, name);
    extend(&mut m, &k_close_tail_exec());
    m
}

pub fn open_marker(name: &str) -> (m: String)
    ensures
        m@ == open_marker_spec(name@),
{
    string_of(&open_marker_v(&chars_of(name)))
}

pub fn close_marker(name: &str) -> (m: String)
    ensures
        m@ == close_marker_spec(name@),
{
    string_of(&close_marker_v(&chars_of(name)))
}

pub(crate) fn trim_trailing_nl_v(s: &Vec<char>) -> (out: Vec<char>)
    ensures
        out@ == trim_trailing_nl(s@),
{
    let mut k = s.len();
    assert(s@.subrange(0, k as int) =~= s@);
    while k > 0 && s[k - 1] == '\n'
        invariant
            k <= s.len(),
            trim_trailing_nl(s@) == trim_trailing_nl(s@.subrange(0, k as int)),
        decreases k,
    {
        assert(s@.subrange(0, k as int).drop_last() =~= s@.subrange(0, k - 1));
        k -= 1;
    }
    assert(s@.subrange(0, 0) =~= Seq::<char>::empty());
    slice_of(s, 0, k)
}

pub fn render_v(
    name: &Vec<char>,
    version: &Vec<char>,
    source: &Option<Vec<char>>,
    pinned: &Option<Vec<char>>,
    deps: &Vec<Vec<char>>,
    snippet: &Vec<char>,
) -> (out: Vec<char>)
    ensures
        out@ == render_spec(
            name@,
            version@,
            opt_chars(*source),
            opt_chars(*pinned),
            deep(deps@),
            snippet@,
        ),
{
    let ghost src = opt_chars(*source);
    let ghost pin = opt_chars(*pinned);
    let ghost ds = deep(deps@);
    let mut out = k_open_head_exec();
    extend(&mut out, name);
    out.push('@');
    extend(&mut out, version);
    extend(&mut out, &k_open_tail_exec());
    out.push('\n');
    let ghost g1 = open_line(name@, version@) + nl();
    assert(out@ =~= g1);
    match source {
        Some(s) => {
            extend(&mut out, &k_source_line_exec());
            extend(&mut out, s);
            out.push('\n');
        },
        None => {},
    }
    let ghost g2 = g1 + opt_line(k_source_line(), src);
    assert(out@ =~= g2);
    match pinned {
        Some(p) => {
            extend(&mut out, &k_pinned_line_exec());
            extend(&mut out, p);
            out.push('\n');
        },
        None => {},
    }
    let ghost g3 = g2 + opt_line(k_pinned_line(), pin);
    assert(out@ =~= g3);
    if deps.len() > 0 {
        extend(&mut out, &k_depends_line_exec());
        extend(&mut out, &join_exec(deps, &k_list_sep_exec()));
        out.push('\n');
    }
    let ghost g4 = g3 + depends_line(ds);
    assert(out@ =~= g4);
    extend(&mut out, &k_dne_head_exec());
    extend(&mut out, name);
    extend(&mut out, &k_dne_mid_exec());
    extend(&mut out, name);
    extend(&mut out, &k_dne_tail_exec());
    out.push('\n');
    let ghost g5 = g4 + dne_line(name@) + nl();
    assert(out@ =~= g5);
    extend(&mut out, &trim_trailing_nl_v(snippet));
    out.push('\n');
    extend(&mut out, &close_marker_v(name));
    out.push('\n');
    assert(out@ =~= render_spec(
        name@,
        version@,
        opt_chars(*source),
        opt_chars(*pinned),
        deep(deps@),
        snippet@,
    ));
    out
}

pub fn opt_chars_of(o: Option<&str>) -> (out: Option<Vec<char>>)
    ensures
        opt_chars(out) == opt_str(o),
{
    match o {
        Some(s) => Some(chars_of(s)),
        None => None,
    }
}

pub fn chars_list(v: &[String]) -> (out: Vec<Vec<char>>)
    ensures
        deep(out@) == strings(v@),
{
    let mut out: Vec<Vec<char>> = Vec::new();
    let mut i: usize = 0;
    while i < v.len()
        invariant
            i <= v.len(),
            deep(out@) == strings(v@).subrange(0, i as int),
        decreases v.len() - i,
    {
        let ghost before = out@;
        out.push(chars_of(v[i].as_str()));
        assert(deep(out@) =~= deep(before).push(v@[i as int]@));
        i += 1;
        assert(deep(out@) =~= strings(v@).subrange(0, i as int));
    }
    assert(strings(v@).subrange(0, v.len() as int) =~= strings(v@));
    out
}

/// The managed block for `name@version`, with the optional source, pin and
/// dependency header lines, around the snippet (trailing newlines trimmed).
pub fn render(
    name: &str,
    version: &str,
    source: Option<&str>,
    pinned: Option<&str>,
    dependencies: &[String],
    snippet: &str,
) -> (out: String)
    ensures
        out@ == render_spec(
            name@,
            version@,
            opt_str(source),
            opt_str(pinned),
            strings(dependencies@),
            snippet@,
        ),
{
    let r = render_v(
        &chars_of(name),
        &chars_of(version),
        &opt_chars_of(source),
        &opt_chars_of(pinned),
        &chars_list(dependencies),
        &chars_of(snippet),
    );
    string_of(&r)
}

/// Indent every non-blank line by `n` spaces.
pub fn indent_block_v(text: &Vec<char>, n: usize) -> (out: Vec<char>)
    ensures
        out@ == indent_block_spec(text@, n as nat),
{
    let ls = lines_exec(text);
    let mut shifted: Vec<Vec<char>> = Vec::new();
    let mut i: usize = 0;
    while i < ls.len()
        invariant
            i <= ls.len(),
            deep(shifted@) == deep(ls@).subrange(0, i as int).map_values(
                |l: Seq<char>| indent_line(l, n as nat),
            ),
        decreases ls.len() - i,
    {
        let mut line: Vec<char> = Vec::new();
        if !is_blank_exec(&ls[i]) {
            let mut k: usize = 0;
            while k < n
                invariant
                    k <= n,
                    line@ == pad(k as nat),
                decreases n - k,
            {
                line.push(' ');
                k += 1;
                assert(line@ =~= pad(k as nat));
            }
            extend(&mut line, &ls[i]);
        } else {
            assert(line@ =~= Seq::<char>::empty());
        }
        let ghost before = shifted@;
        shifted.push(line);
        i += 1;
        assert(deep(shifted@) =~= deep(ls@).subrange(0, i as int).map_values(
            |l: Seq<char>| indent_line(l, n as nat),
        )) by {
            assert(deep(shifted@) =~= deep(before).push(line@));
        }
    }
    assert(deep(ls@).subrange(0, ls.len() as int) =~= deep(ls@));
    assert(deep(shifted@) == lines(text@).map_values(|l: Seq<char>| indent_line(l, n as nat)));
    let sep = vec!['\n'];
    assert(sep@ =~= nl());
    let mut out = join_exec(&shifted, &sep);
    let len = text.len();
    if len > 0 && text[len - 1] == '\n' {
        out.push('\n');
    }
    proof {
        lemma_ends_with_char(text@, '\n');
    }
    out
}

pub fn render_block_v(
    target: Target,
    name: &Vec<char>,
    version: &Vec<char>,
    source: &Option<Vec<char>>,
    pinned: &Option<Vec<char>>,
    deps: &Vec<Vec<char>>,
    snippet: &Vec<char>,
) -> (out: Vec<char>)
    ensures
        out@ == render_block_spec(
            target,
            name@,
            version@,
            opt_chars(*source),
            opt_chars(*pinned),
            deep(deps@),
            snippet@,
        ),
{
    let block = render_v(name, version, source, pinned, deps, snippet);
    match target {
        Target::Just => block,
        Target::Task => indent_block_v(&block, TASK_INDENT),
    }
}

/// Render the managed block in the form appropriate for `target`: the
/// canonical column-0 block for Just, the same block indented by
/// [`TASK_INDENT`] for Task. Both the on-disk block and any re-render must
/// equal this, so update/diff no-op detection stays byte-exact.
pub fn render_block(
    target: Target,
    name: &str,
    version: &str,
    source: Option<&str>,
    pinned: Option<&str>,
    dependencies: &[String],
    snippet: &str,
) -> (out: String)
    ensures
        out@ == render_block_spec(
            target,
            name@,
            version@,
            opt_str(source),
            opt_str(pinned),
            strings(dependencies@),
            snippet@,
        ),
{
    let r = render_block_v(
        target,
        &chars_of(name),
        &chars_of(version),
        &opt_chars_of(source),
        &opt_chars_of(pinned),
        &chars_list(dependencies),
        &chars_of(snippet),
    );
    string_of(&r)
}

pub fn is_name_char_exec(c: char) -> (b: bool)
    ensures
        b == is_name_char(c),
{
    ('a' <= c && c <= 'z') || ('A' <= c && c <= 'Z') || ('0' <= c && c <= '9') || c == '-' || c
        == '_' || c == '/'
}

/// Confirm a string looks like a valid recipe name.
pub fn validate_name(name: &str) -> (r: Result<(), NameError>)
    ensures
        r == (if name@.len() == 0 {
            Err(NameError::Empty)
        } else if !valid_name(name@) {
            Err(NameError::InvalidChars)
        } else {
            Ok(())
        }),
{
    let v = chars_of(name);
    if v.len() == 0 {
        return Err(NameError::Empty);
    }
    let mut i: usize = 0;
    while i < v.len()
        invariant
            i <= v.len(),
            v@ == name@,
            forall|j: int| 0 <= j < i ==> is_name_char(#[trigger] v@[j]),
        decreases v.len() - i,
    {
        if !is_name_char_exec(v[i]) {
            return Err(NameError::InvalidChars);
        }
        i += 1;
    }
    Ok(())
}

pub open spec fn opt_pair(r: Option<(Vec<char>, Vec<char>)>) -> Option<(Seq<char>, Seq<char>)> {
    match r {
        Some((a, b)) => Some((a@, b@)),
        None => None,
    }
}

fn parse_open_v(line: &Vec<char>) -> (r: Option<(Vec<char>, Vec<char>)>)
    ensures
        opt_pair(r) == parse_open_spec(line@),
{
    let t = trim_start_exec(line);
    let head = k_open_head_exec();
    let tail = k_open_tail_exec();
    let h = head.len();
    let tl = tail.len();
    if !starts_with_exec(&t, &head) || t.len() < h + tl {
        return None;
    }
    let ok_tail = matches_at(&t, t.len() - tl, &tail);
    proof {
        let len = t@.len() as int;
        assert(t@.subrange(len - tl, len).subrange(0, tl as int) =~= t@.subrange(
            h as int,
            len,
        ).subrange(len - h - tl, len - h));
    }
    if !ok_tail {
        return None;
    }
    let inner = slice_of(&t, h, t.len() - tl);
    let k = find_char_from(&inner, 0, '@');
    assert(inner@.subrange(0, inner@.len() as int) =~= inner@);
    if k < inner.len() && k > 0 && k + 1 < inner.len() {
        Some((slice_of(&inner, 0, k), slice_of(&inner, k + 1, inner.len())))
    } else {
        None
    }
}

pub proof fn lemma_find_line_at(ls: Seq<Seq<char>>, target: Seq<char>, k: int)
    requires
        0 <= k <= ls.len(),
        forall|j: int| 0 <= j < k ==> trim(#[trigger] ls[j]) != target,
        k < ls.len() ==> trim(ls[k]) == target,
    ensures
        find_line(ls, target) == k,
    decreases ls.len(),
{
    if ls.len() > 0 && trim(ls[0]) != target {
        assert forall|j: int| 0 <= j < k - 1 implies trim(#[trigger] ls.drop_first()[j]) != target by {
            assert(ls.drop_first()[j] == ls[j + 1]);
        }
        lemma_find_line_at(ls.drop_first(), target, k - 1);
    }
}

/// Index (from `from`) of the first line whose trimmed text is `target`.
fn find_line_v(ls: &Vec<Vec<char>>, from: usize, target: &Vec<char>) -> (k: usize)
    requires
        from <= ls.len(),
    ensures
        from <= k <= ls.len(),
        k - from == find_line(deep(ls@).subrange(from as int, ls.len() as int), target@),
{
    let mut k = from;
    while k < ls.len() && !eq_exec(&trim_exec(&ls[k]), target)
        invariant
            from <= k <= ls.len(),
            forall|j: int| from <= j < k ==> trim(#[trigger] deep(ls@)[j]) != target@,
        decreases ls.len() - k,
    {
        k += 1;
    }
    proof {
        let r = deep(ls@).subrange(from as int, ls.len() as int);
        assert forall|j: int| 0 <= j < k - from implies trim(#[trigger] r[j]) != target@ by {
            assert(r[j] == deep(ls@)[from + j]);
        }
        if k < ls.len() {
            assert(r[k - from] == deep(ls@)[k as int]);
        }
        lemma_find_line_at(r, target@, k - from);
    }
    k
}

fn is_written_header_v(t: &Vec<char>) -> (b: bool)
    ensures
        b == is_written_header(t@),
{
    starts_with_exec(t, &k_source_key_exec()) || starts_with_exec(t, &k_pinned_key_exec())
        || starts_with_exec(t, &k_depends_key_exec()) || starts_with_exec(t, &k_dne_key_exec())
}

fn is_header_line_v(t: &Vec<char>) -> (b: bool)
    ensures
        b == is_header_line(t@),
{
    t.len() == 0 || is_written_header_v(t)
}

pub proof fn lemma_strip_header_at(ls: Seq<Seq<char>>, k: int)
    requires
        0 <= k <= ls.len(),
        forall|j: int| 0 <= j < k ==> is_written_header(trim_start(#[trigger] ls[j])),
        k < ls.len() ==> !is_written_header(trim_start(ls[k])),
    ensures
        strip_header_spec(ls) == ls.subrange(k, ls.len() as int),
    decreases k,
{
    if k == 0 {
        assert(ls.subrange(0, ls.len() as int) =~= ls);
    } else {
        assert(is_written_header(trim_start(ls[0])));
        assert forall|j: int| 0 <= j < k - 1 implies is_written_header(
            trim_start(#[trigger] ls.drop_first()[j]),
        ) by {
            assert(ls.drop_first()[j] == ls[j + 1]);
        }
        lemma_strip_header_at(ls.drop_first(), k - 1);
        assert(ls.drop_first().subrange(k - 1, ls.drop_first().len() as int) =~= ls.subrange(
            k,
            ls.len() as int,
        ));
    }
}

fn slice_lines(ls: &Vec<Vec<char>>, from: usize, to: usize) -> (out: Vec<Vec<char>>)
    requires
        from <= to <= ls.len(),
    ensures
        deep(out@) == deep(ls@).subrange(from as int, to as int),
{
    let mut out: Vec<Vec<char>> = Vec::new();
    let mut i = from;
    while i < to
        invariant
            from <= i <= to <= ls.len(),
            deep(out@) == deep(ls@).subrange(from as int, i as int),
        decreases to - i,
    {
        let ghost before = out@;
        out.push(ls[i].clone());
        i += 1;
        assert(deep(out@) =~= deep(ls@).subrange(from as int, i as int)) by {
            assert(deep(out@) =~= deep(before).push(ls@[i - 1]@));
        }
    }
    out
}

fn strip_header_v(ls: &Vec<Vec<char>>) -> (out: Vec<Vec<char>>)
    ensures
        deep(out@) == strip_header_spec(deep(ls@)),
{
    let mut k: usize = 0;
    while k < ls.len() && is_written_header_v(&trim_start_exec(&ls[k]))
        invariant
            k <= ls.len(),
            forall|j: int| 0 <= j < k ==> is_written_header(trim_start(#[trigger] deep(ls@)[j])),
        decreases ls.len() - k,
    {
        k += 1;
    }
    proof {
        lemma_strip_header_at(deep(ls@), k as int);
    }
    slice_lines(ls, k, ls.len())
}

fn split_list_v(s: &Vec<char>) -> (out: Vec<Vec<char>>)
    ensures
        deep(out@) == split_list(s@),
{
    let mut out: Vec<Vec<char>> = Vec::new();
    let mut p: usize = 0;
    assert(s@.subrange(0, s.len() as int) =~= s@);
    loop
        invariant
            p <= s.len(),
            deep(out@) + split_list(s@.subrange(p as int, s.len() as int)) == split_list(s@),
        decreases s.len() - p,
    {
        let ghost rest = s@.subrange(p as int, s.len() as int);
        let k = find_char_from(s, p, ',');
        proof {
            lemma_find_char(rest, ',');
        }
        let piece = trim_exec(&slice_of(s, p, k));
        assert(rest.subrange(0, k - p) =~= s@.subrange(p as int, k as int));
        let ghost before = out@;
        if piece.len() > 0 {
            out.push(piece);
        }
        if k < s.len() {
            assert(rest.subrange(k - p + 1, rest.len() as int) =~= s@.subrange(
                k + 1,
                s.len() as int,
            ));
            assert(deep(out@) + split_list(s@.subrange(k + 1, s.len() as int)) =~= deep(before)
                + split_list(rest));
            p = k + 1;
        } else {
            assert(deep(out@) =~= deep(before) + split_list(rest));
            assert(deep(out@) =~= split_list(s@));
            return out;
        }
    }
}

fn parse_dependencies_v(ls: &Vec<Vec<char>>) -> (out: Vec<Vec<char>>)
    ensures
        deep(out@) == parse_dependencies_spec(deep(ls@)),
{
    let mut i: usize = 0;
    assert(deep(ls@).subrange(0, ls.len() as int) =~= deep(ls@));
    while i < ls.len()
        invariant
            i <= ls.len(),
            parse_dependencies_spec(deep(ls@).subrange(i as int, ls.len() as int))
                == parse_dependencies_spec(deep(ls@)),
        decreases ls.len() - i,
    {
        let ghost r = deep(ls@).subrange(i as int, ls.len() as int);
        assert(r[0] == ls@[i as int]@);
        let t = trim_start_exec(&ls[i]);
        let key = k_depends_key_exec();
        if starts_with_exec(&t, &key) {
            return split_list_v(&slice_of(&t, key.len(), t.len()));
        }
        if !is_header_line_v(&t) {
            let out: Vec<Vec<char>> = Vec::new();
            assert(deep(out@) =~= Seq::<Seq<char>>::empty());
            return out;
        }
        assert(r.drop_first() =~= deep(ls@).subrange(i + 1, ls.len() as int));
        i += 1;
    }
    let out: Vec<Vec<char>> = Vec::new();
    assert(deep(out@) =~= Seq::<Seq<char>>::empty());
    out
}

fn parse_pinned_v(ls: &Vec<Vec<char>>) -> (out: Option<Vec<char>>)
    ensures
        opt_chars(out) == parse_pinned_spec(deep(ls@)),
{
    let mut i: usize = 0;
    assert(deep(ls@).subrange(0, ls.len() as int) =~= deep(ls@));
    while i < ls.len()
        invariant
            i <= ls.len(),
            parse_pinned_spec(deep(ls@).subrange(i as int, ls.len() as int)) == parse_pinned_spec(
                deep(ls@),
            ),
        decreases ls.len() - i,
    {
        let ghost r = deep(ls@).subrange(i as int, ls.len() as int);
        assert(r[0] == ls@[i as int]@);
        let t = trim_start_exec(&ls[i]);
        let key = k_pinned_key_exec();
        if starts_with_exec(&t, &key) {
            let v = trim_exec(&slice_of(&t, key.len(), t.len()));
            if v.len() == 0 {
                return None;
            }
            return Some(v);
        }
        if !is_header_line_v(&t) {
            return None;
        }
        assert(r.drop_first() =~= deep(ls@).subrange(i + 1, ls.len() as int));
        i += 1;
    }
    None
}

fn strings_of(v: &Vec<Vec<char>>) -> (out: Vec<String>)
    ensures
        strings(out@) == deep(v@),
{
    let mut out: Vec<String> = Vec::new();
    let mut i: usize = 0;
    while i < v.len()
        invariant
            i <= v.len(),
            strings(out@) == deep(v@).subrange(0, i as int),
        decreases v.len() - i,
    {
        let ghost before = out@;
        out.push(string_of(&v[i]));
        i += 1;
        assert(strings(out@) =~= deep(v@).subrange(0, i as int)) by {
            assert(strings(out@) =~= strings(before).push(v@[i - 1]@));
        }
    }
    assert(deep(v@).subrange(0, v.len() as int) =~= deep(v@));
    out
}

fn make_block_v(name: Vec<char>, version: Vec<char>, body_lines: &Vec<Vec<char>>) -> (b:
    ManagedBlock)
    ensures
        b@ == make_block(name@, version@, deep(body_lines@)),
{
    let deps = parse_dependencies_v(body_lines);
    let pinned = parse_pinned_v(body_lines);
    let stripped = strip_header_v(body_lines);
    let sep = vec!['\n'];
    assert(sep@ =~= nl());
    let body = join_exec(&stripped, &sep);
    let pinned_s = match pinned {
        Some(p) => Some(string_of(&p)),
        None => None,
    };
    ManagedBlock {
        name: string_of(&name),
        version: string_of(&version),
        body: string_of(&body),
        dependencies: strings_of(&deps),
        pinned: pinned_s,
    }
}

fn parse_blocks_v(ls: &Vec<Vec<char>>) -> (out: Vec<ManagedBlock>)
    ensures
        blocks_view(out@) == parse_blocks(deep(ls@)),
{
    let mut out: Vec<ManagedBlock> = Vec::new();
    let mut i: usize = 0;
    let ghost all = deep(ls@);
    assert(all.subrange(0, ls.len() as int) =~= all);
    while i < ls.len()
        invariant
            i <= ls.len(),
            all == deep(ls@),
            blocks_view(out@) + parse_blocks(all.subrange(i as int, ls.len() as int))
                == parse_blocks(all),
        decreases ls.len() - i,
    {
        let ghost r = all.subrange(i as int, ls.len() as int);
        assert(r[0] == ls@[i as int]@);
        match parse_open_v(&ls[i]) {
            None => {
                assert(r.drop_first() =~= all.subrange(i + 1, ls.len() as int));
                i += 1;
            },
            Some((name, version)) => {
                let close = close_marker_v(&name);
                let j = find_line_v(ls, i + 1, &close);
                let ghost rest = r.drop_first();
                assert(rest =~= all.subrange(i + 1, ls.len() as int));
                if j < ls.len() {
                    let body = slice_lines(ls, i + 1, j);
                    assert(deep(body@) =~= rest.subrange(0, j - i - 1));
                    let b = make_block_v(name, version, &body);
                    let ghost before = out@;
                    out.push(b);
                    assert(rest.subrange(j - i, rest.len() as int) =~= all.subrange(
                        j + 1,
                        ls.len() as int,
                    ));
                    assert(blocks_view(out@) =~= blocks_view(before).push(b@));
                    assert(blocks_view(out@) + parse_blocks(all.subrange(j + 1, ls.len() as int))
                        =~= blocks_view(before) + parse_blocks(r));
                    i = j + 1;
                } else {
                    assert(parse_blocks(r) =~= Seq::<BlockView>::empty());
                    assert(blocks_view(out@) =~= parse_blocks(all));
                    return out;
                }
            },
        }
    }
    assert(all.subrange(i as int, ls.len() as int) =~= Seq::<Seq<char>>::empty());
    assert(blocks_view(out@) + parse_blocks(Seq::<Seq<char>>::empty()) =~= blocks_view(out@));
    out
}

/// Find all installed blocks in the document, in order.
pub fn parse_all(doc: &str) -> (out: Vec<ManagedBlock>)
    ensures
        blocks_view(out@) == parse_all_spec(doc@),
{
    parse_blocks_v(&lines_exec(&chars_of(doc)))
}

pub open spec fn opt_int(o: Option<usize>) -> Option<int> {
    match o {
        Some(i) => Some(i as int),
        None => None,
    }
}

fn strip_v(ls: &Vec<Vec<char>>, open: &Vec<char>, close: &Vec<char>) -> (r: (
    Vec<Vec<char>>,
    bool,
    Option<usize>,
))
    ensures
        deep(r.0@) == strip_fold(deep(ls@), open@, close@).out,
        r.1 == strip_fold(deep(ls@), open@, close@).removed,
        opt_int(r.2) == strip_fold(deep(ls@), open@, close@).seam,
{
    let ghost all = deep(ls@);
    let mut out: Vec<Vec<char>> = Vec::new();
    let mut in_block = false;
    let mut removed = false;
    let mut seam: Option<usize> = None;
    let mut i: usize = 0;
    assert(all.subrange(0, 0) =~= Seq::<Seq<char>>::empty());
    while i < ls.len()
        invariant
            i <= ls.len(),
            all == deep(ls@),
            out@.len() <= i,
            ({
                let st = strip_fold(all.subrange(0, i as int), open@, close@);
                deep(out@) == st.out && in_block == st.in_block && removed == st.removed
                    && opt_int(seam) == st.seam
            }),
        decreases ls.len() - i,
    {
        let ghost pre = all.subrange(0, i as int);
        let ghost post = all.subrange(0, i + 1);
        assert(post.drop_last() =~= pre);
        assert(post.last() == ls@[i as int]@);
        if !in_block && starts_with_exec(&trim_start_exec(&ls[i]), open) {
            in_block = true;
            removed = true;
            seam = Some(out.len());
        } else if in_block {
            in_block = !eq_exec(&trim_exec(&ls[i]), close);
        } else {
            let ghost before = out@;
            out.push(ls[i].clone());
            assert(deep(out@) =~= deep(before).push(ls@[i as int]@));
        }
        i += 1;
    }
    assert(all.subrange(0, ls.len() as int) =~= all);
    (out, removed, seam)
}

fn collapse_blanks_v(ls: &Vec<Vec<char>>) -> (out: Vec<Vec<char>>)
    ensures
        deep(out@) == collapse_blanks(deep(ls@)),
{
    let ghost all = deep(ls@);
    let mut out: Vec<Vec<char>> = Vec::new();
    let mut i: usize = 0;
    assert(all.subrange(0, 0) =~= Seq::<Seq<char>>::empty());
    while i < ls.len()
        invariant
            i <= ls.len(),
            all == deep(ls@),
            deep(out@) == collapse_blanks(all.subrange(0, i as int)),
        decreases ls.len() - i,
    {
        let ghost post = all.subrange(0, i + 1);
        assert(post.drop_last() =~= all.subrange(0, i as int));
        assert(post.last() == ls@[i as int]@);
        let n = out.len();
        let skip = is_blank_exec(&ls[i]) && n > 0 && is_blank_exec(&out[n - 1]);
        if !skip {
            let ghost before = out@;
            out.push(ls[i].clone());
            assert(deep(out@) =~= deep(before).push(ls@[i as int]@));
        }
        i += 1;
    }
    assert(all.subrange(0, ls.len() as int) =~= all);
    out
}

proof fn lemma_drop_trailing_at(ls: Seq<Seq<char>>, k: int)
    requires
        0 <= k <= ls.len(),
        forall|j: int| k <= j < ls.len() ==> is_blank(#[trigger] ls[j]),
        k > 0 ==> !is_blank(ls[k - 1]),
    ensures
        drop_trailing_blanks(ls) == ls.subrange(0, k),
    decreases ls.len() - k,
{
    if k == ls.len() {
        assert(ls.subrange(0, k) =~= ls);
    } else {
        assert(is_blank(ls.last()));
        assert forall|j: int| k <= j < ls.drop_last().len() implies is_blank(
            #[trigger] ls.drop_last()[j],
        ) by {
            assert(ls.drop_last()[j] == ls[j]);
        }
        lemma_drop_trailing_at(ls.drop_last(), k);
        assert(ls.drop_last().subrange(0, k) =~= ls.subrange(0, k));
    }
}

fn drop_trailing_blanks_v(ls: &Vec<Vec<char>>) -> (out: Vec<Vec<char>>)
    ensures
        deep(out@) == drop_trailing_blanks(deep(ls@)),
{
    let mut k = ls.len();
    while k > 0 && is_blank_exec(&ls[k - 1])
        invariant
            k <= ls.len(),
            forall|j: int| k <= j < ls.len() ==> is_blank(#[trigger] deep(ls@)[j]),
        decreases k,
    {
        k -= 1;
    }
    proof {
        lemma_drop_trailing_at(deep(ls@), k as int);
    }
    slice_lines(ls, 0, k)
}

fn ends_with_nl_v(s: &Vec<char>) -> (b: bool)
    ensures
        b == ends_with(s@, nl()),
{
    proof {
        lemma_ends_with_char(s@, '\n');
    }
    s.len() > 0 && s[s.len() - 1] == '\n'
}

fn ends_with_two_nl_v(s: &Vec<char>) -> (b: bool)
    ensures
        b == ends_with(s@, seq!['\n', '\n']),
{
    let n = s.len();
    if n >= 2 {
        assert(s@.subrange(n - 2, n as int) =~= seq![s@[n - 2], s@[n - 1]]);
    }
    n >= 2 && s[n - 1] == '\n' && s[n - 2] == '\n'
}

fn finish_nl_v(joined: Vec<char>, doc: &Vec<char>) -> (out: Vec<char>)
    ensures
        out@ == finish_nl(joined@, doc@),
{
    let mut j = joined;
    if j.len() > 0 && ends_with_nl_v(doc) && !ends_with_nl_v(&j) {
        j.push('\n');
    }
    j
}

fn join_nl(ls: &Vec<Vec<char>>) -> (out: Vec<char>)
    ensures
        out@ == join(deep(ls@), nl()),
{
    let sep = vec!['\n'];
    assert(sep@ =~= nl());
    join_exec(ls, &sep)
}

fn remove_v(target: Target, doc: &Vec<char>, name: &Vec<char>) -> (r: (Vec<char>, bool))
    ensures
        (r.0@, r.1) == remove_spec(target, doc@, name@),
{
    let ls = lines_exec(doc);
    let (out, removed, seam) = strip_v(&ls, &open_marker_v(name), &close_marker_v(name));
    let kept = match target {
        Target::Just => collapse_blanks_v(&out),
        Target::Task => {
            let mut o = out;
            match seam {
                Some(i) => {
                    if 0 < i && i < o.len() && is_blank_exec(&o[i - 1]) && is_blank_exec(&o[i]) {
                        let ghost before = o@;
                        o.remove(i);
                        assert(deep(o@) =~= deep(before).remove(i as int));
                    }
                },
                None => {},
            }
            o
        },
    };
    let trimmed = drop_trailing_blanks_v(&kept);
    (finish_nl_v(join_nl(&trimmed), doc), removed)
}

/// Remove the block named `name`. Returns the new document and whether a
/// block was found. Just collapses every run of blank lines; Task only mends
/// the removal seam, since blank lines inside a YAML block scalar matter.
pub fn remove(target: Target, doc: &str, name: &str) -> (r: (String, bool))
    ensures
        (r.0@, r.1) == remove_spec(target, doc@, name@),
{
    let (out, removed) = remove_v(target, &chars_of(doc), &chars_of(name));
    (string_of(&out), removed)
}

fn append_v(doc: &Vec<char>, rendered: &Vec<char>) -> (out: Vec<char>)
    ensures
        out@ == append_spec(doc@, rendered@),
{
    if doc.len() == 0 {
        return rendered.clone();
    }
    let needs_blank = !ends_with_two_nl_v(doc);
    let mut out = doc.clone();
    if !ends_with_nl_v(doc) {
        out.push('\n');
    }
    if needs_blank {
        out.push('\n');
    }
    extend(&mut out, rendered);
    out
}

/// Append a rendered block, ensuring a blank line separates it from prior content.
pub fn append(doc: &str, rendered: &str) -> (out: String)
    ensures
        out@ == append_spec(doc@, rendered@),
{
    string_of(&append_v(&chars_of(doc), &chars_of(rendered)))
}

fn starts_with_space_v(line: &Vec<char>) -> (b: bool)
    ensures
        b == starts_with_space(line@),
{
    line.len() > 0 && (line[0] == ' ' || line[0] == '\t')
}

/// A column-0 line introducing the block-style `tasks:` mapping: exactly
/// `tasks:` followed by nothing but whitespace or a `# comment`.
pub fn is_tasks_key(line: &str) -> (b: bool)
    ensures
        b == is_tasks_key_spec(line@),
{
    is_tasks_key_v(&chars_of(line))
}

fn is_tasks_key_v(line: &Vec<char>) -> (b: bool)
    ensures
        b == is_tasks_key_spec(line@),
{
    if starts_with_space_v(line) {
        return false;
    }
    let key = k_tasks_key_exec();
    if !starts_with_exec(line, &key) {
        return false;
    }
    let rest = trim_start_exec(&slice_of(line, key.len(), line.len()));
    rest.len() == 0 || rest[0] == '#'
}

pub proof fn lemma_find_tasks_key_at(ls: Seq<Seq<char>>, k: int)
    requires
        0 <= k <= ls.len(),
        forall|j: int| 0 <= j < k ==> !is_tasks_key_spec(#[trigger] ls[j]),
        k < ls.len() ==> is_tasks_key_spec(ls[k]),
    ensures
        find_tasks_key(ls) == k,
    decreases ls.len(),
{
    if ls.len() > 0 && !is_tasks_key_spec(ls[0]) {
        assert forall|j: int| 0 <= j < k - 1 implies !is_tasks_key_spec(#[trigger] ls.drop_first()[j]) by {
            assert(ls.drop_first()[j] == ls[j + 1]);
        }
        lemma_find_tasks_key_at(ls.drop_first(), k - 1);
    }
}

pub proof fn lemma_find_top_level_at(ls: Seq<Seq<char>>, k: int)
    requires
        0 <= k <= ls.len(),
        forall|j: int| 0 <= j < k ==> is_blank(#[trigger] ls[j]) || starts_with_space(ls[j]),
        k < ls.len() ==> !is_blank(ls[k]) && !starts_with_space(ls[k]),
    ensures
        find_top_level(ls) == k,
    decreases ls.len(),
{
    if ls.len() > 0 && !(!is_blank(ls[0]) && !starts_with_space(ls[0])) {
        assert forall|j: int| 0 <= j < k - 1 implies is_blank(#[trigger] ls.drop_first()[j])
            || starts_with_space(ls.drop_first()[j]) by {
            assert(ls.drop_first()[j] == ls[j + 1]);
        }
        lemma_find_top_level_at(ls.drop_first(), k - 1);
    }
}

pub proof fn lemma_find_open_at(ls: Seq<Seq<char>>, open: Seq<char>, k: int)
    requires
        0 <= k <= ls.len(),
        forall|j: int| 0 <= j < k ==> !starts_with(trim_start(#[trigger] ls[j]), open),
        k < ls.len() ==> starts_with(trim_start(ls[k]), open),
    ensures
        find_open(ls, open) == k,
    decreases ls.len(),
{
    if ls.len() > 0 && !starts_with(trim_start(ls[0]), open) {
        assert forall|j: int| 0 <= j < k - 1 implies !starts_with(
            trim_start(#[trigger] ls.drop_first()[j]),
            open,
        ) by {
            assert(ls.drop_first()[j] == ls[j + 1]);
        }
        lemma_find_open_at(ls.drop_first(), open, k - 1);
    }
}

fn append_lines(a: &mut Vec<Vec<char>>, b: &Vec<Vec<char>>)
    ensures
        deep(final(a)@) == deep(old(a)@) + deep(b@),
{
    let ghost a0 = deep(a@);
    let mut i: usize = 0;
    while i < b.len()
        invariant
            i <= b.len(),
            deep(a@) == a0 + deep(b@).subrange(0, i as int),
        decreases b.len() - i,
    {
        let ghost before = a@;
        a.push(b[i].clone());
        i += 1;
        assert(deep(a@) =~= a0 + deep(b@).subrange(0, i as int)) by {
            assert(deep(a@) =~= deep(before).push(b@[i - 1]@));
        }
    }
    assert(deep(b@).subrange(0, b.len() as int) =~= deep(b@));
}

fn insert_into_tasks_v(doc: &Vec<char>, block: &Vec<char>) -> (out: Vec<char>)
    ensures
        out@ == insert_into_tasks_spec(doc@, block@),
{
    let ls = lines_exec(doc);
    let ghost all = deep(ls@);
    let mut ti: usize = 0;
    while ti < ls.len() && !is_tasks_key_v(&ls[ti])
        invariant
            ti <= ls.len(),
            all == deep(ls@),
            forall|j: int| 0 <= j < ti ==> !is_tasks_key_spec(#[trigger] all[j]),
        decreases ls.len() - ti,
    {
        ti += 1;
    }
    proof {
        lemma_find_tasks_key_at(all, ti as int);
    }
    if ti == ls.len() {
        let mut out = doc.clone();
        if out.len() > 0 && !ends_with_nl_v(&out) {
            out.push('\n');
        }
        let ghost o1 = out@;
        if out.len() > 0 && !ends_with_two_nl_v(&out) {
            out.push('\n');
        }
        let ghost o2 = out@;
        assert(o2 == (if o1.len() > 0 && !ends_with(o1, seq!['\n', '\n']) { o1 + nl() } else { o1 }));
        extend(&mut out, &k_tasks_key_exec());
        out.push('\n');
        extend(&mut out, block);
        assert(out@ =~= o2 + k_tasks_key() + nl() + block@);
        assert(all == lines(doc@));
        assert(find_tasks_key(lines(doc@)) >= lines(doc@).len());
        assert(o1 == (if doc@.len() > 0 && !ends_with(doc@, nl()) { doc@ + nl() } else { doc@ }));
        return out;
    }
    let mut end = ti + 1;
    while end < ls.len() && (is_blank_exec(&ls[end]) || starts_with_space_v(&ls[end]))
        invariant
            ti + 1 <= end <= ls.len(),
            all == deep(ls@),
            forall|j: int| ti + 1 <= j < end ==> is_blank(#[trigger] all[j]) || starts_with_space(all[j]),
        decreases ls.len() - end,
    {
        end += 1;
    }
    proof {
        let r = all.subrange(ti + 1, ls.len() as int);
        assert forall|j: int| 0 <= j < end - ti - 1 implies is_blank(#[trigger] r[j]) || starts_with_space(r[j]) by {
            assert(r[j] == all[ti + 1 + j]);
        }
        if end < ls.len() {
            assert(r[end - ti - 1] == all[end as int]);
        }
        lemma_find_top_level_at(r, end - ti - 1);
    }
    let head = drop_trailing_blanks_v(&slice_lines(&ls, 0, end));
    let tail = slice_lines(&ls, end, ls.len());
    let mut out_lines = head;
    let ghost h = deep(out_lines@);
    if out_lines.len() > ti + 1 {
        out_lines.push(Vec::new());
    }
    let ghost sep: Seq<Seq<char>> = if h.len() <= ti + 1 { seq![] } else { seq![seq![]] };
    assert(deep(out_lines@) =~= h + sep);
    append_lines(&mut out_lines, &lines_exec(block));
    if tail.len() > 0 {
        let ghost before = deep(out_lines@);
        out_lines.push(Vec::new());
        append_lines(&mut out_lines, &tail);
        assert(deep(out_lines@) =~= before + (seq![seq![]] + deep(tail@)));
    } else {
        assert(deep(out_lines@) =~= deep(out_lines@) + Seq::<Seq<char>>::empty());
    }
    let mut out = join_nl(&out_lines);
    out.push('\n');
    proof {
        let after: Seq<Seq<char>> = if deep(tail@).len() > 0 {
            seq![seq![]] + deep(tail@)
        } else {
            seq![]
        };
        assert(deep(out_lines@) =~= h + sep + lines(block@) + after);
    }
    out
}

fn count_named_v(bs: &Vec<ManagedBlock>, name: &Vec<char>) -> (n: usize)
    ensures
        n == count_named(blocks_view(bs@), name@),
{
    let ghost all = blocks_view(bs@);
    let mut n: usize = 0;
    let mut i: usize = 0;
    assert(all.subrange(0, 0) =~= Seq::<BlockView>::empty());
    while i < bs.len()
        invariant
            i <= bs.len(),
            all == blocks_view(bs@),
            n <= i,
            n == count_named(all.subrange(0, i as int), name@),
        decreases bs.len() - i,
    {
        assert(all.subrange(0, i + 1).drop_last() =~= all.subrange(0, i as int));
        assert(all.subrange(0, i + 1).last() == bs@[i as int]@);
        if eq_exec(&chars_of(bs[i].name.as_str()), name) {
            n += 1;
        }
        i += 1;
    }
    assert(all.subrange(0, bs.len() as int) =~= all);
    n
}

fn upsert_v(target: Target, doc: &Vec<char>, name: &Vec<char>, rendered: &Vec<char>) -> (r: Result<
    Vec<char>,
    usize,
>)
    ensures
        match r {
            Ok(m) => m@ == merge_spec(target, doc@, name@, rendered@) && count_named(
                parse_all_spec(merge_spec(target, doc@, name@, rendered@)),
                name@,
            ) == 1,
            Err(n) => n == count_named(
                parse_all_spec(merge_spec(target, doc@, name@, rendered@)),
                name@,
            ) && n != 1,
        },
{
    let (without, _) = remove_v(target, doc, name);
    let merged = match target {
        Target::Just => append_v(&without, rendered),
        Target::Task => insert_into_tasks_v(&without, rendered),
    };
    let blocks = parse_blocks_v(&lines_exec(&merged));
    let count = count_named_v(&blocks, name);
    if count != 1 {
        return Err(count);
    }
    Ok(merged)
}

/// Install or replace `name`'s block with `rendered` (already in the form
/// [`render_block`] produced for `target`): appended at the end of a justfile,
/// spliced into the `tasks:` map of a Taskfile. Fails unless the result holds
/// exactly one block named `name`.
pub fn upsert(target: Target, doc: &str, name: &str, rendered: &str) -> (r: Result<
    String,
    UpsertError,
>)
    ensures
        match r {
            Ok(m) => m@ == merge_spec(target, doc@, name@, rendered@) && count_named(
                parse_all_spec(merge_spec(target, doc@, name@, rendered@)),
                name@,
            ) == 1,
            Err(e) => e.name@ == name@ && e.found == count_named(
                parse_all_spec(merge_spec(target, doc@, name@, rendered@)),
                name@,
            ) && e.found != 1,
        },
{
    match upsert_v(target, &chars_of(doc), &chars_of(name), &chars_of(rendered)) {
        Ok(m) => Ok(string_of(&m)),
        Err(n) => Err(UpsertError { name: string_of(&chars_of(name)), found: n }),
    }
}

fn extract_v(doc: &Vec<char>, name: &Vec<char>) -> (out: Vec<char>)
    ensures
        out@ == extract_spec(doc@, name@),
{
    let ls = lines_exec(doc);
    let ghost all = deep(ls@);
    let open = open_marker_v(name);
    let mut start: usize = 0;
    while start < ls.len() && !starts_with_exec(&trim_start_exec(&ls[start]), &open)
        invariant
            start <= ls.len(),
            all == deep(ls@),
            forall|j: int| 0 <= j < start ==> !starts_with(trim_start(#[trigger] all[j]), open@),
        decreases ls.len() - start,
    {
        start += 1;
    }
    proof {
        lemma_find_open_at(all, open@, start as int);
    }
    if start == ls.len() {
        return Vec::new();
    }
    let end = find_line_v(&ls, start, &close_marker_v(name));
    if end == ls.len() {
        return Vec::new();
    }
    let mut out = join_nl(&slice_lines(&ls, start, end + 1));
    out.push('\n');
    out
}

/// The raw text of the named block, open and close marker lines included,
/// ending in `\n`; empty when the block is not found.
pub fn extract_block_text(doc: &str, name: &str) -> (out: String)
    ensures
        out@ == extract_spec(doc@, name@),
{
    string_of(&extract_v(&chars_of(doc), &chars_of(name)))
}

} // verus!
