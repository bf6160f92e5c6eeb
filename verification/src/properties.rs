//! Laws of the managed-block format and of the registry lookups, proved over
//! the specifications in [`crate::managed`] and [`crate::sources`]: parsing
//! gives back what rendering wrote, reading a block back gives what was
//! installed, installing twice is installing once, installing and removing
//! keep the file's own lines, removing undoes installing, removing twice is
//! removing once, a removed block is gone while the others parse as
//! before, and a block's name leads back to its source.
use vstd::prelude::*;

use crate::managed::{
    append_spec, close_marker_spec, collapse_blanks, count_named, depends_line, dne_line,
    drop_trailing_blanks, extract_spec, find_line, find_tasks_key, find_top_level, finish_nl,
    indent_line, insert_into_tasks_spec, is_header_line, is_name_char, is_tasks_key_spec,
    is_written_header, lemma_find_line_at, lemma_find_open_at, lemma_find_tasks_key_at,
    lemma_find_top_level_at, lemma_strip_header_at, make_block, mend_seam, merge_spec, open_line,
    open_marker_spec, opt_line, pad, parse_all_spec, parse_blocks, parse_dependencies_spec,
    parse_open_spec, parse_pinned_spec, remove_spec, render_block_spec, render_spec, split_list,
    starts_with_space, strip_block, strip_step, trim_trailing_nl, valid_name, BlockView, StripState,
    TASK_INDENT,
};
use crate::markers::{
    k_close_head, k_close_tail, k_depends_key, k_depends_line, k_dne_head, k_dne_key, k_dne_mid,
    k_dne_tail, k_list_sep, k_open_head, k_open_tail, k_pinned_key, k_pinned_line, k_source_key,
    k_source_line, k_tasks_key,
};
use crate::target::Target;
use crate::text::{
    all_lines, ends_with, find_char, is_blank, is_line, is_ws, join, lemma_find_char,
    lemma_find_char_at, lemma_join_cons, lemma_join_lines, lemma_join_nl, lemma_join_terminated,
    lemma_lines_extend, lemma_lines_no_nl, lemma_lines_terminated, lemma_lines_terminated_cr,
    lemma_lines_terminated_then_cr, lemma_terminated_concat, lemma_terminated_cons,
    lemma_lines_cons, lemma_lines_single, lemma_ends_with_char,
    lemma_trim_end_keep, lemma_trim_start_skip, lines, no_nl_lines, starts_with, strip_cr, strip_crs,
    terminated, trim, trim_end, trim_start,
};

verus! {

/// A value written on a header line: one line, no carriage return.
pub open spec fn plain_value(v: Seq<char>) -> bool {
    !v.contains('\n') && !v.contains('\r')
}

/// A snippet whose lines the parser cannot mistake for block structure: none
/// is a header line jtr writes, none is the block's close marker, and there
/// are no carriage returns.
pub open spec fn plain_snippet(name: Seq<char>, snippet: Seq<char>) -> bool {
    &&& !snippet.contains('\r')
    &&& forall|i: int|
        0 <= i < lines(snippet).len() ==> {
            &&& !is_written_header(trim_start(#[trigger] lines(snippet)[i]))
            &&& trim(lines(snippet)[i]) != close_marker_spec(name)
        }
}

pub open spec fn opt_lines(prefix: Seq<char>, v: Option<Seq<char>>) -> Seq<Seq<char>> {
    match v {
        Some(s) => seq![prefix + s],
        None => seq![],
    }
}

pub open spec fn dep_lines(deps: Seq<Seq<char>>) -> Seq<Seq<char>> {
    if deps.len() == 0 {
        seq![]
    } else {
        seq![k_depends_line() + join(deps, k_list_sep())]
    }
}

/// The header lines between the open line and the snippet.
pub open spec fn header_lines(
    name: Seq<char>,
    source: Option<Seq<char>>,
    pinned: Option<Seq<char>>,
    deps: Seq<Seq<char>>,
) -> Seq<Seq<char>> {
    opt_lines(k_source_line(), source) + opt_lines(k_pinned_line(), pinned) + dep_lines(deps) + seq![
        dne_line(name),
    ]
}

/// The snippet's lines as the block holds them (an empty snippet is one
/// empty line).
pub open spec fn body_lines(s: Seq<char>) -> Seq<Seq<char>> {
    if s.len() == 0 {
        seq![seq![]]
    } else {
        lines(s)
    }
}

/// The lines of a rendered block.
pub open spec fn rendered_lines(
    name: Seq<char>,
    version: Seq<char>,
    source: Option<Seq<char>>,
    pinned: Option<Seq<char>>,
    deps: Seq<Seq<char>>,
    snippet: Seq<char>,
) -> Seq<Seq<char>> {
    seq![open_line(name, version)] + header_lines(name, source, pinned, deps) + body_lines(
        trim_trailing_nl(snippet),
    ) + seq![close_marker_spec(name)]
}

proof fn lemma_terminated_one(l: Seq<char>)
    ensures
        terminated(seq![l]) == l + seq!['\n'],
{
    lemma_terminated_cons(l, seq![]);
    assert(seq![l] + Seq::<Seq<char>>::empty() =~= seq![l]);
    assert(terminated(Seq::<Seq<char>>::empty()) =~= Seq::<char>::empty());
    assert(l + seq!['\n'] + Seq::<char>::empty() =~= l + seq!['\n']);
}

/// `trim_trailing_nl(s)` followed by the line endings it dropped.
proof fn lemma_trim_trailing_nl(s: Seq<char>)
    ensures
        trim_trailing_nl(s).len() <= s.len(),
        s.subrange(0, trim_trailing_nl(s).len() as int) == trim_trailing_nl(s),
        !(trim_trailing_nl(s).len() > 0 && trim_trailing_nl(s).last() == '\n'),
        forall|i: int| trim_trailing_nl(s).len() <= i < s.len() ==> s[i] == '\n',
    decreases s.len(),
{
    if s.len() > 0 && s.last() == '\n' {
        lemma_trim_trailing_nl(s.drop_last());
        assert(s.drop_last().subrange(0, trim_trailing_nl(s).len() as int) =~= s.subrange(
            0,
            trim_trailing_nl(s).len() as int,
        ));
        assert forall|i: int| trim_trailing_nl(s).len() <= i < s.len() implies s[i] == '\n' by {
            if i < s.len() - 1 {
                assert(s[i] == s.drop_last()[i]);
            }
        }
    } else {
        assert(s.subrange(0, s.len() as int) =~= s);
    }
}

/// The body lines of the trimmed snippet are the first lines of the snippet.
proof fn lemma_body_lines(snippet: Seq<char>)
    requires
        !snippet.contains('\r'),
    ensures
        ({
            let s = trim_trailing_nl(snippet);
            &&& s.len() > 0 ==> lines(s).len() <= lines(snippet).len() && forall|i: int|
                0 <= i < lines(s).len() ==> #[trigger] lines(s)[i] == lines(snippet)[i]
            &&& terminated(body_lines(s)) == s + seq!['\n']
            &&& all_lines(body_lines(s))
            &&& body_lines(s).len() > 0
            &&& join(body_lines(s), seq!['\n']) == s
        }),
{
    let s = trim_trailing_nl(snippet);
    lemma_trim_trailing_nl(snippet);
    let t = snippet.subrange(s.len() as int, snippet.len() as int);
    assert(s + t =~= snippet);
    assert(!s.contains('\r')) by {
        if s.contains('\r') {
            let j = choose|j: int| 0 <= j < s.len() && s[j] == '\r';
            assert(snippet[j] == '\r');
        }
    }
    if s.len() == 0 {
        lemma_terminated_one(seq![]);
        assert(Seq::<char>::empty() + seq!['\n'] =~= s + seq!['\n']);
        assert(all_lines(body_lines(s))) by {
            assert(is_line(body_lines(s)[0]));
        }
    } else {
        assert(t.len() > 0 ==> t[0] == '\n');
        lemma_lines_extend(s, t);
        assert forall|i: int| 0 <= i < lines(s).len() implies #[trigger] lines(s)[i] == lines(snippet)[i] by {
            assert(lines(snippet).subrange(0, lines(s).len() as int)[i] == lines(snippet)[i]);
        }
        lemma_join_lines(s);
        lemma_join_nl(lines(s));
    }
}

/// A rendered block is the line-terminated list of its lines.
#[verifier::spinoff_prover]
#[verifier::rlimit(40)]
proof fn lemma_render_terminated(
    name: Seq<char>,
    version: Seq<char>,
    source: Option<Seq<char>>,
    pinned: Option<Seq<char>>,
    deps: Seq<Seq<char>>,
    snippet: Seq<char>,
)
    requires
        !snippet.contains('\r'),
    ensures
        render_spec(name, version, source, pinned, deps, snippet) == terminated(
            rendered_lines(name, version, source, pinned, deps, snippet),
        ),
{
    let s = trim_trailing_nl(snippet);
    lemma_body_lines(snippet);
    let o = seq![open_line(name, version)];
    let a = opt_lines(k_source_line(), source);
    let b = opt_lines(k_pinned_line(), pinned);
    let d = dep_lines(deps);
    let e = seq![dne_line(name)];
    let bl = body_lines(s);
    let c = seq![close_marker_spec(name)];
    lemma_terminated_one(open_line(name, version));
    lemma_terminated_one(dne_line(name));
    lemma_terminated_one(close_marker_spec(name));
    match source {
        Some(v) => lemma_terminated_one(k_source_line() + v),
        None => assert(terminated(a) =~= Seq::<char>::empty()),
    }
    match pinned {
        Some(v) => lemma_terminated_one(k_pinned_line() + v),
        None => assert(terminated(b) =~= Seq::<char>::empty()),
    }
    if deps.len() == 0 {
        assert(terminated(d) =~= Seq::<char>::empty());
    } else {
        lemma_terminated_one(k_depends_line() + join(deps, k_list_sep()));
    }
    assert(terminated(a) == opt_line(k_source_line(), source));
    assert(terminated(b) == opt_line(k_pinned_line(), pinned));
    assert(terminated(d) == depends_line(deps));
    lemma_terminated_concat(o, a);
    lemma_terminated_concat(o + a, b);
    lemma_terminated_concat(o + a + b, d);
    lemma_terminated_concat(o + a + b + d, e);
    lemma_terminated_concat(o + a + b + d + e, bl);
    lemma_terminated_concat(o + a + b + d + e + bl, c);
    assert(rendered_lines(name, version, source, pinned, deps, snippet) =~= o + a + b + d + e + bl + c);
    assert(render_spec(name, version, source, pinned, deps, snippet) =~= terminated(o) + terminated(a)
        + terminated(b) + terminated(d) + terminated(e) + terminated(bl) + terminated(c));
}

/// Neither a line ending nor a carriage return anywhere in `s`.
pub open spec fn one_line(s: Seq<char>) -> bool {
    forall|i: int| 0 <= i < s.len() ==> (#[trigger] s[i]) != '\n' && s[i] != '\r'
}

proof fn lemma_one_line_concat(a: Seq<char>, b: Seq<char>)
    requires
        one_line(a),
        one_line(b),
    ensures
        one_line(a + b),
{
    assert forall|i: int| 0 <= i < (a + b).len() implies (#[trigger] (a + b)[i]) != '\n' && (a + b)[i] != '\r' by {
        if i < a.len() {
            assert((a + b)[i] == a[i]);
        } else {
            assert((a + b)[i] == b[i - a.len()]);
        }
    }
}

proof fn lemma_one_line_is_line(s: Seq<char>)
    requires
        one_line(s),
    ensures
        is_line(s),
        plain_value(s),
{
    assert(!s.contains('\n')) by {
        if s.contains('\n') {
            let j = choose|j: int| 0 <= j < s.len() && s[j] == '\n';
            assert(s[j] != '\n');
        }
    }
    assert(!s.contains('\r')) by {
        if s.contains('\r') {
            let j = choose|j: int| 0 <= j < s.len() && s[j] == '\r';
            assert(s[j] != '\r');
        }
    }
    if s.len() > 0 {
        assert(s[s.len() - 1] != '\r');
    }
}

proof fn lemma_plain_one_line(s: Seq<char>)
    requires
        plain_value(s),
    ensures
        one_line(s),
{
    assert forall|i: int| 0 <= i < s.len() implies (#[trigger] s[i]) != '\n' && s[i] != '\r' by {
        assert(s.contains(s[i]));
    }
}

/// A dependency as the `# depends-on:` line can carry it: non-empty,
/// trimmed (no whitespace at either end), with no comma, line feed or
/// carriage return. Recipe names and tap-qualified names such as
/// `alice/recipes/foo` both qualify.
pub open spec fn plain_dep(d: Seq<char>) -> bool {
    &&& d.len() > 0
    &&& !is_ws(d[0])
    &&& !is_ws(d.last())
    &&& !d.contains(',')
    &&& plain_value(d)
}

proof fn lemma_name_one_line(name: Seq<char>)
    requires
        valid_name(name),
    ensures
        one_line(name),
{
    assert forall|i: int| 0 <= i < name.len() implies (#[trigger] name[i]) != '\n' && name[i] != '\r' by {
        assert(crate::managed::is_name_char(name[i]));
    }
}

proof fn lemma_markers_one_line()
    ensures
        one_line(k_open_head()),
        one_line(k_open_tail()),
        one_line(k_close_head()),
        one_line(k_close_tail()),
        one_line(k_source_line()),
        one_line(k_pinned_line()),
        one_line(k_depends_line()),
        one_line(k_dne_head()),
        one_line(k_dne_mid()),
        one_line(k_dne_tail()),
        one_line(k_list_sep()),
        one_line(seq!['@']),
{
}

proof fn lemma_join_one_line(ls: Seq<Seq<char>>, sep: Seq<char>)
    requires
        forall|i: int| 0 <= i < ls.len() ==> plain_value(#[trigger] ls[i]),
        one_line(sep),
    ensures
        one_line(join(ls, sep)),
    decreases ls.len(),
{
    if ls.len() == 1 {
        lemma_plain_one_line(ls[0]);
    } else if ls.len() > 1 {
        assert forall|i: int| 0 <= i < ls.drop_last().len() implies plain_value(#[trigger] ls.drop_last()[i]) by {
            assert(ls.drop_last()[i] == ls[i]);
        }
        lemma_join_one_line(ls.drop_last(), sep);
        assert(plain_value(ls[ls.len() - 1]));
        lemma_plain_one_line(ls.last());
        lemma_one_line_concat(join(ls.drop_last(), sep), sep);
        lemma_one_line_concat(join(ls.drop_last(), sep) + sep, ls.last());
    }
}

/// The conditions under which a rendered block parses back.
pub open spec fn renderable(
    name: Seq<char>,
    version: Seq<char>,
    source: Option<Seq<char>>,
    pinned: Option<Seq<char>>,
    deps: Seq<Seq<char>>,
    snippet: Seq<char>,
) -> bool {
    &&& valid_name(name)
    &&& version.len() > 0
    &&& plain_value(version)
    &&& (source matches Some(s) ==> plain_value(s))
    &&& (pinned matches Some(p) ==> p.len() > 0 && plain_value(p) && trim(p) == p)
    &&& forall|i: int| 0 <= i < deps.len() ==> plain_dep(#[trigger] deps[i])
    &&& plain_snippet(name, snippet)
}

/// A snippet the install and removal text surgery cannot mistake for the
/// end of its block: no carriage returns, and no line that trims to the
/// block's close marker.
pub open spec fn marker_free_snippet(name: Seq<char>, snippet: Seq<char>) -> bool {
    &&& !snippet.contains('\r')
    &&& forall|i: int| 0 <= i < lines(snippet).len() ==> trim(#[trigger] lines(snippet)[i]) != close_marker_spec(name)
}

/// Header values that each stay on one line, with a valid name and a snippet
/// free of close-marker lines: what a block needs for its lines to be exactly
/// [`rendered_lines`].
pub open spec fn plain_headers(
    name: Seq<char>,
    version: Seq<char>,
    source: Option<Seq<char>>,
    pinned: Option<Seq<char>>,
    deps: Seq<Seq<char>>,
    snippet: Seq<char>,
) -> bool {
    &&& valid_name(name)
    &&& plain_value(version)
    &&& (source matches Some(s) ==> plain_value(s))
    &&& (pinned matches Some(p) ==> plain_value(p))
    &&& forall|i: int| 0 <= i < deps.len() ==> plain_value(#[trigger] deps[i])
    &&& marker_free_snippet(name, snippet)
}

/// The conditions under which a rendered block is installed, read back and
/// removed as one piece: a valid recipe name; a version, source, pin and
/// snippet without carriage returns in which no line that stands on a line
/// of its own in the block trims to the block's close marker (the first line
/// of a header value shares its line with the header key, and the last line
/// of a version with the open line's ` >>>`); and dependency names that each
/// stay on one line.
pub open spec fn installable(
    name: Seq<char>,
    version: Seq<char>,
    source: Option<Seq<char>>,
    pinned: Option<Seq<char>>,
    deps: Seq<Seq<char>>,
    snippet: Seq<char>,
) -> bool {
    &&& valid_name(name)
    &&& version_ok(name, version)
    &&& (source matches Some(s) ==> header_value_ok(name, s))
    &&& (pinned matches Some(p) ==> header_value_ok(name, p))
    &&& forall|i: int| 0 <= i < deps.len() ==> plain_value(#[trigger] deps[i])
    &&& marker_free_snippet(name, snippet)
}

#[verifier::spinoff_prover]
#[verifier::rlimit(30)]
proof fn lemma_header_one_line(
    name: Seq<char>,
    version: Seq<char>,
    source: Option<Seq<char>>,
    pinned: Option<Seq<char>>,
    deps: Seq<Seq<char>>,
    snippet: Seq<char>,
)
    requires
        plain_headers(name, version, source, pinned, deps, snippet),
    ensures
        one_line(open_line(name, version)),
        one_line(close_marker_spec(name)),
        forall|i: int|
            0 <= i < header_lines(name, source, pinned, deps).len() ==> one_line(
                #[trigger] header_lines(name, source, pinned, deps)[i],
            ),
{
    lemma_markers_one_line();
    lemma_name_one_line(name);
    lemma_plain_one_line(version);
    lemma_one_line_concat(k_open_head(), name);
    lemma_one_line_concat(k_open_head() + name, seq!['@']);
    lemma_one_line_concat(k_open_head() + name + seq!['@'], version);
    lemma_one_line_concat(k_open_head() + name + seq!['@'] + version, k_open_tail());
    lemma_one_line_concat(k_close_head(), name);
    lemma_one_line_concat(k_close_head() + name, k_close_tail());
    lemma_one_line_concat(k_dne_head(), name);
    lemma_one_line_concat(k_dne_head() + name, k_dne_mid());
    lemma_one_line_concat(k_dne_head() + name + k_dne_mid(), name);
    lemma_one_line_concat(k_dne_head() + name + k_dne_mid() + name, k_dne_tail());
    match source {
        Some(v) => {
            lemma_plain_one_line(v);
            lemma_one_line_concat(k_source_line(), v);
        },
        None => {},
    }
    match pinned {
        Some(v) => {
            lemma_plain_one_line(v);
            lemma_one_line_concat(k_pinned_line(), v);
        },
        None => {},
    }
    if deps.len() > 0 {
        lemma_join_one_line(deps, k_list_sep());
        lemma_one_line_concat(k_depends_line(), join(deps, k_list_sep()));
    }
    let h = header_lines(name, source, pinned, deps);
    let a = opt_lines(k_source_line(), source);
    let b = opt_lines(k_pinned_line(), pinned);
    let d = dep_lines(deps);
    assert forall|i: int| 0 <= i < h.len() implies one_line(#[trigger] h[i]) by {
        if i < a.len() {
            assert(h[i] == a[i]);
        } else if i < a.len() + b.len() {
            assert(h[i] == b[i - a.len()]);
        } else if i < a.len() + b.len() + d.len() {
            assert(h[i] == d[i - a.len() - b.len()]);
        } else {
            assert(h[i] == dne_line(name));
        }
    }
}

/// The lines of a rendered block are exactly [`rendered_lines`].
proof fn lemma_render_lines(
    name: Seq<char>,
    version: Seq<char>,
    source: Option<Seq<char>>,
    pinned: Option<Seq<char>>,
    deps: Seq<Seq<char>>,
    snippet: Seq<char>,
)
    requires
        plain_headers(name, version, source, pinned, deps, snippet),
    ensures
        lines(render_spec(name, version, source, pinned, deps, snippet)) == rendered_lines(
            name,
            version,
            source,
            pinned,
            deps,
            snippet,
        ),
        all_lines(rendered_lines(name, version, source, pinned, deps, snippet)),
{
    lemma_render_terminated(name, version, source, pinned, deps, snippet);
    lemma_header_one_line(name, version, source, pinned, deps, snippet);
    lemma_body_lines(snippet);
    let rl = rendered_lines(name, version, source, pinned, deps, snippet);
    let h = header_lines(name, source, pinned, deps);
    let bl = body_lines(trim_trailing_nl(snippet));
    assert forall|i: int| 0 <= i < rl.len() implies is_line(#[trigger] rl[i]) by {
        if i == 0 {
            lemma_one_line_is_line(open_line(name, version));
        } else if i < 1 + h.len() {
            assert(rl[i] == h[i - 1]);
            lemma_one_line_is_line(h[i - 1]);
        } else if i < 1 + h.len() + bl.len() {
            assert(rl[i] == bl[i - 1 - h.len()]);
        } else {
            assert(rl[i] == close_marker_spec(name));
            lemma_one_line_is_line(close_marker_spec(name));
        }
    }
    lemma_lines_terminated(rl);
}

// ------------------------------------------------------------------ scanning

proof fn lemma_trim_start_id(s: Seq<char>)
    requires
        s.len() > 0,
        !is_ws(s[0]),
    ensures
        trim_start(s) == s,
{
}

/// `trim_end` keeps every character up to a non-blank one.
proof fn lemma_trim_end_reaches(s: Seq<char>, i: int)
    requires
        0 <= i < s.len(),
        !is_ws(s[i]),
    ensures
        trim_end(s).len() > i,
        trim_end(s) == s.subrange(0, trim_end(s).len() as int),
    decreases s.len(),
{
    if is_ws(s.last()) {
        assert(i < s.len() - 1);
        assert(s.drop_last()[i] == s[i]);
        lemma_trim_end_reaches(s.drop_last(), i);
        lemma_trim_len(s.drop_last());
        assert(trim_end(s) == trim_end(s.drop_last()));
        assert(s.drop_last().subrange(0, trim_end(s).len() as int) =~= s.subrange(
            0,
            trim_end(s).len() as int,
        ));
    } else {
        assert(s.subrange(0, s.len() as int) =~= s);
    }
}

proof fn lemma_trim_len(s: Seq<char>)
    ensures
        trim_start(s).len() <= s.len(),
        trim_end(s).len() <= s.len(),
    decreases s.len(),
{
    if s.len() > 0 {
        lemma_trim_len(s.drop_first());
        lemma_trim_len(s.drop_last());
    }
}

/// A line starting `#`, ` `, `c` with `c` not `<` never trims to a close marker.
proof fn lemma_not_close(l: Seq<char>, name: Seq<char>)
    requires
        l.len() >= 3,
        l[0] == '#',
        !is_ws(l[2]),
        l[2] != '<',
    ensures
        trim(l) != close_marker_spec(name),
{
    lemma_trim_start_id(l);
    lemma_trim_end_reaches(l, 2);
    let t = trim(l);
    assert(t == trim_end(l));
    lemma_trim_len(l);
    assert(t.len() <= l.len());
    assert(t == l.subrange(0, t.len() as int));
    assert(t[2] == l.subrange(0, t.len() as int)[2]);
    assert(t[2] == l[2]);
    assert(close_marker_spec(name)[2] == '<');
}

proof fn lemma_prefix_index(s: Seq<char>, p: Seq<char>, i: int)
    requires
        starts_with(s, p),
        0 <= i < p.len(),
    ensures
        s[i] == p[i],
{
    assert(s.subrange(0, p.len() as int)[i] == s[i]);
}

proof fn lemma_starts_with_concat(p: Seq<char>, s: Seq<char>, q: Seq<char>)
    requires
        q.len() <= p.len(),
        p.subrange(0, q.len() as int) == q,
    ensures
        starts_with(p + s, q),
{
    assert((p + s).subrange(0, q.len() as int) =~= p.subrange(0, q.len() as int));
}

/// Leading lines that the dependency scan passes over.
proof fn lemma_deps_skip(ls: Seq<Seq<char>>, k: int)
    requires
        0 <= k <= ls.len(),
        forall|j: int|
            0 <= j < k ==> is_header_line(trim_start(#[trigger] ls[j])) && !starts_with(
                trim_start(ls[j]),
                k_depends_key(),
            ),
    ensures
        parse_dependencies_spec(ls) == parse_dependencies_spec(ls.subrange(k, ls.len() as int)),
    decreases k,
{
    if k == 0 {
        assert(ls.subrange(0, ls.len() as int) =~= ls);
    } else {
        assert(is_header_line(trim_start(ls[0])) && !starts_with(trim_start(ls[0]), k_depends_key()));
        assert forall|j: int| 0 <= j < k - 1 implies is_header_line(trim_start(#[trigger] ls.drop_first()[j]))
            && !starts_with(trim_start(ls.drop_first()[j]), k_depends_key()) by {
            assert(ls.drop_first()[j] == ls[j + 1]);
        }
        lemma_deps_skip(ls.drop_first(), k - 1);
        assert(ls.drop_first().subrange(k - 1, ls.drop_first().len() as int) =~= ls.subrange(k, ls.len() as int));
    }
}

proof fn lemma_pinned_skip(ls: Seq<Seq<char>>, k: int)
    requires
        0 <= k <= ls.len(),
        forall|j: int|
            0 <= j < k ==> is_header_line(trim_start(#[trigger] ls[j])) && !starts_with(
                trim_start(ls[j]),
                k_pinned_key(),
            ),
    ensures
        parse_pinned_spec(ls) == parse_pinned_spec(ls.subrange(k, ls.len() as int)),
    decreases k,
{
    if k == 0 {
        assert(ls.subrange(0, ls.len() as int) =~= ls);
    } else {
        assert(is_header_line(trim_start(ls[0])) && !starts_with(trim_start(ls[0]), k_pinned_key()));
        assert forall|j: int| 0 <= j < k - 1 implies is_header_line(trim_start(#[trigger] ls.drop_first()[j]))
            && !starts_with(trim_start(ls.drop_first()[j]), k_pinned_key()) by {
            assert(ls.drop_first()[j] == ls[j + 1]);
        }
        lemma_pinned_skip(ls.drop_first(), k - 1);
        assert(ls.drop_first().subrange(k - 1, ls.drop_first().len() as int) =~= ls.subrange(k, ls.len() as int));
    }
}

/// Body lines that are no header lines hold no dependency list and no pin.
proof fn lemma_scan_body(ls: Seq<Seq<char>>)
    requires
        forall|j: int| 0 <= j < ls.len() ==> !is_written_header(trim_start(#[trigger] ls[j])),
    ensures
        parse_dependencies_spec(ls) == Seq::<Seq<char>>::empty(),
        parse_pinned_spec(ls).is_none(),
    decreases ls.len(),
{
    if ls.len() > 0 {
        let t = trim_start(ls[0]);
        assert(!is_written_header(t));
        if is_header_line(t) {
            assert forall|j: int| 0 <= j < ls.drop_first().len() implies !is_written_header(
                trim_start(#[trigger] ls.drop_first()[j]),
            ) by {
                assert(ls.drop_first()[j] == ls[j + 1]);
            }
            lemma_scan_body(ls.drop_first());
        }
    }
}

proof fn lemma_name_char_not_ws(c: char)
    requires
        is_name_char(c),
    ensures
        !is_ws(c),
        c != ',',
        c != '@',
{
}

/// `trim` of blanks followed by a trimmed dependency is the dependency.
proof fn lemma_trim_padded_name(pre: Seq<char>, d: Seq<char>)
    requires
        forall|j: int| 0 <= j < pre.len() ==> is_ws(#[trigger] pre[j]),
        plain_dep(d),
    ensures
        trim(pre + d) == d,
{
    let s = pre + d;
    assert forall|j: int| 0 <= j < pre.len() implies is_ws(#[trigger] s[j]) by {
        assert(s[j] == pre[j]);
    }
    assert(s[pre.len() as int] == d[0]);
    lemma_trim_start_skip(s, pre.len() as int);
    assert(s.subrange(pre.len() as int, s.len() as int) =~= d);
    lemma_trim_end_keep(d, d.len() as int);
    assert(d.subrange(0, d.len() as int) =~= d);
}

/// `split_list` undoes the `, `-join of dependencies.
#[verifier::spinoff_prover]
#[verifier::rlimit(30)]
proof fn lemma_split_names(pre: Seq<char>, deps: Seq<Seq<char>>)
    requires
        forall|j: int| 0 <= j < pre.len() ==> is_ws(#[trigger] pre[j]) && pre[j] != ',',
        deps.len() > 0,
        forall|i: int| 0 <= i < deps.len() ==> plain_dep(#[trigger] deps[i]),
    ensures
        split_list(pre + join(deps, k_list_sep())) == deps,
    decreases deps.len(),
{
    let d0 = deps[0];
    assert(plain_dep(d0));
    let s = pre + join(deps, k_list_sep());
    assert forall|j: int| 0 <= j < pre.len() + d0.len() implies (pre + d0)[j] != ',' by {
        if j >= pre.len() {
            assert((pre + d0)[j] == d0[j - pre.len()]);
            if d0[j - pre.len()] == ',' {
                assert(d0.contains(','));
            }
        }
    }
    lemma_trim_padded_name(pre, d0);
    if deps.len() == 1 {
        assert(join(deps, k_list_sep()) == d0);
        assert forall|j: int| 0 <= j < s.len() implies s[j] != ',' by {
            assert(s[j] == (pre + d0)[j]);
        }
        lemma_find_char_at(s, ',', s.len() as int);
        assert(s.subrange(0, s.len() as int) =~= s);
        assert(s =~= pre + d0);
        assert(split_list(s) =~= deps);
    } else {
        let rest = deps.drop_first();
        assert(deps =~= seq![d0] + rest);
        lemma_join_cons(d0, rest, k_list_sep());
        let k: int = (pre.len() + d0.len()) as int;
        assert(s =~= (pre + d0) + seq![','] + (seq![' '] + join(rest, k_list_sep())));
        assert forall|j: int| 0 <= j < k implies s[j] != ',' by {
            assert(s[j] == (pre + d0)[j]);
        }
        assert(s[k] == ',');
        lemma_find_char_at(s, ',', k);
        assert(s.subrange(0, k) =~= pre + d0);
        assert(s.subrange(k + 1, s.len() as int) =~= seq![' '] + join(rest, k_list_sep()));
        assert forall|i: int| 0 <= i < rest.len() implies plain_dep(#[trigger] rest[i]) by {
            assert(rest[i] == deps[i + 1]);
        }
        assert(is_ws(seq![' '][0]));
        lemma_split_names(seq![' '], rest);
        assert(split_list(s) =~= seq![d0] + rest);
    }
}

proof fn lemma_trim_after_space(p: Seq<char>)
    requires
        trim(p) == p,
    ensures
        trim(seq![' '] + p) == p,
{
    let sp = seq![' '] + p;
    assert(sp.drop_first() =~= p);
    assert(trim_start(sp) == trim_start(p));
}

/// Facts about a header line `prefix + v` whose prefix starts with `key`.
proof fn lemma_header_line(prefix: Seq<char>, v: Seq<char>, key: Seq<char>, name: Seq<char>)
    requires
        4 <= key.len() <= prefix.len(),
        prefix.subrange(0, key.len() as int) == key,
        prefix[0] == '#',
        !is_ws(prefix[2]),
        prefix[2] != '<',
    ensures
        trim_start(prefix + v) == prefix + v,
        starts_with(prefix + v, key),
        (prefix + v)[2] == prefix[2],
        (prefix + v)[3] == prefix[3],
        trim(prefix + v) != close_marker_spec(name),
{
    let l = prefix + v;
    assert(l[0] == prefix[0]);
    assert(l[2] == prefix[2]);
    assert(l[3] == prefix[3]);
    lemma_trim_start_id(l);
    lemma_starts_with_concat(prefix, v, key);
    lemma_not_close(l, name);
}

proof fn lemma_parse_open(name: Seq<char>, version: Seq<char>)
    requires
        valid_name(name),
        version.len() > 0,
    ensures
        parse_open_spec(open_line(name, version)) == Some((name, version)),
{
    let l = open_line(name, version);
    let h = k_open_head();
    let tl = k_open_tail();
    assert(l =~= h + (name + seq!['@'] + version + tl));
    assert(l[0] == '#');
    lemma_trim_start_id(l);
    assert(h.subrange(0, h.len() as int) =~= h);
    lemma_starts_with_concat(h, name + seq!['@'] + version + tl, h);
    let t = l.subrange(h.len() as int, l.len() as int);
    assert(t =~= name + seq!['@'] + version + tl);
    assert(t.subrange(t.len() - tl.len(), t.len() as int) =~= tl);
    assert(ends_with(t, tl));
    let inner = l.subrange(h.len() as int, l.len() - tl.len());
    assert(inner =~= name + seq!['@'] + version);
    assert forall|j: int| 0 <= j < name.len() implies inner[j] != '@' by {
        assert(inner[j] == name[j]);
        lemma_name_char_not_ws(name[j]);
    }
    assert(inner[name.len() as int] == '@');
    lemma_find_char_at(inner, '@', name.len() as int);
    assert(inner.subrange(0, name.len() as int) =~= name);
    assert(inner.subrange(name.len() as int + 1, inner.len() as int) =~= version);
}

#[verifier::spinoff_prover]
#[verifier::rlimit(30)]
proof fn lemma_header_facts(
    name: Seq<char>,
    version: Seq<char>,
    source: Option<Seq<char>>,
    pinned: Option<Seq<char>>,
    deps: Seq<Seq<char>>,
    snippet: Seq<char>,
)
    requires
        plain_headers(name, version, source, pinned, deps, snippet),
    ensures
        forall|i: int|
            0 <= i < header_lines(name, source, pinned, deps).len() ==> {
                let l = #[trigger] header_lines(name, source, pinned, deps)[i];
                &&& trim_start(l) == l
                &&& is_written_header(l)
                &&& trim(l) != close_marker_spec(name)
            },
{
    let a = opt_lines(k_source_line(), source);
    let b = opt_lines(k_pinned_line(), pinned);
    let d = dep_lines(deps);
    let h = header_lines(name, source, pinned, deps);
    assert(h =~= a + b + d + seq![dne_line(name)]);
    let dne_rest = name + k_dne_mid() + name + k_dne_tail();
    assert(dne_line(name) =~= k_dne_head() + dne_rest);
    assert(k_dne_head().subrange(0, k_dne_key().len() as int) =~= k_dne_key());
    lemma_header_line(k_dne_head(), dne_rest, k_dne_key(), name);
    match source {
        Some(v) => {
            assert(k_source_line().subrange(0, k_source_key().len() as int) =~= k_source_key());
            lemma_header_line(k_source_line(), v, k_source_key(), name);
        },
        None => {},
    }
    match pinned {
        Some(v) => {
            assert(k_pinned_line().subrange(0, k_pinned_key().len() as int) =~= k_pinned_key());
            lemma_header_line(k_pinned_line(), v, k_pinned_key(), name);
        },
        None => {},
    }
    if deps.len() > 0 {
        assert(k_depends_line().subrange(0, k_depends_key().len() as int) =~= k_depends_key());
        lemma_header_line(k_depends_line(), join(deps, k_list_sep()), k_depends_key(), name);
    }
    assert forall|i: int| 0 <= i < h.len() implies {
        let l = #[trigger] h[i];
        &&& trim_start(l) == l
        &&& is_written_header(l)
        &&& trim(l) != close_marker_spec(name)
    } by {
        if i < a.len() {
            assert(h[i] == a[i]);
        } else if i < a.len() + b.len() {
            assert(h[i] == b[i - a.len()]);
        } else if i < a.len() + b.len() + d.len() {
            assert(h[i] == d[i - a.len() - b.len()]);
        } else {
            assert(h[i] == dne_line(name));
        }
    }
}

proof fn lemma_body_facts(name: Seq<char>, snippet: Seq<char>)
    requires
        plain_snippet(name, snippet),
    ensures
        body_lines(trim_trailing_nl(snippet)).len() > 0,
        join(body_lines(trim_trailing_nl(snippet)), seq!['\n']) == trim_trailing_nl(snippet),
        forall|i: int|
            0 <= i < body_lines(trim_trailing_nl(snippet)).len() ==> {
                let l = #[trigger] body_lines(trim_trailing_nl(snippet))[i];
                &&& !is_written_header(trim_start(l))
                &&& trim(l) != close_marker_spec(name)
            },
{
    lemma_body_lines(snippet);
    let s = trim_trailing_nl(snippet);
    let bl = body_lines(s);
    assert forall|i: int| 0 <= i < bl.len() implies {
        let l = #[trigger] bl[i];
        &&& !is_written_header(trim_start(l))
        &&& trim(l) != close_marker_spec(name)
    } by {
        if s.len() == 0 {
            assert(bl[i] == Seq::<char>::empty());
            assert(trim_start(bl[i]) =~= Seq::<char>::empty());
            lemma_trim_len(bl[i]);
            assert(trim(bl[i]).len() == 0);
        } else {
            assert(bl[i] == lines(snippet)[i]);
        }
    }
}

proof fn lemma_close_trim(name: Seq<char>)
    requires
        valid_name(name),
    ensures
        trim(close_marker_spec(name)) == close_marker_spec(name),
{
    let close = close_marker_spec(name);
    assert(close =~= k_close_head() + (name + k_close_tail()));
    assert(close[0] == '#');
    lemma_trim_start_id(close);
    assert(close[close.len() - 1] == '<');
    lemma_trim_end_keep(close, close.len() as int);
    assert(close.subrange(0, close.len() as int) =~= close);
}

#[verifier::spinoff_prover]
#[verifier::rlimit(30)]
proof fn lemma_parse_rendered_lines(
    name: Seq<char>,
    version: Seq<char>,
    source: Option<Seq<char>>,
    pinned: Option<Seq<char>>,
    deps: Seq<Seq<char>>,
    snippet: Seq<char>,
)
    requires
        renderable(name, version, source, pinned, deps, snippet),
    ensures
        parse_blocks(rendered_lines(name, version, source, pinned, deps, snippet)) == seq![
            make_block(
                name,
                version,
                header_lines(name, source, pinned, deps) + body_lines(trim_trailing_nl(snippet)),
            ),
        ],
{
    let rl = rendered_lines(name, version, source, pinned, deps, snippet);
    let close = close_marker_spec(name);
    let h = header_lines(name, source, pinned, deps);
    let bl = body_lines(trim_trailing_nl(snippet));
    let hb = h + bl;
    lemma_header_facts(name, version, source, pinned, deps, snippet);
    lemma_body_facts(name, snippet);
    lemma_parse_open(name, version);
    let rest = rl.drop_first();
    assert(rest =~= hb + seq![close]);
    assert forall|j: int| 0 <= j < rest.len() - 1 implies trim(#[trigger] rest[j]) != close by {
        if j < h.len() {
            assert(rest[j] == h[j]);
        } else {
            assert(rest[j] == bl[j - h.len()]);
        }
    }
    lemma_close_trim(name);
    lemma_find_line_at(rest, close, rest.len() - 1);
    assert(rest.subrange(0, rest.len() - 1) =~= hb);
    assert(rest.subrange(rest.len() as int, rest.len() as int) =~= Seq::<Seq<char>>::empty());
    assert(rl[0] == open_line(name, version));
    assert(find_line(rest, close) == rest.len() - 1);
    let empty = Seq::<Seq<char>>::empty();
    assert(parse_blocks(empty) == Seq::<BlockView>::empty());
    assert(parse_blocks(rl) == seq![make_block(name, version, rest.subrange(0, rest.len() - 1))] + parse_blocks(
        rest.subrange(rest.len() as int, rest.len() as int),
    ));
    assert(seq![make_block(name, version, hb)] + Seq::<BlockView>::empty() =~= seq![make_block(name, version, hb)]);
}

#[verifier::spinoff_prover]
#[verifier::rlimit(30)]
proof fn lemma_header_deps(
    name: Seq<char>,
    version: Seq<char>,
    source: Option<Seq<char>>,
    pinned: Option<Seq<char>>,
    deps: Seq<Seq<char>>,
    snippet: Seq<char>,
)
    requires
        renderable(name, version, source, pinned, deps, snippet),
    ensures
        parse_dependencies_spec(header_lines(name, source, pinned, deps) + body_lines(trim_trailing_nl(snippet)))
            == deps,
{
    let a = opt_lines(k_source_line(), source);
    let b = opt_lines(k_pinned_line(), pinned);
    let d = dep_lines(deps);
    let h = header_lines(name, source, pinned, deps);
    let bl = body_lines(trim_trailing_nl(snippet));
    let hb = h + bl;
    assert(h =~= a + b + d + seq![dne_line(name)]);
    lemma_header_facts(name, version, source, pinned, deps, snippet);
    lemma_body_facts(name, snippet);
    lemma_scan_body(bl);
    let kd = (a.len() + b.len()) as int;
    assert forall|j: int| 0 <= j < h.len() && (j < kd || deps.len() == 0) implies is_header_line(
        trim_start(#[trigger] hb[j]),
    ) && !starts_with(trim_start(hb[j]), k_depends_key()) by {
        assert(hb[j] == h[j]);
        if starts_with(trim_start(hb[j]), k_depends_key()) {
            lemma_prefix_index(hb[j], k_depends_key(), 2);
            lemma_prefix_index(hb[j], k_depends_key(), 3);
            if j < a.len() {
                assert(h[j] == a[j]);
                assert((k_source_line() + source->0)[2] == 's');
            } else if j < kd {
                assert(h[j] == b[j - a.len()]);
                assert((k_pinned_line() + pinned->0)[2] == 'p');
            } else {
                assert(h[j] == dne_line(name));
                assert(dne_line(name)[3] == 'o');
            }
        }
    }
    if deps.len() > 0 {
        lemma_deps_skip(hb, kd);
        let tail = hb.subrange(kd, hb.len() as int);
        let dl = k_depends_line() + join(deps, k_list_sep());
        assert(tail[0] == hb[kd] && hb[kd] == h[kd] && h[kd] == d[0]);
        assert(trim_start(dl) == dl);
        assert(dl.subrange(k_depends_key().len() as int, dl.len() as int) =~= seq![' '] + join(
            deps,
            k_list_sep(),
        ));
        assert(is_ws(seq![' '][0]));
        lemma_split_names(seq![' '], deps);
        assert(parse_dependencies_spec(tail) == deps);
    } else {
        lemma_deps_skip(hb, h.len() as int);
        assert(hb.subrange(h.len() as int, hb.len() as int) =~= bl);
    }
}

#[verifier::spinoff_prover]
#[verifier::rlimit(30)]
proof fn lemma_header_pin(
    name: Seq<char>,
    version: Seq<char>,
    source: Option<Seq<char>>,
    pinned: Option<Seq<char>>,
    deps: Seq<Seq<char>>,
    snippet: Seq<char>,
)
    requires
        renderable(name, version, source, pinned, deps, snippet),
    ensures
        parse_pinned_spec(header_lines(name, source, pinned, deps) + body_lines(trim_trailing_nl(snippet)))
            == pinned,
{
    let a = opt_lines(k_source_line(), source);
    let b = opt_lines(k_pinned_line(), pinned);
    let d = dep_lines(deps);
    let h = header_lines(name, source, pinned, deps);
    let bl = body_lines(trim_trailing_nl(snippet));
    let hb = h + bl;
    assert(h =~= a + b + d + seq![dne_line(name)]);
    lemma_header_facts(name, version, source, pinned, deps, snippet);
    lemma_body_facts(name, snippet);
    lemma_scan_body(bl);
    let kp = a.len() as int;
    assert forall|j: int| 0 <= j < h.len() && (j < kp || pinned.is_none()) implies is_header_line(
        trim_start(#[trigger] hb[j]),
    ) && !starts_with(trim_start(hb[j]), k_pinned_key()) by {
        assert(hb[j] == h[j]);
        if starts_with(trim_start(hb[j]), k_pinned_key()) {
            lemma_prefix_index(hb[j], k_pinned_key(), 2);
            if j < a.len() {
                assert(h[j] == a[j]);
                assert((k_source_line() + source->0)[2] == 's');
            } else if j < kp + d.len() {
                assert(h[j] == d[j - kp]);
                assert((k_depends_line() + join(deps, k_list_sep()))[2] == 'd');
            } else {
                assert(h[j] == dne_line(name));
                assert(dne_line(name)[2] == 'd');
            }
        }
    }
    match pinned {
        Some(p) => {
            lemma_pinned_skip(hb, kp);
            let tail = hb.subrange(kp, hb.len() as int);
            let pl = k_pinned_line() + p;
            assert(tail[0] == hb[kp] && hb[kp] == h[kp] && h[kp] == b[0]);
            assert(trim_start(pl) == pl);
            assert(pl.subrange(k_pinned_key().len() as int, pl.len() as int) =~= seq![' '] + p);
            lemma_trim_after_space(p);
            assert(parse_pinned_spec(tail) == pinned);
        },
        None => {
            lemma_pinned_skip(hb, h.len() as int);
            assert(hb.subrange(h.len() as int, hb.len() as int) =~= bl);
        },
    }
}

/// Rendering then parsing gives back the block: its name, version,
/// dependencies and pin, and the snippet (without trailing line endings) as
/// its body.
#[verifier::spinoff_prover]
#[verifier::rlimit(30)]
pub proof fn rendered_block_parses_back(
    name: Seq<char>,
    version: Seq<char>,
    source: Option<Seq<char>>,
    pinned: Option<Seq<char>>,
    deps: Seq<Seq<char>>,
    snippet: Seq<char>,
)
    requires
        renderable(name, version, source, pinned, deps, snippet),
    ensures
        parse_all_spec(render_spec(name, version, source, pinned, deps, snippet)) == seq![
            BlockView { name, version, body: trim_trailing_nl(snippet), dependencies: deps, pinned },
        ],
{
    lemma_render_lines(name, version, source, pinned, deps, snippet);
    lemma_parse_rendered_lines(name, version, source, pinned, deps, snippet);
    lemma_header_facts(name, version, source, pinned, deps, snippet);
    lemma_body_facts(name, snippet);
    lemma_header_deps(name, version, source, pinned, deps, snippet);
    lemma_header_pin(name, version, source, pinned, deps, snippet);
    let h = header_lines(name, source, pinned, deps);
    let bl = body_lines(trim_trailing_nl(snippet));
    let hb = h + bl;
    assert forall|j: int| 0 <= j < h.len() implies is_written_header(trim_start(#[trigger] hb[j])) by {
        assert(hb[j] == h[j]);
    }
    assert(!is_written_header(trim_start(hb[h.len() as int]))) by {
        assert(hb[h.len() as int] == bl[0]);
    }
    lemma_strip_header_at(hb, h.len() as int);
    assert(hb.subrange(h.len() as int, hb.len() as int) =~= bl);
}

// ------------------------------------------------------------------ remove

/// A line that does not open a block named `name`.
pub open spec fn no_open(l: Seq<char>, name: Seq<char>) -> bool {
    !starts_with(trim_start(l), open_marker_spec(name))
}

/// Single lines, none of which opens a block named `name`.
pub open spec fn clean(ls: Seq<Seq<char>>, name: Seq<char>) -> bool {
    forall|i: int| 0 <= i < ls.len() ==> no_open(#[trigger] ls[i], name) && !ls[i].contains('\n')
}

/// `w` is the text of the lines `x` (with or without a final line ending);
/// the last line is not empty.
pub open spec fn text_of(x: Seq<Seq<char>>, w: Seq<char>) -> bool {
    ||| x.len() == 0 && w.len() == 0
    ||| x.len() > 0 && x.last().len() > 0 && (w == join(x, seq!['\n']) || w == terminated(x))
}

proof fn lemma_trim_start_prefix(x: Seq<char>, n: int, o: Seq<char>)
    requires
        0 <= n <= x.len(),
        o.len() > 0,
        starts_with(trim_start(x.subrange(0, n)), o),
    ensures
        starts_with(trim_start(x), o),
    decreases x.len(),
{
    let p = x.subrange(0, n);
    if n == 0 {
        assert(p.len() == 0);
        assert(trim_start(p).len() == 0);
    } else if is_ws(x[0]) {
        assert(p[0] == x[0]);
        assert(p.drop_first() =~= x.drop_first().subrange(0, n - 1));
        lemma_trim_start_prefix(x.drop_first(), n - 1, o);
    } else {
        assert(p[0] == x[0]);
        assert(trim_start(p) == p);
        assert(trim_start(x) == x);
        assert(x.subrange(0, o.len() as int) =~= p.subrange(0, o.len() as int));
    }
}

proof fn lemma_no_open_strip_cr(l: Seq<char>, name: Seq<char>)
    requires
        no_open(l, name),
    ensures
        no_open(strip_cr(l), name),
{
    if l.len() > 0 && l.last() == '\r' {
        assert(strip_cr(l) == l.subrange(0, l.len() - 1));
        if !no_open(strip_cr(l), name) {
            lemma_trim_start_prefix(l, l.len() - 1, open_marker_spec(name));
        }
    }
}

/// The lines a removal keeps open no block named `name`.
proof fn lemma_strip_clean(ls: Seq<Seq<char>>, name: Seq<char>)
    requires
        no_nl_lines(ls),
    ensures
        clean(strip_block(ls, name).out, name),
    decreases ls.len(),
{
    if ls.len() > 0 {
        assert(no_nl_lines(ls.drop_last())) by {
            assert forall|i: int| 0 <= i < ls.drop_last().len() implies !(#[trigger] ls.drop_last()[i]).contains('\n') by {
                assert(ls.drop_last()[i] == ls[i]);
            }
        }
        lemma_strip_clean(ls.drop_last(), name);
        let st = strip_block(ls.drop_last(), name);
        let out = strip_block(ls, name).out;
        assert(strip_block(ls, name) == strip_step(st, ls.last(), open_marker_spec(name), close_marker_spec(name)));
        assert(!ls[ls.len() - 1].contains('\n'));
        assert forall|i: int| 0 <= i < out.len() implies no_open(#[trigger] out[i], name) && !out[i].contains('\n') by {
            if i < st.out.len() {
                assert(out[i] == st.out[i]);
            }
        }
    }
}

/// The presence flag of a removal: some line opens a block named `name`.
proof fn lemma_strip_removed(ls: Seq<Seq<char>>, name: Seq<char>)
    ensures
        strip_block(ls, name).in_block ==> strip_block(ls, name).removed,
        strip_block(ls, name).removed == exists|i: int| 0 <= i < ls.len() && !no_open(#[trigger] ls[i], name),
    decreases ls.len(),
{
    if ls.len() > 0 {
        lemma_strip_removed(ls.drop_last(), name);
        let st = strip_block(ls.drop_last(), name);
        assert(strip_block(ls, name) == strip_step(st, ls.last(), open_marker_spec(name), close_marker_spec(name)));
        if st.removed {
            let i = choose|i: int| 0 <= i < ls.drop_last().len() && !no_open(#[trigger] ls.drop_last()[i], name);
            assert(ls[i] == ls.drop_last()[i]);
        }
        if exists|i: int| 0 <= i < ls.len() && !no_open(#[trigger] ls[i], name) {
            let i = choose|i: int| 0 <= i < ls.len() && !no_open(#[trigger] ls[i], name);
            if i < ls.len() - 1 {
                assert(ls.drop_last()[i] == ls[i]);
            }
        }
        if !no_open(ls.last(), name) {
            assert(!no_open(ls[ls.len() - 1], name));
        }
    }
}

proof fn lemma_collapse_clean(ls: Seq<Seq<char>>, name: Seq<char>)
    requires
        clean(ls, name),
    ensures
        clean(collapse_blanks(ls), name),
    decreases ls.len(),
{
    if ls.len() > 0 {
        assert(clean(ls.drop_last(), name)) by {
            assert forall|i: int| 0 <= i < ls.drop_last().len() implies no_open(#[trigger] ls.drop_last()[i], name)
                && !ls.drop_last()[i].contains('\n') by {
                assert(ls.drop_last()[i] == ls[i]);
            }
        }
        lemma_collapse_clean(ls.drop_last(), name);
        let c = collapse_blanks(ls.drop_last());
        let r = collapse_blanks(ls);
        assert(no_open(ls[ls.len() - 1], name) && !ls[ls.len() - 1].contains('\n'));
        assert forall|i: int| 0 <= i < r.len() implies no_open(#[trigger] r[i], name) && !r[i].contains('\n') by {
            if i < c.len() {
                assert(r[i] == c[i]);
            }
        }
    }
}

proof fn lemma_mend_clean(out: Seq<Seq<char>>, seam: Option<int>, name: Seq<char>)
    requires
        clean(out, name),
    ensures
        clean(mend_seam(out, seam), name),
{
    let r = mend_seam(out, seam);
    match seam {
        Some(k) => {
            if 0 < k < out.len() && is_blank(out[k - 1]) && is_blank(out[k]) {
                assert forall|i: int| 0 <= i < r.len() implies no_open(#[trigger] r[i], name) && !r[i].contains('\n') by {
                    if i < k {
                        assert(r[i] == out[i]);
                    } else {
                        assert(r[i] == out[i + 1]);
                    }
                }
            }
        },
        None => {},
    }
}

proof fn lemma_drop_trailing_clean(ls: Seq<Seq<char>>, name: Seq<char>)
    requires
        clean(ls, name),
    ensures
        clean(drop_trailing_blanks(ls), name),
        drop_trailing_blanks(ls).len() > 0 ==> !is_blank(drop_trailing_blanks(ls).last()),
    decreases ls.len(),
{
    if ls.len() > 0 && is_blank(ls.last()) {
        assert(clean(ls.drop_last(), name)) by {
            assert forall|i: int| 0 <= i < ls.drop_last().len() implies no_open(#[trigger] ls.drop_last()[i], name)
                && !ls.drop_last()[i].contains('\n') by {
                assert(ls.drop_last()[i] == ls[i]);
            }
        }
        lemma_drop_trailing_clean(ls.drop_last(), name);
    }
}

proof fn lemma_finish_text(x: Seq<Seq<char>>, doc: Seq<char>)
    requires
        no_nl_lines(x),
        x.len() > 0 ==> !is_blank(x.last()),
    ensures
        text_of(x, finish_nl(join(x, seq!['\n']), doc)),
{
    if x.len() > 0 {
        let j = join(x, seq!['\n']);
        assert(x.last().len() > 0);
        assert(x.drop_last().push(x.last()) =~= x);
        lemma_join_terminated(x.drop_last(), x.last());
        assert(j == terminated(x.drop_last()) + x.last());
        assert(j.last() == x.last().last());
        assert(!x[x.len() - 1].contains('\n'));
        assert(x.last().last() != '\n') by {
            assert(x.last().contains(x.last()[x.last().len() - 1]));
        }
        crate::text::lemma_ends_with_char(j, '\n');
        lemma_join_nl(x);
    } else {
        assert(join(x, seq!['\n']).len() == 0);
    }
}

/// What a removal leaves: the text of lines none of which opens `name`.
proof fn lemma_remove_shape(target: Target, doc: Seq<char>, name: Seq<char>) -> (x: Seq<Seq<char>>)
    ensures
        clean(x, name),
        text_of(x, remove_spec(target, doc, name).0),
        x == drop_trailing_blanks(
            match target {
                Target::Just => collapse_blanks(strip_block(lines(doc), name).out),
                Target::Task => mend_seam(strip_block(lines(doc), name).out, strip_block(lines(doc), name).seam),
            },
        ),
{
    lemma_lines_no_nl(doc);
    let ls = lines(doc);
    lemma_strip_clean(ls, name);
    let st = strip_block(ls, name);
    let mid = match target {
        Target::Just => collapse_blanks(st.out),
        Target::Task => mend_seam(st.out, st.seam),
    };
    match target {
        Target::Just => lemma_collapse_clean(st.out, name),
        Target::Task => lemma_mend_clean(st.out, st.seam, name),
    }
    lemma_drop_trailing_clean(mid, name);
    let x = drop_trailing_blanks(mid);
    assert(no_nl_lines(x)) by {
        assert forall|i: int| 0 <= i < x.len() implies !(#[trigger] x[i]).contains('\n') by {
            assert(no_open(x[i], name) && !x[i].contains('\n'));
        }
    }
    lemma_finish_text(x, doc);
    x
}

/// Every line of the text of clean lines opens no block named `name`.
proof fn lemma_text_lines(x: Seq<Seq<char>>, w: Seq<char>, name: Seq<char>)
    requires
        clean(x, name),
        text_of(x, w),
    ensures
        forall|i: int| 0 <= i < lines(w).len() ==> no_open(#[trigger] lines(w)[i], name),
{
    if x.len() > 0 {
        assert(no_nl_lines(x)) by {
            assert forall|i: int| 0 <= i < x.len() implies !(#[trigger] x[i]).contains('\n') by {
                assert(no_open(x[i], name) && !x[i].contains('\n'));
            }
        }
        assert forall|i: int| 0 <= i < x.len() implies no_open(#[trigger] strip_crs(x)[i], name) by {
            assert(no_open(x[i], name));
            lemma_no_open_strip_cr(x[i], name);
        }
        if w == terminated(x) {
            lemma_lines_terminated_cr(x);
        } else {
            let init = x.drop_last();
            assert(init.push(x.last()) =~= x);
            lemma_join_terminated(init, x.last());
            assert(no_nl_lines(init)) by {
                assert forall|i: int| 0 <= i < init.len() implies !(#[trigger] init[i]).contains('\n') by {
                    assert(init[i] == x[i]);
                }
            }
            assert(!x[x.len() - 1].contains('\n'));
            lemma_lines_terminated_then_cr(init, x.last());
            assert forall|i: int| 0 <= i < lines(w).len() implies no_open(#[trigger] lines(w)[i], name) by {
                if i < init.len() {
                    assert(strip_crs(init)[i] == strip_crs(x)[i]);
                } else {
                    assert(no_open(x[x.len() - 1], name));
                }
            }
        }
    } else {
        assert(lines(w).len() == 0);
    }
}

/// A parsed open line starts (after indentation) with its name's open marker.
proof fn lemma_parse_open_marker(l: Seq<char>)
    requires
        parse_open_spec(l) is Some,
    ensures
        starts_with(trim_start(l), open_marker_spec((parse_open_spec(l)->0).0)),
{
    let t = trim_start(l);
    let h = k_open_head().len();
    let tl = k_open_tail().len();
    let inner = t.subrange(h as int, t.len() - tl);
    let k = find_char(inner, '@');
    lemma_find_char(inner, '@');
    let nm = inner.subrange(0, k);
    assert(t.subrange(0, h as int) == k_open_head());
    assert(t.subrange(0, open_marker_spec(nm).len() as int) =~= k_open_head() + nm + seq!['@']) by {
        assert forall|j: int| 0 <= j < open_marker_spec(nm).len() implies t[j] == (k_open_head() + nm + seq!['@'])[j] by {
            if j < h {
                assert(t[j] == t.subrange(0, h as int)[j]);
            } else if j < h + k {
                assert(t[j] == inner[j - h]);
            } else {
                assert(t[j] == inner[k]);
            }
        }
    }
}

proof fn lemma_count_named_concat(a: Seq<BlockView>, b: Seq<BlockView>, name: Seq<char>)
    ensures
        count_named(a + b, name) == count_named(a, name) + count_named(b, name),
    decreases b.len(),
{
    if b.len() == 0 {
        assert(a + b =~= a);
    } else {
        lemma_count_named_concat(a, b.drop_last(), name);
        assert((a + b).drop_last() =~= a + b.drop_last());
    }
}

/// Lines none of which opens `name` parse to no block named `name`.
proof fn lemma_parse_none_named(ls: Seq<Seq<char>>, name: Seq<char>)
    requires
        forall|i: int| 0 <= i < ls.len() ==> no_open(#[trigger] ls[i], name),
    ensures
        count_named(parse_blocks(ls), name) == 0,
    decreases ls.len(),
{
    if ls.len() > 0 {
        assert forall|i: int| 0 <= i < ls.drop_first().len() implies no_open(#[trigger] ls.drop_first()[i], name) by {
            assert(ls.drop_first()[i] == ls[i + 1]);
        }
        match parse_open_spec(ls[0]) {
            None => {
                lemma_parse_none_named(ls.drop_first(), name);
            },
            Some((nm, version)) => {
                let rest = ls.drop_first();
                let j = find_line(rest, close_marker_spec(nm));
                if 0 <= j < rest.len() {
                    let tail = rest.subrange(j + 1, rest.len() as int);
                    assert forall|i: int| 0 <= i < tail.len() implies no_open(#[trigger] tail[i], name) by {
                        assert(tail[i] == ls[i + j + 2]);
                    }
                    lemma_parse_none_named(tail, name);
                    lemma_parse_open_marker(ls[0]);
                    assert(no_open(ls[0], name));
                    assert(nm != name);
                    let bk = make_block(nm, version, rest.subrange(0, j));
                    lemma_count_named_concat(seq![bk], parse_blocks(tail), name);
                    assert(seq![bk].drop_last() =~= Seq::<BlockView>::empty());
                    assert(seq![bk].last() == bk);
                    assert(bk.name == nm);
                    assert(count_named(Seq::<BlockView>::empty(), name) == 0);
                    assert(count_named(seq![bk], name) == count_named(seq![bk].drop_last(), name) + 0);
                    assert(count_named(seq![bk], name) == 0);
                }
            },
        }
    }
}

/// Whether a removal reports a block: some line opens one named `name`.
pub proof fn remove_reports_presence(target: Target, doc: Seq<char>, name: Seq<char>)
    ensures
        remove_spec(target, doc, name).1 == exists|i: int|
            0 <= i < lines(doc).len() && !no_open(#[trigger] lines(doc)[i], name),
{
    lemma_strip_removed(lines(doc), name);
}

/// After a removal no line of the text opens a block named `name`: parsing
/// finds no such block and extracting it gives nothing.
pub proof fn removed_block_is_gone(target: Target, doc: Seq<char>, name: Seq<char>)
    ensures
        forall|i: int|
            0 <= i < lines(remove_spec(target, doc, name).0).len() ==> no_open(
                #[trigger] lines(remove_spec(target, doc, name).0)[i],
                name,
            ),
        count_named(parse_all_spec(remove_spec(target, doc, name).0), name) == 0,
        extract_spec(remove_spec(target, doc, name).0, name).len() == 0,
{
    let w = remove_spec(target, doc, name).0;
    let x = lemma_remove_shape(target, doc, name);
    lemma_text_lines(x, w, name);
    lemma_parse_none_named(lines(w), name);
    let ls = lines(w);
    assert forall|j: int| 0 <= j < ls.len() implies !starts_with(trim_start(#[trigger] ls[j]), open_marker_spec(name)) by {
        assert(no_open(ls[j], name));
    }
    lemma_find_open_at(ls, open_marker_spec(name), ls.len() as int);
}

// ------------------------------------------------------------------ block lines

/// A source or pin value that keeps its block in one piece: no carriage
/// returns, and no line after the first (which shares its line with the
/// header key) trims to the block's close marker.
pub open spec fn header_value_ok(name: Seq<char>, v: Seq<char>) -> bool {
    &&& !v.contains('\r')
    &&& forall|i: int| 1 <= i < lines(v).len() ==> trim(#[trigger] lines(v)[i]) != close_marker_spec(name)
}

/// A version that keeps its block in one piece: as [`header_value_ok`],
/// except that a last line not followed by a line ending shares its line
/// with the open line's closing ` >>>`, and so is free as well.
pub open spec fn version_ok(name: Seq<char>, v: Seq<char>) -> bool {
    &&& !v.contains('\r')
    &&& forall|i: int|
        1 <= i < lines(v).len() && (i + 1 < lines(v).len() || ends_with(v, seq!['\n'])) ==> trim(
            #[trigger] lines(v)[i],
        ) != close_marker_spec(name)
}

/// No carriage return anywhere in `s`.
pub open spec fn no_cr(s: Seq<char>) -> bool {
    forall|i: int| 0 <= i < s.len() ==> (#[trigger] s[i]) != '\r'
}

proof fn lemma_no_cr_concat(a: Seq<char>, b: Seq<char>)
    requires
        no_cr(a),
        no_cr(b),
    ensures
        no_cr(a + b),
{
    assert forall|i: int| 0 <= i < (a + b).len() implies (#[trigger] (a + b)[i]) != '\r' by {
        if i < a.len() {
            assert((a + b)[i] == a[i]);
        } else {
            assert((a + b)[i] == b[i - a.len()]);
        }
    }
}

proof fn lemma_one_line_no_cr(s: Seq<char>)
    requires
        one_line(s),
    ensures
        no_cr(s),
{
    assert forall|i: int| 0 <= i < s.len() implies (#[trigger] s[i]) != '\r' by {
        assert(s[i] != '\n' && s[i] != '\r');
    }
}

proof fn lemma_no_cr_contains(s: Seq<char>)
    ensures
        no_cr(s) <==> !s.contains('\r'),
{
    if no_cr(s) && s.contains('\r') {
        let j = choose|j: int| 0 <= j < s.len() && s[j] == '\r';
        assert(s[j] != '\r');
    }
    if !s.contains('\r') {
        assert forall|i: int| 0 <= i < s.len() implies (#[trigger] s[i]) != '\r' by {
            assert(s.contains(s[i]));
        }
    }
}

/// No line of `ls` trims to the close marker.
pub open spec fn close_free(ls: Seq<Seq<char>>, name: Seq<char>) -> bool {
    forall|i: int| 0 <= i < ls.len() ==> trim(#[trigger] ls[i]) != close_marker_spec(name)
}

proof fn lemma_close_free_concat(a: Seq<Seq<char>>, b: Seq<Seq<char>>, name: Seq<char>)
    requires
        close_free(a, name),
        close_free(b, name),
    ensures
        close_free(a + b, name),
{
    assert forall|i: int| 0 <= i < (a + b).len() implies trim(#[trigger] (a + b)[i]) != close_marker_spec(name) by {
        if i < a.len() {
            assert((a + b)[i] == a[i]);
        } else {
            assert((a + b)[i] == b[i - a.len()]);
        }
    }
}

/// A text that has a character at all has a line.
proof fn lemma_lines_nonempty(s: Seq<char>)
    ensures
        (lines(s).len() == 0) == (s.len() == 0),
{
    lemma_find_char(s, '\n');
}

/// Splitting a text right after a line ending splits its lines there.
proof fn lemma_lines_append(a: Seq<char>, b: Seq<char>)
    requires
        a.len() == 0 || a.last() == '\n',
    ensures
        lines(a + b) == lines(a) + lines(b),
    decreases a.len(),
{
    if a.len() == 0 {
        assert(a + b =~= b);
        assert(lines(a) =~= Seq::<Seq<char>>::empty());
    } else {
        lemma_find_char(a, '\n');
        let k = find_char(a, '\n');
        assert(k < a.len()) by {
            if k >= a.len() {
                assert(a[a.len() - 1] != '\n');
            }
        }
        let l = a.subrange(0, k);
        let rest = a.subrange(k + 1, a.len() as int);
        assert(!l.contains('\n')) by {
            if l.contains('\n') {
                let j = choose|j: int| 0 <= j < l.len() && l[j] == '\n';
                assert(a[j] == l[j]);
            }
        }
        assert(a =~= l + seq!['\n'] + rest);
        assert(a + b =~= l + seq!['\n'] + (rest + b));
        lemma_lines_cons(l, rest);
        lemma_lines_cons(l, rest + b);
        if rest.len() > 0 {
            assert(rest.last() == a.last());
        }
        lemma_lines_append(rest, b);
        assert(lines(a + b) =~= lines(a) + lines(b));
    }
}

/// A text ending in a character other than whitespace trims to a text
/// ending in that character.
proof fn lemma_trim_last(s: Seq<char>)
    requires
        s.len() > 0,
        !is_ws(s.last()),
    ensures
        trim(s).len() > 0,
        trim(s).last() == s.last(),
    decreases s.len(),
{
    if is_ws(s[0]) {
        assert(s.len() >= 2);
        assert(s.drop_first().last() == s.last());
        lemma_trim_last(s.drop_first());
        assert(trim_start(s) == trim_start(s.drop_first()));
    } else {
        assert(trim_start(s) == s);
        assert(trim_end(s) == s);
    }
}

/// A line ending in `>` never trims to a close marker, which ends in `<`.
proof fn lemma_tail_not_close(x: Seq<char>, suf: Seq<char>, name: Seq<char>)
    requires
        suf.len() > 0,
        suf.last() == '>',
    ensures
        trim(x + suf) != close_marker_spec(name),
{
    let s = x + suf;
    assert(s.last() == suf.last());
    lemma_trim_last(s);
    let close = close_marker_spec(name);
    assert(close =~= k_close_head() + (name + k_close_tail()));
    assert(close[close.len() - 1] == '<');
}

/// The lines of one header line `pre ++ v ++ suf` and its line ending, where
/// the value `v` may itself hold line endings: the first starts with `pre`,
/// and none trims to the close marker when `pre` begins as a header line
/// does, `suf` ends in `>`, and every line of `v` that stands on a line of
/// its own is free of it.
#[verifier::spinoff_prover]
#[verifier::rlimit(40)]
proof fn lemma_piece_lines(pre: Seq<char>, v: Seq<char>, suf: Seq<char>, name: Seq<char>)
    requires
        one_line(pre),
        one_line(suf),
        !v.contains('\r'),
        pre.len() > 0 ==> pre.len() >= 3 && pre[0] == '#' && !is_ws(pre[2]) && pre[2] != '<',
        suf.len() > 0 ==> suf.last() == '>',
        forall|i: int|
            0 <= i < lines(v).len() && (pre.len() == 0 || i > 0) && (suf.len() == 0 || i + 1
                < lines(v).len() || ends_with(v, seq!['\n'])) ==> trim(#[trigger] lines(v)[i])
                != close_marker_spec(name),
    ensures
        lines(pre + v + suf + seq!['\n']).len() > 0,
        starts_with(lines(pre + v + suf + seq!['\n'])[0], pre),
        close_free(lines(pre + v + suf + seq!['\n']), name),
        no_cr(pre + v + suf + seq!['\n']),
    decreases v.len(),
{
    let t = pre + v + suf + seq!['\n'];
    lemma_one_line_no_cr(pre);
    lemma_one_line_no_cr(suf);
    lemma_no_cr_contains(v);
    lemma_no_cr_concat(pre, v);
    lemma_no_cr_concat(pre + v, suf);
    lemma_no_cr_concat(pre + v + suf, seq!['\n']);
    let close = close_marker_spec(name);
    assert(close =~= k_close_head() + (name + k_close_tail()));
    assert(close.len() > 0);
    lemma_find_char(v, '\n');
    let k = find_char(v, '\n');
    if k == v.len() {
        assert(one_line(v)) by {
            assert forall|i: int| 0 <= i < v.len() implies (#[trigger] v[i]) != '\n' && v[i] != '\r' by {
                assert(v.contains(v[i]));
            }
        }
        let l = pre + v + suf;
        lemma_one_line_concat(pre, v);
        lemma_one_line_concat(pre + v, suf);
        lemma_one_line_is_line(l);
        assert(t =~= l + seq!['\n'] + Seq::<char>::empty());
        lemma_lines_cons(l, Seq::<char>::empty());
        assert(strip_cr(l) == l);
        assert(lines(Seq::<char>::empty()) =~= Seq::<Seq<char>>::empty());
        assert(lines(t) =~= seq![l]);
        assert(l.subrange(0, pre.len() as int) =~= pre);
        if pre.len() > 0 {
            assert(l[0] == pre[0] && l[2] == pre[2]);
            lemma_not_close(l, name);
        } else if suf.len() > 0 {
            assert(l =~= v + suf);
            lemma_tail_not_close(v, suf, name);
        } else if v.len() > 0 {
            assert(l =~= v);
            lemma_one_line_is_line(v);
            lemma_lines_single(v);
            assert(lines(v)[0] == v);
        } else {
            assert(l.len() == 0);
        }
    } else {
        let l0 = v.subrange(0, k);
        let rest = v.subrange(k + 1, v.len() as int);
        assert(one_line(l0)) by {
            assert forall|i: int| 0 <= i < l0.len() implies (#[trigger] l0[i]) != '\n' && l0[i] != '\r' by {
                assert(l0[i] == v[i]);
                assert(v.contains(v[i]));
            }
        }
        lemma_one_line_is_line(l0);
        assert(v =~= l0 + seq!['\n'] + rest);
        let head = pre + l0;
        lemma_one_line_concat(pre, l0);
        lemma_one_line_is_line(head);
        let tail = rest + suf + seq!['\n'];
        assert(t =~= head + seq!['\n'] + tail);
        lemma_lines_cons(head, tail);
        lemma_lines_cons(l0, rest);
        assert(strip_cr(head) == head);
        assert(strip_cr(l0) == l0);
        assert(lines(v) == seq![l0] + lines(rest));
        assert(!rest.contains('\r')) by {
            if rest.contains('\r') {
                let j = choose|j: int| 0 <= j < rest.len() && rest[j] == '\r';
                assert(v[k + 1 + j] == rest[j]);
            }
        }
        assert forall|i: int|
            0 <= i < lines(rest).len() && (Seq::<char>::empty().len() == 0 || i > 0) && (suf.len()
                == 0 || i + 1 < lines(rest).len() || ends_with(rest, seq!['\n'])) implies trim(
            #[trigger] lines(rest)[i],
        ) != close by {
            assert(lines(rest)[i] == lines(v)[i + 1]);
            lemma_lines_nonempty(rest);
            assert(rest.last() == v.last());
            lemma_ends_with_char(rest, '\n');
            lemma_ends_with_char(v, '\n');
        }
        assert(Seq::<char>::empty() + rest + suf + seq!['\n'] =~= tail);
        lemma_piece_lines(Seq::<char>::empty(), rest, suf, name);
        assert(head.subrange(0, pre.len() as int) =~= pre);
        assert(lines(t)[0] == head);
        if pre.len() > 0 {
            assert(head[0] == pre[0] && head[2] == pre[2]);
            lemma_not_close(head, name);
        } else {
            assert(head =~= l0);
            assert(lines(v)[0] == l0);
            if suf.len() > 0 && lines(v).len() == 1 {
                lemma_lines_nonempty(rest);
                assert(v =~= l0 + seq!['\n']);
                lemma_ends_with_char(v, '\n');
            }
        }
        assert forall|i: int| 0 <= i < lines(t).len() implies trim(#[trigger] lines(t)[i]) != close by {
            if i > 0 {
                assert(lines(t)[i] == lines(tail)[i - 1]);
            }
        }
    }
}

/// A value on one line has at most one line.
proof fn lemma_plain_value_lines(v: Seq<char>)
    requires
        plain_value(v),
    ensures
        lines(v).len() <= 1,
{
    if v.len() > 0 {
        lemma_lines_single(v);
    } else {
        assert(lines(v) =~= Seq::<Seq<char>>::empty());
    }
}

/// Header values that each stay on one line keep the block in one piece.
proof fn lemma_plain_header_values(
    name: Seq<char>,
    version: Seq<char>,
    source: Option<Seq<char>>,
    pinned: Option<Seq<char>>,
    deps: Seq<Seq<char>>,
    snippet: Seq<char>,
)
    requires
        plain_headers(name, version, source, pinned, deps, snippet),
    ensures
        installable(name, version, source, pinned, deps, snippet),
{
    lemma_plain_value_lines(version);
    match source {
        Some(v) => lemma_plain_value_lines(v),
        None => {},
    }
    match pinned {
        Some(v) => lemma_plain_value_lines(v),
        None => {},
    }
}

/// What a part of a rendered block brings to it: it is empty or ends in a
/// line ending, has no carriage return, and none of its lines trims to the
/// close marker.
pub open spec fn block_part(p: Seq<char>, name: Seq<char>) -> bool {
    &&& (p.len() == 0 || p.last() == '\n')
    &&& no_cr(p)
    &&& close_free(lines(p), name)
}

proof fn lemma_block_part_concat(a: Seq<char>, b: Seq<char>, name: Seq<char>)
    requires
        block_part(a, name),
        block_part(b, name),
    ensures
        block_part(a + b, name),
        lines(a + b) == lines(a) + lines(b),
{
    lemma_lines_append(a, b);
    lemma_close_free_concat(lines(a), lines(b), name);
    lemma_no_cr_concat(a, b);
    if b.len() == 0 {
        assert(a + b =~= a);
    } else {
        assert((a + b).last() == b.last());
    }
}

/// An optional source or pin line.
proof fn lemma_opt_part(prefix: Seq<char>, v: Option<Seq<char>>, name: Seq<char>)
    requires
        one_line(prefix),
        prefix.len() >= 3 && prefix[0] == '#' && !is_ws(prefix[2]) && prefix[2] != '<',
        v matches Some(s) ==> header_value_ok(name, s),
    ensures
        block_part(opt_line(prefix, v), name),
{
    let e = Seq::<char>::empty();
    let p = opt_line(prefix, v);
    assert(one_line(e));
    match v {
        Some(s) => {
            assert(p =~= prefix + s + e + seq!['\n']);
            lemma_piece_lines(prefix, s, e, name);
        },
        None => {
            assert(p =~= e);
            assert(lines(e) =~= Seq::<Seq<char>>::empty());
        },
    }
}

/// The dependency line.
proof fn lemma_deps_part(name: Seq<char>, deps: Seq<Seq<char>>)
    requires
        forall|i: int| 0 <= i < deps.len() ==> plain_value(#[trigger] deps[i]),
    ensures
        block_part(depends_line(deps), name),
{
    let e = Seq::<char>::empty();
    let nl = seq!['\n'];
    lemma_markers_one_line();
    assert(one_line(e));
    let p4 = depends_line(deps);
    if deps.len() > 0 {
        let j = join(deps, k_list_sep());
        lemma_join_one_line(deps, k_list_sep());
        lemma_one_line_is_line(j);
        lemma_plain_value_lines(j);
        assert(p4 =~= k_depends_line() + j + e + nl);
        lemma_piece_lines(k_depends_line(), j, e, name);
    } else {
        assert(p4 =~= e);
        assert(lines(e) =~= Seq::<Seq<char>>::empty());
    }
}

/// The do-not-edit line.
proof fn lemma_dne_part(name: Seq<char>)
    requires
        valid_name(name),
    ensures
        block_part(dne_line(name) + seq!['\n'], name),
{
    let e = Seq::<char>::empty();
    let nl = seq!['\n'];
    lemma_markers_one_line();
    lemma_name_one_line(name);
    assert(one_line(e));
    let dr = name + k_dne_mid() + name + k_dne_tail();
    lemma_one_line_concat(name, k_dne_mid());
    lemma_one_line_concat(name + k_dne_mid(), name);
    lemma_one_line_concat(name + k_dne_mid() + name, k_dne_tail());
    lemma_one_line_is_line(dr);
    lemma_plain_value_lines(dr);
    let p5 = dne_line(name) + nl;
    assert(p5 =~= k_dne_head() + dr + e + nl);
    lemma_piece_lines(k_dne_head(), dr, e, name);
}

/// The header lines after the open line.
#[verifier::spinoff_prover]
proof fn lemma_header_part(
    name: Seq<char>,
    source: Option<Seq<char>>,
    pinned: Option<Seq<char>>,
    deps: Seq<Seq<char>>,
)
    requires
        valid_name(name),
        source matches Some(s) ==> header_value_ok(name, s),
        pinned matches Some(p) ==> header_value_ok(name, p),
        forall|i: int| 0 <= i < deps.len() ==> plain_value(#[trigger] deps[i]),
    ensures
        block_part(
            opt_line(k_source_line(), source) + opt_line(k_pinned_line(), pinned) + depends_line(deps)
                + dne_line(name) + seq!['\n'],
            name,
        ),
{
    let e = Seq::<char>::empty();
    let nl = seq!['\n'];
    lemma_markers_one_line();
    lemma_name_one_line(name);
    assert(one_line(e));
    assert(lines(e) =~= Seq::<Seq<char>>::empty());
    lemma_opt_part(k_source_line(), source, name);
    lemma_opt_part(k_pinned_line(), pinned, name);
    let p4 = depends_line(deps);
    let p5 = dne_line(name) + nl;
    lemma_deps_part(name, deps);
    lemma_dne_part(name);
    let p2 = opt_line(k_source_line(), source);
    let p3 = opt_line(k_pinned_line(), pinned);
    lemma_block_part_concat(p2, p3, name);
    lemma_block_part_concat(p2 + p3, p4, name);
    lemma_block_part_concat(p2 + p3 + p4, p5, name);
    assert(p2 + p3 + p4 + p5 =~= p2 + p3 + p4 + dne_line(name) + nl);
}

/// The snippet and the close line.
#[verifier::spinoff_prover]
proof fn lemma_body_part(name: Seq<char>, snippet: Seq<char>)
    requires
        valid_name(name),
        marker_free_snippet(name, snippet),
    ensures
        block_part(trim_trailing_nl(snippet) + seq!['\n'], name),
        no_cr(close_marker_spec(name) + seq!['\n']),
        lines(close_marker_spec(name) + seq!['\n']) == seq![close_marker_spec(name)],
{
    let e = Seq::<char>::empty();
    let nl = seq!['\n'];
    let close = close_marker_spec(name);
    lemma_markers_one_line();
    lemma_name_one_line(name);
    lemma_close_trim(name);
    assert(one_line(e));
    assert(lines(e) =~= Seq::<Seq<char>>::empty());
    let s = trim_trailing_nl(snippet);
    lemma_trim_trailing_nl(snippet);
    lemma_body_lines(snippet);
    assert(!s.contains('\r')) by {
        if s.contains('\r') {
            let j = choose|j: int| 0 <= j < s.len() && s[j] == '\r';
            assert(snippet.subrange(0, s.len() as int)[j] == snippet[j]);
            assert(snippet[j] == '\r');
        }
    }
    assert forall|i: int| 0 <= i < lines(s).len() implies trim(#[trigger] lines(s)[i]) != close by {
        lemma_lines_nonempty(s);
        assert(lines(s)[i] == lines(snippet)[i]);
    }
    assert(s + nl =~= e + s + e + nl);
    lemma_piece_lines(e, s, e, name);
    assert((s + nl).last() == '\n');
    assert(block_part(s + nl, name));
    lemma_one_line_concat(k_close_head(), name);
    lemma_one_line_concat(k_close_head() + name, k_close_tail());
    lemma_one_line_is_line(close);
    lemma_one_line_no_cr(close);
    let p7 = close + nl;
    assert(p7 =~= close + nl + e);
    lemma_lines_cons(close, e);
    assert(strip_cr(close) == close);
    assert(lines(p7) =~= seq![close]);
    lemma_no_cr_concat(close, nl);
    assert(no_cr(nl));
}

/// The lines of a rendered block whose header values may span lines: the
/// block is their line-terminated text, the first opens the block, the last
/// closes it, and no other trims to the close marker.
#[verifier::spinoff_prover]
#[verifier::rlimit(40)]
proof fn lemma_block_lines(
    name: Seq<char>,
    version: Seq<char>,
    source: Option<Seq<char>>,
    pinned: Option<Seq<char>>,
    deps: Seq<Seq<char>>,
    snippet: Seq<char>,
)
    requires
        installable(name, version, source, pinned, deps, snippet),
    ensures
        ({
            let r = render_spec(name, version, source, pinned, deps, snippet);
            let bl = lines(r);
            &&& r == terminated(bl)
            &&& all_lines(bl)
            &&& bl.len() >= 2
            &&& bl[0].len() > 0
            &&& bl[0][0] == '#'
            &&& trim_start(bl[0]) == bl[0]
            &&& starts_with(bl[0], open_marker_spec(name))
            &&& bl.last() == close_marker_spec(name)
            &&& trim(close_marker_spec(name)) == close_marker_spec(name)
            &&& forall|j: int| 0 <= j < bl.len() - 1 ==> trim(#[trigger] bl[j]) != close_marker_spec(name)
        }),
{
    let nl = seq!['\n'];
    let close = close_marker_spec(name);
    let om = open_marker_spec(name);
    let r = render_spec(name, version, source, pinned, deps, snippet);
    lemma_markers_one_line();
    lemma_name_one_line(name);
    lemma_close_trim(name);
    lemma_one_line_concat(k_open_head(), name);
    lemma_one_line_concat(k_open_head() + name, seq!['@']);
    assert(om =~= k_open_head() + (name + seq!['@']));
    assert(om[0] == '#' && om[2] == '>');
    let p1 = open_line(name, version) + nl;
    assert(p1 =~= om + version + k_open_tail() + nl);
    lemma_piece_lines(om, version, k_open_tail(), name);
    let h = opt_line(k_source_line(), source) + opt_line(k_pinned_line(), pinned) + depends_line(deps)
        + dne_line(name) + nl;
    lemma_header_part(name, source, pinned, deps);
    let p6 = trim_trailing_nl(snippet) + nl;
    let p7 = close + nl;
    lemma_body_part(name, snippet);
    assert(r =~= p1 + h + p6 + p7);
    lemma_block_part_concat(p1, h, name);
    lemma_block_part_concat(p1 + h, p6, name);
    lemma_lines_append(p1 + h + p6, p7);
    lemma_no_cr_concat(p1 + h + p6, p7);
    let q = p1 + h + p6;
    let bl = lines(r);
    assert(bl == lines(q) + seq![close]);
    assert(lines(q)[0] == lines(p1)[0]);
    assert(bl[0] == lines(p1)[0]);
    lemma_prefix_index(bl[0], om, 0);
    lemma_trim_start_id(bl[0]);
    assert forall|j: int| 0 <= j < bl.len() - 1 implies trim(#[trigger] bl[j]) != close by {
        assert(bl[j] == lines(q)[j]);
    }
    assert(r.last() == '\n');
    lemma_no_cr_contains(r);
    crate::text::lemma_terminated_lines(r);
}

// ------------------------------------------------------------------ read after write

proof fn lemma_last_not_nl(x: Seq<Seq<char>>)
    requires
        x.len() > 0,
        x.last().len() > 0,
        no_nl_lines(x),
    ensures
        x.last().last() != '\n',
{
    assert(!x[x.len() - 1].contains('\n'));
    assert(x.last().contains(x.last()[x.last().len() - 1]));
}

/// Appending to the text of some lines: those lines, one blank line, then
/// the appended text.
proof fn lemma_append_shape(x: Seq<Seq<char>>, w: Seq<char>, r: Seq<char>)
    requires
        text_of(x, w),
        no_nl_lines(x),
    ensures
        append_spec(w, r) == (if x.len() == 0 {
            r
        } else {
            terminated(x.push(seq![])) + r
        }),
{
    if x.len() > 0 {
        lemma_last_not_nl(x);
        let init = x.drop_last();
        assert(init.push(x.last()) =~= x);
        lemma_join_terminated(init, x.last());
        lemma_join_nl(x);
        crate::text::lemma_terminated_push(x, seq![]);
        assert(terminated(x.push(seq![])) =~= terminated(x) + seq!['\n']);
        let j = join(x, seq!['\n']);
        assert(j.last() == x.last().last());
        crate::text::lemma_ends_with_char(j, '\n');
        if w == j {
            assert(!ends_with(j, seq!['\n', '\n'])) by {
                if ends_with(j, seq!['\n', '\n']) {
                    assert(j.subrange(j.len() - 2, j.len() as int)[1] == j.last());
                }
            }
        } else {
            let t = terminated(x);
            assert(t == terminated(init) + x.last() + seq!['\n']);
            assert(t.last() == '\n');
            crate::text::lemma_ends_with_char(t, '\n');
            assert(t[t.len() - 2] == x.last().last());
            assert(!ends_with(t, seq!['\n', '\n'])) by {
                if ends_with(t, seq!['\n', '\n']) {
                    assert(t.subrange(t.len() - 2, t.len() as int)[0] == t[t.len() - 2]);
                }
            }
        }
    }
}

proof fn lemma_strip_crs_lines(ls: Seq<Seq<char>>)
    requires
        all_lines(ls),
    ensures
        strip_crs(ls) == ls,
{
    assert forall|i: int| 0 <= i < ls.len() implies strip_crs(ls)[i] == ls[i] by {
        assert(is_line(ls[i]));
    }
    assert(strip_crs(ls) =~= ls);
}

/// Reading a block out of `prefix ++ block ++ suffix` lines, where no prefix
/// line opens it and only the block's last line closes it, gives the block.
proof fn lemma_extract_middle(
    pre: Seq<Seq<char>>,
    blk: Seq<Seq<char>>,
    post: Seq<Seq<char>>,
    doc: Seq<char>,
    name: Seq<char>,
)
    requires
        lines(doc) == pre + blk + post,
        forall|i: int| 0 <= i < pre.len() ==> no_open(#[trigger] pre[i], name),
        blk.len() > 0,
        starts_with(trim_start(blk[0]), open_marker_spec(name)),
        forall|j: int| 0 <= j < blk.len() - 1 ==> trim(#[trigger] blk[j]) != close_marker_spec(name),
        trim(blk.last()) == close_marker_spec(name),
    ensures
        extract_spec(doc, name) == terminated(blk),
{
    let ls = lines(doc);
    let open = open_marker_spec(name);
    let close = close_marker_spec(name);
    assert forall|j: int| 0 <= j < pre.len() implies !starts_with(trim_start(#[trigger] ls[j]), open) by {
        assert(ls[j] == pre[j]);
        assert(no_open(pre[j], name));
    }
    assert(ls[pre.len() as int] == blk[0]);
    lemma_find_open_at(ls, open, pre.len() as int);
    let sub = ls.subrange(pre.len() as int, ls.len() as int);
    assert forall|j: int| 0 <= j < blk.len() - 1 implies trim(#[trigger] sub[j]) != close by {
        assert(sub[j] == blk[j]);
    }
    assert(sub[blk.len() - 1] == blk.last());
    lemma_find_line_at(sub, close, blk.len() - 1);
    assert(ls.subrange(pre.len() as int, pre.len() + blk.len() - 1 + 1) =~= blk);
    lemma_join_nl(blk);
}

/// Installing a rendered block into a justfile writes it so that reading the
/// block back gives exactly what was rendered (whatever the file held before).
#[verifier::spinoff_prover]
#[verifier::rlimit(30)]
pub proof fn written_block_reads_back(
    doc: Seq<char>,
    name: Seq<char>,
    version: Seq<char>,
    source: Option<Seq<char>>,
    pinned: Option<Seq<char>>,
    deps: Seq<Seq<char>>,
    snippet: Seq<char>,
)
    requires
        installable(name, version, source, pinned, deps, snippet),
    ensures
        extract_spec(
            merge_spec(Target::Just, doc, name, render_spec(name, version, source, pinned, deps, snippet)),
            name,
        ) == render_spec(name, version, source, pinned, deps, snippet),
{
    let r = render_spec(name, version, source, pinned, deps, snippet);
    let rl = lines(r);
    lemma_block_lines(name, version, source, pinned, deps, snippet);
    let w = remove_spec(Target::Just, doc, name).0;
    let x = lemma_remove_shape(Target::Just, doc, name);
    assert(no_nl_lines(x)) by {
        assert forall|i: int| 0 <= i < x.len() implies !(#[trigger] x[i]).contains('\n') by {
            assert(no_open(x[i], name) && !x[i].contains('\n'));
        }
    }
    lemma_append_shape(x, w, r);
    let merged = merge_spec(Target::Just, doc, name, r);
    assert(merged == append_spec(w, r));
    // `all_lines(rl)`: it is what `lines` gave back.
    crate::text::lemma_lines_no_nl(r);
    let y: Seq<Seq<char>> = if x.len() == 0 {
        seq![]
    } else {
        x.push(seq![])
    };
    assert(no_nl_lines(y)) by {
        assert forall|i: int| 0 <= i < y.len() implies !(#[trigger] y[i]).contains('\n') by {
            if i < x.len() {
                assert(y[i] == x[i]);
            } else {
                assert(y[i] =~= Seq::<char>::empty());
            }
        }
    }
    assert(no_nl_lines(rl)) by {
        assert forall|i: int| 0 <= i < rl.len() implies !(#[trigger] rl[i]).contains('\n') by {
            assert(rl[i] == lines(r)[i]);
        }
    }
    lemma_terminated_concat(y, rl);
    if x.len() == 0 {
        assert(terminated(y) =~= Seq::<char>::empty());
        assert(y + rl =~= rl);
    }
    assert(merged == terminated(y + rl));
    assert(no_nl_lines(y + rl)) by {
        assert forall|i: int| 0 <= i < (y + rl).len() implies !(#[trigger] (y + rl)[i]).contains('\n') by {
            if i < y.len() {
                assert((y + rl)[i] == y[i]);
            } else {
                assert((y + rl)[i] == rl[i - y.len()]);
            }
        }
    }
    lemma_lines_terminated_cr(y + rl);
    lemma_strip_crs_lines(rl);
    assert(strip_crs(y + rl) =~= strip_crs(y) + strip_crs(rl));
    assert forall|i: int| 0 <= i < strip_crs(y).len() implies no_open(#[trigger] strip_crs(y)[i], name) by {
        if i < x.len() {
            assert(y[i] == x[i]);
            assert(no_open(x[i], name));
            lemma_no_open_strip_cr(x[i], name);
        } else {
            assert(y[i] =~= Seq::<char>::empty());
            assert(strip_cr(y[i]) =~= Seq::<char>::empty());
            assert(trim_start(strip_cr(y[i])).len() == 0);
        }
    }
    assert(strip_crs(y) + rl + Seq::<Seq<char>>::empty() =~= strip_crs(y) + rl);
    lemma_extract_middle(strip_crs(y), rl, seq![], merged, name);
}

proof fn lemma_find_tasks_key_range(ls: Seq<Seq<char>>)
    ensures
        0 <= find_tasks_key(ls) <= ls.len(),
    decreases ls.len(),
{
    if ls.len() > 0 {
        lemma_find_tasks_key_range(ls.drop_first());
    }
}

proof fn lemma_find_top_level_range(ls: Seq<Seq<char>>)
    ensures
        0 <= find_top_level(ls) <= ls.len(),
    decreases ls.len(),
{
    if ls.len() > 0 {
        lemma_find_top_level_range(ls.drop_first());
    }
}

proof fn lemma_trim_pad(n: nat, l: Seq<char>)
    ensures
        trim_start(pad(n) + l) == trim_start(l),
        trim(pad(n) + l) == trim(l),
    decreases n,
{
    if n > 0 {
        let s = pad(n) + l;
        assert(s[0] == ' ');
        assert(s.drop_first() =~= pad((n - 1) as nat) + l);
        lemma_trim_pad((n - 1) as nat, l);
    } else {
        assert(pad(n) + l =~= l);
    }
}

/// The lines of a rendered block indented for a Taskfile.
pub open spec fn indented_lines(rl: Seq<Seq<char>>) -> Seq<Seq<char>> {
    rl.map_values(|l: Seq<char>| indent_line(l, TASK_INDENT as nat))
}

#[verifier::spinoff_prover]
#[verifier::rlimit(30)]
proof fn lemma_indented(
    name: Seq<char>,
    version: Seq<char>,
    source: Option<Seq<char>>,
    pinned: Option<Seq<char>>,
    deps: Seq<Seq<char>>,
    snippet: Seq<char>,
)
    requires
        installable(name, version, source, pinned, deps, snippet),
    ensures
        ({
            let il = indented_lines(lines(render_spec(name, version, source, pinned, deps, snippet)));
            &&& render_block_spec(Target::Task, name, version, source, pinned, deps, snippet) == terminated(il)
            &&& all_lines(il)
            &&& il.len() >= 2
            &&& starts_with(trim_start(il[0]), open_marker_spec(name))
            &&& forall|j: int| 0 <= j < il.len() - 1 ==> trim(#[trigger] il[j]) != close_marker_spec(name)
            &&& trim(il.last()) == close_marker_spec(name)
        }),
{
    let r = render_spec(name, version, source, pinned, deps, snippet);
    let rl = lines(r);
    lemma_block_lines(name, version, source, pinned, deps, snippet);
    let il = indented_lines(rl);
    let n = TASK_INDENT as nat;
    assert(r.len() > 0 && r.last() == '\n') by {
        crate::text::lemma_terminated_push(rl.drop_last(), rl.last());
        assert(rl.drop_last().push(rl.last()) =~= rl);
    }
    crate::text::lemma_ends_with_char(r, '\n');
    assert(lines(r).map_values(|l: Seq<char>| indent_line(l, n)) == il);
    lemma_join_nl(il);
    assert forall|i: int| 0 <= i < il.len() implies is_line(#[trigger] il[i]) by {
        let l = rl[i];
        assert(is_line(l));
        if !is_blank(l) {
            let p = pad(n) + l;
            assert(il[i] == p);
            assert(!p.contains('\n')) by {
                if p.contains('\n') {
                    let j = choose|j: int| 0 <= j < p.len() && p[j] == '\n';
                    if j >= pad(n).len() {
                        assert(l[j - pad(n).len()] == '\n');
                        assert(l.contains(l[j - pad(n).len()]));
                    }
                }
            }
            assert(l.len() > 0);
            assert(p.last() == l.last());
        } else {
            assert(il[i] =~= Seq::<char>::empty());
        }
    }
    // First line.
    assert(!is_blank(rl[0])) by {
        assert(!is_ws(rl[0][0]));
    }
    lemma_trim_pad(n, rl[0]);
    assert forall|j: int| 0 <= j < il.len() implies trim(#[trigger] il[j]) == (if is_blank(rl[j]) {
        Seq::<char>::empty()
    } else {
        trim(rl[j])
    }) by {
        if is_blank(rl[j]) {
            assert(il[j] =~= Seq::<char>::empty());
            assert(trim_start(il[j]) =~= Seq::<char>::empty());
            lemma_trim_len(il[j]);
        } else {
            lemma_trim_pad(n, rl[j]);
        }
    }
    let close = close_marker_spec(name);
    assert(close.len() > 0);
    assert(!is_blank(rl.last())) by {
        assert(!is_ws(close[0]));
    }
    assert(il.last() == il[il.len() - 1]);
}

/// What the block's indented lines bring to a Taskfile insertion.
pub open spec fn block_lines_ok(il: Seq<Seq<char>>, name: Seq<char>) -> bool {
    &&& all_lines(il)
    &&& il.len() > 0
    &&& starts_with(trim_start(il[0]), open_marker_spec(name))
    &&& forall|j: int| 0 <= j < il.len() - 1 ==> trim(#[trigger] il[j]) != close_marker_spec(name)
    &&& trim(il.last()) == close_marker_spec(name)
}

#[verifier::spinoff_prover]
#[verifier::rlimit(30)]
proof fn lemma_task_insert_new_map(x: Seq<Seq<char>>, w: Seq<char>, il: Seq<Seq<char>>, name: Seq<char>)
    requires
        clean(x, name),
        text_of(x, w),
        block_lines_ok(il, name),
        find_tasks_key(lines(w)) >= lines(w).len(),
    ensures
        extract_spec(insert_into_tasks_spec(w, terminated(il)), name) == terminated(il),
{
    let blk = terminated(il);
    let merged = insert_into_tasks_spec(w, blk);
    assert(no_nl_lines(x)) by {
        assert forall|i: int| 0 <= i < x.len() implies !(#[trigger] x[i]).contains('\n') by {
            assert(no_open(x[i], name) && !x[i].contains('\n'));
        }
    }
    assert(no_nl_lines(il)) by {
        assert forall|i: int| 0 <= i < il.len() implies !(#[trigger] il[i]).contains('\n') by {
            assert(is_line(il[i]));
        }
    }
    lemma_strip_crs_lines(il);
    let tk = seq![k_tasks_key()];
    let y: Seq<Seq<char>> = if x.len() == 0 {
        seq![]
    } else {
        x.push(seq![])
    };
    if x.len() > 0 {
        lemma_last_not_nl(x);
        let init = x.drop_last();
        assert(init.push(x.last()) =~= x);
        lemma_join_terminated(init, x.last());
        lemma_join_nl(x);
        crate::text::lemma_terminated_push(x, seq![]);
        assert(terminated(x.push(seq![])) =~= terminated(x) + seq!['\n']);
        let t = terminated(x);
        assert(t == terminated(init) + x.last() + seq!['\n']);
        crate::text::lemma_ends_with_char(t, '\n');
        assert(!ends_with(t, seq!['\n', '\n'])) by {
            if ends_with(t, seq!['\n', '\n']) {
                assert(t.subrange(t.len() - 2, t.len() as int)[0] == t[t.len() - 2]);
            }
        }
        let j = join(x, seq!['\n']);
        assert(j.last() == x.last().last());
        crate::text::lemma_ends_with_char(j, '\n');
    }
    lemma_terminated_one(k_tasks_key());
    lemma_terminated_concat(y, tk);
    lemma_terminated_concat(y + tk, il);
    if x.len() == 0 {
        assert(terminated(y) =~= Seq::<char>::empty());
    }
    assert(merged =~= terminated(y) + terminated(tk) + terminated(il));
    assert(merged == terminated(y + tk + il));
    let pre = y + tk;
    assert(no_nl_lines(pre + il)) by {
        assert forall|i: int| 0 <= i < (pre + il).len() implies !(#[trigger] (pre + il)[i]).contains('\n') by {
            if i < y.len() {
                assert((pre + il)[i] == y[i]);
                if i < x.len() {
                    assert(y[i] == x[i]);
                } else {
                    assert(y[i] =~= Seq::<char>::empty());
                }
            } else if i == y.len() {
                assert((pre + il)[i] == k_tasks_key());
            } else {
                assert((pre + il)[i] == il[i - pre.len()]);
            }
        }
    }
    lemma_lines_terminated_cr(pre + il);
    assert(strip_crs(pre + il) =~= strip_crs(pre) + strip_crs(il));
    assert forall|i: int| 0 <= i < strip_crs(pre).len() implies no_open(#[trigger] strip_crs(pre)[i], name) by {
        if i < x.len() {
            assert(pre[i] == x[i]);
            assert(no_open(x[i], name));
            lemma_no_open_strip_cr(x[i], name);
        } else if i < y.len() {
            assert(pre[i] =~= Seq::<char>::empty());
            assert(strip_cr(pre[i]) =~= Seq::<char>::empty());
            assert(trim_start(strip_cr(pre[i])).len() == 0);
        } else {
            assert(pre[i] == k_tasks_key());
            assert(strip_cr(pre[i]) == k_tasks_key());
            assert(trim_start(k_tasks_key()) == k_tasks_key());
            if starts_with(k_tasks_key(), open_marker_spec(name)) {
                lemma_prefix_index(k_tasks_key(), open_marker_spec(name), 0);
            }
        }
    }
    assert(strip_crs(pre) + il + Seq::<Seq<char>>::empty() =~= strip_crs(pre) + il);
    lemma_extract_middle(strip_crs(pre), il, seq![], merged, name);
}

#[verifier::spinoff_prover]
#[verifier::rlimit(30)]
proof fn lemma_task_insert_into_map(x: Seq<Seq<char>>, w: Seq<char>, il: Seq<Seq<char>>, name: Seq<char>)
    requires
        clean(x, name),
        text_of(x, w),
        block_lines_ok(il, name),
        find_tasks_key(lines(w)) < lines(w).len(),
    ensures
        extract_spec(insert_into_tasks_spec(w, terminated(il)), name) == terminated(il),
{
    let blk = terminated(il);
    let merged = insert_into_tasks_spec(w, blk);
    assert(no_nl_lines(il)) by {
        assert forall|i: int| 0 <= i < il.len() implies !(#[trigger] il[i]).contains('\n') by {
            assert(is_line(il[i]));
        }
    }
    lemma_strip_crs_lines(il);
    lemma_lines_terminated(il);
    let ls = lines(w);
    lemma_lines_no_nl(w);
    lemma_text_lines(x, w, name);
    lemma_find_tasks_key_range(ls);
    let ti = find_tasks_key(ls);
    lemma_find_top_level_range(ls.subrange(ti + 1, ls.len() as int));
    let end = ti + 1 + find_top_level(ls.subrange(ti + 1, ls.len() as int));
    let hs = ls.subrange(0, end);
    assert(clean(hs, name)) by {
        assert forall|i: int| 0 <= i < hs.len() implies no_open(#[trigger] hs[i], name) && !hs[i].contains('\n') by {
            assert(hs[i] == ls[i]);
        }
    }
    lemma_drop_trailing_clean(hs, name);
    let head = drop_trailing_blanks(hs);
    let tail = ls.subrange(end, ls.len() as int);
    let sep: Seq<Seq<char>> = if head.len() <= ti + 1 {
        seq![]
    } else {
        seq![seq![]]
    };
    let after: Seq<Seq<char>> = if tail.len() > 0 {
        seq![seq![]] + tail
    } else {
        seq![]
    };
    let z = head + sep + il + after;
    assert(merged == join(z, seq!['\n']) + seq!['\n']);
    lemma_join_nl(z);
    let pre = head + sep;
    assert(clean(pre, name)) by {
        assert forall|i: int| 0 <= i < pre.len() implies no_open(#[trigger] pre[i], name) && !pre[i].contains('\n') by {
            if i < head.len() {
                assert(pre[i] == head[i]);
            } else {
                assert(pre[i] =~= Seq::<char>::empty());
                assert(trim_start(pre[i]).len() == 0);
            }
        }
    }
    assert(clean(after, name)) by {
        assert forall|i: int| 0 <= i < after.len() implies no_open(#[trigger] after[i], name) && !after[i].contains('\n') by {
            if i == 0 {
                assert(after[i] =~= Seq::<char>::empty());
                assert(trim_start(after[i]).len() == 0);
            } else {
                assert(after[i] == tail[i - 1]);
                assert(tail[i - 1] == ls[end + i - 1]);
            }
        }
    }
    assert(no_nl_lines(z)) by {
        assert forall|i: int| 0 <= i < z.len() implies !(#[trigger] z[i]).contains('\n') by {
            if i < pre.len() {
                assert(z[i] == pre[i]);
            } else if i < pre.len() + il.len() {
                assert(z[i] == il[i - pre.len()]);
            } else {
                assert(z[i] == after[i - pre.len() - il.len()]);
            }
        }
    }
    lemma_lines_terminated_cr(z);
    assert(strip_crs(z) =~= strip_crs(pre) + strip_crs(il) + strip_crs(after));
    assert forall|i: int| 0 <= i < strip_crs(pre).len() implies no_open(#[trigger] strip_crs(pre)[i], name) by {
        assert(no_open(pre[i], name));
        lemma_no_open_strip_cr(pre[i], name);
    }
    lemma_extract_middle(strip_crs(pre), il, strip_crs(after), merged, name);
}

/// Installing a rendered block into a Taskfile writes it (nested under
/// `tasks:`) so that reading the block back gives exactly what was rendered,
/// whatever the file held before.
pub proof fn written_task_block_reads_back(
    doc: Seq<char>,
    name: Seq<char>,
    version: Seq<char>,
    source: Option<Seq<char>>,
    pinned: Option<Seq<char>>,
    deps: Seq<Seq<char>>,
    snippet: Seq<char>,
)
    requires
        installable(name, version, source, pinned, deps, snippet),
    ensures
        extract_spec(
            merge_spec(
                Target::Task,
                doc,
                name,
                render_block_spec(Target::Task, name, version, source, pinned, deps, snippet),
            ),
            name,
        ) == render_block_spec(Target::Task, name, version, source, pinned, deps, snippet),
{
    let blk = render_block_spec(Target::Task, name, version, source, pinned, deps, snippet);
    let il = indented_lines(lines(render_spec(name, version, source, pinned, deps, snippet)));
    lemma_indented(name, version, source, pinned, deps, snippet);
    let w = remove_spec(Target::Task, doc, name).0;
    let x = lemma_remove_shape(Target::Task, doc, name);
    assert(merge_spec(Target::Task, doc, name, blk) == insert_into_tasks_spec(w, blk));
    if find_tasks_key(lines(w)) >= lines(w).len() {
        lemma_task_insert_new_map(x, w, il, name);
    } else {
        lemma_task_insert_into_map(x, w, il, name);
    }
}

// ------------------------------------------------------------------ idempotence

/// No two blank lines in a row.
pub open spec fn collapsed(ls: Seq<Seq<char>>) -> bool {
    forall|i: int| 0 <= i < ls.len() - 1 ==> !(is_blank(#[trigger] ls[i]) && is_blank(ls[i + 1]))
}

proof fn lemma_collapse_collapsed(ls: Seq<Seq<char>>)
    ensures
        collapsed(collapse_blanks(ls)),
    decreases ls.len(),
{
    if ls.len() > 0 {
        lemma_collapse_collapsed(ls.drop_last());
        let c = collapse_blanks(ls.drop_last());
        let r = collapse_blanks(ls);
        assert forall|i: int| 0 <= i < r.len() - 1 implies !(is_blank(#[trigger] r[i]) && is_blank(r[i + 1])) by {
            if i < c.len() - 1 {
                assert(r[i] == c[i] && r[i + 1] == c[i + 1]);
            } else if r.len() > c.len() {
                assert(r[i] == c.last());
            }
        }
    }
}

proof fn lemma_collapse_id(ls: Seq<Seq<char>>)
    requires
        collapsed(ls),
    ensures
        collapse_blanks(ls) == ls,
    decreases ls.len(),
{
    if ls.len() > 0 {
        assert(collapsed(ls.drop_last())) by {
            assert forall|i: int| 0 <= i < ls.drop_last().len() - 1 implies !(is_blank(#[trigger] ls.drop_last()[i])
                && is_blank(ls.drop_last()[i + 1])) by {
                assert(ls.drop_last()[i] == ls[i] && ls.drop_last()[i + 1] == ls[i + 1]);
            }
        }
        lemma_collapse_id(ls.drop_last());
        if ls.len() >= 2 {
            assert(!(is_blank(ls[ls.len() - 2]) && is_blank(ls[ls.len() - 1])));
            assert(ls.drop_last().last() == ls[ls.len() - 2]);
        }
        assert(ls.drop_last().push(ls.last()) =~= ls);
    }
}

proof fn lemma_drop_trailing_prefix(ls: Seq<Seq<char>>)
    ensures
        drop_trailing_blanks(ls).len() <= ls.len(),
        drop_trailing_blanks(ls) == ls.subrange(0, drop_trailing_blanks(ls).len() as int),
    decreases ls.len(),
{
    if ls.len() > 0 && is_blank(ls.last()) {
        lemma_drop_trailing_prefix(ls.drop_last());
        assert(ls.drop_last().subrange(0, drop_trailing_blanks(ls).len() as int) =~= ls.subrange(
            0,
            drop_trailing_blanks(ls).len() as int,
        ));
    } else {
        assert(ls.subrange(0, ls.len() as int) =~= ls);
    }
}

proof fn lemma_drop_trailing_id(ls: Seq<Seq<char>>)
    requires
        ls.len() > 0 ==> !is_blank(ls.last()),
    ensures
        drop_trailing_blanks(ls) == ls,
{
}

/// Lines none of which opens `name` pass through a removal untouched.
proof fn lemma_strip_untouched(a: Seq<Seq<char>>, name: Seq<char>)
    requires
        forall|i: int| 0 <= i < a.len() ==> no_open(#[trigger] a[i], name),
    ensures
        strip_block(a, name) == (StripState { out: a, in_block: false, removed: false, seam: None }),
    decreases a.len(),
{
    if a.len() > 0 {
        assert forall|i: int| 0 <= i < a.drop_last().len() implies no_open(#[trigger] a.drop_last()[i], name) by {
            assert(a.drop_last()[i] == a[i]);
        }
        lemma_strip_untouched(a.drop_last(), name);
        assert(no_open(a[a.len() - 1], name));
        assert(a.drop_last().push(a.last()) =~= a);
        assert(strip_block(a, name) == strip_step(
            strip_block(a.drop_last(), name),
            a.last(),
            open_marker_spec(name),
            close_marker_spec(name),
        ));
    } else {
        assert(a =~= Seq::<Seq<char>>::empty());
    }
}

/// A removal of the block that follows lines which do not open it keeps
/// exactly those lines.
proof fn lemma_strip_block_after(a: Seq<Seq<char>>, b: Seq<Seq<char>>, name: Seq<char>, k: int)
    requires
        forall|i: int| 0 <= i < a.len() ==> no_open(#[trigger] a[i], name),
        b.len() >= 2,
        starts_with(trim_start(b[0]), open_marker_spec(name)),
        forall|j: int| 0 <= j < b.len() - 1 ==> trim(#[trigger] b[j]) != close_marker_spec(name),
        trim(b.last()) == close_marker_spec(name),
        1 <= k <= b.len(),
    ensures
        strip_block(a + b.subrange(0, k), name) == (StripState {
            out: a,
            in_block: k < b.len(),
            removed: true,
            seam: Some(a.len() as int),
        }),
    decreases k,
{
    let ab = a + b.subrange(0, k);
    assert(ab.drop_last() =~= a + b.subrange(0, k - 1));
    assert(ab.last() == b[k - 1]);
    assert(ab.len() > 0);
    assert(strip_block(ab, name) == strip_step(
        strip_block(ab.drop_last(), name),
        ab.last(),
        open_marker_spec(name),
        close_marker_spec(name),
    ));
    if k == 1 {
        assert(a + b.subrange(0, 0) =~= a);
        lemma_strip_untouched(a, name);
    } else {
        lemma_strip_block_after(a, b, name, k - 1);
        if k < b.len() {
            assert(trim(b[k - 1]) != close_marker_spec(name));
        } else {
            assert(b[k - 1] == b.last());
        }
    }
}

proof fn lemma_strip_all_lines(ls: Seq<Seq<char>>, name: Seq<char>)
    requires
        all_lines(ls),
    ensures
        all_lines(strip_block(ls, name).out),
    decreases ls.len(),
{
    if ls.len() > 0 {
        assert(all_lines(ls.drop_last())) by {
            assert forall|i: int| 0 <= i < ls.drop_last().len() implies is_line(#[trigger] ls.drop_last()[i]) by {
                assert(ls.drop_last()[i] == ls[i]);
            }
        }
        lemma_strip_all_lines(ls.drop_last(), name);
        let st = strip_block(ls.drop_last(), name);
        let out = strip_block(ls, name).out;
        assert(strip_block(ls, name) == strip_step(st, ls.last(), open_marker_spec(name), close_marker_spec(name)));
        assert(is_line(ls[ls.len() - 1]));
        assert forall|i: int| 0 <= i < out.len() implies is_line(#[trigger] out[i]) by {
            if i < st.out.len() {
                assert(out[i] == st.out[i]);
            }
        }
    }
}

proof fn lemma_collapse_all_lines(ls: Seq<Seq<char>>)
    requires
        all_lines(ls),
    ensures
        all_lines(collapse_blanks(ls)),
    decreases ls.len(),
{
    if ls.len() > 0 {
        assert(all_lines(ls.drop_last())) by {
            assert forall|i: int| 0 <= i < ls.drop_last().len() implies is_line(#[trigger] ls.drop_last()[i]) by {
                assert(ls.drop_last()[i] == ls[i]);
            }
        }
        lemma_collapse_all_lines(ls.drop_last());
        let c = collapse_blanks(ls.drop_last());
        let r = collapse_blanks(ls);
        assert(is_line(ls[ls.len() - 1]));
        assert forall|i: int| 0 <= i < r.len() implies is_line(#[trigger] r[i]) by {
            if i < c.len() {
                assert(r[i] == c[i]);
            }
        }
    }
}

/// The lines a justfile removal keeps: collapsed, proper lines, the last not
/// blank.
proof fn lemma_remove_just_lines(doc: Seq<char>, name: Seq<char>) -> (x: Seq<Seq<char>>)
    requires
        all_lines(lines(doc)),
    ensures
        clean(x, name),
        text_of(x, remove_spec(Target::Just, doc, name).0),
        all_lines(x),
        collapsed(x),
        x.len() > 0 ==> !is_blank(x.last()),
        x == drop_trailing_blanks(collapse_blanks(strip_block(lines(doc), name).out)),
{
    let x = lemma_remove_shape(Target::Just, doc, name);
    let ls = lines(doc);
    lemma_lines_no_nl(doc);
    let st = strip_block(ls, name);
    let c = collapse_blanks(st.out);
    assert(x == drop_trailing_blanks(c));
    lemma_collapse_collapsed(st.out);
    lemma_drop_trailing_prefix(c);
    lemma_strip_all_lines(ls, name);
    lemma_collapse_all_lines(st.out);
    lemma_strip_clean(ls, name);
    lemma_collapse_clean(st.out, name);
    lemma_drop_trailing_clean(c, name);
    assert forall|i: int| 0 <= i < x.len() implies is_line(#[trigger] x[i]) && (i < x.len() - 1 ==> !(is_blank(
        x[i],
    ) && is_blank(x[i + 1]))) by {
        assert(x[i] == c[i]);
        if i < x.len() - 1 {
            assert(x[i + 1] == c[i + 1]);
        }
    }
    x
}

/// Removing a block right after installing it into a justfile: what is
/// left is the text of the lines a removal from the starting file keeps.
#[verifier::spinoff_prover]
#[verifier::rlimit(30)]
proof fn lemma_just_remove_after_install(
    doc: Seq<char>,
    name: Seq<char>,
    version: Seq<char>,
    source: Option<Seq<char>>,
    pinned: Option<Seq<char>>,
    deps: Seq<Seq<char>>,
    snippet: Seq<char>,
) -> (x: Seq<Seq<char>>)
    requires
        installable(name, version, source, pinned, deps, snippet),
        all_lines(lines(doc)),
    ensures
        all_lines(x),
        no_nl_lines(x),
        text_of(x, remove_spec(Target::Just, doc, name).0),
        text_of(
            x,
            remove_spec(
                Target::Just,
                merge_spec(Target::Just, doc, name, render_spec(name, version, source, pinned, deps, snippet)),
                name,
            ).0,
        ),
        remove_spec(
            Target::Just,
            merge_spec(Target::Just, doc, name, render_spec(name, version, source, pinned, deps, snippet)),
            name,
        ).1,
        x == drop_trailing_blanks(collapse_blanks(strip_block(lines(doc), name).out)),
        x.len() > 0 ==> remove_spec(
            Target::Just,
            merge_spec(Target::Just, doc, name, render_spec(name, version, source, pinned, deps, snippet)),
            name,
        ).0 == terminated(x),
{
    let r = render_spec(name, version, source, pinned, deps, snippet);
    let rl = lines(r);
    lemma_block_lines(name, version, source, pinned, deps, snippet);
    let w0 = remove_spec(Target::Just, doc, name).0;
    let x = lemma_remove_just_lines(doc, name);
    assert(no_nl_lines(x)) by {
        assert forall|i: int| 0 <= i < x.len() implies !(#[trigger] x[i]).contains('\n') by {
            assert(no_open(x[i], name) && !x[i].contains('\n'));
        }
    }
    lemma_append_shape(x, w0, r);
    let once = merge_spec(Target::Just, doc, name, r);
    let y: Seq<Seq<char>> = if x.len() == 0 {
        seq![]
    } else {
        x.push(seq![])
    };
    assert(all_lines(y)) by {
        assert forall|i: int| 0 <= i < y.len() implies is_line(#[trigger] y[i]) by {
            if i < x.len() {
                assert(y[i] == x[i]);
            } else {
                assert(y[i] =~= Seq::<char>::empty());
            }
        }
    }
    lemma_terminated_concat(y, rl);
    if x.len() == 0 {
        assert(terminated(y) =~= Seq::<char>::empty());
        assert(y + rl =~= rl);
    }
    assert(once == terminated(y + rl));
    assert(all_lines(y + rl)) by {
        assert forall|i: int| 0 <= i < (y + rl).len() implies is_line(#[trigger] (y + rl)[i]) by {
            if i < y.len() {
                assert((y + rl)[i] == y[i]);
            } else {
                assert((y + rl)[i] == rl[i - y.len()]);
            }
        }
    }
    lemma_lines_terminated(y + rl);
    // Removing the block again keeps `y`.
    assert forall|i: int| 0 <= i < y.len() implies no_open(#[trigger] y[i], name) by {
        if i < x.len() {
            assert(y[i] == x[i]);
        } else {
            assert(y[i] =~= Seq::<char>::empty());
            assert(trim_start(y[i]).len() == 0);
        }
    }
    lemma_strip_block_after(y, rl, name, rl.len() as int);
    assert(rl.subrange(0, rl.len() as int) =~= rl);
    let st = strip_block(lines(once), name);
    assert(st.out == y);
    // Collapsing and dropping the trailing blank gives `x` back.
    if x.len() > 0 {
        lemma_collapse_id(x);
        assert(y.drop_last() =~= x);
        assert(collapse_blanks(y) == x.push(seq![]));
        assert(drop_trailing_blanks(x.push(seq![])) == drop_trailing_blanks(x)) by {
            assert(x.push(seq![]).drop_last() =~= x);
            assert(is_blank(x.push(seq![]).last()));
        }
        lemma_drop_trailing_id(x);
    } else {
        assert(collapse_blanks(y) =~= Seq::<Seq<char>>::empty());
    }
    let x1 = drop_trailing_blanks(collapse_blanks(st.out));
    assert(x1 == x);
    let w1 = remove_spec(Target::Just, once, name).0;
    assert(w1 == finish_nl(join(x, seq!['\n']), once));
    // `once` ends with a line ending, so the text of `x` is line-terminated.
    assert(once.len() > 0 && once.last() == '\n') by {
        crate::text::lemma_terminated_push((y + rl).drop_last(), (y + rl).last());
        assert((y + rl).drop_last().push((y + rl).last()) =~= y + rl);
    }
    crate::text::lemma_ends_with_char(once, '\n');
    if x.len() > 0 {
        lemma_last_not_nl(x);
        let init = x.drop_last();
        assert(init.push(x.last()) =~= x);
        lemma_join_terminated(init, x.last());
        lemma_join_nl(x);
        let j = join(x, seq!['\n']);
        assert(j.last() == x.last().last());
        crate::text::lemma_ends_with_char(j, '\n');
        assert(w1 == terminated(x));
    } else {
        assert(w1.len() == 0);
    }
    assert(text_of(x, w1));
    x
}

/// Installing a rendered block into a justfile twice writes the same text as
/// installing it once: an update with nothing new leaves the file byte for
/// byte as it was. (Lines of the starting file that end in a stray `\r`
/// are the exception; `lines` would drop it on the second pass.)
pub proof fn justfile_install_is_idempotent(
    doc: Seq<char>,
    name: Seq<char>,
    version: Seq<char>,
    source: Option<Seq<char>>,
    pinned: Option<Seq<char>>,
    deps: Seq<Seq<char>>,
    snippet: Seq<char>,
)
    requires
        installable(name, version, source, pinned, deps, snippet),
        all_lines(lines(doc)),
    ensures
        ({
            let r = render_spec(name, version, source, pinned, deps, snippet);
            let once = merge_spec(Target::Just, doc, name, r);
            merge_spec(Target::Just, once, name, r) == once
        }),
{
    let r = render_spec(name, version, source, pinned, deps, snippet);
    let x = lemma_just_remove_after_install(doc, name, version, source, pinned, deps, snippet);
    let once = merge_spec(Target::Just, doc, name, r);
    lemma_append_shape(x, remove_spec(Target::Just, doc, name).0, r);
    lemma_append_shape(x, remove_spec(Target::Just, once, name).0, r);
}

/// Removing a recipe right after installing it into a justfile leaves the
/// file's lines as removing it from the starting file would: the removal undoes
/// the install (up to the file's final line ending). (Lines of the starting
/// file that end in a stray `\r` are the exception.)
pub proof fn justfile_remove_undoes_install(
    doc: Seq<char>,
    name: Seq<char>,
    version: Seq<char>,
    source: Option<Seq<char>>,
    pinned: Option<Seq<char>>,
    deps: Seq<Seq<char>>,
    snippet: Seq<char>,
)
    requires
        installable(name, version, source, pinned, deps, snippet),
        all_lines(lines(doc)),
    ensures
        ({
            let r = render_spec(name, version, source, pinned, deps, snippet);
            lines(remove_spec(Target::Just, merge_spec(Target::Just, doc, name, r), name).0) == lines(
                remove_spec(Target::Just, doc, name).0,
            )
        }),
{
    let r = render_spec(name, version, source, pinned, deps, snippet);
    let x = lemma_just_remove_after_install(doc, name, version, source, pinned, deps, snippet);
    lemma_text_lines_eq(x, remove_spec(Target::Just, doc, name).0);
    lemma_text_lines_eq(x, remove_spec(Target::Just, merge_spec(Target::Just, doc, name, r), name).0);
}

proof fn lemma_find_tasks_key_props(ls: Seq<Seq<char>>)
    ensures
        0 <= find_tasks_key(ls) <= ls.len(),
        forall|j: int| 0 <= j < find_tasks_key(ls) ==> !is_tasks_key_spec(#[trigger] ls[j]),
        find_tasks_key(ls) < ls.len() ==> is_tasks_key_spec(ls[find_tasks_key(ls)]),
    decreases ls.len(),
{
    if ls.len() > 0 && !is_tasks_key_spec(ls[0]) {
        lemma_find_tasks_key_props(ls.drop_first());
        assert forall|j: int| 0 <= j < find_tasks_key(ls) implies !is_tasks_key_spec(#[trigger] ls[j]) by {
            if j > 0 {
                assert(ls[j] == ls.drop_first()[j - 1]);
            }
        }
        if find_tasks_key(ls) < ls.len() {
            assert(ls[find_tasks_key(ls)] == ls.drop_first()[find_tasks_key(ls.drop_first())]);
        }
    }
}

proof fn lemma_find_top_level_props(ls: Seq<Seq<char>>)
    ensures
        0 <= find_top_level(ls) <= ls.len(),
        forall|j: int| 0 <= j < find_top_level(ls) ==> is_blank(#[trigger] ls[j]) || starts_with_space(ls[j]),
        find_top_level(ls) < ls.len() ==> !is_blank(ls[find_top_level(ls)]) && !starts_with_space(
            ls[find_top_level(ls)],
        ),
    decreases ls.len(),
{
    if ls.len() > 0 && !(!is_blank(ls[0]) && !starts_with_space(ls[0])) {
        lemma_find_top_level_props(ls.drop_first());
        assert forall|j: int| 0 <= j < find_top_level(ls) implies is_blank(#[trigger] ls[j]) || starts_with_space(
            ls[j],
        ) by {
            if j > 0 {
                assert(ls[j] == ls.drop_first()[j - 1]);
            }
        }
        if find_top_level(ls) < ls.len() {
            assert(ls[find_top_level(ls)] == ls.drop_first()[find_top_level(ls.drop_first())]);
        }
    }
}

proof fn lemma_mend_all_lines(out: Seq<Seq<char>>, seam: Option<int>)
    requires
        all_lines(out),
    ensures
        all_lines(mend_seam(out, seam)),
{
    let r = mend_seam(out, seam);
    match seam {
        Some(k) => {
            if 0 < k < out.len() && is_blank(out[k - 1]) && is_blank(out[k]) {
                assert forall|i: int| 0 <= i < r.len() implies is_line(#[trigger] r[i]) by {
                    if i < k {
                        assert(r[i] == out[i]);
                    } else {
                        assert(r[i] == out[i + 1]);
                    }
                }
            }
        },
        None => {},
    }
}

/// The lines a Taskfile removal keeps: proper lines, the last not blank.
proof fn lemma_remove_task_lines(doc: Seq<char>, name: Seq<char>) -> (x: Seq<Seq<char>>)
    requires
        all_lines(lines(doc)),
    ensures
        clean(x, name),
        text_of(x, remove_spec(Target::Task, doc, name).0),
        all_lines(x),
        x.len() > 0 ==> !is_blank(x.last()),
        x == drop_trailing_blanks(
            mend_seam(strip_block(lines(doc), name).out, strip_block(lines(doc), name).seam),
        ),
{
    let x = lemma_remove_shape(Target::Task, doc, name);
    let ls = lines(doc);
    lemma_lines_no_nl(doc);
    let st = strip_block(ls, name);
    let m = mend_seam(st.out, st.seam);
    lemma_strip_all_lines(ls, name);
    lemma_mend_all_lines(st.out, st.seam);
    lemma_strip_clean(ls, name);
    lemma_mend_clean(st.out, st.seam, name);
    lemma_drop_trailing_clean(m, name);
    lemma_drop_trailing_prefix(m);
    assert forall|i: int| 0 <= i < x.len() implies is_line(#[trigger] x[i]) by {
        assert(x[i] == m[i]);
    }
    x
}

/// The lines of the text of proper lines are those lines.
proof fn lemma_text_lines_eq(x: Seq<Seq<char>>, w: Seq<char>)
    requires
        all_lines(x),
        text_of(x, w),
    ensures
        lines(w) == x,
{
    if x.len() > 0 {
        if w == terminated(x) {
            lemma_lines_terminated(x);
        } else {
            crate::text::lemma_lines_join(x);
        }
    } else {
        assert(lines(w) =~= x);
    }
}

/// A removal of a block that sits between lines which do not open it keeps
/// the lines around it, and marks where it stood.
proof fn lemma_strip_block_between(
    a: Seq<Seq<char>>,
    b: Seq<Seq<char>>,
    c: Seq<Seq<char>>,
    name: Seq<char>,
)
    requires
        forall|i: int| 0 <= i < a.len() ==> no_open(#[trigger] a[i], name),
        forall|i: int| 0 <= i < c.len() ==> no_open(#[trigger] c[i], name),
        b.len() >= 2,
        starts_with(trim_start(b[0]), open_marker_spec(name)),
        forall|j: int| 0 <= j < b.len() - 1 ==> trim(#[trigger] b[j]) != close_marker_spec(name),
        trim(b.last()) == close_marker_spec(name),
    ensures
        strip_block(a + b + c, name).out == a + c,
        strip_block(a + b + c, name).seam == Some(a.len() as int),
        !strip_block(a + b + c, name).in_block,
    decreases c.len(),
{
    if c.len() == 0 {
        lemma_strip_block_after(a, b, name, b.len() as int);
        assert(b.subrange(0, b.len() as int) =~= b);
        assert(a + b + c =~= a + b);
        assert(a + c =~= a);
    } else {
        assert forall|i: int| 0 <= i < c.drop_last().len() implies no_open(#[trigger] c.drop_last()[i], name) by {
            assert(c.drop_last()[i] == c[i]);
        }
        lemma_strip_block_between(a, b, c.drop_last(), name);
        let abc = a + b + c;
        assert(abc.drop_last() =~= a + b + c.drop_last());
        assert(abc.last() == c.last());
        assert(no_open(c[c.len() - 1], name));
        assert(strip_block(abc, name) == strip_step(
            strip_block(abc.drop_last(), name),
            abc.last(),
            open_marker_spec(name),
            close_marker_spec(name),
        ));
        assert((a + c.drop_last()).push(c.last()) =~= a + c);
    }
}

proof fn lemma_tasks_key_line()
    ensures
        is_tasks_key_spec(k_tasks_key()),
        !is_blank(k_tasks_key()),
        !starts_with_space(k_tasks_key()),
{
    let k = k_tasks_key();
    assert(k.subrange(0, k.len() as int) =~= k);
    assert(k.subrange(k.len() as int, k.len() as int) =~= Seq::<char>::empty());
    assert(!is_ws(k[0]));
}

proof fn lemma_blank_not_key(l: Seq<char>)
    requires
        is_blank(l),
    ensures
        !is_tasks_key_spec(l),
{
    if is_tasks_key_spec(l) {
        lemma_prefix_index(l, k_tasks_key(), 0);
        assert(is_ws(l[0]));
    }
}

proof fn lemma_x_no_nl(x: Seq<Seq<char>>, name: Seq<char>)
    requires
        clean(x, name),
    ensures
        no_nl_lines(x),
{
    assert forall|i: int| 0 <= i < x.len() implies !(#[trigger] x[i]).contains('\n') by {
        assert(no_open(x[i], name) && !x[i].contains('\n'));
    }
}

/// Without a `tasks:` key, insertion writes the text, a blank line,
/// `tasks:`, then the block.
proof fn lemma_new_map_text(x: Seq<Seq<char>>, w: Seq<char>, blk: Seq<char>)
    requires
        no_nl_lines(x),
        text_of(x, w),
        find_tasks_key(lines(w)) >= lines(w).len(),
    ensures
        insert_into_tasks_spec(w, blk) == (if x.len() == 0 {
            Seq::<char>::empty()
        } else {
            terminated(x.push(seq![]))
        }) + k_tasks_key() + seq!['\n'] + blk,
{
    if x.len() > 0 {
        lemma_last_not_nl(x);
        let init = x.drop_last();
        assert(init.push(x.last()) =~= x);
        lemma_join_terminated(init, x.last());
        lemma_join_nl(x);
        crate::text::lemma_terminated_push(x, seq![]);
        assert(terminated(x.push(seq![])) =~= terminated(x) + seq!['\n']);
        let t = terminated(x);
        assert(t == terminated(init) + x.last() + seq!['\n']);
        crate::text::lemma_ends_with_char(t, '\n');
        assert(!ends_with(t, seq!['\n', '\n'])) by {
            if ends_with(t, seq!['\n', '\n']) {
                assert(t.subrange(t.len() - 2, t.len() as int)[0] == t[t.len() - 2]);
            }
        }
        let j = join(x, seq!['\n']);
        assert(j.last() == x.last().last());
        crate::text::lemma_ends_with_char(j, '\n');
    }
}

proof fn lemma_no_open_empty(name: Seq<char>)
    ensures
        no_open(Seq::<char>::empty(), name),
{
    assert(trim_start(Seq::<char>::empty()) =~= Seq::<char>::empty());
}

proof fn lemma_no_open_tasks_key(name: Seq<char>)
    ensures
        no_open(k_tasks_key(), name),
{
    assert(trim_start(k_tasks_key()) == k_tasks_key());
    if starts_with(k_tasks_key(), open_marker_spec(name)) {
        lemma_prefix_index(k_tasks_key(), open_marker_spec(name), 0);
    }
}

/// A Taskfile without a `tasks:` map: installing twice is installing once.
#[verifier::spinoff_prover]
#[verifier::rlimit(30)]
proof fn lemma_task_idem_new_map(x: Seq<Seq<char>>, w: Seq<char>, il: Seq<Seq<char>>, name: Seq<char>)
    requires
        clean(x, name),
        all_lines(x),
        text_of(x, w),
        block_lines_ok(il, name),
        il.len() >= 2,
        find_tasks_key(x) >= x.len(),
    ensures
        ({
            let once = insert_into_tasks_spec(w, terminated(il));
            insert_into_tasks_spec(remove_spec(Target::Task, once, name).0, terminated(il)) == once
        }),
        remove_spec(Target::Task, insert_into_tasks_spec(w, terminated(il)), name).0 == terminated(
            (if x.len() == 0 {
                Seq::<Seq<char>>::empty()
            } else {
                x.push(seq![])
            }) + seq![k_tasks_key()],
        ),
{
    let blk = terminated(il);
    lemma_x_no_nl(x, name);
    lemma_text_lines_eq(x, w);
    lemma_new_map_text(x, w, blk);
    let once = insert_into_tasks_spec(w, blk);
    let y: Seq<Seq<char>> = if x.len() == 0 {
        seq![]
    } else {
        x.push(seq![])
    };
    let tk = seq![k_tasks_key()];
    let a = y + tk;
    lemma_terminated_one(k_tasks_key());
    lemma_terminated_concat(y, tk);
    lemma_terminated_concat(a, il);
    if x.len() == 0 {
        assert(terminated(y) =~= Seq::<char>::empty());
    }
    assert(once =~= terminated(y) + terminated(tk) + terminated(il));
    assert(once == terminated(a + il));
    lemma_tasks_key_line();
    lemma_no_open_empty(name);
    lemma_no_open_tasks_key(name);
    assert forall|i: int| 0 <= i < a.len() implies no_open(#[trigger] a[i], name) && is_line(a[i]) && (i < y.len()
        ==> !is_tasks_key_spec(a[i])) by {
        if i < x.len() {
            assert(a[i] == x[i]);
            lemma_find_tasks_key_props(x);
        } else if i < y.len() {
            assert(a[i] =~= Seq::<char>::empty());
            lemma_blank_not_key(a[i]);
        } else {
            assert(a[i] == k_tasks_key());
        }
    }
    assert(all_lines(a + il)) by {
        assert forall|i: int| 0 <= i < (a + il).len() implies is_line(#[trigger] (a + il)[i]) by {
            if i < a.len() {
                assert((a + il)[i] == a[i]);
            } else {
                assert((a + il)[i] == il[i - a.len()]);
            }
        }
    }
    lemma_lines_terminated(a + il);
    // Removing the block keeps `y` and `tasks:`.
    lemma_strip_block_between(a, il, seq![], name);
    assert(a + il + Seq::<Seq<char>>::empty() =~= a + il);
    assert(a + Seq::<Seq<char>>::empty() =~= a);
    let st = strip_block(lines(once), name);
    assert(mend_seam(st.out, st.seam) == a);
    assert(a.last() == k_tasks_key());
    lemma_drop_trailing_id(a);
    let w1 = remove_spec(Target::Task, once, name).0;
    assert(w1 == finish_nl(join(a, seq!['\n']), once));
    assert(once.len() > 0 && once.last() == '\n') by {
        crate::text::lemma_terminated_push((a + il).drop_last(), (a + il).last());
        assert((a + il).drop_last().push((a + il).last()) =~= a + il);
    }
    crate::text::lemma_ends_with_char(once, '\n');
    let init = a.drop_last();
    assert(init.push(a.last()) =~= a);
    lemma_join_terminated(init, a.last());
    lemma_join_nl(a);
    let j = join(a, seq!['\n']);
    assert(j.last() == ':');
    crate::text::lemma_ends_with_char(j, '\n');
    assert(w1 == terminated(a));
    lemma_lines_terminated(a);
    // Inserting again finds the `tasks:` key last and splices right after it.
    assert forall|i: int| 0 <= i < y.len() implies !is_tasks_key_spec(#[trigger] a[i]) by {}
    lemma_find_tasks_key_at(a, y.len() as int);
    let rest = a.subrange(y.len() as int + 1, a.len() as int);
    assert(rest.len() == 0);
    assert(find_top_level(rest) == 0);
    assert(a.subrange(0, a.len() as int) =~= a);
    assert(a.subrange(a.len() as int, a.len() as int) =~= Seq::<Seq<char>>::empty());
    lemma_join_nl(a + il);
    lemma_lines_terminated(il);
    assert(lines(blk) == il);
    let ls1 = lines(w1);
    assert(ls1 == a);
    assert(find_tasks_key(ls1) == y.len());
    let end = y.len() + 1 + find_top_level(ls1.subrange(y.len() as int + 1, ls1.len() as int));
    assert(end == a.len());
    assert(drop_trailing_blanks(ls1.subrange(0, end)) == a);
    assert(ls1.subrange(end, ls1.len() as int).len() == 0);
    assert(a + Seq::<Seq<char>>::empty() + il + Seq::<Seq<char>>::empty() =~= a + il);
    assert(insert_into_tasks_spec(w1, blk) == join(a + Seq::<Seq<char>>::empty() + il + Seq::<Seq<char>>::empty(), seq!['\n']) + seq!['\n']);
}

proof fn lemma_dtb_keeps(ls: Seq<Seq<char>>, k: int)
    requires
        0 <= k < ls.len(),
        !is_blank(ls[k]),
    ensures
        drop_trailing_blanks(ls).len() > k,
    decreases ls.len(),
{
    if is_blank(ls.last()) {
        assert(k < ls.len() - 1);
        assert(ls.drop_last()[k] == ls[k]);
        lemma_dtb_keeps(ls.drop_last(), k);
    }
}

#[verifier::spinoff_prover]
#[verifier::rlimit(30)]
proof fn lemma_dtb_blank_tail(head: Seq<Seq<char>>, extra: Seq<Seq<char>>)
    requires
        head.len() > 0,
        !is_blank(head.last()),
        forall|i: int| 0 <= i < extra.len() ==> is_blank(#[trigger] extra[i]),
    ensures
        drop_trailing_blanks(head + extra) == head,
    decreases extra.len(),
{
    if extra.len() == 0 {
        assert(head + extra =~= head);
    } else {
        assert((head + extra).drop_last() =~= head + extra.drop_last());
        assert(is_blank(extra[extra.len() - 1]));
        assert forall|i: int| 0 <= i < extra.drop_last().len() implies is_blank(#[trigger] extra.drop_last()[i]) by {
            assert(extra.drop_last()[i] == extra[i]);
        }
        lemma_dtb_blank_tail(head, extra.drop_last());
    }
}

/// Where the top-level `tasks:` map of `x` ends.
pub open spec fn map_end(x: Seq<Seq<char>>) -> int {
    find_tasks_key(x) + 1 + find_top_level(x.subrange(find_tasks_key(x) + 1, x.len() as int))
}

/// The lines up to the end of the map, without trailing blank lines.
pub open spec fn map_head(x: Seq<Seq<char>>) -> Seq<Seq<char>> {
    drop_trailing_blanks(x.subrange(0, map_end(x)))
}

pub open spec fn map_tail(x: Seq<Seq<char>>) -> Seq<Seq<char>> {
    x.subrange(map_end(x), x.len() as int)
}

pub open spec fn map_sep(x: Seq<Seq<char>>) -> Seq<Seq<char>> {
    if map_head(x).len() <= find_tasks_key(x) + 1 {
        seq![]
    } else {
        seq![seq![]]
    }
}

pub open spec fn map_after(x: Seq<Seq<char>>) -> Seq<Seq<char>> {
    if map_tail(x).len() > 0 {
        seq![seq![]] + map_tail(x)
    } else {
        seq![]
    }
}

/// The pieces of a Taskfile with a `tasks:` map.
#[verifier::spinoff_prover]
#[verifier::rlimit(30)]
proof fn lemma_map_pieces(x: Seq<Seq<char>>, name: Seq<char>)
    requires
        clean(x, name),
        all_lines(x),
        x.len() > 0 ==> !is_blank(x.last()),
        find_tasks_key(x) < x.len(),
    ensures
        ({
            let ti = find_tasks_key(x);
            let head = map_head(x);
            let tail = map_tail(x);
            &&& 0 <= ti
            &&& ti < head.len() <= map_end(x) <= x.len()
            &&& !is_blank(head.last())
            &&& forall|i: int| 0 <= i < head.len() ==> #[trigger] head[i] == x[i]
            &&& forall|i: int| 0 <= i < tail.len() ==> #[trigger] tail[i] == x[map_end(x) + i]
            &&& forall|j: int| 0 <= j < ti ==> !is_tasks_key_spec(#[trigger] x[j])
            &&& is_tasks_key_spec(x[ti])
            &&& forall|j: int|
                ti + 1 <= j < map_end(x) ==> is_blank(#[trigger] x[j]) || starts_with_space(x[j])
            &&& tail.len() > 0 ==> !is_blank(x[map_end(x)]) && !starts_with_space(x[map_end(x)])
            &&& tail.len() > 0 ==> tail.last() == x.last()
        }),
{
    lemma_find_tasks_key_props(x);
    let ti = find_tasks_key(x);
    assert(!is_blank(x[ti])) by {
        if is_blank(x[ti]) {
            lemma_blank_not_key(x[ti]);
        }
    }
    let r = x.subrange(ti + 1, x.len() as int);
    lemma_find_top_level_props(r);
    let e = find_top_level(r);
    let end = ti + 1 + e;
    let hs = x.subrange(0, end);
    assert(clean(hs, name)) by {
        assert forall|i: int| 0 <= i < hs.len() implies no_open(#[trigger] hs[i], name) && !hs[i].contains('\n') by {
            assert(hs[i] == x[i]);
        }
    }
    lemma_drop_trailing_clean(hs, name);
    lemma_drop_trailing_prefix(hs);
    assert(hs[ti] == x[ti]);
    lemma_dtb_keeps(hs, ti);
    let head = map_head(x);
    assert forall|i: int| 0 <= i < head.len() implies #[trigger] head[i] == x[i] by {
        assert(head[i] == hs.subrange(0, head.len() as int)[i]);
    }
    assert forall|j: int| ti + 1 <= j < end implies is_blank(#[trigger] x[j]) || starts_with_space(x[j]) by {
        assert(r[j - ti - 1] == x[j]);
    }
    if end < x.len() {
        assert(r[e] == x[end]);
    }
}

proof fn lemma_in_map_once(x: Seq<Seq<char>>, w: Seq<char>, il: Seq<Seq<char>>, name: Seq<char>)
    requires
        clean(x, name),
        all_lines(x),
        text_of(x, w),
        x.len() > 0 ==> !is_blank(x.last()),
        block_lines_ok(il, name),
        find_tasks_key(x) < x.len(),
    ensures
        insert_into_tasks_spec(w, terminated(il)) == terminated(map_head(x) + map_sep(x) + il + map_after(x)),
        lines(insert_into_tasks_spec(w, terminated(il))) == map_head(x) + map_sep(x) + il + map_after(x),
{
    lemma_text_lines_eq(x, w);
    lemma_lines_terminated(il);
    lemma_map_pieces(x, name);
    let head = map_head(x);
    let sep = map_sep(x);
    let after = map_after(x);
    let tail = map_tail(x);
    let z = head + sep + il + after;
    assert(insert_into_tasks_spec(w, terminated(il)) == join(z, seq!['\n']) + seq!['\n']);
    lemma_join_nl(z);
    assert(all_lines(z)) by {
        assert forall|i: int| 0 <= i < z.len() implies is_line(#[trigger] z[i]) by {
            if i < head.len() {
                assert(z[i] == x[i]);
            } else if i < head.len() + sep.len() {
                assert(z[i] =~= Seq::<char>::empty());
            } else if i < head.len() + sep.len() + il.len() {
                assert(z[i] == il[i - head.len() - sep.len()]);
            } else if i == head.len() + sep.len() + il.len() {
                assert(z[i] =~= Seq::<char>::empty());
            } else {
                assert(z[i] == tail[i - head.len() - sep.len() - il.len() - 1]);
            }
        }
    }
    lemma_lines_terminated(z);
}

#[verifier::spinoff_prover]
#[verifier::rlimit(30)]
proof fn lemma_in_map_removed(x: Seq<Seq<char>>, il: Seq<Seq<char>>, name: Seq<char>)
    requires
        clean(x, name),
        all_lines(x),
        x.len() > 0 ==> !is_blank(x.last()),
        block_lines_ok(il, name),
        il.len() >= 2,
        find_tasks_key(x) < x.len(),
    ensures
        ({
            let z = map_head(x) + map_sep(x) + il + map_after(x);
            remove_spec(Target::Task, terminated(z), name).0 == terminated(map_head(x) + map_after(x))
        }),
{
    lemma_map_pieces(x, name);
    let head = map_head(x);
    let sep = map_sep(x);
    let after = map_after(x);
    let tail = map_tail(x);
    let z = head + sep + il + after;
    let once = terminated(z);
    assert(all_lines(z)) by {
        assert forall|i: int| 0 <= i < z.len() implies is_line(#[trigger] z[i]) by {
            if i < head.len() {
                assert(z[i] == x[i]);
            } else if i < head.len() + sep.len() {
                assert(z[i] =~= Seq::<char>::empty());
            } else if i < head.len() + sep.len() + il.len() {
                assert(z[i] == il[i - head.len() - sep.len()]);
            } else if i == head.len() + sep.len() + il.len() {
                assert(z[i] =~= Seq::<char>::empty());
            } else {
                assert(z[i] == tail[i - head.len() - sep.len() - il.len() - 1]);
            }
        }
    }
    lemma_lines_terminated(z);
    lemma_no_open_empty(name);
    let pre = head + sep;
    assert forall|i: int| 0 <= i < pre.len() implies no_open(#[trigger] pre[i], name) by {
        if i < head.len() {
            assert(pre[i] == x[i]);
        } else {
            assert(pre[i] =~= Seq::<char>::empty());
        }
    }
    assert forall|i: int| 0 <= i < after.len() implies no_open(#[trigger] after[i], name) && is_line(after[i]) by {
        if i == 0 {
            assert(after[i] =~= Seq::<char>::empty());
        } else {
            assert(after[i] == tail[i - 1]);
        }
    }
    assert(z =~= pre + il + after);
    lemma_strip_block_between(pre, il, after, name);
    let st = strip_block(lines(once), name);
    assert(st.out == pre + after);
    let x1 = head + after;
    if after.len() > 0 {
        assert(x1.last() == x.last());
        if sep.len() > 0 {
            assert(mend_seam(st.out, st.seam) == (pre + after).remove(pre.len() as int));
            assert((pre + after).remove(pre.len() as int) =~= x1);
        } else {
            assert(pre =~= head);
            assert((pre + after)[pre.len() - 1] == head.last());
            assert(mend_seam(st.out, st.seam) == pre + after);
        }
        lemma_drop_trailing_id(x1);
    } else {
        assert(mend_seam(st.out, st.seam) == pre + after);
        assert(pre + after =~= head + sep);
        assert forall|i: int| 0 <= i < sep.len() implies is_blank(#[trigger] sep[i]) by {
            assert(sep[i] =~= Seq::<char>::empty());
        }
        lemma_dtb_blank_tail(head, sep);
        assert(x1 =~= head);
    }
    assert(drop_trailing_blanks(mend_seam(st.out, st.seam)) == x1);
    let w1 = remove_spec(Target::Task, once, name).0;
    assert(w1 == finish_nl(join(x1, seq!['\n']), once));
    assert(once.len() > 0 && once.last() == '\n') by {
        crate::text::lemma_terminated_push(z.drop_last(), z.last());
        assert(z.drop_last().push(z.last()) =~= z);
    }
    crate::text::lemma_ends_with_char(once, '\n');
    assert(no_nl_lines(x1)) by {
        assert forall|i: int| 0 <= i < x1.len() implies !(#[trigger] x1[i]).contains('\n') by {
            if i < head.len() {
                assert(x1[i] == x[i]);
                assert(is_line(x[i]));
            } else if i == head.len() {
                assert(x1[i] =~= Seq::<char>::empty());
            } else {
                assert(x1[i] == tail[i - head.len() - 1]);
                assert(is_line(x[map_end(x) + i - head.len() - 1]));
            }
        }
    }
    assert(x1.last().len() > 0) by {
        assert(!is_blank(x1.last()));
    }
    lemma_last_not_nl(x1);
    let init = x1.drop_last();
    assert(init.push(x1.last()) =~= x1);
    lemma_join_terminated(init, x1.last());
    lemma_join_nl(x1);
    let j = join(x1, seq!['\n']);
    assert(j.last() == x1.last().last());
    crate::text::lemma_ends_with_char(j, '\n');
}

/// After the removal, the map is found in the same place with the same
/// head and tail.
#[verifier::spinoff_prover]
proof fn lemma_in_map_pieces_again(x: Seq<Seq<char>>, name: Seq<char>)
    requires
        clean(x, name),
        all_lines(x),
        x.len() > 0 ==> !is_blank(x.last()),
        find_tasks_key(x) < x.len(),
    ensures
        ({
            let x1 = map_head(x) + map_after(x);
            &&& find_tasks_key(x1) == find_tasks_key(x)
            &&& map_head(x1) == map_head(x)
            &&& map_tail(x1) == map_tail(x)
        }),
{
    lemma_map_pieces(x, name);
    let ti = find_tasks_key(x);
    let head = map_head(x);
    let after = map_after(x);
    let tail = map_tail(x);
    let x1 = head + after;
    assert forall|j: int| 0 <= j < ti implies !is_tasks_key_spec(#[trigger] x1[j]) by {
        assert(x1[j] == x[j]);
    }
    assert(x1[ti] == x[ti]);
    lemma_find_tasks_key_at(x1, ti);
    let r1 = x1.subrange(ti + 1, x1.len() as int);
    let k1: int = if tail.len() > 0 {
        head.len() - ti
    } else {
        head.len() - ti - 1
    };
    assert forall|j: int| 0 <= j < k1 implies is_blank(#[trigger] r1[j]) || starts_with_space(r1[j]) by {
        if ti + 1 + j < head.len() {
            assert(r1[j] == x1[ti + 1 + j]);
            assert(x1[ti + 1 + j] == x[ti + 1 + j]);
        } else {
            assert(r1[j] == x1[head.len() as int]);
            assert(x1[head.len() as int] =~= Seq::<char>::empty());
        }
    }
    if tail.len() > 0 {
        assert(r1[k1] == x1[head.len() as int + 1]);
        assert(x1[head.len() as int + 1] == tail[0]);
    } else {
        assert(k1 == r1.len());
    }
    lemma_find_top_level_at(r1, k1);
    let end1 = ti + 1 + k1;
    assert(map_end(x1) == end1);
    let hs1 = x1.subrange(0, end1);
    if tail.len() > 0 {
        assert(hs1 =~= head + seq![seq![]]);
        assert forall|i: int| 0 <= i < 1 implies is_blank(#[trigger] seq![Seq::<char>::empty()][i]) by {}
        lemma_dtb_blank_tail(head, seq![seq![]]);
        assert(x1.subrange(end1, x1.len() as int) =~= tail);
    } else {
        assert(hs1 =~= head);
        lemma_drop_trailing_id(head);
        assert(x1.subrange(end1, x1.len() as int) =~= tail);
    }
}

proof fn lemma_in_map_again(x: Seq<Seq<char>>, il: Seq<Seq<char>>, name: Seq<char>)
    requires
        clean(x, name),
        all_lines(x),
        x.len() > 0 ==> !is_blank(x.last()),
        block_lines_ok(il, name),
        find_tasks_key(x) < x.len(),
    ensures
        insert_into_tasks_spec(terminated(map_head(x) + map_after(x)), terminated(il)) == terminated(
            map_head(x) + map_sep(x) + il + map_after(x),
        ),
{
    lemma_map_pieces(x, name);
    lemma_lines_terminated(il);
    lemma_in_map_pieces_again(x, name);
    let head = map_head(x);
    let after = map_after(x);
    let tail = map_tail(x);
    let x1 = head + after;
    assert(all_lines(x1)) by {
        assert forall|i: int| 0 <= i < x1.len() implies is_line(#[trigger] x1[i]) by {
            if i < head.len() {
                assert(x1[i] == x[i]);
            } else if i == head.len() {
                assert(x1[i] =~= Seq::<char>::empty());
            } else {
                assert(x1[i] == tail[i - head.len() - 1]);
            }
        }
    }
    lemma_lines_terminated(x1);
    assert(map_sep(x1) == map_sep(x));
    assert(map_after(x1) == map_after(x));
    let z = head + map_sep(x) + il + after;
    assert(insert_into_tasks_spec(terminated(x1), terminated(il)) == join(
        map_head(x1) + map_sep(x1) + lines(terminated(il)) + map_after(x1),
        seq!['\n'],
    ) + seq!['\n']);
    lemma_join_nl(z);
}

/// A Taskfile with a `tasks:` map: installing twice is installing once.
proof fn lemma_task_idem_in_map(x: Seq<Seq<char>>, w: Seq<char>, il: Seq<Seq<char>>, name: Seq<char>)
    requires
        clean(x, name),
        all_lines(x),
        text_of(x, w),
        x.len() > 0 ==> !is_blank(x.last()),
        block_lines_ok(il, name),
        il.len() >= 2,
        find_tasks_key(x) < x.len(),
    ensures
        ({
            let once = insert_into_tasks_spec(w, terminated(il));
            insert_into_tasks_spec(remove_spec(Target::Task, once, name).0, terminated(il)) == once
        }),
{
    lemma_in_map_once(x, w, il, name);
    lemma_in_map_removed(x, il, name);
    lemma_in_map_again(x, il, name);
}

/// Installing a rendered block into a Taskfile twice writes the same text as
/// installing it once: an update with nothing new leaves the file byte for
/// byte as it was. (Lines of the starting file that end in a stray `\r`
/// are the exception; `lines` would drop it on the second pass.)
pub proof fn taskfile_install_is_idempotent(
    doc: Seq<char>,
    name: Seq<char>,
    version: Seq<char>,
    source: Option<Seq<char>>,
    pinned: Option<Seq<char>>,
    deps: Seq<Seq<char>>,
    snippet: Seq<char>,
)
    requires
        installable(name, version, source, pinned, deps, snippet),
        all_lines(lines(doc)),
    ensures
        ({
            let r = render_block_spec(Target::Task, name, version, source, pinned, deps, snippet);
            let once = merge_spec(Target::Task, doc, name, r);
            merge_spec(Target::Task, once, name, r) == once
        }),
{
    let blk = render_block_spec(Target::Task, name, version, source, pinned, deps, snippet);
    let il = indented_lines(lines(render_spec(name, version, source, pinned, deps, snippet)));
    lemma_indented(name, version, source, pinned, deps, snippet);
    let w = remove_spec(Target::Task, doc, name).0;
    let x = lemma_remove_task_lines(doc, name);
    lemma_text_lines_eq(x, w);
    if find_tasks_key(x) >= x.len() {
        lemma_task_idem_new_map(x, w, il, name);
    } else {
        lemma_task_idem_in_map(x, w, il, name);
    }
}

// ------------------------------------------------------------------ indentation

/// `b` is `a` with each line's indentation changed: the same lines after
/// leading whitespace.
pub open spec fn reindented(a: Seq<Seq<char>>, b: Seq<Seq<char>>) -> bool {
    a.len() == b.len() && forall|i: int| 0 <= i < a.len() ==> trim_start(#[trigger] a[i]) == trim_start(b[i])
}

proof fn lemma_reindented_drop_first(a: Seq<Seq<char>>, b: Seq<Seq<char>>)
    requires
        reindented(a, b),
        a.len() > 0,
    ensures
        reindented(a.drop_first(), b.drop_first()),
{
    assert forall|i: int| 0 <= i < a.drop_first().len() implies trim_start(#[trigger] a.drop_first()[i]) == trim_start(
        b.drop_first()[i],
    ) by {
        assert(a.drop_first()[i] == a[i + 1]);
        assert(b.drop_first()[i] == b[i + 1]);
    }
}

proof fn lemma_reindented_subrange(a: Seq<Seq<char>>, b: Seq<Seq<char>>, lo: int, hi: int)
    requires
        reindented(a, b),
        0 <= lo <= hi <= a.len(),
    ensures
        reindented(a.subrange(lo, hi), b.subrange(lo, hi)),
{
    assert forall|i: int| 0 <= i < hi - lo implies trim_start(#[trigger] a.subrange(lo, hi)[i]) == trim_start(
        b.subrange(lo, hi)[i],
    ) by {
        assert(a.subrange(lo, hi)[i] == a[lo + i]);
        assert(b.subrange(lo, hi)[i] == b[lo + i]);
    }
}

proof fn lemma_reindented_find_line(a: Seq<Seq<char>>, b: Seq<Seq<char>>, t: Seq<char>)
    requires
        reindented(a, b),
    ensures
        find_line(a, t) == find_line(b, t),
    decreases a.len(),
{
    if a.len() > 0 {
        assert(trim(a[0]) == trim(b[0]));
        lemma_reindented_drop_first(a, b);
        lemma_reindented_find_line(a.drop_first(), b.drop_first(), t);
    }
}

proof fn lemma_reindented_header(a: Seq<Seq<char>>, b: Seq<Seq<char>>)
    requires
        reindented(a, b),
    ensures
        parse_dependencies_spec(a) == parse_dependencies_spec(b),
        parse_pinned_spec(a) == parse_pinned_spec(b),
    decreases a.len(),
{
    if a.len() > 0 {
        lemma_reindented_drop_first(a, b);
        lemma_reindented_header(a.drop_first(), b.drop_first());
    }
}

/// Changing indentation changes no block's name, version, dependencies or pin.
proof fn lemma_reindented_parse(a: Seq<Seq<char>>, b: Seq<Seq<char>>)
    requires
        reindented(a, b),
    ensures
        parse_blocks(a).len() == parse_blocks(b).len(),
        forall|k: int|
            0 <= k < parse_blocks(a).len() ==> {
                let x = #[trigger] parse_blocks(a)[k];
                let y = parse_blocks(b)[k];
                &&& x.name == y.name
                &&& x.version == y.version
                &&& x.dependencies == y.dependencies
                &&& x.pinned == y.pinned
            },
    decreases a.len(),
{
    if a.len() > 0 {
        assert(parse_open_spec(a[0]) == parse_open_spec(b[0]));
        lemma_reindented_drop_first(a, b);
        match parse_open_spec(a[0]) {
            None => {
                lemma_reindented_parse(a.drop_first(), b.drop_first());
            },
            Some((nm, v)) => {
                let ra = a.drop_first();
                let rb = b.drop_first();
                lemma_reindented_find_line(ra, rb, close_marker_spec(nm));
                let j = find_line(ra, close_marker_spec(nm));
                if 0 <= j < ra.len() {
                    lemma_reindented_subrange(ra, rb, 0, j);
                    lemma_reindented_subrange(ra, rb, j + 1, ra.len() as int);
                    lemma_reindented_header(ra.subrange(0, j), rb.subrange(0, j));
                    lemma_reindented_parse(ra.subrange(j + 1, ra.len() as int), rb.subrange(j + 1, rb.len() as int));
                    let pa = parse_blocks(a);
                    let pb = parse_blocks(b);
                    let ta = parse_blocks(ra.subrange(j + 1, ra.len() as int));
                    let tb = parse_blocks(rb.subrange(j + 1, rb.len() as int));
                    assert(pa == seq![make_block(nm, v, ra.subrange(0, j))] + ta);
                    assert(pb == seq![make_block(nm, v, rb.subrange(0, j))] + tb);
                    assert forall|k: int| 0 <= k < pa.len() implies {
                        let x = #[trigger] pa[k];
                        let y = pb[k];
                        &&& x.name == y.name
                        &&& x.version == y.version
                        &&& x.dependencies == y.dependencies
                        &&& x.pinned == y.pinned
                    } by {
                        if k > 0 {
                            assert(pa[k] == ta[k - 1]);
                            assert(pb[k] == tb[k - 1]);
                        }
                    }
                }
            },
        }
    }
}

proof fn lemma_blank_trim_start(l: Seq<char>)
    requires
        is_blank(l),
    ensures
        trim_start(l) == Seq::<char>::empty(),
    decreases l.len(),
{
    if l.len() > 0 {
        assert(is_ws(l[0]));
        assert(is_blank(l.drop_first())) by {
            assert forall|i: int| 0 <= i < l.drop_first().len() implies is_ws(#[trigger] l.drop_first()[i]) by {
                assert(l.drop_first()[i] == l[i + 1]);
            }
        }
        lemma_blank_trim_start(l.drop_first());
    }
}

/// A block rendered for a Taskfile (indented under `tasks:`) parses back to
/// one block with its name, version, dependencies and pin.
pub proof fn rendered_task_block_parses_back(
    name: Seq<char>,
    version: Seq<char>,
    source: Option<Seq<char>>,
    pinned: Option<Seq<char>>,
    deps: Seq<Seq<char>>,
    snippet: Seq<char>,
)
    requires
        renderable(name, version, source, pinned, deps, snippet),
    ensures
        ({
            let bs = parse_all_spec(render_block_spec(Target::Task, name, version, source, pinned, deps, snippet));
            &&& bs.len() == 1
            &&& bs[0].name == name
            &&& bs[0].version == version
            &&& bs[0].dependencies == deps
            &&& bs[0].pinned == pinned
        }),
{
    let rl = rendered_lines(name, version, source, pinned, deps, snippet);
    let il = indented_lines(rl);
    lemma_plain_header_values(name, version, source, pinned, deps, snippet);
    lemma_render_lines(name, version, source, pinned, deps, snippet);
    lemma_indented(name, version, source, pinned, deps, snippet);
    lemma_lines_terminated(il);
    rendered_block_parses_back(name, version, source, pinned, deps, snippet);
    assert forall|i: int| 0 <= i < rl.len() implies trim_start(#[trigger] rl[i]) == trim_start(il[i]) by {
        if is_blank(rl[i]) {
            assert(il[i] =~= Seq::<char>::empty());
            lemma_blank_trim_start(rl[i]);
        } else {
            lemma_trim_pad(TASK_INDENT as nat, rl[i]);
        }
    }
    lemma_reindented_parse(rl, il);
    assert(parse_blocks(rl) == parse_all_spec(render_spec(name, version, source, pinned, deps, snippet)));
    assert(parse_blocks(rl)[0].name == name);
}

// ------------------------------------------------------------------ sources

proof fn lemma_count_char_concat(a: Seq<char>, b: Seq<char>, c: char)
    ensures
        crate::sources::count_char(a + b, c) == crate::sources::count_char(a, c) + crate::sources::count_char(b, c),
    decreases b.len(),
{
    if b.len() == 0 {
        assert(a + b =~= a);
    } else {
        lemma_count_char_concat(a, b.drop_last(), c);
        assert((a + b).drop_last() =~= a + b.drop_last());
    }
}

proof fn lemma_count_char_zero(s: Seq<char>, c: char)
    requires
        !s.contains(c),
    ensures
        crate::sources::count_char(s, c) == 0,
    decreases s.len(),
{
    if s.len() > 0 {
        assert(!s.drop_last().contains(c)) by {
            if s.drop_last().contains(c) {
                let j = choose|j: int| 0 <= j < s.drop_last().len() && s.drop_last()[j] == c;
                assert(s[j] == c);
            }
        }
        lemma_count_char_zero(s.drop_last(), c);
        assert(s[s.len() - 1] != c) by {
            if s[s.len() - 1] == c {
                assert(s.contains(s[s.len() - 1]));
            }
        }
    }
}

proof fn lemma_rfind_after(a: Seq<char>, b: Seq<char>, c: char)
    requires
        !b.contains(c),
    ensures
        crate::sources::rfind_char(a + seq![c] + b, c) == a.len(),
    decreases b.len(),
{
    let s = a + seq![c] + b;
    if b.len() == 0 {
        assert(s.last() == c);
    } else {
        assert(b[b.len() - 1] != c) by {
            if b[b.len() - 1] == c {
                assert(b.contains(b[b.len() - 1]));
            }
        }
        assert(!b.drop_last().contains(c)) by {
            if b.drop_last().contains(c) {
                let j = choose|j: int| 0 <= j < b.drop_last().len() && b.drop_last()[j] == c;
                assert(b[j] == c);
            }
        }
        assert(s.drop_last() =~= a + seq![c] + b.drop_last());
        lemma_rfind_after(a, b.drop_last(), c);
    }
}

/// A block's name leads back to the index entry it was installed from: a
/// curated recipe by its bare name, a tap recipe (from a `user/repo` tap) by
/// `user/repo/recipe`.
pub proof fn block_name_finds_its_source(
    srcs: Seq<crate::sources::Source>,
    label: Seq<char>,
    recipe: Seq<char>,
)
    requires
        recipe.len() > 0,
        !recipe.contains('/'),
        label == crate::sources::curated() || (label.len() > 0 && crate::sources::count_char(label, '/') == 1),
    ensures
        crate::sources::find_spec(srcs, crate::sources::block_name_spec(label, recipe))
            == crate::sources::lookup(srcs, label, recipe),
{
    lemma_count_char_zero(recipe, '/');
    if label == crate::sources::curated() {
    } else {
        let q = label + seq!['/'] + recipe;
        lemma_count_char_concat(label, seq!['/'], '/');
        lemma_count_char_concat(label + seq!['/'], recipe, '/');
        assert(crate::sources::count_char(seq!['/'], '/') == 1) by {
            let one = seq!['/'];
            assert(one.drop_last() =~= Seq::<char>::empty());
            assert(crate::sources::count_char(Seq::<char>::empty(), '/') == 0);
            assert(one.last() == '/');
            assert(crate::sources::count_char(one, '/') == crate::sources::count_char(one.drop_last(), '/') + 1);
        }
        lemma_rfind_after(label, recipe, '/');
        assert(q.subrange(0, label.len() as int) =~= label);
        assert(q.subrange(label.len() as int + 1, q.len() as int) =~= recipe);
    }
}

/// Every block installed from a tap belongs to that tap.
pub proof fn tap_blocks_belong_to_their_tap(tap: Seq<char>, recipe: Seq<char>)
    requires
        tap != crate::sources::curated(),
    ensures
        crate::taps::belongs_spec(crate::sources::block_name_spec(tap, recipe), tap),
{
    let b = tap + seq!['/'] + recipe;
    assert(b.subrange(0, tap.len() as int + 1) =~= tap + seq!['/']);
}


// ------------------------------------------------------------------ the user's own lines

/// The non-blank lines among `ls`, in order.
pub open spec fn content(ls: Seq<Seq<char>>) -> Seq<Seq<char>>
    decreases ls.len(),
{
    if ls.len() == 0 {
        seq![]
    } else if is_blank(ls.last()) {
        content(ls.drop_last())
    } else {
        content(ls.drop_last()).push(ls.last())
    }
}

/// Some line of `ls` is the top-level `tasks:` key.
pub open spec fn has_tasks_key(ls: Seq<Seq<char>>) -> bool {
    exists|i: int| 0 <= i < ls.len() && is_tasks_key_spec(#[trigger] ls[i])
}

proof fn lemma_content_push(ls: Seq<Seq<char>>, l: Seq<char>)
    ensures
        content(ls.push(l)) == if is_blank(l) {
            content(ls)
        } else {
            content(ls).push(l)
        },
{
    assert(ls.push(l).drop_last() =~= ls);
}

proof fn lemma_content_concat(a: Seq<Seq<char>>, b: Seq<Seq<char>>)
    ensures
        content(a + b) == content(a) + content(b),
    decreases b.len(),
{
    if b.len() == 0 {
        assert(a + b =~= a);
        assert(content(a) + content(b) =~= content(a));
    } else {
        lemma_content_concat(a, b.drop_last());
        assert((a + b).drop_last() =~= a + b.drop_last());
        assert((a + b).last() == b.last());
        assert((content(a) + content(b.drop_last())).push(b.last()) =~= content(a) + content(
            b.drop_last(),
        ).push(b.last()));
    }
}

proof fn lemma_content_blank(ls: Seq<Seq<char>>)
    requires
        forall|i: int| 0 <= i < ls.len() ==> is_blank(#[trigger] ls[i]),
    ensures
        content(ls) == Seq::<Seq<char>>::empty(),
    decreases ls.len(),
{
    if ls.len() > 0 {
        assert(is_blank(ls[ls.len() - 1]));
        lemma_content_blank(ls.drop_last());
    }
}

proof fn lemma_content_collapse(ls: Seq<Seq<char>>)
    ensures
        content(collapse_blanks(ls)) == content(ls),
    decreases ls.len(),
{
    if ls.len() > 0 {
        lemma_content_collapse(ls.drop_last());
        lemma_content_push(collapse_blanks(ls.drop_last()), ls.last());
    }
}

proof fn lemma_content_drop_trailing(ls: Seq<Seq<char>>)
    ensures
        content(drop_trailing_blanks(ls)) == content(ls),
    decreases ls.len(),
{
    if ls.len() > 0 && is_blank(ls.last()) {
        lemma_content_drop_trailing(ls.drop_last());
    }
}

proof fn lemma_content_mend(out: Seq<Seq<char>>, seam: Option<int>)
    ensures
        content(mend_seam(out, seam)) == content(out),
{
    match seam {
        Some(i) => {
            if 0 < i < out.len() && is_blank(out[i - 1]) && is_blank(out[i]) {
                let a = out.subrange(0, i);
                let b = out.subrange(i + 1, out.len() as int);
                assert(out =~= a + seq![out[i]] + b);
                assert(out.remove(i) =~= a + b);
                lemma_content_concat(a + seq![out[i]], b);
                lemma_content_concat(a, seq![out[i]]);
                lemma_content_concat(a, b);
                lemma_content_blank(seq![out[i]]);
            }
        },
        None => {},
    }
}

/// Removing a recipe keeps the file's own lines: the non-blank lines of what
/// is left are those of the file outside the recipe's block, in order; only
/// blank lines may go. (Lines of the file that end in a stray `\r` are the
/// exception: the removal drops that `\r`.)
pub proof fn remove_keeps_other_lines(target: Target, doc: Seq<char>, name: Seq<char>)
    requires
        all_lines(lines(doc)),
    ensures
        content(lines(remove_spec(target, doc, name).0)) == content(strip_block(lines(doc), name).out),
{
    let st = strip_block(lines(doc), name);
    let w = remove_spec(target, doc, name).0;
    match target {
        Target::Just => {
            let x = lemma_remove_just_lines(doc, name);
            lemma_text_lines_eq(x, w);
            lemma_content_drop_trailing(collapse_blanks(st.out));
            lemma_content_collapse(st.out);
        },
        Target::Task => {
            let x = lemma_remove_task_lines(doc, name);
            lemma_text_lines_eq(x, w);
            lemma_content_drop_trailing(mend_seam(st.out, st.seam));
            lemma_content_mend(st.out, st.seam);
        },
    }
}


proof fn lemma_all_lines_no_nl(x: Seq<Seq<char>>)
    requires
        all_lines(x),
    ensures
        no_nl_lines(x),
{
    assert forall|i: int| 0 <= i < x.len() implies !(#[trigger] x[i]).contains('\n') by {
        assert(is_line(x[i]));
    }
}

/// `x` then one blank line: proper lines again.
proof fn lemma_push_blank_lines(x: Seq<Seq<char>>)
    requires
        all_lines(x),
    ensures
        all_lines(x.push(seq![])),
        content(x.push(seq![])) == content(x),
{
    let y = x.push(seq![]);
    assert forall|i: int| 0 <= i < y.len() implies is_line(#[trigger] y[i]) by {
        if i < x.len() {
            assert(y[i] == x[i]);
        } else {
            assert(y[i] =~= Seq::<char>::empty());
        }
    }
    assert(is_blank(Seq::<char>::empty()));
    lemma_content_push(x, seq![]);
}

/// Installing into a justfile keeps the file's own lines: the non-blank
/// lines of the result are those of the file outside the recipe's old block,
/// in order, followed by those of the new block. (Lines of the file that end
/// in a stray `\r` are the exception: the removal pass drops that `\r`.)
pub proof fn justfile_install_keeps_other_lines(doc: Seq<char>, name: Seq<char>, rendered: Seq<char>)
    requires
        all_lines(lines(doc)),
    ensures
        content(lines(merge_spec(Target::Just, doc, name, rendered))) == content(
            strip_block(lines(doc), name).out,
        ) + content(lines(rendered)),
{
    let st = strip_block(lines(doc), name);
    let w = remove_spec(Target::Just, doc, name).0;
    let x = lemma_remove_just_lines(doc, name);
    lemma_content_drop_trailing(collapse_blanks(st.out));
    lemma_content_collapse(st.out);
    lemma_all_lines_no_nl(x);
    lemma_append_shape(x, w, rendered);
    if x.len() == 0 {
        assert(content(st.out) + content(lines(rendered)) =~= content(lines(rendered)));
    } else {
        let y = x.push(seq![]);
        lemma_push_blank_lines(x);
        lemma_all_lines_no_nl(y);
        crate::text::lemma_lines_terminated_append(y, rendered);
        lemma_strip_crs_lines(y);
        lemma_content_concat(y, lines(rendered));
    }
}

proof fn lemma_has_tasks_key_content(ls: Seq<Seq<char>>)
    ensures
        has_tasks_key(content(ls)) == has_tasks_key(ls),
    decreases ls.len(),
{
    if ls.len() > 0 {
        let init = ls.drop_last();
        let l = ls.last();
        lemma_has_tasks_key_content(init);
        lemma_content_push(init, l);
        assert(init.push(l) =~= ls);
        if has_tasks_key(ls) {
            let i = choose|i: int| 0 <= i < ls.len() && is_tasks_key_spec(#[trigger] ls[i]);
            if i < init.len() {
                assert(init[i] == ls[i]);
                assert(has_tasks_key(init));
                let j = choose|j: int| 0 <= j < content(init).len() && is_tasks_key_spec(
                    #[trigger] content(init)[j],
                );
                if !is_blank(l) {
                    assert(content(ls)[j] == content(init)[j]);
                }
            } else {
                if is_blank(l) {
                    lemma_blank_not_key(l);
                }
                assert(content(ls)[content(ls).len() - 1] == l);
            }
        } else {
            if has_tasks_key(content(ls)) {
                let j = choose|j: int| 0 <= j < content(ls).len() && is_tasks_key_spec(
                    #[trigger] content(ls)[j],
                );
                if !is_blank(l) && j == content(ls).len() - 1 {
                    assert(ls[ls.len() - 1] == l);
                } else {
                    assert(content(ls)[j] == content(init)[j]);
                    assert(has_tasks_key(content(init)));
                    let i = choose|i: int| 0 <= i < init.len() && is_tasks_key_spec(#[trigger] init[i]);
                    assert(ls[i] == init[i]);
                }
            }
        }
    }
}

/// Installing into a Taskfile keeps the file's own lines: the non-blank
/// lines of the result are those of the file outside the recipe's old block,
/// in order, with the new block's lines placed among them in one piece (after
/// a new `tasks:` line when the file had none). (Lines that end in a stray
/// `\r` are the exception: the rewrite drops that `\r`.)
pub proof fn taskfile_install_keeps_other_lines(doc: Seq<char>, name: Seq<char>, rendered: Seq<char>)
    requires
        all_lines(lines(doc)),
        all_lines(lines(rendered)),
    ensures
        ({
            let kept = content(strip_block(lines(doc), name).out);
            let made = content(lines(merge_spec(Target::Task, doc, name, rendered)));
            exists|k: int|
                0 <= k <= kept.len() && made == kept.subrange(0, k) + (if has_tasks_key(kept) {
                    seq![]
                } else {
                    seq![k_tasks_key()]
                }) + content(lines(rendered)) + kept.subrange(k, kept.len() as int)
        }),
{
    let st = strip_block(lines(doc), name);
    let kept = content(st.out);
    let w = remove_spec(Target::Task, doc, name).0;
    let merged = merge_spec(Target::Task, doc, name, rendered);
    let x = lemma_remove_task_lines(doc, name);
    lemma_text_lines_eq(x, w);
    lemma_content_drop_trailing(mend_seam(st.out, st.seam));
    lemma_content_mend(st.out, st.seam);
    assert(content(x) == kept);
    lemma_has_tasks_key_content(x);
    lemma_all_lines_no_nl(x);
    lemma_find_tasks_key_props(x);
    let extra: Seq<Seq<char>> = if has_tasks_key(kept) {
        seq![]
    } else {
        seq![k_tasks_key()]
    };
    assert(merged == insert_into_tasks_spec(w, rendered));
    if find_tasks_key(x) >= x.len() {
        assert(!has_tasks_key(x));
        let tk = seq![k_tasks_key()];
        let y: Seq<Seq<char>> = if x.len() == 0 {
            seq![]
        } else {
            x.push(seq![])
        };
        if x.len() > 0 {
            lemma_last_not_nl(x);
            let init = x.drop_last();
            assert(init.push(x.last()) =~= x);
            lemma_join_terminated(init, x.last());
            lemma_join_nl(x);
            crate::text::lemma_terminated_push(x, seq![]);
            assert(terminated(x.push(seq![])) =~= terminated(x) + seq!['\n']);
            let t = terminated(x);
            assert(t == terminated(init) + x.last() + seq!['\n']);
            crate::text::lemma_ends_with_char(t, '\n');
            assert(!ends_with(t, seq!['\n', '\n'])) by {
                if ends_with(t, seq!['\n', '\n']) {
                    assert(t.subrange(t.len() - 2, t.len() as int)[0] == t[t.len() - 2]);
                }
            }
            let j = join(x, seq!['\n']);
            assert(j.last() == x.last().last());
            crate::text::lemma_ends_with_char(j, '\n');
            lemma_push_blank_lines(x);
        } else {
            assert(terminated(y) =~= Seq::<char>::empty());
        }
        lemma_terminated_one(k_tasks_key());
        lemma_terminated_concat(y, tk);
        assert(merged =~= terminated(y + tk) + rendered);
        lemma_tasks_key_line();
        assert(all_lines(y + tk)) by {
            assert forall|i: int| 0 <= i < (y + tk).len() implies is_line(#[trigger] (y + tk)[i]) by {
                if i < y.len() {
                    assert((y + tk)[i] == y[i]);
                    if i < x.len() {
                        assert(y[i] == x[i]);
                    } else {
                        assert(y[i] =~= Seq::<char>::empty());
                    }
                } else {
                    assert((y + tk)[i] == k_tasks_key());
                    lemma_one_line_is_line(k_tasks_key());
                }
            }
        }
        lemma_all_lines_no_nl(y + tk);
        crate::text::lemma_lines_terminated_append(y + tk, rendered);
        lemma_strip_crs_lines(y + tk);
        lemma_content_concat(y + tk, lines(rendered));
        lemma_content_concat(y, tk);
        lemma_content_push(Seq::<Seq<char>>::empty(), k_tasks_key());
        assert(tk =~= Seq::<Seq<char>>::empty().push(k_tasks_key()));
        assert(content(y) == content(x));
        assert(kept.subrange(0, kept.len() as int) =~= kept);
        assert(kept.subrange(kept.len() as int, kept.len() as int) =~= Seq::<Seq<char>>::empty());
        assert(content(lines(merged)) =~= kept.subrange(0, kept.len() as int) + extra + content(
            lines(rendered),
        ) + kept.subrange(kept.len() as int, kept.len() as int));
    } else {
        assert(has_tasks_key(x));
        let ls = x;
        let ti = find_tasks_key(ls);
        lemma_find_top_level_range(ls.subrange(ti + 1, ls.len() as int));
        let end = ti + 1 + find_top_level(ls.subrange(ti + 1, ls.len() as int));
        let hs = ls.subrange(0, end);
        let head = drop_trailing_blanks(hs);
        let tail = ls.subrange(end, ls.len() as int);
        let sep: Seq<Seq<char>> = if head.len() <= ti + 1 {
            seq![]
        } else {
            seq![seq![]]
        };
        let after: Seq<Seq<char>> = if tail.len() > 0 {
            seq![seq![]] + tail
        } else {
            seq![]
        };
        let rl = lines(rendered);
        let z = head + sep + rl + after;
        assert(merged == join(z, seq!['\n']) + seq!['\n']);
        lemma_drop_trailing_prefix(hs);
        assert(hs[ti] == ls[ti]);
        if is_blank(hs[ti]) {
            lemma_blank_not_key(hs[ti]);
        }
        assert(head.len() > ti) by {
            if head.len() <= ti {
                lemma_drop_trailing_blanks_rest(hs, head.len() as int, ti);
            }
        }
        assert(z.len() > 0);
        lemma_join_nl(z);
        assert(all_lines(z)) by {
            assert forall|i: int| 0 <= i < z.len() implies is_line(#[trigger] z[i]) by {
                if i < head.len() {
                    assert(z[i] == head[i]);
                    assert(head[i] == hs[i]);
                    assert(hs[i] == ls[i]);
                } else if i < head.len() + sep.len() {
                    assert(z[i] =~= Seq::<char>::empty());
                } else if i < head.len() + sep.len() + rl.len() {
                    assert(z[i] == rl[i - head.len() - sep.len()]);
                } else {
                    let k = i - head.len() - sep.len() - rl.len();
                    assert(z[i] == after[k]);
                    if k > 0 {
                        assert(after[k] == tail[k - 1]);
                        assert(tail[k - 1] == ls[end + k - 1]);
                    } else {
                        assert(after[k] =~= Seq::<char>::empty());
                    }
                }
            }
        }
        lemma_all_lines_no_nl(z);
        crate::text::lemma_lines_terminated_cr(z);
        lemma_strip_crs_lines(z);
        assert(is_blank(Seq::<char>::empty()));
        lemma_content_concat(head + sep + rl, after);
        lemma_content_concat(head + sep, rl);
        lemma_content_concat(head, sep);
        lemma_content_blank(sep);
        if tail.len() > 0 {
            lemma_content_concat(seq![seq![]], tail);
            lemma_content_blank(seq![Seq::<char>::empty()]);
        }
        assert(content(after) == content(tail));
        lemma_content_drop_trailing(hs);
        assert(ls =~= hs + tail);
        lemma_content_concat(hs, tail);
        let k = content(hs).len() as int;
        assert(kept.subrange(0, k) =~= content(hs));
        assert(kept.subrange(k, kept.len() as int) =~= content(tail));
        assert(content(head + sep) =~= content(hs) + Seq::<Seq<char>>::empty());
        assert(content(lines(merged)) =~= kept.subrange(0, k) + extra + content(rl) + kept.subrange(
            k,
            kept.len() as int,
        ));
    }
}

/// Dropping trailing blank lines keeps every line up to the last non-blank one.
proof fn lemma_drop_trailing_blanks_rest(ls: Seq<Seq<char>>, n: int, i: int)
    requires
        n == drop_trailing_blanks(ls).len(),
        n <= i < ls.len(),
    ensures
        is_blank(ls[i]),
    decreases ls.len(),
{
    if ls.len() > 0 && is_blank(ls.last()) {
        if i < ls.len() - 1 {
            lemma_drop_trailing_blanks_rest(ls.drop_last(), n, i);
            assert(ls.drop_last()[i] == ls[i]);
        }
    }
}


/// Removing a recipe right after installing it into a Taskfile keeps the
/// same non-blank lines as removing it from the starting file would; the one line
/// the pair can leave behind is the `tasks:` key that the install had to
/// create. (Lines of the starting file that end in a stray `\r` are the
/// exception.)
#[verifier::spinoff_prover]
#[verifier::rlimit(30)]
pub proof fn taskfile_remove_undoes_install(
    doc: Seq<char>,
    name: Seq<char>,
    version: Seq<char>,
    source: Option<Seq<char>>,
    pinned: Option<Seq<char>>,
    deps: Seq<Seq<char>>,
    snippet: Seq<char>,
)
    requires
        installable(name, version, source, pinned, deps, snippet),
        all_lines(lines(doc)),
    ensures
        ({
            let r = render_block_spec(Target::Task, name, version, source, pinned, deps, snippet);
            let before = content(lines(remove_spec(Target::Task, doc, name).0));
            content(lines(remove_spec(Target::Task, merge_spec(Target::Task, doc, name, r), name).0))
                == before + (if has_tasks_key(before) {
                seq![]
            } else {
                seq![k_tasks_key()]
            })
        }),
{
    let blk = render_block_spec(Target::Task, name, version, source, pinned, deps, snippet);
    let il = indented_lines(lines(render_spec(name, version, source, pinned, deps, snippet)));
    lemma_indented(name, version, source, pinned, deps, snippet);
    let w = remove_spec(Target::Task, doc, name).0;
    let x = lemma_remove_task_lines(doc, name);
    lemma_text_lines_eq(x, w);
    lemma_has_tasks_key_content(x);
    lemma_find_tasks_key_props(x);
    let once = merge_spec(Target::Task, doc, name, blk);
    assert(once == insert_into_tasks_spec(w, terminated(il)));
    let w1 = remove_spec(Target::Task, once, name).0;
    assert(is_blank(Seq::<char>::empty()));
    if find_tasks_key(x) >= x.len() {
        lemma_task_idem_new_map(x, w, il, name);
        assert(!has_tasks_key(x));
        let y: Seq<Seq<char>> = if x.len() == 0 {
            Seq::<Seq<char>>::empty()
        } else {
            x.push(seq![])
        };
        let a = y + seq![k_tasks_key()];
        lemma_tasks_key_line();
        lemma_one_line_is_line(k_tasks_key());
        assert(all_lines(a)) by {
            assert forall|i: int| 0 <= i < a.len() implies is_line(#[trigger] a[i]) by {
                if i < x.len() {
                    assert(a[i] == x[i]);
                } else if i < y.len() {
                    assert(a[i] =~= Seq::<char>::empty());
                } else {
                    assert(a[i] == k_tasks_key());
                }
            }
        }
        lemma_lines_terminated(a);
        lemma_content_concat(y, seq![k_tasks_key()]);
        lemma_content_push(Seq::<Seq<char>>::empty(), k_tasks_key());
        assert(seq![k_tasks_key()] =~= Seq::<Seq<char>>::empty().push(k_tasks_key()));
        if x.len() > 0 {
            lemma_content_push(x, seq![]);
        }
        assert(content(y) == content(x));
    } else {
        lemma_in_map_once(x, w, il, name);
        lemma_in_map_removed(x, il, name);
        let ti = find_tasks_key(x);
        lemma_find_top_level_range(x.subrange(ti + 1, x.len() as int));
        let end = map_end(x);
        let hs = x.subrange(0, end);
        let head = map_head(x);
        let tail = map_tail(x);
        let after = map_after(x);
        lemma_drop_trailing_prefix(hs);
        assert(all_lines(head + after)) by {
            assert forall|i: int| 0 <= i < (head + after).len() implies is_line(#[trigger] (head + after)[i]) by {
                if i < head.len() {
                    assert((head + after)[i] == head[i]);
                    assert(head[i] == hs[i]);
                    assert(hs[i] == x[i]);
                } else {
                    let k = i - head.len();
                    assert((head + after)[i] == after[k]);
                    if k > 0 {
                        assert(after[k] == tail[k - 1]);
                        assert(tail[k - 1] == x[end + k - 1]);
                    } else {
                        assert(after[k] =~= Seq::<char>::empty());
                    }
                }
            }
        }
        lemma_lines_terminated(head + after);
        lemma_content_concat(head, after);
        lemma_content_drop_trailing(hs);
        if tail.len() > 0 {
            lemma_content_concat(seq![seq![]], tail);
            lemma_content_blank(seq![Seq::<char>::empty()]);
        }
        assert(content(after) == content(tail));
        assert(x =~= hs + tail);
        lemma_content_concat(hs, tail);
        let i = ti;
        assert(is_tasks_key_spec(x[i]));
        assert(has_tasks_key(x));
        assert(content(x) + Seq::<Seq<char>>::empty() =~= content(x));
    }
}


/// Removing a recipe right after installing it into a tidy justfile gives the
/// file back byte for byte, and reports the removal. Tidy: empty, or ending
/// in a line ending with no blank last line and no two blank lines in a row,
/// without carriage returns, and with no line that opens a block of that
/// name.
pub proof fn justfile_remove_restores_tidy_file(
    doc: Seq<char>,
    name: Seq<char>,
    version: Seq<char>,
    source: Option<Seq<char>>,
    pinned: Option<Seq<char>>,
    deps: Seq<Seq<char>>,
    snippet: Seq<char>,
)
    requires
        installable(name, version, source, pinned, deps, snippet),
        !doc.contains('\r'),
        doc.len() == 0 || doc.last() == '\n',
        collapsed(lines(doc)),
        lines(doc).len() > 0 ==> !is_blank(lines(doc).last()),
        forall|i: int| 0 <= i < lines(doc).len() ==> no_open(#[trigger] lines(doc)[i], name),
    ensures
        remove_spec(
            Target::Just,
            merge_spec(Target::Just, doc, name, render_spec(name, version, source, pinned, deps, snippet)),
            name,
        ) == (doc, true),
{
    let ls = lines(doc);
    if doc.len() > 0 {
        crate::text::lemma_terminated_lines(doc);
    } else {
        assert(ls.len() == 0);
    }
    let x = lemma_just_remove_after_install(doc, name, version, source, pinned, deps, snippet);
    lemma_strip_untouched(ls, name);
    lemma_collapse_id(ls);
    lemma_drop_trailing_id(ls);
    assert(x == ls);
    if x.len() == 0 {
        assert(doc.len() == 0) by {
            if doc.len() > 0 {
                assert(terminated(ls) =~= Seq::<char>::empty());
            }
        }
    }
}


/// A text without carriage returns splits into proper lines.
proof fn lemma_no_cr_all_lines(doc: Seq<char>)
    requires
        !doc.contains('\r'),
    ensures
        all_lines(lines(doc)),
{
    if doc.len() > 0 {
        if doc.last() == '\n' {
            crate::text::lemma_terminated_lines(doc);
        } else {
            crate::text::lemma_join_lines(doc);
        }
    } else {
        assert(lines(doc).len() == 0);
    }
}

/// The text of proper lines, written back by a removal that finds nothing,
/// is unchanged.
proof fn lemma_finish_same(x: Seq<Seq<char>>, w: Seq<char>)
    requires
        all_lines(x),
        text_of(x, w),
    ensures
        finish_nl(join(x, seq!['\n']), w) == w,
{
    if x.len() > 0 {
        lemma_all_lines_no_nl(x);
        lemma_last_not_nl(x);
        let init = x.drop_last();
        assert(init.push(x.last()) =~= x);
        lemma_join_terminated(init, x.last());
        lemma_join_nl(x);
        let j = join(x, seq!['\n']);
        assert(j.last() == x.last().last());
        crate::text::lemma_ends_with_char(j, '\n');
        crate::text::lemma_ends_with_char(w, '\n');
        if w == terminated(x) {
            crate::text::lemma_terminated_push(init, x.last());
        }
    } else {
        assert(join(x, seq!['\n']).len() == 0);
    }
}

/// Removing twice is removing once: a second removal of the same name gives
/// the text back unchanged and reports that nothing was there.
pub proof fn remove_is_idempotent(target: Target, doc: Seq<char>, name: Seq<char>)
    requires
        !doc.contains('\r'),
    ensures
        remove_spec(target, remove_spec(target, doc, name).0, name) == (remove_spec(target, doc, name).0, false),
{
    lemma_no_cr_all_lines(doc);
    let w = remove_spec(target, doc, name).0;
    let x = match target {
        Target::Just => {
            let x = lemma_remove_just_lines(doc, name);
            lemma_collapse_id(x);
            x
        },
        Target::Task => lemma_remove_task_lines(doc, name),
    };
    lemma_text_lines_eq(x, w);
    assert forall|i: int| 0 <= i < x.len() implies no_open(#[trigger] x[i], name) by {
        assert(no_open(x[i], name) && !x[i].contains('\n'));
    }
    lemma_strip_untouched(x, name);
    lemma_drop_trailing_id(x);
    lemma_finish_same(x, w);
}


/// Blocks of different recipes never share an open marker: neither the open
/// line of `b`'s block nor the first line of `b`'s rendered block begins
/// (after indentation) with `a`'s open marker, because a recipe name has no
/// `@` to end it early.
pub proof fn open_markers_are_distinct(
    a: Seq<char>,
    b: Seq<char>,
    version: Seq<char>,
    source: Option<Seq<char>>,
    pinned: Option<Seq<char>>,
    deps: Seq<Seq<char>>,
    snippet: Seq<char>,
)
    requires
        valid_name(a),
        valid_name(b),
        a != b,
    ensures
        !starts_with(trim_start(open_line(b, version)), open_marker_spec(a)),
        !starts_with(
            trim_start(lines(render_spec(b, version, source, pinned, deps, snippet))[0]),
            open_marker_spec(a),
        ),
{
    let l = open_line(b, version);
    let r = render_spec(b, version, source, pinned, deps, snippet);
    assert(l.subrange(0, l.len() as int) =~= l);
    assert(r.subrange(0, l.len() as int) =~= l);
    lemma_marker_not_prefix(a, b, version, l);
    lemma_marker_not_prefix(a, b, version, r);
    // The first line of `r` is a prefix of `r` that starts with `#`.
    let k = find_char(r, '\n');
    lemma_find_char(r, '\n');
    let first = lines(r)[0];
    assert(r[0] == '#');
    if k < r.len() {
        let x = r.subrange(0, k);
        assert(first == strip_cr(x));
        assert(k >= 1) by {
            assert(r[0] != '\n');
        }
        assert(first[0] == '#');
        lemma_trim_start_id(first);
        if starts_with(first, open_marker_spec(a)) {
            let m = open_marker_spec(a);
            assert(r.subrange(0, m.len() as int) =~= first.subrange(0, m.len() as int));
        }
    } else {
        assert(first == r);
        lemma_trim_start_id(r);
    }
}

/// A text that begins with `b`'s open line does not begin with `a`'s open
/// marker.
proof fn lemma_marker_not_prefix(a: Seq<char>, b: Seq<char>, version: Seq<char>, t: Seq<char>)
    requires
        valid_name(a),
        valid_name(b),
        a != b,
        t.len() >= open_line(b, version).len(),
        t.subrange(0, open_line(b, version).len() as int) == open_line(b, version),
    ensures
        !starts_with(t, open_marker_spec(a)),
        t[0] == '#',
        !starts_with(trim_start(t), open_marker_spec(a)),
{
    let l = open_line(b, version);
    let m = open_marker_spec(a);
    let h = k_open_head();
    assert forall|i: int| 0 <= i < l.len() implies t[i] == l[i] by {
        assert(t.subrange(0, l.len() as int)[i] == t[i]);
    }
    assert(l[0] == '#');
    lemma_trim_start_id(t);
    if starts_with(t, m) {
        assert forall|i: int| 0 <= i < m.len() implies t[i] == m[i] by {
            assert(t.subrange(0, m.len() as int)[i] == t[i]);
        }
        if a.len() == b.len() {
            assert forall|k: int| 0 <= k < a.len() implies a[k] == b[k] by {
                assert(t[h.len() + k] == m[h.len() + k]);
            }
            assert(a =~= b);
        } else if a.len() < b.len() {
            assert(t[(h.len() + a.len()) as int] == b[a.len() as int]);
            assert(m[(h.len() + a.len()) as int] == '@');
            assert(crate::managed::is_name_char(b[a.len() as int]));
        } else {
            assert(t[(h.len() + b.len()) as int] == '@');
            assert(m[(h.len() + b.len()) as int] == a[b.len() as int]);
            assert(crate::managed::is_name_char(a[b.len() as int]));
        }
    }
}


// ------------------------------------------------------------------ parsing after removal

/// Lines whose block openings are all well formed and closed: every line
/// that starts (after indentation) with `# >>> jtr:` parses as an open line,
/// and its block's close line comes before the next such line. With `tidy`,
/// no block also holds two blank lines in a row.
pub open spec fn blocks_wf(ls: Seq<Seq<char>>, tidy: bool) -> bool
    decreases ls.len(),
{
    if ls.len() == 0 {
        true
    } else if !starts_with(trim_start(ls[0]), k_open_head()) {
        blocks_wf(ls.drop_first(), tidy)
    } else {
        match parse_open_spec(ls[0]) {
            None => false,
            Some((m, v)) => {
                let rest = ls.drop_first();
                let j = find_line(rest, close_marker_spec(m));
                if 0 <= j < rest.len() {
                    &&& forall|k: int| 0 <= k < j ==> !starts_with(trim_start(#[trigger] rest[k]), k_open_head())
                    &&& (tidy ==> collapsed(ls.subrange(0, j + 2)))
                    &&& blocks_wf(rest.subrange(j + 1, rest.len() as int), tidy)
                } else {
                    false
                }
            },
        }
    }
}

/// Every block opening in the lines is well formed and closed (see
/// [`blocks_wf`]).
pub open spec fn well_blocked(ls: Seq<Seq<char>>) -> bool {
    blocks_wf(ls, false)
}

/// The blocks not named `name`, in order.
pub open spec fn without_named(bs: Seq<BlockView>, name: Seq<char>) -> Seq<BlockView>
    decreases bs.len(),
{
    if bs.len() == 0 {
        seq![]
    } else if bs[0].name == name {
        without_named(bs.drop_first(), name)
    } else {
        seq![bs[0]] + without_named(bs.drop_first(), name)
    }
}

proof fn lemma_find_line_props(ls: Seq<Seq<char>>, target: Seq<char>)
    ensures
        0 <= find_line(ls, target) <= ls.len(),
        forall|k: int| 0 <= k < find_line(ls, target) ==> trim(#[trigger] ls[k]) != target,
        find_line(ls, target) < ls.len() ==> trim(ls[find_line(ls, target)]) == target,
    decreases ls.len(),
{
    if ls.len() > 0 && trim(ls[0]) != target {
        lemma_find_line_props(ls.drop_first(), target);
        assert forall|k: int| 0 <= k < find_line(ls, target) implies trim(#[trigger] ls[k]) != target by {
            if k > 0 {
                assert(ls[k] == ls.drop_first()[k - 1]);
            }
        }
    }
}

/// Removal's scan over two runs of lines, the first of which ends outside
/// the block: the kept lines of each, one after the other.
proof fn lemma_strip_split(a: Seq<Seq<char>>, b: Seq<Seq<char>>, name: Seq<char>)
    requires
        !strip_block(a, name).in_block,
    ensures
        strip_block(a + b, name).out == strip_block(a, name).out + strip_block(b, name).out,
        strip_block(a + b, name).in_block == strip_block(b, name).in_block,
        strip_block(a + b, name).seam == (match strip_block(b, name).seam {
            Some(s) => Some(strip_block(a, name).out.len() + s),
            None => strip_block(a, name).seam,
        }),
    decreases b.len(),
{
    if b.len() == 0 {
        assert(a + b =~= a);
        assert(strip_block(a, name).out + Seq::<Seq<char>>::empty() =~= strip_block(a, name).out);
    } else {
        let b1 = b.drop_last();
        lemma_strip_split(a, b1, name);
        assert((a + b).drop_last() =~= a + b1);
        assert((a + b).last() == b.last());
        let sa = strip_block(a, name);
        let s1 = strip_block(a + b1, name);
        let t1 = strip_block(b1, name);
        assert(strip_block(a + b, name) == strip_step(s1, b.last(), open_marker_spec(name), close_marker_spec(name)));
        assert(strip_block(b, name) == strip_step(t1, b.last(), open_marker_spec(name), close_marker_spec(name)));
        assert(sa.out + t1.out.push(b.last()) =~= (sa.out + t1.out).push(b.last()));
    }
}

/// A line not starting with `# >>> jtr:` opens no block.
proof fn lemma_not_open_head(l: Seq<char>, name: Seq<char>)
    requires
        !starts_with(trim_start(l), k_open_head()),
    ensures
        no_open(l, name),
        parse_open_spec(l) is None,
{
    let t = trim_start(l);
    let om = open_marker_spec(name);
    if starts_with(t, om) {
        assert(t.subrange(0, k_open_head().len() as int) =~= om.subrange(0, k_open_head().len() as int));
        assert(om.subrange(0, k_open_head().len() as int) =~= k_open_head());
    }
}

/// The first line of a parsed block starts with the open marker of its own
/// name and of no other valid name.
proof fn lemma_open_line_marker(l: Seq<char>, name: Seq<char>)
    requires
        parse_open_spec(l) is Some,
        valid_name(name),
    ensures
        !no_open(l, name) <==> (parse_open_spec(l)->0).0 == name,
        trim(l) != close_marker_spec(name),
{
    let t = trim_start(l);
    let m = (parse_open_spec(l)->0).0;
    lemma_parse_open_marker(l);
    let h: int = k_open_head().len() as int;
    let tl: int = k_open_tail().len() as int;
    let inner = t.subrange(h, t.len() - tl);
    let nl: int = name.len() as int;
    let ml: int = m.len() as int;
    let k = find_char(inner, '@');
    lemma_find_char(inner, '@');
    assert(m == inner.subrange(0, k));
    let om = open_marker_spec(name);
    let mm = open_marker_spec(m);
    assert(starts_with(t, mm));
    if starts_with(t, om) && m != name {
        // Both markers are prefixes of `t`: the shorter name would meet the
        // other's `@`.
        if name.len() < m.len() {
            lemma_prefix_index(t, om, h + nl);
            lemma_prefix_index(t, mm, h + nl);
            assert(mm[h + nl] == m[nl]);
            assert(inner[nl] == m[nl]);
            assert(om[h + nl] == '@');
        } else if name.len() > m.len() {
            lemma_prefix_index(t, om, h + ml);
            lemma_prefix_index(t, mm, h + ml);
            assert(om[h + ml] == name[ml]);
            assert(is_name_char(name[ml]));
            assert(mm[h + ml] == '@');
        } else {
            assert forall|i: int| 0 <= i < name.len() implies name[i] == m[i] by {
                lemma_prefix_index(t, om, h + i);
                lemma_prefix_index(t, mm, h + i);
                assert(om[h + i] == name[i]);
                assert(mm[h + i] == m[i]);
            }
            assert(name =~= m);
        }
    }
    // The open line is no close line: `# >` against `# <`.
    lemma_prefix_index(t, k_open_head(), 0);
    lemma_prefix_index(t, k_open_head(), 2);
    lemma_trim_start_id(t);
    lemma_not_close(t, name);
    assert(trim_start(t) == t);
}

/// A line that trims to a close marker opens no block.
proof fn lemma_close_line_no_open(l: Seq<char>, m: Seq<char>, name: Seq<char>)
    requires
        trim(l) == close_marker_spec(m),
    ensures
        no_open(l, name),
        !starts_with(trim_start(l), k_open_head()),
{
    let t = trim_start(l);
    let c = close_marker_spec(m);
    assert(c =~= k_close_head() + (m + k_close_tail()));
    lemma_trim_end_prefix(t);
    assert(trim_end(t) == c);
    assert(t[2] == c[2]) by {
        assert(t.subrange(0, c.len() as int)[2] == t[2]);
    }
    assert(open_marker_spec(name) =~= k_open_head() + (name + seq!['@']));
    if starts_with(t, open_marker_spec(name)) {
        lemma_prefix_index(t, open_marker_spec(name), 2);
    }
    if starts_with(t, k_open_head()) {
        lemma_prefix_index(t, k_open_head(), 2);
    }
}

/// `trim_end` keeps a prefix.
proof fn lemma_trim_end_prefix(s: Seq<char>)
    ensures
        trim_end(s).len() <= s.len(),
        trim_end(s) == s.subrange(0, trim_end(s).len() as int),
    decreases s.len(),
{
    if s.len() > 0 && is_ws(s.last()) {
        lemma_trim_end_prefix(s.drop_last());
        assert(s.drop_last().subrange(0, trim_end(s).len() as int) =~= s.subrange(0, trim_end(s).len() as int));
    } else {
        assert(s.subrange(0, s.len() as int) =~= s);
    }
}

/// A kept block: its lines, then anything, parse to the block and then to
/// what the rest parses to.
proof fn lemma_parse_block_then(ls: Seq<Seq<char>>, x: Seq<Seq<char>>)
    requires
        ls.len() > 0,
        parse_open_spec(ls[0]) is Some,
        find_line(ls.drop_first(), close_marker_spec((parse_open_spec(ls[0])->0).0)) < ls.len() - 1,
    ensures
        ({
            let (m, v) = parse_open_spec(ls[0])->0;
            let j = find_line(ls.drop_first(), close_marker_spec(m));
            let b = ls.subrange(0, j + 2);
            &&& parse_blocks(b + x) == seq![make_block(m, v, ls.drop_first().subrange(0, j))] + parse_blocks(x)
            &&& find_line((b + x).drop_first(), close_marker_spec(m)) == j
        }),
{
    let (m, v) = parse_open_spec(ls[0])->0;
    let rest = ls.drop_first();
    let c = close_marker_spec(m);
    lemma_find_line_props(rest, c);
    let j = find_line(rest, c);
    let b = ls.subrange(0, j + 2);
    let bx = b + x;
    assert(bx[0] == ls[0]);
    let r2 = bx.drop_first();
    assert forall|k: int| 0 <= k < j implies trim(#[trigger] r2[k]) != c by {
        assert(r2[k] == rest[k]);
    }
    assert(r2[j] == rest[j]);
    lemma_find_line_at(r2, c, j);
    assert(r2.subrange(0, j) =~= rest.subrange(0, j));
    assert(r2.subrange(j + 1, r2.len() as int) =~= x);
}

/// Removal's scan over well-formed lines keeps every line outside the named
/// blocks, and parsing what it keeps gives the other blocks; it ends outside
/// a block, and where it last removed one the kept lines are well formed up
/// to that point.
#[verifier::spinoff_prover]
#[verifier::rlimit(60)]
proof fn lemma_strip_parse(ls: Seq<Seq<char>>, name: Seq<char>, tidy: bool)
    requires
        blocks_wf(ls, tidy),
        valid_name(name),
    ensures
        ({
            let st = strip_block(ls, name);
            &&& !st.in_block
            &&& parse_blocks(st.out) == without_named(parse_blocks(ls), name)
            &&& blocks_wf(st.out, tidy)
            &&& (st.seam matches Some(s) ==> 0 <= s <= st.out.len() && blocks_wf(st.out.subrange(0, s), tidy))
        }),
    decreases ls.len(),
{
    if ls.len() == 0 {
        assert(strip_block(ls, name).out =~= Seq::<Seq<char>>::empty());
        assert(parse_blocks(ls) =~= Seq::<BlockView>::empty());
    } else if !starts_with(trim_start(ls[0]), k_open_head()) {
        let l = ls[0];
        let r = ls.drop_first();
        lemma_not_open_head(l, name);
        assert(ls =~= seq![l] + r);
        lemma_strip_untouched(seq![l], name);
        lemma_strip_split(seq![l], r, name);
        lemma_strip_parse(r, name, tidy);
        let st = strip_block(ls, name);
        let sr = strip_block(r, name);
        assert(st.out == seq![l] + sr.out);
        assert((seq![l] + sr.out)[0] == l);
        assert((seq![l] + sr.out).drop_first() =~= sr.out);
        match sr.seam {
            Some(s) => {
                assert(st.out.subrange(0, 1 + s) =~= seq![l] + sr.out.subrange(0, s));
                assert((seq![l] + sr.out.subrange(0, s))[0] == l);
                assert((seq![l] + sr.out.subrange(0, s)).drop_first() =~= sr.out.subrange(0, s));
            },
            None => {},
        }
    } else {
        let (m, v) = parse_open_spec(ls[0])->0;
        let rest = ls.drop_first();
        let c = close_marker_spec(m);
        lemma_find_line_props(rest, c);
        let j = find_line(rest, c);
        let b = ls.subrange(0, j + 2);
        let r = rest.subrange(j + 1, rest.len() as int);
        assert(ls =~= b + r);
        lemma_strip_parse(r, name, tidy);
        lemma_open_line_marker(ls[0], name);
        let blk = make_block(m, v, rest.subrange(0, j));
        assert(parse_blocks(ls) == seq![blk] + parse_blocks(r));
        assert(without_named(seq![blk] + parse_blocks(r), name) == if m == name {
            without_named(parse_blocks(r), name)
        } else {
            seq![blk] + without_named(parse_blocks(r), name)
        }) by {
            assert((seq![blk] + parse_blocks(r)).drop_first() =~= parse_blocks(r));
        }
        let sr = strip_block(r, name);
        if m == name {
            assert forall|k: int| 0 <= k < b.len() - 1 implies trim(#[trigger] b[k]) != close_marker_spec(name) by {
                if k > 0 {
                    assert(b[k] == rest[k - 1]);
                }
            }
            assert(b.last() == rest[j]);
            lemma_strip_block_after(Seq::<Seq<char>>::empty(), b, name, b.len() as int);
            assert(Seq::<Seq<char>>::empty() + b.subrange(0, b.len() as int) =~= b);
            lemma_strip_split(b, r, name);
            let st = strip_block(ls, name);
            assert(st.out =~= sr.out);
            match sr.seam {
                Some(s) => {},
                None => {
                    assert(st.out.subrange(0, 0) =~= Seq::<Seq<char>>::empty());
                },
            }
        } else {
            assert forall|i: int| 0 <= i < b.len() implies no_open(#[trigger] b[i], name) by {
                if i == 0 {
                } else if i < j + 1 {
                    assert(b[i] == rest[i - 1]);
                    lemma_not_open_head(rest[i - 1], name);
                } else {
                    assert(b[i] == rest[j]);
                    lemma_close_line_no_open(rest[j], m, name);
                }
            }
            lemma_strip_untouched(b, name);
            lemma_strip_split(b, r, name);
            let st = strip_block(ls, name);
            assert(st.out == b + sr.out);
            lemma_parse_block_then(ls, sr.out);
            // The kept block is well formed in front of what follows it.
            assert forall|x: Seq<Seq<char>>| blocks_wf(x, tidy) implies blocks_wf(#[trigger] (b + x), tidy) by {
                lemma_parse_block_then(ls, x);
                let bx = b + x;
                assert(bx[0] == ls[0]);
                assert forall|k: int| 0 <= k < j implies !starts_with(trim_start(#[trigger] bx.drop_first()[k]), k_open_head()) by {
                    assert(bx.drop_first()[k] == rest[k]);
                }
                assert(bx.subrange(0, j + 2) =~= b);
                assert(ls.subrange(0, j + 2) =~= b);
                assert(bx.drop_first().subrange(j + 1, bx.drop_first().len() as int) =~= x);
            }
            assert(blocks_wf(b + sr.out, tidy));
            match sr.seam {
                Some(s) => {
                    assert(st.out.subrange(0, b.len() + s) =~= b + sr.out.subrange(0, s));
                    assert(blocks_wf(b + sr.out.subrange(0, s), tidy));
                },
                None => {},
            }
        }
    }
}


/// Lines with a well-formed head parse as the head and then the rest, and
/// are well formed just when the rest is.
proof fn lemma_wb_concat(a: Seq<Seq<char>>, x: Seq<Seq<char>>, tidy: bool)
    requires
        blocks_wf(a, tidy),
    ensures
        parse_blocks(a + x) == parse_blocks(a) + parse_blocks(x),
        blocks_wf(a + x, tidy) == blocks_wf(x, tidy),
    decreases a.len(),
{
    if a.len() == 0 {
        assert(a + x =~= x);
        assert(parse_blocks(a) + parse_blocks(x) =~= parse_blocks(x));
    } else if !starts_with(trim_start(a[0]), k_open_head()) {
        lemma_not_open_head(a[0], Seq::<char>::empty());
        lemma_wb_concat(a.drop_first(), x, tidy);
        assert((a + x)[0] == a[0]);
        assert((a + x).drop_first() =~= a.drop_first() + x);
    } else {
        let (m, v) = parse_open_spec(a[0])->0;
        let rest = a.drop_first();
        let c = close_marker_spec(m);
        lemma_find_line_props(rest, c);
        let j = find_line(rest, c);
        let b = a.subrange(0, j + 2);
        let r = rest.subrange(j + 1, rest.len() as int);
        assert(a =~= b + r);
        lemma_wb_concat(r, x, tidy);
        lemma_parse_block_then(a, r + x);
        lemma_parse_block_then(a, r);
        assert(b + (r + x) =~= a + x);
        assert(parse_blocks(a) == parse_blocks(b + r));
        let ax = a + x;
        assert(ax[0] == a[0]);
        assert forall|k: int| 0 <= k < j implies !starts_with(trim_start(#[trigger] ax.drop_first()[k]), k_open_head()) by {
            assert(ax.drop_first()[k] == rest[k]);
        }
        assert(ax.subrange(0, j + 2) =~= b);
        assert(ax.drop_first().subrange(j + 1, ax.drop_first().len() as int) =~= r + x);
    }
}

/// Blank lines in front change neither the parse nor well-formedness.
proof fn lemma_blanks_then(t: Seq<Seq<char>>, x: Seq<Seq<char>>, tidy: bool)
    requires
        forall|i: int| 0 <= i < t.len() ==> is_blank(#[trigger] t[i]),
    ensures
        parse_blocks(t + x) == parse_blocks(x),
        blocks_wf(t + x, tidy) == blocks_wf(x, tidy),
    decreases t.len(),
{
    if t.len() == 0 {
        assert(t + x =~= x);
    } else {
        assert(is_blank(t[0]));
        lemma_blank_trim_start(t[0]);
        assert(!starts_with(trim_start(t[0]), k_open_head()));
        lemma_not_open_head(t[0], Seq::<char>::empty());
        assert forall|i: int| 0 <= i < t.drop_first().len() implies is_blank(#[trigger] t.drop_first()[i]) by {
            assert(t.drop_first()[i] == t[i + 1]);
        }
        lemma_blanks_then(t.drop_first(), x, tidy);
        assert((t + x)[0] == t[0]);
        assert((t + x).drop_first() =~= t.drop_first() + x);
    }
}

/// Dropping trailing blank lines behind the last non-blank one keeps the
/// parse and well-formedness.
proof fn lemma_wb_trailing(d: Seq<Seq<char>>, t: Seq<Seq<char>>, tidy: bool)
    requires
        blocks_wf(d + t, tidy),
        forall|i: int| 0 <= i < t.len() ==> is_blank(#[trigger] t[i]),
        d.len() > 0 ==> !is_blank(d.last()),
    ensures
        blocks_wf(d, tidy),
        parse_blocks(d + t) == parse_blocks(d),
    decreases d.len(),
{
    if d.len() == 0 {
        assert(d + t =~= t);
        lemma_blanks_then(t, Seq::<Seq<char>>::empty(), tidy);
        assert(t + Seq::<Seq<char>>::empty() =~= t);
        assert(parse_blocks(Seq::<Seq<char>>::empty()) =~= Seq::<BlockView>::empty());
    } else if !starts_with(trim_start(d[0]), k_open_head()) {
        lemma_not_open_head(d[0], Seq::<char>::empty());
        assert((d + t)[0] == d[0]);
        assert((d + t).drop_first() =~= d.drop_first() + t);
        if d.len() > 1 {
            assert(d.drop_first().last() == d.last());
        }
        lemma_wb_trailing(d.drop_first(), t, tidy);
    } else {
        let dt = d + t;
        assert(dt[0] == d[0]);
        let (m, v) = parse_open_spec(d[0])->0;
        let c = close_marker_spec(m);
        let rest = dt.drop_first();
        lemma_find_line_props(rest, c);
        let j = find_line(rest, c);
        assert(c =~= k_close_head() + (m + k_close_tail()));
        assert(j < d.len() - 1) by {
            if j >= d.len() - 1 {
                assert(rest[j] == t[j - (d.len() - 1)]);
                lemma_blank_trim_start(rest[j]);
                lemma_trim_len(trim_start(rest[j]));
                assert(trim(rest[j]).len() == 0);
            }
        }
        let d1 = d.drop_first();
        assert forall|k: int| 0 <= k < j implies trim(#[trigger] d1[k]) != c by {
            assert(d1[k] == rest[k]);
        }
        assert(d1[j] == rest[j]);
        lemma_find_line_at(d1, c, j);
        let r = d.subrange(j + 2, d.len() as int);
        assert(rest.subrange(j + 1, rest.len() as int) =~= r + t);
        if r.len() > 0 {
            assert(r.last() == d.last());
        }
        lemma_wb_trailing(r, t, tidy);
        let b = d.subrange(0, j + 2);
        assert(d =~= b + r);
        lemma_parse_block_then(d, r);
        lemma_parse_block_then(d, r + t);
        assert(b + (r + t) =~= dt);
        assert(dt.subrange(0, j + 2) =~= d.subrange(0, j + 2));
        assert forall|k: int| 0 <= k < j implies !starts_with(trim_start(#[trigger] d1[k]), k_open_head()) by {
            assert(d1[k] == rest[k]);
        }
        assert(d1.subrange(j + 1, d1.len() as int) =~= r);
    }
}

proof fn lemma_drop_trailing_last(ls: Seq<Seq<char>>)
    ensures
        drop_trailing_blanks(ls).len() > 0 ==> !is_blank(drop_trailing_blanks(ls).last()),
    decreases ls.len(),
{
    if ls.len() > 0 && is_blank(ls.last()) {
        lemma_drop_trailing_last(ls.drop_last());
    }
}

/// Dropping the trailing blank lines of well-formed lines keeps their parse.
proof fn lemma_drop_trailing_parse(k: Seq<Seq<char>>, tidy: bool)
    requires
        blocks_wf(k, tidy),
    ensures
        blocks_wf(drop_trailing_blanks(k), tidy),
        parse_blocks(drop_trailing_blanks(k)) == parse_blocks(k),
{
    let d = drop_trailing_blanks(k);
    lemma_drop_trailing_prefix(k);
    lemma_drop_trailing_last(k);
    let t = k.subrange(d.len() as int, k.len() as int);
    assert(k =~= d + t);
    assert forall|i: int| 0 <= i < t.len() implies is_blank(#[trigger] t[i]) by {
        lemma_drop_trailing_blanks_rest(k, d.len() as int, d.len() + i);
    }
    lemma_wb_trailing(d, t, tidy);
}

/// Mending the seam of a removal (dropping one of two blank lines where the
/// block stood) keeps the parse of well-formed lines.
proof fn lemma_mend_parse(k: Seq<Seq<char>>, seam: Option<int>)
    requires
        blocks_wf(k, false),
        seam matches Some(s) ==> 0 <= s <= k.len() && blocks_wf(k.subrange(0, s), false),
    ensures
        blocks_wf(mend_seam(k, seam), false),
        parse_blocks(mend_seam(k, seam)) == parse_blocks(k),
{
    match seam {
        Some(s) => {
            if 0 < s < k.len() && is_blank(k[s - 1]) && is_blank(k[s]) {
                let a = k.subrange(0, s);
                let c = k.subrange(s, k.len() as int);
                assert(k =~= a + c);
                lemma_wb_concat(a, c, false);
                assert(c =~= seq![c[0]] + c.drop_first());
                assert(is_blank(c[0]));
                lemma_blanks_then(seq![c[0]], c.drop_first(), false);
                lemma_wb_concat(a, c.drop_first(), false);
                assert(k.remove(s) =~= a + c.drop_first());
            }
        },
        None => {},
    }
}

/// Removing a recipe from a Taskfile leaves the other blocks as they parsed
/// before, in order: parsing the result gives the old parse without the
/// blocks of that name. Well-formed: every line that starts (after
/// indentation) with `# >>> jtr:` is an open line whose block closes before
/// the next such line, and no line ends in a stray `\r`.
pub proof fn taskfile_removal_keeps_other_blocks(doc: Seq<char>, name: Seq<char>)
    requires
        valid_name(name),
        all_lines(lines(doc)),
        well_blocked(lines(doc)),
    ensures
        parse_all_spec(remove_spec(Target::Task, doc, name).0) == without_named(parse_all_spec(doc), name),
{
    let w = remove_spec(Target::Task, doc, name).0;
    let x = lemma_remove_task_lines(doc, name);
    lemma_text_lines_eq(x, w);
    let st = strip_block(lines(doc), name);
    lemma_strip_parse(lines(doc), name, false);
    lemma_mend_parse(st.out, st.seam);
    lemma_drop_trailing_parse(mend_seam(st.out, st.seam), false);
}


proof fn lemma_collapse_last(ls: Seq<Seq<char>>)
    ensures
        ls.len() > 0 ==> collapse_blanks(ls).len() > 0,
        ls.len() > 0 && !is_blank(ls.last()) ==> collapse_blanks(ls).last() == ls.last(),
        (forall|i: int| 0 <= i < ls.len() ==> is_blank(#[trigger] ls[i])) ==> forall|i: int|
            0 <= i < collapse_blanks(ls).len() ==> is_blank(#[trigger] collapse_blanks(ls)[i]),
    decreases ls.len(),
{
    if ls.len() > 0 {
        lemma_collapse_last(ls.drop_last());
        if forall|i: int| 0 <= i < ls.len() ==> is_blank(#[trigger] ls[i]) {
            assert forall|i: int| 0 <= i < ls.drop_last().len() implies is_blank(#[trigger] ls.drop_last()[i]) by {
                assert(ls.drop_last()[i] == ls[i]);
            }
            assert(is_blank(ls[ls.len() - 1]));
        }
    }
}

/// Collapsing blank runs in two parts that meet at a non-blank line (or
/// where either is empty) collapses each part on its own.
proof fn lemma_collapse_split(a: Seq<Seq<char>>, b: Seq<Seq<char>>)
    requires
        a.len() == 0 || b.len() == 0 || !is_blank(b[0]) || !is_blank(a.last()),
    ensures
        collapse_blanks(a + b) == collapse_blanks(a) + collapse_blanks(b),
    decreases b.len(),
{
    lemma_collapse_last(a);
    if b.len() == 0 {
        assert(a + b =~= a);
        assert(collapse_blanks(a) + collapse_blanks(b) =~= collapse_blanks(a));
    } else if b.len() == 1 {
        assert((a + b).drop_last() =~= a);
        assert((a + b).last() == b[0]);
        assert(b.drop_last() =~= Seq::<Seq<char>>::empty());
        assert(collapse_blanks(b.drop_last()) =~= Seq::<Seq<char>>::empty());
        assert(collapse_blanks(b) =~= seq![b[0]]);
        if a.len() == 0 {
            assert(a + b =~= b);
            assert(collapse_blanks(a) + collapse_blanks(b) =~= collapse_blanks(b));
        }
    } else {
        let b1 = b.drop_last();
        lemma_collapse_split(a, b1);
        lemma_collapse_last(b1);
        assert((a + b).drop_last() =~= a + b1);
        assert((a + b).last() == b.last());
        let ca = collapse_blanks(a);
        let cb = collapse_blanks(b1);
        assert((ca + cb).last() == cb.last());
        assert((ca + cb).push(b.last()) =~= ca + cb.push(b.last()));
    }
}

/// Index of the first non-blank line, or `ls.len()`.
pub open spec fn lead_blanks(ls: Seq<Seq<char>>) -> int
    decreases ls.len(),
{
    if ls.len() > 0 && is_blank(ls[0]) {
        1 + lead_blanks(ls.drop_first())
    } else {
        0
    }
}

proof fn lemma_lead_blanks(ls: Seq<Seq<char>>)
    ensures
        0 <= lead_blanks(ls) <= ls.len(),
        forall|i: int| 0 <= i < lead_blanks(ls) ==> is_blank(#[trigger] ls[i]),
        lead_blanks(ls) < ls.len() ==> !is_blank(ls[lead_blanks(ls)]),
    decreases ls.len(),
{
    if ls.len() > 0 && is_blank(ls[0]) {
        lemma_lead_blanks(ls.drop_first());
        assert forall|i: int| 0 <= i < lead_blanks(ls) implies is_blank(#[trigger] ls[i]) by {
            if i > 0 {
                assert(ls[i] == ls.drop_first()[i - 1]);
            }
        }
        if lead_blanks(ls) < ls.len() {
            assert(ls[lead_blanks(ls)] == ls.drop_first()[lead_blanks(ls) - 1]);
        }
    }
}

/// The first block of well-formed lines that open with one: a well-formed
/// piece of its own, ending in its (non-blank) close line.
proof fn lemma_block_head(k: Seq<Seq<char>>, tidy: bool)
    requires
        blocks_wf(k, tidy),
        k.len() > 0,
        starts_with(trim_start(k[0]), k_open_head()),
    ensures
        ({
            let m = (parse_open_spec(k[0])->0).0;
            let j = find_line(k.drop_first(), close_marker_spec(m));
            &&& 0 <= j < k.len() - 1
            &&& blocks_wf(k.subrange(0, j + 2), tidy)
            &&& blocks_wf(k.subrange(0, j + 2), false)
            &&& blocks_wf(k.subrange(j + 2, k.len() as int), tidy)
            &&& !is_blank(k[j + 1])
            &&& (tidy ==> collapsed(k.subrange(0, j + 2)))
            &&& k == k.subrange(0, j + 2) + k.subrange(j + 2, k.len() as int)
        }),
{
    let (m, v) = parse_open_spec(k[0])->0;
    let c = close_marker_spec(m);
    let rest = k.drop_first();
    lemma_find_line_props(rest, c);
    let j = find_line(rest, c);
    let b = k.subrange(0, j + 2);
    assert(b[0] == k[0]);
    let rb = b.drop_first();
    assert forall|i: int| 0 <= i < j implies trim(#[trigger] rb[i]) != c by {
        assert(rb[i] == rest[i]);
    }
    assert(rb[j] == rest[j]);
    lemma_find_line_at(rb, c, j);
    assert forall|i: int| 0 <= i < j implies !starts_with(trim_start(#[trigger] rb[i]), k_open_head()) by {
        assert(rb[i] == rest[i]);
    }
    assert(b.subrange(0, j + 2) =~= b);
    assert(rb.subrange(j + 1, rb.len() as int) =~= Seq::<Seq<char>>::empty());
    assert(blocks_wf(Seq::<Seq<char>>::empty(), tidy));
    assert(blocks_wf(Seq::<Seq<char>>::empty(), false));
    assert(k.subrange(0, j + 2) == b);
    assert(blocks_wf(b, tidy));
    assert(blocks_wf(b, false));
    assert(rest.subrange(j + 1, rest.len() as int) =~= k.subrange(j + 2, k.len() as int));
    assert(k == b + k.subrange(j + 2, k.len() as int));
    assert(c =~= k_close_head() + (m + k_close_tail()));
    assert(k[j + 1] == rest[j]);
    if is_blank(rest[j]) {
        lemma_blank_trim_start(rest[j]);
        lemma_trim_len(trim_start(rest[j]));
    }
}

/// Collapsing blank runs in well-formed lines whose blocks hold no two
/// blank lines in a row keeps their parse.
proof fn lemma_collapse_parse(k: Seq<Seq<char>>)
    requires
        blocks_wf(k, true),
    ensures
        blocks_wf(collapse_blanks(k), false),
        parse_blocks(collapse_blanks(k)) == parse_blocks(k),
    decreases k.len(),
{
    let e = Seq::<Seq<char>>::empty();
    lemma_lead_blanks(k);
    let p = lead_blanks(k);
    if k.len() == 0 {
    } else if p == k.len() {
        lemma_collapse_last(k);
        let ck = collapse_blanks(k);
        assert(k + e =~= k);
        assert(ck + e =~= ck);
        lemma_blanks_then(k, e, false);
        lemma_blanks_then(ck, e, false);
    } else if p > 0 {
        let t = k.subrange(0, p);
        let k2 = k.subrange(p, k.len() as int);
        assert(k =~= t + k2);
        assert(k2[0] == k[p]);
        lemma_collapse_split(t, k2);
        assert forall|i: int| 0 <= i < t.len() implies is_blank(#[trigger] t[i]) by {
            assert(t[i] == k[i]);
        }
        lemma_collapse_last(t);
        lemma_blanks_then(t, k2, true);
        lemma_collapse_parse(k2);
        lemma_blanks_then(collapse_blanks(t), collapse_blanks(k2), false);
    } else if !starts_with(trim_start(k[0]), k_open_head()) {
        let l = k[0];
        let r = k.drop_first();
        assert(k =~= seq![l] + r);
        lemma_collapse_split(seq![l], r);
        assert(seq![l].drop_last() =~= e);
        assert(collapse_blanks(seq![l].drop_last()) =~= e);
        assert(collapse_blanks(seq![l]) =~= seq![l]);
        assert(blocks_wf(e, false));
        assert(blocks_wf(e, true));
        assert(seq![l][0] == l);
        assert(blocks_wf(seq![l], false)) by {
            assert(seq![l].drop_first() =~= e);
        }
        assert(blocks_wf(seq![l], true)) by {
            assert(seq![l].drop_first() =~= e);
        }
        lemma_wb_concat(seq![l], r, true);
        lemma_collapse_parse(r);
        lemma_wb_concat(seq![l], collapse_blanks(r), false);
        lemma_wb_concat(seq![l], r, false);
        assert(parse_blocks(seq![l]) =~= Seq::<BlockView>::empty()) by {
            lemma_not_open_head(l, Seq::<char>::empty());
            assert(seq![l].drop_first() =~= e);
        }
    } else {
        lemma_block_head(k, true);
        let m = (parse_open_spec(k[0])->0).0;
        let j = find_line(k.drop_first(), close_marker_spec(m));
        let b = k.subrange(0, j + 2);
        let r = k.subrange(j + 2, k.len() as int);
        lemma_collapse_id(b);
        assert(b.last() == k[j + 1]);
        lemma_collapse_split(b, r);
        lemma_collapse_parse(r);
        lemma_wb_concat(b, r, true);
        lemma_wb_concat(b, r, false);
        lemma_wb_concat(b, collapse_blanks(r), false);
    }
}

/// Lines with no two blank lines in a row hold no block with two in a row.
proof fn lemma_wf_tidy(ls: Seq<Seq<char>>)
    requires
        blocks_wf(ls, false),
        collapsed(ls),
    ensures
        blocks_wf(ls, true),
    decreases ls.len(),
{
    if ls.len() > 0 {
        if !starts_with(trim_start(ls[0]), k_open_head()) {
            assert forall|i: int| 0 <= i < ls.drop_first().len() - 1 implies !(is_blank(#[trigger] ls.drop_first()[i]) && is_blank(ls.drop_first()[i + 1])) by {
                assert(ls.drop_first()[i] == ls[i + 1]);
                assert(ls.drop_first()[i + 1] == ls[i + 2]);
            }
            lemma_wf_tidy(ls.drop_first());
        } else {
            let (m, v) = parse_open_spec(ls[0])->0;
            let rest = ls.drop_first();
            let j = find_line(rest, close_marker_spec(m));
            let b = ls.subrange(0, j + 2);
            let r = rest.subrange(j + 1, rest.len() as int);
            assert forall|i: int| 0 <= i < b.len() - 1 implies !(is_blank(#[trigger] b[i]) && is_blank(b[i + 1])) by {
                assert(b[i] == ls[i]);
                assert(b[i + 1] == ls[i + 1]);
            }
            assert forall|i: int| 0 <= i < r.len() - 1 implies !(is_blank(#[trigger] r[i]) && is_blank(r[i + 1])) by {
                assert(r[i] == ls[j + 2 + i]);
                assert(r[i + 1] == ls[j + 3 + i]);
            }
            lemma_wf_tidy(r);
        }
    }
}

/// Removing a recipe from a justfile leaves the other blocks as they parsed
/// before, in order: parsing the result gives the old parse without the
/// blocks of that name. Well-formed as for Taskfiles, and with no two blank
/// lines in a row (removal collapses blank runs anywhere in a justfile, so a
/// block holding two would change).
pub proof fn justfile_removal_keeps_other_blocks(doc: Seq<char>, name: Seq<char>)
    requires
        valid_name(name),
        all_lines(lines(doc)),
        well_blocked(lines(doc)),
        collapsed(lines(doc)),
    ensures
        parse_all_spec(remove_spec(Target::Just, doc, name).0) == without_named(parse_all_spec(doc), name),
{
    let w = remove_spec(Target::Just, doc, name).0;
    let x = lemma_remove_just_lines(doc, name);
    lemma_text_lines_eq(x, w);
    let st = strip_block(lines(doc), name);
    lemma_wf_tidy(lines(doc));
    lemma_strip_parse(lines(doc), name, true);
    lemma_collapse_parse(st.out);
    lemma_drop_trailing_parse(collapse_blanks(st.out), false);
}

} // verus!
