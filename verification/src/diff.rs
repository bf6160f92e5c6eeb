//! The unified diff `jtr diff` and `jtr update --dry-run` print between an
//! installed block and the block an install would write now.
use vstd::prelude::*;

use crate::managed::{trim_trailing_nl, trim_trailing_nl_v};
use crate::text::{chars_of, extend, string_of};

verus! {

/// The hunks of `similar`'s line diff of `before` against `after` with three
/// lines of context: each hunk's `@@ -a,b +c,d @@` header and its changes,
/// every change a tag (`0` unchanged, `1` deleted, `2` inserted) and the
/// line's text as the diff holds it (with its line ending).
pub uninterp spec fn unified_hunks(before: Seq<char>, after: Seq<char>) -> Seq<(Seq<char>, Seq<(int, Seq<char>)>)>;

pub open spec fn hunks_view(v: Seq<(String, Vec<(u8, String)>)>) -> Seq<(Seq<char>, Seq<(int, Seq<char>)>)> {
    v.map_values(
        |h: (String, Vec<(u8, String)>)|
            (h.0@, h.1@.map_values(|c: (u8, String)| (c.0 as int, c.1@))),
    )
}

/// `similar::TextDiff::from_lines(before, after)`, its unified diff with a
/// context radius of 3, read hunk by hunk: the header as `Display` writes it,
/// and each change's tag and text. The result is named `unified_hunks`.
#[verifier::external_body]
fn diff_hunks(before: &str, after: &str) -> (out: Vec<(String, Vec<(u8, String)>)>)
    ensures
        hunks_view(out@) == unified_hunks(before@, after@),
{
    let diff = similar::TextDiff::from_lines(before, after);
    let mut udiff = diff.unified_diff();
    let hunks = udiff.context_radius(3).iter_hunks().map(|h| {
        let changes = h.iter_changes().map(|c| {
            let tag = match c.tag() {
                similar::ChangeTag::Equal => 0u8,
                similar::ChangeTag::Delete => 1u8,
                similar::ChangeTag::Insert => 2u8,
            };
            (tag, c.to_string_lossy().into_owned())
        });
        (h.header().to_string(), changes.collect())
    });
    hunks.collect()
}

/// One printed change: `-`, `+` or a space, then the line.
pub open spec fn change_line(tag: int, text: Seq<char>) -> Seq<char> {
    seq![
        if tag == 1 {
            '-'
        } else if tag == 2 {
            '+'
        } else {
            ' '
        },
    ] + trim_trailing_nl(text)
}

pub open spec fn hunk_lines(h: (Seq<char>, Seq<(int, Seq<char>)>)) -> Seq<Seq<char>> {
    seq![h.0] + h.1.map_values(|c: (int, Seq<char>)| change_line(c.0, c.1))
}

pub open spec fn all_hunk_lines(hs: Seq<(Seq<char>, Seq<(int, Seq<char>)>)>) -> Seq<Seq<char>>
    decreases hs.len(),
{
    if hs.len() == 0 {
        seq![]
    } else {
        all_hunk_lines(hs.drop_last()) + hunk_lines(hs.last())
    }
}

/// `--- a/<name>` (with ` (not installed)` when there is no installed
/// block), `+++ b/<name>`, then every hunk's header and change lines.
pub open spec fn diff_lines_spec(name: Seq<char>, before: Seq<char>, after: Seq<char>) -> Seq<Seq<char>> {
    seq![
        "--- a/"@ + name + if before.len() == 0 {
            " (not installed)"@
        } else {
            Seq::<char>::empty()
        },
        "+++ b/"@ + name,
    ] + all_hunk_lines(unified_hunks(before, after))
}

pub open spec fn lines_view(v: Seq<String>) -> Seq<Seq<char>> {
    v.map_values(|s: String| s@)
}

fn push_line(out: &mut Vec<String>, line: Vec<char>)
    ensures
        lines_view(final(out)@) == lines_view(old(out)@).push(line@),
{
    let s = string_of(&line);
    out.push(s);
    assert(lines_view(out@) =~= lines_view(old(out)@).push(line@));
}

/// The lines of the unified diff between the installed block `before` and
/// the block `after` an install would write, labelled with the block name.
pub fn unified_diff_lines(block_name: &str, before: &str, after: &str) -> (out: Vec<String>)
    ensures
        lines_view(out@) == diff_lines_spec(block_name@, before@, after@),
{
    let name = chars_of(block_name);
    let mut out: Vec<String> = Vec::new();
    let mut a = chars_of("--- a/");
    extend(&mut a, &name);
    if chars_of(before).len() == 0 {
        extend(&mut a, &chars_of(" (not installed)"));
    } else {
        assert(a@ + Seq::<char>::empty() =~= a@);
    }
    push_line(&mut out, a);
    let mut b = chars_of("+++ b/");
    extend(&mut b, &name);
    push_line(&mut out, b);
    let hunks = diff_hunks(before, after);
    let ghost hs = hunks_view(hunks@);
    let ghost head = lines_view(out@);
    assert(hs.subrange(0, 0) =~= Seq::<(Seq<char>, Seq<(int, Seq<char>)>)>::empty());
    let mut i: usize = 0;
    while i < hunks.len()
        invariant
            i <= hunks@.len(),
            hs == hunks_view(hunks@),
            lines_view(out@) == head + all_hunk_lines(hs.subrange(0, i as int)),
        decreases hunks.len() - i,
    {
        let ghost before_hunk = lines_view(out@);
        let h = &hunks[i];
        let ghost hv = hs[i as int];
        push_line(&mut out, chars_of(h.0.as_str()));
        let ghost cs = hv.1;
        let mut j: usize = 0;
        while j < h.1.len()
            invariant
                j <= h.1@.len(),
                hv == hs[i as int],
                hv == (h.0@, h.1@.map_values(|c: (u8, String)| (c.0 as int, c.1@))),
                lines_view(out@) == before_hunk + seq![hv.0] + hv.1.subrange(0, j as int).map_values(
                    |c: (int, Seq<char>)| change_line(c.0, c.1),
                ),
            decreases h.1.len() - j,
        {
            let (tag, text) = (&h.1[j].0, &h.1[j].1);
            let mark = if *tag == 1 {
                '-'
            } else if *tag == 2 {
                '+'
            } else {
                ' '
            };
            let mut line: Vec<char> = Vec::new();
            line.push(mark);
            extend(&mut line, &trim_trailing_nl_v(&chars_of(text.as_str())));
            assert(hv.1[j as int] == (*tag as int, text@));
            assert(line@ =~= change_line(*tag as int, text@));
            push_line(&mut out, line);
            assert(hv.1.subrange(0, j + 1).map_values(|c: (int, Seq<char>)| change_line(c.0, c.1))
                =~= hv.1.subrange(0, j as int).map_values(|c: (int, Seq<char>)| change_line(c.0, c.1)).push(
                change_line(*tag as int, text@),
            ));
            j += 1;
        }
        assert(hv.1.subrange(0, h.1.len() as int) =~= hv.1);
        assert(hs.subrange(0, i + 1).drop_last() =~= hs.subrange(0, i as int));
        assert(lines_view(out@) =~= head + all_hunk_lines(hs.subrange(0, i + 1)));
        i += 1;
    }
    assert(hs.subrange(0, hunks.len() as int) =~= hs);
    out
}


/// How many printed lines the first `i` hunks take: each its header and one
/// line per change.
pub open spec fn lines_before(hs: Seq<(Seq<char>, Seq<(int, Seq<char>)>)>, i: int) -> int
    decreases i,
{
    if i <= 0 {
        0
    } else {
        lines_before(hs, i - 1) + 1 + hs[i - 1].1.len()
    }
}

proof fn lemma_lines_before_nonneg(hs: Seq<(Seq<char>, Seq<(int, Seq<char>)>)>, i: int)
    ensures
        0 <= lines_before(hs, i),
    decreases i,
{
    if i > 0 {
        lemma_lines_before_nonneg(hs, i - 1);
    }
}

proof fn lemma_lines_before_prefix(hs: Seq<(Seq<char>, Seq<(int, Seq<char>)>)>, n: int, i: int)
    requires
        0 <= i <= n <= hs.len(),
    ensures
        lines_before(hs.subrange(0, n), i) == lines_before(hs, i),
    decreases i,
{
    if i > 0 {
        lemma_lines_before_prefix(hs, n, i - 1);
        assert(hs.subrange(0, n)[i - 1] == hs[i - 1]);
    }
}

proof fn lemma_all_hunk_lines_len(hs: Seq<(Seq<char>, Seq<(int, Seq<char>)>)>)
    ensures
        all_hunk_lines(hs).len() == lines_before(hs, hs.len() as int),
    decreases hs.len(),
{
    if hs.len() > 0 {
        let n = hs.len() - 1;
        let p = hs.drop_last();
        lemma_all_hunk_lines_len(p);
        assert(p =~= hs.subrange(0, n));
        lemma_lines_before_prefix(hs, n, n);
        assert(hunk_lines(hs.last()).len() == 1 + hs.last().1.len());
        assert(hs[n] == hs.last());
    }
}

proof fn lemma_hunk_at(hs: Seq<(Seq<char>, Seq<(int, Seq<char>)>)>, i: int)
    requires
        0 <= i < hs.len(),
    ensures
        lines_before(hs, i) + 1 + hs[i].1.len() <= all_hunk_lines(hs).len(),
        all_hunk_lines(hs)[lines_before(hs, i)] == hs[i].0,
        forall|k: int|
            0 <= k < hs[i].1.len() ==> all_hunk_lines(hs)[lines_before(hs, i) + 1 + k] == change_line(
                (#[trigger] hs[i].1[k]).0,
                hs[i].1[k].1,
            ),
    decreases hs.len(),
{
    let n = hs.len() - 1;
    let p = hs.drop_last();
    let ap = all_hunk_lines(p);
    let h = hs.last();
    let hl = hunk_lines(h);
    assert(all_hunk_lines(hs) == ap + hl);
    assert(p =~= hs.subrange(0, n));
    lemma_lines_before_prefix(hs, n, i);
    lemma_all_hunk_lines_len(p);
    lemma_lines_before_prefix(hs, n, n);
    let q = lines_before(hs, i);
    lemma_lines_before_nonneg(hs, i);
    assert(lines_before(p, i) == q);
    assert(lines_before(p, n) == lines_before(hs, n));
    if i < n {
        lemma_hunk_at(p, i);
        assert(hs[i] == p[i]);
        assert(q < ap.len());
        assert((ap + hl)[q] == ap[q]);
        assert forall|k: int|
            0 <= k < hs[i].1.len() implies all_hunk_lines(hs)[lines_before(hs, i) + 1 + k] == change_line(
            (#[trigger] hs[i].1[k]).0,
            hs[i].1[k].1,
        ) by {
            assert(p[i].1[k] == hs[i].1[k]);
            assert((ap + hl)[q + 1 + k] == ap[q + 1 + k]);
        }
    } else {
        assert(hs[i] == h);
        assert(hl[0] == h.0);
        assert(q == ap.len());
        assert((ap + hl)[q] == hl[0]);
        assert forall|k: int|
            0 <= k < hs[i].1.len() implies all_hunk_lines(hs)[lines_before(hs, i) + 1 + k] == change_line(
            (#[trigger] hs[i].1[k]).0,
            hs[i].1[k].1,
        ) by {
            assert(hl[1 + k] == change_line(h.1[k].0, h.1[k].1));
            assert((ap + hl)[q + 1 + k] == hl[1 + k]);
        }
    }
}

/// The diff shows every hunk of the line diff, in order and whole: after the
/// two file lines, hunk `i` starts at line `2 + lines_before(hunks, i)` with
/// its header, each of its changes follows on its own line, and nothing comes
/// after the last hunk.
pub proof fn diff_shows_every_hunk(name: Seq<char>, before: Seq<char>, after: Seq<char>)
    ensures
        ({
            let hs = unified_hunks(before, after);
            let ls = diff_lines_spec(name, before, after);
            &&& ls.len() == 2 + lines_before(hs, hs.len() as int)
            &&& forall|i: int| 0 <= i < hs.len() ==> ls[2 + lines_before(hs, i)] == (#[trigger] hs[i]).0
            &&& forall|i: int, k: int|
                0 <= i < hs.len() && 0 <= k < hs[i].1.len() ==> ls[2 + lines_before(hs, i) + 1 + k]
                    == change_line((#[trigger] hs[i].1[k]).0, hs[i].1[k].1)
        }),
{
    let hs = unified_hunks(before, after);
    let ls = diff_lines_spec(name, before, after);
    lemma_all_hunk_lines_len(hs);
    let a = all_hunk_lines(hs);
    let hd = seq![
        "--- a/"@ + name + if before.len() == 0 {
            " (not installed)"@
        } else {
            Seq::<char>::empty()
        },
        "+++ b/"@ + name,
    ];
    assert(ls == hd + a);
    assert forall|i: int| 0 <= i < hs.len() implies ls[2 + lines_before(hs, i)] == (#[trigger] hs[i]).0 by {
        lemma_hunk_at(hs, i);
        lemma_lines_before_nonneg(hs, i);
        assert((hd + a)[2 + lines_before(hs, i)] == a[lines_before(hs, i)]);
    }
    assert forall|i: int, k: int|
        0 <= i < hs.len() && 0 <= k < hs[i].1.len() implies ls[2 + lines_before(hs, i) + 1 + k]
            == change_line((#[trigger] hs[i].1[k]).0, hs[i].1[k].1) by {
        lemma_hunk_at(hs, i);
        lemma_lines_before_nonneg(hs, i);
        assert((hd + a)[2 + lines_before(hs, i) + 1 + k] == a[lines_before(hs, i) + 1 + k]);
    }
}

} // verus!
