//! Character-level text model shared by every module that edits or parses
//! project files: lines, trimming, prefixes and joining, stated over
//! `Seq<char>` and implemented on `Vec<char>`.
use vstd::prelude::*;

verus! {

/// The Unicode `White_Space` property, which is what `char::is_whitespace`
/// (and therefore `str::trim`) tests.
pub open spec fn is_ws(c: char) -> bool {
    ||| ('\u{9}' <= c && c <= '\u{d}')
    ||| c == ' '
    ||| c == '\u{85}'
    ||| c == '\u{a0}'
    ||| c == '\u{1680}'
    ||| ('\u{2000}' <= c && c <= '\u{200a}')
    ||| c == '\u{2028}'
    ||| c == '\u{2029}'
    ||| c == '\u{202f}'
    ||| c == '\u{205f}'
    ||| c == '\u{3000}'
}

/// A line that `trim()` turns into the empty string.
pub open spec fn is_blank(s: Seq<char>) -> bool {
    forall|i: int| 0 <= i < s.len() ==> is_ws(#[trigger] s[i])
}

/// `str::trim_start`.
pub open spec fn trim_start(s: Seq<char>) -> Seq<char>
    decreases s.len(),
{
    if s.len() > 0 && is_ws(s[0]) {
        trim_start(s.drop_first())
    } else {
        s
    }
}

/// `str::trim_end`.
pub open spec fn trim_end(s: Seq<char>) -> Seq<char>
    decreases s.len(),
{
    if s.len() > 0 && is_ws(s.last()) {
        trim_end(s.drop_last())
    } else {
        s
    }
}

/// `str::trim`.
pub open spec fn trim(s: Seq<char>) -> Seq<char> {
    trim_end(trim_start(s))
}

pub open spec fn starts_with(s: Seq<char>, p: Seq<char>) -> bool {
    p.len() <= s.len() && s.subrange(0, p.len() as int) == p
}

pub open spec fn ends_with(s: Seq<char>, p: Seq<char>) -> bool {
    p.len() <= s.len() && s.subrange(s.len() - p.len(), s.len() as int) == p
}

/// Index of the first `c` in `s`, or `s.len()` when there is none.
pub open spec fn find_char(s: Seq<char>, c: char) -> int
    decreases s.len(),
{
    if s.len() == 0 {
        0
    } else if s[0] == c {
        0
    } else {
        1 + find_char(s.drop_first(), c)
    }
}

/// Drop one trailing carriage return (the `\r` of a `\r\n` line ending).
pub open spec fn strip_cr(s: Seq<char>) -> Seq<char> {
    if s.len() > 0 && s.last() == '\r' {
        s.drop_last()
    } else {
        s
    }
}

/// `str::lines`: split at `\n` (dropping a `\r` right before it); a final
/// line ending is optional and produces no empty last line.
pub open spec fn lines(s: Seq<char>) -> Seq<Seq<char>>
    decreases s.len(),
{
    if s.len() == 0 {
        seq![]
    } else {
        let k = find_char(s, '\n');
        if k >= s.len() {
            seq![s]
        } else {
            if 0 <= k {
                seq![strip_cr(s.subrange(0, k))] + lines(s.subrange(k + 1, s.len() as int))
            } else {
                seq![]
            }
        }
    }
}

/// `slice.join(sep)` for a list of strings.
pub open spec fn join(ls: Seq<Seq<char>>, sep: Seq<char>) -> Seq<char>
    decreases ls.len(),
{
    if ls.len() == 0 {
        seq![]
    } else if ls.len() == 1 {
        ls[0]
    } else {
        join(ls.drop_last(), sep) + sep + ls.last()
    }
}

/// Every line followed by `\n`.
pub open spec fn terminated(ls: Seq<Seq<char>>) -> Seq<char>
    decreases ls.len(),
{
    if ls.len() == 0 {
        seq![]
    } else {
        terminated(ls.drop_last()) + ls.last() + seq!['\n']
    }
}

/// A line as `lines` can produce it: no `\n`, and no `\r` at its end.
pub open spec fn is_line(l: Seq<char>) -> bool {
    &&& !l.contains('\n')
    &&& !(l.len() > 0 && l.last() == '\r')
}

pub open spec fn all_lines(ls: Seq<Seq<char>>) -> bool {
    forall|i: int| 0 <= i < ls.len() ==> is_line(#[trigger] ls[i])
}

pub proof fn lemma_find_char(s: Seq<char>, c: char)
    ensures
        0 <= find_char(s, c) <= s.len(),
        forall|j: int| 0 <= j < find_char(s, c) ==> s[j] != c,
        find_char(s, c) < s.len() ==> s[find_char(s, c)] == c,
    decreases s.len(),
{
    if s.len() > 0 && s[0] != c {
        lemma_find_char(s.drop_first(), c);
        assert forall|j: int| 0 <= j < find_char(s, c) implies s[j] != c by {
            if j > 0 {
                assert(s[j] == s.drop_first()[j - 1]);
            }
        }
    }
}

/// `find_char` is determined by the characterisation above.
pub proof fn lemma_find_char_at(s: Seq<char>, c: char, k: int)
    requires
        0 <= k <= s.len(),
        forall|j: int| 0 <= j < k ==> s[j] != c,
        k < s.len() ==> s[k] == c,
    ensures
        find_char(s, c) == k,
    decreases s.len(),
{
    if s.len() > 0 && s[0] != c {
        assert forall|j: int| 0 <= j < k - 1 implies s.drop_first()[j] != c by {
            assert(s.drop_first()[j] == s[j + 1]);
        }
        lemma_find_char_at(s.drop_first(), c, k - 1);
    }
}

/// Splitting a line-terminated text: the first line, then the rest.
pub proof fn lemma_lines_cons(l: Seq<char>, rest: Seq<char>)
    requires
        !l.contains('\n'),
    ensures
        lines(l + seq!['\n'] + rest) == seq![strip_cr(l)] + lines(rest),
{
    let s = l + seq!['\n'] + rest;
    assert forall|j: int| 0 <= j < l.len() implies s[j] != '\n' by {
        assert(s[j] == l[j]);
    }
    lemma_find_char_at(s, '\n', l.len() as int);
    assert(s.subrange(0, l.len() as int) =~= l);
    assert(s.subrange(l.len() as int + 1, s.len() as int) =~= rest);
}

/// The last line of a text without a trailing line ending.
pub proof fn lemma_lines_single(l: Seq<char>)
    requires
        !l.contains('\n'),
        l.len() > 0,
    ensures
        lines(l) == seq![l],
{
    assert forall|j: int| 0 <= j < l.len() implies l[j] != '\n' by {
        assert(l.contains(l[j]));
    }
    lemma_find_char_at(l, '\n', l.len() as int);
}

pub proof fn lemma_terminated_push(ls: Seq<Seq<char>>, l: Seq<char>)
    ensures
        terminated(ls.push(l)) == terminated(ls) + l + seq!['\n'],
{
    assert(ls.push(l).drop_last() =~= ls);
}

pub proof fn lemma_terminated_concat(a: Seq<Seq<char>>, b: Seq<Seq<char>>)
    ensures
        terminated(a + b) == terminated(a) + terminated(b),
    decreases b.len(),
{
    if b.len() == 0 {
        assert(a + b =~= a);
    } else {
        lemma_terminated_concat(a, b.drop_last());
        assert((a + b).drop_last() =~= a + b.drop_last());
        assert(terminated(a) + terminated(b.drop_last()) + b.last() + seq!['\n'] =~= terminated(a)
            + (terminated(b.drop_last()) + b.last() + seq!['\n']));
    }
}

pub proof fn lemma_terminated_cons(l: Seq<char>, ls: Seq<Seq<char>>)
    ensures
        terminated(seq![l] + ls) == l + seq!['\n'] + terminated(ls),
{
    lemma_terminated_concat(seq![l], ls);
    assert(seq![l].drop_last() =~= Seq::<Seq<char>>::empty());
    assert(terminated(Seq::<Seq<char>>::empty()) =~= Seq::<char>::empty());
    assert(seq![l].last() == l);
    assert(terminated(seq![l]) =~= l + seq!['\n']);
}

/// `lines` undoes `terminated`.
pub proof fn lemma_lines_terminated(ls: Seq<Seq<char>>)
    requires
        all_lines(ls),
    ensures
        lines(terminated(ls)) == ls,
    decreases ls.len(),
{
    if ls.len() > 0 {
        let rest = ls.drop_first();
        assert(ls =~= seq![ls[0]] + rest);
        lemma_terminated_cons(ls[0], rest);
        assert(is_line(ls[0]));
        lemma_lines_cons(ls[0], terminated(rest));
        assert(terminated(ls) =~= ls[0] + seq!['\n'] + terminated(rest));
        assert(all_lines(rest)) by {
            assert forall|i: int| 0 <= i < rest.len() implies is_line(#[trigger] rest[i]) by {
                assert(rest[i] == ls[i + 1]);
            }
        }
        lemma_lines_terminated(rest);
    } else {
        assert(terminated(ls) =~= Seq::<char>::empty());
    }
}

/// `lines` on a joined list whose last line is not empty.
pub proof fn lemma_lines_join(ls: Seq<Seq<char>>)
    requires
        all_lines(ls),
        ls.len() > 0,
        ls.last().len() > 0,
    ensures
        lines(join(ls, seq!['\n'])) == ls,
    decreases ls.len(),
{
    if ls.len() == 1 {
        lemma_lines_single(ls[0]);
    } else {
        let init = ls.drop_last();
        lemma_join_terminated(init, ls.last());
        lemma_lines_terminated_then(init, ls.last());
        assert(init.push(ls.last()) =~= ls);
    }
}

/// `join(ls ++ [l])` is `terminated(ls) ++ l` when `ls` is not empty.
pub proof fn lemma_join_terminated(ls: Seq<Seq<char>>, l: Seq<char>)
    ensures
        join(ls.push(l), seq!['\n']) == terminated(ls) + l,
    decreases ls.len(),
{
    if ls.len() == 0 {
        assert(terminated(ls) =~= Seq::<char>::empty());
        assert(seq![l] =~= ls.push(l));
        assert(terminated(ls) + l =~= l);
    } else {
        lemma_join_terminated(ls.drop_last(), ls.last());
        assert(ls.push(l).drop_last() =~= ls);
        assert(ls.drop_last().push(ls.last()) =~= ls);
        assert(terminated(ls.drop_last()) + ls.last() + seq!['\n'] + l =~= terminated(ls) + l);
    }
}

/// `join(ls, "\n") + "\n"` is `terminated(ls)` for a non-empty list.
pub proof fn lemma_join_nl(ls: Seq<Seq<char>>)
    requires
        ls.len() > 0,
    ensures
        join(ls, seq!['\n']) + seq!['\n'] == terminated(ls),
{
    lemma_join_terminated(ls.drop_last(), ls.last());
    assert(ls.drop_last().push(ls.last()) =~= ls);
    assert(terminated(ls.drop_last()) + ls.last() + seq!['\n'] =~= terminated(ls));
}

/// Lines of `terminated(ls) ++ l` for a final unterminated, non-empty line.
pub proof fn lemma_lines_terminated_then(ls: Seq<Seq<char>>, l: Seq<char>)
    requires
        all_lines(ls),
        !l.contains('\n'),
        l.len() > 0,
    ensures
        lines(terminated(ls) + l) == ls.push(l),
    decreases ls.len(),
{
    if ls.len() == 0 {
        assert(terminated(ls) + l =~= l);
        lemma_lines_single(l);
        assert(ls.push(l) =~= seq![l]);
    } else {
        let rest = ls.drop_first();
        assert(ls =~= seq![ls[0]] + rest);
        lemma_terminated_cons(ls[0], rest);
        assert(terminated(ls) + l =~= ls[0] + seq!['\n'] + (terminated(rest) + l));
        lemma_lines_cons(ls[0], terminated(rest) + l);
        assert(all_lines(rest)) by {
            assert forall|i: int| 0 <= i < rest.len() implies is_line(#[trigger] rest[i]) by {
                assert(rest[i] == ls[i + 1]);
            }
        }
        lemma_lines_terminated_then(rest, l);
        assert(ls.push(l) =~= seq![ls[0]] + rest.push(l));
    }
}

pub proof fn lemma_ends_with_char(s: Seq<char>, c: char)
    ensures
        ends_with(s, seq![c]) == (s.len() > 0 && s.last() == c),
{
    if s.len() > 0 {
        assert(s.subrange(s.len() - 1, s.len() as int)[0] == s.last());
        if s.last() == c {
            assert(s.subrange(s.len() - 1, s.len() as int) =~= seq![c]);
        }
    }
}

// ---------------------------------------------------------------- exec

/// `String::push`, which appends one character.
#[verifier::external_body]
fn push_char(s: &mut String, c: char)
    ensures
        final(s)@ == old(s)@.push(c),
{
    s.push(c);
}

/// The characters of a string slice.
pub fn chars_of(s: &str) -> (out: Vec<char>)
    ensures
        out@ == s@,
{
    let mut out: Vec<char> = Vec::new();
    for c in it: s.chars()
        invariant
            out@ == it.seq().take(it.index() as int),
    {
        out.push(c);
    }
    out
}

/// A `String` holding exactly the given characters.
pub fn string_of(v: &Vec<char>) -> (out: String)
    ensures
        out@ == v@,
{
    let mut out = String::new();
    let mut i: usize = 0;
    while i < v.len()
        invariant
            i <= v.len(),
            out@ == v@.subrange(0, i as int),
        decreases v.len() - i,
    {
        push_char(&mut out, v[i]);
        i += 1;
        assert(out@ =~= v@.subrange(0, i as int));
    }
    assert(v@.subrange(0, v.len() as int) =~= v@);
    out
}

pub fn is_ws_exec(c: char) -> (b: bool)
    ensures
        b == is_ws(c),
{
    ('\u{9}' <= c && c <= '\u{d}') || c == ' ' || c == '\u{85}' || c == '\u{a0}' || c == '\u{1680}'
        || ('\u{2000}' <= c && c <= '\u{200a}') || c == '\u{2028}' || c == '\u{2029}' || c
        == '\u{202f}' || c == '\u{205f}' || c == '\u{3000}'
}

pub fn is_blank_exec(s: &Vec<char>) -> (b: bool)
    ensures
        b == is_blank(s@),
{
    let mut i: usize = 0;
    while i < s.len()
        invariant
            i <= s.len(),
            forall|j: int| 0 <= j < i ==> is_ws(#[trigger] s@[j]),
        decreases s.len() - i,
    {
        if !is_ws_exec(s[i]) {
            return false;
        }
        i += 1;
    }
    true
}

pub proof fn lemma_trim_start_skip(s: Seq<char>, k: int)
    requires
        0 <= k <= s.len(),
        forall|j: int| 0 <= j < k ==> is_ws(#[trigger] s[j]),
        k < s.len() ==> !is_ws(s[k]),
    ensures
        trim_start(s) == s.subrange(k, s.len() as int),
    decreases k,
{
    if k == 0 {
        assert(s.subrange(0, s.len() as int) =~= s);
    } else {
        assert(is_ws(s[0]));
        assert forall|j: int| 0 <= j < k - 1 implies is_ws(#[trigger] s.drop_first()[j]) by {
            assert(s.drop_first()[j] == s[j + 1]);
        }
        lemma_trim_start_skip(s.drop_first(), k - 1);
        assert(s.drop_first().subrange(k - 1, s.drop_first().len() as int) =~= s.subrange(
            k,
            s.len() as int,
        ));
    }
}

pub proof fn lemma_trim_end_keep(s: Seq<char>, k: int)
    requires
        0 <= k <= s.len(),
        forall|j: int| k <= j < s.len() ==> is_ws(#[trigger] s[j]),
        k > 0 ==> !is_ws(s[k - 1]),
    ensures
        trim_end(s) == s.subrange(0, k),
    decreases s.len() - k,
{
    if k == s.len() {
        assert(s.subrange(0, k) =~= s);
    } else {
        assert(is_ws(s.last()));
        assert forall|j: int| k <= j < s.drop_last().len() implies is_ws(
            #[trigger] s.drop_last()[j],
        ) by {
            assert(s.drop_last()[j] == s[j]);
        }
        lemma_trim_end_keep(s.drop_last(), k);
        assert(s.drop_last().subrange(0, k) =~= s.subrange(0, k));
    }
}

/// Index of the first non-whitespace character of `s[from..]` (or `s.len()`).
pub fn skip_ws(s: &Vec<char>, from: usize) -> (k: usize)
    requires
        from <= s.len(),
    ensures
        from <= k <= s.len(),
        forall|j: int| from <= j < k ==> is_ws(#[trigger] s@[j]),
        k < s.len() ==> !is_ws(s@[k as int]),
{
    let mut k = from;
    while k < s.len() && is_ws_exec(s[k])
        invariant
            from <= k <= s.len(),
            forall|j: int| from <= j < k ==> is_ws(#[trigger] s@[j]),
        decreases s.len() - k,
    {
        k += 1;
    }
    k
}

/// `s[from..to]` as a new vector.
pub fn slice_of(s: &Vec<char>, from: usize, to: usize) -> (out: Vec<char>)
    requires
        from <= to <= s.len(),
    ensures
        out@ == s@.subrange(from as int, to as int),
{
    let mut out: Vec<char> = Vec::new();
    let mut i = from;
    while i < to
        invariant
            from <= i <= to <= s.len(),
            out@ == s@.subrange(from as int, i as int),
        decreases to - i,
    {
        out.push(s[i]);
        i += 1;
        assert(out@ =~= s@.subrange(from as int, i as int));
    }
    out
}

/// `str::trim_start`.
pub fn trim_start_exec(s: &Vec<char>) -> (out: Vec<char>)
    ensures
        out@ == trim_start(s@),
{
    let k = skip_ws(s, 0);
    proof {
        lemma_trim_start_skip(s@, k as int);
    }
    slice_of(s, k, s.len())
}

/// `str::trim`.
pub fn trim_exec(s: &Vec<char>) -> (out: Vec<char>)
    ensures
        out@ == trim(s@),
{
    let t = trim_start_exec(s);
    let mut k = t.len();
    while k > 0 && is_ws_exec(t[k - 1])
        invariant
            k <= t.len(),
            forall|j: int| k <= j < t.len() ==> is_ws(#[trigger] t@[j]),
        decreases k,
    {
        k -= 1;
    }
    proof {
        lemma_trim_end_keep(t@, k as int);
    }
    slice_of(&t, 0, k)
}

/// Character-wise equality.
pub fn eq_exec(a: &Vec<char>, b: &Vec<char>) -> (r: bool)
    ensures
        r == (a@ == b@),
{
    if a.len() != b.len() {
        return false;
    }
    let mut i: usize = 0;
    while i < a.len()
        invariant
            a.len() == b.len(),
            i <= a.len(),
            forall|j: int| 0 <= j < i ==> a@[j] == b@[j],
        decreases a.len() - i,
    {
        if a[i] != b[i] {
            return false;
        }
        i += 1;
    }
    assert(a@ =~= b@);
    true
}

/// Does `s[at..]` start with `p`?
pub fn matches_at(s: &Vec<char>, at: usize, p: &Vec<char>) -> (r: bool)
    requires
        at <= s.len(),
    ensures
        r == starts_with(s@.subrange(at as int, s.len() as int), p@),
{
    let ghost t = s@.subrange(at as int, s.len() as int);
    if p.len() > s.len() - at {
        return false;
    }
    let mut i: usize = 0;
    while i < p.len()
        invariant
            p.len() <= s.len() - at,
            at <= s.len(),
            i <= p.len(),
            t == s@.subrange(at as int, s.len() as int),
            forall|j: int| 0 <= j < i ==> s@[at + j] == p@[j],
        decreases p.len() - i,
    {
        if s[at + i] != p[i] {
            assert(t.subrange(0, p.len() as int)[i as int] == s@[at + i]);
            return false;
        }
        i += 1;
    }
    assert(t.subrange(0, p.len() as int) =~= p@);
    true
}

pub fn starts_with_exec(s: &Vec<char>, p: &Vec<char>) -> (r: bool)
    ensures
        r == starts_with(s@, p@),
{
    let r = matches_at(s, 0, p);
    assert(s@.subrange(0, s.len() as int) =~= s@);
    r
}

/// Index of the first `c` in `s[from..]`, relative to the start of `s`.
pub fn find_char_from(s: &Vec<char>, from: usize, c: char) -> (k: usize)
    requires
        from <= s.len(),
    ensures
        k as int == from + find_char(s@.subrange(from as int, s.len() as int), c),
        from <= k <= s.len(),
{
    let mut k = from;
    while k < s.len() && s[k] != c
        invariant
            from <= k <= s.len(),
            forall|j: int| from <= j < k ==> s@[j] != c,
        decreases s.len() - k,
    {
        k += 1;
    }
    proof {
        let t = s@.subrange(from as int, s.len() as int);
        assert forall|j: int| 0 <= j < k - from implies t[j] != c by {
            assert(t[j] == s@[from + j]);
        }
        lemma_find_char_at(t, c, k - from);
    }
    k
}

pub open spec fn deep(v: Seq<Vec<char>>) -> Seq<Seq<char>> {
    v.map_values(|l: Vec<char>| l@)
}

/// `str::lines`.
pub fn lines_exec(s: &Vec<char>) -> (out: Vec<Vec<char>>)
    ensures
        deep(out@) == lines(s@),
{
    let mut out: Vec<Vec<char>> = Vec::new();
    let mut p: usize = 0;
    assert(s@.subrange(0, s.len() as int) =~= s@);
    while p < s.len()
        invariant
            p <= s.len(),
            deep(out@) + lines(s@.subrange(p as int, s.len() as int)) == lines(s@),
        decreases s.len() - p,
    {
        let ghost rest = s@.subrange(p as int, s.len() as int);
        let k = find_char_from(s, p, '\n');
        let mut line = slice_of(s, p, k);
        if k < s.len() && line.len() > 0 && line[line.len() - 1] == '\r' {
            line.pop();
        }
        proof {
            let kk = k - p;
            if k < s.len() {
                assert(line@ == strip_cr(rest.subrange(0, kk)));
                assert(lines(rest) == seq![strip_cr(rest.subrange(0, kk))] + lines(
                    rest.subrange(kk + 1, rest.len() as int),
                ));
                assert(rest.subrange(kk + 1, rest.len() as int) =~= s@.subrange(
                    k + 1,
                    s.len() as int,
                ));
            } else {
                assert(rest.subrange(0, kk) =~= rest);
                assert(lines(rest) == seq![rest]);
            }
        }
        let ghost before = out@;
        out.push(line);
        proof {
            assert(deep(out@) =~= deep(before).push(line@));
        }
        if k < s.len() {
            p = k + 1;
            proof {
                assert(deep(out@) + lines(s@.subrange(p as int, s.len() as int)) =~= deep(before)
                    + lines(rest));
            }
        } else {
            proof {
                assert(line@ == rest);
                assert(deep(out@) =~= deep(before) + lines(rest));
            }
            p = s.len();
            assert(s@.subrange(p as int, s.len() as int) =~= Seq::<char>::empty());
            assert(lines(Seq::<char>::empty()) =~= Seq::<Seq<char>>::empty());
            assert(deep(out@) + lines(s@.subrange(p as int, s.len() as int)) =~= deep(out@));
        }
    }
    assert(s@.subrange(p as int, s.len() as int) =~= Seq::<char>::empty());
    assert(deep(out@) + lines(Seq::<char>::empty()) =~= deep(out@));
    out
}

/// Append `b` to `a`.
pub fn extend(a: &mut Vec<char>, b: &Vec<char>)
    ensures
        final(a)@ == old(a)@ + b@,
{
    let mut i: usize = 0;
    let ghost a0 = a@;
    while i < b.len()
        invariant
            i <= b.len(),
            a@ == a0 + b@.subrange(0, i as int),
        decreases b.len() - i,
    {
        a.push(b[i]);
        i += 1;
        assert(a@ =~= a0 + b@.subrange(0, i as int));
    }
    assert(b@.subrange(0, b.len() as int) =~= b@);
}

/// `lines.join(sep)`.
pub fn join_exec(ls: &Vec<Vec<char>>, sep: &Vec<char>) -> (out: Vec<char>)
    ensures
        out@ == join(deep(ls@), sep@),
{
    let mut out: Vec<char> = Vec::new();
    let mut i: usize = 0;
    while i < ls.len()
        invariant
            i <= ls.len(),
            out@ == join(deep(ls@).subrange(0, i as int), sep@),
        decreases ls.len() - i,
    {
        let ghost pre = deep(ls@).subrange(0, i as int);
        if i > 0 {
            extend(&mut out, sep);
        }
        extend(&mut out, &ls[i]);
        proof {
            let post = deep(ls@).subrange(0, i + 1);
            assert(post.drop_last() =~= pre);
            if i == 0 {
                assert(join(pre, sep@) =~= Seq::<char>::empty());
                assert(out@ =~= post[0]);
            }
        }
        i += 1;
    }
    assert(deep(ls@).subrange(0, ls.len() as int) =~= deep(ls@));
    out
}

/// Index of the first occurrence of `p` in `s` at or after `i`.
pub open spec fn find_sub_from(s: Seq<char>, p: Seq<char>, i: int) -> Option<int>
    decreases s.len() + 1 - i,
{
    if i < 0 || i + p.len() > s.len() {
        None
    } else if s.subrange(i, i + p.len()) == p {
        Some(i)
    } else {
        find_sub_from(s, p, i + 1)
    }
}

/// `str::find` for a string pattern.
pub open spec fn find_sub(s: Seq<char>, p: Seq<char>) -> Option<int> {
    find_sub_from(s, p, 0)
}

/// What `find_sub_from` reports is an occurrence at or after `i`, and the
/// first one.
pub proof fn lemma_find_sub_from(s: Seq<char>, p: Seq<char>, i: int)
    ensures
        find_sub_from(s, p, i) matches Some(k) ==> {
            &&& 0 <= i <= k
            &&& k + p.len() <= s.len()
            &&& s.subrange(k, k + p.len()) == p
            &&& forall|j: int| i <= j < k ==> #[trigger] s.subrange(j, j + p.len()) != p
        },
        find_sub_from(s, p, i) is None ==> forall|j: int|
            0 <= i <= j && j + p.len() <= s.len() ==> #[trigger] s.subrange(j, j + p.len()) != p,
    decreases s.len() + 1 - i,
{
    if !(i < 0 || i + p.len() > s.len()) && s.subrange(i, i + p.len()) != p {
        lemma_find_sub_from(s, p, i + 1);
    }
}

pub fn find_sub_exec(s: &Vec<char>, p: &Vec<char>) -> (r: Option<usize>)
    ensures
        match r {
            Some(i) => find_sub(s@, p@) == Some(i as int) && i + p.len() <= s.len(),
            None => find_sub(s@, p@).is_none(),
        },
{
    if p.len() > s.len() {
        return None;
    }
    if p.len() == 0 {
        assert(s@.subrange(0, 0) =~= p@);
        return Some(0);
    }
    let mut i: usize = 0;
    while i <= s.len() - p.len()
        invariant
            0 < p.len() <= s.len(),
            i <= s.len() - p.len() + 1,
            find_sub_from(s@, p@, 0) == find_sub_from(s@, p@, i as int),
        decreases s.len() + 1 - i - p.len(),
    {
        let m = matches_at(s, i, p);
        assert(s@.subrange(i as int, s.len() as int).subrange(0, p.len() as int) =~= s@.subrange(
            i as int,
            i + p.len(),
        ));
        if m {
            return Some(i);
        }
        i += 1;
    }
    None
}

/// Decimal digits of `n`.
pub open spec fn decimal(n: nat) -> Seq<char>
    decreases n,
{
    if n < 10 {
        seq![digit(n)]
    } else {
        decimal(n / 10) + seq![digit(n % 10)]
    }
}

pub open spec fn digit(d: nat) -> char {
    if d == 0 { '0' } else if d == 1 { '1' } else if d == 2 { '2' } else if d == 3 { '3' }
    else if d == 4 { '4' } else if d == 5 { '5' } else if d == 6 { '6' } else if d == 7 { '7' }
    else if d == 8 { '8' } else { '9' }
}

fn digit_exec(d: u64) -> (c: char)
    requires
        d < 10,
    ensures
        c == digit(d as nat),
{
    if d == 0 { '0' } else if d == 1 { '1' } else if d == 2 { '2' } else if d == 3 { '3' }
    else if d == 4 { '4' } else if d == 5 { '5' } else if d == 6 { '6' } else if d == 7 { '7' }
    else if d == 8 { '8' } else { '9' }
}

/// The decimal form of `n`, as `{}` formats it.
pub fn decimal_exec(n: u64) -> (out: Vec<char>)
    ensures
        out@ == decimal(n as nat),
    decreases n,
{
    if n < 10 {
        vec![digit_exec(n)]
    } else {
        let mut out = decimal_exec(n / 10);
        out.push(digit_exec(n % 10));
        out
    }
}


// ---------------------------------------------------------------- more on lines

/// `join` taken from the front.
pub proof fn lemma_join_cons(a: Seq<char>, rest: Seq<Seq<char>>, sep: Seq<char>)
    requires
        rest.len() > 0,
    ensures
        join(seq![a] + rest, sep) == a + sep + join(rest, sep),
    decreases rest.len(),
{
    let all = seq![a] + rest;
    if rest.len() == 1 {
        assert(all.drop_last() =~= seq![a]);
        assert(all.last() == rest[0]);
        assert(join(seq![a], sep) == a);
        assert(join(rest, sep) == rest[0]);
        assert(join(all, sep) == join(all.drop_last(), sep) + sep + all.last());
    } else {
        lemma_join_cons(a, rest.drop_last(), sep);
        assert(all.drop_last() =~= seq![a] + rest.drop_last());
        assert(all.last() == rest.last());
        assert(join(all, sep) == join(all.drop_last(), sep) + sep + all.last());
        assert(join(rest, sep) == join(rest.drop_last(), sep) + sep + rest.last());
        assert(a + sep + join(rest.drop_last(), sep) + sep + rest.last() =~= a + sep + (join(
            rest.drop_last(),
            sep,
        ) + sep + rest.last()));
    }
}

/// A text without `\r` and without a final line ending is the join of its
/// lines, and those lines are proper lines.
pub proof fn lemma_join_lines(s: Seq<char>)
    requires
        !s.contains('\r'),
        !(s.len() > 0 && s.last() == '\n'),
    ensures
        join(lines(s), seq!['\n']) == s,
        all_lines(lines(s)),
        s.len() > 0 ==> lines(s).len() > 0,
        forall|i: int| 0 <= i < lines(s).len() ==> !(#[trigger] lines(s)[i]).contains('\r'),
    decreases s.len(),
{
    if s.len() == 0 {
        return;
    }
    let k = find_char(s, '\n');
    lemma_find_char(s, '\n');
    if k >= s.len() {
        assert(lines(s) =~= seq![s]);
        assert(!s.contains('\n')) by {
            if s.contains('\n') {
                let j = choose|j: int| 0 <= j < s.len() && s[j] == '\n';
                assert(s[j] != '\n');
            }
        }
    } else {
        let head = s.subrange(0, k);
        let tail = s.subrange(k + 1, s.len() as int);
        assert(k < s.len() - 1);
        assert(!tail.contains('\r')) by {
            if tail.contains('\r') {
                let j = choose|j: int| 0 <= j < tail.len() && tail[j] == '\r';
                assert(s[k + 1 + j] == '\r');
            }
        }
        assert(tail.last() == s.last());
        lemma_join_lines(tail);
        assert(!head.contains('\r')) by {
            if head.contains('\r') {
                let j = choose|j: int| 0 <= j < head.len() && head[j] == '\r';
                assert(s[j] == '\r');
            }
        }
        assert(!head.contains('\n')) by {
            if head.contains('\n') {
                let j = choose|j: int| 0 <= j < head.len() && head[j] == '\n';
                assert(s[j] == '\n');
            }
        }
        assert(strip_cr(head) == head);
        assert(lines(s) == seq![head] + lines(tail));
        lemma_join_cons(head, lines(tail), seq!['\n']);
        assert(head + seq!['\n'] + tail =~= s);
        assert forall|i: int| 0 <= i < lines(s).len() implies is_line(#[trigger] lines(s)[i]) && !lines(
            s,
        )[i].contains('\r') by {
            if i > 0 {
                assert(lines(s)[i] == lines(tail)[i - 1]);
            }
        }
    }
}

/// The lines of a text come first among the lines of that text followed by
/// a line ending (and anything after it).
pub proof fn lemma_lines_extend(s: Seq<char>, t: Seq<char>)
    requires
        !s.contains('\r'),
        !(s.len() > 0 && s.last() == '\n'),
        t.len() > 0 ==> t[0] == '\n',
    ensures
        lines(s).len() <= lines(s + t).len(),
        lines(s + t).subrange(0, lines(s).len() as int) == lines(s),
    decreases s.len(),
{
    if s.len() == 0 {
        return;
    }
    let st = s + t;
    let k = find_char(s, '\n');
    lemma_find_char(s, '\n');
    if k >= s.len() {
        assert forall|j: int| 0 <= j < s.len() implies st[j] != '\n' by {
            assert(st[j] == s[j]);
        }
        if t.len() > 0 {
            assert(st[s.len() as int] == '\n');
            lemma_find_char_at(st, '\n', s.len() as int);
            assert(st.subrange(0, s.len() as int) =~= s);
        } else {
            assert(st =~= s);
        }
        assert(s.last() != '\r') by {
            assert(s.contains(s.last()) || true);
            if s.last() == '\r' {
                assert(s[s.len() - 1] == '\r');
            }
        }
    } else {
        assert(k < s.len() - 1);
        assert forall|j: int| 0 <= j < k implies st[j] != '\n' by {
            assert(st[j] == s[j]);
        }
        lemma_find_char_at(st, '\n', k);
        let tail = s.subrange(k + 1, s.len() as int);
        assert(!tail.contains('\r')) by {
            if tail.contains('\r') {
                let j = choose|j: int| 0 <= j < tail.len() && tail[j] == '\r';
                assert(s[k + 1 + j] == '\r');
            }
        }
        assert(tail.last() == s.last());
        lemma_lines_extend(tail, t);
        assert(st.subrange(0, k) =~= s.subrange(0, k));
        assert(st.subrange(k + 1, st.len() as int) =~= tail + t);
        assert(lines(st) == seq![strip_cr(s.subrange(0, k))] + lines(tail + t));
        assert(lines(s) == seq![strip_cr(s.subrange(0, k))] + lines(tail));
        assert(lines(st).subrange(0, lines(s).len() as int) =~= seq![strip_cr(s.subrange(0, k))] + lines(
            tail + t,
        ).subrange(0, lines(tail).len() as int));
    }
}

/// Lines never hold a line ending.
pub proof fn lemma_lines_no_nl(s: Seq<char>)
    ensures
        forall|i: int| 0 <= i < lines(s).len() ==> !(#[trigger] lines(s)[i]).contains('\n'),
    decreases s.len(),
{
    if s.len() == 0 {
        return;
    }
    let k = find_char(s, '\n');
    lemma_find_char(s, '\n');
    if k >= s.len() {
        assert(lines(s) =~= seq![s]);
        assert(!s.contains('\n')) by {
            if s.contains('\n') {
                let j = choose|j: int| 0 <= j < s.len() && s[j] == '\n';
                assert(s[j] != '\n');
            }
        }
    } else {
        let head = s.subrange(0, k);
        let tail = s.subrange(k + 1, s.len() as int);
        lemma_lines_no_nl(tail);
        assert(!strip_cr(head).contains('\n')) by {
            if strip_cr(head).contains('\n') {
                let j = choose|j: int| 0 <= j < strip_cr(head).len() && strip_cr(head)[j] == '\n';
                assert(s[j] == '\n');
            }
        }
        assert forall|i: int| 0 <= i < lines(s).len() implies !(#[trigger] lines(s)[i]).contains('\n') by {
            if i > 0 {
                assert(lines(s)[i] == lines(tail)[i - 1]);
            }
        }
    }
}

pub open spec fn no_nl_lines(ls: Seq<Seq<char>>) -> bool {
    forall|i: int| 0 <= i < ls.len() ==> !(#[trigger] ls[i]).contains('\n')
}

pub open spec fn strip_crs(ls: Seq<Seq<char>>) -> Seq<Seq<char>> {
    ls.map_values(|l: Seq<char>| strip_cr(l))
}

/// `lines` of line-terminated text, for lines that may end in `\r`.
pub proof fn lemma_lines_terminated_cr(ls: Seq<Seq<char>>)
    requires
        no_nl_lines(ls),
    ensures
        lines(terminated(ls)) == strip_crs(ls),
    decreases ls.len(),
{
    if ls.len() > 0 {
        let rest = ls.drop_first();
        assert(ls =~= seq![ls[0]] + rest);
        lemma_terminated_cons(ls[0], rest);
        assert(!ls[0].contains('\n'));
        lemma_lines_cons(ls[0], terminated(rest));
        assert(no_nl_lines(rest)) by {
            assert forall|i: int| 0 <= i < rest.len() implies !(#[trigger] rest[i]).contains('\n') by {
                assert(rest[i] == ls[i + 1]);
            }
        }
        lemma_lines_terminated_cr(rest);
        assert(strip_crs(ls) =~= seq![strip_cr(ls[0])] + strip_crs(rest));
    } else {
        assert(terminated(ls) =~= Seq::<char>::empty());
        assert(strip_crs(ls) =~= Seq::<Seq<char>>::empty());
    }
}

/// `lines` of line-terminated text and a final unterminated line.
pub proof fn lemma_lines_terminated_then_cr(ls: Seq<Seq<char>>, l: Seq<char>)
    requires
        no_nl_lines(ls),
        !l.contains('\n'),
        l.len() > 0,
    ensures
        lines(terminated(ls) + l) == strip_crs(ls).push(l),
    decreases ls.len(),
{
    if ls.len() == 0 {
        assert(terminated(ls) + l =~= l);
        lemma_lines_single(l);
        assert(strip_crs(ls).push(l) =~= seq![l]);
    } else {
        let rest = ls.drop_first();
        assert(ls =~= seq![ls[0]] + rest);
        lemma_terminated_cons(ls[0], rest);
        assert(terminated(ls) + l =~= ls[0] + seq!['\n'] + (terminated(rest) + l));
        assert(!ls[0].contains('\n'));
        lemma_lines_cons(ls[0], terminated(rest) + l);
        assert(no_nl_lines(rest)) by {
            assert forall|i: int| 0 <= i < rest.len() implies !(#[trigger] rest[i]).contains('\n') by {
                assert(rest[i] == ls[i + 1]);
            }
        }
        lemma_lines_terminated_then_cr(rest, l);
        assert(strip_crs(ls).push(l) =~= seq![strip_cr(ls[0])] + strip_crs(rest).push(l));
    }
}


/// `lines` of line-terminated text followed by more text.
pub proof fn lemma_lines_terminated_append(ls: Seq<Seq<char>>, r: Seq<char>)
    requires
        no_nl_lines(ls),
    ensures
        lines(terminated(ls) + r) == strip_crs(ls) + lines(r),
    decreases ls.len(),
{
    if ls.len() > 0 {
        let rest = ls.drop_first();
        assert(ls =~= seq![ls[0]] + rest);
        lemma_terminated_cons(ls[0], rest);
        assert(terminated(ls) + r =~= ls[0] + seq!['\n'] + (terminated(rest) + r));
        assert(!ls[0].contains('\n'));
        lemma_lines_cons(ls[0], terminated(rest) + r);
        assert(no_nl_lines(rest)) by {
            assert forall|i: int| 0 <= i < rest.len() implies !(#[trigger] rest[i]).contains('\n') by {
                assert(rest[i] == ls[i + 1]);
            }
        }
        lemma_lines_terminated_append(rest, r);
        assert(strip_crs(ls) + lines(r) =~= seq![strip_cr(ls[0])] + (strip_crs(rest) + lines(r)));
    } else {
        assert(terminated(ls) + r =~= r);
        assert(strip_crs(ls) + lines(r) =~= lines(r));
    }
}


/// A text without `\r` that ends in a line ending is its lines, each
/// terminated.
pub proof fn lemma_terminated_lines(s: Seq<char>)
    requires
        !s.contains('\r'),
        s.len() > 0,
        s.last() == '\n',
    ensures
        terminated(lines(s)) == s,
        all_lines(lines(s)),
    decreases s.len(),
{
    let k = find_char(s, '\n');
    lemma_find_char(s, '\n');
    if k >= s.len() {
        assert(s[s.len() - 1] == '\n');
    }
    let l = s.subrange(0, k);
    let rest = s.subrange(k + 1, s.len() as int);
    assert(!l.contains('\n')) by {
        if l.contains('\n') {
            let j = choose|j: int| 0 <= j < l.len() && l[j] == '\n';
            assert(s[j] == '\n');
        }
    }
    assert(!l.contains('\r')) by {
        if l.contains('\r') {
            let j = choose|j: int| 0 <= j < l.len() && l[j] == '\r';
            assert(s[j] == '\r');
        }
    }
    assert(strip_cr(l) == l) by {
        if l.len() > 0 && l.last() == '\r' {
            assert(l.contains(l[l.len() - 1]));
        }
    }
    assert(s =~= l + seq!['\n'] + rest);
    lemma_lines_cons(l, rest);
    if rest.len() == 0 {
        assert(lines(rest) =~= Seq::<Seq<char>>::empty());
        assert(lines(s) =~= seq![l]);
        lemma_terminated_push(Seq::<Seq<char>>::empty(), l);
        assert(seq![l] =~= Seq::<Seq<char>>::empty().push(l));
        assert(terminated(Seq::<Seq<char>>::empty()) =~= Seq::<char>::empty());
    } else {
        assert(!rest.contains('\r')) by {
            if rest.contains('\r') {
                let j = choose|j: int| 0 <= j < rest.len() && rest[j] == '\r';
                assert(s[k + 1 + j] == '\r');
            }
        }
        assert(rest.last() == s.last());
        lemma_terminated_lines(rest);
        lemma_terminated_cons(l, lines(rest));
    }
    assert(is_line(l)) by {
        if l.len() > 0 && l.last() == '\r' {
            assert(l.contains(l[l.len() - 1]));
        }
    }
    assert forall|i: int| 0 <= i < lines(s).len() implies is_line(#[trigger] lines(s)[i]) by {
        if i > 0 {
            assert(lines(s)[i] == lines(rest)[i - 1]);
        }
    }
}


/// How many bytes UTF-8 takes for `c` (`char::len_utf8`).
pub open spec fn char_utf8_len(c: char) -> nat {
    if (c as u32) < 0x80 {
        1
    } else if (c as u32) < 0x800 {
        2
    } else if (c as u32) < 0x10000 {
        3
    } else {
        4
    }
}

/// How many bytes UTF-8 takes for `s`: what `str::len` gives.
pub open spec fn utf8_len(s: Seq<char>) -> nat
    decreases s.len(),
{
    if s.len() == 0 {
        0
    } else {
        utf8_len(s.drop_last()) + char_utf8_len(s.last())
    }
}

pub proof fn lemma_utf8_len_prefix(s: Seq<char>, k: int)
    requires
        0 <= k <= s.len(),
    ensures
        utf8_len(s.subrange(0, k)) <= utf8_len(s),
    decreases s.len() - k,
{
    if k < s.len() {
        lemma_utf8_len_prefix(s, k + 1);
        assert(s.subrange(0, k + 1).drop_last() =~= s.subrange(0, k));
    } else {
        assert(s.subrange(0, k) =~= s);
    }
}

fn char_utf8_len_exec(c: char) -> (n: usize)
    ensures
        n == char_utf8_len(c),
{
    let u = c as u32;
    if u < 0x80 {
        1
    } else if u < 0x800 {
        2
    } else if u < 0x10000 {
        3
    } else {
        4
    }
}

/// The byte offset of character position `k` in `s`.
pub fn byte_offset(s: &Vec<char>, k: usize) -> (n: usize)
    requires
        k <= s.len(),
        utf8_len(s@) <= usize::MAX,
    ensures
        n == utf8_len(s@.subrange(0, k as int)),
{
    let mut n: usize = 0;
    let mut i: usize = 0;
    proof {
        lemma_utf8_len_prefix(s@, k as int);
    }
    assert(s@.subrange(0, 0).len() == 0);
    while i < k
        invariant
            i <= k <= s.len(),
            n == utf8_len(s@.subrange(0, i as int)),
            utf8_len(s@.subrange(0, k as int)) <= usize::MAX,
        decreases k - i,
    {
        proof {
            assert(s@.subrange(0, i + 1).drop_last() =~= s@.subrange(0, i as int));
            lemma_utf8_len_prefix(s@.subrange(0, k as int), i + 1);
            assert(s@.subrange(0, k as int).subrange(0, i + 1) =~= s@.subrange(0, i + 1));
        }
        n = n + char_utf8_len_exec(s[i]);
        i += 1;
    }
    n
}

} // verus!
