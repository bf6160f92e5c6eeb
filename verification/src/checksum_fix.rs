//! Laws of `lint --fix`, proved over [`crate::lint::apply_fix_spec`]: fixing
//! an entry whose checksum is already current changes nothing, and after a
//! stale checksum is replaced, reading the entry back gives the new value.
use vstd::prelude::*;

use crate::lint::{
    apply_fixes_spec, ChecksumFix, entry_outcome, lint_fold, lint_tap_spec, seen_before, EntryInput, EntryRead, FixView,
    apply_fix_spec, find_sha_spec, leading_ws, rfind_non_ws, lemma_loc_fold_range, lemma_locate_range, loc_fold, loc_step,
    locate_spec, sha_key, url_needle, LocScan, LocState,
};
use crate::text::{is_ws, find_char, find_sub, find_sub_from, lemma_find_char, lemma_find_char_at, lemma_find_sub_from};

verus! {

/// The `sha256` value recorded in the entry for `url`, as `--fix` reads it.
pub open spec fn entry_sha(text: Seq<char>, url: Seq<char>) -> Option<Seq<char>> {
    match locate_spec(text, url) {
        None => None,
        Some((s, e)) => match find_sha_spec(text.subrange(s, e)) {
            None => None,
            Some((vs, ve)) => Some(text.subrange(s + vs, s + ve)),
        },
    }
}

/// Where `find_sha_spec` finds the value: after the entry's first
/// `"sha256":` key and the quote that follows it, up to the next quote.
proof fn lemma_find_sha_shape(e: Seq<char>)
    ensures
        find_sha_spec(e) matches Some((vs, ve)) ==> {
            &&& find_sub(e, sha_key()) matches Some(kp) && {
                &&& 0 <= kp
                &&& kp + 9 <= vs - 1
                &&& e.subrange(kp, kp + 9) == sha_key()
                &&& forall|j: int| kp + 9 <= j < vs - 1 ==> e[j] != '"'
            }
            &&& 1 <= vs <= ve < e.len()
            &&& e[vs - 1] == '"'
            &&& e[ve] == '"'
            &&& forall|j: int| vs <= j < ve ==> e[j] != '"'
        },
{
    reveal_strlit("\"sha256\":");
    match find_sub(e, sha_key()) {
        None => {},
        Some(kp) => {
            lemma_find_sub_from(e, sha_key(), 0);
            let after = e.subrange(kp, e.len() as int);
            let colon = find_char(after, ':');
            lemma_find_char(after, ':');
            lemma_find_char(after, '"');
            assert forall|j: int| 0 <= j < 8 implies after[j] != ':' by {
                assert(after[j] == e.subrange(kp, kp + 9)[j]);
            }
            assert(after[8] == e.subrange(kp, kp + 9)[8]);
            lemma_find_char_at(after, ':', 8);
            if !(find_char(after, '"') >= after.len() || colon >= after.len()) {
                let after_colon = after.subrange(colon + 1, after.len() as int);
                let q = find_char(after_colon, '"');
                lemma_find_char(after_colon, '"');
                if q < after_colon.len() {
                    let vo = kp + colon + 1 + q + 1;
                    let rest = e.subrange(vo, e.len() as int);
                    let c = find_char(rest, '"');
                    lemma_find_char(rest, '"');
                    if c < rest.len() {
                        assert(e[vo - 1] == after_colon[q]);
                        assert(e[vo + c] == rest[c]);
                        assert forall|j: int| vo <= j < vo + c implies e[j] != '"' by {
                            assert(e[j] == rest[j - vo]);
                        }
                        assert forall|j: int| kp + 9 <= j < vo - 1 implies e[j] != '"' by {
                            assert(e[j] == after_colon[j - kp - 9]);
                        }
                    }
                }
            }
        },
    }
}

/// `--fix` is safe to run again: fixing an entry whose `sha256` already holds
/// the new value gives the index text back unchanged.
pub proof fn fix_keeps_current_checksum(text: Seq<char>, url: Seq<char>, new: Seq<char>)
    requires
        entry_sha(text, url) == Some(new),
    ensures
        apply_fix_spec(text, url, new) == Some(text),
{
    lemma_locate_range(text, url);
    let (s, e) = locate_spec(text, url).unwrap();
    let slice = text.subrange(s, e);
    lemma_find_sha_shape(slice);
    let (vs, ve) = find_sha_spec(slice).unwrap();
    assert(slice.subrange(vs, ve) =~= text.subrange(s + vs, s + ve));
    assert(text.subrange(0, s + vs) + new + text.subrange(s + ve, text.len() as int) =~= text);
}


// ------------------------------------------------------------ the scanner

/// Two texts that agree on their first `m` characters, scanned for needles
/// that both lie at or past `m` or at the same place, scan alike that far.
proof fn lemma_fold_prefix(t: Seq<char>, t2: Seq<char>, p: int, p2: int, m: int, n: int)
    requires
        0 <= n <= m <= t.len(),
        m <= t2.len(),
        t.subrange(0, m) == t2.subrange(0, m),
        p == p2 || (p >= m && p2 >= m),
    ensures
        loc_fold(t2, p2, n) == loc_fold(t, p, n),
    decreases n,
{
    if n > 0 {
        lemma_fold_prefix(t, t2, p, p2, m, n - 1);
        assert(t[n - 1] == t.subrange(0, m)[n - 1]);
        assert(t2[n - 1] == t2.subrange(0, m)[n - 1]);
    }
}

/// Once the scanner is past the needle, it knows the entry's `{`.
proof fn lemma_fold_entry_open(t: Seq<char>, p: int, n: int)
    requires
        0 <= p < n <= t.len(),
    ensures
        loc_fold(t, p, n) matches LocScan::Go(st) ==> st.entry_open.is_some(),
    decreases n,
{
    if n - 1 > p {
        lemma_fold_entry_open(t, p, n - 1);
    }
}

/// Inside a JSON string, characters other than quotes and backslashes leave
/// the scanner as it was.
proof fn lemma_fold_in_string(t: Seq<char>, p: int, a: int, b: int, n: int)
    requires
        0 <= a <= n <= b <= t.len(),
        loc_fold(t, p, a) matches LocScan::Go(st) && st.in_string && !st.escape
            && (st.entry_open.is_some() || b <= p),
        forall|i: int| a <= i < b ==> t[i] != '"' && t[i] != '\\',
    ensures
        loc_fold(t, p, n) == loc_fold(t, p, a),
    decreases n,
{
    if n > a {
        lemma_fold_in_string(t, p, a, b, n - 1);
    }
}

/// Positions before `a` stay; later ones move by `d`.
spec fn shift_pos(x: int, a: int, d: int) -> int {
    if x < a {
        x
    } else {
        x + d
    }
}

spec fn shift_state(st: LocState, a: int, d: int) -> LocState {
    LocState {
        stack: st.stack.map_values(|x: int| shift_pos(x, a, d)),
        entry_open: match st.entry_open {
            Some(o) => Some(shift_pos(o, a, d)),
            None => None,
        },
        in_string: st.in_string,
        escape: st.escape,
    }
}

spec fn shift_scan(sc: LocScan, a: int, d: int) -> LocScan {
    match sc {
        LocScan::Go(st) => LocScan::Go(shift_state(st, a, d)),
        LocScan::Stop(None) => LocScan::Stop(None),
        LocScan::Stop(Some((x, y))) => LocScan::Stop(Some((shift_pos(x, a, d), y + d))),
    }
}

/// Every position the scanner holds lies before `a` or at `b` and after.
spec fn clear_of(st: LocState, a: int, b: int) -> bool {
    &&& forall|k: int| 0 <= k < st.stack.len() ==> #[trigger] st.stack[k] < a || st.stack[k] >= b
    &&& st.entry_open matches Some(o) ==> o < a || o >= b
}

/// One step of the scanner commutes with moving the positions past `b` by `d`.
proof fn lemma_step_shift(st: LocState, c: char, i: int, p: int, p2: int, a: int, b: int, d: int)
    requires
        a <= b,
        b + d >= a,
        i >= b,
        clear_of(st, a, b),
        (i >= p) == (i + d >= p2),
    ensures
        loc_step(shift_state(st, a, d), c, i + d, p2) == shift_scan(loc_step(st, c, i, p), a, d),
        loc_step(st, c, i, p) matches LocScan::Go(st2) ==> clear_of(st2, a, b),
{
    let sst = shift_state(st, a, d);
    assert(sst.stack.len() == st.stack.len());
    if st.stack.len() > 0 {
        assert(sst.stack.last() == shift_pos(st.stack.last(), a, d));
        assert(sst.stack.drop_last() =~= st.stack.drop_last().map_values(|x: int| shift_pos(x, a, d)));
        assert(st.stack.last() == st.stack[st.stack.len() - 1]);
    }
    assert(sst.stack.push(i + d) =~= st.stack.push(i).map_values(|x: int| shift_pos(x, a, d)));
    let eo = if st.entry_open.is_none() && i >= p {
        Some(st.stack.last())
    } else {
        st.entry_open
    };
    if st.stack.len() > 0 && eo.is_some() {
        let x = st.stack.last();
        let o = eo.unwrap();
        assert(x < a || x >= b);
        assert(o < a || o >= b);
        assert((shift_pos(x, a, d) == shift_pos(o, a, d)) == (x == o));
    }
    match loc_step(st, c, i, p) {
        LocScan::Go(st2) => {
            assert forall|k: int| 0 <= k < st2.stack.len() implies #[trigger] st2.stack[k] < a
                || st2.stack[k] >= b by {
                if k < st.stack.len() {
                    assert(st2.stack[k] == st.stack[k]);
                }
            }
        },
        _ => {},
    }
}

/// Past the edited stretch, the scan of the edited text is the scan of the
/// unedited text with positions moved by `d`.
proof fn lemma_fold_shift(
    t: Seq<char>,
    t2: Seq<char>,
    p: int,
    p2: int,
    a: int,
    b: int,
    d: int,
    n: int,
)
    requires
        0 <= a <= b <= n <= t.len(),
        b + d >= a,
        t2.len() == t.len() + d,
        forall|i: int| b <= i < t.len() ==> t2[i + d] == #[trigger] t[i],
        (p < a && p2 == p) || (p >= b && p2 == p + d),
        loc_fold(t2, p2, b + d) == shift_scan(loc_fold(t, p, b), a, d),
        loc_fold(t, p, b) matches LocScan::Go(st) ==> clear_of(st, a, b),
    ensures
        loc_fold(t2, p2, n + d) == shift_scan(loc_fold(t, p, n), a, d),
        loc_fold(t, p, n) matches LocScan::Go(st) ==> clear_of(st, a, b),
    decreases n,
{
    if n > b {
        lemma_fold_shift(t, t2, p, p2, a, b, d, n - 1);
        assert(n + d - 1 == (n - 1) + d);
        match loc_fold(t, p, n - 1) {
            LocScan::Stop(_) => {},
            LocScan::Go(st) => {
                assert(t2[(n - 1) + d] == t[n - 1]);
                lemma_step_shift(st, t[n - 1], n - 1, p, p2, a, b, d);
            },
        }
    }
}


// ------------------------------------------------------------ the needle

/// A lowercase hexadecimal digit, as `sha256_hex` writes them.
pub open spec fn is_hex(c: char) -> bool {
    ('0' <= c && c <= '9') || ('a' <= c && c <= 'f')
}

pub open spec fn hex_digits(s: Seq<char>) -> bool {
    forall|i: int| 0 <= i < s.len() ==> is_hex(#[trigger] s[i])
}

/// `find_sub` reports an occurrence with none before it.
proof fn lemma_find_sub_at(s: Seq<char>, p: Seq<char>, k: int)
    requires
        0 <= k,
        k + p.len() <= s.len(),
        s.subrange(k, k + p.len()) == p,
        forall|j: int| 0 <= j < k ==> #[trigger] s.subrange(j, j + p.len()) != p,
    ensures
        find_sub(s, p) == Some(k),
{
    lemma_find_sub_from_at(s, p, k, 0);
}

proof fn lemma_find_sub_from_at(s: Seq<char>, p: Seq<char>, k: int, i: int)
    requires
        0 <= i <= k,
        k + p.len() <= s.len(),
        s.subrange(k, k + p.len()) == p,
        forall|j: int| 0 <= j < k ==> #[trigger] s.subrange(j, j + p.len()) != p,
    ensures
        find_sub_from(s, p, i) == Some(k),
    decreases k - i,
{
    if i < k {
        assert(s.subrange(i, i + p.len()) != p);
        lemma_find_sub_from_at(s, p, k, i + 1);
    }
}

/// No `"manifest_url": "<url>"` can reach into a hexadecimal value that
/// follows a `"sha256":` key: the needle's quotes and the key's letters do
/// not line up with it.
proof fn lemma_needle_clear_of_value(t: Seq<char>, u: Seq<char>, a: int, c: int, kp: int)
    requires
        forall|i: int| 0 <= i < u.len() ==> u[i] != '"',
        1 <= a <= c < t.len(),
        t[a - 1] == '"',
        t[c] == '"',
        forall|i: int| a <= i < c ==> is_hex(#[trigger] t[i]),
        0 <= kp,
        kp + 9 <= a - 1,
        t.subrange(kp, kp + 9) == sha_key(),
        forall|j: int| kp + 9 <= j < a - 1 ==> t[j] != '"',
    ensures
        forall|j: int|
            0 <= j && j < c && j + url_needle(u).len() > a && j + url_needle(u).len() <= t.len()
                ==> #[trigger] t.subrange(j, j + url_needle(u).len()) != url_needle(u),
{
    let nd = url_needle(u);
    let n = nd.len();
    reveal_strlit("\"manifest_url\": \"");
    reveal_strlit("\"");
    reveal_strlit("\"sha256\":");
    assert(n == 18 + u.len());
    assert(t[kp + 6] == t.subrange(kp, kp + 9)[6]);
    assert(t[kp + 7] == t.subrange(kp, kp + 9)[7]);
    assert(t[kp + 8] == t.subrange(kp, kp + 9)[8]);
    assert forall|j: int|
        0 <= j && j < c && j + n > a && j + n <= t.len() implies #[trigger] t.subrange(j, j + n)
        != nd by {
        if t.subrange(j, j + n) == nd {
            assert(t[j] == t.subrange(j, j + n)[0]);
            if j >= a {
                assert(is_hex(t[j]));
            } else {
                let k = a - 1 - j;
                assert(t[a - 1] == t.subrange(j, j + n)[k]);
                assert(t[a] == t.subrange(j, j + n)[k + 1]);
                assert(a == c || is_hex(t[a]));
                if k >= 17 {
                    assert(nd[k] == u[k - 17]);
                } else if k == 16 {
                    assert(t[a - 4] == t.subrange(j, j + n)[13]);
                    assert(t[a - 5] == t.subrange(j, j + n)[12]);
                    if a - 4 >= kp + 9 {
                        assert(t[a - 4] != '"');
                    }
                }
            }
        }
    }
}


/// Replacing the value `find_sha_spec` finds by a quote-free `x` leaves the
/// key where it was, and the value found is then `x`.
proof fn lemma_find_sha_replaced(e: Seq<char>, x: Seq<char>)
    requires
        find_sha_spec(e) is Some,
        forall|i: int| 0 <= i < x.len() ==> x[i] != '"',
    ensures
        find_sha_spec(e) matches Some((vs, ve)) && find_sha_spec(
            e.subrange(0, vs) + x + e.subrange(ve, e.len() as int),
        ) == Some((vs, vs + x.len())),
{
    reveal_strlit("\"sha256\":");
    lemma_find_sha_shape(e);
    let (vs, ve) = find_sha_spec(e).unwrap();
    let kp = find_sub(e, sha_key()).unwrap();
    lemma_find_sub_from(e, sha_key(), 0);
    let e2 = e.subrange(0, vs) + x + e.subrange(ve, e.len() as int);
    assert(e2.len() == e.len() + x.len() - (ve - vs));
    assert forall|i: int| 0 <= i < vs implies e2[i] == e[i] by {}
    assert forall|i: int| 0 <= i < x.len() implies e2[vs + i] == x[i] by {}
    assert(e2[vs + x.len()] == e[ve]);
    assert(e2.subrange(kp, kp + 9) =~= e.subrange(kp, kp + 9));
    assert forall|j: int| 0 <= j < kp implies #[trigger] e2.subrange(j, j + sha_key().len())
        != sha_key() by {
        assert(e2.subrange(j, j + 9) =~= e.subrange(j, j + 9));
        assert(e.subrange(j, j + sha_key().len()) != sha_key());
    }
    lemma_find_sub_at(e2, sha_key(), kp);
    let after = e2.subrange(kp, e2.len() as int);
    assert forall|j: int| 0 <= j < 8 implies after[j] != ':' by {
        assert(after[j] == e.subrange(kp, kp + 9)[j]);
    }
    assert(after[8] == e.subrange(kp, kp + 9)[8]);
    lemma_find_char_at(after, ':', 8);
    assert(after[0] == e.subrange(kp, kp + 9)[0]);
    lemma_find_char_at(after, '"', 0);
    let after_colon = after.subrange(9, after.len() as int);
    let q = vs - 1 - (kp + 9);
    assert forall|j: int| 0 <= j < q implies after_colon[j] != '"' by {
        assert(after_colon[j] == e[kp + 9 + j]);
    }
    assert(after_colon[q] == e[vs - 1]);
    lemma_find_char_at(after_colon, '"', q);
    let rest = e2.subrange(vs, e2.len() as int);
    assert forall|j: int| 0 <= j < x.len() implies rest[j] != '"' by {
        assert(rest[j] == x[j]);
    }
    assert(rest[x.len() as int] == e[ve]);
    lemma_find_char_at(rest, '"', x.len() as int);
}


// ------------------------------------------------------------ the laws

/// The shape `--fix` relies on in the entry for `url`: the scanner reads the
/// entry's `sha256` value as the inside of a JSON string, and the entry's
/// `"manifest_url": "<url>"` lies outside that value. A well-formed index has
/// both.
pub open spec fn value_fixable(text: Seq<char>, url: Seq<char>) -> bool {
    match find_sub(text, url_needle(url)) {
        None => false,
        Some(p) => match locate_spec(text, url) {
            None => false,
            Some((s, e)) => match find_sha_spec(text.subrange(s, e)) {
                None => false,
                Some((vs, ve)) => {
                    &&& loc_fold(text, p, s + vs) matches LocScan::Go(st) && st.in_string
                        && !st.escape
                    &&& (p + url_needle(url).len() <= s + vs || p >= s + ve)
                },
            },
        },
    }
}

/// After `--fix` replaces a stale `sha256` with a hexadecimal digest, reading
/// the entry back gives the new value, so a second run finds nothing to fix.
#[verifier::spinoff_prover]
#[verifier::rlimit(40)]
pub proof fn replaced_checksum_reads_back(text: Seq<char>, url: Seq<char>, new: Seq<char>)
    requires
        value_fixable(text, url),
        entry_sha(text, url) matches Some(old) && !old.contains('\\'),
        hex_digits(new),
        !url.contains('"'),
    ensures
        apply_fix_spec(text, url, new) matches Some(fixed) && entry_sha(fixed, url) == Some(new),
{
    reveal_strlit("\"manifest_url\": \"");
    reveal_strlit("\"");
    let nd = url_needle(url);
    let nl = nd.len() as int;
    assert(nl == 18 + url.len());
    let p = find_sub(text, nd).unwrap();
    lemma_find_sub_from(text, nd, 0);
    lemma_locate_range(text, url);
    let (s, e) = locate_spec(text, url).unwrap();
    let slice = text.subrange(s, e);
    lemma_find_sha_shape(slice);
    let (vs, ve) = find_sha_spec(slice).unwrap();
    let kp = find_sub(slice, sha_key()).unwrap();
    let old = text.subrange(s + vs, s + ve);
    let a = s + vs;
    let b = s + ve;
    let m = new.len() as int;
    let d = m - (b - a);
    let t2 = text.subrange(0, a) + new + text.subrange(b, text.len() as int);
    assert(apply_fix_spec(text, url, new) == Some(t2));
    assert(t2.len() == text.len() + d);
    assert forall|i: int| 0 <= i < a implies t2[i] == text[i] by {}
    assert forall|i: int| b <= i < text.len() implies t2[i + d] == #[trigger] text[i] by {}
    assert forall|i: int| a <= i < a + m implies t2[i] == new[i - a] by {}
    assert(t2.subrange(0, a) =~= text.subrange(0, a));
    assert forall|i: int| 0 <= i < url.len() implies url[i] != '"' by {
        if url[i] == '"' {
            assert(url.contains('"'));
        }
    }
    assert forall|i: int| a <= i < b implies text[i] != '"' && text[i] != '\\' by {
        assert(text[i] == slice[i - s]);
        assert(old[i - a] == text[i]);
        if text[i] == '\\' {
            assert(old.contains('\\'));
        }
    }
    assert forall|i: int| 0 <= i < m implies new[i] != '"' && new[i] != '\\' by {
        assert(is_hex(new[i]));
    }
    // the key, in the coordinates of both texts
    let kt = s + kp;
    assert(text.subrange(kt, kt + 9) =~= slice.subrange(kp, kp + 9));
    assert(t2.subrange(kt, kt + 9) =~= text.subrange(kt, kt + 9));
    assert forall|j: int| kt + 9 <= j < a - 1 implies t2[j] != '"' by {
        assert(t2[j] == slice[j - s]);
    }
    assert(t2[a - 1] == slice[vs - 1]);
    assert(t2[a + m] == slice[ve]);
    assert forall|i: int| a <= i < a + m implies is_hex(#[trigger] t2[i]) by {
        assert(t2[i] == new[i - a]);
    }
    // where the needle is in the fixed text
    lemma_needle_clear_of_value(t2, url, a, a + m, kt);
    let p2 = if p < a {
        p
    } else {
        p + d
    };
    assert(p + nl <= a || p >= b);
    if p < a {
        assert(t2.subrange(p, p + nl) =~= text.subrange(p, p + nl));
        assert forall|j: int| 0 <= j < p implies #[trigger] t2.subrange(j, j + nl) != nd by {
            assert(t2.subrange(j, j + nl) =~= text.subrange(j, j + nl));
        }
    } else {
        assert forall|k: int| 0 <= k < nl implies #[trigger] t2.subrange(p + d, p + d + nl)[k]
            == text.subrange(p, p + nl)[k] by {
            assert(t2[(p + k) + d] == text[p + k]);
        }
        assert(t2.subrange(p + d, p + d + nl) =~= text.subrange(p, p + nl));
        assert forall|j: int| 0 <= j < p + d implies #[trigger] t2.subrange(j, j + nl) != nd by {
            if j + nl <= a {
                assert(t2.subrange(j, j + nl) =~= text.subrange(j, j + nl));
            } else if j >= a + m {
                assert forall|k: int| 0 <= k < nl implies #[trigger] t2.subrange(j, j + nl)[k]
                    == text.subrange(j - d, j - d + nl)[k] by {
                    assert(t2[(j - d + k) + d] == text[j - d + k]);
                }
                assert(t2.subrange(j, j + nl) =~= text.subrange(j - d, j - d + nl));
                assert(text.subrange(j - d, j - d + nd.len()) != nd);
            }
        }
    }
    lemma_find_sub_at(t2, nd, p2);
    // the scan of the fixed text
    lemma_fold_prefix(text, t2, p, p2, a, a);
    let st = match loc_fold(text, p, a) {
        LocScan::Go(st) => st,
        LocScan::Stop(_) => arbitrary(),
    };
    if p < a {
        lemma_fold_entry_open(text, p, a);
    }
    lemma_fold_in_string(text, p, a, b, b);
    lemma_fold_in_string(t2, p2, a, a + m, a + m);
    lemma_loc_fold_range(text, p, a);
    assert(st.stack.map_values(|x: int| shift_pos(x, a, d)) =~= st.stack);
    assert(shift_state(st, a, d) == st);
    assert(b + d == a + m);
    lemma_fold_shift(text, t2, p, p2, a, b, d, text.len() as int);
    assert(loc_fold(t2, p2, t2.len() as int) == LocScan::Stop(Some((s, e + d))));
    assert(locate_spec(t2, url) == Some((s, e + d)));
    // the value read back
    lemma_find_sha_replaced(slice, new);
    assert(t2.subrange(s, e + d) =~= slice.subrange(0, vs) + new + slice.subrange(ve, slice.len() as int));
    assert(t2.subrange(s, e + d).subrange(vs, vs + m) =~= new);
    assert(t2.subrange(s + vs, s + vs + m) =~= new);
}


// ------------------------------------------------------------ adding a field

/// `rfind_non_ws` finds the last character that is not whitespace.
proof fn lemma_rfind_non_ws(s: Seq<char>)
    ensures
        -1 <= rfind_non_ws(s) < s.len(),
        rfind_non_ws(s) >= 0 ==> !is_ws(s[rfind_non_ws(s)]),
        forall|j: int| rfind_non_ws(s) < j < s.len() ==> is_ws(#[trigger] s[j]),
    decreases s.len(),
{
    if s.len() > 0 && is_ws(s.last()) {
        lemma_rfind_non_ws(s.drop_last());
        assert forall|j: int| rfind_non_ws(s) < j < s.len() implies is_ws(#[trigger] s[j]) by {
            if j < s.len() - 1 {
                assert(s[j] == s.drop_last()[j]);
            }
        }
    }
}

/// `leading_ws` is whitespace.
proof fn lemma_leading_ws_is_ws(s: Seq<char>)
    ensures
        forall|i: int| 0 <= i < leading_ws(s).len() ==> is_ws(#[trigger] leading_ws(s)[i]),
    decreases s.len(),
{
    if s.len() > 0 && is_ws(s[0]) {
        lemma_leading_ws_is_ws(s.drop_first());
        assert forall|i: int| 0 <= i < leading_ws(s).len() implies is_ws(#[trigger] leading_ws(s)[i]) by {
            if i > 0 {
                assert(leading_ws(s)[i] == leading_ws(s.drop_first())[i - 1]);
            }
        }
    }
}

/// Outside strings, characters other than quotes and braces leave the
/// scanner as it was.
proof fn lemma_fold_neutral(t: Seq<char>, p: int, a: int, b: int, n: int)
    requires
        0 <= a <= n <= b <= t.len(),
        loc_fold(t, p, a) matches LocScan::Go(st) && !st.in_string && !st.escape
            && st.entry_open.is_some(),
        forall|i: int| a <= i < b ==> t[i] != '"' && t[i] != '{' && t[i] != '}',
    ensures
        loc_fold(t, p, n) == loc_fold(t, p, a),
    decreases n,
{
    if n > a {
        lemma_fold_neutral(t, p, a, b, n - 1);
    }
}

/// Outside strings, a quoted run free of quotes and backslashes leaves the
/// scanner as it was.
proof fn lemma_fold_quoted(t: Seq<char>, p: int, a: int, b: int)
    requires
        0 <= a < b < t.len(),
        loc_fold(t, p, a) matches LocScan::Go(st) && !st.in_string && !st.escape
            && st.entry_open.is_some(),
        t[a] == '"',
        t[b] == '"',
        forall|i: int| a < i < b ==> t[i] != '"' && t[i] != '\\',
    ensures
        loc_fold(t, p, b + 1) == loc_fold(t, p, a),
{
    lemma_fold_in_string(t, p, a + 1, b, b);
}

/// The entry's `{` comes before the needle.
proof fn lemma_fold_entry_before_needle(t: Seq<char>, p: int, n: int)
    requires
        0 <= p,
        0 <= n <= t.len(),
    ensures
        match loc_fold(t, p, n) {
            LocScan::Go(st) => (n <= p ==> st.entry_open.is_none()) && (st.entry_open matches Some(
                o,
            ) ==> o < p),
            LocScan::Stop(Some((x, _))) => x < p,
            LocScan::Stop(None) => true,
        },
    decreases n,
{
    if n > 0 {
        lemma_fold_entry_before_needle(t, p, n - 1);
        if n - 1 > p {
            lemma_fold_entry_open(t, p, n - 1);
        }
        lemma_loc_fold_range(t, p, n - 1);
        match loc_fold(t, p, n - 1) {
            LocScan::Go(st) => {
                if st.stack.len() > 0 {
                    assert(st.stack.last() == st.stack[st.stack.len() - 1]);
                }
            },
            _ => {},
        }
    }
}

/// Adding `x"sha256": "<new>"` to an entry without a `"sha256":` key, where
/// `x` starts a new field, gives an entry whose value is `new`.
proof fn lemma_find_sha_added(e: Seq<char>, k: int, x: Seq<char>, new: Seq<char>)
    requires
        0 <= k <= e.len(),
        find_sub(e, sha_key()) is None,
        x.len() > 0,
        x[0] == ',' || x[0] == '\n',
        forall|i: int| 0 <= i < x.len() ==> x[i] != '"',
        forall|i: int| 0 <= i < new.len() ==> new[i] != '"',
    ensures
        find_sha_spec(
            e.subrange(0, k) + (x + "\"sha256\": \""@ + new + "\""@) + e.subrange(k, e.len() as int),
        ) == Some((k + x.len() + 11, k + x.len() + 11 + new.len())),
{
    reveal_strlit("\"sha256\":");
    reveal_strlit("\"sha256\": \"");
    reveal_strlit("\"");
    let lit = "\"sha256\": \""@;
    let ins = x + lit + new + "\""@;
    let e2 = e.subrange(0, k) + ins + e.subrange(k, e.len() as int);
    let kx = k + x.len();
    assert(ins.len() == x.len() + 12 + new.len());
    assert forall|i: int| 0 <= i < k implies e2[i] == e[i] by {}
    assert forall|i: int| 0 <= i < x.len() implies e2[k + i] == x[i] by {}
    assert forall|i: int| 0 <= i < 11 implies e2[kx + i] == lit[i] by {}
    assert forall|i: int| 0 <= i < new.len() implies e2[kx + 11 + i] == new[i] by {}
    assert(e2[kx + 11 + new.len()] == '"');
    lemma_find_sub_from(e, sha_key(), 0);
    assert(e2.subrange(kx, kx + 9) =~= sha_key());
    assert forall|j: int| 0 <= j < kx implies #[trigger] e2.subrange(j, j + sha_key().len())
        != sha_key() by {
        if j + 9 <= k {
            assert(e2.subrange(j, j + 9) =~= e.subrange(j, j + 9));
            assert(e.subrange(j, j + sha_key().len()) != sha_key());
        } else if j >= k {
            assert(e2.subrange(j, j + 9)[0] == x[j - k]);
        } else {
            assert(e2.subrange(j, j + 9)[k - j] == x[0]);
        }
    }
    lemma_find_sub_at(e2, sha_key(), kx);
    let after = e2.subrange(kx, e2.len() as int);
    assert forall|j: int| 0 <= j < 8 implies after[j] != ':' by {
        assert(after[j] == lit[j]);
    }
    assert(after[8] == lit[8]);
    lemma_find_char_at(after, ':', 8);
    assert(after[0] == lit[0]);
    lemma_find_char_at(after, '"', 0);
    let after_colon = after.subrange(9, after.len() as int);
    assert(after_colon[0] == lit[9]);
    assert(after_colon[1] == lit[10]);
    lemma_find_char_at(after_colon, '"', 1);
    let rest = e2.subrange(kx + 11, e2.len() as int);
    assert forall|j: int| 0 <= j < new.len() implies rest[j] != '"' by {
        assert(rest[j] == new[j]);
    }
    assert(rest[new.len() as int] == '"');
    lemma_find_char_at(rest, '"', new.len() as int);
}


/// The scanner passes over an added `x"sha256": "<new>"` field (outside any
/// string, in an entry already open) and comes out as it went in.
proof fn lemma_fold_over_added_field(t: Seq<char>, p: int, a: int, x: Seq<char>, new: Seq<char>)
    requires
        0 <= p < a,
        a + x.len() + 12 + new.len() <= t.len(),
        loc_fold(t, p, a) matches LocScan::Go(st) && !st.in_string && !st.escape,
        forall|i: int| 0 <= i < x.len() ==> t[a + i] == x[i],
        forall|i: int| 0 <= i < 11 ==> t[a + x.len() + i] == "\"sha256\": \""@[i],
        forall|i: int| 0 <= i < new.len() ==> t[a + x.len() + 11 + i] == new[i],
        t[a + x.len() + 11 + new.len()] == '"',
        forall|i: int| 0 <= i < x.len() ==> x[i] != '"' && x[i] != '{' && x[i] != '}',
        forall|i: int| 0 <= i < new.len() ==> new[i] != '"' && new[i] != '\\',
    ensures
        loc_fold(t, p, a + x.len() + 12 + new.len()) == loc_fold(t, p, a),
{
    reveal_strlit("\"sha256\": \"");
    let lit = "\"sha256\": \""@;
    let xl = x.len() as int;
    let m = new.len() as int;
    lemma_fold_entry_open(t, p, a);
    assert forall|i: int| a <= i < a + xl implies t[i] != '"' && t[i] != '{' && t[i] != '}' by {
        assert(t[a + (i - a)] == x[i - a]);
    }
    lemma_fold_neutral(t, p, a, a + xl, a + xl);
    assert forall|i: int| a + xl < i < a + xl + 7 implies t[i] != '"' && t[i] != '\\' by {
        assert(t[a + xl + (i - a - xl)] == lit[i - a - xl]);
    }
    assert(t[a + xl] == lit[0]);
    assert(t[a + xl + 7] == lit[7]);
    lemma_fold_quoted(t, p, a + xl, a + xl + 7);
    assert(t[a + xl + 8] == lit[8]);
    assert(t[a + xl + 9] == lit[9]);
    lemma_fold_neutral(t, p, a + xl + 8, a + xl + 10, a + xl + 10);
    assert(t[a + xl + 10] == lit[10]);
    assert forall|i: int| a + xl + 10 < i < a + xl + 11 + m implies t[i] != '"' && t[i] != '\\' by {
        assert(t[a + xl + 11 + (i - a - xl - 11)] == new[i - a - xl - 11]);
    }
    lemma_fold_quoted(t, p, a + xl + 10, a + xl + 11 + m);
}

/// The shape `--fix` relies on to add a missing `sha256` to the entry for
/// `url`: the entry has no `"sha256":` key, its `"manifest_url": "<url>"`
/// lies inside it, and the scanner is outside any string just after the
/// entry's last field, where the new field goes. A well-formed index has all
/// three.
pub open spec fn field_addable(text: Seq<char>, url: Seq<char>) -> bool {
    match find_sub(text, url_needle(url)) {
        None => false,
        Some(p) => match locate_spec(text, url) {
            None => false,
            Some((s, e)) => {
                &&& find_sub(text.subrange(s, e), sha_key()) is None
                &&& p + url_needle(url).len() < e
                &&& loc_fold(text, p, rfind_non_ws(text.subrange(0, e - 1)) + 1) matches LocScan::Go(
                    st,
                ) && !st.in_string && !st.escape
            },
        },
    }
}

/// After `--fix` adds a missing `sha256` holding a hexadecimal digest,
/// reading the entry back gives that digest, so a second run finds nothing
/// to fix.
#[verifier::spinoff_prover]
#[verifier::rlimit(40)]
pub proof fn added_checksum_reads_back(text: Seq<char>, url: Seq<char>, new: Seq<char>)
    requires
        field_addable(text, url),
        hex_digits(new),
        !url.contains('"'),
    ensures
        apply_fix_spec(text, url, new) matches Some(fixed) && entry_sha(fixed, url) == Some(new),
{
    reveal_strlit("\"manifest_url\": \"");
    reveal_strlit("\"");
    reveal_strlit("\"sha256\": \"");
    let nd = url_needle(url);
    let nl = nd.len() as int;
    assert(nl == 18 + url.len());
    let p = find_sub(text, nd).unwrap();
    lemma_find_sub_from(text, nd, 0);
    lemma_locate_range(text, url);
    let (s, e) = locate_spec(text, url).unwrap();
    let slice = text.subrange(s, e);
    assert(find_sha_spec(slice).is_none());
    let pre = text.subrange(0, e - 1);
    lemma_rfind_non_ws(pre);
    let lfe = rfind_non_ws(pre);
    assert(text[p + nl - 1] == text.subrange(p, p + nl)[nl - 1]);
    assert(pre[p + nl - 1] == text[p + nl - 1]);
    if lfe < p + nl - 1 {
        assert(is_ws(pre[p + nl - 1]));
    }
    let a = lfe + 1;
    let m = new.len() as int;
    let needs_comma = text[lfe] != ',';
    let line_start = crate::sources::rfind_char(text.subrange(0, lfe), '\n') + 1;
    let ind = leading_ws(text.subrange(line_start, text.len() as int));
    lemma_leading_ws_is_ws(text.subrange(line_start, text.len() as int));
    let x = (if needs_comma {
        seq![',']
    } else {
        seq![]
    }) + seq!['\n'] + ind;
    let lit = "\"sha256\": \""@;
    let ins = x + lit + new + "\""@;
    let t2 = text.subrange(0, a) + ins + text.subrange(a, text.len() as int);
    assert(apply_fix_spec(text, url, new) == Some(t2));
    let xl = x.len() as int;
    let d = ins.len() as int;
    assert(d == xl + 12 + m);
    assert(t2.len() == text.len() + d);
    assert forall|i: int| 0 <= i < xl implies x[i] != '"' && x[i] != '{' && x[i] != '}' by {
        if i >= x.len() - ind.len() {
            assert(x[i] == ind[i - (x.len() - ind.len())]);
            assert(is_ws(ind[i - (x.len() - ind.len())]));
        }
    }
    assert(x[0] == ',' || x[0] == '\n');
    assert forall|i: int| 0 <= i < m implies new[i] != '"' && new[i] != '\\' by {
        assert(is_hex(new[i]));
    }
    assert forall|i: int| 0 <= i < a implies t2[i] == text[i] by {}
    assert forall|i: int| a <= i < text.len() implies t2[i + d] == #[trigger] text[i] by {}
    assert forall|i: int| 0 <= i < xl implies t2[a + i] == x[i] by {}
    assert forall|i: int| 0 <= i < 11 implies t2[a + xl + i] == lit[i] by {}
    assert forall|i: int| 0 <= i < m implies t2[a + xl + 11 + i] == new[i] by {}
    assert(t2[a + xl + 11 + m] == '"');
    assert(t2.subrange(0, a) =~= text.subrange(0, a));
    // the needle is where it was
    assert(t2.subrange(p, p + nl) =~= text.subrange(p, p + nl));
    assert forall|j: int| 0 <= j < p implies #[trigger] t2.subrange(j, j + nl) != nd by {
        assert(t2.subrange(j, j + nl) =~= text.subrange(j, j + nl));
    }
    lemma_find_sub_at(t2, nd, p);
    // the scan of the new text: the same up to the insertion, unchanged by
    // it, and shifted after it
    lemma_fold_prefix(text, t2, p, p, a, a);
    let st = match loc_fold(text, p, a) {
        LocScan::Go(st) => st,
        LocScan::Stop(_) => arbitrary(),
    };
    lemma_fold_over_added_field(t2, p, a, x, new);
    assert(loc_fold(t2, p, a + d) == LocScan::Go(st));
    lemma_loc_fold_range(text, p, a);
    assert(st.stack.map_values(|y: int| shift_pos(y, a, d)) =~= st.stack);
    assert(shift_state(st, a, d) == st);
    lemma_fold_shift(text, t2, p, p, a, a, d, text.len() as int);
    lemma_fold_entry_before_needle(text, p, text.len() as int);
    assert(loc_fold(t2, p, t2.len() as int) == LocScan::Stop(Some((s, e + d))));
    assert(locate_spec(t2, url) == Some((s, e + d)));
    // the value read back
    lemma_find_sha_added(slice, a - s, x, new);
    assert(t2.subrange(s, e + d) =~= slice.subrange(0, a - s) + ins + slice.subrange(
        a - s,
        slice.len() as int,
    ));
    assert(t2.subrange(s, e + d).subrange(a - s + xl + 11, a - s + xl + 11 + m) =~= new);
    assert(t2.subrange(s + (a - s + xl + 11), s + (a - s + xl + 11 + m)) =~= new);
}


/// `--fix` is idempotent: applying the same checksum fix to its own result
/// changes nothing, whether the fix replaced a stale value or added a
/// missing one (on the well-formed entries the two read-back laws describe).
pub proof fn fix_is_idempotent(text: Seq<char>, url: Seq<char>, new: Seq<char>)
    requires
        (value_fixable(text, url) && (entry_sha(text, url) matches Some(old) && !old.contains('\\')))
            || field_addable(text, url),
        hex_digits(new),
        !url.contains('"'),
    ensures
        apply_fix_spec(text, url, new) matches Some(fixed) && apply_fix_spec(fixed, url, new) == Some(fixed),
{
    if field_addable(text, url) {
        added_checksum_reads_back(text, url, new);
    } else {
        replaced_checksum_reads_back(text, url, new);
    }
    let fixed = apply_fix_spec(text, url, new).unwrap();
    fix_keeps_current_checksum(fixed, url, new);
}


/// Every entry whose manifest was read records that manifest's checksum.
pub open spec fn checksums_current(entries: Seq<EntryInput>) -> bool {
    forall|i: int|
        0 <= i < entries.len() ==> ((#[trigger] entries[i]).read matches EntryRead::Read { actual_sha, .. }
            ==> (entries[i].entry.sha256 matches Some(x) && x@ == actual_sha@))
}

proof fn lemma_fold_no_fixes(entries: Seq<EntryInput>, n: int, fix: bool, root: Seq<char>)
    requires
        checksums_current(entries),
        n <= entries.len(),
    ensures
        lint_fold(entries, n, fix, root).1 == Seq::<FixView>::empty(),
    decreases n,
{
    if n > 0 {
        lemma_fold_no_fixes(entries, n - 1, fix, root);
        let inp = entries[n - 1];
        assert(entry_outcome(inp, seen_before(entries, n - 1), fix, root).1 == Seq::<FixView>::empty());
        assert(Seq::<FixView>::empty() + Seq::<FixView>::empty() =~= Seq::<FixView>::empty());
    }
}

/// A second `lint --tap --fix` over an index whose checksums `--fix` has
/// made current finds nothing to fix: when every manifest that was read has
/// its checksum recorded in its entry, the fix list is empty.
pub proof fn current_checksums_need_no_fix(
    index_scope: Seq<char>,
    version: u32,
    entries: Seq<EntryInput>,
    fix: bool,
    root: Seq<char>,
)
    requires
        checksums_current(entries),
    ensures
        lint_tap_spec(index_scope, version, entries, fix, root).1 == Seq::<FixView>::empty(),
{
    lemma_fold_no_fixes(entries, entries.len() as int, fix, root);
}


// ------------------------------------------------------------ the entry found

proof fn lemma_fold_shape(t: Seq<char>, p: int, n: int)
    requires
        0 <= p,
        0 <= n <= t.len(),
    ensures
        match loc_fold(t, p, n) {
            LocScan::Go(st) => {
                &&& forall|k: int|
                    0 <= k < st.stack.len() ==> 0 <= #[trigger] st.stack[k] < n && t[st.stack[k]] == '{'
                &&& st.entry_open matches Some(o) ==> 0 <= o < n && t[o] == '{' && p < n
            },
            LocScan::Stop(Some((x, y))) => 0 <= x < y <= n && t[x] == '{' && t[y - 1] == '}' && p <= y - 1,
            LocScan::Stop(None) => true,
        },
    decreases n,
{
    if n > 0 {
        lemma_fold_shape(t, p, n - 1);
        match loc_fold(t, p, n - 1) {
            LocScan::Go(st) => {
                if st.stack.len() > 0 {
                    assert(st.stack.last() == st.stack[st.stack.len() - 1]);
                }
                match loc_step(st, t[n - 1], n - 1, p) {
                    LocScan::Go(st2) => {
                        assert forall|k: int| 0 <= k < st2.stack.len() implies 0 <= #[trigger] st2.stack[k] < n
                            && t[st2.stack[k]] == '{' by {
                            if k < st.stack.len() {
                                assert(st2.stack[k] == st.stack[k]);
                            }
                        }
                    },
                    _ => {},
                }
            },
            _ => {},
        }
    }
}

/// What `locate_entry` finds is a JSON object around the needle: the text
/// from a `{` to a `}`, with the first `"manifest_url": "<url>"` starting
/// inside it.
pub proof fn located_entry_encloses_needle(text: Seq<char>, url: Seq<char>)
    ensures
        locate_spec(text, url) matches Some((s, e)) ==> {
            &&& find_sub(text, url_needle(url)) matches Some(p) && s < p < e
            &&& 0 <= s < e <= text.len()
            &&& text[s] == '{'
            &&& text[e - 1] == '}'
        },
{
    match find_sub(text, url_needle(url)) {
        None => {},
        Some(p) => {
            lemma_find_sub_from(text, url_needle(url), 0);
            lemma_fold_shape(text, p, text.len() as int);
            lemma_fold_entry_before_needle(text, p, text.len() as int);
        },
    }
}


/// Fixes are applied one after another, each to the text the earlier ones
/// left: applying `a` and then `b` to a text is applying `a` to it and then
/// `b` to the result, and a fix in `a` that cannot be applied stops there.
pub proof fn fixes_apply_in_turn(text: Seq<char>, a: Seq<ChecksumFix>, b: Seq<ChecksumFix>)
    ensures
        apply_fixes_spec(text, a + b) == match apply_fixes_spec(text, a) {
            Ok(t) => apply_fixes_spec(t, b),
            Err(u) => Err(u),
        },
    decreases b.len(),
{
    if b.len() == 0 {
        assert(a + b =~= a);
    } else {
        fixes_apply_in_turn(text, a, b.drop_last());
        assert((a + b).drop_last() =~= a + b.drop_last());
        assert((a + b).last() == b.last());
    }
}

/// The last fix of a list reads back from the rewritten index, whether it
/// replaces a stale value or adds a missing one, given the shape that fix
/// relies on in the text the earlier fixes left.
pub proof fn last_fix_reads_back(text: Seq<char>, fixes: Seq<ChecksumFix>)
    requires
        fixes.len() > 0,
        apply_fixes_spec(text, fixes.drop_last()) matches Ok(t) && ({
            let url = fixes.last().manifest_url@;
            ||| value_fixable(t, url) && (entry_sha(t, url) matches Some(old) && !old.contains('\\'))
            ||| field_addable(t, url)
        }),
        hex_digits(fixes.last().new@),
        !fixes.last().manifest_url@.contains('"'),
    ensures
        apply_fixes_spec(text, fixes) matches Ok(out) && entry_sha(out, fixes.last().manifest_url@) == Some(
            fixes.last().new@,
        ),
{
    let t = apply_fixes_spec(text, fixes.drop_last())->Ok_0;
    let url = fixes.last().manifest_url@;
    if value_fixable(t, url) && (entry_sha(t, url) matches Some(old) && !old.contains('\\')) {
        replaced_checksum_reads_back(t, url, fixes.last().new@);
    } else {
        added_checksum_reads_back(t, url, fixes.last().new@);
    }
}

} // verus!
