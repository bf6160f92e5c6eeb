//! Community taps: extra indices outside the curated registry, named
//! `user/repo` like a Homebrew tap.
use vstd::prelude::*;

use crate::text::{eq_exec, chars_of, find_char, find_char_from, lemma_find_char, starts_with, starts_with_exec, string_of, extend};

verus! {

/// The persisted list of configured taps (`taps.toml`).
pub struct TapsConfig {
    pub taps: Vec<Tap>,
}

pub struct Tap {
    pub name: String,
    pub url: String,
}

impl Default for TapsConfig {
    fn default() -> (c: Self)
        ensures
            c.taps@.len() == 0,
    {
        TapsConfig { taps: Vec::new() }
    }
}

/// A character permitted in a `user` or `repo` slug: `[a-z0-9_.-]`.
pub open spec fn is_slug_char(c: char) -> bool {
    ||| ('a' <= c && c <= 'z')
    ||| ('0' <= c && c <= '9')
    ||| c == '-'
    ||| c == '_'
    ||| c == '.'
}

/// A character permitted in a branch name spliced into a tap URL:
/// `[a-zA-Z0-9_./-]`.
pub open spec fn is_branch_char(c: char) -> bool {
    is_slug_char(c) || ('A' <= c && c <= 'Z') || c == '/'
}

/// Exactly one `/`, with a non-empty part on each side.
pub open spec fn tap_name_shape(name: Seq<char>) -> bool {
    let k = find_char(name, '/');
    &&& 0 < k < name.len() - 1
    &&& !name.subrange(k + 1, name.len() as int).contains('/')
}

/// Every character other than the separating `/` is a slug character.
pub open spec fn tap_name_chars(name: Seq<char>) -> bool {
    forall|i: int| 0 <= i < name.len() && name[i] != '/' ==> is_slug_char(#[trigger] name[i])
}

#[derive(Debug, Clone, Copy, PartialEq, Eq, Structural)]
pub enum TapNameError {
    /// `tap name '<name>' must be in `user/repo` form`
    NotUserRepo,
    /// `tap name '<name>' contains characters outside [a-z0-9_.-]`
    BadChars,
}

#[derive(Debug, Clone, Copy, PartialEq, Eq, Structural)]
pub enum BranchError {
    /// `branch is empty after '@' in '<arg>'`
    Empty,
    /// `branch '<branch>' contains characters outside [a-zA-Z0-9_./-]`
    BadChars,
}

pub fn is_slug_char_exec(c: char) -> (b: bool)
    ensures
        b == is_slug_char(c),
{
    ('a' <= c && c <= 'z') || ('0' <= c && c <= '9') || c == '-' || c == '_' || c == '.'
}

/// Validate that `name` is in `user/repo` form: exactly one `/`, both halves
/// non-empty and made of the `[a-z0-9_.-]` characters GitHub permits in slugs.
pub fn validate_tap_name(name: &str) -> (r: Result<(), TapNameError>)
    ensures
        r == (if !tap_name_shape(name@) {
            Err(TapNameError::NotUserRepo)
        } else if !tap_name_chars(name@) {
            Err(TapNameError::BadChars)
        } else {
            Ok(())
        }),
{
    let v = chars_of(name);
    let k = find_char_from(&v, 0, '/');
    assert(v@.subrange(0, v.len() as int) =~= v@);
    if k == 0 || k >= v.len() || k + 1 >= v.len() {
        return Err(TapNameError::NotUserRepo);
    }
    let k2 = find_char_from(&v, k + 1, '/');
    proof {
        let rest = v@.subrange(k + 1, v.len() as int);
        lemma_find_char(rest, '/');
        if k2 == v.len() {
            assert forall|j: int| 0 <= j < rest.len() implies rest[j] != '/' by {}
            assert(!rest.contains('/'));
        } else {
            assert(rest[k2 - k - 1] == '/');
        }
    }
    if k2 < v.len() {
        return Err(TapNameError::NotUserRepo);
    }
    assert(tap_name_shape(name@));
    let mut i: usize = 0;
    while i < v.len()
        invariant
            i <= v.len(),
            v@ == name@,
            tap_name_shape(name@),
            forall|j: int| 0 <= j < i && v@[j] != '/' ==> is_slug_char(#[trigger] v@[j]),
        decreases v.len() - i,
    {
        if v[i] != '/' && !is_slug_char_exec(v[i]) {
            return Err(TapNameError::BadChars);
        }
        i += 1;
    }
    Ok(())
}

/// `https://raw.githubusercontent.com/<name>/<branch>/index.json`
pub open spec fn url_for_branch_spec(name: Seq<char>, branch: Seq<char>) -> Seq<char> {
    "https://raw.githubusercontent.com/"@ + name + "/"@ + branch + "/index.json"@
}

/// Index URL for a `user/repo` tap on a specific branch.
pub fn url_for_branch(name: &str, branch: &str) -> (u: String)
    ensures
        u@ == url_for_branch_spec(name@, branch@),
{
    let mut v = chars_of("https://raw.githubusercontent.com/");
    extend(&mut v, &chars_of(name));
    extend(&mut v, &chars_of("/"));
    extend(&mut v, &chars_of(branch));
    extend(&mut v, &chars_of("/index.json"));
    string_of(&v)
}

/// The default index URL for a `user/repo` GitHub tap: the `main` branch.
pub fn default_url(name: &str) -> (u: String)
    ensures
        u@ == url_for_branch_spec(name@, "main"@),
{
    url_for_branch(name, "main")
}

/// Every character of a branch is a branch character.
pub open spec fn valid_branch(branch: Seq<char>) -> bool {
    forall|i: int| 0 <= i < branch.len() ==> is_branch_char(#[trigger] branch[i])
}

fn validate_branch(branch: &Vec<char>) -> (r: bool)
    ensures
        r == valid_branch(branch@),
{
    let mut i: usize = 0;
    while i < branch.len()
        invariant
            i <= branch.len(),
            forall|j: int| 0 <= j < i ==> is_branch_char(#[trigger] branch@[j]),
        decreases branch.len() - i,
    {
        if !(is_slug_char_exec(branch[i]) || ('A' <= branch[i] && branch[i] <= 'Z') || branch[i] == '/') {
            return false;
        }
        i += 1;
    }
    true
}

/// Split `user/repo@branch` at its first `@`: the tap name and the branch.
pub open spec fn split_branch_spec(arg: Seq<char>) -> Result<(Seq<char>, Option<Seq<char>>), BranchError> {
    let k = find_char(arg, '@');
    if k >= arg.len() {
        Ok((arg, None))
    } else {
        let branch = arg.subrange(k + 1, arg.len() as int);
        if branch.len() == 0 {
            Err(BranchError::Empty)
        } else if !valid_branch(branch) {
            Err(BranchError::BadChars)
        } else {
            Ok((arg.subrange(0, k), Some(branch)))
        }
    }
}

pub open spec fn split_view(r: Result<(&str, Option<&str>), BranchError>) -> Result<(Seq<char>, Option<Seq<char>>), BranchError> {
    match r {
        Ok((a, Some(b))) => Ok((a@, Some(b@))),
        Ok((a, None)) => Ok((a@, None)),
        Err(e) => Err(e),
    }
}

/// Split a `user/repo@branch` argument into the tap name and an optional
/// branch. The first `@` is the boundary, so `user/repo@release/v1` keeps the
/// `/` in the branch. An empty branch (`user/repo@`) is an error.
pub fn split_branch(arg: &str) -> (r: Result<(&str, Option<&str>), BranchError>)
    ensures
        split_view(r) == split_branch_spec(arg@),
{
    let v = chars_of(arg);
    let k = find_char_from(&v, 0, '@');
    assert(v@.subrange(0, v.len() as int) =~= v@);
    if k == v.len() {
        return Ok((arg, None));
    }
    if k + 1 == v.len() {
        assert(v@.subrange(k + 1, v.len() as int).len() == 0);
        return Err(BranchError::Empty);
    }
    let branch = arg.substring_char(k + 1, v.len());
    if !validate_branch(&chars_of(branch)) {
        return Err(BranchError::BadChars);
    }
    Ok((arg.substring_char(0, k), Some(branch)))
}

/// `<tap_name>/`, the prefix of every block installed from the tap.
pub open spec fn belongs_spec(block_name: Seq<char>, tap_name: Seq<char>) -> bool {
    starts_with(block_name, tap_name + seq!['/'])
}

/// Whether a managed block's `name` was installed from the tap `tap_name`;
/// the trailing `/` keeps `alice/recipes` from matching `alice/recipes-extra`.
pub fn block_belongs_to_tap(block_name: &str, tap_name: &str) -> (b: bool)
    ensures
        b == belongs_spec(block_name@, tap_name@),
{
    let mut p = chars_of(tap_name);
    p.push('/');
    assert(p@ =~= tap_name@ + seq!['/']);
    starts_with_exec(&chars_of(block_name), &p)
}


// ------------------------------------------------------------------ tap add

pub struct TapView {
    pub name: Seq<char>,
    pub url: Seq<char>,
}

pub open spec fn taps_view(ts: Seq<Tap>) -> Seq<TapView> {
    ts.map_values(|t: Tap| TapView { name: t.name@, url: t.url@ })
}

/// The first configured tap named `name`.
pub open spec fn first_tap(ts: Seq<TapView>, name: Seq<char>) -> Option<TapView>
    decreases ts.len(),
{
    if ts.len() == 0 {
        None
    } else if ts[0].name == name {
        Some(ts[0])
    } else {
        first_tap(ts.drop_first(), name)
    }
}

/// The index URL `jtr tap add` records: an explicit `--url` wins over an
/// `@branch`, which wins over the default `main` branch.
pub fn tap_url(name: &str, branch: Option<&str>, url_override: Option<&str>) -> (u: String)
    ensures
        u@ == match url_override {
            Some(o) => o@,
            None => match branch {
                Some(b) => url_for_branch_spec(name@, b@),
                None => url_for_branch_spec(name@, "main"@),
            },
        },
{
    match url_override {
        Some(o) => string_of(&chars_of(o)),
        None => match branch {
            Some(b) => url_for_branch(name, b),
            None => default_url(name),
        },
    }
}

/// `tap '<name>' already configured with a different URL (<existing_url>)`
#[derive(Debug)]
pub struct AddTapError {
    pub existing_url: String,
}

/// Add the tap `name` at `url`: `Ok(None)` when it is already configured
/// with that URL, an error when it is configured with another, and otherwise
/// the configuration with the tap appended.
pub fn add_tap(config: &TapsConfig, name: &str, url: &str) -> (r: Result<Option<TapsConfig>, AddTapError>)
    ensures
        match first_tap(taps_view(config.taps@), name@) {
            Some(t) => if t.url == url@ {
                r matches Ok(None)
            } else {
                r matches Err(e) && e.existing_url@ == t.url
            },
            None => r matches Ok(Some(c)) && taps_view(c.taps@) == taps_view(config.taps@).push(
                TapView { name: name@, url: url@ },
            ),
        },
{
    let ts = &config.taps;
    let ghost tv = taps_view(ts@);
    let n = chars_of(name);
    let mut i: usize = 0;
    assert(tv.subrange(0, tv.len() as int) =~= tv);
    while i < ts.len() && !eq_exec(&chars_of(ts[i].name.as_str()), &n)
        invariant
            i <= ts@.len(),
            tv == taps_view(ts@),
            n@ == name@,
            first_tap(tv, name@) == first_tap(tv.subrange(i as int, tv.len() as int), name@),
        decreases ts.len() - i,
    {
        let ghost r = tv.subrange(i as int, tv.len() as int);
        assert(r.drop_first() =~= tv.subrange(i + 1, tv.len() as int));
        i += 1;
    }
    if i < ts.len() {
        if eq_exec(&chars_of(ts[i].url.as_str()), &chars_of(url)) {
            return Ok(None);
        }
        return Err(AddTapError { existing_url: string_of(&chars_of(ts[i].url.as_str())) });
    }
    let mut out: Vec<Tap> = Vec::new();
    let mut j: usize = 0;
    while j < ts.len()
        invariant
            j <= ts@.len(),
            tv == taps_view(ts@),
            out@.len() == j,
            taps_view(out@) == tv.subrange(0, j as int),
        decreases ts.len() - j,
    {
        let t = Tap { name: string_of(&chars_of(ts[j].name.as_str())), url: string_of(&chars_of(ts[j].url.as_str())) };
        let ghost before = out@;
        assert(tv[j as int] == TapView { name: t.name@, url: t.url@ });
        out.push(t);
        assert(out@ == before.push(t));
        assert forall|k: int| 0 <= k < j + 1 implies #[trigger] taps_view(out@)[k] == tv.subrange(0, j + 1)[k] by {
            if k < j {
                assert(out@[k] == before[k]);
                assert(taps_view(before)[k] == tv.subrange(0, j as int)[k]);
            }
        }
        assert(taps_view(out@) =~= tv.subrange(0, j + 1));
        j += 1;
    }
    out.push(Tap { name: string_of(&n), url: string_of(&chars_of(url)) });
    assert(taps_view(out@) =~= tv.push(TapView { name: name@, url: url@ }));
    Ok(Some(TapsConfig { taps: out }))
}

} // verus!
