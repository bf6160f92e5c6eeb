//! The curated registry plus every configured tap, and how a recipe name a
//! user typed (or a block name) finds its source.
use vstd::prelude::*;

use crate::manifest::{IndexEntry, IndexFile};
use crate::text::{chars_of, eq_exec, extend, slice_of, string_of};

verus! {

/// Label assigned to recipes that come from the project's curated index, as
/// opposed to a tap. Curated blocks carry no prefix; tap blocks carry
/// `<tap-name>/`.
pub const CURATED: &'static str = "curated";

pub open spec fn curated() -> Seq<char> {
    "curated"@
}

/// One loaded registry index, tagged with the source label that produced it.
pub struct Source {
    pub label: String,
    pub index: IndexFile,
}

/// The curated index plus every configured tap that loaded.
pub struct Sources {
    pub sources: Vec<Source>,
}

/// The block name `install` writes for a recipe: the bare name for curated
/// recipes, `<label>/<name>` for tap recipes.
pub open spec fn block_name_spec(label: Seq<char>, recipe: Seq<char>) -> Seq<char> {
    if label == curated() {
        recipe
    } else {
        label + seq!['/'] + recipe
    }
}

pub fn block_name_for(source_label: &str, recipe_name: &str) -> (out: String)
    ensures
        out@ == block_name_spec(source_label@, recipe_name@),
{
    let label = chars_of(source_label);
    if eq_exec(&label, &chars_of(CURATED)) {
        return string_of(&chars_of(recipe_name));
    }
    let mut v = label;
    v.push('/');
    extend(&mut v, &chars_of(recipe_name));
    string_of(&v)
}

/// Number of `c` in `s`.
pub open spec fn count_char(s: Seq<char>, c: char) -> nat
    decreases s.len(),
{
    if s.len() == 0 {
        0
    } else {
        count_char(s.drop_last(), c) + if s.last() == c {
            1nat
        } else {
            0nat
        }
    }
}

/// Index of the last `c` in `s`, or -1.
pub open spec fn rfind_char(s: Seq<char>, c: char) -> int
    decreases s.len(),
{
    if s.len() == 0 {
        -1
    } else if s.last() == c {
        s.len() - 1
    } else {
        rfind_char(s.drop_last(), c)
    }
}

/// Index of the first source labelled `label`, or `srcs.len()`.
pub open spec fn source_index(srcs: Seq<Source>, label: Seq<char>) -> int
    decreases srcs.len(),
{
    if srcs.len() == 0 {
        0
    } else if srcs[0].label@ == label {
        0
    } else {
        1 + source_index(srcs.drop_first(), label)
    }
}

/// Index of the first entry named `name`, or `es.len()`.
pub open spec fn entry_index(es: Seq<IndexEntry>, name: Seq<char>) -> int
    decreases es.len(),
{
    if es.len() == 0 {
        0
    } else if es[0].name@ == name {
        0
    } else {
        1 + entry_index(es.drop_first(), name)
    }
}

/// The entry named `recipe` in the source labelled `label`, by index.
pub open spec fn lookup(srcs: Seq<Source>, label: Seq<char>, recipe: Seq<char>) -> Option<(int, int)> {
    let si = source_index(srcs, label);
    if si >= srcs.len() {
        None
    } else {
        let es = srcs[si].index.recipes@;
        let ei = entry_index(es, recipe);
        if ei >= es.len() {
            None
        } else {
            Some((si, ei))
        }
    }
}

/// `recipe-name` looks in the curated index only; `user/repo/recipe` looks
/// in the tap `user/repo` only; any other shape finds nothing.
pub open spec fn find_spec(srcs: Seq<Source>, q: Seq<char>) -> Option<(int, int)> {
    let n = count_char(q, '/');
    if n == 2 {
        let k = rfind_char(q, '/');
        let tap = q.subrange(0, k);
        let recipe = q.subrange(k + 1, q.len() as int);
        if tap.len() == 0 || recipe.len() == 0 {
            None
        } else {
            lookup(srcs, tap, recipe)
        }
    } else if n == 0 {
        lookup(srcs, curated(), q)
    } else {
        None
    }
}

pub proof fn lemma_source_index_at(srcs: Seq<Source>, label: Seq<char>, k: int)
    requires
        0 <= k <= srcs.len(),
        forall|j: int| 0 <= j < k ==> (#[trigger] srcs[j]).label@ != label,
        k < srcs.len() ==> srcs[k].label@ == label,
    ensures
        source_index(srcs, label) == k,
    decreases srcs.len(),
{
    if srcs.len() > 0 && srcs[0].label@ != label {
        assert forall|j: int| 0 <= j < k - 1 implies (#[trigger] srcs.drop_first()[j]).label@ != label by {
            assert(srcs.drop_first()[j] == srcs[j + 1]);
        }
        lemma_source_index_at(srcs.drop_first(), label, k - 1);
    }
}

proof fn lemma_entry_index_at(es: Seq<IndexEntry>, name: Seq<char>, k: int)
    requires
        0 <= k <= es.len(),
        forall|j: int| 0 <= j < k ==> (#[trigger] es[j]).name@ != name,
        k < es.len() ==> es[k].name@ == name,
    ensures
        entry_index(es, name) == k,
    decreases es.len(),
{
    if es.len() > 0 && es[0].name@ != name {
        assert forall|j: int| 0 <= j < k - 1 implies (#[trigger] es.drop_first()[j]).name@ != name by {
            assert(es.drop_first()[j] == es[j + 1]);
        }
        lemma_entry_index_at(es.drop_first(), name, k - 1);
    }
}

pub proof fn lemma_rfind_found(s: Seq<char>, c: char)
    ensures
        count_char(s, c) > 0 ==> 0 <= rfind_char(s, c) < s.len(),
        rfind_char(s, c) >= -1,
        rfind_char(s, c) < s.len(),
    decreases s.len(),
{
    if s.len() > 0 {
        lemma_rfind_found(s.drop_last(), c);
    }
}

pub fn count_char_exec(s: &Vec<char>, c: char) -> (n: usize)
    ensures
        n == count_char(s@, c),
{
    let mut n: usize = 0;
    let mut i: usize = 0;
    assert(s@.subrange(0, 0) =~= Seq::<char>::empty());
    while i < s.len()
        invariant
            i <= s.len(),
            n <= i,
            n == count_char(s@.subrange(0, i as int), c),
        decreases s.len() - i,
    {
        assert(s@.subrange(0, i + 1).drop_last() =~= s@.subrange(0, i as int));
        if s[i] == c {
            n += 1;
        }
        i += 1;
    }
    assert(s@.subrange(0, s.len() as int) =~= s@);
    n
}

/// Index of the last `c`, if any.
pub fn rfind_char_exec(s: &Vec<char>, c: char) -> (k: Option<usize>)
    ensures
        match k {
            Some(i) => i == rfind_char(s@, c) && i < s.len(),
            None => rfind_char(s@, c) == -1,
        },
{
    let mut i = s.len();
    assert(s@.subrange(0, i as int) =~= s@);
    while i > 0 && s[i - 1] != c
        invariant
            i <= s.len(),
            rfind_char(s@.subrange(0, i as int), c) == rfind_char(s@, c),
        decreases i,
    {
        assert(s@.subrange(0, i as int).drop_last() =~= s@.subrange(0, i - 1));
        i -= 1;
    }
    if i == 0 {
        assert(s@.subrange(0, 0).len() == 0);
        None
    } else {
        Some(i - 1)
    }
}

impl Sources {
    fn source_index_exec(&self, label: &Vec<char>) -> (k: usize)
        ensures
            k == source_index(self.sources@, label@),
            k <= self.sources@.len(),
    {
        let mut k: usize = 0;
        while k < self.sources.len() && !eq_exec(&chars_of(self.sources[k].label.as_str()), label)
            invariant
                k <= self.sources@.len(),
                forall|j: int| 0 <= j < k ==> (#[trigger] self.sources@[j]).label@ != label@,
            decreases self.sources.len() - k,
        {
            k += 1;
        }
        proof {
            lemma_source_index_at(self.sources@, label@, k as int);
        }
        k
    }

    fn lookup_exec(&self, label: &Vec<char>, recipe: &Vec<char>) -> (r: Option<(usize, usize)>)
        ensures
            match r {
                Some((i, j)) => lookup(self.sources@, label@, recipe@) == Some((i as int, j as int)),
                None => lookup(self.sources@, label@, recipe@).is_none(),
            },
    {
        let si = self.source_index_exec(label);
        if si == self.sources.len() {
            return None;
        }
        let es = &self.sources[si].index.recipes;
        let mut k: usize = 0;
        while k < es.len() && !eq_exec(&chars_of(es[k].name.as_str()), recipe)
            invariant
                k <= es@.len(),
                forall|j: int| 0 <= j < k ==> (#[trigger] es@[j]).name@ != recipe@,
            decreases es.len() - k,
        {
            k += 1;
        }
        proof {
            lemma_entry_index_at(es@, recipe@, k as int);
        }
        if k == es.len() {
            None
        } else {
            Some((si, k))
        }
    }

    /// Positions (source, entry) of the recipe a qualified name refers to.
    pub fn find_index(&self, qualified: &str) -> (r: Option<(usize, usize)>)
        ensures
            match r {
                Some((i, j)) => find_spec(self.sources@, qualified@) == Some((i as int, j as int)),
                None => find_spec(self.sources@, qualified@).is_none(),
            },
    {
        let q = chars_of(qualified);
        let n = count_char_exec(&q, '/');
        if n == 2 {
            proof {
                lemma_rfind_found(q@, '/');
            }
            let k = match rfind_char_exec(&q, '/') {
                Some(k) => k,
                None => {
                    return None;
                },
            };
            let tap = slice_of(&q, 0, k);
            let recipe = slice_of(&q, k + 1, q.len());
            if tap.len() == 0 || recipe.len() == 0 {
                return None;
            }
            self.lookup_exec(&tap, &recipe)
        } else if n == 0 {
            let c = chars_of(CURATED);
            proof {
                reveal_strlit("curated");
            }
            assert(c@ == curated());
            self.lookup_exec(&c, &q)
        } else {
            None
        }
    }

    /// Locate a recipe by the name a user typed, or by a block's name:
    /// `recipe-name` (curated only) or `user/repo/recipe` (that tap only).
    pub fn find(&self, qualified: &str) -> (r: Option<(&Source, &IndexEntry)>)
        ensures
            match find_spec(self.sources@, qualified@) {
                Some((i, j)) => r == Some(
                    (&self.sources@[i], &self.sources@[i].index.recipes@[j]),
                ),
                None => r.is_none(),
            },
    {
        match self.find_index(qualified) {
            Some((i, j)) => {
                proof {
                    assert(i < self.sources@.len());
                }
                let s = &self.sources[i];
                Some((s, &s.index.recipes[j]))
            },
            None => None,
        }
    }
}

/// `jtr search`: a recipe matches when the query (case-insensitively)
/// occurs in its name or description; no query matches everything.
pub open spec fn search_matches_spec(name: Seq<char>, description: Seq<char>, query: Option<Seq<char>>) -> bool {
    match query {
        None => true,
        Some(q) => {
            let lq = crate::target::lowercase(q);
            crate::target::contains_seq(crate::target::lowercase(name), lq) || crate::target::contains_seq(
                crate::target::lowercase(description),
                lq,
            )
        },
    }
}

pub fn search_matches(name: &str, description: &str, query: Option<&str>) -> (b: bool)
    ensures
        b == search_matches_spec(
            name@,
            description@,
            match query {
                Some(q) => Some(q@),
                None => None,
            },
        ),
{
    match query {
        None => true,
        Some(q) => {
            let lq = chars_of(crate::target::to_lowercase(q).as_str());
            crate::target::contains_exec(&chars_of(crate::target::to_lowercase(name).as_str()), &lq)
                || crate::target::contains_exec(&chars_of(crate::target::to_lowercase(description).as_str()), &lq)
        },
    }
}


/// `t` holds `p` as a contiguous run starting at `i`.
pub open spec fn occurs_at(t: Seq<char>, p: Seq<char>, i: int) -> bool {
    0 <= i && i + p.len() <= t.len() && forall|j: int| 0 <= j < p.len() ==> #[trigger] t[i + j] == p[j]
}

proof fn lemma_occurs_contains(t: Seq<char>, p: Seq<char>)
    ensures
        crate::target::contains_seq(t, p) <==> exists|i: int| #[trigger] occurs_at(t, p, i),
{
    if crate::target::contains_seq(t, p) {
        let i = choose|i: int| 0 <= i <= t.len() - p.len() && #[trigger] t.subrange(i, i + p.len()) == p;
        assert forall|j: int| 0 <= j < p.len() implies #[trigger] t[i + j] == p[j] by {
            assert(t.subrange(i, i + p.len())[j] == t[i + j]);
        }
        assert(occurs_at(t, p, i));
    }
    if exists|i: int| #[trigger] occurs_at(t, p, i) {
        let i = choose|i: int| #[trigger] occurs_at(t, p, i);
        assert forall|j: int| 0 <= j < p.len() implies t.subrange(i, i + p.len())[j] == p[j] by {
            assert(t[i + j] == p[j]);
        }
        assert(t.subrange(i, i + p.len()) =~= p);
    }
}

/// A search query matches a recipe exactly when, lower-cased, it occurs in
/// the lower-cased name or in the lower-cased description; with no query
/// every recipe matches.
pub proof fn search_matches_name_or_description(name: Seq<char>, description: Seq<char>, q: Seq<char>)
    ensures
        search_matches_spec(name, description, None),
        search_matches_spec(name, description, Some(q)) <==> (exists|i: int|
            #[trigger] occurs_at(crate::target::lowercase(name), crate::target::lowercase(q), i)) || (exists|i: int|
            #[trigger] occurs_at(crate::target::lowercase(description), crate::target::lowercase(q), i)),
{
    lemma_occurs_contains(crate::target::lowercase(name), crate::target::lowercase(q));
    lemma_occurs_contains(crate::target::lowercase(description), crate::target::lowercase(q));
}

} // verus!
