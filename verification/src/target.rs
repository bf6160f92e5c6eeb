//! The two project-file flavours (`justfile` and `Taskfile.yml`).
use vstd::prelude::*;

use crate::text::{chars_of, matches_at, starts_with, starts_with_exec};

verus! {

#[derive(Clone, Copy, Debug, PartialEq, Eq, Structural)]
pub enum Target {
    Just,
    Task,
}

/// `just`
pub open spec fn k_just() -> Seq<char> {
    seq!['j', 'u', 's', 't']
}

/// `task`
pub open spec fn k_task() -> Seq<char> {
    seq!['t', 'a', 's', 'k']
}

/// The file-name fragment that marks a justfile.
pub open spec fn k_justfile() -> Seq<char> {
    seq!['j', 'u', 's', 't', 'f', 'i', 'l', 'e']
}

pub fn k_justfile_exec() -> (v: Vec<char>)
    ensures
        v@ == k_justfile(),
{
    vec!['j', 'u', 's', 't', 'f', 'i', 'l', 'e']
}
/// The file-name prefix that marks a Taskfile.
pub open spec fn k_taskfile() -> Seq<char> {
    seq!['t', 'a', 's', 'k', 'f', 'i', 'l', 'e']
}

pub fn k_taskfile_exec() -> (v: Vec<char>)
    ensures
        v@ == k_taskfile(),
{
    vec!['t', 'a', 's', 'k', 'f', 'i', 'l', 'e']
}

/// The manifest key (and display name) of a target.
pub open spec fn target_key(t: Target) -> Seq<char> {
    match t {
        Target::Just => k_just(),
        Target::Task => k_task(),
    }
}

impl Target {
    pub fn as_str(self) -> (s: &'static str)
        ensures
            s@ == target_key(self),
    {
        proof {
            reveal_strlit("just");
            reveal_strlit("task");
        }
        match self {
            Target::Just => "just",
            Target::Task => "task",
        }
    }
}

/// Does `p` occur anywhere in `s`?
pub open spec fn contains_seq(s: Seq<char>, p: Seq<char>) -> bool {
    exists|i: int| 0 <= i <= s.len() - p.len() && #[trigger] s.subrange(i, i + p.len()) == p
}

pub fn contains_exec(s: &Vec<char>, p: &Vec<char>) -> (r: bool)
    ensures
        r == contains_seq(s@, p@),
{
    if p.len() > s.len() {
        return false;
    }
    if p.len() == 0 {
        assert(s@.subrange(0int, 0int + p@.len()) =~= p@);
        return true;
    }
    let mut i: usize = 0;
    while i <= s.len() - p.len()
        invariant
            0 < p.len() <= s.len(),
            i <= s.len() - p.len() + 1,
            forall|j: int| 0 <= j < i ==> #[trigger] s@.subrange(j, j + p.len()) != p@,
        decreases s.len() - p.len() + 1 - i,
    {
        if matches_at(s, i, p) {
            assert(s@.subrange(i as int, s.len() as int).subrange(0, p.len() as int) =~= s@.subrange(
                i as int,
                i + p.len(),
            ));
            return true;
        }
        assert(s@.subrange(i as int, s.len() as int).subrange(0, p.len() as int) =~= s@.subrange(
            i as int,
            i + p.len(),
        ));
        i += 1;
    }
    false
}

/// What `str::to_lowercase` returns for a string.
pub uninterp spec fn lowercase(s: Seq<char>) -> Seq<char>;

/// `str::to_lowercase`; its result is the Unicode lower-case mapping, named
/// `lowercase` and not stated further.
#[verifier::external_body]
pub(crate) fn to_lowercase(s: &str) -> (out: String)
    ensures
        out@ == lowercase(s@),
{
    s.to_lowercase()
}

/// The target a project file's name implies: `just` when the lower-cased
/// name contains `justfile`, `task` when it starts with `taskfile`.
pub open spec fn classify_spec(file_name: Seq<char>) -> Option<Target> {
    let n = lowercase(file_name);
    if contains_seq(n, k_justfile()) {
        Some(Target::Just)
    } else if starts_with(n, k_taskfile()) {
        Some(Target::Task)
    } else {
        None
    }
}

/// Infer the target from a project file's name (its last path component).
pub fn classify(file_name: &str) -> (t: Option<Target>)
    ensures
        t == classify_spec(file_name@),
{
    let lower = to_lowercase(file_name);
    let n = chars_of(lower.as_str());
    if contains_exec(&n, &k_justfile_exec()) {
        Some(Target::Just)
    } else if starts_with_exec(&n, &k_taskfile_exec()) {
        Some(Target::Task)
    } else {
        None
    }
}

} // verus!
