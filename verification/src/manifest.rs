//! The registry's data model: the index of recipes and each recipe's manifest.
use vstd::prelude::*;

use crate::text::{chars_of, eq_exec};

verus! {

/// The registry's `index.json`.
pub struct IndexFile {
    pub version: u32,
    pub updated: Option<String>,
    pub recipes: Vec<IndexEntry>,
}

/// One recipe as the index lists it.
pub struct IndexEntry {
    pub name: String,
    pub version: String,
    pub description: String,
    /// Relative path or absolute URL to the full manifest.
    pub manifest_url: String,
    pub targets: Vec<String>,
    /// Lowercase hex-encoded SHA-256 of the manifest's raw bytes. Optional
    /// during the v1 rollout; once present, the fetched manifest must match.
    pub sha256: Option<String>,
}

/// A recipe's full manifest.
pub struct RecipeManifest {
    pub name: String,
    pub version: String,
    pub description: String,
    pub homepage: Option<String>,
    pub maintainer: Option<String>,
    pub shells_out_to: Vec<String>,
    /// Other recipes that must be installed alongside this one. Bare names
    /// resolve to the curated index; `user/repo/recipe` names resolve to the
    /// named tap.
    pub dependencies: Vec<String>,
    /// Snippets keyed by target (`just`, `task`), in key order.
    pub targets: Vec<(String, RecipeTarget)>,
}

pub struct RecipeTarget {
    /// The literal text to splice into the user's project file.
    pub snippet: String,
}

/// Index of the first target keyed `key`, or `targets.len()`.
pub open spec fn target_index(targets: Seq<(String, RecipeTarget)>, key: Seq<char>) -> int
    decreases targets.len(),
{
    if targets.len() == 0 {
        0
    } else if targets[0].0@ == key {
        0
    } else {
        1 + target_index(targets.drop_first(), key)
    }
}

proof fn lemma_target_index_at(targets: Seq<(String, RecipeTarget)>, key: Seq<char>, k: int)
    requires
        0 <= k <= targets.len(),
        forall|j: int| 0 <= j < k ==> (#[trigger] targets[j]).0@ != key,
        k < targets.len() ==> targets[k].0@ == key,
    ensures
        target_index(targets, key) == k,
    decreases targets.len(),
{
    if targets.len() > 0 && targets[0].0@ != key {
        assert forall|j: int| 0 <= j < k - 1 implies (#[trigger] targets.drop_first()[j]).0@ != key by {
            assert(targets.drop_first()[j] == targets[j + 1]);
        }
        lemma_target_index_at(targets.drop_first(), key, k - 1);
    }
}

impl RecipeManifest {
    /// The snippet entry for `key`, if the recipe supports that target.
    pub fn target(&self, key: &str) -> (r: Option<&RecipeTarget>)
        ensures
            ({
                let k = target_index(self.targets@, key@);
                if k < self.targets@.len() {
                    r == Some(&self.targets@[k].1)
                } else {
                    r.is_none()
                }
            }),
    {
        let kv = chars_of(key);
        let mut i: usize = 0;
        while i < self.targets.len()
            invariant
                i <= self.targets@.len(),
                kv@ == key@,
                forall|j: int| 0 <= j < i ==> (#[trigger] self.targets@[j]).0@ != key@,
            decreases self.targets.len() - i,
        {
            if eq_exec(&chars_of(self.targets[i].0.as_str()), &kv) {
                proof {
                    lemma_target_index_at(self.targets@, key@, i as int);
                }
                return Some(&self.targets[i].1);
            }
            i += 1;
        }
        proof {
            lemma_target_index_at(self.targets@, key@, i as int);
        }
        None
    }
}

} // verus!
