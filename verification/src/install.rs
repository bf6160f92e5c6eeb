//! Installing a recipe: the `name@version` argument, the dependency-ordered
//! install plan (with cycle detection), and what each write amounts to.
use vstd::prelude::*;

use crate::managed::{opt_str, render_block, render_block_spec, strings, valid_name, validate_name, NameError};
use crate::manifest::{target_index, RecipeManifest};
use crate::target::{target_key, Target};
use crate::sources::{count_char, count_char_exec, rfind_char, rfind_char_exec, source_index, Sources};
use crate::text::{chars_of, eq_exec, slice_of, string_of};

verus! {

#[derive(Debug, PartialEq, Eq)]
pub enum PinError {
    /// `recipe name is empty before '@version'`
    EmptyName,
    /// `version is empty after '@' in '<input>'`
    EmptyVersion { name: String },
}

pub open spec fn pin_view(r: Result<(String, Option<String>), PinError>) -> Result<(Seq<char>, Option<Seq<char>>), Option<Seq<char>>> {
    match r {
        Ok((n, Some(v))) => Ok((n@, Some(v@))),
        Ok((n, None)) => Ok((n@, None)),
        Err(PinError::EmptyName) => Err(None),
        Err(PinError::EmptyVersion { name }) => Err(Some(name@)),
    }
}

/// Split at the last `@`: `foo@1.2.0` is `foo` pinned to `1.2.0`; a bare
/// name is unpinned. `Err(None)` stands for an empty name, `Err(Some(name))`
/// for an empty version after `name@`.
pub open spec fn split_pin_spec(input: Seq<char>) -> Result<(Seq<char>, Option<Seq<char>>), Option<Seq<char>>> {
    let k = rfind_char(input, '@');
    if k < 0 {
        Ok((input, None))
    } else {
        let name = input.subrange(0, k);
        let version = input.subrange(k + 1, input.len() as int);
        if name.len() == 0 {
            Err(None)
        } else if version.len() == 0 {
            Err(Some(name))
        } else {
            Ok((name, Some(version)))
        }
    }
}

/// Split `foo@1.2.0` into `("foo", Some("1.2.0"))`; bare names return
/// `(name, None)`. Errors if either half of `@` is empty.
pub fn split_pin(input: &str) -> (r: Result<(String, Option<String>), PinError>)
    ensures
        pin_view(r) == split_pin_spec(input@),
{
    let v = chars_of(input);
    match rfind_char_exec(&v, '@') {
        None => Ok((string_of(&v), None)),
        Some(k) => {
            let name = slice_of(&v, 0, k);
            let version = slice_of(&v, k + 1, v.len());
            if name.len() == 0 {
                return Err(PinError::EmptyName);
            }
            if version.len() == 0 {
                return Err(PinError::EmptyVersion { name: string_of(&name) });
            }
            Ok((string_of(&name), Some(string_of(&version))))
        },
    }
}

/// Why a recipe could not be found; the requested root and the missing name
/// differ when the missing recipe is a (transitive) dependency.
#[derive(Debug, PartialEq, Eq)]
pub enum MissingRecipe {
    /// `recipe '<recipe>' not found: tap '<tap>' is not configured`
    TapNotConfigured { recipe: String, tap: String },
    /// `recipe '<root>' depends on '<dependency>', but tap '<tap>' is not configured`
    DependencyTapNotConfigured { root: String, dependency: String, tap: String },
    /// `recipe '<recipe>' not found in the curated index or any configured tap`
    NotFound { recipe: String },
    /// `recipe '<root>' depends on '<dependency>', which was not found in any source`
    DependencyNotFound { root: String, dependency: String },
}

pub enum MissingView {
    TapNotConfigured(Seq<char>, Seq<char>),
    DependencyTapNotConfigured(Seq<char>, Seq<char>, Seq<char>),
    NotFound(Seq<char>),
    DependencyNotFound(Seq<char>, Seq<char>),
}

pub open spec fn missing_view(m: MissingRecipe) -> MissingView {
    match m {
        MissingRecipe::TapNotConfigured { recipe, tap } => MissingView::TapNotConfigured(recipe@, tap@),
        MissingRecipe::DependencyTapNotConfigured { root, dependency, tap } =>
            MissingView::DependencyTapNotConfigured(root@, dependency@, tap@),
        MissingRecipe::NotFound { recipe } => MissingView::NotFound(recipe@),
        MissingRecipe::DependencyNotFound { root, dependency } =>
            MissingView::DependencyNotFound(root@, dependency@),
    }
}

/// A `user/repo/recipe` name whose tap is not among the sources points at the
/// missing tap; anything else is simply not found.
pub open spec fn describe_missing_spec(sources: Sources, root: Seq<char>, missing: Seq<char>) -> MissingView {
    let k = rfind_char(missing, '/');
    let tap = missing.subrange(0, k);
    if count_char(missing, '/') == 2 && source_index(sources.sources@, tap) >= sources.sources@.len() {
        if missing == root {
            MissingView::TapNotConfigured(missing, tap)
        } else {
            MissingView::DependencyTapNotConfigured(root, missing, tap)
        }
    } else if missing == root {
        MissingView::NotFound(missing)
    } else {
        MissingView::DependencyNotFound(root, missing)
    }
}

pub fn describe_missing(sources: &Sources, requested_root: &str, missing: &str) -> (m: MissingRecipe)
    ensures
        missing_view(m) == describe_missing_spec(*sources, requested_root@, missing@),
{
    let mv = chars_of(missing);
    let rv = chars_of(requested_root);
    let same = eq_exec(&mv, &rv);
    if count_char_exec(&mv, '/') == 2 {
        proof {
            crate::sources::lemma_rfind_found(mv@, '/');
        }
        match rfind_char_exec(&mv, '/') {
            Some(k) => {
                let tap = slice_of(&mv, 0, k);
                let mut i: usize = 0;
                while i < sources.sources.len() && !eq_exec(&chars_of(sources.sources[i].label.as_str()), &tap)
                    invariant
                        i <= sources.sources@.len(),
                        forall|j: int| 0 <= j < i ==> (#[trigger] sources.sources@[j]).label@ != tap@,
                    decreases sources.sources.len() - i,
                {
                    i += 1;
                }
                let configured = i < sources.sources.len();
                proof {
                    crate::sources::lemma_source_index_at(sources.sources@, tap@, i as int);
                }
                if !configured {
                    if same {
                        return MissingRecipe::TapNotConfigured { recipe: string_of(&mv), tap: string_of(&tap) };
                    }
                    return MissingRecipe::DependencyTapNotConfigured {
                        root: string_of(&rv),
                        dependency: string_of(&mv),
                        tap: string_of(&tap),
                    };
                }
            },
            None => {},
        }
    }
    if same {
        MissingRecipe::NotFound { recipe: string_of(&mv) }
    } else {
        MissingRecipe::DependencyNotFound { root: string_of(&rv), dependency: string_of(&mv) }
    }
}


/// The source link a rendered block records: the manifest's homepage, else
/// the base URL of the registry the recipe came from.
pub fn source_link(homepage: Option<&str>, registry_base: &str) -> (s: String)
    ensures
        s@ == match homepage {
            Some(h) => h@,
            None => registry_base@,
        },
{
    match homepage {
        Some(h) => string_of(&chars_of(h)),
        None => string_of(&chars_of(registry_base)),
    }
}

/// A recipe whose manifest has no snippet for the project's target.
pub struct MissingTarget {
    pub recipe: String,
    pub target: String,
    /// The targets the manifest does have, in its order.
    pub supported: Vec<String>,
}

/// The block a planned recipe is written as: the manifest's snippet for
/// `target`, rendered under `block_name` with the manifest's version and
/// dependencies, the source link and the pin. A manifest without a snippet
/// for `target` gives the error that lists the targets it does have.
pub fn render_planned_block(
    target: Target,
    block_name: &str,
    manifest: &RecipeManifest,
    source_link: &str,
    pinned: Option<&str>,
) -> (r: Result<String, MissingTarget>)
    ensures
        ({
            let k = target_index(manifest.targets@, target_key(target));
            match r {
                Ok(s) => k < manifest.targets@.len() && s@ == render_block_spec(
                    target,
                    block_name@,
                    manifest.version@,
                    Some(source_link@),
                    opt_str(pinned),
                    strings(manifest.dependencies@),
                    manifest.targets@[k].1.snippet@,
                ),
                Err(e) => {
                    &&& k >= manifest.targets@.len()
                    &&& e.recipe@ == block_name@
                    &&& e.target@ == target_key(target)
                    &&& e.supported@.len() == manifest.targets@.len()
                    &&& forall|i: int| 0 <= i < e.supported@.len() ==> (#[trigger] e.supported@[i])@ == manifest.targets@[i].0@
                },
            }
        }),
{
    let key = target.as_str();
    match manifest.target(key) {
        Some(t) => Ok(render_block(
            target,
            block_name,
            manifest.version.as_str(),
            Some(source_link),
            pinned,
            manifest.dependencies.as_slice(),
            t.snippet.as_str(),
        )),
        None => {
            let mut supported: Vec<String> = Vec::new();
            let mut i: usize = 0;
            while i < manifest.targets.len()
                invariant
                    i <= manifest.targets@.len(),
                    supported@.len() == i,
                    forall|j: int| 0 <= j < i ==> (#[trigger] supported@[j])@ == manifest.targets@[j].0@,
                decreases manifest.targets.len() - i,
            {
                supported.push(string_of(&chars_of(manifest.targets[i].0.as_str())));
                i += 1;
            }
            Err(MissingTarget {
                recipe: string_of(&chars_of(block_name)),
                target: string_of(&chars_of(key)),
                supported,
            })
        },
    }
}

} // verus!
