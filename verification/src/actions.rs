//! The decisions the commands make about installed blocks: what a write
//! amounts to, which blocks an update skips, who depends on a block, which
//! blocks came from a tap, and what `doctor` counts as a problem.
use vstd::prelude::*;

use crate::managed::{
    blocks_view, count_named, merge_spec, parse_all_spec, upsert, BlockView, ManagedBlock, UpsertError,
};
use crate::target::Target;
use crate::taps::{belongs_spec, block_belongs_to_tap};
use crate::text::{chars_of, eq_exec, string_of};

verus! {

pub open spec fn has_block(bs: Seq<BlockView>, name: Seq<char>) -> bool {
    exists|i: int| 0 <= i < bs.len() && (#[trigger] bs[i]).name == name
}

fn has_block_exec(bs: &Vec<ManagedBlock>, name: &Vec<char>) -> (b: bool)
    ensures
        b == has_block(blocks_view(bs@), name@),
{
    let mut i: usize = 0;
    while i < bs.len()
        invariant
            i <= bs.len(),
            forall|j: int| 0 <= j < i ==> (#[trigger] blocks_view(bs@)[j]).name != name@,
        decreases bs.len() - i,
    {
        if eq_exec(&chars_of(bs[i].name.as_str()), name) {
            assert(blocks_view(bs@)[i as int].name == name@);
            return true;
        }
        i += 1;
    }
    false
}

/// What writing one planned block did to the document.
#[derive(Debug, Clone, Copy, PartialEq, Eq, Structural)]
pub enum WriteAction {
    /// The document is unchanged.
    AlreadyCurrent,
    /// A block of that name was there before and changed.
    Updated,
    /// The block is new.
    Installed,
}

/// `install`: unchanged document, replaced block, or new block.
pub fn install_action(new_doc: &str, current_doc: &str, already: &Vec<ManagedBlock>, block_name: &str) -> (a: WriteAction)
    ensures
        a == (if new_doc@ == current_doc@ {
            WriteAction::AlreadyCurrent
        } else if has_block(blocks_view(already@), block_name@) {
            WriteAction::Updated
        } else {
            WriteAction::Installed
        }),
{
    if eq_exec(&chars_of(new_doc), &chars_of(current_doc)) {
        WriteAction::AlreadyCurrent
    } else if has_block_exec(already, &chars_of(block_name)) {
        WriteAction::Updated
    } else {
        WriteAction::Installed
    }
}

/// Whether `update` walks an installed block.
#[derive(Debug, PartialEq, Eq)]
pub enum UpdateGate {
    /// Pinned and not `--unpin`: reported and skipped (carries the pin).
    SkipPinned(String),
    /// No longer in the registry: reported, left for `jtr remove`.
    Orphaned,
    Proceed,
}

pub fn update_gate(block: &ManagedBlock, unpin: bool, in_registry: bool) -> (g: UpdateGate)
    ensures
        match block.pinned {
            Some(p) if !unpin => g matches UpdateGate::SkipPinned(q) && q@ == p@,
            _ => if !in_registry {
                g == UpdateGate::Orphaned
            } else {
                g == UpdateGate::Proceed
            },
        },
{
    match &block.pinned {
        Some(p) => {
            if !unpin {
                return UpdateGate::SkipPinned(string_of(&chars_of(p.as_str())));
            }
        },
        None => {},
    }
    if !in_registry {
        UpdateGate::Orphaned
    } else {
        UpdateGate::Proceed
    }
}

/// What writing one planned block during `update` amounted to.
#[derive(Debug, Clone, Copy, PartialEq, Eq, Structural)]
pub enum UpdateAction {
    AlreadyCurrent,
    Installed,
    /// The pinned root was bumped with `--unpin`.
    Unpinned,
    /// A different version replaced the block.
    Updated,
    /// Same version, but manual edits to the block were reverted.
    Refreshed,
}

pub open spec fn prior_version(bs: Seq<BlockView>, name: Seq<char>) -> Option<Seq<char>>
    decreases bs.len(),
{
    if bs.len() == 0 {
        None
    } else if bs[0].name == name {
        Some(bs[0].version)
    } else {
        prior_version(bs.drop_first(), name)
    }
}

pub open spec fn update_action_spec(
    changed: bool,
    prior: Option<Seq<char>>,
    is_root: bool,
    root_pinned: bool,
    unpin: bool,
    new_version: Seq<char>,
) -> UpdateAction {
    if !changed {
        UpdateAction::AlreadyCurrent
    } else {
        match prior {
            None => UpdateAction::Installed,
            Some(v) => if is_root && root_pinned && unpin {
                UpdateAction::Unpinned
            } else if v != new_version {
                UpdateAction::Updated
            } else {
                UpdateAction::Refreshed
            },
        }
    }
}

/// Classify one `update` write of `plan_block` (at `new_version`) while
/// updating `root`.
pub fn update_action(
    new_doc: &str,
    current_doc: &str,
    blocks_now: &Vec<ManagedBlock>,
    plan_block: &str,
    root: &ManagedBlock,
    unpin: bool,
    new_version: &str,
) -> (a: UpdateAction)
    ensures
        a == update_action_spec(
            new_doc@ != current_doc@,
            prior_version(blocks_view(blocks_now@), plan_block@),
            plan_block@ == root.name@,
            root.pinned.is_some(),
            unpin,
            new_version@,
        ),
{
    if eq_exec(&chars_of(new_doc), &chars_of(current_doc)) {
        return UpdateAction::AlreadyCurrent;
    }
    let name = chars_of(plan_block);
    let ghost bv = blocks_view(blocks_now@);
    let mut i: usize = 0;
    assert(bv.subrange(0, bv.len() as int) =~= bv);
    while i < blocks_now.len() && !eq_exec(&chars_of(blocks_now[i].name.as_str()), &name)
        invariant
            i <= blocks_now@.len(),
            bv == blocks_view(blocks_now@),
            prior_version(bv, name@) == prior_version(bv.subrange(i as int, bv.len() as int), name@),
        decreases blocks_now.len() - i,
    {
        let ghost r = bv.subrange(i as int, bv.len() as int);
        assert(r.drop_first() =~= bv.subrange(i + 1, bv.len() as int));
        i += 1;
    }
    if i == blocks_now.len() {
        return UpdateAction::Installed;
    }
    let is_root = eq_exec(&name, &chars_of(root.name.as_str()));
    if is_root && root.pinned.is_some() && unpin {
        UpdateAction::Unpinned
    } else if !eq_exec(&chars_of(blocks_now[i].version.as_str()), &chars_of(new_version)) {
        UpdateAction::Updated
    } else {
        UpdateAction::Refreshed
    }
}

pub open spec fn depends_on(b: BlockView, name: Seq<char>) -> bool {
    exists|k: int| 0 <= k < b.dependencies.len() && #[trigger] b.dependencies[k] == name
}

/// Names of the other blocks that declare `name` as a dependency, in order.
pub open spec fn dependents_spec(bs: Seq<BlockView>, name: Seq<char>) -> Seq<Seq<char>>
    decreases bs.len(),
{
    if bs.len() == 0 {
        seq![]
    } else {
        let b = bs.last();
        dependents_spec(bs.drop_last(), name) + if b.name != name && depends_on(b, name) {
            seq![b.name]
        } else {
            seq![]
        }
    }
}

pub open spec fn names_of(v: Seq<String>) -> Seq<Seq<char>> {
    v.map_values(|s: String| s@)
}

/// The installed recipes that depend on `name` (what `jtr remove` refuses over).
pub fn dependents_of(blocks: &Vec<ManagedBlock>, name: &str) -> (out: Vec<String>)
    ensures
        names_of(out@) == dependents_spec(blocks_view(blocks@), name@),
{
    let nm = chars_of(name);
    let ghost bv = blocks_view(blocks@);
    let mut out: Vec<String> = Vec::new();
    let mut i: usize = 0;
    assert(bv.subrange(0, 0) =~= Seq::<BlockView>::empty());
    while i < blocks.len()
        invariant
            i <= blocks@.len(),
            bv == blocks_view(blocks@),
            nm@ == name@,
            names_of(out@) == dependents_spec(bv.subrange(0, i as int), name@),
        decreases blocks.len() - i,
    {
        let b = &blocks[i];
        assert(bv.subrange(0, i + 1).drop_last() =~= bv.subrange(0, i as int));
        assert(bv.subrange(0, i + 1).last() == b@);
        let bn = chars_of(b.name.as_str());
        let mut k: usize = 0;
        while k < b.dependencies.len() && !eq_exec(&chars_of(b.dependencies[k].as_str()), &nm)
            invariant
                k <= b.dependencies@.len(),
                nm@ == name@,
                forall|j: int| 0 <= j < k ==> (#[trigger] b@.dependencies[j]) != name@,
            decreases b.dependencies.len() - k,
        {
            k += 1;
        }
        let deps_hit = k < b.dependencies.len();
        if deps_hit {
            assert(b@.dependencies[k as int] == name@);
        }
        assert(deps_hit == depends_on(b@, name@));
        let ghost before = out@;
        if !eq_exec(&bn, &nm) && deps_hit {
            out.push(string_of(&bn));
            assert(names_of(out@) =~= names_of(before).push(bn@));
        } else {
            assert(names_of(out@) =~= names_of(before) + Seq::<Seq<char>>::empty());
        }
        i += 1;
    }
    assert(bv.subrange(0, blocks.len() as int) =~= bv);
    out
}

/// Names of the blocks installed from the tap `tap_name`, in order.
pub open spec fn from_tap_spec(bs: Seq<BlockView>, tap: Seq<char>) -> Seq<Seq<char>>
    decreases bs.len(),
{
    if bs.len() == 0 {
        seq![]
    } else {
        from_tap_spec(bs.drop_last(), tap) + if belongs_spec(bs.last().name, tap) {
            seq![bs.last().name]
        } else {
            seq![]
        }
    }
}

/// The blocks that came from a tap (what `jtr tap remove` refuses over).
pub fn blocks_from_tap(blocks: &Vec<ManagedBlock>, tap_name: &str) -> (out: Vec<String>)
    ensures
        names_of(out@) == from_tap_spec(blocks_view(blocks@), tap_name@),
{
    let ghost bv = blocks_view(blocks@);
    let mut out: Vec<String> = Vec::new();
    let mut i: usize = 0;
    assert(bv.subrange(0, 0) =~= Seq::<BlockView>::empty());
    while i < blocks.len()
        invariant
            i <= blocks@.len(),
            bv == blocks_view(blocks@),
            names_of(out@) == from_tap_spec(bv.subrange(0, i as int), tap_name@),
        decreases blocks.len() - i,
    {
        assert(bv.subrange(0, i + 1).drop_last() =~= bv.subrange(0, i as int));
        assert(bv.subrange(0, i + 1).last() == blocks@[i as int]@);
        let ghost before = out@;
        if block_belongs_to_tap(blocks[i].name.as_str(), tap_name) {
            out.push(string_of(&chars_of(blocks[i].name.as_str())));
            assert(names_of(out@) =~= names_of(before).push(blocks@[i as int].name@));
        } else {
            assert(names_of(out@) =~= names_of(before) + Seq::<Seq<char>>::empty());
        }
        i += 1;
    }
    assert(bv.subrange(0, blocks.len() as int) =~= bv);
    out
}

/// The `(block name, pin)` of every pinned block, in order.
pub open spec fn pins_spec(bs: Seq<BlockView>) -> Seq<(Seq<char>, Seq<char>)>
    decreases bs.len(),
{
    if bs.len() == 0 {
        seq![]
    } else {
        pins_spec(bs.drop_last()) + match bs.last().pinned {
            Some(p) => seq![(bs.last().name, p)],
            None => seq![],
        }
    }
}

/// Pins recorded in the document, which transitive dependencies keep.
pub fn pins_from_blocks(blocks: &Vec<ManagedBlock>) -> (out: Vec<(String, String)>)
    ensures
        crate::resolve::pins_view(out@) == pins_spec(blocks_view(blocks@)),
{
    let ghost bv = blocks_view(blocks@);
    let mut out: Vec<(String, String)> = Vec::new();
    let mut i: usize = 0;
    assert(bv.subrange(0, 0) =~= Seq::<BlockView>::empty());
    while i < blocks.len()
        invariant
            i <= blocks@.len(),
            bv == blocks_view(blocks@),
            crate::resolve::pins_view(out@) == pins_spec(bv.subrange(0, i as int)),
        decreases blocks.len() - i,
    {
        assert(bv.subrange(0, i + 1).drop_last() =~= bv.subrange(0, i as int));
        assert(bv.subrange(0, i + 1).last() == blocks@[i as int]@);
        let ghost before = out@;
        match &blocks[i].pinned {
            Some(p) => {
                let pair = (string_of(&chars_of(blocks[i].name.as_str())), string_of(&chars_of(p.as_str())));
                out.push(pair);
                assert(crate::resolve::pins_view(out@) =~= crate::resolve::pins_view(before).push((pair.0@, pair.1@)));
            },
            None => {
                assert(crate::resolve::pins_view(out@) =~= crate::resolve::pins_view(before) + Seq::<(Seq<char>, Seq<char>)>::empty());
            },
        }
        i += 1;
    }
    assert(bv.subrange(0, blocks.len() as int) =~= bv);
    out
}

/// What `doctor` found for one block.
#[derive(Debug, Clone, Copy, PartialEq, Eq, Structural)]
pub struct DoctorFinding {
    /// The registry no longer lists the block.
    pub orphaned: bool,
    /// The block is pinned at its own version, which `doctor` treats as
    /// healthy whatever the registry now publishes.
    pub at_pin: bool,
    /// The registry's version differs from the block's, and the block is not
    /// held there by its pin.
    pub newer_version: bool,
    /// The block is pinned at its own version, which the registry no longer
    /// publishes.
    pub pin_unpublished: bool,
    /// Problems counted: an orphan is one; otherwise version drift or an
    /// unpublished pin, plus a failed manifest fetch or each tool missing from
    /// `PATH`.
    pub problems: usize,
}

pub open spec fn missing_count(found: Seq<bool>) -> nat
    decreases found.len(),
{
    if found.len() == 0 {
        0
    } else {
        missing_count(found.drop_last()) + if found.last() {
            0nat
        } else {
            1nat
        }
    }
}

/// `pinned` is the block's recorded pin; `registry_version` is the index
/// entry's version (`None`: not listed) and `published` every version the
/// registry publishes for the recipe;
/// `tools_found` says, per `shells_out_to` tool, whether it is on `PATH`
/// (`None`: the manifest could not be fetched).
pub fn doctor_check(
    block_version: &str,
    pinned: Option<&str>,
    registry_version: Option<&str>,
    published: &Vec<String>,
    tools_found: Option<&Vec<bool>>,
) -> (d: DoctorFinding)
    requires
        tools_found matches Some(f) ==> f@.len() < usize::MAX,
    ensures
        d.at_pin == (pinned matches Some(p) && p@ == block_version@),
        match registry_version {
            None => d == (DoctorFinding {
                orphaned: true,
                at_pin: d.at_pin,
                newer_version: false,
                pin_unpublished: false,
                problems: 1,
            }),
            Some(v) => {
                let drift = v@ != block_version@ && !d.at_pin;
                let gone = d.at_pin && !(exists|i: int| 0 <= i < published@.len() && (#[trigger] published@[i])@ == block_version@);
                &&& !d.orphaned
                &&& d.newer_version == drift
                &&& d.pin_unpublished == gone
                &&& d.problems == (if drift { 1int } else { 0int }) + (if gone { 1int } else { 0int }) + match tools_found {
                    None => 1int,
                    Some(f) => missing_count(f@) as int,
                }
            },
        },
{
    let at_pin = match pinned {
        Some(p) => eq_exec(&chars_of(p), &chars_of(block_version)),
        None => false,
    };
    match registry_version {
        None => DoctorFinding { orphaned: true, at_pin, newer_version: false, pin_unpublished: false, problems: 1 },
        Some(v) => {
            let drift = !eq_exec(&chars_of(v), &chars_of(block_version)) && !at_pin;
            let bv = chars_of(block_version);
            let mut k: usize = 0;
            while k < published.len() && !eq_exec(&chars_of(published[k].as_str()), &bv)
                invariant
                    k <= published@.len(),
                    bv@ == block_version@,
                    forall|i: int| 0 <= i < k ==> (#[trigger] published@[i])@ != block_version@,
                decreases published.len() - k,
            {
                k += 1;
            }
            let gone = at_pin && k == published.len();
            let mut problems: usize = if drift { 1 } else { 0 };
            if gone {
                problems += 1;
            }
            match tools_found {
                None => {
                    problems += 1;
                },
                Some(f) => {
                    let mut i: usize = 0;
                    let ghost base = problems;
                    assert(f@.subrange(0, 0) =~= Seq::<bool>::empty());
                    while i < f.len()
                        invariant
                            i <= f@.len(),
                            base <= 1,
                            f@.len() < usize::MAX,
                            problems == base + missing_count(f@.subrange(0, i as int)),
                            missing_count(f@.subrange(0, i as int)) <= i,
                        decreases f.len() - i,
                    {
                        assert(f@.subrange(0, i + 1).drop_last() =~= f@.subrange(0, i as int));
                        if !f[i] {
                            problems += 1;
                        }
                        i += 1;
                    }
                    assert(f@.subrange(0, f.len() as int) =~= f@);
                },
            }
            DoctorFinding { orphaned: false, at_pin, newer_version: drift, pin_unpublished: gone, problems }
        },
    }
}


// ------------------------------------------------------------------ install plans

pub open spec fn install_action_spec(new_doc: Seq<char>, current_doc: Seq<char>, already: Seq<BlockView>, name: Seq<char>) -> WriteAction {
    if new_doc == current_doc {
        WriteAction::AlreadyCurrent
    } else if has_block(already, name) {
        WriteAction::Updated
    } else {
        WriteAction::Installed
    }
}

/// Writing the planned `(block name, rendered block)` pairs in order, each
/// with `upsert`: the final text and what each write amounted to, or the
/// first write that did not leave exactly one block of its name.
pub open spec fn install_plan_spec(
    target: Target,
    doc: Seq<char>,
    already: Seq<BlockView>,
    blocks: Seq<(Seq<char>, Seq<char>)>,
) -> Result<(Seq<char>, Seq<WriteAction>), (Seq<char>, nat)>
    decreases blocks.len(),
{
    if blocks.len() == 0 {
        Ok((doc, seq![]))
    } else {
        match install_plan_spec(target, doc, already, blocks.drop_last()) {
            Err(e) => Err(e),
            Ok((d, acts)) => {
                let (name, r) = blocks.last();
                let m = merge_spec(target, d, name, r);
                let found = count_named(parse_all_spec(m), name);
                if found != 1 {
                    Err((name, found))
                } else {
                    Ok((m, acts.push(install_action_spec(m, d, already, name))))
                }
            },
        }
    }
}

pub open spec fn pairs_view(v: Seq<(String, String)>) -> Seq<(Seq<char>, Seq<char>)> {
    v.map_values(|x: (String, String)| (x.0@, x.1@))
}

proof fn lemma_plan_err_persists(
    target: Target,
    doc: Seq<char>,
    already: Seq<BlockView>,
    bs: Seq<(Seq<char>, Seq<char>)>,
    k: int,
)
    requires
        0 <= k <= bs.len(),
        install_plan_spec(target, doc, already, bs.subrange(0, k)) is Err,
    ensures
        install_plan_spec(target, doc, already, bs) == install_plan_spec(target, doc, already, bs.subrange(0, k)),
    decreases bs.len() - k,
{
    if k < bs.len() {
        assert(bs.subrange(0, k + 1).drop_last() =~= bs.subrange(0, k));
        lemma_plan_err_persists(target, doc, already, bs, k + 1);
    } else {
        assert(bs.subrange(0, k) =~= bs);
    }
}

/// Install a plan's rendered blocks, in order, into `doc`.
pub fn install_plan(target: Target, doc: &str, already: &Vec<ManagedBlock>, blocks: &Vec<(String, String)>) -> (r: Result<(String, Vec<WriteAction>), UpsertError>)
    ensures
        match r {
            Ok((d, acts)) => install_plan_spec(target, doc@, blocks_view(already@), pairs_view(blocks@)) == Ok::<
                (Seq<char>, Seq<WriteAction>),
                (Seq<char>, nat),
            >((d@, acts@)),
            Err(e) => install_plan_spec(target, doc@, blocks_view(already@), pairs_view(blocks@)) == Err::<
                (Seq<char>, Seq<WriteAction>),
                (Seq<char>, nat),
            >((e.name@, e.found as nat)),
        },
{
    let ghost bv = pairs_view(blocks@);
    let mut current = string_of(&chars_of(doc));
    let mut acts: Vec<WriteAction> = Vec::new();
    let mut i: usize = 0;
    assert(bv.subrange(0, 0) =~= Seq::<(Seq<char>, Seq<char>)>::empty());
    while i < blocks.len()
        invariant
            i <= blocks@.len(),
            bv == pairs_view(blocks@),
            install_plan_spec(target, doc@, blocks_view(already@), bv.subrange(0, i as int)) == Ok::<
                (Seq<char>, Seq<WriteAction>),
                (Seq<char>, nat),
            >((current@, acts@)),
        decreases blocks.len() - i,
    {
        assert(bv.subrange(0, i + 1).drop_last() =~= bv.subrange(0, i as int));
        assert(bv.subrange(0, i + 1).last() == (blocks@[i as int].0@, blocks@[i as int].1@));
        let (name, rendered) = (&blocks[i].0, &blocks[i].1);
        match upsert(target, current.as_str(), name.as_str(), rendered.as_str()) {
            Err(e) => {
                proof {
                    lemma_plan_err_persists(target, doc@, blocks_view(already@), bv, i + 1);
                }
                return Err(e);
            },
            Ok(m) => {
                let a = install_action(m.as_str(), current.as_str(), already, name.as_str());
                acts.push(a);
                current = m;
            },
        }
        i += 1;
    }
    assert(bv.subrange(0, blocks.len() as int) =~= bv);
    Ok((current, acts))
}


proof fn lemma_seq_contains_concat(a: Seq<Seq<char>>, b: Seq<Seq<char>>, x: Seq<char>)
    ensures
        (a + b).contains(x) <==> a.contains(x) || b.contains(x),
{
    if (a + b).contains(x) {
        let j = choose|j: int| 0 <= j < (a + b).len() && (a + b)[j] == x;
        if j < a.len() {
            assert(a[j] == x);
        } else {
            assert(b[j - a.len()] == x);
        }
    }
    if a.contains(x) {
        let j = choose|j: int| 0 <= j < a.len() && a[j] == x;
        assert((a + b)[j] == x);
    }
    if b.contains(x) {
        let j = choose|j: int| 0 <= j < b.len() && b[j] == x;
        assert((a + b)[a.len() + j] == x);
    }
}

/// `jtr remove` refuses over exactly the right blocks: every installed block
/// other than `name` that lists `name` anywhere among its dependencies is a
/// dependent, and every dependent is the name of such a block.
pub proof fn dependents_are_the_blocks_listing_it(bs: Seq<BlockView>, name: Seq<char>)
    ensures
        forall|i: int, k: int|
            #![trigger bs[i].dependencies[k]]
            0 <= i < bs.len() && bs[i].name != name && 0 <= k < bs[i].dependencies.len()
                && bs[i].dependencies[k] == name ==> dependents_spec(bs, name).contains(bs[i].name),
        forall|d: Seq<char>|
            #[trigger] dependents_spec(bs, name).contains(d) ==> d != name && exists|i: int, k: int|
                #![trigger bs[i].dependencies[k]]
                0 <= i < bs.len() && bs[i].name == d && 0 <= k < bs[i].dependencies.len()
                    && bs[i].dependencies[k] == name,
    decreases bs.len(),
{
    if bs.len() > 0 {
        let p = bs.drop_last();
        let b = bs.last();
        dependents_are_the_blocks_listing_it(p, name);
        let dp = dependents_spec(p, name);
        let extra: Seq<Seq<char>> = if b.name != name && depends_on(b, name) {
            seq![b.name]
        } else {
            seq![]
        };
        assert(dependents_spec(bs, name) == dp + extra);
        assert forall|i: int, k: int|
            #![trigger bs[i].dependencies[k]]
            0 <= i < bs.len() && bs[i].name != name && 0 <= k < bs[i].dependencies.len()
                && bs[i].dependencies[k] == name implies dependents_spec(bs, name).contains(bs[i].name) by {
            lemma_seq_contains_concat(dp, extra, bs[i].name);
            if i < bs.len() - 1 {
                assert(bs[i] == p[i]);
                assert(p[i].dependencies[k] == name);
            } else {
                assert(bs[i] == b);
                assert(depends_on(b, name));
                assert(extra[0] == b.name);
            }
        }
        assert forall|d: Seq<char>| #[trigger] dependents_spec(bs, name).contains(d) implies d != name && exists|i: int, k: int|
            #![trigger bs[i].dependencies[k]]
            0 <= i < bs.len() && bs[i].name == d && 0 <= k < bs[i].dependencies.len()
                && bs[i].dependencies[k] == name by {
            lemma_seq_contains_concat(dp, extra, d);
            if dp.contains(d) {
                let (i, k) = choose|i: int, k: int|
                    #![trigger p[i].dependencies[k]]
                    0 <= i < p.len() && p[i].name == d && 0 <= k < p[i].dependencies.len()
                        && p[i].dependencies[k] == name;
                assert(bs[i] == p[i]);
                assert(bs[i].dependencies[k] == name);
            } else {
                let j = choose|j: int| 0 <= j < extra.len() && extra[j] == d;
                assert(d == b.name);
                let k = choose|k: int| 0 <= k < b.dependencies.len() && #[trigger] b.dependencies[k] == name;
                assert(bs[bs.len() - 1] == b);
                assert(bs[bs.len() - 1].dependencies[k] == name);
            }
        }
    }
}

} // verus!
