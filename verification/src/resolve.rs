//! Dependency resolution: the order in which a recipe and everything it
//! (transitively) depends on are installed, with cycle detection.
//!
//! The graph is what the registry answered for each name the walk can reach:
//! the dependency list of a loaded manifest, or that the recipe is missing,
//! or that its manifest failed to load.
use vstd::prelude::*;

use crate::managed::{valid_name, validate_name, NameError};
use crate::text::{chars_of, eq_exec, string_of};

verus! {

pub enum Lookup {
    /// The manifest loaded; these are its declared dependencies.
    Loaded(Vec<String>),
    /// No source has the recipe.
    Missing,
    /// The recipe was found but its manifest could not be loaded.
    Failed,
}

pub struct RecipeNode {
    /// The name as requested (bare or `user/repo/recipe`).
    pub name: String,
    pub lookup: Lookup,
}

/// One recipe to write, in install order.
#[derive(Debug)]
pub struct Plan {
    /// The name as requested (bare or `user/repo/recipe`).
    pub name: String,
    /// Pulled in transitively rather than named by the user.
    pub is_dependency: bool,
    /// The version to install: the user's `name@version` for the root, an
    /// existing block's pin for a dependency, `None` for the latest.
    pub pinned: Option<String>,
}

#[derive(Debug)]
pub enum ResolveError {
    /// `dependency cycle detected: A → B → ... → A`
    Cycle { chain: Vec<String> },
    /// The recipe is in no source (see `install::describe_missing`).
    Missing { name: String },
    /// `could not load manifest for '<name>'`
    LoadFailed { name: String },
    /// `recipe '<recipe>' declares an invalid dependency name '<dependency>'`
    InvalidDependency { recipe: String, dependency: String, reason: NameError },
}

pub enum LookupView {
    Loaded(Seq<Seq<char>>),
    Missing,
    Failed,
}

pub struct NodeView {
    pub name: Seq<char>,
    pub lookup: LookupView,
}

pub struct PlanView {
    pub name: Seq<char>,
    pub is_dependency: bool,
    pub pinned: Option<Seq<char>>,
}

pub enum ErrView {
    Cycle(Seq<Seq<char>>),
    Missing(Seq<char>),
    LoadFailed(Seq<char>),
    InvalidDependency(Seq<char>, Seq<char>, NameError),
}

pub open spec fn strs(v: Seq<String>) -> Seq<Seq<char>> {
    v.map_values(|s: String| s@)
}

pub open spec fn node_view(n: RecipeNode) -> NodeView {
    NodeView {
        name: n.name@,
        lookup: match n.lookup {
            Lookup::Loaded(d) => LookupView::Loaded(strs(d@)),
            Lookup::Missing => LookupView::Missing,
            Lookup::Failed => LookupView::Failed,
        },
    }
}

pub open spec fn graph_view(g: Seq<RecipeNode>) -> Seq<NodeView> {
    g.map_values(|n: RecipeNode| node_view(n))
}

pub open spec fn plan_view(p: Plan) -> PlanView {
    PlanView {
        name: p.name@,
        is_dependency: p.is_dependency,
        pinned: match p.pinned {
            Some(v) => Some(v@),
            None => None,
        },
    }
}

pub open spec fn order_view(o: Seq<Plan>) -> Seq<PlanView> {
    o.map_values(|p: Plan| plan_view(p))
}

pub open spec fn err_view(e: ResolveError) -> ErrView {
    match e {
        ResolveError::Cycle { chain } => ErrView::Cycle(strs(chain@)),
        ResolveError::Missing { name } => ErrView::Missing(name@),
        ResolveError::LoadFailed { name } => ErrView::LoadFailed(name@),
        ResolveError::InvalidDependency { recipe, dependency, reason } =>
            ErrView::InvalidDependency(recipe@, dependency@, reason),
    }
}

/// Index of the first node named `name`, or `g.len()`.
pub open spec fn node_index(g: Seq<NodeView>, name: Seq<char>) -> int
    decreases g.len(),
{
    if g.len() == 0 {
        0
    } else if g[0].name == name {
        0
    } else {
        1 + node_index(g.drop_first(), name)
    }
}

/// Index of the first occurrence of `x` in `s`, or `s.len()`.
pub open spec fn index_in(s: Seq<Seq<char>>, x: Seq<char>) -> int
    decreases s.len(),
{
    if s.len() == 0 {
        0
    } else if s[0] == x {
        0
    } else {
        1 + index_in(s.drop_first(), x)
    }
}

pub open spec fn planned(order: Seq<PlanView>, name: Seq<char>) -> bool {
    exists|i: int| 0 <= i < order.len() && (#[trigger] order[i]).name == name
}

/// The pin recorded for `name` among `(block name, version)` pairs.
pub open spec fn pin_for(pins: Seq<(Seq<char>, Seq<char>)>, name: Seq<char>) -> Option<Seq<char>>
    decreases pins.len(),
{
    if pins.len() == 0 {
        None
    } else if pins[0].0 == name {
        Some(pins[0].1)
    } else {
        pin_for(pins.drop_first(), name)
    }
}

pub open spec fn pins_view(p: Seq<(String, String)>) -> Seq<(Seq<char>, Seq<char>)> {
    p.map_values(|x: (String, String)| (x.0@, x.1@))
}

pub open spec fn name_error(name: Seq<char>) -> NameError {
    if name.len() == 0 {
        NameError::Empty
    } else {
        NameError::InvalidChars
    }
}

/// Depth-first walk from `name`: a name already planned is skipped; a name on
/// the current path is a cycle (reported from its first occurrence on the
/// path back to itself); otherwise every dependency is walked first and the
/// recipe itself is planned after them.
pub open spec fn visit(
    g: Seq<NodeView>,
    pins: Seq<(Seq<char>, Seq<char>)>,
    name: Seq<char>,
    pin: Option<Seq<char>>,
    is_dep: bool,
    stack: Seq<Seq<char>>,
    order: Seq<PlanView>,
) -> Result<Seq<PlanView>, ErrView>
    decreases g.len() - stack.len(), 1int, 0int,
{
    if planned(order, name) {
        Ok(order)
    } else if index_in(stack, name) < stack.len() {
        Err(ErrView::Cycle(stack.subrange(index_in(stack, name), stack.len() as int).push(name)))
    } else {
        let ni = node_index(g, name);
        if ni >= g.len() {
            Err(ErrView::Missing(name))
        } else {
            match g[ni].lookup {
                LookupView::Missing => Err(ErrView::Missing(name)),
                LookupView::Failed => Err(ErrView::LoadFailed(name)),
                LookupView::Loaded(deps) => {
                    if stack.len() >= g.len() {
                        // Every name on the path is a distinct node of `g`, so
                        // the path is always shorter than `g`.
                        Err(ErrView::Cycle(stack.push(name)))
                    } else {
                        match visit_deps(g, pins, name, deps, 0, stack.push(name), order) {
                            Err(e) => Err(e),
                            Ok(o) => Ok(o.push(PlanView { name, is_dependency: is_dep, pinned: pin })),
                        }
                    }
                },
            }
        }
    }
}

/// Walk `deps[i..]` in order, each as a dependency of `parent`, at its
/// recorded pin if it has one.
pub open spec fn visit_deps(
    g: Seq<NodeView>,
    pins: Seq<(Seq<char>, Seq<char>)>,
    parent: Seq<char>,
    deps: Seq<Seq<char>>,
    i: int,
    stack: Seq<Seq<char>>,
    order: Seq<PlanView>,
) -> Result<Seq<PlanView>, ErrView>
    decreases g.len() - stack.len(), 2int, deps.len() - i,
{
    if i < 0 || i >= deps.len() {
        Ok(order)
    } else if !valid_name(deps[i]) {
        Err(ErrView::InvalidDependency(parent, deps[i], name_error(deps[i])))
    } else {
        match visit(g, pins, deps[i], pin_for(pins, deps[i]), true, stack, order) {
            Err(e) => Err(e),
            Ok(o) => visit_deps(g, pins, parent, deps, i + 1, stack, o),
        }
    }
}

/// The install order for `root`: leaf-most dependencies first, `root` last.
pub open spec fn resolve_spec(
    g: Seq<NodeView>,
    pins: Seq<(Seq<char>, Seq<char>)>,
    root: Seq<char>,
    pin: Option<Seq<char>>,
) -> Result<Seq<PlanView>, ErrView> {
    visit(g, pins, root, pin, false, seq![], seq![])
}

pub open spec fn result_view(r: Result<Vec<Plan>, ResolveError>) -> Result<Seq<PlanView>, ErrView> {
    match r {
        Ok(o) => Ok(order_view(o@)),
        Err(e) => Err(err_view(e)),
    }
}

pub open spec fn deep_names(v: Seq<Vec<char>>) -> Seq<Seq<char>> {
    v.map_values(|l: Vec<char>| l@)
}

fn planned_exec(order: &Vec<Plan>, name: &Vec<char>) -> (b: bool)
    ensures
        b == planned(order_view(order@), name@),
{
    let mut i: usize = 0;
    while i < order.len()
        invariant
            i <= order.len(),
            forall|j: int| 0 <= j < i ==> (#[trigger] order_view(order@)[j]).name != name@,
        decreases order.len() - i,
    {
        if eq_exec(&chars_of(order[i].name.as_str()), name) {
            assert(order_view(order@)[i as int].name == name@);
            return true;
        }
        i += 1;
    }
    false
}

proof fn lemma_index_in_at(s: Seq<Seq<char>>, x: Seq<char>, k: int)
    requires
        0 <= k <= s.len(),
        forall|j: int| 0 <= j < k ==> #[trigger] s[j] != x,
        k < s.len() ==> s[k] == x,
    ensures
        index_in(s, x) == k,
    decreases s.len(),
{
    if s.len() > 0 && s[0] != x {
        assert forall|j: int| 0 <= j < k - 1 implies #[trigger] s.drop_first()[j] != x by {
            assert(s.drop_first()[j] == s[j + 1]);
        }
        lemma_index_in_at(s.drop_first(), x, k - 1);
    }
}

proof fn lemma_node_index_at(g: Seq<NodeView>, name: Seq<char>, k: int)
    requires
        0 <= k <= g.len(),
        forall|j: int| 0 <= j < k ==> (#[trigger] g[j]).name != name,
        k < g.len() ==> g[k].name == name,
    ensures
        node_index(g, name) == k,
    decreases g.len(),
{
    if g.len() > 0 && g[0].name != name {
        assert forall|j: int| 0 <= j < k - 1 implies (#[trigger] g.drop_first()[j]).name != name by {
            assert(g.drop_first()[j] == g[j + 1]);
        }
        lemma_node_index_at(g.drop_first(), name, k - 1);
    }
}

fn strings_of_lines(v: &Vec<Vec<char>>, from: usize) -> (out: Vec<String>)
    requires
        from <= v.len(),
    ensures
        strs(out@) == deep_names(v@).subrange(from as int, v.len() as int),
{
    let mut out: Vec<String> = Vec::new();
    let mut i = from;
    while i < v.len()
        invariant
            from <= i <= v.len(),
            strs(out@) == deep_names(v@).subrange(from as int, i as int),
        decreases v.len() - i,
    {
        let ghost before = out@;
        out.push(string_of(&v[i]));
        i += 1;
        assert(strs(out@) =~= deep_names(v@).subrange(from as int, i as int)) by {
            assert(strs(out@) =~= strs(before).push(v@[i - 1]@));
        }
    }
    out
}

fn visit_v(
    g: &Vec<RecipeNode>,
    pins: &Vec<(String, String)>,
    name: &Vec<char>,
    pin: &Option<Vec<char>>,
    is_dep: bool,
    stack: &Vec<Vec<char>>,
    order: Vec<Plan>,
) -> (r: Result<Vec<Plan>, ResolveError>)
    ensures
        result_view(r) == visit(
            graph_view(g@),
            pins_view(pins@),
            name@,
            match *pin {
                Some(p) => Some(p@),
                None => None,
            },
            is_dep,
            deep_names(stack@),
            order_view(order@),
        ),
    decreases g@.len() - stack@.len(), 1int, 0int,
{
    let ghost gv = graph_view(g@);
    let ghost sv = deep_names(stack@);
    if planned_exec(&order, name) {
        return Ok(order);
    }
    let mut si: usize = 0;
    while si < stack.len() && !eq_exec(&stack[si], name)
        invariant
            si <= stack@.len(),
            sv == deep_names(stack@),
            forall|j: int| 0 <= j < si ==> #[trigger] sv[j] != name@,
        decreases stack.len() - si,
    {
        si += 1;
    }
    proof {
        lemma_index_in_at(sv, name@, si as int);
    }
    if si < stack.len() {
        let mut chain = strings_of_lines(stack, si);
        let ghost before = chain@;
        chain.push(string_of(name));
        assert(strs(chain@) =~= strs(before).push(name@));
        return Err(ResolveError::Cycle { chain });
    }
    let mut ni: usize = 0;
    while ni < g.len() && !eq_exec(&chars_of(g[ni].name.as_str()), name)
        invariant
            ni <= g@.len(),
            gv == graph_view(g@),
            forall|j: int| 0 <= j < ni ==> (#[trigger] gv[j]).name != name@,
        decreases g.len() - ni,
    {
        ni += 1;
    }
    proof {
        lemma_node_index_at(gv, name@, ni as int);
    }
    if ni == g.len() {
        return Err(ResolveError::Missing { name: string_of(name) });
    }
    match &g[ni].lookup {
        Lookup::Missing => Err(ResolveError::Missing { name: string_of(name) }),
        Lookup::Failed => Err(ResolveError::LoadFailed { name: string_of(name) }),
        Lookup::Loaded(deps) => {
            if stack.len() >= g.len() {
                let mut chain = strings_of_lines(stack, 0);
                let ghost before = chain@;
                chain.push(string_of(name));
                assert(deep_names(stack@).subrange(0, stack@.len() as int) =~= deep_names(stack@));
                assert(strs(chain@) =~= strs(before).push(name@));
                return Err(ResolveError::Cycle { chain });
            }
            let mut next_stack = stack.clone();
            next_stack.push(name.clone());
            assert(deep_names(next_stack@) =~= sv.push(name@));
            match visit_deps_v(g, pins, name, deps, 0, &next_stack, order) {
                Err(e) => Err(e),
                Ok(o) => {
                    let mut o = o;
                    let ghost before = o@;
                    let p = Plan {
                        name: string_of(name),
                        is_dependency: is_dep,
                        pinned: match pin {
                            Some(v) => Some(string_of(v)),
                            None => None,
                        },
                    };
                    o.push(p);
                    assert(order_view(o@) =~= order_view(before).push(plan_view(p)));
                    Ok(o)
                },
            }
        },
    }
}

fn pin_for_exec(pins: &Vec<(String, String)>, name: &Vec<char>) -> (r: Option<Vec<char>>)
    ensures
        match r {
            Some(v) => pin_for(pins_view(pins@), name@) == Some(v@),
            None => pin_for(pins_view(pins@), name@).is_none(),
        },
{
    let ghost pv = pins_view(pins@);
    let mut i: usize = 0;
    assert(pv.subrange(0, pv.len() as int) =~= pv);
    while i < pins.len()
        invariant
            i <= pins@.len(),
            pv == pins_view(pins@),
            pin_for(pv, name@) == pin_for(pv.subrange(i as int, pv.len() as int), name@),
        decreases pins.len() - i,
    {
        let ghost r = pv.subrange(i as int, pv.len() as int);
        assert(r[0] == (pins@[i as int].0@, pins@[i as int].1@));
        assert(r.drop_first() =~= pv.subrange(i + 1, pv.len() as int));
        if eq_exec(&chars_of(pins[i].0.as_str()), name) {
            return Some(chars_of(pins[i].1.as_str()));
        }
        i += 1;
    }
    None
}

fn visit_deps_v(
    g: &Vec<RecipeNode>,
    pins: &Vec<(String, String)>,
    parent: &Vec<char>,
    deps: &Vec<String>,
    i: usize,
    stack: &Vec<Vec<char>>,
    order: Vec<Plan>,
) -> (r: Result<Vec<Plan>, ResolveError>)
    requires
        i <= deps@.len(),
    ensures
        result_view(r) == visit_deps(
            graph_view(g@),
            pins_view(pins@),
            parent@,
            strs(deps@),
            i as int,
            deep_names(stack@),
            order_view(order@),
        ),
    decreases g@.len() - stack@.len(), 2int, deps@.len() - i,
{
    if i >= deps.len() {
        return Ok(order);
    }
    let dep = chars_of(deps[i].as_str());
    assert(strs(deps@)[i as int] == dep@);
    match validate_name(deps[i].as_str()) {
        Err(reason) => {
            return Err(ResolveError::InvalidDependency {
                recipe: string_of(parent),
                dependency: string_of(&dep),
                reason,
            });
        },
        Ok(()) => {},
    }
    let pin = pin_for_exec(pins, &dep);
    match visit_v(g, pins, &dep, &pin, true, stack, order) {
        Err(e) => Err(e),
        Ok(o) => visit_deps_v(g, pins, parent, deps, i + 1, stack, o),
    }
}

/// Order `root` and every transitive dependency so each recipe comes after
/// the recipes it depends on; `root` (with `root_pin`) comes last, and a
/// dependency with an entry in `installed_pins` (block name, version) keeps
/// that pin. Errors on a cycle (naming the whole chain), a missing recipe, a
/// manifest that did not load, or an invalid dependency name.
pub fn resolve_install_order(
    graph: &Vec<RecipeNode>,
    root: &str,
    root_pin: Option<&str>,
    installed_pins: &Vec<(String, String)>,
) -> (r: Result<Vec<Plan>, ResolveError>)
    ensures
        result_view(r) == resolve_spec(
            graph_view(graph@),
            pins_view(installed_pins@),
            root@,
            match root_pin {
                Some(p) => Some(p@),
                None => None,
            },
        ),
{
    let pin = match root_pin {
        Some(p) => Some(chars_of(p)),
        None => None,
    };
    let stack: Vec<Vec<char>> = Vec::new();
    assert(deep_names(stack@) =~= Seq::<Seq<char>>::empty());
    let order: Vec<Plan> = Vec::new();
    assert(order_view(order@) =~= Seq::<PlanView>::empty());
    visit_v(graph, installed_pins, &chars_of(root), &pin, false, &stack, order)
}


// ------------------------------------------------------------------ fetching

/// The `k`-th declared dependency of a node that loaded.
pub open spec fn dep_at(n: NodeView, k: int) -> Option<Seq<char>> {
    match n.lookup {
        LookupView::Loaded(d) => if 0 <= k < d.len() {
            Some(d[k])
        } else {
            None
        },
        _ => None,
    }
}

/// A name the walk from `root` can reach through what `g` already holds: the
/// root itself, or a (valid) dependency of a recipe that loaded.
pub open spec fn wanted(g: Seq<NodeView>, root: Seq<char>, x: Seq<char>) -> bool {
    x == root || exists|i: int, k: int| 0 <= i < g.len() && #[trigger] dep_at(g[i], k) == Some(x) && valid_name(x)
}

/// Some node of `g` already answers for `x`.
pub open spec fn known(g: Seq<NodeView>, x: Seq<char>) -> bool {
    exists|i: int| 0 <= i < g.len() && (#[trigger] g[i]).name == x
}

/// `x` is among the names to fetch.
pub open spec fn listed(out: Seq<(String, Option<String>)>, x: Seq<char>) -> bool {
    exists|j: int| 0 <= j < out.len() && (#[trigger] out[j]).0@ == x
}

/// The version to fetch `x` at: the requested pin for the root, the recorded
/// pin for a dependency.
pub open spec fn fetch_pin(
    pins: Seq<(Seq<char>, Seq<char>)>,
    root: Seq<char>,
    root_pin: Option<Seq<char>>,
    x: Seq<char>,
) -> Option<Seq<char>> {
    if x == root {
        root_pin
    } else {
        pin_for(pins, x)
    }
}

pub open spec fn opt_view(o: Option<String>) -> Option<Seq<char>> {
    match o {
        Some(s) => Some(s@),
        None => None,
    }
}

pub open spec fn opt_chars(o: Option<Vec<char>>) -> Option<Seq<char>> {
    match o {
        Some(v) => Some(v@),
        None => None,
    }
}

/// Each listed name is wanted and not yet known, listed once, with its pin.
pub open spec fn fetch_list_ok(
    g: Seq<NodeView>,
    pins: Seq<(Seq<char>, Seq<char>)>,
    root: Seq<char>,
    root_pin: Option<Seq<char>>,
    out: Seq<(String, Option<String>)>,
) -> bool {
    &&& forall|j: int| 0 <= j < out.len() ==> wanted(g, root, (#[trigger] out[j]).0@) && !known(g, out[j].0@)
    &&& forall|i: int, j: int| 0 <= i < j < out.len() ==> (#[trigger] out[i]).0@ != (#[trigger] out[j]).0@
    &&& forall|j: int|
        0 <= j < out.len() ==> opt_view((#[trigger] out[j]).1) == fetch_pin(pins, root, root_pin, out[j].0@)
}

fn known_exec(g: &Vec<RecipeNode>, x: &Vec<char>) -> (b: bool)
    ensures
        b == known(graph_view(g@), x@),
{
    let ghost gv = graph_view(g@);
    let mut i: usize = 0;
    while i < g.len()
        invariant
            i <= g.len(),
            gv == graph_view(g@),
            forall|j: int| 0 <= j < i ==> (#[trigger] gv[j]).name != x@,
        decreases g.len() - i,
    {
        if eq_exec(&chars_of(g[i].name.as_str()), x) {
            assert(gv[i as int].name == x@);
            return true;
        }
        i += 1;
    }
    false
}

fn listed_exec(out: &Vec<(String, Option<String>)>, x: &Vec<char>) -> (b: bool)
    ensures
        b == listed(out@, x@),
{
    let mut i: usize = 0;
    while i < out.len()
        invariant
            i <= out.len(),
            forall|j: int| 0 <= j < i ==> (#[trigger] out@[j]).0@ != x@,
        decreases out.len() - i,
    {
        if eq_exec(&chars_of(out[i].0.as_str()), x) {
            return true;
        }
        i += 1;
    }
    false
}

fn push_wanted(
    g: &Vec<RecipeNode>,
    pins: &Vec<(String, String)>,
    root: &Vec<char>,
    root_pin: &Option<Vec<char>>,
    x: &Vec<char>,
    out: &mut Vec<(String, Option<String>)>,
)
    requires
        wanted(graph_view(g@), root@, x@),
        fetch_list_ok(graph_view(g@), pins_view(pins@), root@, opt_chars(*root_pin), old(out)@),
    ensures
        fetch_list_ok(graph_view(g@), pins_view(pins@), root@, opt_chars(*root_pin), final(out)@),
        !known(graph_view(g@), x@) ==> listed(final(out)@, x@),
        forall|y: Seq<char>| listed(old(out)@, y) ==> listed(final(out)@, y),
{
    if known_exec(g, x) || listed_exec(out, x) {
        return;
    }
    let pin = if eq_exec(x, root) {
        match root_pin {
            Some(p) => Some(string_of(p)),
            None => None,
        }
    } else {
        match pin_for_exec(pins, x) {
            Some(p) => Some(string_of(&p)),
            None => None,
        }
    };
    let ghost before = out@;
    out.push((string_of(x), pin));
    assert(out@[before.len() as int].0@ == x@);
    assert forall|y: Seq<char>| listed(before, y) implies listed(out@, y) by {
        let j = choose|j: int| 0 <= j < before.len() && (#[trigger] before[j]).0@ == y;
        assert(out@[j] == before[j]);
    }
}

/// The names the walk from `root` still has to fetch, given the nodes
/// fetched so far, each with the version to fetch it at: every reachable
/// name (the root, and each valid dependency of a recipe that loaded) that
/// no node answers for yet, once.
pub fn pending_fetches(
    graph: &Vec<RecipeNode>,
    root: &str,
    root_pin: Option<&str>,
    installed_pins: &Vec<(String, String)>,
) -> (out: Vec<(String, Option<String>)>)
    ensures
        fetch_list_ok(
            graph_view(graph@),
            pins_view(installed_pins@),
            root@,
            match root_pin {
                Some(p) => Some(p@),
                None => None,
            },
            out@,
        ),
        forall|x: Seq<char>| wanted(graph_view(graph@), root@, x) && !known(graph_view(graph@), x) ==> listed(out@, x),
{
    let ghost gv = graph_view(graph@);
    let ghost pv = pins_view(installed_pins@);
    let rv = chars_of(root);
    let rp: Option<Vec<char>> = match root_pin {
        Some(p) => Some(chars_of(p)),
        None => None,
    };
    let mut out: Vec<(String, Option<String>)> = Vec::new();
    push_wanted(graph, installed_pins, &rv, &rp, &rv, &mut out);
    let mut i: usize = 0;
    while i < graph.len()
        invariant
            i <= graph.len(),
            gv == graph_view(graph@),
            pv == pins_view(installed_pins@),
            rv@ == root@,
            opt_chars(rp) == (match root_pin {
                Some(p) => Some(p@),
                None => None,
            }),
            fetch_list_ok(gv, pv, root@, opt_chars(rp), out@),
            !known(gv, root@) ==> listed(out@, root@),
            forall|ii: int, kk: int|
                0 <= ii < i && (#[trigger] dep_at(gv[ii], kk)) is Some && valid_name(dep_at(gv[ii], kk)->0)
                    && !known(gv, dep_at(gv[ii], kk)->0) ==> listed(out@, dep_at(gv[ii], kk)->0),
        decreases graph.len() - i,
    {
        match &graph[i].lookup {
            Lookup::Loaded(deps) => {
                assert(gv[i as int].lookup == LookupView::Loaded(strs(deps@)));
                let mut k: usize = 0;
                while k < deps.len()
                    invariant
                        k <= deps@.len(),
                        i < graph.len(),
                        gv[i as int].lookup == LookupView::Loaded(strs(deps@)),
                        gv == graph_view(graph@),
                        pv == pins_view(installed_pins@),
                        rv@ == root@,
                        fetch_list_ok(gv, pv, root@, opt_chars(rp), out@),
                        !known(gv, root@) ==> listed(out@, root@),
                        forall|ii: int, kk: int|
                            0 <= ii < i && (#[trigger] dep_at(gv[ii], kk)) is Some && valid_name(
                                dep_at(gv[ii], kk)->0,
                            ) && !known(gv, dep_at(gv[ii], kk)->0) ==> listed(out@, dep_at(gv[ii], kk)->0),
                        forall|kk: int|
                            0 <= kk < k && (#[trigger] dep_at(gv[i as int], kk)) is Some && valid_name(
                                dep_at(gv[i as int], kk)->0,
                            ) && !known(gv, dep_at(gv[i as int], kk)->0) ==> listed(out@, dep_at(gv[i as int], kk)->0),
                    decreases deps.len() - k,
                {
                    let d = chars_of(deps[k].as_str());
                    assert(strs(deps@)[k as int] == d@);
                    assert(dep_at(gv[i as int], k as int) == Some(d@));
                    let ok = match validate_name(deps[k].as_str()) {
                        Ok(()) => true,
                        Err(_) => false,
                    };
                    if ok {
                        assert(wanted(gv, root@, d@));
                        push_wanted(graph, installed_pins, &rv, &rp, &d, &mut out);
                    }
                    k += 1;
                }
            },
            _ => {},
        }
        i += 1;
    }
    assert forall|x: Seq<char>| wanted(gv, root@, x) && !known(gv, x) implies listed(out@, x) by {
        if x != root@ {
            let (ii, kk) = choose|ii: int, kk: int| 0 <= ii < gv.len() && #[trigger] dep_at(gv[ii], kk) == Some(x)
                && valid_name(x);
            assert(dep_at(gv[ii], kk) is Some);
        }
    }
    out
}

// ------------------------------------------------------------------ laws

/// The dependencies the graph records for `name` (none unless it loaded).
pub open spec fn declared_deps(g: Seq<NodeView>, name: Seq<char>) -> Seq<Seq<char>> {
    let ni = node_index(g, name);
    if 0 <= ni < g.len() {
        match g[ni].lookup {
            LookupView::Loaded(d) => d,
            _ => seq![],
        }
    } else {
        seq![]
    }
}

/// `x` is planned somewhere before position `k`.
pub open spec fn planned_before(o: Seq<PlanView>, k: int, x: Seq<char>) -> bool {
    exists|m: int| 0 <= m < k && (#[trigger] o[m]).name == x
}

/// Every planned recipe comes after each of its declared dependencies.
pub open spec fn deps_first(g: Seq<NodeView>, o: Seq<PlanView>) -> bool {
    forall|k: int, j: int|
        0 <= k < o.len() && 0 <= j < declared_deps(g, o[k].name).len() ==> planned_before(
            o,
            k,
            #[trigger] declared_deps(g, o[k].name)[j],
        )
}

/// No recipe is planned twice.
pub open spec fn distinct_names(o: Seq<PlanView>) -> bool {
    forall|i: int, j: int| 0 <= i < j < o.len() ==> (#[trigger] o[i]).name != (#[trigger] o[j]).name
}

/// Every planned dependency carries the pin recorded for it.
pub open spec fn dep_pins(pins: Seq<(Seq<char>, Seq<char>)>, o: Seq<PlanView>) -> bool {
    forall|k: int| 0 <= k < o.len() && (#[trigger] o[k]).is_dependency ==> o[k].pinned == pin_for(pins, o[k].name)
}

pub open spec fn order_inv(g: Seq<NodeView>, pins: Seq<(Seq<char>, Seq<char>)>, o: Seq<PlanView>) -> bool {
    distinct_names(o) && deps_first(g, o) && dep_pins(pins, o)
}

proof fn lemma_node_index_range(g: Seq<NodeView>, name: Seq<char>)
    ensures
        0 <= node_index(g, name) <= g.len(),
    decreases g.len(),
{
    if g.len() > 0 && g[0].name != name {
        lemma_node_index_range(g.drop_first(), name);
    }
}

proof fn lemma_index_in_contains(s: Seq<Seq<char>>, x: Seq<char>)
    ensures
        0 <= index_in(s, x) <= s.len(),
        index_in(s, x) < s.len() <==> s.contains(x),
        index_in(s, x) < s.len() ==> s[index_in(s, x)] == x,
    decreases s.len(),
{
    if s.len() > 0 && s[0] != x {
        lemma_index_in_contains(s.drop_first(), x);
        if s.contains(x) {
            let k = choose|k: int| 0 <= k < s.len() && s[k] == x;
            assert(k > 0);
            assert(s.drop_first()[k - 1] == x);
        }
        if s.drop_first().contains(x) {
            let k = choose|k: int| 0 <= k < s.drop_first().len() && s.drop_first()[k] == x;
            assert(s[k + 1] == x);
        }
    } else if s.len() > 0 {
        assert(s[0] == x);
    }
}

proof fn lemma_visit_order(
    g: Seq<NodeView>,
    pins: Seq<(Seq<char>, Seq<char>)>,
    name: Seq<char>,
    pin: Option<Seq<char>>,
    is_dep: bool,
    stack: Seq<Seq<char>>,
    order: Seq<PlanView>,
)
    requires
        order_inv(g, pins, order),
        is_dep ==> pin == pin_for(pins, name),
    ensures
        visit(g, pins, name, pin, is_dep, stack, order) matches Ok(o) ==> {
            &&& order_inv(g, pins, o)
            &&& order.len() <= o.len()
            &&& o.subrange(0, order.len() as int) == order
            &&& planned(o, name)
            &&& forall|x: Seq<char>| stack.contains(x) && planned(o, x) ==> planned(order, x)
            &&& if planned(order, name) {
                o == order
            } else {
                &&& o.len() > order.len()
                &&& o.last() == (PlanView { name, is_dependency: is_dep, pinned: pin })
                &&& forall|k: int| order.len() <= k < o.len() - 1 ==> (#[trigger] o[k]).is_dependency
            }
        },
    decreases g.len() - stack.len(), 1int, 0int,
{
    if planned(order, name) {
        assert(order.subrange(0, order.len() as int) =~= order);
        return;
    }
    lemma_index_in_contains(stack, name);
    if index_in(stack, name) < stack.len() {
        return;
    }
    let ni = node_index(g, name);
    lemma_node_index_range(g, name);
    if ni >= g.len() {
        return;
    }
    match g[ni].lookup {
        LookupView::Loaded(deps) => {
            if stack.len() >= g.len() {
                return;
            }
            let st2 = stack.push(name);
            lemma_visit_deps_order(g, pins, name, deps, 0, st2, order);
            match visit_deps(g, pins, name, deps, 0, st2, order) {
                Err(_) => {},
                Ok(o1) => {
                    let p = PlanView { name, is_dependency: is_dep, pinned: pin };
                    let o = o1.push(p);
                    assert(st2.contains(name)) by {
                        assert(st2[stack.len() as int] == name);
                    }
                    assert(!planned(o1, name));
                    assert(declared_deps(g, name) == deps);
                    assert forall|i: int, j: int| 0 <= i < j < o.len() implies (#[trigger] o[i]).name
                        != (#[trigger] o[j]).name by {
                        if j == o.len() - 1 {
                            assert(o[i] == o1[i]);
                            if o1[i].name == name {
                                assert(planned(o1, name));
                            }
                        } else {
                            assert(o[i] == o1[i] && o[j] == o1[j]);
                        }
                    }
                    assert forall|k: int, j: int|
                        0 <= k < o.len() && 0 <= j < declared_deps(g, o[k].name).len() implies planned_before(
                        o,
                        k,
                        #[trigger] declared_deps(g, o[k].name)[j],
                    ) by {
                        let d = declared_deps(g, o[k].name)[j];
                        if k == o.len() - 1 {
                            assert(o[k].name == name);
                            assert(planned(o1, d));
                            let m = choose|m: int| 0 <= m < o1.len() && (#[trigger] o1[m]).name == d;
                            assert(o[m] == o1[m]);
                        } else {
                            assert(o[k] == o1[k]);
                            assert(planned_before(o1, k, d));
                            let m = choose|m: int| 0 <= m < k && (#[trigger] o1[m]).name == d;
                            assert(o[m] == o1[m]);
                        }
                    }
                    assert forall|k: int| 0 <= k < o.len() && (#[trigger] o[k]).is_dependency implies o[k].pinned
                        == pin_for(pins, o[k].name) by {
                        if k < o.len() - 1 {
                            assert(o[k] == o1[k]);
                        }
                    }
                    assert(o.subrange(0, order.len() as int) =~= o1.subrange(0, order.len() as int));
                    assert(o[o.len() - 1].name == name);
                    assert forall|x: Seq<char>| stack.contains(x) && planned(o, x) implies planned(order, x) by {
                        let m = choose|m: int| 0 <= m < o.len() && (#[trigger] o[m]).name == x;
                        if m < o1.len() {
                            assert(o[m] == o1[m]);
                            let w = choose|w: int| 0 <= w < stack.len() && stack[w] == x;
                            assert(st2[w] == x);
                            assert(st2.contains(x));
                        } else {
                            assert(x == name);
                        }
                    }
                    assert forall|k: int| order.len() <= k < o.len() - 1 implies (#[trigger] o[k]).is_dependency by {
                        assert(o[k] == o1[k]);
                    }
                },
            }
        },
        _ => {},
    }
}

proof fn lemma_visit_deps_order(
    g: Seq<NodeView>,
    pins: Seq<(Seq<char>, Seq<char>)>,
    parent: Seq<char>,
    deps: Seq<Seq<char>>,
    i: int,
    stack: Seq<Seq<char>>,
    order: Seq<PlanView>,
)
    requires
        order_inv(g, pins, order),
        0 <= i,
    ensures
        visit_deps(g, pins, parent, deps, i, stack, order) matches Ok(o) ==> {
            &&& order_inv(g, pins, o)
            &&& order.len() <= o.len()
            &&& o.subrange(0, order.len() as int) == order
            &&& forall|j: int| i <= j < deps.len() ==> planned(o, #[trigger] deps[j])
            &&& forall|x: Seq<char>| stack.contains(x) && planned(o, x) ==> planned(order, x)
            &&& forall|k: int| order.len() <= k < o.len() ==> (#[trigger] o[k]).is_dependency
        },
    decreases g.len() - stack.len(), 2int, deps.len() - i,
{
    if i >= deps.len() {
        assert(order.subrange(0, order.len() as int) =~= order);
        return;
    }
    if !valid_name(deps[i]) {
        return;
    }
    let d = deps[i];
    lemma_visit_order(g, pins, d, pin_for(pins, d), true, stack, order);
    match visit(g, pins, d, pin_for(pins, d), true, stack, order) {
        Err(_) => {},
        Ok(o1) => {
            lemma_visit_deps_order(g, pins, parent, deps, i + 1, stack, o1);
            match visit_deps(g, pins, parent, deps, i + 1, stack, o1) {
                Err(_) => {},
                Ok(o) => {
                    assert(o.subrange(0, order.len() as int) =~= o.subrange(0, o1.len() as int).subrange(
                        0,
                        order.len() as int,
                    ));
                    assert forall|j: int| i <= j < deps.len() implies planned(o, #[trigger] deps[j]) by {
                        if j == i {
                            let m = choose|m: int| 0 <= m < o1.len() && (#[trigger] o1[m]).name == d;
                            assert(o[m] == o.subrange(0, o1.len() as int)[m]);
                        }
                    }
                    assert forall|x: Seq<char>| stack.contains(x) && planned(o, x) implies planned(order, x) by {
                        if planned(o1, x) {
                        } else {
                        }
                    }
                    assert forall|k: int| order.len() <= k < o.len() implies (#[trigger] o[k]).is_dependency by {
                        if k < o1.len() {
                            assert(o[k] == o.subrange(0, o1.len() as int)[k]);
                            if !planned(order, d) && k == o1.len() - 1 {
                                assert(o1[k] == o1.last());
                            }
                        }
                    }
                },
            }
        },
    }
}

/// What `resolve_install_order` promises of a plan it returns: the root comes
/// last with the requested pin, everything before it is a dependency at its
/// recorded pin, no recipe appears twice, and every recipe comes after all of
/// its declared dependencies.
pub proof fn install_order_is_topological(
    g: Seq<NodeView>,
    pins: Seq<(Seq<char>, Seq<char>)>,
    root: Seq<char>,
    pin: Option<Seq<char>>,
)
    requires
        resolve_spec(g, pins, root, pin) is Ok,
    ensures
        ({
            let o = resolve_spec(g, pins, root, pin)->Ok_0;
            &&& o.len() >= 1
            &&& o.last() == (PlanView { name: root, is_dependency: false, pinned: pin })
            &&& forall|k: int| 0 <= k < o.len() - 1 ==> (#[trigger] o[k]).is_dependency && o[k].pinned == pin_for(
                pins,
                o[k].name,
            )
            &&& distinct_names(o)
            &&& deps_first(g, o)
        }),
{
    let empty: Seq<PlanView> = seq![];
    lemma_visit_order(g, pins, root, pin, false, seq![], empty);
    assert(!planned(empty, root));
}

/// The walk's current path: distinct recipes, each a node of the graph.
pub open spec fn path_ok(g: Seq<NodeView>, stack: Seq<Seq<char>>) -> bool {
    &&& forall|i: int, j: int| 0 <= i < j < stack.len() ==> (#[trigger] stack[i]) != (#[trigger] stack[j])
    &&& forall|i: int| 0 <= i < stack.len() ==> node_index(g, #[trigger] stack[i]) < g.len()
}

proof fn lemma_node_index_found(g: Seq<NodeView>, name: Seq<char>)
    requires
        node_index(g, name) < g.len(),
    ensures
        0 <= node_index(g, name),
        g[node_index(g, name)].name == name,
    decreases g.len(),
{
    if g.len() > 0 && g[0].name != name {
        lemma_node_index_found(g.drop_first(), name);
        lemma_node_index_range(g.drop_first(), name);
        assert(g[node_index(g, name)] == g.drop_first()[node_index(g.drop_first(), name)]);
    }
}

/// A path of distinct graph nodes, extended by one more node not on it, is
/// no longer than the graph.
proof fn lemma_path_shorter(g: Seq<NodeView>, stack: Seq<Seq<char>>, name: Seq<char>)
    requires
        path_ok(g, stack),
        !stack.contains(name),
        node_index(g, name) < g.len(),
    ensures
        stack.len() < g.len(),
{
    let s2 = stack.push(name);
    let idx: Seq<int> = s2.map_values(|x: Seq<char>| node_index(g, x));
    assert forall|i: int| 0 <= i < s2.len() implies node_index(g, #[trigger] s2[i]) < g.len() by {
        if i < stack.len() {
            assert(s2[i] == stack[i]);
        }
    }
    assert(idx.no_duplicates()) by {
        assert forall|i: int, j: int| 0 <= i < idx.len() && 0 <= j < idx.len() && i != j implies idx[i]
            != idx[j] by {
            assert(node_index(g, s2[i]) < g.len());
            assert(node_index(g, s2[j]) < g.len());
            lemma_node_index_found(g, s2[i]);
            lemma_node_index_found(g, s2[j]);
            if i < stack.len() && j < stack.len() {
                assert(s2[i] == stack[i] && s2[j] == stack[j]);
                if i < j {
                    assert(stack[i] != stack[j]);
                } else {
                    assert(stack[j] != stack[i]);
                }
            } else if i < stack.len() {
                assert(s2[i] == stack[i]);
                assert(stack.contains(stack[i]));
            } else {
                assert(s2[j] == stack[j]);
                assert(stack.contains(stack[j]));
            }
        }
    }
    idx.unique_seq_to_set();
    assert forall|k: int| idx.to_set().contains(k) implies vstd::set_lib::set_int_range(0, g.len() as int).contains(k) by {
        let i = choose|i: int| 0 <= i < idx.len() && idx[i] == k;
        lemma_node_index_range(g, s2[i]);
    }
    vstd::set_lib::lemma_int_range(0, g.len() as int);
    vstd::set_lib::lemma_len_subset(idx.to_set(), vstd::set_lib::set_int_range(0, g.len() as int));
}

pub open spec fn closed_chain(c: Seq<Seq<char>>) -> bool {
    c.len() >= 2 && c[0] == c.last()
}

proof fn lemma_visit_cycle(
    g: Seq<NodeView>,
    pins: Seq<(Seq<char>, Seq<char>)>,
    name: Seq<char>,
    pin: Option<Seq<char>>,
    is_dep: bool,
    stack: Seq<Seq<char>>,
    order: Seq<PlanView>,
)
    requires
        path_ok(g, stack),
    ensures
        visit(g, pins, name, pin, is_dep, stack, order) matches Err(ErrView::Cycle(c)) ==> closed_chain(c),
    decreases g.len() - stack.len(), 1int, 0int,
{
    if planned(order, name) {
        return;
    }
    lemma_index_in_contains(stack, name);
    let k = index_in(stack, name);
    if k < stack.len() {
        let c = stack.subrange(k, stack.len() as int).push(name);
        assert(c[0] == stack[k]);
        return;
    }
    let ni = node_index(g, name);
    lemma_node_index_range(g, name);
    if ni >= g.len() {
        return;
    }
    match g[ni].lookup {
        LookupView::Loaded(deps) => {
            lemma_path_shorter(g, stack, name);
            let st2 = stack.push(name);
            assert(path_ok(g, st2)) by {
                assert forall|i: int, j: int| 0 <= i < j < st2.len() implies (#[trigger] st2[i]) != (#[trigger] st2[j]) by {
                    if j == stack.len() {
                        assert(st2[i] == stack[i]);
                        assert(stack.contains(stack[i]));
                    } else {
                        assert(st2[i] == stack[i] && st2[j] == stack[j]);
                    }
                }
                assert forall|i: int| 0 <= i < st2.len() implies node_index(g, #[trigger] st2[i]) < g.len() by {
                    if i < stack.len() {
                        assert(st2[i] == stack[i]);
                    }
                }
            }
            lemma_visit_deps_cycle(g, pins, name, deps, 0, st2, order);
        },
        _ => {},
    }
}

proof fn lemma_visit_deps_cycle(
    g: Seq<NodeView>,
    pins: Seq<(Seq<char>, Seq<char>)>,
    parent: Seq<char>,
    deps: Seq<Seq<char>>,
    i: int,
    stack: Seq<Seq<char>>,
    order: Seq<PlanView>,
)
    requires
        path_ok(g, stack),
    ensures
        visit_deps(g, pins, parent, deps, i, stack, order) matches Err(ErrView::Cycle(c)) ==> closed_chain(c),
    decreases g.len() - stack.len(), 2int, deps.len() - i,
{
    if i < 0 || i >= deps.len() || !valid_name(deps[i]) {
        return;
    }
    let d = deps[i];
    lemma_visit_cycle(g, pins, d, pin_for(pins, d), true, stack, order);
    match visit(g, pins, d, pin_for(pins, d), true, stack, order) {
        Err(_) => {},
        Ok(o1) => {
            lemma_visit_deps_cycle(g, pins, parent, deps, i + 1, stack, o1);
        },
    }
}

/// A dependency cycle is reported as the chain that closes it: it starts and
/// ends with the same recipe.
pub proof fn cycle_chain_is_closed(
    g: Seq<NodeView>,
    pins: Seq<(Seq<char>, Seq<char>)>,
    root: Seq<char>,
    pin: Option<Seq<char>>,
)
    ensures
        resolve_spec(g, pins, root, pin) matches Err(ErrView::Cycle(c)) ==> closed_chain(c),
{
    lemma_visit_cycle(g, pins, root, pin, false, seq![], seq![]);
}


// ------------------------------------------------------------------ success

/// `rank` witnesses that the graph has no cycle: every node is loaded, each
/// of its dependencies is a valid name that the graph lists and has a lower
/// rank, and every rank is below the graph's size.
pub open spec fn ranked(g: Seq<NodeView>, rank: spec_fn(Seq<char>) -> nat) -> bool {
    forall|i: int|
        0 <= i < g.len() ==> {
            &&& rank((#[trigger] g[i]).name) < g.len()
            &&& g[i].lookup matches LookupView::Loaded(deps) && forall|k: int|
                0 <= k < deps.len() ==> {
                    &&& valid_name(#[trigger] deps[k])
                    &&& node_index(g, deps[k]) < g.len()
                    &&& rank(deps[k]) < rank(g[i].name)
                }
        }
}

/// The walk's path lies above `name` by at least one rank per step.
pub open spec fn path_above(stack: Seq<Seq<char>>, rank: spec_fn(Seq<char>) -> nat, r: nat, bound: nat) -> bool {
    forall|j: int| 0 <= j < stack.len() ==> rank(#[trigger] stack[j]) >= r + (stack.len() - j) && rank(stack[j]) < bound
}

proof fn lemma_visit_ok(
    g: Seq<NodeView>,
    pins: Seq<(Seq<char>, Seq<char>)>,
    rank: spec_fn(Seq<char>) -> nat,
    name: Seq<char>,
    pin: Option<Seq<char>>,
    is_dep: bool,
    stack: Seq<Seq<char>>,
    order: Seq<PlanView>,
)
    requires
        ranked(g, rank),
        node_index(g, name) < g.len(),
        path_above(stack, rank, rank(name), g.len()),
    ensures
        visit(g, pins, name, pin, is_dep, stack, order) is Ok,
    decreases g.len() - stack.len(), 1int, 0int,
{
    if !planned(order, name) {
        assert forall|j: int| 0 <= j < stack.len() implies #[trigger] stack[j] != name by {
            assert(rank(stack[j]) >= rank(name) + (stack.len() - j));
        }
        lemma_index_in_at(stack, name, stack.len() as int);
        let ni = node_index(g, name);
        lemma_node_index_found(g, name);
        assert(rank(g[ni].name) < g.len());
        if stack.len() > 0 {
            assert(rank(stack[0]) >= rank(name) + stack.len());
            assert(rank(stack[0]) < g.len());
        }
        assert(stack.len() < g.len());
        match g[ni].lookup {
            LookupView::Loaded(deps) => {
                let st = stack.push(name);
                assert forall|j: int| 0 <= j < st.len() implies rank(#[trigger] st[j]) >= rank(name) + (st.len()
                    - 1 - j) && rank(st[j]) < g.len() by {
                    if j < stack.len() {
                        assert(st[j] == stack[j]);
                    }
                }
                lemma_visit_deps_ok(g, pins, rank, name, deps, 0, st, order);
            },
            _ => {},
        }
    }
}

proof fn lemma_visit_deps_ok(
    g: Seq<NodeView>,
    pins: Seq<(Seq<char>, Seq<char>)>,
    rank: spec_fn(Seq<char>) -> nat,
    parent: Seq<char>,
    deps: Seq<Seq<char>>,
    i: int,
    stack: Seq<Seq<char>>,
    order: Seq<PlanView>,
)
    requires
        ranked(g, rank),
        0 <= i,
        stack.len() <= g.len(),
        forall|k: int|
            0 <= k < deps.len() ==> {
                &&& valid_name(#[trigger] deps[k])
                &&& node_index(g, deps[k]) < g.len()
                &&& rank(deps[k]) < rank(parent)
            },
        forall|j: int| 0 <= j < stack.len() ==> rank(#[trigger] stack[j]) >= rank(parent) + (stack.len() - 1 - j)
            && rank(stack[j]) < g.len(),
    ensures
        visit_deps(g, pins, parent, deps, i, stack, order) is Ok,
    decreases g.len() - stack.len(), 2int, deps.len() - i,
{
    if i < deps.len() {
        let d = deps[i];
        assert(valid_name(d) && node_index(g, d) < g.len() && rank(d) < rank(parent));
        assert forall|j: int| 0 <= j < stack.len() implies rank(#[trigger] stack[j]) >= rank(d) + (stack.len() - j)
            && rank(stack[j]) < g.len() by {}
        lemma_visit_ok(g, pins, rank, d, pin_for(pins, d), true, stack, order);
        let o = visit(g, pins, d, pin_for(pins, d), true, stack, order)->Ok_0;
        lemma_visit_deps_ok(g, pins, rank, parent, deps, i + 1, stack, o);
    }
}

/// Resolution succeeds on a graph without cycles whose recipes all loaded
/// and whose dependencies are all valid names the graph lists; `rank` is
/// the witness that no cycle exists.
pub proof fn acyclic_graph_resolves(
    g: Seq<NodeView>,
    pins: Seq<(Seq<char>, Seq<char>)>,
    root: Seq<char>,
    pin: Option<Seq<char>>,
    rank: spec_fn(Seq<char>) -> nat,
)
    requires
        ranked(g, rank),
        node_index(g, root) < g.len(),
    ensures
        resolve_spec(g, pins, root, pin) is Ok,
{
    lemma_visit_ok(g, pins, rank, root, pin, false, seq![], seq![]);
}

} // verus!
