//! Propagation of retained damage through the command tree: isolated, filter and mask inputs
//! get their own damage scope, filters spread damage by their dependency, and backdrops that
//! sample changed pixels are marked dirty.
//!
//! A filter's dependency is computed from its parameters by the caller and handed in as
//! integer data: the input it samples, the output it covers, and how far an input change
//! reaches in the output.
use vstd::prelude::*;
use crate::bounds::Bounds;
use crate::commands::{command_refs_ok, Command, CommandTree, LayerTag};
use crate::compile::{can_fuse_spec, layer_owner};
use crate::damage_buffer::{kept_unique, unique_nonempty, DamageBuffer};
use crate::retained::{PersistentLayerKey, RetainedDamage, RetainedNodeId};

verus! {

/// How far a change of one input pixel reaches in a filter's output.
#[derive(Clone, Copy, Debug, PartialEq, Eq, Structural)]
pub enum DependencyReach {
    /// A changed input rectangle changes the output rectangle grown by these amounts on each
    /// side (negative amounts move the edge inwards, as an offset does).
    Outset { left: i32, top: i32, right: i32, bottom: i32 },
    /// Any change of the input can change the whole output.
    Whole,
}

/// The damage dependency of one filter: the input it samples, the output it covers, and the
/// reach of a change.
#[derive(Clone, Copy, Debug, PartialEq, Eq, Structural)]
pub struct FilterDependency {
    pub input: Bounds,
    pub output: Bounds,
    pub reach: DependencyReach,
}

/// `v` held to the range of `i32`.
pub open spec fn clamp_i32(v: int) -> i32 {
    if v < i32::MIN {
        i32::MIN
    } else if v > i32::MAX {
        i32::MAX
    } else {
        v as i32
    }
}

/// The output a changed rectangle `b` affects: nothing when `b` misses the input, else the
/// reach of its part inside the input, within the output.
pub open spec fn affected_spec(dep: FilterDependency, b: Bounds) -> Bounds {
    let d = b.intersect_spec(dep.input);
    if d.empty_spec() {
        Bounds { x0: 0, y0: 0, x1: 0, y1: 0 }
    } else {
        match dep.reach {
            DependencyReach::Whole => dep.output,
            DependencyReach::Outset { left, top, right, bottom } => Bounds {
                x0: clamp_i32(d.x0 - left),
                y0: clamp_i32(d.y0 - top),
                x1: clamp_i32(d.x1 + right),
                y1: clamp_i32(d.y1 + bottom),
            }.intersect_spec(dep.output),
        }
    }
}

fn clamp_to_i32(v: i64) -> (r: i32)
    ensures
        r == clamp_i32(v as int),
{
    if v < i32::MIN as i64 {
        i32::MIN
    } else if v > i32::MAX as i64 {
        i32::MAX
    } else {
        v as i32
    }
}

/// The output rectangle that a change of `b` affects.
pub fn affected_output(dep: FilterDependency, b: Bounds) -> (r: Bounds)
    ensures
        r == affected_spec(dep, b),
{
    let d = b.intersect(dep.input);
    if d.is_empty() {
        return Bounds::new(0, 0, 0, 0);
    }
    match dep.reach {
        DependencyReach::Whole => dep.output,
        DependencyReach::Outset { left, top, right, bottom } => {
            let grown = Bounds::new(
                clamp_to_i32(d.x0 as i64 - left as i64),
                clamp_to_i32(d.y0 as i64 - top as i64),
                clamp_to_i32(d.x1 as i64 + right as i64),
                clamp_to_i32(d.y1 as i64 + bottom as i64),
            );
            grown.intersect(dep.output)
        },
    }
}

/// The damage traversal's state: the buffer's rectangles, where its visible range starts, and
/// the dirty backdrops found so far.
#[verifier::ext_equal]
pub struct DamageState {
    pub values: Seq<Bounds>,
    pub start: nat,
    pub dirty: Seq<RetainedNodeId>,
}

/// The rectangles visible to the current input.
pub open spec fn visible(st: DamageState) -> Seq<Bounds> {
    st.values.subrange(st.start as int, st.values.len() as int)
}

pub open spec fn push_unique_spec(st: DamageState, b: Bounds) -> DamageState {
    if !b.empty_spec() && !visible(st).contains(b) {
        DamageState { values: st.values.push(b), start: st.start, dirty: st.dirty }
    } else {
        st
    }
}

/// Opens an isolated input seeded with the damage no node owns.
pub open spec fn enter_spec(st: DamageState, seeds: Seq<Bounds>) -> DamageState {
    DamageState { values: st.values + seeds, start: st.values.len(), dirty: st.dirty }
}

/// Closes the isolated input opened over the visible range `parent_start..parent_end`.
pub open spec fn finish_spec(st: DamageState, parent_start: nat, parent_end: nat) -> DamageState {
    DamageState {
        values: st.values.subrange(0, parent_end as int) + kept_unique(
            st.values.subrange(parent_start as int, parent_end as int),
            visible(st),
        ),
        start: parent_start,
        dirty: st.dirty,
    }
}

/// Adds the recorded damage of node `id`, if it has any.
pub open spec fn node_damage_spec(
    pending: Map<RetainedNodeId, Bounds>,
    id: RetainedNodeId,
    st: DamageState,
) -> DamageState {
    if pending.contains_key(id) {
        push_unique_spec(st, pending[id])
    } else {
        st
    }
}

/// Marks backdrop `owner` dirty, once.
pub open spec fn add_dirty(st: DamageState, owner: Option<RetainedNodeId>) -> DamageState {
    match owner {
        Some(id) => if st.dirty.contains(id) {
            st
        } else {
            DamageState { values: st.values, start: st.start, dirty: st.dirty.push(id) }
        },
        None => st,
    }
}

/// Spreads visible damage `i..n` through a filter: each rectangle's affected output joins the
/// visible range. Also tells whether any rectangle affected the output.
pub open spec fn filter_from(dep: FilterDependency, st: DamageState, i: int, n: int) -> (
    bool,
    DamageState,
)
    decreases n - i,
{
    if i >= n {
        (false, st)
    } else {
        let a = affected_spec(dep, visible(st)[i]);
        let next = if !a.empty_spec() {
            push_unique_spec(st, a)
        } else {
            st
        };
        let rest = filter_from(dep, next, i + 1, n);
        (rest.0 || !a.empty_spec(), rest.1)
    }
}

/// A filter applied to the visible damage.
pub open spec fn filter_spec(dep: FilterDependency, st: DamageState) -> (bool, DamageState) {
    filter_from(dep, st, 0, visible(st).len() as int)
}

pub open spec fn retained_id(retained: Option<PersistentLayerKey>) -> Option<RetainedNodeId> {
    match retained {
        Some(key) => Some(key.id),
        None => None,
    }
}

/// Every filter and backdrop layer of the tree has a dependency in `deps`, indexed by the
/// layer's draw.
pub open spec fn deps_cover(lists: Seq<Seq<Command>>, deps_len: int) -> bool {
    forall|i: int, k: int|
        0 <= i < lists.len() && 0 <= k < lists[i].len() ==> match #[trigger] lists[i][k] {
            Command::Layer { layer, draw, .. } => (layer == LayerTag::Filter || layer
                == LayerTag::Backdrop) ==> draw < deps_len,
            _ => true,
        }
}

/// Propagates the damage of list `id` from command `k` on, with `owner` the enclosing retained
/// node.
pub open spec fn propagate_from(
    lists: Seq<Seq<Command>>,
    id: int,
    k: int,
    pending: Map<RetainedNodeId, Bounds>,
    unattributed: Seq<Bounds>,
    deps: Seq<FilterDependency>,
    owner: Option<RetainedNodeId>,
    st: DamageState,
) -> DamageState
    decreases lists.len() - id, lists[id].len() - k, 1int,
    when 0 <= id < lists.len() && 0 <= k
{
    if k >= lists[id].len() {
        st
    } else {
        propagate_from(
            lists,
            id,
            k + 1,
            pending,
            unattributed,
            deps,
            owner,
            propagate_step(lists, id, k, pending, unattributed, deps, owner, st),
        )
    }
}

/// Propagates the damage of command `k` of list `id`.
pub open spec fn propagate_step(
    lists: Seq<Seq<Command>>,
    id: int,
    k: int,
    pending: Map<RetainedNodeId, Bounds>,
    unattributed: Seq<Bounds>,
    deps: Seq<FilterDependency>,
    owner: Option<RetainedNodeId>,
    st: DamageState,
) -> DamageState
    decreases lists.len() - id, lists[id].len() - k, 0int,
    when 0 <= id < lists.len() && 0 <= k < lists[id].len()
{
    let c = lists[id][k];
    if !command_refs_ok(c, id, lists.len() as int) {
        st
    } else {
        match c {
            Command::Draw(_) => st,
            Command::MaterializedRetainedScene { id: node, children } => {
                let inner = propagate_from(
                    lists,
                    children as int,
                    0,
                    pending,
                    unattributed,
                    deps,
                    Some(node),
                    st,
                );
                node_damage_spec(pending, node, inner)
            },
            Command::Layer { retained, draw, layer, children } => {
                let ro = layer_owner(retained, owner);
                let s1 = match retained {
                    Some(key) => if layer == LayerTag::Clip || layer == LayerTag::ClipSdf {
                        node_damage_spec(pending, key.id, st)
                    } else {
                        st
                    },
                    None => st,
                };
                if layer == LayerTag::Backdrop {
                    let f = filter_spec(deps[draw as int], s1);
                    let marked = match ro {
                        Some(o) => if f.0 || pending.contains_key(o) {
                            add_dirty(f.1, ro)
                        } else {
                            f.1
                        },
                        None => f.1,
                    };
                    let own = match retained {
                        Some(key) => node_damage_spec(pending, key.id, marked),
                        None => marked,
                    };
                    propagate_from(lists, children as int, 0, pending, unattributed, deps, ro, own)
                } else {
                    let s2 = if layer == LayerTag::Filter {
                        let inner = propagate_from(
                            lists,
                            children as int,
                            0,
                            pending,
                            unattributed,
                            deps,
                            ro,
                            enter_spec(s1, unattributed),
                        );
                        let f = filter_spec(deps[draw as int], inner);
                        finish_spec(f.1, s1.start, s1.values.len())
                    } else if (layer == LayerTag::Isolate || layer == LayerTag::Opacity || layer
                        is Blend) && !can_fuse_spec(lists, layer, children as int) {
                        let inner = propagate_from(
                            lists,
                            children as int,
                            0,
                            pending,
                            unattributed,
                            deps,
                            ro,
                            enter_spec(s1, unattributed),
                        );
                        finish_spec(inner, s1.start, s1.values.len())
                    } else {
                        propagate_from(lists, children as int, 0, pending, unattributed, deps, ro, s1)
                    };
                    match retained {
                        Some(key) => node_damage_spec(pending, key.id, s2),
                        None => s2,
                    }
                }
            },
            Command::MaskLayer { retained, content, mask } => {
                let ro = layer_owner(retained, owner);
                let c1 = propagate_from(
                    lists,
                    content as int,
                    0,
                    pending,
                    unattributed,
                    deps,
                    ro,
                    enter_spec(st, unattributed),
                );
                let s1 = finish_spec(c1, st.start, st.values.len());
                let m1 = propagate_from(
                    lists,
                    mask as int,
                    0,
                    pending,
                    unattributed,
                    deps,
                    ro,
                    enter_spec(s1, unattributed),
                );
                let s2 = finish_spec(m1, s1.start, s1.values.len());
                match retained {
                    Some(key) => node_damage_spec(pending, key.id, s2),
                    None => s2,
                }
            },
        }
    }
}

/// The traversal state keeps where the visible range starts, and the range stays inside the
/// buffer.
pub open spec fn state_ok(st: DamageState) -> bool {
    st.start <= st.values.len()
}

proof fn lemma_filter_keeps_start(dep: FilterDependency, st: DamageState, i: int, n: int)
    requires
        state_ok(st),
    ensures
        filter_from(dep, st, i, n).1.start == st.start,
        state_ok(filter_from(dep, st, i, n).1),
        filter_from(dep, st, i, n).1.dirty == st.dirty,
    decreases n - i,
{
    if i < n {
        let a = affected_spec(dep, visible(st)[i]);
        let next = if !a.empty_spec() {
            push_unique_spec(st, a)
        } else {
            st
        };
        lemma_filter_keeps_start(dep, next, i + 1, n);
    }
}

/// Propagation returns the visible range to where it started.
pub proof fn lemma_propagate_keeps_start(
    lists: Seq<Seq<Command>>,
    id: int,
    k: int,
    pending: Map<RetainedNodeId, Bounds>,
    unattributed: Seq<Bounds>,
    deps: Seq<FilterDependency>,
    owner: Option<RetainedNodeId>,
    st: DamageState,
)
    requires
        0 <= id < lists.len(),
        0 <= k,
        state_ok(st),
    ensures
        propagate_from(lists, id, k, pending, unattributed, deps, owner, st).start == st.start,
        state_ok(propagate_from(lists, id, k, pending, unattributed, deps, owner, st)),
    decreases lists.len() - id, lists[id].len() - k, 1int,
{
    if k < lists[id].len() {
        lemma_step_keeps_start(lists, id, k, pending, unattributed, deps, owner, st);
        lemma_propagate_keeps_start(
            lists,
            id,
            k + 1,
            pending,
            unattributed,
            deps,
            owner,
            propagate_step(lists, id, k, pending, unattributed, deps, owner, st),
        );
    }
}

proof fn lemma_finish_ok(st: DamageState, ps: nat, pe: nat)
    requires
        ps <= pe <= st.values.len(),
    ensures
        state_ok(finish_spec(st, ps, pe)),
        finish_spec(st, ps, pe).start == ps,
{
}

pub proof fn lemma_step_keeps_start(
    lists: Seq<Seq<Command>>,
    id: int,
    k: int,
    pending: Map<RetainedNodeId, Bounds>,
    unattributed: Seq<Bounds>,
    deps: Seq<FilterDependency>,
    owner: Option<RetainedNodeId>,
    st: DamageState,
)
    requires
        0 <= id < lists.len(),
        0 <= k < lists[id].len(),
        state_ok(st),
    ensures
        propagate_step(lists, id, k, pending, unattributed, deps, owner, st).start == st.start,
        state_ok(propagate_step(lists, id, k, pending, unattributed, deps, owner, st)),
    decreases lists.len() - id, lists[id].len() - k, 0int,
{
    let c = lists[id][k];
    if command_refs_ok(c, id, lists.len() as int) {
        match c {
            Command::Draw(_) => {},
            Command::MaterializedRetainedScene { id: node, children } => {
                lemma_propagate_keeps_start(lists, children as int, 0, pending, unattributed, deps, Some(node), st);
            },
            Command::Layer { retained, draw, layer, children } => {
                let ro = layer_owner(retained, owner);
                let s1 = match retained {
                    Some(key) => if layer == LayerTag::Clip || layer == LayerTag::ClipSdf {
                        node_damage_spec(pending, key.id, st)
                    } else {
                        st
                    },
                    None => st,
                };
                if layer == LayerTag::Backdrop {
                    lemma_filter_keeps_start(deps[draw as int], s1, 0, visible(s1).len() as int);
                    let f = filter_spec(deps[draw as int], s1);
                    let marked = match ro {
                        Some(o) => if f.0 || pending.contains_key(o) {
                            add_dirty(f.1, ro)
                        } else {
                            f.1
                        },
                        None => f.1,
                    };
                    let own = match retained {
                        Some(key) => node_damage_spec(pending, key.id, marked),
                        None => marked,
                    };
                    lemma_propagate_keeps_start(lists, children as int, 0, pending, unattributed, deps, ro, own);
                } else if layer == LayerTag::Filter {
                    let e = enter_spec(s1, unattributed);
                    lemma_propagate_keeps_start(lists, children as int, 0, pending, unattributed, deps, ro, e);
                    let inner = propagate_from(lists, children as int, 0, pending, unattributed, deps, ro, e);
                    lemma_filter_keeps_start(deps[draw as int], inner, 0, visible(inner).len() as int);
                    lemma_finish_ok(filter_spec(deps[draw as int], inner).1, s1.start, s1.values.len());
                } else if (layer == LayerTag::Isolate || layer == LayerTag::Opacity || layer
                    is Blend) && !can_fuse_spec(lists, layer, children as int) {
                    let e = enter_spec(s1, unattributed);
                    lemma_propagate_keeps_start(lists, children as int, 0, pending, unattributed, deps, ro, e);
                    let inner = propagate_from(lists, children as int, 0, pending, unattributed, deps, ro, e);
                    lemma_finish_ok(inner, s1.start, s1.values.len());
                } else {
                    lemma_propagate_keeps_start(lists, children as int, 0, pending, unattributed, deps, ro, s1);
                }
            },
            Command::MaskLayer { retained, content, mask } => {
                let ro = layer_owner(retained, owner);
                let e1 = enter_spec(st, unattributed);
                lemma_propagate_keeps_start(lists, content as int, 0, pending, unattributed, deps, ro, e1);
                let c1 = propagate_from(lists, content as int, 0, pending, unattributed, deps, ro, e1);
                lemma_finish_ok(c1, st.start, st.values.len());
                let s1 = finish_spec(c1, st.start, st.values.len());
                let e2 = enter_spec(s1, unattributed);
                lemma_propagate_keeps_start(lists, mask as int, 0, pending, unattributed, deps, ro, e2);
                let m1 = propagate_from(lists, mask as int, 0, pending, unattributed, deps, ro, e2);
                lemma_finish_ok(m1, s1.start, s1.values.len());
            },
        }
    }
}

/// `app` holds non-empty rectangles, none twice, and none already in `seen`.
pub open spec fn fresh_damage(seen: Seq<Bounds>, app: Seq<Bounds>) -> bool {
    &&& unique_nonempty(app)
    &&& forall|i: int| 0 <= i < app.len() ==> !seen.contains(#[trigger] app[i])
}

/// `b` is `a` after propagation: the same visible start, `a`'s rectangles followed by fresh
/// ones, and `a`'s dirty backdrops followed by more.
pub open spec fn extends(a: DamageState, b: DamageState) -> bool {
    &&& b.start == a.start
    &&& a.values.len() <= b.values.len()
    &&& b.values.subrange(0, a.values.len() as int) == a.values
    &&& fresh_damage(visible(a), b.values.subrange(a.values.len() as int, b.values.len() as int))
    &&& a.dirty.len() <= b.dirty.len()
    &&& b.dirty.subrange(0, a.dirty.len() as int) == a.dirty
}

proof fn lemma_extends_refl(a: DamageState)
    ensures
        extends(a, a),
{
    assert(a.values.subrange(0, a.values.len() as int) =~= a.values);
    assert(a.dirty.subrange(0, a.dirty.len() as int) =~= a.dirty);
    assert(a.values.subrange(a.values.len() as int, a.values.len() as int) =~= Seq::<Bounds>::empty());
}

proof fn lemma_extends_trans(a: DamageState, b: DamageState, c: DamageState)
    requires
        state_ok(a),
        extends(a, b),
        extends(b, c),
    ensures
        extends(a, c),
{
    let n = a.values.len() as int;
    let m = b.values.len() as int;
    let ab = b.values.subrange(n, m);
    let bc = c.values.subrange(m, c.values.len() as int);
    assert(c.values.subrange(0, n) =~= c.values.subrange(0, m).subrange(0, n));
    assert(c.dirty.subrange(0, a.dirty.len() as int) =~= c.dirty.subrange(0, b.dirty.len() as int).subrange(0, a.dirty.len() as int));
    assert(c.values.subrange(0, m) == b.values);
    assert(visible(b) =~= visible(a) + ab);
    let ac = c.values.subrange(n, c.values.len() as int);
    assert(ac =~= ab + bc);
    assert forall|i: int| 0 <= i < ac.len() implies !visible(a).contains(#[trigger] ac[i]) && !ac[i].empty_spec() by {
        if i < ab.len() {
            assert(ac[i] == ab[i]);
        } else {
            assert(ac[i] == bc[i - ab.len()]);
            if visible(a).contains(ac[i]) {
                let w = choose|w: int| 0 <= w < visible(a).len() && visible(a)[w] == ac[i];
                assert(visible(b)[w] == ac[i]);
            }
        }
    }
    assert forall|i: int, j: int| 0 <= i < j < ac.len() implies ac[i] != ac[j] by {
        if j < ab.len() {
            assert(ac[i] == ab[i] && ac[j] == ab[j]);
        } else if i >= ab.len() {
            assert(ac[i] == bc[i - ab.len()] && ac[j] == bc[j - ab.len()]);
        } else {
            assert(ac[i] == ab[i] && ac[j] == bc[j - ab.len()]);
            assert(visible(b)[visible(a).len() + i] == ab[i]);
        }
    }
}

proof fn lemma_push_extends(st: DamageState, b: Bounds)
    requires
        state_ok(st),
    ensures
        extends(st, push_unique_spec(st, b)),
{
    lemma_extends_refl(st);
    if !b.empty_spec() && !visible(st).contains(b) {
        let r = push_unique_spec(st, b);
        assert(r.values.subrange(0, st.values.len() as int) =~= st.values);
        assert(r.values.subrange(st.values.len() as int, r.values.len() as int) =~= seq![b]);
    }
}

proof fn lemma_node_extends(pending: Map<RetainedNodeId, Bounds>, id: RetainedNodeId, st: DamageState)
    requires
        state_ok(st),
    ensures
        extends(st, node_damage_spec(pending, id, st)),
{
    lemma_extends_refl(st);
    if pending.contains_key(id) {
        lemma_push_extends(st, pending[id]);
    }
}

proof fn lemma_dirty_extends(st: DamageState, owner: Option<RetainedNodeId>)
    requires
        state_ok(st),
    ensures
        extends(st, add_dirty(st, owner)),
{
    lemma_extends_refl(st);
    let r = add_dirty(st, owner);
    assert(r.values.subrange(0, st.values.len() as int) =~= st.values);
    assert(r.dirty.subrange(0, st.dirty.len() as int) =~= st.dirty);
    assert(r.values.subrange(st.values.len() as int, r.values.len() as int) =~= Seq::<Bounds>::empty());
}

proof fn lemma_filter_extends(dep: FilterDependency, st: DamageState, i: int, n: int)
    requires
        state_ok(st),
    ensures
        extends(st, filter_from(dep, st, i, n).1),
    decreases n - i,
{
    if i >= n {
        lemma_extends_refl(st);
    } else {
        let a = affected_spec(dep, visible(st)[i]);
        let next = if !a.empty_spec() {
            push_unique_spec(st, a)
        } else {
            st
        };
        lemma_extends_refl(st);
        if !a.empty_spec() {
            lemma_push_extends(st, a);
        }
        lemma_filter_extends(dep, next, i + 1, n);
        lemma_extends_trans(st, next, filter_from(dep, next, i + 1, n).1);
    }
}

/// What an isolated input keeps is fresh against the range it returns to.
proof fn lemma_kept_fresh(base: Seq<Bounds>, incoming: Seq<Bounds>)
    ensures
        fresh_damage(base, kept_unique(base, incoming)),
    decreases incoming.len(),
{
    if incoming.len() > 0 {
        let prior = kept_unique(base, incoming.drop_last());
        lemma_kept_fresh(base, incoming.drop_last());
        let b = incoming.last();
        if !b.empty_spec() && !(base + prior).contains(b) {
            let k = prior.push(b);
            assert forall|i: int| 0 <= i < k.len() implies !base.contains(#[trigger] k[i]) && !k[i].empty_spec() by {
                if i == prior.len() {
                    if base.contains(b) {
                        let w = choose|w: int| 0 <= w < base.len() && base[w] == b;
                        assert((base + prior)[w] == b);
                    }
                } else {
                    assert(k[i] == prior[i]);
                }
            }
            assert forall|i: int, j: int| 0 <= i < j < k.len() implies k[i] != k[j] by {
                if j == prior.len() {
                    assert(k[i] == prior[i]);
                    assert((base + prior)[base.len() + i] == prior[i]);
                } else {
                    assert(k[i] == prior[i] && k[j] == prior[j]);
                }
            }
        }
    }
}

/// Closing an isolated input over `s1`'s visible range, whose traversal `f` kept `s1`'s
/// rectangles, extends `s1`.
proof fn lemma_finish_extends(s1: DamageState, f: DamageState)
    requires
        state_ok(s1),
        s1.values.len() <= f.values.len(),
        f.values.subrange(0, s1.values.len() as int) == s1.values,
        s1.dirty.len() <= f.dirty.len(),
        f.dirty.subrange(0, s1.dirty.len() as int) == s1.dirty,
    ensures
        extends(s1, finish_spec(f, s1.start, s1.values.len())),
{
    let r = finish_spec(f, s1.start, s1.values.len());
    let n = s1.values.len() as int;
    let base = f.values.subrange(s1.start as int, n);
    assert(base =~= visible(s1));
    let kept = kept_unique(base, visible(f));
    lemma_kept_fresh(base, visible(f));
    assert(r.values.subrange(0, n) =~= s1.values);
    assert(r.values.subrange(n, r.values.len() as int) =~= kept);
}

proof fn lemma_enter_prefix(s1: DamageState, seeds: Seq<Bounds>, f: DamageState)
    requires
        extends(enter_spec(s1, seeds), f),
    ensures
        s1.values.len() <= f.values.len(),
        f.values.subrange(0, s1.values.len() as int) == s1.values,
        s1.dirty.len() <= f.dirty.len(),
        f.dirty.subrange(0, s1.dirty.len() as int) == s1.dirty,
{
    let e = enter_spec(s1, seeds);
    assert(f.values.subrange(0, s1.values.len() as int) =~= f.values.subrange(0, e.values.len() as int).subrange(0, s1.values.len() as int));
    assert(e.values.subrange(0, s1.values.len() as int) =~= s1.values);
}

proof fn lemma_enter_ok(s1: DamageState, seeds: Seq<Bounds>)
    ensures
        state_ok(enter_spec(s1, seeds)),
{
}

/// Propagation keeps every rectangle already in the buffer and every dirty backdrop already
/// found, returns to the same visible start, and appends only rectangles that are non-empty,
/// not yet visible, and each new once.
pub proof fn law_propagation_appends_fresh_damage(
    lists: Seq<Seq<Command>>,
    id: int,
    k: int,
    pending: Map<RetainedNodeId, Bounds>,
    unattributed: Seq<Bounds>,
    deps: Seq<FilterDependency>,
    owner: Option<RetainedNodeId>,
    st: DamageState,
)
    requires
        0 <= id < lists.len(),
        0 <= k,
        state_ok(st),
    ensures
        extends(st, propagate_from(lists, id, k, pending, unattributed, deps, owner, st)),
    decreases lists.len() - id, lists[id].len() - k, 1int,
{
    if k < lists[id].len() {
        let next = propagate_step(lists, id, k, pending, unattributed, deps, owner, st);
        lemma_step_extends(lists, id, k, pending, unattributed, deps, owner, st);
        lemma_step_keeps_start(lists, id, k, pending, unattributed, deps, owner, st);
        law_propagation_appends_fresh_damage(lists, id, k + 1, pending, unattributed, deps, owner, next);
        lemma_extends_trans(st, next, propagate_from(lists, id, k + 1, pending, unattributed, deps, owner, next));
    } else {
        lemma_extends_refl(st);
    }
}

proof fn lemma_step_extends(
    lists: Seq<Seq<Command>>,
    id: int,
    k: int,
    pending: Map<RetainedNodeId, Bounds>,
    unattributed: Seq<Bounds>,
    deps: Seq<FilterDependency>,
    owner: Option<RetainedNodeId>,
    st: DamageState,
)
    requires
        0 <= id < lists.len(),
        0 <= k < lists[id].len(),
        state_ok(st),
    ensures
        extends(st, propagate_step(lists, id, k, pending, unattributed, deps, owner, st)),
    decreases lists.len() - id, lists[id].len() - k, 0int,
{
    let c = lists[id][k];
    lemma_extends_refl(st);
    if command_refs_ok(c, id, lists.len() as int) {
        match c {
            Command::Draw(_) => {},
            Command::MaterializedRetainedScene { id: node, children } => {
                law_propagation_appends_fresh_damage(lists, children as int, 0, pending, unattributed, deps, Some(node), st);
                let inner = propagate_from(lists, children as int, 0, pending, unattributed, deps, Some(node), st);
                lemma_node_extends(pending, node, inner);
                lemma_extends_trans(st, inner, node_damage_spec(pending, node, inner));
            },
            Command::Layer { retained, draw, layer, children } => {
                let ro = layer_owner(retained, owner);
                let s1 = match retained {
                    Some(key) => if layer == LayerTag::Clip || layer == LayerTag::ClipSdf {
                        node_damage_spec(pending, key.id, st)
                    } else {
                        st
                    },
                    None => st,
                };
                match retained {
                    Some(key) => {
                        lemma_node_extends(pending, key.id, st);
                    },
                    None => {},
                }
                assert(extends(st, s1));
                if layer == LayerTag::Backdrop {
                    lemma_filter_extends(deps[draw as int], s1, 0, visible(s1).len() as int);
                    let f = filter_spec(deps[draw as int], s1);
                    lemma_extends_trans(st, s1, f.1);
                    let marked = match ro {
                        Some(o) => if f.0 || pending.contains_key(o) {
                            add_dirty(f.1, ro)
                        } else {
                            f.1
                        },
                        None => f.1,
                    };
                    lemma_dirty_extends(f.1, ro);
                    lemma_extends_refl(f.1);
                    lemma_extends_trans(st, f.1, marked);
                    let own = match retained {
                        Some(key) => node_damage_spec(pending, key.id, marked),
                        None => marked,
                    };
                    lemma_extends_refl(marked);
                    match retained {
                        Some(key) => {
                            lemma_node_extends(pending, key.id, marked);
                        },
                        None => {},
                    }
                    lemma_extends_trans(st, marked, own);
                    law_propagation_appends_fresh_damage(lists, children as int, 0, pending, unattributed, deps, ro, own);
                    lemma_extends_trans(st, own, propagate_from(lists, children as int, 0, pending, unattributed, deps, ro, own));
                } else {
                    let s2 = if layer == LayerTag::Filter {
                        let e = enter_spec(s1, unattributed);
                        lemma_enter_ok(s1, unattributed);
                        law_propagation_appends_fresh_damage(lists, children as int, 0, pending, unattributed, deps, ro, e);
                        let inner = propagate_from(lists, children as int, 0, pending, unattributed, deps, ro, e);
                        lemma_filter_extends(deps[draw as int], inner, 0, visible(inner).len() as int);
                        let f = filter_spec(deps[draw as int], inner);
                        lemma_extends_trans(e, inner, f.1);
                        lemma_enter_prefix(s1, unattributed, f.1);
                        lemma_finish_extends(s1, f.1);
                        finish_spec(f.1, s1.start, s1.values.len())
                    } else if (layer == LayerTag::Isolate || layer == LayerTag::Opacity || layer
                        is Blend) && !can_fuse_spec(lists, layer, children as int) {
                        let e = enter_spec(s1, unattributed);
                        lemma_enter_ok(s1, unattributed);
                        law_propagation_appends_fresh_damage(lists, children as int, 0, pending, unattributed, deps, ro, e);
                        let inner = propagate_from(lists, children as int, 0, pending, unattributed, deps, ro, e);
                        lemma_enter_prefix(s1, unattributed, inner);
                        lemma_finish_extends(s1, inner);
                        finish_spec(inner, s1.start, s1.values.len())
                    } else {
                        law_propagation_appends_fresh_damage(lists, children as int, 0, pending, unattributed, deps, ro, s1);
                        propagate_from(lists, children as int, 0, pending, unattributed, deps, ro, s1)
                    };
                    lemma_extends_trans(st, s1, s2);
                    lemma_extends_refl(s2);
                    match retained {
                        Some(key) => {
                            lemma_node_extends(pending, key.id, s2);
                            lemma_extends_trans(st, s2, node_damage_spec(pending, key.id, s2));
                        },
                        None => {},
                    }
                }
            },
            Command::MaskLayer { retained, content, mask } => {
                let ro = layer_owner(retained, owner);
                let e1 = enter_spec(st, unattributed);
                lemma_enter_ok(st, unattributed);
                law_propagation_appends_fresh_damage(lists, content as int, 0, pending, unattributed, deps, ro, e1);
                let c1 = propagate_from(lists, content as int, 0, pending, unattributed, deps, ro, e1);
                lemma_enter_prefix(st, unattributed, c1);
                lemma_finish_extends(st, c1);
                let s1 = finish_spec(c1, st.start, st.values.len());
                let e2 = enter_spec(s1, unattributed);
                lemma_enter_ok(s1, unattributed);
                law_propagation_appends_fresh_damage(lists, mask as int, 0, pending, unattributed, deps, ro, e2);
                let m1 = propagate_from(lists, mask as int, 0, pending, unattributed, deps, ro, e2);
                lemma_enter_prefix(s1, unattributed, m1);
                lemma_finish_extends(s1, m1);
                let s2 = finish_spec(m1, s1.start, s1.values.len());
                lemma_extends_trans(st, s1, s2);
                lemma_extends_refl(s2);
                match retained {
                    Some(key) => {
                        lemma_node_extends(pending, key.id, s2);
                        lemma_extends_trans(st, s2, node_damage_spec(pending, key.id, s2));
                    },
                    None => {},
                }
            },
        }
    }
}

proof fn lemma_dirty_kept(a: DamageState, b: DamageState, o: RetainedNodeId)
    requires
        extends(a, b),
        a.dirty.contains(o),
    ensures
        b.dirty.contains(o),
{
    let w = choose|w: int| 0 <= w < a.dirty.len() && a.dirty[w] == o;
    assert(b.dirty.subrange(0, a.dirty.len() as int)[w] == o);
}

/// A backdrop layer whose retained owner has recorded damage in `pending` is marked dirty,
/// whether or not its filter source received damage: once propagation of a list passes such a
/// layer, and for any state it starts from, the owner is among the dirty backdrops.
pub proof fn law_damaged_backdrop_owner_is_dirty(
    lists: Seq<Seq<Command>>,
    id: int,
    j: int,
    k: int,
    pending: Map<RetainedNodeId, Bounds>,
    unattributed: Seq<Bounds>,
    deps: Seq<FilterDependency>,
    owner: Option<RetainedNodeId>,
    st: DamageState,
    o: RetainedNodeId,
)
    requires
        0 <= id < lists.len(),
        0 <= j <= k < lists[id].len(),
        state_ok(st),
        lists[id][k] matches Command::Layer { retained, layer, .. } && layer == LayerTag::Backdrop
            && layer_owner(retained, owner) == Some(o),
        command_refs_ok(lists[id][k], id, lists.len() as int),
        pending.contains_key(o),
    ensures
        propagate_from(lists, id, j, pending, unattributed, deps, owner, st).dirty.contains(o),
    decreases k - j,
{
    let next = propagate_step(lists, id, j, pending, unattributed, deps, owner, st);
    lemma_step_keeps_start(lists, id, j, pending, unattributed, deps, owner, st);
    if j < k {
        law_damaged_backdrop_owner_is_dirty(lists, id, j + 1, k, pending, unattributed, deps, owner, next, o);
    } else {
        match lists[id][k] {
            Command::Layer { retained, draw, layer, children } => {
                let ro = layer_owner(retained, owner);
                let s1 = st;
                lemma_filter_extends(deps[draw as int], s1, 0, visible(s1).len() as int);
                let f = filter_spec(deps[draw as int], s1);
                lemma_dirty_extends(f.1, ro);
                let marked = add_dirty(f.1, ro);
                assert(marked.dirty.contains(o)) by {
                    if !f.1.dirty.contains(o) {
                        assert(marked.dirty[marked.dirty.len() - 1] == o);
                    }
                }
                let own = match retained {
                    Some(key) => node_damage_spec(pending, key.id, marked),
                    None => marked,
                };
                lemma_extends_trans(st, f.1, marked);
                lemma_extends_refl(marked);
                match retained {
                    Some(key) => {
                        lemma_node_extends(pending, key.id, marked);
                    },
                    None => {},
                }
                lemma_dirty_kept(marked, own, o);
                lemma_extends_trans(st, marked, own);
                law_propagation_appends_fresh_damage(lists, children as int, 0, pending, unattributed, deps, ro, own);
                let inner = propagate_from(lists, children as int, 0, pending, unattributed, deps, ro, own);
                lemma_dirty_kept(own, inner, o);
                assert(next == inner);
            },
            _ => {},
        }
        lemma_step_extends(lists, id, j, pending, unattributed, deps, owner, st);
        law_propagation_appends_fresh_damage(lists, id, j + 1, pending, unattributed, deps, owner, next);
        lemma_dirty_kept(next, propagate_from(lists, id, j + 1, pending, unattributed, deps, owner, next), o);
    }
}

proof fn lemma_visible_kept(a: DamageState, b: DamageState, x: Bounds)
    requires
        state_ok(a),
        extends(a, b),
        visible(a).contains(x),
    ensures
        visible(b).contains(x),
{
    let w = choose|w: int| 0 <= w < visible(a).len() && visible(a)[w] == x;
    assert(b.values.subrange(0, a.values.len() as int)[a.start + w] == x);
    assert(visible(b)[w] == x);
}

proof fn lemma_node_damage_visible(pending: Map<RetainedNodeId, Bounds>, id: RetainedNodeId, st: DamageState)
    requires
        pending.contains_key(id),
        !pending[id].empty_spec(),
        state_ok(st),
    ensures
        visible(node_damage_spec(pending, id, st)).contains(pending[id]),
{
    let r = node_damage_spec(pending, id, st);
    if !visible(st).contains(pending[id]) {
        assert(visible(r)[visible(r).len() - 1] == pending[id]);
    }
}

/// The recorded damage of a materialized retained scene reaches the visible damage of the
/// list holding it: once propagation passes the scene, its node's non-empty damage is visible.
pub proof fn law_retained_scene_damage_is_visible(
    lists: Seq<Seq<Command>>,
    id: int,
    j: int,
    k: int,
    pending: Map<RetainedNodeId, Bounds>,
    unattributed: Seq<Bounds>,
    deps: Seq<FilterDependency>,
    owner: Option<RetainedNodeId>,
    st: DamageState,
    node: RetainedNodeId,
)
    requires
        0 <= id < lists.len(),
        0 <= j <= k < lists[id].len(),
        state_ok(st),
        lists[id][k] matches Command::MaterializedRetainedScene { id: n, .. } && n == node,
        command_refs_ok(lists[id][k], id, lists.len() as int),
        pending.contains_key(node),
        !pending[node].empty_spec(),
    ensures
        visible(propagate_from(lists, id, j, pending, unattributed, deps, owner, st)).contains(pending[node]),
    decreases k - j,
{
    let next = propagate_step(lists, id, j, pending, unattributed, deps, owner, st);
    lemma_step_keeps_start(lists, id, j, pending, unattributed, deps, owner, st);
    if j < k {
        law_retained_scene_damage_is_visible(lists, id, j + 1, k, pending, unattributed, deps, owner, next, node);
    } else {
        match lists[id][k] {
            Command::MaterializedRetainedScene { id: n, children } => {
                lemma_propagate_keeps_start(lists, children as int, 0, pending, unattributed, deps, Some(n), st);
                let inner = propagate_from(lists, children as int, 0, pending, unattributed, deps, Some(n), st);
                lemma_node_damage_visible(pending, n, inner);
            },
            _ => {},
        }
        lemma_step_keeps_start(lists, id, j, pending, unattributed, deps, owner, st);
        law_propagation_appends_fresh_damage(lists, id, j + 1, pending, unattributed, deps, owner, next);
        lemma_visible_kept(next, propagate_from(lists, id, j + 1, pending, unattributed, deps, owner, next), pending[node]);
    }
}

/// The traversal state a damage buffer and a dirty-backdrop list stand for.
pub open spec fn buffer_state(damage: DamageBuffer, dirty: Seq<RetainedNodeId>) -> DamageState {
    DamageState { values: damage.values(), start: damage.start(), dirty }
}

/// Spreads the visible damage through a filter; tells whether any of it affected the output.
pub fn propagate_filter_damage(dep: FilterDependency, damage: &mut DamageBuffer) -> (changed: bool)
    requires
        old(damage).wf(),
    ensures
        final(damage).wf(),
        ({
            let f = filter_spec(dep, buffer_state(*old(damage), Seq::empty()));
            &&& changed == f.0
            &&& buffer_state(*final(damage), Seq::empty()) == f.1
        }),
{
    filter_damage(dep, damage, Ghost(Seq::empty()))
}

fn filter_damage(
    dep: FilterDependency,
    damage: &mut DamageBuffer,
    Ghost(dirty): Ghost<Seq<RetainedNodeId>>,
) -> (changed: bool)
    requires
        old(damage).wf(),
    ensures
        final(damage).wf(),
        ({
            let f = filter_spec(dep, buffer_state(*old(damage), dirty));
            &&& changed == f.0
            &&& buffer_state(*final(damage), dirty) == f.1
        }),
{
    let ghost st0 = buffer_state(*damage, dirty);
    let initial_len = damage.current().len();
    let mut changed = false;
    let mut index: usize = 0;
    while index < initial_len
        invariant
            damage.wf(),
            index <= initial_len,
            initial_len == visible(st0).len(),
            visible(buffer_state(*damage, dirty)).len() >= initial_len,
            filter_from(dep, st0, 0, initial_len as int) == ({
                let rest = filter_from(
                    dep,
                    buffer_state(*damage, dirty),
                    index as int,
                    initial_len as int,
                );
                (changed || rest.0, rest.1)
            }),
        decreases initial_len - index,
    {
        let b = damage.current()[index];
        let affected = affected_output(dep, b);
        if !affected.is_empty() {
            changed = true;
            damage.push_unique(affected);
        }
        index = index + 1;
    }
    changed
}

fn append_node_damage(pending: &RetainedDamage, id: RetainedNodeId, damage: &mut DamageBuffer)
    requires
        pending.wf(),
        old(damage).wf(),
    ensures
        final(damage).wf(),
        forall|d: Seq<RetainedNodeId>|
            buffer_state(*final(damage), d) == node_damage_spec(
                pending.node_map(),
                id,
                buffer_state(*old(damage), d),
            ),
{
    match pending.node_bounds(id) {
        Some(bounds) => damage.push_unique(bounds),
        None => {},
    }
}

fn extend_dirty(dirty: &mut Vec<RetainedNodeId>, owner: Option<RetainedNodeId>)
    requires
        old(dirty)@.no_duplicates(),
    ensures
        final(dirty)@.no_duplicates(),
        forall|v: Seq<Bounds>, s: nat|
            (DamageState { values: v, start: s, dirty: final(dirty)@ }) == add_dirty(
                DamageState { values: v, start: s, dirty: old(dirty)@ },
                owner,
            ),
{
    if let Some(id) = owner {
        let mut i: usize = 0;
        let mut found = false;
        while i < dirty.len() && !found
            invariant
                i <= dirty@.len(),
                dirty@ == old(dirty)@,
                found ==> dirty@.contains(id),
                !found ==> forall|j: int| 0 <= j < i ==> dirty@[j] != id,
            decreases dirty.len() - i, if found { 0int } else { 1int },
        {
            if dirty[i] == id {
                found = true;
            } else {
                i = i + 1;
            }
        }
        if !found {
            proof {
                assert(!dirty@.contains(id));
            }
            dirty.push(id);
        }
    }
}

/// Propagates the damage of list `list_id`, whose retained owner is `owner`: nodes add their
/// recorded damage, isolated, filter and mask inputs see only their own damage until they
/// are finished, filters spread damage by their dependency (`filter_deps`, indexed by the
/// layer's draw), and backdrops whose sampled pixels or own node changed are marked dirty.
pub fn propagate_list_damage(
    tree: &CommandTree,
    list_id: usize,
    pending: &RetainedDamage,
    filter_deps: &[FilterDependency],
    damage: &mut DamageBuffer,
    dirty_backdrops: &mut Vec<RetainedNodeId>,
    owner: Option<RetainedNodeId>,
)
    requires
        tree.wf(),
        list_id < tree.lists().len(),
        old(damage).wf(),
        pending.wf(),
        deps_cover(tree.lists(), filter_deps@.len() as int),
        old(dirty_backdrops)@.no_duplicates(),
    ensures
        final(damage).wf(),
        final(dirty_backdrops)@.no_duplicates(),
        buffer_state(*final(damage), final(dirty_backdrops)@) == propagate_from(
            tree.lists(),
            list_id as int,
            0,
            pending.node_map(),
            pending.unattributed_spec(),
            filter_deps@,
            owner,
            buffer_state(*old(damage), old(dirty_backdrops)@),
        ),
    decreases tree.lists().len() - list_id, 2int,
{
    let ghost lists = tree.lists();
    let ghost target = propagate_from(
        lists,
        list_id as int,
        0,
        pending.node_map(),
        pending.unattributed_spec(),
        filter_deps@,
        owner,
        buffer_state(*damage, dirty_backdrops@),
    );
    let n = tree.commands(list_id).len();
    let mut k: usize = 0;
    while k < n
        invariant
            tree.wf(),
            lists == tree.lists(),
            list_id < lists.len(),
            n == lists[list_id as int].len(),
            k <= n,
            damage.wf(),
            pending.wf(),
            deps_cover(lists, filter_deps@.len() as int),
            dirty_backdrops@.no_duplicates(),
            target == propagate_from(
                lists,
                list_id as int,
                k as int,
                pending.node_map(),
                pending.unattributed_spec(),
                filter_deps@,
                owner,
                buffer_state(*damage, dirty_backdrops@),
            ),
        decreases n - k,
    {
        propagate_command(tree, list_id, k, pending, filter_deps, damage, dirty_backdrops, owner);
        k = k + 1;
    }
}

fn propagate_children(
    tree: &CommandTree,
    children: usize,
    pending: &RetainedDamage,
    filter_deps: &[FilterDependency],
    damage: &mut DamageBuffer,
    dirty_backdrops: &mut Vec<RetainedNodeId>,
    owner: Option<RetainedNodeId>,
    Ghost(parent): Ghost<int>,
)
    requires
        tree.wf(),
        0 <= parent < children < tree.lists().len(),
        old(damage).wf(),
        pending.wf(),
        deps_cover(tree.lists(), filter_deps@.len() as int),
        old(dirty_backdrops)@.no_duplicates(),
    ensures
        final(damage).wf(),
        final(dirty_backdrops)@.no_duplicates(),
        buffer_state(*final(damage), final(dirty_backdrops)@) == propagate_from(
            tree.lists(),
            children as int,
            0,
            pending.node_map(),
            pending.unattributed_spec(),
            filter_deps@,
            owner,
            buffer_state(*old(damage), old(dirty_backdrops)@),
        ),
    decreases tree.lists().len() - parent, 0int,
{
    propagate_list_damage(tree, children, pending, filter_deps, damage, dirty_backdrops, owner);
}

fn propagate_command(
    tree: &CommandTree,
    list_id: usize,
    k: usize,
    pending: &RetainedDamage,
    filter_deps: &[FilterDependency],
    damage: &mut DamageBuffer,
    dirty_backdrops: &mut Vec<RetainedNodeId>,
    owner: Option<RetainedNodeId>,
)
    requires
        tree.wf(),
        list_id < tree.lists().len(),
        k < tree.lists()[list_id as int].len(),
        old(damage).wf(),
        pending.wf(),
        deps_cover(tree.lists(), filter_deps@.len() as int),
        old(dirty_backdrops)@.no_duplicates(),
    ensures
        final(damage).wf(),
        final(dirty_backdrops)@.no_duplicates(),
        buffer_state(*final(damage), final(dirty_backdrops)@) == propagate_step(
            tree.lists(),
            list_id as int,
            k as int,
            pending.node_map(),
            pending.unattributed_spec(),
            filter_deps@,
            owner,
            buffer_state(*old(damage), old(dirty_backdrops)@),
        ),
    decreases tree.lists().len() - list_id, 1int,
{
    let ghost lists = tree.lists();
    let ghost map = pending.node_map();
    let ghost un = pending.unattributed_spec();
    let ghost st = buffer_state(*damage, dirty_backdrops@);
    let command = tree.commands(list_id)[k];
    proof {
        assert(command == lists[list_id as int][k as int]);
        assert(command_refs_ok(lists[list_id as int][k as int], list_id as int, lists.len() as int));
    }
    match command {
        Command::Draw(_) => {},
        Command::MaterializedRetainedScene { id, children } => {
            propagate_children(tree, children, pending, filter_deps, damage, dirty_backdrops, Some(id), Ghost(list_id as int));
            append_node_damage(pending, id, damage);
        },
        Command::Layer { retained, draw, layer, children } => {
            let retained_owner = match retained {
                Some(key) => Some(key.id),
                None => owner,
            };
            if let Some(key) = retained {
                if layer == LayerTag::Clip || layer == LayerTag::ClipSdf {
                    append_node_damage(pending, key.id, damage);
                }
            }
            let ghost s1 = buffer_state(*damage, dirty_backdrops@);
            if layer == LayerTag::Backdrop {
                proof {
                    assert(draw < filter_deps@.len());
                }
                let changed = filter_damage(filter_deps[draw], damage, Ghost(dirty_backdrops@));
                if let Some(o) = retained_owner {
                    if changed || pending.node_bounds(o).is_some() {
                        extend_dirty(dirty_backdrops, retained_owner);
                    }
                }
                if let Some(key) = retained {
                    append_node_damage(pending, key.id, damage);
                }
                propagate_children(tree, children, pending, filter_deps, damage, dirty_backdrops, retained_owner, Ghost(list_id as int));
            } else {
                if layer == LayerTag::Filter {
                    proof {
                        assert(draw < filter_deps@.len());
                    }
                    let scope = damage.enter_scope(pending.unattributed());
                    let ghost entered = buffer_state(*damage, dirty_backdrops@);
                    propagate_children(tree, children, pending, filter_deps, damage, dirty_backdrops, retained_owner, Ghost(list_id as int));
                    let ghost inner = buffer_state(*damage, dirty_backdrops@);
                    proof {
                        lemma_propagate_keeps_start(lists, children as int, 0, map, un, filter_deps@, retained_owner, entered);
                        lemma_filter_keeps_start(filter_deps@[draw as int], inner, 0, visible(inner).len() as int);
                    }
                    filter_damage(filter_deps[draw], damage, Ghost(dirty_backdrops@));
                    damage.finish_scope(scope);
                } else if (layer == LayerTag::Isolate || layer == LayerTag::Opacity
                    || matches!(layer, LayerTag::Blend(_))) && !tree.can_fuse(layer, children) {
                    let scope = damage.enter_scope(pending.unattributed());
                    let ghost entered = buffer_state(*damage, dirty_backdrops@);
                    propagate_children(tree, children, pending, filter_deps, damage, dirty_backdrops, retained_owner, Ghost(list_id as int));
                    proof {
                        lemma_propagate_keeps_start(lists, children as int, 0, map, un, filter_deps@, retained_owner, entered);
                    }
                    damage.finish_scope(scope);
                } else {
                    propagate_children(tree, children, pending, filter_deps, damage, dirty_backdrops, retained_owner, Ghost(list_id as int));
                }
                if let Some(key) = retained {
                    append_node_damage(pending, key.id, damage);
                }
            }
        },
        Command::MaskLayer { retained, content, mask } => {
            let retained_owner = match retained {
                Some(key) => Some(key.id),
                None => owner,
            };
            let scope = damage.enter_scope(pending.unattributed());
            let ghost entered = buffer_state(*damage, dirty_backdrops@);
            propagate_children(tree, content, pending, filter_deps, damage, dirty_backdrops, retained_owner, Ghost(list_id as int));
            proof {
                lemma_propagate_keeps_start(lists, content as int, 0, map, un, filter_deps@, retained_owner, entered);
            }
            damage.finish_scope(scope);
            let scope = damage.enter_scope(pending.unattributed());
            let ghost entered = buffer_state(*damage, dirty_backdrops@);
            propagate_children(tree, mask, pending, filter_deps, damage, dirty_backdrops, retained_owner, Ghost(list_id as int));
            proof {
                lemma_propagate_keeps_start(lists, mask as int, 0, map, un, filter_deps@, retained_owner, entered);
            }
            damage.finish_scope(scope);
            if let Some(key) = retained {
                append_node_damage(pending, key.id, damage);
            }
        },
    }
}

/// The rectangles of `s` cut to `root`, in order, leaving out those that become empty.
pub open spec fn clip_to(s: Seq<Bounds>, root: Bounds) -> Seq<Bounds>
    decreases s.len(),
{
    if s.len() == 0 {
        Seq::empty()
    } else {
        let prior = clip_to(s.drop_last(), root);
        let b = s.last().intersect_spec(root);
        if b.empty_spec() {
            prior
        } else {
            prior.push(b)
        }
    }
}

/// The damage of the root list after propagation, starting from the damage no node owns.
pub open spec fn root_propagation(
    lists: Seq<Seq<Command>>,
    pending: Map<RetainedNodeId, Bounds>,
    unattributed: Seq<Bounds>,
    deps: Seq<FilterDependency>,
) -> DamageState {
    propagate_from(
        lists,
        0,
        0,
        pending,
        unattributed,
        deps,
        None,
        DamageState { values: unattributed, start: 0, dirty: Seq::empty() },
    )
}

/// Propagates retained damage through the whole tree. Returns the damage on a `width` x
/// `height` surface, each rectangle cut to the surface and empty ones left out, and the
/// backdrops to redraw. Damage outside the surface is kept until every enclosing filter has
/// used it, and only the final result is cut.
pub fn propagate_damage(
    tree: &CommandTree,
    pending: &RetainedDamage,
    filter_deps: &[FilterDependency],
    width: u32,
    height: u32,
) -> (r: (Vec<Bounds>, Vec<RetainedNodeId>))
    requires
        tree.wf(),
        tree.lists().len() > 0,
        pending.wf(),
        deps_cover(tree.lists(), filter_deps@.len() as int),
    ensures
        ({
            let st = root_propagation(
                tree.lists(),
                pending.node_map(),
                pending.unattributed_spec(),
                filter_deps@,
            );
            &&& r.0@ == clip_to(st.values, Bounds::canvas_spec(width, height))
            &&& r.1@ == st.dirty
            &&& r.1@.no_duplicates()
        }),
{
    let mut damage = DamageBuffer::new(pending.unattributed());
    let mut dirty: Vec<RetainedNodeId> = Vec::new();
    let ghost st0 = buffer_state(damage, dirty@);
    propagate_list_damage(tree, 0, pending, filter_deps, &mut damage, &mut dirty, None);
    proof {
        assert(st0 == (DamageState {
            values: pending.unattributed_spec(),
            start: 0,
            dirty: Seq::empty(),
        }));
        lemma_propagate_keeps_start(tree.lists(), 0, 0, pending.node_map(), pending.unattributed_spec(), filter_deps@, None, st0);
    }
    let values = damage.into_vec();
    let root = Bounds::canvas(width, height);
    let mut out: Vec<Bounds> = Vec::new();
    let mut i: usize = 0;
    while i < values.len()
        invariant
            i <= values@.len(),
            root == Bounds::canvas_spec(width, height),
            out@ == clip_to(values@.subrange(0, i as int), root),
        decreases values.len() - i,
    {
        let b = values[i].intersect(root);
        proof {
            assert(values@.subrange(0, i + 1).drop_last() =~= values@.subrange(0, i as int));
        }
        if !b.is_empty() {
            out.push(b);
        }
        i = i + 1;
    }
    proof {
        assert(values@.subrange(0, values@.len() as int) =~= values@);
    }
    (out, dirty)
}

} // verus!
