//! Identities and damage records of retained content.
use vstd::prelude::*;
use crate::bounds::Bounds;

verus! {

/// Stable identity for retained content.
///
/// `owner` normally identifies a UI element and `slot` distinguishes multiple independently
/// changing scenes owned by that element. IDs must be unique inside one retained root.
#[derive(Clone, Copy, Debug, PartialEq, Eq, Hash, PartialOrd, Ord, Structural)]
pub struct RetainedNodeId {
    pub owner: u64,
    pub slot: u32,
}

impl RetainedNodeId {
    pub const DEFAULT_SLOT: u32 = 0;

    pub fn new(owner: u64, slot: u32) -> (id: RetainedNodeId)
        ensures
            id == (RetainedNodeId { owner, slot }),
    {
        RetainedNodeId { owner, slot }
    }

    /// The identity of an owner's default slot.
    pub fn for_owner(owner: u64) -> (id: RetainedNodeId)
        ensures
            id == (RetainedNodeId { owner, slot: 0 }),
    {
        Self::new(owner, Self::DEFAULT_SLOT)
    }
}

/// Generation attached to persistent materialized commands and surfaces.
#[derive(Clone, Copy, Debug, Default, PartialEq, Eq, Hash, PartialOrd, Ord, Structural)]
pub struct NodeGeneration(pub u64);

impl NodeGeneration {
    pub fn new(value: u64) -> (g: NodeGeneration)
        ensures
            g == NodeGeneration(value),
    {
        NodeGeneration(value)
    }
}

impl From<u64> for NodeGeneration {
    fn from(value: u64) -> (g: NodeGeneration) {
        NodeGeneration(value)
    }
}

impl vstd::std_specs::convert::FromSpecImpl<u64> for NodeGeneration {
    open spec fn obeys_from_spec() -> bool {
        true
    }

    open spec fn from_spec(value: u64) -> NodeGeneration {
        NodeGeneration(value)
    }
}

/// Stable identity for a persistent layer boundary.
#[derive(Clone, Copy, Debug, PartialEq, Eq, Hash, Structural)]
pub struct PersistentLayerKey {
    pub id: RetainedNodeId,
    pub revision: NodeGeneration,
}

impl PersistentLayerKey {
    pub fn new(id: RetainedNodeId, revision: NodeGeneration) -> (key: PersistentLayerKey)
        ensures
            key == (PersistentLayerKey { id, revision }),
    {
        PersistentLayerKey { id, revision }
    }
}

/// One offscreen surface of a retained node.
#[derive(Clone, Copy, Debug, PartialEq, Eq, Hash, Structural)]
pub struct RetainedSurfaceId {
    pub node: RetainedNodeId,
    pub slot: u32,
}

impl RetainedSurfaceId {
    pub fn new(node: RetainedNodeId, slot: u32) -> (s: RetainedSurfaceId)
        ensures
            s == (RetainedSurfaceId { node, slot }),
    {
        RetainedSurfaceId { node, slot }
    }
}

#[derive(Clone, Copy, Debug, PartialEq, Eq, Structural)]
pub enum RetainedNodeKind {
    Scene,
    Layer,
}

/// What a retained node looked like at one version.
#[derive(Clone, Copy, Debug, PartialEq, Eq)]
pub struct RetainedNodeState {
    pub id: RetainedNodeId,
    pub revision: NodeGeneration,
    pub bounds: Bounds,
    pub order: u32,
    pub kind: RetainedNodeKind,
    pub placement_bits: Option<(u64, u64)>,
}

/// The change of one retained node between two versions.
#[derive(Clone, Copy, Debug)]
pub struct RetainedNodePatch {
    pub old: Option<RetainedNodeState>,
    pub new: Option<RetainedNodeState>,
    /// Explicit output damage for bounded transforms.
    pub damage: Option<Bounds>,
}

/// The old bounds, then the new bounds unless they equal the old ones, then the explicit
/// damage unless it equals either of those.
pub open spec fn patch_regions(patch: RetainedNodePatch) -> Seq<Bounds> {
    let old: Option<Bounds> = match patch.old {
        Some(state) => Some(state.bounds),
        None => None,
    };
    let new: Option<Bounds> = match patch.new {
        Some(state) => if Some(state.bounds) != old {
            Some(state.bounds)
        } else {
            None
        },
        None => None,
    };
    let explicit: Option<Bounds> = match patch.damage {
        Some(b) => if Some(b) != old && Some(b) != new {
            Some(b)
        } else {
            None
        },
        None => None,
    };
    option_seq(old) + option_seq(new) + option_seq(explicit)
}

pub open spec fn option_seq(o: Option<Bounds>) -> Seq<Bounds> {
    match o {
        Some(b) => seq![b],
        None => Seq::empty(),
    }
}

/// Union of all rectangles of `s`, folded from the front; `None` for no rectangle.
pub open spec fn union_all(s: Seq<Bounds>) -> Option<Bounds>
    decreases s.len(),
{
    if s.len() == 0 {
        None
    } else {
        match union_all(s.drop_last()) {
            None => Some(s.last()),
            Some(acc) => Some(acc.union_spec(s.last())),
        }
    }
}

impl RetainedNodePatch {
    pub fn damage_regions(self) -> (regions: Vec<Bounds>)
        ensures
            regions@ == patch_regions(self),
    {
        let old: Option<Bounds> = match self.old {
            Some(state) => Some(state.bounds),
            None => None,
        };
        let new: Option<Bounds> = match self.new {
            Some(state) => if !option_bounds_eq(Some(state.bounds), old) {
                Some(state.bounds)
            } else {
                None
            },
            None => None,
        };
        let explicit: Option<Bounds> = match self.damage {
            Some(b) => if !option_bounds_eq(Some(b), old) && !option_bounds_eq(Some(b), new) {
                Some(b)
            } else {
                None
            },
            None => None,
        };
        let mut regions: Vec<Bounds> = Vec::new();
        if let Some(b) = old {
            regions.push(b);
        }
        if let Some(b) = new {
            regions.push(b);
        }
        if let Some(b) = explicit {
            regions.push(b);
        }
        regions
    }

    /// Union of the damage regions, `None` when the patch damages nothing.
    pub fn damage_bounds(self) -> (b: Option<Bounds>)
        ensures
            b == union_all(patch_regions(self)),
    {
        let regions = self.damage_regions();
        let mut acc: Option<Bounds> = None;
        let mut i: usize = 0;
        while i < regions.len()
            invariant
                i <= regions@.len(),
                acc == union_all(regions@.subrange(0, i as int)),
            decreases regions.len() - i,
        {
            assert(regions@.subrange(0, i + 1).drop_last() == regions@.subrange(0, i as int));
            acc = match acc {
                None => Some(regions[i]),
                Some(a) => Some(a.union(regions[i])),
            };
            i = i + 1;
        }
        assert(regions@.subrange(0, regions@.len() as int) == regions@);
        acc
    }
}

fn option_bounds_eq(a: Option<Bounds>, b: Option<Bounds>) -> (r: bool)
    ensures
        r == (a == b),
{
    match (a, b) {
        (Some(x), Some(y)) => x == y,
        (None, None) => true,
        _ => false,
    }
}

/// Adds a non-empty rectangle that `damage` does not hold yet.
pub fn push_unique_damage(damage: &mut Vec<Bounds>, bounds: Bounds)
    ensures
        final(damage)@ == if !bounds.empty_spec() && !old(damage)@.contains(bounds) {
            old(damage)@.push(bounds)
        } else {
            old(damage)@
        },
{
    if !bounds.is_empty() && !vec_contains(damage, bounds) {
        damage.push(bounds);
    }
}

pub(crate) fn vec_contains(v: &Vec<Bounds>, b: Bounds) -> (r: bool)
    ensures
        r == v@.contains(b),
{
    let mut i: usize = 0;
    while i < v.len()
        invariant
            i <= v@.len(),
            forall|k: int| 0 <= k < i ==> v@[k] != b,
        decreases v.len() - i,
    {
        if v[i] == b {
            return true;
        }
        i = i + 1;
    }
    false
}

/// Damage collected between two frames: output bounds per retained node, and bounds that no
/// node owns.
pub struct RetainedDamage {
    node_bounds: Vec<(RetainedNodeId, Bounds)>,
    unattributed: Vec<Bounds>,
}

/// The node of each entry.
pub open spec fn entry_ids<V>(entries: Seq<(RetainedNodeId, V)>) -> Seq<RetainedNodeId> {
    entries.map_values(|e: (RetainedNodeId, V)| e.0)
}

/// The entries as a map from node to bounds, later entries winning.
pub open spec fn entries_map<V>(entries: Seq<(RetainedNodeId, V)>) -> Map<RetainedNodeId, V>
    decreases entries.len(),
{
    if entries.len() == 0 {
        Map::empty()
    } else {
        entries_map(entries.drop_last()).insert(entries.last().0, entries.last().1)
    }
}

impl RetainedDamage {
    pub closed spec fn entries(self) -> Seq<(RetainedNodeId, Bounds)> {
        self.node_bounds@
    }

    /// Damage that no retained node owns, in insertion order.
    pub closed spec fn unattributed_spec(self) -> Seq<Bounds> {
        self.unattributed@
    }

    /// Output damage per retained node.
    pub open spec fn node_map(self) -> Map<RetainedNodeId, Bounds> {
        entries_map(self.entries())
    }

    pub open spec fn wf(self) -> bool {
        entry_ids(self.entries()).no_duplicates()
    }

    pub fn new() -> (d: RetainedDamage)
        ensures
            d.wf(),
            d.node_map() == Map::<RetainedNodeId, Bounds>::empty(),
            d.unattributed_spec() == Seq::<Bounds>::empty(),
    {
        RetainedDamage { node_bounds: Vec::new(), unattributed: Vec::new() }
    }

    /// Grows a node's damage by non-empty `bounds`.
    pub fn add_node(&mut self, id: RetainedNodeId, bounds: Bounds)
        requires
            old(self).wf(),
        ensures
            final(self).wf(),
            final(self).unattributed_spec() == old(self).unattributed_spec(),
            final(self).node_map() == if bounds.empty_spec() {
                old(self).node_map()
            } else if old(self).node_map().contains_key(id) {
                old(self).node_map().insert(id, old(self).node_map()[id].union_spec(bounds))
            } else {
                old(self).node_map().insert(id, bounds)
            },
    {
        if bounds.is_empty() {
            return;
        }
        let ghost old_entries = self.node_bounds@;
        match find_entry(&self.node_bounds, id) {
            Some(ix) => {
                let current = self.node_bounds[ix].1;
                proof {
                    lemma_entries_map_at(old_entries, ix as int);
                }
                self.node_bounds.set(ix, (id, current.union(bounds)));
                proof {
                    lemma_entries_map_update(old_entries, ix as int, current.union_spec(bounds));
                    assert(entry_ids(self.node_bounds@) =~= entry_ids(old_entries));
                }
            },
            None => {
                proof {
                    lemma_entries_map_absent(old_entries, id);
                }
                self.node_bounds.push((id, bounds));
                proof {
                    assert(self.node_bounds@.drop_last() == old_entries);
                    assert(entry_ids(self.node_bounds@) =~= entry_ids(old_entries).push(id));
                }
            },
        }
    }

    /// Records damage that no retained node owns, once.
    pub fn add_unattributed(&mut self, bounds: Bounds)
        requires
            old(self).wf(),
        ensures
            final(self).wf(),
            final(self).node_map() == old(self).node_map(),
            final(self).unattributed_spec() == if !bounds.empty_spec()
                && !old(self).unattributed_spec().contains(bounds) {
                old(self).unattributed_spec().push(bounds)
            } else {
                old(self).unattributed_spec()
            },
    {
        push_unique_damage(&mut self.unattributed, bounds);
    }

    pub fn unattributed(&self) -> (u: &[Bounds])
        ensures
            u@ == self.unattributed_spec(),
    {
        self.unattributed.as_slice()
    }

    /// The damage recorded for a node.
    pub fn node_bounds(&self, id: RetainedNodeId) -> (b: Option<Bounds>)
        requires
            self.wf(),
        ensures
            b == (if self.node_map().contains_key(id) {
                Some(self.node_map()[id])
            } else {
                None
            }),
    {
        match find_entry(&self.node_bounds, id) {
            Some(ix) => {
                proof {
                    lemma_entries_map_at(self.node_bounds@, ix as int);
                }
                Some(self.node_bounds[ix].1)
            },
            None => {
                proof {
                    lemma_entries_map_absent(self.node_bounds@, id);
                }
                None
            },
        }
    }
}

pub(crate) fn find_entry<V>(entries: &Vec<(RetainedNodeId, V)>, id: RetainedNodeId) -> (r: Option<usize>)
    ensures
        match r {
            Some(ix) => ix < entries@.len() && entries@[ix as int].0 == id,
            None => !entry_ids(entries@).contains(id),
        },
{
    let mut i: usize = 0;
    while i < entries.len()
        invariant
            i <= entries@.len(),
            forall|k: int| 0 <= k < i ==> entries@[k].0 != id,
        decreases entries.len() - i,
    {
        if entries[i].0 == id {
            return Some(i);
        }
        i = i + 1;
    }
    assert(!entry_ids(entries@).contains(id)) by {
        if entry_ids(entries@).contains(id) {
            let k = choose|k: int| 0 <= k < entry_ids(entries@).len() && entry_ids(entries@)[k] == id;
            assert(entries@[k].0 == id);
        }
    }
    None
}

pub(crate) proof fn lemma_entries_map_at<V>(entries: Seq<(RetainedNodeId, V)>, ix: int)
    requires
        entry_ids(entries).no_duplicates(),
        0 <= ix < entries.len(),
    ensures
        entries_map(entries).contains_key(entries[ix].0),
        entries_map(entries)[entries[ix].0] == entries[ix].1,
    decreases entries.len(),
{
    let rest = entries.drop_last();
    if ix < entries.len() - 1 {
        assert(entry_ids(rest) =~= entry_ids(entries).drop_last());
        assert(rest[ix] == entries[ix]);
        lemma_entries_map_at(rest, ix);
        assert(entry_ids(entries)[ix] != entry_ids(entries)[entries.len() - 1]);
    }
}

pub(crate) proof fn lemma_entries_map_absent<V>(entries: Seq<(RetainedNodeId, V)>, id: RetainedNodeId)
    requires
        !entry_ids(entries).contains(id),
    ensures
        !entries_map(entries).contains_key(id),
    decreases entries.len(),
{
    if entries.len() > 0 {
        let rest = entries.drop_last();
        assert(entry_ids(rest) =~= entry_ids(entries).drop_last());
        assert(entry_ids(entries)[entries.len() - 1] == entries.last().0);
        if entry_ids(rest).contains(id) {
            let k = choose|k: int| 0 <= k < entry_ids(rest).len() && entry_ids(rest)[k] == id;
            assert(entry_ids(entries)[k] == id);
        }
        lemma_entries_map_absent(rest, id);
    }
}

pub(crate) proof fn lemma_entries_map_update<V>(entries: Seq<(RetainedNodeId, V)>, ix: int, b: V)
    requires
        entry_ids(entries).no_duplicates(),
        0 <= ix < entries.len(),
    ensures
        entries_map(entries.update(ix, (entries[ix].0, b))) == entries_map(entries).insert(
            entries[ix].0,
            b,
        ),
    decreases entries.len(),
{
    let updated = entries.update(ix, (entries[ix].0, b));
    let rest = entries.drop_last();
    if ix == entries.len() - 1 {
        assert(updated.drop_last() =~= rest);
        assert(entries_map(updated) =~= entries_map(rest).insert(entries[ix].0, b));
    } else {
        assert(entry_ids(rest) =~= entry_ids(entries).drop_last());
        assert(updated.drop_last() =~= rest.update(ix, (rest[ix].0, b)));
        lemma_entries_map_update(rest, ix, b);
        assert(entry_ids(entries)[ix] != entry_ids(entries)[entries.len() - 1]);
        assert(entries_map(updated) =~= entries_map(entries).insert(entries[ix].0, b));
    }
}

} // verus!
