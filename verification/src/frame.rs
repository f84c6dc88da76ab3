//! Retained frame snapshots: a base table of node states with copy-on-write pages, overlaid
//! by a chain of journal deltas, newest first.
use vstd::prelude::*;
use std::collections::HashMap;
use std::rc::Rc;
use crate::bounds::Bounds;
use crate::retained::{
    entries_map, entry_ids, find_entry, lemma_entries_map_absent, lemma_entries_map_at,
    NodeGeneration, RetainedNodeId, RetainedNodePatch, RetainedNodeState,
};

verus! {

broadcast use vstd::std_specs::hash::group_hash_axioms;

/// Node states per copy-on-write page.
pub const PAGE_SIZE: usize = 256;

/// One journal step: the node patches leading from one scene version to the next, with the
/// position of each patched node's patch, over the steps before it.
pub struct RetainedFrameDelta {
    pub from_version: u64,
    pub to_version: u64,
    pub patches: Vec<RetainedNodePatch>,
    pub previous: Option<Rc<RetainedFrameDelta>>,
    pub depth: u16,
    /// Output damage of the step, per node.
    pub damage: Vec<(RetainedNodeId, Bounds)>,
    /// Backdrops that the step affects.
    pub dirty_backdrops: Vec<RetainedNodeId>,
    /// When set, `damage` already holds the output damage of `dirty_backdrops`.
    pub backdrop_damage_complete: bool,
    pub index: Vec<(RetainedNodeId, usize)>,
}

/// A retained frame: the base node table, the pages of it copied since, and the journal
/// overlay on top.
pub struct RetainedFrame {
    pub root: RetainedNodeId,
    pub nodes: Vec<RetainedNodeState>,
    pub node_index: Vec<(RetainedNodeId, usize)>,
    pub state_pages: HashMap<usize, Vec<RetainedNodeState>>,
    pub version: Option<u64>,
    pub delta: Option<Rc<RetainedFrameDelta>>,
}

/// Every delta of the chain indexes each node once and only its own patches.
pub open spec fn delta_wf(d: Option<Rc<RetainedFrameDelta>>) -> bool
    decreases d,
{
    match d {
        None => true,
        Some(delta) => {
            &&& entry_ids(delta.index@).no_duplicates()
            &&& forall|i: int|
                0 <= i < delta.index@.len() ==> #[trigger] delta.index@[i].1 < delta.patches@.len()
            &&& delta_wf(delta.previous)
        },
    }
}

pub open spec fn chain_len(d: Option<Rc<RetainedFrameDelta>>) -> nat
    decreases d,
{
    match d {
        None => 0,
        Some(delta) => 1 + chain_len(delta.previous),
    }
}

/// What the newest delta that patches `id` left of it (`Some(None)`: removed); `None` when no
/// delta of the chain patches it.
pub open spec fn delta_state(d: Option<Rc<RetainedFrameDelta>>, id: RetainedNodeId) -> Option<
    Option<RetainedNodeState>,
>
    decreases d,
{
    match d {
        None => None,
        Some(delta) => if entries_map(delta.index@).contains_key(id) {
            Some(delta.patches@[entries_map(delta.index@)[id] as int].new)
        } else {
            delta_state(delta.previous, id)
        },
    }
}

fn lookup_delta(d: &Option<Rc<RetainedFrameDelta>>, id: RetainedNodeId) -> (r: Option<
    Option<RetainedNodeState>,
>)
    requires
        delta_wf(*d),
    ensures
        r == delta_state(*d, id),
    decreases chain_len(*d),
{
    match d {
        None => None,
        Some(delta) => match find_entry(&delta.index, id) {
            Some(ix) => {
                proof {
                    lemma_entries_map_at(delta.index@, ix as int);
                }
                let patch = delta.index[ix].1;
                Some(delta.patches[patch].new)
            },
            None => {
                proof {
                    lemma_entries_map_absent(delta.index@, id);
                }
                lookup_delta(&delta.previous, id)
            },
        },
    }
}

impl RetainedFrame {
    /// The node index names each node once and a node table entry; a copied page holds every
    /// indexed node of its range.
    pub open spec fn wf(self) -> bool {
        &&& entry_ids(self.node_index@).no_duplicates()
        &&& forall|i: int|
            0 <= i < self.node_index@.len() ==> #[trigger] self.node_index@[i].1 < self.nodes@.len()
        &&& forall|i: int|
            0 <= i < self.node_index@.len() && self.state_pages@.contains_key(
                #[trigger] self.node_index@[i].1 / PAGE_SIZE,
            ) ==> self.node_index@[i].1 % PAGE_SIZE < self.state_pages@[self.node_index@[i].1
                / PAGE_SIZE]@.len()
        &&& delta_wf(self.delta)
    }

    /// The base table's state of `id`: from its copied page when there is one, else from the
    /// node table.
    pub open spec fn base_state(self, id: RetainedNodeId) -> Option<RetainedNodeState> {
        let m = entries_map(self.node_index@);
        if m.contains_key(id) {
            let index = m[id];
            if self.state_pages@.contains_key(index / PAGE_SIZE) {
                Some(self.state_pages@[index / PAGE_SIZE]@[(index % PAGE_SIZE) as int])
            } else {
                Some(self.nodes@[index as int])
            }
        } else {
            None
        }
    }

    /// The state of `id` in this frame: what the newest delta patching it left, else the base
    /// table's.
    pub open spec fn node_state_spec(self, id: RetainedNodeId) -> Option<RetainedNodeState> {
        match delta_state(self.delta, id) {
            Some(state) => state,
            None => self.base_state(id),
        }
    }

    pub fn node_state(&self, id: RetainedNodeId) -> (r: Option<RetainedNodeState>)
        requires
            self.wf(),
        ensures
            r == self.node_state_spec(id),
    {
        if let Some(state) = lookup_delta(&self.delta, id) {
            return state;
        }
        match find_entry(&self.node_index, id) {
            Some(ix) => {
                proof {
                    lemma_entries_map_at(self.node_index@, ix as int);
                }
                let index = self.node_index[ix].1;
                let base = self.nodes[index];
                match self.state_pages.get(&(index / PAGE_SIZE)) {
                    Some(page) => Some(page[index % PAGE_SIZE]),
                    None => Some(base),
                }
            },
            None => {
                proof {
                    lemma_entries_map_absent(self.node_index@, id);
                }
                None
            },
        }
    }

    pub fn node_revision(&self, id: RetainedNodeId) -> (r: Option<NodeGeneration>)
        requires
            self.wf(),
        ensures
            r == match self.node_state_spec(id) {
                Some(node) => Some(node.revision),
                None => None,
            },
    {
        match self.node_state(id) {
            Some(node) => Some(node.revision),
            None => None,
        }
    }
}

} // verus!
