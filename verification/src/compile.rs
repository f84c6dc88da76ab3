//! Compilation of a command tree into execution ops: draw batches, fused clip, opacity and
//! blend groups, and offscreen layers with their own op lists.
//!
//! The laws of compilation: [`law_compile_keeps_draw_order`], [`law_surface_ids_are_unique`],
//! [`law_lists_without_offscreen_layers_compile_fused`], [`law_surface_counts_fit`], and, in
//! `nesting`, `law_compile_nests_groups` (balanced, properly nested begin and end ops, and
//! batch stack ranges that copy the groups open at them).
use vstd::prelude::*;
use crate::retained::{
    entries_map, entry_ids, find_entry, lemma_entries_map_absent, lemma_entries_map_at,
    lemma_entries_map_update, PersistentLayerKey, RetainedNodeId, RetainedSurfaceId,
};
use crate::commands::{
    command_offscreen, command_refs_ok, offscreen_from, BlendMode, Command, CommandTree, LayerTag,
};

verus! {

/// Which input of a retained layer a draw batch feeds.
#[derive(Clone, Copy, Debug, PartialEq, Eq, Structural)]
pub enum RetainedBatchBranch {
    Content,
    Mask,
}

/// The retained node, and the branch of it, that a draw batch belongs to.
#[derive(Clone, Copy, Debug, PartialEq, Eq, Structural)]
pub struct RetainedBatchOwner {
    pub node: RetainedNodeId,
    pub branch: RetainedBatchBranch,
}

/// One fused group a draw batch is rendered inside. `draw` is the group's hidden draw record,
/// which carries its clip shape, opacity or blend mode.
#[derive(Clone, Copy, Debug, PartialEq, Eq, Structural)]
pub enum LayerStackEntry {
    Clip { draw: u32 },
    Opacity { draw: u32 },
    Blend { draw: u32, mode: BlendMode },
}

/// One step of an execution plan. Ranges `layer_start..layer_end` and
/// `outer_start..outer_end` index the plan's layer stack data.
#[derive(Debug)]
pub enum ExecOp {
    DrawBatch {
        draws: Vec<usize>,
        batch_id: u32,
        owners: Vec<RetainedBatchOwner>,
        layer_start: usize,
        layer_end: usize,
    },
    BeginClip,
    EndClip,
    BeginOpacity,
    EndOpacity,
    BeginBlend,
    EndBlend,
    OffscreenLayer {
        retained_id: Option<RetainedSurfaceId>,
        draw: usize,
        layer: LayerTag,
        outer_start: usize,
        outer_end: usize,
        children: Vec<ExecOp>,
    },
    OffscreenMaskLayer {
        retained_id: Option<RetainedSurfaceId>,
        outer_start: usize,
        outer_end: usize,
        content: Vec<ExecOp>,
        mask: Vec<ExecOp>,
    },
}

/// The value of an [`ExecOp`], with sequences in place of vectors.
pub enum OpView {
    DrawBatch {
        draws: Seq<usize>,
        batch_id: u32,
        owners: Seq<RetainedBatchOwner>,
        layer_start: nat,
        layer_end: nat,
    },
    BeginClip,
    EndClip,
    BeginOpacity,
    EndOpacity,
    BeginBlend,
    EndBlend,
    OffscreenLayer {
        retained_id: Option<RetainedSurfaceId>,
        draw: usize,
        layer: LayerTag,
        outer_start: nat,
        outer_end: nat,
        children: Seq<OpView>,
    },
    OffscreenMaskLayer {
        retained_id: Option<RetainedSurfaceId>,
        outer_start: nat,
        outer_end: nat,
        content: Seq<OpView>,
        mask: Seq<OpView>,
    },
}

impl ExecOp {
    pub open spec fn view_op(self) -> OpView
        decreases self,
    {
        match self {
            ExecOp::DrawBatch { draws, batch_id, owners, layer_start, layer_end } => {
                OpView::DrawBatch {
                    draws: draws@,
                    batch_id,
                    owners: owners@,
                    layer_start: layer_start as nat,
                    layer_end: layer_end as nat,
                }
            },
            ExecOp::BeginClip => OpView::BeginClip,
            ExecOp::EndClip => OpView::EndClip,
            ExecOp::BeginOpacity => OpView::BeginOpacity,
            ExecOp::EndOpacity => OpView::EndOpacity,
            ExecOp::BeginBlend => OpView::BeginBlend,
            ExecOp::EndBlend => OpView::EndBlend,
            ExecOp::OffscreenLayer { retained_id, draw, layer, outer_start, outer_end, children } => {
                OpView::OffscreenLayer {
                    retained_id,
                    draw,
                    layer,
                    outer_start: outer_start as nat,
                    outer_end: outer_end as nat,
                    children: ops_view(children@),
                }
            },
            ExecOp::OffscreenMaskLayer { retained_id, outer_start, outer_end, content, mask } => {
                OpView::OffscreenMaskLayer {
                    retained_id,
                    outer_start: outer_start as nat,
                    outer_end: outer_end as nat,
                    content: ops_view(content@),
                    mask: ops_view(mask@),
                }
            },
        }
    }
}

/// The values of a list of ops.
pub open spec fn ops_view(s: Seq<ExecOp>) -> Seq<OpView>
    decreases s,
{
    if s.len() == 0 {
        Seq::empty()
    } else {
        ops_view(s.drop_last()).push(s.last().view_op())
    }
}

/// An op, or an op nested in it, is a draw batch that lists `owner`.
pub open spec fn op_contains(op: OpView, owner: RetainedBatchOwner) -> bool
    decreases op,
{
    match op {
        OpView::DrawBatch { owners, .. } => owners.contains(owner),
        OpView::OffscreenLayer { children, .. } => ops_contain(children, owner),
        OpView::OffscreenMaskLayer { content, mask, .. } => ops_contain(content, owner)
            || ops_contain(mask, owner),
        _ => false,
    }
}

/// Some op of `s`, or an op nested in one, is a draw batch that lists `owner`.
pub open spec fn ops_contain(s: Seq<OpView>, owner: RetainedBatchOwner) -> bool
    decreases s,
{
    if s.len() == 0 {
        false
    } else {
        ops_contain(s.drop_last(), owner) || op_contains(s.last(), owner)
    }
}

pub proof fn lemma_ops_view_index(s: Seq<ExecOp>)
    ensures
        ops_view(s).len() == s.len(),
        forall|i: int| 0 <= i < s.len() ==> #[trigger] ops_view(s)[i] == s[i].view_op(),
    decreases s.len(),
{
    if s.len() > 0 {
        lemma_ops_view_index(s.drop_last());
    }
}

pub proof fn lemma_ops_view_push(s: Seq<ExecOp>, op: ExecOp)
    ensures
        ops_view(s.push(op)) == ops_view(s).push(op.view_op()),
{
    assert(s.push(op).drop_last() =~= s);
}

pub proof fn lemma_ops_view_subrange(s: Seq<ExecOp>, a: int, b: int)
    requires
        0 <= a <= b <= s.len(),
    ensures
        ops_view(s.subrange(a, b)) == ops_view(s).subrange(a, b),
{
    lemma_ops_view_index(s);
    lemma_ops_view_index(s.subrange(a, b));
    assert(ops_view(s.subrange(a, b)) =~= ops_view(s).subrange(a, b));
}

fn owners_contain(owners: &Vec<RetainedBatchOwner>, owner: RetainedBatchOwner) -> (r: bool)
    ensures
        r == owners@.contains(owner),
{
    let mut i: usize = 0;
    while i < owners.len()
        invariant
            i <= owners@.len(),
            forall|k: int| 0 <= k < i ==> owners@[k] != owner,
        decreases owners.len() - i,
    {
        if owners[i] == owner {
            return true;
        }
        i = i + 1;
    }
    false
}

/// Whether some op of `ops`, or an op nested in an offscreen layer, is a draw batch that
/// lists `owner`.
pub fn exec_ops_contain_owner(ops: &[ExecOp], owner: RetainedBatchOwner) -> (r: bool)
    ensures
        r == ops_contain(ops_view(ops@), owner),
    decreases ops@,
{
    let mut i: usize = 0;
    let mut found = false;
    while i < ops.len()
        invariant
            i <= ops@.len(),
            found == ops_contain(ops_view(ops@.subrange(0, i as int)), owner),
        decreases ops.len() - i,
    {
        let here = match &ops[i] {
            ExecOp::DrawBatch { owners, .. } => owners_contain(owners, owner),
            ExecOp::OffscreenLayer { children, .. } => {
                proof {
                    assert(decreases_to!(ops@ => ops@[i as int]));
                }
                exec_ops_contain_owner(children.as_slice(), owner)
            },
            ExecOp::OffscreenMaskLayer { content, mask, .. } => {
                exec_ops_contain_owner(content.as_slice(), owner) || exec_ops_contain_owner(
                    mask.as_slice(),
                    owner,
                )
            },
            _ => false,
        };
        proof {
            let prefix = ops@.subrange(0, i + 1);
            assert(prefix.drop_last() =~= ops@.subrange(0, i as int));
            assert(prefix.last() == ops@[i as int]);
            assert(here == op_contains(ops@[i as int].view_op(), owner));
            let pv = ops_view(prefix);
            assert(pv == ops_view(ops@.subrange(0, i as int)).push(ops@[i as int].view_op()));
            assert(pv.drop_last() =~= ops_view(ops@.subrange(0, i as int)));
        }
        found = found || here;
        i = i + 1;
    }
    proof {
        assert(ops@.subrange(0, ops@.len() as int) =~= ops@);
    }
    found
}


/// Number of offscreen surfaces numbered so far for `owner`.
pub open spec fn slot_of(slots: Map<RetainedNodeId, nat>, owner: RetainedNodeId) -> nat {
    if slots.contains_key(owner) {
        slots[owner]
    } else {
        0
    }
}

/// Every owner's count in `a` is at most its count in `b`.
pub open spec fn slots_le(a: Map<RetainedNodeId, nat>, b: Map<RetainedNodeId, nat>) -> bool {
    forall|o: RetainedNodeId|
        #![trigger slot_of(a, o)]
        #![trigger slot_of(b, o)]
        slot_of(a, o) <= slot_of(b, o)
}

/// Every owner's count fits a surface slot number.
pub open spec fn slots_fit(slots: Map<RetainedNodeId, nat>) -> bool {
    forall|o: RetainedNodeId| #[trigger] slot_of(slots, o) <= u32::MAX
}

/// Per retained owner, how many offscreen surfaces compilation has numbered.
pub struct SurfaceSlots {
    entries: Vec<(RetainedNodeId, u32)>,
}

impl View for SurfaceSlots {
    type V = Map<RetainedNodeId, nat>;

    closed spec fn view(&self) -> Map<RetainedNodeId, nat> {
        entries_map(self.entries@).map_values(|v: u32| v as nat)
    }
}

impl SurfaceSlots {
    pub closed spec fn wf(self) -> bool {
        entry_ids(self.entries@).no_duplicates()
    }

    pub fn new() -> (s: SurfaceSlots)
        ensures
            s.wf(),
            s@ == Map::<RetainedNodeId, nat>::empty(),
    {
        let s = SurfaceSlots { entries: Vec::new() };
        proof {
            assert(entries_map(s.entries@) =~= Map::<RetainedNodeId, u32>::empty());
            assert(s@ =~= Map::<RetainedNodeId, nat>::empty());
        }
        s
    }

    /// Numbers the next surface of `owner`: returns the count so far and counts one more.
    fn take(&mut self, owner: RetainedNodeId) -> (slot: u32)
        requires
            old(self).wf(),
            slot_of(old(self)@, owner) < u32::MAX,
        ensures
            final(self).wf(),
            slot == slot_of(old(self)@, owner),
            final(self)@ == old(self)@.insert(owner, slot_of(old(self)@, owner) + 1),
    {
        let ghost old_entries = self.entries@;
        match find_entry(&self.entries, owner) {
            Some(ix) => {
                let current = self.entries[ix].1;
                proof {
                    lemma_entries_map_at(old_entries, ix as int);
                }
                self.entries.set(ix, (owner, current + 1));
                proof {
                    lemma_entries_map_update(old_entries, ix as int, (current + 1) as u32);
                    assert(entry_ids(self.entries@) =~= entry_ids(old_entries));
                    assert(self@ =~= old(self)@.insert(owner, slot_of(old(self)@, owner) + 1));
                }
                current
            },
            None => {
                proof {
                    lemma_entries_map_absent(old_entries, owner);
                }
                self.entries.push((owner, 1));
                proof {
                    assert(self.entries@.drop_last() == old_entries);
                    assert(entry_ids(self.entries@) =~= entry_ids(old_entries).push(owner));
                    assert(self@ =~= old(self)@.insert(owner, slot_of(old(self)@, owner) + 1));
                }
                0
            },
        }
    }
}

/// The owners compilation attributes ops and surfaces to.
#[derive(Clone, Copy, Debug, PartialEq, Eq, Structural)]
pub struct CompileOwners {
    pub retained: Option<RetainedNodeId>,
    pub batch: Option<RetainedBatchOwner>,
}

/// What compilation has produced so far: ops, layer stack data, and surface counts.
#[verifier::ext_equal]
pub struct CompileState {
    pub ops: Seq<OpView>,
    pub data: Seq<LayerStackEntry>,
    pub slots: Map<RetainedNodeId, nat>,
}

/// Later state `b` extends earlier state `a`.
pub open spec fn grows(a: CompileState, b: CompileState) -> bool {
    &&& a.ops.len() <= b.ops.len()
    &&& b.ops.subrange(0, a.ops.len() as int) == a.ops
    &&& slots_le(a.slots, b.slots)
}

pub open spec fn owner_seq(batch: Option<RetainedBatchOwner>) -> Seq<RetainedBatchOwner> {
    match batch {
        Some(o) => seq![o],
        None => Seq::empty(),
    }
}

/// Appends a draw batch rendered inside the open fused groups `stack`, whose entries are
/// copied to the layer stack data.
pub open spec fn push_batch(
    st: CompileState,
    draws: Seq<usize>,
    owners: Seq<RetainedBatchOwner>,
    stack: Seq<LayerStackEntry>,
) -> CompileState {
    CompileState {
        ops: st.ops.push(
            OpView::DrawBatch {
                draws,
                batch_id: u32::MAX,
                owners,
                layer_start: st.data.len(),
                layer_end: st.data.len() + stack.len(),
            },
        ),
        data: st.data + stack,
        slots: st.slots,
    }
}

/// Emits the pending draws as one batch, if there are any.
pub open spec fn flush_spec(
    st: CompileState,
    pending: Seq<usize>,
    stack: Seq<LayerStackEntry>,
    batch: Option<RetainedBatchOwner>,
) -> CompileState {
    if pending.len() == 0 {
        st
    } else {
        push_batch(st, pending, owner_seq(batch), stack)
    }
}

/// A batch owner that no op emitted since `op_start` names still gets an empty batch, so that
/// its node keeps a place in the plan.
pub open spec fn finish_spec(
    st: CompileState,
    stack: Seq<LayerStackEntry>,
    batch: Option<RetainedBatchOwner>,
    op_start: int,
) -> CompileState {
    match batch {
        Some(o) => if ops_contain(st.ops.subrange(op_start, st.ops.len() as int), o) {
            st
        } else {
            push_batch(st, Seq::empty(), seq![o], stack)
        },
        None => st,
    }
}

/// Numbers a surface for `owner`, when there is one.
pub open spec fn take_slot(slots: Map<RetainedNodeId, nat>, owner: Option<RetainedNodeId>) -> (
    Option<RetainedSurfaceId>,
    Map<RetainedNodeId, nat>,
) {
    match owner {
        Some(o) => (
            Some(RetainedSurfaceId { node: o, slot: slot_of(slots, o) as u32 }),
            slots.insert(o, slot_of(slots, o) + 1),
        ),
        None => (None, slots),
    }
}

/// A retained layer owns what it contains; otherwise the enclosing owner does.
pub open spec fn layer_owner(retained: Option<PersistentLayerKey>, outer: Option<RetainedNodeId>) -> Option<RetainedNodeId> {
    match retained {
        Some(key) => Some(key.id),
        None => outer,
    }
}

pub open spec fn branch_owner(
    retained: Option<PersistentLayerKey>,
    branch: RetainedBatchBranch,
    outer: Option<RetainedBatchOwner>,
) -> Option<RetainedBatchOwner> {
    match retained {
        Some(key) => Some(RetainedBatchOwner { node: key.id, branch }),
        None => outer,
    }
}

/// A layer that stays in the fused tile stream (see `CommandTree::can_fuse`).
pub open spec fn can_fuse_spec(lists: Seq<Seq<Command>>, layer: LayerTag, children: int) -> bool {
    match layer {
        LayerTag::Clip | LayerTag::ClipSdf => true,
        LayerTag::Opacity | LayerTag::Blend(_) => !offscreen_from(lists, children, 0),
        _ => false,
    }
}

pub open spec fn group_entry(layer: LayerTag, draw: usize) -> LayerStackEntry {
    match layer {
        LayerTag::Clip | LayerTag::ClipSdf => LayerStackEntry::Clip { draw: draw as u32 },
        LayerTag::Opacity => LayerStackEntry::Opacity { draw: draw as u32 },
        LayerTag::Blend(mode) => LayerStackEntry::Blend { draw: draw as u32, mode },
        _ => LayerStackEntry::Clip { draw: draw as u32 },
    }
}

pub open spec fn group_begin(layer: LayerTag) -> OpView {
    match layer {
        LayerTag::Opacity => OpView::BeginOpacity,
        LayerTag::Blend(_) => OpView::BeginBlend,
        _ => OpView::BeginClip,
    }
}

pub open spec fn group_end(layer: LayerTag) -> OpView {
    match layer {
        LayerTag::Opacity => OpView::EndOpacity,
        LayerTag::Blend(_) => OpView::EndBlend,
        _ => OpView::EndClip,
    }
}

/// Compiles list `id` from command `k` on, with draws `pending` not yet batched, the fused
/// groups `stack` open, and ops of this list emitted since `op_start`.
pub open spec fn compile_from(
    lists: Seq<Seq<Command>>,
    id: int,
    k: int,
    pending: Seq<usize>,
    stack: Seq<LayerStackEntry>,
    owners: CompileOwners,
    op_start: int,
    st: CompileState,
) -> CompileState
    decreases lists.len() - id, lists[id].len() - k, 1int,
    when 0 <= id < lists.len() && 0 <= k
{
    if k >= lists[id].len() {
        finish_spec(flush_spec(st, pending, stack, owners.batch), stack, owners.batch, op_start)
    } else {
        let next = compile_step(lists, id, k, pending, stack, owners, st);
        compile_from(lists, id, k + 1, next.0, stack, owners, op_start, next.1)
    }
}

/// Compiles command `k` of list `id`: the draws left pending and the state after it.
pub open spec fn compile_step(
    lists: Seq<Seq<Command>>,
    id: int,
    k: int,
    pending: Seq<usize>,
    stack: Seq<LayerStackEntry>,
    owners: CompileOwners,
    st: CompileState,
) -> (Seq<usize>, CompileState)
    decreases lists.len() - id, lists[id].len() - k, 0int,
    when 0 <= id < lists.len() && 0 <= k < lists[id].len()
{
    let st1 = flush_spec(st, pending, stack, owners.batch);
    match lists[id][k] {
        Command::Draw(d) => (pending.push(d), st),
        Command::MaterializedRetainedScene { id: node, children } => {
            if id < children < lists.len() {
                let child_owners = CompileOwners { retained: Some(node), batch: owners.batch };
                (
                    Seq::empty(),
                    compile_from(
                        lists,
                        children as int,
                        0,
                        Seq::empty(),
                        stack,
                        child_owners,
                        st1.ops.len() as int,
                        st1,
                    ),
                )
            } else {
                (Seq::empty(), st1)
            }
        },
        Command::Layer { retained, draw, layer, children } => {
            let child_owners = CompileOwners {
                retained: layer_owner(retained, owners.retained),
                batch: branch_owner(retained, RetainedBatchBranch::Content, owners.batch),
            };
            if !(id < children < lists.len()) {
                (Seq::empty(), st1)
            } else if can_fuse_spec(lists, layer, children as int) {
                let st2 = CompileState {
                    ops: st1.ops.push(group_begin(layer)),
                    data: st1.data,
                    slots: st1.slots,
                };
                let st3 = compile_from(
                    lists,
                    children as int,
                    0,
                    Seq::empty(),
                    stack.push(group_entry(layer, draw)),
                    child_owners,
                    st2.ops.len() as int,
                    st2,
                );
                (
                    Seq::empty(),
                    CompileState {
                        ops: st3.ops.push(group_end(layer)),
                        data: st3.data,
                        slots: st3.slots,
                    },
                )
            } else {
                let data1 = st1.data + stack;
                let taken = take_slot(st1.slots, child_owners.retained);
                let child_stack = if layer == LayerTag::Backdrop {
                    stack
                } else {
                    Seq::empty()
                };
                let child = compile_from(
                    lists,
                    children as int,
                    0,
                    Seq::empty(),
                    child_stack,
                    child_owners,
                    0,
                    CompileState { ops: Seq::empty(), data: data1, slots: taken.1 },
                );
                (
                    Seq::empty(),
                    CompileState {
                        ops: st1.ops.push(
                            OpView::OffscreenLayer {
                                retained_id: taken.0,
                                draw,
                                layer,
                                outer_start: st1.data.len(),
                                outer_end: data1.len(),
                                children: child.ops,
                            },
                        ),
                        data: child.data,
                        slots: child.slots,
                    },
                )
            }
        },
        Command::MaskLayer { retained, content, mask } => {
            if !(id < content < lists.len() && id < mask < lists.len()) {
                (Seq::empty(), st1)
            } else {
                let retained_owner = layer_owner(retained, owners.retained);
                let data1 = st1.data + stack;
                let taken = take_slot(st1.slots, retained_owner);
                let c = compile_from(
                    lists,
                    content as int,
                    0,
                    Seq::empty(),
                    Seq::empty(),
                    CompileOwners {
                        retained: retained_owner,
                        batch: branch_owner(retained, RetainedBatchBranch::Content, owners.batch),
                    },
                    0,
                    CompileState { ops: Seq::empty(), data: data1, slots: taken.1 },
                );
                let m = compile_from(
                    lists,
                    mask as int,
                    0,
                    Seq::empty(),
                    Seq::empty(),
                    CompileOwners {
                        retained: retained_owner,
                        batch: branch_owner(retained, RetainedBatchBranch::Mask, owners.batch),
                    },
                    0,
                    CompileState { ops: Seq::empty(), data: c.data, slots: c.slots },
                );
                (
                    Seq::empty(),
                    CompileState {
                        ops: st1.ops.push(
                            OpView::OffscreenMaskLayer {
                                retained_id: taken.0,
                                outer_start: st1.data.len(),
                                outer_end: data1.len(),
                                content: c.ops,
                                mask: m.ops,
                            },
                        ),
                        data: m.data,
                        slots: m.slots,
                    },
                )
            }
        },
    }
}

pub(crate) proof fn lemma_grows_trans(a: CompileState, b: CompileState, c: CompileState)
    requires
        grows(a, b),
        grows(b, c),
    ensures
        grows(a, c),
{
    assert(c.ops.subrange(0, a.ops.len() as int) =~= c.ops.subrange(0, b.ops.len() as int).subrange(
        0,
        a.ops.len() as int,
    ));
}

pub(crate) proof fn lemma_grows_push(a: CompileState, op: OpView, data: Seq<LayerStackEntry>, slots: Map<RetainedNodeId, nat>)
    requires
        slots_le(a.slots, slots),
    ensures
        grows(a, CompileState { ops: a.ops.push(op), data, slots }),
{
    assert(a.ops.push(op).subrange(0, a.ops.len() as int) =~= a.ops);
}

pub(crate) proof fn lemma_grows_flush(
    st: CompileState,
    pending: Seq<usize>,
    stack: Seq<LayerStackEntry>,
    batch: Option<RetainedBatchOwner>,
)
    ensures
        grows(st, flush_spec(st, pending, stack, batch)),
{
    if pending.len() > 0 {
        let f = flush_spec(st, pending, stack, batch);
        lemma_grows_push(st, f.ops.last(), f.data, f.slots);
        assert(f.ops == st.ops.push(f.ops.last()));
    } else {
        assert(st.ops.subrange(0, st.ops.len() as int) =~= st.ops);
    }
}

/// Compilation only appends ops and only raises surface counts.
pub proof fn lemma_compile_grows(
    lists: Seq<Seq<Command>>,
    id: int,
    k: int,
    pending: Seq<usize>,
    stack: Seq<LayerStackEntry>,
    owners: CompileOwners,
    op_start: int,
    st: CompileState,
)
    requires
        0 <= id < lists.len(),
        0 <= k,
    ensures
        grows(st, compile_from(lists, id, k, pending, stack, owners, op_start, st)),
    decreases lists.len() - id, lists[id].len() - k, 1int,
{
    if k < lists[id].len() {
        lemma_step_grows(lists, id, k, pending, stack, owners, st);
        let next = compile_step(lists, id, k, pending, stack, owners, st);
        lemma_compile_grows(lists, id, k + 1, next.0, stack, owners, op_start, next.1);
        lemma_grows_trans(st, next.1, compile_from(lists, id, k + 1, next.0, stack, owners, op_start, next.1));
    } else {
        let st1 = flush_spec(st, pending, stack, owners.batch);
        lemma_grows_flush(st, pending, stack, owners.batch);
        match owners.batch {
            Some(o) => {
                if !ops_contain(st1.ops.subrange(op_start, st1.ops.len() as int), o) {
                    let fin = push_batch(st1, Seq::empty(), seq![o], stack);
                    lemma_grows_push(st1, fin.ops.last(), fin.data, fin.slots);
                    assert(fin.ops == st1.ops.push(fin.ops.last()));
                    lemma_grows_trans(st, st1, fin);
                }
            },
            None => {},
        }
    }
}

/// One compiled command only appends ops and only raises surface counts.
pub proof fn lemma_step_grows(
    lists: Seq<Seq<Command>>,
    id: int,
    k: int,
    pending: Seq<usize>,
    stack: Seq<LayerStackEntry>,
    owners: CompileOwners,
    st: CompileState,
)
    requires
        0 <= id < lists.len(),
        0 <= k < lists[id].len(),
    ensures
        grows(st, compile_step(lists, id, k, pending, stack, owners, st).1),
    decreases lists.len() - id, lists[id].len() - k, 0int,
{
    let st1 = flush_spec(st, pending, stack, owners.batch);
    lemma_grows_flush(st, pending, stack, owners.batch);
    let next = compile_step(lists, id, k, pending, stack, owners, st);
    match lists[id][k] {
        Command::Draw(d) => {
            assert(st.ops.subrange(0, st.ops.len() as int) =~= st.ops);
        },
        Command::MaterializedRetainedScene { id: node, children } => {
            if id < children < lists.len() {
                let child_owners = CompileOwners { retained: Some(node), batch: owners.batch };
                lemma_compile_grows(lists, children as int, 0, Seq::empty(), stack, child_owners, st1.ops.len() as int, st1);
                lemma_grows_trans(st, st1, next.1);
            }
        },
        Command::Layer { retained, draw, layer, children } => {
            let child_owners = CompileOwners {
                retained: layer_owner(retained, owners.retained),
                batch: branch_owner(retained, RetainedBatchBranch::Content, owners.batch),
            };
            if id < children < lists.len() {
                if can_fuse_spec(lists, layer, children as int) {
                    let st2 = CompileState {
                        ops: st1.ops.push(group_begin(layer)),
                        data: st1.data,
                        slots: st1.slots,
                    };
                    lemma_grows_push(st1, group_begin(layer), st1.data, st1.slots);
                    lemma_compile_grows(lists, children as int, 0, Seq::empty(), stack.push(group_entry(layer, draw)), child_owners, st2.ops.len() as int, st2);
                    let st3 = compile_from(lists, children as int, 0, Seq::empty(), stack.push(group_entry(layer, draw)), child_owners, st2.ops.len() as int, st2);
                    lemma_grows_push(st3, group_end(layer), st3.data, st3.slots);
                    lemma_grows_trans(st1, st2, st3);
                    lemma_grows_trans(st1, st3, next.1);
                    lemma_grows_trans(st, st1, next.1);
                } else {
                    let data1 = st1.data + stack;
                    let taken = take_slot(st1.slots, child_owners.retained);
                    let child_stack = if layer == LayerTag::Backdrop {
                        stack
                    } else {
                        Seq::empty()
                    };
                    let cst = CompileState { ops: Seq::empty(), data: data1, slots: taken.1 };
                    lemma_compile_grows(lists, children as int, 0, Seq::empty(), child_stack, child_owners, 0, cst);
                    assert(slots_le(st1.slots, taken.1));
                    let child = compile_from(lists, children as int, 0, Seq::empty(), child_stack, child_owners, 0, cst);
                    assert(slots_le(st1.slots, child.slots));
                    lemma_grows_push(st1, next.1.ops.last(), child.data, child.slots);
                    assert(next.1.ops == st1.ops.push(next.1.ops.last()));
                    lemma_grows_trans(st, st1, next.1);
                }
            }
        },
        Command::MaskLayer { retained, content, mask } => {
            if id < content < lists.len() && id < mask < lists.len() {
                let retained_owner = layer_owner(retained, owners.retained);
                let data1 = st1.data + stack;
                let taken = take_slot(st1.slots, retained_owner);
                let cst = CompileState { ops: Seq::empty(), data: data1, slots: taken.1 };
                let content_owners = CompileOwners {
                    retained: retained_owner,
                    batch: branch_owner(retained, RetainedBatchBranch::Content, owners.batch),
                };
                lemma_compile_grows(lists, content as int, 0, Seq::empty(), Seq::empty(), content_owners, 0, cst);
                let c = compile_from(lists, content as int, 0, Seq::empty(), Seq::empty(), content_owners, 0, cst);
                let mst = CompileState { ops: Seq::empty(), data: c.data, slots: c.slots };
                let mask_owners = CompileOwners {
                    retained: retained_owner,
                    batch: branch_owner(retained, RetainedBatchBranch::Mask, owners.batch),
                };
                lemma_compile_grows(lists, mask as int, 0, Seq::empty(), Seq::empty(), mask_owners, 0, mst);
                let m = compile_from(lists, mask as int, 0, Seq::empty(), Seq::empty(), mask_owners, 0, mst);
                assert(slots_le(st1.slots, taken.1));
                assert(slots_le(st1.slots, m.slots));
                lemma_grows_push(st1, next.1.ops.last(), m.data, m.slots);
                assert(next.1.ops == st1.ops.push(next.1.ops.last()));
                lemma_grows_trans(st, st1, next.1);
            }
        },
    }
}


/// The draws an op renders, nested ops included, in order.
pub open spec fn op_draws(op: OpView) -> Seq<usize>
    decreases op,
{
    match op {
        OpView::DrawBatch { draws, .. } => draws,
        OpView::OffscreenLayer { children, .. } => ops_draws(children),
        OpView::OffscreenMaskLayer { content, mask, .. } => ops_draws(content) + ops_draws(mask),
        _ => Seq::empty(),
    }
}

/// The draws a list of ops renders, in order.
pub open spec fn ops_draws(s: Seq<OpView>) -> Seq<usize>
    decreases s,
{
    if s.len() == 0 {
        Seq::empty()
    } else {
        ops_draws(s.drop_last()) + op_draws(s.last())
    }
}

/// The draws list `id` records from command `k` on, in painter order: scenes and layers
/// contribute their children's draws, mask layers their content's and then their mask's.
pub open spec fn list_draws(lists: Seq<Seq<Command>>, id: int, k: int) -> Seq<usize>
    decreases lists.len() - id, lists[id].len() - k, 1int,
    when 0 <= id < lists.len() && 0 <= k
{
    if k >= lists[id].len() {
        Seq::empty()
    } else {
        command_draws(lists, id, k) + list_draws(lists, id, k + 1)
    }
}

/// The draws command `k` of list `id` records.
pub open spec fn command_draws(lists: Seq<Seq<Command>>, id: int, k: int) -> Seq<usize>
    decreases lists.len() - id, lists[id].len() - k, 0int,
    when 0 <= id < lists.len() && 0 <= k < lists[id].len()
{
    match lists[id][k] {
        Command::Draw(d) => seq![d],
        Command::MaterializedRetainedScene { children, .. } => if id < children < lists.len() {
            list_draws(lists, children as int, 0)
        } else {
            Seq::empty()
        },
        Command::Layer { children, .. } => if id < children < lists.len() {
            list_draws(lists, children as int, 0)
        } else {
            Seq::empty()
        },
        Command::MaskLayer { content, mask, .. } => if id < content < lists.len() && id < mask
            < lists.len() {
            list_draws(lists, content as int, 0) + list_draws(lists, mask as int, 0)
        } else {
            Seq::empty()
        },
    }
}

proof fn lemma_ops_draws_push(s: Seq<OpView>, op: OpView)
    ensures
        ops_draws(s.push(op)) == ops_draws(s) + op_draws(op),
{
    assert(s.push(op).drop_last() =~= s);
}

proof fn lemma_draws_flush(
    st: CompileState,
    pending: Seq<usize>,
    stack: Seq<LayerStackEntry>,
    batch: Option<RetainedBatchOwner>,
)
    ensures
        ops_draws(flush_spec(st, pending, stack, batch).ops) == ops_draws(st.ops) + pending,
{
    if pending.len() == 0 {
        assert(ops_draws(st.ops) + pending =~= ops_draws(st.ops));
    } else {
        lemma_ops_draws_push(st.ops, flush_spec(st, pending, stack, batch).ops.last());
        assert(flush_spec(st, pending, stack, batch).ops.drop_last() =~= st.ops);
    }
}

proof fn lemma_draws_from(
    lists: Seq<Seq<Command>>,
    id: int,
    k: int,
    pending: Seq<usize>,
    stack: Seq<LayerStackEntry>,
    owners: CompileOwners,
    op_start: int,
    st: CompileState,
)
    requires
        0 <= id < lists.len(),
        0 <= k,
    ensures
        ops_draws(compile_from(lists, id, k, pending, stack, owners, op_start, st).ops)
            == ops_draws(st.ops) + pending + list_draws(lists, id, k),
    decreases lists.len() - id, lists[id].len() - k, 1int,
{
    if k >= lists[id].len() {
        let st1 = flush_spec(st, pending, stack, owners.batch);
        lemma_draws_flush(st, pending, stack, owners.batch);
        match owners.batch {
            Some(o) => {
                if !ops_contain(st1.ops.subrange(op_start, st1.ops.len() as int), o) {
                    let fin = push_batch(st1, Seq::empty(), seq![o], stack);
                    lemma_ops_draws_push(st1.ops, fin.ops.last());
                    assert(fin.ops.drop_last() =~= st1.ops);
                }
            },
            None => {},
        }
        assert(ops_draws(st.ops) + pending + list_draws(lists, id, k) =~= ops_draws(st.ops) + pending);
    } else {
        let next = compile_step(lists, id, k, pending, stack, owners, st);
        lemma_draws_step(lists, id, k, pending, stack, owners, st);
        lemma_draws_from(lists, id, k + 1, next.0, stack, owners, op_start, next.1);
        assert(ops_draws(st.ops) + pending + command_draws(lists, id, k) + list_draws(lists, id, k + 1)
            =~= ops_draws(st.ops) + pending + list_draws(lists, id, k));
    }
}

proof fn lemma_draws_step(
    lists: Seq<Seq<Command>>,
    id: int,
    k: int,
    pending: Seq<usize>,
    stack: Seq<LayerStackEntry>,
    owners: CompileOwners,
    st: CompileState,
)
    requires
        0 <= id < lists.len(),
        0 <= k < lists[id].len(),
    ensures
        ({
            let next = compile_step(lists, id, k, pending, stack, owners, st);
            ops_draws(next.1.ops) + next.0 == ops_draws(st.ops) + pending + command_draws(lists, id, k)
        }),
    decreases lists.len() - id, lists[id].len() - k, 0int,
{
    let st1 = flush_spec(st, pending, stack, owners.batch);
    lemma_draws_flush(st, pending, stack, owners.batch);
    let next = compile_step(lists, id, k, pending, stack, owners, st);
    match lists[id][k] {
        Command::Draw(d) => {
            assert(ops_draws(st.ops) + pending.push(d) =~= ops_draws(st.ops) + pending + seq![d]);
        },
        Command::MaterializedRetainedScene { id: node, children } => {
            if id < children < lists.len() {
                let child_owners = CompileOwners { retained: Some(node), batch: owners.batch };
                lemma_draws_from(lists, children as int, 0, Seq::empty(), stack, child_owners, st1.ops.len() as int, st1);
                assert(ops_draws(st1.ops) + Seq::<usize>::empty() + list_draws(lists, children as int, 0)
                    =~= ops_draws(st1.ops) + list_draws(lists, children as int, 0));
            }
            assert(ops_draws(next.1.ops) + next.0 =~= ops_draws(next.1.ops));
            assert(ops_draws(st.ops) + pending + command_draws(lists, id, k) =~= ops_draws(st1.ops)
                + command_draws(lists, id, k));
        },
        Command::Layer { retained, draw, layer, children } => {
            let child_owners = CompileOwners {
                retained: layer_owner(retained, owners.retained),
                batch: branch_owner(retained, RetainedBatchBranch::Content, owners.batch),
            };
            if id < children < lists.len() {
                if can_fuse_spec(lists, layer, children as int) {
                    let st2 = CompileState {
                        ops: st1.ops.push(group_begin(layer)),
                        data: st1.data,
                        slots: st1.slots,
                    };
                    lemma_ops_draws_push(st1.ops, group_begin(layer));
                    lemma_draws_from(lists, children as int, 0, Seq::empty(), stack.push(group_entry(layer, draw)), child_owners, st2.ops.len() as int, st2);
                    let st3 = compile_from(lists, children as int, 0, Seq::empty(), stack.push(group_entry(layer, draw)), child_owners, st2.ops.len() as int, st2);
                    lemma_ops_draws_push(st3.ops, group_end(layer));
                    assert(ops_draws(st2.ops) =~= ops_draws(st1.ops));
                    assert(ops_draws(st3.ops.push(group_end(layer))) =~= ops_draws(st3.ops));
                    assert(ops_draws(st2.ops) + Seq::<usize>::empty() + list_draws(lists, children as int, 0)
                        =~= ops_draws(st1.ops) + list_draws(lists, children as int, 0));
                } else {
                    let data1 = st1.data + stack;
                    let taken = take_slot(st1.slots, child_owners.retained);
                    let child_stack = if layer == LayerTag::Backdrop {
                        stack
                    } else {
                        Seq::empty()
                    };
                    let cst = CompileState { ops: Seq::empty(), data: data1, slots: taken.1 };
                    lemma_draws_from(lists, children as int, 0, Seq::empty(), child_stack, child_owners, 0, cst);
                    let child = compile_from(lists, children as int, 0, Seq::empty(), child_stack, child_owners, 0, cst);
                    assert(ops_draws(cst.ops) =~= Seq::<usize>::empty());
                    assert(ops_draws(child.ops) =~= list_draws(lists, children as int, 0));
                    lemma_ops_draws_push(st1.ops, next.1.ops.last());
                    assert(next.1.ops.drop_last() =~= st1.ops);
                }
            }
            assert(ops_draws(next.1.ops) + next.0 =~= ops_draws(next.1.ops));
            assert(ops_draws(st.ops) + pending + command_draws(lists, id, k) =~= ops_draws(st1.ops)
                + command_draws(lists, id, k));
        },
        Command::MaskLayer { retained, content, mask } => {
            if id < content < lists.len() && id < mask < lists.len() {
                let retained_owner = layer_owner(retained, owners.retained);
                let data1 = st1.data + stack;
                let taken = take_slot(st1.slots, retained_owner);
                let cst = CompileState { ops: Seq::empty(), data: data1, slots: taken.1 };
                let content_owners = CompileOwners {
                    retained: retained_owner,
                    batch: branch_owner(retained, RetainedBatchBranch::Content, owners.batch),
                };
                lemma_draws_from(lists, content as int, 0, Seq::empty(), Seq::empty(), content_owners, 0, cst);
                let c = compile_from(lists, content as int, 0, Seq::empty(), Seq::empty(), content_owners, 0, cst);
                let mst = CompileState { ops: Seq::empty(), data: c.data, slots: c.slots };
                let mask_owners = CompileOwners {
                    retained: retained_owner,
                    batch: branch_owner(retained, RetainedBatchBranch::Mask, owners.batch),
                };
                lemma_draws_from(lists, mask as int, 0, Seq::empty(), Seq::empty(), mask_owners, 0, mst);
                let m = compile_from(lists, mask as int, 0, Seq::empty(), Seq::empty(), mask_owners, 0, mst);
                assert(ops_draws(Seq::<OpView>::empty()) =~= Seq::<usize>::empty());
                assert(ops_draws(c.ops) =~= list_draws(lists, content as int, 0));
                assert(ops_draws(m.ops) =~= list_draws(lists, mask as int, 0));
                lemma_ops_draws_push(st1.ops, next.1.ops.last());
                assert(next.1.ops.drop_last() =~= st1.ops);
            }
            assert(ops_draws(next.1.ops) + next.0 =~= ops_draws(next.1.ops));
            assert(ops_draws(st.ops) + pending + command_draws(lists, id, k) =~= ops_draws(st1.ops)
                + command_draws(lists, id, k));
        },
    }
}

/// Compiling a list renders exactly the draws it records, each once, in painter order, after
/// whatever was compiled before.
pub proof fn law_compile_keeps_draw_order(
    lists: Seq<Seq<Command>>,
    id: int,
    stack: Seq<LayerStackEntry>,
    owners: CompileOwners,
    st: CompileState,
)
    requires
        0 <= id < lists.len(),
    ensures
        ops_draws(compile_from(lists, id, 0, Seq::empty(), stack, owners, st.ops.len() as int, st).ops)
            == ops_draws(st.ops) + list_draws(lists, id, 0),
{
    lemma_draws_from(lists, id, 0, Seq::empty(), stack, owners, st.ops.len() as int, st);
    assert(ops_draws(st.ops) + Seq::<usize>::empty() + list_draws(lists, id, 0) =~= ops_draws(st.ops)
        + list_draws(lists, id, 0));
}

pub open spec fn option_ids(id: Option<RetainedSurfaceId>) -> Seq<RetainedSurfaceId> {
    match id {
        Some(x) => seq![x],
        None => Seq::empty(),
    }
}

/// The surface ids an op assigns, nested ops included, in order.
pub open spec fn op_surfaces(op: OpView) -> Seq<RetainedSurfaceId>
    decreases op,
{
    match op {
        OpView::OffscreenLayer { retained_id, children, .. } => option_ids(retained_id)
            + ops_surfaces(children),
        OpView::OffscreenMaskLayer { retained_id, content, mask, .. } => option_ids(retained_id)
            + ops_surfaces(content) + ops_surfaces(mask),
        _ => Seq::empty(),
    }
}

/// The surface ids a list of ops assigns, in order.
pub open spec fn ops_surfaces(s: Seq<OpView>) -> Seq<RetainedSurfaceId>
    decreases s,
{
    if s.len() == 0 {
        Seq::empty()
    } else {
        ops_surfaces(s.drop_last()) + op_surfaces(s.last())
    }
}

/// Distinct ids, each numbered at or above its owner's count in `lo` and below its count in
/// `hi`.
pub open spec fn fresh_ids(
    ids: Seq<RetainedSurfaceId>,
    lo: Map<RetainedNodeId, nat>,
    hi: Map<RetainedNodeId, nat>,
) -> bool {
    &&& ids.no_duplicates()
    &&& forall|i: int|
        0 <= i < ids.len() ==> slot_of(lo, #[trigger] ids[i].node) <= ids[i].slot < slot_of(
            hi,
            ids[i].node,
        )
}

/// The surface ids of the ops `b` appended to `a`.
pub open spec fn new_surfaces(a: CompileState, b: CompileState) -> Seq<RetainedSurfaceId> {
    ops_surfaces(b.ops.subrange(a.ops.len() as int, b.ops.len() as int))
}

proof fn lemma_ops_surfaces_concat(a: Seq<OpView>, b: Seq<OpView>)
    ensures
        ops_surfaces(a + b) == ops_surfaces(a) + ops_surfaces(b),
    decreases b.len(),
{
    if b.len() == 0 {
        assert(a + b =~= a);
        assert(ops_surfaces(a) + ops_surfaces(b) =~= ops_surfaces(a));
    } else {
        lemma_ops_surfaces_concat(a, b.drop_last());
        assert((a + b).drop_last() =~= a + b.drop_last());
        assert((a + b).last() == b.last());
        assert(ops_surfaces(a) + ops_surfaces(b.drop_last()) + op_surfaces(b.last()) =~= ops_surfaces(a)
            + (ops_surfaces(b.drop_last()) + op_surfaces(b.last())));
    }
}

proof fn lemma_new_split(a: CompileState, b: CompileState, c: CompileState)
    requires
        grows(a, b),
        grows(b, c),
    ensures
        new_surfaces(a, c) == new_surfaces(a, b) + new_surfaces(b, c),
{
    let x = c.ops.subrange(a.ops.len() as int, b.ops.len() as int);
    let y = c.ops.subrange(b.ops.len() as int, c.ops.len() as int);
    assert(c.ops.subrange(a.ops.len() as int, c.ops.len() as int) =~= x + y);
    assert(x =~= b.ops.subrange(a.ops.len() as int, b.ops.len() as int)) by {
        assert forall|i: int| 0 <= i < x.len() implies x[i] == b.ops[a.ops.len() + i] by {
            assert(c.ops.subrange(0, b.ops.len() as int)[a.ops.len() + i] == c.ops[a.ops.len() + i]);
        }
    }
    lemma_ops_surfaces_concat(x, y);
}

proof fn lemma_new_push(a: CompileState, b: CompileState)
    requires
        b.ops.len() == a.ops.len() + 1,
        b.ops.subrange(0, a.ops.len() as int) == a.ops,
    ensures
        new_surfaces(a, b) == op_surfaces(b.ops.last()),
{
    let x = b.ops.subrange(a.ops.len() as int, b.ops.len() as int);
    assert(x.len() == 1);
    assert(x.drop_last() =~= Seq::<OpView>::empty());
    assert(x.last() == b.ops.last());
    assert(ops_surfaces(x) == ops_surfaces(x.drop_last()) + op_surfaces(x.last()));
    assert(ops_surfaces(Seq::<OpView>::empty()) =~= Seq::<RetainedSurfaceId>::empty());
    assert(Seq::<RetainedSurfaceId>::empty() + op_surfaces(b.ops.last()) =~= op_surfaces(
        b.ops.last(),
    ));
}

proof fn lemma_new_none(a: CompileState, b: CompileState)
    requires
        b.ops == a.ops,
    ensures
        new_surfaces(a, b) == Seq::<RetainedSurfaceId>::empty(),
{
    assert(b.ops.subrange(a.ops.len() as int, b.ops.len() as int) =~= Seq::<OpView>::empty());
}

proof fn lemma_fresh_concat(
    x: Seq<RetainedSurfaceId>,
    y: Seq<RetainedSurfaceId>,
    lo: Map<RetainedNodeId, nat>,
    mid: Map<RetainedNodeId, nat>,
    hi: Map<RetainedNodeId, nat>,
)
    requires
        fresh_ids(x, lo, mid),
        fresh_ids(y, mid, hi),
        slots_le(lo, mid),
        slots_le(mid, hi),
    ensures
        fresh_ids(x + y, lo, hi),
{
    let z = x + y;
    assert forall|i: int| 0 <= i < z.len() implies slot_of(lo, #[trigger] z[i].node) <= z[i].slot
        < slot_of(hi, z[i].node) by {
        if i < x.len() {
            assert(z[i] == x[i]);
        } else {
            assert(z[i] == y[i - x.len()]);
        }
    }
    assert forall|i: int, j: int| 0 <= i < z.len() && 0 <= j < z.len() && i != j implies z[i]
        != z[j] by {
        if i < x.len() && j < x.len() {
            assert(z[i] == x[i] && z[j] == x[j]);
        } else if i >= x.len() && j >= x.len() {
            assert(z[i] == y[i - x.len()] && z[j] == y[j - x.len()]);
        } else if i < x.len() {
            assert(z[i] == x[i] && z[j] == y[j - x.len()]);
            assert(x[i].slot < slot_of(mid, x[i].node));
            assert(slot_of(mid, y[j - x.len()].node) <= y[j - x.len()].slot);
        } else {
            assert(z[j] == x[j] && z[i] == y[i - x.len()]);
            assert(x[j].slot < slot_of(mid, x[j].node));
            assert(slot_of(mid, y[i - x.len()].node) <= y[i - x.len()].slot);
        }
    }
}

proof fn lemma_slots_le_refl(m: Map<RetainedNodeId, nat>)
    ensures
        slots_le(m, m),
{
}

proof fn lemma_slots_le_trans(
    a: Map<RetainedNodeId, nat>,
    b: Map<RetainedNodeId, nat>,
    c: Map<RetainedNodeId, nat>,
)
    requires
        slots_le(a, b),
        slots_le(b, c),
    ensures
        slots_le(a, c),
{
    assert forall|o: RetainedNodeId| slot_of(a, o) <= slot_of(c, o) by {
        assert(slot_of(a, o) <= slot_of(b, o));
    }
}

/// The id a taken slot gives is fresh between the counts before and after the take.
proof fn lemma_take_fresh(slots: Map<RetainedNodeId, nat>, owner: Option<RetainedNodeId>)
    requires
        forall|o: RetainedNodeId| owner == Some(o) ==> slot_of(slots, o) < u32::MAX,
    ensures
        fresh_ids(option_ids(take_slot(slots, owner).0), slots, take_slot(slots, owner).1),
        slots_le(slots, take_slot(slots, owner).1),
{
    match owner {
        Some(o) => {
            let t = take_slot(slots, owner);
            assert(t.0 == Some(RetainedSurfaceId { node: o, slot: slot_of(slots, o) as u32 }));
            assert(option_ids(t.0)[0].node == o);
        },
        None => {},
    }
}

/// The surface ids compiling from command `k` on assigns are fresh between the counts it
/// starts and ends with.
proof fn lemma_surfaces_from(
    lists: Seq<Seq<Command>>,
    id: int,
    k: int,
    pending: Seq<usize>,
    stack: Seq<LayerStackEntry>,
    owners: CompileOwners,
    op_start: int,
    st: CompileState,
)
    requires
        0 <= id < lists.len(),
        0 <= k,
        slots_fit(compile_from(lists, id, k, pending, stack, owners, op_start, st).slots),
    ensures
        fresh_ids(
            new_surfaces(st, compile_from(lists, id, k, pending, stack, owners, op_start, st)),
            st.slots,
            compile_from(lists, id, k, pending, stack, owners, op_start, st).slots,
        ),
    decreases lists.len() - id, lists[id].len() - k, 1int,
{
    let r = compile_from(lists, id, k, pending, stack, owners, op_start, st);
    if k >= lists[id].len() {
        let st1 = flush_spec(st, pending, stack, owners.batch);
        lemma_grows_flush(st, pending, stack, owners.batch);
        if pending.len() > 0 {
            lemma_new_push(st, st1);
        } else {
            lemma_new_none(st, st1);
        }
        if r.ops == st1.ops {
            lemma_new_none(st1, r);
        } else {
            lemma_grows_push(st1, r.ops.last(), r.data, r.slots);
            assert(r.ops == st1.ops.push(r.ops.last()));
            lemma_new_push(st1, r);
        }
        lemma_compile_grows(lists, id, k, pending, stack, owners, op_start, st);
        lemma_slots_le_refl(st.slots);
        assert(grows(st1, r)) by {
            assert(r.ops.subrange(0, st1.ops.len() as int) =~= st1.ops);
        }
        lemma_new_split(st, st1, r);
        assert(new_surfaces(st, r) =~= Seq::<RetainedSurfaceId>::empty());
    } else {
        let next = compile_step(lists, id, k, pending, stack, owners, st);
        lemma_compile_grows(lists, id, k + 1, next.0, stack, owners, op_start, next.1);
        lemma_step_grows(lists, id, k, pending, stack, owners, st);
        lemma_surfaces_step(lists, id, k, pending, stack, owners, st);
        lemma_surfaces_from(lists, id, k + 1, next.0, stack, owners, op_start, next.1);
        lemma_new_split(st, next.1, r);
        lemma_fresh_concat(new_surfaces(st, next.1), new_surfaces(next.1, r), st.slots, next.1.slots, r.slots);
    }
}

proof fn lemma_surfaces_step(
    lists: Seq<Seq<Command>>,
    id: int,
    k: int,
    pending: Seq<usize>,
    stack: Seq<LayerStackEntry>,
    owners: CompileOwners,
    st: CompileState,
)
    requires
        0 <= id < lists.len(),
        0 <= k < lists[id].len(),
        slots_fit(compile_step(lists, id, k, pending, stack, owners, st).1.slots),
    ensures
        fresh_ids(
            new_surfaces(st, compile_step(lists, id, k, pending, stack, owners, st).1),
            st.slots,
            compile_step(lists, id, k, pending, stack, owners, st).1.slots,
        ),
    decreases lists.len() - id, lists[id].len() - k, 0int,
{
    let st1 = flush_spec(st, pending, stack, owners.batch);
    let next = compile_step(lists, id, k, pending, stack, owners, st);
    lemma_grows_flush(st, pending, stack, owners.batch);
    if pending.len() > 0 {
        lemma_new_push(st, st1);
    } else {
        lemma_new_none(st, st1);
    }
    lemma_slots_le_refl(st.slots);
    match lists[id][k] {
        Command::Draw(d) => {
            lemma_new_none(st, next.1);
        },
        Command::MaterializedRetainedScene { id: node, children } => {
            if id < children < lists.len() {
                let child_owners = CompileOwners { retained: Some(node), batch: owners.batch };
                lemma_compile_grows(lists, children as int, 0, Seq::empty(), stack, child_owners, st1.ops.len() as int, st1);
                lemma_surfaces_from(lists, children as int, 0, Seq::empty(), stack, child_owners, st1.ops.len() as int, st1);
                lemma_new_split(st, st1, next.1);
                lemma_fresh_concat(new_surfaces(st, st1), new_surfaces(st1, next.1), st.slots, st1.slots, next.1.slots);
            } else {
                lemma_new_none(st1, next.1);
                assert(st1.ops.subrange(0, st1.ops.len() as int) =~= st1.ops);
                lemma_new_split(st, st1, next.1);
            }
        },
        Command::Layer { retained, draw, layer, children } => {
            let child_owners = CompileOwners {
                retained: layer_owner(retained, owners.retained),
                batch: branch_owner(retained, RetainedBatchBranch::Content, owners.batch),
            };
            if !(id < children < lists.len()) {
                assert(next.1 == st1);
            } else if can_fuse_spec(lists, layer, children as int) {
                let st2 = CompileState {
                    ops: st1.ops.push(group_begin(layer)),
                    data: st1.data,
                    slots: st1.slots,
                };
                let cstack = stack.push(group_entry(layer, draw));
                lemma_grows_push(st1, group_begin(layer), st1.data, st1.slots);
                lemma_new_push(st1, st2);
                lemma_compile_grows(lists, children as int, 0, Seq::empty(), cstack, child_owners, st2.ops.len() as int, st2);
                let st3 = compile_from(lists, children as int, 0, Seq::empty(), cstack, child_owners, st2.ops.len() as int, st2);
                lemma_surfaces_from(lists, children as int, 0, Seq::empty(), cstack, child_owners, st2.ops.len() as int, st2);
                lemma_grows_push(st3, group_end(layer), st3.data, st3.slots);
                lemma_new_push(st3, next.1);
                lemma_fresh_concat(new_surfaces(st1, st2), new_surfaces(st2, st3), st1.slots, st2.slots, st3.slots);
                lemma_new_split(st1, st2, st3);
                lemma_grows_trans(st1, st2, st3);
                lemma_slots_le_refl(st3.slots);
                lemma_fresh_concat(new_surfaces(st1, st3), new_surfaces(st3, next.1), st1.slots, st3.slots, next.1.slots);
                lemma_new_split(st1, st3, next.1);
                assert(new_surfaces(st, next.1) == new_surfaces(st, st1) + new_surfaces(st1, next.1)) by {
                    lemma_grows_trans(st1, st3, next.1);
                    lemma_new_split(st, st1, next.1);
                }
                lemma_fresh_concat(new_surfaces(st, st1), new_surfaces(st1, next.1), st.slots, st1.slots, next.1.slots);
            } else {
                let data1 = st1.data + stack;
                let taken = take_slot(st1.slots, child_owners.retained);
                let child_stack = if layer == LayerTag::Backdrop {
                    stack
                } else {
                    Seq::empty()
                };
                let cst = CompileState { ops: Seq::empty(), data: data1, slots: taken.1 };
                let child = compile_from(lists, children as int, 0, Seq::empty(), child_stack, child_owners, 0, cst);
                lemma_compile_grows(lists, children as int, 0, Seq::empty(), child_stack, child_owners, 0, cst);
                lemma_surfaces_from(lists, children as int, 0, Seq::empty(), child_stack, child_owners, 0, cst);
                assert(child.ops.subrange(0, child.ops.len() as int) =~= child.ops);
                assert forall|o: RetainedNodeId| child_owners.retained == Some(o) implies slot_of(st1.slots, o) < u32::MAX by {
                    assert(slot_of(taken.1, o) == slot_of(st1.slots, o) + 1);
                    assert(slot_of(taken.1, o) <= slot_of(child.slots, o));
                }
                lemma_take_fresh(st1.slots, child_owners.retained);
                lemma_fresh_concat(option_ids(taken.0), ops_surfaces(child.ops), st1.slots, taken.1, child.slots);
                lemma_slots_le_trans(st1.slots, taken.1, child.slots);
                lemma_grows_push(st1, next.1.ops.last(), child.data, child.slots);
                assert(next.1.ops == st1.ops.push(next.1.ops.last()));
                assert(next.1 =~= CompileState { ops: st1.ops.push(next.1.ops.last()), data: child.data, slots: child.slots });
                lemma_new_push(st1, next.1);
                lemma_new_split(st, st1, next.1);
                lemma_fresh_concat(new_surfaces(st, st1), new_surfaces(st1, next.1), st.slots, st1.slots, next.1.slots);
            }
        },
        Command::MaskLayer { retained, content, mask } => {
            if !(id < content < lists.len() && id < mask < lists.len()) {
                assert(next.1 == st1);
            } else {
                let retained_owner = layer_owner(retained, owners.retained);
                let data1 = st1.data + stack;
                let taken = take_slot(st1.slots, retained_owner);
                let cst = CompileState { ops: Seq::empty(), data: data1, slots: taken.1 };
                let content_owners = CompileOwners {
                    retained: retained_owner,
                    batch: branch_owner(retained, RetainedBatchBranch::Content, owners.batch),
                };
                let c = compile_from(lists, content as int, 0, Seq::empty(), Seq::empty(), content_owners, 0, cst);
                let mst = CompileState { ops: Seq::empty(), data: c.data, slots: c.slots };
                let mask_owners = CompileOwners {
                    retained: retained_owner,
                    batch: branch_owner(retained, RetainedBatchBranch::Mask, owners.batch),
                };
                let m = compile_from(lists, mask as int, 0, Seq::empty(), Seq::empty(), mask_owners, 0, mst);
                lemma_compile_grows(lists, content as int, 0, Seq::empty(), Seq::empty(), content_owners, 0, cst);
                lemma_compile_grows(lists, mask as int, 0, Seq::empty(), Seq::empty(), mask_owners, 0, mst);
                lemma_surfaces_from(lists, mask as int, 0, Seq::empty(), Seq::empty(), mask_owners, 0, mst);
                assert(slots_fit(c.slots)) by {
                    assert forall|o: RetainedNodeId| slot_of(c.slots, o) <= u32::MAX by {
                        assert(slot_of(c.slots, o) <= slot_of(m.slots, o));
                    }
                }
                lemma_surfaces_from(lists, content as int, 0, Seq::empty(), Seq::empty(), content_owners, 0, cst);
                assert(c.ops.subrange(0, c.ops.len() as int) =~= c.ops);
                assert(m.ops.subrange(0, m.ops.len() as int) =~= m.ops);
                assert forall|o: RetainedNodeId| retained_owner == Some(o) implies slot_of(st1.slots, o) < u32::MAX by {
                    assert(slot_of(taken.1, o) == slot_of(st1.slots, o) + 1);
                    assert(slot_of(taken.1, o) <= slot_of(c.slots, o));
                    assert(slot_of(c.slots, o) <= slot_of(m.slots, o));
                }
                lemma_take_fresh(st1.slots, retained_owner);
                lemma_fresh_concat(option_ids(taken.0), ops_surfaces(c.ops), st1.slots, taken.1, c.slots);
                lemma_slots_le_trans(st1.slots, taken.1, c.slots);
                lemma_fresh_concat(option_ids(taken.0) + ops_surfaces(c.ops), ops_surfaces(m.ops), st1.slots, c.slots, m.slots);
                lemma_slots_le_trans(st1.slots, c.slots, m.slots);
                lemma_grows_push(st1, next.1.ops.last(), m.data, m.slots);
                assert(next.1.ops == st1.ops.push(next.1.ops.last()));
                assert(next.1 =~= CompileState { ops: st1.ops.push(next.1.ops.last()), data: m.data, slots: m.slots });
                lemma_new_push(st1, next.1);
                lemma_new_split(st, st1, next.1);
                lemma_fresh_concat(new_surfaces(st, st1), new_surfaces(st1, next.1), st.slots, st1.slots, next.1.slots);
            }
        },
    }
}

/// Compilation gives every offscreen surface of a retained owner its own id: ids are numbered
/// per owner from the counts compilation starts with, so no two surfaces share one, nor share
/// one with a surface numbered before.
pub proof fn law_surface_ids_are_unique(
    lists: Seq<Seq<Command>>,
    id: int,
    stack: Seq<LayerStackEntry>,
    owners: CompileOwners,
    st: CompileState,
)
    requires
        0 <= id < lists.len(),
        fresh_ids(ops_surfaces(st.ops), Map::empty(), st.slots),
        slots_fit(compile_from(lists, id, 0, Seq::empty(), stack, owners, st.ops.len() as int, st).slots),
    ensures
        fresh_ids(
            ops_surfaces(compile_from(lists, id, 0, Seq::empty(), stack, owners, st.ops.len() as int, st).ops),
            Map::empty(),
            compile_from(lists, id, 0, Seq::empty(), stack, owners, st.ops.len() as int, st).slots,
        ),
{
    let r = compile_from(lists, id, 0, Seq::empty(), stack, owners, st.ops.len() as int, st);
    lemma_compile_grows(lists, id, 0, Seq::empty(), stack, owners, st.ops.len() as int, st);
    lemma_surfaces_from(lists, id, 0, Seq::empty(), stack, owners, st.ops.len() as int, st);
    assert(r.ops =~= r.ops.subrange(0, st.ops.len() as int) + r.ops.subrange(st.ops.len() as int, r.ops.len() as int));
    lemma_ops_surfaces_concat(st.ops, r.ops.subrange(st.ops.len() as int, r.ops.len() as int));
    assert(slots_le(Map::empty(), st.slots));
    lemma_fresh_concat(ops_surfaces(st.ops), new_surfaces(st, r), Map::empty(), st.slots, r.slots);
}

/// No op of `s` is an offscreen layer: everything renders in the fused tile stream.
pub open spec fn ops_fused(s: Seq<OpView>) -> bool {
    forall|i: int|
        0 <= i < s.len() ==> !(#[trigger] s[i] is OffscreenLayer) && !(s[i] is OffscreenMaskLayer)
}

/// The ops `b` appended to `a`.
pub open spec fn new_ops(a: CompileState, b: CompileState) -> Seq<OpView> {
    b.ops.subrange(a.ops.len() as int, b.ops.len() as int)
}

pub(crate) proof fn lemma_new_ops_split(a: CompileState, b: CompileState, c: CompileState)
    requires
        grows(a, b),
        grows(b, c),
    ensures
        new_ops(a, c) == new_ops(a, b) + new_ops(b, c),
{
    let x = c.ops.subrange(a.ops.len() as int, b.ops.len() as int);
    assert(x =~= b.ops.subrange(a.ops.len() as int, b.ops.len() as int)) by {
        assert forall|i: int| 0 <= i < x.len() implies x[i] == b.ops[a.ops.len() + i] by {
            assert(c.ops.subrange(0, b.ops.len() as int)[a.ops.len() + i] == c.ops[a.ops.len() + i]);
        }
    }
    assert(new_ops(a, c) =~= new_ops(a, b) + new_ops(b, c));
}

proof fn lemma_fused_concat(x: Seq<OpView>, y: Seq<OpView>)
    requires
        ops_fused(x),
        ops_fused(y),
    ensures
        ops_fused(x + y),
{
    assert forall|i: int| 0 <= i < (x + y).len() implies !(#[trigger] (x + y)[i] is OffscreenLayer)
        && !((x + y)[i] is OffscreenMaskLayer) by {
        if i < x.len() {
            assert((x + y)[i] == x[i]);
        } else {
            assert((x + y)[i] == y[i - x.len()]);
        }
    }
}

/// Appending a single op that is no offscreen layer keeps the new ops fused.
proof fn lemma_fused_push(a: CompileState, b: CompileState)
    requires
        b.ops.len() == a.ops.len() + 1,
        b.ops.subrange(0, a.ops.len() as int) == a.ops,
        !(b.ops.last() is OffscreenLayer),
        !(b.ops.last() is OffscreenMaskLayer),
    ensures
        ops_fused(new_ops(a, b)),
{
    let x = new_ops(a, b);
    assert(x.len() == 1);
    assert(x[0] == b.ops.last());
}

proof fn lemma_fused_none(a: CompileState, b: CompileState)
    requires
        b.ops == a.ops,
    ensures
        ops_fused(new_ops(a, b)),
{
    assert(new_ops(a, b) =~= Seq::<OpView>::empty());
}

proof fn lemma_fused_flush(
    st: CompileState,
    pending: Seq<usize>,
    stack: Seq<LayerStackEntry>,
    batch: Option<RetainedBatchOwner>,
)
    ensures
        grows(st, flush_spec(st, pending, stack, batch)),
        ops_fused(new_ops(st, flush_spec(st, pending, stack, batch))),
{
    lemma_grows_flush(st, pending, stack, batch);
    let f = flush_spec(st, pending, stack, batch);
    if pending.len() > 0 {
        assert(f.ops == st.ops.push(f.ops.last()));
        assert(f.ops.subrange(0, st.ops.len() as int) =~= st.ops);
        lemma_fused_push(st, f);
    } else {
        lemma_fused_none(st, f);
    }
}

proof fn lemma_fused_from(
    lists: Seq<Seq<Command>>,
    id: int,
    k: int,
    pending: Seq<usize>,
    stack: Seq<LayerStackEntry>,
    owners: CompileOwners,
    op_start: int,
    st: CompileState,
)
    requires
        0 <= id < lists.len(),
        0 <= k,
        !offscreen_from(lists, id, k),
    ensures
        ops_fused(new_ops(st, compile_from(lists, id, k, pending, stack, owners, op_start, st))),
    decreases lists.len() - id, lists[id].len() - k, 1int,
{
    let r = compile_from(lists, id, k, pending, stack, owners, op_start, st);
    if k >= lists[id].len() {
        let st1 = flush_spec(st, pending, stack, owners.batch);
        lemma_fused_flush(st, pending, stack, owners.batch);
        lemma_compile_grows(lists, id, k, pending, stack, owners, op_start, st);
        if r.ops == st1.ops {
            lemma_fused_none(st1, r);
            assert(r.ops.subrange(0, st1.ops.len() as int) =~= st1.ops);
        } else {
            assert(r.ops == st1.ops.push(r.ops.last()));
            assert(r.ops.subrange(0, st1.ops.len() as int) =~= st1.ops);
            lemma_fused_push(st1, r);
        }
        lemma_new_ops_split(st, st1, r);
        lemma_fused_concat(new_ops(st, st1), new_ops(st1, r));
    } else {
        let next = compile_step(lists, id, k, pending, stack, owners, st);
        lemma_step_grows(lists, id, k, pending, stack, owners, st);
        lemma_compile_grows(lists, id, k + 1, next.0, stack, owners, op_start, next.1);
        lemma_fused_step(lists, id, k, pending, stack, owners, st);
        lemma_fused_from(lists, id, k + 1, next.0, stack, owners, op_start, next.1);
        lemma_new_ops_split(st, next.1, r);
        lemma_fused_concat(new_ops(st, next.1), new_ops(next.1, r));
    }
}

proof fn lemma_fused_step(
    lists: Seq<Seq<Command>>,
    id: int,
    k: int,
    pending: Seq<usize>,
    stack: Seq<LayerStackEntry>,
    owners: CompileOwners,
    st: CompileState,
)
    requires
        0 <= id < lists.len(),
        0 <= k < lists[id].len(),
        !command_offscreen(lists, id, lists[id][k]),
    ensures
        ops_fused(new_ops(st, compile_step(lists, id, k, pending, stack, owners, st).1)),
    decreases lists.len() - id, lists[id].len() - k, 0int,
{
    let st1 = flush_spec(st, pending, stack, owners.batch);
    let next = compile_step(lists, id, k, pending, stack, owners, st);
    lemma_fused_flush(st, pending, stack, owners.batch);
    match lists[id][k] {
        Command::Draw(d) => {
            lemma_fused_none(st, next.1);
        },
        Command::MaterializedRetainedScene { id: node, children } => {
            if id < children < lists.len() {
                let child_owners = CompileOwners { retained: Some(node), batch: owners.batch };
                lemma_compile_grows(lists, children as int, 0, Seq::empty(), stack, child_owners, st1.ops.len() as int, st1);
                lemma_fused_from(lists, children as int, 0, Seq::empty(), stack, child_owners, st1.ops.len() as int, st1);
                lemma_new_ops_split(st, st1, next.1);
                lemma_fused_concat(new_ops(st, st1), new_ops(st1, next.1));
            } else {
                assert(next.1 == st1);
            }
        },
        Command::Layer { retained, draw, layer, children } => {
            let child_owners = CompileOwners {
                retained: layer_owner(retained, owners.retained),
                batch: branch_owner(retained, RetainedBatchBranch::Content, owners.batch),
            };
            if id < children < lists.len() {
                assert(can_fuse_spec(lists, layer, children as int));
                let st2 = CompileState {
                    ops: st1.ops.push(group_begin(layer)),
                    data: st1.data,
                    slots: st1.slots,
                };
                let cstack = stack.push(group_entry(layer, draw));
                lemma_grows_push(st1, group_begin(layer), st1.data, st1.slots);
                assert(st2.ops.subrange(0, st1.ops.len() as int) =~= st1.ops);
                lemma_fused_push(st1, st2);
                lemma_compile_grows(lists, children as int, 0, Seq::empty(), cstack, child_owners, st2.ops.len() as int, st2);
                let st3 = compile_from(lists, children as int, 0, Seq::empty(), cstack, child_owners, st2.ops.len() as int, st2);
                lemma_fused_from(lists, children as int, 0, Seq::empty(), cstack, child_owners, st2.ops.len() as int, st2);
                lemma_grows_push(st3, group_end(layer), st3.data, st3.slots);
                assert(next.1.ops.subrange(0, st3.ops.len() as int) =~= st3.ops);
                lemma_fused_push(st3, next.1);
                lemma_new_ops_split(st1, st2, st3);
                lemma_fused_concat(new_ops(st1, st2), new_ops(st2, st3));
                lemma_grows_trans(st1, st2, st3);
                lemma_new_ops_split(st1, st3, next.1);
                lemma_fused_concat(new_ops(st1, st3), new_ops(st3, next.1));
                lemma_grows_trans(st1, st3, next.1);
                lemma_new_ops_split(st, st1, next.1);
                lemma_fused_concat(new_ops(st, st1), new_ops(st1, next.1));
            } else {
                assert(next.1 == st1);
            }
        },
        Command::MaskLayer { .. } => {},
    }
}

/// A list that holds and reaches no offscreen layer and no mask layer compiles without any
/// offscreen op: its clip, opacity and blend groups all stay fused around their whole content.
pub proof fn law_lists_without_offscreen_layers_compile_fused(
    lists: Seq<Seq<Command>>,
    id: int,
    stack: Seq<LayerStackEntry>,
    owners: CompileOwners,
    st: CompileState,
)
    requires
        0 <= id < lists.len(),
        !offscreen_from(lists, id, 0),
    ensures
        ops_fused(new_ops(st, compile_from(lists, id, 0, Seq::empty(), stack, owners, st.ops.len() as int, st))),
{
    lemma_fused_from(lists, id, 0, Seq::empty(), stack, owners, st.ops.len() as int, st);
}

/// Offscreen and mask layers that compiling list `id` from command `k` on visits, counting a
/// list once for every command that reaches it.
pub open spec fn layer_visits(lists: Seq<Seq<Command>>, id: int, k: int) -> nat
    decreases lists.len() - id, lists[id].len() - k, 1int,
    when 0 <= id < lists.len() && 0 <= k
{
    if k >= lists[id].len() {
        0
    } else {
        command_layer_visits(lists, id, k) + layer_visits(lists, id, k + 1)
    }
}

/// Offscreen and mask layers that compiling command `k` of list `id` visits, itself included.
pub open spec fn command_layer_visits(lists: Seq<Seq<Command>>, id: int, k: int) -> nat
    decreases lists.len() - id, lists[id].len() - k, 0int,
    when 0 <= id < lists.len() && 0 <= k < lists[id].len()
{
    match lists[id][k] {
        Command::Draw(_) => 0,
        Command::MaterializedRetainedScene { children, .. } => if id < children < lists.len() {
            layer_visits(lists, children as int, 0)
        } else {
            0
        },
        Command::Layer { children, .. } => if id < children < lists.len() {
            1 + layer_visits(lists, children as int, 0)
        } else {
            0
        },
        Command::MaskLayer { content, mask, .. } => if id < content < lists.len() && id < mask
            < lists.len() {
            1 + layer_visits(lists, content as int, 0) + layer_visits(lists, mask as int, 0)
        } else {
            0
        },
    }
}

proof fn lemma_flush_slots(st: CompileState, pending: Seq<usize>, stack: Seq<LayerStackEntry>, batch: Option<RetainedBatchOwner>)
    ensures
        flush_spec(st, pending, stack, batch).slots == st.slots,
{
}

/// Compiling from command `k` on numbers at most one surface per layer it visits.
proof fn lemma_slots_from(
    lists: Seq<Seq<Command>>,
    id: int,
    k: int,
    pending: Seq<usize>,
    stack: Seq<LayerStackEntry>,
    owners: CompileOwners,
    op_start: int,
    st: CompileState,
    o: RetainedNodeId,
)
    requires
        0 <= id < lists.len(),
        0 <= k,
    ensures
        slot_of(compile_from(lists, id, k, pending, stack, owners, op_start, st).slots, o)
            <= slot_of(st.slots, o) + layer_visits(lists, id, k),
    decreases lists.len() - id, lists[id].len() - k, 1int,
{
    if k < lists[id].len() {
        lemma_slots_step(lists, id, k, pending, stack, owners, st, o);
        let next = compile_step(lists, id, k, pending, stack, owners, st);
        lemma_slots_from(lists, id, k + 1, next.0, stack, owners, op_start, next.1, o);
    } else {
        let st1 = flush_spec(st, pending, stack, owners.batch);
        lemma_flush_slots(st, pending, stack, owners.batch);
        match owners.batch {
            Some(b) => {
                if !ops_contain(st1.ops.subrange(op_start, st1.ops.len() as int), b) {
                    assert(push_batch(st1, Seq::empty(), seq![b], stack).slots == st1.slots);
                }
            },
            None => {},
        }
    }
}

proof fn lemma_slots_step(
    lists: Seq<Seq<Command>>,
    id: int,
    k: int,
    pending: Seq<usize>,
    stack: Seq<LayerStackEntry>,
    owners: CompileOwners,
    st: CompileState,
    o: RetainedNodeId,
)
    requires
        0 <= id < lists.len(),
        0 <= k < lists[id].len(),
    ensures
        slot_of(compile_step(lists, id, k, pending, stack, owners, st).1.slots, o) <= slot_of(
            st.slots,
            o,
        ) + command_layer_visits(lists, id, k),
    decreases lists.len() - id, lists[id].len() - k, 0int,
{
    let st1 = flush_spec(st, pending, stack, owners.batch);
    lemma_flush_slots(st, pending, stack, owners.batch);
    match lists[id][k] {
        Command::Draw(d) => {},
        Command::MaterializedRetainedScene { id: node, children } => {
            if id < children < lists.len() {
                let child_owners = CompileOwners { retained: Some(node), batch: owners.batch };
                lemma_slots_from(lists, children as int, 0, Seq::empty(), stack, child_owners, st1.ops.len() as int, st1, o);
            }
        },
        Command::Layer { retained, draw, layer, children } => {
            let child_owners = CompileOwners {
                retained: layer_owner(retained, owners.retained),
                batch: branch_owner(retained, RetainedBatchBranch::Content, owners.batch),
            };
            if id < children < lists.len() {
                if can_fuse_spec(lists, layer, children as int) {
                    let st2 = CompileState {
                        ops: st1.ops.push(group_begin(layer)),
                        data: st1.data,
                        slots: st1.slots,
                    };
                    lemma_slots_from(lists, children as int, 0, Seq::empty(), stack.push(group_entry(layer, draw)), child_owners, st2.ops.len() as int, st2, o);
                } else {
                    let data1 = st1.data + stack;
                    let taken = take_slot(st1.slots, child_owners.retained);
                    let child_stack = if layer == LayerTag::Backdrop {
                        stack
                    } else {
                        Seq::empty()
                    };
                    let cst = CompileState { ops: Seq::empty(), data: data1, slots: taken.1 };
                    assert(slot_of(taken.1, o) <= slot_of(st1.slots, o) + 1);
                    lemma_slots_from(lists, children as int, 0, Seq::empty(), child_stack, child_owners, 0, cst, o);
                }
            }
        },
        Command::MaskLayer { retained, content, mask } => {
            if id < content < lists.len() && id < mask < lists.len() {
                let retained_owner = layer_owner(retained, owners.retained);
                let data1 = st1.data + stack;
                let taken = take_slot(st1.slots, retained_owner);
                let cst = CompileState { ops: Seq::empty(), data: data1, slots: taken.1 };
                let content_owners = CompileOwners {
                    retained: retained_owner,
                    batch: branch_owner(retained, RetainedBatchBranch::Content, owners.batch),
                };
                assert(slot_of(taken.1, o) <= slot_of(st1.slots, o) + 1);
                lemma_slots_from(lists, content as int, 0, Seq::empty(), Seq::empty(), content_owners, 0, cst, o);
                let c = compile_from(lists, content as int, 0, Seq::empty(), Seq::empty(), content_owners, 0, cst);
                let mst = CompileState { ops: Seq::empty(), data: c.data, slots: c.slots };
                let mask_owners = CompileOwners {
                    retained: retained_owner,
                    batch: branch_owner(retained, RetainedBatchBranch::Mask, owners.batch),
                };
                lemma_slots_from(lists, mask as int, 0, Seq::empty(), Seq::empty(), mask_owners, 0, mst, o);
            }
        },
    }
}

/// Compilation numbers at most one surface per offscreen or mask layer it visits, so its
/// surface counts fit whenever the counts it starts from leave room for that many.
pub proof fn law_surface_counts_fit(
    lists: Seq<Seq<Command>>,
    id: int,
    stack: Seq<LayerStackEntry>,
    owners: CompileOwners,
    op_start: int,
    st: CompileState,
)
    requires
        0 <= id < lists.len(),
        forall|o: RetainedNodeId| #[trigger] slot_of(st.slots, o) + layer_visits(lists, id, 0) <= u32::MAX,
    ensures
        slots_fit(compile_from(lists, id, 0, Seq::empty(), stack, owners, op_start, st).slots),
        forall|o: RetainedNodeId|
            #[trigger] slot_of(compile_from(lists, id, 0, Seq::empty(), stack, owners, op_start, st).slots, o)
                <= slot_of(st.slots, o) + layer_visits(lists, id, 0),
{
    assert forall|o: RetainedNodeId|
        #[trigger] slot_of(compile_from(lists, id, 0, Seq::empty(), stack, owners, op_start, st).slots, o)
            <= slot_of(st.slots, o) + layer_visits(lists, id, 0) by {
        lemma_slots_from(lists, id, 0, Seq::empty(), stack, owners, op_start, st, o);
    }
    assert forall|o: RetainedNodeId|
        #[trigger] slot_of(compile_from(lists, id, 0, Seq::empty(), stack, owners, op_start, st).slots, o)
            <= u32::MAX by {
        assert(slot_of(st.slots, o) + layer_visits(lists, id, 0) <= u32::MAX);
    }
}

/// An execution plan: its ops and the layer stack data that their ranges index.
pub struct ExecPlan {
    pub ops: Vec<ExecOp>,
    pub layer_stack_data: Vec<LayerStackEntry>,
}

/// The compile state that executable ops, layer stack data and surface counts stand for.
pub open spec fn exec_state(
    ops: Seq<ExecOp>,
    data: Seq<LayerStackEntry>,
    slots: Map<RetainedNodeId, nat>,
) -> CompileState {
    CompileState { ops: ops_view(ops), data, slots }
}

fn append_entries(data: &mut Vec<LayerStackEntry>, stack: &Vec<LayerStackEntry>)
    ensures
        final(data)@ == old(data)@ + stack@,
{
    let mut i: usize = 0;
    while i < stack.len()
        invariant
            i <= stack@.len(),
            data@ == old(data)@ + stack@.subrange(0, i as int),
        decreases stack.len() - i,
    {
        data.push(stack[i]);
        i = i + 1;
        proof {
            assert(data@ =~= old(data)@ + stack@.subrange(0, i as int));
        }
    }
    proof {
        assert(stack@.subrange(0, stack@.len() as int) =~= stack@);
    }
}

fn copy_entries(stack: &Vec<LayerStackEntry>) -> (r: Vec<LayerStackEntry>)
    ensures
        r@ == stack@,
{
    let mut r: Vec<LayerStackEntry> = Vec::new();
    append_entries(&mut r, stack);
    proof {
        assert(Seq::<LayerStackEntry>::empty() + stack@ =~= stack@);
    }
    r
}

/// Emits the pending draws as one batch inside the open groups `layer_stack`.
fn flush_batch(
    pending: &mut Vec<usize>,
    ops: &mut Vec<ExecOp>,
    plan: &mut ExecPlan,
    layer_stack: &Vec<LayerStackEntry>,
    batch_owner: Option<RetainedBatchOwner>,
    Ghost(slots): Ghost<Map<RetainedNodeId, nat>>,
)
    ensures
        final(pending)@ == Seq::<usize>::empty(),
        final(plan).ops@ == old(plan).ops@,
        exec_state(final(ops)@, final(plan).layer_stack_data@, slots) == flush_spec(
            exec_state(old(ops)@, old(plan).layer_stack_data@, slots),
            old(pending)@,
            layer_stack@,
            batch_owner,
        ),
{
    if pending.len() == 0 {
        return;
    }
    let mut draws: Vec<usize> = Vec::new();
    std::mem::swap(pending, &mut draws);
    let layer_start = plan.layer_stack_data.len();
    append_entries(&mut plan.layer_stack_data, layer_stack);
    let layer_end = plan.layer_stack_data.len();
    let mut owners: Vec<RetainedBatchOwner> = Vec::new();
    if let Some(owner) = batch_owner {
        owners.push(owner);
    }
    let op = ExecOp::DrawBatch { draws, batch_id: u32::MAX, owners, layer_start, layer_end };
    proof {
        lemma_ops_view_push(ops@, op);
        assert(owners@ =~= owner_seq(batch_owner));
    }
    ops.push(op);
}

impl CommandTree {
    /// Compiles list `list_id` into `ops`, inside the open fused groups `layer_stack`, with
    /// batches and surfaces attributed to `owners`. Layer stack ranges go to `plan`; offscreen
    /// surfaces of retained owners are numbered by `surface_slots`. The result is
    /// `compile_from`, of which `nesting::law_compile_nests_groups` proves that the appended
    /// begin and end ops are balanced and properly nested and that each batch's stack range
    /// copies the groups open at it; `law_surface_counts_fit` discharges `slots_fit`.
    pub fn compile_into(
        &self,
        list_id: usize,
        ops: &mut Vec<ExecOp>,
        plan: &mut ExecPlan,
        layer_stack: &mut Vec<LayerStackEntry>,
        owners: CompileOwners,
        surface_slots: &mut SurfaceSlots,
    )
        requires
            self.wf(),
            list_id < self.lists().len(),
            old(surface_slots).wf(),
            slots_fit(
                compile_from(
                    self.lists(),
                    list_id as int,
                    0,
                    Seq::empty(),
                    old(layer_stack)@,
                    owners,
                    old(ops)@.len() as int,
                    exec_state(old(ops)@, old(plan).layer_stack_data@, old(surface_slots)@),
                ).slots,
            ),
        ensures
            final(surface_slots).wf(),
            final(layer_stack)@ == old(layer_stack)@,
            final(plan).ops@ == old(plan).ops@,
            exec_state(final(ops)@, final(plan).layer_stack_data@, final(surface_slots)@)
                == compile_from(
                self.lists(),
                list_id as int,
                0,
                Seq::empty(),
                old(layer_stack)@,
                owners,
                old(ops)@.len() as int,
                exec_state(old(ops)@, old(plan).layer_stack_data@, old(surface_slots)@),
            ),
        decreases self.lists().len() - list_id, 1int,
    {
        let ghost lists = self.lists();
        let ghost target = compile_from(
            lists,
            list_id as int,
            0,
            Seq::empty(),
            layer_stack@,
            owners,
            ops@.len() as int,
            exec_state(ops@, plan.layer_stack_data@, surface_slots@),
        );
        let op_start = ops.len();
        let mut pending: Vec<usize> = Vec::new();
        let n = self.commands(list_id).len();
        let mut k: usize = 0;
        while k < n
            invariant
                self.wf(),
                lists == self.lists(),
                list_id < lists.len(),
                n == lists[list_id as int].len(),
                k <= n,
                op_start <= ops@.len(),
                surface_slots.wf(),
                layer_stack@ == old(layer_stack)@,
                plan.ops@ == old(plan).ops@,
                slots_fit(target.slots),
                target == compile_from(
                    lists,
                    list_id as int,
                    k as int,
                    pending@,
                    layer_stack@,
                    owners,
                    op_start as int,
                    exec_state(ops@, plan.layer_stack_data@, surface_slots@),
                ),
            decreases n - k,
        {
            let ghost st = exec_state(ops@, plan.layer_stack_data@, surface_slots@);
            let ghost before_ops = ops@;
            let ghost before_pending = pending@;
            let ghost next = compile_step(lists, list_id as int, k as int, pending@, layer_stack@, owners, st);
            proof {
                lemma_compile_grows(lists, list_id as int, k + 1, next.0, layer_stack@, owners, op_start as int, next.1);
            }
            self.compile_command(list_id, k, &mut pending, ops, plan, layer_stack, owners, surface_slots);
            proof {
                lemma_ops_view_index(ops@);
                lemma_ops_view_index(before_ops);
                lemma_step_grows(lists, list_id as int, k as int, before_pending, layer_stack@, owners, st);
            }
            k = k + 1;
        }
        let ghost ops_before_flush = ops@;
        flush_batch(&mut pending, ops, plan, layer_stack, owners.batch, Ghost(surface_slots@));
        proof {
            lemma_ops_view_index(ops_before_flush);
            lemma_ops_view_index(ops@);
        }
        if let Some(owner) = owners.batch {
            let emitted = vstd::slice::slice_subrange(ops.as_slice(), op_start, ops.len());
            proof {
                lemma_ops_view_subrange(ops@, op_start as int, ops@.len() as int);
            }
            if !exec_ops_contain_owner(emitted, owner) {
                let layer_start = plan.layer_stack_data.len();
                append_entries(&mut plan.layer_stack_data, layer_stack);
                let layer_end = plan.layer_stack_data.len();
                let mut batch_owners: Vec<RetainedBatchOwner> = Vec::new();
                batch_owners.push(owner);
                let op = ExecOp::DrawBatch {
                    draws: Vec::new(),
                    batch_id: u32::MAX,
                    owners: batch_owners,
                    layer_start,
                    layer_end,
                };
                proof {
                    lemma_ops_view_push(ops@, op);
                    assert(batch_owners@ =~= seq![owner]);
                }
                ops.push(op);
            }
        }
    }

    /// Compiles command `k` of list `list_id`.
    fn compile_command(
        &self,
        list_id: usize,
        k: usize,
        pending: &mut Vec<usize>,
        ops: &mut Vec<ExecOp>,
        plan: &mut ExecPlan,
        layer_stack: &mut Vec<LayerStackEntry>,
        owners: CompileOwners,
        surface_slots: &mut SurfaceSlots,
    )
        requires
            self.wf(),
            list_id < self.lists().len(),
            k < self.lists()[list_id as int].len(),
            old(surface_slots).wf(),
            slots_fit(
                compile_step(
                    self.lists(),
                    list_id as int,
                    k as int,
                    old(pending)@,
                    old(layer_stack)@,
                    owners,
                    exec_state(old(ops)@, old(plan).layer_stack_data@, old(surface_slots)@),
                ).1.slots,
            ),
        ensures
            final(surface_slots).wf(),
            final(layer_stack)@ == old(layer_stack)@,
            final(plan).ops@ == old(plan).ops@,
            ({
                let next = compile_step(
                    self.lists(),
                    list_id as int,
                    k as int,
                    old(pending)@,
                    old(layer_stack)@,
                    owners,
                    exec_state(old(ops)@, old(plan).layer_stack_data@, old(surface_slots)@),
                );
                &&& final(pending)@ == next.0
                &&& exec_state(final(ops)@, final(plan).layer_stack_data@, final(surface_slots)@)
                    == next.1
            }),
        decreases self.lists().len() - list_id, 0int,
    {
        let ghost lists = self.lists();
        let command = self.commands(list_id)[k];
        proof {
            assert(command == lists[list_id as int][k as int]);
            assert(command_refs_ok(lists[list_id as int][k as int], list_id as int, lists.len() as int));
        }
        match command {
            Command::Draw(d) => {
                pending.push(d);
            },
            Command::MaterializedRetainedScene { id, children } => {
                flush_batch(pending, ops, plan, layer_stack, owners.batch, Ghost(surface_slots@));
                proof {
                    lemma_ops_view_index(ops@);
                }
                self.compile_into(
                    children,
                    ops,
                    plan,
                    layer_stack,
                    CompileOwners { retained: Some(id), batch: owners.batch },
                    surface_slots,
                );
            },
            Command::Layer { retained, draw, layer, children } => {
                flush_batch(pending, ops, plan, layer_stack, owners.batch, Ghost(surface_slots@));
                let ghost st1 = exec_state(ops@, plan.layer_stack_data@, surface_slots@);
                let retained_owner = match retained {
                    Some(key) => Some(key.id),
                    None => owners.retained,
                };
                let child_batch_owner = match retained {
                    Some(key) => Some(
                        RetainedBatchOwner { node: key.id, branch: RetainedBatchBranch::Content },
                    ),
                    None => owners.batch,
                };
                let child_owners = CompileOwners { retained: retained_owner, batch: child_batch_owner };
                if self.can_fuse(layer, children) {
                    let (begin, end, entry) = match layer {
                        LayerTag::Opacity => (
                            ExecOp::BeginOpacity,
                            ExecOp::EndOpacity,
                            LayerStackEntry::Opacity { draw: draw as u32 },
                        ),
                        LayerTag::Blend(mode) => (
                            ExecOp::BeginBlend,
                            ExecOp::EndBlend,
                            LayerStackEntry::Blend { draw: draw as u32, mode },
                        ),
                        _ => (
                            ExecOp::BeginClip,
                            ExecOp::EndClip,
                            LayerStackEntry::Clip { draw: draw as u32 },
                        ),
                    };
                    proof {
                        lemma_ops_view_push(ops@, begin);
                        assert(begin.view_op() == group_begin(layer));
                        assert(end.view_op() == group_end(layer));
                        assert(entry == group_entry(layer, draw));
                    }
                    ops.push(begin);
                    layer_stack.push(entry);
                    proof {
                        lemma_ops_view_index(ops@);
                    }
                    self.compile_into(children, ops, plan, layer_stack, child_owners, surface_slots);
                    layer_stack.pop();
                    proof {
                        lemma_ops_view_push(ops@, end);
                        assert(layer_stack@ =~= old(layer_stack)@);
                    }
                    ops.push(end);
                } else {
                    let outer_start = plan.layer_stack_data.len();
                    append_entries(&mut plan.layer_stack_data, layer_stack);
                    let outer_end = plan.layer_stack_data.len();
                    let ghost taken = take_slot(st1.slots, retained_owner);
                    let ghost data1 = st1.data + layer_stack@;
                    proof {
                        let child_stack = if layer == LayerTag::Backdrop {
                            layer_stack@
                        } else {
                            Seq::empty()
                        };
                        lemma_compile_grows(
                            lists,
                            children as int,
                            0,
                            Seq::empty(),
                            child_stack,
                            child_owners,
                            0,
                            CompileState { ops: Seq::empty(), data: data1, slots: taken.1 },
                        );
                    }
                    let retained_id = match retained_owner {
                        Some(owner) => {
                            proof {
                                assert(slot_of(taken.1, owner) == slot_of(st1.slots, owner) + 1);
                            }
                            let slot = surface_slots.take(owner);
                            Some(RetainedSurfaceId::new(owner, slot))
                        },
                        None => None,
                    };
                    let mut child_ops: Vec<ExecOp> = Vec::new();
                    let mut child_stack = if layer == LayerTag::Backdrop {
                        copy_entries(layer_stack)
                    } else {
                        Vec::new()
                    };
                    proof {
                        assert(ops_view(child_ops@) =~= Seq::<OpView>::empty());
                    }
                    self.compile_into(
                        children,
                        &mut child_ops,
                        plan,
                        &mut child_stack,
                        child_owners,
                        surface_slots,
                    );
                    let op = ExecOp::OffscreenLayer {
                        retained_id,
                        draw,
                        layer,
                        outer_start,
                        outer_end,
                        children: child_ops,
                    };
                    proof {
                        lemma_ops_view_push(ops@, op);
                    }
                    ops.push(op);
                }
            },
            Command::MaskLayer { retained, content, mask } => {
                flush_batch(pending, ops, plan, layer_stack, owners.batch, Ghost(surface_slots@));
                let ghost st1 = exec_state(ops@, plan.layer_stack_data@, surface_slots@);
                let retained_owner = match retained {
                    Some(key) => Some(key.id),
                    None => owners.retained,
                };
                let content_owners = CompileOwners {
                    retained: retained_owner,
                    batch: match retained {
                        Some(key) => Some(
                            RetainedBatchOwner { node: key.id, branch: RetainedBatchBranch::Content },
                        ),
                        None => owners.batch,
                    },
                };
                let mask_owners = CompileOwners {
                    retained: retained_owner,
                    batch: match retained {
                        Some(key) => Some(
                            RetainedBatchOwner { node: key.id, branch: RetainedBatchBranch::Mask },
                        ),
                        None => owners.batch,
                    },
                };
                let outer_start = plan.layer_stack_data.len();
                append_entries(&mut plan.layer_stack_data, layer_stack);
                let outer_end = plan.layer_stack_data.len();
                let ghost taken = take_slot(st1.slots, retained_owner);
                let ghost data1 = st1.data + layer_stack@;
                let ghost cst = CompileState { ops: Seq::empty(), data: data1, slots: taken.1 };
                let ghost c = compile_from(lists, content as int, 0, Seq::empty(), Seq::empty(), content_owners, 0, cst);
                proof {
                    lemma_compile_grows(lists, content as int, 0, Seq::empty(), Seq::empty(), content_owners, 0, cst);
                    lemma_compile_grows(
                        lists,
                        mask as int,
                        0,
                        Seq::empty(),
                        Seq::empty(),
                        mask_owners,
                        0,
                        CompileState { ops: Seq::empty(), data: c.data, slots: c.slots },
                    );
                }
                let retained_id = match retained_owner {
                    Some(owner) => {
                        proof {
                            assert(slot_of(taken.1, owner) == slot_of(st1.slots, owner) + 1);
                        }
                        let slot = surface_slots.take(owner);
                        Some(RetainedSurfaceId::new(owner, slot))
                    },
                    None => None,
                };
                let mut content_ops: Vec<ExecOp> = Vec::new();
                let mut content_stack: Vec<LayerStackEntry> = Vec::new();
                proof {
                    assert(ops_view(content_ops@) =~= Seq::<OpView>::empty());
                }
                self.compile_into(
                    content,
                    &mut content_ops,
                    plan,
                    &mut content_stack,
                    content_owners,
                    surface_slots,
                );
                let mut mask_ops: Vec<ExecOp> = Vec::new();
                let mut mask_stack: Vec<LayerStackEntry> = Vec::new();
                proof {
                    assert(ops_view(mask_ops@) =~= Seq::<OpView>::empty());
                }
                self.compile_into(
                    mask,
                    &mut mask_ops,
                    plan,
                    &mut mask_stack,
                    mask_owners,
                    surface_slots,
                );
                let op = ExecOp::OffscreenMaskLayer {
                    retained_id,
                    outer_start,
                    outer_end,
                    content: content_ops,
                    mask: mask_ops,
                };
                proof {
                    lemma_ops_view_push(ops@, op);
                }
                ops.push(op);
            },
        }
    }
}
} // verus!
