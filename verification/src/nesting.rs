//! Group nesting of compiled plans.
//!
//! Compilation wraps the ops of a fused clip, opacity or blend layer in a begin and an end op
//! of its kind. Every draw batch and offscreen layer records, as a range of the plan's layer
//! stack data, the fused groups it is rendered inside. This module states, and proves of
//! compilation, that the begin and end ops are balanced and properly nested, and that each
//! recorded range holds a copy of the groups open at that op.
use vstd::prelude::*;
use crate::commands::{Command, LayerTag};
use crate::compile::{
    branch_owner, can_fuse_spec, compile_from, compile_step, flush_spec, group_begin, group_end,
    group_entry, layer_owner, lemma_compile_grows, lemma_grows_flush, lemma_grows_push,
    lemma_grows_trans, lemma_new_ops_split, lemma_step_grows, new_ops, ops_contain, push_batch,
    take_slot, CompileOwners, CompileState, LayerStackEntry, OpView, RetainedBatchBranch,
    RetainedBatchOwner,
};

verus! {

/// The op that opens the group of a layer stack entry.
pub open spec fn entry_begin(e: LayerStackEntry) -> OpView {
    match e {
        LayerStackEntry::Clip { .. } => OpView::BeginClip,
        LayerStackEntry::Opacity { .. } => OpView::BeginOpacity,
        LayerStackEntry::Blend { .. } => OpView::BeginBlend,
    }
}

/// The op that closes a group opened by `begin`.
pub open spec fn begin_end(begin: OpView) -> OpView {
    match begin {
        OpView::BeginClip => OpView::EndClip,
        OpView::BeginOpacity => OpView::EndOpacity,
        _ => OpView::EndBlend,
    }
}

/// The begin ops of the groups of `entries`, outermost first.
pub open spec fn entry_begins(entries: Seq<LayerStackEntry>) -> Seq<OpView> {
    entries.map_values(|e: LayerStackEntry| entry_begin(e))
}

/// `data[start..end]` is `base` followed by one entry per open group, of that group's kind.
pub open spec fn slice_matches(
    data: Seq<LayerStackEntry>,
    start: nat,
    end: nat,
    base: Seq<LayerStackEntry>,
    open: Seq<OpView>,
) -> bool {
    &&& start + base.len() + open.len() == end
    &&& end <= data.len()
    &&& data.subrange(start as int, (start + base.len()) as int) == base
    &&& forall|j: int|
        0 <= j < open.len() ==> entry_begin(#[trigger] data[start + base.len() + j]) == open[j]
}

/// The groups open after `ops`, walked from the groups `open` inside the outer stack `base`;
/// `None` when an end op closes no group of its kind, or when a batch or an offscreen layer
/// records other groups than those open at it.
pub open spec fn nest_walk(
    ops: Seq<OpView>,
    data: Seq<LayerStackEntry>,
    base: Seq<LayerStackEntry>,
    open: Seq<OpView>,
) -> Option<Seq<OpView>>
    decreases ops,
{
    if ops.len() == 0 {
        Some(open)
    } else {
        match nest_walk(ops.drop_last(), data, base, open) {
            None => None,
            Some(o) => nest_op(ops[ops.len() - 1], data, base, o),
        }
    }
}

/// The groups open after `op`; an offscreen layer's own ops must nest on their own, inside
/// the stack it records when it is a backdrop layer and inside no group otherwise.
pub open spec fn nest_op(
    op: OpView,
    data: Seq<LayerStackEntry>,
    base: Seq<LayerStackEntry>,
    open: Seq<OpView>,
) -> Option<Seq<OpView>>
    decreases op,
{
    match op {
        OpView::DrawBatch { layer_start, layer_end, .. } => if slice_matches(
            data,
            layer_start,
            layer_end,
            base,
            open,
        ) {
            Some(open)
        } else {
            None
        },
        OpView::BeginClip => Some(open.push(op)),
        OpView::BeginOpacity => Some(open.push(op)),
        OpView::BeginBlend => Some(open.push(op)),
        OpView::EndClip => if open.len() > 0 && begin_end(open.last()) == op {
            Some(open.drop_last())
        } else {
            None
        },
        OpView::EndOpacity => if open.len() > 0 && begin_end(open.last()) == op {
            Some(open.drop_last())
        } else {
            None
        },
        OpView::EndBlend => if open.len() > 0 && begin_end(open.last()) == op {
            Some(open.drop_last())
        } else {
            None
        },
        OpView::OffscreenLayer { layer, outer_start, outer_end, children, .. } => {
            let inner = if layer == LayerTag::Backdrop {
                data.subrange(outer_start as int, outer_end as int)
            } else {
                Seq::empty()
            };
            if slice_matches(data, outer_start, outer_end, base, open) && nest_walk(
                children,
                data,
                inner,
                Seq::empty(),
            ) == Some(Seq::<OpView>::empty()) {
                Some(open)
            } else {
                None
            }
        },
        OpView::OffscreenMaskLayer { outer_start, outer_end, content, mask, .. } => {
            if slice_matches(data, outer_start, outer_end, base, open) && nest_walk(
                content,
                data,
                Seq::empty(),
                Seq::empty(),
            ) == Some(Seq::<OpView>::empty()) && nest_walk(
                mask,
                data,
                Seq::empty(),
                Seq::empty(),
            ) == Some(Seq::<OpView>::empty()) {
                Some(open)
            } else {
                None
            }
        },
    }
}

/// `ops`, inside the outer stack `base`, close every group they open, in reverse order of
/// opening, and each of their batches and offscreen layers records `base` followed by the
/// groups open at it.
pub open spec fn well_nested(
    ops: Seq<OpView>,
    data: Seq<LayerStackEntry>,
    base: Seq<LayerStackEntry>,
) -> bool {
    nest_walk(ops, data, base, Seq::empty()) == Some(Seq::<OpView>::empty())
}

/// `b` keeps `a` as its prefix.
pub open spec fn data_extends(a: Seq<LayerStackEntry>, b: Seq<LayerStackEntry>) -> bool {
    &&& a.len() <= b.len()
    &&& b.subrange(0, a.len() as int) == a
}

proof fn lemma_extends_trans(a: Seq<LayerStackEntry>, b: Seq<LayerStackEntry>, c: Seq<LayerStackEntry>)
    requires
        data_extends(a, b),
        data_extends(b, c),
    ensures
        data_extends(a, c),
{
    assert(c.subrange(0, a.len() as int) =~= c.subrange(0, b.len() as int).subrange(0, a.len() as int));
}

proof fn lemma_walk_push(ops: Seq<OpView>, op: OpView, data: Seq<LayerStackEntry>, base: Seq<LayerStackEntry>, open: Seq<OpView>)
    ensures
        nest_walk(ops.push(op), data, base, open) == match nest_walk(ops, data, base, open) {
            None => None,
            Some(o) => nest_op(op, data, base, o),
        },
{
    assert(ops.push(op).drop_last() =~= ops);
    assert(ops.push(op)[ops.len() as int] == op);
}

proof fn lemma_walk_one(op: OpView, data: Seq<LayerStackEntry>, base: Seq<LayerStackEntry>, open: Seq<OpView>)
    ensures
        nest_walk(seq![op], data, base, open) == nest_op(op, data, base, open),
{
    lemma_walk_push(Seq::empty(), op, data, base, open);
    assert(Seq::<OpView>::empty().push(op) =~= seq![op]);
}

proof fn lemma_walk_concat(a: Seq<OpView>, b: Seq<OpView>, data: Seq<LayerStackEntry>, base: Seq<LayerStackEntry>, open: Seq<OpView>)
    ensures
        nest_walk(a + b, data, base, open) == match nest_walk(a, data, base, open) {
            None => None,
            Some(o) => nest_walk(b, data, base, o),
        },
    decreases b.len(),
{
    if b.len() == 0 {
        assert(a + b =~= a);
    } else {
        lemma_walk_concat(a, b.drop_last(), data, base, open);
        assert(a + b =~= (a + b.drop_last()).push(b.last()));
        lemma_walk_push(a + b.drop_last(), b.last(), data, base, open);
        assert(b =~= b.drop_last().push(b.last()));
        match nest_walk(a, data, base, open) {
            None => {},
            Some(o) => {
                lemma_walk_push(b.drop_last(), b.last(), data, base, o);
            },
        }
    }
}

proof fn lemma_slice_mono(
    d1: Seq<LayerStackEntry>,
    d2: Seq<LayerStackEntry>,
    start: nat,
    end: nat,
    base: Seq<LayerStackEntry>,
    open: Seq<OpView>,
)
    requires
        data_extends(d1, d2),
        slice_matches(d1, start, end, base, open),
    ensures
        slice_matches(d2, start, end, base, open),
        d2.subrange(start as int, end as int) == d1.subrange(start as int, end as int),
{
    assert forall|i: int| 0 <= i < d1.len() implies d2[i] == d1[i] by {
        assert(d2.subrange(0, d1.len() as int)[i] == d2[i]);
    }
    assert(d2.subrange(start as int, (start + base.len()) as int) =~= d1.subrange(start as int, (start + base.len()) as int));
    assert(d2.subrange(start as int, end as int) =~= d1.subrange(start as int, end as int));
    assert forall|j: int| 0 <= j < open.len() implies entry_begin(#[trigger] d2[start + base.len() + j]) == open[j] by {
        assert(d2[start + base.len() + j] == d1[start + base.len() + j]);
    }
}

/// Nesting checked against layer stack data still holds once more data is appended.
proof fn lemma_walk_mono(ops: Seq<OpView>, d1: Seq<LayerStackEntry>, d2: Seq<LayerStackEntry>, base: Seq<LayerStackEntry>, open: Seq<OpView>)
    requires
        data_extends(d1, d2),
        nest_walk(ops, d1, base, open) is Some,
    ensures
        nest_walk(ops, d2, base, open) == nest_walk(ops, d1, base, open),
    decreases ops,
{
    if ops.len() > 0 {
        lemma_walk_mono(ops.drop_last(), d1, d2, base, open);
        let o = nest_walk(ops.drop_last(), d1, base, open)->0;
        assert(decreases_to!(ops => ops[ops.len() - 1]));
        lemma_op_mono(ops[ops.len() - 1], d1, d2, base, o);
    }
}

proof fn lemma_op_mono(op: OpView, d1: Seq<LayerStackEntry>, d2: Seq<LayerStackEntry>, base: Seq<LayerStackEntry>, open: Seq<OpView>)
    requires
        data_extends(d1, d2),
        nest_op(op, d1, base, open) is Some,
    ensures
        nest_op(op, d2, base, open) == nest_op(op, d1, base, open),
    decreases op,
{
    match op {
        OpView::DrawBatch { layer_start, layer_end, .. } => {
            lemma_slice_mono(d1, d2, layer_start, layer_end, base, open);
        },
        OpView::OffscreenLayer { layer, outer_start, outer_end, children, .. } => {
            lemma_slice_mono(d1, d2, outer_start, outer_end, base, open);
            let inner = if layer == LayerTag::Backdrop {
                d1.subrange(outer_start as int, outer_end as int)
            } else {
                Seq::empty()
            };
            lemma_walk_mono(children, d1, d2, inner, Seq::empty());
        },
        OpView::OffscreenMaskLayer { outer_start, outer_end, content, mask, .. } => {
            lemma_slice_mono(d1, d2, outer_start, outer_end, base, open);
            lemma_walk_mono(content, d1, d2, Seq::empty(), Seq::empty());
            lemma_walk_mono(mask, d1, d2, Seq::empty(), Seq::empty());
        },
        _ => {},
    }
}

/// Stack entries appended to the data are recorded as the stack they copy.
proof fn lemma_slice_of_append(d: Seq<LayerStackEntry>, base: Seq<LayerStackEntry>, ext: Seq<LayerStackEntry>)
    ensures
        slice_matches(d + (base + ext), d.len(), d.len() + base.len() + ext.len(), base, entry_begins(ext)),
        data_extends(d, d + (base + ext)),
{
    let stack = base + ext;
    let f = d + stack;
    let n = d.len();
    assert(f.subrange(0, n as int) =~= d);
    assert(f.subrange(n as int, (n + base.len()) as int) =~= base);
    assert forall|j: int| 0 <= j < entry_begins(ext).len() implies entry_begin(
        #[trigger] f[n + base.len() + j],
    ) == entry_begins(ext)[j] by {
        assert(f[n + base.len() + j] == stack[base.len() + j]);
        assert(stack[base.len() + j] == ext[j]);
    }
}

/// A batch appended inside `base + ext` records exactly that stack.
proof fn lemma_nest_batch(
    st: CompileState,
    draws: Seq<usize>,
    owners: Seq<RetainedBatchOwner>,
    base: Seq<LayerStackEntry>,
    ext: Seq<LayerStackEntry>,
)
    ensures
        ({
            let f = push_batch(st, draws, owners, base + ext);
            &&& f.ops == st.ops.push(f.ops.last())
            &&& data_extends(st.data, f.data)
            &&& nest_walk(new_ops(st, f), f.data, base, entry_begins(ext)) == Some(entry_begins(ext))
        }),
{
    let stack = base + ext;
    let f = push_batch(st, draws, owners, stack);
    let n = st.data.len();
    lemma_slice_of_append(st.data, base, ext);
    assert(new_ops(st, f) =~= seq![f.ops.last()]);
    lemma_walk_one(f.ops.last(), f.data, base, entry_begins(ext));
}

proof fn lemma_nest_none(a: CompileState, b: CompileState, base: Seq<LayerStackEntry>, open: Seq<OpView>)
    requires
        b.ops == a.ops,
    ensures
        nest_walk(new_ops(a, b), b.data, base, open) == Some(open),
{
    assert(new_ops(a, b) =~= Seq::<OpView>::empty());
}

proof fn lemma_nest_flush(
    st: CompileState,
    pending: Seq<usize>,
    base: Seq<LayerStackEntry>,
    ext: Seq<LayerStackEntry>,
    batch: Option<RetainedBatchOwner>,
)
    ensures
        ({
            let f = flush_spec(st, pending, base + ext, batch);
            &&& data_extends(st.data, f.data)
            &&& nest_walk(new_ops(st, f), f.data, base, entry_begins(ext)) == Some(entry_begins(ext))
        }),
{
    if pending.len() > 0 {
        lemma_nest_batch(st, pending, crate::compile::owner_seq(batch), base, ext);
    } else {
        assert(st.data.subrange(0, st.data.len() as int) =~= st.data);
        lemma_nest_none(st, st, base, entry_begins(ext));
    }
}

/// Joins the nesting of two consecutive stretches of ops, each checked against the data at
/// its own end.
proof fn lemma_nest_join(
    a: CompileState,
    b: CompileState,
    c: CompileState,
    base: Seq<LayerStackEntry>,
    o1: Seq<OpView>,
    o2: Seq<OpView>,
    o3: Seq<OpView>,
)
    requires
        crate::compile::grows(a, b),
        crate::compile::grows(b, c),
        data_extends(a.data, b.data),
        data_extends(b.data, c.data),
        nest_walk(new_ops(a, b), b.data, base, o1) == Some(o2),
        nest_walk(new_ops(b, c), c.data, base, o2) == Some(o3),
    ensures
        crate::compile::grows(a, c),
        data_extends(a.data, c.data),
        nest_walk(new_ops(a, c), c.data, base, o1) == Some(o3),
{
    lemma_grows_trans(a, b, c);
    lemma_extends_trans(a.data, b.data, c.data);
    lemma_new_ops_split(a, b, c);
    lemma_walk_mono(new_ops(a, b), b.data, c.data, base, o1);
    lemma_walk_concat(new_ops(a, b), new_ops(b, c), c.data, base, o1);
}

proof fn lemma_nest_from(
    lists: Seq<Seq<Command>>,
    id: int,
    k: int,
    pending: Seq<usize>,
    base: Seq<LayerStackEntry>,
    ext: Seq<LayerStackEntry>,
    owners: CompileOwners,
    op_start: int,
    st: CompileState,
)
    requires
        0 <= id < lists.len(),
        0 <= k,
    ensures
        ({
            let r = compile_from(lists, id, k, pending, base + ext, owners, op_start, st);
            &&& data_extends(st.data, r.data)
            &&& nest_walk(new_ops(st, r), r.data, base, entry_begins(ext)) == Some(entry_begins(ext))
        }),
    decreases lists.len() - id, lists[id].len() - k, 1int,
{
    let stack = base + ext;
    let o = entry_begins(ext);
    let r = compile_from(lists, id, k, pending, stack, owners, op_start, st);
    if k >= lists[id].len() {
        let st1 = flush_spec(st, pending, stack, owners.batch);
        lemma_nest_flush(st, pending, base, ext, owners.batch);
        lemma_grows_flush(st, pending, stack, owners.batch);
        lemma_compile_grows(lists, id, k, pending, stack, owners, op_start, st);
        if r.ops == st1.ops {
            lemma_nest_none(st1, r, base, o);
            assert(r == st1);
        } else {
            match owners.batch {
                Some(b) => {
                    lemma_nest_batch(st1, Seq::empty(), seq![b], base, ext);
                    lemma_grows_push(st1, r.ops.last(), r.data, r.slots);
                    lemma_nest_join(st, st1, r, base, o, o, o);
                },
                None => {},
            }
        }
    } else {
        let next = compile_step(lists, id, k, pending, stack, owners, st);
        lemma_step_grows(lists, id, k, pending, stack, owners, st);
        lemma_compile_grows(lists, id, k + 1, next.0, stack, owners, op_start, next.1);
        lemma_nest_step(lists, id, k, pending, base, ext, owners, st);
        lemma_nest_from(lists, id, k + 1, next.0, base, ext, owners, op_start, next.1);
        lemma_nest_join(st, next.1, r, base, o, o, o);
    }
}

proof fn lemma_nest_step(
    lists: Seq<Seq<Command>>,
    id: int,
    k: int,
    pending: Seq<usize>,
    base: Seq<LayerStackEntry>,
    ext: Seq<LayerStackEntry>,
    owners: CompileOwners,
    st: CompileState,
)
    requires
        0 <= id < lists.len(),
        0 <= k < lists[id].len(),
    ensures
        ({
            let r = compile_step(lists, id, k, pending, base + ext, owners, st).1;
            &&& data_extends(st.data, r.data)
            &&& nest_walk(new_ops(st, r), r.data, base, entry_begins(ext)) == Some(entry_begins(ext))
        }),
    decreases lists.len() - id, lists[id].len() - k, 0int,
{
    let stack = base + ext;
    let o = entry_begins(ext);
    let st1 = flush_spec(st, pending, stack, owners.batch);
    let next = compile_step(lists, id, k, pending, stack, owners, st);
    lemma_nest_flush(st, pending, base, ext, owners.batch);
    lemma_grows_flush(st, pending, stack, owners.batch);
    lemma_step_grows(lists, id, k, pending, stack, owners, st);
    match lists[id][k] {
        Command::Draw(d) => {
            assert(st.data.subrange(0, st.data.len() as int) =~= st.data);
            lemma_nest_none(st, next.1, base, o);
        },
        Command::MaterializedRetainedScene { id: node, children } => {
            if id < children < lists.len() {
                let child_owners = CompileOwners { retained: Some(node), batch: owners.batch };
                lemma_compile_grows(lists, children as int, 0, Seq::empty(), stack, child_owners, st1.ops.len() as int, st1);
                lemma_nest_from(lists, children as int, 0, Seq::empty(), base, ext, child_owners, st1.ops.len() as int, st1);
                lemma_nest_join(st, st1, next.1, base, o, o, o);
            }
        },
        Command::Layer { retained, draw, layer, children } => {
            let child_owners = CompileOwners {
                retained: layer_owner(retained, owners.retained),
                batch: branch_owner(retained, RetainedBatchBranch::Content, owners.batch),
            };
            if id < children < lists.len() {
                if can_fuse_spec(lists, layer, children as int) {
                    let entry = group_entry(layer, draw);
                    let ext2 = ext.push(entry);
                    let o2 = entry_begins(ext2);
                    assert(o2 =~= o.push(group_begin(layer)));
                    assert(stack.push(entry) =~= base + ext2);
                    let st2 = CompileState {
                        ops: st1.ops.push(group_begin(layer)),
                        data: st1.data,
                        slots: st1.slots,
                    };
                    lemma_grows_push(st1, group_begin(layer), st1.data, st1.slots);
                    assert(new_ops(st1, st2) =~= seq![group_begin(layer)]);
                    lemma_walk_one(group_begin(layer), st2.data, base, o);
                    assert(st2.data.subrange(0, st1.data.len() as int) =~= st1.data);
                    let st3 = compile_from(lists, children as int, 0, Seq::empty(), stack.push(entry), child_owners, st2.ops.len() as int, st2);
                    lemma_compile_grows(lists, children as int, 0, Seq::empty(), stack.push(entry), child_owners, st2.ops.len() as int, st2);
                    lemma_nest_from(lists, children as int, 0, Seq::empty(), base, ext2, child_owners, st2.ops.len() as int, st2);
                    lemma_grows_push(st3, group_end(layer), st3.data, st3.slots);
                    assert(new_ops(st3, next.1) =~= seq![group_end(layer)]);
                    lemma_walk_one(group_end(layer), next.1.data, base, o2);
                    assert(o2.drop_last() =~= o);
                    assert(next.1.data.subrange(0, st3.data.len() as int) =~= st3.data);
                    lemma_nest_join(st1, st2, st3, base, o, o2, o2);
                    lemma_nest_join(st1, st3, next.1, base, o, o2, o);
                    lemma_nest_join(st, st1, next.1, base, o, o, o);
                } else {
                    let data1 = st1.data + stack;
                    let taken = take_slot(st1.slots, child_owners.retained);
                    let child_stack = if layer == LayerTag::Backdrop {
                        stack
                    } else {
                        Seq::empty()
                    };
                    let cst = CompileState { ops: Seq::empty(), data: data1, slots: taken.1 };
                    let child = compile_from(lists, children as int, 0, Seq::empty(), child_stack, child_owners, 0, cst);
                    assert(child_stack + Seq::<LayerStackEntry>::empty() =~= child_stack);
                    lemma_nest_from(lists, children as int, 0, Seq::empty(), child_stack, Seq::empty(), child_owners, 0, cst);
                    assert(entry_begins(Seq::<LayerStackEntry>::empty()) =~= Seq::<OpView>::empty());
                    assert(new_ops(cst, child) =~= child.ops);
                    let op = next.1.ops.last();
                    assert(next.1.ops == st1.ops.push(op));
                    // The range the layer records is the stack open at it.
                    let n = st1.data.len();
                    assert(data1.subrange(0, n as int) =~= st1.data);
                    lemma_slice_of_append(st1.data, base, ext);
                    lemma_slice_mono(data1, child.data, n, n + stack.len(), base, o);
                    assert(data1.subrange(n as int, (n + stack.len()) as int) =~= stack);
                    lemma_walk_one(op, child.data, base, o);
                    assert(new_ops(st1, next.1) =~= seq![op]);
                    lemma_extends_trans(st1.data, data1, child.data);
                    lemma_grows_push(st1, op, child.data, child.slots);
                    lemma_nest_join(st, st1, next.1, base, o, o, o);
                }
            }
        },
        Command::MaskLayer { retained, content, mask } => {
            if id < content < lists.len() && id < mask < lists.len() {
                let retained_owner = layer_owner(retained, owners.retained);
                let data1 = st1.data + stack;
                let taken = take_slot(st1.slots, retained_owner);
                let cst = CompileState { ops: Seq::empty(), data: data1, slots: taken.1 };
                let content_owners = CompileOwners {
                    retained: retained_owner,
                    batch: branch_owner(retained, RetainedBatchBranch::Content, owners.batch),
                };
                let empty = Seq::<LayerStackEntry>::empty();
                assert(empty + empty =~= empty);
                assert(entry_begins(empty) =~= Seq::<OpView>::empty());
                lemma_nest_from(lists, content as int, 0, Seq::empty(), empty, empty, content_owners, 0, cst);
                let c = compile_from(lists, content as int, 0, Seq::empty(), Seq::empty(), content_owners, 0, cst);
                assert(new_ops(cst, c) =~= c.ops);
                let mst = CompileState { ops: Seq::empty(), data: c.data, slots: c.slots };
                let mask_owners = CompileOwners {
                    retained: retained_owner,
                    batch: branch_owner(retained, RetainedBatchBranch::Mask, owners.batch),
                };
                lemma_nest_from(lists, mask as int, 0, Seq::empty(), empty, empty, mask_owners, 0, mst);
                let m = compile_from(lists, mask as int, 0, Seq::empty(), Seq::empty(), mask_owners, 0, mst);
                assert(new_ops(mst, m) =~= m.ops);
                lemma_walk_mono(c.ops, c.data, m.data, empty, Seq::empty());
                let op = next.1.ops.last();
                assert(next.1.ops == st1.ops.push(op));
                let n = st1.data.len();
                lemma_slice_of_append(st1.data, base, ext);
                lemma_extends_trans(data1, c.data, m.data);
                lemma_slice_mono(data1, m.data, n, n + stack.len(), base, o);
                lemma_walk_one(op, m.data, base, o);
                assert(new_ops(st1, next.1) =~= seq![op]);
                lemma_extends_trans(st1.data, data1, m.data);
                lemma_grows_push(st1, op, m.data, m.slots);
                lemma_nest_join(st, st1, next.1, base, o, o, o);
            }
        },
    }
}

/// Compiling a list only appends layer stack data, and the ops it appends are well nested
/// inside the stack it starts with: each begin op is closed by an end op of its kind, groups
/// close in reverse order of opening, every batch and offscreen layer records the starting
/// stack followed by one entry of matching kind per group open at it, and the ops of each
/// offscreen layer nest on their own, inside the recorded stack for a backdrop layer and
/// inside no group otherwise.
pub proof fn law_compile_nests_groups(
    lists: Seq<Seq<Command>>,
    id: int,
    stack: Seq<LayerStackEntry>,
    owners: CompileOwners,
    op_start: int,
    st: CompileState,
)
    requires
        0 <= id < lists.len(),
    ensures
        ({
            let r = compile_from(lists, id, 0, Seq::empty(), stack, owners, op_start, st);
            &&& data_extends(st.data, r.data)
            &&& well_nested(new_ops(st, r), r.data, stack)
        }),
{
    let empty = Seq::<LayerStackEntry>::empty();
    assert(stack + empty =~= stack);
    assert(entry_begins(empty) =~= Seq::<OpView>::empty());
    lemma_nest_from(lists, id, 0, Seq::empty(), stack, empty, owners, op_start, st);
}

} // verus!
