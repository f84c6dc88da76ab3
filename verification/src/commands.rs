//! The recorded command tree of a canvas: command lists, the open-layer stacks, and the
//! structural questions compilation asks of it.
use vstd::prelude::*;
use crate::retained::{PersistentLayerKey, RetainedNodeId};

verus! {

/// Id of the root command list.
pub const ROOT_COMMAND_LIST_ID: usize = 0;

/// How a blend layer composites onto what is below it: its mix and compose modes, as the
/// numbers of the renderer's blend mode enums.
#[derive(Clone, Copy, Debug, PartialEq, Eq, Structural)]
pub struct BlendMode {
    pub mix: u8,
    pub compose: u8,
}

/// Kind of an open layer, as the canvas's layer stack records it.
#[derive(Clone, Copy, Debug, PartialEq, Eq, Structural)]
pub enum LayerKind {
    Clip,
    ClipSdf,
    Isolate,
    Opacity,
    Blend(BlendMode),
    Mask,
    Filter,
    Backdrop,
}

/// What compilation reads of a layer command: which kind of layer it is.
#[derive(Clone, Copy, Debug, PartialEq, Eq, Structural)]
pub enum LayerTag {
    Clip,
    ClipSdf,
    Isolate,
    Opacity,
    Blend(BlendMode),
    Filter,
    Backdrop,
}

/// One recorded command. Lists are referred to by id.
#[derive(Clone, Copy, Debug, PartialEq, Eq, Structural)]
pub enum Command {
    Draw(usize),
    MaterializedRetainedScene { id: RetainedNodeId, children: usize },
    Layer { retained: Option<PersistentLayerKey>, draw: usize, layer: LayerTag, children: usize },
    MaskLayer { retained: Option<PersistentLayerKey>, content: usize, mask: usize },
}

/// Every list a command refers to comes after the list holding it and exists.
pub open spec fn command_refs_ok(c: Command, owner: int, len: int) -> bool {
    match c {
        Command::Draw(_) => true,
        Command::MaterializedRetainedScene { children, .. } => owner < children < len,
        Command::Layer { children, .. } => owner < children < len,
        Command::MaskLayer { content, mask, .. } => owner < content < len && owner < mask < len,
    }
}

pub open spec fn lists_wf(lists: Seq<Seq<Command>>) -> bool {
    refs_within(lists, lists.len() as int)
}

/// Every list a command refers to comes after the list holding it and is below `total`.
pub open spec fn refs_within(lists: Seq<Seq<Command>>, total: int) -> bool {
    forall|i: int, k: int|
        0 <= i < lists.len() && 0 <= k < lists[i].len() ==> command_refs_ok(
            #[trigger] lists[i][k],
            i,
            total,
        )
}

/// A layer that leaves the fused tile stream: anything but a clip, opacity or blend layer.
pub open spec fn tag_is_offscreen(layer: LayerTag) -> bool {
    !(layer == LayerTag::Clip || layer == LayerTag::ClipSdf || layer == LayerTag::Opacity
        || layer is Blend)
}

/// List `id`, from command `k` on, holds or reaches an offscreen layer or a mask layer.
pub open spec fn offscreen_from(lists: Seq<Seq<Command>>, id: int, k: int) -> bool
    decreases lists.len() - id, lists[id].len() - k, 1int,
    when 0 <= id < lists.len() && 0 <= k
{
    if k >= lists[id].len() {
        false
    } else {
        command_offscreen(lists, id, lists[id][k]) || offscreen_from(lists, id, k + 1)
    }
}

/// A command of list `id` holds or reaches an offscreen layer or a mask layer.
pub open spec fn command_offscreen(lists: Seq<Seq<Command>>, id: int, c: Command) -> bool
    decreases lists.len() - id, 0int, 0int,
    when 0 <= id < lists.len()
{
    match c {
        Command::Draw(_) => false,
        Command::MaterializedRetainedScene { children, .. } => if id < children < lists.len() {
            offscreen_from(lists, children as int, 0)
        } else {
            false
        },
        Command::Layer { layer, children, .. } => tag_is_offscreen(layer) || (if id < children
            < lists.len() {
            offscreen_from(lists, children as int, 0)
        } else {
            false
        }),
        Command::MaskLayer { .. } => true,
    }
}

/// A command moved into another tree: draws shift by `draw_offset`, list references by
/// `list_offset`.
pub open spec fn remap_spec(c: Command, draw_offset: int, list_offset: int) -> Command {
    match c {
        Command::Draw(d) => Command::Draw((d + draw_offset) as usize),
        Command::MaterializedRetainedScene { id, children } => Command::MaterializedRetainedScene {
            id,
            children: (children + list_offset) as usize,
        },
        Command::Layer { retained, draw, layer, children } => Command::Layer {
            retained,
            draw: (draw + draw_offset) as usize,
            layer,
            children: (children + list_offset) as usize,
        },
        Command::MaskLayer { retained, content, mask } => Command::MaskLayer {
            retained,
            content: (content + list_offset) as usize,
            mask: (mask + list_offset) as usize,
        },
    }
}

/// The shifted command's numbers still fit.
pub open spec fn remap_fits(c: Command, draw_offset: int, list_offset: int) -> bool {
    match c {
        Command::Draw(d) => d + draw_offset <= usize::MAX,
        Command::MaterializedRetainedScene { children, .. } => children + list_offset <= usize::MAX,
        Command::Layer { draw, children, .. } => draw + draw_offset <= usize::MAX && children
            + list_offset <= usize::MAX,
        Command::MaskLayer { content, mask, .. } => content + list_offset <= usize::MAX && mask
            + list_offset <= usize::MAX,
    }
}

pub open spec fn remap_list_spec(list: Seq<Command>, draw_offset: int, list_offset: int) -> Seq<
    Command,
> {
    list.map_values(|c: Command| remap_spec(c, draw_offset, list_offset))
}

/// Shifts a command's draw and list references.
pub fn remap_command(command: Command, draw_offset: usize, child_list_offset: usize) -> (c: Command)
    requires
        remap_fits(command, draw_offset as int, child_list_offset as int),
    ensures
        c == remap_spec(command, draw_offset as int, child_list_offset as int),
{
    match command {
        Command::Draw(draw_ix) => Command::Draw(draw_ix + draw_offset),
        Command::MaterializedRetainedScene { id, children } => Command::MaterializedRetainedScene {
            id,
            children: children + child_list_offset,
        },
        Command::Layer { retained, draw, layer, children } => Command::Layer {
            retained,
            draw: draw + draw_offset,
            layer,
            children: children + child_list_offset,
        },
        Command::MaskLayer { retained, content, mask } => Command::MaskLayer {
            retained,
            content: content + child_list_offset,
            mask: mask + child_list_offset,
        },
    }
}

/// How an appended tree joins the receiving one.
#[derive(Clone, Copy, Debug, PartialEq, Eq, Structural)]
pub enum SceneAppendMode {
    /// The appended root's commands go to a target list; its other lists are appended.
    MergeCurrent,
    /// All appended lists, root included, are appended; the root becomes a separate list.
    AppendAsCommandList,
}

/// Closing the innermost layer: the layer stack loses its last kind, which is returned, and the
/// list stack its last list unless only the root is left. Nothing changes when no layer is
/// open.
pub open spec fn pop_stacks(stack: Seq<usize>, layers: Seq<LayerKind>) -> (
    Seq<usize>,
    Seq<LayerKind>,
    Option<LayerKind>,
) {
    if layers.len() == 0 {
        (stack, layers, None)
    } else {
        (
            if stack.len() > 1 { stack.drop_last() } else { stack },
            layers.drop_last(),
            Some(layers.last()),
        )
    }
}

/// Closing a layer undoes opening it: the stacks return to what they were and the layer's
/// kind comes back.
pub proof fn law_pop_undoes_push(
    stack: Seq<usize>,
    layers: Seq<LayerKind>,
    children: usize,
    kind: LayerKind,
)
    requires
        stack.len() > 0,
    ensures
        pop_stacks(stack.push(children), layers.push(kind)) == (stack, layers, Some(kind)),
{
    assert(stack.push(children).drop_last() =~= stack);
    assert(layers.push(kind).drop_last() =~= layers);
}

/// Every open layer has its own list above the root on the list stack, before and after a
/// layer is closed.
pub proof fn law_pop_keeps_one_list_per_layer(stack: Seq<usize>, layers: Seq<LayerKind>)
    requires
        stack.len() == layers.len() + 1,
    ensures
        pop_stacks(stack, layers).0.len() == pop_stacks(stack, layers).1.len() + 1,
{
}

/// The recorded command lists together with the open-layer stacks.
pub struct CommandTree {
    lists: Vec<Vec<Command>>,
    root: usize,
    stack: Vec<usize>,
    layer_stack: Vec<LayerKind>,
}

impl CommandTree {
    pub closed spec fn lists(self) -> Seq<Seq<Command>> {
        self.lists@.map_values(|l: Vec<Command>| l@)
    }

    pub closed spec fn root_spec(self) -> nat {
        self.root as nat
    }

    /// Ids of the lists of the open layers, outermost first.
    pub closed spec fn stack_spec(self) -> Seq<usize> {
        self.stack@
    }

    /// Kinds of the open layers, outermost first.
    pub closed spec fn layers_spec(self) -> Seq<LayerKind> {
        self.layer_stack@
    }

    pub open spec fn wf(self) -> bool {
        &&& lists_wf(self.lists())
        &&& self.root_spec() == ROOT_COMMAND_LIST_ID
        &&& forall|i: int|
            0 <= i < self.stack_spec().len() ==> #[trigger] self.stack_spec()[i] < self.lists().len()
    }

    /// The list new commands go to: the innermost open layer's, else the root.
    pub open spec fn current_spec(self) -> nat {
        if self.stack_spec().len() > 0 {
            self.stack_spec().last() as nat
        } else {
            self.root_spec()
        }
    }

    /// An empty tree: one empty root list, opened.
    pub fn new() -> (t: CommandTree)
        ensures
            t.wf(),
            t.lists() == seq![Seq::<Command>::empty()],
            t.stack_spec() == seq![ROOT_COMMAND_LIST_ID],
            t.layers_spec() == Seq::<LayerKind>::empty(),
    {
        let mut lists: Vec<Vec<Command>> = Vec::new();
        lists.push(Vec::new());
        let mut stack: Vec<usize> = Vec::new();
        stack.push(ROOT_COMMAND_LIST_ID);
        let t = CommandTree { lists, root: ROOT_COMMAND_LIST_ID, stack, layer_stack: Vec::new() };
        assert(t.lists() =~= seq![Seq::<Command>::empty()]);
        t
    }

    /// Drops every recorded command: the root list is kept, emptied, and open; all other lists
    /// and all open layers go.
    pub fn reset(&mut self)
        ensures
            final(self).wf(),
            final(self).lists() == seq![Seq::<Command>::empty()],
            final(self).stack_spec() == seq![ROOT_COMMAND_LIST_ID],
            final(self).layers_spec() == Seq::<LayerKind>::empty(),
    {
        if self.lists.len() > 0 {
            self.lists.truncate(1);
            self.lists.set(0, Vec::new());
        } else {
            self.lists.push(Vec::new());
        }
        self.root = ROOT_COMMAND_LIST_ID;
        self.stack.clear();
        self.stack.push(self.root);
        self.layer_stack.clear();
        proof {
            assert(self.lists() =~= seq![Seq::<Command>::empty()]);
        }
    }

    pub fn list_count(&self) -> (n: usize)
        ensures
            n == self.lists().len(),
    {
        self.lists.len()
    }

    /// The commands of list `id`.
    pub fn commands(&self, id: usize) -> (c: &[Command])
        requires
            id < self.lists().len(),
        ensures
            c@ == self.lists()[id as int],
    {
        self.lists[id].as_slice()
    }

    /// Makes sure the root list exists and is open.
    pub fn ensure_command_root(&mut self)
        requires
            old(self).wf(),
        ensures
            final(self).wf(),
            final(self).lists() == if old(self).lists().len() == 0 {
                seq![Seq::<Command>::empty()]
            } else {
                old(self).lists()
            },
            final(self).stack_spec() == if old(self).stack_spec().len() == 0 {
                seq![ROOT_COMMAND_LIST_ID]
            } else {
                old(self).stack_spec()
            },
            final(self).layers_spec() == old(self).layers_spec(),
    {
        if self.lists.len() == 0 {
            self.lists.push(Vec::new());
            assert(self.lists() =~= seq![Seq::<Command>::empty()]);
        }
        self.root = ROOT_COMMAND_LIST_ID;
        if self.stack.len() == 0 {
            self.stack.push(self.root);
        }
    }

    pub fn current_command_list_id(&self) -> (id: usize)
        ensures
            id == self.current_spec(),
    {
        match self.stack.last() {
            Some(id) => *id,
            None => self.root,
        }
    }

    /// Appends an empty list and returns its id.
    pub fn push_child_command_list(&mut self) -> (id: usize)
        requires
            old(self).wf(),
        ensures
            final(self).wf(),
            id == old(self).lists().len(),
            final(self).lists() == old(self).lists().push(Seq::<Command>::empty()),
            final(self).stack_spec() == old(self).stack_spec(),
            final(self).layers_spec() == old(self).layers_spec(),
    {
        let children = self.lists.len();
        self.lists.push(Vec::new());
        proof {
            assert(self.lists() =~= old(self).lists().push(Seq::<Command>::empty()));
            let ls = self.lists();
            assert forall|i: int, k: int|
                0 <= i < ls.len() && 0 <= k < ls[i].len() implies command_refs_ok(
                #[trigger] ls[i][k],
                i,
                ls.len() as int,
            ) by {
                assert(ls[i][k] == old(self).lists()[i][k]);
                assert(command_refs_ok(old(self).lists()[i][k], i, old(self).lists().len() as int));
            }
            assert forall|i: int| 0 <= i < self.stack_spec().len() implies #[trigger] self.stack_spec()[i]
                < self.lists().len() by {
                assert(old(self).stack_spec()[i] < old(self).lists().len());
            }
        }
        children
    }

    /// Appends a command to list `id`.
    fn push_to_list(&mut self, id: usize, command: Command)
        requires
            old(self).wf(),
            id < old(self).lists().len(),
            command_refs_ok(command, id as int, old(self).lists().len() as int),
        ensures
            final(self).wf(),
            final(self).lists() == old(self).lists().update(
                id as int,
                old(self).lists()[id as int].push(command),
            ),
            final(self).stack_spec() == old(self).stack_spec(),
            final(self).layers_spec() == old(self).layers_spec(),
            final(self).root_spec() == old(self).root_spec(),
    {
        self.lists[id].push(command);
        proof {
            assert(self.lists() =~= old(self).lists().update(
                id as int,
                old(self).lists()[id as int].push(command),
            ));
            let ls = self.lists();
            assert forall|i: int, k: int|
                0 <= i < ls.len() && 0 <= k < ls[i].len() implies command_refs_ok(
                #[trigger] ls[i][k],
                i,
                ls.len() as int,
            ) by {
                if i != id || k < old(self).lists()[i].len() {
                    assert(ls[i][k] == old(self).lists()[i][k]);
                }
            }
            assert forall|i: int| 0 <= i < self.stack_spec().len() implies #[trigger] self.stack_spec()[i]
                < self.lists().len() by {
                assert(old(self).stack_spec()[i] < old(self).lists().len());
            }
        }
    }

    /// Records a draw in the current list.
    pub fn push_draw_command(&mut self, draw: usize)
        requires
            old(self).wf(),
            old(self).lists().len() > 0,
        ensures
            final(self).wf(),
            final(self).lists() == old(self).lists().update(
                old(self).current_spec() as int,
                old(self).lists()[old(self).current_spec() as int].push(Command::Draw(draw)),
            ),
            final(self).stack_spec() == old(self).stack_spec(),
            final(self).layers_spec() == old(self).layers_spec(),
        decreases 0int,
    {
        let id = self.current_command_list_id();
        proof {
            self.lemma_current_exists();
        }
        self.push_to_list(id, Command::Draw(draw));
    }

    proof fn lemma_current_exists(self)
        requires
            self.wf(),
        ensures
            self.current_spec() < self.lists().len() || (self.stack_spec().len() == 0
                && self.lists().len() == 0),
    {
        if self.stack_spec().len() > 0 {
            assert(self.stack_spec()[self.stack_spec().len() - 1] < self.lists().len());
        }
    }

    /// Opens a layer: a new child list receives the layer's content, and the layer command
    /// referring to it goes to the current list.
    pub fn push_layer_command(&mut self, draw: usize, layer: LayerTag, kind: LayerKind)
        requires
            old(self).wf(),
            old(self).lists().len() > 0,
        ensures
            final(self).wf(),
            ({
                let cur = old(self).current_spec() as int;
                let children = old(self).lists().len();
                let command = Command::Layer { retained: None, draw, layer, children: children as usize };
                &&& final(self).lists() == old(self).lists().push(Seq::<Command>::empty()).update(
                    cur,
                    old(self).lists()[cur].push(command),
                )
                &&& final(self).stack_spec() == old(self).stack_spec().push(children as usize)
                &&& final(self).layers_spec() == old(self).layers_spec().push(kind)
            }),
    {
        let children = self.push_child_command_list();
        let cur = self.current_command_list_id();
        proof {
            old(self).lemma_current_exists();
        }
        self.push_to_list(cur, Command::Layer { retained: None, draw, layer, children });
        self.stack.push(children);
        self.layer_stack.push(kind);
    }

    /// Opens a mask layer whose mask content is the existing list `mask_commands`.
    pub fn push_mask_command(&mut self, mask_commands: usize)
        requires
            old(self).wf(),
            old(self).lists().len() > 0,
            old(self).current_spec() < mask_commands < old(self).lists().len(),
        ensures
            final(self).wf(),
            ({
                let cur = old(self).current_spec() as int;
                let content = old(self).lists().len();
                let command = Command::MaskLayer {
                    retained: None,
                    content: content as usize,
                    mask: mask_commands,
                };
                &&& final(self).lists() == old(self).lists().push(Seq::<Command>::empty()).update(
                    cur,
                    old(self).lists()[cur].push(command),
                )
                &&& final(self).stack_spec() == old(self).stack_spec().push(content as usize)
                &&& final(self).layers_spec() == old(self).layers_spec().push(LayerKind::Mask)
            }),
    {
        let content = self.push_child_command_list();
        let cur = self.current_command_list_id();
        proof {
            old(self).lemma_current_exists();
        }
        self.push_to_list(cur, Command::MaskLayer { retained: None, content, mask: mask_commands });
        self.stack.push(content);
        self.layer_stack.push(LayerKind::Mask);
    }

    /// Closes the innermost open layer and returns its kind; `None` when no layer is open. The
    /// root list stays open.
    pub fn pop_layer(&mut self) -> (kind: Option<LayerKind>)
        requires
            old(self).wf(),
        ensures
            final(self).wf(),
            final(self).lists() == (if old(self).lists().len() == 0 {
                seq![Seq::<Command>::empty()]
            } else {
                old(self).lists()
            }),
            (final(self).stack_spec(), final(self).layers_spec(), kind) == pop_stacks(
                if old(self).stack_spec().len() == 0 {
                    seq![ROOT_COMMAND_LIST_ID]
                } else {
                    old(self).stack_spec()
                },
                old(self).layers_spec(),
            ),
    {
        self.ensure_command_root();
        let layer_kind = match self.layer_stack.pop() {
            Some(k) => k,
            None => {
                return None;
            },
        };
        if self.stack.len() > 1 {
            self.stack.pop();
        }
        Some(layer_kind)
    }

    /// Every command of every list can be shifted by the given offsets.
    pub open spec fn remap_all_fit(self, draw_offset: int, list_offset: int) -> bool {
        forall|i: int, k: int|
            0 <= i < self.lists().len() && 0 <= k < self.lists()[i].len() ==> remap_fits(
                #[trigger] self.lists()[i][k],
                draw_offset,
                list_offset,
            )
    }

    /// A copy of list `id` of `other`, shifted.
    fn remapped_list(other: &CommandTree, id: usize, draw_offset: usize, list_offset: usize) -> (l: Vec<Command>)
        requires
            id < other.lists().len(),
            other.remap_all_fit(draw_offset as int, list_offset as int),
        ensures
            l@ == remap_list_spec(other.lists()[id as int], draw_offset as int, list_offset as int),
    {
        let src = &other.lists[id];
        let mut out: Vec<Command> = Vec::new();
        let mut k: usize = 0;
        while k < src.len()
            invariant
                k <= src@.len(),
                src@ == other.lists()[id as int],
                id < other.lists().len(),
                other.remap_all_fit(draw_offset as int, list_offset as int),
                out@ == remap_list_spec(src@.subrange(0, k as int), draw_offset as int, list_offset as int),
            decreases src@.len() - k,
        {
            proof {
                assert(remap_fits(other.lists()[id as int][k as int], draw_offset as int, list_offset as int));
            }
            out.push(remap_command(src[k], draw_offset, list_offset));
            k = k + 1;
            proof {
                assert(remap_list_spec(src@.subrange(0, k as int), draw_offset as int, list_offset as int)
                    =~= remap_list_spec(src@.subrange(0, k - 1), draw_offset as int, list_offset as int).push(
                    remap_spec(src@[k - 1], draw_offset as int, list_offset as int),
                ));
            }
        }
        proof {
            assert(src@.subrange(0, src@.len() as int) == src@);
        }
        out
    }

    /// Appends the command lists of `other`, shifting its draws by `draw_offset`.
    ///
    /// In `AppendAsCommandList` mode every list of `other` is appended in order and the id of
    /// its root's copy is returned. In `MergeCurrent` mode the lists other than the root are
    /// appended and the root's commands go to the end of list `target`; `None` is returned.
    pub fn append_command_lists(
        &mut self,
        other: &CommandTree,
        draw_offset: usize,
        target: usize,
        mode: SceneAppendMode,
    ) -> (r: Option<usize>)
        requires
            old(self).wf(),
            other.wf(),
            old(self).lists().len() > 0,
            other.lists().len() > 0,
            old(self).lists().len() + other.lists().len() <= usize::MAX,
            mode == SceneAppendMode::MergeCurrent ==> target < old(self).lists().len(),
            other.remap_all_fit(
                draw_offset as int,
                if mode == SceneAppendMode::MergeCurrent {
                    old(self).lists().len() - 1
                } else {
                    old(self).lists().len() as int
                },
            ),
        ensures
            final(self).wf(),
            final(self).stack_spec() == old(self).stack_spec(),
            final(self).layers_spec() == old(self).layers_spec(),
            ({
                let n = old(self).lists().len() as int;
                let o = other.lists();
                match mode {
                    SceneAppendMode::AppendAsCommandList => {
                        &&& r == Some(n as usize)
                        &&& final(self).lists().len() == n + o.len()
                        &&& final(self).lists().subrange(0, n) == old(self).lists()
                        &&& forall|j: int|
                            0 <= j < o.len() ==> #[trigger] final(self).lists()[n + j]
                                == remap_list_spec(o[j], draw_offset as int, n)
                    },
                    SceneAppendMode::MergeCurrent => {
                        &&& r is None
                        &&& final(self).lists().len() == n + o.len() - 1
                        &&& forall|i: int|
                            0 <= i < n && i != target ==> #[trigger] final(self).lists()[i]
                                == old(self).lists()[i]
                        &&& final(self).lists()[target as int] == old(self).lists()[target as int]
                            + remap_list_spec(o[0], draw_offset as int, n - 1)
                        &&& forall|j: int|
                            1 <= j < o.len() ==> #[trigger] final(self).lists()[n + j - 1]
                                == remap_list_spec(o[j], draw_offset as int, n - 1)
                    },
                }
            }),
    {
        let n = self.lists.len();
        let ghost old_lists = self.lists();
        let list_offset: usize = match mode {
            SceneAppendMode::MergeCurrent => n - 1,
            SceneAppendMode::AppendAsCommandList => n,
        };
        let first: usize = match mode {
            SceneAppendMode::MergeCurrent => 1,
            SceneAppendMode::AppendAsCommandList => 0,
        };
        let mut j: usize = first;
        while j < other.lists.len()
            invariant
                first <= j <= other.lists().len(),
                n == old_lists.len(),
                n > 0,
                n + other.lists().len() <= usize::MAX,
                first == (if mode == SceneAppendMode::MergeCurrent { 1int } else { 0int }),
                list_offset == n - first,
                other.wf(),
                other.remap_all_fit(draw_offset as int, list_offset as int),
                self.lists().len() == n + j - first,
                self.lists().subrange(0, n as int) == old_lists,
                forall|q: int|
                    first <= q < j ==> #[trigger] self.lists()[list_offset + q] == remap_list_spec(
                        other.lists()[q],
                        draw_offset as int,
                        list_offset as int,
                    ),
                self.stack_spec() == old(self).stack_spec(),
                self.layers_spec() == old(self).layers_spec(),
                self.root_spec() == ROOT_COMMAND_LIST_ID,
                refs_within(self.lists(), n + other.lists().len() - first),
                forall|i: int|
                    0 <= i < self.stack_spec().len() ==> #[trigger] self.stack_spec()[i] < n,
            decreases other.lists().len() - j,
        {
            let list = Self::remapped_list(other, j, draw_offset, list_offset);
            let ghost before = self.lists();
            self.lists.push(list);
            proof {
                assert(self.lists() =~= before.push(list@));
                let ls = self.lists();
                let len = n + other.lists().len() - first;
                assert forall|i: int, k: int|
                    0 <= i < ls.len() && 0 <= k < ls[i].len() implies command_refs_ok(
                    #[trigger] ls[i][k],
                    i,
                    len,
                ) by {
                    if i < before.len() {
                        assert(ls[i][k] == before[i][k]);
                        assert(command_refs_ok(before[i][k], i, len));
                    } else {
                        let c = other.lists()[j as int][k];
                        assert(command_refs_ok(c, j as int, other.lists().len() as int));
                        assert(ls[i][k] == remap_spec(c, draw_offset as int, list_offset as int));
                    }
                }
                assert(self.lists().subrange(0, n as int) =~= old_lists);
            }
            j = j + 1;
        }
        match mode {
            SceneAppendMode::AppendAsCommandList => {
                proof {
                    assert forall|i: int| 0 <= i < self.stack_spec().len() implies #[trigger] self.stack_spec()[i]
                        < self.lists().len() by {
                        assert(self.stack_spec()[i] < n);
                    }
                    assert forall|q: int| 0 <= q < other.lists().len() implies #[trigger] self.lists()[n + q]
                        == remap_list_spec(other.lists()[q], draw_offset as int, n as int) by {
                        assert(self.lists()[list_offset + q] == remap_list_spec(
                            other.lists()[q],
                            draw_offset as int,
                            list_offset as int,
                        ));
                    }
                }
                Some(n)
            },
            SceneAppendMode::MergeCurrent => {
                let root_copy = Self::remapped_list(other, ROOT_COMMAND_LIST_ID, draw_offset, list_offset);
                let ghost before = self.lists();
                let mut k: usize = 0;
                proof {
                    assert(before[target as int] == old_lists[target as int]) by {
                        assert(before.subrange(0, n as int)[target as int] == before[target as int]);
                    }
                }
                while k < root_copy.len()
                    invariant
                        k <= root_copy@.len(),
                        target < n,
                        n == old_lists.len(),
                        list_offset == n - 1,
                        self.lists().len() == before.len(),
                        before.len() == n + other.lists().len() - 1,
                        other.lists().len() > 0,
                        root_copy@.len() == other.lists()[0].len(),
                        root_copy@ == remap_list_spec(other.lists()[0], draw_offset as int, list_offset as int),
                        forall|i: int| 0 <= i < before.len() && i != target ==> #[trigger] self.lists()[i] == before[i],
                        self.lists()[target as int] == before[target as int] + root_copy@.subrange(0, k as int),
                        before[target as int] == old_lists[target as int],
                        lists_wf(before),
                        other.wf(),
                        other.remap_all_fit(draw_offset as int, list_offset as int),
                        self.wf(),
                        self.stack_spec() == old(self).stack_spec(),
                        self.layers_spec() == old(self).layers_spec(),
                        self.root_spec() == ROOT_COMMAND_LIST_ID,
                        forall|i: int| 0 <= i < self.stack_spec().len() ==> #[trigger] self.stack_spec()[i] < n,
                    decreases root_copy@.len() - k,
                {
                    let c = root_copy[k];
                    proof {
                        let oc = other.lists()[0][k as int];
                        assert(lists_wf(other.lists()));
                        assert(0 <= k < other.lists()[0].len());
                        assert(command_refs_ok(other.lists()[0][k as int], 0, other.lists().len() as int));
                        assert(remap_fits(other.lists()[0][k as int], draw_offset as int, list_offset as int));
                        assert(c == remap_spec(oc, draw_offset as int, list_offset as int));
                    }
                    self.push_to_list(target, c);
                    k = k + 1;
                    proof {
                        assert(root_copy@.subrange(0, k as int) == root_copy@.subrange(0, k - 1).push(c));
                    }
                }
                proof {
                    assert(root_copy@.subrange(0, root_copy@.len() as int) == root_copy@);
                    assert forall|i: int| 0 <= i < self.stack_spec().len() implies #[trigger] self.stack_spec()[i]
                        < self.lists().len() by {
                        assert(self.stack_spec()[i] < n);
                    }
                    assert forall|i: int| 0 <= i < n && i != target implies #[trigger] self.lists()[i]
                        == old_lists[i] by {
                        assert(before.subrange(0, n as int)[i] == before[i]);
                    }
                    assert forall|q: int| 1 <= q < other.lists().len() implies #[trigger] self.lists()[n + q - 1]
                        == remap_list_spec(other.lists()[q], draw_offset as int, n - 1) by {
                        assert(before[list_offset + q] == remap_list_spec(
                            other.lists()[q],
                            draw_offset as int,
                            list_offset as int,
                        ));
                    }
                }
                None
            },
        }
    }

    /// Whether list `id` holds or reaches, through scenes and layers, an offscreen layer or a
    /// mask layer.
    pub fn command_list_contains_offscreen(&self, id: usize) -> (r: bool)
        requires
            self.wf(),
            id < self.lists().len(),
        ensures
            r == offscreen_from(self.lists(), id as int, 0),
        decreases self.lists().len() - id,
    {
        let n = self.lists[id].len();
        let mut k: usize = n;
        let mut found = false;
        // Walk backwards so that `found` always states the answer for the suffix from `k`.
        while k > 0
            invariant
                k <= n,
                n == self.lists()[id as int].len(),
                self.wf(),
                id < self.lists().len(),
                found == offscreen_from(self.lists(), id as int, k as int),
            decreases k,
        {
            k = k - 1;
            let command = self.lists[id][k];
            proof {
                assert(command == self.lists()[id as int][k as int]);
                assert(command_refs_ok(command, id as int, self.lists().len() as int));
                assert(offscreen_from(self.lists(), id as int, k as int) == (command_offscreen(
                    self.lists(),
                    id as int,
                    command,
                ) || offscreen_from(self.lists(), id as int, k + 1)));
            }
            let here = match command {
                Command::Draw(_) => false,
                Command::MaterializedRetainedScene { children, .. } => {
                    self.command_list_contains_offscreen(children)
                },
                Command::Layer { layer, children, .. } => {
                    let own = match layer {
                        LayerTag::Clip | LayerTag::ClipSdf | LayerTag::Opacity | LayerTag::Blend(_) => false,
                        _ => true,
                    };
                    own || self.command_list_contains_offscreen(children)
                },
                Command::MaskLayer { .. } => true,
            };
            proof {
                assert(here == command_offscreen(self.lists(), id as int, command));
            }
            found = here || found;
        }
        found
    }

    /// Whether a layer over list `children` can stay in the fused tile stream: clips always,
    /// opacity and blend groups when nothing below them goes offscreen.
    pub fn can_fuse(&self, layer: LayerTag, children: usize) -> (r: bool)
        requires
            self.wf(),
            children < self.lists().len(),
        ensures
            r == match layer {
                LayerTag::Clip | LayerTag::ClipSdf => true,
                LayerTag::Opacity | LayerTag::Blend(_) => !offscreen_from(
                    self.lists(),
                    children as int,
                    0,
                ),
                _ => false,
            },
    {
        match layer {
            LayerTag::Clip => true,
            LayerTag::ClipSdf => true,
            LayerTag::Opacity | LayerTag::Blend(_) => !self.command_list_contains_offscreen(children),
            _ => false,
        }
    }
}

} // verus!
