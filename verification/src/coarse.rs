//! Per-tile command streams of one draw batch.
//!
//! For each tile the batch's draws are replayed in painter order. The fused groups that the
//! batch is rendered inside are opened once, before the first draw that reaches the tile, and
//! closed in reverse order at the end. What a draw covers in the tile is found from its
//! geometry by the caller and handed in per draw as integer data.
use vstd::prelude::*;
use crate::commands::BlendMode;
use crate::compile::LayerStackEntry;
use crate::cumsum::PathRecord;
use crate::tiles::TileSegmentRange;

verus! {

/// What kind of draw a draw record is.
#[derive(Clone, Copy, Debug, PartialEq, Eq, Structural)]
pub enum DrawTag {
    Brush,
    PathGlyph,
    Clip,
    Isolate,
    Opacity,
    Blend,
}

/// What one draw covers in the tile at hand.
#[derive(Clone, Copy, Debug, PartialEq, Eq, Structural)]
pub enum TileCoverage {
    /// The draw does not reach the tile, or has no usable brush.
    Uncovered,
    /// The draw's path reaches the tile: its winding backdrop and its segments there.
    /// `solid_color` is the premultiplied colour of a solid brush on a solid rectangle.
    Path { backdrop: i32, segment_start: u32, segment_end: u32, solid_color: Option<u32> },
    /// A signed-distance shape reaches the tile; `solid_color` is set when a solid brush
    /// covers the whole tile.
    Sdf { solid_color: Option<u32> },
    /// A signed-distance shadow reaches the tile.
    SdfShadow,
    /// Text reaches the tile with this many glyphs.
    Glyph { glyph_count: u32 },
}

/// A draw as the tile stream sees it.
#[derive(Clone, Copy, Debug, PartialEq, Eq, Structural)]
pub struct TileDraw {
    pub tag: DrawTag,
    pub coverage: TileCoverage,
}

/// One command of a tile's stream. Draw indices name the draw whose brush, shape or group
/// parameters the command uses.
#[derive(Clone, Copy, Debug, PartialEq, Eq, Structural)]
pub enum TileCmd {
    Color { color: u32 },
    Fill { draw: u32, backdrop: i32, segment_start: u32, segment_end: u32 },
    Sdf { draw: u32 },
    SdfShadow { draw: u32 },
    Glyph { draw: u32, glyph_start: u32, glyph_end: u32 },
    PathGlyph { draw: u32, backdrop: i32, segment_start: u32, segment_end: u32 },
    BeginClip { draw: u32, backdrop: i32, segment_start: u32, segment_end: u32 },
    BeginSdfClip { draw: u32 },
    BeginOpacity { draw: u32, backdrop: i32, segment_start: u32, segment_end: u32 },
    BeginBlend { draw: u32, mode: BlendMode, backdrop: i32, segment_start: u32, segment_end: u32 },
    EndClip,
    EndOpacity,
    EndBlend,
    /// Ends a tile's stream in the frame-wide list.
    End,
}

pub open spec fn entry_draw(entry: LayerStackEntry) -> u32 {
    match entry {
        LayerStackEntry::Clip { draw } => draw,
        LayerStackEntry::Opacity { draw } => draw,
        LayerStackEntry::Blend { draw, .. } => draw,
    }
}

/// The command that opens group `entry` in the tile, given what its draw covers there; none
/// when the group cannot be opened there.
pub open spec fn wrapper_cmd(entry: LayerStackEntry, coverage: TileCoverage) -> Option<TileCmd> {
    match coverage {
        TileCoverage::Path { backdrop, segment_start, segment_end, .. } => match entry {
            LayerStackEntry::Clip { draw } => Some(
                TileCmd::BeginClip { draw, backdrop, segment_start, segment_end },
            ),
            LayerStackEntry::Opacity { draw } => Some(
                TileCmd::BeginOpacity { draw, backdrop, segment_start, segment_end },
            ),
            LayerStackEntry::Blend { draw, mode } => Some(
                TileCmd::BeginBlend { draw, mode, backdrop, segment_start, segment_end },
            ),
        },
        TileCoverage::Sdf { .. } => match entry {
            LayerStackEntry::Clip { draw } => Some(TileCmd::BeginSdfClip { draw }),
            _ => None,
        },
        _ => None,
    }
}

/// The commands that open every group of `stack`, outermost first; none when some group
/// cannot be opened in the tile.
pub open spec fn begin_cmds(stack: Seq<LayerStackEntry>, draws: Seq<TileDraw>) -> Option<
    Seq<TileCmd>,
>
    decreases stack.len(),
{
    if stack.len() == 0 {
        Some(Seq::empty())
    } else {
        match begin_cmds(stack.drop_last(), draws) {
            Some(prior) => match wrapper_cmd(
                stack.last(),
                draws[entry_draw(stack.last()) as int].coverage,
            ) {
                Some(c) => Some(prior.push(c)),
                None => None,
            },
            None => None,
        }
    }
}

pub open spec fn end_cmd(entry: LayerStackEntry) -> TileCmd {
    match entry {
        LayerStackEntry::Clip { .. } => TileCmd::EndClip,
        LayerStackEntry::Opacity { .. } => TileCmd::EndOpacity,
        LayerStackEntry::Blend { .. } => TileCmd::EndBlend,
    }
}

/// The commands that close the groups of `wrapped`, innermost first.
pub open spec fn end_cmds(wrapped: Seq<LayerStackEntry>) -> Seq<TileCmd>
    decreases wrapped.len(),
{
    if wrapped.len() == 0 {
        Seq::empty()
    } else {
        seq![end_cmd(wrapped.last())] + end_cmds(wrapped.drop_last())
    }
}

/// A tile stream under construction: its commands, the groups opened for it, and the glyphs
/// listed so far.
pub struct TileState {
    pub cmds: Seq<TileCmd>,
    pub wrapped: Seq<LayerStackEntry>,
    pub glyphs: nat,
}

/// Opens the groups before the first command of the tile; `None` when they cannot be opened.
pub open spec fn wrap_spec(st: TileState, stack: Seq<LayerStackEntry>, draws: Seq<TileDraw>) -> Option<
    TileState,
> {
    if st.cmds.len() > 0 {
        Some(st)
    } else {
        match begin_cmds(stack, draws) {
            Some(c) => Some(TileState { cmds: st.cmds + c, wrapped: st.wrapped + stack, glyphs: st.glyphs }),
            None => None,
        }
    }
}

/// What draw `d` adds to the tile stream.
pub open spec fn emit_spec(st: TileState, d: u32, draw: TileDraw) -> TileState {
    let push = |c: TileCmd| TileState { cmds: st.cmds.push(c), wrapped: st.wrapped, glyphs: st.glyphs };
    match draw.tag {
        DrawTag::Brush => match draw.coverage {
            TileCoverage::Path { backdrop, segment_start, segment_end, solid_color } => {
                if solid_color is Some && segment_start == segment_end {
                    push(TileCmd::Color { color: solid_color->0 })
                } else {
                    push(TileCmd::Fill { draw: d, backdrop, segment_start, segment_end })
                }
            },
            TileCoverage::Sdf { solid_color } => match solid_color {
                Some(color) => push(TileCmd::Color { color }),
                None => push(TileCmd::Sdf { draw: d }),
            },
            TileCoverage::SdfShadow => push(TileCmd::SdfShadow { draw: d }),
            TileCoverage::Glyph { glyph_count } => TileState {
                cmds: st.cmds.push(
                    TileCmd::Glyph {
                        draw: d,
                        glyph_start: st.glyphs as u32,
                        glyph_end: (st.glyphs + glyph_count) as u32,
                    },
                ),
                wrapped: st.wrapped,
                glyphs: st.glyphs + glyph_count as nat,
            },
            TileCoverage::Uncovered => st,
        },
        DrawTag::PathGlyph => match draw.coverage {
            TileCoverage::Path { backdrop, segment_start, segment_end, .. } => push(
                TileCmd::PathGlyph { draw: d, backdrop, segment_start, segment_end },
            ),
            _ => st,
        },
        DrawTag::Clip => match draw.coverage {
            TileCoverage::Path { backdrop, segment_start, segment_end, .. } => push(
                TileCmd::BeginClip { draw: d, backdrop, segment_start, segment_end },
            ),
            _ => st,
        },
        _ => st,
    }
}

/// The tile stream after bin entry `d`: draws outside `range` and draws that do not reach the
/// tile are skipped, as are draws whose groups cannot be opened in the tile.
pub open spec fn tile_step(
    st: TileState,
    d: u32,
    range: (usize, usize),
    stack: Seq<LayerStackEntry>,
    draws: Seq<TileDraw>,
) -> TileState {
    if d < range.0 || d >= range.1 || draws[d as int].coverage is Uncovered {
        st
    } else {
        match wrap_spec(st, stack, draws) {
            Some(w) => emit_spec(w, d, draws[d as int]),
            None => st,
        }
    }
}

/// The tile stream after the bin entries `bin`.
pub open spec fn tile_state(
    bin: Seq<u32>,
    range: (usize, usize),
    stack: Seq<LayerStackEntry>,
    draws: Seq<TileDraw>,
) -> TileState
    decreases bin.len(),
{
    if bin.len() == 0 {
        TileState { cmds: Seq::empty(), wrapped: Seq::empty(), glyphs: 0 }
    } else {
        tile_step(tile_state(bin.drop_last(), range, stack, draws), bin.last(), range, stack, draws)
    }
}

/// The finished stream of a tile: the commands of its draws, then the ends of its groups.
pub open spec fn tile_cmds_spec(
    bin: Seq<u32>,
    range: (usize, usize),
    stack: Seq<LayerStackEntry>,
    draws: Seq<TileDraw>,
) -> Seq<TileCmd> {
    let st = tile_state(bin, range, stack, draws);
    st.cmds + end_cmds(st.wrapped)
}

/// Glyphs of every glyph draw of `bin`, counted once per entry.
pub open spec fn bin_glyphs(bin: Seq<u32>, draws: Seq<TileDraw>) -> nat
    decreases bin.len(),
{
    if bin.len() == 0 {
        0
    } else {
        bin_glyphs(bin.drop_last(), draws) + match draws[bin.last() as int].coverage {
            TileCoverage::Glyph { glyph_count } => glyph_count as nat,
            _ => 0,
        }
    }
}

proof fn lemma_glyphs_bounded(bin: Seq<u32>, range: (usize, usize), stack: Seq<LayerStackEntry>, draws: Seq<TileDraw>)
    ensures
        tile_state(bin, range, stack, draws).glyphs <= bin_glyphs(bin, draws),
    decreases bin.len(),
{
    if bin.len() > 0 {
        lemma_glyphs_bounded(bin.drop_last(), range, stack, draws);
    }
}

/// Opens the groups of `layer_stack` unless the tile's stream already has commands: each
/// group's own draw must reach the tile, a clip by a path or a shape, an opacity or blend
/// group by a path. Returns false, changing nothing, when a group cannot be opened.
pub fn ensure_batch_wrappers(
    ptcls: &mut Vec<TileCmd>,
    emitted_wrappers: &mut Vec<LayerStackEntry>,
    layer_stack: &[LayerStackEntry],
    draws: &[TileDraw],
) -> (ok: bool)
    requires
        forall|i: int|
            0 <= i < layer_stack@.len() ==> (entry_draw(#[trigger] layer_stack@[i]) as int)
                < draws@.len(),
    ensures
        old(ptcls)@.len() > 0 ==> ok && final(ptcls)@ == old(ptcls)@ && final(emitted_wrappers)@
            == old(emitted_wrappers)@,
        old(ptcls)@.len() == 0 ==> match begin_cmds(layer_stack@, draws@) {
            Some(c) => ok && final(ptcls)@ == c && final(emitted_wrappers)@ == old(
                emitted_wrappers,
            )@ + layer_stack@,
            None => !ok && final(ptcls)@ == old(ptcls)@ && final(emitted_wrappers)@ == old(
                emitted_wrappers,
            )@,
        },
{
    if ptcls.len() > 0 {
        return true;
    }
    let mut pending: Vec<TileCmd> = Vec::new();
    let mut i: usize = 0;
    while i < layer_stack.len()
        invariant
            i <= layer_stack@.len(),
            forall|j: int|
                0 <= j < layer_stack@.len() ==> (entry_draw(#[trigger] layer_stack@[j]) as int)
                    < draws@.len(),
            begin_cmds(layer_stack@.subrange(0, i as int), draws@) == Some(pending@),
            ptcls@ == old(ptcls)@,
            old(ptcls)@.len() == 0,
            emitted_wrappers@ == old(emitted_wrappers)@,
        decreases layer_stack.len() - i,
    {
        let entry = layer_stack[i];
        let draw = match entry {
            LayerStackEntry::Clip { draw } => draw,
            LayerStackEntry::Opacity { draw } => draw,
            LayerStackEntry::Blend { draw, .. } => draw,
        };
        proof {
            assert(layer_stack@.subrange(0, i + 1).drop_last() =~= layer_stack@.subrange(0, i as int));
            assert(layer_stack@.subrange(0, i + 1).last() == entry);
            assert(draw == entry_draw(layer_stack@[i as int]));
        }
        let cmd = match draws[draw as usize].coverage {
            TileCoverage::Path { backdrop, segment_start, segment_end, .. } => match entry {
                LayerStackEntry::Clip { draw } => TileCmd::BeginClip {
                    draw,
                    backdrop,
                    segment_start,
                    segment_end,
                },
                LayerStackEntry::Opacity { draw } => TileCmd::BeginOpacity {
                    draw,
                    backdrop,
                    segment_start,
                    segment_end,
                },
                LayerStackEntry::Blend { draw, mode } => TileCmd::BeginBlend {
                    draw,
                    mode,
                    backdrop,
                    segment_start,
                    segment_end,
                },
            },
            TileCoverage::Sdf { .. } => match entry {
                LayerStackEntry::Clip { draw } => TileCmd::BeginSdfClip { draw },
                _ => {
                    proof {
                        lemma_begin_fails_after(layer_stack@, draws@, i as int);
                    }
                    return false;
                },
            },
            _ => {
                proof {
                    lemma_begin_fails_after(layer_stack@, draws@, i as int);
                }
                return false;
            },
        };
        pending.push(cmd);
        i = i + 1;
    }
    proof {
        assert(layer_stack@.subrange(0, layer_stack@.len() as int) =~= layer_stack@);
    }
    let mut k: usize = 0;
    let ghost old_emitted = emitted_wrappers@;
    while k < layer_stack.len()
        invariant
            k <= layer_stack@.len(),
            emitted_wrappers@ == old_emitted + layer_stack@.subrange(0, k as int),
        decreases layer_stack.len() - k,
    {
        emitted_wrappers.push(layer_stack[k]);
        k = k + 1;
        proof {
            assert(emitted_wrappers@ =~= old_emitted + layer_stack@.subrange(0, k as int));
        }
    }
    proof {
        assert(layer_stack@.subrange(0, layer_stack@.len() as int) =~= layer_stack@);
    }
    *ptcls = pending;
    true
}

/// When the group at `i` cannot be opened, neither can the whole stack.
proof fn lemma_begin_fails_after(stack: Seq<LayerStackEntry>, draws: Seq<TileDraw>, i: int)
    requires
        0 <= i < stack.len(),
        wrapper_cmd(stack[i], draws[entry_draw(stack[i]) as int].coverage) is None,
    ensures
        begin_cmds(stack, draws) is None,
    decreases stack.len(),
{
    if i < stack.len() - 1 {
        lemma_begin_fails_after(stack.drop_last(), draws, i);
    }
}

/// The command stream of one tile for the draws of `draw_range`, from the tile's bin of draw
/// indices in painter order: the groups of `layer_stack` are opened before the first draw
/// that reaches the tile, each reaching draw adds its command, and the groups are closed in
/// reverse order. A tile that no draw of the range reaches gets an empty stream.
pub fn build_tile_ptcls(
    draw_range: (usize, usize),
    bin: &[u32],
    layer_stack: &[LayerStackEntry],
    draws: &[TileDraw],
) -> (out: Vec<TileCmd>)
    requires
        forall|i: int| 0 <= i < bin@.len() ==> (#[trigger] bin@[i] as int) < draws@.len(),
        forall|i: int|
            0 <= i < layer_stack@.len() ==> (entry_draw(#[trigger] layer_stack@[i]) as int)
                < draws@.len(),
        bin_glyphs(bin@, draws@) <= u32::MAX,
    ensures
        out@ == tile_cmds_spec(bin@, draw_range, layer_stack@, draws@),
{
    let mut ptcls: Vec<TileCmd> = Vec::new();
    let mut emitted: Vec<LayerStackEntry> = Vec::new();
    let mut glyphs: u32 = 0;
    let mut i: usize = 0;
    while i < bin.len()
        invariant
            i <= bin@.len(),
            forall|j: int| 0 <= j < bin@.len() ==> (#[trigger] bin@[j] as int) < draws@.len(),
            forall|j: int|
                0 <= j < layer_stack@.len() ==> (entry_draw(#[trigger] layer_stack@[j]) as int)
                    < draws@.len(),
            bin_glyphs(bin@, draws@) <= u32::MAX,
            tile_state(bin@.subrange(0, i as int), draw_range, layer_stack@, draws@) == (TileState {
                cmds: ptcls@,
                wrapped: emitted@,
                glyphs: glyphs as nat,
            }),
        decreases bin.len() - i,
    {
        let d = bin[i];
        let ghost prefix = bin@.subrange(0, i + 1);
        proof {
            assert(prefix.drop_last() =~= bin@.subrange(0, i as int));
            assert(prefix.last() == d);
            lemma_glyphs_bounded(prefix, draw_range, layer_stack@, draws@);
            lemma_bin_glyphs_prefix(bin@, draws@, i + 1);
        }
        i = i + 1;
        let di = d as usize;
        if di < draw_range.0 || di >= draw_range.1 {
            continue;
        }
        let draw = draws[di];
        if let TileCoverage::Uncovered = draw.coverage {
            continue;
        }
        if !ensure_batch_wrappers(&mut ptcls, &mut emitted, layer_stack, draws) {
            continue;
        }
        match draw.tag {
            DrawTag::Brush => match draw.coverage {
                TileCoverage::Path { backdrop, segment_start, segment_end, solid_color } => {
                    match solid_color {
                        Some(color) => {
                            if segment_start == segment_end {
                                ptcls.push(TileCmd::Color { color });
                            } else {
                                ptcls.push(TileCmd::Fill { draw: d, backdrop, segment_start, segment_end });
                            }
                        },
                        None => {
                            ptcls.push(TileCmd::Fill { draw: d, backdrop, segment_start, segment_end });
                        },
                    }
                },
                TileCoverage::Sdf { solid_color } => match solid_color {
                    Some(color) => ptcls.push(TileCmd::Color { color }),
                    None => ptcls.push(TileCmd::Sdf { draw: d }),
                },
                TileCoverage::SdfShadow => ptcls.push(TileCmd::SdfShadow { draw: d }),
                TileCoverage::Glyph { glyph_count } => {
                    let start = glyphs;
                    glyphs = glyphs + glyph_count;
                    ptcls.push(TileCmd::Glyph { draw: d, glyph_start: start, glyph_end: glyphs });
                },
                TileCoverage::Uncovered => {},
            },
            DrawTag::PathGlyph => match draw.coverage {
                TileCoverage::Path { backdrop, segment_start, segment_end, .. } => {
                    ptcls.push(TileCmd::PathGlyph { draw: d, backdrop, segment_start, segment_end });
                },
                _ => {},
            },
            DrawTag::Clip => match draw.coverage {
                TileCoverage::Path { backdrop, segment_start, segment_end, .. } => {
                    ptcls.push(TileCmd::BeginClip { draw: d, backdrop, segment_start, segment_end });
                },
                _ => {},
            },
            _ => {},
        }
    }
    proof {
        assert(bin@.subrange(0, bin@.len() as int) =~= bin@);
    }
    let ghost cmds = ptcls@;
    let mut k: usize = emitted.len();
    while k > 0
        invariant
            k <= emitted@.len(),
            ptcls@ == cmds + end_cmds(emitted@).subrange(0, emitted@.len() - k),
        decreases k,
    {
        k = k - 1;
        let end = match emitted[k] {
            LayerStackEntry::Clip { .. } => TileCmd::EndClip,
            LayerStackEntry::Opacity { .. } => TileCmd::EndOpacity,
            LayerStackEntry::Blend { .. } => TileCmd::EndBlend,
        };
        proof {
            lemma_end_cmds_index(emitted@, emitted@.len() - 1 - k);
        }
        ptcls.push(end);
        proof {
            assert(ptcls@ =~= cmds + end_cmds(emitted@).subrange(0, emitted@.len() - k));
        }
    }
    proof {
        lemma_end_cmds_index(emitted@, 0);
        assert(end_cmds(emitted@).subrange(0, emitted@.len() as int) =~= end_cmds(emitted@));
    }
    ptcls
}

proof fn lemma_bin_glyphs_prefix(bin: Seq<u32>, draws: Seq<TileDraw>, n: int)
    requires
        0 <= n <= bin.len(),
    ensures
        bin_glyphs(bin.subrange(0, n), draws) <= bin_glyphs(bin, draws),
    decreases bin.len() - n,
{
    if n < bin.len() {
        lemma_bin_glyphs_prefix(bin, draws, n + 1);
        assert(bin.subrange(0, n + 1).drop_last() =~= bin.subrange(0, n));
    } else {
        assert(bin.subrange(0, n) =~= bin);
    }
}

/// The ends close the groups innermost first: end `j` closes group `len - 1 - j`.
proof fn lemma_end_cmds_index(wrapped: Seq<LayerStackEntry>, j: int)
    ensures
        end_cmds(wrapped).len() == wrapped.len(),
        0 <= j < wrapped.len() ==> end_cmds(wrapped)[j] == end_cmd(wrapped[wrapped.len() - 1 - j]),
    decreases wrapped.len(),
{
    if wrapped.len() > 0 {
        lemma_end_cmds_index(wrapped.drop_last(), j - 1);
        lemma_end_cmds_index(wrapped.drop_last(), 0);
    }
}


proof fn lemma_begin_cmds_len(stack: Seq<LayerStackEntry>, draws: Seq<TileDraw>)
    ensures
        begin_cmds(stack, draws) is Some ==> (begin_cmds(stack, draws)->0).len() == stack.len(),
    decreases stack.len(),
{
    if stack.len() > 0 {
        lemma_begin_cmds_len(stack.drop_last(), draws);
    }
}

proof fn lemma_emit_extends(st: TileState, d: u32, draw: TileDraw)
    ensures
        emit_spec(st, d, draw).wrapped == st.wrapped,
        emit_spec(st, d, draw).cmds.len() >= st.cmds.len(),
        emit_spec(st, d, draw).cmds.subrange(0, st.cmds.len() as int) == st.cmds,
{
    let e = emit_spec(st, d, draw);
    assert(e.cmds.subrange(0, st.cmds.len() as int) =~= st.cmds);
}

/// Shape of a stream under construction: empty with no groups opened, or opened by the
/// commands that begin every group of the batch's stack.
proof fn lemma_tile_state_shape(
    bin: Seq<u32>,
    range: (usize, usize),
    stack: Seq<LayerStackEntry>,
    draws: Seq<TileDraw>,
)
    ensures
        ({
            let st = tile_state(bin, range, stack, draws);
            &&& st.cmds.len() == 0 ==> st.wrapped.len() == 0
            &&& st.cmds.len() > 0 ==> {
                &&& st.wrapped == stack
                &&& begin_cmds(stack, draws) is Some
                &&& st.cmds.len() >= stack.len()
                &&& st.cmds.subrange(0, stack.len() as int) == begin_cmds(stack, draws)->0
            }
        }),
    decreases bin.len(),
{
    lemma_begin_cmds_len(stack, draws);
    if bin.len() > 0 {
        let prior = tile_state(bin.drop_last(), range, stack, draws);
        lemma_tile_state_shape(bin.drop_last(), range, stack, draws);
        let d = bin.last();
        if !(d < range.0 || d >= range.1 || draws[d as int].coverage is Uncovered) {
            match wrap_spec(prior, stack, draws) {
                Some(w) => {
                    lemma_emit_extends(w, d, draws[d as int]);
                    let e = emit_spec(w, d, draws[d as int]);
                    if prior.cmds.len() == 0 {
                        let c = begin_cmds(stack, draws)->0;
                        assert(w.cmds =~= c);
                        assert(w.wrapped =~= stack);
                        assert(e.cmds.subrange(0, stack.len() as int) =~= c);
                    } else {
                        assert(e.cmds.subrange(0, stack.len() as int) =~= prior.cmds.subrange(
                            0,
                            stack.len() as int,
                        ));
                    }
                },
                None => {},
            }
        }
    }
}

/// A tile's stream is balanced: either empty, or it opens every group of the batch's stack
/// outermost first and closes them all, innermost first, at its end.
pub proof fn law_tile_stream_balanced(
    bin: Seq<u32>,
    range: (usize, usize),
    stack: Seq<LayerStackEntry>,
    draws: Seq<TileDraw>,
)
    ensures
        ({
            let out = tile_cmds_spec(bin, range, stack, draws);
            out.len() > 0 ==> {
                &&& begin_cmds(stack, draws) is Some
                &&& out.len() >= 2 * stack.len()
                &&& out.subrange(0, stack.len() as int) == begin_cmds(stack, draws)->0
                &&& out.subrange(out.len() - stack.len(), out.len() as int) == end_cmds(stack)
            }
        }),
{
    lemma_tile_state_shape(bin, range, stack, draws);
    let st = tile_state(bin, range, stack, draws);
    let out = tile_cmds_spec(bin, range, stack, draws);
    lemma_end_cmds_index(st.wrapped, 0);
    if out.len() > 0 {
        assert(st.cmds.len() > 0);
        lemma_end_cmds_index(stack, 0);
        assert(out.subrange(0, stack.len() as int) =~= st.cmds.subrange(0, stack.len() as int));
        assert(out.subrange(out.len() - stack.len(), out.len() as int) =~= end_cmds(stack));
    }
}

/// A tile that no draw of the batch reaches gets an empty stream.
pub proof fn law_untouched_tile_is_empty(
    bin: Seq<u32>,
    range: (usize, usize),
    stack: Seq<LayerStackEntry>,
    draws: Seq<TileDraw>,
)
    requires
        forall|i: int|
            0 <= i < bin.len() ==> (#[trigger] bin[i] < range.0 || bin[i] >= range.1
                || draws[bin[i] as int].coverage is Uncovered),
    ensures
        tile_cmds_spec(bin, range, stack, draws) == Seq::<TileCmd>::empty(),
    decreases bin.len(),
{
    if bin.len() > 0 {
        assert forall|i: int| 0 <= i < bin.drop_last().len() implies (#[trigger] bin.drop_last()[i]
            < range.0 || bin.drop_last()[i] >= range.1 || draws[bin.drop_last()[i] as int].coverage is Uncovered) by {
            assert(bin.drop_last()[i] == bin[i]);
        }
        law_untouched_tile_is_empty(bin.drop_last(), range, stack, draws);
        assert(bin[bin.len() - 1] == bin.last());
    }
    let st = tile_state(bin, range, stack, draws);
    assert(st.cmds.len() == 0 && st.wrapped.len() == 0);
    assert(tile_cmds_spec(bin, range, stack, draws) =~= Seq::<TileCmd>::empty());
}

/// A rectangle of tiles, `x0..x1` by `y0..y1`.
#[derive(Clone, Copy, Debug, PartialEq, Eq, Structural)]
pub struct TileRect {
    pub x0: u32,
    pub y0: u32,
    pub x1: u32,
    pub y1: u32,
}

pub open spec fn in_rect(r: TileRect, x: int, y: int) -> bool {
    r.x0 <= x < r.x1 && r.y0 <= y < r.y1
}

/// What a draw renders, as far as its tile coverage goes; the per-tile facts that take
/// floating point (whether a shape covers the whole tile, how many of a text run's glyphs
/// reach it) are the caller's.
#[derive(Clone, Copy, Debug, PartialEq, Eq, Structural)]
pub enum DrawShape {
    /// A signed-distance shape; `solid_color` is set when its solid brush covers the tile.
    Sdf { solid_color: Option<u32> },
    SdfShadow,
    /// Text with this many glyphs reaching the tile.
    Glyph { glyph_count: u32 },
    /// A filled path; `solid_color` is set for a solid brush on a solid rectangle.
    Path { path_id: u32, solid_color: Option<u32> },
    /// Nothing the tile stream can render: no geometry, or no usable brush.
    Nothing,
}

/// Where a path's tile `(x, y)` is in the backdrop and segment-range buffers, when it is in
/// the path's tile rectangle.
pub open spec fn path_tile_slot(record: PathRecord, x: int, y: int) -> Option<int> {
    if x < record.tile_x0 || x >= record.tile_x1 || y < record.tile_y0 || y >= record.tile_y1 {
        None
    } else if record.tile_x1 - record.tile_x0 == 0 {
        None
    } else {
        Some(record.data_offset + (y - record.tile_y0) * (record.tile_x1 - record.tile_x0) + (x
            - record.tile_x0))
    }
}

/// What path `record` covers in tile `(x, y)` of its draw's tile box `bbox`: its winding
/// backdrop and segments there, none outside the box or the path's rectangle, or where it
/// has neither segments nor winding.
pub open spec fn path_coverage_spec(
    bbox: TileRect,
    record: PathRecord,
    backdrops: Seq<i32>,
    ranges: Seq<TileSegmentRange>,
    x: int,
    y: int,
) -> Option<(i32, u32, u32)> {
    if !in_rect(bbox, x, y) {
        None
    } else {
        match path_tile_slot(record, x, y) {
            None => None,
            Some(ix) => if ranges[ix].start == ranges[ix].end && backdrops[ix] == 0 {
                None
            } else {
                Some((backdrops[ix], ranges[ix].start, ranges[ix].end))
            },
        }
    }
}

/// Every tile of the path's rectangle has its backdrop and range in the buffers.
pub open spec fn path_record_ok(record: PathRecord, backdrops: Seq<i32>, ranges: Seq<TileSegmentRange>) -> bool {
    &&& record.tile_x0 <= record.tile_x1
    &&& record.tile_y0 <= record.tile_y1
    &&& (record.tile_x1 - record.tile_x0) * (record.tile_y1 - record.tile_y0) <= u32::MAX
    &&& record.data_offset + (record.tile_x1 - record.tile_x0) * (record.tile_y1 - record.tile_y0)
        <= backdrops.len()
    &&& backdrops.len() == ranges.len()
}

/// The coverage of a draw in tile `(x, y)`.
pub open spec fn tile_coverage_spec(
    shape: DrawShape,
    bbox: TileRect,
    records: Seq<PathRecord>,
    backdrops: Seq<i32>,
    ranges: Seq<TileSegmentRange>,
    x: int,
    y: int,
) -> TileCoverage {
    match shape {
        DrawShape::Sdf { solid_color } => if in_rect(bbox, x, y) {
            TileCoverage::Sdf { solid_color }
        } else {
            TileCoverage::Uncovered
        },
        DrawShape::SdfShadow => if in_rect(bbox, x, y) {
            TileCoverage::SdfShadow
        } else {
            TileCoverage::Uncovered
        },
        DrawShape::Glyph { glyph_count } => if in_rect(bbox, x, y) && glyph_count > 0 {
            TileCoverage::Glyph { glyph_count }
        } else {
            TileCoverage::Uncovered
        },
        DrawShape::Path { path_id, solid_color } => match path_coverage_spec(
            bbox,
            records[path_id as int],
            backdrops,
            ranges,
            x,
            y,
        ) {
            Some((backdrop, segment_start, segment_end)) => TileCoverage::Path {
                backdrop,
                segment_start,
                segment_end,
                solid_color,
            },
            None => TileCoverage::Uncovered,
        },
        DrawShape::Nothing => TileCoverage::Uncovered,
    }
}

fn in_rect_exec(r: TileRect, x: u32, y: u32) -> (b: bool)
    ensures
        b == in_rect(r, x as int, y as int),
{
    x >= r.x0 && x < r.x1 && y >= r.y0 && y < r.y1
}

/// What a path covers in one tile of its draw's tile box.
pub fn path_tile_coverage(
    tile_x: u32,
    tile_y: u32,
    bbox: TileRect,
    record: &PathRecord,
    backdrops: &[i32],
    ranges: &[TileSegmentRange],
) -> (r: Option<(i32, u32, u32)>)
    requires
        path_record_ok(*record, backdrops@, ranges@),
    ensures
        r == path_coverage_spec(bbox, *record, backdrops@, ranges@, tile_x as int, tile_y as int),
{
    if !in_rect_exec(bbox, tile_x, tile_y) {
        return None;
    }
    if tile_x < record.tile_x0 || tile_x >= record.tile_x1 || tile_y < record.tile_y0
        || tile_y >= record.tile_y1 {
        return None;
    }
    let stride = record.tile_x1 - record.tile_x0;
    if stride == 0 {
        return None;
    }
    let local_x = tile_x - record.tile_x0;
    let local_y = tile_y - record.tile_y0;
    proof {
        let rows = record.tile_y1 - record.tile_y0;
        crate::image::lemma_index_in_image(stride as int, rows as int, local_x as int, local_y as int);
        assert(local_y * stride + local_x < stride * rows);
    }
    let local_ix = local_y * stride + local_x;
    let buffer_len = backdrops.len();
    proof {
        assert(record.data_offset + local_ix < buffer_len);
    }
    let ix = record.data_offset as usize + local_ix as usize;
    let range = ranges[ix];
    let backdrop = backdrops[ix];
    if range.start == range.end && backdrop == 0 {
        None
    } else {
        Some((backdrop, range.start, range.end))
    }
}

/// The coverage of a draw in one tile, as the tile stream reads it.
pub fn draw_tile_coverage(
    tile_x: u32,
    tile_y: u32,
    shape: DrawShape,
    bbox: TileRect,
    records: &[PathRecord],
    backdrops: &[i32],
    ranges: &[TileSegmentRange],
) -> (c: TileCoverage)
    requires
        shape matches DrawShape::Path { path_id, .. } ==> path_id < records@.len()
            && path_record_ok(records@[path_id as int], backdrops@, ranges@),
    ensures
        c == tile_coverage_spec(shape, bbox, records@, backdrops@, ranges@, tile_x as int, tile_y as int),
{
    match shape {
        DrawShape::Sdf { solid_color } => if in_rect_exec(bbox, tile_x, tile_y) {
            TileCoverage::Sdf { solid_color }
        } else {
            TileCoverage::Uncovered
        },
        DrawShape::SdfShadow => if in_rect_exec(bbox, tile_x, tile_y) {
            TileCoverage::SdfShadow
        } else {
            TileCoverage::Uncovered
        },
        DrawShape::Glyph { glyph_count } => if in_rect_exec(bbox, tile_x, tile_y) && glyph_count > 0 {
            TileCoverage::Glyph { glyph_count }
        } else {
            TileCoverage::Uncovered
        },
        DrawShape::Path { path_id, solid_color } => {
            match path_tile_coverage(tile_x, tile_y, bbox, &records[path_id as usize], backdrops, ranges) {
                Some((backdrop, segment_start, segment_end)) => TileCoverage::Path {
                    backdrop,
                    segment_start,
                    segment_end,
                    solid_color,
                },
                None => TileCoverage::Uncovered,
            }
        },
        DrawShape::Nothing => TileCoverage::Uncovered,
    }
}

/// The draw a command of a tile's stream belongs to, when it names one.
pub open spec fn cmd_draw(c: TileCmd) -> Option<u32> {
    match c {
        TileCmd::Fill { draw, .. } => Some(draw),
        TileCmd::Sdf { draw } => Some(draw),
        TileCmd::SdfShadow { draw } => Some(draw),
        TileCmd::Glyph { draw, .. } => Some(draw),
        TileCmd::PathGlyph { draw, .. } => Some(draw),
        TileCmd::BeginClip { draw, .. } => Some(draw),
        TileCmd::BeginSdfClip { draw } => Some(draw),
        TileCmd::BeginOpacity { draw, .. } => Some(draw),
        TileCmd::BeginBlend { draw, .. } => Some(draw),
        _ => None,
    }
}

/// Commands of a stream after the group begins: all of them but the opened wrappers.
pub open spec fn middle_len(st: TileState, stack: Seq<LayerStackEntry>) -> int {
    if st.cmds.len() > 0 {
        st.cmds.len() - stack.len()
    } else {
        0
    }
}

/// For each command between a stream's group begins and ends, the bin position of the draw
/// that added it.
pub open spec fn tile_sources(
    bin: Seq<u32>,
    range: (usize, usize),
    stack: Seq<LayerStackEntry>,
    draws: Seq<TileDraw>,
) -> Seq<int>
    decreases bin.len(),
{
    if bin.len() == 0 {
        Seq::empty()
    } else {
        let prior = tile_sources(bin.drop_last(), range, stack, draws);
        if middle_len(tile_state(bin, range, stack, draws), stack) > middle_len(
            tile_state(bin.drop_last(), range, stack, draws),
            stack,
        ) {
            prior.push(bin.len() - 1)
        } else {
            prior
        }
    }
}

proof fn lemma_emit_cases(st: TileState, d: u32, draw: TileDraw)
    ensures
        emit_spec(st, d, draw).wrapped == st.wrapped,
        emit_spec(st, d, draw).cmds == st.cmds || (emit_spec(st, d, draw).cmds == st.cmds.push(
            emit_spec(st, d, draw).cmds.last(),
        ) && (cmd_draw(emit_spec(st, d, draw).cmds.last()) is None || cmd_draw(
            emit_spec(st, d, draw).cmds.last(),
        ) == Some(d))),
{
}

pub open spec fn sources_ok(
    bin: Seq<u32>,
    range: (usize, usize),
    draws: Seq<TileDraw>,
    middle: Seq<TileCmd>,
    src: Seq<int>,
) -> bool {
    &&& src.len() == middle.len()
    &&& forall|i: int|
        0 <= i < src.len() ==> {
            &&& 0 <= #[trigger] src[i] < bin.len()
            &&& range.0 <= bin[src[i]] < range.1
            &&& !(draws[bin[src[i]] as int].coverage is Uncovered)
            &&& (cmd_draw(middle[i]) is None || cmd_draw(middle[i]) == Some(bin[src[i]]))
        }
    &&& forall|i: int, j: int| 0 <= i < j < src.len() ==> src[i] < src[j]
}

/// Between its group begins and ends, a tile's stream holds only commands of the batch's
/// draws that reach the tile, at most one per bin entry, in bin order: each command comes
/// from a bin entry inside the batch's draw range whose draw reaches the tile, and names that
/// draw when it names one.
pub proof fn law_tile_stream_follows_bin(
    bin: Seq<u32>,
    range: (usize, usize),
    stack: Seq<LayerStackEntry>,
    draws: Seq<TileDraw>,
)
    ensures
        ({
            let st = tile_state(bin, range, stack, draws);
            let m = if st.cmds.len() > 0 { stack.len() as int } else { 0 };
            &&& m <= st.cmds.len()
            &&& sources_ok(bin, range, draws, st.cmds.subrange(m, st.cmds.len() as int), tile_sources(bin, range, stack, draws))
        }),
    decreases bin.len(),
{
    lemma_tile_state_shape(bin, range, stack, draws);
    lemma_begin_cmds_len(stack, draws);
    let st = tile_state(bin, range, stack, draws);
    let m = if st.cmds.len() > 0 { stack.len() as int } else { 0 };
    if bin.len() == 0 {
        assert(st.cmds.subrange(m, st.cmds.len() as int) =~= Seq::<TileCmd>::empty());
    } else {
        let pb = bin.drop_last();
        law_tile_stream_follows_bin(pb, range, stack, draws);
        lemma_tile_state_shape(pb, range, stack, draws);
        let prior = tile_state(pb, range, stack, draws);
        let pm = if prior.cmds.len() > 0 { stack.len() as int } else { 0 };
        let pmid = prior.cmds.subrange(pm, prior.cmds.len() as int);
        let psrc = tile_sources(pb, range, stack, draws);
        let d = bin.last();
        let mid = st.cmds.subrange(m, st.cmds.len() as int);
        let src = tile_sources(bin, range, stack, draws);
        assert forall|i: int| 0 <= i < psrc.len() implies bin[#[trigger] psrc[i]] == pb[psrc[i]] by {}
        if d < range.0 || d >= range.1 || draws[d as int].coverage is Uncovered {
            assert(st == prior);
            assert(src == psrc);
        } else {
            match wrap_spec(prior, stack, draws) {
                Some(w) => {
                    lemma_emit_cases(w, d, draws[d as int]);
                    let e = emit_spec(w, d, draws[d as int]);
                    assert(st == e);
                    // The draws before this entry keep their commands.
                    if prior.cmds.len() == 0 {
                        assert(w.cmds.len() == stack.len());
                        assert(pmid.len() == 0);
                    } else {
                        assert(w == prior);
                    }
                    if e.cmds == w.cmds {
                        assert(middle_len(st, stack) == middle_len(prior, stack)) by {
                            if prior.cmds.len() == 0 && stack.len() == 0 {
                                assert(st.cmds.len() == 0);
                            }
                        }
                        assert(src == psrc);
                        assert(mid =~= pmid) by {
                            if prior.cmds.len() == 0 {
                                assert(mid.len() == 0);
                            }
                        }
                    } else {
                        assert(middle_len(st, stack) == middle_len(prior, stack) + 1);
                        assert(src == psrc.push(bin.len() - 1));
                        assert(mid =~= pmid.push(e.cmds.last())) by {
                            if prior.cmds.len() == 0 {
                                assert(pmid.len() == 0);
                                assert(mid.len() == 1);
                            }
                        }
                        assert(bin[bin.len() - 1] == d);
                    }
                },
                None => {
                    assert(st == prior);
                    assert(src == psrc);
                },
            }
        }
    }
}

/// The stream a tile has, with its groups opened, once a draw reaches it.
pub open spec fn opened_cmds(st: TileState, stack: Seq<LayerStackEntry>, draws: Seq<TileDraw>) -> Seq<TileCmd> {
    if st.cmds.len() > 0 {
        st.cmds
    } else {
        begin_cmds(stack, draws)->0
    }
}

/// Appending bin entry `d`, a draw of the batch's range that reaches the tile, to a tile whose
/// groups can be opened adds the draw's own command after the opened stream: a path glyph or a
/// clip with path coverage adds its path command naming the draw and carrying its backdrop and
/// segments; a brush adds its fill, shape, shadow or glyph command naming the draw, or a solid
/// colour where the brush is solid over a tile without segments (or a shape covering the
/// tile); glyph commands take the next glyphs of the tile's list. Group draws add nothing,
/// nor do path glyphs and clips without path coverage.
pub proof fn law_tile_draw_adds_its_command(
    bin: Seq<u32>,
    d: u32,
    range: (usize, usize),
    stack: Seq<LayerStackEntry>,
    draws: Seq<TileDraw>,
)
    requires
        range.0 <= d < range.1,
        !(draws[d as int].coverage is Uncovered),
        begin_cmds(stack, draws) is Some,
    ensures
        ({
            let st = tile_state(bin, range, stack, draws);
            let next = tile_state(bin.push(d), range, stack, draws).cmds;
            let w = opened_cmds(st, stack, draws);
            let draw = draws[d as int];
            match (draw.tag, draw.coverage) {
                (DrawTag::PathGlyph, TileCoverage::Path { backdrop, segment_start, segment_end, .. }) =>
                    next == w.push(TileCmd::PathGlyph { draw: d, backdrop, segment_start, segment_end }),
                (DrawTag::Clip, TileCoverage::Path { backdrop, segment_start, segment_end, .. }) =>
                    next == w.push(TileCmd::BeginClip { draw: d, backdrop, segment_start, segment_end }),
                (DrawTag::Brush, TileCoverage::Path { backdrop, segment_start, segment_end, solid_color }) =>
                    next == w.push(
                        if solid_color is Some && segment_start == segment_end {
                            TileCmd::Color { color: solid_color->0 }
                        } else {
                            TileCmd::Fill { draw: d, backdrop, segment_start, segment_end }
                        },
                    ),
                (DrawTag::Brush, TileCoverage::Sdf { solid_color }) => next == w.push(
                    match solid_color {
                        Some(color) => TileCmd::Color { color },
                        None => TileCmd::Sdf { draw: d },
                    },
                ),
                (DrawTag::Brush, TileCoverage::SdfShadow) => next == w.push(TileCmd::SdfShadow { draw: d }),
                (DrawTag::Brush, TileCoverage::Glyph { glyph_count }) => next == w.push(
                    TileCmd::Glyph {
                        draw: d,
                        glyph_start: st.glyphs as u32,
                        glyph_end: (st.glyphs + glyph_count) as u32,
                    },
                ),
                _ => next == w,
            }
        }),
{
    assert(bin.push(d).drop_last() =~= bin);
    assert(bin.push(d).last() == d);
}

/// Where one tile's stream lies in the frame-wide command list.
#[derive(Clone, Copy, Debug, Default, PartialEq, Eq, Structural)]
pub struct TilePtclRange {
    pub start: u32,
    pub end: u32,
}

/// A glyph command moved to index a list that holds `base` glyphs before the tile's own.
pub open spec fn shift_glyph_cmd(c: TileCmd, base: u32) -> TileCmd {
    match c {
        TileCmd::Glyph { draw, glyph_start, glyph_end } => TileCmd::Glyph {
            draw,
            glyph_start: (glyph_start + base) as u32,
            glyph_end: (glyph_end + base) as u32,
        },
        _ => c,
    }
}

pub open spec fn shift_glyph_cmds(cmds: Seq<TileCmd>, base: u32) -> Seq<TileCmd> {
    cmds.map_values(|c: TileCmd| shift_glyph_cmd(c, base))
}

/// The frame-wide lists made of per-tile streams and glyph lists, tile by tile: each tile's
/// range, the commands of every tile that has any followed by an end marker, and the glyphs of
/// those tiles, their glyph commands moved to index the frame-wide glyph list.
pub open spec fn collect_spec(streams: Seq<Seq<TileCmd>>, glyphs: Seq<Seq<u32>>) -> (
    Seq<TilePtclRange>,
    Seq<TileCmd>,
    Seq<u32>,
)
    decreases streams.len(),
{
    if streams.len() == 0 {
        (Seq::empty(), Seq::empty(), Seq::empty())
    } else {
        let prior = collect_spec(streams.drop_last(), glyphs.drop_last());
        let s = streams.last();
        let start = prior.1.len() as u32;
        if s.len() == 0 {
            (prior.0.push(TilePtclRange { start, end: start }), prior.1, prior.2)
        } else {
            let cmds = prior.1 + shift_glyph_cmds(s, prior.2.len() as u32) + seq![TileCmd::End];
            (
                prior.0.push(TilePtclRange { start, end: cmds.len() as u32 }),
                cmds,
                prior.2 + glyphs[streams.len() - 1],
            )
        }
    }
}

/// Each glyph command of a tile's stream indexes that tile's glyph list.
pub open spec fn glyph_ranges_ok(streams: Seq<Seq<TileCmd>>, glyphs: Seq<Seq<u32>>) -> bool {
    forall|t: int, i: int|
        0 <= t < streams.len() && 0 <= i < streams[t].len() ==> match #[trigger] streams[t][i] {
            TileCmd::Glyph { glyph_start, glyph_end, .. } => glyph_start <= glyph_end
                <= glyphs[t].len(),
            _ => true,
        }
}

proof fn lemma_collect_prefix(streams: Seq<Seq<TileCmd>>, glyphs: Seq<Seq<u32>>, n: int)
    requires
        0 <= n <= streams.len(),
        streams.len() == glyphs.len(),
    ensures
        collect_spec(streams.subrange(0, n), glyphs.subrange(0, n)).1.len() <= collect_spec(
            streams,
            glyphs,
        ).1.len(),
        collect_spec(streams.subrange(0, n), glyphs.subrange(0, n)).2.len() <= collect_spec(
            streams,
            glyphs,
        ).2.len(),
    decreases streams.len() - n,
{
    if n < streams.len() {
        lemma_collect_prefix(streams, glyphs, n + 1);
        assert(streams.subrange(0, n + 1).drop_last() =~= streams.subrange(0, n));
        assert(glyphs.subrange(0, n + 1).drop_last() =~= glyphs.subrange(0, n));
    } else {
        assert(streams.subrange(0, n) =~= streams);
        assert(glyphs.subrange(0, n) =~= glyphs);
    }
}

/// Joins the per-tile streams of a batch into the frame-wide command list: each tile's range
/// in it, the commands of every tile that has any followed by `End`, and the tiles' glyph
/// lists one after another, each glyph command moved to index the joined glyph list.
pub fn collect_tile_streams(streams: &Vec<Vec<TileCmd>>, glyphs: &Vec<Vec<u32>>) -> (out: (
    Vec<TilePtclRange>,
    Vec<TileCmd>,
    Vec<u32>,
))
    requires
        streams@.len() == glyphs@.len(),
        glyph_ranges_ok(
            streams@.map_values(|v: Vec<TileCmd>| v@),
            glyphs@.map_values(|v: Vec<u32>| v@),
        ),
        collect_spec(
            streams@.map_values(|v: Vec<TileCmd>| v@),
            glyphs@.map_values(|v: Vec<u32>| v@),
        ).1.len() <= u32::MAX,
        collect_spec(
            streams@.map_values(|v: Vec<TileCmd>| v@),
            glyphs@.map_values(|v: Vec<u32>| v@),
        ).2.len() <= u32::MAX,
    ensures
        (out.0@, out.1@, out.2@) == collect_spec(
            streams@.map_values(|v: Vec<TileCmd>| v@),
            glyphs@.map_values(|v: Vec<u32>| v@),
        ),
{
    let ghost ss = streams@.map_values(|v: Vec<TileCmd>| v@);
    let ghost gs = glyphs@.map_values(|v: Vec<u32>| v@);
    let mut ranges: Vec<TilePtclRange> = Vec::new();
    let mut ptcls: Vec<TileCmd> = Vec::new();
    let mut all_glyphs: Vec<u32> = Vec::new();
    let mut t: usize = 0;
    while t < streams.len()
        invariant
            t <= streams@.len(),
            streams@.len() == glyphs@.len(),
            ss == streams@.map_values(|v: Vec<TileCmd>| v@),
            gs == glyphs@.map_values(|v: Vec<u32>| v@),
            glyph_ranges_ok(ss, gs),
            collect_spec(ss, gs).1.len() <= u32::MAX,
            collect_spec(ss, gs).2.len() <= u32::MAX,
            (ranges@, ptcls@, all_glyphs@) == collect_spec(
                ss.subrange(0, t as int),
                gs.subrange(0, t as int),
            ),
        decreases streams.len() - t,
    {
        let ghost prior = (ranges@, ptcls@, all_glyphs@);
        proof {
            lemma_collect_prefix(ss, gs, t + 1);
            assert(ss.subrange(0, t + 1).drop_last() =~= ss.subrange(0, t as int));
            assert(gs.subrange(0, t + 1).drop_last() =~= gs.subrange(0, t as int));
            assert(ss.subrange(0, t + 1).last() == streams@[t as int]@);
            assert(gs.subrange(0, t + 1)[t as int] == glyphs@[t as int]@);
        }
        let stream = &streams[t];
        let start = ptcls.len() as u32;
        if stream.len() == 0 {
            ranges.push(TilePtclRange { start, end: start });
        } else {
            let glyph_base = all_glyphs.len() as u32;
            let tile_glyphs = &glyphs[t];
            let mut j: usize = 0;
            while j < tile_glyphs.len()
                invariant
                    j <= tile_glyphs@.len(),
                    all_glyphs@ == prior.2 + tile_glyphs@.subrange(0, j as int),
                decreases tile_glyphs.len() - j,
            {
                all_glyphs.push(tile_glyphs[j]);
                j = j + 1;
                proof {
                    assert(all_glyphs@ =~= prior.2 + tile_glyphs@.subrange(0, j as int));
                }
            }
            proof {
                assert(tile_glyphs@.subrange(0, tile_glyphs@.len() as int) =~= tile_glyphs@);
                assert(glyph_base + tile_glyphs@.len() <= u32::MAX);
            }
            let mut i: usize = 0;
            while i < stream.len()
                invariant
                    i <= stream@.len(),
                    stream@ == ss[t as int],
                    tile_glyphs@ == gs[t as int],
                    0 <= t < ss.len(),
                    glyph_ranges_ok(ss, gs),
                    glyph_base == prior.2.len(),
                    glyph_base + tile_glyphs@.len() <= u32::MAX,
                    ptcls@ == prior.1 + shift_glyph_cmds(stream@.subrange(0, i as int), glyph_base),
                decreases stream.len() - i,
            {
                let c = stream[i];
                proof {
                    assert(ss[t as int][i as int] == c);
                }
                let shifted = match c {
                    TileCmd::Glyph { draw, glyph_start, glyph_end } => TileCmd::Glyph {
                        draw,
                        glyph_start: glyph_start + glyph_base,
                        glyph_end: glyph_end + glyph_base,
                    },
                    _ => c,
                };
                ptcls.push(shifted);
                i = i + 1;
                proof {
                    assert(ptcls@ =~= prior.1 + shift_glyph_cmds(stream@.subrange(0, i as int), glyph_base));
                }
            }
            proof {
                assert(stream@.subrange(0, stream@.len() as int) =~= stream@);
            }
            ptcls.push(TileCmd::End);
            let end = ptcls.len() as u32;
            ranges.push(TilePtclRange { start, end });
            proof {
                assert(ptcls@ =~= prior.1 + shift_glyph_cmds(ss[t as int], prior.2.len() as u32) + seq![TileCmd::End]);
            }
        }
        t = t + 1;
    }
    proof {
        assert(ss.subrange(0, ss.len() as int) =~= ss);
        assert(gs.subrange(0, gs.len() as int) =~= gs);
    }
    (ranges, ptcls, all_glyphs)
}

} // verus!
