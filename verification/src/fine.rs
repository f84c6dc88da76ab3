//! The fine stage's per-tile interpreter: the integer state of one 16x16 tile as its command
//! stream is replayed.
//!
//! A tile keeps its premultiplied pixels, the clip mask in force, the masks saved by open
//! clips, and one frame per open opacity or blend group. Clips combine their coverage into
//! the mask and restore it when they end; groups save the tile, render into a cleared tile,
//! and composite it back into the saved one when they end. Coverage, brush sampling and the
//! blend of two colours are computed by the caller and handed in with each event.
use vstd::prelude::*;
use crate::bounds::Bounds;
use crate::commands::BlendMode;
use crate::image::{channel, lemma_index_in_image, packed, rgba8_pack, unpack_rgba8, Image};
use crate::mask::{combine_alpha, combined};

verus! {

/// Pixels of one tile.
pub const TILE_PIXELS: usize = 256;

/// `pixel` with every channel scaled by `alpha`.
pub open spec fn scaled(pixel: u32, alpha: int) -> u32 {
    packed(
        combined(channel(pixel, 0), alpha),
        combined(channel(pixel, 1), alpha),
        combined(channel(pixel, 2), alpha),
        combined(channel(pixel, 3), alpha),
    ) as u32
}

/// Channel `k` of `src` drawn over `dst`, capped at 255.
pub open spec fn over_channel(dst: u32, src: u32, k: int) -> int {
    let v = channel(src, k) + combined(channel(dst, k), 255 - channel(src, 3));
    if v > 255 {
        255
    } else {
        v
    }
}

/// Premultiplied `src` drawn over `dst`.
pub open spec fn over(dst: u32, src: u32) -> u32 {
    packed(over_channel(dst, src, 0), over_channel(dst, src, 1), over_channel(dst, src, 2), over_channel(dst, src, 3)) as u32
}

proof fn lemma_combined_byte(a: int, b: int)
    requires
        0 <= a <= 255,
        0 <= b <= 255,
    ensures
        0 <= combined(a, b) <= 255,
{
    assert(0 <= a * b <= 255 * 255) by (nonlinear_arith)
        requires
            0 <= a <= 255,
            0 <= b <= 255,
    ;
}

proof fn lemma_channel_byte(px: u32, k: int)
    ensures
        0 <= channel(px, k) <= 255,
{
    assert(px as int / 16777216 <= 255);
}

/// Scales every channel of a premultiplied pixel by a coverage byte.
pub fn scale_premul_u8(pixel: u32, alpha: u8) -> (r: u32)
    ensures
        r == scaled(pixel, alpha as int),
{
    let c = unpack_rgba8(pixel);
    let r = rgba8_pack(
        [
            combine_alpha(c[0], alpha),
            combine_alpha(c[1], alpha),
            combine_alpha(c[2], alpha),
            combine_alpha(c[3], alpha),
        ],
    );
    r
}

fn over_byte(d: u8, s: u8, sa: u8) -> (r: u8)
    ensures
        r == (if s + combined(d as int, 255 - sa) > 255 {
            255
        } else {
            s + combined(d as int, 255 - sa)
        }),
{
    let v = s as u32 + combine_alpha(d, 255 - sa) as u32;
    if v > 255 {
        255
    } else {
        v as u8
    }
}

/// Draws premultiplied `src` over `dst`.
pub fn src_over_premul_u8(dst: u32, src: u32) -> (r: u32)
    ensures
        r == over(dst, src),
{
    let d = unpack_rgba8(dst);
    let s = unpack_rgba8(src);
    rgba8_pack(
        [
            over_byte(d[0], s[0], s[3]),
            over_byte(d[1], s[1], s[3]),
            over_byte(d[2], s[2], s[3]),
            over_byte(d[3], s[3], s[3]),
        ],
    )
}

/// A solid colour drawn over one pixel under clip coverage `mask`.
pub open spec fn color_pixel(dst: u32, color: u32, mask: u8) -> u32 {
    if mask == 0 {
        dst
    } else {
        over(dst, scaled(color, mask as int))
    }
}

/// A tile with a solid colour drawn over it under the clip mask; a transparent colour
/// changes nothing.
pub open spec fn color_tile(tile: Seq<u32>, color: u32, clip_mask: Seq<u8>) -> Seq<u32> {
    if channel(color, 3) == 0 {
        tile
    } else {
        Seq::new(tile.len(), |i: int| color_pixel(tile[i], color, clip_mask[i]))
    }
}

/// Draws a premultiplied solid colour over a tile under its clip mask.
pub fn composite_color_tile_buffer_into(tile: &mut Vec<u32>, color: u32, clip_mask: &Vec<u8>)
    requires
        old(tile)@.len() == clip_mask@.len(),
    ensures
        final(tile)@ == color_tile(old(tile)@, color, clip_mask@),
{
    let c = unpack_rgba8(color);
    if c[3] == 0 {
        return;
    }
    let mut i: usize = 0;
    while i < tile.len()
        invariant
            i <= tile@.len(),
            tile@.len() == old(tile)@.len(),
            tile@.len() == clip_mask@.len(),
            channel(color, 3) != 0,
            forall|j: int| 0 <= j < i ==> tile@[j] == color_pixel(old(tile)@[j], color, clip_mask@[j]),
            forall|j: int| i <= j < tile@.len() ==> tile@[j] == old(tile)@[j],
        decreases tile.len() - i,
    {
        let mask = clip_mask[i];
        if mask != 0 {
            let px = src_over_premul_u8(tile[i], scale_premul_u8(color, mask));
            tile.set(i, px);
        }
        i = i + 1;
    }
    proof {
        assert(tile@ =~= color_tile(old(tile)@, color, clip_mask@));
    }
}

/// Coverage of a group's pixel when it is composited back: the group's own layer coverage
/// within the clip mask saved at its start.
pub open spec fn group_alpha(layer_alpha: u8, parent_clip: u8) -> int {
    combined(layer_alpha as int, parent_clip as int)
}

/// One pixel of an opacity group drawn back over its parent.
pub open spec fn opacity_pixel(parent: u32, group: u32, layer_alpha: u8, parent_clip: u8, opacity: u8) -> u32 {
    let alpha = combined(group_alpha(layer_alpha, parent_clip), opacity as int);
    if alpha == 0 {
        parent
    } else {
        over(parent, scaled(group, alpha))
    }
}

pub open spec fn opacity_tile(
    parent: Seq<u32>,
    group: Seq<u32>,
    layer_alpha: Seq<u8>,
    parent_clip: Seq<u8>,
    opacity: u8,
) -> Seq<u32> {
    Seq::new(
        parent.len(),
        |i: int| opacity_pixel(parent[i], group[i], layer_alpha[i], parent_clip[i], opacity),
    )
}

/// Draws an opacity group's tile back over its parent tile: each pixel scaled by the layer
/// coverage, the parent's clip mask and the opacity.
pub fn composite_opacity_group_tile(
    parent: &mut Vec<u32>,
    group: &Vec<u32>,
    layer_alpha: &Vec<u8>,
    parent_clip_mask: &Vec<u8>,
    opacity: u8,
)
    requires
        group@.len() == old(parent)@.len(),
        layer_alpha@.len() == old(parent)@.len(),
        parent_clip_mask@.len() == old(parent)@.len(),
    ensures
        final(parent)@ == opacity_tile(old(parent)@, group@, layer_alpha@, parent_clip_mask@, opacity),
{
    let mut i: usize = 0;
    while i < parent.len()
        invariant
            i <= parent@.len(),
            parent@.len() == old(parent)@.len(),
            group@.len() == parent@.len(),
            layer_alpha@.len() == parent@.len(),
            parent_clip_mask@.len() == parent@.len(),
            forall|j: int|
                0 <= j < i ==> parent@[j] == opacity_pixel(
                    old(parent)@[j],
                    group@[j],
                    layer_alpha@[j],
                    parent_clip_mask@[j],
                    opacity,
                ),
            forall|j: int| i <= j < parent@.len() ==> parent@[j] == old(parent)@[j],
        decreases parent.len() - i,
    {
        let alpha = combine_alpha(combine_alpha(layer_alpha[i], parent_clip_mask[i]), opacity);
        if alpha != 0 {
            let px = src_over_premul_u8(parent[i], scale_premul_u8(group[i], alpha));
            parent.set(i, px);
        }
        i = i + 1;
    }
    proof {
        assert(parent@ =~= opacity_tile(old(parent)@, group@, layer_alpha@, parent_clip_mask@, opacity));
    }
}

/// The source a blend group offers at one pixel: its pixel scaled by the group coverage;
/// none where that coverage or the scaled alpha is zero, where the parent is left as it is.
pub open spec fn blend_source(group: u32, layer_alpha: u8, parent_clip: u8) -> Option<u32> {
    let alpha = group_alpha(layer_alpha, parent_clip);
    if alpha == 0 || channel(scaled(group, alpha), 3) == 0 {
        None
    } else {
        Some(scaled(group, alpha))
    }
}

/// The sources of a blend group, pixel by pixel, for the caller to blend over the parent.
pub fn blend_group_sources(group: &Vec<u32>, layer_alpha: &Vec<u8>, parent_clip_mask: &Vec<u8>) -> (r: Vec<Option<u32>>)
    requires
        layer_alpha@.len() == group@.len(),
        parent_clip_mask@.len() == group@.len(),
    ensures
        r@ == Seq::new(
            group@.len(),
            |i: int| blend_source(group@[i], layer_alpha@[i], parent_clip_mask@[i]),
        ),
{
    let mut r: Vec<Option<u32>> = Vec::new();
    let mut i: usize = 0;
    while i < group.len()
        invariant
            i <= group@.len(),
            layer_alpha@.len() == group@.len(),
            parent_clip_mask@.len() == group@.len(),
            r@.len() == i,
            forall|j: int|
                0 <= j < i ==> r@[j] == blend_source(group@[j], layer_alpha@[j], parent_clip_mask@[j]),
        decreases group.len() - i,
    {
        let alpha = combine_alpha(layer_alpha[i], parent_clip_mask[i]);
        if alpha == 0 {
            r.push(None);
        } else {
            let src = scale_premul_u8(group[i], alpha);
            let c = unpack_rgba8(src);
            if c[3] == 0 {
                r.push(None);
            } else {
                r.push(Some(src));
            }
        }
        i = i + 1;
    }
    proof {
        assert(r@ =~= Seq::new(
            group@.len(),
            |i: int| blend_source(group@[i], layer_alpha@[i], parent_clip_mask@[i]),
        ));
    }
    r
}

/// A saved group: the parent tile and clip mask at its start, its layer coverage, and its
/// opacity or blend mode.
pub enum GroupFrame {
    Opacity { parent: Vec<u32>, parent_clip_mask: Vec<u8>, layer_alpha: Vec<u8>, opacity: u8 },
    Blend { parent: Vec<u32>, parent_clip_mask: Vec<u8>, layer_alpha: Vec<u8>, mode: BlendMode },
}

pub enum FrameView {
    Opacity { parent: Seq<u32>, parent_clip: Seq<u8>, layer_alpha: Seq<u8>, opacity: u8 },
    Blend { parent: Seq<u32>, parent_clip: Seq<u8>, layer_alpha: Seq<u8>, mode: BlendMode },
}

impl View for GroupFrame {
    type V = FrameView;

    open spec fn view(&self) -> FrameView {
        match self {
            GroupFrame::Opacity { parent, parent_clip_mask, layer_alpha, opacity } => FrameView::Opacity {
                parent: parent@,
                parent_clip: parent_clip_mask@,
                layer_alpha: layer_alpha@,
                opacity: *opacity,
            },
            GroupFrame::Blend { parent, parent_clip_mask, layer_alpha, mode } => FrameView::Blend {
                parent: parent@,
                parent_clip: parent_clip_mask@,
                layer_alpha: layer_alpha@,
                mode: *mode,
            },
        }
    }
}

/// The state of a tile being rendered: its pixels, the clip mask in force, the masks saved
/// by open clips (innermost last), and the frames of open groups (innermost last).
pub struct FineState {
    pub tile: Vec<u32>,
    pub clip_mask: Vec<u8>,
    pub clip_stack: Vec<Vec<u8>>,
    pub group_stack: Vec<GroupFrame>,
}

#[verifier::ext_equal]
pub struct FineView {
    pub tile: Seq<u32>,
    pub clip: Seq<u8>,
    pub clips: Seq<Seq<u8>>,
    pub groups: Seq<FrameView>,
}

impl View for FineState {
    type V = FineView;

    open spec fn view(&self) -> FineView {
        FineView {
            tile: self.tile@,
            clip: self.clip_mask@,
            clips: self.clip_stack@.map_values(|m: Vec<u8>| m@),
            groups: self.group_stack@.map_values(|f: GroupFrame| f@),
        }
    }
}

pub open spec fn frame_wf(f: FrameView) -> bool {
    match f {
        FrameView::Opacity { parent, parent_clip, layer_alpha, .. } => parent.len() == TILE_PIXELS
            && parent_clip.len() == TILE_PIXELS && layer_alpha.len() == TILE_PIXELS,
        FrameView::Blend { parent, parent_clip, layer_alpha, .. } => parent.len() == TILE_PIXELS
            && parent_clip.len() == TILE_PIXELS && layer_alpha.len() == TILE_PIXELS,
    }
}

/// Every buffer of the state holds one value per pixel of the tile.
pub open spec fn fine_wf(s: FineView) -> bool {
    &&& s.tile.len() == TILE_PIXELS
    &&& s.clip.len() == TILE_PIXELS
    &&& forall|i: int| 0 <= i < s.clips.len() ==> (#[trigger] s.clips[i]).len() == TILE_PIXELS
    &&& forall|i: int| 0 <= i < s.groups.len() ==> frame_wf(#[trigger] s.groups[i])
}

/// One command of a tile's stream, with what the caller computed for it in floating point.
pub enum FineEvent {
    /// The end of the tile's stream.
    End,
    /// A solid premultiplied colour.
    Color { color: u32 },
    /// A fill, shape or glyph draw, rasterised by the caller into the current tile under the
    /// current clip mask: the tile after it.
    Paint { tile: Vec<u32> },
    /// A clip: the coverage of its path in the tile.
    BeginClip { alpha: Vec<u8> },
    EndClip,
    /// An opacity group: the coverage of its path in the tile and its opacity byte.
    BeginOpacity { alpha: Vec<u8>, opacity: u8 },
    EndOpacity,
    /// A blend group: the coverage of its path in the tile and its blend mode.
    BeginBlend { alpha: Vec<u8>, mode: BlendMode },
    /// The end of a blend group: `blended[i]` is the caller's blend of the group's source at
    /// pixel `i` (see [`blend_group_sources`]) over the parent's pixel `i`; it is read only
    /// where there is a source.
    EndBlend { blended: Vec<u32> },
}

/// The buffers an event carries hold one value per pixel.
pub open spec fn event_wf(e: &FineEvent) -> bool {
    match e {
        FineEvent::Paint { tile } => tile@.len() == TILE_PIXELS,
        FineEvent::BeginClip { alpha } => alpha@.len() == TILE_PIXELS,
        FineEvent::BeginOpacity { alpha, .. } => alpha@.len() == TILE_PIXELS,
        FineEvent::BeginBlend { alpha, .. } => alpha@.len() == TILE_PIXELS,
        FineEvent::EndBlend { blended } => blended@.len() == TILE_PIXELS,
        _ => true,
    }
}

pub open spec fn zero_tile() -> Seq<u32> {
    Seq::new(TILE_PIXELS as nat, |i: int| 0u32)
}

/// A blend group's tile drawn back: the caller's blend where the group has a source, the
/// parent's pixel elsewhere.
pub open spec fn blend_tile(
    parent: Seq<u32>,
    group: Seq<u32>,
    layer_alpha: Seq<u8>,
    parent_clip: Seq<u8>,
    blended: Seq<u32>,
) -> Seq<u32> {
    Seq::new(
        parent.len(),
        |i: int|
            if blend_source(group[i], layer_alpha[i], parent_clip[i]) is Some {
                blended[i]
            } else {
                parent[i]
            },
    )
}

/// The state after one event.
///
/// A clip saves the mask in force and narrows it by its coverage; its end restores the saved
/// mask. A group saves the tile and the mask and clears the tile; its end pops the newest
/// frame and, when that frame is of its kind, composites the group's tile into the saved one.
/// An end with nothing open changes nothing.
pub open spec fn fine_step_spec(s: FineView, e: &FineEvent) -> FineView {
    match e {
        FineEvent::End => s,
        FineEvent::Color { color } => FineView { tile: color_tile(s.tile, *color, s.clip), ..s },
        FineEvent::Paint { tile } => FineView { tile: tile@, ..s },
        FineEvent::BeginClip { alpha } => FineView {
            clip: Seq::new(s.clip.len(), |i: int| combined(s.clip[i] as int, alpha@[i] as int) as u8),
            clips: s.clips.push(s.clip),
            ..s
        },
        FineEvent::EndClip => if s.clips.len() > 0 {
            FineView { clip: s.clips.last(), clips: s.clips.drop_last(), ..s }
        } else {
            s
        },
        FineEvent::BeginOpacity { alpha, opacity } => FineView {
            tile: zero_tile(),
            groups: s.groups.push(
                FrameView::Opacity { parent: s.tile, parent_clip: s.clip, layer_alpha: alpha@, opacity: *opacity },
            ),
            ..s
        },
        FineEvent::BeginBlend { alpha, mode } => FineView {
            tile: zero_tile(),
            groups: s.groups.push(
                FrameView::Blend { parent: s.tile, parent_clip: s.clip, layer_alpha: alpha@, mode: *mode },
            ),
            ..s
        },
        FineEvent::EndOpacity => if s.groups.len() > 0 {
            match s.groups.last() {
                FrameView::Opacity { parent, parent_clip, layer_alpha, opacity } => FineView {
                    tile: opacity_tile(parent, s.tile, layer_alpha, parent_clip, opacity),
                    groups: s.groups.drop_last(),
                    ..s
                },
                _ => FineView { groups: s.groups.drop_last(), ..s },
            }
        } else {
            s
        },
        FineEvent::EndBlend { blended } => if s.groups.len() > 0 {
            match s.groups.last() {
                FrameView::Blend { parent, parent_clip, layer_alpha, .. } => FineView {
                    tile: blend_tile(parent, s.tile, layer_alpha, parent_clip, blended@),
                    groups: s.groups.drop_last(),
                    ..s
                },
                _ => FineView { groups: s.groups.drop_last(), ..s },
            }
        } else {
            s
        },
    }
}

fn copy_mask(mask: &Vec<u8>) -> (r: Vec<u8>)
    ensures
        r@ == mask@,
{
    let mut r: Vec<u8> = Vec::new();
    let mut i: usize = 0;
    while i < mask.len()
        invariant
            i <= mask@.len(),
            r@ == mask@.subrange(0, i as int),
        decreases mask.len() - i,
    {
        r.push(mask[i]);
        i = i + 1;
        proof {
            assert(r@ =~= mask@.subrange(0, i as int));
        }
    }
    proof {
        assert(mask@.subrange(0, mask@.len() as int) =~= mask@);
    }
    r
}

fn cleared_tile() -> (r: Vec<u32>)
    ensures
        r@ == zero_tile(),
{
    let mut r: Vec<u32> = Vec::new();
    let mut i: usize = 0;
    while i < TILE_PIXELS
        invariant
            i <= TILE_PIXELS,
            r@.len() == i,
            forall|j: int| 0 <= j < i ==> r@[j] == 0u32,
        decreases TILE_PIXELS - i,
    {
        r.push(0);
        i = i + 1;
    }
    proof {
        assert(r@ =~= zero_tile());
    }
    r
}

impl FineState {
    /// A tile with the given pixels, no clip and no group open.
    pub fn new(tile: Vec<u32>) -> (s: FineState)
        requires
            tile@.len() == TILE_PIXELS,
        ensures
            fine_wf(s@),
            s@ == (FineView {
                tile: tile@,
                clip: Seq::new(TILE_PIXELS as nat, |i: int| 255u8),
                clips: Seq::empty(),
                groups: Seq::empty(),
            }),
    {
        let mut clip: Vec<u8> = Vec::new();
        let mut i: usize = 0;
        while i < TILE_PIXELS
            invariant
                i <= TILE_PIXELS,
                clip@.len() == i,
                forall|j: int| 0 <= j < i ==> clip@[j] == 255u8,
            decreases TILE_PIXELS - i,
        {
            clip.push(255);
            i = i + 1;
        }
        let s = FineState { tile, clip_mask: clip, clip_stack: Vec::new(), group_stack: Vec::new() };
        proof {
            assert(s@.clip =~= Seq::new(TILE_PIXELS as nat, |i: int| 255u8));
            assert(s@.clips =~= Seq::<Seq<u8>>::empty());
            assert(s@.groups =~= Seq::<FrameView>::empty());
        }
        s
    }
}

/// Applies one event of a tile's stream; returns whether the stream goes on.
pub fn fine_step(state: &mut FineState, event: FineEvent) -> (go_on: bool)
    requires
        fine_wf(old(state)@),
        event_wf(&event),
    ensures
        fine_wf(final(state)@),
        final(state)@ == fine_step_spec(old(state)@, &event),
        go_on == !(event is End),
{
    let ghost s0 = state@;
    match event {
        FineEvent::End => {
            return false;
        },
        FineEvent::Color { color } => {
            composite_color_tile_buffer_into(&mut state.tile, color, &state.clip_mask);
        },
        FineEvent::Paint { tile } => {
            state.tile = tile;
        },
        FineEvent::BeginClip { alpha } => {
            let mut narrowed: Vec<u8> = Vec::new();
            let mut i: usize = 0;
            while i < TILE_PIXELS
                invariant
                    i <= TILE_PIXELS,
                    state.clip_mask@.len() == TILE_PIXELS,
                    alpha@.len() == TILE_PIXELS,
                    narrowed@.len() == i,
                    forall|j: int|
                        0 <= j < i ==> narrowed@[j] == combined(
                            state.clip_mask@[j] as int,
                            alpha@[j] as int,
                        ) as u8,
                decreases TILE_PIXELS - i,
            {
                narrowed.push(combine_alpha(state.clip_mask[i], alpha[i]));
                i = i + 1;
            }
            std::mem::swap(&mut state.clip_mask, &mut narrowed);
            state.clip_stack.push(narrowed);
            proof {
                assert(state@.clip =~= fine_step_spec(s0, &event).clip);
                assert(state@.clips =~= s0.clips.push(s0.clip));
            }
        },
        FineEvent::EndClip => {
            match state.clip_stack.pop() {
                Some(previous) => {
                    state.clip_mask = previous;
                    proof {
                        assert(state@.clips =~= s0.clips.drop_last());
                    }
                },
                None => {
                    proof {
                        assert(state@ =~= s0);
                    }
                },
            }
        },
        FineEvent::BeginOpacity { alpha, opacity } => {
            let parent_clip_mask = copy_mask(&state.clip_mask);
            let mut parent = cleared_tile();
            std::mem::swap(&mut parent, &mut state.tile);
            state.group_stack.push(GroupFrame::Opacity { parent, parent_clip_mask, layer_alpha: alpha, opacity });
            proof {
                assert(state@.groups =~= fine_step_spec(s0, &event).groups);
            }
        },
        FineEvent::BeginBlend { alpha, mode } => {
            let parent_clip_mask = copy_mask(&state.clip_mask);
            let mut parent = cleared_tile();
            std::mem::swap(&mut parent, &mut state.tile);
            state.group_stack.push(GroupFrame::Blend { parent, parent_clip_mask, layer_alpha: alpha, mode });
            proof {
                assert(state@.groups =~= fine_step_spec(s0, &event).groups);
            }
        },
        FineEvent::EndOpacity => {
            let popped = state.group_stack.pop();
            proof {
                if s0.groups.len() > 0 {
                    assert(state@.groups =~= s0.groups.drop_last());
                    assert(popped.unwrap()@ == s0.groups.last());
                    assert(frame_wf(s0.groups[s0.groups.len() - 1]));
                } else {
                    assert(state@ =~= s0);
                }
            }
            match popped {
                Some(GroupFrame::Opacity { parent, parent_clip_mask, layer_alpha, opacity }) => {
                    let mut parent = parent;
                    composite_opacity_group_tile(&mut parent, &state.tile, &layer_alpha, &parent_clip_mask, opacity);
                    state.tile = parent;
                },
                _ => {},
            }
        },
        FineEvent::EndBlend { blended } => {
            let popped = state.group_stack.pop();
            proof {
                if s0.groups.len() > 0 {
                    assert(state@.groups =~= s0.groups.drop_last());
                    assert(popped.unwrap()@ == s0.groups.last());
                    assert(frame_wf(s0.groups[s0.groups.len() - 1]));
                } else {
                    assert(state@ =~= s0);
                }
            }
            match popped {
                Some(GroupFrame::Blend { parent, parent_clip_mask, layer_alpha, .. }) => {
                    let sources = blend_group_sources(&state.tile, &layer_alpha, &parent_clip_mask);
                    let mut out = parent;
                    let ghost before = out@;
                    let mut i: usize = 0;
                    while i < TILE_PIXELS
                        invariant
                            i <= TILE_PIXELS,
                            out@.len() == TILE_PIXELS,
                            before.len() == TILE_PIXELS,
                            sources@.len() == TILE_PIXELS,
                            blended@.len() == TILE_PIXELS,
                            forall|j: int| 0 <= j < i ==> out@[j] == (if sources@[j] is Some {
                                blended@[j]
                            } else {
                                before[j]
                            }),
                            forall|j: int| i <= j < TILE_PIXELS ==> out@[j] == before[j],
                        decreases TILE_PIXELS - i,
                    {
                        if sources[i].is_some() {
                            out.set(i, blended[i]);
                        }
                        i = i + 1;
                    }
                    proof {
                        assert(out@ =~= blend_tile(before, state.tile@, layer_alpha@, parent_clip_mask@, blended@));
                    }
                    state.tile = out;
                },
                _ => {},
            }
        },
    }
    proof {
        assert(state@ =~= fine_step_spec(s0, &event));
        let s1 = state@;
        assert forall|i: int| 0 <= i < s1.clips.len() implies (#[trigger] s1.clips[i]).len() == TILE_PIXELS by {
            if i < s0.clips.len() {
                assert(s1.clips[i] == s0.clips[i]);
            }
        }
        assert forall|i: int| 0 <= i < s1.groups.len() implies frame_wf(#[trigger] s1.groups[i]) by {
            if i < s0.groups.len() {
                assert(s1.groups[i] == s0.groups[i]);
            }
        }
    }
    true
}

/// Ending a clip right after it began restores the state before it.
pub proof fn law_clip_end_restores(s: FineView, alpha: Vec<u8>)
    ensures
        fine_step_spec(fine_step_spec(s, &FineEvent::BeginClip { alpha }), &FineEvent::EndClip) == s,
{
    let b = fine_step_spec(s, &FineEvent::BeginClip { alpha });
    assert(b.clips.drop_last() =~= s.clips);
    assert(fine_step_spec(b, &FineEvent::EndClip) =~= s);
}

proof fn lemma_over_transparent(dst: u32, a: int)
    requires
        0 <= a <= 255,
    ensures
        over(dst, scaled(0u32, a)) == dst,
{
    assert(channel(0u32, 0) == 0 && channel(0u32, 1) == 0 && channel(0u32, 2) == 0 && channel(0u32, 3) == 0);
    let z = scaled(0u32, a);
    assert(combined(0, a) == 0);
    assert(z == 0u32);
    assert(channel(0u32, 3) == 0);
    assert forall|k: int| 0 <= k < 4 implies over_channel(dst, z, k) == channel(dst, k) by {
        lemma_channel_byte(dst, k);
        assert(combined(channel(dst, k), 255) == channel(dst, k)) by (nonlinear_arith)
            requires
                0 <= channel(dst, k) <= 255,
        ;
    }
    let v = dst as int;
    assert(v == packed(channel(dst, 0), channel(dst, 1), channel(dst, 2), channel(dst, 3))) by (nonlinear_arith)
        requires
            0 <= v < 0x1_0000_0000,
            channel(dst, 0) == v % 256,
            channel(dst, 1) == (v / 256) % 256,
            channel(dst, 2) == (v / 65536) % 256,
            channel(dst, 3) == v / 16777216,
    ;
}

/// An opacity group that paints nothing leaves the tile, and the whole state, as it was.
pub proof fn law_empty_opacity_group_changes_nothing(s: FineView, alpha: Vec<u8>, opacity: u8)
    requires
        fine_wf(s),
        alpha@.len() == TILE_PIXELS,
    ensures
        fine_step_spec(
            fine_step_spec(s, &FineEvent::BeginOpacity { alpha, opacity }),
            &FineEvent::EndOpacity,
        ) == s,
{
    let b = fine_step_spec(s, &FineEvent::BeginOpacity { alpha, opacity });
    let e = fine_step_spec(b, &FineEvent::EndOpacity);
    assert(b.groups.last() == FrameView::Opacity { parent: s.tile, parent_clip: s.clip, layer_alpha: alpha@, opacity });
    assert forall|i: int| 0 <= i < s.tile.len() implies opacity_pixel(
        s.tile[i],
        zero_tile()[i],
        alpha@[i],
        s.clip[i],
        opacity,
    ) == s.tile[i] by {
        let a = combined(group_alpha(alpha@[i], s.clip[i]), opacity as int);
        lemma_combined_byte(alpha@[i] as int, s.clip[i] as int);
        lemma_combined_byte(group_alpha(alpha@[i], s.clip[i]), opacity as int);
        if a != 0 {
            lemma_over_transparent(s.tile[i], a);
        }
    }
    assert(e.tile =~= s.tile);
    assert(b.groups.drop_last() =~= s.groups);
    assert(e =~= s);
}

/// The part `global` of a tile whose top-left pixel is `(base_x, base_y)` lies inside the
/// tile and inside the target rectangle that `image` holds.
pub open spec fn tile_placed(image: Image, target: Bounds, global: Bounds, base_x: int, base_y: int) -> bool {
    &&& image.wf()
    &&& image.width == target.width_spec()
    &&& image.height == target.height_spec()
    &&& target.x0 <= global.x0 && global.x1 <= target.x1
    &&& target.y0 <= global.y0 && global.y1 <= target.y1
    &&& base_x <= global.x0 && global.x1 <= base_x + 16
    &&& base_y <= global.y0 && global.y1 <= base_y + 16
}

/// Image index of target pixel `(x, y)`.
pub open spec fn target_ix(image: Image, target: Bounds, x: int, y: int) -> int {
    image.ix(x - target.x0, y - target.y0)
}

/// Tile pixel `i` of a tile at `(base_x, base_y)`, in target coordinates.
pub open spec fn tile_x(base_x: int, i: int) -> int {
    base_x + i % 16
}

pub open spec fn tile_y(base_y: int, i: int) -> int {
    base_y + i / 16
}

proof fn lemma_target_ix(image: Image, target: Bounds, global: Bounds, base_x: int, base_y: int, x: int, y: int)
    requires
        tile_placed(image, target, global, base_x, base_y),
        global.covers(x, y),
    ensures
        0 <= target_ix(image, target, x, y) < image.pixels@.len(),
{
    lemma_index_in_image(image.width as int, image.height as int, x - target.x0, y - target.y0);
}

/// Reads the part `global` of a tile from the target image; the rest of the tile is clear.
pub fn load_tile(image: &Image, target: Bounds, global: Bounds, base_x: i32, base_y: i32) -> (tile: Vec<u32>)
    requires
        tile_placed(*image, target, global, base_x as int, base_y as int),
    ensures
        tile@.len() == TILE_PIXELS,
        forall|i: int|
            0 <= i < TILE_PIXELS ==> #[trigger] tile@[i] == if global.covers(
                tile_x(base_x as int, i),
                tile_y(base_y as int, i),
            ) {
                image.pixels@[target_ix(*image, target, tile_x(base_x as int, i), tile_y(base_y as int, i))]
            } else {
                0u32
            },
{
    let mut tile: Vec<u32> = Vec::new();
    let mut i: usize = 0;
    while i < TILE_PIXELS
        invariant
            i <= TILE_PIXELS,
            tile_placed(*image, target, global, base_x as int, base_y as int),
            tile@.len() == i,
            forall|j: int|
                0 <= j < i ==> #[trigger] tile@[j] == if global.covers(
                    tile_x(base_x as int, j),
                    tile_y(base_y as int, j),
                ) {
                    image.pixels@[target_ix(*image, target, tile_x(base_x as int, j), tile_y(base_y as int, j))]
                } else {
                    0u32
                },
        decreases TILE_PIXELS - i,
    {
        let x: i64 = base_x as i64 + (i % 16) as i64;
        let y: i64 = base_y as i64 + (i / 16) as i64;
        if (global.x0 as i64) <= x && x < (global.x1 as i64) && (global.y0 as i64) <= y && y < (global.y1 as i64) {
            proof {
                lemma_target_ix(*image, target, global, base_x as int, base_y as int, x as int, y as int);
            }
            let ix = ((y - target.y0 as i64) as u64 * image.width as u64 + (x - target.x0 as i64) as u64) as usize;
            tile.push(image.pixels[ix]);
        } else {
            tile.push(0);
        }
        i = i + 1;
    }
    tile
}

/// Tile pixel of target pixel `(x, y)` of a tile at `(base_x, base_y)`.
pub open spec fn tile_ix(base_x: int, base_y: int, x: int, y: int) -> int {
    (y - base_y) * 16 + (x - base_x)
}

/// Writes the part `global` of a tile back into the target image, leaving every other pixel.
pub fn store_tile(image: &mut Image, target: Bounds, global: Bounds, base_x: i32, base_y: i32, tile: &Vec<u32>)
    requires
        tile_placed(*old(image), target, global, base_x as int, base_y as int),
        tile@.len() == TILE_PIXELS,
    ensures
        final(image).width == old(image).width,
        final(image).height == old(image).height,
        final(image).pixels@.len() == old(image).pixels@.len(),
        forall|x: int, y: int|
            global.covers(x, y) ==> final(image).pixels@[#[trigger] target_ix(*old(image), target, x, y)]
                == tile@[tile_ix(base_x as int, base_y as int, x, y)],
        forall|j: int|
            0 <= j < old(image).pixels@.len() && !(exists|x: int, y: int|
                global.covers(x, y) && #[trigger] target_ix(*old(image), target, x, y) == j)
                ==> final(image).pixels@[j] == old(image).pixels@[j],
{
    let ghost old_image = *image;
    let mut y: i32 = global.y0;
    while y < global.y1
        invariant
            tile_placed(old_image, target, global, base_x as int, base_y as int),
            global.y0 <= y,
            global.y0 < global.y1 ==> y <= global.y1,
            tile@.len() == TILE_PIXELS,
            image.width == old_image.width,
            image.height == old_image.height,
            image.pixels@.len() == old_image.pixels@.len(),
            forall|px: int, py: int|
                global.covers(px, py) && py < y ==> image.pixels@[#[trigger] target_ix(old_image, target, px, py)]
                    == tile@[tile_ix(base_x as int, base_y as int, px, py)],
            forall|j: int|
                0 <= j < old_image.pixels@.len() && !(exists|px: int, py: int|
                    global.covers(px, py) && py < y && #[trigger] target_ix(old_image, target, px, py) == j)
                    ==> image.pixels@[j] == old_image.pixels@[j],
        decreases global.y1 - y,
    {
        let mut x: i32 = global.x0;
        while x < global.x1
            invariant
                tile_placed(old_image, target, global, base_x as int, base_y as int),
                global.y0 <= y < global.y1,
                global.x0 <= x,
                global.x0 < global.x1 ==> x <= global.x1,
                tile@.len() == TILE_PIXELS,
                image.width == old_image.width,
                image.height == old_image.height,
                image.pixels@.len() == old_image.pixels@.len(),
                forall|px: int, py: int|
                    global.covers(px, py) && (py < y || (py == y && px < x)) ==> image.pixels@[#[trigger] target_ix(old_image, target, px, py)]
                        == tile@[tile_ix(base_x as int, base_y as int, px, py)],
                forall|j: int|
                    0 <= j < old_image.pixels@.len() && !(exists|px: int, py: int|
                        global.covers(px, py) && (py < y || (py == y && px < x)) && #[trigger] target_ix(old_image, target, px, py) == j)
                        ==> image.pixels@[j] == old_image.pixels@[j],
            decreases global.x1 - x,
        {
            proof {
                lemma_target_ix(old_image, target, global, base_x as int, base_y as int, x as int, y as int);
                lemma_target_ix_injective(old_image, target, global, base_x as int, base_y as int, x as int, y as int);
            }
            let ix = ((y as i64 - target.y0 as i64) as u64 * image.width as u64 + (x as i64 - target.x0 as i64) as u64) as usize;
            let local = ((y as i64 - base_y as i64) * 16 + (x as i64 - base_x as i64)) as usize;
            proof {
                assert(ix == target_ix(old_image, target, x as int, y as int));
                assert(local == tile_ix(base_x as int, base_y as int, x as int, y as int));
            }
            let ghost before = image.pixels@;
            image.pixels.set(ix, tile[local]);
            proof {
                assert forall|px: int, py: int|
                    global.covers(px, py) && (py < y || (py == y && px < x + 1)) implies image.pixels@[#[trigger] target_ix(old_image, target, px, py)]
                        == tile@[tile_ix(base_x as int, base_y as int, px, py)] by {
                    if !(px == x && py == y) {
                        lemma_target_ix(old_image, target, global, base_x as int, base_y as int, px, py);
                        assert(target_ix(old_image, target, px, py) != ix as int);
                        assert(image.pixels@[target_ix(old_image, target, px, py)] == before[target_ix(old_image, target, px, py)]);
                    }
                }
            }
            x = x + 1;
        }
        y = y + 1;
    }
}

/// Distinct target pixels inside `global` have distinct image indices.
proof fn lemma_target_ix_injective(image: Image, target: Bounds, global: Bounds, base_x: int, base_y: int, x: int, y: int)
    requires
        tile_placed(image, target, global, base_x, base_y),
        global.covers(x, y),
    ensures
        forall|px: int, py: int|
            global.covers(px, py) && #[trigger] target_ix(image, target, px, py) == target_ix(image, target, x, y)
                ==> px == x && py == y,
{
    assert forall|px: int, py: int|
        global.covers(px, py) && #[trigger] target_ix(image, target, px, py) == target_ix(image, target, x, y)
            implies px == x && py == y by {
        let w = image.width as int;
        assert(w > 0);
        vstd::arithmetic::div_mod::lemma_fundamental_div_mod_converse(
            target_ix(image, target, x, y), w, y - target.y0, x - target.x0);
        vstd::arithmetic::div_mod::lemma_fundamental_div_mod_converse(
            target_ix(image, target, px, py), w, py - target.y0, px - target.x0);
    }
}

/// An opacity group is drawn back pixel by pixel: the group's pixel, scaled by its layer
/// coverage within the clip saved at the group's start and by its opacity, over the parent's
/// pixel. Where the saved clip is 0 the parent pixel is kept, and a fully covered, fully
/// opaque group over a fully kept pixel is drawn unscaled.
pub proof fn law_opacity_group_composite(
    parent: Seq<u32>,
    group: Seq<u32>,
    layer_alpha: Seq<u8>,
    parent_clip: Seq<u8>,
    opacity: u8,
    i: int,
)
    requires
        0 <= i < parent.len(),
    ensures
        ({
            let a = combined(combined(layer_alpha[i] as int, parent_clip[i] as int), opacity as int);
            &&& opacity_tile(parent, group, layer_alpha, parent_clip, opacity).len() == parent.len()
            &&& opacity_tile(parent, group, layer_alpha, parent_clip, opacity)[i] == if a == 0 {
                parent[i]
            } else {
                over(parent[i], scaled(group[i], a))
            }
        }),
        parent_clip[i] == 0 ==> opacity_tile(parent, group, layer_alpha, parent_clip, opacity)[i] == parent[i],
        layer_alpha[i] == 255 && parent_clip[i] == 255 && opacity == 255 ==> opacity_tile(
            parent,
            group,
            layer_alpha,
            parent_clip,
            opacity,
        )[i] == over(parent[i], scaled(group[i], 255)),
{
    assert(combined(layer_alpha[i] as int, 0) == 0);
    assert(combined(0, opacity as int) == 0);
    assert(combined(255, 255) == 255);
}

/// Replayed in a tile, an opacity group that paints `paint` is composited back under the clip
/// mask in force when it began: each pixel is the painted pixel, scaled by the group's
/// coverage within that clip and by its opacity, over the pixel the tile had before.
pub proof fn law_opacity_group_replay(s: FineView, alpha: Vec<u8>, opacity: u8, paint: Vec<u32>, i: int)
    requires
        fine_wf(s),
        alpha@.len() == TILE_PIXELS,
        paint@.len() == TILE_PIXELS,
        0 <= i < TILE_PIXELS,
    ensures
        ({
            let b = fine_step_spec(s, &FineEvent::BeginOpacity { alpha, opacity });
            let p = fine_step_spec(b, &FineEvent::Paint { tile: paint });
            let e = fine_step_spec(p, &FineEvent::EndOpacity);
            let a = combined(combined(alpha@[i] as int, s.clip[i] as int), opacity as int);
            &&& e.tile[i] == if a == 0 {
                s.tile[i]
            } else {
                over(s.tile[i], scaled(paint@[i], a))
            }
            &&& e.clip == s.clip
            &&& e.groups == s.groups
        }),
{
    let b = fine_step_spec(s, &FineEvent::BeginOpacity { alpha, opacity });
    let p = fine_step_spec(b, &FineEvent::Paint { tile: paint });
    assert(p.groups.last() == FrameView::Opacity { parent: s.tile, parent_clip: s.clip, layer_alpha: alpha@, opacity });
    assert(p.groups.drop_last() =~= s.groups);
    law_opacity_group_composite(s.tile, paint@, alpha@, s.clip, opacity, i);
}

/// A clip narrows the mask in force by its coverage, pixel by pixel, and saves the mask it
/// narrowed; nothing else changes.
pub proof fn law_clip_narrows_mask(s: FineView, alpha: Vec<u8>, i: int)
    requires
        fine_wf(s),
        alpha@.len() == TILE_PIXELS,
        0 <= i < TILE_PIXELS,
    ensures
        ({
            let b = fine_step_spec(s, &FineEvent::BeginClip { alpha });
            &&& b.clip[i] == combined(s.clip[i] as int, alpha@[i] as int)
            &&& b.clip[i] <= s.clip[i]
            &&& b.clips == s.clips.push(s.clip)
            &&& b.tile == s.tile
            &&& b.groups == s.groups
        }),
{
    lemma_combined_byte(s.clip[i] as int, alpha@[i] as int);
    assert(s.clip[i] * alpha@[i] <= s.clip[i] * 255) by (nonlinear_arith)
        requires
            alpha@[i] <= 255,
            s.clip[i] >= 0,
    ;
    vstd::arithmetic::div_mod::lemma_div_is_ordered(s.clip[i] * alpha@[i] + 127, s.clip[i] * 255 + 127, 255);
}

/// A solid colour is drawn over each pixel scaled by the clip coverage there: pixels the clip
/// hides and transparent colours leave the tile as it is.
pub proof fn law_color_under_clip(s: FineView, color: u32, i: int)
    requires
        fine_wf(s),
        0 <= i < TILE_PIXELS,
    ensures
        ({
            let c = fine_step_spec(s, &FineEvent::Color { color });
            &&& c.tile[i] == if channel(color, 3) == 0 || s.clip[i] == 0 {
                s.tile[i]
            } else {
                over(s.tile[i], scaled(color, s.clip[i] as int))
            }
            &&& c.clip == s.clip
            &&& c.groups == s.groups
        }),
{
}

/// A blend group ends with the caller's blend at every pixel where the group, scaled by its
/// coverage within the clip saved at its start, has a visible source, and with the parent's
/// pixel everywhere else.
pub proof fn law_blend_group_replay(s: FineView, alpha: Vec<u8>, mode: BlendMode, paint: Vec<u32>, blended: Vec<u32>, i: int)
    requires
        fine_wf(s),
        alpha@.len() == TILE_PIXELS,
        paint@.len() == TILE_PIXELS,
        blended@.len() == TILE_PIXELS,
        0 <= i < TILE_PIXELS,
    ensures
        ({
            let b = fine_step_spec(s, &FineEvent::BeginBlend { alpha, mode });
            let p = fine_step_spec(b, &FineEvent::Paint { tile: paint });
            let e = fine_step_spec(p, &FineEvent::EndBlend { blended });
            let a = combined(alpha@[i] as int, s.clip[i] as int);
            &&& e.tile[i] == if a != 0 && channel(scaled(paint@[i], a), 3) != 0 {
                blended@[i]
            } else {
                s.tile[i]
            }
            &&& e.groups == s.groups
            &&& e.clip == s.clip
        }),
{
    let b = fine_step_spec(s, &FineEvent::BeginBlend { alpha, mode });
    let p = fine_step_spec(b, &FineEvent::Paint { tile: paint });
    assert(p.groups.last() == FrameView::Blend { parent: s.tile, parent_clip: s.clip, layer_alpha: alpha@, mode });
    assert(p.groups.drop_last() =~= s.groups);
}

} // verus!
