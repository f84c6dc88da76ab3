//! Renumbering the integer records of a scene appended to another.
//!
//! A scene's lines, path records, draws and text runs refer to each other by index. When one
//! scene is appended to another, the appended records are copied after the existing ones and
//! every index they hold is moved past the records already there. Geometry (line points,
//! shapes, brushes, glyph positions) is translated by the caller.
//!
//! The appended paths then get their tiles: each path's pixel bounds (those of the draws that
//! fill it) give its tile box, whose tiles take the next slice of the backdrop pool, and its
//! segment capacity takes the next slice of the segment pool.
use vstd::prelude::*;
use crate::bounds::Bounds;
use crate::coarse::TileRect;
use crate::cumsum::PathRecord;

verus! {

/// Marks a draw reference that is not there (no path, no glyph run).
pub const NO_INDEX: u32 = 0xffff_ffff;

/// What a draw refers to: the path it fills and the text run it shows.
#[derive(Clone, Copy, Debug, PartialEq, Eq, Structural)]
pub struct DrawRefs {
    pub path_id: u32,
    pub glyph_run_id: u32,
}

/// A run of glyphs in the scene's glyph list.
#[derive(Clone, Copy, Debug, PartialEq, Eq, Structural)]
pub struct TextRun {
    pub glyph_start: u32,
    pub glyph_count: u32,
}

/// The index-bearing records of a scene: the path of each line, the path records, what each
/// draw refers to, the number of glyphs, the text runs, and the number of paths.
pub struct SceneData {
    pub line_paths: Vec<u32>,
    pub path_records: Vec<PathRecord>,
    pub draws: Vec<DrawRefs>,
    pub glyph_count: usize,
    pub text_runs: Vec<TextRun>,
    pub path_cnt: u32,
}

/// An appended path record: its path and first line moved by the offsets, its line count and
/// flags kept, and its tile and segment placement cleared for the scan to redo.
pub open spec fn remap_path_record(r: PathRecord, path_offset: u32, line_offset: u32) -> PathRecord {
    PathRecord {
        path_id: r.path_id.saturating_add(path_offset),
        line_start: r.line_start.saturating_add(line_offset),
        line_count: r.line_count,
        flags: r.flags,
        data_offset: 0,
        data_len: 0,
        tile_x0: 0,
        tile_y0: 0,
        tile_x1: 0,
        tile_y1: 0,
        segment_start: 0,
        segment_capacity: 0,
        segment_count: 0,
    }
}

/// A present reference moved by `offset`; an absent one kept absent.
pub open spec fn remap_ref(index: u32, offset: u32) -> u32 {
    if index == NO_INDEX {
        NO_INDEX
    } else {
        index.saturating_add(offset)
    }
}

pub open spec fn remap_draw(d: DrawRefs, path_offset: u32, run_offset: u32) -> DrawRefs {
    DrawRefs {
        path_id: remap_ref(d.path_id, path_offset),
        glyph_run_id: remap_ref(d.glyph_run_id, run_offset),
    }
}

pub open spec fn remap_run(r: TextRun, glyph_offset: u32) -> TextRun {
    TextRun { glyph_start: r.glyph_start.saturating_add(glyph_offset), glyph_count: r.glyph_count }
}

fn remap_ref_exec(index: u32, offset: u32) -> (r: u32)
    ensures
        r == remap_ref(index, offset),
{
    if index == NO_INDEX {
        NO_INDEX
    } else {
        index.saturating_add(offset)
    }
}

fn narrow(n: usize) -> (r: u32)
    ensures
        r == #[verifier::truncate] (n as u32),
{
    #[verifier::truncate]
    (n as u32)
}

fn extend_line_paths(dst: &mut Vec<u32>, src: &Vec<u32>, path_offset: u32)
    ensures
        final(dst)@ == old(dst)@ + src@.map_values(|p: u32| p.saturating_add(path_offset)),
{
    let mut i: usize = 0;
    while i < src.len()
        invariant
            i <= src@.len(),
            dst@ == old(dst)@ + src@.subrange(0, i as int).map_values(
                |p: u32| p.saturating_add(path_offset),
            ),
        decreases src.len() - i,
    {
        dst.push(src[i].saturating_add(path_offset));
        i = i + 1;
        proof {
            assert(dst@ =~= old(dst)@ + src@.subrange(0, i as int).map_values(
                |p: u32| p.saturating_add(path_offset),
            ));
        }
    }
    proof {
        assert(src@.subrange(0, src@.len() as int) =~= src@);
    }
}

fn extend_path_records(dst: &mut Vec<PathRecord>, src: &Vec<PathRecord>, path_offset: u32, line_offset: u32)
    ensures
        final(dst)@ == old(dst)@ + src@.map_values(
            |r: PathRecord| remap_path_record(r, path_offset, line_offset),
        ),
{
    let mut i: usize = 0;
    while i < src.len()
        invariant
            i <= src@.len(),
            dst@ == old(dst)@ + src@.subrange(0, i as int).map_values(
                |r: PathRecord| remap_path_record(r, path_offset, line_offset),
            ),
        decreases src.len() - i,
    {
        let r = src[i];
        dst.push(
            PathRecord {
                path_id: r.path_id.saturating_add(path_offset),
                line_start: r.line_start.saturating_add(line_offset),
                line_count: r.line_count,
                flags: r.flags,
                data_offset: 0,
                data_len: 0,
                tile_x0: 0,
                tile_y0: 0,
                tile_x1: 0,
                tile_y1: 0,
                segment_start: 0,
                segment_capacity: 0,
                segment_count: 0,
            },
        );
        i = i + 1;
        proof {
            assert(dst@ =~= old(dst)@ + src@.subrange(0, i as int).map_values(
                |r: PathRecord| remap_path_record(r, path_offset, line_offset),
            ));
        }
    }
    proof {
        assert(src@.subrange(0, src@.len() as int) =~= src@);
    }
}

fn extend_draws(dst: &mut Vec<DrawRefs>, src: &Vec<DrawRefs>, path_offset: u32, run_offset: u32)
    ensures
        final(dst)@ == old(dst)@ + src@.map_values(
            |d: DrawRefs| remap_draw(d, path_offset, run_offset),
        ),
{
    let mut i: usize = 0;
    while i < src.len()
        invariant
            i <= src@.len(),
            dst@ == old(dst)@ + src@.subrange(0, i as int).map_values(
                |d: DrawRefs| remap_draw(d, path_offset, run_offset),
            ),
        decreases src.len() - i,
    {
        let d = src[i];
        dst.push(
            DrawRefs {
                path_id: remap_ref_exec(d.path_id, path_offset),
                glyph_run_id: remap_ref_exec(d.glyph_run_id, run_offset),
            },
        );
        i = i + 1;
        proof {
            assert(dst@ =~= old(dst)@ + src@.subrange(0, i as int).map_values(
                |d: DrawRefs| remap_draw(d, path_offset, run_offset),
            ));
        }
    }
    proof {
        assert(src@.subrange(0, src@.len() as int) =~= src@);
    }
}

fn extend_text_runs(dst: &mut Vec<TextRun>, src: &Vec<TextRun>, glyph_offset: u32)
    ensures
        final(dst)@ == old(dst)@ + src@.map_values(|r: TextRun| remap_run(r, glyph_offset)),
{
    let mut i: usize = 0;
    while i < src.len()
        invariant
            i <= src@.len(),
            dst@ == old(dst)@ + src@.subrange(0, i as int).map_values(
                |r: TextRun| remap_run(r, glyph_offset),
            ),
        decreases src.len() - i,
    {
        let r = src[i];
        dst.push(
            TextRun { glyph_start: r.glyph_start.saturating_add(glyph_offset), glyph_count: r.glyph_count },
        );
        i = i + 1;
        proof {
            assert(dst@ =~= old(dst)@ + src@.subrange(0, i as int).map_values(
                |r: TextRun| remap_run(r, glyph_offset),
            ));
        }
    }
    proof {
        assert(src@.subrange(0, src@.len() as int) =~= src@);
    }
}

impl SceneData {
    /// Appends the records of `other` after those of `self`, moving the indices they hold past
    /// the records already here (saturating at `u32::MAX`), and returns the index of the
    /// first appended draw. Offsets are the counts before the append, taken modulo 2^32 as
    /// indices are 32-bit.
    pub fn append_scene_data(&mut self, other: &SceneData) -> (draw_offset: usize)
        requires
            old(self).glyph_count + other.glyph_count <= usize::MAX,
        ensures
            draw_offset == old(self).draws@.len(),
            ({
                let path_offset = old(self).path_cnt;
                let line_offset = #[verifier::truncate] (old(self).line_paths@.len() as u32);
                let glyph_offset = #[verifier::truncate] (old(self).glyph_count as u32);
                let run_offset = #[verifier::truncate] (old(self).text_runs@.len() as u32);
                &&& final(self).line_paths@ == old(self).line_paths@ + other.line_paths@.map_values(
                    |p: u32| p.saturating_add(path_offset),
                )
                &&& final(self).path_records@ == old(self).path_records@
                    + other.path_records@.map_values(
                    |r: PathRecord| remap_path_record(r, path_offset, line_offset),
                )
                &&& final(self).draws@ == old(self).draws@ + other.draws@.map_values(
                    |d: DrawRefs| remap_draw(d, path_offset, run_offset),
                )
                &&& final(self).glyph_count == old(self).glyph_count + other.glyph_count
                &&& final(self).text_runs@ == old(self).text_runs@ + other.text_runs@.map_values(
                    |r: TextRun| remap_run(r, glyph_offset),
                )
                &&& final(self).path_cnt == old(self).path_cnt.saturating_add(other.path_cnt)
            }),
    {
        let line_offset = narrow(self.line_paths.len());
        let path_offset = self.path_cnt;
        let draw_offset = self.draws.len();
        let glyph_offset = narrow(self.glyph_count);
        let run_offset = narrow(self.text_runs.len());

        extend_line_paths(&mut self.line_paths, &other.line_paths, path_offset);
        extend_path_records(&mut self.path_records, &other.path_records, path_offset, line_offset);
        extend_draws(&mut self.draws, &other.draws, path_offset, run_offset);
        self.glyph_count = self.glyph_count + other.glyph_count;
        extend_text_runs(&mut self.text_runs, &other.text_runs, glyph_offset);
        self.path_cnt = self.path_cnt.saturating_add(other.path_cnt);
        draw_offset
    }
}

/// The pixel bounds of a draw and the path it fills.
#[derive(Clone, Copy, Debug, PartialEq, Eq, Structural)]
pub struct DrawPathBounds {
    pub path_id: u32,
    pub bounds: Bounds,
}

/// The smallest rectangle holding both: the smaller starts and the larger ends.
pub open spec fn hull(a: Bounds, b: Bounds) -> Bounds {
    Bounds {
        x0: if a.x0 <= b.x0 { a.x0 } else { b.x0 },
        y0: if a.y0 <= b.y0 { a.y0 } else { b.y0 },
        x1: if a.x1 >= b.x1 { a.x1 } else { b.x1 },
        y1: if a.y1 >= b.y1 { a.y1 } else { b.y1 },
    }
}

/// The hull of the bounds of the first `n` draws that fill path `path_id`; none when no draw
/// fills it.
pub open spec fn path_bounds_spec(path_id: u32, draws: Seq<DrawPathBounds>, n: int) -> Option<Bounds>
    decreases n,
{
    if n <= 0 {
        None
    } else {
        let prior = path_bounds_spec(path_id, draws, n - 1);
        let d = draws[n - 1];
        if d.path_id != path_id {
            prior
        } else {
            match prior {
                None => Some(d.bounds),
                Some(p) => Some(hull(p, d.bounds)),
            }
        }
    }
}

/// The hull of the pixel bounds of the draws that fill path `path_id`, in draw order; `None`
/// when no draw fills it (its own line bounds are then used).
pub fn path_draw_bounds(path_id: u32, draws: &[DrawPathBounds]) -> (r: Option<Bounds>)
    ensures
        r == path_bounds_spec(path_id, draws@, draws@.len() as int),
{
    let mut r: Option<Bounds> = None;
    let mut i: usize = 0;
    while i < draws.len()
        invariant
            i <= draws@.len(),
            r == path_bounds_spec(path_id, draws@, i as int),
        decreases draws.len() - i,
    {
        let d = draws[i];
        if d.path_id == path_id {
            r = match r {
                None => Some(d.bounds),
                Some(p) => Some(
                    Bounds {
                        x0: if p.x0 <= d.bounds.x0 { p.x0 } else { d.bounds.x0 },
                        y0: if p.y0 <= d.bounds.y0 { p.y0 } else { d.bounds.y0 },
                        x1: if p.x1 >= d.bounds.x1 { p.x1 } else { d.bounds.x1 },
                        y1: if p.y1 >= d.bounds.y1 { p.y1 } else { d.bounds.y1 },
                    },
                ),
            };
        }
        i = i + 1;
    }
    r
}

/// Tiles of a tile box.
pub open spec fn box_tiles(b: TileRect) -> int {
    (b.x1 - b.x0) * (b.y1 - b.y0)
}

/// A tile box is well formed and its tile count fits 32 bits.
pub open spec fn box_ok(b: TileRect) -> bool {
    b.x0 <= b.x1 && b.y0 <= b.y1 && box_tiles(b) <= u32::MAX
}

pub open spec fn sat_u32(v: int) -> u32 {
    if v > u32::MAX {
        u32::MAX
    } else {
        v as u32
    }
}

/// Segment capacity of a transformed path: each line may visit every row and column of its
/// tile box (`line_count * (width + height)`, saturating).
pub open spec fn transformed_capacity_spec(line_count: u32, b: TileRect) -> u32 {
    sat_u32(line_count * sat_u32((b.x1 - b.x0) + (b.y1 - b.y0)))
}

pub fn transformed_segment_capacity(line_count: u32, b: TileRect) -> (c: u32)
    requires
        box_ok(b),
    ensures
        c == transformed_capacity_spec(line_count, b),
{
    let span = (b.x1 - b.x0).saturating_add(b.y1 - b.y0);
    match line_count.checked_mul(span) {
        Some(c) => c,
        None => u32::MAX,
    }
}

/// Saturating sum of the first `n` counts.
pub open spec fn saturating_sum_spec(counts: Seq<u32>, n: int) -> u32
    decreases n,
{
    if n <= 0 {
        0
    } else {
        sat_u32(saturating_sum_spec(counts, n - 1) + counts[n - 1])
    }
}

/// Segment capacity of an untransformed path: the tiles each of its lines visits, summed
/// saturating.
pub fn saturating_sum(counts: &[u32]) -> (c: u32)
    ensures
        c == saturating_sum_spec(counts@, counts@.len() as int),
{
    let mut c: u32 = 0;
    let mut i: usize = 0;
    while i < counts.len()
        invariant
            i <= counts@.len(),
            c == saturating_sum_spec(counts@, i as int),
        decreases counts.len() - i,
    {
        c = c.saturating_add(counts[i]);
        i = i + 1;
    }
    c
}

/// Backdrop and segment pool positions after allocating the first `n` paths.
pub open spec fn pool_after(boxes: Seq<TileRect>, caps: Seq<u32>, data_offset: u32, segment_start: u32, n: int) -> (u32, u32)
    decreases n,
{
    if n <= 0 {
        (data_offset, segment_start)
    } else {
        let p = pool_after(boxes, caps, data_offset, segment_start, n - 1);
        (sat_u32(p.0 + box_tiles(boxes[n - 1])), sat_u32(p.1 + caps[n - 1]))
    }
}

/// A path record given tile box `b`, capacity `cap`, and the pool positions `pos`.
pub open spec fn allocated(r: PathRecord, b: TileRect, cap: u32, pos: (u32, u32)) -> PathRecord {
    PathRecord {
        data_offset: pos.0,
        data_len: box_tiles(b) as u32,
        tile_x0: b.x0,
        tile_y0: b.y0,
        tile_x1: b.x1,
        tile_y1: b.y1,
        segment_start: pos.1,
        segment_capacity: cap,
        segment_count: 0,
        ..r
    }
}

/// Gives the path records `start..start + boxes.len()` their tiles: record `i` takes tile box
/// `boxes[i]`, the next `box_tiles` backdrops of the pool from `data_offset` and the next
/// `capacities[i]` segments from `segment_start`, both advancing saturating. Returns where the
/// two pools end.
pub fn allocate_path_tiles(
    records: &mut Vec<PathRecord>,
    start: usize,
    boxes: &[TileRect],
    capacities: &[u32],
    data_offset: u32,
    segment_start: u32,
) -> (next: (u32, u32))
    requires
        start + boxes@.len() <= old(records)@.len(),
        capacities@.len() == boxes@.len(),
        forall|i: int| 0 <= i < boxes@.len() ==> box_ok(#[trigger] boxes@[i]),
    ensures
        final(records)@.len() == old(records)@.len(),
        forall|i: int|
            0 <= i < old(records)@.len() && !(start <= i < start + boxes@.len()) ==> #[trigger] final(records)@[i]
                == old(records)@[i],
        forall|i: int|
            0 <= i < boxes@.len() ==> #[trigger] final(records)@[start + i] == allocated(
                old(records)@[start + i],
                boxes@[i],
                capacities@[i],
                pool_after(boxes@, capacities@, data_offset, segment_start, i),
            ),
        next == pool_after(boxes@, capacities@, data_offset, segment_start, boxes@.len() as int),
{
    let mut pos_data = data_offset;
    let mut pos_segment = segment_start;
    let total = records.len();
    let mut i: usize = 0;
    while i < boxes.len()
        invariant
            i <= boxes@.len(),
            total == records@.len(),
            start + boxes@.len() <= old(records)@.len(),
            capacities@.len() == boxes@.len(),
            forall|j: int| 0 <= j < boxes@.len() ==> box_ok(#[trigger] boxes@[j]),
            records@.len() == old(records)@.len(),
            (pos_data, pos_segment) == pool_after(boxes@, capacities@, data_offset, segment_start, i as int),
            forall|j: int|
                0 <= j < old(records)@.len() && !(start <= j < start + i) ==> #[trigger] records@[j]
                    == old(records)@[j],
            forall|j: int|
                0 <= j < i ==> #[trigger] records@[start + j] == allocated(
                    old(records)@[start + j],
                    boxes@[j],
                    capacities@[j],
                    pool_after(boxes@, capacities@, data_offset, segment_start, j),
                ),
        decreases boxes.len() - i,
    {
        let b = boxes[i];
        proof {
            assert(box_ok(boxes@[i as int]));
        }
        let data_len = (b.x1 - b.x0) * (b.y1 - b.y0);
        let mut r = records[start + i];
        r.data_offset = pos_data;
        r.data_len = data_len;
        r.tile_x0 = b.x0;
        r.tile_y0 = b.y0;
        r.tile_x1 = b.x1;
        r.tile_y1 = b.y1;
        r.segment_start = pos_segment;
        r.segment_capacity = capacities[i];
        r.segment_count = 0;
        records.set(start + i, r);
        pos_data = pos_data.saturating_add(data_len);
        pos_segment = pos_segment.saturating_add(capacities[i]);
        i = i + 1;
    }
    (pos_data, pos_segment)
}

} // verus!
