//! Per-path scan bookkeeping: backdrop winding deltas, per-tile segment counts, segment
//! ranges and the slot each clipped segment goes to.
//!
//! For each line of a path the caller plans, in floating point, the tile rows whose backdrop
//! its winding changes and the tiles it crosses. From those plans this module accumulates
//! the path's backdrops (one delta at the start of each row, and a bump right of every tile
//! whose top edge the line crosses), counts the segments of each tile, lays the tiles'
//! segment ranges out from the path's first segment, and hands each segment its slot.
use vstd::prelude::*;
use crate::cumsum::PathRecord;
use crate::tiles::{local_tile_index, local_tile_ix, ranges_from, sum_u32, fill_ranges_from_counts, TileSegmentRange};

verus! {

/// The rows a line's winding changes, `ymin..ymax` in tile rows, and by how much.
#[derive(Clone, Copy, Debug, PartialEq, Eq, Structural)]
pub struct ScanPlan {
    pub ymin: i32,
    pub ymax: i32,
    pub delta: i32,
}

/// A tile a line crosses: its column and row, its index in the scene's tile grid, and whether
/// the line crosses its top edge.
#[derive(Clone, Copy, Debug, PartialEq, Eq, Structural)]
pub struct ScannedTile {
    pub x: i32,
    pub y: i32,
    pub global_ix: u32,
    pub top_edge: bool,
}

/// A line of the path as the scan sees it: its plan, when it reaches the path's tiles at all,
/// and the tiles it crosses, in order.
pub struct ScanLine {
    pub plan: Option<ScanPlan>,
    pub tiles: Vec<ScannedTile>,
}

/// Backdrops and segment counts of a path's tiles, row-major over its tile rectangle.
#[verifier::ext_equal]
pub struct ScanAcc {
    pub backdrops: Seq<i32>,
    pub counts: Seq<u32>,
}

pub open spec fn tile_stride(r: PathRecord) -> int {
    r.tile_x1 - r.tile_x0
}

/// The tile rectangle is well formed, fits 32-bit signed coordinates, and has one backdrop
/// per tile.
pub open spec fn record_ok(r: PathRecord) -> bool {
    &&& r.tile_x0 <= r.tile_x1 <= i32::MAX
    &&& r.tile_y0 <= r.tile_y1 <= i32::MAX
    &&& tile_stride(r) * (r.tile_y1 - r.tile_y0) == r.data_len
}

pub open spec fn row_count(p: ScanPlan) -> int {
    if p.ymax > p.ymin {
        p.ymax - p.ymin
    } else {
        0
    }
}

/// First tile of row `y` of the path.
pub open spec fn row_ix(r: PathRecord, y: int) -> int {
    (y - r.tile_y0) * tile_stride(r)
}

/// The tile right of `t` whose backdrop a crossing of `t`'s top edge bumps, clamped to the
/// path's first column; none when there is no tile right of it.
pub open spec fn bump_ix(r: PathRecord, t: ScannedTile) -> Option<int> {
    if t.top_edge && t.x + 1 < r.tile_x1 {
        let x = if t.x + 1 > r.tile_x0 { t.x + 1 } else { r.tile_x0 as int };
        Some((t.y - r.tile_y0) * tile_stride(r) + x - r.tile_x0)
    } else {
        None
    }
}

pub open spec fn count_ix(r: PathRecord, t: ScannedTile, width: u32) -> int {
    local_tile_index(r, (t.global_ix % width) as int, (t.global_ix / width) as int)
}

/// The plans and tiles of every line lie inside the path's tile rectangle.
pub open spec fn line_ok(r: PathRecord, line: ScanLine, width: u32) -> bool {
    match line.plan {
        None => true,
        Some(p) => {
            &&& row_count(p) > 0 ==> r.tile_y0 <= p.ymin && p.ymax <= r.tile_y1
            &&& forall|i: int|
                0 <= i < line.tiles@.len() ==> {
                    let t = #[trigger] line.tiles@[i];
                    &&& r.tile_y0 <= t.y < r.tile_y1
                    &&& t.x < i32::MAX
                    &&& r.tile_x0 <= t.global_ix % width < r.tile_x1
                    &&& r.tile_y0 <= t.global_ix / width < r.tile_y1
                }
        },
    }
}

pub open spec fn lines_ok(r: PathRecord, lines: Seq<ScanLine>, width: u32) -> bool {
    forall|i: int| 0 <= i < lines.len() ==> line_ok(r, #[trigger] lines[i], width)
}

/// `s` with `delta` added at `ix`, when `ix` is one of its indices.
pub open spec fn add_at(s: Seq<i32>, ix: int, delta: i32) -> Seq<i32> {
    if 0 <= ix < s.len() {
        s.update(ix, (s[ix] + delta) as i32)
    } else {
        s
    }
}

/// `s` with one more at `ix`, when `ix` is one of its indices.
pub open spec fn bump_count(s: Seq<u32>, ix: int) -> Seq<u32> {
    if 0 <= ix < s.len() {
        s.update(ix, (s[ix] + 1) as u32)
    } else {
        s
    }
}

/// After the first `k` rows of plan `p`.
pub open spec fn rows_acc(a: ScanAcc, r: PathRecord, p: ScanPlan, k: int) -> ScanAcc
    decreases k,
{
    if k <= 0 {
        a
    } else {
        let prior = rows_acc(a, r, p, k - 1);
        ScanAcc { backdrops: add_at(prior.backdrops, row_ix(r, p.ymin + k - 1), p.delta), counts: prior.counts }
    }
}

pub open spec fn fits_i32(v: int) -> bool {
    i32::MIN <= v <= i32::MAX
}

/// No row delta of the first `k` overflows.
pub open spec fn rows_fit(a: ScanAcc, r: PathRecord, p: ScanPlan, k: int) -> bool
    decreases k,
{
    k <= 0 || (rows_fit(a, r, p, k - 1) && fits_i32(
        rows_acc(a, r, p, k - 1).backdrops[row_ix(r, p.ymin + k - 1)] + p.delta,
    ))
}

/// After one crossed tile: its top-edge bump, then one more segment in its count.
pub open spec fn tile_acc(a: ScanAcc, r: PathRecord, t: ScannedTile, delta: i32, width: u32) -> ScanAcc {
    let b = match bump_ix(r, t) {
        Some(ix) => add_at(a.backdrops, ix, delta),
        None => a.backdrops,
    };
    let c = count_ix(r, t, width);
    ScanAcc { backdrops: b, counts: bump_count(a.counts, c) }
}

pub open spec fn tile_fit(a: ScanAcc, r: PathRecord, t: ScannedTile, delta: i32, width: u32) -> bool {
    &&& bump_ix(r, t) is Some ==> fits_i32(a.backdrops[bump_ix(r, t)->0] + delta)
    &&& a.counts[count_ix(r, t, width)] + 1 <= u32::MAX
}

pub open spec fn tiles_acc(a: ScanAcc, r: PathRecord, tiles: Seq<ScannedTile>, delta: i32, width: u32, k: int) -> ScanAcc
    decreases k,
{
    if k <= 0 {
        a
    } else {
        tile_acc(tiles_acc(a, r, tiles, delta, width, k - 1), r, tiles[k - 1], delta, width)
    }
}

pub open spec fn tiles_fit(a: ScanAcc, r: PathRecord, tiles: Seq<ScannedTile>, delta: i32, width: u32, k: int) -> bool
    decreases k,
{
    k <= 0 || (tiles_fit(a, r, tiles, delta, width, k - 1) && tile_fit(
        tiles_acc(a, r, tiles, delta, width, k - 1),
        r,
        tiles[k - 1],
        delta,
        width,
    ))
}

pub open spec fn line_acc(a: ScanAcc, r: PathRecord, line: ScanLine, width: u32) -> ScanAcc {
    match line.plan {
        None => a,
        Some(p) => tiles_acc(rows_acc(a, r, p, row_count(p)), r, line.tiles@, p.delta, width, line.tiles@.len() as int),
    }
}

pub open spec fn line_fit(a: ScanAcc, r: PathRecord, line: ScanLine, width: u32) -> bool {
    match line.plan {
        None => true,
        Some(p) => rows_fit(a, r, p, row_count(p)) && tiles_fit(
            rows_acc(a, r, p, row_count(p)),
            r,
            line.tiles@,
            p.delta,
            width,
            line.tiles@.len() as int,
        ),
    }
}

pub open spec fn zero_acc(n: nat) -> ScanAcc {
    ScanAcc { backdrops: Seq::new(n, |i: int| 0i32), counts: Seq::new(n, |i: int| 0u32) }
}

/// Backdrops and counts after the first `k` lines, from zero.
pub open spec fn lines_acc(r: PathRecord, lines: Seq<ScanLine>, width: u32, k: int) -> ScanAcc
    decreases k,
{
    if k <= 0 {
        zero_acc(r.data_len as nat)
    } else {
        line_acc(lines_acc(r, lines, width, k - 1), r, lines[k - 1], width)
    }
}

/// No backdrop or count overflows along the way.
pub open spec fn lines_fit(r: PathRecord, lines: Seq<ScanLine>, width: u32, k: int) -> bool
    decreases k,
{
    k <= 0 || (lines_fit(r, lines, width, k - 1) && line_fit(
        lines_acc(r, lines, width, k - 1),
        r,
        lines[k - 1],
        width,
    ))
}

/// The scan of a whole path.
pub open spec fn scan_spec(r: PathRecord, lines: Seq<ScanLine>, width: u32) -> ScanAcc {
    lines_acc(r, lines, width, lines.len() as int)
}

proof fn lemma_rows_len(a: ScanAcc, r: PathRecord, p: ScanPlan, k: int)
    ensures
        rows_acc(a, r, p, k).backdrops.len() == a.backdrops.len(),
        rows_acc(a, r, p, k).counts == a.counts,
    decreases k,
{
    if k > 0 {
        lemma_rows_len(a, r, p, k - 1);
    }
}

proof fn lemma_tiles_len(a: ScanAcc, r: PathRecord, tiles: Seq<ScannedTile>, delta: i32, width: u32, k: int)
    ensures
        tiles_acc(a, r, tiles, delta, width, k).backdrops.len() == a.backdrops.len(),
        tiles_acc(a, r, tiles, delta, width, k).counts.len() == a.counts.len(),
    decreases k,
{
    if k > 0 {
        lemma_tiles_len(a, r, tiles, delta, width, k - 1);
    }
}

proof fn lemma_lines_len(r: PathRecord, lines: Seq<ScanLine>, width: u32, k: int)
    ensures
        lines_acc(r, lines, width, k).backdrops.len() == r.data_len,
        lines_acc(r, lines, width, k).counts.len() == r.data_len,
    decreases k,
{
    if k > 0 {
        let prior = lines_acc(r, lines, width, k - 1);
        lemma_lines_len(r, lines, width, k - 1);
        match lines[k - 1].plan {
            None => {},
            Some(p) => {
                lemma_rows_len(prior, r, p, row_count(p));
                lemma_tiles_len(rows_acc(prior, r, p, row_count(p)), r, lines[k - 1].tiles@, p.delta, width, lines[k - 1].tiles@.len() as int);
            },
        }
    }
}

proof fn lemma_lines_fit_prefix(r: PathRecord, lines: Seq<ScanLine>, width: u32, j: int, k: int)
    requires
        0 <= j <= k,
        lines_fit(r, lines, width, k),
    ensures
        lines_fit(r, lines, width, j),
    decreases k - j,
{
    if j < k {
        lemma_lines_fit_prefix(r, lines, width, j, k - 1);
    }
}

proof fn lemma_rows_fit_prefix(a: ScanAcc, r: PathRecord, p: ScanPlan, j: int, k: int)
    requires
        0 <= j <= k,
        rows_fit(a, r, p, k),
    ensures
        rows_fit(a, r, p, j),
    decreases k - j,
{
    if j < k {
        lemma_rows_fit_prefix(a, r, p, j, k - 1);
    }
}

proof fn lemma_tiles_fit_prefix(a: ScanAcc, r: PathRecord, tiles: Seq<ScannedTile>, delta: i32, width: u32, j: int, k: int)
    requires
        0 <= j <= k,
        tiles_fit(a, r, tiles, delta, width, k),
    ensures
        tiles_fit(a, r, tiles, delta, width, j),
    decreases k - j,
{
    if j < k {
        lemma_tiles_fit_prefix(a, r, tiles, delta, width, j, k - 1);
    }
}

pub open spec fn acc_of(backdrops: Seq<i32>, counts: Seq<u32>) -> ScanAcc {
    ScanAcc { backdrops, counts }
}

proof fn lemma_row_in_window(r: PathRecord, y: int)
    requires
        record_ok(r),
        r.tile_y0 <= y < r.tile_y1,
    ensures
        0 <= row_ix(r, y),
        tile_stride(r) > 0 ==> row_ix(r, y) + tile_stride(r) <= r.data_len,
{
    assert(0 <= (y - r.tile_y0) * tile_stride(r)) by (nonlinear_arith)
        requires
            y >= r.tile_y0,
            tile_stride(r) >= 0,
    ;
    assert((y - r.tile_y0) * tile_stride(r) + tile_stride(r) <= (r.tile_y1 - r.tile_y0) * tile_stride(r)) by (nonlinear_arith)
        requires
            y < r.tile_y1,
            tile_stride(r) >= 0,
    ;
}

fn add_rows(backdrops: &mut [i32], counts: &[u32], record: &PathRecord, p: ScanPlan, Ghost(a): Ghost<ScanAcc>)
    requires
        record_ok(*record),
        record.data_len > 0,
        old(backdrops)@.len() == record.data_len,
        acc_of(old(backdrops)@, counts@) == a,
        row_count(p) > 0 ==> record.tile_y0 <= p.ymin && p.ymax <= record.tile_y1,
        rows_fit(a, *record, p, row_count(p)),
    ensures
        acc_of(final(backdrops)@, counts@) == rows_acc(a, *record, p, row_count(p)),
{
    if p.ymax <= p.ymin {
        return;
    }
    let stride: i64 = record.tile_x1 as i64 - record.tile_x0 as i64;
    proof {
        assert(stride > 0) by (nonlinear_arith)
            requires
                stride * (record.tile_y1 - record.tile_y0) == record.data_len,
                record.data_len > 0,
                stride >= 0,
        ;
    }
    let mut y: i32 = p.ymin;
    while y < p.ymax
        invariant
            p.ymin <= y <= p.ymax,
            record_ok(*record),
            stride == tile_stride(*record),
            stride > 0,
            record.tile_y0 <= p.ymin,
            p.ymax <= record.tile_y1,
            backdrops@.len() == record.data_len,
            rows_fit(a, *record, p, row_count(p)),
            acc_of(backdrops@, counts@) == rows_acc(a, *record, p, y - p.ymin),
        decreases p.ymax - y,
    {
        let ghost k: int = y - p.ymin + 1;
        proof {
            lemma_row_in_window(*record, y as int);
            lemma_rows_fit_prefix(a, *record, p, k, row_count(p));
            lemma_rows_len(a, *record, p, k - 1);
        }
        let ix = ((y as i64 - record.tile_y0 as i64) * stride) as usize;
        backdrops[ix] = backdrops[ix] + p.delta;
        y = y + 1;
    }
}

fn add_tiles(
    backdrops: &mut [i32],
    counts: &mut [u32],
    record: &PathRecord,
    tiles: &Vec<ScannedTile>,
    delta: i32,
    tiles_width: u32,
    Ghost(a): Ghost<ScanAcc>,
)
    requires
        record_ok(*record),
        record.data_len > 0,
        tiles_width > 0,
        old(backdrops)@.len() == record.data_len,
        old(counts)@.len() == record.data_len,
        acc_of(old(backdrops)@, old(counts)@) == a,
        forall|i: int|
            0 <= i < tiles@.len() ==> {
                let t = #[trigger] tiles@[i];
                &&& record.tile_y0 <= t.y < record.tile_y1
                &&& t.x < i32::MAX
                &&& record.tile_x0 <= t.global_ix % tiles_width < record.tile_x1
                &&& record.tile_y0 <= t.global_ix / tiles_width < record.tile_y1
            },
        tiles_fit(a, *record, tiles@, delta, tiles_width, tiles@.len() as int),
    ensures
        acc_of(final(backdrops)@, final(counts)@) == tiles_acc(a, *record, tiles@, delta, tiles_width, tiles@.len() as int),
{
    let stride: i64 = record.tile_x1 as i64 - record.tile_x0 as i64;
    proof {
        assert(stride > 0) by (nonlinear_arith)
            requires
                stride * (record.tile_y1 - record.tile_y0) == record.data_len,
                record.data_len > 0,
                stride >= 0,
        ;
    }
    let mut k: usize = 0;
    while k < tiles.len()
        invariant
            k <= tiles@.len(),
            record_ok(*record),
            record.data_len > 0,
            tiles_width > 0,
            stride == tile_stride(*record),
            stride > 0,
            backdrops@.len() == record.data_len,
            counts@.len() == record.data_len,
            forall|i: int|
                0 <= i < tiles@.len() ==> {
                    let t = #[trigger] tiles@[i];
                    &&& record.tile_y0 <= t.y < record.tile_y1
                    &&& t.x < i32::MAX
                    &&& record.tile_x0 <= t.global_ix % tiles_width < record.tile_x1
                    &&& record.tile_y0 <= t.global_ix / tiles_width < record.tile_y1
                },
            tiles_fit(a, *record, tiles@, delta, tiles_width, tiles@.len() as int),
            acc_of(backdrops@, counts@) == tiles_acc(a, *record, tiles@, delta, tiles_width, k as int),
        decreases tiles.len() - k,
    {
        let t = tiles[k];
        proof {
            lemma_tiles_fit_prefix(a, *record, tiles@, delta, tiles_width, k + 1, tiles@.len() as int);
            lemma_row_in_window(*record, t.y as int);
        }
        if t.top_edge && (t.x as i64) + 1 < record.tile_x1 as i64 {
            let next_x = t.x as i64 + 1;
            let x_bump: i64 = if next_x > record.tile_x0 as i64 { next_x } else { record.tile_x0 as i64 };
            let ix = ((t.y as i64 - record.tile_y0 as i64) * stride + x_bump - record.tile_x0 as i64) as usize;
            backdrops[ix] = backdrops[ix] + delta;
        }
        let c = local_tile_ix(record, t.global_ix, tiles_width);
        counts[c] = counts[c] + 1;
        k = k + 1;
    }
}

/// Scans one path over its own window of the backdrop, count and range buffers.
///
/// A path without tiles is left alone (`None`). Otherwise the backdrops start from zero and
/// take each line's delta at the first tile of every row it spans and at the tile right of
/// every tile whose top edge it crosses; each tile counts the lines that cross it; the tiles'
/// segment ranges are laid out from the path's first segment in tile order; and the number
/// of segments is returned.
pub fn scan_record(
    record: &PathRecord,
    lines: &Vec<ScanLine>,
    tiles_width: u32,
    backdrops: &mut [i32],
    counts: &mut [u32],
    ranges: &mut [TileSegmentRange],
) -> (segment_count: Option<u32>)
    requires
        old(backdrops)@.len() == record.data_len,
        old(counts)@.len() == record.data_len,
        old(ranges)@.len() == record.data_len,
        record.data_len > 0 ==> {
            &&& record_ok(*record)
            &&& tiles_width > 0
            &&& lines_ok(*record, lines@, tiles_width)
            &&& lines_fit(*record, lines@, tiles_width, lines@.len() as int)
            &&& record.segment_start + sum_u32(scan_spec(*record, lines@, tiles_width).counts)
                <= u32::MAX
        },
    ensures
        record.data_len == 0 ==> segment_count is None,
        record.data_len > 0 ==> {
            let s = scan_spec(*record, lines@, tiles_width);
            &&& final(backdrops)@ == s.backdrops
            &&& final(counts)@ == s.counts
            &&& ranges_from(s.counts, record.segment_start as int, final(ranges)@)
            &&& segment_count == Some(sum_u32(s.counts) as u32)
        },
{
    if record.data_len == 0 {
        return None;
    }
    let n = record.data_len as usize;
    let mut i: usize = 0;
    while i < n
        invariant
            n == record.data_len,
            i <= n,
            backdrops@.len() == n,
            counts@.len() == n,
            forall|j: int| 0 <= j < i ==> backdrops@[j] == 0i32 && counts@[j] == 0u32,
        decreases n - i,
    {
        backdrops[i] = 0;
        counts[i] = 0;
        i = i + 1;
    }
    proof {
        assert(backdrops@ =~= zero_acc(record.data_len as nat).backdrops);
        assert(counts@ =~= zero_acc(record.data_len as nat).counts);
        assert(acc_of(backdrops@, counts@) =~= lines_acc(*record, lines@, tiles_width, 0));
    }
    let mut l: usize = 0;
    while l < lines.len()
        invariant
            l <= lines@.len(),
            record.data_len > 0,
            record_ok(*record),
            tiles_width > 0,
            lines_ok(*record, lines@, tiles_width),
            lines_fit(*record, lines@, tiles_width, lines@.len() as int),
            backdrops@.len() == record.data_len,
            counts@.len() == record.data_len,
            acc_of(backdrops@, counts@) == lines_acc(*record, lines@, tiles_width, l as int),
        decreases lines.len() - l,
    {
        let line = &lines[l];
        let ghost a = lines_acc(*record, lines@, tiles_width, l as int);
        proof {
            lemma_lines_fit_prefix(*record, lines@, tiles_width, l + 1, lines@.len() as int);
            assert(line_ok(*record, lines@[l as int], tiles_width));
        }
        match line.plan {
            None => {},
            Some(p) => {
                add_rows(backdrops, counts, record, p, Ghost(a));
                proof {
                    lemma_rows_len(a, *record, p, row_count(p));
                }
                add_tiles(backdrops, counts, record, &line.tiles, p.delta, tiles_width, Ghost(rows_acc(a, *record, p, row_count(p))));
                proof {
                    lemma_tiles_len(rows_acc(a, *record, p, row_count(p)), *record, line.tiles@, p.delta, tiles_width, line.tiles@.len() as int);
                }
            },
        }
        l = l + 1;
    }
    fill_ranges_from_counts(ranges, counts, record.segment_start);
    let last = ranges[n - 1];
    proof {
        assert(counts@.subrange(0, n as int) =~= counts@);
        assert(last.end == record.segment_start + sum_u32(counts@.subrange(0, n as int)));
        crate::tiles::lemma_prefix_sum_bounded(counts@, 0);
        assert(counts@.subrange(0, 0) =~= Seq::<u32>::empty());
        assert(ranges@[0].start == record.segment_start + sum_u32(counts@.subrange(0, 0)));
    }
    Some(last.end - record.segment_start)
}

/// Every count of `a` is at most the same count of `b`.
pub open spec fn counts_le(a: Seq<u32>, b: Seq<u32>) -> bool {
    &&& a.len() == b.len()
    &&& forall|i: int| 0 <= i < a.len() ==> a[i] <= b[i]
}

proof fn lemma_tile_counts_grow(a: ScanAcc, r: PathRecord, t: ScannedTile, delta: i32, width: u32)
    requires
        tile_fit(a, r, t, delta, width),
    ensures
        counts_le(a.counts, tile_acc(a, r, t, delta, width).counts),
        ({
            let c = count_ix(r, t, width);
            0 <= c < a.counts.len() ==> tile_acc(a, r, t, delta, width).counts[c] == a.counts[c] + 1
        }),
{
}

proof fn lemma_tiles_counts_grow(a: ScanAcc, r: PathRecord, tiles: Seq<ScannedTile>, delta: i32, width: u32, j: int, k: int)
    requires
        0 <= j <= k,
        tiles_fit(a, r, tiles, delta, width, k),
    ensures
        counts_le(tiles_acc(a, r, tiles, delta, width, j).counts, tiles_acc(a, r, tiles, delta, width, k).counts),
    decreases k - j,
{
    if j < k {
        lemma_tiles_counts_grow(a, r, tiles, delta, width, j, k - 1);
        lemma_tile_counts_grow(tiles_acc(a, r, tiles, delta, width, k - 1), r, tiles[k - 1], delta, width);
    }
}

proof fn lemma_line_counts_grow(a: ScanAcc, r: PathRecord, line: ScanLine, width: u32)
    requires
        line_fit(a, r, line, width),
    ensures
        counts_le(a.counts, line_acc(a, r, line, width).counts),
{
    match line.plan {
        None => {},
        Some(p) => {
            lemma_rows_len(a, r, p, row_count(p));
            lemma_tiles_counts_grow(rows_acc(a, r, p, row_count(p)), r, line.tiles@, p.delta, width, 0, line.tiles@.len() as int);
        },
    }
}

proof fn lemma_lines_counts_grow(r: PathRecord, lines: Seq<ScanLine>, width: u32, j: int, k: int)
    requires
        0 <= j <= k,
        lines_fit(r, lines, width, k),
    ensures
        counts_le(lines_acc(r, lines, width, j).counts, lines_acc(r, lines, width, k).counts),
    decreases k - j,
{
    lemma_lines_len(r, lines, width, j);
    if j < k {
        lemma_lines_counts_grow(r, lines, width, j, k - 1);
        lemma_line_counts_grow(lines_acc(r, lines, width, k - 1), r, lines[k - 1], width);
    }
}

/// The state of the scan when tile `k` of line `l` is reached.
pub open spec fn acc_at(r: PathRecord, lines: Seq<ScanLine>, width: u32, l: int, k: int) -> ScanAcc {
    let a = lines_acc(r, lines, width, l);
    match lines[l].plan {
        None => a,
        Some(p) => tiles_acc(rows_acc(a, r, p, row_count(p)), r, lines[l].tiles@, p.delta, width, k),
    }
}

/// The slot of tile `k` of line `l`: its tile's first segment plus the segments that tile
/// already had.
pub open spec fn slot_spec(r: PathRecord, lines: Seq<ScanLine>, width: u32, ranges: Seq<TileSegmentRange>, l: int, k: int) -> u32 {
    let c = count_ix(r, lines[l].tiles@[k], width);
    (ranges[c].start + acc_at(r, lines, width, l, k).counts[c]) as u32
}

/// The slots of every line's segments, in the order the lines cross their tiles.
pub open spec fn slots_spec(r: PathRecord, lines: Seq<ScanLine>, width: u32, ranges: Seq<TileSegmentRange>) -> Seq<Seq<u32>> {
    Seq::new(
        lines.len(),
        |l: int|
            if lines[l].plan is Some {
                Seq::new(lines[l].tiles@.len(), |k: int| slot_spec(r, lines, width, ranges, l, k))
            } else {
                Seq::empty()
            },
    )
}

/// The preconditions of the scan of a path with tiles.
pub open spec fn scan_ok(r: PathRecord, lines: Seq<ScanLine>, width: u32) -> bool {
    &&& r.data_len > 0
    &&& record_ok(r)
    &&& width > 0
    &&& lines_ok(r, lines, width)
    &&& lines_fit(r, lines, width, lines.len() as int)
    &&& r.segment_start + sum_u32(scan_spec(r, lines, width).counts) <= u32::MAX
}

/// Tile `k` of line `l` has, before it, fewer segments than its final count.
proof fn lemma_count_before_final(r: PathRecord, lines: Seq<ScanLine>, width: u32, l: int, k: int)
    requires
        scan_ok(r, lines, width),
        0 <= l < lines.len(),
        lines[l].plan is Some,
        0 <= k < lines[l].tiles@.len(),
    ensures
        ({
            let c = count_ix(r, lines[l].tiles@[k], width);
            &&& 0 <= c < r.data_len
            &&& acc_at(r, lines, width, l, k).counts.len() == r.data_len
            &&& acc_at(r, lines, width, l, k).counts[c] + 1 <= scan_spec(r, lines, width).counts[c]
        }),
{
    let p = lines[l].plan->0;
    let a = lines_acc(r, lines, width, l);
    let ra = rows_acc(a, r, p, row_count(p));
    let tiles = lines[l].tiles@;
    let t = tiles[k];
    lemma_lines_fit_prefix(r, lines, width, l + 1, lines.len() as int);
    assert(line_ok(r, lines[l], width));
    assert(r.tile_x0 <= t.global_ix % width < r.tile_x1 && r.tile_y0 <= t.global_ix / width < r.tile_y1);
    let c = count_ix(r, t, width);
    crate::image::lemma_index_in_image(tile_stride(r), r.tile_y1 - r.tile_y0, (t.global_ix % width) - r.tile_x0, (t.global_ix / width) - r.tile_y0);
    lemma_lines_len(r, lines, width, l);
    lemma_rows_len(a, r, p, row_count(p));
    lemma_tiles_len(ra, r, tiles, p.delta, width, k);
    lemma_tiles_fit_prefix(ra, r, tiles, p.delta, width, k + 1, tiles.len() as int);
    lemma_tile_counts_grow(tiles_acc(ra, r, tiles, p.delta, width, k), r, t, p.delta, width);
    lemma_tiles_counts_grow(ra, r, tiles, p.delta, width, k + 1, tiles.len() as int);
    lemma_lines_counts_grow(r, lines, width, l + 1, lines.len() as int);
}

/// The slots each line's segments are written to, one per tile it crosses: every tile's
/// cursor starts at its range's start and moves on by one per segment.
pub fn segment_slots(record: &PathRecord, lines: &Vec<ScanLine>, tiles_width: u32, ranges: &[TileSegmentRange]) -> (slots: Vec<Vec<u32>>)
    requires
        scan_ok(*record, lines@, tiles_width),
        ranges_from(scan_spec(*record, lines@, tiles_width).counts, record.segment_start as int, ranges@),
    ensures
        slots@.len() == lines@.len(),
        forall|l: int| 0 <= l < lines@.len() ==> (#[trigger] slots@[l])@ == slots_spec(*record, lines@, tiles_width, ranges@)[l],
{
    let ghost fin = scan_spec(*record, lines@, tiles_width).counts;
    proof {
        lemma_lines_len(*record, lines@, tiles_width, lines@.len() as int);
    }
    let n = record.data_len as usize;
    let mut cursors: Vec<u32> = Vec::new();
    let mut i: usize = 0;
    while i < n
        invariant
            n == record.data_len,
            i <= n,
            ranges@.len() == n,
            cursors@.len() == i,
            forall|j: int| 0 <= j < i ==> cursors@[j] == ranges@[j].start,
        decreases n - i,
    {
        cursors.push(ranges[i].start);
        i = i + 1;
    }
    proof {
        lemma_lines_len(*record, lines@, tiles_width, lines@.len() as int);
    }
    let mut out: Vec<Vec<u32>> = Vec::new();
    let mut l: usize = 0;
    while l < lines.len()
        invariant
            l <= lines@.len(),
            n == record.data_len,
            scan_ok(*record, lines@, tiles_width),
            fin == scan_spec(*record, lines@, tiles_width).counts,
            fin.len() == n,
            ranges_from(fin, record.segment_start as int, ranges@),
            cursors@.len() == n,
            forall|j: int| 0 <= j < n ==> #[trigger] cursors@[j] == ranges@[j].start + lines_acc(*record, lines@, tiles_width, l as int).counts[j],
            out@.len() == l,
            forall|m: int| 0 <= m < l ==> (#[trigger] out@[m])@ == slots_spec(*record, lines@, tiles_width, ranges@)[m],
        decreases lines.len() - l,
    {
        let line = &lines[l];
        let mut line_slots: Vec<u32> = Vec::new();
        let ghost a = lines_acc(*record, lines@, tiles_width, l as int);
        proof {
            lemma_lines_fit_prefix(*record, lines@, tiles_width, l + 1, lines@.len() as int);
            assert(line_ok(*record, lines@[l as int], tiles_width));
            lemma_lines_len(*record, lines@, tiles_width, l as int);
        }
        match line.plan {
            None => {},
            Some(p) => {
                let ghost ra = rows_acc(a, *record, p, row_count(p));
                proof {
                    lemma_rows_len(a, *record, p, row_count(p));
                    assert(line_fit(a, *record, lines@[l as int], tiles_width));
                }
                let mut k: usize = 0;
                while k < line.tiles.len()
                    invariant
                        k <= line.tiles@.len(),
                        line == &lines@[l as int],
                        line.plan == Some(p),
                        0 <= l < lines@.len(),
                        n == record.data_len,
                        scan_ok(*record, lines@, tiles_width),
                        fin == scan_spec(*record, lines@, tiles_width).counts,
                        fin.len() == n,
                        ranges_from(fin, record.segment_start as int, ranges@),
                        line_ok(*record, lines@[l as int], tiles_width),
                        ra == rows_acc(a, *record, p, row_count(p)),
                        tiles_fit(ra, *record, line.tiles@, p.delta, tiles_width, line.tiles@.len() as int),
                        a == lines_acc(*record, lines@, tiles_width, l as int),
                        cursors@.len() == n,
                        forall|j: int| 0 <= j < n ==> #[trigger] cursors@[j] == ranges@[j].start + tiles_acc(ra, *record, line.tiles@, p.delta, tiles_width, k as int).counts[j],
                        line_slots@.len() == k,
                        forall|m: int| 0 <= m < k ==> line_slots@[m] == slot_spec(*record, lines@, tiles_width, ranges@, l as int, m),
                    decreases line.tiles.len() - k,
                {
                    let t = line.tiles[k];
                    proof {
                        lemma_count_before_final(*record, lines@, tiles_width, l as int, k as int);
                        let c = count_ix(*record, t, tiles_width);
                        crate::tiles::lemma_prefix_sum_bounded(fin, c + 1);
                        assert(ranges@[c].end == record.segment_start + sum_u32(fin.subrange(0, c + 1)));
                        crate::tiles::lemma_prefix_sum_bounded(fin, c);
                        assert(ranges@[c].start == record.segment_start + sum_u32(fin.subrange(0, c)));
                        assert(fin.subrange(0, c + 1).drop_last() =~= fin.subrange(0, c));
                        lemma_tiles_fit_prefix(ra, *record, line.tiles@, p.delta, tiles_width, k + 1, line.tiles@.len() as int);
                        lemma_tiles_len(ra, *record, line.tiles@, p.delta, tiles_width, k as int);
                    }
                    let c = local_tile_ix(record, t.global_ix, tiles_width);
                    let slot = cursors[c];
                    line_slots.push(slot);
                    cursors.set(c, slot + 1);
                    k = k + 1;
                }
                proof {
                    lemma_tiles_len(ra, *record, line.tiles@, p.delta, tiles_width, line.tiles@.len() as int);
                }
            },
        }
        proof {
            assert(line_slots@ =~= slots_spec(*record, lines@, tiles_width, ranges@)[l as int]);
        }
        out.push(line_slots);
        l = l + 1;
    }
    out
}

/// Every slot lies in the segment range of the tile it belongs to.
pub proof fn law_slots_lie_in_their_ranges(
    r: PathRecord,
    lines: Seq<ScanLine>,
    width: u32,
    ranges: Seq<TileSegmentRange>,
    l: int,
    k: int,
)
    requires
        scan_ok(r, lines, width),
        ranges_from(scan_spec(r, lines, width).counts, r.segment_start as int, ranges),
        0 <= l < lines.len(),
        lines[l].plan is Some,
        0 <= k < lines[l].tiles@.len(),
    ensures
        ({
            let c = count_ix(r, lines[l].tiles@[k], width);
            &&& 0 <= c < ranges.len()
            &&& ranges[c].start <= slot_spec(r, lines, width, ranges, l, k) < ranges[c].end
        }),
{
    let fin = scan_spec(r, lines, width).counts;
    lemma_count_before_final(r, lines, width, l, k);
    let c = count_ix(r, lines[l].tiles@[k], width);
    lemma_lines_len(r, lines, width, lines.len() as int);
    crate::tiles::lemma_prefix_sum_bounded(fin, c + 1);
    assert(fin.subrange(0, c + 1).drop_last() =~= fin.subrange(0, c));
    assert(ranges[c].end == r.segment_start + sum_u32(fin.subrange(0, c + 1)));
}

/// A tile crossing changes at most one backdrop, and only in the tile's own row strictly right
/// of it: without a top-edge crossing, or in the path's last column, no backdrop changes;
/// otherwise the delta goes to the first column right of the tile (the path's first column
/// when the tile lies left of the path).
pub proof fn law_top_edge_bump_stays_in_row(a: ScanAcc, r: PathRecord, t: ScannedTile, delta: i32, width: u32)
    requires
        record_ok(r),
        r.data_len > 0,
        a.backdrops.len() == r.data_len,
        r.tile_y0 <= t.y < r.tile_y1,
    ensures
        !t.top_edge || t.x + 1 >= r.tile_x1 ==> tile_acc(a, r, t, delta, width).backdrops == a.backdrops,
        t.top_edge && t.x + 1 < r.tile_x1 ==> {
            let col = max_col(t.x + 1, r.tile_x0 as int) - r.tile_x0;
            let ix = (t.y - r.tile_y0) * tile_stride(r) + col;
            &&& t.x - r.tile_x0 < col < tile_stride(r)
            &&& 0 <= ix < a.backdrops.len()
            &&& tile_acc(a, r, t, delta, width).backdrops == a.backdrops.update(
                ix,
                (a.backdrops[ix] + delta) as i32,
            )
        },
{
    if t.top_edge && t.x + 1 < r.tile_x1 {
        let col = max_col(t.x + 1, r.tile_x0 as int) - r.tile_x0;
        assert(tile_stride(r) > 0) by (nonlinear_arith)
            requires
                tile_stride(r) * (r.tile_y1 - r.tile_y0) == r.data_len,
                r.data_len > 0,
                tile_stride(r) >= 0,
        ;
        lemma_row_in_window(r, t.y as int);
    }
}

pub open spec fn max_col(a: int, b: int) -> int {
    if a > b {
        a
    } else {
        b
    }
}

/// A line's rows change only the first backdrop of each row it spans, each by its delta: the
/// first `k` rows from `ymin` gain `delta` at their row start, and every other backdrop keeps
/// its value.
pub proof fn law_rows_add_delta_at_row_starts(a: ScanAcc, r: PathRecord, p: ScanPlan, k: int)
    requires
        record_ok(r),
        r.data_len > 0,
        a.backdrops.len() == r.data_len,
        0 <= k <= row_count(p),
        row_count(p) > 0 ==> r.tile_y0 <= p.ymin && p.ymax <= r.tile_y1,
        rows_fit(a, r, p, k),
    ensures
        rows_acc(a, r, p, k).backdrops.len() == a.backdrops.len(),
        forall|i: int|
            0 <= i < a.backdrops.len() && i % tile_stride(r) != 0 ==> #[trigger] rows_acc(a, r, p, k).backdrops[i]
                == a.backdrops[i],
        forall|y: int|
            r.tile_y0 <= y < r.tile_y1 ==> rows_acc(a, r, p, k).backdrops[#[trigger] row_ix(r, y)] == a.backdrops[row_ix(r, y)]
                + if p.ymin <= y < p.ymin + k { p.delta as int } else { 0 },
    decreases k,
{
    assert(tile_stride(r) > 0) by (nonlinear_arith)
        requires
            tile_stride(r) * (r.tile_y1 - r.tile_y0) == r.data_len,
            r.data_len > 0,
            tile_stride(r) >= 0,
    ;
    lemma_rows_len(a, r, p, k);
    if k > 0 {
        law_rows_add_delta_at_row_starts(a, r, p, k - 1);
        let prior = rows_acc(a, r, p, k - 1);
        let yk = p.ymin + k - 1;
        let ix = row_ix(r, yk);
        lemma_row_in_window(r, yk);
        lemma_rows_fit_prefix(a, r, p, k, k);
        assert forall|i: int| 0 <= i < a.backdrops.len() && i % tile_stride(r) != 0 implies #[trigger] rows_acc(a, r, p, k).backdrops[i]
            == a.backdrops[i] by {
            vstd::arithmetic::div_mod::lemma_mod_multiples_basic(yk - r.tile_y0, tile_stride(r));
            assert(ix % tile_stride(r) == 0) by {
                assert(ix == (yk - r.tile_y0) * tile_stride(r));
            }
            assert(i != ix);
        }
        assert forall|y: int| r.tile_y0 <= y < r.tile_y1 implies rows_acc(a, r, p, k).backdrops[#[trigger] row_ix(r, y)]
            == a.backdrops[row_ix(r, y)] + if p.ymin <= y < p.ymin + k { p.delta as int } else { 0 } by {
            lemma_row_in_window(r, y);
            if y != yk {
                assert(row_ix(r, y) != ix) by {
                    if row_ix(r, y) == ix {
                        assert((y - r.tile_y0) * tile_stride(r) == (yk - r.tile_y0) * tile_stride(r));
                        vstd::arithmetic::mul::lemma_mul_is_commutative(y - r.tile_y0, tile_stride(r));
                        vstd::arithmetic::mul::lemma_mul_is_commutative(yk - r.tile_y0, tile_stride(r));
                        vstd::arithmetic::mul::lemma_mul_equality_converse(tile_stride(r), y - r.tile_y0, yk - r.tile_y0);
                    }
                }
            }
        }
    }
}

} // verus!
