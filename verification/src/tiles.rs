//! Tile geometry shared by the coarse, fine and scan stages.
use vstd::prelude::*;
use crate::bounds::{Bounds, TILE_SIZE};
use crate::cumsum::PathRecord;

verus! {

/// The pixel rectangle of tile `(tile_x, tile_y)`.
pub open spec fn tile_rect(tile_x: int, tile_y: int) -> Bounds {
    Bounds {
        x0: (tile_x * 16) as i32,
        y0: (tile_y * 16) as i32,
        x1: (tile_x * 16 + 16) as i32,
        y1: (tile_y * 16 + 16) as i32,
    }
}

pub fn tile_bounds(tile_x: u32, tile_y: u32) -> (b: Bounds)
    requires
        tile_x * 16 + 16 <= i32::MAX,
        tile_y * 16 + 16 <= i32::MAX,
    ensures
        b == tile_rect(tile_x as int, tile_y as int),
{
    let x0 = (tile_x * TILE_SIZE) as i32;
    let y0 = (tile_y * TILE_SIZE) as i32;
    Bounds::new(x0, y0, x0 + TILE_SIZE as i32, y0 + TILE_SIZE as i32)
}

/// The two rectangles overlap in at least one pixel.
pub open spec fn overlaps(a: Bounds, b: Bounds) -> bool {
    a.x0 < b.x1 && a.x1 > b.x0 && a.y0 < b.y1 && a.y1 > b.y0
}

pub fn bounds_intersect(a: Bounds, b: Bounds) -> (r: bool)
    ensures
        r == overlaps(a, b),
{
    a.x0 < b.x1 && a.x1 > b.x0 && a.y0 < b.y1 && a.y1 > b.y0
}

/// Two non-empty rectangles overlap exactly when their intersection covers a pixel.
pub proof fn law_overlap_is_nonempty_intersection(a: Bounds, b: Bounds)
    requires
        !a.empty_spec(),
        !b.empty_spec(),
    ensures
        overlaps(a, b) <==> !a.intersect_spec(b).empty_spec(),
{
}

/// The part of tile `(tile_x, tile_y)` inside `target_bounds`, with the tile's pixel origin, or
/// `None` when the tile lies outside the target.
pub fn tile_target_bounds(tile_x: u32, tile_y: u32, target_bounds: Bounds) -> (r: Option<
    (Bounds, i32, i32),
>)
    requires
        tile_x * 16 + 16 <= i32::MAX,
        tile_y * 16 + 16 <= i32::MAX,
    ensures
        r == if tile_rect(tile_x as int, tile_y as int).intersect_spec(
            target_bounds,
        ).empty_spec() {
            None
        } else {
            Some(
                (
                    tile_rect(tile_x as int, tile_y as int).intersect_spec(target_bounds),
                    (tile_x * 16) as i32,
                    (tile_y * 16) as i32,
                ),
            )
        },
{
    let tile = tile_bounds(tile_x, tile_y);
    let bounds = tile.intersect(target_bounds);
    if bounds.is_empty() {
        None
    } else {
        Some((bounds, tile.x0, tile.y0))
    }
}

/// Index of a scene tile inside a path's row-major tile rectangle.
pub open spec fn local_tile_index(record: PathRecord, tile_x: int, tile_y: int) -> int {
    (tile_y - record.tile_y0) * (record.tile_x1 - record.tile_x0) + (tile_x - record.tile_x0)
}

/// Local index of scene tile `tile_id` (row-major over `tiles_width` columns) in a path's
/// tile rectangle, which holds it.
pub fn local_tile_ix(path_record: &PathRecord, tile_id: u32, tiles_width: u32) -> (ix: usize)
    requires
        tiles_width > 0,
        path_record.tile_x0 <= tile_id % tiles_width < path_record.tile_x1,
        path_record.tile_y0 <= tile_id / tiles_width < path_record.tile_y1,
        (path_record.tile_x1 - path_record.tile_x0) * (path_record.tile_y1 - path_record.tile_y0)
            <= u32::MAX,
    ensures
        ix == local_tile_index(
            *path_record,
            (tile_id % tiles_width) as int,
            (tile_id / tiles_width) as int,
        ),
        ix < (path_record.tile_x1 - path_record.tile_x0) * (path_record.tile_y1
            - path_record.tile_y0),
{
    let tile_x = tile_id % tiles_width;
    let tile_y = tile_id / tiles_width;
    let local_x = tile_x - path_record.tile_x0;
    let local_y = tile_y - path_record.tile_y0;
    let stride = path_record.tile_x1 - path_record.tile_x0;
    let rows = path_record.tile_y1 - path_record.tile_y0;
    proof {
        crate::image::lemma_index_in_image(stride as int, rows as int, local_x as int, local_y as int);
    }
    (local_y * stride + local_x) as usize
}

/// The segments of one tile: `start..end` in the segment buffer.
#[derive(Clone, Copy, Debug, Default, PartialEq, Eq)]
pub struct TileSegmentRange {
    pub start: u32,
    pub end: u32,
}

/// Sum of the values of `s`.
pub open spec fn sum_u32(s: Seq<u32>) -> int
    decreases s.len(),
{
    if s.len() == 0 {
        0
    } else {
        sum_u32(s.drop_last()) + s.last()
    }
}

/// Assigns each tile the next `counts[i]` segments, starting at `start`: tile `i` receives
/// `start + counts[0] + ... + counts[i - 1]` up to that plus `counts[i]`.
pub fn fill_ranges_from_counts(ranges: &mut [TileSegmentRange], counts: &[u32], start: u32)
    requires
        old(ranges)@.len() == counts@.len(),
        start + sum_u32(counts@) <= u32::MAX,
    ensures
        final(ranges)@.len() == counts@.len(),
        forall|i: int|
            0 <= i < counts@.len() ==> (#[trigger] final(ranges)@[i]).start == start + sum_u32(
                counts@.subrange(0, i),
            ) && final(ranges)@[i].end == start + sum_u32(counts@.subrange(0, i + 1)),
{
    let mut next: u32 = start;
    let mut i: usize = 0;
    while i < counts.len()
        invariant
            i <= counts@.len(),
            ranges@.len() == counts@.len(),
            start + sum_u32(counts@) <= u32::MAX,
            next == start + sum_u32(counts@.subrange(0, i as int)),
            forall|k: int|
                0 <= k < i ==> (#[trigger] ranges@[k]).start == start + sum_u32(
                    counts@.subrange(0, k),
                ) && ranges@[k].end == start + sum_u32(counts@.subrange(0, k + 1)),
        decreases counts@.len() - i,
    {
        proof {
            assert(counts@.subrange(0, i + 1).drop_last() == counts@.subrange(0, i as int));
            lemma_prefix_sum_bounded(counts@, i + 1);
        }
        let count = counts[i];
        let first = next;
        next = next + count;
        ranges[i] = TileSegmentRange { start: first, end: next };
        i = i + 1;
    }
}

/// Tile `i` of `counts` gets `start + counts[0] + ... + counts[i - 1]` up to that plus
/// `counts[i]`.
pub open spec fn ranges_from(counts: Seq<u32>, start: int, ranges: Seq<TileSegmentRange>) -> bool {
    &&& ranges.len() == counts.len()
    &&& forall|i: int|
        0 <= i < counts.len() ==> (#[trigger] ranges[i]).start == start + sum_u32(
            counts.subrange(0, i),
        ) && ranges[i].end == start + sum_u32(counts.subrange(0, i + 1))
}

/// The counts of a chunk summed as if it started at segment 0: fills its ranges and returns its
/// total.
pub fn fill_chunk_local(ranges: &mut [TileSegmentRange], counts: &[u32]) -> (total: u32)
    requires
        old(ranges)@.len() == counts@.len(),
        sum_u32(counts@) <= u32::MAX,
    ensures
        ranges_from(counts@, 0, final(ranges)@),
        total == sum_u32(counts@),
{
    fill_ranges_from_counts(ranges, counts, 0);
    let n = ranges.len();
    if n == 0 {
        0
    } else {
        proof {
            assert(counts@.subrange(0, n as int) =~= counts@);
        }
        ranges[n - 1].end
    }
}

/// Moves every range of a chunk by `offset` segments.
pub fn shift_chunk(ranges: &mut [TileSegmentRange], offset: u32)
    requires
        forall|i: int|
            0 <= i < old(ranges)@.len() ==> (#[trigger] old(ranges)@[i]).start + offset <= u32::MAX
                && old(ranges)@[i].end + offset <= u32::MAX,
    ensures
        final(ranges)@.len() == old(ranges)@.len(),
        forall|i: int|
            0 <= i < old(ranges)@.len() ==> (#[trigger] final(ranges)@[i]).start == old(
                ranges,
            )@[i].start + offset && final(ranges)@[i].end == old(ranges)@[i].end + offset,
{
    let mut i: usize = 0;
    while i < ranges.len()
        invariant
            i <= ranges@.len(),
            ranges@.len() == old(ranges)@.len(),
            forall|k: int|
                0 <= k < old(ranges)@.len() ==> (#[trigger] old(ranges)@[k]).start + offset
                    <= u32::MAX && old(ranges)@[k].end + offset <= u32::MAX,
            forall|k: int|
                0 <= k < i ==> (#[trigger] ranges@[k]).start == old(ranges)@[k].start + offset
                    && ranges@[k].end == old(ranges)@[k].end + offset,
            forall|k: int| i <= k < ranges@.len() ==> #[trigger] ranges@[k] == old(ranges)@[k],
        decreases ranges@.len() - i,
    {
        let range = ranges[i];
        ranges[i] = TileSegmentRange { start: range.start + offset, end: range.end + offset };
        i = i + 1;
    }
}

/// The first segment of each chunk: `start` plus the totals of the chunks before it.
pub fn chunk_offsets(totals: &[u32], start: u32) -> (offsets: Vec<u32>)
    requires
        start + sum_u32(totals@) <= u32::MAX,
    ensures
        offsets@.len() == totals@.len(),
        forall|c: int|
            0 <= c < totals@.len() ==> #[trigger] offsets@[c] == start + sum_u32(
                totals@.subrange(0, c),
            ),
{
    let mut offsets: Vec<u32> = Vec::new();
    let mut next: u32 = start;
    let mut c: usize = 0;
    while c < totals.len()
        invariant
            c <= totals@.len(),
            start + sum_u32(totals@) <= u32::MAX,
            next == start + sum_u32(totals@.subrange(0, c as int)),
            offsets@.len() == c,
            forall|k: int|
                0 <= k < c ==> #[trigger] offsets@[k] == start + sum_u32(totals@.subrange(0, k)),
        decreases totals@.len() - c,
    {
        proof {
            assert(totals@.subrange(0, c + 1).drop_last() == totals@.subrange(0, c as int));
            lemma_prefix_sum_bounded(totals@, c + 1);
        }
        offsets.push(next);
        next = next + totals[c];
        c = c + 1;
    }
    offsets
}

/// Sums over adjacent pieces add up.
pub proof fn lemma_sum_split(s: Seq<u32>, a: int, b: int, c: int)
    requires
        0 <= a <= b <= c <= s.len(),
    ensures
        sum_u32(s.subrange(a, c)) == sum_u32(s.subrange(a, b)) + sum_u32(s.subrange(b, c)),
    decreases c - b,
{
    if c > b {
        lemma_sum_split(s, a, b, c - 1);
        assert(s.subrange(a, c).drop_last() =~= s.subrange(a, c - 1));
        assert(s.subrange(b, c).drop_last() =~= s.subrange(b, c - 1));
    } else {
        assert(s.subrange(b, c) =~= Seq::<u32>::empty());
    }
}

/// Where the chunk after one starting at `lo` starts: `chunk_len` tiles on, or at the end.
pub open spec fn next_bound(lo: int, n: int, chunk_len: int) -> int {
    if n - lo > chunk_len {
        lo + chunk_len
    } else {
        n
    }
}

/// Chunk `c` starts before the end and the next one starts where `next_bound` puts it.
pub open spec fn chunk_step(bounds: Seq<int>, n: int, chunk_len: int, c: int) -> bool {
    bounds[c + 1] == next_bound(bounds[c], n, chunk_len) && bounds[c] < n
}

/// `bounds` cuts `0..n` into chunks of `chunk_len` tiles, the last one possibly shorter.
pub open spec fn chunk_bounds(bounds: Seq<int>, n: int, chunk_len: int) -> bool {
    &&& bounds.len() >= 1
    &&& bounds[0] == 0
    &&& forall|c: int| 0 <= c < bounds.len() - 1 ==> #[trigger] chunk_step(bounds, n, chunk_len, c)
}

proof fn lemma_chunk_bounds_range(bounds: Seq<int>, n: int, chunk_len: int, c: int)
    requires
        chunk_bounds(bounds, n, chunk_len),
        chunk_len > 0,
        n >= 0,
        0 <= c < bounds.len(),
    ensures
        0 <= bounds[c] <= n,
        c + 1 < bounds.len() ==> bounds[c] < bounds[c + 1],
    decreases c,
{
    if c > 0 {
        lemma_chunk_bounds_range(bounds, n, chunk_len, c - 1);
        assert(chunk_step(bounds, n, chunk_len, c - 1));
    }
    if c + 1 < bounds.len() {
        assert(chunk_step(bounds, n, chunk_len, c));
    }
}

proof fn lemma_chunk_bounds_mono(bounds: Seq<int>, n: int, chunk_len: int, a: int, b: int)
    requires
        chunk_bounds(bounds, n, chunk_len),
        chunk_len > 0,
        n >= 0,
        0 <= a <= b < bounds.len(),
    ensures
        bounds[a] <= bounds[b],
    decreases b - a,
{
    if a < b {
        lemma_chunk_bounds_range(bounds, n, chunk_len, a);
        lemma_chunk_bounds_mono(bounds, n, chunk_len, a + 1, b);
    }
}

/// The first segment of chunk `c`, `start` plus the totals before it, is `start` plus the
/// counts before the chunk.
proof fn lemma_chunk_offset(counts: Seq<u32>, totals: Seq<u32>, bounds: Seq<int>, c: int)
    requires
        bounds.len() == totals.len() + 1,
        0 <= c <= totals.len(),
        bounds[0] == 0,
        forall|k: int| 0 <= k < totals.len() ==> 0 <= #[trigger] bounds[k] <= bounds[k + 1],
        bounds[totals.len() as int] <= counts.len(),
        forall|k: int|
            0 <= k < totals.len() ==> #[trigger] totals[k] == sum_u32(
                counts.subrange(bounds[k], bounds[k + 1]),
            ),
    ensures
        sum_u32(totals.subrange(0, c)) == sum_u32(counts.subrange(0, bounds[c])),
    decreases c,
{
    if c == 0 {
        assert(counts.subrange(0, 0) =~= Seq::<u32>::empty());
        assert(totals.subrange(0, 0) =~= Seq::<u32>::empty());
    } else {
        lemma_chunk_offset(counts, totals, bounds, c - 1);
        assert(totals.subrange(0, c).drop_last() =~= totals.subrange(0, c - 1));
        assert(bounds[c - 1] <= bounds[c]);
        lemma_bounds_monotone(totals, bounds, c, counts.len() as int);
        lemma_sum_split(counts, 0, bounds[c - 1], bounds[c]);
    }
}

proof fn lemma_bounds_monotone(totals: Seq<u32>, bounds: Seq<int>, c: int, n: int)
    requires
        bounds.len() == totals.len() + 1,
        0 <= c <= totals.len(),
        forall|k: int| 0 <= k < totals.len() ==> 0 <= #[trigger] bounds[k] <= bounds[k + 1],
        bounds[totals.len() as int] <= n,
    ensures
        bounds[c] <= n,
    decreases totals.len() - c,
{
    if c < totals.len() {
        lemma_bounds_monotone(totals, bounds, c + 1, n);
        assert(bounds[c] <= bounds[c + 1]);
    }
}

/// The chunked computation: each chunk of `chunk_len` tiles is summed as if it started at
/// segment 0, the chunk totals give each chunk its first segment, and each chunk is moved
/// there. The result is the prefix sum [`fill_ranges_from_counts`] computes in one pass, for
/// every chunk length.
pub fn fill_ranges_from_counts_chunked(
    ranges: &mut [TileSegmentRange],
    counts: &[u32],
    start: u32,
    chunk_len: usize,
)
    requires
        old(ranges)@.len() == counts@.len(),
        start + sum_u32(counts@) <= u32::MAX,
        chunk_len > 0,
    ensures
        ranges_from(counts@, start as int, final(ranges)@),
{
    let n = counts.len();
    proof {
        assert(counts@.subrange(0, n as int) =~= counts@);
    }
    // Local sums of every chunk, and the chunk totals.
    let mut totals: Vec<u32> = Vec::new();
    let mut local: Vec<TileSegmentRange> = Vec::new();
    let mut lo: usize = 0;
    let ghost mut bounds: Seq<int> = seq![0];
    while lo < n
        invariant
            n == counts@.len(),
            lo <= n,
            chunk_len > 0,
            start + sum_u32(counts@) <= u32::MAX,
            counts@.subrange(0, n as int) == counts@,
            local@.len() == lo,
            bounds.len() == totals@.len() + 1,
            bounds.last() == lo,
            chunk_bounds(bounds, n as int, chunk_len as int),
            forall|c: int|
                0 <= c < totals@.len() ==> #[trigger] totals@[c] == sum_u32(
                    counts@.subrange(bounds[c], bounds[c + 1]),
                ),
            forall|c: int, i: int|
                #![trigger local@[i], bounds[c]]
                0 <= c < totals@.len() && bounds[c] <= i < bounds[c + 1] ==> local@[i].start
                    == sum_u32(counts@.subrange(bounds[c], i)) && local@[i].end == sum_u32(
                    counts@.subrange(bounds[c], i + 1),
                ) && local@[i].start <= local@[i].end,
        decreases n - lo,
    {
        let hi = if n - lo > chunk_len {
            lo + chunk_len
        } else {
            n
        };
        let mut chunk_counts: Vec<u32> = Vec::new();
        let mut chunk_ranges: Vec<TileSegmentRange> = Vec::new();
        let mut k: usize = lo;
        while k < hi
            invariant
                lo <= k <= hi <= n,
                n == counts@.len(),
                chunk_counts@ == counts@.subrange(lo as int, k as int),
                chunk_ranges@.len() == k - lo,
            decreases hi - k,
        {
            chunk_counts.push(counts[k]);
            chunk_ranges.push(TileSegmentRange { start: 0, end: 0 });
            k = k + 1;
            proof {
                assert(chunk_counts@ =~= counts@.subrange(lo as int, k as int));
            }
        }
        proof {
            lemma_sum_split(counts@, 0, lo as int, hi as int);
            lemma_sum_split(counts@, 0, hi as int, n as int);
            lemma_sum_nonneg(counts@.subrange(0, lo as int));
            lemma_sum_nonneg(counts@.subrange(hi as int, n as int));
        }
        let total = fill_chunk_local(chunk_ranges.as_mut_slice(), chunk_counts.as_slice());
        let ghost before_local = local@;
        let mut k: usize = 0;
        while k < chunk_ranges.len()
            invariant
                k <= chunk_ranges@.len(),
                local@.len() == lo + k,
                before_local.len() == lo,
                forall|i: int| 0 <= i < lo ==> #[trigger] local@[i] == before_local[i],
                forall|j: int| 0 <= j < k ==> #[trigger] local@[lo + j] == chunk_ranges@[j],
            decreases chunk_ranges@.len() - k,
        {
            local.push(chunk_ranges[k]);
            k = k + 1;
        }
        let ghost new_bounds = bounds.push(hi as int);
        proof {
            assert forall|c: int, i: int|
                #![trigger local@[i], new_bounds[c]]
                0 <= c < totals@.len() + 1 && new_bounds[c] <= i < new_bounds[c + 1] implies
                local@[i].start == sum_u32(counts@.subrange(new_bounds[c], i))
                && local@[i].end == sum_u32(counts@.subrange(new_bounds[c], i + 1))
                && local@[i].start <= local@[i].end by {
                if c < totals@.len() {
                    assert(new_bounds[c] == bounds[c] && new_bounds[c + 1] == bounds[c + 1]);
                    assert(bounds[c + 1] <= lo) by {
                        lemma_chunk_bounds_mono(bounds, n as int, chunk_len as int, c + 1, bounds.len() - 1);
                    }
                    lemma_chunk_bounds_range(bounds, n as int, chunk_len as int, c);
                    assert(local@[i] == before_local[i]);
                } else {
                    assert(new_bounds[c] == lo && new_bounds[c + 1] == hi);
                    let j = i - lo;
                    assert(local@[lo + j] == chunk_ranges@[j]);
                    assert(chunk_counts@ == counts@.subrange(lo as int, hi as int));
                    lemma_sum_nonneg(counts@.subrange(i, i + 1));
                    assert(counts@.subrange(lo as int, hi as int).subrange(0, j) =~= counts@.subrange(
                        lo as int,
                        i,
                    ));
                    assert(counts@.subrange(lo as int, hi as int).subrange(0, j + 1)
                        =~= counts@.subrange(lo as int, i + 1));
                    lemma_sum_split(counts@, lo as int, i, i + 1);
                }
            }
            assert forall|c: int| 0 <= c < new_bounds.len() - 1 implies #[trigger] chunk_step(
                new_bounds,
                n as int,
                chunk_len as int,
                c,
            ) by {
                if c < bounds.len() - 1 {
                    assert(chunk_step(bounds, n as int, chunk_len as int, c));
                    assert(new_bounds[c] == bounds[c] && new_bounds[c + 1] == bounds[c + 1]);
                } else {
                    assert(new_bounds[c] == lo && new_bounds[c + 1] == hi);
                }
            }
            assert(new_bounds[0] == 0);
            assert(chunk_bounds(new_bounds, n as int, chunk_len as int));
        }
        totals.push(total);
        proof {
            bounds = new_bounds;
        }
        lo = hi;
    }
    // The first segment of every chunk.
    proof {
        assert forall|k: int| 0 <= k < totals@.len() implies 0 <= #[trigger] bounds[k] <= bounds[k + 1] by {
            lemma_chunk_bounds_range(bounds, n as int, chunk_len as int, k);
        }
        lemma_chunk_offset(counts@, totals@, bounds, totals@.len() as int);
        assert(totals@.subrange(0, totals@.len() as int) =~= totals@);
    }
    let offsets = chunk_offsets(totals.as_slice(), start);
    // Every chunk moved to its first segment.
    let mut c: usize = 0;
    let mut lo: usize = 0;
    while c < totals.len()
        invariant
            c <= totals@.len(),
            offsets@.len() == totals@.len(),
            ranges@.len() == n,
            local@.len() == n,
            n == counts@.len(),
            chunk_len > 0,
            bounds.len() == totals@.len() + 1,
            bounds.last() == n,
            lo == bounds[c as int],
            chunk_bounds(bounds, n as int, chunk_len as int),
            forall|k: int| 0 <= k < totals@.len() ==> 0 <= #[trigger] bounds[k] <= bounds[k + 1],
            start + sum_u32(counts@) <= u32::MAX,
            forall|k: int|
                0 <= k < totals@.len() ==> #[trigger] totals@[k] == sum_u32(
                    counts@.subrange(bounds[k], bounds[k + 1]),
                ),
            forall|k: int|
                0 <= k < totals@.len() ==> #[trigger] offsets@[k] == start + sum_u32(
                    totals@.subrange(0, k),
                ),
            forall|k: int, i: int|
                #![trigger local@[i], bounds[k]]
                0 <= k < totals@.len() && bounds[k] <= i < bounds[k + 1] ==> local@[i].start
                    == sum_u32(counts@.subrange(bounds[k], i)) && local@[i].end == sum_u32(
                    counts@.subrange(bounds[k], i + 1),
                ) && local@[i].start <= local@[i].end,
            forall|i: int|
                0 <= i < lo ==> (#[trigger] ranges@[i]).start == start + sum_u32(
                    counts@.subrange(0, i),
                ) && ranges@[i].end == start + sum_u32(counts@.subrange(0, i + 1)),
        decreases totals@.len() - c,
    {
        proof {
            lemma_chunk_bounds_range(bounds, n as int, chunk_len as int, c as int);
            assert(chunk_step(bounds, n as int, chunk_len as int, c as int));
            lemma_chunk_offset(counts@, totals@, bounds, c as int);
        }
        let hi = if n - lo > chunk_len {
            lo + chunk_len
        } else {
            n
        };
        let offset = offsets[c];
        let mut chunk: Vec<TileSegmentRange> = Vec::new();
        let mut k: usize = lo;
        while k < hi
            invariant
                lo <= k <= hi <= n,
                local@.len() == n,
                chunk@ == local@.subrange(lo as int, k as int),
            decreases hi - k,
        {
            chunk.push(local[k]);
            k = k + 1;
            proof {
                assert(chunk@ =~= local@.subrange(lo as int, k as int));
            }
        }
        proof {
            assert forall|j: int| 0 <= j < chunk@.len() implies (#[trigger] chunk@[j]).start
                + offset <= u32::MAX && chunk@[j].end + offset <= u32::MAX by {
                let i = lo + j;
                assert(chunk@[j] == local@[i]);
                assert(local@[i].end == sum_u32(counts@.subrange(lo as int, i + 1)));
                lemma_sum_split(counts@, 0, lo as int, i + 1);
                lemma_prefix_sum_bounded(counts@, i + 1);
            }
        }
        let ghost before_chunk = chunk@;
        shift_chunk(chunk.as_mut_slice(), offset);
        let ghost before_ranges = ranges@;
        let mut k: usize = lo;
        while k < hi
            invariant
                lo <= k <= hi <= n,
                ranges@.len() == n,
                chunk@.len() == hi - lo,
                forall|i: int| 0 <= i < lo ==> #[trigger] ranges@[i] == before_ranges[i],
                forall|i: int| lo <= i < k ==> #[trigger] ranges@[i] == chunk@[i - lo],
            decreases hi - k,
        {
            ranges[k] = chunk[k - lo];
            k = k + 1;
        }
        proof {
            assert forall|i: int| 0 <= i < hi implies (#[trigger] ranges@[i]).start == start
                + sum_u32(counts@.subrange(0, i)) && ranges@[i].end == start + sum_u32(
                counts@.subrange(0, i + 1),
            ) by {
                if i >= lo {
                    assert(ranges@[i] == chunk@[i - lo]);
                    assert(before_chunk[i - lo] == local@[i]);
                    lemma_sum_split(counts@, 0, lo as int, i);
                    lemma_sum_split(counts@, 0, lo as int, i + 1);
                } else {
                    assert(ranges@[i] == before_ranges[i]);
                }
            }
        }
        c = c + 1;
        lo = hi;
    }
}

/// Every prefix of a sequence of counts sums to no more than the whole.
pub proof fn lemma_prefix_sum_bounded(s: Seq<u32>, n: int)
    requires
        0 <= n <= s.len(),
    ensures
        0 <= sum_u32(s.subrange(0, n)) <= sum_u32(s),
    decreases s.len() - n,
{
    if n < s.len() {
        lemma_prefix_sum_bounded(s, n + 1);
        assert(s.subrange(0, n + 1).drop_last() == s.subrange(0, n));
    } else {
        assert(s.subrange(0, n) == s);
    }
    lemma_sum_nonneg(s.subrange(0, n));
}

proof fn lemma_sum_nonneg(s: Seq<u32>)
    ensures
        sum_u32(s) >= 0,
    decreases s.len(),
{
    if s.len() > 0 {
        lemma_sum_nonneg(s.drop_last());
    }
}

/// The filled ranges tile the segment buffer: each range holds exactly its tile's count and
/// starts where the previous one ends.
pub proof fn law_ranges_are_contiguous(counts: Seq<u32>, start: int, ranges: Seq<TileSegmentRange>)
    requires
        ranges.len() == counts.len(),
        forall|i: int|
            0 <= i < counts.len() ==> (#[trigger] ranges[i]).start == start + sum_u32(
                counts.subrange(0, i),
            ) && ranges[i].end == start + sum_u32(counts.subrange(0, i + 1)),
    ensures
        forall|i: int| 0 <= i < counts.len() ==> #[trigger] ranges[i].end - ranges[i].start == counts[i],
        forall|i: int| 0 < i < counts.len() ==> #[trigger] ranges[i].start == ranges[i - 1].end,
{
    assert forall|i: int| 0 <= i < counts.len() implies #[trigger] ranges[i].end - ranges[i].start
        == counts[i] by {
        assert(counts.subrange(0, i + 1).drop_last() == counts.subrange(0, i));
    }
    assert forall|i: int| 0 < i < counts.len() implies #[trigger] ranges[i].start == ranges[i
        - 1].end by {
        assert(ranges[i - 1].end == start + sum_u32(counts.subrange(0, i)));
    }
}

} // verus!
