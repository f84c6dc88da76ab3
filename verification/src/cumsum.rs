//! Row-wise prefix sums of per-tile backdrop winding numbers.
use vstd::prelude::*;

verus! {

/// The per-path record of a scene: the path's lines, and where its tiles live (its tile
/// rectangle, its slice of the backdrop buffer and of the segment buffer).
#[derive(Clone, Copy, Debug, Default, PartialEq, Eq)]
pub struct PathRecord {
    pub path_id: u32,
    pub line_start: u32,
    pub line_count: u32,
    pub flags: u32,
    pub data_offset: u32,
    pub data_len: u32,
    pub tile_x0: u32,
    pub tile_y0: u32,
    pub tile_x1: u32,
    pub tile_y1: u32,
    pub segment_start: u32,
    pub segment_capacity: u32,
    pub segment_count: u32,
}

/// The backdrop scan reads a path record's tile fields.
pub type BackdropRecord = PathRecord;

/// Sum of the values of `s`.
pub open spec fn seq_sum(s: Seq<i32>) -> int
    decreases s.len(),
{
    if s.len() == 0 {
        0
    } else {
        seq_sum(s.drop_last()) + s.last()
    }
}

/// `b` with `b[start..start + n]` replaced by its running sums.
pub open spec fn prefix_row(b: Seq<i32>, start: int, n: int) -> Seq<i32> {
    Seq::new(
        b.len(),
        |i: int|
            if start <= i < start + n {
                seq_sum(b.subrange(start, i + 1)) as i32
            } else {
                b[i]
            },
    )
}

/// Every running sum of `b[start..start + n]` fits in an `i32`.
pub open spec fn row_fits(b: Seq<i32>, start: int, n: int) -> bool {
    forall|k: int|
        start <= k < start + n ==> i32::MIN <= #[trigger] seq_sum(b.subrange(start, k + 1))
            <= i32::MAX
}

/// `b` after the running sums of `rows` consecutive rows of `stride` values from `start`.
pub open spec fn prefix_rows(b: Seq<i32>, start: int, stride: int, rows: int) -> Seq<i32>
    decreases rows,
{
    if rows <= 0 {
        b
    } else {
        prefix_rows(prefix_row(b, start, stride), start + stride, stride, rows - 1)
    }
}

/// The running sums of each of those rows fit in an `i32`.
pub open spec fn rows_fit(b: Seq<i32>, start: int, stride: int, rows: int) -> bool
    decreases rows,
{
    rows <= 0 || (row_fits(b, start, stride) && rows_fit(
        prefix_row(b, start, stride),
        start + stride,
        stride,
        rows - 1,
    ))
}

pub open spec fn record_stride(r: BackdropRecord) -> int {
    r.tile_x1 - r.tile_x0
}

pub open spec fn record_height(r: BackdropRecord) -> int {
    r.tile_y1 - r.tile_y0
}

/// A record covers no tile and is skipped.
pub open spec fn record_skipped(r: BackdropRecord) -> bool {
    record_stride(r) == 0 || record_height(r) == 0
}

/// `b` after the rows of one record were summed.
pub open spec fn apply_record(b: Seq<i32>, r: BackdropRecord) -> Seq<i32> {
    if record_skipped(r) {
        b
    } else {
        prefix_rows(b, r.data_offset as int, record_stride(r), record_height(r))
    }
}

/// `b` after the records were applied in order.
pub open spec fn apply_records(b: Seq<i32>, records: Seq<BackdropRecord>) -> Seq<i32>
    decreases records.len(),
{
    if records.len() == 0 {
        b
    } else {
        apply_records(apply_record(b, records[0]), records.drop_first())
    }
}

/// A record can be summed without leaving the buffer or overflowing.
pub open spec fn record_ok(b: Seq<i32>, r: BackdropRecord) -> bool {
    &&& r.tile_x0 <= r.tile_x1
    &&& r.tile_y0 <= r.tile_y1
    &&& !record_skipped(r) ==> {
        &&& r.data_offset + r.data_len <= b.len()
        &&& record_stride(r) * record_height(r) <= r.data_len
        &&& rows_fit(b, r.data_offset as int, record_stride(r), record_height(r))
    }
}

/// Every record, applied in order, can be summed without leaving the buffer or overflowing.
pub open spec fn records_ok(b: Seq<i32>, records: Seq<BackdropRecord>) -> bool
    decreases records.len(),
{
    records.len() == 0 || (record_ok(b, records[0]) && records_ok(
        apply_record(b, records[0]),
        records.drop_first(),
    ))
}

/// Replaces each row of each record's tile rectangle by its running sum, records in order.
pub fn run_backdrop_cumsum(backdrops: &mut [i32], records: &[BackdropRecord])
    requires
        records_ok(old(backdrops)@, records@),
    ensures
        final(backdrops)@ == apply_records(old(backdrops)@, records@),
{
    let mut ri: usize = 0;
    assert(records@.skip(0) == records@);
    while ri < records.len()
        invariant
            ri <= records@.len(),
            backdrops@.len() == old(backdrops)@.len(),
            apply_records(old(backdrops)@, records@) == apply_records(
                backdrops@,
                records@.skip(ri as int),
            ),
            records_ok(backdrops@, records@.skip(ri as int)),
        decreases records.len() - ri,
    {
        let record = records[ri];
        proof {
            assert(records@.skip(ri as int)[0] == record);
            assert(records@.skip(ri as int).drop_first() == records@.skip(ri + 1));
        }
        let stride = (record.tile_x1 - record.tile_x0) as usize;
        let height = (record.tile_y1 - record.tile_y0) as usize;
        if stride == 0 || height == 0 {
            ri = ri + 1;
            continue;
        }
        let base = record.data_offset as usize;
        let len = record.data_len as usize;
        let mut row: usize = 0;
        let total = backdrops.len();
        let ghost start_b = backdrops@;
        while row < height
            invariant
                stride == record_stride(record),
                height == record_height(record),
                stride > 0,
                row <= height,
                base == record.data_offset,
                len == record.data_len,
                base + len <= backdrops@.len(),
                stride * height <= len,
                backdrops@.len() == start_b.len(),
                backdrops@.len() == total,
                prefix_rows(start_b, base as int, stride as int, height as int) == prefix_rows(
                    backdrops@,
                    base + row * stride,
                    stride as int,
                    height - row,
                ),
                rows_fit(backdrops@, base + row * stride, stride as int, height - row),
            decreases height - row,
        {
            proof {
                lemma_row_in_range(row as int, height as int, stride as int);
                assert(row * stride + stride <= len);
                assert(base + row * stride + stride <= backdrops@.len());
            }
            let row_base = base + row * stride;
            let ghost before = backdrops@;
            let mut carry: i32 = 0;
            let mut k: usize = 0;
            while k < stride
                invariant
                    k <= stride,
                    row_base + stride <= backdrops@.len(),
                    backdrops@.len() == before.len(),
                    row_fits(before, row_base as int, stride as int),
                    carry == seq_sum(before.subrange(row_base as int, row_base + k)),
                    forall|i: int|
                        0 <= i < backdrops@.len() ==> #[trigger] backdrops@[i] == if row_base <= i
                            < row_base + k {
                            prefix_row(before, row_base as int, stride as int)[i]
                        } else {
                            before[i]
                        },
                decreases stride - k,
            {
                let ix = row_base + k;
                proof {
                    assert(before.subrange(row_base as int, ix + 1).drop_last() == before.subrange(
                        row_base as int,
                        ix as int,
                    ));
                    assert(row_base <= ix < row_base + stride);
                    assert(i32::MIN <= seq_sum(before.subrange(row_base as int, ix + 1))
                        <= i32::MAX);
                }
                carry = carry + backdrops[ix];
                backdrops[ix] = carry;
                k = k + 1;
            }
            assert(backdrops@ == prefix_row(before, row_base as int, stride as int));
            row = row + 1;
            proof {
                assert(base + row * stride == row_base + stride) by (nonlinear_arith)
                    requires
                        row_base == base + (row - 1) * stride,
                ;
            }
        }
        proof {
            assert(prefix_rows(backdrops@, base + row * stride, stride as int, 0) == backdrops@);
        }
        ri = ri + 1;
    }
}

proof fn lemma_row_in_range(row: int, height: int, stride: int)
    requires
        0 <= row < height,
        stride > 0,
    ensures
        row * stride + stride <= height * stride,
        row * stride >= 0,
{
    assert(row * stride + stride == (row + 1) * stride) by (nonlinear_arith);
    assert((row + 1) * stride <= height * stride) by (nonlinear_arith)
        requires
            row + 1 <= height,
            stride > 0,
    ;
    assert(row * stride >= 0) by (nonlinear_arith)
        requires
            row >= 0,
            stride > 0,
    ;
}

/// CPU stage that turns backdrop deltas into per-tile winding numbers.
pub struct CumsumCpuPipeline {}

/// One prepared run of the stage over a scene's backdrop buffer.
pub struct CumsumPrepared<'a> {
    pub backdrops: &'a mut Vec<i32>,
    pub path_records: &'a [PathRecord],
}

impl<'a> CumsumPrepared<'a> {
    pub fn run(&mut self)
        requires
            records_ok(old(self).backdrops@, old(self).path_records@),
        ensures
            final(self).path_records == old(self).path_records,
            *final(final(self).backdrops) == *final(old(self).backdrops),
            final(self).backdrops@ == apply_records(old(self).backdrops@, old(self).path_records@),
    {
        run_backdrop_cumsum(self.backdrops.as_mut_slice(), self.path_records);
    }
}

impl CumsumCpuPipeline {
    pub fn new() -> (p: CumsumCpuPipeline) {
        CumsumCpuPipeline {}
    }

    pub fn prepare<'a>(
        &self,
        backdrops: &'a mut Vec<i32>,
        path_records: &'a [PathRecord],
    ) -> (prepared: CumsumPrepared<'a>)
        ensures
            *prepared.backdrops == *old(backdrops),
            *final(backdrops) == *final(prepared.backdrops),
            prepared.path_records == path_records,
    {
        CumsumPrepared { backdrops, path_records }
    }
}

/// Runs the cumsum stage over a frame's backdrop buffer with its path records.
pub fn run_cumsum(cumsum: &CumsumCpuPipeline, backdrops: &mut Vec<i32>, path_records: &[PathRecord])
    requires
        records_ok(old(backdrops)@, path_records@),
    ensures
        final(backdrops)@ == apply_records(old(backdrops)@, path_records@),
{
    let mut prepared = cumsum.prepare(backdrops, path_records);
    prepared.run();
}

/// Index of column `col` of row `row` in a block of rows of `stride` values from `start`.
pub open spec fn cell(start: int, stride: int, row: int, col: int) -> int {
    start + row * stride + col
}

/// Summing rows touches nothing outside them, and each value becomes the running sum of its own
/// row in the input buffer: rows are scanned independently of each other.
pub proof fn law_rows_scan_independently(b: Seq<i32>, start: int, stride: int, rows: int)
    requires
        stride > 0,
        rows >= 0,
        0 <= start,
        start + rows * stride <= b.len(),
        rows_fit(b, start, stride, rows),
    ensures
        prefix_rows(b, start, stride, rows).len() == b.len(),
        forall|i: int|
            0 <= i < b.len() && !(start <= i < start + rows * stride) ==> #[trigger] prefix_rows(
                b,
                start,
                stride,
                rows,
            )[i] == b[i],
        forall|r: int, c: int|
            0 <= r < rows && 0 <= c < stride ==> prefix_rows(b, start, stride, rows)[#[trigger] cell(
                start,
                stride,
                r,
                c,
            )] == seq_sum(b.subrange(start + r * stride, cell(start, stride, r, c) + 1)),
    decreases rows,
{
    if rows > 0 {
        let b1 = prefix_row(b, start, stride);
        assert(start + (rows - 1) * stride + stride == start + rows * stride) by (nonlinear_arith);
        assert((rows - 1) * stride >= 0) by (nonlinear_arith)
            requires
                rows >= 1,
                stride > 0,
        ;
        law_rows_scan_independently(b1, start + stride, stride, rows - 1);
        let out = prefix_rows(b, start, stride, rows);
        assert(out == prefix_rows(b1, start + stride, stride, rows - 1));
        assert forall|r: int, c: int| 0 <= r < rows && 0 <= c < stride implies out[#[trigger] cell(
            start,
            stride,
            r,
            c,
        )] == seq_sum(b.subrange(start + r * stride, cell(start, stride, r, c) + 1)) by {
            lemma_cell_bounds(start, stride, rows, r, c);
            if r == 0 {
                assert(out[start + c] == b1[start + c]);
            } else {
                let r1 = r - 1;
                assert(cell(start + stride, stride, r1, c) == cell(start, stride, r, c));
                let lo = start + r * stride;
                let hi = cell(start, stride, r, c) + 1;
                assert(b1.subrange(lo, hi) =~= b.subrange(lo, hi));
            }
        }
    }
}

proof fn lemma_cell_bounds(start: int, stride: int, rows: int, r: int, c: int)
    requires
        stride > 0,
        0 <= r < rows,
        0 <= c < stride,
    ensures
        r * stride >= 0,
        cell(start, stride, r, c) + 1 <= start + rows * stride,
        r > 0 ==> start + stride + (r - 1) * stride == start + r * stride,
        r > 0 ==> cell(start + stride, stride, r - 1, c) == cell(start, stride, r, c),
        r == 0 ==> cell(start, stride, r, c) == start + c,
        r == 0 ==> start + r * stride == start,
{
    assert(r * stride >= 0) by (nonlinear_arith)
        requires
            r >= 0,
            stride > 0,
    ;
    assert(r * stride + stride <= rows * stride) by (nonlinear_arith)
        requires
            r + 1 <= rows,
            stride > 0,
    ;
    assert(stride + (r - 1) * stride == r * stride) by (nonlinear_arith);
    assert(r == 0 ==> r * stride == 0) by (nonlinear_arith);
}

/// One record sums exactly the rows of its tile rectangle and leaves every other value alone.
pub proof fn law_record_scans_its_rows(b: Seq<i32>, r: BackdropRecord)
    requires
        record_ok(b, r),
        !record_skipped(r),
    ensures
        forall|i: int|
            0 <= i < b.len() && !(r.data_offset <= i < r.data_offset + record_stride(r)
                * record_height(r)) ==> #[trigger] apply_record(b, r)[i] == b[i],
        forall|row: int, col: int|
            0 <= row < record_height(r) && 0 <= col < record_stride(r) ==> apply_record(b, r)[
                #[trigger] cell(r.data_offset as int, record_stride(r), row, col)] == seq_sum(
                b.subrange(
                    r.data_offset + row * record_stride(r),
                    cell(r.data_offset as int, record_stride(r), row, col) + 1,
                ),
            ),
{
    law_rows_scan_independently(b, r.data_offset as int, record_stride(r), record_height(r));
}

/// Index `i` lies in the rows a record sums.
pub open spec fn in_record(r: BackdropRecord, i: int) -> bool {
    !record_skipped(r) && r.data_offset <= i < r.data_offset + record_stride(r) * record_height(r)
}

/// No two records sum a common value.
pub open spec fn records_disjoint(records: Seq<BackdropRecord>) -> bool {
    forall|j: int, k: int, i: int|
        0 <= j < k < records.len() ==> !(#[trigger] in_record(records[j], i) && #[trigger] in_record(
            records[k],
            i,
        ))
}

/// Records over disjoint rows scan independently of each other and of their order: every
/// value of a record's rows becomes the running sum of its row in the input buffer, and
/// values outside every record keep their input value.
pub proof fn law_records_scan_independently(b: Seq<i32>, records: Seq<BackdropRecord>)
    requires
        records_ok(b, records),
        records_disjoint(records),
    ensures
        apply_records(b, records).len() == b.len(),
        forall|j: int|
            0 <= j < records.len() && !record_skipped(#[trigger] records[j]) ==> records[j].data_offset
                + record_stride(records[j]) * record_height(records[j]) <= b.len(),
        forall|i: int|
            0 <= i < b.len() && (forall|j: int| 0 <= j < records.len() ==> !in_record(#[trigger] records[j], i))
                ==> #[trigger] apply_records(b, records)[i] == b[i],
        forall|j: int, row: int, col: int|
            0 <= j < records.len() && !record_skipped(records[j]) && 0 <= row < record_height(records[j])
                && 0 <= col < record_stride(records[j]) ==> apply_records(b, records)[#[trigger] cell(
                records[j].data_offset as int,
                record_stride(records[j]),
                row,
                col,
            )] == seq_sum(
                b.subrange(
                    records[j].data_offset + row * record_stride(records[j]),
                    cell(records[j].data_offset as int, record_stride(records[j]), row, col) + 1,
                ),
            ),
    decreases records.len(),
{
    if records.len() > 0 {
        let r0 = records[0];
        let rest = records.drop_first();
        let b1 = apply_record(b, r0);
        if !record_skipped(r0) {
            law_record_scans_its_rows(b, r0);
            law_rows_scan_independently(b, r0.data_offset as int, record_stride(r0), record_height(r0));
        }
        assert(b1.len() == b.len());
        assert(records_disjoint(rest)) by {
            assert forall|j: int, k: int, i: int| 0 <= j < k < rest.len() implies !(#[trigger] in_record(rest[j], i)
                && #[trigger] in_record(rest[k], i)) by {
                assert(rest[j] == records[j + 1] && rest[k] == records[k + 1]);
                assert(!(in_record(records[j + 1], i) && in_record(records[k + 1], i)));
            }
        }
        // b1 differs from b only inside r0's rows.
        assert forall|i: int| 0 <= i < b.len() && !in_record(r0, i) implies b1[i] == b[i] by {}
        law_records_scan_independently(b1, rest);
        let out = apply_records(b, records);
        assert(out == apply_records(b1, rest));
        assert forall|j: int|
            0 <= j < records.len() && !record_skipped(#[trigger] records[j]) implies records[j].data_offset
                + record_stride(records[j]) * record_height(records[j]) <= b.len() by {
            if j > 0 {
                assert(rest[j - 1] == records[j]);
            }
        }
        assert forall|i: int|
            0 <= i < b.len() && (forall|j: int| 0 <= j < records.len() ==> !in_record(#[trigger] records[j], i))
                implies #[trigger] apply_records(b, records)[i] == b[i] by {
            assert(!in_record(records[0], i));
            assert forall|j: int| 0 <= j < rest.len() implies !in_record(#[trigger] rest[j], i) by {
                assert(rest[j] == records[j + 1]);
            }
        }
        assert forall|j: int, row: int, col: int|
            0 <= j < records.len() && !record_skipped(records[j]) && 0 <= row < record_height(records[j])
                && 0 <= col < record_stride(records[j]) implies apply_records(b, records)[#[trigger] cell(
                records[j].data_offset as int,
                record_stride(records[j]),
                row,
                col,
            )] == seq_sum(
                b.subrange(
                    records[j].data_offset + row * record_stride(records[j]),
                    cell(records[j].data_offset as int, record_stride(records[j]), row, col) + 1,
                ),
            ) by {
            let rj = records[j];
            let st = record_stride(rj);
            let x = cell(rj.data_offset as int, st, row, col);
            lemma_cell_bounds(rj.data_offset as int, st, record_height(rj), row, col);
            let lo = rj.data_offset + row * st;
            if j == 0 {
                assert(in_record(r0, x));
                assert forall|k: int| 0 <= k < rest.len() implies !in_record(#[trigger] rest[k], x) by {
                    assert(rest[k] == records[k + 1]);
                    assert(!(in_record(records[0], x) && in_record(records[k + 1], x)));
                }
                assert(x < b.len());
            } else {
                assert(rest[j - 1] == rj);
                assert(rj.data_offset + st * record_height(rj) <= b.len());
                assert forall|y: int| lo <= y < x + 1 implies b1[y] == b[y] by {
                    assert(in_record(rj, y));
                    assert(!(in_record(records[0], y) && in_record(records[j], y)));
                }
                assert(b1.subrange(lo, x + 1) =~= b.subrange(lo, x + 1));
            }
        }
    }
}

} // verus!
