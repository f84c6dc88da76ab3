//! Morphology passes: each output sample is the extreme of the samples within `radius` of it
//! along a row or a column, found with a monotone deque per channel.
//!
//! Samples are keys that order like the channel values they stand for.
use vstd::prelude::*;
use crate::filter_ops::{axis_index_spec, morphology_axis_index, MorphologyAxis};

verus! {

/// Erosion keeps the smallest sample of a window, dilation the largest.
#[derive(Clone, Copy, Debug, PartialEq, Eq, Structural)]
pub enum MorphologyOperator {
    Erode,
    Dilate,
}

/// `candidate` is at least as extreme as `current`.
pub open spec fn replaces(candidate: u32, current: u32, op: MorphologyOperator) -> bool {
    match op {
        MorphologyOperator::Erode => candidate <= current,
        MorphologyOperator::Dilate => candidate >= current,
    }
}

/// `a` is strictly more extreme than `b`.
pub open spec fn beats(a: u32, b: u32, op: MorphologyOperator) -> bool {
    match op {
        MorphologyOperator::Erode => a < b,
        MorphologyOperator::Dilate => a > b,
    }
}

/// Whether `candidate` is at least as extreme as `current`.
pub fn morphology_replaces(candidate: u32, current: u32, operator: MorphologyOperator) -> (r: bool)
    ensures
        r == replaces(candidate, current, operator),
{
    match operator {
        MorphologyOperator::Erode => candidate <= current,
        MorphologyOperator::Dilate => candidate >= current,
    }
}

/// First position of the window around `pos`.
pub open spec fn window_start(pos: int, radius: int) -> int {
    if pos >= radius {
        pos - radius
    } else {
        0
    }
}

/// Last position of the window around `pos` on a line of `len` samples.
pub open spec fn window_end(pos: int, radius: int, len: int) -> int {
    if pos + radius < len - 1 {
        pos + radius
    } else {
        len - 1
    }
}

/// Erosion treats everything beyond the line as empty: a window that reaches past either end
/// gives 0.
pub open spec fn erodes_to_zero(op: MorphologyOperator, pos: int, radius: int, len: int) -> bool {
    op == MorphologyOperator::Erode && (pos < radius || pos + radius >= len)
}

/// `out` is the extreme of `vals` over the window `lo..=hi`: one of its samples, and at least as
/// extreme as each.
pub open spec fn window_extreme(vals: Seq<u32>, lo: int, hi: int, op: MorphologyOperator, out: u32) -> bool {
    &&& exists|k: int| lo <= k <= hi && out == #[trigger] vals[k]
    &&& forall|j: int| lo <= j <= hi ==> replaces(out, #[trigger] vals[j], op)
}

/// Channel `ch` of the samples of line `line`, in order.
pub open spec fn line_values(
    source: Seq<[u32; 4]>,
    line: int,
    len: int,
    width: int,
    axis: MorphologyAxis,
    ch: int,
) -> Seq<u32> {
    Seq::new(len as nat, |p: int| source[axis_index_spec(line, p, width, axis)][ch])
}

/// Channel `ch` of output position `pos`: 0 where erosion reaches past the line, else the
/// extreme of the window around `pos`.
pub open spec fn morphology_sample(
    vals: Seq<u32>,
    pos: int,
    radius: int,
    op: MorphologyOperator,
    out: u32,
) -> bool {
    if erodes_to_zero(op, pos, radius, vals.len() as int) {
        out == 0
    } else {
        window_extreme(
            vals,
            window_start(pos, radius),
            window_end(pos, radius, vals.len() as int),
            op,
            out,
        )
    }
}

/// Lower end of the run of positions deque entry `q` stands for.
pub open spec fn seg_lo(d: Seq<usize>, q: int) -> int {
    if q == 0 {
        -1
    } else {
        d[q - 1] as int
    }
}

/// The deque of one channel after the samples before `pushed` were pushed: increasing
/// positions, the last being `pushed - 1`; from `head` on, each entry beats the next and is
/// at least as extreme as every sample of its run; entries before `head` lie before `lo`.
pub open spec fn deque_inv(
    vals: Seq<u32>,
    d: Seq<usize>,
    head: int,
    pushed: int,
    lo: int,
    op: MorphologyOperator,
) -> bool {
    &&& 0 <= head <= d.len()
    &&& pushed <= vals.len()
    &&& d.len() > head || (d.len() == 0 && pushed == 0)
    &&& forall|a: int, b: int| 0 <= a < b < d.len() ==> #[trigger] d[a] < #[trigger] d[b]
    &&& forall|q: int| 0 <= q < d.len() ==> #[trigger] d[q] < pushed
    &&& d.len() > 0 ==> d.last() == pushed - 1
    &&& forall|q: int| 0 <= q < head ==> #[trigger] d[q] < lo
    &&& forall|a: int, b: int|
        head <= a < b < d.len() ==> beats(
            vals[#[trigger] d[a] as int],
            vals[#[trigger] d[b] as int],
            op,
        )
    &&& forall|q: int, j: int|
        head <= q < d.len() && seg_lo(d, q) < j <= d[q] ==> #[trigger] replaces(
            vals[d[q] as int],
            vals[j],
            op,
        )
}

proof fn lemma_replaces_trans(a: u32, b: u32, c: u32, op: MorphologyOperator)
    requires
        replaces(a, b, op),
        replaces(b, c, op),
    ensures
        replaces(a, c, op),
{
}

/// Some entry from `a` on stands for position `j`.
proof fn lemma_segment_cover(d: Seq<usize>, a: int, b: int, j: int) -> (t: int)
    requires
        0 <= a < b <= d.len(),
        seg_lo(d, a) < j <= d[b - 1],
    ensures
        a <= t < b,
        seg_lo(d, t) < j <= d[t],
    decreases b - a,
{
    if j <= d[a] as int {
        a
    } else {
        lemma_segment_cover(d, a + 1, b, j)
    }
}

/// Pushes sample `pushed` onto the deque: entries it is at least as extreme as leave from the
/// back first.
fn deque_push(
    source: &[[u32; 4]],
    deque: &mut Vec<usize>,
    head: usize,
    line: usize,
    pushed: usize,
    width: usize,
    axis: MorphologyAxis,
    ch: usize,
    operator: MorphologyOperator,
    Ghost(vals): Ghost<Seq<u32>>,
    Ghost(lo): Ghost<int>,
)
    requires
        ch < 4,
        pushed < vals.len(),
        deque_inv(vals, old(deque)@, head as int, pushed as int, lo, operator),
        forall|p: int|
            0 <= p < vals.len() ==> axis_index_spec(line as int, p, width as int, axis)
                < source@.len(),
        forall|p: int|
            0 <= p < vals.len() ==> #[trigger] vals[p] == source@[axis_index_spec(
                line as int,
                p,
                width as int,
                axis,
            )][ch as int],
    ensures
        deque_inv(vals, final(deque)@, head as int, pushed + 1, lo, operator),
{
    let source_len = source.len();
    proof {
        assert(axis_index_spec(line as int, pushed as int, width as int, axis) < source@.len());
    }
    let sample = source[morphology_axis_index(line, pushed, width, axis)][ch];
    proof {
        assert(sample == vals[pushed as int]);
    }
    let ghost d0 = deque@;
    while deque.len() > head
        invariant
            deque@.len() >= head,
            deque@ == d0.subrange(0, deque@.len() as int),
            deque@.len() <= d0.len(),
            sample == vals[pushed as int],
            pushed < vals.len(),
            ch < 4,
            deque_inv(vals, d0, head as int, pushed as int, lo, operator),
            forall|t: int|
                deque@.len() <= t < d0.len() ==> #[trigger] replaces(
                    sample,
                    vals[d0[t] as int],
                    operator,
                ),
            forall|p: int|
                0 <= p < vals.len() ==> axis_index_spec(line as int, p, width as int, axis)
                    < source@.len(),
            forall|p: int|
                0 <= p < vals.len() ==> #[trigger] vals[p] == source@[axis_index_spec(
                    line as int,
                    p,
                    width as int,
                    axis,
                )][ch as int],
            source_len == source@.len(),
        ensures
            deque@.len() == head || (deque@.len() > head && !replaces(
                sample,
                vals[d0[deque@.len() - 1] as int],
                operator,
            )),
        decreases deque@.len(),
    {
        let back = deque[deque.len() - 1];
        proof {
            assert(back == d0[deque@.len() - 1]);
            assert(back < pushed);
            assert(axis_index_spec(line as int, back as int, width as int, axis) < source@.len());
        }
        let back_value = source[morphology_axis_index(line, back, width, axis)][ch];
        proof {
            assert(back_value == vals[back as int]);
        }
        if !morphology_replaces(sample, back_value, operator) {
            break;
        }
        deque.pop();
        proof {
            assert(deque@ =~= d0.subrange(0, deque@.len() as int));
        }
    }
    let m = deque.len();
    let ghost dm = deque@;
    deque.push(pushed);
    proof {
        let d1 = deque@;
        assert(d1 == dm.push(pushed));
        assert forall|a: int, b: int| 0 <= a < b < d1.len() implies #[trigger] d1[a] < #[trigger] d1[b] by {
            assert(d1[a] == d0[a]);
            if b < m {
                assert(d1[b] == d0[b]);
            }
        }
        assert forall|q: int| 0 <= q < d1.len() implies #[trigger] d1[q] < pushed + 1 by {
            if q < m {
                assert(d1[q] == d0[q]);
            }
        }
        assert forall|q: int| 0 <= q < head implies #[trigger] d1[q] < lo by {
            assert(d1[q] == d0[q]);
        }
        // The entry before the new one, if it is still live, beats the new sample.
        if m > head {
            assert(!replaces(sample, vals[d0[m - 1] as int], operator));
        }
        assert forall|a: int, b: int| head <= a < b < d1.len() implies beats(
            vals[#[trigger] d1[a] as int],
            vals[#[trigger] d1[b] as int],
            operator,
        ) by {
            assert(d1[a] == d0[a]);
            if b < m {
                assert(d1[b] == d0[b]);
            } else {
                assert(d1[b] == pushed);
                assert(!replaces(sample, vals[d0[m - 1] as int], operator));
                if a < m - 1 {
                    assert(beats(vals[d0[a] as int], vals[d0[m - 1] as int], operator));
                }
            }
        }
        assert forall|q: int, j: int| head <= q < d1.len() && seg_lo(d1, q) < j <= d1[q] implies #[trigger] replaces(
            vals[d1[q] as int],
            vals[j],
            operator,
        ) by {
            if q < m {
                assert(d1[q] == d0[q]);
                assert(seg_lo(d1, q) == seg_lo(d0, q));
                assert(replaces(vals[d0[q] as int], vals[j], operator));
            } else {
                assert(d1[q] == pushed);
                if j < pushed {
                    // Position `j` belonged to the run of an entry that was popped.
                    assert(seg_lo(d1, q) == seg_lo(d0, m as int));
                    assert(d0.len() > m);
                    assert(d0[d0.len() - 1] == pushed - 1);
                    let t = lemma_segment_cover(d0, m as int, d0.len() as int, j);
                    assert(replaces(vals[d0[t] as int], vals[j], operator));
                    assert(replaces(sample, vals[d0[t] as int], operator));
                    lemma_replaces_trans(sample, vals[d0[t] as int], vals[j], operator);
                }
            }
        }
    }
}

/// Drops the entries before `start` from the front and returns the sample of the front entry,
/// the extreme of the window `start..pushed`.
fn deque_front(
    source: &[[u32; 4]],
    deque: &Vec<usize>,
    head: &mut usize,
    line: usize,
    start: usize,
    width: usize,
    axis: MorphologyAxis,
    ch: usize,
    operator: MorphologyOperator,
    Ghost(vals): Ghost<Seq<u32>>,
    Ghost(pushed): Ghost<int>,
    Ghost(lo): Ghost<int>,
) -> (out: u32)
    requires
        ch < 4,
        lo <= start < pushed,
        deque_inv(vals, deque@, *old(head) as int, pushed, lo, operator),
        forall|p: int|
            0 <= p < vals.len() ==> axis_index_spec(line as int, p, width as int, axis)
                < source@.len(),
        forall|p: int|
            0 <= p < vals.len() ==> #[trigger] vals[p] == source@[axis_index_spec(
                line as int,
                p,
                width as int,
                axis,
            )][ch as int],
    ensures
        deque_inv(vals, deque@, *final(head) as int, pushed, start as int, operator),
        window_extreme(vals, start as int, pushed - 1, operator, out),
{
    let ghost d = deque@;
    let source_len = source.len();
    while *head < deque.len() && deque[*head] < start
        invariant
            deque@ == d,
            *old(head) <= *head <= d.len(),
            lo <= start < pushed,
            deque_inv(vals, d, *old(head) as int, pushed, lo, operator),
            forall|q: int| 0 <= q < *head ==> #[trigger] d[q] < start,
        decreases d.len() - *head,
    {
        *head = *head + 1;
    }
    let h = *head;
    proof {
        assert(d.len() > 0);
        assert(d[d.len() - 1] == pushed - 1);
        assert(h < d.len());
        assert forall|a: int, b: int| h <= a < b < d.len() implies beats(
            vals[#[trigger] d[a] as int],
            vals[#[trigger] d[b] as int],
            operator,
        ) by {}
        assert forall|q: int, j: int| h <= q < d.len() && seg_lo(d, q) < j <= d[q] implies #[trigger] replaces(
            vals[d[q] as int],
            vals[j],
            operator,
        ) by {}
    }
    let front = deque[h];
    proof {
        assert(front < pushed);
        assert(axis_index_spec(line as int, front as int, width as int, axis) < source@.len());
    }
    let out = source[morphology_axis_index(line, front, width, axis)][ch];
    proof {
        assert(out == vals[front as int]);
        assert forall|j: int| start <= j <= pushed - 1 implies replaces(out, #[trigger] vals[j], operator) by {
            assert(seg_lo(d, h as int) < start) by {
                if h > 0 {
                    assert(d[h - 1] < start);
                }
            }
            let t = lemma_segment_cover(d, h as int, d.len() as int, j);
            assert(replaces(vals[d[t] as int], vals[j], operator));
            if t > h {
                assert(beats(vals[d[h as int] as int], vals[d[t] as int], operator));
            }
        }
        assert(start <= front <= pushed - 1);
        assert(out == vals[front as int]);
    }
    out
}

/// Lines and samples per line of a pass along `axis` over a `width` x `height` image.
pub open spec fn axis_dims(width: int, height: int, axis: MorphologyAxis) -> (int, int) {
    match axis {
        MorphologyAxis::X => (height, width),
        MorphologyAxis::Y => (width, height),
    }
}

proof fn lemma_axis_index(
    width: int,
    height: int,
    axis: MorphologyAxis,
    line: int,
    pos: int,
    line2: int,
    pos2: int,
)
    requires
        0 <= line < axis_dims(width, height, axis).0,
        0 <= pos < axis_dims(width, height, axis).1,
        0 <= line2 < axis_dims(width, height, axis).0,
        0 <= pos2 < axis_dims(width, height, axis).1,
    ensures
        0 <= axis_index_spec(line, pos, width, axis) < width * height,
        (axis_index_spec(line, pos, width, axis) == axis_index_spec(line2, pos2, width, axis))
            <==> (line == line2 && pos == pos2),
{
    match axis {
        MorphologyAxis::X => {
            crate::image::lemma_index_in_image(width, height, pos, line);
            crate::mask::lemma_pixel_index_injective(width, height, pos, line, pos2, line2);
        },
        MorphologyAxis::Y => {
            crate::image::lemma_index_in_image(width, height, line, pos);
            crate::mask::lemma_pixel_index_injective(width, height, line, pos, line2, pos2);
        },
    }
}

/// The outputs of lines before `line`, and of positions before `pos` on `line`, are done.
pub open spec fn outputs_done(
    source: Seq<[u32; 4]>,
    target: Seq<[u32; 4]>,
    width: int,
    height: int,
    radius: int,
    axis: MorphologyAxis,
    op: MorphologyOperator,
    line: int,
    pos: int,
) -> bool {
    let (line_count, line_len) = axis_dims(width, height, axis);
    forall|l: int, p: int, ch: int|
        0 <= l < line_count && 0 <= p < line_len && 0 <= ch < 4 && (l < line || (l == line && p
            < pos)) ==> morphology_sample(
            line_values(source, l, line_len, width, axis, ch),
            p,
            radius,
            op,
            #[trigger] target[axis_index_spec(l, p, width, axis)][ch],
        )
}

/// One morphology pass along `axis`: every output sample is 0 where erosion reaches past the
/// line, and otherwise the extreme, per channel, of the samples within `radius` of it.
pub fn morphology_axis(
    source: &[[u32; 4]],
    target: &mut [[u32; 4]],
    width: usize,
    height: usize,
    radius: usize,
    axis: MorphologyAxis,
    operator: MorphologyOperator,
)
    requires
        source@.len() == width * height,
        old(target)@.len() == width * height,
    ensures
        final(target)@.len() == old(target)@.len(),
        ({
            let (line_count, line_len) = axis_dims(width as int, height as int, axis);
            forall|line: int, pos: int, ch: int|
                0 <= line < line_count && 0 <= pos < line_len && 0 <= ch < 4 ==> morphology_sample(
                    line_values(source@, line, line_len, width as int, axis, ch),
                    pos,
                    radius as int,
                    operator,
                    #[trigger] final(target)@[axis_index_spec(line, pos, width as int, axis)][ch],
                )
        }),
{
    let (line_count, line_len) = match axis {
        MorphologyAxis::X => (height, width),
        MorphologyAxis::Y => (width, height),
    };
    if line_len == 0 {
        return;
    }
    let mut line: usize = 0;
    while line < line_count
        invariant
            (line_count as int, line_len as int) == axis_dims(width as int, height as int, axis),
            line_len > 0,
            line <= line_count,
            source@.len() == width * height,
            target@.len() == width * height,
            outputs_done(
                source@,
                target@,
                width as int,
                height as int,
                radius as int,
                axis,
                operator,
                line as int,
                0,
            ),
        decreases line_count - line,
    {
        let ghost v0 = line_values(source@, line as int, line_len as int, width as int, axis, 0);
        let ghost v1 = line_values(source@, line as int, line_len as int, width as int, axis, 1);
        let ghost v2 = line_values(source@, line as int, line_len as int, width as int, axis, 2);
        let ghost v3 = line_values(source@, line as int, line_len as int, width as int, axis, 3);
        proof {
            assert forall|p: int| 0 <= p < line_len implies axis_index_spec(
                line as int,
                p,
                width as int,
                axis,
            ) < source@.len() by {
                lemma_axis_index(width as int, height as int, axis, line as int, p, line as int, p);
            }
        }
        let mut d0: Vec<usize> = Vec::new();
        let mut d1: Vec<usize> = Vec::new();
        let mut d2: Vec<usize> = Vec::new();
        let mut d3: Vec<usize> = Vec::new();
        let mut h0: usize = 0;
        let mut h1: usize = 0;
        let mut h2: usize = 0;
        let mut h3: usize = 0;
        let ghost mut lo: int = 0;
        let mut pushed_end: usize = 0;
        let mut pos: usize = 0;
        while pos < line_len
            invariant
                (line_count as int, line_len as int) == axis_dims(width as int, height as int, axis),
                line < line_count,
                line_len > 0,
                pos <= line_len,
                source@.len() == width * height,
                target@.len() == width * height,
                v0 == line_values(source@, line as int, line_len as int, width as int, axis, 0),
                v1 == line_values(source@, line as int, line_len as int, width as int, axis, 1),
                v2 == line_values(source@, line as int, line_len as int, width as int, axis, 2),
                v3 == line_values(source@, line as int, line_len as int, width as int, axis, 3),
                forall|p: int|
                    0 <= p < line_len ==> axis_index_spec(line as int, p, width as int, axis)
                        < source@.len(),
                pos == 0 ==> pushed_end == 0,
                pos > 0 ==> pushed_end == window_end(pos - 1, radius as int, line_len as int) + 1,
                0 <= lo <= window_start(pos as int, radius as int),
                deque_inv(v0, d0@, h0 as int, pushed_end as int, lo, operator),
                deque_inv(v1, d1@, h1 as int, pushed_end as int, lo, operator),
                deque_inv(v2, d2@, h2 as int, pushed_end as int, lo, operator),
                deque_inv(v3, d3@, h3 as int, pushed_end as int, lo, operator),
                outputs_done(
                    source@,
                    target@,
                    width as int,
                    height as int,
                    radius as int,
                    axis,
                    operator,
                    line as int,
                    pos as int,
                ),
            decreases line_len - pos,
        {
            let reach = pos.saturating_add(radius);
            let end = if reach < line_len - 1 {
                reach
            } else {
                line_len - 1
            };
            proof {
                assert(end == window_end(pos as int, radius as int, line_len as int));
            }
            while pushed_end <= end
                invariant
                    line_len > 0,
                    end < line_len,
                    end == window_end(pos as int, radius as int, line_len as int),
                    pushed_end <= end + 1,
                    v0 == line_values(source@, line as int, line_len as int, width as int, axis, 0),
                    v1 == line_values(source@, line as int, line_len as int, width as int, axis, 1),
                    v2 == line_values(source@, line as int, line_len as int, width as int, axis, 2),
                    v3 == line_values(source@, line as int, line_len as int, width as int, axis, 3),
                    forall|p: int|
                        0 <= p < line_len ==> axis_index_spec(line as int, p, width as int, axis)
                            < source@.len(),
                    deque_inv(v0, d0@, h0 as int, pushed_end as int, lo, operator),
                    deque_inv(v1, d1@, h1 as int, pushed_end as int, lo, operator),
                    deque_inv(v2, d2@, h2 as int, pushed_end as int, lo, operator),
                    deque_inv(v3, d3@, h3 as int, pushed_end as int, lo, operator),
                decreases end + 1 - pushed_end,
            {
                deque_push(source, &mut d0, h0, line, pushed_end, width, axis, 0, operator, Ghost(v0), Ghost(lo));
                deque_push(source, &mut d1, h1, line, pushed_end, width, axis, 1, operator, Ghost(v1), Ghost(lo));
                deque_push(source, &mut d2, h2, line, pushed_end, width, axis, 2, operator, Ghost(v2), Ghost(lo));
                deque_push(source, &mut d3, h3, line, pushed_end, width, axis, 3, operator, Ghost(v3), Ghost(lo));
                pushed_end = pushed_end + 1;
            }
            let source_len = source.len();
            proof {
                lemma_axis_index(width as int, height as int, axis, line as int, pos as int, line as int, pos as int);
            }
            let out_ix = morphology_axis_index(line, pos, width, axis);
            let ghost before = target@;
            if operator == MorphologyOperator::Erode && (pos < radius || reach >= line_len) {
                target[out_ix] = [0u32, 0u32, 0u32, 0u32];
            } else {
                let start = pos.saturating_sub(radius);
                let o0 = deque_front(source, &d0, &mut h0, line, start, width, axis, 0, operator, Ghost(v0), Ghost(pushed_end as int), Ghost(lo));
                let o1 = deque_front(source, &d1, &mut h1, line, start, width, axis, 1, operator, Ghost(v1), Ghost(pushed_end as int), Ghost(lo));
                let o2 = deque_front(source, &d2, &mut h2, line, start, width, axis, 2, operator, Ghost(v2), Ghost(pushed_end as int), Ghost(lo));
                let o3 = deque_front(source, &d3, &mut h3, line, start, width, axis, 3, operator, Ghost(v3), Ghost(pushed_end as int), Ghost(lo));
                proof {
                    lo = start as int;
                }
                target[out_ix] = [o0, o1, o2, o3];
            }
            proof {
                let t = target@;
                assert forall|l: int, p: int, ch: int|
                    0 <= l < line_count && 0 <= p < line_len && 0 <= ch < 4 && (l < line || (l
                        == line && p < pos + 1)) implies morphology_sample(
                    line_values(source@, l, line_len as int, width as int, axis, ch),
                    p,
                    radius as int,
                    operator,
                    #[trigger] t[axis_index_spec(l, p, width as int, axis)][ch],
                ) by {
                    lemma_axis_index(width as int, height as int, axis, l, p, line as int, pos as int);
                    if l == line && p == pos {
                        if ch == 0 {
                            assert(line_values(source@, l, line_len as int, width as int, axis, ch) == v0);
                        } else if ch == 1 {
                            assert(line_values(source@, l, line_len as int, width as int, axis, ch) == v1);
                        } else if ch == 2 {
                            assert(line_values(source@, l, line_len as int, width as int, axis, ch) == v2);
                        } else {
                            assert(line_values(source@, l, line_len as int, width as int, axis, ch) == v3);
                        }
                    } else {
                        assert(t[axis_index_spec(l, p, width as int, axis)] == before[axis_index_spec(
                            l,
                            p,
                            width as int,
                            axis,
                        )]);
                    }
                }
            }
            pos = pos + 1;
        }
        line = line + 1;
    }
}

} // verus!
