//! Integer parts of the CPU filter stage: pixel offsets, region copies, tiling, sampling
//! coordinates and the index arithmetic of the separable filters.
use vstd::prelude::*;
use crate::bounds::Bounds;
use crate::image::{lemma_index_in_image, Image};
use crate::mask::lemma_pixel_index_injective;

verus! {

/// The pixel `(x, y)` of an image (row-major, `width` pixels per row).
pub open spec fn pixel(pixels: Seq<u32>, width: int, x: int, y: int) -> u32 {
    pixels[y * width + x]
}

/// What an offset by `(dx, dy)` puts at `(tx, ty)`: the pixel it moved there, or transparent.
pub open spec fn offset_pixel(
    source: Seq<u32>,
    width: int,
    height: int,
    dx: int,
    dy: int,
    tx: int,
    ty: int,
) -> u32 {
    let sx = tx - dx;
    let sy = ty - dy;
    if 0 <= sx < width && 0 <= sy < height {
        pixel(source, width, sx, sy)
    } else {
        0u32
    }
}

fn copy_pixels(pixels: &Vec<u32>) -> (out: Vec<u32>)
    ensures
        out@ == pixels@,
{
    let mut out: Vec<u32> = Vec::new();
    let mut i: usize = 0;
    while i < pixels.len()
        invariant
            i <= pixels@.len(),
            out@ == pixels@.subrange(0, i as int),
        decreases pixels@.len() - i,
    {
        out.push(pixels[i]);
        i = i + 1;
    }
    out
}

fn fill_zero(pixels: &mut Vec<u32>)
    ensures
        final(pixels)@.len() == old(pixels)@.len(),
        forall|i: int| 0 <= i < final(pixels)@.len() ==> #[trigger] final(pixels)@[i] == 0u32,
{
    let mut i: usize = 0;
    while i < pixels.len()
        invariant
            i <= pixels@.len(),
            pixels@.len() == old(pixels)@.len(),
            forall|k: int| 0 <= k < i ==> #[trigger] pixels@[k] == 0u32,
        decreases pixels@.len() - i,
    {
        pixels.set(i, 0u32);
        i = i + 1;
    }
}

/// Moves every pixel by `(dx, dy)`; pixels moved off the image are lost and uncovered pixels
/// become transparent.
pub fn apply_offset(image: &mut Image, dx: i32, dy: i32)
    requires
        old(image).wf(),
        old(image).width <= i32::MAX,
        old(image).height <= i32::MAX,
        old(image).width + dx <= i32::MAX + 1,
        old(image).height + dy <= i32::MAX + 1,
    ensures
        final(image).wf(),
        final(image).width == old(image).width,
        final(image).height == old(image).height,
        forall|tx: int, ty: int|
            0 <= tx < final(image).width && 0 <= ty < final(image).height ==> #[trigger] pixel(
                final(image).pixels@,
                final(image).width as int,
                tx,
                ty,
            ) == offset_pixel(
                old(image).pixels@,
                old(image).width as int,
                old(image).height as int,
                dx as int,
                dy as int,
                tx,
                ty,
            ),
{
    if dx == 0 && dy == 0 {
        return;
    }
    let width = image.width;
    let height = image.height;
    let source = copy_pixels(&image.pixels);
    fill_zero(&mut image.pixels);
    let w = width as i32;
    let h = height as i32;
    proof {
        assert forall|tx: int, ty: int| 0 <= tx < width && 0 <= ty < height implies #[trigger] pixel(
            image.pixels@,
            width as int,
            tx,
            ty,
        ) == 0u32 by {
            lemma_index_in_image(width as int, height as int, tx, ty);
        }
    }
    let mut y: i32 = 0;
    while y < h
        invariant
            0 <= y <= h,
            w == width,
            h == height,
            image.width == width,
            image.height == height,
            image.wf(),
            source@ == old(image).pixels@,
            source@.len() == width * height,
            width + dx <= i32::MAX + 1,
            height + dy <= i32::MAX + 1,
            forall|tx: int, ty: int|
                0 <= tx < width && 0 <= ty < height ==> #[trigger] pixel(
                    image.pixels@,
                    width as int,
                    tx,
                    ty,
                ) == if 0 <= tx - dx < width && 0 <= ty - dy < y {
                    pixel(source@, width as int, tx - dx, ty - dy)
                } else {
                    0u32
                },
        decreases h - y,
    {
        let mut x: i32 = 0;
        while x < w
            invariant
                0 <= x <= w,
                0 <= y < h,
                w == width,
                h == height,
                image.width == width,
                image.height == height,
                image.wf(),
                source@ == old(image).pixels@,
                source@.len() == width * height,
                width + dx <= i32::MAX + 1,
                height + dy <= i32::MAX + 1,
                forall|tx: int, ty: int|
                    0 <= tx < width && 0 <= ty < height ==> #[trigger] pixel(
                        image.pixels@,
                        width as int,
                        tx,
                        ty,
                    ) == if 0 <= tx - dx < width && 0 <= ty - dy < height && (ty - dy < y || (ty
                        - dy == y && tx - dx < x)) {
                        pixel(source@, width as int, tx - dx, ty - dy)
                    } else {
                        0u32
                    },
            decreases w - x,
        {
            let tx = x + dx;
            let ty = y + dy;
            if !(tx < 0 || ty < 0 || tx >= w || ty >= h) {
                proof {
                    lemma_index_in_image(width as int, height as int, tx as int, ty as int);
                    lemma_index_in_image(width as int, height as int, x as int, y as int);
                }
                let ghost before = image.pixels@;
                let v = source[(y as u32 * width + x as u32) as usize];
                image.pixels.set((ty as u32 * width + tx as u32) as usize, v);
                proof {
                    assert forall|px: int, py: int|
                        0 <= px < width && 0 <= py < height implies #[trigger] pixel(
                            image.pixels@,
                            width as int,
                            px,
                            py,
                        ) == if 0 <= px - dx < width && 0 <= py - dy < height && (py - dy < y || (
                        py - dy == y && px - dx < x + 1)) {
                            pixel(source@, width as int, px - dx, py - dy)
                        } else {
                            0u32
                        } by {
                        lemma_index_in_image(width as int, height as int, px, py);
                        lemma_pixel_index_injective(
                            width as int,
                            height as int,
                            px,
                            py,
                            tx as int,
                            ty as int,
                        );
                        assert(pixel(before, width as int, px, py) == if 0 <= px - dx < width && 0
                            <= py - dy < height && (py - dy < y || (py - dy == y && px - dx < x)) {
                            pixel(source@, width as int, px - dx, py - dy)
                        } else {
                            0u32
                        });
                    }
                }
            } else {
                proof {
                    assert forall|px: int, py: int|
                        0 <= px < width && 0 <= py < height implies #[trigger] pixel(
                            image.pixels@,
                            width as int,
                            px,
                            py,
                        ) == if 0 <= px - dx < width && 0 <= py - dy < height && (py - dy < y || (
                        py - dy == y && px - dx < x + 1)) {
                            pixel(source@, width as int, px - dx, py - dy)
                        } else {
                            0u32
                        } by {
                        if py - dy == y && px - dx == x {
                            assert(px == tx && py == ty);
                        }
                    }
                }
            }
            x = x + 1;
        }
        y = y + 1;
    }
}

/// The pixel at `(x, y)`.
pub fn pixel_at(image: &Image, x: u32, y: u32) -> (px: u32)
    requires
        image.wf(),
        x < image.width,
        y < image.height,
    ensures
        px == pixel(image.pixels@, image.width as int, x as int, y as int),
{
    proof {
        lemma_index_in_image(image.width as int, image.height as int, x as int, y as int);
    }
    image.pixels[(y * image.width + x) as usize]
}

/// Floor division of `value` by a positive `divisor`.
pub fn div_floor_i32(value: i32, divisor: i32) -> (q: i32)
    requires
        divisor > 0,
    ensures
        q == value as int / divisor as int,
{
    let v = value as i64;
    let d = divisor as i64;
    let q = if v >= 0 {
        v / d
    } else {
        -((-v + d - 1) / d)
    };
    proof {
        lemma_floor_div(v as int, d as int);
    }
    q as i32
}

proof fn lemma_floor_div(v: int, d: int)
    requires
        d > 0,
        -0x8000_0000 <= v < 0x8000_0000,
    ensures
        v >= 0 ==> v / d == (v as nat / d as nat) as int,
        v < 0 ==> v / d == -((-v + d - 1) as nat / d as nat) as int,
        -0x8000_0000 <= v / d < 0x8000_0000,
{
    if v < 0 {
        let q = (-v + d - 1) as nat / d as nat;
        let r = (-v + d - 1) as nat % d as nat;
        assert(-v + d - 1 == q * d + r) by (nonlinear_arith)
            requires
                q == (-v + d - 1) as nat / d as nat,
                r == (-v + d - 1) as nat % d as nat,
                d > 0,
                -v + d - 1 >= 0,
        ;
        assert(0 <= r < d) by (nonlinear_arith)
            requires
                r == (-v + d - 1) as nat % d as nat,
                d > 0,
        ;
        // v == -q * d + (d - 1 - r), with 0 <= d - 1 - r < d
        assert(v == (-q) * d + (d - 1 - r)) by (nonlinear_arith)
            requires
                -v + d - 1 == q * d + r,
        ;
        vstd::arithmetic::div_mod::lemma_fundamental_div_mod_converse(v, d, -q, d - 1 - r);
        assert(v / d >= v) by (nonlinear_arith)
            requires
                v < 0,
                d > 0,
                v == (v / d) * d + v % d,
                0 <= v % d < d,
        ;
    } else {
        assert(v / d <= v) by (nonlinear_arith)
            requires
                v >= 0,
                d > 0,
        ;
        assert(v / d >= 0) by (nonlinear_arith)
            requires
                v >= 0,
                d > 0,
        ;
    }
}

/// Euclidean division by a divisor of either sign: the remainder is never negative.
proof fn lemma_div_negated_divisor(v: int, d: int)
    requires
        d < 0,
    ensures
        v / d == -(v / (-d)),
{
    let q = v / (-d);
    let r = v % (-d);
    vstd::arithmetic::div_mod::lemma_fundamental_div_mod(v, -d);
    assert(0 <= r < -d);
    assert(v == (-q) * d + r) by (nonlinear_arith)
        requires
            v == (-d) * q + r,
    ;
    assert(v / d == -q) by (nonlinear_arith)
        requires
            v == (-q) * d + r,
            0 <= r < -d,
            d < 0,
    ;
}

/// Euclidean division of `value` by a non-zero `divisor` (the remainder is never negative).
pub fn div_euclid_i32(value: i32, divisor: i32) -> (q: i32)
    requires
        divisor != 0,
        !(value == i32::MIN && divisor == -1),
    ensures
        q == value as int / divisor as int,
{
    if divisor > 0 {
        div_floor_i32(value, divisor)
    } else {
        let v = value as i64;
        let d = -(divisor as i64);
        let q = if v >= 0 {
            v / d
        } else {
            -((-v + d - 1) / d)
        };
        proof {
            lemma_floor_div(v as int, d as int);
            lemma_div_negated_divisor(v as int, divisor as int);
            if d == 1 {
                assert(v / 1 == v);
            } else {
                assert(-0x8000_0000 < v as int / d as int <= 0x4000_0000) by (nonlinear_arith)
                    requires
                        d >= 2,
                        -0x8000_0000 <= v < 0x8000_0000,
                ;
            }
        }
        (-q) as i32
    }
}

/// Ceiling counterpart of Euclidean division: `-((-value) div divisor)`.
pub fn div_ceil_i32(value: i32, divisor: i32) -> (q: i32)
    requires
        divisor != 0,
        value != i32::MIN,
    ensures
        q == -((-value) / divisor as int),
{
    let n = -value;
    let f = div_euclid_i32(n, divisor);
    proof {
        if divisor > 0 {
            lemma_floor_div(n as int, divisor as int);
            assert(f != i32::MIN) by (nonlinear_arith)
                requires
                    f == n as int / divisor as int,
                    n as int >= -0x7fff_ffff,
                    divisor > 0,
            ;
        } else {
            lemma_div_negated_divisor(n as int, divisor as int);
            lemma_floor_div(n as int, -(divisor as int));
            if divisor == -1 {
                assert(n as int / 1 == n as int);
            } else {
                assert(n as int / -(divisor as int) <= 0x7fff_ffff) by (nonlinear_arith)
                    requires
                        -(divisor as int) >= 2,
                        n <= 0x7fff_ffff,
                ;
            }
        }
    }
    -f
}

/// The divisor a downsampling by `factor` uses: at least 1, taken as a 32-bit signed number.
pub open spec fn downsample_divisor(factor: u32) -> i32 {
    if factor < 1 {
        1
    } else {
        #[verifier::truncate]
        (factor as i32)
    }
}

/// The rectangle of low-resolution pixels a downsampling touches: start rounded down, end
/// rounded up, by Euclidean division.
pub open spec fn downsampled_spec(bounds: Bounds, factor: u32) -> Bounds {
    let f = downsample_divisor(factor) as int;
    Bounds {
        x0: ((bounds.x0 as int) / f) as i32,
        y0: ((bounds.y0 as int) / f) as i32,
        x1: (-((-(bounds.x1 as int)) / f)) as i32,
        y1: (-((-(bounds.y1 as int)) / f)) as i32,
    }
}

/// The downsampled rectangle, or `None` when it is empty.
pub fn downsampled_bounds(bounds: Bounds, factor: u32) -> (r: Option<Bounds>)
    requires
        bounds.x1 != i32::MIN,
        bounds.y1 != i32::MIN,
        downsample_divisor(factor) == -1 ==> bounds.x0 != i32::MIN && bounds.y0 != i32::MIN,
    ensures
        r == if downsampled_spec(bounds, factor).empty_spec() {
            None
        } else {
            Some(downsampled_spec(bounds, factor))
        },
{
    let divisor: i32 = if factor < 1 {
        1
    } else {
        #[verifier::truncate]
        (factor as i32)
    };
    proof {
        assert(factor >= 1 ==> (#[verifier::truncate] (factor as i32)) != 0i32) by (bit_vector);
    }
    let factor = divisor;
    let x0 = div_euclid_i32(bounds.x0, factor);
    let y0 = div_euclid_i32(bounds.y0, factor);
    let x1 = div_ceil_i32(bounds.x1, factor);
    let y1 = div_ceil_i32(bounds.y1, factor);
    let low = Bounds::new(x0, y0, x1, y1);
    if low.is_empty() {
        None
    } else {
        Some(low)
    }
}

/// How a convolution samples outside the image.
#[derive(Clone, Copy, Debug, PartialEq, Eq, Structural)]
pub enum ConvolveEdgeMode {
    Transparent,
    Duplicate,
    Wrap,
}

pub open spec fn clamp_spec(v: int, lo: int, hi: int) -> int {
    if v < lo {
        lo
    } else if v > hi {
        hi
    } else {
        v
    }
}

/// The image pixel a convolution reads for the possibly out-of-range position `(x, y)`.
pub open spec fn sample_coord_spec(
    width: int,
    height: int,
    x: int,
    y: int,
    edge_mode: ConvolveEdgeMode,
) -> Option<(u32, u32)> {
    match edge_mode {
        ConvolveEdgeMode::Transparent => if 0 <= x < width && 0 <= y < height {
            Some((x as u32, y as u32))
        } else {
            None
        },
        ConvolveEdgeMode::Duplicate => Some(
            (clamp_spec(x, 0, width - 1) as u32, clamp_spec(y, 0, height - 1) as u32),
        ),
        ConvolveEdgeMode::Wrap => Some(((x % width) as u32, (y % height) as u32)),
    }
}

pub fn convolve_sample_coord(
    width: u32,
    height: u32,
    x: i32,
    y: i32,
    edge_mode: ConvolveEdgeMode,
) -> (r: Option<(u32, u32)>)
    requires
        width <= i32::MAX,
        height <= i32::MAX,
        edge_mode != ConvolveEdgeMode::Transparent ==> width > 0 && height > 0,
    ensures
        r == sample_coord_spec(width as int, height as int, x as int, y as int, edge_mode),
        r matches Some(p) ==> p.0 < width && p.1 < height,
{
    let w = width as i32;
    let h = height as i32;
    match edge_mode {
        ConvolveEdgeMode::Transparent => {
            if x >= 0 && y >= 0 && x < w && y < h {
                Some((x as u32, y as u32))
            } else {
                None
            }
        },
        ConvolveEdgeMode::Duplicate => {
            let cx = if x < 0 {
                0
            } else if x > w - 1 {
                w - 1
            } else {
                x
            };
            let cy = if y < 0 {
                0
            } else if y > h - 1 {
                h - 1
            } else {
                y
            };
            Some((cx as u32, cy as u32))
        },
        ConvolveEdgeMode::Wrap => {
            let rx = rem_euclid_i32(x, w);
            let ry = rem_euclid_i32(y, h);
            Some((rx as u32, ry as u32))
        },
    }
}

/// Euclidean remainder of `value` by a positive `divisor`.
pub fn rem_euclid_i32(value: i32, divisor: i32) -> (r: i32)
    requires
        divisor > 0,
    ensures
        r == (value as int) % (divisor as int),
        0 <= r < divisor,
{
    let q = div_floor_i32(value, divisor);
    let v = value as i64;
    let d = divisor as i64;
    proof {
        vstd::arithmetic::div_mod::lemma_fundamental_div_mod(value as int, divisor as int);
        vstd::arithmetic::div_mod::lemma_mod_bound(value as int, divisor as int);
        assert(q * d == value - (value as int) % (divisor as int)) by (nonlinear_arith)
            requires
                value as int == (divisor as int) * (value as int / divisor as int) + (value as int)
                    % (divisor as int),
                q as int == value as int / divisor as int,
                d == divisor,
        ;
    }
    let r = v - (q as i64) * d;
    r as i32
}

/// Orientation of one pass of a separable filter.
#[derive(Clone, Copy, Debug, PartialEq, Eq, Structural)]
pub enum MorphologyAxis {
    X,
    Y,
}

/// Index of position `pos` on line `line` of a pass along `axis`: rows for `X`, columns for
/// `Y`.
pub open spec fn axis_index_spec(line: int, pos: int, width: int, axis: MorphologyAxis) -> int {
    match axis {
        MorphologyAxis::X => line * width + pos,
        MorphologyAxis::Y => pos * width + line,
    }
}

pub fn morphology_axis_index(line: usize, pos: usize, width: usize, axis: MorphologyAxis) -> (ix: usize)
    requires
        axis_index_spec(line as int, pos as int, width as int, axis) <= usize::MAX,
    ensures
        ix == axis_index_spec(line as int, pos as int, width as int, axis),
{
    proof {
        assert(line * width >= 0 && pos * width >= 0) by (nonlinear_arith);
    }
    match axis {
        MorphologyAxis::X => line * width + pos,
        MorphologyAxis::Y => pos * width + line,
    }
}

/// Unpremultiplied value of a channel, rounded and capped at 255; 0 for a transparent pixel.
pub open spec fn straight_index_spec(premul: int, alpha: int) -> int {
    if alpha == 0 {
        0
    } else {
        let v = (premul * 255 + alpha / 2) / alpha;
        if v < 255 { v } else { 255 }
    }
}

/// Table index of a premultiplied channel in an unpremultiplied transfer table.
pub fn straight_channel_index(premul: u32, alpha: u32) -> (ix: usize)
    requires
        premul * 255 + (if alpha == 0 { 1 } else { alpha as int }) / 2 <= u32::MAX,
    ensures
        ix == straight_index_spec(premul as int, alpha as int),
        ix <= 255,
{
    let safe_alpha = if alpha > 1 { alpha } else { 1 };
    let v = (premul * 255 + safe_alpha / 2) / safe_alpha;
    let mut index = if v < 255 { v } else { 255 };
    if alpha == 0 {
        index = 0;
    }
    index as usize
}

/// An image of a filter placed at `bounds` covers exactly those pixels.
pub open spec fn placed(image: Image, bounds: Bounds) -> bool {
    &&& image.wf()
    &&& image.width <= i32::MAX
    &&& image.height <= i32::MAX
    &&& bounds.width_spec() == image.width
    &&& bounds.height_spec() == image.height
}

/// `region` lies inside `bounds`, or is empty.
pub open spec fn region_inside(region: Bounds, bounds: Bounds) -> bool {
    region.empty_spec() || (bounds.x0 <= region.x0 && region.x1 <= bounds.x1 && bounds.y0
        <= region.y0 && region.y1 <= bounds.y1)
}

/// Local pixel `(x, y)` of an image placed at `bounds` lies in `region`.
pub open spec fn local_in(bounds: Bounds, region: Bounds, x: int, y: int) -> bool {
    region.covers(bounds.x0 + x, bounds.y0 + y)
}

/// Copies the pixels of `region` from `source` to `target`, both placed at `bounds`.
pub fn copy_region_pixels(source: &Image, target: &mut Image, bounds: Bounds, region: Bounds)
    requires
        placed(*source, bounds),
        old(target).wf(),
        old(target).width == source.width,
        old(target).height == source.height,
        region_inside(region, bounds),
    ensures
        final(target).wf(),
        final(target).width == old(target).width,
        final(target).height == old(target).height,
        forall|x: int, y: int|
            0 <= x < source.width && 0 <= y < source.height ==> #[trigger] pixel(
                final(target).pixels@,
                source.width as int,
                x,
                y,
            ) == if local_in(bounds, region, x, y) {
                pixel(source.pixels@, source.width as int, x, y)
            } else {
                pixel(old(target).pixels@, source.width as int, x, y)
            },
{
    if region.is_empty() {
        return;
    }
    let width = source.width;
    let height = source.height;
    let mut y = region.y0;
    while y < region.y1
        invariant
            region.y0 <= y <= region.y1,
            !region.empty_spec(),
            placed(*source, bounds),
            region_inside(region, bounds),
            width == source.width,
            height == source.height,
            target.wf(),
            target.width == width,
            target.height == height,
            forall|px: int, py: int|
                0 <= px < width && 0 <= py < height ==> #[trigger] pixel(
                    target.pixels@,
                    width as int,
                    px,
                    py,
                ) == if local_in(bounds, region, px, py) && bounds.y0 + py < y {
                    pixel(source.pixels@, width as int, px, py)
                } else {
                    pixel(old(target).pixels@, width as int, px, py)
                },
        decreases region.y1 - y,
    {
        let local_y = (y - bounds.y0) as u32;
        let mut x = region.x0;
        while x < region.x1
            invariant
                region.x0 <= x <= region.x1,
                region.y0 <= y < region.y1,
                !region.empty_spec(),
                placed(*source, bounds),
                region_inside(region, bounds),
                local_y == y - bounds.y0,
                width == source.width,
                height == source.height,
                target.wf(),
                target.width == width,
                target.height == height,
                forall|px: int, py: int|
                    0 <= px < width && 0 <= py < height ==> #[trigger] pixel(
                        target.pixels@,
                        width as int,
                        px,
                        py,
                    ) == if local_in(bounds, region, px, py) && (bounds.y0 + py < y || (bounds.y0
                        + py == y && bounds.x0 + px < x)) {
                        pixel(source.pixels@, width as int, px, py)
                    } else {
                        pixel(old(target).pixels@, width as int, px, py)
                    },
            decreases region.x1 - x,
        {
            let local_x = (x - bounds.x0) as u32;
            proof {
                lemma_index_in_image(width as int, height as int, local_x as int, local_y as int);
            }
            let ix = (local_y * width + local_x) as usize;
            let ghost before = target.pixels@;
            let v = source.pixels[ix];
            target.pixels.set(ix, v);
            proof {
                assert forall|px: int, py: int|
                    0 <= px < width && 0 <= py < height implies #[trigger] pixel(
                        target.pixels@,
                        width as int,
                        px,
                        py,
                    ) == if local_in(bounds, region, px, py) && (bounds.y0 + py < y || (bounds.y0
                        + py == y && bounds.x0 + px < x + 1)) {
                        pixel(source.pixels@, width as int, px, py)
                    } else {
                        pixel(old(target).pixels@, width as int, px, py)
                    } by {
                    lemma_index_in_image(width as int, height as int, px, py);
                    lemma_pixel_index_injective(
                        width as int,
                        height as int,
                        px,
                        py,
                        local_x as int,
                        local_y as int,
                    );
                    assert(pixel(before, width as int, px, py) == if local_in(bounds, region, px, py)
                        && (bounds.y0 + py < y || (bounds.y0 + py == y && bounds.x0 + px < x)) {
                        pixel(source.pixels@, width as int, px, py)
                    } else {
                        pixel(old(target).pixels@, width as int, px, py)
                    });
                }
            }
            x = x + 1;
        }
        y = y + 1;
    }
}

/// A transparent image of the source's size holding the source's pixels inside `region`.
pub fn clipped_image(source: &Image, bounds: Bounds, region: Bounds) -> (image: Image)
    requires
        placed(*source, bounds),
        region_inside(region, bounds),
    ensures
        image.wf(),
        image.width == source.width,
        image.height == source.height,
        forall|x: int, y: int|
            0 <= x < source.width && 0 <= y < source.height ==> #[trigger] pixel(
                image.pixels@,
                source.width as int,
                x,
                y,
            ) == if local_in(bounds, region, x, y) {
                pixel(source.pixels@, source.width as int, x, y)
            } else {
                0u32
            },
{
    let mut image = Image::transparent(source.width, source.height);
    let ghost empty = image.pixels@;
    copy_region_pixels(source, &mut image, bounds, region);
    proof {
        assert forall|x: int, y: int| 0 <= x < source.width && 0 <= y < source.height implies pixel(
            empty,
            source.width as int,
            x,
            y,
        ) == 0u32 by {
            lemma_index_in_image(source.width as int, source.height as int, x, y);
        }
    }
    image
}

/// The alpha channel of a pixel alone.
pub open spec fn alpha_only(px: u32) -> u32 {
    ((px as int / 16777216) * 16777216) as u32
}

/// The source image with its color channels cleared, keeping only alpha.
pub fn source_alpha_image(source: &Image) -> (image: Image)
    requires
        source.wf(),
    ensures
        image.wf(),
        image.width == source.width,
        image.height == source.height,
        forall|i: int| 0 <= i < image.pixels@.len() ==> #[trigger] image.pixels@[i] == alpha_only(
            source.pixels@[i],
        ),
{
    let mut pixels: Vec<u32> = Vec::new();
    let mut i: usize = 0;
    while i < source.pixels.len()
        invariant
            i <= source.pixels@.len(),
            pixels@.len() == i,
            forall|k: int| 0 <= k < i ==> #[trigger] pixels@[k] == alpha_only(source.pixels@[k]),
        decreases source.pixels@.len() - i,
    {
        let px = source.pixels[i];
        let a = px & 0xff00_0000u32;
        proof {
            assert(px & 0xff00_0000u32 == (px / 16777216) * 16777216) by (bit_vector);
        }
        pixels.push(a);
        i = i + 1;
    }
    Image { width: source.width, height: source.height, pixels }
}

/// Where a graph primitive reads an input from.
#[derive(Clone, Copy, Debug, PartialEq, Eq, Structural)]
pub enum FilterInput {
    SourceGraphic,
    SourceAlpha,
    Primitive(usize),
}

/// The image a graph input names: the filter source, its alpha, or an earlier output.
pub fn resolve_graph_input<'a>(
    input: FilterInput,
    source_graphic: &'a Image,
    source_alpha: &'a Image,
    outputs: &'a [Image],
) -> (image: &'a Image)
    requires
        input matches FilterInput::Primitive(ix) ==> ix < outputs@.len(),
    ensures
        *image == match input {
            FilterInput::SourceGraphic => *source_graphic,
            FilterInput::SourceAlpha => *source_alpha,
            FilterInput::Primitive(ix) => outputs@[ix as int],
        },
{
    match input {
        FilterInput::SourceGraphic => source_graphic,
        FilterInput::SourceAlpha => source_alpha,
        FilterInput::Primitive(index) => &outputs[index],
    }
}

/// The image a dual-input primitive names as its second input, which it must have.
pub fn resolve_required_graph_input<'a>(
    input2: Option<FilterInput>,
    source_graphic: &'a Image,
    source_alpha: &'a Image,
    outputs: &'a [Image],
) -> (image: &'a Image)
    requires
        input2 is Some,
        input2->0 matches FilterInput::Primitive(ix) ==> ix < outputs@.len(),
    ensures
        *image == match input2->0 {
            FilterInput::SourceGraphic => *source_graphic,
            FilterInput::SourceAlpha => *source_alpha,
            FilterInput::Primitive(ix) => outputs@[ix as int],
        },
{
    match input2 {
        Some(input) => resolve_graph_input(input, source_graphic, source_alpha, outputs),
        None => source_graphic,
    }
}

/// Buffer index of pixel `(region.x0 + col, region.y0 + row)` in a buffer of `width` pixels
/// per row whose origin is `bounds`'s top-left corner.
pub open spec fn region_index(bounds: Bounds, region: Bounds, width: int, row: int, col: int) -> int {
    (region.y0 + row - bounds.y0) * width + (region.x0 + col - bounds.x0)
}

/// A region's last pixel, and so every one of its pixels, has an index that fits the buffer's
/// index type.
pub open spec fn region_indices_fit(bounds: Bounds, region: Bounds, width: u32) -> bool {
    region.empty_spec() || {
        &&& bounds.x0 <= region.x0
        &&& bounds.y0 <= region.y0
        &&& region.x1 - 1 - bounds.x0 <= i32::MAX
        &&& region.y1 - 1 - bounds.y0 <= i32::MAX
        &&& (region.y1 - 1 - bounds.y0) * width + (region.x1 - 1 - bounds.x0) <= u32::MAX
    }
}

/// The buffer indices of the pixels of `region`, row by row, in a buffer of `width` pixels per
/// row whose origin is `bounds`'s top-left corner.
pub fn region_pixel_indices(bounds: Bounds, region: Bounds, width: u32) -> (r: Vec<usize>)
    requires
        region_indices_fit(bounds, region, width),
    ensures
        region.empty_spec() ==> r@.len() == 0,
        !region.empty_spec() ==> r@.len() == region.height_spec() * region.width_spec(),
        forall|row: int, col: int|
            0 <= row < region.height_spec() && 0 <= col < region.width_spec() ==> r@[row
                * region.width_spec() + col] == #[trigger] region_index(
                bounds,
                region,
                width as int,
                row,
                col,
            ),
{
    let mut out: Vec<usize> = Vec::new();
    if region.is_empty() {
        return out;
    }
    let ghost w = region.width_spec();
    let ghost h = region.height_spec();
    let ghost ymax = region.y1 - 1 - bounds.y0;
    let ghost xmax = region.x1 - 1 - bounds.x0;
    let mut y: i32 = region.y0;
    while y < region.y1
        invariant
            !region.empty_spec(),
            region_indices_fit(bounds, region, width),
            w == region.x1 - region.x0,
            h == region.y1 - region.y0,
            region.y0 <= y <= region.y1,
            out@.len() == (y - region.y0) * w,
            forall|row: int, col: int|
                0 <= row < y - region.y0 && 0 <= col < w ==> out@[row * w + col]
                    == #[trigger] region_index(bounds, region, width as int, row, col),
        decreases region.y1 - y,
    {
        let local_y = (y - bounds.y0) as u32;
        let mut x: i32 = region.x0;
        let ghost row = y - region.y0;
        proof {
            assert(row * w >= 0) by (nonlinear_arith)
                requires
                    row >= 0,
                    w >= 0,
            ;
        }
        while x < region.x1
            invariant
                !region.empty_spec(),
                region_indices_fit(bounds, region, width),
                w == region.x1 - region.x0,
                h == region.y1 - region.y0,
                region.y0 <= y < region.y1,
                row == y - region.y0,
                local_y == y - bounds.y0,
                region.x0 <= x <= region.x1,
                out@.len() == row * w + (x - region.x0),
                forall|rr: int, col: int|
                    (0 <= rr < row && 0 <= col < w) || (rr == row && 0 <= col < x - region.x0)
                        ==> out@[rr * w + col] == #[trigger] region_index(
                        bounds,
                        region,
                        width as int,
                        rr,
                        col,
                    ),
            decreases region.x1 - x,
        {
            let local_x = (x - bounds.x0) as u32;
            proof {
                assert(local_y as int * width as int + local_x as int <= u32::MAX) by (nonlinear_arith)
                    requires
                        0 <= local_y <= region.y1 - 1 - bounds.y0,
                        0 <= local_x <= region.x1 - 1 - bounds.x0,
                        (region.y1 - 1 - bounds.y0) * width + (region.x1 - 1 - bounds.x0)
                            <= u32::MAX,
                ;
            }
            let ix = local_y * width + local_x;
            proof {
                assert(ix as int == region_index(bounds, region, width as int, row, x - region.x0));
            }
            let ghost before = out@;
            out.push(ix as usize);
            x = x + 1;
            proof {
                assert forall|rr: int, col: int|
                    (0 <= rr < row && 0 <= col < w) || (rr == row && 0 <= col < x - region.x0)
                        implies out@[rr * w + col] == #[trigger] region_index(
                        bounds,
                        region,
                        width as int,
                        rr,
                        col,
                    ) by {
                    if rr < row {
                        assert(rr * w + col < row * w) by (nonlinear_arith)
                            requires
                                0 <= rr < row,
                                0 <= col < w,
                        ;
                        assert(out@[rr * w + col] == before[rr * w + col]);
                    } else if col < x - 1 - region.x0 {
                        assert(out@[rr * w + col] == before[rr * w + col]);
                    }
                }
            }
        }
        proof {
            assert(row * w + w == (row + 1) * w) by (nonlinear_arith);
        }
        y = y + 1;
    }
    proof {
        assert(out@.len() == h * w);
    }
    out
}

/// The position a tiling primitive reads for `v`: `v` wrapped into `[start, start + len)`.
pub open spec fn wrapped(v: int, start: int, len: int) -> int {
    start + (v - start) % len
}

/// Fills `region` with copies of the pixels of `source_region` (clipped to `bounds`), repeated
/// in both directions; everything else is transparent.
pub fn tile_image(source: &Image, bounds: Bounds, region: Bounds, source_region: Bounds) -> (image: Image)
    requires
        placed(*source, bounds),
        region_inside(region, bounds),
    ensures
        image.wf(),
        image.width == source.width,
        image.height == source.height,
        forall|x: int, y: int|
            0 <= x < source.width && 0 <= y < source.height ==> #[trigger] pixel(
                image.pixels@,
                source.width as int,
                x,
                y,
            ) == ({
                let sr = source_region.intersect_spec(bounds);
                if local_in(bounds, region, x, y) && !sr.empty_spec() {
                    pixel(
                        source.pixels@,
                        source.width as int,
                        wrapped(bounds.x0 + x, sr.x0 as int, sr.width_spec()) - bounds.x0,
                        wrapped(bounds.y0 + y, sr.y0 as int, sr.height_spec()) - bounds.y0,
                    )
                } else {
                    0u32
                }
            }),
{
    let width = source.width;
    let height = source.height;
    let mut image = Image::transparent(width, height);
    let source_region = source_region.intersect(bounds);
    proof {
        assert forall|x: int, y: int| 0 <= x < width && 0 <= y < height implies pixel(
            image.pixels@,
            width as int,
            x,
            y,
        ) == 0u32 by {
            lemma_index_in_image(width as int, height as int, x, y);
        }
    }
    if region.is_empty() || source_region.is_empty() {
        return image;
    }
    let tile_width = source_region.width() as i32;
    let tile_height = source_region.height() as i32;
    let mut y = region.y0;
    while y < region.y1
        invariant
            region.y0 <= y <= region.y1,
            !region.empty_spec(),
            !source_region.empty_spec(),
            placed(*source, bounds),
            region_inside(region, bounds),
            region_inside(source_region, bounds),
            tile_width == source_region.width_spec(),
            tile_height == source_region.height_spec(),
            width == source.width,
            height == source.height,
            image.wf(),
            image.width == width,
            image.height == height,
            forall|px: int, py: int|
                0 <= px < width && 0 <= py < height ==> #[trigger] pixel(
                    image.pixels@,
                    width as int,
                    px,
                    py,
                ) == if local_in(bounds, region, px, py) && bounds.y0 + py < y {
                    pixel(
                        source.pixels@,
                        width as int,
                        wrapped(bounds.x0 + px, source_region.x0 as int, tile_width as int)
                            - bounds.x0,
                        wrapped(bounds.y0 + py, source_region.y0 as int, tile_height as int)
                            - bounds.y0,
                    )
                } else {
                    0u32
                },
        decreases region.y1 - y,
    {
        let local_y = (y - bounds.y0) as u32;
        let sy = source_region.y0 + rem_euclid_i32(y - source_region.y0, tile_height);
        let source_y = (sy - bounds.y0) as u32;
        let mut x = region.x0;
        while x < region.x1
            invariant
                region.x0 <= x <= region.x1,
                region.y0 <= y < region.y1,
                !region.empty_spec(),
                !source_region.empty_spec(),
                placed(*source, bounds),
                region_inside(region, bounds),
                region_inside(source_region, bounds),
                tile_width == source_region.width_spec(),
                tile_height == source_region.height_spec(),
                local_y == y - bounds.y0,
                sy == wrapped(y as int, source_region.y0 as int, tile_height as int),
                source_y == sy - bounds.y0,
                0 <= source_y < height,
                width == source.width,
                height == source.height,
                image.wf(),
                image.width == width,
                image.height == height,
                forall|px: int, py: int|
                    0 <= px < width && 0 <= py < height ==> #[trigger] pixel(
                        image.pixels@,
                        width as int,
                        px,
                        py,
                    ) == if local_in(bounds, region, px, py) && (bounds.y0 + py < y || (bounds.y0
                        + py == y && bounds.x0 + px < x)) {
                        pixel(
                            source.pixels@,
                            width as int,
                            wrapped(bounds.x0 + px, source_region.x0 as int, tile_width as int)
                                - bounds.x0,
                            wrapped(bounds.y0 + py, source_region.y0 as int, tile_height as int)
                                - bounds.y0,
                        )
                    } else {
                        0u32
                    },
            decreases region.x1 - x,
        {
            let local_x = (x - bounds.x0) as u32;
            let sx = source_region.x0 + rem_euclid_i32(x - source_region.x0, tile_width);
            let source_x = (sx - bounds.x0) as u32;
            proof {
                lemma_index_in_image(width as int, height as int, local_x as int, local_y as int);
                lemma_index_in_image(width as int, height as int, source_x as int, source_y as int);
            }
            let v = source.pixels[(source_y * width + source_x) as usize];
            let ix = (local_y * width + local_x) as usize;
            let ghost before = image.pixels@;
            image.pixels.set(ix, v);
            proof {
                assert forall|px: int, py: int|
                    0 <= px < width && 0 <= py < height implies #[trigger] pixel(
                        image.pixels@,
                        width as int,
                        px,
                        py,
                    ) == if local_in(bounds, region, px, py) && (bounds.y0 + py < y || (bounds.y0
                        + py == y && bounds.x0 + px < x + 1)) {
                        pixel(
                            source.pixels@,
                            width as int,
                            wrapped(bounds.x0 + px, source_region.x0 as int, tile_width as int)
                                - bounds.x0,
                            wrapped(bounds.y0 + py, source_region.y0 as int, tile_height as int)
                                - bounds.y0,
                        )
                    } else {
                        0u32
                    } by {
                    lemma_index_in_image(width as int, height as int, px, py);
                    lemma_pixel_index_injective(
                        width as int,
                        height as int,
                        px,
                        py,
                        local_x as int,
                        local_y as int,
                    );
                    assert(pixel(before, width as int, px, py) == if local_in(bounds, region, px, py)
                        && (bounds.y0 + py < y || (bounds.y0 + py == y && bounds.x0 + px < x)) {
                        pixel(
                            source.pixels@,
                            width as int,
                            wrapped(bounds.x0 + px, source_region.x0 as int, tile_width as int)
                                - bounds.x0,
                            wrapped(bounds.y0 + py, source_region.y0 as int, tile_height as int)
                                - bounds.y0,
                        )
                    } else {
                        0u32
                    });
                }
            }
            x = x + 1;
        }
        y = y + 1;
    }
    image
}

} // verus!
