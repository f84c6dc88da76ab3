//! Integer alpha-mask operations: combining coverage, SVG mask conversion, region copies.
use vstd::prelude::*;
use crate::bounds::Bounds;
use crate::image::{alpha_of, channel, gray, gray_pixel, lemma_index_in_image, Image};

verus! {

/// `a * b / 255`, rounded to nearest.
pub open spec fn combined(a: int, b: int) -> int {
    (a * b + 127) / 255
}

/// Multiplies two coverage bytes.
pub fn combine_alpha(a: u8, b: u8) -> (r: u8)
    ensures
        r == combined(a as int, b as int),
{
    proof {
        assert(a * b <= 255 * 255) by (nonlinear_arith)
            requires
                a <= 255,
                b <= 255,
        ;
    }
    ((a as u32 * b as u32 + 127) / 255) as u8
}

/// How a mask layer reads its mask content.
#[derive(Clone, Copy, Debug, PartialEq, Eq, Structural)]
pub enum MaskKind {
    Alpha,
    Luminance,
}

/// SVG luminance of an unpremultiplied pixel, scaled by its alpha: channels are first
/// unpremultiplied with rounding, then weighted 0.2126 / 0.7152 / 0.0722.
pub open spec fn luminance_alpha(px: u32) -> int {
    let a = channel(px, 3);
    if a == 0 {
        0
    } else {
        let sr = (channel(px, 0) * 255 + a / 2) / a;
        let sg = (channel(px, 1) * 255 + a / 2) / a;
        let sb = (channel(px, 2) * 255 + a / 2) / a;
        ((2126 * sr + 7152 * sg + 722 * sb) * a) / 2550000int
    }
}

/// The mask alpha an SVG luminance mask takes from a premultiplied pixel.
pub fn svg_luminance_mask_alpha(px: u32) -> (alpha: u8)
    ensures
        alpha == luminance_alpha(px),
{
    let a = (px >> 24u32) & 0xff;
    proof {
        assert((px >> 24u32) & 0xff == px / 16777216) by (bit_vector);
    }
    if a == 0 {
        return 0;
    }
    let r = px & 0xff;
    let g = (px >> 8u32) & 0xff;
    let b = (px >> 16u32) & 0xff;
    proof {
        assert(px & 0xff == px % 256) by (bit_vector);
        assert((px >> 8u32) & 0xff == (px / 256) % 256) by (bit_vector);
        assert((px >> 16u32) & 0xff == (px / 65536) % 256) by (bit_vector);
        lemma_unpremultiplied_bound(r as int, a as int);
        lemma_unpremultiplied_bound(g as int, a as int);
        lemma_unpremultiplied_bound(b as int, a as int);
    }
    let straight_r = (r * 255 + a / 2) / a;
    let straight_g = (g * 255 + a / 2) / a;
    let straight_b = (b * 255 + a / 2) / a;
    proof {
        lemma_luminance_fits(straight_r as int, straight_g as int, straight_b as int, a as int);
    }
    ((2126 * straight_r + 7152 * straight_g + 722 * straight_b) * a / (10_000 * 255)) as u8
}

proof fn lemma_unpremultiplied_bound(c: int, a: int)
    requires
        0 <= c < 256,
        0 < a < 256,
    ensures
        0 <= (c * 255 + a / 2) / a <= 65152,
        ((c * 255 + a / 2) / a) * a <= 65152,
{
    let s = (c * 255 + a / 2) / a;
    assert(s * a <= c * 255 + a / 2) by (nonlinear_arith)
        requires
            s == (c * 255 + a / 2) / a,
            a > 0,
            c * 255 + a / 2 >= 0,
    ;
    assert(s <= c * 255 + a / 2) by (nonlinear_arith)
        requires
            s == (c * 255 + a / 2) / a,
            a >= 1,
            c * 255 + a / 2 >= 0,
    ;
    assert(0 <= s) by (nonlinear_arith)
        requires
            s == (c * 255 + a / 2) / a,
            a >= 1,
            c * 255 + a / 2 >= 0,
    ;
}

proof fn lemma_luminance_fits(sr: int, sg: int, sb: int, a: int)
    requires
        0 <= sr <= 65152,
        0 <= sg <= 65152,
        0 <= sb <= 65152,
        sr * a <= 65152,
        sg * a <= 65152,
        sb * a <= 65152,
        0 < a < 256,
    ensures
        (2126 * sr + 7152 * sg + 722 * sb) * a <= 10000 * 65152,
        (2126 * sr + 7152 * sg + 722 * sb) * a >= 0,
        ((2126 * sr + 7152 * sg + 722 * sb) * a) / 2550000int <= 255,
{
    assert((2126 * sr + 7152 * sg + 722 * sb) * a == 2126 * (sr * a) + 7152 * (sg * a) + 722 * (
    sb * a)) by (nonlinear_arith);
    assert(sr * a >= 0 && sg * a >= 0 && sb * a >= 0) by (nonlinear_arith)
        requires
            sr >= 0,
            sg >= 0,
            sb >= 0,
            a > 0,
    ;
}

/// The coverage a mask of kind `kind` takes from one pixel.
pub open spec fn mask_alpha(px: u32, kind: MaskKind) -> int {
    match kind {
        MaskKind::Alpha => channel(px, 3),
        MaskKind::Luminance => luminance_alpha(px),
    }
}

/// Converts mask content to a coverage image: every pixel becomes gray of its alpha or of its
/// SVG luminance.
pub fn svg_mask_coverage(source: &Image, kind: MaskKind) -> (mask: Image)
    requires
        source.wf(),
    ensures
        mask.wf(),
        mask.width == source.width,
        mask.height == source.height,
        forall|i: int|
            0 <= i < mask.pixels@.len() ==> #[trigger] mask.pixels@[i] == gray(
                mask_alpha(source.pixels@[i], kind),
            ),
{
    let mut pixels: Vec<u32> = Vec::new();
    let mut i: usize = 0;
    while i < source.pixels.len()
        invariant
            i <= source.pixels@.len(),
            pixels@.len() == i,
            forall|k: int|
                0 <= k < i ==> #[trigger] pixels@[k] == gray(mask_alpha(source.pixels@[k], kind)),
        decreases source.pixels@.len() - i,
    {
        let src = source.pixels[i];
        let alpha = match kind {
            MaskKind::Alpha => alpha_of(src),
            MaskKind::Luminance => svg_luminance_mask_alpha(src),
        };
        pixels.push(gray_pixel(alpha));
        i = i + 1;
    }
    Image { width: source.width, height: source.height, pixels }
}

/// Scales every mask pixel's coverage by `opacity`; a fully opaque factor changes nothing.
pub fn apply_opacity_to_mask(mask: &mut Image, opacity: u8)
    ensures
        final(mask).width == old(mask).width,
        final(mask).height == old(mask).height,
        final(mask).pixels@.len() == old(mask).pixels@.len(),
        forall|i: int|
            0 <= i < final(mask).pixels@.len() ==> #[trigger] final(mask).pixels@[i] == if opacity
                == 255 {
                old(mask).pixels@[i]
            } else {
                gray(combined(channel(old(mask).pixels@[i], 3), opacity as int))
            },
{
    if opacity == 255 {
        return;
    }
    let mut i: usize = 0;
    while i < mask.pixels.len()
        invariant
            i <= mask.pixels@.len(),
            mask.width == old(mask).width,
            mask.height == old(mask).height,
            mask.pixels@.len() == old(mask).pixels@.len(),
            opacity != 255,
            forall|k: int|
                0 <= k < mask.pixels@.len() ==> #[trigger] mask.pixels@[k] == if k < i {
                    gray(combined(channel(old(mask).pixels@[k], 3), opacity as int))
                } else {
                    old(mask).pixels@[k]
                },
        decreases mask.pixels@.len() - i,
    {
        let alpha = combine_alpha(alpha_of(mask.pixels[i]), opacity);
        mask.pixels.set(i, gray_pixel(alpha));
        i = i + 1;
    }
}

/// Intersects a mask with a clip of the same size: each coverage becomes the product of both.
pub fn intersect_alpha_mask(mask: &mut Image, clip: &Image)
    requires
        old(mask).wf(),
        clip.wf(),
        old(mask).width == clip.width,
        old(mask).height == clip.height,
    ensures
        final(mask).wf(),
        final(mask).width == old(mask).width,
        final(mask).height == old(mask).height,
        forall|i: int|
            0 <= i < final(mask).pixels@.len() ==> #[trigger] final(mask).pixels@[i] == gray(
                combined(channel(old(mask).pixels@[i], 3), channel(clip.pixels@[i], 3)),
            ),
{
    let n = mask.pixels.len();
    let mut i: usize = 0;
    while i < n
        invariant
            i <= n,
            n == mask.pixels@.len(),
            clip.pixels@.len() == n,
            mask.width == old(mask).width,
            mask.height == old(mask).height,
            mask.pixels@.len() == old(mask).pixels@.len(),
            forall|k: int|
                0 <= k < n ==> #[trigger] mask.pixels@[k] == if k < i {
                    gray(combined(channel(old(mask).pixels@[k], 3), channel(clip.pixels@[k], 3)))
                } else {
                    old(mask).pixels@[k]
                },
        decreases n - i,
    {
        let alpha = combine_alpha(alpha_of(mask.pixels[i]), alpha_of(clip.pixels[i]));
        mask.pixels.set(i, gray_pixel(alpha));
        i = i + 1;
    }
}

/// Pixel `(x, y)` of an image placed at `bounds` lies outside `keep`.
pub open spec fn outside(bounds: Bounds, keep: Bounds, x: int, y: int) -> bool {
    !keep.covers(bounds.x0 + x, bounds.y0 + y)
}

/// Zeroes every pixel of a mask placed at `bounds` that lies outside `keep`.
pub fn clear_mask_outside_bounds(mask: &mut Image, bounds: Bounds, keep: Bounds)
    requires
        old(mask).wf(),
        old(mask).width <= i32::MAX,
        old(mask).height <= i32::MAX,
        bounds.x0 + old(mask).width <= i32::MAX,
        bounds.y0 + old(mask).height <= i32::MAX,
    ensures
        final(mask).wf(),
        final(mask).width == old(mask).width,
        final(mask).height == old(mask).height,
        forall|x: int, y: int|
            0 <= x < final(mask).width && 0 <= y < final(mask).height ==> #[trigger] final(mask).pixels@[final(mask).ix(x, y)] == if outside(bounds, keep, x, y) {
                0u32
            } else {
                old(mask).pixels@[old(mask).ix(x, y)]
            },
{
    let width = mask.width;
    let height = mask.height;
    let mut y: u32 = 0;
    while y < height
        invariant
            y <= height,
            width == mask.width,
            height == mask.height,
            mask.width == old(mask).width,
            mask.height == old(mask).height,
            mask.wf(),
            width <= i32::MAX,
            height <= i32::MAX,
            bounds.x0 + width <= i32::MAX,
            bounds.y0 + height <= i32::MAX,
            forall|px: int, py: int|
                0 <= px < width && 0 <= py < height ==> #[trigger] mask.pixels@[mask.ix(px, py)]
                    == if py < y && outside(bounds, keep, px, py) {
                    0u32
                } else {
                    old(mask).pixels@[old(mask).ix(px, py)]
                },
        decreases height - y,
    {
        let global_y = bounds.y0 + y as i32;
        let mut x: u32 = 0;
        while x < width
            invariant
                x <= width,
                y < height,
                width == mask.width,
                height == mask.height,
                mask.width == old(mask).width,
                mask.height == old(mask).height,
                mask.wf(),
                global_y == bounds.y0 + y,
                width <= i32::MAX,
                height <= i32::MAX,
                bounds.x0 + width <= i32::MAX,
                forall|px: int, py: int|
                    0 <= px < width && 0 <= py < height ==> #[trigger] mask.pixels@[mask.ix(px, py)]
                        == if (py < y || (py == y && px < x)) && outside(bounds, keep, px, py) {
                        0u32
                    } else {
                        old(mask).pixels@[old(mask).ix(px, py)]
                    },
            decreases width - x,
        {
            let global_x = bounds.x0 + x as i32;
            if global_x < keep.x0 || global_x >= keep.x1 || global_y < keep.y0 || global_y
                >= keep.y1 {
                proof {
                    lemma_index_in_image(width as int, height as int, x as int, y as int);
                }
                let ghost before = mask.pixels@;
                let ghost m0 = *mask;
                assert(outside(bounds, keep, x as int, y as int));
                mask.pixels.set((y * width + x) as usize, 0);
                proof {
                    assert forall|px: int, py: int|
                        0 <= px < width && 0 <= py < height implies #[trigger] mask.pixels@[mask.ix(
                            px,
                            py,
                        )] == if (py < y || (py == y && px < x + 1)) && outside(
                            bounds,
                            keep,
                            px,
                            py,
                        ) {
                            0u32
                        } else {
                            old(mask).pixels@[old(mask).ix(px, py)]
                        } by {
                        lemma_pixel_index_injective(width as int, height as int, px, py, x as int, y as int);
                        lemma_index_in_image(width as int, height as int, px, py);
                        assert(m0.pixels@[m0.ix(px, py)] == if (py < y || (py == y && px < x))
                            && outside(bounds, keep, px, py) {
                            0u32
                        } else {
                            old(mask).pixels@[old(mask).ix(px, py)]
                        });
                    }
                }
            } else {
                proof {
                    assert forall|px: int, py: int|
                        0 <= px < width && 0 <= py < height implies #[trigger] mask.pixels@[mask.ix(
                            px,
                            py,
                        )] == if (py < y || (py == y && px < x + 1)) && outside(
                            bounds,
                            keep,
                            px,
                            py,
                        ) {
                            0u32
                        } else {
                            old(mask).pixels@[old(mask).ix(px, py)]
                        } by {
                        if py == y && px == x {
                            assert(!outside(bounds, keep, px, py));
                        }
                    }
                }
            }
            x = x + 1;
        }
        y = y + 1;
    }
}

/// Distinct pixels of an image have distinct indices.
pub proof fn lemma_pixel_index_injective(width: int, height: int, x0: int, y0: int, x1: int, y1: int)
    requires
        0 <= x0 < width,
        0 <= x1 < width,
        0 <= y0 < height,
        0 <= y1 < height,
    ensures
        (y0 * width + x0 == y1 * width + x1) <==> (x0 == x1 && y0 == y1),
{
    if y0 < y1 {
        assert(y0 * width + x0 < y1 * width + x1) by (nonlinear_arith)
            requires
                y0 < y1,
                0 <= x0 < width,
                0 <= x1,
        ;
    } else if y1 < y0 {
        assert(y1 * width + x1 < y0 * width + x0) by (nonlinear_arith)
            requires
                y1 < y0,
                0 <= x1 < width,
                0 <= x0,
        ;
    }
}

} // verus!
