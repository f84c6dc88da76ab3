//! Glyph images placed over one tile: which glyph pixels reach which tile pixels, and the
//! sRGB composite of one glyph pixel.
//!
//! A glyph run is drawn image by image. Each glyph image is a rectangle of texels placed at a
//! pixel position; the part of it inside the tile is walked row by row, and every tile pixel
//! that the clip mask keeps receives the glyph's texel there. Brush colours are sampled by the
//! caller at pixel centres; blending in linear light is the caller's too.
use vstd::prelude::*;
use crate::fine::{over, scaled, TILE_PIXELS};
use crate::image::{packed, rgba8_pack, unpack_rgba8};
use crate::mask::{combine_alpha, combined};
use crate::fine::{scale_premul_u8, src_over_premul_u8};

verus! {

/// A glyph image placed in target pixels: its top-left pixel and its size in texels.
#[derive(Clone, Copy, Debug, PartialEq, Eq, Structural)]
pub struct GlyphBox {
    pub x0: i32,
    pub y0: i32,
    pub width: u32,
    pub height: u32,
}

/// One glyph pixel that reaches a tile pixel the clip mask keeps: the glyph's position in the
/// run, the target pixel, the tile pixel, the texel's index in the glyph image (row-major,
/// counted in texels), and the clip coverage there.
#[derive(Clone, Copy, Debug, PartialEq, Eq, Structural)]
pub struct GlyphTexel {
    pub glyph: u32,
    pub x: i32,
    pub y: i32,
    pub tile_ix: u32,
    pub image_ix: u32,
    pub clip: u8,
}

/// The tile and every glyph image fit 32-bit signed pixel coordinates, and every glyph image
/// has 32-bit texel indices.
pub open spec fn glyphs_fit(tile_x: u32, tile_y: u32, glyphs: Seq<GlyphBox>) -> bool {
    &&& tile_x * 16 + 16 <= i32::MAX
    &&& tile_y * 16 + 16 <= i32::MAX
    &&& glyphs.len() <= u32::MAX
    &&& forall|g: int|
        0 <= g < glyphs.len() ==> {
            let b = #[trigger] glyphs[g];
            &&& b.x0 + b.width <= i32::MAX
            &&& b.y0 + b.height <= i32::MAX
            &&& b.width * b.height <= u32::MAX
        }
}

pub open spec fn max_int(a: int, b: int) -> int {
    if a >= b {
        a
    } else {
        b
    }
}

pub open spec fn min_int(a: int, b: int) -> int {
    if a <= b {
        a
    } else {
        b
    }
}

/// The texels of target row `y` from column `x0` up to `x0 + n`, where the clip keeps the tile
/// pixel.
pub open spec fn row_texels(
    tile_x: u32,
    tile_y: u32,
    g: int,
    b: GlyphBox,
    clip_mask: Seq<u8>,
    y: int,
    x0: int,
    n: int,
) -> Seq<GlyphTexel>
    decreases n,
{
    if n <= 0 {
        Seq::empty()
    } else {
        let prior = row_texels(tile_x, tile_y, g, b, clip_mask, y, x0, n - 1);
        let x = x0 + n - 1;
        let tile_ix = (y - tile_y * 16) * 16 + (x - tile_x * 16);
        let clip = clip_mask[tile_ix];
        if clip == 0 {
            prior
        } else {
            prior.push(
                GlyphTexel {
                    glyph: g as u32,
                    x: x as i32,
                    y: y as i32,
                    tile_ix: tile_ix as u32,
                    image_ix: ((y - b.y0) * b.width + (x - b.x0)) as u32,
                    clip,
                },
            )
        }
    }
}

/// The part of glyph `b` inside the tile: left, top, right and bottom target pixels.
pub open spec fn overlap(tile_x: u32, tile_y: u32, b: GlyphBox) -> (int, int, int, int) {
    (
        max_int(b.x0 as int, tile_x * 16),
        max_int(b.y0 as int, tile_y * 16),
        min_int(b.x0 + b.width, tile_x * 16 + 16),
        min_int(b.y0 + b.height, tile_y * 16 + 16),
    )
}

/// The texels of the first `n` overlapping rows of glyph `g`.
pub open spec fn glyph_rows(tile_x: u32, tile_y: u32, g: int, b: GlyphBox, clip_mask: Seq<u8>, n: int) -> Seq<
    GlyphTexel,
>
    decreases n,
{
    let o = overlap(tile_x, tile_y, b);
    if n <= 0 {
        Seq::empty()
    } else {
        glyph_rows(tile_x, tile_y, g, b, clip_mask, n - 1) + row_texels(
            tile_x,
            tile_y,
            g,
            b,
            clip_mask,
            o.1 + n - 1,
            o.0,
            o.2 - o.0,
        )
    }
}

/// The texels of one glyph over the tile, row by row; none when it misses the tile.
pub open spec fn glyph_texels(tile_x: u32, tile_y: u32, g: int, b: GlyphBox, clip_mask: Seq<u8>) -> Seq<GlyphTexel> {
    let o = overlap(tile_x, tile_y, b);
    if o.0 >= o.2 || o.1 >= o.3 {
        Seq::empty()
    } else {
        glyph_rows(tile_x, tile_y, g, b, clip_mask, o.3 - o.1)
    }
}

/// The texels of the first `n` glyphs of a run over the tile, glyph by glyph.
pub open spec fn glyph_texels_spec(tile_x: u32, tile_y: u32, glyphs: Seq<GlyphBox>, clip_mask: Seq<u8>, n: int) -> Seq<
    GlyphTexel,
>
    decreases n,
{
    if n <= 0 {
        Seq::empty()
    } else {
        glyph_texels_spec(tile_x, tile_y, glyphs, clip_mask, n - 1) + glyph_texels(
            tile_x,
            tile_y,
            n - 1,
            glyphs[n - 1],
            clip_mask,
        )
    }
}

/// Every glyph pixel of a run that reaches a tile pixel the clip mask keeps: in glyph order,
/// row-major inside each glyph.
pub fn glyph_tile_texels(tile_x: u32, tile_y: u32, glyphs: &[GlyphBox], clip_mask: &[u8]) -> (t: Vec<GlyphTexel>)
    requires
        clip_mask@.len() == TILE_PIXELS,
        glyphs_fit(tile_x, tile_y, glyphs@),
    ensures
        t@ == glyph_texels_spec(tile_x, tile_y, glyphs@, clip_mask@, glyphs@.len() as int),
{
    let base_x: i32 = (tile_x * 16) as i32;
    let base_y: i32 = (tile_y * 16) as i32;
    let mut out: Vec<GlyphTexel> = Vec::new();
    let mut g: usize = 0;
    while g < glyphs.len()
        invariant
            g <= glyphs@.len(),
            clip_mask@.len() == TILE_PIXELS,
            glyphs_fit(tile_x, tile_y, glyphs@),
            base_x == tile_x * 16,
            base_y == tile_y * 16,
            out@ == glyph_texels_spec(tile_x, tile_y, glyphs@, clip_mask@, g as int),
        decreases glyphs.len() - g,
    {
        let b = glyphs[g];
        let ghost before = out@;
        proof {
            assert(glyphs@[g as int] == b);
        }
        let gx1: i32 = (b.x0 as i64 + b.width as i64) as i32;
        let gy1: i32 = (b.y0 as i64 + b.height as i64) as i32;
        let x0: i32 = if b.x0 >= base_x { b.x0 } else { base_x };
        let y0: i32 = if b.y0 >= base_y { b.y0 } else { base_y };
        let x1: i32 = if gx1 <= base_x + 16 { gx1 } else { base_x + 16 };
        let y1: i32 = if gy1 <= base_y + 16 { gy1 } else { base_y + 16 };
        proof {
            assert(overlap(tile_x, tile_y, b) == (x0 as int, y0 as int, x1 as int, y1 as int));
        }
        if x0 < x1 && y0 < y1 {
            let mut y: i32 = y0;
            while y < y1
                invariant
                    y0 <= y <= y1,
                    x0 < x1,
                    g < glyphs@.len(),
                    b == glyphs@[g as int],
                    clip_mask@.len() == TILE_PIXELS,
                    glyphs_fit(tile_x, tile_y, glyphs@),
                    base_x == tile_x * 16,
                    base_y == tile_y * 16,
                    overlap(tile_x, tile_y, b) == (x0 as int, y0 as int, x1 as int, y1 as int),
                    out@ == before + glyph_rows(tile_x, tile_y, g as int, b, clip_mask@, y - y0),
                decreases y1 - y,
            {
                let ghost row_start = out@;
                let mut x: i32 = x0;
                while x < x1
                    invariant
                        x0 <= x <= x1,
                        y0 <= y < y1,
                        g < glyphs@.len(),
                        b == glyphs@[g as int],
                        clip_mask@.len() == TILE_PIXELS,
                        glyphs_fit(tile_x, tile_y, glyphs@),
                        base_x == tile_x * 16,
                        base_y == tile_y * 16,
                        overlap(tile_x, tile_y, b) == (x0 as int, y0 as int, x1 as int, y1 as int),
                        out@ == row_start + row_texels(tile_x, tile_y, g as int, b, clip_mask@, y as int, x0 as int, x - x0),
                    decreases x1 - x,
                {
                    let local_x = (x - base_x) as u32;
                    let local_y = (y - base_y) as u32;
                    let tile_ix = local_y * 16 + local_x;
                    let clip = clip_mask[tile_ix as usize];
                    if clip != 0 {
                        let image_x = (x as i64 - b.x0 as i64) as u32;
                        let image_y = (y as i64 - b.y0 as i64) as u32;
                        proof {
                            assert(b.width * b.height <= u32::MAX);
                            crate::image::lemma_index_in_image(b.width as int, b.height as int, image_x as int, image_y as int);
                        }
                        let image_ix = image_y * b.width + image_x;
                        out.push(GlyphTexel { glyph: g as u32, x, y, tile_ix, image_ix, clip });
                    }
                    x = x + 1;
                }
                y = y + 1;
                proof {
                    assert(out@ =~= before + glyph_rows(tile_x, tile_y, g as int, b, clip_mask@, y - y0));
                }
            }
        }
        g = g + 1;
        proof {
            assert(out@ =~= glyph_texels_spec(tile_x, tile_y, glyphs@, clip_mask@, g as int));
        }
    }
    out
}

/// How a glyph image stores its texels.
#[derive(Clone, Copy, Debug, PartialEq, Eq, Structural)]
pub enum GlyphContent {
    /// One coverage byte per texel, painted with the brush.
    Mask,
    /// Straight RGBA bytes per texel, painted as they are.
    Color,
}

/// The premultiplied pixel of a straight RGBA texel.
pub open spec fn premultiplied(r: u8, g: u8, b: u8, a: u8) -> u32 {
    packed(combined(r as int, a as int), combined(g as int, a as int), combined(b as int, a as int), a as int) as u32
}

/// A glyph texel drawn over `dst` in sRGB: a coverage texel scales the brush colour by its
/// coverage within the clip; a colour texel is premultiplied and scaled by the clip. Texels
/// that cover nothing leave `dst` as it is.
pub open spec fn glyph_srgb_spec(dst: u32, content: GlyphContent, texel: Seq<u8>, color: u32, clip: u8) -> u32 {
    match content {
        GlyphContent::Mask => {
            let alpha = combined(texel[0] as int, clip as int);
            if alpha == 0 {
                dst
            } else {
                over(dst, scaled(color, alpha))
            }
        },
        GlyphContent::Color => if texel[3] == 0 {
            dst
        } else {
            over(dst, scaled(premultiplied(texel[0], texel[1], texel[2], texel[3]), clip as int))
        },
    }
}

/// Draws one glyph texel over a tile pixel in sRGB; `color` is the brush's premultiplied
/// colour at the pixel's centre (unused for colour texels).
pub fn composite_glyph_texel_srgb(dst: u32, content: GlyphContent, texel: &[u8], color: u32, clip: u8) -> (r: u32)
    requires
        content == GlyphContent::Mask ==> texel@.len() >= 1,
        content == GlyphContent::Color ==> texel@.len() >= 4,
    ensures
        r == glyph_srgb_spec(dst, content, texel@, color, clip),
{
    match content {
        GlyphContent::Mask => {
            let alpha = combine_alpha(texel[0], clip);
            if alpha == 0 {
                dst
            } else {
                src_over_premul_u8(dst, scale_premul_u8(color, alpha))
            }
        },
        GlyphContent::Color => {
            let a = texel[3];
            if a == 0 {
                dst
            } else {
                let src = rgba8_pack(
                    [combine_alpha(texel[0], a), combine_alpha(texel[1], a), combine_alpha(texel[2], a), a],
                );
                src_over_premul_u8(dst, scale_premul_u8(src, clip))
            }
        },
    }
}

/// A coverage texel is drawn as the brush colour scaled by the texel's coverage within the
/// clip: where that product is 0 (a clip of 0, or a texel of 0) the pixel is kept; otherwise
/// the scaled colour is drawn over it. A clip below 255 never gives more coverage than a clip
/// of 255.
pub proof fn law_mask_texel_uses_clip(dst: u32, texel: Seq<u8>, color: u32, clip: u8)
    requires
        texel.len() >= 1,
    ensures
        ({
            let a = combined(texel[0] as int, clip as int);
            glyph_srgb_spec(dst, GlyphContent::Mask, texel, color, clip) == if a == 0 {
                dst
            } else {
                over(dst, scaled(color, a))
            }
        }),
        clip == 0 ==> glyph_srgb_spec(dst, GlyphContent::Mask, texel, color, clip) == dst,
        combined(texel[0] as int, clip as int) <= combined(texel[0] as int, 255),
{
    assert(texel[0] * clip <= texel[0] * 255) by (nonlinear_arith)
        requires
            clip <= 255,
            texel[0] >= 0,
    ;
    vstd::arithmetic::div_mod::lemma_div_is_ordered(texel[0] * clip + 127, texel[0] * 255 + 127, 255);
}

/// A colour texel ignores the brush: it is premultiplied by its own alpha, scaled by the clip
/// and drawn over the pixel; a transparent texel keeps the pixel.
pub proof fn law_color_texel_uses_clip(dst: u32, texel: Seq<u8>, color: u32, clip: u8)
    requires
        texel.len() >= 4,
    ensures
        texel[3] == 0 ==> glyph_srgb_spec(dst, GlyphContent::Color, texel, color, clip) == dst,
        texel[3] != 0 ==> glyph_srgb_spec(dst, GlyphContent::Color, texel, color, clip) == over(
            dst,
            scaled(
                packed(
                    combined(texel[0] as int, texel[3] as int),
                    combined(texel[1] as int, texel[3] as int),
                    combined(texel[2] as int, texel[3] as int),
                    texel[3] as int,
                ) as u32,
                clip as int,
            ),
        ),
{
}

proof fn lemma_row_texels_sound(
    tile_x: u32,
    tile_y: u32,
    g: int,
    b: GlyphBox,
    clip_mask: Seq<u8>,
    y: int,
    x0: int,
    n: int,
)
    requires
        clip_mask.len() == TILE_PIXELS,
        tile_x * 16 <= x0,
        x0 + n <= tile_x * 16 + 16,
        b.x0 <= x0,
        x0 + n <= b.x0 + b.width,
        tile_y * 16 <= y < tile_y * 16 + 16,
        b.y0 <= y < b.y0 + b.height,
        0 <= g <= u32::MAX,
        b.width * b.height <= u32::MAX,
        tile_x * 16 + 16 <= i32::MAX,
        tile_y * 16 + 16 <= i32::MAX,
    ensures
        forall|k: int|
            0 <= k < row_texels(tile_x, tile_y, g, b, clip_mask, y, x0, n).len() ==> texel_sound(
                tile_x,
                tile_y,
                g,
                b,
                clip_mask,
                #[trigger] row_texels(tile_x, tile_y, g, b, clip_mask, y, x0, n)[k],
            ),
    decreases n,
{
    if n > 0 {
        lemma_row_texels_sound(tile_x, tile_y, g, b, clip_mask, y, x0, n - 1);
        let x = x0 + n - 1;
        let tile_ix = (y - tile_y * 16) * 16 + (x - tile_x * 16);
        crate::image::lemma_index_in_image(16, 16, x - tile_x * 16, y - tile_y * 16);
        crate::image::lemma_index_in_image(b.width as int, b.height as int, x - b.x0, y - b.y0);
        let prior = row_texels(tile_x, tile_y, g, b, clip_mask, y, x0, n - 1);
        let whole = row_texels(tile_x, tile_y, g, b, clip_mask, y, x0, n);
        assert forall|k: int| 0 <= k < whole.len() implies texel_sound(tile_x, tile_y, g, b, clip_mask, #[trigger] whole[k]) by {
            if k < prior.len() {
                assert(whole[k] == prior[k]);
            }
        }
    }
}

/// A texel the placement yields: its pixel lies in the glyph image and in the tile, its tile
/// and image indices are those of that pixel, and the clip keeps the pixel with the coverage
/// it records.
pub open spec fn texel_sound(tile_x: u32, tile_y: u32, g: int, b: GlyphBox, clip_mask: Seq<u8>, t: GlyphTexel) -> bool {
    &&& t.glyph == g
    &&& b.x0 <= t.x < b.x0 + b.width
    &&& b.y0 <= t.y < b.y0 + b.height
    &&& tile_x * 16 <= t.x < tile_x * 16 + 16
    &&& tile_y * 16 <= t.y < tile_y * 16 + 16
    &&& t.tile_ix == (t.y - tile_y * 16) * 16 + (t.x - tile_x * 16)
    &&& t.image_ix == (t.y - b.y0) * b.width + (t.x - b.x0)
    &&& t.clip == clip_mask[t.tile_ix as int]
    &&& t.clip != 0
}

/// Every texel the placement of one glyph yields is sound.
pub proof fn law_glyph_texels_are_sound(tile_x: u32, tile_y: u32, g: int, b: GlyphBox, clip_mask: Seq<u8>, n: int)
    requires
        clip_mask.len() == TILE_PIXELS,
        0 <= g <= u32::MAX,
        b.width * b.height <= u32::MAX,
        0 <= n <= overlap(tile_x, tile_y, b).3 - overlap(tile_x, tile_y, b).1,
        overlap(tile_x, tile_y, b).0 < overlap(tile_x, tile_y, b).2,
        tile_x * 16 + 16 <= i32::MAX,
        tile_y * 16 + 16 <= i32::MAX,
    ensures
        forall|k: int|
            0 <= k < glyph_rows(tile_x, tile_y, g, b, clip_mask, n).len() ==> texel_sound(
                tile_x,
                tile_y,
                g,
                b,
                clip_mask,
                #[trigger] glyph_rows(tile_x, tile_y, g, b, clip_mask, n)[k],
            ),
    decreases n,
{
    if n > 0 {
        let o = overlap(tile_x, tile_y, b);
        law_glyph_texels_are_sound(tile_x, tile_y, g, b, clip_mask, n - 1);
        lemma_row_texels_sound(tile_x, tile_y, g, b, clip_mask, o.1 + n - 1, o.0, o.2 - o.0);
        let prior = glyph_rows(tile_x, tile_y, g, b, clip_mask, n - 1);
        let row = row_texels(tile_x, tile_y, g, b, clip_mask, o.1 + n - 1, o.0, o.2 - o.0);
        assert forall|k: int| 0 <= k < (prior + row).len() implies texel_sound(tile_x, tile_y, g, b, clip_mask, #[trigger] (prior + row)[k]) by {
            if k < prior.len() {
                assert((prior + row)[k] == prior[k]);
            } else {
                assert((prior + row)[k] == row[k - prior.len()]);
            }
        }
    }
}

} // verus!
