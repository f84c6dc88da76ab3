use tileink::glyph::{composite_glyph_texel_srgb, glyph_tile_texels, GlyphBox, GlyphContent, GlyphTexel};
use tileink::image::{rgba8_pack, unpack_rgba8};

fn texel(glyph: u32, x: i32, y: i32, tile_ix: u32, image_ix: u32, clip: u8) -> GlyphTexel {
    GlyphTexel { glyph, x, y, tile_ix, image_ix, clip }
}

#[test]
fn glyph_pixels_inside_the_tile_and_the_clip_in_glyph_then_row_order() {
    let glyphs = [
        GlyphBox { x0: 14, y0: -1, width: 4, height: 3 },
        GlyphBox { x0: 20, y0: 0, width: 2, height: 2 },
        GlyphBox { x0: 0, y0: 0, width: 1, height: 1 },
    ];
    let mut clip = vec![255u8; 256];
    clip[15] = 0;
    clip[0] = 128;
    let t = glyph_tile_texels(0, 0, &glyphs, &clip);
    assert_eq!(
        t,
        vec![
            texel(0, 14, 0, 14, 4, 255),
            texel(0, 14, 1, 30, 8, 255),
            texel(0, 15, 1, 31, 9, 255),
            texel(2, 0, 0, 0, 0, 128),
        ]
    );
}

#[test]
fn glyphs_of_another_tile_map_to_local_pixels() {
    let glyphs = [GlyphBox { x0: 30, y0: 17, width: 3, height: 1 }];
    let t = glyph_tile_texels(1, 1, &glyphs, &vec![255u8; 256]);
    assert_eq!(t, vec![texel(0, 30, 17, 30, 0, 255), texel(0, 31, 17, 31, 1, 255)]);
}

#[test]
fn srgb_glyph_composites() {
    let black = rgba8_pack([0, 0, 0, 255]);
    let white = rgba8_pack([255, 255, 255, 255]);
    assert_eq!(composite_glyph_texel_srgb(black, GlyphContent::Mask, &[255], white, 255), white);
    assert_eq!(composite_glyph_texel_srgb(black, GlyphContent::Mask, &[0], white, 255), black);
    assert_eq!(
        unpack_rgba8(composite_glyph_texel_srgb(black, GlyphContent::Color, &[200, 100, 0, 128], white, 255)),
        [100, 50, 0, 255]
    );
    assert_eq!(composite_glyph_texel_srgb(black, GlyphContent::Color, &[200, 100, 0, 0], white, 255), black);
}
