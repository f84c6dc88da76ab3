use tileink::bounds::Bounds;
use tileink::image::{rgba8_pack, unpack_rgba8, Image};
use tileink::mask::{
    apply_opacity_to_mask, clear_mask_outside_bounds, combine_alpha, intersect_alpha_mask,
    svg_luminance_mask_alpha, svg_mask_coverage, MaskKind,
};

#[test]
fn svg_luminance_mask_alpha_uses_unpremultiplied_rgb_and_alpha() {
    let source = Image {
        width: 1,
        height: 1,
        pixels: vec![rgba8_pack([128, 0, 0, 128])],
    };

    let mask = svg_mask_coverage(&source, MaskKind::Luminance);

    assert_eq!(unpack_rgba8(mask.pixels[0]), [27, 27, 27, 27]);
}

#[test]
fn intersect_alpha_mask_combines_mask_coverage() {
    let mut mask = Image {
        width: 1,
        height: 1,
        pixels: vec![rgba8_pack([128, 128, 128, 128])],
    };
    let clip = Image {
        width: 1,
        height: 1,
        pixels: vec![rgba8_pack([64, 64, 64, 64])],
    };

    intersect_alpha_mask(&mut mask, &clip);

    assert_eq!(unpack_rgba8(mask.pixels[0]), [32, 32, 32, 32]);
}

#[test]
fn combine_alpha_rounds_the_product() {
    assert_eq!(combine_alpha(255, 255), 255);
    assert_eq!(combine_alpha(255, 77), 77);
    assert_eq!(combine_alpha(0, 200), 0);
    assert_eq!(combine_alpha(128, 64), 32);
    assert_eq!(combine_alpha(1, 127), 0);
    assert_eq!(combine_alpha(1, 128), 1);
}

#[test]
fn alpha_masks_read_the_alpha_channel_and_luminance_masks_the_color() {
    let source = Image {
        width: 3,
        height: 1,
        pixels: vec![
            rgba8_pack([255, 255, 255, 255]),
            rgba8_pack([0, 0, 255, 255]),
            rgba8_pack([0, 0, 0, 0]),
        ],
    };
    let alpha = svg_mask_coverage(&source, MaskKind::Alpha);
    assert_eq!(unpack_rgba8(alpha.pixels[1]), [255, 255, 255, 255]);
    let luminance = svg_mask_coverage(&source, MaskKind::Luminance);
    assert_eq!(unpack_rgba8(luminance.pixels[0]), [255, 255, 255, 255]);
    assert_eq!(svg_luminance_mask_alpha(rgba8_pack([0, 0, 255, 255])), 18);
    assert_eq!(unpack_rgba8(luminance.pixels[2]), [0, 0, 0, 0]);
}

#[test]
fn opacity_scales_mask_coverage() {
    let mut mask = Image {
        width: 2,
        height: 1,
        pixels: vec![rgba8_pack([200, 200, 200, 200]), rgba8_pack([255, 255, 255, 255])],
    };
    let unchanged = mask.clone();
    apply_opacity_to_mask(&mut mask, 255);
    assert_eq!(mask, unchanged);
    apply_opacity_to_mask(&mut mask, 128);
    assert_eq!(unpack_rgba8(mask.pixels[0]), [100, 100, 100, 100]);
    assert_eq!(unpack_rgba8(mask.pixels[1]), [128, 128, 128, 128]);
}

#[test]
fn clearing_outside_keeps_only_the_kept_rectangle() {
    let mut mask = Image {
        width: 3,
        height: 2,
        pixels: vec![1, 2, 3, 4, 5, 6],
    };
    clear_mask_outside_bounds(&mut mask, Bounds::new(10, 20, 13, 22), Bounds::new(11, 21, 20, 30));
    assert_eq!(mask.pixels, vec![0, 0, 0, 0, 5, 6]);
}

#[test]
fn packing_puts_red_in_the_low_byte() {
    assert_eq!(rgba8_pack([1, 2, 3, 4]), 0x0403_0201);
    assert_eq!(unpack_rgba8(0x0403_0201), [1, 2, 3, 4]);
    let image = Image {
        width: 2,
        height: 2,
        pixels: vec![0, 0, 0, rgba8_pack([9, 8, 7, 6])],
    };
    assert_eq!(image.rgba8_at(1, 1), [9, 8, 7, 6]);
    let transparent = Image::transparent(3, 2);
    assert_eq!(transparent.pixels, vec![0; 6]);
}
