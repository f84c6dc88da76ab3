use tileink::bounds::Bounds;
use tileink::filter_ops::{
    apply_offset, clipped_image, convolve_sample_coord, copy_region_pixels, div_ceil_i32,
    div_floor_i32, downsampled_bounds, morphology_axis_index, pixel_at, rem_euclid_i32,
    region_pixel_indices, resolve_graph_input, resolve_required_graph_input, source_alpha_image, straight_channel_index, tile_image,
    ConvolveEdgeMode, FilterInput, MorphologyAxis,
};
use tileink::image::{rgba8_pack, Image};

fn row(pixels: Vec<u32>) -> Image {
    Image { width: pixels.len() as u32, height: 1, pixels }
}

#[test]
fn offset_shifts_pixels_and_clears_uncovered_area() {
    let mut image = Image::transparent(4, 4);
    image.pixels[5] = rgba8_pack([255, 0, 0, 255]);

    apply_offset(&mut image, 1, -1);

    assert_eq!(image.rgba8_at(2, 0), [255, 0, 0, 255]);
    assert_eq!(image.rgba8_at(1, 1), [0, 0, 0, 0]);
}

#[test]
fn offset_moves_whole_rows_and_columns() {
    let mut image = Image {
        width: 3,
        height: 2,
        pixels: vec![1, 2, 3, 4, 5, 6],
    };
    apply_offset(&mut image, 1, 1);
    assert_eq!(image.pixels, vec![0, 0, 0, 0, 1, 2]);
    let mut image = row(vec![1, 2, 3]);
    apply_offset(&mut image, -2, 0);
    assert_eq!(image.pixels, vec![3, 0, 0]);
    let mut image = row(vec![1, 2, 3]);
    apply_offset(&mut image, 0, 0);
    assert_eq!(image.pixels, vec![1, 2, 3]);
}

#[test]
fn downsampled_bounds_round_outwards() {
    assert_eq!(
        downsampled_bounds(Bounds::new(-3, 1, 5, 8), 2),
        Some(Bounds::new(-2, 0, 3, 4))
    );
    assert_eq!(downsampled_bounds(Bounds::new(0, 0, 0, 4), 4), None);
    assert_eq!(
        downsampled_bounds(Bounds::new(3, 3, 4, 4), 0),
        Some(Bounds::new(3, 3, 4, 4))
    );
    assert_eq!(downsampled_bounds(Bounds::new(-3, 1, 5, 8), u32::MAX), None);
    assert_eq!(div_ceil_i32(-5, 2), -2);
    assert_eq!(div_ceil_i32(5, -2), -3);
    assert_eq!(div_ceil_i32(5, 2), 3);
    assert_eq!(div_floor_i32(-5, 2), -3);
    assert_eq!(div_floor_i32(i32::MIN, 1), i32::MIN);
    assert_eq!(rem_euclid_i32(-1, 4), 3);
}

#[test]
fn convolution_edges_read_transparent_clamp_or_wrap() {
    assert_eq!(convolve_sample_coord(4, 3, -1, 1, ConvolveEdgeMode::Transparent), None);
    assert_eq!(convolve_sample_coord(4, 3, 2, 1, ConvolveEdgeMode::Transparent), Some((2, 1)));
    assert_eq!(convolve_sample_coord(4, 3, -1, 5, ConvolveEdgeMode::Duplicate), Some((0, 2)));
    assert_eq!(convolve_sample_coord(4, 3, -1, 5, ConvolveEdgeMode::Wrap), Some((3, 2)));
}

#[test]
fn axis_indices_walk_rows_or_columns() {
    assert_eq!(morphology_axis_index(2, 3, 10, MorphologyAxis::X), 23);
    assert_eq!(morphology_axis_index(2, 3, 10, MorphologyAxis::Y), 32);
}

#[test]
fn transfer_indices_unpremultiply() {
    assert_eq!(straight_channel_index(64, 128), 128);
    assert_eq!(straight_channel_index(0, 0), 0);
    assert_eq!(straight_channel_index(200, 100), 255);
    assert_eq!(straight_channel_index(255, 255), 255);
}

#[test]
fn region_copies_stay_inside_the_region() {
    let source = Image {
        width: 3,
        height: 2,
        pixels: vec![1, 2, 3, 4, 5, 6],
    };
    let bounds = Bounds::new(10, 10, 13, 12);
    let clipped = clipped_image(&source, bounds, Bounds::new(11, 10, 13, 11));
    assert_eq!(clipped.pixels, vec![0, 2, 3, 0, 0, 0]);
    let mut target = Image {
        width: 3,
        height: 2,
        pixels: vec![9; 6],
    };
    copy_region_pixels(&source, &mut target, bounds, Bounds::new(10, 11, 11, 12));
    assert_eq!(target.pixels, vec![9, 9, 9, 4, 9, 9]);
    copy_region_pixels(&source, &mut target, bounds, Bounds::new(12, 11, 12, 12));
    assert_eq!(target.pixels, vec![9, 9, 9, 4, 9, 9]);
}

#[test]
fn graph_tile_repeats_source_region_and_clips_output_region() {
    let mut image = Image::transparent(6, 4);
    image.pixels[(6 + 1) as usize] = rgba8_pack([255, 0, 0, 255]);
    image.pixels[(6 + 2) as usize] = rgba8_pack([0, 255, 0, 255]);
    image.pixels[(2 * 6 + 1) as usize] = rgba8_pack([0, 0, 255, 255]);
    image.pixels[(2 * 6 + 2) as usize] = rgba8_pack([255, 255, 0, 255]);

    let image = tile_image(
        &image,
        Bounds::new(0, 0, 6, 4),
        Bounds::new(0, 0, 6, 4),
        Bounds::new(1, 1, 3, 3),
    );

    assert_eq!(image.rgba8_at(0, 0), [255, 255, 0, 255]);
    assert_eq!(image.rgba8_at(1, 0), [0, 0, 255, 255]);
    assert_eq!(image.rgba8_at(4, 1), [0, 255, 0, 255]);
    assert_eq!(image.rgba8_at(5, 3), [255, 0, 0, 255]);
}

#[test]
fn tile_clips_to_its_output_region() {
    let mut source = Image::transparent(6, 4);
    source.pixels[6 + 1] = rgba8_pack([255, 0, 0, 255]);
    source.pixels[6 + 2] = rgba8_pack([0, 255, 0, 255]);
    let bounds = Bounds::new(0, 0, 6, 4);
    let tiled = tile_image(&source, bounds, Bounds::new(0, 1, 6, 2), Bounds::new(1, 1, 3, 2));
    let red = rgba8_pack([255, 0, 0, 255]);
    let green = rgba8_pack([0, 255, 0, 255]);
    assert_eq!(&tiled.pixels[6..12], &[green, red, green, red, green, red]);
    assert!(tiled.pixels[..6].iter().all(|&px| px == 0));
    assert!(tiled.pixels[12..].iter().all(|&px| px == 0));
    let empty = tile_image(&source, bounds, Bounds::new(0, 0, 6, 4), Bounds::new(2, 2, 2, 3));
    assert!(empty.pixels.iter().all(|&px| px == 0));
}

#[test]
fn graph_inputs_name_the_source_its_alpha_or_an_output() {
    let source = row(vec![rgba8_pack([1, 2, 3, 4]), rgba8_pack([9, 9, 9, 0])]);
    let alpha = source_alpha_image(&source);
    assert_eq!(alpha.pixels, vec![0x0400_0000, 0]);
    let outputs = vec![row(vec![7, 7])];
    assert_eq!(resolve_graph_input(FilterInput::SourceGraphic, &source, &alpha, &outputs), &source);
    assert_eq!(resolve_graph_input(FilterInput::SourceAlpha, &source, &alpha, &outputs), &alpha);
    assert_eq!(resolve_graph_input(FilterInput::Primitive(0), &source, &alpha, &outputs).pixels, vec![7, 7]);
    assert_eq!(pixel_at(&source, 1, 0), rgba8_pack([9, 9, 9, 0]));
}

#[test]
fn required_second_input_resolves_like_any_input() {
    let source = row(vec![1]);
    let alpha = row(vec![2]);
    let outputs = vec![row(vec![3]), row(vec![4])];
    let image =
        resolve_required_graph_input(Some(FilterInput::Primitive(1)), &source, &alpha, &outputs);
    assert_eq!(image.pixels, vec![4]);
    let image = resolve_required_graph_input(Some(FilterInput::SourceAlpha), &source, &alpha, &outputs);
    assert_eq!(image.pixels, vec![2]);
}

#[test]
fn region_pixels_are_listed_row_by_row_in_buffer_coordinates() {
    let bounds = Bounds::new(10, 20, 15, 24);
    let region = Bounds::new(11, 21, 13, 23);
    assert_eq!(region_pixel_indices(bounds, region, 5), vec![6, 7, 11, 12]);
    assert!(region_pixel_indices(bounds, Bounds::new(12, 22, 12, 30), 5).is_empty());
}
