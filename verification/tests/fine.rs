use tileink::bounds::Bounds;
use tileink::commands::BlendMode;
use tileink::fine::{
    blend_group_sources, composite_color_tile_buffer_into, composite_opacity_group_tile, fine_step,
    load_tile, scale_premul_u8, src_over_premul_u8, store_tile, FineEvent, FineState, TILE_PIXELS,
};
use tileink::image::{rgba8_pack, unpack_rgba8, Image};
use tileink::tiles::tile_target_bounds;

#[test]
fn composite_color_preserves_source_alpha_on_opaque_clip() {
    let mut tile = vec![rgba8_pack([248, 249, 251, 255]); 256];
    let color = rgba8_pack([33, 129, 84, 230]);
    composite_color_tile_buffer_into(&mut tile, color, &vec![255; 256]);
    assert_eq!(tile[0], rgba8_pack([57, 153, 109, 255]));
}

#[test]
fn run_parallelizes_one_worker_item_per_tile() {
    let tiles_size = (3u32, 2u32);
    let colors = [
        rgba8_pack([255, 0, 0, 255]),
        rgba8_pack([0, 255, 0, 255]),
        rgba8_pack([0, 0, 255, 255]),
        rgba8_pack([255, 255, 0, 255]),
        rgba8_pack([0, 255, 255, 255]),
        rgba8_pack([255, 0, 255, 255]),
    ];
    let target_bounds = Bounds::new(3, 5, 35, 29);
    let mut image = Image {
        width: 32,
        height: 24,
        pixels: vec![rgba8_pack([0, 0, 0, 255]); 32 * 24],
    };
    for tile_y in 0..tiles_size.1 {
        for tile_x in 0..tiles_size.0 {
            let color = colors[(tile_y * tiles_size.0 + tile_x) as usize];
            let Some((global, base_x, base_y)) = tile_target_bounds(tile_x, tile_y, target_bounds) else {
                continue;
            };
            let tile = load_tile(&image, target_bounds, global, base_x, base_y);
            let mut state = FineState::new(tile);
            assert!(fine_step(&mut state, FineEvent::Color { color }));
            assert!(!fine_step(&mut state, FineEvent::End));
            store_tile(&mut image, target_bounds, global, base_x, base_y, &state.tile);
        }
    }
    assert_eq!(image.rgba8_at(0, 0), [255, 0, 0, 255]);
    assert_eq!(image.rgba8_at(16, 0), [0, 255, 0, 255]);
    assert_eq!(image.rgba8_at(31, 0), [0, 0, 255, 255]);
    assert_eq!(image.rgba8_at(0, 12), [255, 255, 0, 255]);
    assert_eq!(image.rgba8_at(16, 12), [0, 255, 255, 255]);
    assert_eq!(image.rgba8_at(31, 23), [255, 0, 255, 255]);
}

#[test]
fn pixel_operators_round_to_nearest() {
    assert_eq!(unpack_rgba8(scale_premul_u8(rgba8_pack([255, 128, 0, 255]), 128)), [128, 64, 0, 128]);
    let over = src_over_premul_u8(rgba8_pack([0, 0, 200, 200]), rgba8_pack([100, 0, 0, 128]));
    assert_eq!(unpack_rgba8(over), [100, 0, 100, 228]);
}

#[test]
fn clip_narrows_the_mask_and_its_end_restores_it() {
    let mut state = FineState::new(vec![0; TILE_PIXELS]);
    let mut alpha = vec![0u8; TILE_PIXELS];
    alpha[1] = 128;
    alpha[2] = 255;
    assert!(fine_step(&mut state, FineEvent::BeginClip { alpha }));
    assert_eq!(state.clip_mask[0], 0);
    assert_eq!(state.clip_mask[1], 128);
    assert_eq!(state.clip_mask[2], 255);
    assert!(fine_step(&mut state, FineEvent::Color { color: rgba8_pack([255, 255, 255, 255]) }));
    assert_eq!(state.tile[0], 0);
    assert_eq!(unpack_rgba8(state.tile[1]), [128, 128, 128, 128]);
    assert_eq!(state.tile[2], rgba8_pack([255, 255, 255, 255]));
    assert!(fine_step(&mut state, FineEvent::EndClip));
    assert!(state.clip_mask.iter().all(|&m| m == 255));
    assert!(state.clip_stack.is_empty());
    // An unmatched end leaves the state alone.
    assert!(fine_step(&mut state, FineEvent::EndClip));
    assert!(state.clip_mask.iter().all(|&m| m == 255));
}

#[test]
fn opacity_group_composites_back_scaled_by_coverage_and_opacity() {
    let parent = rgba8_pack([0, 0, 255, 255]);
    let mut state = FineState::new(vec![parent; TILE_PIXELS]);
    let mut alpha = vec![255u8; TILE_PIXELS];
    alpha[1] = 0;
    assert!(fine_step(&mut state, FineEvent::BeginOpacity { alpha, opacity: 128 }));
    assert!(state.tile.iter().all(|&p| p == 0));
    assert!(fine_step(&mut state, FineEvent::Paint { tile: vec![rgba8_pack([255, 0, 0, 255]); TILE_PIXELS] }));
    assert!(fine_step(&mut state, FineEvent::EndOpacity));
    assert!(state.group_stack.is_empty());
    assert_eq!(unpack_rgba8(state.tile[0]), [128, 0, 127, 255]);
    assert_eq!(state.tile[1], parent);
    let mut direct = vec![parent; 1];
    composite_opacity_group_tile(&mut direct, &vec![rgba8_pack([255, 0, 0, 255])], &vec![255], &vec![255], 128);
    assert_eq!(direct[0], state.tile[0]);
}

#[test]
fn blend_group_takes_the_callers_blend_where_it_has_a_source() {
    let parent = rgba8_pack([10, 20, 30, 255]);
    let mode = BlendMode { mix: 1, compose: 3 };
    let mut state = FineState::new(vec![parent; TILE_PIXELS]);
    let mut alpha = vec![255u8; TILE_PIXELS];
    alpha[3] = 0;
    assert!(fine_step(&mut state, FineEvent::BeginBlend { alpha: alpha.clone(), mode }));
    let mut group = vec![rgba8_pack([50, 50, 50, 255]); TILE_PIXELS];
    group[4] = 0;
    assert!(fine_step(&mut state, FineEvent::Paint { tile: group.clone() }));
    let sources = blend_group_sources(&group, &alpha, &vec![255; TILE_PIXELS]);
    assert_eq!(sources[0], Some(rgba8_pack([50, 50, 50, 255])));
    assert_eq!(sources[3], None);
    assert_eq!(sources[4], None);
    let blended = vec![rgba8_pack([1, 2, 3, 255]); TILE_PIXELS];
    assert!(fine_step(&mut state, FineEvent::EndBlend { blended }));
    assert_eq!(state.tile[0], rgba8_pack([1, 2, 3, 255]));
    assert_eq!(state.tile[3], parent);
    assert_eq!(state.tile[4], parent);
}

#[test]
fn group_end_of_the_other_kind_drops_the_frame() {
    let parent = rgba8_pack([10, 20, 30, 255]);
    let mut state = FineState::new(vec![parent; TILE_PIXELS]);
    let mode = BlendMode { mix: 0, compose: 3 };
    assert!(fine_step(&mut state, FineEvent::BeginBlend { alpha: vec![255; TILE_PIXELS], mode }));
    assert!(fine_step(&mut state, FineEvent::EndOpacity));
    assert!(state.group_stack.is_empty());
    assert!(state.tile.iter().all(|&p| p == 0));
}

#[test]
fn loading_a_partial_tile_clears_the_outside() {
    let image = Image { width: 4, height: 4, pixels: (0..16).collect() };
    let target = Bounds::new(16, 16, 20, 20);
    let (global, base_x, base_y) = tile_target_bounds(1, 1, target).unwrap();
    let tile = load_tile(&image, target, global, base_x, base_y);
    assert_eq!(tile[0], 0);
    assert_eq!(tile[1], 1);
    assert_eq!(tile[16], 4);
    assert_eq!(tile[4], 0);
    let mut out = Image { width: 4, height: 4, pixels: vec![0; 16] };
    store_tile(&mut out, target, global, base_x, base_y, &tile);
    assert_eq!(out.pixels, (0..16).collect::<Vec<u32>>());
}
