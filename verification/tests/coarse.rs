use tileink::coarse::{
    build_tile_ptcls, collect_tile_streams, ensure_batch_wrappers, DrawTag, TileCmd, TileCoverage,
    TileDraw, TilePtclRange,
};
use tileink::commands::BlendMode;
use tileink::coarse::{draw_tile_coverage, path_tile_coverage, DrawShape, TileRect};
use tileink::compile::LayerStackEntry;
use tileink::cumsum::PathRecord;
use tileink::tiles::TileSegmentRange;

const RED: u32 = 0xff00_00ff;
const BLUE: u32 = 0xffff_0000;
const MULTIPLY: BlendMode = BlendMode { mix: 1, compose: 3 };

fn path(backdrop: i32, segment_start: u32, segment_end: u32) -> TileCoverage {
    TileCoverage::Path { backdrop, segment_start, segment_end, solid_color: None }
}

fn draw(tag: DrawTag, coverage: TileCoverage) -> TileDraw {
    TileDraw { tag, coverage }
}

#[test]
fn run_replays_clip_layers_in_user_nesting_order() {
    let draws = [
        draw(DrawTag::Clip, path(0, 0, 1)),
        draw(DrawTag::Clip, path(0, 1, 2)),
        draw(DrawTag::Brush, path(0, 2, 3)),
    ];
    let stack = [LayerStackEntry::Clip { draw: 0 }, LayerStackEntry::Clip { draw: 1 }];
    let out = build_tile_ptcls((2, 3), &[0, 1, 2], &stack, &draws);
    assert_eq!(out.len(), 5);
    assert_eq!(out[0], TileCmd::BeginClip { draw: 0, backdrop: 0, segment_start: 0, segment_end: 1 });
    assert_eq!(out[1], TileCmd::BeginClip { draw: 1, backdrop: 0, segment_start: 1, segment_end: 2 });
    assert_eq!(out[2], TileCmd::Fill { draw: 2, backdrop: 0, segment_start: 2, segment_end: 3 });
    assert_eq!(out[3], TileCmd::EndClip);
    assert_eq!(out[4], TileCmd::EndClip);
    let (ranges, ptcls, glyphs) = collect_tile_streams(&vec![out], &vec![Vec::new()]);
    assert_eq!(ranges, vec![TilePtclRange { start: 0, end: 6 }]);
    assert_eq!(ptcls[5], TileCmd::End);
    assert!(glyphs.is_empty());
}

#[test]
fn run_builds_each_tile_stream_independently_in_draw_order() {
    let red = TileCoverage::Path { backdrop: 1, segment_start: 0, segment_end: 0, solid_color: Some(RED) };
    let blue = TileCoverage::Path { backdrop: 1, segment_start: 0, segment_end: 0, solid_color: Some(BLUE) };
    // The left tile is reached by the first draw only.
    let left = [draw(DrawTag::Brush, red), draw(DrawTag::Brush, TileCoverage::Uncovered)];
    let left_out = build_tile_ptcls((0, 2), &[0], &[], &left);
    assert_eq!(left_out, vec![TileCmd::Color { color: RED }]);
    let right = [draw(DrawTag::Brush, red), draw(DrawTag::Brush, blue)];
    let right_out = build_tile_ptcls((0, 2), &[0, 1], &[], &right);
    assert_eq!(right_out, vec![TileCmd::Color { color: RED }, TileCmd::Color { color: BLUE }]);
    let (ranges, ptcls, _) = collect_tile_streams(&vec![left_out, right_out], &vec![Vec::new(), Vec::new()]);
    assert_eq!(ranges, vec![TilePtclRange { start: 0, end: 2 }, TilePtclRange { start: 2, end: 5 }]);
    assert_eq!(
        ptcls,
        vec![
            TileCmd::Color { color: RED },
            TileCmd::End,
            TileCmd::Color { color: RED },
            TileCmd::Color { color: BLUE },
            TileCmd::End,
        ]
    );
}

#[test]
fn run_builds_per_tile_glyph_lists() {
    let draws = [
        draw(DrawTag::Brush, TileCoverage::Glyph { glyph_count: 3 }),
        draw(DrawTag::Brush, TileCoverage::Uncovered),
        draw(DrawTag::Brush, TileCoverage::Glyph { glyph_count: 2 }),
    ];
    let out = build_tile_ptcls((0, 3), &[0, 1, 2], &[], &draws);
    assert_eq!(
        out,
        vec![
            TileCmd::Glyph { draw: 0, glyph_start: 0, glyph_end: 3 },
            TileCmd::Glyph { draw: 2, glyph_start: 3, glyph_end: 5 },
        ]
    );
}

#[test]
fn untouched_tile_gets_no_wrappers() {
    let draws = [draw(DrawTag::Clip, path(0, 0, 1)), draw(DrawTag::Brush, TileCoverage::Uncovered)];
    let stack = [LayerStackEntry::Clip { draw: 0 }];
    assert!(build_tile_ptcls((1, 2), &[0, 1], &stack, &draws).is_empty());
}

#[test]
fn draws_outside_the_batch_range_are_skipped() {
    let draws = [
        draw(DrawTag::Brush, path(0, 0, 2)),
        draw(DrawTag::Brush, path(1, 2, 4)),
        draw(DrawTag::Brush, path(0, 4, 5)),
    ];
    let out = build_tile_ptcls((1, 2), &[0, 1, 2], &[], &draws);
    assert_eq!(out, vec![TileCmd::Fill { draw: 1, backdrop: 1, segment_start: 2, segment_end: 4 }]);
}

#[test]
fn opacity_group_over_a_shape_drops_the_batch_in_that_tile() {
    let draws = [
        draw(DrawTag::Opacity, TileCoverage::Sdf { solid_color: None }),
        draw(DrawTag::Brush, path(0, 0, 1)),
    ];
    let stack = [LayerStackEntry::Opacity { draw: 0 }];
    assert!(build_tile_ptcls((1, 2), &[0, 1], &stack, &draws).is_empty());
}

#[test]
fn groups_open_before_shapes_and_close_in_reverse() {
    let draws = [
        draw(DrawTag::Clip, TileCoverage::Sdf { solid_color: None }),
        draw(DrawTag::Blend, path(2, 0, 1)),
        draw(DrawTag::Brush, TileCoverage::Sdf { solid_color: Some(BLUE) }),
        draw(DrawTag::Brush, TileCoverage::Sdf { solid_color: None }),
        draw(DrawTag::Brush, TileCoverage::SdfShadow),
    ];
    let stack = [LayerStackEntry::Clip { draw: 0 }, LayerStackEntry::Blend { draw: 1, mode: MULTIPLY }];
    let out = build_tile_ptcls((2, 5), &[2, 3, 4], &stack, &draws);
    assert_eq!(
        out,
        vec![
            TileCmd::BeginSdfClip { draw: 0 },
            TileCmd::BeginBlend { draw: 1, mode: MULTIPLY, backdrop: 2, segment_start: 0, segment_end: 1 },
            TileCmd::Color { color: BLUE },
            TileCmd::Sdf { draw: 3 },
            TileCmd::SdfShadow { draw: 4 },
            TileCmd::EndBlend,
            TileCmd::EndClip,
        ]
    );
}

#[test]
fn solid_path_with_segments_still_fills() {
    let draws = [draw(
        DrawTag::Brush,
        TileCoverage::Path { backdrop: 0, segment_start: 3, segment_end: 5, solid_color: Some(RED) },
    )];
    let out = build_tile_ptcls((0, 1), &[0], &[], &draws);
    assert_eq!(out, vec![TileCmd::Fill { draw: 0, backdrop: 0, segment_start: 3, segment_end: 5 }]);
}

#[test]
fn wrappers_are_emitted_once_per_tile() {
    let draws = [draw(DrawTag::Clip, path(0, 0, 1))];
    let stack = [LayerStackEntry::Clip { draw: 0 }];
    let mut ptcls = Vec::new();
    let mut emitted = Vec::new();
    assert!(ensure_batch_wrappers(&mut ptcls, &mut emitted, &stack, &draws));
    assert_eq!(ptcls, vec![TileCmd::BeginClip { draw: 0, backdrop: 0, segment_start: 0, segment_end: 1 }]);
    assert_eq!(emitted, vec![LayerStackEntry::Clip { draw: 0 }]);
    assert!(ensure_batch_wrappers(&mut ptcls, &mut emitted, &stack, &draws));
    assert_eq!(ptcls.len(), 1);
    assert_eq!(emitted.len(), 1);
}

#[test]
fn collected_glyph_ranges_index_the_joined_glyph_list() {
    let first = vec![TileCmd::Glyph { draw: 0, glyph_start: 0, glyph_end: 2 }];
    let second = vec![
        TileCmd::Glyph { draw: 0, glyph_start: 0, glyph_end: 1 },
        TileCmd::Glyph { draw: 1, glyph_start: 1, glyph_end: 3 },
    ];
    let (ranges, ptcls, glyphs) = collect_tile_streams(
        &vec![first, Vec::new(), second],
        &vec![vec![7, 8], vec![99], vec![7, 4, 5]],
    );
    assert_eq!(
        ranges,
        vec![
            TilePtclRange { start: 0, end: 2 },
            TilePtclRange { start: 2, end: 2 },
            TilePtclRange { start: 2, end: 5 },
        ]
    );
    assert_eq!(glyphs, vec![7, 8, 7, 4, 5]);
    assert_eq!(
        ptcls,
        vec![
            TileCmd::Glyph { draw: 0, glyph_start: 0, glyph_end: 2 },
            TileCmd::End,
            TileCmd::Glyph { draw: 0, glyph_start: 2, glyph_end: 3 },
            TileCmd::Glyph { draw: 1, glyph_start: 3, glyph_end: 5 },
            TileCmd::End,
        ]
    );
}

#[test]
fn path_coverage_reads_the_tile_of_the_path_rectangle() {
    let record = PathRecord { tile_x0: 1, tile_y0: 0, tile_x1: 3, tile_y1: 2, data_offset: 1, ..PathRecord::default() };
    let backdrops = vec![9, 0, 2, 0, 0];
    let ranges = vec![
        TileSegmentRange { start: 0, end: 0 },
        TileSegmentRange { start: 0, end: 0 },
        TileSegmentRange { start: 4, end: 4 },
        TileSegmentRange { start: 4, end: 6 },
        TileSegmentRange { start: 6, end: 6 },
    ];
    let bbox = TileRect { x0: 0, y0: 0, x1: 3, y1: 2 };
    assert_eq!(path_tile_coverage(1, 0, bbox, &record, &backdrops, &ranges), None);
    assert_eq!(path_tile_coverage(2, 0, bbox, &record, &backdrops, &ranges), Some((2, 4, 4)));
    assert_eq!(path_tile_coverage(1, 1, bbox, &record, &backdrops, &ranges), Some((0, 4, 6)));
    assert_eq!(path_tile_coverage(0, 0, bbox, &record, &backdrops, &ranges), None);
    let narrow = TileRect { x0: 0, y0: 0, x1: 2, y1: 2 };
    assert_eq!(path_tile_coverage(2, 0, narrow, &record, &backdrops, &ranges), None);
    let records = vec![record];
    assert_eq!(
        draw_tile_coverage(2, 0, DrawShape::Path { path_id: 0, solid_color: Some(RED) }, bbox, &records, &backdrops, &ranges),
        TileCoverage::Path { backdrop: 2, segment_start: 4, segment_end: 4, solid_color: Some(RED) }
    );
    assert_eq!(
        draw_tile_coverage(2, 0, DrawShape::Glyph { glyph_count: 0 }, bbox, &records, &backdrops, &ranges),
        TileCoverage::Uncovered
    );
    assert_eq!(
        draw_tile_coverage(2, 1, DrawShape::SdfShadow, bbox, &records, &backdrops, &ranges),
        TileCoverage::SdfShadow
    );
    assert_eq!(
        draw_tile_coverage(3, 1, DrawShape::Sdf { solid_color: None }, bbox, &records, &backdrops, &ranges),
        TileCoverage::Uncovered
    );
}
