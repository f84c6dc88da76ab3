use tileink::cumsum::PathRecord;
use tileink::bounds::Bounds;
use tileink::coarse::TileRect;
use tileink::scene::{
    allocate_path_tiles, path_draw_bounds, saturating_sum, transformed_segment_capacity, DrawPathBounds, DrawRefs,
    SceneData, TextRun, NO_INDEX,
};

fn scene(lines: Vec<u32>, records: Vec<PathRecord>, draws: Vec<DrawRefs>, glyphs: usize, runs: Vec<TextRun>, paths: u32) -> SceneData {
    SceneData { line_paths: lines, path_records: records, draws, glyph_count: glyphs, text_runs: runs, path_cnt: paths }
}

#[test]
fn appended_indices_move_past_existing_records() {
    let mut parent = scene(
        vec![0, 0, 1],
        vec![PathRecord { path_id: 0, line_start: 0, line_count: 2, ..PathRecord::default() }],
        vec![DrawRefs { path_id: 0, glyph_run_id: NO_INDEX }],
        4,
        vec![TextRun { glyph_start: 0, glyph_count: 4 }],
        2,
    );
    let child = scene(
        vec![0, 1],
        vec![PathRecord {
            path_id: 1,
            line_start: 1,
            line_count: 1,
            flags: 3,
            data_offset: 7,
            data_len: 9,
            tile_x0: 1,
            tile_y0: 2,
            tile_x1: 3,
            tile_y1: 4,
            segment_start: 5,
            segment_capacity: 6,
            segment_count: 2,
        }],
        vec![
            DrawRefs { path_id: 1, glyph_run_id: NO_INDEX },
            DrawRefs { path_id: NO_INDEX, glyph_run_id: 0 },
        ],
        3,
        vec![TextRun { glyph_start: 1, glyph_count: 2 }],
        2,
    );
    let first = parent.append_scene_data(&child);
    assert_eq!(first, 1);
    assert_eq!(parent.line_paths, vec![0, 0, 1, 2, 3]);
    assert_eq!(parent.path_records.len(), 2);
    assert_eq!(
        parent.path_records[1],
        PathRecord { path_id: 3, line_start: 4, line_count: 1, flags: 3, ..PathRecord::default() }
    );
    assert_eq!(
        parent.draws,
        vec![
            DrawRefs { path_id: 0, glyph_run_id: NO_INDEX },
            DrawRefs { path_id: 3, glyph_run_id: NO_INDEX },
            DrawRefs { path_id: NO_INDEX, glyph_run_id: 1 },
        ]
    );
    assert_eq!(parent.glyph_count, 7);
    assert_eq!(parent.text_runs[1], TextRun { glyph_start: 5, glyph_count: 2 });
    assert_eq!(parent.path_cnt, 4);
}

#[test]
fn appended_indices_saturate() {
    let mut parent = scene(Vec::new(), Vec::new(), Vec::new(), 0, Vec::new(), u32::MAX - 1);
    let child = scene(
        vec![5],
        vec![PathRecord { path_id: 5, ..PathRecord::default() }],
        vec![DrawRefs { path_id: 5, glyph_run_id: NO_INDEX }],
        0,
        Vec::new(),
        7,
    );
    parent.append_scene_data(&child);
    assert_eq!(parent.line_paths, vec![u32::MAX]);
    assert_eq!(parent.path_records[0].path_id, u32::MAX);
    assert_eq!(parent.draws[0].path_id, u32::MAX);
    assert_eq!(parent.path_cnt, u32::MAX);
}

#[test]
fn appending_an_empty_scene_changes_nothing() {
    let mut parent = scene(vec![0], Vec::new(), vec![DrawRefs { path_id: 0, glyph_run_id: NO_INDEX }], 2, Vec::new(), 1);
    let child = scene(Vec::new(), Vec::new(), Vec::new(), 0, Vec::new(), 0);
    assert_eq!(parent.append_scene_data(&child), 1);
    assert_eq!(parent.line_paths, vec![0]);
    assert_eq!(parent.draws.len(), 1);
    assert_eq!(parent.glyph_count, 2);
    assert_eq!(parent.path_cnt, 1);
}

#[test]
fn appended_paths_take_the_next_pool_slices() {
    let mut records = vec![PathRecord { path_id: 7, segment_count: 4, ..PathRecord::default() }; 3];
    let next = allocate_path_tiles(
        &mut records,
        1,
        &[TileRect { x0: 0, y0: 0, x1: 2, y1: 3 }, TileRect { x0: 1, y0: 1, x1: 1, y1: 4 }],
        &[5, u32::MAX],
        10,
        20,
    );
    assert_eq!(next, (16, u32::MAX));
    assert_eq!(records[0], PathRecord { path_id: 7, segment_count: 4, ..PathRecord::default() });
    assert_eq!(
        records[1],
        PathRecord {
            path_id: 7,
            data_offset: 10,
            data_len: 6,
            tile_x0: 0,
            tile_y0: 0,
            tile_x1: 2,
            tile_y1: 3,
            segment_start: 20,
            segment_capacity: 5,
            ..PathRecord::default()
        }
    );
    assert_eq!(records[2].data_offset, 16);
    assert_eq!(records[2].data_len, 0);
    assert_eq!(records[2].segment_start, 25);
    assert_eq!(records[2].segment_capacity, u32::MAX);
}

#[test]
fn path_bounds_and_capacities() {
    let draws = [
        DrawPathBounds { path_id: 1, bounds: Bounds::new(0, 0, 4, 4) },
        DrawPathBounds { path_id: 2, bounds: Bounds::new(5, 5, 6, 6) },
        DrawPathBounds { path_id: 1, bounds: Bounds::new(2, -1, 8, 3) },
    ];
    assert_eq!(path_draw_bounds(1, &draws), Some(Bounds::new(0, -1, 8, 4)));
    assert_eq!(path_draw_bounds(3, &draws), None);
    assert_eq!(transformed_segment_capacity(3, TileRect { x0: 0, y0: 0, x1: 2, y1: 3 }), 15);
    assert_eq!(saturating_sum(&[u32::MAX, 1]), u32::MAX);
    assert_eq!(saturating_sum(&[2, 3]), 5);
}
