use tileink::cumsum::PathRecord;
use tileink::scan::{scan_record, segment_slots, ScanLine, ScanPlan, ScannedTile};
use tileink::tiles::TileSegmentRange;

fn tile(x: i32, y: i32, global_ix: u32, top_edge: bool) -> ScannedTile {
    ScannedTile { x, y, global_ix, top_edge }
}

fn record() -> PathRecord {
    PathRecord {
        tile_x0: 0,
        tile_y0: 0,
        tile_x1: 2,
        tile_y1: 2,
        data_len: 4,
        segment_start: 10,
        ..PathRecord::default()
    }
}

fn lines() -> Vec<ScanLine> {
    vec![
        ScanLine {
            plan: Some(ScanPlan { ymin: 0, ymax: 2, delta: 1 }),
            tiles: vec![tile(0, 0, 0, false), tile(1, 1, 3, true)],
        },
        ScanLine { plan: Some(ScanPlan { ymin: 1, ymax: 2, delta: -1 }), tiles: vec![tile(0, 1, 2, true)] },
        ScanLine { plan: None, tiles: Vec::new() },
    ]
}

#[test]
fn scan_accumulates_row_deltas_bumps_and_counts() {
    let mut backdrops = vec![7; 4];
    let mut counts = vec![9; 4];
    let mut ranges = vec![TileSegmentRange::default(); 4];
    let n = scan_record(&record(), &lines(), 2, &mut backdrops, &mut counts, &mut ranges);
    assert_eq!(n, Some(3));
    assert_eq!(backdrops, vec![1, 0, 0, -1]);
    assert_eq!(counts, vec![1, 0, 1, 1]);
    assert_eq!(
        ranges,
        vec![
            TileSegmentRange { start: 10, end: 11 },
            TileSegmentRange { start: 11, end: 11 },
            TileSegmentRange { start: 11, end: 12 },
            TileSegmentRange { start: 12, end: 13 },
        ]
    );
    let slots = segment_slots(&record(), &lines(), 2, &ranges);
    assert_eq!(slots, vec![vec![10, 12], vec![11], vec![]]);
}

#[test]
fn run_skips_zero_tile_backdrop_record() {
    let empty = PathRecord { data_len: 0, ..record() };
    let n = scan_record(&empty, &lines(), 2, &mut [], &mut [], &mut []);
    assert_eq!(n, None);
}

#[test]
fn run_adds_backdrop_delta_for_line_left_of_tile_bbox() {
    // A line left of the path's tiles crosses no tile but changes every row's winding.
    let line = ScanLine { plan: Some(ScanPlan { ymin: 0, ymax: 2, delta: -1 }), tiles: Vec::new() };
    let mut backdrops = vec![0; 4];
    let mut counts = vec![0; 4];
    let mut ranges = vec![TileSegmentRange::default(); 4];
    let n = scan_record(&record(), &vec![line], 2, &mut backdrops, &mut counts, &mut ranges);
    assert_eq!(n, Some(0));
    assert_eq!(backdrops, vec![-1, 0, -1, 0]);
}

#[test]
fn top_edge_bump_left_of_the_box_lands_in_its_first_column() {
    let line = ScanLine { plan: Some(ScanPlan { ymin: 1, ymax: 1, delta: 1 }), tiles: vec![tile(-1, 1, 2, true)] };
    let mut backdrops = vec![0; 4];
    let mut counts = vec![0; 4];
    let mut ranges = vec![TileSegmentRange::default(); 4];
    scan_record(&record(), &vec![line], 2, &mut backdrops, &mut counts, &mut ranges);
    assert_eq!(backdrops, vec![0, 0, 1, 0]);
    assert_eq!(counts, vec![0, 0, 1, 0]);
}
