use tileink::bounds::Bounds;
use tileink::cumsum::PathRecord;
use tileink::tiles::{
    bounds_intersect, chunk_offsets, fill_chunk_local, fill_ranges_from_counts,
    fill_ranges_from_counts_chunked, local_tile_ix, shift_chunk, tile_bounds, tile_target_bounds,
    TileSegmentRange,
};

#[test]
fn fill_ranges_from_counts_parallel_builds_prefix_sum() {
    let mut ranges = vec![TileSegmentRange::default(); 8];
    let counts = [3u32, 0, 2, 1, 4, 0, 0, 2];

    fill_ranges_from_counts_chunked(&mut ranges, &counts, 10, 3);

    assert_eq!(
        ranges,
        vec![
            TileSegmentRange { start: 10, end: 13 },
            TileSegmentRange { start: 13, end: 13 },
            TileSegmentRange { start: 13, end: 15 },
            TileSegmentRange { start: 15, end: 16 },
            TileSegmentRange { start: 16, end: 20 },
            TileSegmentRange { start: 20, end: 20 },
            TileSegmentRange { start: 20, end: 20 },
            TileSegmentRange { start: 20, end: 22 },
        ]
    );
}

#[test]
fn tiles_are_sixteen_pixels_square() {
    assert_eq!(tile_bounds(2, 3), Bounds::new(32, 48, 48, 64));
    assert_eq!(
        tile_target_bounds(1, 0, Bounds::new(20, 4, 100, 10)),
        Some((Bounds::new(20, 4, 32, 10), 16, 0))
    );
    assert_eq!(tile_target_bounds(0, 0, Bounds::new(20, 4, 100, 10)), None);
}

#[test]
fn touching_rectangles_do_not_intersect() {
    assert!(bounds_intersect(Bounds::new(0, 0, 4, 4), Bounds::new(3, 3, 9, 9)));
    assert!(!bounds_intersect(Bounds::new(0, 0, 4, 4), Bounds::new(4, 0, 9, 9)));
}

#[test]
fn local_tile_index_is_row_major_inside_the_path() {
    let record = PathRecord {
        tile_x0: 2,
        tile_y0: 1,
        tile_x1: 5,
        tile_y1: 4,
        ..PathRecord::default()
    };
    // Scene is 10 tiles wide: tile id 23 is (3, 2).
    assert_eq!(local_tile_ix(&record, 23, 10), 4);
    assert_eq!(local_tile_ix(&record, 12, 10), 0);
}

#[test]
fn chunked_prefix_sum_matches_one_pass_for_every_chunk_length() {
    let counts = [3u32, 0, 2, 1, 4, 0, 0, 2];
    let mut expected = vec![TileSegmentRange::default(); 8];
    fill_ranges_from_counts(&mut expected, &counts, 10);
    for chunk_len in 1..=9 {
        let mut ranges = vec![TileSegmentRange::default(); 8];
        fill_ranges_from_counts_chunked(&mut ranges, &counts, 10, chunk_len);
        assert_eq!(ranges, expected, "chunk length {chunk_len}");
    }
}

#[test]
fn chunk_kernels_sum_locally_and_move() {
    let mut ranges = vec![TileSegmentRange::default(); 3];
    let total = fill_chunk_local(&mut ranges, &[2, 0, 5]);
    assert_eq!(total, 7);
    assert_eq!(
        ranges,
        vec![
            TileSegmentRange { start: 0, end: 2 },
            TileSegmentRange { start: 2, end: 2 },
            TileSegmentRange { start: 2, end: 7 },
        ]
    );
    shift_chunk(&mut ranges, 10);
    assert_eq!(ranges[2], TileSegmentRange { start: 12, end: 17 });
    assert_eq!(chunk_offsets(&[7, 3, 0, 4], 10), vec![10, 17, 20, 20]);
    assert_eq!(fill_chunk_local(&mut [], &[]), 0);
}
