use tileink::cumsum::{run_backdrop_cumsum, run_cumsum, BackdropRecord, CumsumCpuPipeline};

#[test]
fn scans_each_backdrop_row_independently() {
    let record = BackdropRecord {
        data_offset: 0,
        data_len: 6,
        tile_x0: 10,
        tile_y0: 20,
        tile_x1: 13,
        tile_y1: 22,
        ..BackdropRecord::default()
    };
    let mut backdrops = vec![1, -1, 2, 3, 0, -2];

    run_backdrop_cumsum(&mut backdrops, &[record]);

    assert_eq!(backdrops, vec![1, 0, 2, 3, 3, 1]);
}

#[test]
fn respects_record_offsets() {
    let records = [
        BackdropRecord {
            data_offset: 1,
            data_len: 4,
            tile_x0: 0,
            tile_y0: 0,
            tile_x1: 2,
            tile_y1: 2,
            ..BackdropRecord::default()
        },
        BackdropRecord {
            data_offset: 5,
            data_len: 3,
            tile_x0: 0,
            tile_y0: 0,
            tile_x1: 3,
            tile_y1: 1,
            ..BackdropRecord::default()
        },
    ];
    let mut backdrops = vec![99, 1, 2, 3, 4, -1, 0, 2];

    run_backdrop_cumsum(&mut backdrops, &records);

    assert_eq!(backdrops, vec![99, 1, 3, 3, 7, -1, -1, 1]);
}

#[test]
fn empty_tile_rectangles_are_skipped() {
    let record = BackdropRecord {
        data_offset: 100,
        data_len: 0,
        tile_x0: 4,
        tile_y0: 4,
        tile_x1: 4,
        tile_y1: 9,
        ..BackdropRecord::default()
    };
    let mut backdrops = vec![5, 6];
    run_backdrop_cumsum(&mut backdrops, &[record]);
    assert_eq!(backdrops, vec![5, 6]);
}

#[test]
fn pipeline_runs_the_cumsum_over_path_records() {
    let records = [BackdropRecord {
        data_offset: 0,
        data_len: 4,
        tile_x0: 0,
        tile_y0: 0,
        tile_x1: 4,
        tile_y1: 1,
        ..BackdropRecord::default()
    }];
    let mut backdrops = vec![1, 1, -1, 2];
    let pipeline = CumsumCpuPipeline::new();
    pipeline.prepare(&mut backdrops, &records).run();
    assert_eq!(backdrops, vec![1, 2, 1, 3]);
}

#[test]
fn run_cumsum_scans_the_frame_backdrops() {
    let record = BackdropRecord {
        data_offset: 0,
        data_len: 4,
        tile_x0: 0,
        tile_y0: 0,
        tile_x1: 4,
        tile_y1: 1,
        ..BackdropRecord::default()
    };
    let mut backdrops = vec![2, -1, 0, 3];
    run_cumsum(&CumsumCpuPipeline::new(), &mut backdrops, &[record]);
    assert_eq!(backdrops, vec![2, 1, 1, 4]);
}

#[test]
fn disjoint_records_scan_from_their_own_inputs() {
    let mut backdrops = vec![1, 2, 3, 4, 5, 6];
    let records = [
        BackdropRecord { data_offset: 3, data_len: 3, tile_x0: 0, tile_y0: 0, tile_x1: 3, tile_y1: 1, ..BackdropRecord::default() },
        BackdropRecord { data_offset: 0, data_len: 2, tile_x0: 0, tile_y0: 0, tile_x1: 1, tile_y1: 2, ..BackdropRecord::default() },
    ];
    run_backdrop_cumsum(&mut backdrops, &records);
    assert_eq!(backdrops, vec![1, 2, 3, 4, 9, 15]);
}
