use tileink::filter_ops::MorphologyAxis;
use tileink::morphology::{morphology_axis, morphology_replaces, MorphologyOperator};

fn pixels(values: &[u32]) -> Vec<[u32; 4]> {
    values.iter().map(|&v| [v, v / 2, 7, 255 - v]).collect()
}

fn run(values: &[u32], width: usize, height: usize, radius: usize, axis: MorphologyAxis, op: MorphologyOperator) -> Vec<[u32; 4]> {
    let source = pixels(values);
    let mut target = vec![[9u32; 4]; source.len()];
    morphology_axis(&source, &mut target, width, height, radius, axis, op);
    target
}

#[test]
fn dilation_takes_the_largest_sample_of_each_window() {
    let out = run(&[1, 5, 2, 0, 3], 5, 1, 1, MorphologyAxis::X, MorphologyOperator::Dilate);
    let first: Vec<u32> = out.iter().map(|px| px[0]).collect();
    assert_eq!(first, vec![5, 5, 5, 3, 3]);
    let last: Vec<u32> = out.iter().map(|px| px[3]).collect();
    assert_eq!(last, vec![254, 254, 255, 255, 255]);
    assert!(out.iter().all(|px| px[2] == 7));
}

#[test]
fn erosion_takes_the_smallest_sample_and_clears_the_edges() {
    let out = run(&[1, 5, 2, 0, 3], 5, 1, 1, MorphologyAxis::X, MorphologyOperator::Erode);
    assert_eq!(out[0], [0, 0, 0, 0]);
    assert_eq!(out[4], [0, 0, 0, 0]);
    assert_eq!(out[1][0], 1);
    assert_eq!(out[2][0], 0);
    assert_eq!(out[3][0], 0);
    assert_eq!(out[2][3], 250);
}

#[test]
fn vertical_passes_run_down_each_column() {
    // Two columns, three rows: column 0 holds 4, 0, 8 and column 1 holds 1, 9, 2.
    let out = run(&[4, 1, 0, 9, 8, 2], 2, 3, 1, MorphologyAxis::Y, MorphologyOperator::Dilate);
    let first: Vec<u32> = out.iter().map(|px| px[0]).collect();
    assert_eq!(first, vec![4, 9, 8, 9, 8, 9]);
}

#[test]
fn radius_zero_dilation_copies_and_a_large_radius_spans_the_line() {
    let values = [3, 1, 4, 1, 5];
    let out = run(&values, 5, 1, 0, MorphologyAxis::X, MorphologyOperator::Dilate);
    assert_eq!(out, pixels(&values));
    let out = run(&values, 5, 1, 100, MorphologyAxis::X, MorphologyOperator::Dilate);
    assert!(out.iter().all(|px| px[0] == 5));
    let out = run(&values, 5, 1, 100, MorphologyAxis::X, MorphologyOperator::Erode);
    assert!(out.iter().all(|px| *px == [0, 0, 0, 0]));
}

#[test]
fn ties_count_as_replacing() {
    assert!(morphology_replaces(3, 3, MorphologyOperator::Erode));
    assert!(morphology_replaces(3, 3, MorphologyOperator::Dilate));
    assert!(morphology_replaces(2, 3, MorphologyOperator::Erode));
    assert!(!morphology_replaces(2, 3, MorphologyOperator::Dilate));
}
