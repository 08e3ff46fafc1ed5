use terrain_generation::fractal_analysis::{box_samples, calculate_fractal_dimension, check_box, count_boxes, BoxSample};
use terrain_generation::grid::{build_grid, filled};
use terrain_generation::TerrainError;

/// The slope of the least-squares line through the logarithms of the box
/// sizes and of the counts.
fn slope(samples: Vec<BoxSample>) -> f32 {
    let n = samples.len() as f32;
    let (mut sum_x, mut sum_y, mut sum_xx, mut sum_xy) = (0.0f32, 0.0f32, 0.0f32, 0.0f32);
    for sample in &samples {
        let x = (sample.box_size as f32).ln();
        let y = (sample.count as f32).ln();
        sum_x += x;
        sum_y += y;
        sum_xx += x * x;
        sum_xy += x * y;
    }
    (n * sum_xy - sum_x * sum_y) / (n * sum_xx - sum_x * sum_x)
}

fn above(_i: usize, _j: usize, height: f32) -> bool {
    height > 25.0
}

fn sample(box_size: usize, count: usize) -> BoxSample {
    BoxSample { box_size, count }
}

#[test]
fn check_box_finds_a_marked_cell_inside_the_box() {
    let mut mask = filled(4, false);
    mask[2][3] = true;
    assert!(check_box(&mask, 2, 2, 2));
    assert!(check_box(&mask, 0, 0, 4));
    assert!(check_box(&mask, 2, 3, 1));
    assert!(!check_box(&mask, 0, 0, 2));
    assert!(!check_box(&mask, 0, 2, 2));
    assert!(!check_box(&mask, 2, 0, 2));
    assert!(!check_box(&mask, 3, 3, 1));
}

#[test]
fn check_box_clips_a_box_at_the_edge() {
    let mut mask = filled(5, false);
    mask[4][4] = true;
    assert!(check_box(&mask, 4, 4, 3));
    assert!(check_box(&mask, 3, 3, 100));
    assert!(!check_box(&mask, 5, 5, 3));
    assert!(!check_box(&mask, 0, 0, 0));
}

#[test]
fn count_boxes_counts_each_covered_box_once() {
    let mut mask = filled(8, false);
    mask[0][0] = true;
    mask[1][1] = true;
    mask[7][0] = true;
    assert_eq!(count_boxes(&mask, 8), 1);
    assert_eq!(count_boxes(&mask, 4), 2);
    assert_eq!(count_boxes(&mask, 2), 2);
    assert_eq!(count_boxes(&mask, 1), 3);
}

#[test]
fn check_box_far_outside_the_grid_is_empty() {
    let mask = filled(4, true);
    assert!(!check_box(&mask, usize::MAX, 0, 4));
    assert!(!check_box(&mask, 0, usize::MAX, usize::MAX));
    assert!(check_box(&mask, 3, 3, usize::MAX));
}

#[test]
fn count_boxes_with_a_box_larger_than_the_grid_counts_one_box() {
    let mut mask = filled(4, false);
    assert_eq!(count_boxes(&mask, 5), 0);
    assert_eq!(count_boxes(&mask, usize::MAX), 0);
    mask[3][1] = true;
    assert_eq!(count_boxes(&mask, 5), 1);
    assert_eq!(count_boxes(&mask, usize::MAX), 1);
}

#[test]
fn count_boxes_counts_partial_boxes_at_the_edge() {
    let mask = filled(5, true);
    assert_eq!(count_boxes(&mask, 5), 1);
    assert_eq!(count_boxes(&mask, 2), 9);
    assert_eq!(count_boxes(&mask, 3), 4);
    assert_eq!(count_boxes(&mask, 1), 25);
}

#[test]
fn samples_of_a_full_grid_are_all_the_boxes() {
    let mask = filled(8, true);
    assert_eq!(box_samples(&mask), Ok(vec![sample(8, 1), sample(4, 4), sample(2, 16)]));
    let mask = filled(16, true);
    assert_eq!(
        box_samples(&mask),
        Ok(vec![sample(16, 1), sample(8, 4), sample(4, 16), sample(2, 64)])
    );
}

#[test]
fn samples_halve_the_box_size_rounding_down() {
    let mask = filled(6, true);
    assert_eq!(box_samples(&mask), Ok(vec![sample(6, 1), sample(3, 4)]));
    let mask = filled(7, true);
    assert_eq!(box_samples(&mask), Ok(vec![sample(7, 1), sample(3, 9)]));
}

#[test]
fn samples_of_an_unmarked_grid_give_no_signal() {
    let mask = filled(8, false);
    assert_eq!(box_samples(&mask), Err(TerrainError::InsufficientSignal));
}

#[test]
fn samples_of_a_grid_below_four_are_refused() {
    for side in 0..4usize {
        assert_eq!(box_samples(&filled(side, true)), Err(TerrainError::InvalidDetailLevel));
        assert_eq!(box_samples(&filled(side, false)), Err(TerrainError::InvalidDetailLevel));
    }
    assert!(box_samples(&filled(4, true)).is_ok());
}

#[test]
fn dimension_of_a_grid_above_the_threshold_has_slope_minus_two() {
    for bits in 2..=6u32 {
        let heights = filled(1usize << bits, 30.0f32);
        let estimate = calculate_fractal_dimension(&heights, above, slope).unwrap();
        assert!((estimate + 2.0).abs() < 1e-4);
        assert!((estimate.abs() - 2.0).abs() < 1e-4);
    }
}

#[test]
fn dimension_of_a_grid_below_the_threshold_is_no_signal() {
    let heights = filled(8, 25.0f32);
    let regressions = std::cell::Cell::new(0u32);
    let estimate = calculate_fractal_dimension(&heights, above, |samples: Vec<BoxSample>| {
        regressions.set(regressions.get() + 1);
        slope(samples)
    });
    assert_eq!(estimate, Err(TerrainError::InsufficientSignal));
    assert_eq!(regressions.get(), 0);
}

#[test]
fn dimension_of_a_small_grid_is_refused() {
    let heights = filled(2, 30.0f32);
    assert_eq!(calculate_fractal_dimension(&heights, above, slope), Err(TerrainError::InvalidDetailLevel));
    let heights: Vec<Vec<f32>> = Vec::new();
    assert_eq!(calculate_fractal_dimension(&heights, above, slope), Err(TerrainError::InvalidDetailLevel));
}

#[test]
fn dimension_of_a_single_ridge_has_slope_minus_one() {
    let heights = build_grid(32, |i, _j| if i == 5 { 40.0f32 } else { 0.0 });
    let samples = std::cell::RefCell::new(Vec::new());
    let estimate = calculate_fractal_dimension(&heights, above, |found: Vec<BoxSample>| {
        *samples.borrow_mut() = found.clone();
        slope(found)
    })
    .unwrap();
    assert_eq!(
        samples.into_inner(),
        vec![sample(32, 1), sample(16, 2), sample(8, 4), sample(4, 8), sample(2, 16)]
    );
    assert!((estimate + 1.0).abs() < 1e-4);
    assert!(estimate.is_finite());
}

#[test]
fn dimension_marks_the_cells_strictly_above_the_threshold() {
    let heights = build_grid(4, |i, j| if (i, j) == (3, 3) { 25.000002f32 } else { 25.0 });
    let seen = std::cell::RefCell::new(Vec::new());
    calculate_fractal_dimension(&heights, above, |found: Vec<BoxSample>| {
        *seen.borrow_mut() = found;
        0.0f32
    })
    .unwrap();
    assert_eq!(seen.into_inner(), vec![sample(4, 1), sample(2, 1)]);
}

#[test]
fn samples_of_boxes_that_do_not_nest_may_fall_as_the_boxes_shrink() {
    let mask = build_grid(15, |i, j| j == 0 && (i == 6 || i == 7));
    assert_eq!(box_samples(&mask), Ok(vec![sample(15, 1), sample(7, 2), sample(3, 1)]));
}

#[test]
fn samples_have_distinct_sizes_and_positive_counts() {
    for side in 4..40usize {
        let mask = build_grid(side, |i, j| (i * 7 + j * 13) % 11 == 0);
        let samples = box_samples(&mask).unwrap();
        assert!(samples.len() >= 2);
        assert_eq!(samples[0].box_size, side);
        for pair in samples.windows(2) {
            assert_eq!(pair[1].box_size, pair[0].box_size / 2);
            assert!(pair[1].box_size < pair[0].box_size);
        }
        for sample in &samples {
            assert!(sample.box_size >= 2);
            assert!(sample.count >= 1);
            assert!(sample.count <= side * side);
        }
        assert!(slope(samples).is_finite());
    }
}
