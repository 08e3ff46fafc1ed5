use terrain_generation::fft_utils::{apply_low_pass_filter, apply_pink_noise_filter, centre_quadrance4};
use terrain_generation::grid::filled;

fn attenuate(cell: f32, falloff4: u128) -> f32 {
    cell * (1.0 / ((falloff4 as f32 / 4.0) * 0.15))
}

#[test]
fn quadrance_is_four_times_the_squared_distance_to_the_centre() {
    assert_eq!(centre_quadrance4(2, 2, 4), 0);
    assert_eq!(centre_quadrance4(0, 0, 4), 32);
    assert_eq!(centre_quadrance4(3, 3, 4), 8);
    assert_eq!(centre_quadrance4(1, 2, 4), 4);
    assert_eq!(centre_quadrance4(0, 0, 1), 2);
    assert_eq!(centre_quadrance4(1, 1, 3), 2);
    assert_eq!(centre_quadrance4(0, 2, 3), 10);
    assert_eq!(centre_quadrance4(0, 255, 256), 256 * 256 + 254 * 254);
}

#[test]
fn pink_filter_hands_the_falloff_of_each_cell() {
    let mut grid = filled(4, 0u128);
    apply_pink_noise_filter(&mut grid, 4, |_cell: u128, falloff4: u128| falloff4);
    assert_eq!(
        grid,
        vec![vec![32, 20, 16, 20], vec![20, 8, 4, 8], vec![16, 4, 4, 4], vec![20, 8, 4, 8]]
    );
}

#[test]
fn pink_filter_divides_by_the_squared_distance() {
    let mut grid = filled(8, 1.0f32);
    apply_pink_noise_filter(&mut grid, 8, attenuate);
    for i in 0..8usize {
        for j in 0..8usize {
            let di = i as f32 - 4.0;
            let dj = j as f32 - 4.0;
            let distance = (di * di + dj * dj).sqrt().max(1.0);
            let expected = 1.0 / (distance.powf(2.0) * 0.15);
            assert!((grid[i][j] - expected).abs() <= expected * 1e-5);
        }
    }
    assert_eq!(grid[4][4], 1.0 / 0.15);
    assert_eq!(grid[4][5], 1.0 / 0.15);
    assert_eq!(grid[4][6], 1.0 / (4.0 * 0.15));
    assert_eq!(grid[0][0], 1.0 / (32.0 * 0.15));
}

#[test]
fn pink_filter_is_symmetric_about_the_centre() {
    let mut grid = filled(8, 1.0f32);
    apply_pink_noise_filter(&mut grid, 8, attenuate);
    for i in 1..8usize {
        for j in 1..8usize {
            assert_eq!(grid[i][j], grid[8 - i][8 - j]);
            assert_eq!(grid[i][j], grid[j][i]);
        }
    }
}

#[test]
fn low_pass_filter_keeps_the_cells_nearer_than_three_and_a_half() {
    let mut grid = filled(16, 1.0f32);
    apply_low_pass_filter(&mut grid, 16, |cell: f32| cell * 2.0, |cell: f32| cell * 0.0);
    for i in 0..16usize {
        for j in 0..16usize {
            let di = i as f32 - 8.0;
            let dj = j as f32 - 8.0;
            let distance = (di * di + dj * dj).sqrt().max(1.0);
            let expected = if distance < 3.5 { 2.0 } else { 0.0 };
            assert_eq!(grid[i][j], expected);
        }
    }
    assert_eq!(grid[8][8], 2.0);
    assert_eq!(grid[8][11], 2.0);
    assert_eq!(grid[8][12], 0.0);
    assert_eq!(grid[10][10], 2.0);
    assert_eq!(grid[11][10], 0.0);
}

#[test]
fn low_pass_filter_on_an_odd_side_measures_from_the_half_cell() {
    let mut grid = filled(9, 1u8);
    apply_low_pass_filter(&mut grid, 9, |cell: u8| cell, |_cell: u8| 0u8);
    for i in 0..9usize {
        for j in 0..9usize {
            let di = i as f32 - 4.5;
            let dj = j as f32 - 4.5;
            let expected = if (di * di + dj * dj).sqrt() < 3.5 { 1 } else { 0 };
            assert_eq!(grid[i][j], expected);
        }
    }
}
