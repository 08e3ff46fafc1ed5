use rand::rngs::StdRng;
use rand::{Rng, SeedableRng};
use rustfft::num_complex::Complex;
use rustfft::FftPlanner;
use terrain_generation::fft_utils::{apply_low_pass_filter, apply_pink_noise_filter};
use terrain_generation::grid::side_for_detail;
use terrain_generation::terrain::{fft_terrain, fft_terrain_with};
use terrain_generation::TerrainError;

fn generate(n: u32, seed: u64) -> Result<Vec<Vec<f32>>, TerrainError> {
    let size = side_for_detail(n, 0).unwrap_or(1);
    let mut planner = FftPlanner::<f32>::new();
    let forward = planner.plan_fft_forward(size);
    let inverse = planner.plan_fft_inverse(size);
    let (grid, _rng) = fft_terrain(
        n,
        StdRng::seed_from_u64(seed),
        |mut rng: StdRng, _row: usize, _col: usize| {
            let real = rng.gen_range(-1.0f32..1.0);
            (rng, Complex::new(real, 0.0))
        },
        |mut row: Vec<Complex<f32>>| {
            forward.process(&mut row);
            row
        },
        |cell: Complex<f32>, falloff4: u128| cell * (1.0 / ((falloff4 as f32 / 4.0) * 0.15)),
        |mut row: Vec<Complex<f32>>| {
            inverse.process(&mut row);
            row
        },
        |cell: Complex<f32>, size: usize| cell * (1.0 / size as f32),
        |cell: Complex<f32>, size: usize| cell * (size as f32 * 2.0),
        |cell: Complex<f32>| cell.re.abs(),
    );
    grid
}

#[test]
fn spectral_terrain_of_detail_zero_is_refused() {
    assert_eq!(generate(0, 1), Err(TerrainError::InvalidDetailLevel));
}

#[test]
fn spectral_terrain_of_detail_three_is_finite() {
    let grid = generate(3, 2024).unwrap();
    assert_eq!(grid.len(), 8);
    let mut sum = 0.0f32;
    for row in &grid {
        assert_eq!(row.len(), 8);
        for height in row {
            assert!(height.is_finite());
            assert!(*height >= 0.0);
            sum += *height;
        }
    }
    let mean = sum / 64.0;
    let above = grid.iter().flatten().filter(|height| **height > mean).count();
    let below = grid.iter().flatten().filter(|height| **height < mean).count();
    assert!(above > 0 && below > 0);
}

#[test]
fn spectral_terrain_of_an_oversized_grid_hands_the_source_back() {
    let (grid, source) = fft_terrain(
        usize::BITS,
        41u8,
        |source: u8, _row: usize, _col: usize| (source + 1, 0.0f32),
        |row: Vec<f32>| row,
        |cell: f32, _falloff4: u128| cell,
        |row: Vec<f32>| row,
        |cell: f32, _size: usize| cell,
        |cell: f32, _size: usize| cell,
        |cell: f32| cell,
    );
    assert_eq!(grid, Err(TerrainError::InvalidDetailLevel));
    assert_eq!(source, 41);
}

#[test]
fn spectral_terrain_with_the_same_seed_is_the_same_grid() {
    assert_eq!(generate(4, 8), generate(4, 8));
    assert_ne!(generate(4, 8), generate(4, 9));
}

#[test]
fn spectral_terrain_runs_its_passes_in_order() {
    let log = std::cell::RefCell::new(Vec::new());
    let note = |name: &'static str| {
        let mut log = log.borrow_mut();
        if log.last() != Some(&name) {
            log.push(name);
        }
    };
    let (grid, drawn) = fft_terrain(
        1,
        0u64,
        |drawn: u64, _row: usize, _col: usize| {
            note("seed");
            (drawn + 1, drawn + 1)
        },
        |row: Vec<u64>| {
            note("forward");
            row
        },
        |cell: u64, falloff4: u128| {
            note("filter");
            cell * 1000 + falloff4 as u64
        },
        |row: Vec<u64>| {
            note("inverse");
            row
        },
        |cell: u64, size: usize| {
            note("scale");
            cell + size as u64
        },
        |cell: u64, size: usize| {
            note("raise");
            cell * size as u64
        },
        |cell: u64| {
            note("project");
            cell as i64
        },
    );
    let grid = grid.unwrap();
    assert_eq!(drawn, 4);
    assert_eq!(
        log.into_inner(),
        vec!["seed", "forward", "filter", "inverse", "scale", "inverse", "scale", "raise", "project"]
    );
    assert_eq!(grid, vec![vec![2024, 4016], vec![6016, 8016]]);
}

#[test]
fn spectral_terrain_without_a_filter_returns_the_seeds() {
    let size = 8usize;
    let mut planner = FftPlanner::<f32>::new();
    let forward = planner.plan_fft_forward(size);
    let inverse = planner.plan_fft_inverse(size);
    let seed = |row: usize, col: usize| Complex::new(((row * 8 + col) as f32 * 0.7).sin(), 0.0);
    let (grid, _) = fft_terrain_with(
        3,
        (),
        |_: (), row: usize, col: usize| ((), seed(row, col)),
        |mut row: Vec<Complex<f32>>| {
            forward.process(&mut row);
            row
        },
        |spectrum: Vec<Vec<Complex<f32>>>| spectrum,
        |mut row: Vec<Complex<f32>>| {
            inverse.process(&mut row);
            row
        },
        |cell: Complex<f32>, size: usize| cell * (1.0 / size as f32),
        |cell: Complex<f32>, _size: usize| cell,
        |cell: Complex<f32>| cell.re,
    );
    let grid = grid.unwrap();
    for row in 0..size {
        for col in 0..size {
            assert!((grid[row][col] - seed(row, col).re).abs() < 1e-5);
        }
    }
}

#[test]
fn spectral_terrain_takes_the_low_pass_filter_in_place_of_the_pink_one() {
    let size = 16usize;
    let mut planner = FftPlanner::<f32>::new();
    let forward = planner.plan_fft_forward(size);
    let inverse = planner.plan_fft_inverse(size);
    let (grid, _) = fft_terrain_with(
        4,
        StdRng::seed_from_u64(3),
        |mut rng: StdRng, _row: usize, _col: usize| {
            let real = rng.gen_range(-1.0f32..1.0);
            (rng, Complex::new(real, 0.0))
        },
        |mut row: Vec<Complex<f32>>| {
            forward.process(&mut row);
            row
        },
        |mut spectrum: Vec<Vec<Complex<f32>>>| {
            apply_low_pass_filter(
                &mut spectrum,
                size,
                |cell: Complex<f32>| cell * Complex::new(1.0, 1.0),
                |cell: Complex<f32>| cell * Complex::new(0.0, 0.0),
            );
            let kept = spectrum.iter().flatten().filter(|cell| cell.norm() > 0.0).count();
            assert_eq!(kept, 37);
            spectrum
        },
        |mut row: Vec<Complex<f32>>| {
            inverse.process(&mut row);
            row
        },
        |cell: Complex<f32>, size: usize| cell * (1.0 / size as f32),
        |cell: Complex<f32>, size: usize| cell * (size as f32 * 2.0),
        |cell: Complex<f32>| cell.re.abs(),
    );
    let grid = grid.unwrap();
    assert!(grid.iter().flatten().all(|height| height.is_finite()));
    assert!(grid.iter().flatten().any(|height| *height > 0.0));
}

#[test]
fn spectral_terrain_with_the_pink_filter_is_the_default_terrain() {
    let size = 8usize;
    let mut planner = FftPlanner::<f32>::new();
    let forward = planner.plan_fft_forward(size);
    let inverse = planner.plan_fft_inverse(size);
    let (grid, _) = fft_terrain_with(
        3,
        StdRng::seed_from_u64(77),
        |mut rng: StdRng, _row: usize, _col: usize| {
            let real = rng.gen_range(-1.0f32..1.0);
            (rng, Complex::new(real, 0.0))
        },
        |mut row: Vec<Complex<f32>>| {
            forward.process(&mut row);
            row
        },
        |mut spectrum: Vec<Vec<Complex<f32>>>| {
            apply_pink_noise_filter(&mut spectrum, size, |cell: Complex<f32>, falloff4: u128| {
                cell * (1.0 / ((falloff4 as f32 / 4.0) * 0.15))
            });
            spectrum
        },
        |mut row: Vec<Complex<f32>>| {
            inverse.process(&mut row);
            row
        },
        |cell: Complex<f32>, size: usize| cell * (1.0 / size as f32),
        |cell: Complex<f32>, size: usize| cell * (size as f32 * 2.0),
        |cell: Complex<f32>| cell.re.abs(),
    );
    assert_eq!(grid, generate(3, 77));
}

#[test]
fn spectral_terrain_with_a_filter_of_detail_zero_hands_the_source_back() {
    let (grid, source) = fft_terrain_with(
        0,
        9u8,
        |source: u8, _row: usize, _col: usize| (source + 1, 0.0f32),
        |row: Vec<f32>| row,
        |spectrum: Vec<Vec<f32>>| spectrum,
        |row: Vec<f32>| row,
        |cell: f32, _size: usize| cell,
        |cell: f32, _size: usize| cell,
        |cell: f32| cell,
    );
    assert_eq!(grid, Err(TerrainError::InvalidDetailLevel));
    assert_eq!(source, 9);
}
