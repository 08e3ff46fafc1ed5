use noise::{NoiseFn, Perlin, Simplex, Worley};
use rand::rngs::StdRng;
use rand::SeedableRng;
use terrain_generation::noise::{
    grid_extremes, noise_terrain, noise_terrain_seeded, sample_octaves, seed_noise_field, NoiseField, NoiseType,
    SEED_COUNT,
};
use terrain_generation::TerrainError;

type Generator = Box<dyn NoiseFn<f64, 2>>;

fn prepare(field: NoiseField) -> Generator {
    match field.kind {
        NoiseType::Perlin => Box::new(Perlin::new(field.seed)),
        NoiseType::Simplex => Box::new(Simplex::new(field.seed)),
        NoiseType::Worley => Box::new(Worley::new(field.seed)),
    }
}

/// The sum of ten octaves, written out as a loop.
fn octaves_by_loop(generator: &Generator, x: usize, y: usize) -> f32 {
    let base_scale = 0.005f64;
    let mut amplitude = 1.0f32;
    let mut frequency = 1.0f64;
    let mut value = 0.0f32;
    for _ in 0..10 {
        value += generator.get([x as f64 * base_scale * frequency, y as f64 * base_scale * frequency]) as f32
            * amplitude;
        amplitude *= 0.5;
        frequency *= 2.0;
    }
    value
}

/// The sum of ten octaves, accumulated by the library.
fn octaves(generator: &Generator, x: usize, y: usize) -> f32 {
    let (_, _, value) = sample_octaves(
        generator,
        x,
        y,
        10,
        (1.0f32, 1.0f64, 0.0f32),
        &|generator: &Generator, x: usize, y: usize, _octave: u32, (amplitude, frequency, value): (f32, f64, f32)| {
            let sample = generator.get([x as f64 * 0.005 * frequency, y as f64 * 0.005 * frequency]) as f32;
            (amplitude * 0.5, frequency * 2.0, value + sample * amplitude)
        },
    );
    value
}

fn extremes(raw: &Vec<Vec<f32>>) -> (f32, f32) {
    grid_extremes(raw, f32::MAX, f32::MIN, f32::min, f32::max)
}

#[test]
fn octaves_are_taken_in_turn_from_the_start() {
    let sum = sample_octaves(&3u32, 5, 7, 4, Vec::new(), &|generator: &u32, x: usize, y: usize, octave: u32, mut sum: Vec<(u32, usize, usize, u32)>| {
        sum.push((*generator, x, y, octave));
        sum
    });
    assert_eq!(sum, vec![(3, 5, 7, 0), (3, 5, 7, 1), (3, 5, 7, 2), (3, 5, 7, 3)]);
    let none = sample_octaves(&(), 0, 0, 0, 1.5f32, &|_: &(), _x: usize, _y: usize, _octave: u32, sum: f32| sum * 2.0);
    assert_eq!(none, 1.5);
}

#[test]
fn octaves_halve_the_amplitude_and_double_the_frequency() {
    let sum = sample_octaves(&(), 1, 2, 3, (1.0f32, 1.0f64, 0.0f32), &|_: &(), x: usize, y: usize, _octave: u32, (amplitude, frequency, value): (f32, f64, f32)| {
        (amplitude * 0.5, frequency * 2.0, value + (x as f64 * frequency + y as f64) as f32 * amplitude)
    });
    assert_eq!(sum, (0.125, 8.0, 3.0 + 4.0 * 0.5 + 6.0 * 0.25));
}

#[test]
fn octaves_by_the_library_agree_with_a_loop() {
    let generator = prepare(NoiseField { kind: NoiseType::Perlin, seed: 5 });
    for y in 0..8usize {
        for x in 0..8usize {
            assert_eq!(octaves(&generator, x, y), octaves_by_loop(&generator, x, y));
        }
    }
}

#[test]
fn extremes_are_the_least_and_the_greatest_cell() {
    let grid = vec![vec![3.0f32, -1.5, 2.0], vec![9.25, 0.0, -7.0], vec![1.0, 1.0, 1.0]];
    assert_eq!(extremes(&grid), (-7.0, 9.25));
    let empty: Vec<Vec<f32>> = Vec::new();
    assert_eq!(extremes(&empty), (f32::MAX, f32::MIN));
}

fn remap(value: f32, low: f32, high: f32) -> f32 {
    if high > low {
        (value - low) / (high - low) * 50.0
    } else {
        0.0
    }
}

fn generate(n: u32, kind: NoiseType, seed: u64) -> Result<Vec<Vec<f32>>, TerrainError> {
    let mut rng = StdRng::seed_from_u64(seed);
    noise_terrain(n, kind, &mut rng, prepare, octaves, extremes, remap)
}

#[test]
fn seed_of_a_field_is_below_the_seed_count() {
    let mut rng = StdRng::seed_from_u64(1);
    let mut seen = std::collections::BTreeSet::new();
    for _ in 0..2000 {
        let field = seed_noise_field(NoiseType::Worley, &mut rng);
        assert_eq!(field.kind, NoiseType::Worley);
        assert!(field.seed < SEED_COUNT);
        assert!(field.seed < 100);
        seen.insert(field.seed);
    }
    assert!(seen.len() > 90);
}

#[test]
fn seed_of_a_field_follows_the_source() {
    let mut first = StdRng::seed_from_u64(5);
    let mut second = StdRng::seed_from_u64(5);
    for _ in 0..50 {
        assert_eq!(
            seed_noise_field(NoiseType::Perlin, &mut first),
            seed_noise_field(NoiseType::Perlin, &mut second)
        );
    }
}

#[test]
fn noise_of_detail_zero_is_refused() {
    assert_eq!(generate(0, NoiseType::Perlin, 1), Err(TerrainError::InvalidDetailLevel));
}

#[test]
fn noise_heights_span_zero_to_fifty() {
    for kind in [NoiseType::Perlin, NoiseType::Simplex, NoiseType::Worley] {
        let grid = generate(5, kind, 3).unwrap();
        assert_eq!(grid.len(), 32);
        let mut low = f32::MAX;
        let mut high = f32::MIN;
        for row in &grid {
            assert_eq!(row.len(), 32);
            for value in row {
                assert!(*value >= 0.0 && *value <= 50.0);
                low = low.min(*value);
                high = high.max(*value);
            }
        }
        assert_eq!(low, 0.0);
        assert_eq!(high, 50.0);
    }
}

#[test]
fn noise_maps_the_extreme_samples_to_the_ends() {
    let field = NoiseField { kind: NoiseType::Perlin, seed: 42 };
    let raw = std::cell::RefCell::new(Vec::new());
    let grid = noise_terrain_seeded(
        4,
        field,
        prepare,
        octaves,
        |samples: &Vec<Vec<f32>>| {
            *raw.borrow_mut() = samples.clone();
            extremes(samples)
        },
        remap,
    )
    .unwrap();
    let raw = raw.into_inner();
    let generator = prepare(field);
    let (low, high) = extremes(&raw);
    assert!(low < high);
    for y in 0..16usize {
        for x in 0..16usize {
            assert_eq!(raw[y][x], octaves(&generator, x, y));
            assert_eq!(grid[y][x], (raw[y][x] - low) / (high - low) * 50.0);
            if raw[y][x] == low {
                assert_eq!(grid[y][x], 0.0);
            }
            if raw[y][x] == high {
                assert_eq!(grid[y][x], 50.0);
            }
        }
    }
}

#[test]
fn noise_of_a_constant_field_is_all_zero() {
    let field = NoiseField { kind: NoiseType::Simplex, seed: 0 };
    let grid = noise_terrain_seeded(
        2,
        field,
        |_field: NoiseField| (),
        |_generator: &(), _x: usize, _y: usize| 3.25f32,
        extremes,
        remap,
    )
    .unwrap();
    assert_eq!(grid, vec![vec![0.0f32; 4]; 4]);
}

#[test]
fn noise_builds_the_field_once_and_samples_row_by_row() {
    let built = std::cell::Cell::new(0u32);
    let order = std::cell::RefCell::new(Vec::new());
    let field = NoiseField { kind: NoiseType::Worley, seed: 9 };
    let grid = noise_terrain_seeded(
        1,
        field,
        |field: NoiseField| {
            built.set(built.get() + 1);
            field.seed
        },
        |seed: &u32, x: usize, y: usize| {
            order.borrow_mut().push((x, y));
            (*seed as usize + 10 * y + x) as i64
        },
        |raw: &Vec<Vec<i64>>| (raw[0][0], raw[1][1]),
        |value: i64, low: i64, high: i64| (value - low) * 50 / (high - low),
    )
    .unwrap();
    assert_eq!(built.get(), 1);
    assert_eq!(order.into_inner(), vec![(0, 0), (1, 0), (0, 1), (1, 1)]);
    assert_eq!(grid, vec![vec![0, 4], vec![45, 50]]);
}

#[test]
fn noise_with_the_same_seed_is_the_same_grid() {
    for kind in [NoiseType::Perlin, NoiseType::Simplex, NoiseType::Worley] {
        assert_eq!(generate(4, kind, 11), generate(4, kind, 11));
        let field = NoiseField { kind, seed: 17 };
        assert_eq!(
            noise_terrain_seeded(4, field, prepare, octaves, extremes, remap),
            noise_terrain_seeded(4, field, prepare, octaves, extremes, remap)
        );
    }
}

#[test]
fn noise_kinds_give_different_grids() {
    let perlin = noise_terrain_seeded(4, NoiseField { kind: NoiseType::Perlin, seed: 1 }, prepare, octaves, extremes, remap);
    let worley = noise_terrain_seeded(4, NoiseField { kind: NoiseType::Worley, seed: 1 }, prepare, octaves, extremes, remap);
    assert_ne!(perlin, worley);
}
