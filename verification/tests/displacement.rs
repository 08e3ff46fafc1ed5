use std::cell::RefCell;
use terrain_generation::schedule::{Cell, Step, StepKind};
use terrain_generation::terrain::midpoint_displacement;
use terrain_generation::TerrainError;

/// A source of numbers in `[-1, 1]` that depends on nothing but its state.
fn next_draw(state: u32) -> (u32, f32) {
    let next = state.wrapping_mul(1_664_525).wrapping_add(1_013_904_223);
    (next, ((next >> 8) as f32 / (1u32 << 24) as f32) * 2.0 - 1.0)
}

/// Midpoint displacement written out with loops over the grid, each cell
/// averaging the neighbours that lie inside the grid.
fn displaced_by_loops(
    n: u32,
    initial_roughness: f32,
    roughness_factor: f32,
    max_height: f32,
    seed: u32,
) -> (Vec<Vec<f32>>, u32) {
    let size = (1usize << n) + 1;
    let mut state = seed;
    let mut draw = || {
        let (next, value) = next_draw(state);
        state = next;
        value
    };
    let mut grid = vec![vec![0.0f32; size]; size];
    grid[0][0] = draw() * max_height;
    grid[0][size - 1] = draw() * max_height;
    grid[size - 1][0] = draw() * max_height;
    grid[size - 1][size - 1] = draw() * max_height;
    let mut gap = size - 1;
    let mut roughness = initial_roughness;
    while gap > 1 {
        let half = gap / 2;
        let mut i = half;
        while i < size {
            let mut j = half;
            while j < size {
                let mean = (grid[i - half][j - half] + grid[i + half][j - half] + grid[i - half][j + half]
                    + grid[i + half][j + half]) / 4.0;
                grid[i][j] = mean + draw() * max_height * roughness;
                j += gap;
            }
            i += gap;
        }
        let mut i = 0;
        while i < size {
            let mut j = (i + half) % gap;
            while j < size {
                let mut sum = 0.0f32;
                let mut count = 0.0f32;
                if j >= half {
                    sum += grid[i][j - half];
                    count += 1.0;
                }
                if j + half < size {
                    sum += grid[i][j + half];
                    count += 1.0;
                }
                if i >= half {
                    sum += grid[i - half][j];
                    count += 1.0;
                }
                if i + half < size {
                    sum += grid[i + half][j];
                    count += 1.0;
                }
                grid[i][j] = sum / count + draw() * max_height * roughness;
                j += gap;
            }
            i += half;
        }
        gap /= 2;
        roughness *= roughness_factor;
    }
    (grid, state)
}

fn displaced_by_library(
    n: u32,
    initial_roughness: f32,
    roughness_factor: f32,
    max_height: f32,
    seed: u32,
) -> (Result<Vec<Vec<f32>>, TerrainError>, u32) {
    let mut roughness = vec![initial_roughness];
    for _ in 0..n {
        roughness.push(roughness.last().unwrap() * roughness_factor);
    }
    midpoint_displacement(
        n,
        0.0f32,
        seed,
        |state: u32, _cell: Cell| {
            let (next, draw) = next_draw(state);
            (next, draw * max_height)
        },
        |state: u32, step: Step, values: Vec<f32>| {
            let (next, draw) = next_draw(state);
            let mut sum = 0.0f32;
            for value in &values {
                sum += *value;
            }
            (next, sum / values.len() as f32 + draw * max_height * roughness[step.pass as usize])
        },
    )
}

#[test]
fn displacement_of_detail_zero_is_refused() {
    let result = midpoint_displacement(
        0,
        0.0f32,
        17u8,
        |state: u8, _cell: Cell| (state + 1, 1.0f32),
        |state: u8, _step: Step, _values: Vec<f32>| (state + 1, 1.0f32),
    );
    assert_eq!(result, (Err(TerrainError::InvalidDetailLevel), 17));
}

#[test]
fn displacement_of_oversized_grid_is_refused_without_a_draw() {
    let result = midpoint_displacement(
        usize::BITS,
        0.0f32,
        0u32,
        |draws: u32, _cell: Cell| (draws + 1, 1.0f32),
        |draws: u32, _step: Step, _values: Vec<f32>| (draws + 1, 1.0f32),
    );
    assert_eq!(result, (Err(TerrainError::InvalidDetailLevel), 0));
}

#[test]
fn displacement_without_offsets_averages_the_neighbours() {
    let corners = [[1.0f32, 2.0], [3.0, 4.0]];
    let (grid, draws) = midpoint_displacement(
        1,
        0.0f32,
        0u32,
        |draws: u32, cell: Cell| (draws + 1, corners[cell.row / 2][cell.col / 2]),
        |draws: u32, _step: Step, values: Vec<f32>| (draws + 1, values.iter().sum::<f32>() / values.len() as f32),
    );
    let grid = grid.unwrap();
    assert_eq!(draws, 9);
    assert_eq!(grid.len(), 3);
    assert_eq!(grid[0][0], 1.0);
    assert_eq!(grid[0][2], 2.0);
    assert_eq!(grid[2][0], 3.0);
    assert_eq!(grid[2][2], 4.0);
    assert_eq!(grid[1][1], 2.5);
    assert_eq!(grid[0][1], (1.0f32 + 2.0 + 2.5) / 3.0);
    assert_eq!(grid[1][0], (2.5f32 + 1.0 + 3.0) / 3.0);
    assert_eq!(grid[1][2], (2.5f32 + 2.0 + 4.0) / 3.0);
    assert_eq!(grid[2][1], (3.0f32 + 4.0 + 2.5) / 3.0);
}

#[test]
fn displacement_hands_the_sources_in_reading_order() {
    let (grid, seen) = midpoint_displacement(
        1,
        0u32,
        Vec::new(),
        |seen: Vec<(usize, usize, Vec<u32>)>, cell: Cell| (seen, (cell.row * 3 + cell.col) as u32 + 10),
        |mut seen: Vec<(usize, usize, Vec<u32>)>, step: Step, values: Vec<u32>| {
            seen.push((step.target.row, step.target.col, values));
            (seen, (step.target.row * 3 + step.target.col) as u32 + 10)
        },
    );
    assert_eq!(grid.unwrap(), vec![vec![10, 11, 12], vec![13, 14, 15], vec![16, 17, 18]]);
    let expected = vec![
        (1, 1, vec![10, 16, 12, 18]),
        (0, 1, vec![10, 12, 14]),
        (1, 0, vec![14, 10, 16]),
        (1, 2, vec![14, 12, 18]),
        (2, 1, vec![16, 18, 14]),
    ];
    assert_eq!(seen, expected);
}

#[test]
fn displacement_hands_the_source_from_step_to_step() {
    let (grid, count) = midpoint_displacement(
        2,
        0u32,
        0u32,
        |count: u32, _cell: Cell| (count + 1, count),
        |count: u32, _step: Step, _values: Vec<u32>| (count + 1, count),
    );
    assert_eq!(count, 25);
    let expected = vec![
        vec![0, 13, 5, 14, 1],
        vec![15, 9, 16, 10, 17],
        vec![6, 18, 4, 19, 7],
        vec![20, 11, 21, 12, 22],
        vec![2, 23, 8, 24, 3],
    ];
    assert_eq!(grid.unwrap(), expected);
}

#[test]
fn displacement_of_detail_two_seeds_corners_and_writes_each_cell_once() {
    let draws = RefCell::new(Vec::new());
    let writes = RefCell::new(vec![vec![0u32; 5]; 5]);
    let (grid, _) = midpoint_displacement(
        2,
        f32::NAN,
        7u32,
        |state: u32, cell: Cell| {
            let (next, draw) = next_draw(state);
            let value = draw * 45.0;
            draws.borrow_mut().push(value);
            writes.borrow_mut()[cell.row][cell.col] += 1;
            (next, value)
        },
        |state: u32, step: Step, values: Vec<f32>| {
            assert!(step.kind != StepKind::Corner);
            assert!(values.iter().all(|value| !value.is_nan()));
            writes.borrow_mut()[step.target.row][step.target.col] += 1;
            let (next, draw) = next_draw(state);
            (next, values.iter().sum::<f32>() / values.len() as f32 + draw * 45.0 * 0.75)
        },
    );
    let grid = grid.unwrap();
    let draws = draws.into_inner();
    assert_eq!(draws.len(), 4);
    assert_eq!(grid[0][0], draws[0]);
    assert_eq!(grid[0][4], draws[1]);
    assert_eq!(grid[4][0], draws[2]);
    assert_eq!(grid[4][4], draws[3]);
    assert!(writes.into_inner().iter().all(|row| row.iter().all(|&count| count == 1)));
    assert!(grid.iter().all(|row| row.len() == 5 && row.iter().all(|value| value.is_finite())));
}

#[test]
fn displacement_agrees_with_loops_over_the_grid() {
    for n in 1..=5u32 {
        let (by_library, state) = displaced_by_library(n, 0.75, 0.5, 45.0, 12345);
        let (by_loops, state_of_loops) = displaced_by_loops(n, 0.75, 0.5, 45.0, 12345);
        assert_eq!(by_library.unwrap(), by_loops);
        assert_eq!(state, state_of_loops);
    }
}

#[test]
fn displacement_with_the_same_seed_is_the_same_grid() {
    let first = displaced_by_library(4, 0.75, 0.5, 1000.0, 99);
    let second = displaced_by_library(4, 0.75, 0.5, 1000.0, 99);
    let other = displaced_by_library(4, 0.75, 0.5, 1000.0, 100);
    assert_eq!(first, second);
    assert_ne!(first.0, other.0);
}

#[test]
fn displacement_numbers_the_passes_of_its_steps() {
    let (_, passes) = midpoint_displacement(
        3,
        0.0f32,
        Vec::new(),
        |passes: Vec<u32>, _cell: Cell| (passes, 0.0f32),
        |mut passes: Vec<u32>, step: Step, _values: Vec<f32>| {
            passes.push(step.pass);
            (passes, 0.0f32)
        },
    );
    assert_eq!(passes.len(), 81 - 4);
    assert_eq!(passes.iter().filter(|&&pass| pass == 0).count(), 1 + 4);
    assert_eq!(passes.iter().filter(|&&pass| pass == 1).count(), 4 + 12);
    assert_eq!(passes.iter().filter(|&&pass| pass == 2).count(), 16 + 40);
}

#[test]
fn displacement_hands_four_corners_to_a_square_and_three_or_four_neighbours_to_a_diamond() {
    let (grid, counts) = midpoint_displacement(
        4,
        0u8,
        [0usize; 5],
        |counts: [usize; 5], _cell: Cell| (counts, 0u8),
        |mut counts: [usize; 5], step: Step, values: Vec<u8>| {
            match step.kind {
                StepKind::Square => assert_eq!(values.len(), 4),
                StepKind::Diamond => {
                    let on_edge = step.target.row == 0
                        || step.target.col == 0
                        || step.target.row == 16
                        || step.target.col == 16;
                    assert_eq!(values.len(), if on_edge { 3 } else { 4 });
                },
                StepKind::Corner => panic!("a corner reads nothing"),
            }
            counts[values.len()] += 1;
            (counts, 0u8)
        },
    );
    assert!(grid.is_ok());
    assert_eq!(counts, [0, 0, 0, 4 * 15, 17 * 17 - 4 - 4 * 15]);
}
