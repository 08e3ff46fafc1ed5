use terrain_generation::grid::{
    build_grid, copy_row, draw_grid, filled, fold_cells, get_cell, map_cells, set_cell, side_for_detail, transpose,
};
use terrain_generation::TerrainError;

#[test]
fn side_of_detail_zero_is_refused() {
    assert_eq!(side_for_detail(0, 0), None);
    assert_eq!(side_for_detail(0, 1), None);
}

#[test]
fn side_is_power_of_two_plus_border() {
    assert_eq!(side_for_detail(1, 0), Some(2));
    assert_eq!(side_for_detail(1, 1), Some(3));
    assert_eq!(side_for_detail(3, 0), Some(8));
    assert_eq!(side_for_detail(3, 1), Some(9));
    assert_eq!(side_for_detail(8, 0), Some(256));
    assert_eq!(side_for_detail(8, 1), Some(257));
}

#[test]
fn side_whose_cells_cannot_be_counted_is_refused() {
    let half = usize::BITS / 2;
    assert_eq!(side_for_detail(half, 0), None);
    assert_eq!(side_for_detail(half, 1), None);
    assert_eq!(side_for_detail(half - 1, 0), Some(1usize << (half - 1)));
    assert_eq!(side_for_detail(usize::BITS, 0), None);
    assert_eq!(side_for_detail(u32::MAX, 1), None);
}

#[test]
fn errors_compare_by_variant() {
    assert_eq!(TerrainError::InvalidDetailLevel, TerrainError::InvalidDetailLevel);
    assert_ne!(TerrainError::InvalidDetailLevel, TerrainError::InsufficientSignal);
}

#[test]
fn filled_grid_holds_the_value_everywhere() {
    let grid = filled(3, 7.5f32);
    assert_eq!(grid, vec![vec![7.5f32; 3]; 3]);
    let empty: Vec<Vec<f32>> = filled(0, 1.0);
    assert!(empty.is_empty());
}

#[test]
fn set_cell_changes_one_cell() {
    let mut grid = filled(3, 0i32);
    assert!(set_cell(&mut grid, 1, 2, 9));
    assert_eq!(grid, vec![vec![0, 0, 0], vec![0, 0, 9], vec![0, 0, 0]]);
}

#[test]
fn set_cell_outside_the_grid_changes_nothing() {
    let mut grid = filled(3, 0i32);
    assert!(!set_cell(&mut grid, 3, 0, 9));
    assert!(!set_cell(&mut grid, 0, 3, 9));
    assert!(!set_cell(&mut grid, usize::MAX, usize::MAX, 9));
    assert_eq!(grid, filled(3, 0i32));
}

#[test]
fn get_cell_checks_the_bounds() {
    let grid = vec![vec![1, 2], vec![3, 4]];
    assert_eq!(get_cell(&grid, 0, 0), Some(1));
    assert_eq!(get_cell(&grid, 1, 0), Some(3));
    assert_eq!(get_cell(&grid, 1, 1), Some(4));
    assert_eq!(get_cell(&grid, 2, 0), None);
    assert_eq!(get_cell(&grid, 0, 2), None);
    let ragged = vec![vec![1], vec![2, 3]];
    assert_eq!(get_cell(&ragged, 0, 1), None);
    assert_eq!(get_cell(&ragged, 1, 1), Some(3));
}

#[test]
fn side_with_a_wider_border_adds_the_border() {
    assert_eq!(side_for_detail(2, 3), Some(7));
    assert_eq!(side_for_detail(1, usize::MAX), None);
}

#[test]
fn fold_cells_takes_the_cells_in_row_by_row() {
    let grid = vec![vec![1u64, 2], vec![3, 4]];
    assert_eq!(fold_cells(&grid, 2, 0u64, &|running: u64, cell: u64| running * 10 + cell), 1234);
    assert_eq!(fold_cells(&grid, 2, 7u64, &|running: u64, cell: u64| running.max(cell)), 7);
    let empty: Vec<Vec<u64>> = Vec::new();
    assert_eq!(fold_cells(&empty, 0, 5u64, &|running: u64, cell: u64| running + cell), 5);
}

#[test]
fn transpose_swaps_rows_and_columns() {
    let grid = vec![vec![1, 2, 3], vec![4, 5, 6], vec![7, 8, 9]];
    assert_eq!(transpose(&grid), vec![vec![1, 4, 7], vec![2, 5, 8], vec![3, 6, 9]]);
}

#[test]
fn transpose_twice_is_identity() {
    let grid = build_grid(5, |i, j| (i * 10 + j) as f64 * 0.5);
    assert_eq!(transpose(&transpose(&grid)), grid);
}

#[test]
fn build_grid_calls_for_every_cell_in_row_major_order() {
    let calls = std::cell::RefCell::new(Vec::new());
    let grid = build_grid(2, |i, j| {
        calls.borrow_mut().push((i, j));
        i * 2 + j
    });
    assert_eq!(grid, vec![vec![0, 1], vec![2, 3]]);
    assert_eq!(calls.into_inner(), vec![(0, 0), (0, 1), (1, 0), (1, 1)]);
}

#[test]
fn map_cells_hands_row_column_and_cell() {
    let grid = vec![vec![1.0f32, 2.0], vec![3.0, 4.0]];
    let out = map_cells(&grid, |i, j, cell| (i, j, cell * 2.0));
    assert_eq!(out, vec![vec![(0, 0, 2.0f32), (0, 1, 4.0)], vec![(1, 0, 6.0), (1, 1, 8.0)]]);
}

#[test]
fn copy_row_copies() {
    let row = vec![3u8, 1, 4, 1, 5];
    assert_eq!(copy_row(&row), row);
}

#[test]
fn draw_grid_hands_the_source_from_cell_to_cell() {
    let (grid, source) = draw_grid(3, 100u32, |source: u32, i: usize, j: usize| (source + 1, (source, i, j)));
    assert_eq!(source, 109);
    assert_eq!(
        grid,
        vec![
            vec![(100, 0, 0), (101, 0, 1), (102, 0, 2)],
            vec![(103, 1, 0), (104, 1, 1), (105, 1, 2)],
            vec![(106, 2, 0), (107, 2, 1), (108, 2, 2)],
        ]
    );
    let (empty, source) = draw_grid(0, 5u8, |source: u8, _i: usize, _j: usize| (source + 1, 0u8));
    assert!(empty.is_empty());
    assert_eq!(source, 5);
}
