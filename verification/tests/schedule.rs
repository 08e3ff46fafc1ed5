use terrain_generation::schedule::{displacement_plan, Cell, Step, StepKind};
use terrain_generation::TerrainError;

fn step(kind: StepKind, pass: u32, reach: usize, row: usize, col: usize) -> Step {
    Step { target: Cell { row, col }, kind, pass, reach }
}

#[test]
fn plan_of_detail_zero_is_refused() {
    assert_eq!(displacement_plan(0), Err(TerrainError::InvalidDetailLevel));
}

#[test]
fn plan_of_oversized_grid_is_refused() {
    assert_eq!(displacement_plan(usize::BITS), Err(TerrainError::InvalidDetailLevel));
    assert_eq!(displacement_plan(usize::BITS / 2), Err(TerrainError::InvalidDetailLevel));
}

#[test]
fn plan_of_detail_one_is_corners_centre_edges() {
    let plan = displacement_plan(1).unwrap();
    let expected = vec![
        step(StepKind::Corner, 0, 2, 0, 0),
        step(StepKind::Corner, 0, 2, 0, 2),
        step(StepKind::Corner, 0, 2, 2, 0),
        step(StepKind::Corner, 0, 2, 2, 2),
        step(StepKind::Square, 0, 1, 1, 1),
        step(StepKind::Diamond, 0, 1, 0, 1),
        step(StepKind::Diamond, 0, 1, 1, 0),
        step(StepKind::Diamond, 0, 1, 1, 2),
        step(StepKind::Diamond, 0, 1, 2, 1),
    ];
    assert_eq!(plan, expected);
}

#[test]
fn plan_of_detail_two_runs_two_passes_in_order() {
    let plan = displacement_plan(2).unwrap();
    assert_eq!(plan.len(), 25);
    let targets: Vec<(usize, usize)> = plan.iter().map(|s| (s.target.row, s.target.col)).collect();
    let expected = vec![
        (0, 0), (0, 4), (4, 0), (4, 4),
        (2, 2),
        (0, 2), (2, 0), (2, 4), (4, 2),
        (1, 1), (1, 3), (3, 1), (3, 3),
        (0, 1), (0, 3), (1, 0), (1, 2), (1, 4), (2, 1), (2, 3), (3, 0), (3, 2), (3, 4), (4, 1), (4, 3),
    ];
    assert_eq!(targets, expected);
    for s in &plan[0..4] {
        assert_eq!((s.kind, s.pass, s.reach), (StepKind::Corner, 0, 4));
    }
    assert_eq!((plan[4].kind, plan[4].pass, plan[4].reach), (StepKind::Square, 0, 2));
    for s in &plan[5..9] {
        assert_eq!((s.kind, s.pass, s.reach), (StepKind::Diamond, 0, 2));
    }
    for s in &plan[9..13] {
        assert_eq!((s.kind, s.pass, s.reach), (StepKind::Square, 1, 1));
    }
    for s in &plan[13..25] {
        assert_eq!((s.kind, s.pass, s.reach), (StepKind::Diamond, 1, 1));
    }
}

#[test]
fn plan_writes_every_cell_exactly_once() {
    for n in 1..=6u32 {
        let side = (1usize << n) + 1;
        let plan = displacement_plan(n).unwrap();
        assert_eq!(plan.len(), side * side);
        let mut written = vec![vec![0u32; side]; side];
        for s in &plan {
            assert!(s.target.row < side && s.target.col < side);
            written[s.target.row][s.target.col] += 1;
        }
        assert!(written.iter().all(|row| row.iter().all(|&count| count == 1)));
    }
}

#[test]
fn plan_reads_only_cells_written_earlier() {
    for n in 1..=5u32 {
        let side = (1usize << n) + 1;
        let plan = displacement_plan(n).unwrap();
        let mut written = vec![vec![false; side]; side];
        for s in &plan {
            let (row, col, reach) = (s.target.row, s.target.col, s.reach);
            match s.kind {
                StepKind::Corner => {},
                StepKind::Square => {
                    assert!(written[row - reach][col - reach]);
                    assert!(written[row + reach][col - reach]);
                    assert!(written[row - reach][col + reach]);
                    assert!(written[row + reach][col + reach]);
                },
                StepKind::Diamond => {
                    if col >= reach {
                        assert!(written[row][col - reach]);
                    }
                    if col + reach < side {
                        assert!(written[row][col + reach]);
                    }
                    if row >= reach {
                        assert!(written[row - reach][col]);
                    }
                    if row + reach < side {
                        assert!(written[row + reach][col]);
                    }
                },
            }
            written[row][col] = true;
        }
    }
}

#[test]
fn plan_halves_the_reach_each_pass() {
    let n = 4u32;
    let plan = displacement_plan(n).unwrap();
    for s in &plan {
        if s.kind != StepKind::Corner {
            assert!(s.pass < n);
            assert_eq!(s.reach, (1usize << (n - s.pass)) / 2);
        }
    }
    assert_eq!(plan.last().unwrap().pass, n - 1);
    assert_eq!(plan.last().unwrap().reach, 1);
}

#[test]
fn plan_is_the_same_on_every_call() {
    assert_eq!(displacement_plan(3), displacement_plan(3));
}
