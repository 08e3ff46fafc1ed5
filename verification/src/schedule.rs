//! The order in which midpoint displacement writes the cells of a grid.
//!
//! A schedule is a sequence of steps. Each step names the cell it writes, the
//! pass it belongs to and the distance at which it reads its neighbours. The
//! schedule starts with the four corners; every pass then halves the gap: it
//! first writes the centre of every square of that gap (the square step) and
//! then the midpoints of the squares' edges (the diamond step), both row by
//! row.

use vstd::prelude::*;
use vstd::arithmetic::power2::{lemma_pow2_pos, lemma_pow2_unfold, pow2};
use crate::grid::{detail_allowed, side_for_detail, TerrainError};

verus! {

/// A cell of a grid, by row and column.
#[derive(Clone, Copy, Debug, PartialEq, Eq, Structural)]
pub struct Cell {
    pub row: usize,
    pub col: usize,
}

impl View for Cell {
    type V = (int, int);

    open spec fn view(&self) -> (int, int) {
        (self.row as int, self.col as int)
    }
}

/// What kind of write a step is.
#[derive(Clone, Copy, Debug, PartialEq, Eq, Structural)]
pub enum StepKind {
    /// One of the four corners: seeded, reads nothing.
    Corner,
    /// The centre of a square: reads the square's four corners.
    Square,
    /// The midpoint of an edge: reads the neighbours above, below, left and
    /// right of it that lie inside the grid.
    Diamond,
}

/// One write of the schedule.
#[derive(Clone, Copy, Debug, PartialEq, Eq, Structural)]
pub struct Step {
    /// The cell that is written.
    pub target: Cell,
    pub kind: StepKind,
    /// The number of passes completed before this step.
    pub pass: u32,
    /// The distance, in rows or columns, between the target and each cell it
    /// reads.
    pub reach: usize,
}

/// The mathematical model of a `Step`.
pub struct StepModel {
    pub target: (int, int),
    pub kind: StepKind,
    pub pass: nat,
    pub reach: int,
}

impl View for Step {
    type V = StepModel;

    open spec fn view(&self) -> StepModel {
        StepModel { target: self.target@, kind: self.kind, pass: self.pass as nat, reach: self.reach as int }
    }
}

/// The models of a sequence of steps.
pub open spec fn models(steps: Seq<Step>) -> Seq<StepModel> {
    Seq::new(steps.len(), |k: int| steps[k]@)
}

/// `cell` lies inside a grid of side `side`.
pub open spec fn in_grid(cell: (int, int), side: int) -> bool {
    0 <= cell.0 < side && 0 <= cell.1 < side
}

/// The steps of one row: the cells of row `row` at columns `col`, `col + gap`,
/// ... below `side`, left to right.
pub open spec fn row_steps(kind: StepKind, pass: nat, side: int, gap: int, row: int, col: int) -> Seq<StepModel>
    decreases
        (if col < side {
            side - col
        } else {
            0
        }),
{
    if gap <= 0 || col >= side {
        Seq::empty()
    } else {
        seq![StepModel { target: (row, col), kind, pass, reach: gap / 2 }] + row_steps(
            kind,
            pass,
            side,
            gap,
            row,
            col + gap,
        )
    }
}

/// The square steps of a pass from row `row` on: rows `row`, `row + gap`, ...
/// below `side`, each starting half a gap from the left edge.
pub open spec fn square_steps(pass: nat, side: int, gap: int, row: int) -> Seq<StepModel>
    decreases
        (if row < side {
            side - row
        } else {
            0
        }),
{
    if gap <= 0 || row >= side {
        Seq::empty()
    } else {
        row_steps(StepKind::Square, pass, side, gap, row, gap / 2) + square_steps(pass, side, gap, row + gap)
    }
}

/// The diamond steps of a pass from row `row` on: rows half a gap apart, each
/// starting at the left edge or half a gap from it, in turn.
pub open spec fn diamond_steps(pass: nat, side: int, gap: int, row: int) -> Seq<StepModel>
    decreases
        (if row < side {
            side - row
        } else {
            0
        }),
{
    if gap / 2 <= 0 || row >= side {
        Seq::empty()
    } else {
        row_steps(StepKind::Diamond, pass, side, gap, row, (row + gap / 2) % gap) + diamond_steps(
            pass,
            side,
            gap,
            row + gap / 2,
        )
    }
}

/// One pass: its square step, then its diamond step.
pub open spec fn pass_steps(pass: nat, side: int, gap: int) -> Seq<StepModel> {
    square_steps(pass, side, gap, gap / 2) + diamond_steps(pass, side, gap, 0)
}

/// The passes from gap `gap` down: the gap halves after each pass, and the
/// last pass is the one with gap 2.
pub open spec fn refinement_steps(pass: nat, side: int, gap: int) -> Seq<StepModel>
    decreases gap,
{
    if gap <= 1 {
        Seq::empty()
    } else {
        pass_steps(pass, side, gap) + refinement_steps(pass + 1, side, gap / 2)
    }
}

/// A corner step of a grid of side `side`.
pub open spec fn corner_step(side: int, row: int, col: int) -> StepModel {
    StepModel { target: (row, col), kind: StepKind::Corner, pass: 0, reach: side - 1 }
}

/// The four corners: top left, top right, bottom left, bottom right.
pub open spec fn corner_steps(side: int) -> Seq<StepModel> {
    seq![
        corner_step(side, 0, 0),
        corner_step(side, 0, side - 1),
        corner_step(side, side - 1, 0),
        corner_step(side, side - 1, side - 1),
    ]
}

/// The whole schedule of a grid of side `side`.
pub open spec fn displacement_steps(side: int) -> Seq<StepModel> {
    corner_steps(side) + refinement_steps(0, side, side - 1)
}

/// The cells that a step reads, in the order in which their values are
/// handed on: for a square step the corners above left, below left, above
/// right and below right; for a diamond step the neighbours to the left, to
/// the right, above and below, as far as they lie inside the grid.
pub open spec fn step_sources(step: StepModel, side: int) -> Seq<(int, int)> {
    let (row, col) = step.target;
    let reach = step.reach;
    match step.kind {
        StepKind::Corner => Seq::empty(),
        StepKind::Square => seq![
            (row - reach, col - reach),
            (row + reach, col - reach),
            (row - reach, col + reach),
            (row + reach, col + reach),
        ],
        StepKind::Diamond => {
            let left = if col >= reach {
                seq![(row, col - reach)]
            } else {
                Seq::empty()
            };
            let right = if col + reach < side {
                seq![(row, col + reach)]
            } else {
                Seq::empty()
            };
            let above = if row >= reach {
                seq![(row - reach, col)]
            } else {
                Seq::empty()
            };
            let below = if row + reach < side {
                seq![(row + reach, col)]
            } else {
                Seq::empty()
            };
            left + right + above + below
        },
    }
}

/// Appends the steps of one row to `plan`.
fn push_row(plan: &mut Vec<Step>, kind: StepKind, pass: u32, side: usize, gap: usize, row: usize, col: usize)
    requires
        gap > 0,
        col <= side,
        side + gap <= usize::MAX,
    ensures
        models(final(plan)@) == models(old(plan)@) + row_steps(
            kind,
            pass as nat,
            side as int,
            gap as int,
            row as int,
            col as int,
        ),
{
    let ghost before = models(plan@);
    let ghost whole = row_steps(kind, pass as nat, side as int, gap as int, row as int, col as int);
    let mut j: usize = col;
    assert(models(plan@) + whole =~= before + whole);
    while j < side
        invariant
            gap > 0,
            j <= side + gap,
            side + gap <= usize::MAX,
            models(plan@) + row_steps(kind, pass as nat, side as int, gap as int, row as int, j as int) == before
                + whole,
        decreases side + gap - j,
    {
        let ghost earlier = models(plan@);
        let ghost rest = row_steps(kind, pass as nat, side as int, gap as int, row as int, j + gap);
        let step = Step { target: Cell { row, col: j }, kind, pass, reach: gap / 2 };
        plan.push(step);
        proof {
            assert(models(plan@) =~= earlier.push(step@));
            assert(earlier.push(step@) + rest =~= earlier + (seq![step@] + rest));
        }
        j = j + gap;
    }
    assert(models(plan@) + Seq::<StepModel>::empty() =~= models(plan@));
}

/// Appends the square step of a pass to `plan`.
fn push_squares(plan: &mut Vec<Step>, pass: u32, side: usize, gap: usize)
    requires
        gap > 0,
        gap < side,
        side + gap <= usize::MAX,
    ensures
        models(final(plan)@) == models(old(plan)@) + square_steps(
            pass as nat,
            side as int,
            gap as int,
            gap as int / 2,
        ),
{
    let ghost before = models(plan@);
    let ghost whole = square_steps(pass as nat, side as int, gap as int, gap as int / 2);
    let mut i: usize = gap / 2;
    assert(models(plan@) + whole =~= before + whole);
    while i < side
        invariant
            gap > 0,
            gap < side,
            i <= side + gap,
            side + gap <= usize::MAX,
            models(plan@) + square_steps(pass as nat, side as int, gap as int, i as int) == before + whole,
        decreases side + gap - i,
    {
        let ghost earlier = models(plan@);
        let ghost row = row_steps(StepKind::Square, pass as nat, side as int, gap as int, i as int, gap as int / 2);
        let ghost rest = square_steps(pass as nat, side as int, gap as int, i + gap);
        push_row(plan, StepKind::Square, pass, side, gap, i, gap / 2);
        proof {
            assert((earlier + row) + rest =~= earlier + (row + rest));
        }
        i = i + gap;
    }
    assert(models(plan@) + Seq::<StepModel>::empty() =~= models(plan@));
}

/// Appends the diamond step of a pass to `plan`.
fn push_diamonds(plan: &mut Vec<Step>, pass: u32, side: usize, gap: usize)
    requires
        gap > 1,
        gap < side,
        side + gap <= usize::MAX,
    ensures
        models(final(plan)@) == models(old(plan)@) + diamond_steps(pass as nat, side as int, gap as int, 0),
{
    let ghost before = models(plan@);
    let ghost whole = diamond_steps(pass as nat, side as int, gap as int, 0);
    let half: usize = gap / 2;
    let mut i: usize = 0;
    assert(models(plan@) + whole =~= before + whole);
    while i < side
        invariant
            gap > 1,
            half == gap / 2,
            gap < side,
            i <= side + gap,
            side + gap <= usize::MAX,
            models(plan@) + diamond_steps(pass as nat, side as int, gap as int, i as int) == before + whole,
        decreases side + gap - i,
    {
        let ghost earlier = models(plan@);
        let ghost rest = diamond_steps(pass as nat, side as int, gap as int, i + half);
        let start: usize = (i + half) % gap;
        let ghost row = row_steps(StepKind::Diamond, pass as nat, side as int, gap as int, i as int, start as int);
        push_row(plan, StepKind::Diamond, pass, side, gap, i, start);
        proof {
            assert((earlier + row) + rest =~= earlier + (row + rest));
        }
        i = i + half;
    }
    assert(models(plan@) + Seq::<StepModel>::empty() =~= models(plan@));
}

/// The schedule of midpoint displacement for detail exponent `n`, on a grid
/// of side `2^n + 1`. The exponent is refused if it is zero or if the grid
/// would have more cells than a `usize` can count.
pub fn displacement_plan(n: u32) -> (plan: Result<Vec<Step>, TerrainError>)
    ensures
        plan is Ok <==> detail_allowed(n as nat, 1),
        plan matches Ok(steps) ==> models(steps@) == displacement_steps(pow2(n as nat) as int + 1),
        plan matches Err(e) ==> e == TerrainError::InvalidDetailLevel,
{
    let side: usize = match side_for_detail(n, 1) {
        Some(side) => side,
        None => {
            return Err(TerrainError::InvalidDetailLevel);
        },
    };
    let last: usize = side - 1;
    proof {
        lemma_pow2_pos(n as nat);
        lemma_pow2_unfold(n as nat);
        assert(side as nat * side as nat >= 2 * side) by (nonlinear_arith)
            requires
                side >= 2,
        ;
    }
    let mut plan: Vec<Step> = Vec::new();
    plan.push(Step { target: Cell { row: 0, col: 0 }, kind: StepKind::Corner, pass: 0, reach: last });
    plan.push(Step { target: Cell { row: 0, col: last }, kind: StepKind::Corner, pass: 0, reach: last });
    plan.push(Step { target: Cell { row: last, col: 0 }, kind: StepKind::Corner, pass: 0, reach: last });
    plan.push(Step { target: Cell { row: last, col: last }, kind: StepKind::Corner, pass: 0, reach: last });
    assert(models(plan@) =~= corner_steps(side as int));
    let ghost whole = displacement_steps(side as int);
    let mut gap: usize = last;
    let mut pass: u32 = 0;
    while gap > 1
        invariant
            pass <= n,
            gap == pow2((n - pass) as nat),
            gap < side,
            side + gap <= usize::MAX,
            models(plan@) + refinement_steps(pass as nat, side as int, gap as int) == whole,
        decreases gap,
    {
        let ghost earlier = models(plan@);
        let ghost squares = square_steps(pass as nat, side as int, gap as int, gap as int / 2);
        let ghost diamonds = diamond_steps(pass as nat, side as int, gap as int, 0);
        let ghost rest = refinement_steps(pass as nat + 1, side as int, gap as int / 2);
        proof {
            if pass == n {
                vstd::arithmetic::power2::lemma2_to64();
            }
            lemma_pow2_unfold((n - pass) as nat);
        }
        push_squares(&mut plan, pass, side, gap);
        push_diamonds(&mut plan, pass, side, gap);
        proof {
            assert(((earlier + squares) + diamonds) + rest =~= earlier + ((squares + diamonds) + rest));
        }
        gap = gap / 2;
        pass = pass + 1;
    }
    assert(models(plan@) + Seq::<StepModel>::empty() =~= models(plan@));
    Ok(plan)
}

} // verus!
