//! The terrain generators: midpoint displacement over a schedule of writes,
//! and spectral synthesis as a pipeline of passes over a grid.

use vstd::prelude::*;
use vstd::arithmetic::power2::pow2;
use crate::fft_utils::{
    apply_fft_to_grid,
    apply_ifft_to_grid,
    apply_pink_noise_filter,
    attenuate_determined,
    cells_scaled,
    inverted_both_ways,
    lemma_both_ways_determined,
    lemma_inverted_determined,
    lemma_pink_determined,
    lemma_scaled_determined,
    pink_filtered,
    scale_cells,
    scale_determined,
    transform_accepts,
    transform_determined,
    transformed_both_ways,
};
use crate::grid::{
    cell_value,
    cells_drawn,
    detail_allowed,
    draw_determined,
    draw_grid,
    filled,
    is_square,
    lemma_draw_determined,
    lemma_squares_equal,
    map_cells,
    rows_of,
    side_for_detail,
    with_cell,
    TerrainError,
};
use crate::schedule::{displacement_plan, displacement_steps, in_grid, models, step_sources, Cell, Step, StepKind};
use crate::schedule_laws::{lemma_each_cell_written_once, lemma_sources_written_earlier, written_before};

verus! {

/// The values that `rows` holds at the cells `sources`, in their order.
pub open spec fn source_values<T>(rows: Seq<Seq<T>>, sources: Seq<(int, int)>) -> Seq<T> {
    Seq::new(sources.len(), |i: int| cell_value(rows, sources[i]))
}

/// The value of `rows` at the target of `step` is one that the step may have
/// produced from the values of `rows` at its sources, taking the random
/// source from the state `before` to the state `after`: for a corner a draw
/// of `corner`, for any other step a result of `displace` on the step and the
/// values of its sources.
pub open spec fn step_outcome<S, T, C: Fn(S, Cell) -> (S, T), D: Fn(S, Step, Vec<T>) -> (S, T)>(
    corner: C,
    displace: D,
    rows: Seq<Seq<T>>,
    side: int,
    step: Step,
    before: S,
    after: S,
) -> bool {
    if step.kind == StepKind::Corner {
        call_ensures(corner, (before, step.target), (after, cell_value(rows, step.target@)))
    } else {
        exists|values: Vec<T>|
            values@ == source_values(rows, step_sources(step@, side)) && call_ensures(
                displace,
                (before, step, values),
                (after, cell_value(rows, step.target@)),
            )
    }
}

/// The steps `steps` are the schedule of a grid of side `side`, and `states`
/// are the states that the random source goes through as the steps are taken
/// one after the other: at every step, the cell that the step writes holds an
/// outcome of that step on the cells that it reads.
pub open spec fn displaced_along<S, T, C: Fn(S, Cell) -> (S, T), D: Fn(S, Step, Vec<T>) -> (S, T)>(
    corner: C,
    displace: D,
    rows: Seq<Seq<T>>,
    side: int,
    steps: Seq<Step>,
    states: Seq<S>,
) -> bool {
    &&& models(steps) == displacement_steps(side)
    &&& states.len() == steps.len() + 1
    &&& forall|k: int|
        0 <= k < steps.len() ==> step_outcome(corner, displace, rows, side, #[trigger] steps[k], states[k], states[k + 1])
}

/// `rows` is a result of midpoint displacement on a grid of side `side` that
/// takes the random source from the state `start` to the state `end`: the
/// steps of the schedule are taken in their order, each handing the source on
/// to the next.
pub open spec fn displaced<S, T, C: Fn(S, Cell) -> (S, T), D: Fn(S, Step, Vec<T>) -> (S, T)>(
    corner: C,
    displace: D,
    start: S,
    rows: Seq<Seq<T>>,
    end: S,
    side: int,
) -> bool {
    exists|steps: Seq<Step>, states: Seq<S>|
        #[trigger] displaced_along(corner, displace, rows, side, steps, states) && states[0] == start
            && states.last() == end
}

/// Collects the values of the cells that `step` reads.
fn read_sources<T: Copy>(grid: &Vec<Vec<T>>, step: Step, side: usize) -> (values: Vec<T>)
    requires
        is_square(rows_of(grid@), side as nat),
        in_grid(step.target@, side as int),
        forall|i: int|
            0 <= i < step_sources(step@, side as int).len() ==> in_grid(
                #[trigger] step_sources(step@, side as int)[i],
                side as int,
            ),
    ensures
        values@ == source_values(rows_of(grid@), step_sources(step@, side as int)),
{
    let row = step.target.row;
    let col = step.target.col;
    let reach = step.reach;
    let ghost sources = step_sources(step@, side as int);
    let ghost rows = rows_of(grid@);
    let mut values: Vec<T> = Vec::new();
    match step.kind {
        StepKind::Corner => {},
        StepKind::Square => {
            assert(in_grid(sources[0], side as int));
            assert(in_grid(sources[3], side as int));
            assert(rows[row - reach].len() == side);
            assert(rows[row + reach].len() == side);
            values.push(grid[row - reach][col - reach]);
            values.push(grid[row + reach][col - reach]);
            values.push(grid[row - reach][col + reach]);
            values.push(grid[row + reach][col + reach]);
        },
        StepKind::Diamond => {
            assert(rows[row as int].len() == side);
            if col >= reach {
                values.push(grid[row][col - reach]);
            }
            if reach < side - col {
                values.push(grid[row][col + reach]);
            }
            if row >= reach {
                assert(rows[row - reach].len() == side);
                values.push(grid[row - reach][col]);
            }
            if reach < side - row {
                assert(rows[row + reach].len() == side);
                values.push(grid[row + reach][col]);
            }
        },
    }
    assert(values@ =~= source_values(rows, sources));
    values
}

/// Writing the target of step `k` leaves the outcome of every earlier step
/// as it was.
proof fn lemma_outcome_kept<S, T, C: Fn(S, Cell) -> (S, T), D: Fn(S, Step, Vec<T>) -> (S, T)>(
    corner: C,
    displace: D,
    rows: Seq<Seq<T>>,
    n: nat,
    steps: Seq<Step>,
    j: int,
    k: int,
    value: T,
    before: S,
    after: S,
)
    requires
        n >= 1,
        is_square(rows, pow2(n) + 1),
        models(steps) == displacement_steps(pow2(n) as int + 1),
        0 <= j < k < steps.len(),
        step_outcome(corner, displace, rows, pow2(n) as int + 1, steps[j], before, after),
    ensures
        step_outcome(
            corner,
            displace,
            with_cell(rows, steps[k].target@, value),
            pow2(n) as int + 1,
            steps[j],
            before,
            after,
        ),
{
    let side = pow2(n) as int + 1;
    let plan = displacement_steps(side);
    let changed = with_cell(rows, steps[k].target@, value);
    lemma_each_cell_written_once(n);
    lemma_sources_written_earlier(n);
    assert(plan[j] == steps[j]@);
    assert(plan[k] == steps[k]@);
    assert(plan[j].target != plan[k].target);
    assert(in_grid(plan[j].target, side));
    assert(in_grid(plan[k].target, side));
    assert(cell_value(changed, steps[j].target@) == cell_value(rows, steps[j].target@));
    if steps[j].kind != StepKind::Corner {
        let sources = step_sources(steps[j]@, side);
        assert(source_values(changed, sources) =~= source_values(rows, sources)) by {
            assert forall|i: int| 0 <= i < sources.len() implies cell_value(changed, sources[i]) == cell_value(
                rows,
                sources[i],
            ) by {
                assert(in_grid(sources[i], side) && written_before(plan, j, sources[i]));
                let w = choose|w: int| 0 <= w < j && w < plan.len() && (#[trigger] plan[w]).target == sources[i];
                assert(plan[w].target != plan[k].target);
            }
        }
        let values = choose|values: Vec<T>|
            values@ == source_values(rows, sources) && call_ensures(
                displace,
                (before, steps[j], values),
                (after, cell_value(rows, steps[j].target@)),
            );
        assert(values@ == source_values(changed, sources));
    }
}

/// Writing the target of a step does not change what the step read.
proof fn lemma_sources_kept<T>(rows: Seq<Seq<T>>, n: nat, steps: Seq<Step>, k: int, value: T)
    requires
        n >= 1,
        is_square(rows, pow2(n) + 1),
        models(steps) == displacement_steps(pow2(n) as int + 1),
        0 <= k < steps.len(),
    ensures
        source_values(with_cell(rows, steps[k].target@, value), step_sources(steps[k]@, pow2(n) as int + 1))
            == source_values(rows, step_sources(steps[k]@, pow2(n) as int + 1)),
        cell_value(with_cell(rows, steps[k].target@, value), steps[k].target@) == value,
        is_square(with_cell(rows, steps[k].target@, value), pow2(n) + 1),
{
    let side = pow2(n) as int + 1;
    let plan = displacement_steps(side);
    let changed = with_cell(rows, steps[k].target@, value);
    let sources = step_sources(steps[k]@, side);
    lemma_each_cell_written_once(n);
    lemma_sources_written_earlier(n);
    assert(plan[k] == steps[k]@);
    assert(in_grid(plan[k].target, side));
    assert forall|i: int| 0 <= i < sources.len() implies cell_value(changed, sources[i]) == cell_value(
        rows,
        sources[i],
    ) by {
        assert(in_grid(sources[i], side) && written_before(plan, k, sources[i]));
        let w = choose|w: int| 0 <= w < k && w < plan.len() && (#[trigger] plan[w]).target == sources[i];
        assert(plan[w].target != plan[k].target);
    }
    assert(source_values(changed, sources) =~= source_values(rows, sources));
}

/// Generates a grid of side `2^n + 1` by midpoint displacement.
///
/// The random source `source` is handed from step to step, in the order of
/// the schedule: each call receives it and returns it with the value drawn.
/// The four corners are drawn by `corner`. Every other cell is set by
/// `displace`, which also receives the step and the values of the cells that
/// the step reads: the four corners of the square for a square step, the
/// neighbours inside the grid for a diamond step. Every cell of the grid is
/// written once; `blank` only fills the grid before that. The source comes
/// back with the grid.
///
/// The exponent is refused if it is zero or the grid would have more cells
/// than a `usize` can count; the source is then returned as it came.
pub fn midpoint_displacement<S, T: Copy, C: Fn(S, Cell) -> (S, T), D: Fn(S, Step, Vec<T>) -> (S, T)>(
    n: u32,
    blank: T,
    source: S,
    corner: C,
    displace: D,
) -> (result: (Result<Vec<Vec<T>>, TerrainError>, S))
    requires
        forall|state: S, cell: Cell| call_requires(corner, (state, cell)),
        forall|state: S, step: Step, values: Vec<T>| call_requires(displace, (state, step, values)),
    ensures
        result.0 is Ok <==> detail_allowed(n as nat, 1),
        result.0 matches Err(e) ==> e == TerrainError::InvalidDetailLevel && result.1 == source,
        result.0 matches Ok(grid) ==> is_square(rows_of(grid@), pow2(n as nat) + 1) && displaced(
            corner,
            displace,
            source,
            rows_of(grid@),
            result.1,
            pow2(n as nat) as int + 1,
        ),
{
    let steps = match displacement_plan(n) {
        Ok(steps) => steps,
        Err(e) => {
            return (Err(e), source);
        },
    };
    let side = match side_for_detail(n, 1) {
        Some(side) => side,
        None => {
            return (Err(TerrainError::InvalidDetailLevel), source);
        },
    };
    let mut grid = filled(side, blank);
    let mut k: usize = 0;
    let mut current = source;
    let ghost mut states: Seq<S> = seq![source];
    while k < steps.len()
        invariant
            n >= 1,
            side == pow2(n as nat) + 1,
            k <= steps.len(),
            models(steps@) == displacement_steps(side as int),
            is_square(rows_of(grid@), side as nat),
            forall|state: S, cell: Cell| call_requires(corner, (state, cell)),
            forall|state: S, step: Step, values: Vec<T>| call_requires(displace, (state, step, values)),
            states.len() == k + 1,
            states[0] == source,
            states[k as int] == current,
            forall|j: int|
                0 <= j < k ==> step_outcome(
                    corner,
                    displace,
                    rows_of(grid@),
                    side as int,
                    #[trigger] steps@[j],
                    states[j],
                    states[j + 1],
                ),
        decreases steps.len() - k,
    {
        let step = steps[k];
        let ghost before = rows_of(grid@);
        let ghost earlier = states;
        proof {
            lemma_each_cell_written_once(n as nat);
            lemma_sources_written_earlier(n as nat);
            assert(displacement_steps(side as int)[k as int] == step@);
            assert(in_grid(step.target@, side as int));
            assert(before[step.target.row as int].len() == side);
        }
        let (next, value) = match step.kind {
            StepKind::Corner => corner(current, step.target),
            _ => {
                let values = read_sources(&grid, step, side);
                displace(current, step, values)
            },
        };
        grid[step.target.row][step.target.col] = value;
        proof {
            states = earlier.push(next);
            let changed = rows_of(grid@);
            assert(changed =~= with_cell(before, step.target@, value));
            lemma_sources_kept(before, n as nat, steps@, k as int, value);
            assert forall|j: int| 0 <= j < k + 1 implies step_outcome(
                corner,
                displace,
                changed,
                side as int,
                #[trigger] steps@[j],
                states[j],
                states[j + 1],
            ) by {
                if j < k {
                    assert(states[j] == earlier[j]);
                    assert(states[j + 1] == earlier[j + 1]);
                    lemma_outcome_kept(
                        corner,
                        displace,
                        before,
                        n as nat,
                        steps@,
                        j,
                        k as int,
                        value,
                        states[j],
                        states[j + 1],
                    );
                } else {
                    assert(states[j] == earlier[k as int]);
                }
            }
        }
        current = next;
        k += 1;
    }
    proof {
        assert(displaced_along(corner, displace, rows_of(grid@), side as int, steps@, states));
    }
    (Ok(grid), current)
}

/// `corner` gives one state and one value for each state and cell.
pub open spec fn corner_determined<S, T, C: Fn(S, Cell) -> (S, T)>(corner: C) -> bool {
    forall|state: S, cell: Cell, a: (S, T), b: (S, T)|
        #![trigger call_ensures(corner, (state, cell), a), call_ensures(corner, (state, cell), b)]
        call_ensures(corner, (state, cell), a) && call_ensures(corner, (state, cell), b) ==> a == b
}

/// `displace` gives one state and one value for each state, each step and
/// each sequence of values read.
pub open spec fn displace_determined<S, T, D: Fn(S, Step, Vec<T>) -> (S, T)>(displace: D) -> bool {
    forall|state: S, step: Step, values: Vec<T>, others: Vec<T>, a: (S, T), b: (S, T)|
        #![trigger call_ensures(displace, (state, step, values), a), call_ensures(displace, (state, step, others), b)]
        values@ == others@ && call_ensures(displace, (state, step, values), a) && call_ensures(
            displace,
            (state, step, others),
            b,
        ) ==> a == b
}

proof fn lemma_outcomes_agree<S, T, C: Fn(S, Cell) -> (S, T), D: Fn(S, Step, Vec<T>) -> (S, T)>(
    corner: C,
    displace: D,
    n: nat,
    steps: Seq<Step>,
    first: Seq<Seq<T>>,
    first_states: Seq<S>,
    second: Seq<Seq<T>>,
    second_states: Seq<S>,
    k: nat,
)
    requires
        n >= 1,
        k <= steps.len(),
        displaced_along(corner, displace, first, pow2(n) as int + 1, steps, first_states),
        displaced_along(corner, displace, second, pow2(n) as int + 1, steps, second_states),
        first_states[0] == second_states[0],
        corner_determined(corner),
        displace_determined(displace),
    ensures
        first_states[k as int] == second_states[k as int],
        forall|j: int|
            0 <= j < k ==> cell_value(first, (#[trigger] steps[j]).target@) == cell_value(second, steps[j].target@),
    decreases k,
{
    if k > 0 {
        lemma_outcomes_agree(
            corner,
            displace,
            n,
            steps,
            first,
            first_states,
            second,
            second_states,
            (k - 1) as nat,
        );
        let side = pow2(n) as int + 1;
        let plan = displacement_steps(side);
        let step = steps[k - 1];
        let state = first_states[k - 1];
        assert(step_outcome(corner, displace, first, side, step, first_states[k - 1], first_states[k - 1 + 1]));
        assert(step_outcome(corner, displace, second, side, step, second_states[k - 1], second_states[k - 1 + 1]));
        if step.kind != StepKind::Corner {
            let sources = step_sources(step@, side);
            lemma_sources_written_earlier(n);
            assert(plan[k - 1] == step@);
            assert(source_values(first, sources) =~= source_values(second, sources)) by {
                assert forall|i: int| 0 <= i < sources.len() implies cell_value(first, sources[i]) == cell_value(
                    second,
                    sources[i],
                ) by {
                    assert(in_grid(sources[i], side) && written_before(plan, k - 1, sources[i]));
                    let w = choose|w: int|
                        0 <= w < k - 1 && w < plan.len() && (#[trigger] plan[w]).target == sources[i];
                    assert(plan[w] == steps[w]@);
                }
            }
            let values = choose|values: Vec<T>|
                values@ == source_values(first, sources) && call_ensures(
                    displace,
                    (state, step, values),
                    (first_states[k as int], cell_value(first, step.target@)),
                );
            let others = choose|others: Vec<T>|
                others@ == source_values(second, sources) && call_ensures(
                    displace,
                    (state, step, others),
                    (second_states[k as int], cell_value(second, step.target@)),
                );
            assert(values@ == others@);
        }
    }
}

/// Midpoint displacement has one result once its draws are fixed: where
/// `corner` and `displace` give one state and one value for each input, two
/// displacements that start from the same state of the random source give the
/// same grid and leave the source in the same state.
pub proof fn lemma_displacement_determined<S, T, C: Fn(S, Cell) -> (S, T), D: Fn(S, Step, Vec<T>) -> (S, T)>(
    corner: C,
    displace: D,
    n: nat,
    start: S,
    first: Seq<Seq<T>>,
    first_end: S,
    second: Seq<Seq<T>>,
    second_end: S,
)
    requires
        n >= 1,
        is_square(first, pow2(n) + 1),
        is_square(second, pow2(n) + 1),
        displaced(corner, displace, start, first, first_end, pow2(n) as int + 1),
        displaced(corner, displace, start, second, second_end, pow2(n) as int + 1),
        corner_determined(corner),
        displace_determined(displace),
    ensures
        first == second,
        first_end == second_end,
{
    let side = pow2(n) as int + 1;
    let plan = displacement_steps(side);
    let (steps, states) = choose|steps: Seq<Step>, states: Seq<S>|
        #[trigger] displaced_along(corner, displace, first, side, steps, states) && states[0] == start
            && states.last() == first_end;
    let (others, other_states) = choose|others: Seq<Step>, other_states: Seq<S>|
        #[trigger] displaced_along(corner, displace, second, side, others, other_states) && other_states[0]
            == start && other_states.last() == second_end;
    assert(steps =~= others) by {
        assert(steps.len() == models(steps).len());
        assert(others.len() == models(others).len());
        assert forall|k: int| 0 <= k < steps.len() implies steps[k] == others[k] by {
            assert(models(steps)[k] == steps[k]@);
            assert(models(others)[k] == others[k]@);
        }
    }
    lemma_outcomes_agree(corner, displace, n, steps, first, states, second, other_states, steps.len());
    lemma_each_cell_written_once(n);
    assert forall|i: int| 0 <= i < first.len() implies #[trigger] first[i] == second[i] by {
        assert forall|j: int| 0 <= j < first[i].len() implies first[i][j] == second[i][j] by {
            assert(in_grid((i, j), side));
            assert(written_before(plan, plan.len() as int, (i, j)));
            let w = choose|w: int| 0 <= w < plan.len() && w < plan.len() && (#[trigger] plan[w]).target == (i, j);
            assert(plan[w] == steps[w]@);
            assert(cell_value(first, steps[w].target@) == cell_value(second, steps[w].target@));
        }
        assert(first[i] =~= second[i]);
    }
    assert(first =~= second);
}

/// Every cell of `after` is what `project` may return for the cell of
/// `before` in the same place.
pub open spec fn cells_projected<T, U, P: Fn(T) -> U>(
    project: P,
    size: usize,
    before: Seq<Seq<T>>,
    after: Seq<Seq<U>>,
) -> bool {
    &&& is_square(after, size as nat)
    &&& forall|i: int, j: int|
        0 <= i < size && 0 <= j < size ==> call_ensures(project, (#[trigger] before[i][j],), #[trigger] after[i][j])
}

/// `filter` may be called on every square grid of side `size`, and returns a
/// square grid of that side.
pub open spec fn filter_accepts<T, A: Fn(Vec<Vec<T>>) -> Vec<Vec<T>>>(filter: A, size: nat) -> bool {
    &&& forall|grid: Vec<Vec<T>>| is_square(rows_of(grid@), size) ==> call_requires(filter, (grid,))
    &&& forall|grid: Vec<Vec<T>>, out: Vec<Vec<T>>|
        is_square(rows_of(grid@), size) && call_ensures(filter, (grid,), out) ==> is_square(rows_of(out@), size)
}

/// `after` is what `filter` may return for a grid that holds `before`.
pub open spec fn grid_filtered<T, A: Fn(Vec<Vec<T>>) -> Vec<Vec<T>>>(
    filter: A,
    before: Seq<Seq<T>>,
    after: Seq<Seq<T>>,
) -> bool {
    exists|given: Vec<Vec<T>>, returned: Vec<Vec<T>>|
        rows_of(given@) == before && rows_of(returned@) == after && call_ensures(filter, (given,), returned)
}

/// `spectrum` is the transform along both axes of a grid that `seed` drew,
/// taking the random source from the state `start` to the state `end`.
pub open spec fn spectrum_seeded<R, T, G: Fn(R, usize, usize) -> (R, T), F: Fn(Vec<T>) -> Vec<T>>(
    seed: G,
    forward: F,
    size: usize,
    start: R,
    spectrum: Seq<Seq<T>>,
    end: R,
) -> bool {
    &&& is_square(spectrum, size as nat)
    &&& exists|seeded: Seq<Seq<T>>| #[trigger]
        cells_drawn(seed, size, start, seeded, end) && transformed_both_ways(forward, seeded, spectrum)
}

/// `out` is the grid of heights of the spectrum `filtered`: the spectrum is
/// transformed back along both axes with a scaling after each, raised and
/// projected.
pub open spec fn surface_finished<
    T,
    U,
    I: Fn(Vec<T>) -> Vec<T>,
    S: Fn(T, usize) -> T,
    V: Fn(T, usize) -> T,
    P: Fn(T) -> U,
>(inverse: I, scale: S, raise: V, project: P, size: usize, filtered: Seq<Seq<T>>, out: Seq<Seq<U>>) -> bool {
    exists|surface: Seq<Seq<T>>, raised: Seq<Seq<T>>|
        {
            &&& is_square(surface, size as nat)
            &&& #[trigger] inverted_both_ways(inverse, scale, size, filtered, surface)
            &&& #[trigger] cells_scaled(raise, size, surface, raised)
            &&& cells_projected(project, size, raised, out)
        }
}

/// `out` is a result of spectral synthesis on a grid of side `size` that
/// takes the random source from the state `start` to the state `end`: the
/// grid is seeded, transformed along both axes, filtered as `filtered_by`
/// says, transformed back along both axes with a scaling after each, raised
/// and projected, in that order.
pub open spec fn spectrally_synthesized<
    R,
    T,
    U,
    G: Fn(R, usize, usize) -> (R, T),
    F: Fn(Vec<T>) -> Vec<T>,
    I: Fn(Vec<T>) -> Vec<T>,
    S: Fn(T, usize) -> T,
    V: Fn(T, usize) -> T,
    P: Fn(T) -> U,
>(
    seed: G,
    forward: F,
    filtered_by: spec_fn(Seq<Seq<T>>, Seq<Seq<T>>) -> bool,
    inverse: I,
    scale: S,
    raise: V,
    project: P,
    size: usize,
    start: R,
    out: Seq<Seq<U>>,
    end: R,
) -> bool {
    exists|spectrum: Seq<Seq<T>>, filtered: Seq<Seq<T>>|
        {
            &&& #[trigger] spectrum_seeded(seed, forward, size, start, spectrum, end)
            &&& filtered_by(spectrum, filtered)
            &&& #[trigger] surface_finished(inverse, scale, raise, project, size, filtered, out)
        }
}

/// Seeds a grid and transforms it along both axes.
fn seed_spectrum<R, T: Copy, G: Fn(R, usize, usize) -> (R, T), F: Fn(Vec<T>) -> Vec<T>>(
    size: usize,
    source: R,
    seed: G,
    forward: F,
) -> (result: (Vec<Vec<T>>, R))
    requires
        forall|state: R, i: usize, j: usize| call_requires(seed, (state, i, j)),
        transform_accepts(forward, size as nat),
    ensures
        spectrum_seeded(seed, forward, size, source, rows_of(result.0@), result.1),
{
    let (mut heightmap, end) = draw_grid(size, source, seed);
    let ghost seeded = rows_of(heightmap@);
    apply_fft_to_grid(&mut heightmap, size, forward);
    proof {
        assert(cells_drawn(seed, size, source, seeded, end));
    }
    (heightmap, end)
}

/// Transforms a filtered spectrum back and turns it into heights.
fn finish_surface<T: Copy, U, I: Fn(Vec<T>) -> Vec<T>, S: Fn(T, usize) -> T, V: Fn(T, usize) -> T, P: Fn(T) -> U>(
    heightmap: Vec<Vec<T>>,
    size: usize,
    inverse: I,
    scale: S,
    raise: V,
    project: P,
) -> (grid: Vec<Vec<U>>)
    requires
        is_square(rows_of(heightmap@), size as nat),
        transform_accepts(inverse, size as nat),
        forall|cell: T| call_requires(scale, (cell, size)),
        forall|cell: T| call_requires(raise, (cell, size)),
        forall|cell: T| call_requires(project, (cell,)),
    ensures
        surface_finished(inverse, scale, raise, project, size, rows_of(heightmap@), rows_of(grid@)),
{
    let ghost filtered = rows_of(heightmap@);
    let mut heightmap = heightmap;
    apply_ifft_to_grid(&mut heightmap, size, inverse, scale);
    let ghost surface = rows_of(heightmap@);
    scale_cells(&mut heightmap, size, &raise);
    let ghost raised = rows_of(heightmap@);
    let finish = &project;
    let op = |_i: usize, _j: usize, cell: T| -> (out: U)
        ensures
            call_ensures(*finish, (cell,), out),
        { finish(cell) };
    let grid = map_cells(&heightmap, op);
    proof {
        let out = rows_of(grid@);
        assert forall|i: int| 0 <= i < size implies (#[trigger] out[i]).len() == size by {
            assert(raised[i].len() == size);
        }
        assert(cells_projected(project, size, raised, out));
        assert(inverted_both_ways(inverse, scale, size, filtered, surface));
        assert(cells_scaled(raise, size, surface, raised));
    }
    grid
}

/// Generates a grid of side `2^n` by spectral synthesis with the pink noise
/// filter.
///
/// `seed` draws every cell of the first grid from the random source `source`,
/// row by row, and the source comes back with the grid. `forward` transforms
/// every row and then every column of the seeded grid; the pink noise filter
/// hands every cell of the spectrum to `attenuate` with its falloff; `inverse`
/// transforms every row and then every column back, and `scale` divides every
/// cell by the side after each of the two. `raise` then scales every cell to
/// the height of the terrain, and `project` turns it into the height that the
/// grid returns.
///
/// The exponent is refused if it is zero or the grid would have more cells
/// than a `usize` can count; the source is then returned as it came.
pub fn fft_terrain<
    R,
    T: Copy,
    U,
    G: Fn(R, usize, usize) -> (R, T),
    F: Fn(Vec<T>) -> Vec<T>,
    A: Fn(T, u128) -> T,
    I: Fn(Vec<T>) -> Vec<T>,
    S: Fn(T, usize) -> T,
    V: Fn(T, usize) -> T,
    P: Fn(T) -> U,
>(n: u32, source: R, seed: G, forward: F, attenuate: A, inverse: I, scale: S, raise: V, project: P) -> (result: (
    Result<Vec<Vec<U>>, TerrainError>,
    R,
))
    requires
        forall|state: R, i: usize, j: usize| call_requires(seed, (state, i, j)),
        transform_accepts(forward, pow2(n as nat)),
        forall|cell: T, falloff: u128| call_requires(attenuate, (cell, falloff)),
        transform_accepts(inverse, pow2(n as nat)),
        forall|cell: T, size: usize| call_requires(scale, (cell, size)),
        forall|cell: T, size: usize| call_requires(raise, (cell, size)),
        forall|cell: T| call_requires(project, (cell,)),
    ensures
        result.0 is Ok <==> detail_allowed(n as nat, 0),
        result.0 matches Err(e) ==> e == TerrainError::InvalidDetailLevel && result.1 == source,
        result.0 matches Ok(grid) ==> spectrally_synthesized(
            seed,
            forward,
            |before: Seq<Seq<T>>, after: Seq<Seq<T>>| pink_filtered(attenuate, pow2(n as nat) as usize, before, after),
            inverse,
            scale,
            raise,
            project,
            pow2(n as nat) as usize,
            source,
            rows_of(grid@),
            result.1,
        ),
{
    let size = match side_for_detail(n, 0) {
        Some(size) => size,
        None => {
            return (Err(TerrainError::InvalidDetailLevel), source);
        },
    };
    let (mut heightmap, end) = seed_spectrum(size, source, seed, forward);
    let ghost spectrum = rows_of(heightmap@);
    apply_pink_noise_filter(&mut heightmap, size, attenuate);
    let ghost filtered = rows_of(heightmap@);
    let grid = finish_surface(heightmap, size, inverse, scale, raise, project);
    proof {
        assert(spectrum_seeded(seed, forward, size, source, spectrum, end));
        assert(surface_finished(inverse, scale, raise, project, size, filtered, rows_of(grid@)));
    }
    (Ok(grid), end)
}

/// Generates a grid of side `2^n` by spectral synthesis with a filter of the
/// caller's choice: `filter` receives the spectrum and returns the spectrum
/// that is transformed back. All else is as in `fft_terrain`.
pub fn fft_terrain_with<
    R,
    T: Copy,
    U,
    G: Fn(R, usize, usize) -> (R, T),
    F: Fn(Vec<T>) -> Vec<T>,
    A: Fn(Vec<Vec<T>>) -> Vec<Vec<T>>,
    I: Fn(Vec<T>) -> Vec<T>,
    S: Fn(T, usize) -> T,
    V: Fn(T, usize) -> T,
    P: Fn(T) -> U,
>(n: u32, source: R, seed: G, forward: F, filter: A, inverse: I, scale: S, raise: V, project: P) -> (result: (
    Result<Vec<Vec<U>>, TerrainError>,
    R,
))
    requires
        forall|state: R, i: usize, j: usize| call_requires(seed, (state, i, j)),
        transform_accepts(forward, pow2(n as nat)),
        filter_accepts(filter, pow2(n as nat)),
        transform_accepts(inverse, pow2(n as nat)),
        forall|cell: T, size: usize| call_requires(scale, (cell, size)),
        forall|cell: T, size: usize| call_requires(raise, (cell, size)),
        forall|cell: T| call_requires(project, (cell,)),
    ensures
        result.0 is Ok <==> detail_allowed(n as nat, 0),
        result.0 matches Err(e) ==> e == TerrainError::InvalidDetailLevel && result.1 == source,
        result.0 matches Ok(grid) ==> spectrally_synthesized(
            seed,
            forward,
            |before: Seq<Seq<T>>, after: Seq<Seq<T>>| grid_filtered(filter, before, after),
            inverse,
            scale,
            raise,
            project,
            pow2(n as nat) as usize,
            source,
            rows_of(grid@),
            result.1,
        ),
{
    let size = match side_for_detail(n, 0) {
        Some(size) => size,
        None => {
            return (Err(TerrainError::InvalidDetailLevel), source);
        },
    };
    let (heightmap, end) = seed_spectrum(size, source, seed, forward);
    let ghost spectrum = rows_of(heightmap@);
    let heightmap = filter(heightmap);
    let ghost filtered = rows_of(heightmap@);
    let grid = finish_surface(heightmap, size, inverse, scale, raise, project);
    proof {
        assert(spectrum_seeded(seed, forward, size, source, spectrum, end));
        assert(grid_filtered(filter, spectrum, filtered));
        assert(surface_finished(inverse, scale, raise, project, size, filtered, rows_of(grid@)));
    }
    (Ok(grid), end)
}

/// `filter` gives one grid for each grid.
pub open spec fn filter_determined<T, A: Fn(Vec<Vec<T>>) -> Vec<Vec<T>>>(filter: A) -> bool {
    forall|given: Vec<Vec<T>>, other: Vec<Vec<T>>, a: Vec<Vec<T>>, b: Vec<Vec<T>>|
        #![trigger call_ensures(filter, (given,), a), call_ensures(filter, (other,), b)]
        rows_of(given@) == rows_of(other@) && call_ensures(filter, (given,), a) && call_ensures(
            filter,
            (other,),
            b,
        ) ==> rows_of(a@) == rows_of(b@)
}

/// `project` gives one height for each cell.
pub open spec fn project_determined<T, U, P: Fn(T) -> U>(project: P) -> bool {
    forall|cell: T, a: U, b: U|
        #![trigger call_ensures(project, (cell,), a), call_ensures(project, (cell,), b)]
        call_ensures(project, (cell,), a) && call_ensures(project, (cell,), b) ==> a == b
}

/// `filtered_by` allows one filtered spectrum for each spectrum.
pub open spec fn filtering_determined<T>(filtered_by: spec_fn(Seq<Seq<T>>, Seq<Seq<T>>) -> bool) -> bool {
    forall|before: Seq<Seq<T>>, a: Seq<Seq<T>>, b: Seq<Seq<T>>|
        #![trigger filtered_by(before, a), filtered_by(before, b)]
        filtered_by(before, a) && filtered_by(before, b) ==> a == b
}

/// A filter that gives one grid for each grid allows one filtered spectrum
/// for each spectrum.
pub proof fn lemma_grid_filtering_determined<T, A: Fn(Vec<Vec<T>>) -> Vec<Vec<T>>>(filter: A)
    requires
        filter_determined(filter),
    ensures
        filtering_determined(|before: Seq<Seq<T>>, after: Seq<Seq<T>>| grid_filtered(filter, before, after)),
{
    let filtered_by = |before: Seq<Seq<T>>, after: Seq<Seq<T>>| grid_filtered(filter, before, after);
    assert forall|before: Seq<Seq<T>>, a: Seq<Seq<T>>, b: Seq<Seq<T>>|
        #![trigger filtered_by(before, a), filtered_by(before, b)]
        filtered_by(before, a) && filtered_by(before, b) implies a == b by {
        let (given, returned) = choose|given: Vec<Vec<T>>, returned: Vec<Vec<T>>|
            rows_of(given@) == before && rows_of(returned@) == a && call_ensures(filter, (given,), returned);
        let (other, back) = choose|other: Vec<Vec<T>>, back: Vec<Vec<T>>|
            rows_of(other@) == before && rows_of(back@) == b && call_ensures(filter, (other,), back);
        assert(rows_of(returned@) == rows_of(back@));
    }
}

/// An attenuation that gives one value for each cell and falloff makes the
/// pink noise filter allow one filtered spectrum for each spectrum.
pub proof fn lemma_pink_filtering_determined<T, A: Fn(T, u128) -> T>(attenuate: A, size: usize)
    requires
        attenuate_determined(attenuate),
    ensures
        filtering_determined(|before: Seq<Seq<T>>, after: Seq<Seq<T>>| pink_filtered(attenuate, size, before, after)),
{
    let filtered_by = |before: Seq<Seq<T>>, after: Seq<Seq<T>>| pink_filtered(attenuate, size, before, after);
    assert forall|before: Seq<Seq<T>>, a: Seq<Seq<T>>, b: Seq<Seq<T>>|
        #![trigger filtered_by(before, a), filtered_by(before, b)]
        filtered_by(before, a) && filtered_by(before, b) implies a == b by {
        lemma_pink_determined(attenuate, size, before, a, b);
    }
}

/// Spectral synthesis has one result once its draws are fixed: where every
/// function handed in gives one result for each input and the filter allows
/// one filtered spectrum for each spectrum, two syntheses that start from the
/// same state of the random source give the same grid and leave the source in
/// the same state.
pub proof fn lemma_synthesis_determined<
    R,
    T,
    U,
    G: Fn(R, usize, usize) -> (R, T),
    F: Fn(Vec<T>) -> Vec<T>,
    I: Fn(Vec<T>) -> Vec<T>,
    S: Fn(T, usize) -> T,
    V: Fn(T, usize) -> T,
    P: Fn(T) -> U,
>(
    seed: G,
    forward: F,
    filtered_by: spec_fn(Seq<Seq<T>>, Seq<Seq<T>>) -> bool,
    inverse: I,
    scale: S,
    raise: V,
    project: P,
    size: usize,
    start: R,
    first: Seq<Seq<U>>,
    first_end: R,
    second: Seq<Seq<U>>,
    second_end: R,
)
    requires
        spectrally_synthesized(
            seed,
            forward,
            filtered_by,
            inverse,
            scale,
            raise,
            project,
            size,
            start,
            first,
            first_end,
        ),
        spectrally_synthesized(
            seed,
            forward,
            filtered_by,
            inverse,
            scale,
            raise,
            project,
            size,
            start,
            second,
            second_end,
        ),
        draw_determined(seed),
        transform_determined(forward),
        filtering_determined(filtered_by),
        transform_determined(inverse),
        scale_determined(scale),
        scale_determined(raise),
        project_determined(project),
    ensures
        first == second,
        first_end == second_end,
{
    let (spectrum, filtered) = choose|spectrum: Seq<Seq<T>>, filtered: Seq<Seq<T>>|
        {
            &&& #[trigger] spectrum_seeded(seed, forward, size, start, spectrum, first_end)
            &&& filtered_by(spectrum, filtered)
            &&& #[trigger] surface_finished(inverse, scale, raise, project, size, filtered, first)
        };
    let (spectrum2, filtered2) = choose|spectrum2: Seq<Seq<T>>, filtered2: Seq<Seq<T>>|
        {
            &&& #[trigger] spectrum_seeded(seed, forward, size, start, spectrum2, second_end)
            &&& filtered_by(spectrum2, filtered2)
            &&& #[trigger] surface_finished(inverse, scale, raise, project, size, filtered2, second)
        };
    let seeded = choose|seeded: Seq<Seq<T>>| #[trigger]
        cells_drawn(seed, size, start, seeded, first_end) && transformed_both_ways(forward, seeded, spectrum);
    let seeded2 = choose|seeded2: Seq<Seq<T>>| #[trigger]
        cells_drawn(seed, size, start, seeded2, second_end) && transformed_both_ways(forward, seeded2, spectrum2);
    lemma_draw_determined(seed, size, start, seeded, first_end, seeded2, second_end);
    lemma_both_ways_determined(forward, seeded, spectrum, spectrum2);
    assert(filtered == filtered2);
    let (surface, raised) = choose|surface: Seq<Seq<T>>, raised: Seq<Seq<T>>|
        {
            &&& is_square(surface, size as nat)
            &&& #[trigger] inverted_both_ways(inverse, scale, size, filtered, surface)
            &&& #[trigger] cells_scaled(raise, size, surface, raised)
            &&& cells_projected(project, size, raised, first)
        };
    let (surface2, raised2) = choose|surface2: Seq<Seq<T>>, raised2: Seq<Seq<T>>|
        {
            &&& is_square(surface2, size as nat)
            &&& #[trigger] inverted_both_ways(inverse, scale, size, filtered, surface2)
            &&& #[trigger] cells_scaled(raise, size, surface2, raised2)
            &&& cells_projected(project, size, raised2, second)
        };
    lemma_inverted_determined(inverse, scale, size, filtered, surface, surface2);
    lemma_scaled_determined(raise, size, surface, raised, raised2);
    assert forall|i: int, j: int| 0 <= i < size && 0 <= j < size implies #[trigger] first[i][j] == second[i][j] by {
        assert(call_ensures(project, (raised[i][j],), first[i][j]));
        assert(call_ensures(project, (raised[i][j],), second[i][j]));
    }
    lemma_squares_equal(first, second, size as nat);
}

/// Spectral synthesis with the pink noise filter has one result once its
/// draws are fixed: what `lemma_synthesis_determined` says, for the results of
/// `fft_terrain`.
pub proof fn lemma_pink_synthesis_determined<
    R,
    T,
    U,
    G: Fn(R, usize, usize) -> (R, T),
    F: Fn(Vec<T>) -> Vec<T>,
    A: Fn(T, u128) -> T,
    I: Fn(Vec<T>) -> Vec<T>,
    S: Fn(T, usize) -> T,
    V: Fn(T, usize) -> T,
    P: Fn(T) -> U,
>(
    seed: G,
    forward: F,
    attenuate: A,
    inverse: I,
    scale: S,
    raise: V,
    project: P,
    size: usize,
    start: R,
    first: Seq<Seq<U>>,
    first_end: R,
    second: Seq<Seq<U>>,
    second_end: R,
)
    requires
        spectrally_synthesized(
            seed,
            forward,
            |before: Seq<Seq<T>>, after: Seq<Seq<T>>| pink_filtered(attenuate, size, before, after),
            inverse,
            scale,
            raise,
            project,
            size,
            start,
            first,
            first_end,
        ),
        spectrally_synthesized(
            seed,
            forward,
            |before: Seq<Seq<T>>, after: Seq<Seq<T>>| pink_filtered(attenuate, size, before, after),
            inverse,
            scale,
            raise,
            project,
            size,
            start,
            second,
            second_end,
        ),
        draw_determined(seed),
        transform_determined(forward),
        attenuate_determined(attenuate),
        transform_determined(inverse),
        scale_determined(scale),
        scale_determined(raise),
        project_determined(project),
    ensures
        first == second,
        first_end == second_end,
{
    lemma_pink_filtering_determined(attenuate, size);
    lemma_synthesis_determined(
        seed,
        forward,
        |before: Seq<Seq<T>>, after: Seq<Seq<T>>| pink_filtered(attenuate, size, before, after),
        inverse,
        scale,
        raise,
        project,
        size,
        start,
        first,
        first_end,
        second,
        second_end,
    );
}

/// Spectral synthesis with a filter of the caller's choice has one result
/// once its draws are fixed: what `lemma_synthesis_determined` says, for the
/// results of `fft_terrain_with`.
pub proof fn lemma_filtered_synthesis_determined<
    R,
    T,
    U,
    G: Fn(R, usize, usize) -> (R, T),
    F: Fn(Vec<T>) -> Vec<T>,
    A: Fn(Vec<Vec<T>>) -> Vec<Vec<T>>,
    I: Fn(Vec<T>) -> Vec<T>,
    S: Fn(T, usize) -> T,
    V: Fn(T, usize) -> T,
    P: Fn(T) -> U,
>(
    seed: G,
    forward: F,
    filter: A,
    inverse: I,
    scale: S,
    raise: V,
    project: P,
    size: usize,
    start: R,
    first: Seq<Seq<U>>,
    first_end: R,
    second: Seq<Seq<U>>,
    second_end: R,
)
    requires
        spectrally_synthesized(
            seed,
            forward,
            |before: Seq<Seq<T>>, after: Seq<Seq<T>>| grid_filtered(filter, before, after),
            inverse,
            scale,
            raise,
            project,
            size,
            start,
            first,
            first_end,
        ),
        spectrally_synthesized(
            seed,
            forward,
            |before: Seq<Seq<T>>, after: Seq<Seq<T>>| grid_filtered(filter, before, after),
            inverse,
            scale,
            raise,
            project,
            size,
            start,
            second,
            second_end,
        ),
        draw_determined(seed),
        transform_determined(forward),
        filter_determined(filter),
        transform_determined(inverse),
        scale_determined(scale),
        scale_determined(raise),
        project_determined(project),
    ensures
        first == second,
        first_end == second_end,
{
    lemma_grid_filtering_determined(filter);
    lemma_synthesis_determined(
        seed,
        forward,
        |before: Seq<Seq<T>>, after: Seq<Seq<T>>| grid_filtered(filter, before, after),
        inverse,
        scale,
        raise,
        project,
        size,
        start,
        first,
        first_end,
        second,
        second_end,
    );
}

} // verus!
