//! Square grids held as rows of cells, their sides and their transposition.

use vstd::prelude::*;
use vstd::arithmetic::power2::{lemma_pow2_pos, lemma_pow2_strictly_increases, lemma_pow2_unfold, pow2};

verus! {

/// Why a generator or the estimator refused its input.
#[derive(Clone, Copy, Debug, PartialEq, Eq, Structural)]
pub enum TerrainError {
    /// The detail exponent is zero, or the grid it asks for is too small or
    /// too large to be built.
    InvalidDetailLevel,
    /// No cell of the grid rises above the elevation threshold, so no box
    /// count can enter the regression.
    InsufficientSignal,
}

/// The rows of a grid as sequences of cells: the model that every contract
/// on a `Vec<Vec<T>>` speaks of.
pub open spec fn rows_of<T>(grid: Seq<Vec<T>>) -> Seq<Seq<T>> {
    Seq::new(grid.len(), |i: int| grid[i]@)
}

/// `rows` has `side` rows of `side` cells each.
pub open spec fn is_square<T>(rows: Seq<Seq<T>>, side: nat) -> bool {
    &&& rows.len() == side
    &&& forall|i: int| 0 <= i < side ==> (#[trigger] rows[i]).len() == side
}

/// A grid of this side has a cell count that a `usize` can hold.
pub open spec fn side_fits(side: nat) -> bool {
    side * side <= usize::MAX
}

/// The detail exponent `n` is accepted for a grid of side `2^n + border`.
pub open spec fn detail_allowed(n: nat, border: nat) -> bool {
    n >= 1 && side_fits(pow2(n) + border)
}

proof fn lemma_square_at_least(side: nat)
    ensures
        side * side >= side,
{
    assert(side * side >= side) by (nonlinear_arith);
}

/// The side `2^n + border` of the grid for detail exponent `n`, if that
/// exponent is accepted: the spectral and the noise grids have no border, the
/// displacement grid has a border of one cell.
pub fn side_for_detail(n: u32, border: usize) -> (side: Option<usize>)
    ensures
        side is Some <==> detail_allowed(n as nat, border as nat),
        side is Some ==> side.unwrap() == pow2(n as nat) + border,
{
    if n == 0 {
        return None;
    }
    let mut power: usize = 1;
    let mut k: u32 = 0;
    proof {
        vstd::arithmetic::power2::lemma2_to64();
    }
    while k < n
        invariant
            k <= n,
            power == pow2(k as nat),
        decreases n - k,
    {
        if power > usize::MAX / 2 {
            proof {
                lemma_pow2_unfold((k + 1) as nat);
                if k + 1 < n {
                    lemma_pow2_strictly_increases((k + 1) as nat, n as nat);
                }
                lemma_square_at_least(pow2(n as nat) + border as nat);
            }
            return None;
        }
        proof {
            lemma_pow2_unfold((k + 1) as nat);
        }
        power = power * 2;
        k += 1;
    }
    if power > usize::MAX - border {
        proof {
            lemma_square_at_least(pow2(n as nat) + border as nat);
        }
        return None;
    }
    let side: usize = power + border;
    proof {
        lemma_pow2_pos(n as nat);
    }
    if side > usize::MAX / side {
        proof {
            assert(side * side > usize::MAX) by (nonlinear_arith)
                requires
                    side > usize::MAX / side,
                    side > 0,
            ;
        }
        return None;
    }
    proof {
        assert(side * side <= usize::MAX) by (nonlinear_arith)
            requires
                side <= usize::MAX / side,
                side > 0,
        ;
    }
    Some(side)
}

/// The grid whose rows are the columns of `rows`.
pub open spec fn transposed<T>(rows: Seq<Seq<T>>) -> Seq<Seq<T>> {
    Seq::new(rows.len(), |j: int| Seq::new(rows.len(), |i: int| rows[i][j]))
}

/// A grid of `side` rows of `side` cells, each holding `value`.
pub open spec fn uniform<T>(side: nat, value: T) -> Seq<Seq<T>> {
    Seq::new(side, |i: int| Seq::new(side, |j: int| value))
}

/// Builds a square grid with `value` in every cell.
pub fn filled<T: Copy>(side: usize, value: T) -> (grid: Vec<Vec<T>>)
    ensures
        rows_of(grid@) == uniform(side as nat, value),
{
    let mut grid: Vec<Vec<T>> = Vec::new();
    let mut i: usize = 0;
    while i < side
        invariant
            i <= side,
            grid@.len() == i,
            forall|k: int| 0 <= k < i ==> (#[trigger] grid@[k])@ == Seq::new(side as nat, |j: int| value),
        decreases side - i,
    {
        let mut row: Vec<T> = Vec::new();
        let mut j: usize = 0;
        while j < side
            invariant
                j <= side,
                row@.len() == j,
                forall|k: int| 0 <= k < j ==> row@[k] == value,
            decreases side - j,
        {
            row.push(value);
            j += 1;
        }
        assert(row@ =~= Seq::new(side as nat, |j: int| value));
        grid.push(row);
        i += 1;
    }
    assert(rows_of(grid@) =~= uniform(side as nat, value));
    grid
}

/// The value that `rows` holds at `cell`, given as row and column.
pub open spec fn cell_value<T>(rows: Seq<Seq<T>>, cell: (int, int)) -> T {
    rows[cell.0][cell.1]
}

/// `rows` with the value at `cell` replaced by `value`.
pub open spec fn with_cell<T>(rows: Seq<Seq<T>>, cell: (int, int), value: T) -> Seq<Seq<T>> {
    rows.update(cell.0, rows[cell.0].update(cell.1, value))
}

/// `rows` holds a cell at `cell`.
pub open spec fn has_cell<T>(rows: Seq<Seq<T>>, cell: (int, int)) -> bool {
    0 <= cell.0 < rows.len() && 0 <= cell.1 < rows[cell.0].len()
}

/// Reads the cell at `row` and `col`, if the grid has one there.
pub fn get_cell<T: Copy>(grid: &Vec<Vec<T>>, row: usize, col: usize) -> (value: Option<T>)
    ensures
        value is Some <==> has_cell(rows_of(grid@), (row as int, col as int)),
        value matches Some(found) ==> found == cell_value(rows_of(grid@), (row as int, col as int)),
{
    if row < grid.len() && col < grid[row].len() {
        Some(grid[row][col])
    } else {
        None
    }
}

/// Writes `value` to the cell at `row` and `col`, if the grid has one there,
/// and tells whether it did.
pub fn set_cell<T: Copy>(grid: &mut Vec<Vec<T>>, row: usize, col: usize, value: T) -> (written: bool)
    ensures
        written == has_cell(rows_of(old(grid)@), (row as int, col as int)),
        written ==> rows_of(final(grid)@) == with_cell(rows_of(old(grid)@), (row as int, col as int), value),
        !written ==> final(grid)@ == old(grid)@,
{
    if row < grid.len() && col < grid[row].len() {
        grid[row][col] = value;
        assert(rows_of(grid@) =~= with_cell(rows_of(old(grid)@), (row as int, col as int), value));
        true
    } else {
        false
    }
}

/// Returns the transposition of a square grid: cell `(j, i)` of the result is
/// cell `(i, j)` of `grid`.
pub fn transpose<T: Copy>(grid: &Vec<Vec<T>>) -> (out: Vec<Vec<T>>)
    requires
        is_square(rows_of(grid@), grid@.len()),
    ensures
        rows_of(out@) == transposed(rows_of(grid@)),
{
    let side = grid.len();
    let mut out: Vec<Vec<T>> = Vec::new();
    let mut j: usize = 0;
    while j < side
        invariant
            j <= side,
            side == grid@.len(),
            is_square(rows_of(grid@), grid@.len()),
            out@.len() == j,
            forall|k: int| 0 <= k < j ==> (#[trigger] out@[k])@ == transposed(rows_of(grid@))[k],
        decreases side - j,
    {
        let mut column: Vec<T> = Vec::new();
        let mut i: usize = 0;
        while i < side
            invariant
                i <= side,
                j < side,
                side == grid@.len(),
                is_square(rows_of(grid@), grid@.len()),
                column@.len() == i,
                forall|k: int| 0 <= k < i ==> column@[k] == (#[trigger] grid@[k])@[j as int],
            decreases side - i,
        {
            assert(rows_of(grid@)[i as int].len() == side);
            column.push(grid[i][j]);
            i += 1;
        }
        assert(column@ =~= transposed(rows_of(grid@))[j as int]);
        out.push(column);
        j += 1;
    }
    assert(rows_of(out@) =~= transposed(rows_of(grid@)));
    out
}

/// Transposing a square grid twice gives the grid back.
pub proof fn lemma_transpose_involution<T>(rows: Seq<Seq<T>>)
    requires
        is_square(rows, rows.len()),
    ensures
        transposed(transposed(rows)) == rows,
{
    let twice = transposed(transposed(rows));
    assert forall|i: int| 0 <= i < rows.len() implies #[trigger] twice[i] == rows[i] by {
        assert(twice[i] =~= rows[i]);
    }
    assert(twice =~= rows);
}

/// The transposition of a square grid is square.
pub proof fn lemma_transposed_is_square<T>(rows: Seq<Seq<T>>)
    ensures
        is_square(transposed(rows), rows.len()),
{
}

/// Copies a row.
pub fn copy_row<T: Copy>(row: &Vec<T>) -> (copy: Vec<T>)
    ensures
        copy@ == row@,
{
    let mut copy: Vec<T> = Vec::new();
    let mut j: usize = 0;
    while j < row.len()
        invariant
            j <= row@.len(),
            copy@ == row@.subrange(0, j as int),
        decreases row@.len() - j,
    {
        copy.push(row[j]);
        assert(copy@ =~= row@.subrange(0, j + 1));
        j += 1;
    }
    assert(copy@ =~= row@);
    copy
}

/// Every cell of `after` is what `op` may return for its row, its column and
/// the cell of `before` in the same place.
pub open spec fn cells_mapped<T, U, F: Fn(usize, usize, T) -> U>(
    op: F,
    before: Seq<Seq<T>>,
    after: Seq<Seq<U>>,
) -> bool {
    &&& after.len() == before.len()
    &&& forall|i: int| 0 <= i < before.len() ==> (#[trigger] after[i]).len() == before[i].len()
    &&& forall|i: int, j: int|
        0 <= i < before.len() && 0 <= j < before[i].len() ==> call_ensures(
            op,
            (i as usize, j as usize, #[trigger] before[i][j]),
            #[trigger] after[i][j],
        )
}

/// Builds a grid by applying `op` to every cell of `grid`, row by row.
pub fn map_cells<T: Copy, U, F: Fn(usize, usize, T) -> U>(grid: &Vec<Vec<T>>, op: F) -> (out: Vec<Vec<U>>)
    requires
        forall|i: usize, j: usize, cell: T| call_requires(op, (i, j, cell)),
    ensures
        cells_mapped(op, rows_of(grid@), rows_of(out@)),
{
    let mut out: Vec<Vec<U>> = Vec::new();
    let mut i: usize = 0;
    while i < grid.len()
        invariant
            i <= grid@.len(),
            out@.len() == i,
            forall|i: usize, j: usize, cell: T| call_requires(op, (i, j, cell)),
            forall|r: int| 0 <= r < i ==> (#[trigger] out@[r])@.len() == grid@[r]@.len(),
            forall|r: int, c: int|
                0 <= r < i && 0 <= c < grid@[r]@.len() ==> call_ensures(
                    op,
                    (r as usize, c as usize, #[trigger] grid@[r]@[c]),
                    #[trigger] out@[r]@[c],
                ),
        decreases grid@.len() - i,
    {
        let mut row: Vec<U> = Vec::new();
        let mut j: usize = 0;
        while j < grid[i].len()
            invariant
                i < grid@.len(),
                j <= grid@[i as int]@.len(),
                row@.len() == j,
                forall|i: usize, j: usize, cell: T| call_requires(op, (i, j, cell)),
                forall|c: int|
                    0 <= c < j ==> call_ensures(op, (i, c as usize, grid@[i as int]@[c]), #[trigger] row@[c]),
            decreases grid@[i as int]@.len() - j,
        {
            let value = op(i, j, grid[i][j]);
            row.push(value);
            j += 1;
        }
        out.push(row);
        i += 1;
    }
    out
}

/// `rows` is a square grid of side `size` in which every cell is what `make`
/// may return for its row and column.
pub open spec fn cells_built<T, F: Fn(usize, usize) -> T>(make: F, size: usize, rows: Seq<Seq<T>>) -> bool {
    &&& is_square(rows, size as nat)
    &&& forall|i: int, j: int|
        0 <= i < size && 0 <= j < size ==> call_ensures(make, (i as usize, j as usize), #[trigger] rows[i][j])
}

/// Builds a square grid of side `size`, calling `make` for every cell with its
/// row and column, row by row.
pub fn build_grid<T, F: Fn(usize, usize) -> T>(size: usize, make: F) -> (grid: Vec<Vec<T>>)
    requires
        forall|i: usize, j: usize| call_requires(make, (i, j)),
    ensures
        cells_built(make, size, rows_of(grid@)),
{
    let mut grid: Vec<Vec<T>> = Vec::new();
    let mut i: usize = 0;
    while i < size
        invariant
            i <= size,
            grid@.len() == i,
            forall|i: usize, j: usize| call_requires(make, (i, j)),
            forall|r: int| 0 <= r < i ==> (#[trigger] grid@[r])@.len() == size,
            forall|r: int, c: int|
                0 <= r < i && 0 <= c < size ==> call_ensures(make, (r as usize, c as usize), #[trigger] grid@[r]@[c]),
        decreases size - i,
    {
        let mut row: Vec<T> = Vec::new();
        let mut j: usize = 0;
        while j < size
            invariant
                i < size,
                j <= size,
                row@.len() == j,
                forall|i: usize, j: usize| call_requires(make, (i, j)),
                forall|c: int| 0 <= c < j ==> call_ensures(make, (i, c as usize), #[trigger] row@[c]),
            decreases size - j,
        {
            let value = make(i, j);
            row.push(value);
            j += 1;
        }
        grid.push(row);
        i += 1;
    }
    grid
}

/// The place of the cell at `row` and `col` among the cells of a grid of side
/// `size`, counted row by row.
pub open spec fn place(row: int, col: int, size: int) -> int {
    row * size + col
}

/// The states `states` are those that a source goes through as `make` draws
/// the cells of `rows` row by row: every cell is what `make` may return for
/// the state before it, its row and its column, together with the state after
/// it.
pub open spec fn drawn_along<S, T, F: Fn(S, usize, usize) -> (S, T)>(
    make: F,
    size: usize,
    rows: Seq<Seq<T>>,
    states: Seq<S>,
) -> bool {
    &&& is_square(rows, size as nat)
    &&& states.len() == size * size + 1
    &&& forall|i: int, j: int|
        0 <= i < size && 0 <= j < size ==> call_ensures(
            make,
            (states[place(i, j, size as int)], i as usize, j as usize),
            (states[place(i, j, size as int) + 1], #[trigger] rows[i][j]),
        )
}

/// `rows` is a square grid of side `size` whose cells `make` drew row by row,
/// taking the source from the state `start` to the state `end`.
pub open spec fn cells_drawn<S, T, F: Fn(S, usize, usize) -> (S, T)>(
    make: F,
    size: usize,
    start: S,
    rows: Seq<Seq<T>>,
    end: S,
) -> bool {
    exists|states: Seq<S>| #[trigger]
        drawn_along(make, size, rows, states) && states[0] == start && states.last() == end
}

proof fn lemma_place_ordered(r: int, c: int, i: int, j: int, size: int)
    requires
        0 <= r,
        0 <= c < size,
        0 <= j <= size,
        r < i || (r == i && c < j),
    ensures
        0 <= place(r, c, size) < place(i, j, size),
        place(i, size, size) == place(i + 1, 0, size),
{
    assert(0 <= r * size + c < i * size + j && i * size + size == (i + 1) * size + 0) by (nonlinear_arith)
        requires
            0 <= r,
            0 <= c < size,
            0 <= j <= size,
            r < i || (r == i && c < j),
    ;
}

/// Builds a square grid of side `size` from a source of values: `make` is
/// called for every cell, row by row, with the source, the cell's row and its
/// column, and returns the source with the cell's value. The source comes
/// back with the grid.
pub fn draw_grid<S, T, F: Fn(S, usize, usize) -> (S, T)>(size: usize, source: S, make: F) -> (result: (
    Vec<Vec<T>>,
    S,
))
    requires
        forall|state: S, i: usize, j: usize| call_requires(make, (state, i, j)),
    ensures
        cells_drawn(make, size, source, rows_of(result.0@), result.1),
{
    let mut grid: Vec<Vec<T>> = Vec::new();
    let mut current = source;
    let ghost mut states: Seq<S> = seq![source];
    let mut i: usize = 0;
    while i < size
        invariant
            i <= size,
            grid@.len() == i,
            forall|state: S, i: usize, j: usize| call_requires(make, (state, i, j)),
            states.len() == place(i as int, 0, size as int) + 1,
            states[0] == source,
            states.last() == current,
            forall|r: int| 0 <= r < i ==> (#[trigger] grid@[r])@.len() == size,
            forall|r: int, c: int|
                0 <= r < i && 0 <= c < size ==> call_ensures(
                    make,
                    (states[place(r, c, size as int)], r as usize, c as usize),
                    (states[place(r, c, size as int) + 1], #[trigger] grid@[r]@[c]),
                ),
        decreases size - i,
    {
        let mut row: Vec<T> = Vec::new();
        let mut j: usize = 0;
        while j < size
            invariant
                i < size,
                j <= size,
                grid@.len() == i,
                row@.len() == j,
                forall|state: S, i: usize, j: usize| call_requires(make, (state, i, j)),
                states.len() == place(i as int, j as int, size as int) + 1,
                states[0] == source,
                states.last() == current,
                forall|r: int| 0 <= r < i ==> (#[trigger] grid@[r])@.len() == size,
                forall|r: int, c: int|
                    0 <= r < i && 0 <= c < size ==> call_ensures(
                        make,
                        (states[place(r, c, size as int)], r as usize, c as usize),
                        (states[place(r, c, size as int) + 1], #[trigger] grid@[r]@[c]),
                    ),
                forall|c: int|
                    0 <= c < j ==> call_ensures(
                        make,
                        (states[place(i as int, c, size as int)], i, c as usize),
                        (states[place(i as int, c, size as int) + 1], #[trigger] row@[c]),
                    ),
            decreases size - j,
        {
            let ghost earlier = states;
            let ghost cells = row@;
            let (next, value) = make(current, i, j);
            row.push(value);
            proof {
                states = earlier.push(next);
                assert forall|r: int, c: int| 0 <= r < i && 0 <= c < size implies call_ensures(
                    make,
                    (states[place(r, c, size as int)], r as usize, c as usize),
                    (states[place(r, c, size as int) + 1], #[trigger] grid@[r]@[c]),
                ) by {
                    lemma_place_ordered(r, c, i as int, j as int, size as int);
                    assert(states[place(r, c, size as int)] == earlier[place(r, c, size as int)]);
                    assert(states[place(r, c, size as int) + 1] == earlier[place(r, c, size as int) + 1]);
                }
                assert forall|c: int| 0 <= c < j + 1 implies call_ensures(
                    make,
                    (states[place(i as int, c, size as int)], i, c as usize),
                    (states[place(i as int, c, size as int) + 1], #[trigger] row@[c]),
                ) by {
                    if c < j {
                        lemma_place_ordered(i as int, c, i as int, j as int, size as int);
                        assert(states[place(i as int, c, size as int)] == earlier[place(i as int, c, size as int)]);
                        assert(states[place(i as int, c, size as int) + 1] == earlier[place(
                            i as int,
                            c,
                            size as int,
                        ) + 1]);
                        assert(row@[c] == cells[c]);
                    }
                }
            }
            current = next;
            j += 1;
        }
        proof {
            lemma_place_ordered(0, 0, i as int, size as int, size as int);
        }
        grid.push(row);
        i += 1;
    }
    proof {
        assert(place(size as int, 0, size as int) == size * size) by (nonlinear_arith);
        assert(drawn_along(make, size, rows_of(grid@), states));
    }
    (grid, current)
}

/// `make` gives one state and one value for each state, row and column.
pub open spec fn draw_determined<S, T, F: Fn(S, usize, usize) -> (S, T)>(make: F) -> bool {
    forall|state: S, i: usize, j: usize, a: (S, T), b: (S, T)|
        #![trigger call_ensures(make, (state, i, j), a), call_ensures(make, (state, i, j), b)]
        call_ensures(make, (state, i, j), a) && call_ensures(make, (state, i, j), b) ==> a == b
}

proof fn lemma_draws_agree<S, T, F: Fn(S, usize, usize) -> (S, T)>(
    make: F,
    size: usize,
    first: Seq<Seq<T>>,
    first_states: Seq<S>,
    second: Seq<Seq<T>>,
    second_states: Seq<S>,
    i: int,
    j: int,
)
    requires
        drawn_along(make, size, first, first_states),
        drawn_along(make, size, second, second_states),
        first_states[0] == second_states[0],
        draw_determined(make),
        0 <= i <= size,
        0 <= j <= size,
        i == size ==> j == 0,
    ensures
        first_states[place(i, j, size as int)] == second_states[place(i, j, size as int)],
        forall|r: int, c: int|
            0 <= r && 0 <= c < size && (r < i || (r == i && c < j)) ==> #[trigger] first[r][c] == second[r][c],
    decreases i, j,
{
    assert(place(0, 0, size as int) == 0) by (nonlinear_arith);
    if j > 0 {
        lemma_draws_agree(make, size, first, first_states, second, second_states, i, j - 1);
        let before = place(i, j - 1, size as int);
        assert(call_ensures(
            make,
            (first_states[before], i as usize, (j - 1) as usize),
            (first_states[before + 1], first[i][j - 1]),
        ));
        assert(call_ensures(
            make,
            (second_states[before], i as usize, (j - 1) as usize),
            (second_states[before + 1], second[i][j - 1]),
        ));
    } else if i > 0 {
        lemma_draws_agree(make, size, first, first_states, second, second_states, i - 1, size as int);
        lemma_place_ordered(0, 0, i - 1, size as int, size as int);
    }
}

/// Drawing a grid has one result once its draws are fixed: where `make` gives
/// one state and one value for each input, two grids drawn from the same
/// state of the source are the same grid and leave the source in the same
/// state.
pub proof fn lemma_draw_determined<S, T, F: Fn(S, usize, usize) -> (S, T)>(
    make: F,
    size: usize,
    start: S,
    first: Seq<Seq<T>>,
    first_end: S,
    second: Seq<Seq<T>>,
    second_end: S,
)
    requires
        cells_drawn(make, size, start, first, first_end),
        cells_drawn(make, size, start, second, second_end),
        draw_determined(make),
    ensures
        first == second,
        first_end == second_end,
{
    let states = choose|states: Seq<S>| #[trigger]
        drawn_along(make, size, first, states) && states[0] == start && states.last() == first_end;
    let others = choose|others: Seq<S>| #[trigger]
        drawn_along(make, size, second, others) && others[0] == start && others.last() == second_end;
    lemma_draws_agree(make, size, first, states, second, others, size as int, 0);
    assert(place(size as int, 0, size as int) == size * size) by (nonlinear_arith);
    lemma_squares_equal(first, second, size as nat);
}

/// Two square grids of one side that hold the same value in every cell are
/// the same grid.
pub proof fn lemma_squares_equal<T>(first: Seq<Seq<T>>, second: Seq<Seq<T>>, side: nat)
    requires
        is_square(first, side),
        is_square(second, side),
        forall|i: int, j: int| 0 <= i < side && 0 <= j < side ==> #[trigger] first[i][j] == second[i][j],
    ensures
        first == second,
{
    assert forall|i: int| 0 <= i < side implies #[trigger] first[i] == second[i] by {
        assert(first[i] =~= second[i]);
    }
    assert(first =~= second);
}

/// Square grids with the same transposition are the same grid.
pub proof fn lemma_transposed_injective<T>(first: Seq<Seq<T>>, second: Seq<Seq<T>>, side: nat)
    requires
        is_square(first, side),
        is_square(second, side),
        transposed(first) == transposed(second),
    ensures
        first == second,
{
    lemma_transpose_involution(first);
    lemma_transpose_involution(second);
}

/// The values `partial` are those that a running result goes through as
/// `fold` takes in the cells of `rows` row by row: the result after a cell is
/// what `fold` may return for the result before it and the cell.
pub open spec fn folded_along<T, F: Fn(T, T) -> T>(fold: F, size: usize, rows: Seq<Seq<T>>, partial: Seq<T>) -> bool {
    &&& partial.len() == size * size + 1
    &&& forall|i: int, j: int|
        0 <= i < size && 0 <= j < size ==> call_ensures(
            fold,
            (partial[place(i, j, size as int)], #[trigger] rows[i][j]),
            partial[place(i, j, size as int) + 1],
        )
}

/// `end` is the result of folding the cells of `rows` into `start` with
/// `fold`, row by row.
pub open spec fn cells_folded<T, F: Fn(T, T) -> T>(
    fold: F,
    size: usize,
    start: T,
    rows: Seq<Seq<T>>,
    end: T,
) -> bool {
    exists|partial: Seq<T>| #[trigger]
        folded_along(fold, size, rows, partial) && partial[0] == start && partial.last() == end
}

/// Folds the cells of a square grid into `start`, row by row: `fold` receives
/// the running result and the cell, and returns the next result.
pub fn fold_cells<T: Copy, F: Fn(T, T) -> T>(grid: &Vec<Vec<T>>, size: usize, start: T, fold: &F) -> (end: T)
    requires
        is_square(rows_of(grid@), size as nat),
        forall|running: T, cell: T| call_requires(*fold, (running, cell)),
    ensures
        cells_folded(*fold, size, start, rows_of(grid@), end),
{
    let ghost rows = rows_of(grid@);
    let mut running = start;
    let ghost mut partial: Seq<T> = seq![start];
    let mut i: usize = 0;
    while i < size
        invariant
            i <= size,
            rows == rows_of(grid@),
            is_square(rows, size as nat),
            forall|running: T, cell: T| call_requires(*fold, (running, cell)),
            partial.len() == place(i as int, 0, size as int) + 1,
            partial[0] == start,
            partial.last() == running,
            forall|r: int, c: int|
                0 <= r < i && 0 <= c < size ==> call_ensures(
                    *fold,
                    (partial[place(r, c, size as int)], #[trigger] rows[r][c]),
                    partial[place(r, c, size as int) + 1],
                ),
        decreases size - i,
    {
        let mut j: usize = 0;
        while j < size
            invariant
                i < size,
                j <= size,
                rows == rows_of(grid@),
                is_square(rows, size as nat),
                forall|running: T, cell: T| call_requires(*fold, (running, cell)),
                partial.len() == place(i as int, j as int, size as int) + 1,
                partial[0] == start,
                partial.last() == running,
                forall|r: int, c: int|
                    0 <= r && 0 <= c < size && (r < i || (r == i && c < j)) ==> call_ensures(
                        *fold,
                        (partial[place(r, c, size as int)], #[trigger] rows[r][c]),
                        partial[place(r, c, size as int) + 1],
                    ),
            decreases size - j,
        {
            let ghost earlier = partial;
            assert(rows[i as int].len() == size);
            let next = fold(running, grid[i][j]);
            proof {
                partial = earlier.push(next);
                assert forall|r: int, c: int|
                    0 <= r && 0 <= c < size && (r < i || (r == i && c < j + 1)) implies call_ensures(
                    *fold,
                    (partial[place(r, c, size as int)], #[trigger] rows[r][c]),
                    partial[place(r, c, size as int) + 1],
                ) by {
                    if r < i || c < j {
                        lemma_place_ordered(r, c, i as int, j as int, size as int);
                        assert(partial[place(r, c, size as int)] == earlier[place(r, c, size as int)]);
                        assert(partial[place(r, c, size as int) + 1] == earlier[place(r, c, size as int) + 1]);
                    }
                }
            }
            running = next;
            j += 1;
        }
        proof {
            lemma_place_ordered(0, 0, i as int, size as int, size as int);
        }
        i += 1;
    }
    proof {
        assert(place(size as int, 0, size as int) == size * size) by (nonlinear_arith);
        assert(folded_along(*fold, size, rows, partial));
    }
    running
}

} // verus!
