//! What holds of the displacement schedule: every cell of the grid is written
//! by exactly one step, and a step reads only cells that earlier steps wrote.

use vstd::prelude::*;
use vstd::arithmetic::div_mod::{lemma_mod_bound, lemma_small_mod};
use vstd::arithmetic::power2::{lemma_pow2_pos, lemma_pow2_unfold, pow2};
use crate::lattice::{
    lemma_at_least_residue,
    lemma_half_lattice,
    lemma_mod_shift,
    lemma_next_in_class,
    lemma_next_multiple,
    lemma_pow2_divides,
};
use crate::schedule::{
    corner_steps,
    diamond_steps,
    displacement_steps,
    in_grid,
    pass_steps,
    refinement_steps,
    row_steps,
    square_steps,
    step_sources,
    StepKind,
    StepModel,
};

verus! {

/// One of the first `k` steps writes `cell`.
pub open spec fn written_before(steps: Seq<StepModel>, k: int, cell: (int, int)) -> bool {
    exists|j: int| 0 <= j < k && j < steps.len() && (#[trigger] steps[j]).target == cell
}

/// The cells that the steps write.
spec fn targets(steps: Seq<StepModel>) -> Set<(int, int)> {
    Set::new(|cell: (int, int)| written_before(steps, steps.len() as int, cell))
}

/// Step `k` writes a cell of the grid that nothing wrote before it, neither one
/// of the cells in `before` nor an earlier step, and reads only cells of the
/// grid that were written before it.
spec fn step_sound(steps: Seq<StepModel>, before: Set<(int, int)>, side: int, k: int) -> bool {
    let step = steps[k];
    &&& in_grid(step.target, side)
    &&& !before.contains(step.target)
    &&& !written_before(steps, k, step.target)
    &&& forall|i: int|
        0 <= i < step_sources(step, side).len() ==> source_ready(
            steps,
            before,
            side,
            k,
            #[trigger] step_sources(step, side)[i],
        )
}

/// `source` lies in the grid and was written before step `k`.
spec fn source_ready(
    steps: Seq<StepModel>,
    before: Set<(int, int)>,
    side: int,
    k: int,
    source: (int, int),
) -> bool {
    in_grid(source, side) && (before.contains(source) || written_before(steps, k, source))
}

/// Every step is sound, given that the cells in `before` were written ahead of
/// the first step.
spec fn sound(steps: Seq<StepModel>, before: Set<(int, int)>, side: int) -> bool {
    forall|k: int| 0 <= k < steps.len() ==> step_sound(steps, before, side, k)
}

proof fn lemma_target_in_targets(steps: Seq<StepModel>, k: int)
    requires
        0 <= k < steps.len(),
    ensures
        targets(steps).contains(steps[k].target),
{
    assert(written_before(steps, steps.len() as int, steps[k].target));
}

proof fn lemma_sound_concat(a: Seq<StepModel>, b: Seq<StepModel>, before: Set<(int, int)>, side: int)
    requires
        sound(a, before, side),
        sound(b, before.union(targets(a)), side),
    ensures
        sound(a + b, before, side),
        targets(a + b) == targets(a).union(targets(b)),
{
    let ab = a + b;
    assert forall|k: int| 0 <= k < ab.len() implies step_sound(ab, before, side, k) by {
        if k < a.len() {
            assert(step_sound(a, before, side, k));
            assert(ab[k] == a[k]);
            let step = a[k];
            if written_before(ab, k, step.target) {
                let j = choose|j: int| 0 <= j < k && j < ab.len() && (#[trigger] ab[j]).target == step.target;
                assert(ab[j] == a[j]);
                assert(written_before(a, k, step.target));
            }
            assert forall|i: int| 0 <= i < step_sources(step, side).len() implies source_ready(
                ab,
                before,
                side,
                k,
                #[trigger] step_sources(step, side)[i],
            ) by {
                let src = step_sources(step, side)[i];
                assert(source_ready(a, before, side, k, src));
                if written_before(a, k, src) {
                    let j = choose|j: int| 0 <= j < k && j < a.len() && (#[trigger] a[j]).target == src;
                    assert(ab[j] == a[j]);
                    assert(written_before(ab, k, src));
                }
            }
        } else {
            let m = k - a.len();
            let wider = before.union(targets(a));
            assert(step_sound(b, wider, side, m));
            assert(ab[k] == b[m]);
            let step = b[m];
            if written_before(ab, k, step.target) {
                let j = choose|j: int| 0 <= j < k && j < ab.len() && (#[trigger] ab[j]).target == step.target;
                if j < a.len() {
                    assert(ab[j] == a[j]);
                    lemma_target_in_targets(a, j);
                } else {
                    assert(ab[j] == b[j - a.len()]);
                    assert(written_before(b, m, step.target));
                }
            }
            assert forall|i: int| 0 <= i < step_sources(step, side).len() implies source_ready(
                ab,
                before,
                side,
                k,
                #[trigger] step_sources(step, side)[i],
            ) by {
                let src = step_sources(step, side)[i];
                assert(source_ready(b, wider, side, m, src));
                if written_before(b, m, src) {
                    let j = choose|j: int| 0 <= j < m && j < b.len() && (#[trigger] b[j]).target == src;
                    assert(ab[j + a.len()] == b[j]);
                    assert(written_before(ab, k, src));
                } else if !before.contains(src) {
                    assert(targets(a).contains(src));
                    let j = choose|j: int| 0 <= j < a.len() && j < a.len() && (#[trigger] a[j]).target == src;
                    assert(ab[j] == a[j]);
                    assert(written_before(ab, k, src));
                }
            }
        }
    }
    assert forall|cell: (int, int)| targets(ab).contains(cell) <==> targets(a).union(targets(b)).contains(
        cell,
    ) by {
        if targets(ab).contains(cell) {
            let j = choose|j: int| 0 <= j < ab.len() && j < ab.len() && (#[trigger] ab[j]).target == cell;
            if j < a.len() {
                assert(ab[j] == a[j]);
                lemma_target_in_targets(a, j);
            } else {
                assert(ab[j] == b[j - a.len()]);
                lemma_target_in_targets(b, j - a.len());
            }
        }
        if targets(a).contains(cell) {
            let j = choose|j: int| 0 <= j < a.len() && j < a.len() && (#[trigger] a[j]).target == cell;
            assert(ab[j] == a[j]);
            assert(written_before(ab, ab.len() as int, cell));
        }
        if targets(b).contains(cell) {
            let j = choose|j: int| 0 <= j < b.len() && j < b.len() && (#[trigger] b[j]).target == cell;
            assert(ab[j + a.len()] == b[j]);
            assert(written_before(ab, ab.len() as int, cell));
        }
    }
    assert(targets(ab) =~= targets(a).union(targets(b)));
}

proof fn lemma_sound_extend(steps: Seq<StepModel>, before: Set<(int, int)>, wider: Set<(int, int)>, side: int)
    requires
        sound(steps, before, side),
        before.subset_of(wider),
        wider.disjoint(targets(steps)),
    ensures
        sound(steps, wider, side),
{
    assert forall|k: int| 0 <= k < steps.len() implies step_sound(steps, wider, side, k) by {
        assert(step_sound(steps, before, side, k));
        lemma_target_in_targets(steps, k);
        let step = steps[k];
        assert forall|i: int| 0 <= i < step_sources(step, side).len() implies source_ready(
            steps,
            wider,
            side,
            k,
            #[trigger] step_sources(step, side)[i],
        ) by {
            assert(source_ready(steps, before, side, k, step_sources(step, side)[i]));
        }
    }
}

/// Two sequences of steps that stand apart from each other and from `before`
/// may follow one another.
proof fn lemma_sound_apart(a: Seq<StepModel>, b: Seq<StepModel>, before: Set<(int, int)>, side: int)
    requires
        sound(a, before, side),
        sound(b, before, side),
        targets(a).disjoint(targets(b)),
    ensures
        sound(a + b, before, side),
        targets(a + b) == targets(a).union(targets(b)),
{
    let wider = before.union(targets(a));
    assert(wider.disjoint(targets(b))) by {
        assert forall|cell: (int, int)| wider.contains(cell) && targets(b).contains(cell) implies false by {
            let j = choose|j: int| 0 <= j < b.len() && j < b.len() && (#[trigger] b[j]).target == cell;
            assert(step_sound(b, before, side, j));
        }
    }
    lemma_sound_extend(b, before, wider, side);
    lemma_sound_concat(a, b, before, side);
}

/// The step that a row of kind `kind` holds for the cell `(row, col)`.
spec fn row_step(kind: StepKind, pass: nat, gap: int, row: int, col: int) -> StepModel {
    StepModel { target: (row, col), kind, pass, reach: gap / 2 }
}

/// The cell `(row, col)` is not in `before`, and all that its step reads is in
/// the grid and in `before`.
spec fn cell_ready(
    kind: StepKind,
    pass: nat,
    side: int,
    gap: int,
    row: int,
    col: int,
    before: Set<(int, int)>,
) -> bool {
    let sources = step_sources(row_step(kind, pass, gap, row, col), side);
    &&& !before.contains((row, col))
    &&& forall|i: int|
        0 <= i < sources.len() ==> in_grid(#[trigger] sources[i], side) && before.contains(sources[i])
}

/// The cells of row `row` from column `col` on whose column has residue `res`.
spec fn row_cells(side: int, gap: int, row: int, col: int, res: int) -> Set<(int, int)> {
    Set::new(|cell: (int, int)| cell.0 == row && col <= cell.1 < side && cell.1 % gap == res)
}

proof fn lemma_row_sound(
    kind: StepKind,
    pass: nat,
    side: int,
    gap: int,
    row: int,
    col: int,
    before: Set<(int, int)>,
)
    requires
        gap > 0,
        0 <= row < side,
        0 <= col,
        forall|j: int|
            col <= j < side && j % gap == col % gap ==> #[trigger] cell_ready(kind, pass, side, gap, row, j, before),
    ensures
        sound(row_steps(kind, pass, side, gap, row, col), before, side),
        targets(row_steps(kind, pass, side, gap, row, col)) == row_cells(side, gap, row, col, col % gap),
    decreases
        (if col < side {
            side - col
        } else {
            0
        }),
{
    let steps = row_steps(kind, pass, side, gap, row, col);
    if col >= side {
        assert(targets(steps) =~= row_cells(side, gap, row, col, col % gap));
    } else {
        let first = seq![row_step(kind, pass, gap, row, col)];
        let rest = row_steps(kind, pass, side, gap, row, col + gap);
        lemma_mod_shift(col, gap, gap);
        lemma_mod_bound(col, gap);
        lemma_row_sound(kind, pass, side, gap, row, col + gap, before);
        assert(cell_ready(kind, pass, side, gap, row, col, before));
        assert(sound(first, before, side)) by {
            assert(step_sound(first, before, side, 0));
        }
        assert(targets(first) =~= set![(row, col)]) by {
            assert(first[0].target == (row, col));
            assert(written_before(first, first.len() as int, (row, col)));
        }
        assert(targets(first).disjoint(targets(rest)));
        lemma_sound_apart(first, rest, before, side);
        assert(targets(steps) =~= row_cells(side, gap, row, col, col % gap)) by {
            assert forall|cell: (int, int)| #[trigger]
                row_cells(side, gap, row, col, col % gap).contains(cell) && cell != (row, col) implies row_cells(
                side,
                gap,
                row,
                col + gap,
                col % gap,
            ).contains(cell) by {
                lemma_next_in_class(col, cell.1, gap);
            }
        }
    }
}

/// The cells of the grid whose row and column are both multiples of `gap`.
spec fn lattice(side: int, gap: int) -> Set<(int, int)> {
    Set::new(|cell: (int, int)| in_grid(cell, side) && cell.0 % gap == 0 && cell.1 % gap == 0)
}

/// The centres of the squares of gap `gap`, from row `row` on.
spec fn centres(side: int, gap: int, row: int) -> Set<(int, int)> {
    Set::new(
        |cell: (int, int)|
            in_grid(cell, side) && cell.0 >= row && cell.0 % gap == gap / 2 && cell.1 % gap == gap / 2,
    )
}

/// The midpoints of the edges of the squares of gap `gap`, from row `row` on.
spec fn midpoints(side: int, gap: int, row: int) -> Set<(int, int)> {
    Set::new(
        |cell: (int, int)|
            in_grid(cell, side) && cell.0 >= row && ((cell.0 % gap == 0 && cell.1 % gap == gap / 2) || (cell.0
                % gap == gap / 2 && cell.1 % gap == 0)),
    )
}

/// A coordinate of the grid half a gap off the lattice has lattice points
/// of the grid on both sides.
proof fn lemma_between_lattice(x: int, side: int, gap: int)
    requires
        gap >= 2,
        gap % 2 == 0,
        (side - 1) % gap == 0,
        0 <= x < side,
        x % gap == gap / 2,
    ensures
        x - gap / 2 >= 0,
        x + gap / 2 < side,
        (x - gap / 2) % gap == 0,
        (x + gap / 2) % gap == 0,
{
    lemma_at_least_residue(x, gap);
    lemma_mod_shift(x, gap, gap / 2);
    lemma_mod_shift(x, gap, -(gap / 2));
    if x + gap / 2 >= side {
        lemma_next_multiple(side - 1, x + gap / 2, gap);
    }
}

/// Half a gap from a lattice coordinate lies a coordinate half a gap off the
/// lattice.
proof fn lemma_beside_lattice(x: int, gap: int)
    requires
        gap >= 2,
        gap % 2 == 0,
        0 <= x,
        x % gap == 0,
    ensures
        (x + gap / 2) % gap == gap / 2,
        x >= gap / 2 ==> (x - gap / 2) % gap == gap / 2,
{
    lemma_mod_shift(x, gap, gap / 2);
    lemma_mod_shift(x, gap, -(gap / 2));
}

proof fn lemma_squares_sound(pass: nat, side: int, gap: int, row: int)
    requires
        gap >= 2,
        gap % 2 == 0,
        (side - 1) % gap == 0,
        0 <= row,
        row % gap == gap / 2,
    ensures
        sound(square_steps(pass, side, gap, row), lattice(side, gap), side),
        targets(square_steps(pass, side, gap, row)) == centres(side, gap, row),
    decreases
        (if row < side {
            side - row
        } else {
            0
        }),
{
    let half = gap / 2;
    let before = lattice(side, gap);
    let steps = square_steps(pass, side, gap, row);
    if row >= side {
        assert(targets(steps) =~= centres(side, gap, row));
    } else {
        let first = row_steps(StepKind::Square, pass, side, gap, row, half);
        let rest = square_steps(pass, side, gap, row + gap);
        lemma_small_mod(half as nat, gap as nat);
        lemma_mod_shift(row, gap, gap);
        lemma_between_lattice(row, side, gap);
        assert forall|j: int| half <= j < side && j % gap == half % gap implies #[trigger] cell_ready(
            StepKind::Square,
            pass,
            side,
            gap,
            row,
            j,
            before,
        ) by {
            lemma_between_lattice(j, side, gap);
        }
        lemma_row_sound(StepKind::Square, pass, side, gap, row, half, before);
        lemma_squares_sound(pass, side, gap, row + gap);
        assert(targets(first).disjoint(targets(rest)));
        lemma_sound_apart(first, rest, before, side);
        assert(targets(steps) =~= centres(side, gap, row)) by {
            assert forall|cell: (int, int)| centres(side, gap, row).contains(cell) implies targets(first).union(
                targets(rest),
            ).contains(cell) by {
                lemma_at_least_residue(cell.1, gap);
                if cell.0 != row {
                    lemma_next_in_class(row, cell.0, gap);
                }
            }
        }
    }
}

proof fn lemma_diamonds_sound(pass: nat, side: int, gap: int, row: int)
    requires
        gap >= 2,
        gap % 2 == 0,
        (side - 1) % gap == 0,
        0 <= row,
        row % (gap / 2) == 0,
    ensures
        sound(diamond_steps(pass, side, gap, row), lattice(side, gap).union(centres(side, gap, 0)), side),
        targets(diamond_steps(pass, side, gap, row)) == midpoints(side, gap, row),
    decreases
        (if row < side {
            side - row
        } else {
            0
        }),
{
    let half = gap / 2;
    let before = lattice(side, gap).union(centres(side, gap, 0));
    let steps = diamond_steps(pass, side, gap, row);
    if row >= side {
        assert(targets(steps) =~= midpoints(side, gap, row));
    } else {
        let start = (row + half) % gap;
        let first = row_steps(StepKind::Diamond, pass, side, gap, row, start);
        let rest = diamond_steps(pass, side, gap, row + half);
        lemma_half_lattice(row, gap);
        lemma_half_lattice(row + half, gap);
        lemma_mod_shift(row, half, half);
        lemma_mod_shift(row, gap, half);
        lemma_mod_bound(row + half, gap);
        lemma_small_mod(start as nat, gap as nat);
        assert(row % gap == 0 ==> start == half);
        assert(row % gap == half ==> start == 0);
        if row % gap == half {
            lemma_between_lattice(row, side, gap);
        } else {
            lemma_beside_lattice(row, gap);
        }
        assert forall|j: int| start <= j < side && j % gap == start % gap implies #[trigger] cell_ready(
            StepKind::Diamond,
            pass,
            side,
            gap,
            row,
            j,
            before,
        ) by {
            if j % gap == half {
                lemma_between_lattice(j, side, gap);
            } else {
                lemma_beside_lattice(j, gap);
            }
        }
        lemma_row_sound(StepKind::Diamond, pass, side, gap, row, start, before);
        lemma_diamonds_sound(pass, side, gap, row + half);
        assert(targets(first).disjoint(targets(rest)));
        lemma_sound_apart(first, rest, before, side);
        assert(targets(steps) =~= midpoints(side, gap, row)) by {
            assert forall|cell: (int, int)| midpoints(side, gap, row).contains(cell) implies targets(first).union(
                targets(rest),
            ).contains(cell) by {
                lemma_at_least_residue(cell.1, gap);
                lemma_half_lattice(cell.0, gap);
                if cell.0 != row {
                    lemma_next_in_class(row, cell.0, half);
                }
            }
        }
    }
}

/// The cells of the grid off the lattice of gap `gap`.
spec fn off_lattice(side: int, gap: int) -> Set<(int, int)> {
    Set::new(|cell: (int, int)| in_grid(cell, side) && !(cell.0 % gap == 0 && cell.1 % gap == 0))
}

proof fn lemma_pass_sound(pass: nat, side: int, gap: int)
    requires
        gap >= 2,
        gap % 2 == 0,
        (side - 1) % gap == 0,
    ensures
        sound(pass_steps(pass, side, gap), lattice(side, gap), side),
        targets(pass_steps(pass, side, gap)) == centres(side, gap, 0).union(midpoints(side, gap, 0)),
        lattice(side, gap).union(targets(pass_steps(pass, side, gap))) == lattice(side, gap / 2),
{
    let half = gap / 2;
    let squares = square_steps(pass, side, gap, half);
    let diamonds = diamond_steps(pass, side, gap, 0);
    lemma_small_mod(half as nat, gap as nat);
    lemma_squares_sound(pass, side, gap, half);
    lemma_diamonds_sound(pass, side, gap, 0);
    assert(centres(side, gap, half) =~= centres(side, gap, 0)) by {
        assert forall|cell: (int, int)| centres(side, gap, 0).contains(cell) implies cell.0 >= half by {
            lemma_at_least_residue(cell.0, gap);
        }
    }
    assert(lattice(side, gap).union(targets(squares)) =~= lattice(side, gap).union(centres(side, gap, 0)));
    lemma_sound_concat(squares, diamonds, lattice(side, gap), side);
    let written = lattice(side, gap).union(targets(pass_steps(pass, side, gap)));
    assert forall|cell: (int, int)| written.contains(cell) <==> lattice(side, half).contains(cell) by {
        lemma_half_lattice(cell.0, gap);
        lemma_half_lattice(cell.1, gap);
    }
    assert(written =~= lattice(side, half));
}

proof fn lemma_refinement_sound(pass: nat, n: nat, e: nat)
    requires
        e <= n,
    ensures
        sound(
            refinement_steps(pass, pow2(n) as int + 1, pow2(e) as int),
            lattice(pow2(n) as int + 1, pow2(e) as int),
            pow2(n) as int + 1,
        ),
        targets(refinement_steps(pass, pow2(n) as int + 1, pow2(e) as int)) == off_lattice(
            pow2(n) as int + 1,
            pow2(e) as int,
        ),
    decreases e,
{
    let side = pow2(n) as int + 1;
    let gap = pow2(e) as int;
    let steps = refinement_steps(pass, side, gap);
    lemma_pow2_pos(e);
    if e == 0 {
        vstd::arithmetic::power2::lemma2_to64();
        assert(targets(steps) =~= off_lattice(side, gap));
    } else {
        let half = pow2((e - 1) as nat) as int;
        lemma_pow2_unfold(e);
        lemma_pow2_pos((e - 1) as nat);
        lemma_pow2_divides(e, n);
        assert(gap / 2 == half);
        let first = pass_steps(pass, side, gap);
        let rest = refinement_steps(pass + 1, side, half);
        lemma_pass_sound(pass, side, gap);
        lemma_refinement_sound(pass + 1, n, (e - 1) as nat);
        lemma_sound_concat(first, rest, lattice(side, gap), side);
        assert(targets(steps) =~= off_lattice(side, gap)) by {
            assert forall|cell: (int, int)| targets(first).union(targets(rest)).contains(cell) <==> off_lattice(
                side,
                gap,
            ).contains(cell) by {
                lemma_half_lattice(cell.0, gap);
                lemma_half_lattice(cell.1, gap);
                assert(lattice(side, gap).union(targets(first)).contains(cell) <==> lattice(side, half).contains(
                    cell,
                ));
            }
        }
    }
}

/// The schedule of a grid of side `2^n + 1` is sound from an empty grid on,
/// and writes every cell of the grid.
proof fn lemma_schedule_sound(n: nat)
    requires
        n >= 1,
    ensures
        sound(displacement_steps(pow2(n) as int + 1), Set::empty(), pow2(n) as int + 1),
        targets(displacement_steps(pow2(n) as int + 1)) == Set::new(
            |cell: (int, int)| in_grid(cell, pow2(n) as int + 1),
        ),
{
    let last = pow2(n) as int;
    let side = last + 1;
    let corners = corner_steps(side);
    let rest = refinement_steps(0, side, last);
    let nothing = Set::<(int, int)>::empty();
    lemma_pow2_pos(n);
    lemma_pow2_unfold(n);
    lemma_pow2_pos((n - 1) as nat);
    assert(last >= 2);
    assert(sound(corners, nothing, side)) by {
        assert forall|k: int| 0 <= k < corners.len() implies step_sound(corners, nothing, side, k) by {
            assert(corners[0].target == (0int, 0int));
            assert(corners[1].target == (0int, last));
            assert(corners[2].target == (last, 0int));
            assert(corners[3].target == (last, last));
        }
    }
    assert(targets(corners) =~= lattice(side, last)) by {
        assert forall|cell: (int, int)| lattice(side, last).contains(cell) implies targets(corners).contains(
            cell,
        ) by {
            if cell.0 != 0 {
                lemma_small_mod(0, last as nat);
                lemma_next_multiple(0, cell.0, last);
            }
            if cell.1 != 0 {
                lemma_small_mod(0, last as nat);
                lemma_next_multiple(0, cell.1, last);
            }
            assert(corners[0].target == (0int, 0int));
            assert(corners[1].target == (0int, last));
            assert(corners[2].target == (last, 0int));
            assert(corners[3].target == (last, last));
            let k = if cell.0 == 0 {
                if cell.1 == 0 {
                    0int
                } else {
                    1int
                }
            } else {
                if cell.1 == 0 {
                    2int
                } else {
                    3int
                }
            };
            assert(corners[k].target == cell);
            assert(written_before(corners, corners.len() as int, cell));
        }
        assert forall|cell: (int, int)| targets(corners).contains(cell) implies lattice(side, last).contains(
            cell,
        ) by {
            vstd::arithmetic::div_mod::lemma_mod_self_0(last);
            lemma_small_mod(0, last as nat);
        }
    }
    lemma_refinement_sound(0, n, n);
    assert(nothing.union(targets(corners)) =~= lattice(side, last));
    lemma_sound_concat(corners, rest, nothing, side);
    assert(targets(displacement_steps(side)) =~= Set::new(|cell: (int, int)| in_grid(cell, side)));
}

/// In the schedule of a grid of side `2^n + 1`, every step writes a cell of
/// the grid, no two steps write the same cell, and every cell of the grid is
/// written: each cell is written exactly once.
pub proof fn lemma_each_cell_written_once(n: nat)
    requires
        n >= 1,
    ensures
        forall|k: int|
            0 <= k < displacement_steps(pow2(n) as int + 1).len() ==> in_grid(
                (#[trigger] displacement_steps(pow2(n) as int + 1)[k]).target,
                pow2(n) as int + 1,
            ),
        forall|a: int, b: int|
            0 <= a < b < displacement_steps(pow2(n) as int + 1).len() ==> (#[trigger] displacement_steps(
                pow2(n) as int + 1,
            )[a]).target != (#[trigger] displacement_steps(pow2(n) as int + 1)[b]).target,
        forall|cell: (int, int)|
            in_grid(cell, pow2(n) as int + 1) ==> #[trigger] written_before(
                displacement_steps(pow2(n) as int + 1),
                displacement_steps(pow2(n) as int + 1).len() as int,
                cell,
            ),
{
    let side = pow2(n) as int + 1;
    let steps = displacement_steps(side);
    lemma_schedule_sound(n);
    assert forall|k: int| 0 <= k < steps.len() implies in_grid((#[trigger] steps[k]).target, side) by {
        assert(step_sound(steps, Set::empty(), side, k));
    }
    assert forall|a: int, b: int| 0 <= a < b < steps.len() implies (#[trigger] steps[a]).target != (
    #[trigger] steps[b]).target by {
        assert(step_sound(steps, Set::empty(), side, b));
    }
    assert forall|cell: (int, int)| in_grid(cell, side) implies #[trigger] written_before(
        steps,
        steps.len() as int,
        cell,
    ) by {
        assert(targets(steps).contains(cell));
    }
}

/// In the schedule of a grid of side `2^n + 1`, every cell that a step reads
/// lies in the grid and is written by an earlier step.
pub proof fn lemma_sources_written_earlier(n: nat)
    requires
        n >= 1,
    ensures
        forall|k: int, i: int|
            0 <= k < displacement_steps(pow2(n) as int + 1).len() && 0 <= i < step_sources(
                displacement_steps(pow2(n) as int + 1)[k],
                pow2(n) as int + 1,
            ).len() ==> in_grid(
                #[trigger] step_sources(displacement_steps(pow2(n) as int + 1)[k], pow2(n) as int + 1)[i],
                pow2(n) as int + 1,
            ) && written_before(
                displacement_steps(pow2(n) as int + 1),
                k,
                step_sources(displacement_steps(pow2(n) as int + 1)[k], pow2(n) as int + 1)[i],
            ),
{
    let side = pow2(n) as int + 1;
    let steps = displacement_steps(side);
    lemma_schedule_sound(n);
    assert forall|k: int, i: int| 0 <= k < steps.len() && 0 <= i < step_sources(steps[k], side).len() implies in_grid(
        #[trigger] step_sources(steps[k], side)[i],
        side,
    ) && written_before(steps, k, step_sources(steps[k], side)[i]) by {
        assert(step_sound(steps, Set::empty(), side, k));
        assert(source_ready(steps, Set::empty(), side, k, step_sources(steps[k], side)[i]));
    }
}

/// `step` is a step of the pass with number `pass` and gap `gap`: it reads at
/// half a gap, and it writes the centre of a square of that gap or the
/// midpoint of an edge of one.
pub open spec fn pass_shaped(step: StepModel, side: int, gap: int, pass: nat) -> bool {
    let (row, col) = step.target;
    let half = gap / 2;
    &&& step.pass == pass
    &&& step.reach == half
    &&& in_grid(step.target, side)
    &&& match step.kind {
        StepKind::Corner => false,
        StepKind::Square => row % gap == half && col % gap == half,
        StepKind::Diamond => (row % gap == 0 && col % gap == half) || (row % gap == half && col % gap == 0),
    }
}

/// `step` is a step of the schedule for detail exponent `n`: a corner, or a
/// step of a pass below `n`, whose gap is `2^n` halved once for every pass
/// before it.
pub open spec fn step_shaped(step: StepModel, n: nat) -> bool {
    if step.kind == StepKind::Corner {
        step.pass == 0
    } else {
        step.pass < n && pass_shaped(step, pow2(n) as int + 1, pow2((n - step.pass) as nat) as int, step.pass)
    }
}

proof fn lemma_row_shaped(kind: StepKind, pass: nat, side: int, gap: int, row: int, col: int)
    requires
        gap > 0,
        0 <= col,
    ensures
        forall|k: int|
            0 <= k < row_steps(kind, pass, side, gap, row, col).len() ==> {
                let step = #[trigger] row_steps(kind, pass, side, gap, row, col)[k];
                &&& step.kind == kind
                &&& step.pass == pass
                &&& step.reach == gap / 2
                &&& step.target.0 == row
                &&& col <= step.target.1 < side
                &&& step.target.1 % gap == col % gap
            },
    decreases
        (if col < side {
            side - col
        } else {
            0
        }),
{
    if col < side {
        lemma_row_shaped(kind, pass, side, gap, row, col + gap);
        lemma_mod_shift(col, gap, gap);
        lemma_mod_bound(col, gap);
        let steps = row_steps(kind, pass, side, gap, row, col);
        let rest = row_steps(kind, pass, side, gap, row, col + gap);
        assert forall|k: int| 0 <= k < steps.len() implies {
            let step = #[trigger] steps[k];
            &&& step.kind == kind
            &&& step.pass == pass
            &&& step.reach == gap / 2
            &&& step.target.0 == row
            &&& col <= step.target.1 < side
            &&& step.target.1 % gap == col % gap
        } by {
            if k > 0 {
                assert(steps[k] == rest[k - 1]);
            }
        }
    }
}

proof fn lemma_squares_shaped(pass: nat, side: int, gap: int, row: int)
    requires
        gap >= 2,
        gap % 2 == 0,
        0 <= row,
        row % gap == gap / 2,
    ensures
        forall|k: int|
            0 <= k < square_steps(pass, side, gap, row).len() ==> pass_shaped(
                #[trigger] square_steps(pass, side, gap, row)[k],
                side,
                gap,
                pass,
            ),
    decreases
        (if row < side {
            side - row
        } else {
            0
        }),
{
    if row < side {
        let half = gap / 2;
        let first = row_steps(StepKind::Square, pass, side, gap, row, half);
        let rest = square_steps(pass, side, gap, row + gap);
        let steps = square_steps(pass, side, gap, row);
        lemma_row_shaped(StepKind::Square, pass, side, gap, row, half);
        lemma_small_mod(half as nat, gap as nat);
        lemma_mod_shift(row, gap, gap);
        lemma_squares_shaped(pass, side, gap, row + gap);
        assert forall|k: int| 0 <= k < steps.len() implies pass_shaped(#[trigger] steps[k], side, gap, pass) by {
            if k < first.len() {
                assert(steps[k] == first[k]);
            } else {
                assert(steps[k] == rest[k - first.len()]);
            }
        }
    }
}

proof fn lemma_diamonds_shaped(pass: nat, side: int, gap: int, row: int)
    requires
        gap >= 2,
        gap % 2 == 0,
        0 <= row,
        row % (gap / 2) == 0,
    ensures
        forall|k: int|
            0 <= k < diamond_steps(pass, side, gap, row).len() ==> pass_shaped(
                #[trigger] diamond_steps(pass, side, gap, row)[k],
                side,
                gap,
                pass,
            ),
    decreases
        (if row < side {
            side - row
        } else {
            0
        }),
{
    if row < side {
        let half = gap / 2;
        let start = (row + half) % gap;
        let first = row_steps(StepKind::Diamond, pass, side, gap, row, start);
        let rest = diamond_steps(pass, side, gap, row + half);
        let steps = diamond_steps(pass, side, gap, row);
        lemma_half_lattice(row, gap);
        lemma_mod_shift(row, half, half);
        lemma_mod_shift(row, gap, half);
        lemma_mod_bound(row + half, gap);
        lemma_small_mod(start as nat, gap as nat);
        lemma_row_shaped(StepKind::Diamond, pass, side, gap, row, start);
        lemma_diamonds_shaped(pass, side, gap, row + half);
        assert forall|k: int| 0 <= k < steps.len() implies pass_shaped(#[trigger] steps[k], side, gap, pass) by {
            if k < first.len() {
                assert(steps[k] == first[k]);
            } else {
                assert(steps[k] == rest[k - first.len()]);
            }
        }
    }
}

proof fn lemma_refinement_shaped(pass: nat, n: nat, e: nat)
    requires
        pass + e == n,
    ensures
        forall|k: int|
            0 <= k < refinement_steps(pass, pow2(n) as int + 1, pow2(e) as int).len() ==> step_shaped(
                #[trigger] refinement_steps(pass, pow2(n) as int + 1, pow2(e) as int)[k],
                n,
            ),
    decreases e,
{
    let side = pow2(n) as int + 1;
    let gap = pow2(e) as int;
    lemma_pow2_pos(e);
    if e == 0 {
        vstd::arithmetic::power2::lemma2_to64();
    } else {
        let half = pow2((e - 1) as nat) as int;
        lemma_pow2_unfold(e);
        lemma_pow2_pos((e - 1) as nat);
        assert(gap / 2 == half);
        let squares = square_steps(pass, side, gap, half);
        let diamonds = diamond_steps(pass, side, gap, 0);
        let rest = refinement_steps(pass + 1, side, half);
        let steps = refinement_steps(pass, side, gap);
        lemma_small_mod(half as nat, gap as nat);
        lemma_squares_shaped(pass, side, gap, half);
        lemma_diamonds_shaped(pass, side, gap, 0);
        lemma_refinement_shaped(pass + 1, n, (e - 1) as nat);
        assert forall|k: int| 0 <= k < steps.len() implies step_shaped(#[trigger] steps[k], n) by {
            if k < squares.len() {
                assert(steps[k] == squares[k]);
            } else if k < squares.len() + diamonds.len() {
                assert(steps[k] == diamonds[k - squares.len()]);
            } else {
                assert(steps[k] == rest[k - squares.len() - diamonds.len()]);
            }
        }
    }
}

/// Every step of the schedule for detail exponent `n` is a corner or a step
/// of a pass below `n`, and the steps of a pass read at half the gap of that
/// pass: the reach halves from pass to pass, from `2^(n-1)` down to 1.
pub proof fn lemma_steps_shaped(n: nat)
    requires
        n >= 1,
    ensures
        forall|k: int|
            0 <= k < displacement_steps(pow2(n) as int + 1).len() ==> step_shaped(
                #[trigger] displacement_steps(pow2(n) as int + 1)[k],
                n,
            ),
{
    let side = pow2(n) as int + 1;
    let corners = corner_steps(side);
    let rest = refinement_steps(0, side, pow2(n) as int);
    let steps = displacement_steps(side);
    lemma_refinement_shaped(0, n, n);
    assert forall|k: int| 0 <= k < steps.len() implies step_shaped(#[trigger] steps[k], n) by {
        if k < corners.len() {
            assert(steps[k] == corners[k]);
        } else {
            assert(steps[k] == rest[k - corners.len()]);
        }
    }
}

/// A step of a pass reads four cells if it is a square step, and three or
/// four cells if it is a diamond step: a midpoint on an edge of the grid has
/// three neighbours inside the grid, every other midpoint has four.
pub proof fn lemma_pass_step_reads(step: StepModel, side: int, gap: int)
    requires
        gap >= 2,
        gap % 2 == 0,
        (side - 1) % gap == 0,
        pass_shaped(step, side, gap, step.pass),
    ensures
        step.kind == StepKind::Square ==> step_sources(step, side).len() == 4,
        step.kind == StepKind::Diamond ==> 3 <= step_sources(step, side).len() <= 4,
{
    let (row, col) = step.target;
    let half = gap / 2;
    if step.kind == StepKind::Diamond {
        if row % gap == half {
            lemma_between_lattice(row, side, gap);
            if col + half >= side && col < half {
                lemma_small_mod(0, gap as nat);
                if col > 0 {
                    lemma_next_multiple(0, col, gap);
                }
                if col < side - 1 {
                    lemma_next_multiple(col, side - 1, gap);
                }
            }
        } else {
            lemma_between_lattice(col, side, gap);
            if row + half >= side && row < half {
                lemma_small_mod(0, gap as nat);
                if row > 0 {
                    lemma_next_multiple(0, row, gap);
                }
                if row < side - 1 {
                    lemma_next_multiple(row, side - 1, gap);
                }
            }
        }
    }
}

/// Every step of the schedule for detail exponent `n` that is not a corner
/// reads at least three cells and at most four, so that the mean of what it
/// reads is defined.
pub proof fn lemma_steps_read(n: nat)
    requires
        n >= 1,
    ensures
        forall|k: int|
            0 <= k < displacement_steps(pow2(n) as int + 1).len() ==> {
                let step = #[trigger] displacement_steps(pow2(n) as int + 1)[k];
                let count = step_sources(step, pow2(n) as int + 1).len();
                match step.kind {
                    StepKind::Corner => count == 0,
                    StepKind::Square => count == 4,
                    StepKind::Diamond => 3 <= count <= 4,
                }
            },
{
    let side = pow2(n) as int + 1;
    let steps = displacement_steps(side);
    lemma_steps_shaped(n);
    assert forall|k: int| 0 <= k < steps.len() implies {
        let step = #[trigger] steps[k];
        let count = step_sources(step, side).len();
        match step.kind {
            StepKind::Corner => count == 0,
            StepKind::Square => count == 4,
            StepKind::Diamond => 3 <= count <= 4,
        }
    } by {
        let step = steps[k];
        assert(step_shaped(step, n));
        if step.kind != StepKind::Corner {
            let e = (n - step.pass) as nat;
            lemma_pow2_unfold(e);
            lemma_pow2_pos((e - 1) as nat);
            lemma_pow2_divides(e, n);
            lemma_pass_step_reads(step, side, pow2(e) as int);
        }
    }
}

/// A row whose cells are `count` in number has `count` steps.
proof fn lemma_row_length(kind: StepKind, pass: nat, side: int, gap: int, row: int, col: int, count: nat)
    requires
        gap > 0,
        col + count * gap >= side,
        count > 0 ==> col + (count - 1) * gap < side,
    ensures
        row_steps(kind, pass, side, gap, row, col).len() == count,
    decreases count,
{
    if count == 0 {
        assert(count * gap == 0) by (nonlinear_arith)
            requires
                count == 0,
        ;
    } else {
        assert((count - 1) * gap >= 0 && (count - 1) * gap + gap == count * gap && (count > 1 ==> (count - 2) * gap
            + gap == (count - 1) * gap)) by (nonlinear_arith)
            requires
                count >= 1,
                gap > 0,
        ;
        lemma_row_length(kind, pass, side, gap, row, col + gap, (count - 1) as nat);
    }
}

/// The square step of a pass with `across` squares along each axis has
/// `across` steps in each of its rows.
proof fn lemma_squares_length(pass: nat, side: int, gap: int, across: nat, rows: nat)
    requires
        gap >= 2,
        gap % 2 == 0,
        side == across * gap + 1,
        rows <= across,
    ensures
        square_steps(pass, side, gap, side - 1 - rows * gap + gap / 2).len() == rows * across,
    decreases rows,
{
    let half = gap / 2;
    let row = side - 1 - rows * gap + half;
    assert(half + across * gap >= side && (across > 0 ==> half + (across - 1) * gap < side)) by (nonlinear_arith)
        requires
            side == across * gap + 1,
            gap == 2 * half,
            half >= 1,
    ;
    if rows == 0 {
        assert(rows * gap == 0 && rows * across == 0) by (nonlinear_arith)
            requires
                rows == 0,
        ;
    } else {
        assert(rows * gap >= gap && (rows - 1) * gap == rows * gap - gap && rows * gap <= across * gap && (rows - 1)
            * across + across == rows * across) by (nonlinear_arith)
            requires
                1 <= rows <= across,
                gap > 0,
        ;
        lemma_row_length(StepKind::Square, pass, side, gap, row, half, across);
        lemma_squares_length(pass, side, gap, across, (rows - 1) as nat);
    }
}

/// The last `rows` rows of the diamond step of a pass with `across` squares
/// along each axis: the rows take turns in having `across` steps and one
/// more, and the last row has `across`.
proof fn lemma_diamonds_length(pass: nat, side: int, gap: int, across: nat, rows: nat)
    requires
        gap >= 2,
        gap % 2 == 0,
        side == across * gap + 1,
        rows <= 2 * across + 1,
    ensures
        diamond_steps(pass, side, gap, side - 1 - rows * (gap / 2) + gap / 2).len() == rows * across + rows / 2,
    decreases rows,
{
    let half = gap / 2;
    let row = side - 1 - rows * half + half;
    if rows == 0 {
        assert(rows * half == 0 && rows * across == 0) by (nonlinear_arith)
            requires
                rows == 0,
        ;
    } else {
        let pairs = (rows - 1) / 2;
        assert(rows * half >= half && (rows - 1) * half == rows * half - half && rows * half <= (2 * across + 1)
            * half && (2 * across + 1) * half == across * gap + half && (rows - 1) * across + across == rows
            * across) by (nonlinear_arith)
            requires
                1 <= rows <= 2 * across + 1,
                gap == 2 * half,
                half >= 1,
        ;
        assert(0 <= row < side);
        let start = (row + half) % gap;
        if (rows - 1) % 2 == 0 {
            assert(row == (across - pairs) * gap + 0) by (nonlinear_arith)
                requires
                    row == across * gap - (rows - 1) * half,
                    rows - 1 == 2 * pairs,
                    gap == 2 * half,
            ;
            crate::lattice::lemma_residue(row, gap, across - pairs, 0);
            lemma_mod_shift(row, gap, half);
            assert(start == half);
            assert(half + across * gap >= side && (across > 0 ==> half + (across - 1) * gap < side))
                by (nonlinear_arith)
                requires
                    side == across * gap + 1,
                    gap == 2 * half,
                    half >= 1,
            ;
            lemma_row_length(StepKind::Diamond, pass, side, gap, row, start, across);
        } else {
            assert(row == (across - pairs - 1) * gap + half) by (nonlinear_arith)
                requires
                    row == across * gap - (rows - 1) * half,
                    rows - 1 == 2 * pairs + 1,
                    gap == 2 * half,
            ;
            crate::lattice::lemma_residue(row, gap, across - pairs - 1, half);
            lemma_mod_shift(row, gap, half);
            assert(start == 0);
            assert(0 + (across + 1) * gap >= side && 0 + across * gap < side) by (nonlinear_arith)
                requires
                    side == across * gap + 1,
                    gap >= 2,
            ;
            lemma_row_length(StepKind::Diamond, pass, side, gap, row, start, across + 1);
        }
        lemma_diamonds_length(pass, side, gap, across, (rows - 1) as nat);
    }
}

proof fn lemma_refinement_length(pass: nat, n: nat, e: nat)
    requires
        e <= n,
    ensures
        refinement_steps(pass, pow2(n) as int + 1, pow2(e) as int).len() + (pow2((n - e) as nat) + 1) * (pow2(
            (n - e) as nat,
        ) + 1) == (pow2(n) + 1) * (pow2(n) + 1),
    decreases e,
{
    let side = pow2(n) as int + 1;
    let gap = pow2(e) as int;
    let across = pow2((n - e) as nat);
    lemma_pow2_pos(e);
    lemma_pow2_pos((n - e) as nat);
    vstd::arithmetic::power2::lemma_pow2_adds((n - e) as nat, e);
    if e == 0 {
        vstd::arithmetic::power2::lemma2_to64();
        assert(across == pow2(n));
    } else {
        let half = pow2((e - 1) as nat) as int;
        let finer = pow2((n - e + 1) as nat);
        lemma_pow2_unfold(e);
        lemma_pow2_unfold((n - e + 1) as nat);
        lemma_pow2_pos((e - 1) as nat);
        assert(gap / 2 == half);
        assert(finer == 2 * across);
        lemma_squares_length(pass, side, gap, across, across);
        lemma_diamonds_length(pass, side, gap, across, 2 * across + 1);
        assert(side - 1 - across * gap + gap / 2 == gap / 2);
        assert(side - 1 - (2 * across + 1) * (gap / 2) + gap / 2 == 0) by (nonlinear_arith)
            requires
                side == across * gap + 1,
                gap == 2 * (gap / 2),
        ;
        lemma_refinement_length(pass + 1, n, (e - 1) as nat);
        assert((2 * across + 1) / 2 == across);
        assert(across * across + ((2 * across + 1) * across + across) + (across + 1) * (across + 1) == (finer + 1) * (
        finer + 1)) by (nonlinear_arith)
            requires
                finer == 2 * across,
        ;
    }
}

/// The schedule of a grid of side `2^n + 1` has as many steps as the grid has
/// cells.
pub proof fn lemma_schedule_length(n: nat)
    requires
        n >= 1,
    ensures
        displacement_steps(pow2(n) as int + 1).len() == (pow2(n) + 1) * (pow2(n) + 1),
{
    lemma_refinement_length(0, n, n);
    vstd::arithmetic::power2::lemma2_to64();
    assert((pow2(0) + 1) * (pow2(0) + 1) == 4) by (nonlinear_arith)
        requires
            pow2(0) == 1,
    ;
}

} // verus!
