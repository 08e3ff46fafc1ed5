//! Box counting on a square grid: for a box size, the number of boxes that
//! hold a marked cell; and for a grid, the counts for every box size from the
//! side of the grid down, halving.

use vstd::prelude::*;
use vstd::arithmetic::power2::{lemma_pow2_adds, lemma_pow2_pos, pow2};
use crate::grid::{cells_mapped, is_square, map_cells, rows_of, side_fits, TerrainError};

verus! {

/// A box size and the number of boxes of that size that hold a marked cell.
#[derive(Clone, Copy, Debug, PartialEq, Eq, Structural)]
pub struct BoxSample {
    pub box_size: usize,
    pub count: usize,
}

/// The box of side `extent` with its first cell at `top` and `left` holds a
/// marked cell of the grid.
pub open spec fn box_covered(mask: Seq<Seq<bool>>, top: int, left: int, extent: int) -> bool {
    exists|i: int, j: int|
        top <= i < top + extent && left <= j < left + extent && 0 <= i < mask.len() && 0 <= j < mask.len()
            && #[trigger] mask[i][j]
}

/// The number of covered boxes among those of one row of boxes, from the box
/// at `left` on.
pub open spec fn row_box_count(mask: Seq<Seq<bool>>, extent: int, top: int, left: int) -> nat
    decreases
        (if left < mask.len() {
            mask.len() - left
        } else {
            0
        }),
{
    if extent <= 0 || left >= mask.len() {
        0
    } else {
        (if box_covered(mask, top, left, extent) {
            1nat
        } else {
            0nat
        }) + row_box_count(mask, extent, top, left + extent)
    }
}

/// The number of covered boxes among the rows of boxes from the one at `top`
/// on. The boxes tile the grid from its first cell; those at the far edges may
/// reach beyond it.
pub open spec fn box_count(mask: Seq<Seq<bool>>, extent: int, top: int) -> nat
    decreases
        (if top < mask.len() {
            mask.len() - top
        } else {
            0
        }),
{
    if extent <= 0 || top >= mask.len() {
        0
    } else {
        row_box_count(mask, extent, top, 0) + box_count(mask, extent, top + extent)
    }
}

/// Some cell of the grid is marked.
pub open spec fn any_marked(mask: Seq<Seq<bool>>) -> bool {
    exists|i: int, j: int| 0 <= i < mask.len() && 0 <= j < mask.len() && #[trigger] mask[i][j]
}

/// The samples of a grid for the box sizes `extent`, `extent / 2`, ... above
/// 1.
pub open spec fn samples_from(mask: Seq<Seq<bool>>, extent: int) -> Seq<BoxSample>
    decreases extent,
{
    if extent <= 1 {
        Seq::empty()
    } else {
        seq![BoxSample { box_size: extent as usize, count: box_count(mask, extent, 0) as usize }] + samples_from(
            mask,
            extent / 2,
        )
    }
}

/// Tells whether a box holds a marked cell. The box is clipped at the edges of
/// the grid.
pub fn check_box(mask: &Vec<Vec<bool>>, start_i: usize, start_j: usize, size: usize) -> (covered: bool)
    requires
        is_square(rows_of(mask@), mask@.len()),
    ensures
        covered == box_covered(rows_of(mask@), start_i as int, start_j as int, size as int),
{
    let side = mask.len();
    let ghost rows = rows_of(mask@);
    if start_i >= side || start_j >= side {
        return false;
    }
    let end_i: usize = if size < side - start_i {
        start_i + size
    } else {
        side
    };
    let end_j: usize = if size < side - start_j {
        start_j + size
    } else {
        side
    };
    let mut i: usize = start_i;
    while i < end_i
        invariant
            side == mask@.len(),
            rows == rows_of(mask@),
            is_square(rows, side as nat),
            end_i <= side,
            end_j <= side,
            end_i <= start_i + size,
            end_j <= start_j + size,
            end_i == side || end_i == start_i + size,
            end_j == side || end_j == start_j + size,
            start_i <= i,
            forall|r: int, c: int|
                start_i <= r < i && start_j <= c < end_j && 0 <= r < side ==> !(#[trigger] rows[r][c]),
        decreases end_i - i,
    {
        let mut j: usize = start_j;
        while j < end_j
            invariant
                side == mask@.len(),
                rows == rows_of(mask@),
                is_square(rows, side as nat),
                start_i <= i < end_i <= side,
                end_i <= start_i + size,
                end_j <= side,
                end_j <= start_j + size,
                start_j <= j,
                forall|c: int| start_j <= c < j && c < end_j ==> !(#[trigger] rows[i as int][c]),
            decreases end_j - j,
        {
            assert(rows[i as int].len() == side);
            if mask[i][j] {
                assert(rows[i as int][j as int]);
                return true;
            }
            j += 1;
        }
        i += 1;
    }
    false
}

/// Counts the covered boxes of one row of boxes.
fn count_row_boxes(mask: &Vec<Vec<bool>>, start_i: usize, size: usize) -> (count: usize)
    requires
        is_square(rows_of(mask@), mask@.len()),
        size > 0,
        start_i < mask@.len(),
    ensures
        count == row_box_count(rows_of(mask@), size as int, start_i as int, 0),
        count <= mask@.len(),
{
    let side = mask.len();
    let ghost rows = rows_of(mask@);
    let ghost whole = row_box_count(rows, size as int, start_i as int, 0);
    let mut count: usize = 0;
    let mut j: usize = 0;
    while j < side
        invariant
            side == mask@.len(),
            rows == rows_of(mask@),
            is_square(rows, side as nat),
            size > 0,
            start_i < side,
            j <= side,
            count + row_box_count(rows, size as int, start_i as int, j as int) == whole,
            count + (side - j) <= side,
        decreases side - j,
    {
        if check_box(mask, start_i, j, size) {
            count = count + 1;
        }
        proof {
            if size >= side - j {
                assert(row_box_count(rows, size as int, start_i as int, j + size) == 0);
                assert(row_box_count(rows, size as int, start_i as int, side as int) == 0);
            }
        }
        j = if size < side - j {
            j + size
        } else {
            side
        };
    }
    count
}

/// Counts the boxes of side `size` that hold a marked cell. The boxes tile
/// the grid from its first cell.
pub fn count_boxes(mask: &Vec<Vec<bool>>, size: usize) -> (count: usize)
    requires
        is_square(rows_of(mask@), mask@.len()),
        side_fits(mask@.len()),
        size > 0,
    ensures
        count == box_count(rows_of(mask@), size as int, 0),
{
    let side = mask.len();
    let ghost rows = rows_of(mask@);
    let ghost whole = box_count(rows, size as int, 0);
    let mut count: usize = 0;
    let mut i: usize = 0;
    while i < side
        invariant
            side == mask@.len(),
            rows == rows_of(mask@),
            is_square(rows, side as nat),
            side_fits(side as nat),
            size > 0,
            i <= side,
            count <= i * side,
            count + box_count(rows, size as int, i as int) == whole,
        decreases side - i,
    {
        let in_row = count_row_boxes(mask, i, size);
        let next: usize = if size < side - i {
            i + size
        } else {
            side
        };
        proof {
            if size >= side - i {
                assert(box_count(rows, size as int, i + size) == 0);
                assert(box_count(rows, size as int, side as int) == 0);
            }
            assert(i * side + side <= next * side) by (nonlinear_arith)
                requires
                    i + 1 <= next,
                    side >= 0,
            ;
            assert(next * side <= side * side) by (nonlinear_arith)
                requires
                    0 <= next <= side,
            ;
        }
        count = count + in_row;
        i = next;
    }
    count
}

proof fn lemma_row_finds_marked(mask: Seq<Seq<bool>>, extent: int, top: int, left: int, i: int, j: int)
    requires
        extent > 0,
        0 <= i < mask.len(),
        0 <= j < mask.len(),
        mask[i][j],
        top <= i < top + extent,
        0 <= left <= j,
    ensures
        row_box_count(mask, extent, top, left) >= 1,
    decreases j - left,
{
    if j < left + extent {
        assert(box_covered(mask, top, left, extent));
    } else {
        lemma_row_finds_marked(mask, extent, top, left + extent, i, j);
    }
}

proof fn lemma_count_finds_marked(mask: Seq<Seq<bool>>, extent: int, top: int, i: int, j: int)
    requires
        extent > 0,
        0 <= i < mask.len(),
        0 <= j < mask.len(),
        mask[i][j],
        0 <= top <= i,
    ensures
        box_count(mask, extent, top) >= 1,
    decreases i - top,
{
    if i < top + extent {
        lemma_row_finds_marked(mask, extent, top, 0, i, j);
    } else {
        lemma_count_finds_marked(mask, extent, top + extent, i, j);
    }
}

proof fn lemma_row_of_unmarked(mask: Seq<Seq<bool>>, extent: int, top: int, left: int)
    requires
        !any_marked(mask),
    ensures
        row_box_count(mask, extent, top, left) == 0,
    decreases
        (if left < mask.len() {
            mask.len() - left
        } else {
            0
        }),
{
    if extent > 0 && left < mask.len() {
        lemma_row_of_unmarked(mask, extent, top, left + extent);
    }
}

proof fn lemma_count_of_unmarked(mask: Seq<Seq<bool>>, extent: int, top: int)
    requires
        !any_marked(mask),
    ensures
        box_count(mask, extent, top) == 0,
    decreases
        (if top < mask.len() {
            mask.len() - top
        } else {
            0
        }),
{
    if extent > 0 && top < mask.len() {
        lemma_row_of_unmarked(mask, extent, top, 0);
        lemma_count_of_unmarked(mask, extent, top + extent);
    }
}

/// Whatever the box size, a grid has a covered box if and only if one of its
/// cells is marked: the counts of a grid are all zero or all positive.
pub proof fn lemma_count_positive_iff_marked(mask: Seq<Seq<bool>>, extent: int)
    requires
        extent > 0,
    ensures
        box_count(mask, extent, 0) >= 1 <==> any_marked(mask),
{
    if any_marked(mask) {
        let (i, j) = choose|i: int, j: int| 0 <= i < mask.len() && 0 <= j < mask.len() && #[trigger] mask[i][j];
        lemma_count_finds_marked(mask, extent, 0, i, j);
    } else {
        lemma_count_of_unmarked(mask, extent, 0);
    }
}

/// Every cell of the grid is marked.
pub open spec fn all_marked(mask: Seq<Seq<bool>>) -> bool {
    forall|i: int, j: int| 0 <= i < mask.len() && 0 <= j < mask.len() ==> #[trigger] mask[i][j]
}

proof fn lemma_row_of_marked(mask: Seq<Seq<bool>>, extent: int, top: int, boxes: nat)
    requires
        all_marked(mask),
        extent > 0,
        0 <= top < mask.len(),
        boxes * extent <= mask.len(),
    ensures
        row_box_count(mask, extent, top, mask.len() - boxes * extent) == boxes,
    decreases boxes,
{
    let left = mask.len() - boxes * extent;
    if boxes > 0 {
        assert(boxes * extent >= extent && (boxes - 1) * extent == boxes * extent - extent) by (nonlinear_arith)
            requires
                boxes >= 1,
                extent > 0,
        ;
        assert(mask[top][left]);
        assert(box_covered(mask, top, left, extent));
        lemma_row_of_marked(mask, extent, top, (boxes - 1) as nat);
    } else {
        assert(boxes * extent == 0) by (nonlinear_arith)
            requires
                boxes == 0,
        ;
    }
}

proof fn lemma_count_of_marked(mask: Seq<Seq<bool>>, extent: int, across: nat, boxes: nat)
    requires
        all_marked(mask),
        extent > 0,
        across * extent == mask.len(),
        boxes <= across,
    ensures
        box_count(mask, extent, mask.len() - boxes * extent) == boxes * across,
    decreases boxes,
{
    let top = mask.len() - boxes * extent;
    if boxes > 0 {
        assert(boxes * extent >= extent && (boxes - 1) * extent == boxes * extent - extent && boxes * extent
            <= across * extent && (boxes - 1) * across + across == boxes * across) by (nonlinear_arith)
            requires
                1 <= boxes <= across,
                extent > 0,
        ;
        lemma_row_of_marked(mask, extent, top, across);
        lemma_count_of_marked(mask, extent, across, (boxes - 1) as nat);
    } else {
        assert(boxes * extent == 0 && boxes * across == 0) by (nonlinear_arith)
            requires
                boxes == 0,
        ;
    }
}

/// On a grid of side `2^k` whose cells are all marked, the boxes of side `2^j`
/// that hold a marked cell are all the boxes: their number is the square of
/// `2^(k - j)`. The counts fall by a factor of four as the box size doubles,
/// which is the plane's dimension of two.
pub proof fn lemma_full_grid_counts(mask: Seq<Seq<bool>>, k: nat, j: nat)
    requires
        mask.len() == pow2(k),
        all_marked(mask),
        j <= k,
    ensures
        box_count(mask, pow2(j) as int, 0) == pow2((k - j) as nat) * pow2((k - j) as nat),
{
    let across = pow2((k - j) as nat);
    let extent = pow2(j) as int;
    lemma_pow2_adds((k - j) as nat, j);
    lemma_pow2_pos(j);
    lemma_count_of_marked(mask, extent, across, across);
}

/// The grid is large enough for two box sizes, small enough for its cells to
/// be counted, and has a marked cell.
pub open spec fn sampleable(mask: Seq<Seq<bool>>) -> bool {
    mask.len() >= 4 && side_fits(mask.len()) && any_marked(mask)
}

/// Why a grid that is not sampleable is refused: for its size, or else for
/// want of a marked cell.
pub open spec fn refusal(mask: Seq<Seq<bool>>) -> TerrainError {
    if mask.len() < 4 || !side_fits(mask.len()) {
        TerrainError::InvalidDetailLevel
    } else {
        TerrainError::InsufficientSignal
    }
}

/// Counts the covered boxes for every box size from the side of the grid down,
/// halving while the size is above 1.
///
/// A grid of side below 4 has fewer than two box sizes, which leaves the slope
/// of a line through the samples undetermined: it is refused, as is a grid
/// with more cells than a `usize` can count. A grid without a marked cell has
/// no covered box at any size and gives no signal.
pub fn box_samples(mask: &Vec<Vec<bool>>) -> (samples: Result<Vec<BoxSample>, TerrainError>)
    requires
        is_square(rows_of(mask@), mask@.len()),
    ensures
        samples is Ok <==> sampleable(rows_of(mask@)),
        samples matches Ok(found) ==> found@ == samples_from(rows_of(mask@), mask@.len() as int),
        samples matches Err(e) ==> e == refusal(rows_of(mask@)),
{
    let side = mask.len();
    let ghost rows = rows_of(mask@);
    if side < 4 {
        return Err(TerrainError::InvalidDetailLevel);
    }
    if side > usize::MAX / side {
        proof {
            assert(side * side > usize::MAX) by (nonlinear_arith)
                requires
                    side > usize::MAX / side,
                    side > 0,
            ;
        }
        return Err(TerrainError::InvalidDetailLevel);
    }
    proof {
        assert(side * side <= usize::MAX) by (nonlinear_arith)
            requires
                side <= usize::MAX / side,
                side > 0,
        ;
    }
    let ghost whole = samples_from(rows, side as int);
    let mut found: Vec<BoxSample> = Vec::new();
    let mut size: usize = side;
    assert(found@ + whole =~= whole);
    while size > 1
        invariant
            side == mask@.len(),
            rows == rows_of(mask@),
            is_square(rows, side as nat),
            side_fits(side as nat),
            side >= 4,
            size <= side,
            size < side ==> any_marked(rows),
            found@ + samples_from(rows, size as int) == whole,
        decreases size,
    {
        let count = count_boxes(mask, size);
        proof {
            lemma_count_positive_iff_marked(rows, size as int);
        }
        if count == 0 {
            return Err(TerrainError::InsufficientSignal);
        }
        let ghost earlier = found@;
        let ghost rest = samples_from(rows, size as int / 2);
        let sample = BoxSample { box_size: size, count };
        found.push(sample);
        proof {
            assert(earlier.push(sample) + rest =~= earlier + (seq![sample] + rest));
        }
        size = size / 2;
    }
    assert(found@ + Seq::<BoxSample>::empty() =~= found@);
    Ok(found)
}

/// `estimate` is what the estimator owes for the marked grid `mask`: for a
/// sampleable grid what `regress` may return for its samples, and else the
/// reason of the refusal.
pub open spec fn estimate_for<R, F: Fn(Vec<BoxSample>) -> R>(
    regress: F,
    mask: Seq<Seq<bool>>,
    estimate: Result<R, TerrainError>,
) -> bool {
    match estimate {
        Ok(slope) => sampleable(mask) && exists|samples: Vec<BoxSample>|
            samples@ == samples_from(mask, mask.len() as int) && call_ensures(regress, (samples,), slope),
        Err(e) => !sampleable(mask) && e == refusal(mask),
    }
}

/// Estimates the box-counting dimension of a square grid.
///
/// `exceeds` marks the cells that rise above the elevation threshold; it is
/// called once for every cell, with the cell's row and column. The marked
/// grid is sampled at every box size, and `regress` fits the line through the
/// samples and returns its slope.
///
/// A grid of side below 4 is refused, and a grid in which `exceeds` marks no
/// cell gives no signal: `regress` is called in neither case.
pub fn calculate_fractal_dimension<T: Copy, R, P: Fn(usize, usize, T) -> bool, F: Fn(Vec<BoxSample>) -> R>(
    heightmap: &Vec<Vec<T>>,
    exceeds: P,
    regress: F,
) -> (estimate: Result<R, TerrainError>)
    requires
        is_square(rows_of(heightmap@), heightmap@.len()),
        forall|i: usize, j: usize, cell: T| call_requires(exceeds, (i, j, cell)),
        forall|samples: Vec<BoxSample>| call_requires(regress, (samples,)),
    ensures
        exists|mask: Seq<Seq<bool>>|
            #[trigger] cells_mapped(exceeds, rows_of(heightmap@), mask) && estimate_for(regress, mask, estimate),
{
    let mask = map_cells(heightmap, exceeds);
    proof {
        let rows = rows_of(mask@);
        assert forall|i: int| 0 <= i < rows.len() implies (#[trigger] rows[i]).len() == rows.len() by {
            assert(rows_of(heightmap@)[i].len() == heightmap@.len());
        }
    }
    let estimate = match box_samples(&mask) {
        Ok(samples) => Ok(regress(samples)),
        Err(e) => Err(e),
    };
    proof {
        assert(cells_mapped(exceeds, rows_of(heightmap@), rows_of(mask@)));
        assert(estimate_for(regress, rows_of(mask@), estimate));
    }
    estimate
}

proof fn lemma_row_count_bounded(mask: Seq<Seq<bool>>, extent: int, top: int, left: int)
    requires
        0 <= left,
    ensures
        row_box_count(mask, extent, top, left) <= (if left < mask.len() {
            mask.len() - left
        } else {
            0
        }),
    decreases
        (if left < mask.len() {
            mask.len() - left
        } else {
            0
        }),
{
    if extent > 0 && left < mask.len() {
        lemma_row_count_bounded(mask, extent, top, left + extent);
    }
}

/// There are no more covered boxes than cells.
pub proof fn lemma_count_bounded(mask: Seq<Seq<bool>>, extent: int, top: int)
    requires
        0 <= top,
    ensures
        box_count(mask, extent, top) <= (if top < mask.len() {
            mask.len() - top
        } else {
            0
        }) * mask.len(),
    decreases
        (if top < mask.len() {
            mask.len() - top
        } else {
            0
        }),
{
    let side = mask.len() as int;
    if extent > 0 && top < side {
        lemma_row_count_bounded(mask, extent, top, 0);
        lemma_count_bounded(mask, extent, top + extent);
        let left: int = if top + extent < side {
            side - top - extent
        } else {
            0
        };
        assert(side + left * side <= (side - top) * side) by (nonlinear_arith)
            requires
                0 <= left <= side - top - 1,
                side >= 0,
        ;
    } else {
        assert(0 * mask.len() == 0) by (nonlinear_arith);
        if top < side {
            assert((side - top) * side >= 0) by (nonlinear_arith)
                requires
                    side - top >= 0,
                    side >= 0,
            ;
        }
    }
}

proof fn lemma_samples_from(mask: Seq<Seq<bool>>, extent: int)
    requires
        side_fits(mask.len()),
        any_marked(mask),
        extent <= mask.len(),
    ensures
        extent >= 2 ==> samples_from(mask, extent).len() >= 1,
        extent >= 4 ==> samples_from(mask, extent).len() >= 2,
        forall|k: int|
            0 <= k < samples_from(mask, extent).len() ==> {
                let sample = #[trigger] samples_from(mask, extent)[k];
                2 <= sample.box_size <= extent && sample.count >= 1
            },
        forall|j: int, k: int|
            0 <= j < k < samples_from(mask, extent).len() ==> (#[trigger] samples_from(mask, extent)[j]).box_size > (
            #[trigger] samples_from(mask, extent)[k]).box_size,
    decreases extent,
{
    if extent > 1 {
        let samples = samples_from(mask, extent);
        let rest = samples_from(mask, extent / 2);
        lemma_samples_from(mask, extent / 2);
        lemma_count_positive_iff_marked(mask, extent);
        lemma_count_bounded(mask, extent, 0);
        assert(extent <= usize::MAX && mask.len() * mask.len() >= mask.len()) by (nonlinear_arith)
            requires
                mask.len() * mask.len() <= usize::MAX,
                extent <= mask.len(),
        ;
        assert forall|k: int| 0 <= k < samples.len() implies {
            let sample = #[trigger] samples[k];
            2 <= sample.box_size <= extent && sample.count >= 1
        } by {
            if k > 0 {
                assert(samples[k] == rest[k - 1]);
            }
        }
        assert forall|j: int, k: int| 0 <= j < k < samples.len() implies (#[trigger] samples[j]).box_size > (
        #[trigger] samples[k]).box_size by {
            assert(samples[k] == rest[k - 1]);
            if j > 0 {
                assert(samples[j] == rest[j - 1]);
            }
        }
    }
}

/// The samples of a sampleable grid determine a line through their
/// logarithms: there are two of them at least, no two have the same box size,
/// and every box size and every count is positive, so that each has a
/// logarithm.
pub proof fn lemma_samples_fit_a_line(mask: Seq<Seq<bool>>)
    requires
        sampleable(mask),
    ensures
        samples_from(mask, mask.len() as int).len() >= 2,
        forall|k: int|
            0 <= k < samples_from(mask, mask.len() as int).len() ==> {
                let sample = #[trigger] samples_from(mask, mask.len() as int)[k];
                sample.box_size >= 2 && sample.count >= 1
            },
        forall|j: int, k: int|
            0 <= j < k < samples_from(mask, mask.len() as int).len() ==> (#[trigger] samples_from(
                mask,
                mask.len() as int,
            )[j]).box_size > (#[trigger] samples_from(mask, mask.len() as int)[k]).box_size,
{
    lemma_samples_from(mask, mask.len() as int);
}

} // verus!
