//! Passes over a grid: a transform of every row and every column, a scaling
//! or filtering of every cell.

use vstd::prelude::*;
use vstd::arithmetic::div_mod::lemma_mod_bound;
use vstd::arithmetic::power2::{lemma_pow2_pos, lemma_pow2_unfold, pow2};
use crate::bit_reversal::{
    bit_reversal,
    bit_reverse_permute,
    exponent_of,
    is_power_of_two,
    lemma_pow2_increases,
    power_exponent,
};
use crate::grid::{
    copy_row,
    is_square,
    lemma_squares_equal,
    lemma_transpose_involution,
    lemma_transposed_injective,
    map_cells,
    rows_of,
    side_fits,
    transpose,
    transposed,
};
use crate::lattice::{lemma_mod_shift, lemma_next_multiple, lemma_pow2_divides, lemma_square_bounded};

verus! {

/// Every cell of `after` is what `scale` may return for the cell of `before`
/// in the same place and the side `size`.
pub open spec fn cells_scaled<T, S: Fn(T, usize) -> T>(
    scale: S,
    size: usize,
    before: Seq<Seq<T>>,
    after: Seq<Seq<T>>,
) -> bool {
    &&& is_square(after, size as nat)
    &&& forall|i: int, j: int|
        0 <= i < size && 0 <= j < size ==> call_ensures(scale, (#[trigger] before[i][j], size), #[trigger] after[i][j])
}

/// Replaces every cell by what `scale` makes of it and of `size`.
pub fn scale_cells<T: Copy, S: Fn(T, usize) -> T>(grid: &mut Vec<Vec<T>>, size: usize, scale: &S)
    requires
        is_square(rows_of(old(grid)@), size as nat),
        forall|cell: T| call_requires(*scale, (cell, size)),
    ensures
        cells_scaled(*scale, size, rows_of(old(grid)@), rows_of(final(grid)@)),
{
    let op = |_i: usize, _j: usize, cell: T| -> (out: T)
        ensures
            call_ensures(*scale, (cell, size), out),
        { scale(cell, size) };
    let out = map_cells(grid, op);
    *grid = out;
}

/// `output` is what `transform` may return for a row that holds `input`.
pub open spec fn row_outcome<T, F: Fn(Vec<T>) -> Vec<T>>(transform: F, input: Seq<T>, output: Seq<T>) -> bool {
    exists|given: Vec<T>, returned: Vec<T>|
        given@ == input && returned@ == output && call_ensures(transform, (given,), returned)
}

/// `transform` may be called on every row of `size` cells, and returns a row
/// of `size` cells.
pub open spec fn transform_accepts<T, F: Fn(Vec<T>) -> Vec<T>>(transform: F, size: nat) -> bool {
    &&& forall|row: Vec<T>| row@.len() == size ==> call_requires(transform, (row,))
    &&& forall|row: Vec<T>, out: Vec<T>|
        row@.len() == size && call_ensures(transform, (row,), out) ==> out@.len() == size
}

/// Every row of `after` is what `transform` may return for the row of
/// `before` in the same place.
pub open spec fn rows_transformed<T, F: Fn(Vec<T>) -> Vec<T>>(
    transform: F,
    before: Seq<Seq<T>>,
    after: Seq<Seq<T>>,
) -> bool {
    &&& after.len() == before.len()
    &&& forall|i: int| 0 <= i < before.len() ==> row_outcome(transform, #[trigger] before[i], after[i])
}

/// Replaces a row by its transform.
pub fn apply_fft_to_vec<T: Copy, F: Fn(Vec<T>) -> Vec<T>>(vec: &mut Vec<T>, fft: &F)
    requires
        forall|row: Vec<T>| row@ == old(vec)@ ==> call_requires(*fft, (row,)),
    ensures
        row_outcome(*fft, old(vec)@, final(vec)@),
{
    let given = copy_row(vec);
    let returned = fft(given);
    *vec = returned;
}

/// Transforms every row of a square grid.
fn transform_rows<T: Copy, F: Fn(Vec<T>) -> Vec<T>>(grid: &mut Vec<Vec<T>>, size: usize, transform: &F)
    requires
        is_square(rows_of(old(grid)@), size as nat),
        transform_accepts(*transform, size as nat),
    ensures
        is_square(rows_of(final(grid)@), size as nat),
        rows_transformed(*transform, rows_of(old(grid)@), rows_of(final(grid)@)),
{
    let ghost before = rows_of(grid@);
    let mut i: usize = 0;
    while i < size
        invariant
            i <= size,
            before == rows_of(old(grid)@),
            is_square(before, size as nat),
            is_square(rows_of(grid@), size as nat),
            transform_accepts(*transform, size as nat),
            forall|r: int| i <= r < size ==> (#[trigger] grid@[r])@ == before[r],
            forall|r: int| 0 <= r < i ==> row_outcome(*transform, #[trigger] before[r], grid@[r]@),
        decreases size - i,
    {
        let ghost earlier = rows_of(grid@);
        assert(earlier[i as int].len() == size);
        apply_fft_to_vec(&mut grid[i], transform);
        proof {
            let later = rows_of(grid@);
            let (given, returned) = choose|given: Vec<T>, returned: Vec<T>|
                given@ == before[i as int] && returned@ == later[i as int] && call_ensures(
                    *transform,
                    (given,),
                    returned,
                );
            assert(returned@.len() == size);
            assert forall|r: int| 0 <= r < size implies (#[trigger] later[r]).len() == size by {
                if r != i {
                    assert(later[r] == earlier[r]);
                }
            }
        }
        i += 1;
    }
    assert forall|r: int| 0 <= r < before.len() implies row_outcome(
        *transform,
        #[trigger] before[r],
        rows_of(grid@)[r],
    ) by {
        assert(row_outcome(*transform, before[r], grid@[r]@));
    }
}

/// `after` is `before` with `transform` applied to every row and then to
/// every column.
pub open spec fn transformed_both_ways<T, F: Fn(Vec<T>) -> Vec<T>>(
    transform: F,
    before: Seq<Seq<T>>,
    after: Seq<Seq<T>>,
) -> bool {
    exists|between: Seq<Seq<T>>|
        is_square(between, before.len()) && rows_transformed(transform, before, between) && rows_transformed(
            transform,
            transposed(between),
            transposed(after),
        )
}

/// Applies the transform `fft` along both axes of a square grid: to every row,
/// then, by way of a transposition, to every column.
pub fn apply_fft_to_grid<T: Copy, F: Fn(Vec<T>) -> Vec<T>>(heightmap: &mut Vec<Vec<T>>, size: usize, fft: F)
    requires
        is_square(rows_of(old(heightmap)@), size as nat),
        transform_accepts(fft, size as nat),
    ensures
        is_square(rows_of(final(heightmap)@), size as nat),
        transformed_both_ways(fft, rows_of(old(heightmap)@), rows_of(final(heightmap)@)),
{
    transform_rows(heightmap, size, &fft);
    let ghost between = rows_of(heightmap@);
    let mut columns = transpose(heightmap);
    transform_rows(&mut columns, size, &fft);
    let back = transpose(&columns);
    *heightmap = back;
    proof {
        lemma_transpose_involution(rows_of(columns@));
        assert(rows_transformed(fft, transposed(between), transposed(rows_of(heightmap@))));
    }
}

/// `after` is `before` with `ifft` applied to every row and `scale` to every
/// cell, and then `ifft` applied to every column and `scale` to every cell
/// once more.
pub open spec fn inverted_both_ways<T, F: Fn(Vec<T>) -> Vec<T>, S: Fn(T, usize) -> T>(
    ifft: F,
    scale: S,
    size: usize,
    before: Seq<Seq<T>>,
    after: Seq<Seq<T>>,
) -> bool {
    exists|rows_done: Seq<Seq<T>>, rows_scaled: Seq<Seq<T>>, columns_done: Seq<Seq<T>>|
        {
            &&& is_square(rows_done, size as nat)
            &&& is_square(columns_done, size as nat)
            &&& rows_transformed(ifft, before, rows_done)
            &&& cells_scaled(scale, size, rows_done, rows_scaled)
            &&& rows_transformed(ifft, transposed(rows_scaled), columns_done)
            &&& cells_scaled(scale, size, columns_done, transposed(after))
        }
}

/// Applies the inverse transform `ifft` along both axes of a square grid.
/// After the pass along each axis every cell is handed to `scale` together
/// with `size`, so that each cell is scaled once for each axis.
pub fn apply_ifft_to_grid<T: Copy, F: Fn(Vec<T>) -> Vec<T>, S: Fn(T, usize) -> T>(
    heightmap: &mut Vec<Vec<T>>,
    size: usize,
    ifft: F,
    scale: S,
)
    requires
        is_square(rows_of(old(heightmap)@), size as nat),
        transform_accepts(ifft, size as nat),
        forall|cell: T| call_requires(scale, (cell, size)),
    ensures
        is_square(rows_of(final(heightmap)@), size as nat),
        inverted_both_ways(ifft, scale, size, rows_of(old(heightmap)@), rows_of(final(heightmap)@)),
{
    transform_rows(heightmap, size, &ifft);
    let ghost rows_done = rows_of(heightmap@);
    scale_cells(heightmap, size, &scale);
    let ghost rows_scaled = rows_of(heightmap@);
    let mut columns = transpose(heightmap);
    transform_rows(&mut columns, size, &ifft);
    let ghost columns_done = rows_of(columns@);
    scale_cells(&mut columns, size, &scale);
    let back = transpose(&columns);
    *heightmap = back;
    proof {
        lemma_transpose_involution(rows_of(columns@));
        assert(cells_scaled(scale, size, columns_done, transposed(rows_of(heightmap@))));
    }
}

/// Four times the squared distance between the cell at `row` and `col` and the
/// centre of a grid of side `size`, which lies at `size / 2` on both axes.
pub open spec fn quadrance4(row: int, col: int, size: int) -> int {
    (2 * row - size) * (2 * row - size) + (2 * col - size) * (2 * col - size)
}

/// Four times the square of the distance by which the pink noise filter
/// divides: the distance to the centre, but 1 where the cell is nearer.
pub open spec fn pink_falloff4(row: int, col: int, size: int) -> int {
    if quadrance4(row, col, size) < 4 {
        4
    } else {
        quadrance4(row, col, size)
    }
}

/// The low pass filter keeps a cell whose distance to the centre is below
/// 3.5, that is, whose squared distance times four is below 49.
pub open spec fn low_pass_keeps(row: int, col: int, size: int) -> bool {
    quadrance4(row, col, size) < 49
}

/// The square of the distance between `2 * at` and `size`.
fn offset_squared(at: usize, size: usize) -> (square: u128)
    requires
        at < size,
        side_fits(size as nat),
    ensures
        square == (2 * at - size) * (2 * at - size),
        square <= usize::MAX,
{
    let wide_at: u128 = at as u128;
    let wide_size: u128 = size as u128;
    let offset: u128 = if 2 * wide_at >= wide_size {
        2 * wide_at - wide_size
    } else {
        wide_size - 2 * wide_at
    };
    proof {
        let signed = 2 * at - size;
        lemma_square_bounded(signed, size as int);
        assert(offset * offset == signed * signed) by (nonlinear_arith)
            requires
                offset == signed || offset == -signed,
        ;
    }
    offset * offset
}

/// Computes four times the squared distance of a cell to the centre of the
/// grid.
pub fn centre_quadrance4(row: usize, col: usize, size: usize) -> (quadrance: u128)
    requires
        row < size,
        col < size,
        side_fits(size as nat),
    ensures
        quadrance == quadrance4(row as int, col as int, size as int),
{
    offset_squared(row, size) + offset_squared(col, size)
}

/// Every cell of `after` is what `attenuate` may return for the cell of
/// `before` in the same place and its falloff.
pub open spec fn pink_filtered<T, A: Fn(T, u128) -> T>(
    attenuate: A,
    size: usize,
    before: Seq<Seq<T>>,
    after: Seq<Seq<T>>,
) -> bool {
    &&& is_square(after, size as nat)
    &&& forall|i: int, j: int|
        0 <= i < size && 0 <= j < size ==> call_ensures(
            attenuate,
            (#[trigger] before[i][j], pink_falloff4(i, j, size as int) as u128),
            #[trigger] after[i][j],
        )
}

/// The pink noise filter: hands every cell to `attenuate` together with four
/// times the square of its distance `d` to the centre of the grid, where `d`
/// is taken as 1 for the cells nearer than that. `attenuate` is meant to
/// divide the cell by `0.15 * d * d`.
pub fn apply_pink_noise_filter<T: Copy, A: Fn(T, u128) -> T>(heightmap: &mut Vec<Vec<T>>, size: usize, attenuate: A)
    requires
        is_square(rows_of(old(heightmap)@), size as nat),
        side_fits(size as nat),
        forall|cell: T, falloff: u128| call_requires(attenuate, (cell, falloff)),
    ensures
        pink_filtered(attenuate, size, rows_of(old(heightmap)@), rows_of(final(heightmap)@)),
{
    let ghost before = rows_of(heightmap@);
    let weigh = &attenuate;
    let op = |i: usize, j: usize, cell: T| -> (out: T)
        ensures
            i < size && j < size ==> call_ensures(
                *weigh,
                (cell, pink_falloff4(i as int, j as int, size as int) as u128),
                out,
            ),
        {
            if i < size && j < size {
                let quadrance = centre_quadrance4(i, j, size);
                let falloff: u128 = if quadrance < 4 {
                    4
                } else {
                    quadrance
                };
                weigh(cell, falloff)
            } else {
                cell
            }
        };
    let out = map_cells(heightmap, op);
    *heightmap = out;
    proof {
        let after = rows_of(heightmap@);
        assert forall|i: int| 0 <= i < size implies (#[trigger] after[i]).len() == size by {
            assert(before[i].len() == size);
        }
    }
}

/// Every cell of `after` is what `keep` may return for the cell of `before` in
/// the same place where the low pass filter keeps that cell, and what `cut`
/// may return for it where it does not.
pub open spec fn low_pass_filtered<T, K: Fn(T) -> T, Z: Fn(T) -> T>(
    keep: K,
    cut: Z,
    size: usize,
    before: Seq<Seq<T>>,
    after: Seq<Seq<T>>,
) -> bool {
    &&& is_square(after, size as nat)
    &&& forall|i: int, j: int|
        0 <= i < size && 0 <= j < size ==> if low_pass_keeps(i, j, size as int) {
            call_ensures(keep, (#[trigger] before[i][j],), #[trigger] after[i][j])
        } else {
            call_ensures(cut, (#[trigger] before[i][j],), #[trigger] after[i][j])
        }
}

/// The low pass filter: hands every cell nearer than 3.5 to the centre of the
/// grid to `keep`, and every other cell to `cut`.
pub fn apply_low_pass_filter<T: Copy, K: Fn(T) -> T, Z: Fn(T) -> T>(
    heightmap: &mut Vec<Vec<T>>,
    size: usize,
    keep: K,
    cut: Z,
)
    requires
        is_square(rows_of(old(heightmap)@), size as nat),
        side_fits(size as nat),
        forall|cell: T| call_requires(keep, (cell,)),
        forall|cell: T| call_requires(cut, (cell,)),
    ensures
        low_pass_filtered(keep, cut, size, rows_of(old(heightmap)@), rows_of(final(heightmap)@)),
{
    let ghost before = rows_of(heightmap@);
    let pass = &keep;
    let stop = &cut;
    let op = |i: usize, j: usize, cell: T| -> (out: T)
        ensures
            i < size && j < size ==> if low_pass_keeps(i as int, j as int, size as int) {
                call_ensures(*pass, (cell,), out)
            } else {
                call_ensures(*stop, (cell,), out)
            },
        {
            if i < size && j < size {
                if centre_quadrance4(i, j, size) < 49 {
                    pass(cell)
                } else {
                    stop(cell)
                }
            } else {
                cell
            }
        };
    let out = map_cells(heightmap, op);
    *heightmap = out;
    proof {
        let after = rows_of(heightmap@);
        assert forall|i: int| 0 <= i < size implies (#[trigger] after[i]).len() == size by {
            assert(before[i].len() == size);
        }
    }
}

/// The items of `after` at `x` and half a span further on are what
/// `butterfly` may return for the items of `before` at those places, the
/// place of `x` within its span, and the span.
pub open spec fn pair_combined<T, B: Fn(T, T, usize, usize) -> (T, T)>(
    butterfly: B,
    before: Seq<T>,
    after: Seq<T>,
    span: int,
    x: int,
) -> bool {
    call_ensures(
        butterfly,
        (before[x], before[x + span / 2], (x % span) as usize, span as usize),
        (after[x], after[x + span / 2]),
    )
}

/// `after` is `before` after one stage of butterflies: in every block of
/// `span` items, each item of the first half is combined with the item half a
/// span further on.
pub open spec fn stage_combined<T, B: Fn(T, T, usize, usize) -> (T, T)>(
    butterfly: B,
    before: Seq<T>,
    after: Seq<T>,
    span: int,
) -> bool {
    &&& after.len() == before.len()
    &&& forall|x: int|
        0 <= x < before.len() && x % span < span / 2 ==> #[trigger] pair_combined(butterfly, before, after, span, x)
}

/// The items at `x` and half a span further on are as they were.
spec fn pair_untouched<T>(before: Seq<T>, now: Seq<T>, span: int, x: int) -> bool {
    now[x] == before[x] && now[x + span / 2] == before[x + span / 2]
}

/// An index in the first half of its span has its partner inside the
/// sequence, in the second half of the same span.
proof fn lemma_partner(x: int, len: int, span: int)
    requires
        span >= 2,
        span % 2 == 0,
        len % span == 0,
        0 <= x < len,
        x % span < span / 2,
    ensures
        x + span / 2 < len,
        (x + span / 2) % span == x % span + span / 2,
{
    lemma_mod_bound(x, span);
    lemma_mod_shift(x, span, span / 2);
    lemma_mod_shift(x, span, -(x % span));
    lemma_next_multiple(x - x % span, len, span);
}

/// Runs one stage of butterflies over `vec`.
fn combine_stage<T: Copy, B: Fn(T, T, usize, usize) -> (T, T)>(vec: &mut Vec<T>, span: usize, butterfly: &B)
    requires
        span >= 2,
        span % 2 == 0,
        old(vec)@.len() % (span as nat) == 0,
        forall|a: T, b: T, j: usize, m: usize| call_requires(*butterfly, (a, b, j, m)),
    ensures
        stage_combined(*butterfly, old(vec)@, final(vec)@, span as int),
{
    let half: usize = span / 2;
    let len = vec.len();
    let ghost before = vec@;
    let mut x: usize = 0;
    while x < len
        invariant
            span >= 2,
            span % 2 == 0,
            half == span / 2,
            len % span == 0,
            x <= len,
            vec@.len() == len,
            before.len() == len,
            forall|a: T, b: T, j: usize, m: usize| call_requires(*butterfly, (a, b, j, m)),
            forall|y: int|
                0 <= y < x && y % (span as int) < half ==> #[trigger] pair_combined(
                    *butterfly,
                    before,
                    vec@,
                    span as int,
                    y,
                ),
            forall|y: int|
                x <= y < len && y % (span as int) < half ==> #[trigger] pair_untouched(before, vec@, span as int, y),
        decreases len - x,
    {
        if x % span < half {
            let ghost earlier = vec@;
            proof {
                lemma_partner(x as int, len as int, span as int);
                assert(pair_untouched(before, earlier, span as int, x as int));
            }
            let (low, high) = butterfly(vec[x], vec[x + half], x % span, span);
            vec[x] = low;
            vec[x + half] = high;
            proof {
                let now = vec@;
                assert forall|y: int| 0 <= y < x + 1 && y % (span as int) < half implies #[trigger] pair_combined(
                    *butterfly,
                    before,
                    now,
                    span as int,
                    y,
                ) by {
                    lemma_partner(y, len as int, span as int);
                    if y < x {
                        assert(pair_combined(*butterfly, before, earlier, span as int, y));
                    }
                }
                assert forall|y: int| x + 1 <= y < len && y % (span as int) < half implies #[trigger] pair_untouched(
                    before,
                    now,
                    span as int,
                    y,
                ) by {
                    lemma_partner(y, len as int, span as int);
                    assert(pair_untouched(before, earlier, span as int, y));
                }
            }
        }
        x += 1;
    }
}

/// `after` is the radix-2 transform of `before`: the items are permuted by bit
/// reversal, and then run through one stage of butterflies for every span 2,
/// 4, ... up to the length.
pub open spec fn radix2_transformed<T, B: Fn(T, T, usize, usize) -> (T, T)>(
    butterfly: B,
    before: Seq<T>,
    after: Seq<T>,
) -> bool {
    exists|stages: Seq<Seq<T>>|
        {
            &&& stages.len() == exponent_of(before.len()) + 1
            &&& stages[0] == bit_reversal(before)
            &&& stages.last() == after
            &&& forall|s: int|
                1 <= s < stages.len() ==> stage_combined(
                    butterfly,
                    stages[s - 1],
                    #[trigger] stages[s],
                    pow2(s as nat) as int,
                )
        }
}

/// The radix-2 transform of a sequence whose length is a power of two, in
/// place. An empty sequence is left as it is.
///
/// The items are first permuted by bit reversal. Then, for every span `m` = 2,
/// 4, ... up to the length, every block of `m` items is combined: `butterfly`
/// receives the item at place `j` of the first half of the block, the item
/// half a span further on, `j` and `m`, and returns what takes their places.
/// For a Fourier transform it returns the sum and the difference of the first
/// item and of the second item times the `j`-th power of the `m`-th root of
/// unity.
pub fn apply_fft<T: Copy, B: Fn(T, T, usize, usize) -> (T, T)>(vec: &mut Vec<T>, butterfly: B)
    requires
        old(vec)@.len() == 0 || is_power_of_two(old(vec)@.len()),
        forall|a: T, b: T, j: usize, m: usize| call_requires(butterfly, (a, b, j, m)),
    ensures
        radix2_transformed(butterfly, old(vec)@, final(vec)@),
{
    let len = vec.len();
    let bits = match power_exponent(len) {
        Some(bits) => bits,
        None => {
            proof {
                let stages: Seq<Seq<T>> = seq![vec@];
                vstd::arithmetic::logarithm::lemma_log0(2, 0);
                assert(vec@ =~= bit_reversal(vec@));
                assert(stages.len() == exponent_of(vec@.len()) + 1);
                assert(stages[0] == bit_reversal(vec@) && stages.last() == vec@);
            }
            return ;
        },
    };
    bit_reverse_permute(vec);
    let ghost mut stages: Seq<Seq<T>> = seq![vec@];
    let mut s: u32 = 0;
    let mut span: usize = 1;
    proof {
        lemma_pow2_pos(0);
        vstd::arithmetic::power2::lemma2_to64();
    }
    while s < bits
        invariant
            s <= bits,
            span == pow2(s as nat),
            len == pow2(bits as nat),
            bits == exponent_of(old(vec)@.len()),
            vec@.len() == len,
            stages.len() == s + 1,
            stages[0] == bit_reversal(old(vec)@),
            stages.last() == vec@,
            forall|a: T, b: T, j: usize, m: usize| call_requires(butterfly, (a, b, j, m)),
            forall|t: int|
                1 <= t < stages.len() ==> stage_combined(
                    butterfly,
                    stages[t - 1],
                    #[trigger] stages[t],
                    pow2(t as nat) as int,
                ),
        decreases bits - s,
    {
        proof {
            lemma_pow2_pos(s as nat);
            lemma_pow2_unfold((s + 1) as nat);
            lemma_pow2_increases((s + 1) as nat, bits as nat);
            lemma_pow2_divides((s + 1) as nat, bits as nat);
        }
        span = span * 2;
        let ghost earlier = stages;
        combine_stage(vec, span, &butterfly);
        s = s + 1;
        proof {
            stages = earlier.push(vec@);
            assert forall|t: int| 1 <= t < stages.len() implies stage_combined(
                butterfly,
                stages[t - 1],
                #[trigger] stages[t],
                pow2(t as nat) as int,
            ) by {
                if t < earlier.len() {
                    assert(stages[t] == earlier[t]);
                    assert(stages[t - 1] == earlier[t - 1]);
                }
            }
        }
    }
}

/// `transform` gives one row for each row it is given.
pub open spec fn transform_determined<T, F: Fn(Vec<T>) -> Vec<T>>(transform: F) -> bool {
    forall|given: Vec<T>, other: Vec<T>, a: Vec<T>, b: Vec<T>|
        #![trigger call_ensures(transform, (given,), a), call_ensures(transform, (other,), b)]
        given@ == other@ && call_ensures(transform, (given,), a) && call_ensures(transform, (other,), b) ==> a@
            == b@
}

/// `scale` gives one value for each cell and side.
pub open spec fn scale_determined<T, S: Fn(T, usize) -> T>(scale: S) -> bool {
    forall|cell: T, size: usize, a: T, b: T|
        #![trigger call_ensures(scale, (cell, size), a), call_ensures(scale, (cell, size), b)]
        call_ensures(scale, (cell, size), a) && call_ensures(scale, (cell, size), b) ==> a == b
}

/// `attenuate` gives one value for each cell and falloff.
pub open spec fn attenuate_determined<T, A: Fn(T, u128) -> T>(attenuate: A) -> bool {
    forall|cell: T, falloff: u128, a: T, b: T|
        #![trigger call_ensures(attenuate, (cell, falloff), a), call_ensures(attenuate, (cell, falloff), b)]
        call_ensures(attenuate, (cell, falloff), a) && call_ensures(attenuate, (cell, falloff), b) ==> a == b
}

/// A transform that gives one row for each row gives one grid for each grid,
/// row by row.
pub proof fn lemma_rows_determined<T, F: Fn(Vec<T>) -> Vec<T>>(
    transform: F,
    before: Seq<Seq<T>>,
    first: Seq<Seq<T>>,
    second: Seq<Seq<T>>,
)
    requires
        rows_transformed(transform, before, first),
        rows_transformed(transform, before, second),
        transform_determined(transform),
    ensures
        first == second,
{
    assert forall|i: int| 0 <= i < first.len() implies #[trigger] first[i] == second[i] by {
        assert(row_outcome(transform, before[i], first[i]));
        assert(row_outcome(transform, before[i], second[i]));
        let (given, a) = choose|given: Vec<T>, a: Vec<T>|
            given@ == before[i] && a@ == first[i] && call_ensures(transform, (given,), a);
        let (other, b) = choose|other: Vec<T>, b: Vec<T>|
            other@ == before[i] && b@ == second[i] && call_ensures(transform, (other,), b);
        assert(a@ == b@);
    }
    assert(first =~= second);
}

/// A transform that gives one row for each row gives one grid for each square
/// grid, along both axes.
pub proof fn lemma_both_ways_determined<T, F: Fn(Vec<T>) -> Vec<T>>(
    transform: F,
    before: Seq<Seq<T>>,
    first: Seq<Seq<T>>,
    second: Seq<Seq<T>>,
)
    requires
        is_square(first, before.len()),
        is_square(second, before.len()),
        transformed_both_ways(transform, before, first),
        transformed_both_ways(transform, before, second),
        transform_determined(transform),
    ensures
        first == second,
{
    let between = choose|between: Seq<Seq<T>>|
        is_square(between, before.len()) && rows_transformed(transform, before, between) && rows_transformed(
            transform,
            transposed(between),
            transposed(first),
        );
    let other = choose|other: Seq<Seq<T>>|
        is_square(other, before.len()) && rows_transformed(transform, before, other) && rows_transformed(
            transform,
            transposed(other),
            transposed(second),
        );
    lemma_rows_determined(transform, before, between, other);
    lemma_rows_determined(transform, transposed(between), transposed(first), transposed(second));
    lemma_transposed_injective(first, second, before.len());
}

/// A scaling that gives one value for each cell gives one grid for each grid.
pub proof fn lemma_scaled_determined<T, S: Fn(T, usize) -> T>(
    scale: S,
    size: usize,
    before: Seq<Seq<T>>,
    first: Seq<Seq<T>>,
    second: Seq<Seq<T>>,
)
    requires
        cells_scaled(scale, size, before, first),
        cells_scaled(scale, size, before, second),
        scale_determined(scale),
    ensures
        first == second,
{
    assert forall|i: int, j: int| 0 <= i < size && 0 <= j < size implies #[trigger] first[i][j] == second[i][j] by {
        assert(call_ensures(scale, (before[i][j], size), first[i][j]));
        assert(call_ensures(scale, (before[i][j], size), second[i][j]));
    }
    lemma_squares_equal(first, second, size as nat);
}

/// With a transform and a scaling that give one result for each input, the
/// inverse pass gives one grid for each grid.
pub proof fn lemma_inverted_determined<T, F: Fn(Vec<T>) -> Vec<T>, S: Fn(T, usize) -> T>(
    ifft: F,
    scale: S,
    size: usize,
    before: Seq<Seq<T>>,
    first: Seq<Seq<T>>,
    second: Seq<Seq<T>>,
)
    requires
        is_square(first, size as nat),
        is_square(second, size as nat),
        inverted_both_ways(ifft, scale, size, before, first),
        inverted_both_ways(ifft, scale, size, before, second),
        transform_determined(ifft),
        scale_determined(scale),
    ensures
        first == second,
{
    let (rows_done, rows_scaled, columns_done) = choose|
        rows_done: Seq<Seq<T>>,
        rows_scaled: Seq<Seq<T>>,
        columns_done: Seq<Seq<T>>,
    |
        {
            &&& is_square(rows_done, size as nat)
            &&& is_square(columns_done, size as nat)
            &&& rows_transformed(ifft, before, rows_done)
            &&& cells_scaled(scale, size, rows_done, rows_scaled)
            &&& rows_transformed(ifft, transposed(rows_scaled), columns_done)
            &&& cells_scaled(scale, size, columns_done, transposed(first))
        };
    let (other_done, other_scaled, other_columns) = choose|
        other_done: Seq<Seq<T>>,
        other_scaled: Seq<Seq<T>>,
        other_columns: Seq<Seq<T>>,
    |
        {
            &&& is_square(other_done, size as nat)
            &&& is_square(other_columns, size as nat)
            &&& rows_transformed(ifft, before, other_done)
            &&& cells_scaled(scale, size, other_done, other_scaled)
            &&& rows_transformed(ifft, transposed(other_scaled), other_columns)
            &&& cells_scaled(scale, size, other_columns, transposed(second))
        };
    lemma_rows_determined(ifft, before, rows_done, other_done);
    lemma_scaled_determined(scale, size, rows_done, rows_scaled, other_scaled);
    lemma_rows_determined(ifft, transposed(rows_scaled), columns_done, other_columns);
    lemma_scaled_determined(scale, size, columns_done, transposed(first), transposed(second));
    lemma_transposed_injective(first, second, size as nat);
}

/// An attenuation that gives one value for each cell and falloff gives one
/// grid for each grid.
pub proof fn lemma_pink_determined<T, A: Fn(T, u128) -> T>(
    attenuate: A,
    size: usize,
    before: Seq<Seq<T>>,
    first: Seq<Seq<T>>,
    second: Seq<Seq<T>>,
)
    requires
        pink_filtered(attenuate, size, before, first),
        pink_filtered(attenuate, size, before, second),
        attenuate_determined(attenuate),
    ensures
        first == second,
{
    assert forall|i: int, j: int| 0 <= i < size && 0 <= j < size implies #[trigger] first[i][j] == second[i][j] by {
        let falloff = pink_falloff4(i, j, size as int) as u128;
        assert(call_ensures(attenuate, (before[i][j], falloff), first[i][j]));
        assert(call_ensures(attenuate, (before[i][j], falloff), second[i][j]));
    }
    lemma_squares_equal(first, second, size as nat);
}

} // verus!
