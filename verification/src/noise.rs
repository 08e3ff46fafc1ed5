//! The noise compositor: a grid sampled from a seeded noise field, remapped
//! by its own extremes.

use vstd::prelude::*;
use vstd::arithmetic::power2::pow2;
use rand::rngs::StdRng;
use rand::Rng;
use crate::grid::{
    build_grid,
    cells_folded,
    detail_allowed,
    fold_cells,
    is_square,
    lemma_squares_equal,
    map_cells,
    rows_of,
    side_for_detail,
    TerrainError,
};

verus! {

/// `rand::rngs::StdRng`, the random source that the seed of a noise field is
/// drawn from. Nothing is known of its state.
#[verifier::external_type_specification]
#[verifier::external_body]
pub struct ExStdRng(StdRng);

/// The kind of noise field.
#[derive(Clone, Copy, Debug, PartialEq, Eq, Structural)]
pub enum NoiseType {
    Perlin,
    Worley,
    Simplex,
}

/// A noise field before it is built: its kind and the seed it is built with.
#[derive(Clone, Copy, Debug, PartialEq, Eq, Structural)]
pub struct NoiseField {
    pub kind: NoiseType,
    pub seed: u32,
}

/// The number of seeds that a noise field is drawn from.
pub const SEED_COUNT: u32 = 100;

/// Calls `Rng::gen_range` of rand on the half-open range from `low` to `high`.
/// For a range that is not empty rand returns a number of the range, so the
/// contract claims that the number drawn is at least `low` and below `high`;
/// which one it is depends on the state of the source.
#[verifier::external_body]
fn draw_between(rng: &mut StdRng, low: u32, high: u32) -> (drawn: u32)
    requires
        low < high,
    ensures
        low <= drawn < high,
{
    rng.gen_range(low..high)
}

/// Draws the seed of a noise field of kind `noise_type`.
pub fn seed_noise_field(noise_type: NoiseType, rng: &mut StdRng) -> (field: NoiseField)
    ensures
        field.kind == noise_type,
        field.seed < SEED_COUNT,
{
    NoiseField { kind: noise_type, seed: draw_between(rng, 0, SEED_COUNT) }
}

/// `out` is a grid of side `size` composed from the noise field `field`: the
/// field is built by `prepare`; every cell is sampled from it by `sample`, at
/// its column and its row; `extremes` finds the least and the greatest sample
/// of the whole grid; and every sample is remapped by `remap`, which receives
/// the sample and those two.
pub open spec fn noise_composed<
    G,
    T,
    P: Fn(NoiseField) -> G,
    S: Fn(&G, usize, usize) -> T,
    E: Fn(&Vec<Vec<T>>) -> (T, T),
    R: Fn(T, T, T) -> T,
>(prepare: P, sample: S, extremes: E, remap: R, field: NoiseField, size: usize, out: Seq<Seq<T>>) -> bool {
    exists|generator: G, raw: Vec<Vec<T>>, low: T, high: T|
        {
            &&& call_ensures(prepare, (field,), generator)
            &&& is_square(rows_of(raw@), size as nat)
            &&& forall|row: int, col: int|
                0 <= row < size && 0 <= col < size ==> call_ensures(
                    sample,
                    (&generator, col as usize, row as usize),
                    #[trigger] rows_of(raw@)[row][col],
                )
            &&& call_ensures(extremes, (&raw,), (low, high))
            &&& is_square(out, size as nat)
            &&& forall|row: int, col: int|
                0 <= row < size && 0 <= col < size ==> call_ensures(
                    remap,
                    (rows_of(raw@)[row][col], low, high),
                    #[trigger] out[row][col],
                )
        }
}

/// Composes a grid of side `2^n` from the noise field `field`.
///
/// `prepare` builds the field, once. `sample` is called for every cell, row by
/// row, with the field, the cell's column and the cell's row; it is meant to
/// sum the octaves of the field at that point. `extremes` then receives the
/// whole grid of samples and returns its least and its greatest sample, and
/// `remap` maps every sample, given those two, into the range of the heights.
///
/// The exponent is refused if it is zero or the grid would have more cells
/// than a `usize` can count.
pub fn noise_terrain_seeded<
    G,
    T: Copy,
    P: Fn(NoiseField) -> G,
    S: Fn(&G, usize, usize) -> T,
    E: Fn(&Vec<Vec<T>>) -> (T, T),
    R: Fn(T, T, T) -> T,
>(n: u32, field: NoiseField, prepare: P, sample: S, extremes: E, remap: R) -> (result: Result<
    Vec<Vec<T>>,
    TerrainError,
>)
    requires
        call_requires(prepare, (field,)),
        forall|generator: G, x: usize, y: usize| call_requires(sample, (&generator, x, y)),
        forall|raw: Vec<Vec<T>>| call_requires(extremes, (&raw,)),
        forall|value: T, low: T, high: T| call_requires(remap, (value, low, high)),
    ensures
        result is Ok <==> detail_allowed(n as nat, 0),
        result matches Err(e) ==> e == TerrainError::InvalidDetailLevel,
        result matches Ok(grid) ==> noise_composed(
            prepare,
            sample,
            extremes,
            remap,
            field,
            pow2(n as nat) as usize,
            rows_of(grid@),
        ),
{
    let size = match side_for_detail(n, 0) {
        Some(size) => size,
        None => {
            return Err(TerrainError::InvalidDetailLevel);
        },
    };
    let generator = prepare(field);
    let source = &generator;
    let sampler = &sample;
    let at = |row: usize, col: usize| -> (value: T)
        ensures
            call_ensures(*sampler, (source, col, row), value),
        { sampler(source, col, row) };
    let raw = build_grid(size, at);
    let (low, high) = extremes(&raw);
    let mapper = &remap;
    let op = |_row: usize, _col: usize, value: T| -> (out: T)
        ensures
            call_ensures(*mapper, (value, low, high), out),
        { mapper(value, low, high) };
    let grid = map_cells(&raw, op);
    proof {
        let before = rows_of(raw@);
        let after = rows_of(grid@);
        assert forall|i: int| 0 <= i < size implies (#[trigger] after[i]).len() == size by {
            assert(before[i].len() == size);
        }
        assert(call_ensures(prepare, (field,), generator));
        assert(call_ensures(extremes, (&raw,), (low, high)));
    }
    Ok(grid)
}

/// Composes a grid of side `2^n` from a noise field of kind `noise_type`,
/// whose seed is drawn from `rng`: the result is one of
/// `noise_terrain_seeded` for a seed below `SEED_COUNT`.
pub fn noise_terrain<
    G,
    T: Copy,
    P: Fn(NoiseField) -> G,
    S: Fn(&G, usize, usize) -> T,
    E: Fn(&Vec<Vec<T>>) -> (T, T),
    R: Fn(T, T, T) -> T,
>(n: u32, noise_type: NoiseType, rng: &mut StdRng, prepare: P, sample: S, extremes: E, remap: R) -> (result:
    Result<Vec<Vec<T>>, TerrainError>)
    requires
        forall|field: NoiseField| call_requires(prepare, (field,)),
        forall|generator: G, x: usize, y: usize| call_requires(sample, (&generator, x, y)),
        forall|raw: Vec<Vec<T>>| call_requires(extremes, (&raw,)),
        forall|value: T, low: T, high: T| call_requires(remap, (value, low, high)),
    ensures
        result is Ok <==> detail_allowed(n as nat, 0),
        result matches Err(e) ==> e == TerrainError::InvalidDetailLevel,
        result matches Ok(grid) ==> exists|seed: u32|
            seed < SEED_COUNT && #[trigger] noise_composed(
                prepare,
                sample,
                extremes,
                remap,
                NoiseField { kind: noise_type, seed },
                pow2(n as nat) as usize,
                rows_of(grid@),
            ),
{
    let field = seed_noise_field(noise_type, rng);
    match noise_terrain_seeded(n, field, prepare, sample, extremes, remap) {
        Ok(grid) => {
            proof {
                assert(noise_composed(
                    prepare,
                    sample,
                    extremes,
                    remap,
                    NoiseField { kind: noise_type, seed: field.seed },
                    pow2(n as nat) as usize,
                    rows_of(grid@),
                ));
            }
            Ok(grid)
        },
        Err(e) => Err(e),
    }
}

/// `prepare` builds one field for each kind and seed.
pub open spec fn prepare_determined<G, P: Fn(NoiseField) -> G>(prepare: P) -> bool {
    forall|field: NoiseField, a: G, b: G|
        #![trigger call_ensures(prepare, (field,), a), call_ensures(prepare, (field,), b)]
        call_ensures(prepare, (field,), a) && call_ensures(prepare, (field,), b) ==> a == b
}

/// `sample` gives one value for each field and point.
pub open spec fn sample_determined<G, T, S: Fn(&G, usize, usize) -> T>(sample: S) -> bool {
    forall|generator: G, x: usize, y: usize, a: T, b: T|
        #![trigger call_ensures(sample, (&generator, x, y), a), call_ensures(sample, (&generator, x, y), b)]
        call_ensures(sample, (&generator, x, y), a) && call_ensures(sample, (&generator, x, y), b) ==> a == b
}

/// `extremes` gives one pair of values for each grid of samples.
pub open spec fn extremes_determined<T, E: Fn(&Vec<Vec<T>>) -> (T, T)>(extremes: E) -> bool {
    forall|raw: Vec<Vec<T>>, other: Vec<Vec<T>>, a: (T, T), b: (T, T)|
        #![trigger call_ensures(extremes, (&raw,), a), call_ensures(extremes, (&other,), b)]
        rows_of(raw@) == rows_of(other@) && call_ensures(extremes, (&raw,), a) && call_ensures(
            extremes,
            (&other,),
            b,
        ) ==> a == b
}

/// `remap` gives one height for each sample and pair of extremes.
pub open spec fn remap_determined<T, R: Fn(T, T, T) -> T>(remap: R) -> bool {
    forall|value: T, low: T, high: T, a: T, b: T|
        #![trigger call_ensures(remap, (value, low, high), a), call_ensures(remap, (value, low, high), b)]
        call_ensures(remap, (value, low, high), a) && call_ensures(remap, (value, low, high), b) ==> a == b
}

/// The compositor has one result for each field: where every function handed
/// in gives one result for each input, two grids composed from the same kind
/// and seed are the same grid.
pub proof fn lemma_noise_determined<
    G,
    T,
    P: Fn(NoiseField) -> G,
    S: Fn(&G, usize, usize) -> T,
    E: Fn(&Vec<Vec<T>>) -> (T, T),
    R: Fn(T, T, T) -> T,
>(
    prepare: P,
    sample: S,
    extremes: E,
    remap: R,
    field: NoiseField,
    size: usize,
    first: Seq<Seq<T>>,
    second: Seq<Seq<T>>,
)
    requires
        noise_composed(prepare, sample, extremes, remap, field, size, first),
        noise_composed(prepare, sample, extremes, remap, field, size, second),
        prepare_determined(prepare),
        sample_determined(sample),
        extremes_determined(extremes),
        remap_determined(remap),
    ensures
        first == second,
{
    let (generator, raw, low, high) = choose|generator: G, raw: Vec<Vec<T>>, low: T, high: T|
        {
            &&& call_ensures(prepare, (field,), generator)
            &&& is_square(rows_of(raw@), size as nat)
            &&& forall|row: int, col: int|
                0 <= row < size && 0 <= col < size ==> call_ensures(
                    sample,
                    (&generator, col as usize, row as usize),
                    #[trigger] rows_of(raw@)[row][col],
                )
            &&& call_ensures(extremes, (&raw,), (low, high))
            &&& is_square(first, size as nat)
            &&& forall|row: int, col: int|
                0 <= row < size && 0 <= col < size ==> call_ensures(
                    remap,
                    (rows_of(raw@)[row][col], low, high),
                    #[trigger] first[row][col],
                )
        };
    let (generator2, raw2, low2, high2) = choose|generator2: G, raw2: Vec<Vec<T>>, low2: T, high2: T|
        {
            &&& call_ensures(prepare, (field,), generator2)
            &&& is_square(rows_of(raw2@), size as nat)
            &&& forall|row: int, col: int|
                0 <= row < size && 0 <= col < size ==> call_ensures(
                    sample,
                    (&generator2, col as usize, row as usize),
                    #[trigger] rows_of(raw2@)[row][col],
                )
            &&& call_ensures(extremes, (&raw2,), (low2, high2))
            &&& is_square(second, size as nat)
            &&& forall|row: int, col: int|
                0 <= row < size && 0 <= col < size ==> call_ensures(
                    remap,
                    (rows_of(raw2@)[row][col], low2, high2),
                    #[trigger] second[row][col],
                )
        };
    assert(generator == generator2);
    let samples = rows_of(raw@);
    let samples2 = rows_of(raw2@);
    assert forall|row: int, col: int| 0 <= row < size && 0 <= col < size implies #[trigger] samples[row][col]
        == samples2[row][col] by {
        assert(call_ensures(sample, (&generator, col as usize, row as usize), samples[row][col]));
        assert(call_ensures(sample, (&generator, col as usize, row as usize), samples2[row][col]));
    }
    lemma_squares_equal(samples, samples2, size as nat);
    assert((low, high) == (low2, high2));
    assert forall|row: int, col: int| 0 <= row < size && 0 <= col < size implies #[trigger] first[row][col]
        == second[row][col] by {
        assert(call_ensures(remap, (samples[row][col], low, high), first[row][col]));
        assert(call_ensures(remap, (samples[row][col], low, high), second[row][col]));
    }
    lemma_squares_equal(first, second, size as nat);
}

/// `sum` is what the octaves of a point add up to: `octave` is applied `count`
/// times, for the octaves 0, 1, ... in turn, each time to the running sum that
/// the octave before it returned, starting from `start`.
pub open spec fn octaves_summed<G, A, O: Fn(&G, usize, usize, u32, A) -> A>(
    octave: O,
    generator: G,
    x: usize,
    y: usize,
    count: u32,
    start: A,
    sum: A,
) -> bool {
    exists|partial: Seq<A>|
        {
            &&& partial.len() == count + 1
            &&& partial[0] == start
            &&& partial.last() == sum
            &&& forall|o: int|
                0 <= o < count ==> call_ensures(
                    octave,
                    (&generator, x, y, o as u32, #[trigger] partial[o]),
                    partial[o + 1],
                )
        }
}

/// Accumulates the octaves of the noise field at the point `x`, `y`.
///
/// `octave` is called `count` times, with the field, the point, the number of
/// the octave from 0 on and the running sum, which starts as `start`; it
/// returns the next running sum. It is meant to add the sample of the field
/// at the octave's frequency, weighted by the octave's amplitude, and to carry
/// frequency and amplitude on to the next octave.
pub fn sample_octaves<G, A, O: Fn(&G, usize, usize, u32, A) -> A>(
    generator: &G,
    x: usize,
    y: usize,
    count: u32,
    start: A,
    octave: &O,
) -> (sum: A)
    requires
        forall|o: u32, running: A| call_requires(*octave, (generator, x, y, o, running)),
    ensures
        octaves_summed(*octave, *generator, x, y, count, start, sum),
{
    let mut running = start;
    let ghost mut partial: Seq<A> = seq![start];
    let mut o: u32 = 0;
    while o < count
        invariant
            o <= count,
            forall|o: u32, running: A| call_requires(*octave, (generator, x, y, o, running)),
            partial.len() == o + 1,
            partial[0] == start,
            partial.last() == running,
            forall|k: int|
                0 <= k < o ==> call_ensures(*octave, (generator, x, y, k as u32, #[trigger] partial[k]), partial[k + 1]),
        decreases count - o,
    {
        let ghost earlier = partial;
        let next = octave(generator, x, y, o, running);
        proof {
            partial = earlier.push(next);
            assert forall|k: int| 0 <= k < o + 1 implies call_ensures(
                *octave,
                (generator, x, y, k as u32, #[trigger] partial[k]),
                partial[k + 1],
            ) by {
                if k < o {
                    assert(partial[k] == earlier[k]);
                    assert(partial[k + 1] == earlier[k + 1]);
                }
            }
        }
        running = next;
        o = o + 1;
    }
    running
}

/// Finds the extremes of a square grid of samples: the cells are folded, row
/// by row, into `low_start` by `lower` and into `high_start` by `higher`.
/// `lower` and `higher` are meant to return the lesser and the greater of
/// their two arguments.
pub fn grid_extremes<T: Copy, L: Fn(T, T) -> T, H: Fn(T, T) -> T>(
    grid: &Vec<Vec<T>>,
    low_start: T,
    high_start: T,
    lower: L,
    higher: H,
) -> (extremes: (T, T))
    requires
        is_square(rows_of(grid@), grid@.len()),
        forall|running: T, cell: T| call_requires(lower, (running, cell)),
        forall|running: T, cell: T| call_requires(higher, (running, cell)),
    ensures
        cells_folded(lower, grid@.len() as usize, low_start, rows_of(grid@), extremes.0),
        cells_folded(higher, grid@.len() as usize, high_start, rows_of(grid@), extremes.1),
{
    let size = grid.len();
    let low = fold_cells(grid, size, low_start, &lower);
    let high = fold_cells(grid, size, high_start, &higher);
    (low, high)
}

} // verus!
