//! Residues of grid coordinates modulo a gap, and how they move when a
//! coordinate is shifted by half a gap or by a whole one.

use vstd::prelude::*;
use vstd::arithmetic::div_mod::{lemma_fundamental_div_mod, lemma_fundamental_div_mod_converse, lemma_mod_bound};
use vstd::arithmetic::power2::{lemma_pow2_adds, lemma_pow2_pos, pow2};

verus! {

/// A number that is `q` gaps and a remainder `r` has residue `r` and
/// quotient `q`.
pub proof fn lemma_residue(x: int, g: int, q: int, r: int)
    requires
        g > 0,
        0 <= r < g,
        x == q * g + r,
    ensures
        x % g == r,
        x / g == q,
{
    lemma_fundamental_div_mod_converse(x, g, q, r);
}

/// Shifting a number by `d` shifts its residue by `d`, wrapping once at most.
pub proof fn lemma_mod_shift(x: int, g: int, d: int)
    requires
        g > 0,
    ensures
        0 <= x % g + d < g ==> (x + d) % g == x % g + d,
        g <= x % g + d < 2 * g ==> (x + d) % g == x % g + d - g,
        -g <= x % g + d < 0 ==> (x + d) % g == x % g + d + g,
{
    let q = x / g;
    let r = x % g;
    lemma_fundamental_div_mod(x, g);
    lemma_mod_bound(x, g);
    assert(x == q * g + r) by (nonlinear_arith)
        requires
            x == g * q + r,
    ;
    if 0 <= r + d < g {
        lemma_residue(x + d, g, q, r + d);
    }
    if g <= r + d < 2 * g {
        assert(x + d == (q + 1) * g + (r + d - g)) by (nonlinear_arith)
            requires
                x == q * g + r,
        ;
        lemma_residue(x + d, g, q + 1, r + d - g);
    }
    if -g <= r + d < 0 {
        assert(x + d == (q - 1) * g + (r + d + g)) by (nonlinear_arith)
            requires
                x == q * g + r,
        ;
        lemma_residue(x + d, g, q - 1, r + d + g);
    }
}

/// Two multiples of `g` that differ are at least `g` apart.
pub proof fn lemma_next_multiple(x: int, y: int, g: int)
    requires
        g > 0,
        x % g == 0,
        y % g == 0,
        x < y,
    ensures
        x + g <= y,
{
    lemma_fundamental_div_mod(x, g);
    lemma_fundamental_div_mod(y, g);
    let p = x / g;
    let q = y / g;
    assert(x + g <= y) by (nonlinear_arith)
        requires
            x == g * p,
            y == g * q,
            x < y,
            g > 0,
    ;
}

/// Two numbers with the same residue that differ are at least `g` apart.
pub proof fn lemma_next_in_class(x: int, y: int, g: int)
    requires
        g > 0,
        x % g == y % g,
        x < y,
    ensures
        x + g <= y,
{
    let r = x % g;
    lemma_mod_bound(x, g);
    lemma_mod_shift(x, g, -r);
    lemma_mod_shift(y, g, -r);
    lemma_next_multiple(x - r, y - r, g);
}

/// A non-negative number with a residue is at least that residue.
pub proof fn lemma_at_least_residue(x: int, g: int)
    requires
        g > 0,
        x >= 0,
    ensures
        x >= x % g,
{
    lemma_fundamental_div_mod(x, g);
    lemma_mod_bound(x, g);
    let q = x / g;
    assert(g * q >= 0) by (nonlinear_arith)
        requires
            x == g * q + x % g,
            x >= 0,
            0 <= x % g < g,
            g > 0,
    ;
}

/// The multiples of half an even gap are the numbers whose residue modulo the
/// gap is zero or half the gap.
pub proof fn lemma_half_lattice(x: int, g: int)
    requires
        g >= 2,
        g % 2 == 0,
    ensures
        x % (g / 2) == 0 <==> (x % g == 0 || x % g == g / 2),
{
    let h = g / 2;
    lemma_fundamental_div_mod(x, g);
    lemma_mod_bound(x, g);
    lemma_fundamental_div_mod(x, h);
    lemma_mod_bound(x, h);
    let q = x / g;
    if x % g == 0 {
        assert(x == (2 * q) * h + 0) by (nonlinear_arith)
            requires
                x == g * q,
                g == 2 * h,
        ;
        lemma_residue(x, h, 2 * q, 0);
    }
    if x % g == h {
        assert(x == (2 * q + 1) * h + 0) by (nonlinear_arith)
            requires
                x == g * q + h,
                g == 2 * h,
        ;
        lemma_residue(x, h, 2 * q + 1, 0);
    }
    if x % h == 0 {
        let k = x / h;
        let m = k / 2;
        if k % 2 == 0 {
            assert(x == m * g + 0) by (nonlinear_arith)
                requires
                    x == h * k,
                    k == 2 * m,
                    g == 2 * h,
            ;
            lemma_residue(x, g, m, 0);
        } else {
            assert(x == m * g + h) by (nonlinear_arith)
                requires
                    x == h * k,
                    k == 2 * m + 1,
                    g == 2 * h,
            ;
            lemma_residue(x, g, m, h);
        }
    }
}

/// A power of two divides every larger power of two.
pub proof fn lemma_pow2_divides(e: nat, n: nat)
    requires
        e <= n,
    ensures
        pow2(n) as int % pow2(e) as int == 0,
{
    lemma_pow2_adds((n - e) as nat, e);
    lemma_pow2_pos(e);
    lemma_residue(pow2(n) as int, pow2(e) as int, pow2((n - e) as nat) as int, 0);
}

/// The square of a number is at most the square of a bound on its distance
/// from zero.
pub proof fn lemma_square_bounded(x: int, bound: int)
    requires
        -bound <= x <= bound,
    ensures
        0 <= x * x <= bound * bound,
{
    assert(0 <= x * x <= bound * bound) by (nonlinear_arith)
        requires
            -bound <= x <= bound,
    ;
}

} // verus!
