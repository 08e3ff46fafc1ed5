//! Powers of two, and the permutation of a sequence by bit reversal of its
//! indices.

use vstd::prelude::*;
use vstd::arithmetic::logarithm::{lemma_log_pow, log};
use vstd::arithmetic::power2::{
    lemma_pow2,
    lemma_pow2_adds,
    lemma_pow2_pos,
    lemma_pow2_strictly_increases,
    lemma_pow2_unfold,
    pow2,
};

verus! {

/// The exponent `e` with `2^e == len`, where `len` is a power of two.
pub open spec fn exponent_of(len: nat) -> nat {
    log(2, len as int) as nat
}

/// `len` is a power of two.
pub open spec fn is_power_of_two(len: nat) -> bool {
    len == pow2(exponent_of(len))
}

/// The exponent of a power of two is the one it was raised to.
pub proof fn lemma_exponent_of_pow2(e: nat)
    ensures
        exponent_of(pow2(e)) == e,
        is_power_of_two(pow2(e)),
{
    lemma_pow2(e);
    lemma_log_pow(2, e);
}

/// Powers of two grow with their exponent.
pub proof fn lemma_pow2_increases(a: nat, b: nat)
    requires
        a <= b,
    ensures
        pow2(a) <= pow2(b),
{
    if a < b {
        lemma_pow2_strictly_increases(a, b);
    }
}

/// Finds the exponent of `len` if `len` is a power of two.
pub fn power_exponent(len: usize) -> (bits: Option<u32>)
    ensures
        bits is Some <==> is_power_of_two(len as nat),
        bits matches Some(b) ==> b == exponent_of(len as nat) && len == pow2(b as nat),
{
    let ghost e = exponent_of(len as nat);
    proof {
        lemma_pow2_pos(e);
        vstd::arithmetic::power2::lemma2_to64();
    }
    if len == 0 {
        return None;
    }
    let mut power: usize = 1;
    let mut b: u32 = 0;
    while power < len
        invariant
            e == exponent_of(len as nat),
            power == pow2(b as nat),
            1 <= power <= len,
            b < 64,
        decreases len - power,
    {
        proof {
            lemma_pow2_unfold((b + 1) as nat);
            if e <= b {
                lemma_pow2_increases(e, b as nat);
            } else {
                lemma_pow2_increases((b + 1) as nat, e);
            }
        }
        if power > len / 2 || power * 2 > len {
            return None;
        }
        proof {
            if b + 1 >= 64 {
                vstd::arithmetic::power2::lemma2_to64_rest();
                lemma_pow2_increases(64, (b + 1) as nat);
            }
        }
        power = power * 2;
        b = b + 1;
    }
    proof {
        lemma_exponent_of_pow2(b as nat);
    }
    Some(b)
}

/// The number whose `bits` binary digits are those of `x` in reverse order.
pub open spec fn bit_reversed(x: nat, bits: nat) -> nat
    decreases bits,
{
    if bits == 0 {
        0
    } else {
        (x % 2) * pow2((bits - 1) as nat) + bit_reversed(x / 2, (bits - 1) as nat)
    }
}

/// A number of `bits` digits, reversed, has `bits` digits.
pub proof fn lemma_bit_reversed_bound(x: nat, bits: nat)
    ensures
        bit_reversed(x, bits) < pow2(bits),
    decreases bits,
{
    if bits == 0 {
        lemma_pow2_pos(0);
    } else {
        lemma_bit_reversed_bound(x / 2, (bits - 1) as nat);
        lemma_pow2_unfold(bits);
        let half = pow2((bits - 1) as nat);
        assert((x % 2) * half <= half) by (nonlinear_arith)
            requires
                x % 2 <= 1,
        ;
    }
}

/// Reverses the `bits` binary digits of `x`.
pub fn reverse_bits(x: usize, bits: u32) -> (reversed: usize)
    requires
        pow2(bits as nat) <= usize::MAX,
    ensures
        reversed == bit_reversed(x as nat, bits as nat),
        reversed < pow2(bits as nat),
{
    let mut reversed: usize = 0;
    let mut rest: usize = x;
    let mut done: u32 = 0;
    proof {
        lemma_pow2_pos(0);
        vstd::arithmetic::power2::lemma2_to64();
        assert(0 * pow2(bits as nat) == 0) by (nonlinear_arith);
    }
    while done < bits
        invariant
            done <= bits,
            pow2(bits as nat) <= usize::MAX,
            reversed < pow2(done as nat),
            bit_reversed(x as nat, bits as nat) == reversed * pow2((bits - done) as nat) + bit_reversed(
                rest as nat,
                (bits - done) as nat,
            ),
        decreases bits - done,
    {
        let digit: usize = rest % 2;
        proof {
            let left = (bits - done) as nat;
            let high = pow2(left);
            let low = pow2((left - 1) as nat);
            lemma_pow2_unfold(left);
            lemma_pow2_unfold((done + 1) as nat);
            lemma_pow2_increases((done + 1) as nat, bits as nat);
            assert(reversed * high + digit * low == (2 * reversed + digit) * low) by (nonlinear_arith)
                requires
                    high == 2 * low,
            ;
        }
        reversed = 2 * reversed + digit;
        rest = rest / 2;
        done = done + 1;
    }
    proof {
        assert(reversed * pow2(0) == reversed) by (nonlinear_arith)
            requires
                pow2(0) == 1,
        ;
    }
    reversed
}

/// `items` permuted by bit reversal: the item at index `j` is the one that
/// `items` holds at the index with the binary digits of `j` reversed.
pub open spec fn bit_reversal<T>(items: Seq<T>) -> Seq<T> {
    Seq::new(items.len(), |j: int| items[bit_reversed(j as nat, exponent_of(items.len())) as int])
}

/// Permutes the items of `vec` by bit reversal of their indices. The length
/// of `vec` is a power of two, or zero.
pub fn bit_reverse_permute<T: Copy>(vec: &mut Vec<T>)
    requires
        old(vec)@.len() == 0 || is_power_of_two(old(vec)@.len()),
    ensures
        final(vec)@ == bit_reversal(old(vec)@),
{
    let len = vec.len();
    let bits = match power_exponent(len) {
        Some(bits) => bits,
        None => {
            assert(vec@ =~= bit_reversal(vec@));
            return ;
        },
    };
    let mut out: Vec<T> = Vec::new();
    let mut j: usize = 0;
    while j < len
        invariant
            j <= len,
            len == vec@.len(),
            len == pow2(bits as nat),
            bits == exponent_of(len as nat),
            out@.len() == j,
            forall|k: int| 0 <= k < j ==> out@[k] == bit_reversal(vec@)[k],
        decreases len - j,
    {
        let from = reverse_bits(j, bits);
        out.push(vec[from]);
        j += 1;
    }
    assert(out@ =~= bit_reversal(vec@));
    *vec = out;
}

/// Reversing the digits of a number written in two parts reverses each part
/// and swaps the two: with `low` of `k` digits below `high` of `m` digits, the
/// reversal has the reversed `low` above the reversed `high`.
proof fn lemma_bit_reversed_parts(low: nat, k: nat, high: nat, m: nat)
    requires
        low < pow2(k),
    ensures
        bit_reversed(high * pow2(k) + low, k + m) == bit_reversed(low, k) * pow2(m) + bit_reversed(high, m),
    decreases k,
{
    if k == 0 {
        lemma_pow2_pos(0);
        vstd::arithmetic::power2::lemma2_to64();
        assert(high * pow2(0) + low == high && 0 * pow2(m) == 0) by (nonlinear_arith)
            requires
                pow2(0) == 1,
                low == 0,
        ;
        assert(bit_reversed(low, 0) == 0);
    } else {
        let whole = high * pow2(k) + low;
        let below = pow2((k - 1) as nat);
        lemma_pow2_unfold(k);
        lemma_pow2_pos((k - 1) as nat);
        assert(whole == 2 * (high * below + low / 2) + low % 2) by (nonlinear_arith)
            requires
                whole == high * (2 * below) + low,
        ;
        assert(whole % 2 == low % 2 && whole / 2 == high * below + low / 2);
        lemma_bit_reversed_parts(low / 2, (k - 1) as nat, high, m);
        let top = pow2((k + m - 1) as nat);
        lemma_pow2_adds((k - 1) as nat, m);
        assert(((low % 2) * below + bit_reversed(low / 2, (k - 1) as nat)) * pow2(m) == (low % 2) * top
            + bit_reversed(low / 2, (k - 1) as nat) * pow2(m)) by (nonlinear_arith)
            requires
                top == below * pow2(m),
        ;
    }
}

/// Reversing the digits twice gives the number back: bit reversal permutes the
/// indices of a sequence in pairs, and applied twice it leaves every item in
/// its place.
pub proof fn lemma_bit_reversed_twice(x: nat, bits: nat)
    requires
        x < pow2(bits),
    ensures
        bit_reversed(bit_reversed(x, bits), bits) == x,
    decreases bits,
{
    vstd::arithmetic::power2::lemma2_to64();
    if bits > 0 {
        let rest = (bits - 1) as nat;
        let digit = x % 2;
        let inner = bit_reversed(x / 2, rest);
        let once = bit_reversed(x, bits);
        lemma_pow2_unfold(bits);
        lemma_bit_reversed_bound(x / 2, rest);
        lemma_bit_reversed_twice(x / 2, rest);
        assert(once == digit * pow2(rest) + inner);
        lemma_bit_reversed_parts(inner, rest, digit, 1);
        assert(bit_reversed(digit, 1) == digit) by {
            assert(bit_reversed(digit / 2, 0) == 0);
            assert((digit % 2) * pow2(0) == digit) by (nonlinear_arith)
                requires
                    pow2(0) == 1,
                    digit < 2,
            ;
        }
        assert(bit_reversed(once, rest + 1) == (x / 2) * pow2(1) + digit);
        assert((x / 2) * pow2(1) + digit == x) by (nonlinear_arith)
            requires
                pow2(1) == 2,
                digit == x % 2,
        ;
    }
}

/// Permuting a sequence by bit reversal twice gives the sequence back.
pub proof fn lemma_bit_reversal_twice<T>(items: Seq<T>)
    requires
        is_power_of_two(items.len()),
    ensures
        bit_reversal(bit_reversal(items)) == items,
{
    let bits = exponent_of(items.len());
    let twice = bit_reversal(bit_reversal(items));
    assert forall|j: int| 0 <= j < items.len() implies twice[j] == items[j] by {
        lemma_bit_reversed_bound(j as nat, bits);
        lemma_bit_reversed_twice(j as nat, bits);
    }
    assert(twice =~= items);
}

} // verus!
