//! Random draws, and holding a number to a range.

use crate::double::{
    at_most, has_sign, is_nan, lemma_pow2_increases, lemma_pow2_values, less, lt, pow2, size,
    value, Double, FRACTIONS, ONE, ZERO,
};
use rand::Rng;
use vstd::prelude::*;

verus! {

/// How many draws from the unit interval there are, all equally likely: two
/// to the power 53.
pub const DRAWS: u64 = 0x20_0000_0000_0000;

/// Sixty-four random bits: what `rand::Rng::gen` hands out of the generator
/// that `rand::thread_rng` gives. Nothing is claimed of them.
#[verifier::external_body]
fn random_bits() -> (bits: u64) {
    let mut rng = rand::thread_rng();
    rng.gen()
}

/// Multiplying by a power of two and by two is multiplying by the next
/// power.
proof fn lemma_pow2_step(m: int, e: nat)
    ensures
        m * pow2(e + 1) == (2 * m) * pow2(e),
{
    assert(pow2(e + 1) == 2 * pow2(e));
    assert(m * (2 * pow2(e)) == (2 * m) * pow2(e)) by (nonlinear_arith);
}

/// The double that is `n` over `DRAWS`. Every such quotient is a double.
pub fn unit_fraction(n: u64) -> (x: Double)
    requires
        n < DRAWS,
    ensures
        !is_nan(x),
        !has_sign(x),
        value(x) == n * pow2(1021),
        at_most(ZERO, x),
        less(x, ONE),
{
    proof {
        reveal(size);
        lemma_pow2_values();
        lemma_pow2_increases(0, 1021);
        assert(pow2(1022) == 2 * pow2(1021));
        let unit = pow2(1021);
        assert(value(ONE) == FRACTIONS * pow2(1022));
        assert(n * unit < FRACTIONS * (2 * unit)) by (nonlinear_arith)
            requires
                n < 2 * FRACTIONS,
                unit >= 1,
        ;
        assert(0 <= n * unit) by (nonlinear_arith)
            requires
                unit >= 1,
        ;
        assert(value(ZERO) == 0);
    }
    if n == 0 {
        assert(0 * pow2(1021) == 0);
        return 0;
    }
    let mut m = n;
    let mut e: u64 = 1022;
    let ghost mut k: nat = 0;
    while m < FRACTIONS
        invariant
            0 < m < 2 * FRACTIONS,
            e + k == 1022,
            k <= 52,
            m * pow2((e - 1) as nat) == n * pow2(1021),
            m >= pow2(k),
            pow2(52) == FRACTIONS,
        decreases 2 * FRACTIONS - m,
    {
        proof {
            if k == 52 {
                assert(false);
            }
            lemma_pow2_step(m as int, (e - 2) as nat);
            assert(pow2(k + 1) == 2 * pow2(k));
            k = k + 1;
        }
        m = m * 2;
        e = e - 1;
    }
    let x = e * FRACTIONS + (m - FRACTIONS);
    proof {
        reveal(size);
        let fraction = (m - FRACTIONS) as int;
        assert(x as int / FRACTIONS as int == e && x as int % FRACTIONS as int == fraction)
            by (nonlinear_arith)
            requires
                x == e * FRACTIONS + fraction,
                0 <= fraction < FRACTIONS,
                FRACTIONS > 0,
        ;
        assert(x < 0x8000_0000_0000_0000);
    }
    x
}

/// A uniform draw from the unit interval, 1 left out.
pub fn random_double() -> (x: Double)
    ensures
        at_most(ZERO, x),
        less(x, ONE),
{
    let bits = random_bits();
    let n = bits >> 11;
    assert(bits >> 11 < 0x20_0000_0000_0000u64) by (bit_vector);
    unit_fraction(n)
}

/// `x` held to the range from `min` to `max`: `min` where `x` is less,
/// `max` where `x` is more, else `x` itself.
pub open spec fn clamped(x: Double, min: Double, max: Double) -> Double {
    if less(x, min) {
        min
    } else if less(max, x) {
        max
    } else {
        x
    }
}

/// Holds `x` to the range from `min` to `max`.
pub fn clamp(x: Double, min: Double, max: Double) -> (r: Double)
    ensures
        r == clamped(x, min, max),
{
    if lt(x, min) {
        return min;
    }
    if lt(max, x) {
        return max;
    }
    x
}

/// A number held to a range lies in the range, where the range has numbers
/// for its ends and the lower end is not above the upper.
pub proof fn lemma_clamped_in_range(x: Double, min: Double, max: Double)
    requires
        !is_nan(x),
        at_most(min, max),
    ensures
        at_most(min, clamped(x, min, max)),
        at_most(clamped(x, min, max), max),
{
}

} // verus!
