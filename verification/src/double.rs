//! Double-precision numbers by their bits.
//!
//! A double is held as the 64 bits of its binary64 form: the sign in the
//! highest bit, the exponent in the eleven bits below it, the fraction in
//! the lowest 52. No double is computed with here. Doubles are told apart
//! from what is no number, compared, and turned about their sign; all of it
//! is exact, and stated of what the bits are worth.

use vstd::prelude::*;

verus! {

/// A double-precision number, by its bits.
pub type Double = u64;

/// The bit that holds the sign.
pub const SIGN: u64 = 0x8000_0000_0000_0000;

/// Positive infinity: the largest exponent and no fraction.
pub const INFINITY: Double = 0x7ff0_0000_0000_0000;

/// How many values the fraction can hold: two to the power 52.
pub const FRACTIONS: u64 = 0x10_0000_0000_0000;

/// Zero, without sign.
pub const ZERO: Double = 0;

/// One.
pub const ONE: Double = 0x3ff0_0000_0000_0000;

/// Two to the power `n`.
pub open spec fn pow2(n: nat) -> nat
    decreases n,
{
    if n == 0 {
        1
    } else {
        2 * pow2((n - 1) as nat)
    }
}

/// The bits below the sign.
pub open spec fn magnitude(bits: Double) -> int {
    bits as int % SIGN as int
}

/// Whether the sign bit is set.
pub open spec fn has_sign(bits: Double) -> bool {
    bits >= SIGN
}

/// Whether the bits are those of no number: the largest exponent with a
/// fraction that is not 0.
pub open spec fn is_nan(bits: Double) -> bool {
    magnitude(bits) > INFINITY
}

/// What a magnitude is worth, in units of two to the power -1074. Below
/// the first exponent the fraction counts the units; from there on a one is
/// put before the fraction, and every further exponent doubles. Infinity
/// stands one doubling above the largest finite double.
#[verifier::opaque]
pub open spec fn size(magnitude: int) -> int {
    let exponent = magnitude / FRACTIONS as int;
    let fraction = magnitude % FRACTIONS as int;
    if exponent == 0 {
        fraction
    } else {
        (FRACTIONS + fraction) * pow2((exponent - 1) as nat)
    }
}

/// What a double is worth, in units of two to the power -1074. Both zeros
/// are worth 0.
pub open spec fn value(bits: Double) -> int {
    if has_sign(bits) {
        -size(magnitude(bits))
    } else {
        size(magnitude(bits))
    }
}

/// Whether `a` is less than `b`: both are numbers, and `a` is worth less.
pub open spec fn less(a: Double, b: Double) -> bool {
    !is_nan(a) && !is_nan(b) && value(a) < value(b)
}

/// Whether `a` is less than `b` or equal to it: both are numbers, and `a`
/// is worth no more.
pub open spec fn at_most(a: Double, b: Double) -> bool {
    !is_nan(a) && !is_nan(b) && value(a) <= value(b)
}

/// The place of a number in the order of all of them: its magnitude, below
/// zero if it has the sign.
pub open spec fn rank(bits: Double) -> int {
    if has_sign(bits) {
        -magnitude(bits)
    } else {
        magnitude(bits)
    }
}

/// Whether a double is one of the two zeros.
pub open spec fn is_zero(bits: Double) -> bool {
    magnitude(bits) == 0
}

/// The lesser of two doubles; the other one, where one of them is no
/// number; the second, where they are worth the same.
pub open spec fn lesser(a: Double, b: Double) -> Double {
    if is_nan(b) || less(a, b) {
        a
    } else {
        b
    }
}

/// The double with the other sign.
pub open spec fn negated(bits: Double) -> Double {
    if has_sign(bits) {
        (bits - SIGN) as Double
    } else {
        (bits + SIGN) as Double
    }
}

/// The double without its sign.
pub open spec fn absolute(bits: Double) -> Double {
    magnitude(bits) as Double
}

/// A larger exponent makes no smaller power.
pub proof fn lemma_pow2_increases(a: nat, b: nat)
    requires
        a <= b,
    ensures
        1 <= pow2(a) <= pow2(b),
    decreases b,
{
    if a < b {
        lemma_pow2_increases(a, (b - 1) as nat);
    } else if a > 0 {
        lemma_pow2_increases((a - 1) as nat, (a - 1) as nat);
    }
}

/// The power of a sum is the product of the powers.
pub proof fn lemma_pow2_adds(a: nat, b: nat)
    ensures
        pow2(a + b) == pow2(a) * pow2(b),
    decreases a,
{
    if a == 0 {
        assert(1 * pow2(b) == pow2(b));
    } else {
        lemma_pow2_adds((a - 1) as nat, b);
        let p = pow2((a - 1) as nat);
        let q = pow2(b);
        assert(pow2(a + b) == 2 * pow2((a - 1 + b) as nat));
        assert(2 * (p * q) == (2 * p) * q) by (nonlinear_arith);
    }
}

/// Some powers of two, written out.
pub proof fn lemma_pow2_values()
    ensures
        pow2(8) == 0x100,
        pow2(45) == 0x2000_0000_0000,
        pow2(52) == FRACTIONS,
        pow2(53) == 2 * FRACTIONS,
        pow2(60) == 0x1000_0000_0000_0000,
{
    assert(pow2(8) == 0x100) by {
        reveal_with_fuel(pow2, 9);
    }
    assert(pow2(15) == 0x8000) by {
        reveal_with_fuel(pow2, 8);
    }
    assert(pow2(30) == 0x4000_0000) by {
        reveal_with_fuel(pow2, 16);
    }
    assert(pow2(45) == 0x2000_0000_0000) by {
        reveal_with_fuel(pow2, 16);
    }
    assert(pow2(52) == 0x10_0000_0000_0000) by {
        reveal_with_fuel(pow2, 8);
    }
    assert(pow2(53) == 2 * pow2(52));
    assert(pow2(60) == 0x1000_0000_0000_0000) by {
        reveal_with_fuel(pow2, 8);
    }
}

/// The exponent and the fraction of a magnitude that is put together from
/// them.
pub proof fn lemma_magnitude_parts(e: int, f: int)
    requires
        0 <= e,
        0 <= f < FRACTIONS,
    ensures
        (e * FRACTIONS + f) / FRACTIONS as int == e,
        (e * FRACTIONS + f) % FRACTIONS as int == f,
{
    let m = e * FRACTIONS + f;
    assert(m / FRACTIONS as int == e && m % FRACTIONS as int == f) by (nonlinear_arith)
        requires
            m == e * FRACTIONS + f,
            0 <= f < FRACTIONS,
            FRACTIONS > 0,
    ;
}

/// What a magnitude of exponent `e`, from 1 on, and of fraction `f` is
/// worth.
pub proof fn lemma_size_by_parts(e: int, f: int)
    requires
        1 <= e,
        0 <= f < FRACTIONS,
    ensures
        size(e * FRACTIONS + f) == (FRACTIONS + f) * pow2((e - 1) as nat),
{
    lemma_magnitude_parts(e, f);
    reveal(size);
}

/// A magnitude is worth less than the first magnitude of the next exponent,
/// and no less than the first of its own.
pub proof fn lemma_size_bounds(m: int)
    requires
        0 <= m,
    ensures
        0 <= size(m) < FRACTIONS * pow2((m / FRACTIONS as int) as nat),
        m / FRACTIONS as int >= 1 ==> size(m) >= FRACTIONS * pow2(
            (m / FRACTIONS as int - 1) as nat,
        ),
        m == 0 ==> size(m) == 0,
{
    reveal(size);
    let exponent = m / FRACTIONS as int;
    let fraction = m % FRACTIONS as int;
    if exponent == 0 {
        assert(pow2(0) == 1);
    } else {
        let p = pow2((exponent - 1) as nat);
        lemma_pow2_increases(0, (exponent - 1) as nat);
        assert(pow2(exponent as nat) == 2 * p);
        assert((FRACTIONS + fraction) * p < FRACTIONS * (2 * p)) by (nonlinear_arith)
            requires
                0 <= fraction < FRACTIONS,
                p >= 1,
        ;
        assert((FRACTIONS + fraction) * p >= FRACTIONS * p) by (nonlinear_arith)
            requires
                0 <= fraction,
                p >= 1,
        ;
    }
}

/// Of two magnitudes the larger is worth more.
pub proof fn lemma_size_increases(a: int, b: int)
    requires
        0 <= a < b,
    ensures
        size(a) < size(b),
{
    let ea = a / FRACTIONS as int;
    let eb = b / FRACTIONS as int;
    let fa = a % FRACTIONS as int;
    let fb = b % FRACTIONS as int;
    assert(ea <= eb);
    if ea == eb {
        reveal(size);
        assert(fa < fb);
        if ea > 0 {
            let p = pow2((ea - 1) as nat);
            lemma_pow2_increases(0, (ea - 1) as nat);
            assert((FRACTIONS + fa) * p < (FRACTIONS + fb) * p) by (nonlinear_arith)
                requires
                    fa < fb,
                    p >= 1,
            ;
        }
    } else {
        lemma_size_bounds(a);
        lemma_size_bounds(b);
        lemma_pow2_increases(ea as nat, (eb - 1) as nat);
        let pa = pow2(ea as nat);
        let pb = pow2((eb - 1) as nat);
        assert(FRACTIONS * pa <= FRACTIONS * pb) by (nonlinear_arith)
            requires
                pa <= pb,
        ;
    }
}

/// Doubles stand in the order of what they are worth: one has the lower
/// rank exactly when it is worth less, and the same rank exactly when it is
/// worth the same.
pub proof fn lemma_rank_orders_as_value(a: Double, b: Double)
    ensures
        rank(a) < rank(b) <==> value(a) < value(b),
        rank(a) == rank(b) <==> value(a) == value(b),
{
    let ma = magnitude(a);
    let mb = magnitude(b);
    lemma_size_bounds(ma);
    lemma_size_bounds(mb);
    lemma_size_bounds(0);
    if ma < mb {
        lemma_size_increases(ma, mb);
    }
    if mb < ma {
        lemma_size_increases(mb, ma);
    }
    if ma > 0 {
        lemma_size_increases(0, ma);
    }
    if mb > 0 {
        lemma_size_increases(0, mb);
    }
}

/// Less is a strict order of the numbers: no number is less than itself;
/// what is less than something less than a third is less than the third;
/// and of two numbers one is less than the other unless they are worth the
/// same.
pub proof fn lemma_less_is_strict_order(a: Double, b: Double, c: Double)
    ensures
        !less(a, a),
        less(a, b) && less(b, c) ==> less(a, c),
        !is_nan(a) && !is_nan(b) ==> less(a, b) || less(b, a) || value(a) == value(b),
        at_most(a, b) <==> less(a, b) || (!is_nan(a) && !is_nan(b) && value(a) == value(b)),
{
}

/// Two numbers are worth the same only where they have the same bits, or
/// are the two zeros.
pub proof fn lemma_same_value_same_bits(a: Double, b: Double)
    requires
        !is_nan(a),
        !is_nan(b),
        value(a) == value(b),
    ensures
        a == b || (magnitude(a) == 0 && magnitude(b) == 0),
{
    lemma_rank_orders_as_value(a, b);
}

/// The zeros are the doubles that are worth nothing.
pub proof fn lemma_zero_is_worth_nothing(bits: Double)
    ensures
        is_zero(bits) <==> !is_nan(bits) && value(bits) == 0,
{
    lemma_rank_orders_as_value(bits, ZERO);
    lemma_size_bounds(0);
}

/// The lesser of two numbers is one of them, and is worth no more than
/// either.
pub proof fn lemma_lesser_is_least(a: Double, b: Double)
    requires
        !is_nan(a),
        !is_nan(b),
    ensures
        lesser(a, b) == a || lesser(a, b) == b,
        at_most(lesser(a, b), a),
        at_most(lesser(a, b), b),
{
}

/// The double with the other sign is worth the same below or above zero,
/// and is a number exactly when the double is.
pub proof fn lemma_negated(bits: Double)
    ensures
        value(negated(bits)) == -value(bits),
        is_nan(negated(bits)) == is_nan(bits),
        negated(negated(bits)) == bits,
{
}

/// The double without its sign is worth the same above zero, and is a
/// number exactly when the double is.
pub proof fn lemma_absolute(bits: Double)
    ensures
        value(absolute(bits)) == if value(bits) < 0 {
            -value(bits)
        } else {
            value(bits)
        },
        is_nan(absolute(bits)) == is_nan(bits),
{
    lemma_size_bounds(magnitude(bits));
}

/// The bits of `bits` below the sign.
fn below_sign(bits: Double) -> (m: u64)
    ensures
        m == magnitude(bits),
{
    let m = bits & 0x7fff_ffff_ffff_ffff;
    assert(m == bits % 0x8000_0000_0000_0000) by (bit_vector)
        requires
            m == bits & 0x7fff_ffff_ffff_ffff,
    ;
    m
}

/// Tests whether the bits are those of no number.
pub fn nan(bits: Double) -> (r: bool)
    ensures
        r == is_nan(bits),
{
    below_sign(bits) > INFINITY
}

/// The rank of a double.
fn rank_of(bits: Double) -> (r: i64)
    ensures
        r == rank(bits),
{
    let m = below_sign(bits);
    if bits >= SIGN {
        -(m as i64)
    } else {
        m as i64
    }
}

/// Tests whether `a` is less than `b`. Nothing is less than what is no
/// number, nor is that less than anything.
pub fn lt(a: Double, b: Double) -> (r: bool)
    ensures
        r == less(a, b),
{
    proof {
        lemma_rank_orders_as_value(a, b);
    }
    !nan(a) && !nan(b) && rank_of(a) < rank_of(b)
}

/// Tests whether `a` is less than `b` or equal to it.
pub fn le(a: Double, b: Double) -> (r: bool)
    ensures
        r == at_most(a, b),
{
    proof {
        lemma_rank_orders_as_value(a, b);
    }
    !nan(a) && !nan(b) && rank_of(a) <= rank_of(b)
}

/// Tests whether a double is one of the two zeros.
pub fn zero(bits: Double) -> (r: bool)
    ensures
        r == is_zero(bits),
{
    below_sign(bits) == 0
}

/// The lesser of two doubles; the other one, where one of them is no
/// number.
pub fn min(a: Double, b: Double) -> (r: Double)
    ensures
        r == lesser(a, b),
{
    if nan(b) || lt(a, b) {
        a
    } else {
        b
    }
}

/// The double with the other sign.
pub fn neg(bits: Double) -> (r: Double)
    ensures
        r == negated(bits),
{
    if bits >= SIGN {
        bits - SIGN
    } else {
        bits + SIGN
    }
}

/// The double without its sign.
pub fn abs(bits: Double) -> (r: Double)
    ensures
        r == absolute(bits),
{
    below_sign(bits)
}

} // verus!
