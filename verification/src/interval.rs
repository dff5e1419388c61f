//! Whether a number literal writes a value from 0 to 1.
//!
//! The question is settled on the digits as written, so the answer is exact
//! however many digits the literal has and however large its exponent is.

use crate::literal::{
    decimal_head, digit_run, digits_value, int_value, is_digit, is_digits, is_float_literal,
    is_int_literal,
    is_negative, is_number, lemma_number_by_head, lower, number,
    unsigned_part, LETTER_E, MINUS, PLUS, POINT, ZERO,
};
use vstd::prelude::*;
use vstd::slice::{slice_subrange, slice_to_vec};

verus! {

/// `1`
pub const ONE: u8 = 0x31;

/// Where the first `b` of `s` stands, capitals taken for their small
/// letters; the length of `s`, if it has none.
pub open spec fn position(s: Seq<u8>, b: u8) -> int
    decreases s.len(),
{
    if s.len() == 0 || lower(s[0]) == b {
        0
    } else {
        1 + position(s.skip(1), b)
    }
}

/// The part of a number before its exponent.
pub open spec fn mantissa(u: Seq<u8>) -> Seq<u8> {
    u.take(position(u, LETTER_E))
}

/// The exponent of a number; 0 where none is written.
pub open spec fn exponent(u: Seq<u8>) -> int {
    let p = position(u, LETTER_E);
    if p < u.len() {
        int_value(u.skip(p + 1))
    } else {
        0
    }
}

/// The digits of a number before its point.
pub open spec fn whole(u: Seq<u8>) -> Seq<u8> {
    mantissa(u).take(position(mantissa(u), POINT))
}

/// The digits of a number behind its point.
pub open spec fn fraction(u: Seq<u8>) -> Seq<u8> {
    let m = mantissa(u);
    let p = position(m, POINT);
    if p < m.len() {
        m.skip(p + 1)
    } else {
        Seq::empty()
    }
}

/// The digits of a number read as one integer, the point left out.
pub open spec fn significand(u: Seq<u8>) -> nat {
    digits_value(whole(u) + fraction(u))
}

/// The power of ten that the significand is multiplied by.
pub open spec fn scale(u: Seq<u8>) -> int {
    exponent(u) - fraction(u).len()
}

/// Ten to the power `n`.
pub open spec fn pow10(n: nat) -> nat
    decreases n,
{
    if n == 0 {
        1
    } else {
        10 * pow10((n - 1) as nat)
    }
}

/// Whether `m` times ten to the power `scale` is 1 at most.
pub open spec fn at_most_one(m: nat, scale: int) -> bool {
    if scale >= 0 {
        m * pow10(scale as nat) <= 1
    } else {
        m <= pow10((-scale) as nat)
    }
}

/// Whether the literal `s` writes a number from 0 to 1, both ends included.
/// What is no number (no literal at all, an infinity, `nan`) is outside.
#[verifier::opaque]
pub open spec fn in_unit_interval(s: Seq<u8>) -> bool {
    let u = unsigned_part(s);
    &&& is_number(u)
    &&& significand(u) == 0 || (!is_negative(s) && at_most_one(significand(u), scale(u)))
}

/// What lies in the unit interval is a number literal.
pub proof fn lemma_unit_interval_is_literal(s: Seq<u8>)
    requires
        in_unit_interval(s),
    ensures
        is_float_literal(s),
{
    reveal(in_unit_interval);
    reveal(is_float_literal);
}

/// The largest size of exponent that is still counted exactly.
pub const CAP: i128 = 1_000_000_000_000_000_000_000_000_000_000;

/// `v`, held to the range from `-CAP` to `CAP`.
pub open spec fn capped(v: int) -> int {
    if v < -CAP {
        -CAP as int
    } else if v > CAP {
        CAP as int
    } else {
        v
    }
}

/// `position` is where a `b` follows bytes that are none.
pub proof fn lemma_position(s: Seq<u8>, b: u8, k: int)
    requires
        0 <= k <= s.len(),
        forall|i: int| 0 <= i < k ==> lower(#[trigger] s[i]) != b,
        k == s.len() || lower(s[k]) == b,
    ensures
        position(s, b) == k,
    decreases k,
{
    if k > 0 {
        assert(lower(s[0]) != b);
        assert forall|i: int| 0 <= i < k - 1 implies lower(#[trigger] s.skip(1)[i]) != b by {
            assert(s.skip(1)[i] == s[i + 1]);
        }
        lemma_position(s.skip(1), b, k - 1);
    }
}

/// The parts of a number, told from where the decimal at its head ends.
pub proof fn lemma_layout(u: Seq<u8>, a: int, j: int)
    requires
        decimal_head(u, a, j),
        is_number(u),
    ensures
        whole(u) == u.take(a),
        fraction(u) == if a < j {
            u.subrange(a + 1, j)
        } else {
            Seq::<u8>::empty()
        },
        exponent(u) == if j < u.len() {
            int_value(u.skip(j + 1))
        } else {
            0
        },
        is_digits(whole(u) + fraction(u)),
        j < u.len() ==> is_int_literal(u.skip(j + 1)),
{
    lemma_number_by_head(u, a, j);
    assert forall|i: int| 0 <= i < j implies lower(#[trigger] u[i]) != LETTER_E by {
        if i < a {
            assert(is_digit(u.take(a)[i]));
        } else if i > a {
            assert(is_digit(u.subrange(a + 1, j)[i - a - 1]));
        }
    }
    lemma_position(u, LETTER_E, j);
    let m = u.take(j);
    assert(mantissa(u) == m);
    assert forall|i: int| 0 <= i < a implies lower(#[trigger] m[i]) != POINT by {
        assert(is_digit(u.take(a)[i]));
    }
    if a < j {
        lemma_position(m, POINT, a);
        assert(m.take(a) =~= u.take(a));
        assert(m.skip(a + 1) =~= u.subrange(a + 1, j));
    } else {
        lemma_position(m, POINT, a);
        assert(m.take(a) =~= u.take(a));
    }
    let d = whole(u) + fraction(u);
    assert forall|i: int| 0 <= i < d.len() implies is_digit(#[trigger] d[i]) by {
        if i < a {
            assert(is_digit(u.take(a)[i]));
        } else {
            assert(is_digit(u.subrange(a + 1, j)[i - a]));
        }
    }
}

/// A larger exponent makes no smaller power.
pub proof fn lemma_pow10_increases(a: nat, b: nat)
    requires
        a <= b,
    ensures
        1 <= pow10(a) <= pow10(b),
        a < b ==> 10 * pow10(a) <= pow10(b),
    decreases b,
{
    if a < b {
        lemma_pow10_increases(a, (b - 1) as nat);
    } else if a > 0 {
        lemma_pow10_increases((a - 1) as nat, (a - 1) as nat);
    }
}

/// Zeros in front of a run of digits do not change what it is worth.
pub proof fn lemma_leading_zeros(d: Seq<u8>, k: int)
    requires
        0 <= k <= d.len(),
        forall|i: int| 0 <= i < k ==> d[i] == ZERO,
    ensures
        digits_value(d) == digits_value(d.skip(k)),
    decreases d.len(),
{
    if k == 0 {
        assert(d.skip(0) =~= d);
    } else if k == d.len() {
        lemma_leading_zeros(d.drop_last(), k - 1);
        assert(d.drop_last().skip(k - 1) =~= d.skip(k));
        assert(d.drop_last().skip(k - 1).len() == 0);
    } else {
        lemma_leading_zeros(d.drop_last(), k);
        assert(d.drop_last().skip(k) =~= d.skip(k).drop_last());
    }
}

/// A run of digits that does not begin with a zero is worth at least the
/// power of ten of its length less one, and less than the next power.
pub proof fn lemma_digits_bounds(e: Seq<u8>)
    requires
        is_digits(e),
        e.len() >= 1,
        e[0] != ZERO,
    ensures
        pow10((e.len() - 1) as nat) <= digits_value(e) < pow10(e.len()),
    decreases e.len(),
{
    let f = e.drop_last();
    let last = (e.last() - ZERO) as nat;
    assert(is_digit(e[0]));
    assert(is_digit(e.last()));
    assert(digits_value(e) == 10 * digits_value(f) + last);
    assert(pow10(e.len()) == 10 * pow10((e.len() - 1) as nat));
    if e.len() == 1 {
        assert(digits_value(f) == 0);
        assert(pow10(0) == 1);
    } else {
        assert forall|i: int| 0 <= i < f.len() implies is_digit(#[trigger] f[i]) by {
            assert(f[i] == e[i]);
        }
        assert(f[0] == e[0]);
        lemma_digits_bounds(f);
        assert(pow10((e.len() - 1) as nat) == 10 * pow10((f.len() - 1) as nat));
    }
}

/// A run of digits that does not begin with a zero is worth a power of ten
/// exactly when it is a one followed by zeros.
pub proof fn lemma_power_of_ten(e: Seq<u8>)
    requires
        is_digits(e),
        e.len() >= 1,
        e[0] != ZERO,
    ensures
        digits_value(e) == pow10((e.len() - 1) as nat) <==> (e[0] == ONE && forall|i: int|
            1 <= i < e.len() ==> e[i] == ZERO),
    decreases e.len(),
{
    let f = e.drop_last();
    let last = (e.last() - ZERO) as nat;
    assert(is_digit(e[0]));
    assert(is_digit(e.last()));
    assert(digits_value(e) == 10 * digits_value(f) + last);
    if e.len() == 1 {
        assert(digits_value(f) == 0);
        assert(pow10(0) == 1);
    } else {
        assert forall|i: int| 0 <= i < f.len() implies is_digit(#[trigger] f[i]) by {
            assert(f[i] == e[i]);
        }
        assert(f[0] == e[0]);
        lemma_power_of_ten(f);
        let unit = pow10((f.len() - 1) as nat);
        assert(pow10((e.len() - 1) as nat) == 10 * unit);
        if e[0] == ONE && (forall|i: int| 1 <= i < e.len() ==> e[i] == ZERO) {
            assert(e[e.len() - 1] == ZERO);
            assert forall|i: int| 1 <= i < f.len() implies f[i] == ZERO by {
                assert(f[i] == e[i]);
            }
            assert(digits_value(f) == unit);
        }
        if digits_value(e) == 10 * unit {
            assert(last == 0 && digits_value(f) == unit);
            assert forall|i: int| 1 <= i < e.len() implies e[i] == ZERO by {
                if i < f.len() {
                    assert(f[i] == e[i]);
                }
            }
        }
    }
}

/// A significand `m` of `q + 1` digits, the first of them no zero, with its
/// first digit worth ten to the power `p`, is 1 at most exactly when `p` is
/// negative, or `p` is 0 and `m` is a power of ten.
pub proof fn lemma_at_most_one(m: nat, q: nat, p: int)
    requires
        pow10(q) <= m < pow10(q + 1),
    ensures
        at_most_one(m, p - q) <==> (p < 0 || (p == 0 && m == pow10(q))),
{
    let scale = p - q;
    lemma_pow10_increases(0, q);
    if scale >= 0 {
        lemma_pow10_increases(0, scale as nat);
        let t = pow10(scale as nat);
        assert(m * t >= m) by (nonlinear_arith)
            requires
                t >= 1,
                m >= 0,
        ;
        if scale > 0 {
            assert(m * t >= 10) by (nonlinear_arith)
                requires
                    t >= 10,
                    m >= 1,
            ;
        } else {
            assert(m * t == m) by (nonlinear_arith)
                requires
                    t == 1,
            ;
            if q > 0 {
                lemma_pow10_increases(0, q);
            }
        }
    } else {
        let r = (-scale) as nat;
        if p < 0 {
            lemma_pow10_increases(q + 1, r);
        } else if p > 0 {
            lemma_pow10_increases(r, q);
        }
    }
}

/// The value of an integer literal, held to the range from `-CAP` to `CAP`.
fn clamped_value(t: &[u8]) -> (r: i128)
    requires
        is_int_literal(t@),
    ensures
        r == capped(int_value(t@)),
{
    let n = t.len();
    let negative = t[0] == MINUS;
    let start: usize = if t[0] == PLUS || t[0] == MINUS {
        1
    } else {
        0
    };
    let ghost body = unsigned_part(t@);
    assert(body =~= t@.subrange(start as int, n as int));
    let mut acc: i128 = 0;
    let mut i = start;
    while i < n
        invariant
            start <= i <= n,
            n == t@.len(),
            body == t@.subrange(start as int, n as int),
            is_digits(body),
            0 <= acc <= CAP,
            acc == if digits_value(body.take(i - start)) > CAP {
                CAP as int
            } else {
                digits_value(body.take(i - start)) as int
            },
        decreases n - i,
    {
        let b = t[i];
        proof {
            assert(is_digit(body[i - start]));
            assert(body[i - start] == b);
            let next = body.take(i - start + 1);
            assert(next.drop_last() =~= body.take(i - start));
            assert(next.last() == b);
        }
        acc = acc * 10 + (b - ZERO) as i128;
        if acc > CAP {
            acc = CAP;
        }
        i += 1;
    }
    assert(body.take(i - start) =~= body);
    if negative {
        -acc
    } else {
        acc
    }
}

/// The digits of the number `u`, those before its point and those behind
/// it, told from where the decimal at its head ends.
pub open spec fn digits_by_head(u: Seq<u8>, a: int, j: int) -> Seq<u8> {
    u.take(a) + if a < j {
        u.subrange(a + 1, j)
    } else {
        Seq::<u8>::empty()
    }
}

/// Whether a literal writes a number from 0 to 1, told from where the
/// decimal at its head ends and from how many zeros its digits begin with.
pub proof fn lemma_unit_interval_by_head(s: Seq<u8>, a: int, j: int, k: int)
    requires
        is_number(unsigned_part(s)),
        decimal_head(unsigned_part(s), a, j),
        0 <= k <= digits_by_head(unsigned_part(s), a, j).len(),
        forall|i: int| 0 <= i < k ==> digits_by_head(unsigned_part(s), a, j)[i] == ZERO,
        k == digits_by_head(unsigned_part(s), a, j).len() || digits_by_head(
            unsigned_part(s),
            a,
            j,
        )[k] != ZERO,
    ensures
        ({
            let u = unsigned_part(s);
            let d = digits_by_head(u, a, j);
            let p = a - k - 1 + exponent(u);
            &&& exponent(u) == if j < u.len() {
                int_value(u.skip(j + 1))
            } else {
                0
            }
            &&& j < u.len() ==> is_int_literal(u.skip(j + 1))
            &&& in_unit_interval(s) <==> k == d.len() || (!is_negative(s) && (p < 0 || (p == 0
                && d[k] == ONE && forall|i: int| k < i < d.len() ==> d[i] == ZERO)))
        }),
{
    reveal(in_unit_interval);
    let u = unsigned_part(s);
    let d = digits_by_head(u, a, j);
    lemma_layout(u, a, j);
    assert(d == whole(u) + fraction(u));
    lemma_leading_zeros(d, k);
    if k == d.len() {
        assert(d.skip(k).len() == 0);
        assert(significand(u) == 0);
    } else {
        let e = d.skip(k);
        let q = (e.len() - 1) as nat;
        let p = a - k - 1 + exponent(u);
        assert forall|i: int| 0 <= i < e.len() implies is_digit(#[trigger] e[i]) by {
            assert(e[i] == d[k + i]);
        }
        assert(e[0] == d[k]);
        lemma_digits_bounds(e);
        lemma_pow10_increases(0, q);
        lemma_power_of_ten(e);
        assert(significand(u) == digits_value(e));
        assert(significand(u) > 0);
        assert(fraction(u).len() == d.len() - a);
        assert(scale(u) == p - q);
        lemma_at_most_one(significand(u), q, p);
        let zeros_d = forall|i: int| k < i < d.len() ==> d[i] == ZERO;
        let zeros_e = forall|i: int| 1 <= i < e.len() ==> e[i] == ZERO;
        if zeros_d {
            assert forall|i: int| 1 <= i < e.len() implies e[i] == ZERO by {
                assert(e[i] == d[k + i]);
            }
        }
        if zeros_e {
            assert forall|i: int| k < i < d.len() implies d[i] == ZERO by {
                assert(e[i - k] == d[i]);
            }
        }
        assert(zeros_d == zeros_e);
    }
}

/// The digits of the number `u`, those before its point and those behind it.
fn digits_of(u: &[u8], a: usize, j: usize) -> (d: Vec<u8>)
    requires
        decimal_head(u@, a as int, j as int),
    ensures
        d@ == digits_by_head(u@, a as int, j as int),
{
    let mut d = slice_to_vec(slice_subrange(u, 0, a));
    assert(d@ =~= u@.take(a as int));
    if a < j {
        let mut i = a + 1;
        while i < j
            invariant
                a + 1 <= i <= j <= u@.len(),
                d@ == u@.take(a as int) + u@.subrange(a + 1, i as int),
            decreases j - i,
        {
            d.push(u[i]);
            assert(u@.subrange(a + 1, i as int).push(u@[i as int]) =~= u@.subrange(a + 1, i + 1));
            i += 1;
        }
    } else {
        assert(d@ =~= u@.take(a as int) + Seq::<u8>::empty());
    }
    d
}

/// How many zeros `d` begins with.
fn zero_run(d: &Vec<u8>) -> (k: usize)
    ensures
        k <= d@.len(),
        forall|i: int| 0 <= i < k ==> d@[i] == ZERO,
        k == d@.len() || d@[k as int] != ZERO,
{
    let mut k: usize = 0;
    while k < d.len() && d[k] == ZERO
        invariant
            k <= d@.len(),
            forall|i: int| 0 <= i < k ==> d@[i] == ZERO,
        decreases d@.len() - k,
    {
        k += 1;
    }
    k
}

/// Whether `d` holds a one at `k` and only zeros behind it.
fn one_then_zeros(d: &Vec<u8>, k: usize) -> (r: bool)
    requires
        k < d@.len(),
    ensures
        r == (d@[k as int] == ONE && forall|i: int| k < i < d@.len() ==> d@[i] == ZERO),
{
    let n = d.len();
    if d[k] != ONE {
        return false;
    }
    let mut i = k + 1;
    while i < n
        invariant
            k < i <= n,
            n == d@.len(),
            forall|m: int| k < m < i ==> d@[m] == ZERO,
        decreases n - i,
    {
        if d[i] != ZERO {
            return false;
        }
        i += 1;
    }
    true
}

/// Tests whether a literal writes a number from 0 to 1.
pub fn unit_interval(s: &[u8]) -> (r: bool)
    ensures
        r == in_unit_interval(s@),
{
    let n = s.len();
    let negative = n > 0 && s[0] == MINUS;
    let start: usize = if n > 0 && (s[0] == PLUS || s[0] == MINUS) {
        1
    } else {
        0
    };
    let u = slice_subrange(s, start, n);
    assert(u@ =~= unsigned_part(s@));
    if !number(u) {
        reveal(in_unit_interval);
        return false;
    }
    let a = digit_run(u, 0);
    let dot = a < u.len() && u[a] == POINT;
    let j = if dot {
        digit_run(u, a + 1)
    } else {
        a
    };
    assert(u@.take(a as int) =~= u@.subrange(0, a as int));
    let d = digits_of(u, a, j);
    let k = zero_run(&d);
    proof {
        lemma_unit_interval_by_head(s@, a as int, j as int, k as int);
    }
    if k == d.len() {
        return true;
    }
    if negative {
        return false;
    }
    let x: i128 = if j < u.len() {
        let t = slice_subrange(u, j + 1, u.len());
        assert(t@ =~= u@.skip(j + 1));
        clamped_value(t)
    } else {
        0
    };
    let p: i128 = a as i128 - k as i128 - 1 + x;
    if p < 0 {
        true
    } else if p > 0 {
        false
    } else {
        one_then_zeros(&d, k)
    }
}

} // verus!
