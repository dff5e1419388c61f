//! The picture as a stream of plain text.
//!
//! The stream begins with a header: the mark of the format, the width and
//! the height of the picture, and the largest value of a channel. One line
//! for every pixel follows, with its red, green and blue.

use crate::double::{
    abs, at_most, is_nan, lemma_pow2_adds, lemma_pow2_increases, lemma_pow2_values,
    lemma_rank_orders_as_value, lemma_size_bounds, lemma_size_by_parts, magnitude, nan, pow2,
    size, value, Double, FRACTIONS,
};
use crate::literal::{
    digits_value, int_value, is_digit, is_digits, is_int_literal, parsed_i32, unsigned_part, MINUS,
    ZERO,
};
use crate::util::{clamp, clamped};
use crate::world::SPACE;
use vstd::arithmetic::div_mod::{
    lemma_basic_div, lemma_div_denominator, lemma_div_is_ordered,
    lemma_div_multiples_vanish_quotient,
};
use vstd::prelude::*;

verus! {

/// The end of a line.
pub const NEWLINE: u8 = 0x0a;

/// The largest value of a channel.
pub const MAX_CHANNEL: i32 = 255;

/// The decimal digits of `n`, with no zero in front.
pub open spec fn decimal_digits(n: nat) -> Seq<u8>
    decreases n,
{
    if n < 10 {
        seq![(ZERO + n) as u8]
    } else {
        decimal_digits(n / 10).push((ZERO + n % 10) as u8)
    }
}

/// `n` as decimal text: its digits, behind a minus sign if it is negative.
pub open spec fn decimal_text(n: int) -> Seq<u8> {
    if n < 0 {
        seq![MINUS] + decimal_digits((-n) as nat)
    } else {
        decimal_digits(n as nat)
    }
}

/// The mark of the format: `P3`.
pub open spec fn magic() -> Seq<u8> {
    seq![0x50u8, 0x33u8]
}

/// The header of a picture: three lines that hold the mark of the format,
/// the width and the height with a blank between them, and the largest
/// value of a channel.
pub open spec fn header_text(width: int, height: int) -> Seq<u8> {
    magic() + seq![NEWLINE] + decimal_text(width) + seq![SPACE] + decimal_text(height) + seq![
        NEWLINE,
    ] + decimal_text(MAX_CHANNEL as int) + seq![NEWLINE]
}

/// The line of a pixel: red, green and blue, a blank between each two.
pub open spec fn pixel_text(red: int, green: int, blue: int) -> Seq<u8> {
    decimal_text(red) + seq![SPACE] + decimal_text(green) + seq![SPACE] + decimal_text(blue)
        + seq![NEWLINE]
}

/// The digits of a number are digits, and are worth the number.
pub proof fn lemma_decimal_digits_value(n: nat)
    ensures
        decimal_digits(n).len() >= 1,
        is_digits(decimal_digits(n)),
        digits_value(decimal_digits(n)) == n,
    decreases n,
{
    let d = decimal_digits(n);
    if n < 10 {
        assert(d.drop_last() =~= Seq::<u8>::empty());
        assert(digits_value(d.drop_last()) == 0);
    } else {
        let head = decimal_digits(n / 10);
        lemma_decimal_digits_value(n / 10);
        assert(d.drop_last() =~= head);
        assert forall|i: int| 0 <= i < d.len() implies is_digit(#[trigger] d[i]) by {
            if i < head.len() {
                assert(is_digit(head[i]));
            }
        }
    }
}

/// The text of an integer is an integer literal that writes the integer.
pub proof fn lemma_decimal_text_reads_back(n: int)
    ensures
        is_int_literal(decimal_text(n)),
        int_value(decimal_text(n)) == n,
        i32::MIN <= n <= i32::MAX ==> parsed_i32(decimal_text(n)) == Some(n as i32),
{
    reveal(parsed_i32);
    let t = decimal_text(n);
    if n < 0 {
        lemma_decimal_digits_value((-n) as nat);
        assert(unsigned_part(t) =~= decimal_digits((-n) as nat));
    } else {
        lemma_decimal_digits_value(n as nat);
        assert(is_digit(t[0]));
        assert(unsigned_part(t) == t);
    }
}

/// Writes the decimal digits of `n` behind what `out` holds.
fn push_digits(out: &mut Vec<u8>, n: u32)
    ensures
        final(out)@ == old(out)@ + decimal_digits(n as nat),
    decreases n,
{
    if n >= 10 {
        push_digits(out, n / 10);
    }
    out.push(ZERO + (n % 10) as u8);
    assert(final(out)@ =~= old(out)@ + decimal_digits(n as nat));
}

/// Writes `n` as decimal text behind what `out` holds.
pub fn push_decimal(out: &mut Vec<u8>, n: i32)
    ensures
        final(out)@ == old(out)@ + decimal_text(n as int),
{
    if n < 0 {
        out.push(MINUS);
        push_digits(out, (-(n as i64)) as u32);
        assert(final(out)@ =~= old(out)@ + decimal_text(n as int));
    } else {
        push_digits(out, n as u32);
    }
}

/// The header of a picture of the given width and height.
pub fn header(width: i32, height: i32) -> (out: Vec<u8>)
    ensures
        out@ == header_text(width as int, height as int),
{
    let mut out: Vec<u8> = Vec::new();
    out.push(0x50);
    out.push(0x33);
    out.push(NEWLINE);
    assert(out@ =~= magic() + seq![NEWLINE]);
    push_decimal(&mut out, width);
    out.push(SPACE);
    push_decimal(&mut out, height);
    out.push(NEWLINE);
    push_decimal(&mut out, MAX_CHANNEL);
    out.push(NEWLINE);
    assert(out@ =~= header_text(width as int, height as int));
    out
}

/// The line of a pixel with the given red, green and blue.
pub fn pixel(red: i32, green: i32, blue: i32) -> (out: Vec<u8>)
    ensures
        out@ == pixel_text(red as int, green as int, blue as int),
{
    let mut out: Vec<u8> = Vec::new();
    assert(out@ + decimal_text(red as int) =~= decimal_text(red as int));
    push_decimal(&mut out, red);
    out.push(SPACE);
    push_decimal(&mut out, green);
    out.push(SPACE);
    push_decimal(&mut out, blue);
    out.push(NEWLINE);
    assert(out@ =~= pixel_text(red as int, green as int, blue as int));
    out
}

/// The double next to 0.999: the most of a colour that a channel shows.
pub const NEARLY_ONE: Double = 0x3fef_f7ce_d916_872b;

/// The value of the channel that shows the amount `c` of a colour: `c` is
/// held to the range from 0 to `NEARLY_ONE` and multiplied by 256, and what
/// stands behind the point is dropped. What is no number shows as 0.
pub open spec fn channel_of(c: Double) -> int {
    let held = clamped(c, crate::double::ZERO, NEARLY_ONE);
    if is_nan(held) {
        0
    } else {
        (256 * value(held)) / (pow2(1074) as int)
    }
}

/// Multiplying by 256 is raising the exponent by 8.
proof fn lemma_times_256(a: int, e: nat)
    ensures
        256 * (a * pow2(e)) == a * pow2(e + 8),
{
    lemma_pow2_values();
    lemma_pow2_adds(8, e);
    let low = pow2(e);
    assert(256 * (a * low) == a * (256 * low)) by (nonlinear_arith);
}

/// What a double of exponent `e`, from 1015 on, and of fraction `f` shows
/// when multiplied by 256 is its fraction with a one before it, divided by
/// a power of two.
proof fn lemma_channel_shows(e: int, f: int)
    requires
        1015 <= e <= 1022,
        0 <= f < FRACTIONS,
    ensures
        (256 * size(e * FRACTIONS + f)) / (pow2(1074) as int) == (FRACTIONS + f) / (pow2(
            (1067 - e) as nat,
        ) as int),
{
    let a = FRACTIONS + f;
    let scaled = pow2((e + 7) as nat);
    let rest = pow2((1067 - e) as nat);
    lemma_size_by_parts(e, f);
    lemma_times_256(a, (e - 1) as nat);
    assert(256 * size(e * FRACTIONS + f) == a * scaled);
    lemma_pow2_adds((e + 7) as nat, (1067 - e) as nat);
    lemma_pow2_increases(0, (e + 7) as nat);
    lemma_pow2_increases(0, (1067 - e) as nat);
    assert(a * scaled == scaled * a) by (nonlinear_arith);
    lemma_div_multiples_vanish_quotient(scaled as int, a, rest as int);
}

/// What a double of exponent `e`, from 1 up to 1014, and of fraction `f`
/// shows when multiplied by 256 is nothing.
proof fn lemma_channel_shows_nothing(e: int, f: int)
    requires
        1 <= e < 1015,
        0 <= f < FRACTIONS,
    ensures
        (256 * size(e * FRACTIONS + f)) / (pow2(1074) as int) == 0,
{
    let a = FRACTIONS + f;
    let scaled = pow2((e + 7) as nat);
    lemma_size_by_parts(e, f);
    lemma_times_256(a, (e - 1) as nat);
    assert(256 * size(e * FRACTIONS + f) == a * scaled);
    lemma_pow2_values();
    lemma_pow2_adds(53, (e + 7) as nat);
    lemma_pow2_increases(0, (e + 7) as nat);
    lemma_pow2_increases((e + 60) as nat, 1074);
    assert(a * scaled < (2 * FRACTIONS) * scaled) by (nonlinear_arith)
        requires
            a < 2 * FRACTIONS,
            scaled >= 1,
    ;
    assert(0 <= a * scaled) by (nonlinear_arith)
        requires
            a >= 0,
            scaled >= 1,
    ;
    lemma_basic_div(a * scaled, pow2(1074) as int);
}

/// What a double below the first exponent shows when multiplied by 256 is
/// nothing.
proof fn lemma_channel_shows_nothing_below(f: int)
    requires
        0 <= f < FRACTIONS,
    ensures
        (256 * f) / (pow2(1074) as int) == 0,
{
    lemma_pow2_values();
    lemma_pow2_adds(60, 1014);
    lemma_pow2_increases(0, 1014);
    let big = pow2(1014);
    assert(pow2(60) * big >= pow2(60)) by (nonlinear_arith)
        requires
            big >= 1,
    ;
    lemma_basic_div(256 * f, pow2(1074) as int);
}

/// The fraction with a one before it, divided by a power of two from the
/// 45th on, is less than 256.
proof fn lemma_channel_fits(f: int, shift: nat)
    requires
        0 <= f < FRACTIONS,
        45 <= shift,
    ensures
        0 <= (FRACTIONS + f) / (pow2(shift) as int) < 256,
{
    let a = FRACTIONS + f;
    let rest = pow2(shift) as int;
    lemma_pow2_values();
    lemma_pow2_increases(45, shift);
    assert(a / rest < 256) by (nonlinear_arith)
        requires
            0 <= a < 256 * 0x2000_0000_0000,
            rest >= 0x2000_0000_0000,
    ;
    assert(a / rest >= 0) by (nonlinear_arith)
        requires
            0 <= a,
            rest > 0,
    ;
}

/// What a colour shows, by the exponent and the fraction of the amount held
/// to the range.
proof fn lemma_channel(c: Double)
    requires
        !is_nan(clamped(c, crate::double::ZERO, NEARLY_ONE)),
    ensures
        ({
            let m = magnitude(clamped(c, crate::double::ZERO, NEARLY_ONE));
            let e = m / FRACTIONS as int;
            let f = m % FRACTIONS as int;
            &&& e <= 1022
            &&& e < 1015 ==> channel_of(c) == 0
            &&& e >= 1015 ==> channel_of(c) == (FRACTIONS + f) / (pow2((1067 - e) as nat) as int)
            &&& e >= 1015 ==> 0 <= (FRACTIONS + f) / (pow2((1067 - e) as nat) as int) < 256
        }),
{
    let held = clamped(c, crate::double::ZERO, NEARLY_ONE);
    let m = magnitude(held);
    let e = m / FRACTIONS as int;
    let f = m % FRACTIONS as int;
    lemma_rank_orders_as_value(held, NEARLY_ONE);
    lemma_rank_orders_as_value(held, crate::double::ZERO);
    lemma_size_bounds(0);
    assert(value(held) == size(m));
    assert(m <= magnitude(NEARLY_ONE));
    assert(e <= 1022);
    assert(m == e * FRACTIONS + f);
    if e >= 1015 {
        lemma_channel_shows(e, f);
        lemma_channel_fits(f, (1067 - e) as nat);
    } else if e >= 1 {
        lemma_channel_shows_nothing(e, f);
    } else {
        assert(size(m) == f) by {
            reveal(size);
        }
        lemma_channel_shows_nothing_below(f);
    }
}

/// Halving `k` times and once more is halving `k + 1` times.
proof fn lemma_halve(a: int, k: nat)
    requires
        0 <= a,
    ensures
        (a / (pow2(k) as int)) / 2 == a / (pow2(k + 1) as int),
{
    lemma_pow2_increases(0, k);
    lemma_div_denominator(a, pow2(k) as int, 2);
    assert(pow2(k + 1) == 2 * pow2(k));
    assert(pow2(k) * 2 == 2 * pow2(k));
}

/// A colour of which there is more shows no less.
pub proof fn lemma_channel_is_monotone(a: Double, b: Double)
    requires
        at_most(a, b),
    ensures
        channel_of(a) <= channel_of(b),
{
    let zero = crate::double::ZERO;
    let held_a = clamped(a, zero, NEARLY_ONE);
    let held_b = clamped(b, zero, NEARLY_ONE);
    lemma_rank_orders_as_value(zero, NEARLY_ONE);
    assert(value(held_a) <= value(held_b));
    lemma_pow2_increases(0, 1074);
    lemma_div_is_ordered(256 * value(held_a), 256 * value(held_b), pow2(1074) as int);
}

/// The value of the channel that shows the amount `c` of a colour.
pub fn channel(c: Double) -> (r: i32)
    ensures
        r == channel_of(c),
        0 <= r <= MAX_CHANNEL,
{
    let held = clamp(c, crate::double::ZERO, NEARLY_ONE);
    if nan(held) {
        return 0;
    }
    let m = abs(held);
    let e = m / FRACTIONS;
    let f = m % FRACTIONS;
    proof {
        lemma_channel(c);
    }
    if e < 1015 {
        return 0;
    }
    let a = FRACTIONS + f;
    let shift = 1067 - e;
    let mut r = a;
    let mut k: u64 = 0;
    assert(pow2(0) == 1);
    while k < shift
        invariant
            k <= shift <= 52,
            r == a as int / (pow2(k as nat) as int),
        decreases shift - k,
    {
        proof {
            lemma_halve(a as int, k as nat);
        }
        r = r / 2;
        k += 1;
    }
    r as i32
}

} // verus!
