//! Number literals as the scene description writes them.
//!
//! A literal is a run of bytes. Integers are read to their value here; decimal
//! numbers are recognised and kept as written, for the numeric layer to
//! evaluate.

use vstd::prelude::*;
use vstd::slice::{slice_subrange, slice_to_vec};

verus! {

/// `0`
pub const ZERO: u8 = 0x30;

/// `9`
pub const NINE: u8 = 0x39;

/// `+`
pub const PLUS: u8 = 0x2b;

/// `-`
pub const MINUS: u8 = 0x2d;

/// `.`
pub const POINT: u8 = 0x2e;

/// `e`
pub const LETTER_E: u8 = 0x65;

/// Whether `b` is an ASCII decimal digit.
pub open spec fn is_digit(b: u8) -> bool {
    ZERO <= b <= NINE
}

/// Whether `b` is a plus or a minus sign.
pub open spec fn is_sign(b: u8) -> bool {
    b == PLUS || b == MINUS
}

/// Whether every byte of `s` is a decimal digit. The empty run qualifies.
pub open spec fn is_digits(s: Seq<u8>) -> bool {
    forall|i: int| 0 <= i < s.len() ==> is_digit(#[trigger] s[i])
}

/// The number that a run of decimal digits writes, most significant digit first.
pub open spec fn digits_value(s: Seq<u8>) -> nat
    decreases s.len(),
{
    if s.len() == 0 {
        0
    } else {
        10 * digits_value(s.drop_last()) + (s.last() - ZERO) as nat
    }
}

/// What is left of a literal once a leading sign is taken away.
pub open spec fn unsigned_part(s: Seq<u8>) -> Seq<u8> {
    if s.len() > 0 && is_sign(s[0]) {
        s.skip(1)
    } else {
        s
    }
}

/// Whether the literal begins with a minus sign.
pub open spec fn is_negative(s: Seq<u8>) -> bool {
    s.len() > 0 && s[0] == MINUS
}

/// An integer literal: an optional sign, then one decimal digit or more.
pub open spec fn is_int_literal(s: Seq<u8>) -> bool {
    unsigned_part(s).len() > 0 && is_digits(unsigned_part(s))
}

/// The integer that an integer literal writes.
pub open spec fn int_value(s: Seq<u8>) -> int {
    if is_negative(s) {
        -(digits_value(unsigned_part(s)) as int)
    } else {
        digits_value(unsigned_part(s)) as int
    }
}

/// The 32-bit integer that `s` writes, if it writes one.
#[verifier::opaque]
pub open spec fn parsed_i32(s: Seq<u8>) -> Option<i32> {
    if is_int_literal(s) && i32::MIN <= int_value(s) <= i32::MAX {
        Some(int_value(s) as i32)
    } else {
        None
    }
}

/// A run of digits is worth at least as much as any run it begins with.
pub proof fn lemma_digits_value_prefix(s: Seq<u8>, k: int)
    requires
        0 <= k <= s.len(),
    ensures
        digits_value(s.take(k)) <= digits_value(s),
    decreases s.len(),
{
    if k == s.len() {
        assert(s.take(k) =~= s);
    } else {
        assert(s.drop_last().take(k) =~= s.take(k));
        lemma_digits_value_prefix(s.drop_last(), k);
    }
}

/// Tests whether a byte is an ASCII decimal digit.
pub fn digit(b: u8) -> (r: bool)
    ensures
        r == is_digit(b),
{
    b >= ZERO && b <= NINE
}

/// Reads a 32-bit integer: an optional sign and decimal digits, nothing else.
pub fn parse_i32(s: &[u8]) -> (r: Option<i32>)
    ensures
        r == parsed_i32(s@),
{
    reveal(parsed_i32);
    let n = s.len();
    let mut i: usize = 0;
    let mut negative = false;
    if n > 0 && (s[0] == PLUS || s[0] == MINUS) {
        negative = s[0] == MINUS;
        i = 1;
    }
    let start = i;
    if i == n {
        return None;
    }
    let ghost body = unsigned_part(s@);
    assert(body =~= s@.subrange(start as int, n as int));
    let mut acc: i64 = 0;
    while i < n
        invariant
            start <= i <= n,
            n == s@.len(),
            body == unsigned_part(s@),
            body == s@.subrange(start as int, n as int),
            negative == is_negative(s@),
            is_digits(body.take(i - start)),
            acc == digits_value(body.take(i - start)),
            0 <= acc <= 2147483648,
        decreases n - i,
    {
        let b = s[i];
        assert(body[i - start] == b);
        if !digit(b) {
            reveal(parsed_i32);
            assert(!is_digit(body[i - start]));
            return None;
        }
        proof {
            let next = body.take(i - start + 1);
            assert(next.drop_last() =~= body.take(i - start));
            assert(next.last() == b);
            assert forall|j: int| 0 <= j < next.len() implies is_digit(#[trigger] next[j]) by {
                if j < i - start {
                    assert(body.take(i - start)[j] == next[j]);
                }
            }
        }
        acc = acc * 10 + (b - ZERO) as i64;
        assert(acc == digits_value(body.take(i - start + 1)));
        if acc > 2147483648 {
            proof {
                reveal(parsed_i32);
                lemma_digits_value_prefix(body, i - start + 1);
            }
            return None;
        }
        i += 1;
    }
    assert(body.take(i - start) =~= body);
    if negative {
        Some((-acc) as i32)
    } else if acc == 2147483648 {
        None
    } else {
        Some(acc as i32)
    }
}

/// The lower-case form of an ASCII capital; any other byte is itself.
pub open spec fn lower(b: u8) -> u8 {
    if 0x41 <= b <= 0x5a {
        (b + 0x20) as u8
    } else {
        b
    }
}

/// Whether `s`, with capitals taken for their small letters, is `word`.
pub open spec fn spells(s: Seq<u8>, word: Seq<u8>) -> bool {
    s.len() == word.len() && forall|i: int| 0 <= i < s.len() ==> lower(#[trigger] s[i]) == word[i]
}

/// `inf`
pub open spec fn word_inf() -> Seq<u8> {
    seq![0x69u8, 0x6eu8, 0x66u8]
}

/// `infinity`
pub open spec fn word_infinity() -> Seq<u8> {
    seq![0x69u8, 0x6eu8, 0x66u8, 0x69u8, 0x6eu8, 0x69u8, 0x74u8, 0x79u8]
}

/// `nan`
pub open spec fn word_nan() -> Seq<u8> {
    seq![0x6eu8, 0x61u8, 0x6eu8]
}

/// The names of the values that no digits write: `inf`, `infinity` and `nan`,
/// in capitals or small letters.
pub open spec fn is_special(s: Seq<u8>) -> bool {
    spells(s, word_inf()) || spells(s, word_infinity()) || spells(s, word_nan())
}

/// Digits with at most one point among them: `7`, `7.`, `7.5` or `.5`, but
/// not the point alone.
pub open spec fn is_decimal(s: Seq<u8>) -> bool {
    ||| s.len() >= 1 && is_digits(s)
    ||| exists|p: int|
        0 <= p < s.len() && #[trigger] s[p] == POINT && s.len() >= 2 && is_digits(s.take(p))
            && is_digits(s.skip(p + 1))
}

/// An exponent: the letter `e`, capital or small, then an integer literal.
pub open spec fn is_exponent(s: Seq<u8>) -> bool {
    s.len() >= 1 && lower(s[0]) == LETTER_E && is_int_literal(s.skip(1))
}

/// A decimal, with or without an exponent behind it.
pub open spec fn is_number(s: Seq<u8>) -> bool {
    ||| is_decimal(s)
    ||| exists|e: int| 0 < e < s.len() && is_decimal(#[trigger] s.take(e)) && is_exponent(s.skip(e))
}

/// A number literal: an optional sign, then a number or the name of a
/// special value. Neither blanks nor anything else may stand before or after.
#[verifier::opaque]
pub open spec fn is_float_literal(s: Seq<u8>) -> bool {
    is_special(unsigned_part(s)) || is_number(unsigned_part(s))
}

/// Where the digits that begin at `from` end.
pub(crate) fn digit_run(s: &[u8], from: usize) -> (to: usize)
    requires
        from <= s@.len(),
    ensures
        from <= to <= s@.len(),
        is_digits(s@.subrange(from as int, to as int)),
        to == s@.len() || !is_digit(s@[to as int]),
{
    let n = s.len();
    let mut i = from;
    while i < n && digit(s[i])
        invariant
            from <= i <= n,
            n == s@.len(),
            is_digits(s@.subrange(from as int, i as int)),
        decreases n - i,
    {
        proof {
            let next = s@.subrange(from as int, i + 1);
            assert forall|j: int| 0 <= j < next.len() implies is_digit(#[trigger] next[j]) by {
                if j < i - from {
                    assert(s@.subrange(from as int, i as int)[j] == next[j]);
                }
            }
        }
        i += 1;
    }
    i
}

/// Turns an ASCII capital into its small letter.
pub fn to_lower(b: u8) -> (r: u8)
    ensures
        r == lower(b),
{
    if b >= 0x41 && b <= 0x5a {
        b + 0x20
    } else {
        b
    }
}

/// Tests whether `s` is an integer literal, whatever its size.
pub fn int_literal(s: &[u8]) -> (r: bool)
    ensures
        r == is_int_literal(s@),
{
    let n = s.len();
    let start: usize = if n > 0 && (s[0] == PLUS || s[0] == MINUS) {
        1
    } else {
        0
    };
    let end = digit_run(s, start);
    proof {
        let body = unsigned_part(s@);
        assert(body =~= s@.subrange(start as int, n as int));
        if end == n {
            assert(s@.subrange(start as int, end as int) == body);
        } else {
            assert(!is_digit(body[end - start]));
        }
    }
    start < n && end == n
}

/// Tests whether `s` names a special value.
pub fn special(s: &[u8]) -> (r: bool)
    ensures
        r == is_special(s@),
{
    let n = s.len();
    if n == 3 {
        let a = to_lower(s[0]);
        let b = to_lower(s[1]);
        let c = to_lower(s[2]);
        let inf = a == 0x69 && b == 0x6e && c == 0x66;
        let nan = a == 0x6e && b == 0x61 && c == 0x6e;
        proof {
            assert(inf == spells(s@, word_inf())) by {
                if !inf {
                    assert(lower(s@[0]) != word_inf()[0] || lower(s@[1]) != word_inf()[1] || lower(
                        s@[2],
                    ) != word_inf()[2]);
                }
            }
            assert(nan == spells(s@, word_nan())) by {
                if !nan {
                    assert(lower(s@[0]) != word_nan()[0] || lower(s@[1]) != word_nan()[1] || lower(
                        s@[2],
                    ) != word_nan()[2]);
                }
            }
        }
        inf || nan
    } else if n == 8 {
        let r = to_lower(s[0]) == 0x69 && to_lower(s[1]) == 0x6e && to_lower(s[2]) == 0x66
            && to_lower(s[3]) == 0x69 && to_lower(s[4]) == 0x6e && to_lower(s[5]) == 0x69
            && to_lower(s[6]) == 0x74 && to_lower(s[7]) == 0x79;
        proof {
            let w = word_infinity();
            if !r {
                assert(lower(s@[0]) != w[0] || lower(s@[1]) != w[1] || lower(s@[2]) != w[2]
                    || lower(s@[3]) != w[3] || lower(s@[4]) != w[4] || lower(s@[5]) != w[5]
                    || lower(s@[6]) != w[6] || lower(s@[7]) != w[7]);
            }
        }
        r
    } else {
        false
    }
}

/// Where the decimal at the head of `u` ends: `a` is where the leading digits
/// stop, `j` where the digits behind a point at `a` stop, or `a` again without
/// such a point.
pub open spec fn decimal_head(u: Seq<u8>, a: int, j: int) -> bool {
    &&& 0 <= a <= j <= u.len()
    &&& is_digits(u.take(a))
    &&& a == u.len() || !is_digit(u[a])
    &&& if a < u.len() && u[a] == POINT {
        &&& a + 1 <= j
        &&& is_digits(u.subrange(a + 1, j))
        &&& j == u.len() || !is_digit(u[j])
    } else {
        j == a
    }
}

/// No decimal at the head of `u` is longer than the one that `decimal_head`
/// marks, none exists where that one has no digit, and a shorter one is
/// followed by a digit or a point.
pub proof fn lemma_decimal_head(u: Seq<u8>, a: int, j: int, e: int)
    requires
        decimal_head(u, a, j),
        0 < e <= u.len(),
        is_decimal(u.take(e)),
    ensures
        e <= j,
        a > 0 || j > a + 1,
        e < j ==> is_digit(u[e]) || u[e] == POINT,
{
    let t = u.take(e);
    if is_digits(t) {
        if a < e {
            assert(is_digit(t[a]));
        }
        if e < a {
            assert(is_digit(u.take(a)[e]));
        }
    } else {
        let p = choose|p: int|
            0 <= p < t.len() && #[trigger] t[p] == POINT && t.len() >= 2 && is_digits(t.take(p))
                && is_digits(t.skip(p + 1));
        if a < p {
            assert(is_digit(t.take(p)[a]));
        }
        if p < a {
            assert(is_digit(u.take(a)[p]));
        }
        assert(p == a);
        if e > j {
            assert(is_digit(t.skip(a + 1)[j - a - 1]));
        }
        if a == 0 {
            assert(is_digit(t.skip(1)[0]));
        }
        if e < j {
            assert(is_digit(u.subrange(a + 1, j)[e - a - 1]));
        }
    }
}

/// Whether `u` is a number, told from where the decimal at its head ends.
pub proof fn lemma_number_by_head(u: Seq<u8>, a: int, j: int)
    requires
        decimal_head(u, a, j),
    ensures
        is_number(u) <==> (a > 0 || j > a + 1) && (j == u.len() || (lower(u[j]) == LETTER_E
            && is_int_literal(u.skip(j + 1)))),
{
    let has_digit = a > 0 || j > a + 1;
    let tail_ok = j == u.len() || (lower(u[j]) == LETTER_E && is_int_literal(u.skip(j + 1)));
    if has_digit && tail_ok {
        let t = u.take(j);
        if a < u.len() && u[a] == POINT {
            assert(t.take(a) =~= u.take(a));
            assert(t.skip(a + 1) =~= u.subrange(a + 1, j));
            assert(t[a] == POINT);
        } else {
            assert(t =~= u.take(a));
        }
        assert(is_decimal(t));
        if j == u.len() {
            assert(t =~= u);
        } else {
            assert(u.skip(j).skip(1) =~= u.skip(j + 1));
            assert(u.skip(j)[0] == u[j]);
            assert(is_exponent(u.skip(j)));
        }
        assert(is_number(u));
    }
    if is_number(u) {
        if is_decimal(u) {
            assert(u.take(u.len() as int) =~= u);
            lemma_decimal_head(u, a, j, u.len() as int);
        } else {
            let e = choose|e: int|
                0 < e < u.len() && is_decimal(#[trigger] u.take(e)) && is_exponent(u.skip(e));
            lemma_decimal_head(u, a, j, e);
            assert(u.skip(e)[0] == u[e]);
            assert(e == j);
            assert(u.skip(j).skip(1) =~= u.skip(j + 1));
        }
    }
}

/// Tests whether `s` is a decimal with or without an exponent.
pub fn number(s: &[u8]) -> (r: bool)
    ensures
        r == is_number(s@),
{
    let n = s.len();
    let a = digit_run(s, 0);
    let dot = a < n && s[a] == POINT;
    let j = if dot {
        digit_run(s, a + 1)
    } else {
        a
    };
    proof {
        assert(s@.take(a as int) =~= s@.subrange(0, a as int));
        lemma_number_by_head(s@, a as int, j as int);
    }
    if a == 0 && j <= a + 1 {
        false
    } else if j == n {
        true
    } else if to_lower(s[j]) != LETTER_E {
        false
    } else {
        let tail = slice_subrange(s, j + 1, n);
        assert(tail@ =~= s@.skip(j + 1));
        int_literal(tail)
    }
}

/// Tests whether `s` is a number literal.
pub fn float_literal(s: &[u8]) -> (r: bool)
    ensures
        r == is_float_literal(s@),
{
    let n = s.len();
    let start: usize = if n > 0 && (s[0] == PLUS || s[0] == MINUS) {
        1
    } else {
        0
    };
    let body = slice_subrange(s, start, n);
    assert(body@ =~= unsigned_part(s@));
    reveal(is_float_literal);
    special(body) || number(body)
}

/// A number of the scene description, kept as it was written.
#[derive(Debug, PartialEq, Eq)]
pub struct Number {
    pub text: Vec<u8>,
}

impl View for Number {
    type V = Seq<u8>;

    open spec fn view(&self) -> Seq<u8> {
        self.text@
    }
}

impl Number {
    /// Reads `s` as a number literal; `None` if it is not one.
    pub fn parse(s: &[u8]) -> (r: Option<Number>)
        ensures
            match r {
                Some(n) => is_float_literal(s@) && n@ == s@,
                None => !is_float_literal(s@),
            },
    {
        if float_literal(s) {
            Some(Number { text: slice_to_vec(s) })
        } else {
            None
        }
    }
}

/// Three numbers of the scene description: a position or a colour.
#[derive(Debug, PartialEq, Eq)]
pub struct Triple {
    pub x: Number,
    pub y: Number,
    pub z: Number,
}

/// What a `Triple` holds: the text of its three numbers.
pub type TripleText = (Seq<u8>, Seq<u8>, Seq<u8>);

impl View for Triple {
    type V = TripleText;

    open spec fn view(&self) -> TripleText {
        (self.x@, self.y@, self.z@)
    }
}

} // verus!
