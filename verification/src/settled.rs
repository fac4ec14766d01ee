//! A frequency that was written in megahertz, read and written again.
use crate::band::mhz_text;
use crate::digits::{decimal, digit_char, padded, pow10};
use crate::number::{
    fits, half_even, law_nearest_is_near, lemma_carry, lemma_fits_exists, lemma_half_even_close,
    lemma_nearest_at, lemma_nearest_wf, lemma_pow2_le, lemma_two_powers, nearest, shift_of, signed,
    Number, TOP_SHIFT,
};
use crate::reading::{
    ascii_lower, caseless, decimal_of, digits_value, has_minus, is_digit, number_of, only_digits,
    without_sign,
};
use crate::text::lemma_index_at;
use vstd::arithmetic::div_mod::*;
use vstd::arithmetic::mul::*;
use vstd::arithmetic::power2::*;
use vstd::prelude::*;

verus! {

/// What lies within half a step of a whole number rounds to it.
proof fn lemma_half_even_is(a: nat, b: nat, n: nat)
    requires
        b > 0,
        -(b as int) < 2 * (a - n * b) < b,
    ensures
        half_even(a, b) == n,
{
    lemma_half_even_close(a, b);
    let h = half_even(a, b) as int;
    assert(h == n) by (nonlinear_arith)
        requires
            -(b as int) < 2 * (a - n * b) < b,
            -(b as int) <= 2 * (h * b - a) <= b,
            b > 0,
    ;
}

/// What is no more than a whole number of steps rounds to no more.
proof fn lemma_half_even_at_most(a: nat, b: nat, n: nat)
    requires
        b > 0,
        a <= n * b,
    ensures
        half_even(a, b) <= n,
{
    if a == n * b {
        lemma_half_even_is(a, b, n);
    } else {
        lemma_fundamental_div_mod(a as int, b as int);
        let f = a as int / b as int;
        assert(f < n) by (nonlinear_arith)
            requires
                a == b * f + a as int % b as int,
                a as int % b as int >= 0,
                a < n * b,
                b > 0,
        ;
    }
}

/// What is no more than a thousand rounds to no more.
proof fn lemma_at_most_thousand(p: nat, q: nat)
    requires
        q > 0,
        p <= (1000 * pow2(1074)) * q,
    ensures
        nearest(p, q) matches Some((m, s)) && m * pow2(s) <= 1000 * pow2(1074),
{
    lemma_two_powers();
    lemma_fits_exists(p, q);
    let s = shift_of(p, q);
    let u = pow2(1074) as int;
    lemma_pow2_pos(1074);
    lemma_pow2_pos(s);
    if s > 1074 {
        lemma_pow2_le(1074, s);
        let a = pow2(s) as int;
        assert(false) by (nonlinear_arith)
            requires
                4503599627370496 * (a * q) <= p,
                p <= (1000 * u) * q,
                a >= u,
                u > 0,
                q > 0,
        ;
    }
    let d = (1074 - s) as nat;
    lemma_pow2_adds(s, d);
    let a = pow2(s) as int;
    let e = pow2(d) as int;
    assert(a * q > 0) by (nonlinear_arith)
        requires
            a > 0,
            q > 0,
    ;
    assert((1000 * e) * (a * q) == (1000 * u) * q) by (nonlinear_arith)
        requires
            u == a * e,
    ;
    lemma_half_even_at_most(p, (a * q) as nat, (1000 * e) as nat);
    lemma_carry(p, q, s);
    let h = half_even(p, pow2(s) * q) as int;
    assert(h * a <= 1000 * u) by (nonlinear_arith)
        requires
            h <= 1000 * e,
            u == a * e,
            a > 0,
    ;
    lemma_pow2_unfold((s + 1) as nat);
    if h == 9007199254740992 {
        assert(4503599627370496 * (2 * a) == h * a) by (nonlinear_arith)
            requires
                h == 9007199254740992,
        ;
    }
}

/// The powers of two about which it turns: a step of the fine values is less than a ten-thousandth,
/// one of the coarse values is more.
proof fn lemma_turning_point()
    ensures
        pow2(1074) == 16384 * pow2(1060),
        pow2(1061) == 2 * pow2(1060),
        pow2(1060) > 0,
{
    lemma2_to64();
    lemma_pow2_adds(14, 1060);
    lemma_pow2_unfold(1061);
    lemma_pow2_pos(1060);
}

/// The ten-thousandths of a fine value are read as a value with the same ten-thousandths.
proof fn lemma_fine(m: nat, t: nat)
    requires
        m < pow2(53),
        t <= 1060,
    ensures
        ({
            let n = half_even((m * pow2(t)) * 10000, pow2(1074));
            nearest(n * pow2(1074), 10000) matches Some((k, s)) && half_even((k * pow2(s)) * 10000, pow2(1074)) == n
        }),
{
    lemma_two_powers();
    lemma_turning_point();
    let c = pow2(1060) as int;
    let u = pow2(1074) as int;
    let v = (m * pow2(t)) as int;
    lemma_pow2_le(t, 1060);
    lemma_pow2_pos(t);
    let g = pow2(t) as int;
    assert(v <= 9007199254740991 * c) by (nonlinear_arith)
        requires
            v == m * g,
            m <= 9007199254740991,
            0 < g <= c,
    ;
    lemma_half_even_close((v * 10000) as nat, u as nat);
    let n = half_even((m * pow2(t)) * 10000, pow2(1074));
    let p = n * pow2(1074);
    assert(p < 9007199254740992 * (c * 10000));
    lemma_fits_exists(p, 10000);
    let s = shift_of(p, 10000);
    if s > 1060 {
        lemma_pow2_le(1061, s);
        let a = pow2(s) as int;
        assert(4503599627370496 * (a * 10000) <= p);
        assert(a >= 2 * c);
    }
    lemma_pow2_le(s, 1060);
    law_nearest_is_near(p, 10000);
    if let Some((k, shift)) = nearest(p, 10000) {
        let w = (k * pow2(shift)) as int;
        let a = pow2(s) as int;
        assert(-(a * 10000) <= 2 * (w * 10000 - p) <= a * 10000);
        lemma_half_even_is((w * 10000) as nat, u as nat, n);
    }
}

/// A coarse value is read back from its ten-thousandths.
proof fn lemma_coarse(m: nat, t: nat)
    requires
        pow2(52) <= m < pow2(53),
        1060 < t <= TOP_SHIFT,
    ensures
        ({
            let n = half_even((m * pow2(t)) * 10000, pow2(1074));
            nearest(n * pow2(1074), 10000) == Some((m, t))
        }),
{
    lemma_two_powers();
    lemma_turning_point();
    let u = pow2(1074) as int;
    let g = pow2(t) as int;
    let v = (m * pow2(t)) as int;
    lemma_pow2_le(1061, t);
    assert(u <= 8192 * g);
    lemma_half_even_close((v * 10000) as nat, u as nat);
    let n = half_even((m * pow2(t)) * 10000, pow2(1074));
    let p = n * pow2(1074);
    let b = (pow2(t) * 10000) as nat;
    assert(v * 10000 == m * b) by (nonlinear_arith)
        requires
            v == m * g,
            b == g * 10000,
    ;
    assert(-(b as int) < 2 * (p - m * b) < b);
    if m == 4503599627370496 {
        // a power of two is a whole number, and is written exactly
        let d = (t + 52 - 1074) as nat;
        lemma_pow2_adds(52, t);
        lemma_pow2_adds(d, 1074);
        let e = pow2(d) as int;
        assert(v == e * u);
        assert(v * 10000 == (e * 10000) * u) by (nonlinear_arith)
            requires
                v == e * u,
        ;
        lemma_half_even_is((v * 10000) as nat, u as nat, (e * 10000) as nat);
        assert(p == m * b);
    }
    assert(4503599627370496 * b <= p) by (nonlinear_arith)
        requires
            m == 4503599627370496 ==> p == m * b,
            m >= 4503599627370496,
            -(b as int) < 2 * (p - m * b),
            b >= 0,
    ;
    assert(p < 9007199254740992 * b) by (nonlinear_arith)
        requires
            m <= 9007199254740991,
            2 * (p - m * b) < b,
            b >= 0,
    ;
    assert(fits(p, 10000, t));
    lemma_nearest_at(p, 10000, t);
    lemma_half_even_is(p, b, m);
}

/// What is read from the ten-thousandths of a value has the same ten-thousandths, and is no more than
/// a thousand if the value is not.
proof fn lemma_settled(m: nat, t: nat)
    requires
        m < pow2(53),
        t <= TOP_SHIFT,
        t > 0 ==> m >= pow2(52),
    ensures
        ({
            let n = half_even((m * pow2(t)) * 10000, pow2(1074));
            nearest(n * pow2(1074), 10000) matches Some((k, s)) && half_even((k * pow2(s)) * 10000, pow2(1074)) == n
                && (m * pow2(t) <= 1000 * pow2(1074) ==> k * pow2(s) <= 1000 * pow2(1074))
        }),
{
    if t <= 1060 {
        lemma_fine(m, t);
    } else {
        lemma_coarse(m, t);
    }
    let v = m * pow2(t);
    if v <= 1000 * pow2(1074) {
        let n = half_even(v * 10000, pow2(1074));
        let u = pow2(1074);
        lemma_pow2_pos(1074);
        assert(v * 10000 <= 10000000 * u);
        lemma_half_even_at_most(v * 10000, u, 10000000);
        assert(n * u <= (1000 * u) * 10000) by (nonlinear_arith)
            requires
                n <= 10000000,
        ;
        lemma_at_most_thousand(n * u, 10000);
    }
}

proof fn lemma_digit(x: nat)
    requires
        x < 10,
    ensures
        is_digit(digit_char(x)),
        digit_char(x) as nat - 48 == x,
{
}

proof fn lemma_push_digit(s: Seq<char>, x: nat)
    requires
        only_digits(s),
        x < 10,
    ensures
        only_digits(s.push(digit_char(x))),
        digits_value(s.push(digit_char(x))) == 10 * digits_value(s) + x,
{
    lemma_digit(x);
    let t = s.push(digit_char(x));
    assert(t.drop_last() =~= s);
    assert forall|i: int| 0 <= i < t.len() implies is_digit(#[trigger] t[i]) by {
        if i < s.len() {
            assert(t[i] == s[i]);
        }
    }
}

/// A number in decimal is read as that number.
pub proof fn lemma_decimal(n: nat)
    ensures
        only_digits(decimal(n)),
        decimal(n).len() > 0,
        digits_value(decimal(n)) == n,
    decreases n,
{
    if n < 10 {
        let none = Seq::<char>::empty();
        assert(digits_value(none) == 0);
        lemma_push_digit(none, n);
        assert(none.push(digit_char(n)) =~= decimal(n));
    } else {
        lemma_decimal(n / 10);
        lemma_push_digit(decimal(n / 10), n % 10);
    }
}

/// A number that was filled up with zeros is read as that number.
pub proof fn lemma_padded(n: nat, width: nat)
    requires
        n < pow10(width),
    ensures
        only_digits(padded(n, width)),
        padded(n, width).len() == width,
        digits_value(padded(n, width)) == n,
    decreases width,
{
    if width > 0 {
        lemma_padded(n / 10, (width - 1) as nat);
        lemma_push_digit(padded(n / 10, (width - 1) as nat), n % 10);
    }
}

/// Digits behind digits.
pub proof fn lemma_digits_behind(a: Seq<char>, b: Seq<char>)
    requires
        only_digits(a),
        only_digits(b),
    ensures
        only_digits(a + b),
        digits_value(a + b) == digits_value(a) * pow10(b.len()) + digits_value(b),
    decreases b.len(),
{
    assert forall|i: int| 0 <= i < (a + b).len() implies is_digit(#[trigger] (a + b)[i]) by {
        if i < a.len() {
            assert((a + b)[i] == a[i]);
        } else {
            assert((a + b)[i] == b[i - a.len()]);
        }
    }
    if b.len() == 0 {
        assert(a + b =~= a);
        lemma_mul_basics(digits_value(a) as int);
    } else {
        let front = b.drop_last();
        assert forall|i: int| 0 <= i < front.len() implies is_digit(#[trigger] front[i]) by {
            assert(front[i] == b[i]);
        }
        lemma_digits_behind(a, front);
        assert((a + b).drop_last() =~= a + front);
        assert((a + b).last() == b.last());
        let x = digits_value(a) as int;
        let y = pow10(front.len()) as int;
        assert(is_digit(b[b.len() - 1]));
        assert(10 * (x * y) == x * (10 * y)) by (nonlinear_arith);
    }
}

/// A number of ten-thousandths, with a point before the last four digits.
spec fn point_four(n: nat) -> Seq<char> {
    decimal(n / 10000) + seq!['.'] + padded(n % 10000, 4)
}

proof fn lemma_ten_thousand()
    ensures
        pow10(4) == 10000,
{
    reveal_with_fuel(pow10, 5);
}

/// Ten-thousandths are read digit by digit.
proof fn lemma_reads_point(n: nat)
    ensures
        decimal_of(point_four(n)) == Some((n, -4int)),
        point_four(n).len() > 0,
        is_digit(point_four(n)[0]),
{
    lemma_ten_thousand();
    lemma_decimal(n / 10000);
    lemma_padded(n % 10000, 4);
    let high = decimal(n / 10000);
    let low = padded(n % 10000, 4);
    let body = point_four(n);
    assert(is_digit(high[0]));
    assert forall|j: int| 0 <= j < body.len() implies body[j] == '.' || is_digit(#[trigger] body[j]) by {
        if j < high.len() {
            assert(body[j] == high[j]);
        } else if j > high.len() {
            assert(body[j] == low[j - high.len() - 1]);
        }
    }
    lemma_index_at(body, 'e', 'E', body.len() as int);
    assert(body.take(body.len() as int) =~= body);
    assert forall|j: int| 0 <= j < high.len() implies body[j] != '.' by {
        assert(body[j] == high[j]);
        assert(is_digit(high[j]));
    }
    assert(body[high.len() as int] == '.');
    lemma_index_at(body, '.', '.', high.len() as int);
    assert(body.take(high.len() as int) =~= high);
    assert(body.skip(high.len() as int + 1) =~= low);
    lemma_digits_behind(high, low);
}

/// A finite value that was written with four decimals is read as the nearest value to those.
proof fn lemma_reads(x: Number)
    requires
        x is Finite,
    ensures
        ({
            let n = half_even(x.units() * 10000, pow2(1074));
            number_of(x.fixed(4)) == Some(signed(x->Finite_negative, nearest(n * pow2(1074), 10000)))
        }),
{
    lemma_ten_thousand();
    let n = half_even(x.units() * 10000, pow2(1074));
    let body = point_four(n);
    lemma_reads_point(n);
    let s = x.fixed(4);
    assert(is_digit(body[0]));
    assert(without_sign(s) =~= body) by {
        if x->Finite_negative {
            assert(s.skip(1) =~= body);
        }
    }
    assert(ascii_lower(body[0]) == body[0]);
    assert(!caseless(body, seq!['n', 'a', 'n']));
    assert(!caseless(body, seq!['i', 'n', 'f']));
    assert(!caseless(body, seq!['i', 'n', 'f', 'i', 'n', 'i', 't', 'y']));
}

proof fn lemma_finite_settles(x: Number)
    requires
        x is Finite,
        x.wf(),
        !x.above(1000),
    ensures
        mhz_text(x.fixed(4)) == x.fixed(4),
{
    lemma_ten_thousand();
    lemma_two_powers();
    lemma_reads(x);
    if let Number::Finite { negative, m, shift } = x {
        lemma_settled(m as nat, shift as nat);
        let n = half_even(x.units() * 10000, pow2(1074));
        lemma_nearest_wf(negative, n * pow2(1074), 10000);
        let y = signed(negative, nearest(n * pow2(1074), 10000));
        lemma_pow2_pos(1074);
    }
}

/// What a text stands for is a usual representation.
proof fn lemma_number_wf(s: Seq<char>)
    ensures
        number_of(s) matches Some(n) ==> n.wf(),
{
    if let Some((digits, e)) = decimal_of(without_sign(s)) {
        if e >= 0 {
            lemma_nearest_wf(has_minus(s), (digits * pow10(e as nat)) * pow2(1074), 1);
        } else {
            crate::digits::lemma_pow10_positive((-e) as nat);
            lemma_nearest_wf(has_minus(s), digits * pow2(1074), pow10((-e) as nat));
        }
    }
}

/// A frequency is brought to megahertz once: what was written in megahertz stays as it is, and is not
/// divided again. So it is up to a million; what is more than that, taken as kilohertz, is more than a
/// thousand megahertz, and would be taken for kilohertz again.
pub proof fn law_megahertz_stay(s: Seq<char>)
    requires
        number_of(s) matches Some(n) ==> !n.above(1_000_000),
    ensures
        mhz_text(mhz_text(s)) == mhz_text(s),
{
    lemma_number_wf(s);
    match number_of(s) {
        None => {},
        Some(Number::Nan) => {
            reveal_strlit("NaN");
            let t = "NaN"@;
            assert(without_sign(t) == t);
            assert(caseless(t, seq!['n', 'a', 'n']));
        },
        Some(Number::Infinite { negative }) => {
            reveal_strlit("inf");
            reveal_strlit("-inf");
            if negative {
                let t = "-inf"@;
                assert(t.skip(1) =~= seq!['i', 'n', 'f']);
                assert(caseless(without_sign(t), seq!['i', 'n', 'f']));
                assert(!caseless(without_sign(t), seq!['n', 'a', 'n']));
            } else {
                let t = "inf"@;
                assert(without_sign(t) == t);
                assert(caseless(t, seq!['i', 'n', 'f']));
                assert(!caseless(t, seq!['n', 'a', 'n']));
            }
        },
        Some(n) => {
            if n.above(1000) {
                if let Number::Finite { negative, m, shift } = n {
                    assert(!negative);
                    assert(n.units() <= (1000 * pow2(1074)) * 1000);
                    lemma_at_most_thousand(n.units(), 1000);
                    lemma_nearest_wf(negative, n.units(), 1000);
                    lemma_two_powers();
                    lemma_finite_settles(n.thousandth());
                }
            } else {
                lemma_finite_settles(n);
            }
        },
    }
}

} // verus!
