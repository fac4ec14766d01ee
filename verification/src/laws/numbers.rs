//! What holds of numbers: how they are read, rounded and written.
use crate::digits::{decimal, digit_char, padded, pow10, two_digits};
use crate::number::{half_even, lemma_fits_exists, lemma_half_even_close, nearest, shift_of, signed, Number};
use crate::reading::{digits_value, is_digit, number_of, only_digits, port_of, scaled};
use crate::settled::{lemma_decimal, lemma_digits_behind, lemma_padded};
use crate::text::lemma_index_at;
use vstd::arithmetic::div_mod::lemma_fundamental_div_mod;
use vstd::arithmetic::power2::{lemma_pow2_pos, pow2};
use vstd::prelude::*;

verus! {

/// Digits are the characters from 0 to 9; one more digit counts for one, and what stands before it for
/// ten times as much.
pub proof fn law_digits(s: Seq<char>, c: char)
    ensures
        is_digit(c) <==> '0' <= c <= '9',
        only_digits(s) <==> forall|i: int| 0 <= i < s.len() ==> '0' <= #[trigger] s[i] <= '9',
        digits_value(Seq::empty()) == 0,
        '0' <= c <= '9' ==> digits_value(s.push(c)) == 10 * digits_value(s) + (c as int - '0' as int),
        pow10(0) == 1,
        pow10(s.len() + 1) == 10 * pow10(s.len()),
{
    assert(s.push(c).drop_last() =~= s);
    assert(s.push(c).last() == c);
}

/// A number in decimal is read back as itself, and has no zero in front that is not all of it.
pub proof fn law_decimal(n: nat)
    ensures
        only_digits(decimal(n)),
        digits_value(decimal(n)) == n,
        decimal(n).len() > 0,
        decimal(n)[0] == '0' ==> n == 0 && decimal(n).len() == 1,
    decreases n,
{
    lemma_decimal(n);
    if n >= 10 {
        law_decimal(n / 10);
        assert(decimal(n)[0] == decimal(n / 10)[0]);
    } else {
        assert(decimal(n)[0] == digit_char(n));
    }
}

/// A number padded to a width that holds it has that width and is read back as itself; two digits are
/// a width of two.
pub proof fn law_padded(n: nat, width: nat)
    requires
        n < pow10(width),
    ensures
        only_digits(padded(n, width)),
        padded(n, width).len() == width,
        digits_value(padded(n, width)) == n,
        n < 100 ==> two_digits(n).len() == 2 && only_digits(two_digits(n)) && digits_value(two_digits(n)) == n,
{
    lemma_padded(n, width);
    reveal_with_fuel(pow10, 3);
    if n < 100 {
        lemma_padded(n, 2);
    }
}

proof fn lemma_plain_body(body: Seq<char>)
    requires
        body.len() > 0,
        is_digit(body[0]) || body[0] == '.',
    ensures
        crate::reading::without_sign(body) == body,
        !crate::reading::has_minus(body),
        !crate::reading::caseless(body, seq!['n', 'a', 'n']),
        !crate::reading::caseless(body, seq!['i', 'n', 'f']),
        !crate::reading::caseless(body, seq!['i', 'n', 'f', 'i', 'n', 'i', 't', 'y']),
{
    assert(crate::reading::ascii_lower(body[0]) == body[0]);
}

/// Digits stand for the whole number that they write; with a point among them, for that number divided
/// by ten as often as digits follow the point.
pub proof fn law_read_decimal(a: Seq<char>, b: Seq<char>)
    requires
        only_digits(a),
        only_digits(b),
        a.len() + b.len() > 0,
    ensures
        a.len() > 0 ==> number_of(a) == Some(scaled(false, digits_value(a), 0)),
        number_of(a + seq!['.'] + b) == Some(scaled(false, digits_value(a + b), -(b.len() as int))),
        digits_value(a + b) == digits_value(a) * pow10(b.len()) + digits_value(b),
{
    lemma_digits_behind(a, b);
    if a.len() > 0 {
        assert(is_digit(a[0]));
        lemma_plain_body(a);
        assert forall|j: int| 0 <= j < a.len() implies a[j] != 'e' && a[j] != 'E' && a[j] != '.' by {
            assert(is_digit(a[j]));
        }
        lemma_index_at(a, 'e', 'E', a.len() as int);
        lemma_index_at(a, '.', '.', a.len() as int);
        assert(a.take(a.len() as int) =~= a);
        assert(a + Seq::<char>::empty() =~= a);
    }
    let s = a + seq!['.'] + b;
    let n = a.len() as int;
    assert(s[n] == '.');
    if n > 0 {
        assert(s[0] == a[0] && is_digit(a[0]));
    }
    lemma_plain_body(s);
    assert forall|j: int| 0 <= j < s.len() implies s[j] != 'e' && s[j] != 'E' && (j < n ==> s[j] != '.') by {
        if j < n {
            assert(s[j] == a[j] && is_digit(a[j]));
        } else if j > n {
            assert(s[j] == b[j - n - 1] && is_digit(b[j - n - 1]));
        }
    }
    lemma_index_at(s, 'e', 'E', s.len() as int);
    assert(s.take(s.len() as int) =~= s);
    lemma_index_at(s, '.', '.', n);
    assert(s.take(n) =~= a);
    assert(s.skip(n + 1) =~= b);
}

/// An exponent behind a number, with a sign or without, counts the powers of ten.
pub proof fn law_read_exponent(a: Seq<char>, d: Seq<char>)
    requires
        only_digits(a),
        only_digits(d),
        a.len() > 0,
        d.len() > 0,
    ensures
        number_of(a + seq!['e'] + d) == Some(scaled(false, digits_value(a), digits_value(d) as int)),
        number_of(a + seq!['E'] + d) == Some(scaled(false, digits_value(a), digits_value(d) as int)),
        number_of(a + seq!['e'] + (seq!['-'] + d)) == Some(scaled(false, digits_value(a), -(digits_value(d) as int))),
        number_of(a + seq!['e'] + (seq!['+'] + d)) == Some(scaled(false, digits_value(a), digits_value(d) as int)),
{
    assert(is_digit(d[0]));
    lemma_exponent(a, 'e', d);
    lemma_exponent(a, 'E', d);
    lemma_exponent(a, 'e', seq!['-'] + d);
    lemma_exponent(a, 'e', seq!['+'] + d);
    assert((seq!['-'] + d).skip(1) =~= d);
    assert((seq!['+'] + d).skip(1) =~= d);
}

proof fn lemma_exponent(a: Seq<char>, c: char, x: Seq<char>)
    requires
        only_digits(a),
        a.len() > 0,
        c == 'e' || c == 'E',
    ensures
        crate::reading::exponent_of(x) matches Some(e) ==> number_of(a + seq![c] + x) == Some(
            scaled(false, digits_value(a), e),
        ),
{
    let s = a + seq![c] + x;
    let n = a.len() as int;
    assert(s[0] == a[0] && is_digit(a[0]));
    lemma_plain_body(s);
    assert forall|j: int| 0 <= j < n implies s[j] != 'e' && s[j] != 'E' && a[j] != '.' by {
        assert(s[j] == a[j] && is_digit(a[j]));
    }
    assert(s[n] == c);
    lemma_index_at(s, 'e', 'E', n);
    assert(s.take(n) =~= a);
    assert(s.skip(n + 1) =~= x);
    lemma_index_at(a, '.', '.', n);
    assert(a.take(n) =~= a);
    assert(a + Seq::<char>::empty() =~= a);
}

/// A minus turns the sign of what follows, and a plus does not.
pub proof fn law_read_sign(s: Seq<char>)
    requires
        s.len() > 0 ==> s[0] != '-' && s[0] != '+',
    ensures
        number_of(seq!['+'] + s) == number_of(s),
        match number_of(s) {
            Some(Number::Nan) => number_of(seq!['-'] + s) == Some(Number::Nan),
            Some(Number::Infinite { negative }) => !negative && number_of(seq!['-'] + s) == Some(
                Number::Infinite { negative: true },
            ),
            Some(Number::Finite { negative, m, shift }) => !negative && number_of(seq!['-'] + s) == Some(
                Number::Finite { negative: true, m, shift },
            ),
            None => number_of(seq!['-'] + s) is None,
        },
{
    let plus = seq!['+'] + s;
    let minus = seq!['-'] + s;
    assert(plus.skip(1) =~= s);
    assert(minus.skip(1) =~= s);
    assert(plus[0] == '+' && minus[0] == '-');
}

/// What is not a number and what is without bound can be written, in letters of either case.
pub proof fn law_read_words()
    ensures
        number_of(seq!['n', 'a', 'n']) == Some(Number::Nan),
        number_of(seq!['N', 'a', 'N']) == Some(Number::Nan),
        number_of(seq!['i', 'n', 'f']) == Some(Number::Infinite { negative: false }),
        number_of(seq!['I', 'N', 'F']) == Some(Number::Infinite { negative: false }),
        number_of(seq!['i', 'n', 'f', 'i', 'n', 'i', 't', 'y']) == Some(Number::Infinite { negative: false }),
{
    let a = seq!['n', 'a', 'n'];
    let b = seq!['N', 'a', 'N'];
    let c = seq!['i', 'n', 'f'];
    let d = seq!['I', 'N', 'F'];
    let e = seq!['i', 'n', 'f', 'i', 'n', 'i', 't', 'y'];
    assert(crate::reading::without_sign(a) == a && crate::reading::without_sign(b) == b);
    assert(crate::reading::caseless(a, a));
    assert(crate::reading::caseless(b, a));
    assert(crate::reading::caseless(c, c));
    assert(crate::reading::caseless(d, c));
    assert(crate::reading::caseless(e, e));
    assert(c[0] != 'n' && crate::reading::ascii_lower(c[0]) == 'i' && crate::reading::ascii_lower(d[0]) == 'i');
    assert(!crate::reading::caseless(c, a) && !crate::reading::caseless(d, a));
    assert(!crate::reading::caseless(e, a));
}

/// What is read is the nearest value: in units, the digits times their power of ten, rounded.
pub proof fn law_scaled(negative: bool, digits: nat, n: nat)
    ensures
        scaled(negative, digits, n as int) == signed(negative, nearest((digits * pow10(n)) * pow2(1074), 1)),
        n > 0 ==> scaled(negative, digits, -(n as int)) == signed(negative, nearest(digits * pow2(1074), pow10(n))),
{
}

/// A value has at most 53 bits before its zeros, and no more zeros than it needs; where it would need
/// more than there are, it is without bound.
pub proof fn law_range(p: nat, q: nat)
    requires
        q > 0,
    ensures
        ({
            let s = shift_of(p, q);
            &&& p < pow2(53) * (pow2(s) * q)
            &&& s > 0 ==> pow2(52) * (pow2(s) * q) <= p
            &&& s < 2045 ==> nearest(p, q) is Some
            &&& s > 2045 ==> nearest(p, q) is None
            &&& half_even(p, pow2(s) * q) < pow2(53) && s <= 2045 ==> nearest(p, q) == Some(
                (half_even(p, pow2(s) * q), s),
            )
        }),
{
    lemma_fits_exists(p, q);
}

/// To round is to go to the nearest whole number, and to the even one of two that are as near.
pub proof fn law_half_even(a: nat, b: nat)
    requires
        b > 0,
    ensures
        ({
            let r = half_even(a, b) as int;
            &&& -(b as int) <= 2 * (r * b - a) <= b
            &&& 2 * (r * b - a) == b || 2 * (r * b - a) == -(b as int) ==> r % 2 == 0
        }),
{
    lemma_half_even_close(a, b);
    lemma_fundamental_div_mod(a as int, b as int);
    let f = a as int / b as int;
    let rest = a as int % b as int;
    vstd::arithmetic::mul::lemma_mul_is_commutative(b as int, f);
    assert((f + 1) * b == f * b + b) by (nonlinear_arith);
}

/// A thousand times a value, and a thousandth of it, are the nearest values to these, with the same
/// sign; what is not a number or without bound stays as it is.
pub proof fn law_thousand(negative: bool, m: u64, shift: u32)
    ensures
        ({
            let x = Number::Finite { negative, m, shift };
            let units = m as nat * pow2(shift as nat);
            &&& x.units() == units
            &&& x.thousandfold() == signed(negative, nearest(units * 1000, 1))
            &&& x.thousandth() == signed(negative, nearest(units, 1000))
        }),
        Number::Nan.thousandfold() is Nan && Number::Nan.thousandth() is Nan,
        ({
            let x = Number::Infinite { negative };
            x.thousandfold() == x && x.thousandth() == x
        }),
        signed(negative, None) == (Number::Infinite { negative }),
        signed(negative, Some((m as nat, shift as nat))) == (Number::Finite { negative, m, shift }),
{
}

/// A value without its fraction is the largest whole number that is not greater.
pub proof fn law_truncated(n: Number)
    ensures
        n is Nan || n.position() <= 0 ==> n.truncated() == 0,
        n !is Nan && 0 < n.position() < (u64::MAX + 1) * pow2(1074) ==> n.truncated() * pow2(1074) <= n.position() < (
        n.truncated() + 1) * pow2(1074),
        n !is Nan && n.position() >= (u64::MAX + 1) * pow2(1074) ==> n.truncated() == u64::MAX,
{
    lemma_pow2_pos(1074);
    let u = pow2(1074) as int;
    let p = n.position();
    lemma_fundamental_div_mod(p, u);
    let q = p / u;
    let top = u64::MAX as int;
    vstd::arithmetic::mul::lemma_mul_is_commutative(u, q);
    assert((q + 1) * u == q * u + u) by (nonlinear_arith);
    if p < (top + 1) * u {
        assert(q <= top) by (nonlinear_arith)
            requires
                q * u <= p,
                p < (top + 1) * u,
                u > 0,
        ;
    } else {
        assert(q > top) by (nonlinear_arith)
            requires
                p < (q + 1) * u,
                p >= (top + 1) * u,
                u > 0,
        ;
        assert((top + 1) * u > 0) by (nonlinear_arith)
            requires
                u > 0,
                top > 0,
        ;
    }
    if p > 0 {
        assert(q >= 0) by (nonlinear_arith)
            requires
                p < (q + 1) * u,
                p > 0,
                u > 0,
        ;
    }
}

/// A value is written as the nearest number of tenths, thousandths or as many places as are asked for:
/// the whole part, a point, and the rest with all its places; with a minus in front of what is
/// negative.
pub proof fn law_fixed(m: u64, shift: u32, places: nat)
    requires
        places > 0,
    ensures
        ({
            let n = half_even((m as nat * pow2(shift as nat)) * pow10(places), pow2(1074));
            let t = decimal(n / pow10(places)) + seq!['.'] + padded(n % pow10(places), places);
            &&& (Number::Finite { negative: false, m, shift }).fixed(places) == t
            &&& (Number::Finite { negative: true, m, shift }).fixed(places) == seq!['-'] + t
        }),
        (Number::Finite { negative: false, m, shift }).fixed(0) == decimal(
            half_even(m as nat * pow2(shift as nat), pow2(1074)),
        ),
        Number::Nan.fixed(places) == "NaN"@,
        (Number::Infinite { negative: false }).fixed(places) == "inf"@,
        (Number::Infinite { negative: true }).fixed(places) == "-inf"@,
{
    let u = (m as nat * pow2(shift as nat)) as int;
    assert(u * 1 == u);
    assert(pow10(0) == 1);
}

/// A port is a whole number that sixteen bits can hold, written in digits; one plus may stand in front.
pub proof fn law_port_text(p: nat, s: Seq<char>)
    ensures
        p <= 65535 ==> port_of(decimal(p)) == Some(p as u16),
        p <= 65535 ==> port_of(seq!['+'] + decimal(p)) == Some(p as u16),
        p > 65535 ==> port_of(decimal(p)) is None,
        only_digits(s) && s.len() > 0 && digits_value(s) <= 65535 ==> port_of(s) == Some(digits_value(s) as u16),
        s.len() > 0 && s[0] != '+' && !only_digits(s) ==> port_of(s) is None,
        s.len() == 0 ==> port_of(s) is None,
{
    law_decimal(p);
    let d = decimal(p);
    assert(is_digit(d[0]));
    assert((seq!['+'] + d).skip(1) =~= d);
    if s.len() > 0 && only_digits(s) {
        assert(is_digit(s[0]));
    }
}

} // verus!
