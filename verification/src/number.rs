//! Frequencies as numbers: the 64-bit binary floating-point values of IEEE 754, held as integers.
//!
//! A magnitude is a whole number of units, the unit being the smallest positive value (two to the
//! power of -1074), so that every comparison and every rounding is a statement about integers.
use crate::digits::{
    all_digits, decimal, digits_of, lemma_written_decimal, lemma_written_padded, padded, plus_one,
    push_digits, is_zero, lemma_whole, lemma_pow10_adds, lemma_pow10_positive, lemma_value_bound,
    lemma_value_push, lemma_value_split, lemma_value_zeros, pow10, times, value, whole, LARGE,
};
use vstd::arithmetic::div_mod::*;
use vstd::arithmetic::mul::*;
use vstd::arithmetic::power2::*;
use vstd::prelude::*;

verus! {

/// The largest shift of a finite value.
pub const TOP_SHIFT: u32 = 2045;

/// How many doublings take the unit to one.
pub const ONE_SHIFT: u32 = 1074;

/// A 64-bit floating-point value.
#[derive(Clone, Copy)]
pub enum Number {
    Nan,
    Infinite { negative: bool },
    /// `m` doubled `shift` times, in units.
    Finite { negative: bool, m: u64, shift: u32 },
}

/// `a` divided by `b`, rounded to the nearest whole number, ties to the even one.
pub open spec fn half_even(a: nat, b: nat) -> nat {
    let down = a / b;
    let rest = a % b;
    if 2 * rest < b || (2 * rest == b && down % 2 == 0) {
        down
    } else {
        down + 1
    }
}

/// `shift` is the smallest shift that leaves `p / q` with at most 53 bits before the point.
pub open spec fn fits(p: nat, q: nat, shift: nat) -> bool {
    &&& p < pow2(53) * (pow2(shift) * q)
    &&& shift > 0 ==> pow2(52) * (pow2(shift) * q) <= p
}

/// The shift that fits.
pub open spec fn shift_of(p: nat, q: nat) -> nat {
    choose|shift: nat| fits(p, q, shift)
}

/// The significand and the shift of the finite value nearest to `p / q` units, ties to the even
/// significand; `None` where `p / q` rounds to more than the largest finite value.
pub open spec fn nearest(p: nat, q: nat) -> Option<(nat, nat)> {
    let shift = shift_of(p, q);
    let m = half_even(p, pow2(shift) * q);
    if m < pow2(53) {
        if shift <= TOP_SHIFT {
            Some((m, shift))
        } else {
            None
        }
    } else if shift < TOP_SHIFT {
        Some((pow2(52), shift + 1))
    } else {
        None
    }
}

/// The value with that sign and that rounded magnitude.
pub open spec fn signed(negative: bool, magnitude: Option<(nat, nat)>) -> Number {
    match magnitude {
        Some((m, shift)) => Number::Finite { negative, m: m as u64, shift: shift as u32 },
        None => Number::Infinite { negative },
    }
}

impl Number {
    /// The representation is the usual one: full 53 bits, or the smallest shift.
    pub open spec fn wf(self) -> bool {
        match self {
            Number::Finite { negative, m, shift } => {
                &&& m < pow2(53)
                &&& shift <= TOP_SHIFT
                &&& shift > 0 ==> m >= pow2(52)
            },
            _ => true,
        }
    }

    /// Where the value stands among all others, in units; infinities stand beyond every finite
    /// value, and a value that is not a number stands nowhere in particular.
    pub open spec fn position(self) -> int {
        match self {
            Number::Nan => 0,
            Number::Infinite { negative } => if negative {
                -pow2(2100)
            } else {
                pow2(2100) as int
            },
            Number::Finite { negative, m, shift } => if negative {
                -(self.units() as int)
            } else {
                self.units() as int
            },
        }
    }

    /// The value is less than `n`.
    pub open spec fn below(self, n: nat) -> bool {
        self !is Nan && self.position() < n * pow2(1074)
    }

    /// The value is greater than `n`.
    pub open spec fn above(self, n: nat) -> bool {
        self !is Nan && self.position() > n * pow2(1074)
    }

    /// The value without its fraction, held to what 64 bits without a sign can hold; zero for
    /// what is not a number.
    pub open spec fn truncated(self) -> nat {
        if self is Nan || self.position() <= 0 {
            0
        } else if self.position() / pow2(1074) as int > u64::MAX {
            u64::MAX as nat
        } else {
            (self.position() / pow2(1074) as int) as nat
        }
    }

    /// A thousand times the value, rounded.
    pub open spec fn thousandfold(self) -> Number {
        match self {
            Number::Finite { negative, m, shift } => signed(negative, nearest(self.units() * 1000, 1)),
            _ => self,
        }
    }

    /// A thousandth of the value, rounded.
    pub open spec fn thousandth(self) -> Number {
        match self {
            Number::Finite { negative, m, shift } => signed(negative, nearest(self.units(), 1000)),
            _ => self,
        }
    }

    /// The value written with `places` digits after the point, rounded half to even.
    pub open spec fn fixed(self, places: nat) -> Seq<char> {
        match self {
            Number::Nan => "NaN"@,
            Number::Infinite { negative } => if negative {
                "-inf"@
            } else {
                "inf"@
            },
            Number::Finite { negative, m, shift } => {
                let n = half_even(self.units() * pow10(places), pow2(1074));
                let magnitude = if places == 0 {
                    decimal(n)
                } else {
                    decimal(n / pow10(places)) + seq!['.'] + padded(n % pow10(places), places)
                };
                if negative {
                    seq!['-'] + magnitude
                } else {
                    magnitude
                }
            },
        }
    }

    /// The magnitude of a finite value, in units.
    pub open spec fn units(self) -> nat {
        match self {
            Number::Finite { negative, m, shift } => m as nat * pow2(shift as nat),
            _ => 0,
        }
    }
}

pub proof fn lemma_two_powers()
    ensures
        pow2(52) == 4503599627370496,
        pow2(53) == 9007199254740992,
        pow2(64) == 0x1_0000_0000_0000_0000,
        pow2(0) == 1,
        pow2(1) == 2,
{
    lemma2_to64();
    lemma2_to64_rest();
    lemma_pow2_unfold(64);
    assert(pow2(63) == 0x8000000000000000) by {
        lemma2_to64_rest();
    }
}

/// Scaling both numbers does not change the rounded quotient.
pub proof fn lemma_half_even_scale(a: nat, b: nat, c: nat)
    requires
        b > 0,
        c > 0,
    ensures
        b * c > 0,
        half_even(a * c, b * c) == half_even(a, b),
{
    let f = a / b;
    let r = a % b;
    lemma_fundamental_div_mod(a as int, b as int);
    assert(b * c > 0) by (nonlinear_arith)
        requires
            b > 0,
            c > 0,
    ;
    assert(a * c == (b * c) * f + r * c) by (nonlinear_arith)
        requires
            a == b * f + r,
    ;
    assert(r * c < b * c) by (nonlinear_arith)
        requires
            r < b,
            c > 0,
    ;
    assert(0 <= r * c);
    lemma_fundamental_div_mod_converse((a * c) as int, (b * c) as int, f as int, (r * c) as int);
    assert(2 * (r * c) < b * c <==> 2 * r < b) by (nonlinear_arith)
        requires
            c > 0,
    ;
    assert(2 * (r * c) == b * c <==> 2 * r == b) by (nonlinear_arith)
        requires
            c > 0,
    ;
}

/// At most one shift fits.
pub proof fn lemma_fits_unique(p: nat, q: nat, s: nat, t: nat)
    requires
        fits(p, q, s),
        fits(p, q, t),
    ensures
        s == t,
{
    if s < t {
        lemma_fits_order(p, q, s, t);
    } else if t < s {
        lemma_fits_order(p, q, t, s);
    }
}

proof fn lemma_fits_order(p: nat, q: nat, s: nat, t: nat)
    requires
        fits(p, q, s),
        s < t,
    ensures
        !fits(p, q, t),
{
    let d = (t - s - 1) as nat;
    lemma_pow2_adds(s, (t - s) as nat);
    lemma_pow2_unfold((t - s) as nat);
    lemma_pow2_pos(d);
    lemma_two_powers();
    let a = pow2(s) as int;
    let e = pow2(d) as int;
    assert(pow2(t) == a * (2 * e));
    assert(4503599627370496 * ((a * (2 * e)) * q) >= 9007199254740992 * (a * q)) by (nonlinear_arith)
        requires
            a >= 0,
            e >= 1,
            q >= 0,
    ;
}

/// Some shift fits.
pub proof fn lemma_fits_exists(p: nat, q: nat)
    requires
        q > 0,
    ensures
        exists|shift: nat| fits(p, q, shift),
{
    lemma_fits_search(p, q, 0);
}

proof fn lemma_fits_search(p: nat, q: nat, shift: nat)
    requires
        q > 0,
        shift > 0 ==> pow2(52) * (pow2(shift) * q) <= p,
    ensures
        exists|s: nat| fits(p, q, s),
    decreases
        (if pow2(53) * (pow2(shift) * q) <= p {
            p + 1 - pow2(53) * (pow2(shift) * q)
        } else {
            0
        }),
{
    if p < pow2(53) * (pow2(shift) * q) {
        assert(fits(p, q, shift));
    } else {
        lemma_two_powers();
        lemma_pow2_unfold(shift + 1);
        lemma_pow2_pos(shift);
        let a = pow2(shift) as int;
        assert((2 * a) * q == 2 * (a * q)) by (nonlinear_arith);
        assert(a * q > 0) by (nonlinear_arith)
            requires
                a > 0,
                q > 0,
        ;
        lemma_fits_search(p, q, shift + 1);
    }
}

/// Two fractions that are equal round alike.
pub proof fn lemma_nearest_scale(p: nat, q: nat, c: nat)
    requires
        q > 0,
        c > 0,
    ensures
        nearest(p * c, q * c) == nearest(p, q),
{
    lemma_fits_exists(p, q);
    let s = shift_of(p, q);
    let pc = p * c;
    let qc = q * c;
    let t = shift_of(pc, qc);
    let x = (pow2(s) * q) as int;
    assert(pow2(s) * (q * c) == x * c) by {
        lemma_mul_is_associative(pow2(s) as int, q as int, c as int);
    }
    assert(pow2(53) * (x * c) == (pow2(53) * x) * c) by {
        lemma_mul_is_associative(pow2(53) as int, x, c as int);
    }
    assert(pow2(52) * (x * c) == (pow2(52) * x) * c) by {
        lemma_mul_is_associative(pow2(52) as int, x, c as int);
    }
    let hi = pow2(53) * x;
    let lo = pow2(52) * x;
    assert(p < hi ==> p * c < hi * c) by (nonlinear_arith)
        requires
            c > 0,
    ;
    assert(lo <= p ==> lo * c <= p * c) by (nonlinear_arith)
        requires
            c > 0,
    ;
    assert(fits(p * c, q * c, s));
    lemma_fits_unique(p * c, q * c, s, t);
    lemma_pow2_pos(s);
    assert(x > 0) by (nonlinear_arith)
        requires
            x == pow2(s) * q,
            pow2(s) > 0,
            q > 0,
    ;
    lemma_half_even_scale(p, x as nat, c);
}

/// The rounded value, where the shift that fits is known.
pub proof fn lemma_nearest_at(p: nat, q: nat, shift: nat)
    requires
        fits(p, q, shift),
    ensures
        shift_of(p, q) == shift,
{
    let t = shift_of(p, q);
    lemma_fits_unique(p, q, shift, t);
}

/// The two fractions `n / q` and `m / r` are equal.
spec fn same_ratio(n: nat, q: nat, m: nat, r: nat) -> bool {
    n * r == m * q
}

proof fn lemma_nearest_same(n: nat, q: nat, m: nat, r: nat)
    requires
        same_ratio(n, q, m, r),
        q > 0,
        r > 0,
    ensures
        nearest(n, q) == nearest(m, r),
{
    lemma_nearest_scale(n, q, r);
    lemma_nearest_scale(m, r, q);
    lemma_mul_is_commutative(q as int, r as int);
}

proof fn lemma_nearest_overflow(v: nat, q: nat, k: nat)
    requires
        q > 0,
        v / q >= pow2(53),
        k >= TOP_SHIFT,
    ensures
        nearest(v * pow2(k), q) is None,
{
    let n = v * pow2(k);
    lemma_fits_exists(n, q);
    let t = shift_of(n, q);
    lemma_two_powers();
    if t <= k {
        lemma_fundamental_div_mod(v as int, q as int);
        lemma_pow2_adds(t, (k - t) as nat);
        lemma_pow2_pos((k - t) as nat);
        lemma_pow2_pos(t);
        let a = pow2(t) as int;
        let e = pow2((k - t) as nat) as int;
        let f = (v / q) as int;
        assert(v >= f * q) by (nonlinear_arith)
            requires
                v == q * f + v % q,
                v % q >= 0,
        ;
        assert(v * (a * e) >= 9007199254740992 * (a * q)) by (nonlinear_arith)
            requires
                v >= f * q,
                f >= 9007199254740992,
                a >= 1,
                e >= 1,
                q > 0,
        ;
    }
}

/// The shift `k` fits, and what is below the point decides the rounding.
proof fn lemma_nearest_here(v: nat, q: nat, k: nat)
    requires
        q > 0,
        v / q < pow2(53),
        k > 0 ==> v / q >= pow2(52),
    ensures
        shift_of(v * pow2(k), q) == k,
        half_even(v * pow2(k), pow2(k) * q) == half_even(v, q),
{
    lemma_two_powers();
    lemma_fundamental_div_mod(v as int, q as int);
    lemma_pow2_pos(k);
    let a = pow2(k) as int;
    let f = (v / q) as int;
    let rest = (v % q) as int;
    assert(v * a < 9007199254740992 * (a * q)) by (nonlinear_arith)
        requires
            v == q * f + rest,
            rest < q,
            f < 9007199254740992,
            a >= 1,
            q > 0,
    ;
    if k > 0 {
        assert(4503599627370496 * (a * q) <= v * a) by (nonlinear_arith)
            requires
                v == q * f + rest,
                rest >= 0,
                f >= 4503599627370496,
                a >= 1,
                q > 0,
        ;
    }
    let n = v * pow2(k);
    assert(fits(n, q, k));
    lemma_nearest_at(n, q, k);
    lemma_half_even_scale(v, q, pow2(k));
    lemma_mul_is_commutative(pow2(k) as int, q as int);
}

/// Whether the part below the point asks for rounding up.
fn rounds_up(d: &Vec<u8>, s: usize, odd: bool) -> (r: bool)
    requires
        all_digits(d@),
        s <= d@.len(),
    ensures
        ({
            let rest = value(d@.take(s as int));
            let q = pow10(s as nat);
            r == !(2 * rest < q || (2 * rest == q && !odd))
        }),
{
    if s == 0 {
        proof {
            assert(d@.take(0).len() == 0);
        }
        return false;
    }
    let t = d[s - 1];
    proof {
        let low = d@.take(s as int);
        let k = (s - 1) as nat;
        let rest = low.take(k as int);
        assert(low =~= rest.push(t));
        lemma_value_push(rest, t);
        assert forall|i: int| 0 <= i < rest.len() implies #[trigger] rest[i] <= 9 by {
            assert(rest[i] == d@[i]);
        }
        lemma_value_bound(rest);
        assert(rest =~= d@.take(k as int));
        lemma_pow10_positive(k);
        let p = pow10(k) as int;
        let x = t as int;
        let v = value(rest) as int;
        assert(x < 5 ==> 2 * (v + x * p) < 10 * p) by (nonlinear_arith)
            requires
                v < p,
                p > 0,
        ;
        assert(x > 5 ==> 2 * (v + x * p) > 10 * p) by (nonlinear_arith)
            requires
                v >= 0,
                p > 0,
        ;
        assert(x == 5 ==> x * p == 5 * p);
    }
    if t != 5 {
        t > 5
    } else if !is_zero(d, s - 1) {
        true
    } else {
        odd
    }
}

/// The nearest finite value to the number with `s` digits below the point, doubled `shift` times.
pub(crate) fn round_units(start: &Vec<u8>, s0: u128, shift: u32) -> (r: Option<(u64, u32)>)
    requires
        all_digits(start@),
        shift <= TOP_SHIFT,
        s0 < 0x1_0000_0000_0000_0000_0000_0000,
    ensures
        match r {
            Some((m, k)) => nearest(value(start@) * pow2(shift as nat), pow10(s0 as nat)) == Some(
                (m as nat, k as nat),
            ),
            None => nearest(value(start@) * pow2(shift as nat), pow10(s0 as nat)) is None,
        },
{
    let ghost n0 = value(start@) * pow2(shift as nat);
    let ghost q0 = pow10(s0 as nat);
    let mut d: Vec<u8> = times(start, 1);
    let mut s: u128 = s0;
    let mut k: u32 = shift;
    let mut w: u64 = whole(&d, s);
    proof {
        lemma_two_powers();
        lemma_pow10_positive(s0 as nat);
        lemma_mul_basics(value(start@) as int);
    }
    while w >= 9007199254740992
        invariant
            all_digits(d@),
            k <= TOP_SHIFT,
            s - s0 == k - shift,
            s0 < 0x1_0000_0000_0000_0000_0000_0000,
            same_ratio(value(d@) * pow2(k as nat), pow10(s as nat), n0, q0),
            value(d@) / pow10(s as nat) < LARGE ==> w == value(d@) / pow10(s as nat),
            value(d@) / pow10(s as nat) >= LARGE ==> w == LARGE,
            q0 > 0,
            pow2(53) == 9007199254740992,
            n0 == value(start@) * pow2(shift as nat),
            q0 == pow10(s0 as nat),
        decreases TOP_SHIFT - k,
    {
        proof {
            lemma_pow10_positive(s as nat);
        }
        if k >= TOP_SHIFT {
            proof {
                lemma_nearest_overflow(value(d@), pow10(s as nat), k as nat);
                lemma_nearest_same(value(d@) * pow2(k as nat), pow10(s as nat), n0, q0);
            }
            return None;
        }
        let ghost v = value(d@) as int;
        let ghost q = pow10(s as nat) as int;
        d = times(&d, 5);
        proof {
            lemma_pow2_unfold((k + 1) as nat);
            let a = pow2(k as nat) as int;
            assert((5 * v) * (2 * a) * q0 == 10 * (v * a * q0)) by (nonlinear_arith);
            assert(n0 * (10 * q) == 10 * (n0 * q)) by (nonlinear_arith);
        }
        s += 1;
        k += 1;
        w = whole(&d, s);
    }
    while k > 0 && w < 4503599627370496
        invariant
            all_digits(d@),
            k <= TOP_SHIFT,
            same_ratio(value(d@) * pow2(k as nat), pow10(s as nat), n0, q0),
            w == value(d@) / pow10(s as nat),
            w < 9007199254740992,
        decreases k,
    {
        let ghost v = value(d@) as int;
        let ghost q = pow10(s as nat) as int;
        d = times(&d, 2);
        proof {
            lemma_pow2_unfold(k as nat);
            let a = pow2((k - 1) as nat) as int;
            assert((2 * v) * a == v * (2 * a)) by (nonlinear_arith);
            lemma_pow10_positive(s as nat);
            lemma_fundamental_div_mod(v, q);
            let f = (v / q) as int;
            lemma_fundamental_div_mod(2 * v, q);
            let g = ((2 * v) / q) as int;
            assert(g < 9007199254740992) by (nonlinear_arith)
                requires
                    v == q * f + v % q,
                    v % q < q,
                    f < 4503599627370496,
                    2 * v == q * g + (2 * v) % q,
                    (2 * v) % q >= 0,
                    q > 0,
            ;
        }
        k -= 1;
        w = whole(&d, s);
    }
    let ghost v = value(d@);
    let ghost q = pow10(s as nat);
    proof {
        lemma_pow10_positive(s as nat);
        lemma_nearest_same(v * pow2(k as nat), q, n0, q0);
        lemma_nearest_here(v, q, k as nat);
        lemma_whole(d@, s as nat);
    }
    while (d.len() as u128) < s
        invariant
            all_digits(d@),
            value(d@) == v,
        decreases s - d@.len(),
    {
        proof {
            lemma_value_push(d@, 0);
            lemma_mul_basics(pow10(d@.len()) as int);
        }
        d.push(0);
    }
    proof {
        lemma_whole(d@, s as nat);
    }
    if rounds_up(&d, s as usize, w % 2 == 1) {
        w = w + 1;
    }
    if w < 9007199254740992 {
        Some((w, k))
    } else if k < TOP_SHIFT {
        Some((4503599627370496, k + 1))
    } else {
        None
    }
}

/// The significand and the shift of the value nearest to `d / q`, for small numbers.
pub(crate) fn round_small(d: u64, q: u64) -> (r: (u64, u32))
    requires
        d < 1_000_000_000_000_000,
        0 < q <= 1_000_000_000_000_000,
    ensures
        nearest(d as nat * pow2(1074), q as nat) == Some((r.0 as nat, r.1 as nat)),
{
    let mut a: u128 = d as u128;
    let mut k: u32 = ONE_SHIFT;
    let ghost p = d as nat * pow2(1074);
    while k > 0 && a < 4503599627370496 * (q as u128)
        invariant
            k <= ONE_SHIFT,
            0 < q <= 1_000_000_000_000_000,
            a < 9007199254740992 * q,
            a as nat * pow2(k as nat) == p,
        decreases k,
    {
        proof {
            lemma_pow2_unfold(k as nat);
            let b = pow2((k - 1) as nat) as int;
            let x = a as int;
            assert(x * (2 * b) == (2 * x) * b) by (nonlinear_arith);
        }
        a = a * 2;
        k -= 1;
    }
    proof {
        lemma_two_powers();
        lemma_fundamental_div_mod(a as int, q as int);
        let f = a as int / q as int;
        assert(f < 9007199254740992) by (nonlinear_arith)
            requires
                a == q * f + a as int % q as int,
                a as int % q as int >= 0,
                a < 9007199254740992 * q,
                q > 0,
        ;
        if k > 0 {
            assert(f >= 4503599627370496) by (nonlinear_arith)
                requires
                    a == q * f + a as int % q as int,
                    (a as int % q as int) < q,
                    a >= 4503599627370496 * q,
                    q > 0,
            ;
        }
        lemma_nearest_here(a as nat, q as nat, k as nat);
    }
    let down: u64 = (a / q as u128) as u64;
    let rest: u64 = (a % q as u128) as u64;
    let up = 2 * rest > q || (2 * rest == q && down % 2 == 1);
    let w: u64 = if up {
        down + 1
    } else {
        down
    };
    if w < 9007199254740992 {
        (w, k)
    } else {
        (4503599627370496, k + 1)
    }
}

/// What `nearest` gives is a usual representation.
pub proof fn lemma_nearest_wf(negative: bool, p: nat, q: nat)
    requires
        q > 0,
    ensures
        signed(negative, nearest(p, q)).wf(),
        nearest(p, q) matches Some((m, shift)) ==> m < pow2(53) && shift <= TOP_SHIFT,
{
    lemma_two_powers();
    lemma_fits_exists(p, q);
    let k = shift_of(p, q);
    let b = (pow2(k) * q) as int;
    lemma_pow2_pos(k);
    assert(b > 0) by (nonlinear_arith)
        requires
            b == pow2(k) * q,
            pow2(k) > 0,
            q > 0,
    ;
    lemma_fundamental_div_mod(p as int, b);
    let f = p as int / b;
    if k > 0 {
        assert(f >= 4503599627370496) by (nonlinear_arith)
            requires
                p == b * f + p as int % b,
                p as int % b < b,
                4503599627370496 * b <= p,
                b > 0,
        ;
    }
    assert(f >= 0) by (nonlinear_arith)
        requires
            p == b * f + p as int % b,
            p as int % b < b,
            p >= 0,
            b > 0,
    ;
}

/// The whole part of a finite magnitude.
proof fn lemma_units_split(m: nat, shift: nat, t: nat)
    requires
        shift + t == 1074,
    ensures
        (m * pow2(shift)) / pow2(1074) == m / pow2(t),
        (m * pow2(shift)) % pow2(1074) == 0 <==> m % pow2(t) == 0,
{
    lemma_pow2_adds(shift, t);
    lemma_pow2_pos(shift);
    lemma_pow2_pos(t);
    lemma_fundamental_div_mod(m as int, pow2(t) as int);
    let a = pow2(shift) as int;
    let b = pow2(t) as int;
    let f = m as int / b;
    let r = m as int % b;
    assert(m * a == f * (a * b) + r * a) by (nonlinear_arith)
        requires
            m == b * f + r,
    ;
    assert(0 <= r * a < a * b) by (nonlinear_arith)
        requires
            0 <= r < b,
            a > 0,
    ;
    lemma_fundamental_div_mod_converse(m * a, a * b, f, r * a);
    assert(r * a == 0 <==> r == 0) by (nonlinear_arith)
        requires
            a > 0,
    ;
}

/// The whole part of `m` doubled `shift` times in units, held to 64 bits, and whether nothing was
/// cut off.
fn whole_units(m: u64, shift: u32) -> (r: (u64, bool))
    requires
        m < pow2(53),
        shift <= TOP_SHIFT,
        shift > 0 ==> m >= pow2(52),
    ensures
        ({
            let units = m as nat * pow2(shift as nat);
            let whole = units / pow2(1074);
            &&& r.0 as nat == if whole > u64::MAX {
                u64::MAX as nat
            } else {
                whole
            }
            &&& r.1 == (units % pow2(1074) == 0)
        }),
{
    proof {
        lemma_two_powers();
    }
    if shift >= ONE_SHIFT {
        let e: u32 = shift - ONE_SHIFT;
        proof {
            lemma_pow2_adds(e as nat, 1074);
            lemma_pow2_pos(1074);
            let a = pow2(e as nat) as int;
            let b = pow2(1074) as int;
            assert(m * (a * b) == (m * a) * b) by (nonlinear_arith);
            lemma_div_multiples_vanish((m * a) as int, b);
            lemma_mul_is_commutative((m * a) as int, b);
            lemma_mod_multiples_basic((m * a) as int, b);
        }
        if e > 11 {
            proof {
                lemma_pow2_adds(12, (e - 12) as nat);
                lemma_pow2_pos((e - 12) as nat);
                lemma2_to64();
                let c = pow2((e - 12) as nat) as int;
                assert(m * (4096 * c) > 0xffff_ffff_ffff_ffff) by (nonlinear_arith)
                    requires
                        m >= 4503599627370496,
                        c >= 1,
                ;
            }
            return (u64::MAX, true);
        }
        let mut w: u64 = m;
        let mut j: u32 = 0;
        proof {
            lemma_mul_basics(m as int);
        }
        while j < e
            invariant
                j <= e <= 11,
                w == m * pow2(j as nat),
                m < 9007199254740992,
            decreases e - j,
        {
            proof {
                lemma2_to64();
                lemma_pow2_unfold((j + 1) as nat);
                lemma_pow2_le(j as nat, 10);
                let c = pow2(j as nat) as int;
                assert(m * c <= 9007199254740991 * 1024) by (nonlinear_arith)
                    requires
                        m <= 9007199254740991,
                        c <= 1024,
                        c >= 0,
                ;
                assert(m * (2 * c) == 2 * (m * c)) by (nonlinear_arith);
            }
            w = 2 * w;
            j += 1;
        }
        (w, true)
    } else {
        let t: u32 = ONE_SHIFT - shift;
        proof {
            lemma_units_split(m as nat, shift as nat, t as nat);
        }
        let mut w: u64 = m;
        let mut exact = true;
        let mut j: u32 = 0;
        while j < t
            invariant
                j <= t <= ONE_SHIFT,
                w == m as nat / pow2(j as nat),
                exact == (m as nat % pow2(j as nat) == 0),
            decreases t - j,
        {
            proof {
                lemma_pow2_unfold((j + 1) as nat);
                lemma_pow2_pos(j as nat);
                let c = pow2(j as nat) as int;
                lemma_div_denominator(m as int, c, 2);
                lemma_mul_is_commutative(2, c);
                lemma_fundamental_div_mod(m as int, c);
                lemma_fundamental_div_mod(w as int, 2);
                let h = (w / 2) as int;
                let low = (w % 2) as int;
                let r = m as int % c;
                assert(m == (2 * c) * h + (low * c + r)) by (nonlinear_arith)
                    requires
                        m == c * w + r,
                        w == 2 * h + low,
                ;
                assert(0 <= low * c + r < 2 * c) by (nonlinear_arith)
                    requires
                        0 <= low <= 1,
                        0 <= r < c,
                ;
                lemma_fundamental_div_mod_converse(m as int, 2 * c, h, low * c + r);
                assert(low * c + r == 0 <==> low == 0 && r == 0) by (nonlinear_arith)
                    requires
                        0 <= low <= 1,
                        0 <= r < c,
                ;
            }
            if w % 2 == 1 {
                exact = false;
            }
            w = w / 2;
            j += 1;
        }
        (w, exact)
    }
}

pub proof fn lemma_pow2_le(a: nat, b: nat)
    requires
        a <= b,
    ensures
        pow2(a) <= pow2(b),
    decreases b,
{
    if a < b {
        lemma_pow2_le(a, (b - 1) as nat);
        lemma_pow2_unfold(b);
    }
}

/// Finite values stand strictly between the infinities.
proof fn lemma_finite_inside(m: nat, shift: nat)
    requires
        m < pow2(53),
        shift <= TOP_SHIFT,
    ensures
        m * pow2(shift) < pow2(2100),
{
    lemma_pow2_le(shift, 2045);
    lemma_pow2_adds(53, 2045);
    lemma_pow2_adds(2, 2098);
    lemma_pow2_pos(2045);
    lemma_pow2_pos(2098);
    lemma_two_powers();
    lemma2_to64();
    let a = pow2(shift) as int;
    let b = pow2(2045) as int;
    assert(m * a <= 9007199254740992 * b) by (nonlinear_arith)
        requires
            0 <= m <= 9007199254740992,
            0 <= a <= b,
    ;
}

/// The position of a whole number is out of reach of no number that matters here.
proof fn lemma_small_inside(n: nat)
    requires
        n < 0x1_0000_0000_0000_0000,
    ensures
        n * pow2(1074) < pow2(2100),
        pow2(2100) / pow2(1074) > u64::MAX,
{
    lemma_two_powers();
    lemma_pow2_adds(64, 1074);
    lemma_pow2_adds(1026, 1074);
    lemma_pow2_le(64, 1026);
    lemma_pow2_pos(1074);
    lemma_pow2_pos(1026);
    let a = pow2(1074) as int;
    let b = pow2(1026) as int;
    assert(n * a < b * a) by (nonlinear_arith)
        requires
            n < b,
            a > 0,
    ;
    lemma_div_multiples_vanish(b, a);
    lemma_mul_is_commutative(a, b);
}

impl Number {
    /// The value of its 64 bits as they are stored: sign, exponent, fraction.
    pub fn from_bits(bits: u64) -> (r: Number)
        ensures
            r.wf(),
            ({
                let exponent = (bits / 0x10_0000_0000_0000) % 2048;
                let fraction = bits % 0x10_0000_0000_0000;
                let negative = bits >= 0x8000_0000_0000_0000;
                if exponent == 2047 {
                    if fraction == 0 {
                        r == (Number::Infinite { negative })
                    } else {
                        r == Number::Nan
                    }
                } else if exponent == 0 {
                    r == (Number::Finite { negative, m: fraction, shift: 0 })
                } else {
                    r == (Number::Finite {
                        negative,
                        m: (fraction + 0x10_0000_0000_0000) as u64,
                        shift: (exponent - 1) as u32,
                    })
                }
            }),
    {
        proof {
            lemma_two_powers();
        }
        let negative = bits >= 0x8000_0000_0000_0000;
        let exponent: u64 = (bits / 0x10_0000_0000_0000) % 2048;
        let fraction: u64 = bits % 0x10_0000_0000_0000;
        if exponent == 2047 {
            if fraction == 0 {
                Number::Infinite { negative }
            } else {
                Number::Nan
            }
        } else if exponent == 0 {
            Number::Finite { negative, m: fraction, shift: 0 }
        } else {
            Number::Finite {
                negative,
                m: fraction + 0x10_0000_0000_0000,
                shift: (exponent - 1) as u32,
            }
        }
    }

    /// The value without its fraction.
    pub fn truncate(&self) -> (r: u64)
        requires
            self.wf(),
        ensures
            r as nat == self.truncated(),
    {
        proof {
            lemma_small_inside(0);
            lemma_pow2_pos(1074);
            lemma_pow2_pos(2100);
        }
        match *self {
            Number::Nan => 0,
            Number::Infinite { negative } => if negative {
                0
            } else {
                u64::MAX
            },
            Number::Finite { negative, m, shift } => {
                if negative {
                    0
                } else {
                    let w = whole_units(m, shift);
                    proof {
                        if self.position() == 0 {
                            lemma_div_basics(pow2(1074) as int);
                        }
                    }
                    w.0
                }
            },
        }
    }

    /// Whether the value is less than `n`.
    pub fn is_below(&self, n: u64) -> (r: bool)
        requires
            self.wf(),
            0 < n < u64::MAX,
        ensures
            r == self.below(n as nat),
    {
        proof {
            lemma_small_inside(n as nat);
            lemma_pow2_pos(1074);
            lemma_pow2_pos(2100);
            let b = pow2(1074) as int;
            assert(n * b > 0) by (nonlinear_arith)
                requires
                    n > 0,
                    b > 0,
            ;
        }
        match *self {
            Number::Nan => false,
            Number::Infinite { negative } => negative,
            Number::Finite { negative, m, shift } => {
                if negative {
                    true
                } else {
                    let w = whole_units(m, shift);
                    proof {
                        lemma_below_whole(self.units(), pow2(1074), n as nat);
                    }
                    w.0 < n
                }
            },
        }
    }

    /// Whether the value is greater than `n`.
    pub fn is_above(&self, n: u64) -> (r: bool)
        requires
            self.wf(),
            n < u64::MAX,
        ensures
            r == self.above(n as nat),
    {
        proof {
            lemma_small_inside(n as nat);
            lemma_pow2_pos(1074);
            lemma_pow2_pos(2100);
            let b = pow2(1074) as int;
            assert(n * b >= 0) by (nonlinear_arith)
                requires
                    n >= 0,
                    b > 0,
            ;
        }
        match *self {
            Number::Nan => false,
            Number::Infinite { negative } => !negative,
            Number::Finite { negative, m, shift } => {
                if negative {
                    false
                } else {
                    let w = whole_units(m, shift);
                    proof {
                        lemma_below_whole(self.units(), pow2(1074), n as nat);
                    }
                    w.0 > n || (w.0 == n && !w.1)
                }
            },
        }
    }

    /// A thousand times the value.
    pub fn times_thousand(&self) -> (r: Number)
        requires
            self.wf(),
        ensures
            r == self.thousandfold(),
            r.wf(),
    {
        match *self {
            Number::Finite { negative, m, shift } => {
                proof {
                    lemma_two_powers();
                    let a = pow2(shift as nat) as int;
                    assert((m * 1000) * a == (m * a) * 1000) by (nonlinear_arith);
                    lemma_nearest_wf(negative, self.units() * 1000, 1);
                    assert(pow10(0) == 1);
                }
                let d = digits_of(m * 1000);
                match round_units(&d, 0, shift) {
                    Some((m, shift)) => Number::Finite { negative, m, shift },
                    None => Number::Infinite { negative },
                }
            },
            other => other,
        }
    }

    /// A thousandth of the value.
    pub fn over_thousand(&self) -> (r: Number)
        requires
            self.wf(),
        ensures
            r == self.thousandth(),
            r.wf(),
    {
        match *self {
            Number::Finite { negative, m, shift } => {
                proof {
                    lemma_nearest_wf(negative, self.units(), 1000);
                    assert(pow10(3) == 1000) by {
                        reveal_with_fuel(pow10, 4);
                    }
                }
                let d = digits_of(m);
                match round_units(&d, 3, shift) {
                    Some((m, shift)) => Number::Finite { negative, m, shift },
                    None => Number::Infinite { negative },
                }
            },
            other => other,
        }
    }

    /// Whether the value comes before the other one in numeric order.
    pub fn is_less(&self, other: &Number) -> (r: bool)
        requires
            self.wf(),
            other.wf(),
            self !is Nan,
            other !is Nan,
        ensures
            r == (self.position() < other.position()),
    {
        proof {
            lemma_pow2_pos(2100);
        }
        match *self {
            Number::Nan => false,
            Number::Infinite { negative } => match *other {
                Number::Infinite { negative: other_negative } => negative && !other_negative,
                Number::Finite { negative: n2, m, shift } => {
                    proof {
                        lemma_finite_inside(m as nat, shift as nat);
                    }
                    negative
                },
                Number::Nan => false,
            },
            Number::Finite { negative: n1, m: m1, shift: s1 } => {
                proof {
                    lemma_finite_inside(m1 as nat, s1 as nat);
                }
                match *other {
                    Number::Infinite { negative } => !negative,
                    Number::Finite { negative: n2, m: m2, shift: s2 } => {
                        proof {
                            lemma_units_order(m1 as nat, s1 as nat, m2 as nat, s2 as nat);
                            lemma_units_order(m2 as nat, s2 as nat, m1 as nat, s1 as nat);
                            lemma_units_zero(m1 as nat, s1 as nat);
                            lemma_units_zero(m2 as nat, s2 as nat);
                        }
                        let first = s1 < s2 || (s1 == s2 && m1 < m2);
                        let second = s2 < s1 || (s1 == s2 && m2 < m1);
                        if n1 && n2 {
                            second
                        } else if n1 {
                            m1 > 0 || m2 > 0
                        } else if n2 {
                            false
                        } else {
                            first
                        }
                    },
                    Number::Nan => false,
                }
            },
        }
    }
}

proof fn lemma_units_zero(m: nat, shift: nat)
    ensures
        m * pow2(shift) == 0 <==> m == 0,
{
    lemma_pow2_pos(shift);
    let a = pow2(shift) as int;
    assert(m * a == 0 <==> m == 0) by (nonlinear_arith)
        requires
            a > 0,
    ;
}

/// Magnitudes are ordered by shift, then by significand.
proof fn lemma_units_order(m: nat, s: nat, n: nat, t: nat)
    requires
        m < pow2(53),
        n < pow2(53),
        s > 0 ==> m >= pow2(52),
        t > 0 ==> n >= pow2(52),
    ensures
        m * pow2(s) < n * pow2(t) <==> s < t || (s == t && m < n),
{
    lemma_two_powers();
    if s < t {
        lemma_units_less(m, s, n, t);
    } else if t < s {
        lemma_units_less(n, t, m, s);
    } else {
        lemma_pow2_pos(s);
        let a = pow2(s) as int;
        assert(m * a < n * a <==> m < n) by (nonlinear_arith)
            requires
                a > 0,
        ;
    }
}

proof fn lemma_units_less(m: nat, s: nat, n: nat, t: nat)
    requires
        m < pow2(53),
        n >= pow2(52),
        s < t,
    ensures
        m * pow2(s) < n * pow2(t),
{
    lemma_two_powers();
    let d = (t - s - 1) as nat;
    lemma_pow2_adds(s, (t - s) as nat);
    lemma_pow2_unfold((t - s) as nat);
    lemma_pow2_pos(d);
    lemma_pow2_pos(s);
    let a = pow2(s) as int;
    let e = pow2(d) as int;
    assert(m * a < n * (a * (2 * e))) by (nonlinear_arith)
        requires
            m < 9007199254740992,
            n >= 4503599627370496,
            a > 0,
            e >= 1,
    ;
}

proof fn lemma_below_whole(units: nat, b: nat, n: nat)
    requires
        b > 0,
    ensures
        units < n * b <==> units / b < n,
        units > n * b <==> units / b > n || (units / b == n && units % b != 0),
{
    lemma_fundamental_div_mod(units as int, b as int);
    let f = (units / b) as int;
    let r = (units % b) as int;
    assert(units < n * b <==> f < n) by (nonlinear_arith)
        requires
            units == b * f + r,
            0 <= r < b,
            b > 0,
    ;
    assert(units > n * b <==> f > n || (f == n && r != 0)) by (nonlinear_arith)
        requires
            units == b * f + r,
            0 <= r < b,
            b > 0,
    ;
}

proof fn lemma_half_even_same(a: nat, b: nat, c: nat, d: nat)
    requires
        b > 0,
        d > 0,
        a * d == c * b,
    ensures
        half_even(a, b) == half_even(c, d),
{
    lemma_half_even_scale(a, b, d);
    lemma_half_even_scale(c, d, b);
    lemma_mul_is_commutative(b as int, d as int);
}

/// The exact decimal digits of a finite magnitude, and how many of them stand below the point.
fn exact_digits(m: u64, shift: u32) -> (r: (Vec<u8>, usize))
    requires
        shift <= TOP_SHIFT,
    ensures
        all_digits(r.0@),
        r.1 <= 1074,
        value(r.0@) * pow2(1074) == (m as nat * pow2(shift as nat)) * pow10(r.1 as nat),
{
    let mut d = digits_of(m);
    proof {
        lemma_mul_basics(m as int);
        assert(pow2(0) == 1) by {
            lemma2_to64();
        }
        assert(pow10(0) == 1);
    }
    let mut j: u32 = 0;
    if shift >= ONE_SHIFT {
        let e: u32 = shift - ONE_SHIFT;
        while j < e
            invariant
                j <= e <= 971,
                all_digits(d@),
                value(d@) == m * pow2(j as nat),
            decreases e - j,
        {
            d = times(&d, 2);
            proof {
                lemma_pow2_unfold((j + 1) as nat);
                let a = pow2(j as nat) as int;
                assert(2 * (m * a) == m * (2 * a)) by (nonlinear_arith);
            }
            j += 1;
        }
        proof {
            lemma_pow2_adds(e as nat, 1074);
            let a = pow2(e as nat) as int;
            let b = pow2(1074) as int;
            assert((m * a) * b == (m * (a * b)) * 1) by (nonlinear_arith);
        }
        (d, 0)
    } else {
        let t: u32 = ONE_SHIFT - shift;
        while j < t
            invariant
                j <= t <= 1074,
                all_digits(d@),
                value(d@) * pow2(j as nat) == m * pow10(j as nat),
            decreases t - j,
        {
            let ghost v = value(d@) as int;
            d = times(&d, 5);
            proof {
                lemma_pow2_unfold((j + 1) as nat);
                let a = pow2(j as nat) as int;
                let b = pow10(j as nat) as int;
                assert((5 * v) * (2 * a) == 10 * (v * a)) by (nonlinear_arith);
                assert(10 * (m * b) == m * (10 * b)) by (nonlinear_arith);
            }
            j += 1;
        }
        proof {
            lemma_pow2_adds(t as nat, shift as nat);
            let v = value(d@) as int;
            let a = pow2(t as nat) as int;
            let b = pow2(shift as nat) as int;
            let c = pow10(t as nat) as int;
            assert(v * (a * b) == (m * b) * c) by (nonlinear_arith)
                requires
                    v * a == m * c,
            ;
        }
        (d, t as usize)
    }
}

/// The digits of the number with `s` digits below the point, rounded to `places` of them.
fn digits_rounded(start: &Vec<u8>, s: usize, places: usize) -> (r: Vec<u8>)
    requires
        all_digits(start@),
        s <= 1074,
        places <= 100,
    ensures
        all_digits(r@),
        value(r@) == half_even(value(start@) * pow10(places as nat), pow10(s as nat)),
{
    proof {
        lemma_pow10_positive(s as nat);
        lemma_pow10_positive(places as nat);
    }
    if s <= places {
        let mut r: Vec<u8> = Vec::new();
        let zeros: usize = places - s;
        while r.len() < zeros
            invariant
                r@.len() <= zeros,
                forall|i: int| 0 <= i < r@.len() ==> #[trigger] r@[i] == 0,
            decreases zeros - r@.len(),
        {
            r.push(0);
        }
        let ghost low = r@;
        let mut i: usize = 0;
        while i < start.len()
            invariant
                i <= start@.len(),
                all_digits(start@),
                low.len() == zeros,
                forall|j: int| 0 <= j < low.len() ==> low[j] == 0,
                r@ == low + start@.take(i as int),
            decreases start@.len() - i,
        {
            r.push(start[i]);
            proof {
                assert(low + start@.take(i + 1) =~= (low + start@.take(i as int)).push(start@[i as int]));
            }
            i += 1;
        }
        proof {
            assert(start@.take(start@.len() as int) =~= start@);
            assert(r@ == low + start@);
            lemma_value_split(r@, zeros as nat);
            assert(r@.take(zeros as int) =~= low);
            assert(r@.skip(zeros as int) =~= start@);
            lemma_value_zeros(low);
            lemma_pow10_adds(s as nat, zeros as nat);
            let v = value(start@) as int;
            let a = pow10(s as nat) as int;
            let b = pow10(zeros as nat) as int;
            assert(v * (a * b) == (b * v) * a) by (nonlinear_arith);
            lemma_div_multiples_vanish(b * v, a);
            lemma_mul_is_commutative(b * v, a);
            lemma_mod_multiples_basic(b * v, a);
            assert forall|j: int| 0 <= j < r@.len() implies #[trigger] r@[j] <= 9 by {
                if j >= zeros {
                    assert(r@[j] == start@[j - zeros]);
                }
            }
        }
        r
    } else {
        let cut: usize = s - places;
        let mut d: Vec<u8> = times(start, 1);
        proof {
            lemma_mul_basics(value(start@) as int);
        }
        while d.len() <= cut
            invariant
                all_digits(d@),
                value(d@) == value(start@),
            decreases cut + 1 - d@.len(),
        {
            proof {
                lemma_value_push(d@, 0);
                lemma_mul_basics(pow10(d@.len()) as int);
            }
            d.push(0);
        }
        let mut f: Vec<u8> = Vec::new();
        let mut i: usize = cut;
        while i < d.len()
            invariant
                cut <= i <= d@.len(),
                all_digits(d@),
                f@ == d@.subrange(cut as int, i as int),
            decreases d@.len() - i,
        {
            f.push(d[i]);
            proof {
                assert(d@.subrange(cut as int, i + 1) =~= d@.subrange(cut as int, i as int).push(d@[i as int]));
            }
            i += 1;
        }
        proof {
            assert(f@ =~= d@.skip(cut as int));
            assert forall|j: int| 0 <= j < f@.len() implies #[trigger] f@[j] <= 9 by {
                assert(f@[j] == d@[j + cut]);
            }
            lemma_whole(d@, cut as nat);
            lemma_pow10_adds(places as nat, cut as nat);
            lemma_half_even_scale(value(start@), pow10(cut as nat), pow10(places as nat));
            lemma_mul_is_commutative(pow10(places as nat) as int, pow10(cut as nat) as int);
            assert(value(f@) % 2 == f@[0] as nat % 2);
        }
        if rounds_up(&d, cut, f[0] % 2 == 1) {
            plus_one(&f)
        } else {
            f
        }
    }
}

impl Number {
    /// The value written with `places` digits after the point.
    pub fn fixed_text(&self, places: usize) -> (r: String)
        requires
            self.wf(),
            places <= 100,
        ensures
            r@ == self.fixed(places as nat),
    {
        match *self {
            Number::Nan => "NaN".to_owned(),
            Number::Infinite { negative } => if negative {
                "-inf".to_owned()
            } else {
                "inf".to_owned()
            },
            Number::Finite { negative, m, shift } => {
                let (exact, s) = exact_digits(m, shift);
                let mut d = digits_rounded(&exact, s, places);
                let ghost n = value(d@);
                proof {
                    lemma_pow2_pos(1074);
                    lemma_pow10_positive(s as nat);
                    let v = value(exact@) as int;
                    let u = self.units() as int;
                    let b = pow2(1074) as int;
                    let a = pow10(s as nat) as int;
                    let c = pow10(places as nat) as int;
                    assert((v * c) * b == (u * c) * a) by (nonlinear_arith)
                        requires
                            v * b == u * a,
                    ;
                    lemma_half_even_same((v * c) as nat, a as nat, (u * c) as nat, b as nat);
                }
                while d.len() <= places
                    invariant
                        all_digits(d@),
                        value(d@) == n,
                        places <= 100,
                    decreases places + 1 - d@.len(),
                {
                    proof {
                        lemma_value_push(d@, 0);
                        lemma_mul_basics(pow10(d@.len()) as int);
                    }
                    d.push(0);
                }
                while d.len() > places + 1 && d[d.len() - 1] == 0
                    invariant
                        all_digits(d@),
                        value(d@) == n,
                        d@.len() > places,
                        places <= 100,
                    decreases d@.len(),
                {
                    proof {
                        let rest = d@.drop_last();
                        assert(d@ =~= rest.push(0));
                        lemma_value_push(rest, 0);
                        lemma_mul_basics(pow10(rest.len()) as int);
                    }
                    d.pop();
                }
                let mut r = String::new();
                if negative {
                    r.push('-');
                }
                let ghost head = r@;
                push_digits(&mut r, &d, places, d.len());
                proof {
                    let high = d@.skip(places as int);
                    let low = d@.take(places as int);
                    assert(d@.subrange(places as int, d@.len() as int) =~= high);
                    assert forall|j: int| 0 <= j < high.len() implies #[trigger] high[j] <= 9 by {
                        assert(high[j] == d@[j + places]);
                    }
                    assert forall|j: int| 0 <= j < low.len() implies #[trigger] low[j] <= 9 by {
                        assert(low[j] == d@[j]);
                    }
                    lemma_whole(d@, places as nat);
                    assert(high.last() == d@.last());
                    lemma_written_decimal(high);
                    lemma_written_padded(low);
                    assert(pow10(0) == 1);
                }
                if places > 0 {
                    r.push('.');
                    push_digits(&mut r, &d, 0, places);
                    proof {
                        assert(d@.subrange(0, places as int) =~= d@.take(places as int));
                        assert(r@ =~= head + (decimal(n / pow10(places as nat)) + seq!['.'] + padded(
                            n % pow10(places as nat),
                            places as nat,
                        )));
                    }
                } else {
                    proof {
                        assert(n / 1 == n);
                        assert(r@ =~= head + decimal(n));
                    }
                }
                proof {
                    assert(head =~= if negative {
                        seq!['-']
                    } else {
                        Seq::<char>::empty()
                    });
                    if !negative {
                        assert(head + decimal(n) =~= decimal(n));
                        let tail = decimal(n / pow10(places as nat)) + seq!['.'] + padded(
                            n % pow10(places as nat),
                            places as nat,
                        );
                        assert(head + tail =~= tail);
                    }
                }
                r
            },
        }
    }
}

pub proof fn lemma_half_even_close(a: nat, b: nat)
    requires
        b > 0,
    ensures
        -(b as int) <= 2 * (half_even(a, b) * b - a) <= b,
{
    lemma_fundamental_div_mod(a as int, b as int);
    let f = a as int / b as int;
    let rest = a as int % b as int;
    lemma_mul_is_commutative(b as int, f);
    assert((f + 1) * b == f * b + b) by (nonlinear_arith);
}

/// The rounded value is off by at most half of its last digit: no value of the same size lies
/// nearer.
pub proof fn law_nearest_is_near(p: nat, q: nat)
    requires
        q > 0,
    ensures
        nearest(p, q) matches Some((m, shift)) ==> {
            let step = pow2(shift_of(p, q)) * q;
            -(step as int) <= 2 * ((m * pow2(shift)) * q - p) <= step
        },
{
    lemma_two_powers();
    lemma_fits_exists(p, q);
    let s = shift_of(p, q);
    lemma_pow2_pos(s);
    let a = pow2(s) as int;
    assert(a * q > 0) by (nonlinear_arith)
        requires
            a > 0,
            q > 0,
    ;
    lemma_half_even_close(p, pow2(s) * q);
    let h = half_even(p, pow2(s) * q) as int;
    if let Some((m, shift)) = nearest(p, q) {
        if h < 9007199254740992 {
            assert(h * (a * q) == (h * a) * q) by (nonlinear_arith);
        } else {
            lemma_pow2_unfold((s + 1) as nat);
            lemma_carry(p, q, s);
            assert(h == 9007199254740992);
            let b = pow2((s + 1) as nat) as int;
            assert((4503599627370496 * b) * q == 9007199254740992 * (a * q)) by (nonlinear_arith)
                requires
                    b == 2 * a,
            ;
        }
    }
}

/// What rounds up to 54 bits is the smallest such number.
pub proof fn lemma_carry(p: nat, q: nat, s: nat)
    requires
        q > 0,
        fits(p, q, s),
    ensures
        half_even(p, pow2(s) * q) <= 9007199254740992,
{
    lemma_two_powers();
    lemma_pow2_pos(s);
    let b = (pow2(s) * q) as int;
    assert(b > 0) by (nonlinear_arith)
        requires
            b == pow2(s) * q,
            pow2(s) > 0,
            q > 0,
    ;
    lemma_fundamental_div_mod(p as int, b);
    let f = p as int / b;
    assert(f < 9007199254740992) by (nonlinear_arith)
        requires
            p == b * f + p as int % b,
            p as int % b >= 0,
            p < 9007199254740992 * b,
            b > 0,
    ;
}

} // verus!
