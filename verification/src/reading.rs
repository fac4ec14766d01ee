//! Reading a number from text.
use crate::digits::{
    all_digits, lemma_pow10_adds, lemma_pow10_le, lemma_pow10_positive, lemma_value_bound,
    lemma_value_split, lemma_value_zeros, pow10, value, whole,
};
use crate::number::{
    fits, half_even, lemma_fits_exists, lemma_nearest_at, lemma_nearest_wf, lemma_two_powers,
    nearest, round_small, round_units, shift_of, signed, Number, ONE_SHIFT,
};
use crate::text::{chars_of, find_either, index_of_either};
use vstd::arithmetic::div_mod::*;
use vstd::arithmetic::mul::*;
use vstd::arithmetic::power2::*;
use vstd::prelude::*;

verus! {

pub open spec fn is_digit(c: char) -> bool {
    '0' <= c && c <= '9'
}

pub open spec fn only_digits(s: Seq<char>) -> bool {
    forall|i: int| 0 <= i < s.len() ==> is_digit(#[trigger] s[i])
}

/// The number written by decimal digits, the top one first.
pub open spec fn digits_value(s: Seq<char>) -> nat
    decreases s.len(),
{
    if s.len() == 0 {
        0
    } else {
        10 * digits_value(s.drop_last()) + (s.last() as nat - 48) as nat
    }
}

pub open spec fn ascii_lower(c: char) -> char {
    if 'A' <= c && c <= 'Z' {
        ((c as u32 + 32) as u32) as char
    } else {
        c
    }
}

/// The text is the word, in letters of either case.
pub open spec fn caseless(s: Seq<char>, word: Seq<char>) -> bool {
    s.len() == word.len() && forall|i: int| 0 <= i < s.len() ==> ascii_lower(#[trigger] s[i]) == word[i]
}

pub open spec fn has_sign(s: Seq<char>) -> bool {
    s.len() > 0 && (s[0] == '-' || s[0] == '+')
}

pub open spec fn has_minus(s: Seq<char>) -> bool {
    s.len() > 0 && s[0] == '-'
}

pub open spec fn without_sign(s: Seq<char>) -> Seq<char> {
    if has_sign(s) {
        s.skip(1)
    } else {
        s
    }
}

/// What stands after the `e` of a number.
pub open spec fn exponent_of(s: Seq<char>) -> Option<int> {
    let body = without_sign(s);
    if body.len() > 0 && only_digits(body) {
        if has_minus(s) {
            Some(-(digits_value(body) as int))
        } else {
            Some(digits_value(body) as int)
        }
    } else {
        None
    }
}

/// The digits and the power of ten of an unsigned decimal number: `12.5e3` is 125 and 2.
pub open spec fn decimal_of(body: Seq<char>) -> Option<(nat, int)> {
    let cut = index_of_either(body, 'e', 'E');
    let mantissa = body.take(cut);
    let exponent = if cut < body.len() {
        exponent_of(body.skip(cut + 1))
    } else {
        Some(0int)
    };
    let dot = index_of_either(mantissa, '.', '.');
    let fraction = if dot < mantissa.len() {
        mantissa.skip(dot + 1)
    } else {
        Seq::empty()
    };
    let all = mantissa.take(dot) + fraction;
    match exponent {
        Some(e) => if all.len() > 0 && only_digits(all) {
            Some((digits_value(all), e - fraction.len()))
        } else {
            None
        },
        None => None,
    }
}

/// `digits` times ten to the power of `e`, rounded.
pub open spec fn scaled(negative: bool, digits: nat, e: int) -> Number {
    if e >= 0 {
        signed(negative, nearest((digits * pow10(e as nat)) * pow2(1074), 1))
    } else {
        signed(negative, nearest(digits * pow2(1074), pow10((-e) as nat)))
    }
}

/// The number that a text stands for, if it stands for one: an optional sign, then `nan`, `inf`,
/// `infinity` or a decimal number, which is rounded to the nearest value.
pub open spec fn number_of(s: Seq<char>) -> Option<Number> {
    let body = without_sign(s);
    if caseless(body, seq!['n', 'a', 'n']) {
        Some(Number::Nan)
    } else if caseless(body, seq!['i', 'n', 'f']) || caseless(
        body,
        seq!['i', 'n', 'f', 'i', 'n', 'i', 't', 'y'],
    ) {
        Some(Number::Infinite { negative: has_minus(s) })
    } else {
        match decimal_of(body) {
            Some((digits, e)) => Some(scaled(has_minus(s), digits, e)),
            None => None,
        }
    }
}

/// Whether the text from `from` on is the word, in letters of either case.
fn is_word(v: &Vec<char>, from: usize, word: &Vec<char>) -> (r: bool)
    requires
        from <= v@.len(),
    ensures
        r == caseless(v@.skip(from as int), word@),
{
    if v.len() - from != word.len() {
        return false;
    }
    let ghost s = v@.skip(from as int);
    let mut i: usize = 0;
    while i < word.len()
        invariant
            i <= word@.len(),
            from + word@.len() == v.len(),
            s == v@.skip(from as int),
            forall|j: int| 0 <= j < i ==> ascii_lower(#[trigger] s[j]) == word@[j],
        decreases word@.len() - i,
    {
        let c = v[from + i];
        assert(s[i as int] == c);
        let low = if 'A' <= c && c <= 'Z' {
            ((c as u8) + 32) as char
        } else {
            c
        };
        if low != word[i] {
            return false;
        }
        i += 1;
    }
    true
}

/// The digits, the last one first, if the text is made of digits.
fn digits_backwards(v: &Vec<char>) -> (r: Option<Vec<u8>>)
    ensures
        r is Some <==> only_digits(v@),
        r matches Some(d) ==> all_digits(d@) && d@.len() == v@.len() && value(d@) == digits_value(v@),
{
    let mut d: Vec<u8> = Vec::new();
    let mut i: usize = v.len();
    while i > 0
        invariant
            i <= v@.len(),
            d@.len() == v@.len() - i,
            all_digits(d@),
            forall|j: int| i <= j < v@.len() ==> is_digit(#[trigger] v@[j]),
            forall|j: int| 0 <= j < d@.len() ==> #[trigger] d@[j] == v@[v@.len() - 1 - j] as nat - 48,
        decreases i,
    {
        let c = v[i - 1];
        if c < '0' || c > '9' {
            return None;
        }
        d.push((c as u8) - 48);
        i -= 1;
    }
    proof {
        lemma_digits_backwards(d@, v@);
    }
    Some(d)
}

proof fn lemma_digits_backwards(d: Seq<u8>, s: Seq<char>)
    requires
        d.len() == s.len(),
        forall|j: int| 0 <= j < d.len() ==> #[trigger] d[j] == s[s.len() - 1 - j] as nat - 48,
    ensures
        value(d) == digits_value(s),
    decreases d.len(),
{
    if d.len() > 0 {
        let rest = d.drop_first();
        let init = s.drop_last();
        assert forall|j: int| 0 <= j < rest.len() implies #[trigger] rest[j] == init[init.len() - 1 - j] as nat - 48 by {
            assert(rest[j] == d[j + 1]);
        }
        lemma_digits_backwards(rest, init);
        assert(d[0] == s.last() as nat - 48);
    }
}

/// Exponents beyond this size are all alike.
pub const FAR: i128 = 1_000_000_000_000_000_000_000_000_000_000;

/// `e`, held between `-FAR` and `FAR`.
spec fn held(e: int) -> int {
    if e > FAR {
        FAR as int
    } else if e < -FAR {
        -FAR
    } else {
        e
    }
}

fn read_exponent(v: &Vec<char>, from: usize) -> (r: Option<i128>)
    requires
        from <= v@.len(),
    ensures
        match exponent_of(v@.skip(from as int)) {
            Some(e) => r == Some(held(e) as i128),
            None => r is None,
        },
{
    let ghost s = v@.skip(from as int);
    let mut start: usize = from;
    let mut minus = false;
    if from < v.len() && (v[from] == '-' || v[from] == '+') {
        minus = v[from] == '-';
        start = from + 1;
    }
    let ghost body = v@.skip(start as int);
    proof {
        assert(without_sign(s) =~= body);
    }
    if start == v.len() {
        return None;
    }
    let mut n: i128 = 0;
    let mut i: usize = start;
    proof {
        assert(body.take(0).len() == 0);
    }
    while i < v.len()
        invariant
            start <= i <= v@.len(),
            body == v@.skip(start as int),
            s == v@.skip(from as int),
            without_sign(s) == body,
            0 <= n <= FAR,
            n == held(digits_value(body.take(i - start)) as int),
            only_digits(body.take(i - start)),
        decreases v@.len() - i,
    {
        let c = v[i];
        proof {
            assert(body[i - start] == c);
            let next = body.take(i - start + 1);
            assert(next.drop_last() =~= body.take(i - start));
            assert(next.last() == c);
        }
        if c < '0' || c > '9' {
            proof {
                assert(!is_digit(body[i - start]));
            }
            return None;
        }
        n = n * 10 + ((c as u8) - 48) as i128;
        if n > FAR {
            n = FAR;
        }
        i += 1;
    }
    proof {
        assert(body.take(v@.len() - start) =~= body);
    }
    if minus {
        Some(-n)
    } else {
        Some(n)
    }
}

/// What is too large rounds to infinity.
proof fn lemma_scaled_large(negative: bool, digits: nat, e: int, count: nat)
    requires
        count >= 1,
        digits >= pow10((count - 1) as nat),
        count + e > 400,
    ensures
        scaled(negative, digits, e) == (Number::Infinite { negative }),
{
    let b = pow2(1074);
    lemma_pow2_pos(1074);
    lemma_big_powers();
    let (p, q) = if e >= 0 {
        ((digits * pow10(e as nat)) * b, 1nat)
    } else {
        (digits * b, pow10((-e) as nat))
    };
    // digits * 10^e is at least 10^400
    assert(p >= (pow10(400) * b) * q) by {
        if e >= 0 {
            lemma_pow10_adds((count - 1) as nat, e as nat);
            lemma_pow10_le(400, (count - 1 + e) as nat);
            let x = pow10((count - 1) as nat) as int;
            let y = pow10(e as nat) as int;
            let z = pow10(400) as int;
            assert((digits * y) * b >= (z * b) * 1) by (nonlinear_arith)
                requires
                    digits >= x,
                    x * y >= z,
                    y >= 0,
                    b >= 0,
            ;
        } else {
            let f = (-e) as nat;
            lemma_pow10_adds(f, (count - 1 - f) as nat);
            lemma_pow10_le(400, (count - 1 - f) as nat);
            let x = pow10((count - 1 - f) as nat) as int;
            let y = pow10(f) as int;
            let z = pow10(400) as int;
            lemma_pow10_positive(f);
            assert(digits * b >= (z * b) * y) by (nonlinear_arith)
                requires
                    digits >= y * x,
                    x >= z,
                    y > 0,
                    b >= 0,
            ;
        }
    }
    assert(q > 0) by {
        if e < 0 {
            lemma_pow10_positive((-e) as nat);
        }
    }
    lemma_fits_exists(p, q);
    let k = shift_of(p, q);
    if k <= 2045 {
        lemma_two_powers();
        lemma_pow2_adds(k, (2045 - k) as nat);
        lemma_pow2_adds(53, 2045);
        lemma_pow2_adds(1024, 1074);
        lemma_pow2_pos((2045 - k) as nat);
        lemma_pow2_pos(k);
        let a = pow2(k) as int;
        let c = pow2((2045 - k) as nat) as int;
        let h = pow2(1024) as int;
        assert(9007199254740992 * (a * q) <= (9007199254740992 * (a * c)) * q) by (nonlinear_arith)
            requires
                a >= 0,
                c >= 1,
                q >= 0,
        ;
        let z = pow10(400) as int;
        assert((h * b) * q <= (z * b) * q) by (nonlinear_arith)
            requires
                0 <= h <= z,
                b >= 0,
                q >= 0,
        ;
        assert(p < 9007199254740992 * (a * q));
    }
}

/// Two to the power of 1024 is less than ten to the power of 400; 1080 against 400 too.
proof fn lemma_big_powers()
    ensures
        pow2(1024) <= pow10(400),
        pow2(1080) <= pow10(400),
{
    lemma_power_gap(360);
    lemma_pow10_le(360, 400);
    lemma_pow2_adds(1024, 56);
    lemma_pow2_pos(56);
    let a = pow2(1024) as int;
    let b = pow2(56) as int;
    assert(a <= a * b) by (nonlinear_arith)
        requires
            a >= 0,
            b >= 1,
    ;
}

proof fn lemma_power_gap(n: nat)
    ensures
        pow2(3 * n) <= pow10(n),
    decreases n,
{
    if n == 0 {
        lemma2_to64();
    } else {
        lemma_power_gap((n - 1) as nat);
        lemma_pow2_adds(3, (3 * n - 3) as nat);
        lemma2_to64();
        assert((3 * n - 3) as nat == 3 * ((n - 1) as nat));
    }
}

/// What is too small rounds to zero.
proof fn lemma_scaled_small(negative: bool, digits: nat, e: int, count: nat)
    requires
        digits < pow10(count),
        digits == 0 || count + e < -400,
    ensures
        scaled(negative, digits, e) == (Number::Finite { negative, m: 0, shift: 0 }),
{
    lemma_two_powers();
    let b = pow2(1074);
    lemma_pow2_pos(1074);
    if e >= 0 {
        assert(digits == 0);
        lemma_mul_basics(pow10(e as nat) as int);
        lemma_mul_basics(b as int);
        lemma_small(0, 1);
    } else {
        let f = (-e) as nat;
        lemma_pow10_positive(f);
        if digits == 0 {
            lemma_mul_basics(b as int);
            lemma_small(0, pow10(f));
        } else {
            lemma_big_powers();
            lemma_pow10_adds(count, 400);
            lemma_pow10_le(count + 400, f);
            lemma_pow2_adds(1, 1079);
            lemma_pow2_adds(1074, 5);
            lemma_pow2_adds(1074, 6);
            lemma2_to64();
            let x = pow10(count) as int;
            let z = pow10(400) as int;
            assert(2 * (digits * b) < x * z) by (nonlinear_arith)
                requires
                    0 <= digits < x,
                    2 * b <= z,
                    b > 0,
            ;
            lemma_small(digits * b, pow10(f));
        }
    }
}

proof fn lemma_small(p: nat, q: nat)
    requires
        q > 0,
        2 * p < q,
    ensures
        nearest(p, q) == Some((0nat, 0nat)),
{
    lemma_two_powers();
    lemma_mul_basics(q as int);
    assert(fits(p, q, 0));
    lemma_nearest_at(p, q, 0);
    lemma_fundamental_div_mod_converse(p as int, q as int, 0, p as int);
    assert(half_even(p, q) == 0);
}

proof fn lemma_fifteen()
    ensures
        pow10(15) == 1_000_000_000_000_000,
{
    reveal_with_fuel(pow10, 16);
}

/// The value of decimal digits, the last one first, times a power of ten.
fn scale_digits(negative: bool, d: &Vec<u8>, e: i128, Ghost(true_e): Ghost<int>) -> (r: Number)
    requires
        all_digits(d@),
        -FAR - 0x1_0000_0000_0000_0000 <= e <= FAR,
        e == true_e || (e >= FAR - 0x1_0000_0000_0000_0000 && true_e >= e) || (e <= -FAR && true_e <= e),
    ensures
        r == scaled(negative, value(d@), true_e),
        r.wf(),
{
    let mut count: usize = d.len();
    while count > 0 && d[count - 1] == 0
        invariant
            count <= d@.len(),
            forall|j: int| count <= j < d@.len() ==> d@[j] == 0,
        decreases count,
    {
        count -= 1;
    }
    let ghost w = d@.take(count as int);
    proof {
        lemma_two_powers();
        lemma_value_split(d@, count as nat);
        lemma_value_zeros(d@.skip(count as int));
        lemma_mul_basics(pow10(count as nat) as int);
        assert(value(d@) == value(w));
        assert forall|j: int| 0 <= j < w.len() implies #[trigger] w[j] <= 9 by {
            assert(w[j] == d@[j]);
        }
        lemma_value_bound(w);
    }
    if count == 0 {
        proof {
            lemma_scaled_small(negative, value(d@), true_e, 0);
        }
        return Number::Finite { negative, m: 0, shift: 0 };
    }
    proof {
        let t = (count - 1) as nat;
        lemma_value_split(w, t);
        assert(w.skip(t as int) =~= seq![d@[count - 1]]);
        assert(value(seq![d@[count - 1]]) == d@[count - 1] as nat) by {
            reveal_with_fuel(value, 2);
        }
        let a = pow10(t) as int;
        let x = d@[count - 1] as int;
        assert(a * x >= a) by (nonlinear_arith)
            requires
                a >= 0,
                x >= 1,
        ;
    }
    let top: i128 = count as i128 + e;
    if top > 400 {
        proof {
            lemma_scaled_large(negative, value(d@), true_e, count as nat);
        }
        return Number::Infinite { negative };
    }
    if top < -400 {
        proof {
            lemma_scaled_small(negative, value(d@), true_e, count as nat);
        }
        return Number::Finite { negative, m: 0, shift: 0 };
    }
    assert(e == true_e);
    if count <= 15 && -15 <= e && e <= 0 {
        let n: u64 = whole(d, 0);
        let mut q: u64 = 1;
        let mut i: i128 = 0;
        proof {
            lemma_pow10_le(count as nat, 15);
            lemma_fifteen();
            assert(pow10(0) == 1);
            assert(value(d@) / 1 == value(d@));
        }
        while i < -e
            invariant
                0 <= i <= -e <= 15,
                q == pow10(i as nat),
                pow10(15) == 1_000_000_000_000_000,
                q <= 1_000_000_000_000_000,
            decreases -e - i,
        {
            proof {
                lemma_pow10_le((i + 1) as nat, 15);
            }
            q = q * 10;
            i += 1;
        }
        proof {
            lemma_pow10_positive((-e) as nat);
            lemma_mul_basics(value(d@) as int);
            lemma_nearest_wf(negative, value(d@) * pow2(1074), q as nat);
        }
        let (m, shift) = round_small(n, q);
        return Number::Finite { negative, m, shift };
    }
    if e >= 0 {
        let zeros: usize = e as usize;
        let mut all: Vec<u8> = Vec::new();
        while all.len() < zeros
            invariant
                all@.len() <= zeros,
                forall|i: int| 0 <= i < all@.len() ==> #[trigger] all@[i] == 0,
            decreases zeros - all@.len(),
        {
            all.push(0);
        }
        let ghost low = all@;
        let mut i: usize = 0;
        while i < d.len()
            invariant
                i <= d@.len(),
                all@ == low + d@.take(i as int),
            decreases d@.len() - i,
        {
            all.push(d[i]);
            proof {
                assert(low + d@.take(i + 1) =~= (low + d@.take(i as int)).push(d@[i as int]));
            }
            i += 1;
        }
        proof {
            assert(d@.take(d@.len() as int) =~= d@);
            lemma_value_split(all@, zeros as nat);
            assert(all@.take(zeros as int) =~= low);
            assert(all@.skip(zeros as int) =~= d@);
            lemma_value_zeros(low);
            lemma_mul_is_commutative(pow10(zeros as nat) as int, value(d@) as int);
            assert forall|j: int| 0 <= j < all@.len() implies #[trigger] all@[j] <= 9 by {
                if j >= zeros {
                    assert(all@[j] == d@[j - zeros]);
                }
            }
            assert(pow10(0) == 1);
            lemma_nearest_wf(negative, (value(d@) * pow10(e as nat)) * pow2(1074), 1);
        }
        match round_units(&all, 0, ONE_SHIFT) {
            Some((m, shift)) => Number::Finite { negative, m, shift },
            None => Number::Infinite { negative },
        }
    } else {
        proof {
            lemma_pow10_positive((-e) as nat);
            lemma_nearest_wf(negative, value(d@) * pow2(1074), pow10((-e) as nat));
        }
        match round_units(d, (-e) as u128, ONE_SHIFT) {
            Some((m, shift)) => Number::Finite { negative, m, shift },
            None => Number::Infinite { negative },
        }
    }
}

/// The characters from `from` to `to`, without the one at `dot`.
fn without_dot(v: &Vec<char>, from: usize, dot: usize, to: usize) -> (r: Vec<char>)
    requires
        from <= dot <= to <= v@.len(),
    ensures
        r@ == v@.subrange(from as int, dot as int) + (if dot < to {
            v@.subrange(dot + 1, to as int)
        } else {
            Seq::empty()
        }),
{
    let mut all: Vec<char> = Vec::new();
    let mut i: usize = from;
    while i < dot
        invariant
            from <= i <= dot <= v@.len(),
            all@ == v@.subrange(from as int, i as int),
        decreases dot - i,
    {
        all.push(v[i]);
        proof {
            assert(v@.subrange(from as int, i + 1) =~= v@.subrange(from as int, i as int).push(v@[i as int]));
        }
        i += 1;
    }
    let ghost whole = all@;
    if dot < to {
        i = dot + 1;
        while i < to
            invariant
                dot + 1 <= i <= to <= v@.len(),
                all@ == whole + v@.subrange(dot + 1, i as int),
            decreases to - i,
        {
            all.push(v[i]);
            proof {
                assert(whole + v@.subrange(dot + 1, i + 1) =~= (whole + v@.subrange(dot + 1, i as int)).push(
                    v@[i as int],
                ));
            }
            i += 1;
        }
    }
    all
}

/// An unsigned decimal number.
fn read_decimal(v: &Vec<char>, start: usize, negative: bool) -> (r: Option<Number>)
    requires
        start <= v@.len(),
    ensures
        match decimal_of(v@.skip(start as int)) {
            Some((digits, e)) => r == Some(scaled(negative, digits, e)),
            None => r is None,
        },
        r matches Some(n) ==> n.wf(),
{
    let ghost body = v@.skip(start as int);
    let cut = find_either(v, start, v.len(), 'e', 'E');
    let ghost mantissa = body.take(cut - start);
    proof {
        assert(v@.subrange(start as int, v@.len() as int) =~= body);
        assert(v@.subrange(start as int, cut as int) =~= mantissa);
    }
    let mut exponent: i128 = 0;
    let ghost mut true_exponent: int = 0;
    if cut < v.len() {
        proof {
            assert(v@.skip(cut + 1) =~= body.skip(cut - start + 1));
        }
        match read_exponent(v, cut + 1) {
            None => {
                return None;
            },
            Some(e) => {
                exponent = e;
                proof {
                    true_exponent = exponent_of(body.skip(cut - start + 1))->0;
                }
            },
        }
    }
    let dot = find_either(v, start, cut, '.', '.');
    let all = without_dot(v, start, dot, cut);
    let fraction_len: usize = if dot < cut {
        cut - dot - 1
    } else {
        0
    };
    proof {
        let fraction = if dot < cut {
            mantissa.skip(dot - start + 1)
        } else {
            Seq::empty()
        };
        assert(v@.subrange(start as int, dot as int) =~= mantissa.take(dot - start));
        if dot < cut {
            assert(v@.subrange(dot + 1, cut as int) =~= fraction);
        }
        assert(all@ == mantissa.take(dot - start) + fraction);
        assert(fraction.len() == fraction_len);
    }
    if all.len() == 0 {
        return None;
    }
    match digits_backwards(&all) {
        None => None,
        Some(d) => Some(
            scale_digits(
                negative,
                &d,
                exponent - fraction_len as i128,
                Ghost(true_exponent - fraction_len),
            ),
        ),
    }
}

/// The number that a text stands for, if it stands for one.
pub fn read_number(text: &str) -> (r: Option<Number>)
    ensures
        r == number_of(text@),
        r matches Some(n) ==> n.wf(),
{
    let v = chars_of(text);
    let mut start: usize = 0;
    let mut negative = false;
    if v.len() > 0 && (v[0] == '-' || v[0] == '+') {
        negative = v[0] == '-';
        start = 1;
    }
    proof {
        assert(without_sign(text@) =~= v@.skip(start as int));
    }
    let nan: Vec<char> = vec!['n', 'a', 'n'];
    let inf: Vec<char> = vec!['i', 'n', 'f'];
    let infinity: Vec<char> = vec!['i', 'n', 'f', 'i', 'n', 'i', 't', 'y'];
    proof {
        assert(nan@ =~= seq!['n', 'a', 'n']);
        assert(inf@ =~= seq!['i', 'n', 'f']);
        assert(infinity@ =~= seq!['i', 'n', 'f', 'i', 'n', 'i', 't', 'y']);
    }
    if is_word(&v, start, &nan) {
        return Some(Number::Nan);
    }
    if is_word(&v, start, &inf) || is_word(&v, start, &infinity) {
        return Some(Number::Infinite { negative });
    }
    read_decimal(&v, start, negative)
}

/// A whole number that 16 bits can hold, written in digits, with or without a plus.
pub open spec fn port_of(s: Seq<char>) -> Option<u16> {
    let body = if s.len() > 0 && s[0] == '+' {
        s.skip(1)
    } else {
        s
    };
    if body.len() > 0 && only_digits(body) && digits_value(body) <= u16::MAX {
        Some(digits_value(body) as u16)
    } else {
        None
    }
}

proof fn lemma_digits_grow(s: Seq<char>, k: int)
    requires
        0 <= k <= s.len(),
        only_digits(s),
    ensures
        digits_value(s.take(k)) <= digits_value(s),
    decreases s.len(),
{
    if k < s.len() {
        let front = s.drop_last();
        assert forall|i: int| 0 <= i < front.len() implies is_digit(#[trigger] front[i]) by {
            assert(front[i] == s[i]);
        }
        lemma_digits_grow(front, k);
        assert(front.take(k) =~= s.take(k));
        assert(is_digit(s[s.len() - 1]));
    } else {
        assert(s.take(k) =~= s);
    }
}

/// The port that a text stands for, if it stands for one.
pub fn read_port(text: &str) -> (r: Option<u16>)
    ensures
        r == port_of(text@),
{
    let v = chars_of(text);
    let mut start: usize = 0;
    if v.len() > 0 && v[0] == '+' {
        start = 1;
    }
    let ghost body = v@.skip(start as int);
    proof {
        if start == 0 {
            assert(body =~= v@);
        }
        assert(body.take(0).len() == 0);
    }
    if start == v.len() {
        return None;
    }
    let mut n: u32 = 0;
    let mut i: usize = start;
    while i < v.len()
        invariant
            start <= i <= v@.len(),
            body == v@.skip(start as int),
            text@ == v@,
            start == (if v@.len() > 0 && v@[0] == '+' { 1int } else { 0int }),
            start == 0 ==> body == v@,
            n <= u16::MAX,
            n == digits_value(body.take(i - start)),
            only_digits(body.take(i - start)),
        decreases v@.len() - i,
    {
        let c = v[i];
        let ghost next = body.take(i - start + 1);
        proof {
            assert(body[i - start] == c);
            assert(next.drop_last() =~= body.take(i - start));
            assert(next.last() == c);
        }
        if c < '0' || c > '9' {
            proof {
                assert(!is_digit(body[i - start]));
            }
            return None;
        }
        n = n * 10 + ((c as u8) - 48) as u32;
        if n > 65535 {
            proof {
                if only_digits(body) {
                    lemma_digits_grow(body, i - start + 1);
                }
            }
            return None;
        }
        i += 1;
    }
    proof {
        assert(body.take(v@.len() - start) =~= body);
    }
    Some(n as u16)
}

} // verus!
