//! Natural numbers of any size, as decimal digits, the least significant first.
use vstd::arithmetic::div_mod::*;
use vstd::arithmetic::mul::*;
use vstd::prelude::*;

verus! {

/// Ten to the power of `n`.
pub open spec fn pow10(n: nat) -> nat
    decreases n,
{
    if n == 0 {
        1
    } else {
        10 * pow10((n - 1) as nat)
    }
}

/// Every element is a decimal digit.
pub open spec fn all_digits(d: Seq<u8>) -> bool {
    forall|i: int| 0 <= i < d.len() ==> #[trigger] d[i] <= 9
}

/// The number that the digits stand for, `d[0]` counting ones.
pub open spec fn value(d: Seq<u8>) -> nat
    decreases d.len(),
{
    if d.len() == 0 {
        0
    } else {
        d[0] as nat + 10 * value(d.drop_first())
    }
}

pub proof fn lemma_pow10_positive(n: nat)
    ensures
        pow10(n) > 0,
    decreases n,
{
    if n > 0 {
        lemma_pow10_positive((n - 1) as nat);
    }
}

pub proof fn lemma_pow10_adds(a: nat, b: nat)
    ensures
        pow10(a + b) == pow10(a) * pow10(b),
    decreases a,
{
    lemma_mul_basics(pow10(b) as int);
    if a > 0 {
        lemma_pow10_adds((a - 1) as nat, b);
        assert((a + b - 1) as nat == (a - 1) as nat + b);
        lemma_mul_is_associative(10, pow10((a - 1) as nat) as int, pow10(b) as int);
    }
}

/// Splitting the digits at `k` splits the number at ten to the power of `k`.
pub proof fn lemma_value_split(d: Seq<u8>, k: nat)
    requires
        k <= d.len(),
    ensures
        value(d) == value(d.take(k as int)) + pow10(k) * value(d.skip(k as int)),
    decreases d.len(),
{
    if k == 0 {
        lemma_mul_basics(value(d) as int);
        assert(d.skip(0) =~= d);
        assert(d.take(0).len() == 0);
    } else {
        let rest = d.drop_first();
        let k1 = (k - 1) as nat;
        lemma_value_split(rest, k1);
        assert(d.take(k as int).drop_first() =~= rest.take(k1 as int));
        assert(d.skip(k as int) =~= rest.skip(k1 as int));
        let high = value(d.skip(k as int));
        assert(10 * (pow10(k1) * high) == (10 * pow10(k1)) * high) by {
            lemma_mul_is_associative(10, pow10(k1) as int, high as int);
        }
    }
}

pub proof fn lemma_value_bound(d: Seq<u8>)
    requires
        all_digits(d),
    ensures
        value(d) < pow10(d.len()),
    decreases d.len(),
{
    if d.len() > 0 {
        let rest = d.drop_first();
        assert forall|i: int| 0 <= i < rest.len() implies #[trigger] rest[i] <= 9 by {
            assert(rest[i] == d[i + 1]);
        }
        lemma_value_bound(rest);
    }
}

pub proof fn lemma_value_push(d: Seq<u8>, x: u8)
    ensures
        value(d.push(x)) == value(d) + x as nat * pow10(d.len()),
{
    let e = d.push(x);
    lemma_value_split(e, d.len());
    assert(e.take(d.len() as int) =~= d);
    assert(e.skip(d.len() as int) =~= seq![x]);
    assert(seq![x].drop_first().len() == 0);
    assert(value(seq![x]) == x as nat) by {
        reveal_with_fuel(value, 2);
    }
    lemma_mul_is_commutative(x as int, pow10(d.len()) as int);
}

/// Zeros above the top digit do not change the number.
pub proof fn lemma_value_zeros(d: Seq<u8>)
    requires
        forall|i: int| 0 <= i < d.len() ==> #[trigger] d[i] == 0,
    ensures
        value(d) == 0,
    decreases d.len(),
{
    if d.len() > 0 {
        let rest = d.drop_first();
        assert forall|i: int| 0 <= i < rest.len() implies #[trigger] rest[i] == 0 by {
            assert(rest[i] == d[i + 1]);
        }
        lemma_value_zeros(rest);
    }
}

/// The digits of `c` times the number.
pub fn times(d: &Vec<u8>, c: u8) -> (r: Vec<u8>)
    requires
        all_digits(d@),
        c <= 9,
    ensures
        all_digits(r@),
        value(r@) == c as nat * value(d@),
        d@.len() <= r@.len() <= d@.len() + 1,
{
    let mut r: Vec<u8> = Vec::new();
    let mut carry: u8 = 0;
    let mut i: usize = 0;
    proof {
        assert(d@.take(0).len() == 0);
        lemma_mul_basics(c as int);
        lemma_mul_basics(pow10(0) as int);
    }
    while i < d.len()
        invariant
            i <= d@.len(),
            r@.len() == i,
            c <= 9,
            carry <= 8,
            all_digits(d@),
            all_digits(r@),
            value(r@) + carry as nat * pow10(i as nat) == c as nat * value(d@.take(i as int)),
        decreases d@.len() - i,
    {
        let ghost r0 = r@;
        let ghost k0 = carry as nat;
        assert(d@[i as int] <= 9);
        assert(d@[i as int] * c <= 81) by (nonlinear_arith)
            requires
                d@[i as int] <= 9,
                c <= 9,
        ;
        let t: u8 = d[i] * c + carry;
        r.push(t % 10);
        carry = t / 10;
        proof {
            lemma_value_push(r0, (t % 10) as u8);
            assert(d@.take(i + 1) =~= d@.take(i as int).push(d@[i as int]));
            lemma_value_push(d@.take(i as int), d@[i as int]);
            let p = pow10(i as nat) as int;
            let x = d@[i as int] as int;
            let low = (t % 10) as int;
            let hi = carry as int;
            let v = value(d@.take(i as int)) as int;
            assert(pow10((i + 1) as nat) == 10 * p);
            assert(low * p + hi * (10 * p) == c as int * (x * p) + k0 * p) by (nonlinear_arith)
                requires
                    low + 10 * hi == x * c as int + k0,
            ;
            assert(c as int * (v + x * p) == c as int * v + c as int * (x * p)) by (nonlinear_arith);
        }
        i += 1;
    }
    proof {
        assert(d@.take(d@.len() as int) =~= d@);
    }
    if carry > 0 {
        proof {
            lemma_value_push(r@, carry);
        }
        r.push(carry);
    }
    r
}

/// The digits of `n`, the top one not zero.
pub fn digits_of(n: u64) -> (r: Vec<u8>)
    ensures
        all_digits(r@),
        value(r@) == n,
        r@.len() <= 20,
        r@.len() > 0 ==> r@.last() != 0,
{
    let mut r: Vec<u8> = Vec::new();
    let mut rest: u64 = n;
    proof {
        assert(pow10(0) == 1);
        lemma_mul_basics(rest as int);
    }
    while rest > 0
        invariant
            all_digits(r@),
            value(r@) + rest as nat * pow10(r@.len()) == n,
            rest > 0 || r@.len() == 0 || r@.last() != 0,
        decreases rest,
    {
        let ghost r0 = r@;
        let ghost rest0 = rest;
        let x: u8 = (rest % 10) as u8;
        r.push(x);
        rest = rest / 10;
        proof {
            lemma_value_push(r0, x);
            let p = pow10(r0.len()) as int;
            assert(x as int * p + rest as int * (10 * p) == rest0 as int * p) by (nonlinear_arith)
                requires
                    x as int + 10 * rest as int == rest0 as int,
            ;
        }
    }
    proof {
        if r@.len() > 20 {
            let top = (r@.len() - 1) as nat;
            lemma_value_split(r@, top);
            assert(r@.skip(top as int) =~= seq![r@.last()]);
            assert(value(seq![r@.last()]) == r@.last() as nat) by {
                reveal_with_fuel(value, 2);
            }
            lemma_pow10_adds(20, (top - 20) as nat);
            lemma_pow10_positive((top - 20) as nat);
            assert(pow10(20) == 100_000_000_000_000_000_000) by {
                reveal_with_fuel(pow10, 21);
            }
            let a = pow10((top - 20) as nat) as int;
            let l = r@.last() as int;
            assert(pow10(20) as int * a * l >= pow10(20)) by (nonlinear_arith)
                requires
                    a >= 1,
                    l >= 1,
                    pow10(20) >= 0,
            ;
        }
    }
    r
}

/// The digits are all zero.
pub fn is_zero(d: &Vec<u8>, to: usize) -> (r: bool)
    requires
        all_digits(d@),
        to <= d@.len(),
    ensures
        r == (value(d@.take(to as int)) == 0),
{
    let mut i: usize = 0;
    while i < to
        invariant
            i <= to <= d@.len(),
            forall|j: int| 0 <= j < i ==> d@[j] == 0,
        decreases to - i,
    {
        if d[i] != 0 {
            proof {
                let low = d@.take(to as int);
                lemma_value_split(low, i as nat);
                let rest = low.skip(i as int);
                assert(rest[0] == d@[i as int]);
                assert(value(rest) > 0);
                lemma_pow10_positive(i as nat);
                assert(pow10(i as nat) * value(rest) > 0) by (nonlinear_arith)
                    requires
                        pow10(i as nat) > 0,
                        value(rest) > 0,
                ;
            }
            return false;
        }
        i += 1;
    }
    proof {
        lemma_value_zeros(d@.take(to as int));
    }
    true
}

/// A whole part of this size or more counts as "large".
pub const LARGE: u64 = 1_000_000_000_000_000_000;

/// The number without its lowest `below` digits, or `LARGE` if that is less.
pub fn whole(d: &Vec<u8>, below: u128) -> (r: u64)
    requires
        all_digits(d@),
    ensures
        value(d@) / pow10(below as nat) < LARGE ==> r == value(d@) / pow10(below as nat),
        value(d@) / pow10(below as nat) >= LARGE ==> r == LARGE,
{
    proof {
        lemma_whole(d@, below as nat);
        assert(pow10(18) == 1_000_000_000_000_000_000) by {
            reveal_with_fuel(pow10, 19);
        }
    }
    if d.len() as u128 <= below {
        return 0;
    }
    let s: usize = below as usize;
    let ghost high = d@.skip(s as int);
    let mut top: usize = d.len();
    while top > s && d[top - 1] == 0
        invariant
            s <= top <= d@.len(),
            forall|j: int| top <= j < d@.len() ==> d@[j] == 0,
        decreases top,
    {
        top -= 1;
    }
    proof {
        let w = high.take(top - s);
        lemma_value_split(high, (top - s) as nat);
        lemma_value_zeros(high.skip(top - s));
        lemma_mul_basics(pow10((top - s) as nat) as int);
        assert(value(high) == value(w));
        assert forall|i: int| 0 <= i < w.len() implies #[trigger] w[i] <= 9 by {
            assert(w[i] == d@[i + s]);
        }
        lemma_value_bound(w);
    }
    if top - s > 18 {
        proof {
            let w = high.take(top - s);
            let t = (top - s - 1) as nat;
            lemma_value_split(w, t);
            assert(w.skip(t as int) =~= seq![d@[top - 1]]);
            assert(value(seq![d@[top - 1]]) == d@[top - 1] as nat) by {
                reveal_with_fuel(value, 2);
            }
            lemma_pow10_adds(18, (t - 18) as nat);
            lemma_pow10_positive((t - 18) as nat);
            let a = pow10((t - 18) as nat) as int;
            let l = d@[top - 1] as int;
            assert(1_000_000_000_000_000_000 * a * l >= 1_000_000_000_000_000_000) by (nonlinear_arith)
                requires
                    a >= 1,
                    l >= 1,
            ;
        }
        return LARGE;
    }
    let mut r: u64 = 0;
    let mut i: usize = top;
    proof {
        assert(high.subrange(top - s, top - s).len() == 0);
        lemma_pow10_le((top - s) as nat, 18);
    }
    while i > s
        invariant
            s <= i <= top <= d@.len(),
            all_digits(d@),
            high == d@.skip(s as int),
            r == value(high.subrange(i - s, top - s)),
            r < pow10((top - i) as nat),
            top - s <= 18,
            pow10(18) == 1_000_000_000_000_000_000,
        decreases i - s,
    {
        let ghost part = high.subrange(i - s, top - s);
        proof {
            lemma_pow10_le((top - i) as nat, 17);
            assert(pow10(17) == 100_000_000_000_000_000) by {
                reveal_with_fuel(pow10, 18);
            }
            let next = high.subrange(i - 1 - s, top - s);
            assert(next.drop_first() =~= part);
            assert(next[0] == d@[i - 1]);
        }
        i -= 1;
        r = r * 10 + d[i] as u64;
    }
    proof {
        assert(high.subrange(0, top - s) =~= high.take(top - s));
        lemma_pow10_le((top - s) as nat, 18);
        assert(r == value(high));
        if r as nat >= LARGE {
            assert(value(high) < pow10((top - s) as nat));
        }
    }
    r
}

pub proof fn lemma_pow10_le(a: nat, b: nat)
    requires
        a <= b,
    ensures
        pow10(a) <= pow10(b),
    decreases b,
{
    if a < b {
        lemma_pow10_le(a, (b - 1) as nat);
        lemma_pow10_positive((b - 1) as nat);
    }
}

/// The whole part and the part below the point of a number with `s` digits below the point.
pub proof fn lemma_whole(d: Seq<u8>, s: nat)
    requires
        all_digits(d),
    ensures
        pow10(s) > 0,
        s <= d.len() ==> value(d) / pow10(s) == value(d.skip(s as int)),
        s <= d.len() ==> value(d) % pow10(s) == value(d.take(s as int)),
        s >= d.len() ==> value(d) / pow10(s) == 0,
        s >= d.len() ==> value(d) % pow10(s) == value(d),
{
    lemma_pow10_positive(s);
    if s <= d.len() {
        let low = d.take(s as int);
        let high = d.skip(s as int);
        lemma_value_split(d, s);
        assert forall|i: int| 0 <= i < low.len() implies #[trigger] low[i] <= 9 by {
            assert(low[i] == d[i]);
        }
        lemma_value_bound(low);
        lemma_fundamental_div_mod_converse(value(d) as int, pow10(s) as int, value(high) as int, value(low) as int);
    }
    if s >= d.len() {
        lemma_value_bound(d);
        lemma_pow10_le(d.len(), s);
        lemma_fundamental_div_mod_converse(value(d) as int, pow10(s) as int, 0, value(d) as int);
    }
}

/// The character of a digit.
pub open spec fn digit_char(x: nat) -> char {
    (48 + x) as u8 as char
}

/// `n` in decimal, without leading zeros.
pub open spec fn decimal(n: nat) -> Seq<char>
    decreases n,
{
    if n < 10 {
        seq![digit_char(n)]
    } else {
        decimal(n / 10).push(digit_char(n % 10))
    }
}

/// The lowest `width` decimal digits of `n`.
pub open spec fn padded(n: nat, width: nat) -> Seq<char>
    decreases width,
{
    if width == 0 {
        Seq::empty()
    } else {
        padded(n / 10, (width - 1) as nat).push(digit_char(n % 10))
    }
}

/// The digits as written, the top one first.
pub open spec fn written(d: Seq<u8>) -> Seq<char> {
    Seq::new(d.len(), |i: int| digit_char(d[d.len() - 1 - i] as nat))
}

pub proof fn lemma_written_step(d: Seq<u8>)
    requires
        d.len() > 0,
        all_digits(d),
    ensures
        all_digits(d.drop_first()),
        written(d) == written(d.drop_first()).push(digit_char(d[0] as nat)),
        value(d) / 10 == value(d.drop_first()),
        value(d) % 10 == d[0],
{
    let rest = d.drop_first();
    assert forall|i: int| 0 <= i < rest.len() implies #[trigger] rest[i] <= 9 by {
        assert(rest[i] == d[i + 1]);
    }
    assert(d[0] <= 9);
    assert(written(d) =~= written(rest).push(digit_char(d[0] as nat)));
}

/// The written digits are the padded form of the number.
pub proof fn lemma_written_padded(d: Seq<u8>)
    requires
        all_digits(d),
    ensures
        written(d) == padded(value(d), d.len()),
    decreases d.len(),
{
    if d.len() == 0 {
        assert(written(d) =~= Seq::<char>::empty());
    } else {
        lemma_written_step(d);
        lemma_written_padded(d.drop_first());
    }
}

/// Without a zero on top, the written digits are the number in decimal.
pub proof fn lemma_written_decimal(d: Seq<u8>)
    requires
        all_digits(d),
        d.len() > 0,
        d.len() > 1 ==> d.last() != 0,
    ensures
        written(d) == decimal(value(d)),
    decreases d.len(),
{
    lemma_written_step(d);
    if d.len() == 1 {
        assert(d.drop_first().len() == 0);
        assert(written(d) =~= seq![digit_char(d[0] as nat)]);
    } else {
        let rest = d.drop_first();
        assert(rest.last() == d.last());
        lemma_written_decimal(rest);
        lemma_top(rest);
    }
}

/// A number whose top digit is not zero is not zero.
pub proof fn lemma_top(d: Seq<u8>)
    requires
        d.len() > 0,
        d.last() != 0,
    ensures
        value(d) > 0,
    decreases d.len(),
{
    if d.len() > 1 {
        assert(d.drop_first().last() == d.last());
        lemma_top(d.drop_first());
    }
}

/// Appends the digits `d[to - 1]`, ..., `d[from]`.
pub fn push_digits(out: &mut String, d: &Vec<u8>, from: usize, to: usize)
    requires
        all_digits(d@),
        from <= to <= d@.len(),
    ensures
        final(out)@ == old(out)@ + written(d@.subrange(from as int, to as int)),
{
    let mut i: usize = to;
    let ghost start = out@;
    let ghost part = d@.subrange(from as int, to as int);
    proof {
        assert(start + written(part).take(0) =~= start);
    }
    while i > from
        invariant
            from <= i <= to <= d@.len(),
            all_digits(d@),
            part == d@.subrange(from as int, to as int),
            out@ == start + written(part).take(to - i),
        decreases i,
    {
        i -= 1;
        let x = d[i];
        proof {
            assert(written(part)[to - i - 1] == digit_char(x as nat));
            assert(start + written(part).take(to - i) =~= (start + written(part).take(to - i - 1)).push(
                digit_char(x as nat),
            ));
        }
        out.push((48 + x) as char);
    }
    proof {
        assert(written(part).take(to - from) =~= written(part));
    }
}

/// `n` in decimal.
pub fn decimal_text(n: u64) -> (r: String)
    ensures
        r@ == decimal(n as nat),
{
    let mut r = String::new();
    if n == 0 {
        proof {
            assert(decimal(0) =~= seq!['0']);
        }
        r.push('0');
    } else {
        let d = digits_of(n);
        push_digits(&mut r, &d, 0, d.len());
        proof {
            assert(d@.subrange(0, d@.len() as int) =~= d@);
            assert(d@.len() > 0);
            lemma_written_decimal(d@);
        }
    }
    r
}

/// `n`, below a hundred, as two digits.
pub open spec fn two_digits(n: nat) -> Seq<char> {
    padded(n, 2)
}

/// The number plus one.
pub fn plus_one(d: &Vec<u8>) -> (r: Vec<u8>)
    requires
        all_digits(d@),
    ensures
        all_digits(r@),
        value(r@) == value(d@) + 1,
        r@.len() >= d@.len(),
{
    let mut r: Vec<u8> = Vec::new();
    let mut carry: u8 = 1;
    let mut i: usize = 0;
    proof {
        assert(d@.take(0).len() == 0);
        lemma_mul_basics(pow10(0) as int);
    }
    while i < d.len()
        invariant
            i <= d@.len(),
            r@.len() == i,
            carry <= 1,
            all_digits(d@),
            all_digits(r@),
            value(r@) + carry as nat * pow10(i as nat) == value(d@.take(i as int)) + 1,
        decreases d@.len() - i,
    {
        let ghost r0 = r@;
        let ghost k0 = carry as nat;
        assert(d@[i as int] <= 9);
        let t: u8 = d[i] + carry;
        r.push(t % 10);
        carry = t / 10;
        proof {
            lemma_value_push(r0, (t % 10) as u8);
            assert(d@.take(i + 1) =~= d@.take(i as int).push(d@[i as int]));
            lemma_value_push(d@.take(i as int), d@[i as int]);
            let p = pow10(i as nat) as int;
            let x = d@[i as int] as int;
            let low = (t % 10) as int;
            let hi = carry as int;
            assert(low * p + hi * (10 * p) == x * p + k0 * p) by (nonlinear_arith)
                requires
                    low + 10 * hi == x + k0,
            ;
        }
        i += 1;
    }
    proof {
        assert(d@.take(d@.len() as int) =~= d@);
        lemma_mul_basics(pow10(d@.len()) as int);
    }
    if carry > 0 {
        proof {
            lemma_value_push(r@, carry);
        }
        r.push(carry);
    }
    r
}

} // verus!
