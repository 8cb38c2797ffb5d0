//! Number formatting: decimal digits, and the one-decimal rendering of a
//! quotient as a double-precision value prints it (round to nearest, ties to
//! even, at each step), computed exactly with integers.
use vstd::prelude::*;

verus! {

broadcast use vstd::string::group_string_axioms;

pub open spec fn digit_char(d: int) -> char {
    if d == 0 {
        '0'
    } else if d == 1 {
        '1'
    } else if d == 2 {
        '2'
    } else if d == 3 {
        '3'
    } else if d == 4 {
        '4'
    } else if d == 5 {
        '5'
    } else if d == 6 {
        '6'
    } else if d == 7 {
        '7'
    } else if d == 8 {
        '8'
    } else {
        '9'
    }
}

/// The decimal digits of `n`, without leading zeros.
pub open spec fn decimal(n: nat) -> Seq<char>
    decreases n,
{
    if n < 10 {
        seq![digit_char(n as int)]
    } else {
        decimal(n / 10) + seq![digit_char((n % 10) as int)]
    }
}

pub fn digit(d: u128) -> (c: char)
    requires
        d < 10,
    ensures
        c == digit_char(d as int),
{
    if d == 0 {
        '0'
    } else if d == 1 {
        '1'
    } else if d == 2 {
        '2'
    } else if d == 3 {
        '3'
    } else if d == 4 {
        '4'
    } else if d == 5 {
        '5'
    } else if d == 6 {
        '6'
    } else if d == 7 {
        '7'
    } else if d == 8 {
        '8'
    } else {
        '9'
    }
}

/// Appends the decimal digits of `n`.
pub fn push_decimal(s: &mut String, n: u128)
    ensures
        final(s)@ == old(s)@ + decimal(n as nat),
    decreases n,
{
    if n < 10 {
        s.push(digit(n));
    } else {
        push_decimal(s, n / 10);
        s.push(digit(n % 10));
    }
}

/// `n` in decimal.
pub fn decimal_string(n: u128) -> (r: String)
    ensures
        r@ == decimal(n as nat),
{
    let mut s = String::new();
    push_decimal(&mut s, n);
    s
}

/// `num / den` rounded to the nearest integer, ties to even.
pub open spec fn rhe(num: nat, den: nat) -> nat {
    let q = num / den;
    let r = num % den;
    if 2 * r > den || (2 * r == den && q % 2 == 1) {
        q + 1
    } else {
        q
    }
}

pub open spec fn two53() -> nat {
    0x20_0000_0000_0000
}

/// A value below 2^52 times `den`, doubled until it reaches 53 significant
/// bits, rounded to an integer, and halved back: numerator and denominator.
pub open spec fn rn_up(num: nat, den: nat) -> (nat, nat)
    decreases (if num < 0x10_0000_0000_0000 * den { 0x10_0000_0000_0000 * den - num } else { 0int }),
{
    if num == 0 || num >= 0x10_0000_0000_0000 * den {
        (rhe(num, den), 1)
    } else {
        let r = rn_up(2 * num, den);
        (r.0, 2 * r.1)
    }
}

/// A value of 2^53 or more, halved until it has 53 significant bits,
/// rounded to an integer, and doubled back.
pub open spec fn rn_down(num: nat, den: nat) -> (nat, nat)
    decreases (if den > 0 && den <= num { num + 1 - den } else { 0int }),
{
    if den == 0 || num < 0x20_0000_0000_0000 * den {
        (rhe(num, den), 1)
    } else {
        let r = rn_down(num, 2 * den);
        (2 * r.0, r.1)
    }
}

/// The double-precision value nearest to `num / den` (ties to even), as a
/// numerator and a denominator.
pub open spec fn rn53(num: nat, den: nat) -> (nat, nat) {
    if num >= 0x20_0000_0000_0000 * den {
        rn_down(num, den)
    } else {
        rn_up(num, den)
    }
}

/// `n / d` as `n as f64 / d as f64` computes it, printed with one decimal
/// (`{:.1}` rounds the exact value of the double, ties to even): the printed
/// digits as a number of tenths.
pub open spec fn float_tenths(n: nat, d: nat) -> nat {
    float_scaled(n, d, 10)
}

/// `n / d` as `n as f64 / d as f64` computes it, times `scale` and rounded to
/// an integer, ties to even: `{:.0}` prints it for a scale of 1, `{:.1}` for
/// a scale of 10 (in tenths).
pub open spec fn float_scaled(n: nat, d: nat, scale: nat) -> nat {
    let x = rn53(n, 1);
    let q = rn53(x.0, x.1 * d);
    rhe(scale * q.0, q.1)
}

/// A number of tenths written with one decimal.
pub open spec fn tenths_text(t: nat) -> Seq<char> {
    decimal(t / 10) + seq!['.', digit_char((t % 10) as int)]
}

pub fn round_half_even(num: u128, den: u128) -> (r: u128)
    requires
        den > 0,
        num < 0x8000_0000_0000_0000_0000_0000_0000_0000,
        den < 0x8000_0000_0000_0000_0000_0000_0000_0000,
    ensures
        r as nat == rhe(num as nat, den as nat),
        r <= num / den + 1,
{
    let q = num / den;
    let r = num % den;
    if 2 * r > den || (2 * r == den && q % 2 == 1) {
        q + 1
    } else {
        q
    }
}

/// The double nearest to `num / den`, as (numerator, denominator).
pub fn round53(num: u128, den: u128) -> (r: (u128, u128))
    requires
        0 < num <= 0x4_0000_0000_0000_0000,
        0 < den <= 0x200_0000_0000_0000_0000,
    ensures
        (r.0 as nat, r.1 as nat) == rn53(num as nat, den as nat),
        r.1 >= 1,
        r.1 == 1 || r.1 * num < two53() * den,
        r.0 <= two53() + 2 * num,
        r.0 >= 1,
{
    if num >= 0x20_0000_0000_0000 * den {
        let mut d = den;
        let mut p: u128 = 1;
        while num >= 0x20_0000_0000_0000 * d
            invariant
                0 < num <= 0x4_0000_0000_0000_0000,
                0 < den <= d,
                1 <= p <= d,
                0x10_0000_0000_0000 * d <= num,
                rn53(num as nat, den as nat) == (
                rn_down(num as nat, d as nat).0 * (p as nat),
                rn_down(num as nat, d as nat).1,
                ),
            decreases num - 0x10_0000_0000_0000 * d,
        {
            proof {
                let r = rn_down(num as nat, 2 * d as nat);
                assert(rn_down(num as nat, d as nat) == (2 * r.0, r.1));
                assert((2 * r.0) * p == r.0 * (2 * p)) by (nonlinear_arith);
            }
            d = d * 2;
            p = p * 2;
        }
        let m = round_half_even(num, d);
        proof {
            vstd::arithmetic::div_mod::lemma_multiply_divide_lt(num as int, d as int, two53() as int);
            assert(m <= two53());
            assert(m * p <= two53() * d) by (nonlinear_arith)
                requires m <= two53(), p <= d;
            assert(num / d >= 1) by (nonlinear_arith)
                requires num >= d, d > 0;
            assert(m * p >= 1) by (nonlinear_arith)
                requires m >= 1, p >= 1;
        }
        (m * p, 1)
    } else {
        let mut x = num;
        let mut p: u128 = 1;
        while x < 0x10_0000_0000_0000 * den
            invariant
                0 < num <= 0x4_0000_0000_0000_0000,
                0 < den <= 0x200_0000_0000_0000_0000,
                num <= x < 0x20_0000_0000_0000 * den,
                1 <= p <= x,
                p * num <= x,
                rn53(num as nat, den as nat) == (
                rn_up(x as nat, den as nat).0,
                rn_up(x as nat, den as nat).1 * (p as nat),
                ),
            decreases 0x20_0000_0000_0000 * den - x,
        {
            proof {
                let r = rn_up(2 * x as nat, den as nat);
                assert(rn_up(x as nat, den as nat) == (r.0, 2 * r.1));
                assert((2 * r.1) * p == r.1 * (2 * p)) by (nonlinear_arith);
                assert((2 * p) * num == 2 * (p * num)) by (nonlinear_arith);
            }
            x = x * 2;
            p = p * 2;
        }
        let m = round_half_even(x, den);
        proof {
            vstd::arithmetic::div_mod::lemma_multiply_divide_lt(x as int, den as int, two53() as int);
            assert(p * num < two53() * den);
            assert(x / den >= 1) by (nonlinear_arith)
                requires x >= den, den > 0;
        }
        (m, p)
    }
}

/// `n / d` computed in double precision, then rounded to tenths as `{:.1}`
/// prints it.
pub fn float_quotient_tenths(n: u64, d: u64) -> (t: u128)
    requires
        0 < d <= 0x10_0000,
    ensures
        t as nat == float_tenths(n as nat, d as nat),
{
    float_quotient_scaled(n, d, 10)
}

/// `n / d` computed in double precision, times `scale`, rounded to an
/// integer with ties to even.
pub fn float_quotient_scaled(n: u64, d: u64, scale: u128) -> (t: u128)
    requires
        0 < d <= 0x10_0000,
        scale <= 10,
    ensures
        t as nat == float_scaled(n as nat, d as nat, scale as nat),
{
    if n == 0 {
        proof {
            assert(rn53(0, 1) == (0nat, 1nat));
            assert(rn53(0, d as nat) == (0nat, 1nat));
            assert(1 * (d as nat) == d as nat);
            assert(scale * 0 == 0);
            assert(rhe(0, 1) == 0);
        }
        return 0;
    }
    let x = round53(n as u128, 1);
    proof {
        assert(1 <= x.1 * (d as nat) <= 0x200_0000_0000_0000_0000) by (nonlinear_arith)
            requires
                x.1 >= 1,
                d >= 1,
                x.1 == 1 || x.1 * n < two53(),
                1 <= n,
                d <= 0x10_0000;
    }
    let q = round53(x.0, x.1 * (d as u128));
    proof {
        assert(q.1 < 0x4000_0000_0000_0000_0000_0000_0000_0000) by (nonlinear_arith)
            requires
                q.1 == 1 || q.1 * x.0 < two53() * (x.1 * d),
                1 <= x.0,
                x.1 * d <= 0x200_0000_0000_0000_0000;
    }
    proof {
        assert(scale * q.0 <= 10 * (two53() + 2 * 0x4_0000_0000_0000_0000)) by (nonlinear_arith)
            requires
                scale <= 10,
                q.0 <= two53() + 2 * x.0,
                x.0 <= 0x4_0000_0000_0000_0000;
    }
    round_half_even(scale * q.0, q.1)
}

/// The text of a number of tenths: integer part, a point, one digit.
pub fn tenths_string(t: u128) -> (s: String)
    ensures
        s@ == tenths_text(t as nat),
{
    let mut s = String::new();
    push_decimal(&mut s, t / 10);
    s.push('.');
    s.push(digit(t % 10));
    s
}

/// How a count is shown in a table cell.
pub open spec fn compact_text(n: nat) -> Seq<char> {
    if n >= 1_000_000 {
        tenths_text(float_tenths(n, 1_000_000)).push('M')
    } else if n >= 1_000 {
        tenths_text(float_tenths(n, 1_000)).push('K')
    } else {
        decimal(n)
    }
}

/// A count in short form: millions and thousands with one decimal and a
/// suffix, smaller counts as they are.
pub fn compact_num(n: u64) -> (s: String)
    ensures
        s@ == compact_text(n as nat),
{
    if n >= 1_000_000 {
        let mut s = tenths_string(float_quotient_tenths(n, 1_000_000));
        s.push('M');
        s
    } else if n >= 1_000 {
        let mut s = tenths_string(float_quotient_tenths(n, 1_000));
        s.push('K');
        s
    } else {
        decimal_string(n as u128)
    }
}

/// Two decimal digits, zero-padded (`{:02}` of a value below 100).
pub open spec fn two_digits(n: nat) -> Seq<char> {
    if n < 10 {
        seq!['0', digit_char(n as int)]
    } else {
        decimal(n)
    }
}

/// How a duration in milliseconds is shown.
pub open spec fn duration_text(ms: nat) -> Seq<char> {
    if ms < 1000 {
        decimal(ms) + seq!['m', 's']
    } else if ms < 60_000 {
        tenths_text(float_tenths(ms, 1000)).push('s')
    } else {
        decimal(ms / 60_000) + seq!['m'] + two_digits((ms / 1000) % 60) + seq!['s']
    }
}

/// A duration: milliseconds below a second, seconds with one decimal below
/// a minute, minutes and zero-padded seconds above.
pub fn fmt_dur(ms: u128) -> (s: String)
    ensures
        s@ == duration_text(ms as nat),
{
    if ms < 1000 {
        let mut s = decimal_string(ms);
        s.push('m');
        s.push('s');
        s
    } else if ms < 60_000 {
        let mut s = tenths_string(float_quotient_tenths(ms as u64, 1000));
        s.push('s');
        s
    } else {
        let mut s = decimal_string(ms / 60_000);
        s.push('m');
        let sec = (ms / 1000) % 60;
        if sec < 10 {
            s.push('0');
            s.push(digit(sec));
        } else {
            push_decimal(&mut s, sec);
        }
        s.push('s');
        s
    }
}

} // verus!
