//! The digit generator: the first decimal digits of pi after the leading 3.
//!
//! For `n` digits the series is evaluated to `n + 20` digits: the integer
//! `Q * 426880 * isqrt(10005 * 10^(2 * (n + 20))) / T` approximates
//! `pi * 10^(n + 20)`, and its decimal expansion after the first digit gives
//! the digits.

use crate::big::{big_div, big_from, big_mul, big_pow, big_to_decimal, big_value};
use crate::decimal::{
    digits_of, lemma_digits_below_ten, lemma_digits_leading, lemma_digits_of_quotient,
};
use crate::isqrt::{
    int_sqrt, is_int_sqrt, isqrt, lemma_int_sqrt_exists, lemma_int_sqrt_monotonic,
};
use crate::split::{binary_split, lemma_series_sum_positive, series, CHUD_A};
use num_bigint::BigInt;
use vstd::arithmetic::div_mod::{
    lemma_div_by_multiple_is_strongly_ordered, lemma_div_is_ordered, lemma_div_multiples_vanish,
    lemma_fundamental_div_mod,
};
use vstd::arithmetic::power::{
    lemma_pow0, lemma_pow_adds, lemma_pow_increases, lemma_pow_positive, pow,
};
use vstd::prelude::*;

verus! {

/// The digits computed beyond those asked for, to absorb the truncation of
/// the square root and of the division.
pub const GUARD_DIGITS: u64 = 20;

/// The number of series terms evaluated for `total` digits: each term adds
/// about 14.1816474 digits, so `ceil(total / 14.1816474) + 2`.
pub open spec fn term_count(total: nat) -> nat {
    ((total * 10_000_000 + 141_816_473) / 141_816_474 + 2) as nat
}

/// The integer that approximates `pi * 10^total`.
pub open spec fn pi_scaled(total: nat) -> int {
    let sum = series(0, term_count(total));
    sum.q * 426880 * int_sqrt(10005 * pow(10, 2 * total)) / sum.t
}

/// The first `n` decimal digits of pi after the leading 3, as the generator
/// yields them: the digits of `pi_scaled(n + 20)` from the second on.
pub open spec fn pi_digits(n: nat) -> Seq<u8> {
    digits_of(pi_scaled(n + GUARD_DIGITS as nat) as nat).subrange(1, n as int + 1)
}

/// The scaled value lies from `3 * 10^total` up to, but not, `4 * 10^total`:
/// it has `total + 1` digits, and the first of them is 3.
pub proof fn lemma_pi_scaled_range(total: nat)
    ensures
        3 * pow(10, total) <= pi_scaled(total) < 4 * pow(10, total),
        digits_of(pi_scaled(total) as nat).len() == total + 1,
        digits_of(pi_scaled(total) as nat)[0] == 3,
{
    let sum = series(0, term_count(total));
    lemma_series_sum_positive(term_count(total));
    let w = pow(10, total);
    let radicand = 10005 * pow(10, 2 * total);
    lemma_pow_positive(10, total);
    lemma_pow_adds(10, total, total);
    assert(pow(10, 2 * total) == w * w);
    assert(w * w >= 1) by (nonlinear_arith)
        requires
            w >= 1,
    ;
    let low = 100 * w;
    assert(is_int_sqrt(low, 10000 * (w * w))) by (nonlinear_arith)
        requires
            w >= 1,
            low == 100 * w,
    {
        assert(low * low == 10000 * (w * w));
        assert((low + 1) * (low + 1) == low * low + 2 * low + 1);
    }
    let root = int_sqrt(radicand);
    lemma_int_sqrt_exists(radicand);
    lemma_int_sqrt_monotonic(low, 10000 * (w * w), root, radicand);
    assert(root < 101 * w) by (nonlinear_arith)
        requires
            w >= 1,
            root >= 0,
            root * root <= 10005 * (w * w),
    {
        if root >= 101 * w {
            assert(root * root >= (101 * w) * (101 * w));
            assert((101 * w) * (101 * w) == 10201 * (w * w));
        }
    }
    lemma_quotient_range(sum.q, sum.t, root, w);
    lemma_digits_leading(pi_scaled(total) as nat, total, 3);
}

/// The scaled value without its guard digits: the integer whose digits after
/// the first are the `n` digits that the generator yields.
pub open spec fn pi_truncated(n: nat) -> nat {
    (pi_scaled(n + GUARD_DIGITS as nat) / pow(10, GUARD_DIGITS as nat)) as nat
}

/// The generator's digits are those of the scaled value without its guard
/// digits, after the leading 3.
pub proof fn lemma_pi_digits_drop_guard(n: nat)
    ensures
        3 * pow(10, n) <= pi_truncated(n) < 4 * pow(10, n),
        digits_of(pi_truncated(n)).len() == n + 1,
        digits_of(pi_truncated(n))[0] == 3,
        pi_digits(n) == digits_of(pi_truncated(n)).skip(1),
{
    let guard = GUARD_DIGITS as nat;
    let total = n + guard;
    let scaled = pi_scaled(total);
    let unit = pow(10, guard);
    let w = pow(10, n);
    lemma_pi_scaled_range(total);
    lemma_pow_positive(10, guard);
    lemma_pow_positive(10, n);
    lemma_pow_adds(10, n, guard);
    assert(pow(10, total) == w * unit);
    assert(3 * (w * unit) == unit * (3 * w)) by (nonlinear_arith);
    assert(4 * (w * unit) == (4 * w) * unit) by (nonlinear_arith);
    lemma_div_is_ordered(unit * (3 * w), scaled, unit);
    lemma_div_multiples_vanish(3 * w, unit);
    lemma_div_by_multiple_is_strongly_ordered(scaled, (4 * w) * unit, 4 * w, unit);
    assert(((4 * w) * unit) / unit == 4 * w) by {
        assert((4 * w) * unit == unit * (4 * w)) by (nonlinear_arith);
        lemma_div_multiples_vanish(4 * w, unit);
    }
    lemma_digits_leading(pi_truncated(n), n, 3);
    assert(scaled >= unit) by (nonlinear_arith)
        requires
            scaled >= 3 * (w * unit),
            w >= 1,
            unit >= 1,
    ;
    lemma_digits_of_quotient(scaled as nat, guard);
    assert(pi_digits(n) =~= digits_of(pi_truncated(n)).skip(1));
}

/// Where the value computed for `n2` digits, cut to `n1` digits, is the
/// value computed for `n1` digits, the first `n1` of the `n2` digits are the
/// `n1` digits: a longer run does not retract what a shorter one gave, as
/// long as the two differ in the guard digits alone.
pub proof fn lemma_prefix_where_guard_absorbs(n1: nat, n2: nat)
    requires
        n1 <= n2,
        pi_truncated(n2) / (pow(10, (n2 - n1) as nat) as nat) == pi_truncated(n1),
    ensures
        pi_digits(n2).take(n1 as int) == pi_digits(n1),
{
    let cut = (n2 - n1) as nat;
    lemma_pi_digits_drop_guard(n1);
    lemma_pi_digits_drop_guard(n2);
    lemma_pow_positive(10, n2);
    lemma_pow_increases(10, cut, n2);
    lemma_digits_of_quotient(pi_truncated(n2), cut);
    let long = digits_of(pi_truncated(n2));
    assert(digits_of(pi_truncated(n1)) == long.take(n1 as int + 1));
    assert(long.skip(1).take(n1 as int) =~= long.take(n1 as int + 1).skip(1));
}

/// With `T` within one `Q` of `CHUD_A * Q` and the root from `100 * w` up
/// to, but not, `101 * w`, the quotient `Q * 426880 * root / T` lies from
/// `3 * w` up to, but not, `4 * w`.
proof fn lemma_quotient_range(q: int, t: int, root: int, w: int)
    requires
        q >= 1,
        (CHUD_A - 1) * q <= t <= (CHUD_A + 1) * q,
        w >= 1,
        100 * w <= root < 101 * w,
    ensures
        q * 426880 * root >= 0,
        3 * w <= q * 426880 * root / t < 4 * w,
{
    let x = q * 426880 * root;
    let qw = q * w;
    assert(qw >= 1) by (nonlinear_arith)
        requires
            qw == q * w,
            q >= 1,
            w >= 1,
    ;
    assert(42688000 * qw <= x < 43114880 * qw) by (nonlinear_arith)
        requires
            x == q * 426880 * root,
            qw == q * w,
            q >= 1,
            100 * w <= root < 101 * w,
    {
        assert(x == 426880 * (q * root));
        assert(q * (100 * w) <= q * root < q * (101 * w));
        assert(q * (100 * w) == 100 * (q * w));
        assert(q * (101 * w) == 101 * (q * w));
    }
    assert(13591408 * qw <= t * w <= 13591410 * qw) by (nonlinear_arith)
        requires
            13591408 * q <= t <= 13591410 * q,
            qw == q * w,
            w >= 1,
    {
        assert((13591408 * q) * w <= t * w <= (13591410 * q) * w);
        assert((13591408 * q) * w == 13591408 * (q * w));
        assert((13591410 * q) * w == 13591410 * (q * w));
    }
    assert(t * (3 * w) == 3 * (t * w)) by (nonlinear_arith);
    assert(t * (4 * w) == 4 * (t * w)) by (nonlinear_arith);
    assert(t * (3 * w) <= x < t * (4 * w));
    lemma_div_is_ordered(t * (3 * w), x, t);
    lemma_div_multiples_vanish(3 * w, t);
    lemma_fundamental_div_mod(x, t);
    let quotient = x / t;
    assert(quotient < 4 * w) by (nonlinear_arith)
        requires
            t >= 1,
            x == t * quotient + x % t,
            x % t >= 0,
            x < t * (4 * w),
    {
        if quotient >= 4 * w {
            assert(t * quotient >= t * (4 * w));
        }
    }
}

/// Ten to the power `exponent`.
fn power_of_ten(exponent: u128) -> (r: BigInt)
    ensures
        big_value(r) == pow(10, exponent as nat),
{
    let ten = big_from(10);
    let mut r = big_from(1);
    let mut left: u128 = exponent;
    proof {
        lemma_pow0(10);
    }
    // One power takes a 32-bit exponent: a larger one is a product of powers.
    while left > 0
        invariant
            left <= exponent,
            big_value(ten) == 10,
            big_value(r) == pow(10, (exponent - left) as nat),
        decreases left,
    {
        let step: u32 = if left > 0xffff_ffff {
            0xffff_ffff
        } else {
            left as u32
        };
        proof {
            lemma_pow_adds(10, (exponent - left) as nat, step as nat);
        }
        r = big_mul(&r, &big_pow(&ten, step));
        left = left - step as u128;
    }
    r
}

/// The integer `pi_scaled(total)`, which approximates `pi * 10^total`.
fn scaled_pi(total: u128) -> (r: BigInt)
    requires
        total <= u64::MAX + GUARD_DIGITS,
    ensures
        big_value(r) == pi_scaled(total as nat),
{
    let terms: u64 = ((total * 10_000_000 + 141_816_473) / 141_816_474 + 2) as u64;
    let (_, q, t) = binary_split(0, terms);
    let radicand = big_mul(&big_from(10005), &power_of_ten(2 * total));
    proof {
        lemma_pow_positive(10, (2 * total) as nat);
        lemma_series_sum_positive(terms as nat);
    }
    let root = isqrt(&radicand);
    let numerator = big_mul(&big_mul(&q, &big_from(426880)), &root);
    proof {
        let qv = big_value(q);
        let rv = big_value(root);
        assert(qv * 426880 * rv >= 0) by (nonlinear_arith)
            requires
                qv >= 1,
                rv >= 0,
        ;
    }
    big_div(&numerator, &t)
}

/// The first `num_digits` decimal digits of pi after the leading 3.
///
/// No digits are asked for: none are computed, and the result is empty.
pub fn compute_pi_digits(num_digits: usize) -> (digits: Vec<u8>)
    ensures
        digits@ == pi_digits(num_digits as nat),
        digits.len() == num_digits,
        forall|i: int| 0 <= i < digits.len() ==> #[trigger] digits[i] <= 9,
{
    let ghost total = (num_digits + GUARD_DIGITS) as nat;
    let ghost value = pi_scaled(total) as nat;
    proof {
        lemma_pi_scaled_range(total);
        lemma_digits_below_ten(value);
    }
    let mut digits: Vec<u8> = Vec::new();
    if num_digits == 0 {
        assert(digits@ =~= pi_digits(0));
        return digits;
    }
    let scaled = scaled_pi(num_digits as u128 + GUARD_DIGITS as u128);
    let text = big_to_decimal(&scaled);
    let mut i: usize = 0;
    while i < num_digits
        invariant
            i <= num_digits,
            num_digits < text.len(),
            text@.len() == digits_of(value).len(),
            forall|j: int| 0 <= j < text.len() ==> #[trigger] text[j] == digits_of(value)[j] + 48,
            forall|j: int| 0 <= j < text.len() ==> #[trigger] digits_of(value)[j] <= 9,
            digits.len() == i,
            forall|j: int| 0 <= j < i ==> #[trigger] digits[j] == digits_of(value)[j + 1],
        decreases num_digits - i,
    {
        digits.push(text[i + 1] - 48);
        i += 1;
    }
    assert(digits@ =~= pi_digits(num_digits as nat));
    digits
}

} // verus!
