//! The decimal expansion of a natural number, most significant digit first.

use vstd::arithmetic::div_mod::lemma_div_denominator;
use vstd::arithmetic::power::{lemma_pow0, lemma_pow_positive, pow};
use vstd::prelude::*;

verus! {

/// The decimal digits of `n`, most significant first, without leading zeros.
/// Zero has the single digit 0.
pub open spec fn digits_of(n: nat) -> Seq<u8>
    decreases n,
{
    if n < 10 {
        seq![n as u8]
    } else {
        digits_of(n / 10).push((n % 10) as u8)
    }
}

/// The ASCII text of a natural number: each digit of `digits_of` as the
/// character `'0'..='9'`.
pub open spec fn ascii_digits(n: nat) -> Seq<u8> {
    Seq::new(digits_of(n).len(), |i: int| (digits_of(n)[i] + 48) as u8)
}

/// The ASCII text of an integer: a minus sign before the digits of a negative
/// number, nothing before the others.
pub open spec fn ascii_decimal(v: int) -> Seq<u8> {
    if v < 0 {
        seq![45u8] + ascii_digits((-v) as nat)
    } else {
        ascii_digits(v as nat)
    }
}

/// Every digit of the expansion is below ten.
pub proof fn lemma_digits_below_ten(n: nat)
    ensures
        digits_of(n).len() >= 1,
        forall|i: int| 0 <= i < digits_of(n).len() ==> #[trigger] digits_of(n)[i] <= 9,
    decreases n,
{
    if n >= 10 {
        lemma_digits_below_ten(n / 10);
    }
}

/// A number from `d * 10^k` up to, but not, `(d + 1) * 10^k`, for a digit
/// `d` from 1 to 9, has `k + 1` digits, and the first of them is `d`.
pub proof fn lemma_digits_leading(n: nat, k: nat, d: nat)
    requires
        1 <= d <= 9,
        d * pow(10, k) <= n < (d + 1) * pow(10, k),
    ensures
        digits_of(n).len() == k + 1,
        digits_of(n)[0] == d,
    decreases k,
{
    if k == 0 {
        lemma_pow0(10);
    } else {
        reveal(pow);
        let w = pow(10, (k - 1) as nat);
        assert(pow(10, k) == 10 * w);
        lemma_pow_positive(10, (k - 1) as nat);
        assert(d * (10 * w) == 10 * (d * w)) by (nonlinear_arith);
        assert((d + 1) * (10 * w) == 10 * ((d + 1) * w)) by (nonlinear_arith);
        assert(d * w >= 1) by (nonlinear_arith)
            requires
                d >= 1,
                w >= 1,
        ;
        lemma_digits_leading(n / 10, (k - 1) as nat, d);
    }
}

/// Dividing by `10^j` drops the last `j` digits.
pub proof fn lemma_digits_of_quotient(n: nat, j: nat)
    requires
        n >= pow(10, j),
    ensures
        digits_of(n).len() > j,
        digits_of((n / (pow(10, j) as nat)) as nat) == digits_of(n).take(digits_of(n).len() - j),
    decreases j,
{
    if j == 0 {
        lemma_pow0(10);
        lemma_digits_below_ten(n);
        assert(digits_of(n).take(digits_of(n).len() as int) =~= digits_of(n));
    } else {
        reveal(pow);
        let w = pow(10, (j - 1) as nat);
        assert(pow(10, j) == 10 * w);
        lemma_pow_positive(10, (j - 1) as nat);
        lemma_digits_of_quotient(n / 10, (j - 1) as nat);
        lemma_div_denominator(n as int, 10, w);
        let shorter = digits_of(n / 10);
        assert(digits_of(n) == shorter.push((n % 10) as u8));
        assert(digits_of(n).take(digits_of(n).len() - j) =~= shorter.take(shorter.len() - (j - 1)));
    }
}

} // verus!
