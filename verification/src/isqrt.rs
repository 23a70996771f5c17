//! The integer square root, by Newton's method on arbitrary-precision
//! integers.

use crate::big::{big_add, big_bits, big_div, big_from, big_ge, big_is_zero, big_shl, big_shr, big_value};
use num_bigint::BigInt;
use vstd::arithmetic::div_mod::lemma_fundamental_div_mod;
use vstd::arithmetic::power2::{lemma2_to64, lemma_pow2_adds, lemma_pow2_strictly_increases, pow2};
use vstd::prelude::*;

verus! {

/// `r` is the integer square root of `n`: the largest integer whose square
/// does not exceed `n`.
pub open spec fn is_int_sqrt(r: int, n: int) -> bool {
    0 <= r && r * r <= n && n < (r + 1) * (r + 1)
}

/// The integer square root of `n`, for `n >= 0`.
pub open spec fn int_sqrt(n: int) -> int {
    choose|r: int| is_int_sqrt(r, n)
}

/// A number has at most one integer square root.
pub proof fn lemma_int_sqrt_unique(r1: int, r2: int, n: int)
    requires
        is_int_sqrt(r1, n),
        is_int_sqrt(r2, n),
    ensures
        r1 == r2,
{
    assert(r1 == r2) by (nonlinear_arith)
        requires
            0 <= r1,
            r1 * r1 <= n,
            n < (r1 + 1) * (r1 + 1),
            0 <= r2,
            r2 * r2 <= n,
            n < (r2 + 1) * (r2 + 1),
    {
        if r1 < r2 {
            assert((r1 + 1) * (r1 + 1) <= r2 * r2);
        }
        if r2 < r1 {
            assert((r2 + 1) * (r2 + 1) <= r1 * r1);
        }
    }
}

/// Every number that is not negative has an integer square root.
pub proof fn lemma_int_sqrt_exists(n: int)
    requires
        n >= 0,
    ensures
        is_int_sqrt(int_sqrt(n), n),
    decreases n,
{
    if n == 0 {
        assert(is_int_sqrt(0, 0));
    } else {
        lemma_int_sqrt_exists(n - 1);
        let r = int_sqrt(n - 1);
        if (r + 1) * (r + 1) <= n {
            assert(is_int_sqrt(r + 1, n)) by (nonlinear_arith)
                requires
                    r >= 0,
                    r * r <= n - 1,
                    n - 1 < (r + 1) * (r + 1),
                    (r + 1) * (r + 1) <= n,
            ;
        } else {
            assert(is_int_sqrt(r, n));
        }
    }
}

/// What is known of one integer square root is known of `int_sqrt`.
pub proof fn lemma_int_sqrt_is(r: int, n: int)
    requires
        is_int_sqrt(r, n),
    ensures
        int_sqrt(n) == r,
{
    lemma_int_sqrt_unique(r, int_sqrt(n), n);
}

/// The integer square root does not decrease as its argument grows.
pub proof fn lemma_int_sqrt_monotonic(r1: int, n1: int, r2: int, n2: int)
    requires
        is_int_sqrt(r1, n1),
        is_int_sqrt(r2, n2),
        n1 <= n2,
    ensures
        r1 <= r2,
{
    assert(r1 <= r2) by (nonlinear_arith)
        requires
            0 <= r1,
            r1 * r1 <= n1,
            0 <= r2,
            n2 < (r2 + 1) * (r2 + 1),
            n1 <= n2,
    {
        if r2 < r1 {
            assert((r2 + 1) * (r2 + 1) <= r1 * r1);
        }
    }
}

/// A Newton iterate that is no smaller than its predecessor `x` shows that
/// `x * x <= n`.
proof fn lemma_newton_stop(n: int, x: int, q: int, next: int)
    requires
        x >= 1,
        x * q <= n,
        next == (x + q) / 2,
        next >= x,
    ensures
        x * x <= n,
{
    assert(q >= x);
    assert(x * x <= x * q) by (nonlinear_arith)
        requires
            x >= 1,
            q >= x,
    ;
}

/// A Newton iterate stays above the root: its successor squared exceeds `n`.
proof fn lemma_newton_step(n: int, x: int, q: int, next: int)
    requires
        n >= 1,
        x >= 1,
        q >= 0,
        n < x * (q + 1),
        next == (x + q) / 2,
    ensures
        next >= 1,
        n < (next + 1) * (next + 1),
{
    let z = next + 1;
    assert(2 * z >= x + q + 1);
    assert(n < z * z) by (nonlinear_arith)
        requires
            2 * z >= x + q + 1,
            x >= 1,
            q >= 0,
            n < x * (q + 1),
    {
        assert((x + q + 1) * (x + q + 1) >= 4 * (x * (q + 1))) by {
            assert((x - (q + 1)) * (x - (q + 1)) >= 0);
        }
        assert((2 * z) * (2 * z) >= (x + q + 1) * (x + q + 1));
        assert(4 * (z * z) > 4 * n);
    }
    if next <= 0 {
        assert(z * z <= 1) by (nonlinear_arith)
            requires
                0 <= z <= 1,
        ;
    }
}

/// Two to the power `bits / 2 + 1`, a first iterate whose square exceeds
/// every number of `bits` bits.
fn newton_seed(n: &BigInt) -> (x: BigInt)
    requires
        big_value(*n) >= 1,
    ensures
        big_value(x) >= 1,
        big_value(*n) < (big_value(x) + 1) * (big_value(x) + 1),
{
    let bits = big_bits(n);
    let shift: u64 = bits / 2 + 1;
    let mut x = big_from(1);
    let mut left: u64 = shift;
    proof {
        lemma2_to64();
    }
    // One shift takes a 32-bit count: a longer one is made in steps.
    while left > 0
        invariant
            left <= shift,
            big_value(x) == pow2((shift - left) as nat),
        decreases left,
    {
        let step: u32 = if left > 0xffff_ffff {
            0xffff_ffff
        } else {
            left as u32
        };
        proof {
            lemma_pow2_adds((shift - left) as nat, step as nat);
        }
        x = big_shl(&x, step);
        left = left - step as u64;
    }
    proof {
        let v = big_value(*n);
        let xv = big_value(x);
        lemma_pow2_adds(shift as nat, shift as nat);
        if bits < 2 * shift {
            lemma_pow2_strictly_increases(bits as nat, (2 * shift) as nat);
        }
        assert(v < xv * xv);
        assert(xv >= 1) by (nonlinear_arith)
            requires
                xv >= 0,
                1 <= v < xv * xv,
        ;
        assert(xv * xv <= (xv + 1) * (xv + 1)) by (nonlinear_arith)
            requires
                xv >= 1,
        ;
    }
    x
}

/// The integer square root of a number that is not negative: the largest `r`
/// with `r * r <= n`.
///
/// Newton's iteration `x <- (x + n / x) / 2` starts above the root and stops
/// at the first iterate that does not fall.
pub fn isqrt(n: &BigInt) -> (r: BigInt)
    requires
        big_value(*n) >= 0,
    ensures
        is_int_sqrt(big_value(r), big_value(*n)),
        big_value(r) == int_sqrt(big_value(*n)),
{
    if big_is_zero(n) {
        let zero = big_from(0);
        proof {
            lemma_int_sqrt_is(0, 0);
        }
        return zero;
    }
    let mut x = newton_seed(n);
    loop
        invariant
            big_value(*n) >= 1,
            big_value(x) >= 1,
            big_value(*n) < (big_value(x) + 1) * (big_value(x) + 1),
        decreases big_value(x),
    {
        let quotient = big_div(n, &x);
        let sum = big_add(&x, &quotient);
        let next = big_shr(&sum, 1);
        proof {
            let v = big_value(*n);
            let xv = big_value(x);
            let q = big_value(quotient);
            lemma2_to64();
            lemma_fundamental_div_mod(v, xv);
            assert(q == v / xv);
            assert(0 <= v % xv < xv);
            assert(xv * q <= v);
            assert(v < xv * (q + 1)) by (nonlinear_arith)
                requires
                    v == xv * q + v % xv,
                    v % xv < xv,
            ;
            assert(q >= 0) by (nonlinear_arith)
                requires
                    xv >= 1,
                    v >= 0,
                    v < xv * (q + 1),
            ;
            assert(big_value(next) == (xv + q) / 2);
            if big_value(next) >= xv {
                lemma_newton_stop(v, xv, q, big_value(next));
                lemma_int_sqrt_is(xv, v);
            } else {
                lemma_newton_step(v, xv, q, big_value(next));
            }
        }
        if big_ge(&next, &x) {
            return x;
        }
        x = next;
    }
}

/// The integer square root of `n`, or nothing where `n` is negative.
pub fn checked_isqrt(n: &BigInt) -> (r: Option<BigInt>)
    ensures
        r is None <==> big_value(*n) < 0,
        r is Some ==> is_int_sqrt(big_value(r->0), big_value(*n)) && big_value(r->0) == int_sqrt(
            big_value(*n),
        ),
{
    let zero = big_from(0);
    if big_ge(n, &zero) {
        Some(isqrt(n))
    } else {
        None
    }
}

} // verus!
