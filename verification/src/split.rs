//! Binary splitting of the Chudnovsky series.
//!
//! Each term index `k` contributes a triple `(P, Q, T)`. Triples combine
//! associatively, so the triple of a range of indices is the same however the
//! range is cut; `binary_split` cuts it in halves.

use crate::big::{big_add, big_from, big_mul, big_neg, big_value};
use num_bigint::BigInt;
use vstd::arithmetic::power2::{lemma2_to64, lemma_pow2_pos, lemma_pow2_unfold, pow2};
use vstd::prelude::*;

verus! {

/// The constant term of the series' linear factor.
pub const CHUD_A: u64 = 13591409;

/// The slope of the series' linear factor.
pub const CHUD_B: u64 = 545140134;

/// `640320^3 / 24`.
pub const C3_OVER_24: u64 = 10_939_058_860_032_000;

/// The partial product and sum of the series over a range of term indices.
pub struct Triple {
    pub p: int,
    pub q: int,
    pub t: int,
}

/// The triple of the single term `k`.
pub open spec fn term(k: nat) -> Triple {
    if k == 0 {
        Triple { p: 1, q: 1, t: CHUD_A as int }
    } else {
        let p = (6 * k - 5) * (2 * k - 1) * (6 * k - 1);
        let m = (CHUD_A + CHUD_B * k) * p;
        Triple { p, q: k * k * k * C3_OVER_24, t: if k % 2 == 1 { -m } else { m } }
    }
}

/// The triple of two adjacent ranges, from the triple `l` of the left one and
/// the triple `r` of the right one.
pub open spec fn combine(l: Triple, r: Triple) -> Triple {
    Triple { p: l.p * r.p, q: l.q * r.q, t: r.q * l.t + l.p * r.t }
}

/// The triple of an empty range, neutral for `combine`.
pub open spec fn unit() -> Triple {
    Triple { p: 1, q: 1, t: 0 }
}

/// The triple of the range `[a, b)`, term by term from the left.
pub open spec fn series(a: nat, b: nat) -> Triple
    decreases b - a,
{
    if b <= a {
        unit()
    } else {
        combine(series(a, (b - 1) as nat), term((b - 1) as nat))
    }
}

/// The triple that three arbitrary-precision integers hold.
pub open spec fn triple_of(r: (BigInt, BigInt, BigInt)) -> Triple {
    Triple { p: big_value(r.0), q: big_value(r.1), t: big_value(r.2) }
}

/// `combine` is associative.
pub proof fn lemma_combine_associative(x: Triple, y: Triple, z: Triple)
    ensures
        combine(combine(x, y), z) == combine(x, combine(y, z)),
{
    assert((x.p * y.p) * z.p == x.p * (y.p * z.p)) by (nonlinear_arith);
    assert((x.q * y.q) * z.q == x.q * (y.q * z.q)) by (nonlinear_arith);
    assert(z.q * (y.q * x.t + x.p * y.t) == z.q * (y.q * x.t) + z.q * (x.p * y.t))
        by (nonlinear_arith);
    assert(z.q * (y.q * x.t) == (y.q * z.q) * x.t) by (nonlinear_arith);
    assert(z.q * (x.p * y.t) == x.p * (z.q * y.t)) by (nonlinear_arith);
    assert((x.p * y.p) * z.t == x.p * (y.p * z.t)) by (nonlinear_arith);
    assert(x.p * (z.q * y.t + y.p * z.t) == x.p * (z.q * y.t) + x.p * (y.p * z.t))
        by (nonlinear_arith);
}

/// The triple of an empty range changes nothing on either side.
pub proof fn lemma_combine_unit(x: Triple)
    ensures
        combine(unit(), x) == x,
        combine(x, unit()) == x,
{
    assert(1 * x.p == x.p && x.p * 1 == x.p);
    assert(1 * x.q == x.q && x.q * 1 == x.q);
    assert(x.q * 0 + 1 * x.t == x.t);
    assert(1 * x.t + x.p * 0 == x.t);
}

/// The triple of a range of one term is that term's.
pub proof fn lemma_series_single(a: nat)
    ensures
        series(a, a + 1) == term(a),
{
    assert(series(a, a) == unit());
    lemma_combine_unit(term(a));
}

/// Split associativity: for a range `[a, b)` and any cut `m` in it, combining
/// the triples of `[a, m)` and `[m, b)` gives the triple of `[a, b)`.
pub proof fn lemma_series_split(a: nat, m: nat, b: nat)
    requires
        a <= m <= b,
    ensures
        combine(series(a, m), series(m, b)) == series(a, b),
    decreases b - m,
{
    if b == m {
        lemma_combine_unit(series(a, m));
    } else {
        let last = (b - 1) as nat;
        lemma_series_split(a, m, last);
        lemma_combine_associative(series(a, m), series(m, last), term(last));
    }
}

/// The triple of the single term `a`.
fn split_term(a: u64) -> (r: (BigInt, BigInt, BigInt))
    ensures
        triple_of(r) == term(a as nat),
{
    if a == 0 {
        return (big_from(1), big_from(1), big_from(CHUD_A as u128));
    }
    let k = a as u128;
    let index = big_from(k);
    let p = big_mul(&big_mul(&big_from(6 * k - 5), &big_from(2 * k - 1)), &big_from(6 * k - 1));
    let q = big_mul(&big_mul(&big_mul(&index, &index), &index), &big_from(C3_OVER_24 as u128));
    let linear = big_add(&big_from(CHUD_A as u128), &big_mul(&big_from(CHUD_B as u128), &index));
    let magnitude = big_mul(&linear, &p);
    let t = if a % 2 == 1 {
        big_neg(magnitude)
    } else {
        magnitude
    };
    (p, q, t)
}

/// The triple `(P, Q, T)` of the term range `[a, b)`, by binary splitting: a
/// range of one term is computed directly, a longer one is cut at its
/// midpoint and the two halves are combined.
pub fn binary_split(a: u64, b: u64) -> (r: (BigInt, BigInt, BigInt))
    requires
        a < b,
    ensures
        triple_of(r) == series(a as nat, b as nat),
    decreases b - a,
{
    if b - a == 1 {
        proof {
            lemma_series_single(a as nat);
        }
        split_term(a)
    } else {
        let m = a + (b - a) / 2;
        let (pl, ql, tl) = binary_split(a, m);
        let (pr, qr, tr) = binary_split(m, b);
        proof {
            lemma_series_split(a as nat, m as nat, b as nat);
        }
        (big_mul(&pl, &pr), big_mul(&ql, &qr), big_add(&big_mul(&qr, &tl), &big_mul(&pl, &tr)))
    }
}

/// From the second term on, a term's `q` is at least `2^32` times its `p`.
proof fn lemma_term_ratio(k: nat)
    requires
        k >= 1,
    ensures
        term(k).p >= 1,
        term(k).q >= 1,
        0x1_0000_0000 * term(k).p <= term(k).q,
{
    let c = C3_OVER_24 as int;
    let k = k as int;
    let u = 6 * k - 5;
    let v = 2 * k - 1;
    let w = 6 * k - 1;
    let cube = k * k * k;
    assert(1 <= u * v <= 12 * (k * k)) by (nonlinear_arith)
        requires
            1 <= u <= 6 * k,
            1 <= v <= 2 * k,
    ;
    assert(1 <= (u * v) * w <= 72 * cube) by (nonlinear_arith)
        requires
            1 <= u * v <= 12 * (k * k),
            1 <= w <= 6 * k,
            cube == k * k * k,
    ;
    assert(cube >= 1) by (nonlinear_arith)
        requires
            k >= 1,
            cube == k * k * k,
    ;
    assert(0x1_0000_0000 * (72 * cube) <= cube * c) by (nonlinear_arith)
        requires
            cube >= 1,
            c >= 0x48_0000_0000,
    ;
}

/// One step of the bounds on `T / Q`: appending a term whose share `d` of the
/// sum is at most `q_next * q / (2 * e)` keeps `t / q` within `1 / (2 * e)`
/// of the bounds it had within `1 / e`.
proof fn lemma_bound_step(t: int, q: int, q_next: int, d: int, x: int, e: int, a: int)
    requires
        q >= 1,
        q_next >= 1,
        e >= 1,
        d >= 0,
        -d <= x <= d,
        d * (2 * e) <= q_next * q,
        t * e >= q * ((a - 1) * e + 1),
        t * e <= q * ((a + 1) * e - 1),
    ensures
        (q_next * t + x) * (2 * e) >= (q * q_next) * ((a - 1) * (2 * e) + 1),
        (q_next * t + x) * (2 * e) <= (q * q_next) * ((a + 1) * (2 * e) - 1),
{
    assert((q_next * t + x) * (2 * e) == 2 * (q_next * (t * e)) + x * (2 * e)) by (nonlinear_arith);
    assert(q_next * (t * e) >= q_next * (q * ((a - 1) * e + 1))) by (nonlinear_arith)
        requires
            q_next >= 1,
            t * e >= q * ((a - 1) * e + 1),
    ;
    assert(q_next * (t * e) <= q_next * (q * ((a + 1) * e - 1))) by (nonlinear_arith)
        requires
            q_next >= 1,
            t * e <= q * ((a + 1) * e - 1),
    ;
    assert(-(d * (2 * e)) <= x * (2 * e) <= d * (2 * e)) by (nonlinear_arith)
        requires
            -d <= x <= d,
            e >= 1,
    ;
    assert(2 * (q_next * (q * ((a - 1) * e + 1))) - q_next * q == (q * q_next) * ((a - 1) * (2 * e)
        + 1)) by (nonlinear_arith);
    assert(2 * (q_next * (q * ((a + 1) * e - 1))) + q_next * q == (q * q_next) * ((a + 1) * (2 * e)
        - 1)) by (nonlinear_arith);
}

/// One step of the bound on a term's share: the linear factor at most doubles
/// from one term to the next, and the term's `q` outweighs four of its `p`.
proof fn lemma_gap_step(lin_next: int, lin: int, p: int, q: int, e: int, tp: int, tq: int)
    requires
        0 <= lin_next <= 2 * lin,
        lin * p * e <= q,
        p >= 1,
        q >= 1,
        e >= 1,
        tp >= 1,
        4 * tp <= tq,
    ensures
        lin_next * (p * tp) * (2 * e) <= q * tq,
{
    let g = lin * p * e;
    let h = lin_next * p * e;
    assert(lin_next * (p * tp) * (2 * e) == (2 * tp) * h) by (nonlinear_arith)
        requires
            h == lin_next * p * e,
    ;
    assert(p * e >= 1) by (nonlinear_arith)
        requires
            p >= 1,
            e >= 1,
    ;
    assert(h <= 2 * g) by (nonlinear_arith)
        requires
            h == lin_next * p * e,
            g == lin * p * e,
            lin_next <= 2 * lin,
            p * e >= 1,
    {
        assert(h == lin_next * (p * e));
        assert(g == lin * (p * e));
    }
    assert((2 * tp) * h <= (4 * tp) * q) by (nonlinear_arith)
        requires
            h <= 2 * g,
            g <= q,
            tp >= 1,
    ;
    assert((4 * tp) * q <= q * tq) by (nonlinear_arith)
        requires
            4 * tp <= tq,
            q >= 1,
    ;
}

/// The share of the term `n` in the sum over `[0, n + 1)` is at most
/// `2^-n` of that range's `Q`.
proof fn lemma_series_gap(n: nat)
    requires
        n >= 1,
    ensures
        series(0, n).p >= 1,
        series(0, n).q >= 1,
        series(0, n + 1).p >= 1,
        series(0, n + 1).q >= 1,
        (CHUD_A + CHUD_B * n) * series(0, n + 1).p * pow2(n) <= series(0, n + 1).q,
    decreases n,
{
    lemma2_to64();
    reveal_with_fuel(series, 3);
    if n == 1 {
        assert(series(0, 0) == unit());
        lemma_series_single(0);
        assert(series(0, 1) == term(0));
        assert(series(0, 2) == combine(term(0), term(1)));
        lemma_term_ratio(1);
        let second = term(1);
        assert(series(0, 2).p == second.p);
        assert(series(0, 2).q == second.q);
        assert(pow2(1) == 2);
        let lin = CHUD_A + CHUD_B * 1;
        assert(lin * second.p * 2 <= second.q) by (nonlinear_arith)
            requires
                lin == 558731543,
                second.p >= 1,
                0x1_0000_0000 * second.p <= second.q,
        ;
    } else {
        let m = (n - 1) as nat;
        lemma_series_gap(m);
        lemma_term_ratio(n);
        lemma_pow2_unfold(n);
        lemma_pow2_pos(m);
        let prev = series(0, n);
        let next = series(0, n + 1);
        let tp = term(n).p;
        let tq = term(n).q;
        let e = pow2(m) as int;
        let lin = CHUD_A + CHUD_B * m;
        assert(next == combine(prev, term(n)));
        assert(next.p == prev.p * tp);
        assert(next.q == prev.q * tq);
        assert(lin * prev.p * e <= prev.q);
        assert(CHUD_A + CHUD_B * n <= 2 * lin);
        assert(prev.p * tp >= 1) by (nonlinear_arith)
            requires
                prev.p >= 1,
                tp >= 1,
        ;
        assert(prev.q * tq >= 1) by (nonlinear_arith)
            requires
                prev.q >= 1,
                tq >= 1,
        ;
        lemma_gap_step(CHUD_A + CHUD_B * n, lin, prev.p, prev.q, e, tp, tq);
        assert(pow2(n) == 2 * e);
        assert((CHUD_A + CHUD_B * n) * next.p * pow2(n) <= next.q);
    }
}

/// The sum over the first `n` terms stays within one `Q` of `CHUD_A * Q`:
/// the first term gives `CHUD_A * Q` and the later ones, which alternate in
/// sign and shrink, move it by less than `Q` in all. So `T` is positive.
pub proof fn lemma_series_bounds(n: nat)
    requires
        n >= 1,
    ensures
        series(0, n).q >= 1,
        series(0, n).t * pow2((n - 1) as nat) >= series(0, n).q * ((CHUD_A - 1) * pow2(
            (n - 1) as nat,
        ) + 1),
        series(0, n).t * pow2((n - 1) as nat) <= series(0, n).q * ((CHUD_A + 1) * pow2(
            (n - 1) as nat,
        ) - 1),
    decreases n,
{
    lemma2_to64();
    if n == 1 {
        lemma_series_single(0);
        assert(series(0, 1) == term(0));
    } else {
        let m = (n - 1) as nat;
        lemma_series_bounds(m);
        lemma_series_gap(m);
        lemma_term_ratio(m);
        lemma_pow2_unfold(m);
        lemma_pow2_pos((m - 1) as nat);
        let prev = series(0, m);
        let next = series(0, n);
        let tm = term(m);
        let e = pow2((m - 1) as nat) as int;
        let d = (CHUD_A + CHUD_B * m) * next.p;
        let x = prev.p * tm.t;
        assert(next == combine(prev, tm));
        assert(next.t == tm.q * prev.t + x);
        assert(next.q == prev.q * tm.q);
        assert(next.p == prev.p * tm.p);
        let mag = (CHUD_A + CHUD_B * m) * tm.p;
        assert(tm.t == mag || tm.t == -mag);
        assert(prev.p * mag == d) by (nonlinear_arith)
            requires
                d == (CHUD_A + CHUD_B * m) * (prev.p * tm.p),
                mag == (CHUD_A + CHUD_B * m) * tm.p,
        ;
        assert(prev.p * (-mag) == -d) by (nonlinear_arith)
            requires
                prev.p * mag == d,
        ;
        assert(d >= 0) by (nonlinear_arith)
            requires
                d == (CHUD_A + CHUD_B * m) * next.p,
                next.p >= 1,
                m >= 0,
        ;
        assert(d * (2 * e) <= tm.q * prev.q) by (nonlinear_arith)
            requires
                d * pow2(m) <= next.q,
                pow2(m) == 2 * e,
                next.q == prev.q * tm.q,
        ;
        lemma_bound_step(prev.t, prev.q, tm.q, d, x, e, CHUD_A as int);
    }
}

/// Over the first `n >= 1` terms `T` is positive, and lies between
/// `(CHUD_A - 1) * Q` and `(CHUD_A + 1) * Q`.
pub proof fn lemma_series_sum_positive(n: nat)
    requires
        n >= 1,
    ensures
        series(0, n).q >= 1,
        series(0, n).t >= 1,
        (CHUD_A - 1) * series(0, n).q <= series(0, n).t <= (CHUD_A + 1) * series(0, n).q,
{
    lemma_series_bounds(n);
    lemma_pow2_pos((n - 1) as nat);
    let s = series(0, n);
    let e = pow2((n - 1) as nat) as int;
    let a = CHUD_A as int;
    assert((a - 1) * s.q <= s.t <= (a + 1) * s.q) by (nonlinear_arith)
        requires
            e >= 1,
            s.q >= 1,
            s.t * e >= s.q * ((a - 1) * e + 1),
            s.t * e <= s.q * ((a + 1) * e - 1),
    {
        assert(s.q * ((a - 1) * e + 1) == ((a - 1) * s.q) * e + s.q);
        assert(s.q * ((a + 1) * e - 1) == ((a + 1) * s.q) * e - s.q);
        assert(s.t * e > ((a - 1) * s.q) * e);
        assert(s.t * e < ((a + 1) * s.q) * e);
    }
}

} // verus!
