use num_bigint::BigInt;
use pi_normality::split::{binary_split, C3_OVER_24, CHUD_A, CHUD_B};

fn combine(
    l: &(BigInt, BigInt, BigInt),
    r: &(BigInt, BigInt, BigInt),
) -> (BigInt, BigInt, BigInt) {
    (&l.0 * &r.0, &l.1 * &r.1, &r.1 * &l.2 + &l.0 * &r.2)
}

fn term(k: u64) -> (BigInt, BigInt, BigInt) {
    if k == 0 {
        return (BigInt::from(1), BigInt::from(1), BigInt::from(CHUD_A));
    }
    let k = BigInt::from(k);
    let p: BigInt = (&k * 6 - 5) * (&k * 2 - 1) * (&k * 6 - 1);
    let q: BigInt = &k * &k * &k * BigInt::from(C3_OVER_24);
    let mut t: BigInt = (BigInt::from(CHUD_A) + BigInt::from(CHUD_B) * &k) * &p;
    if &k % 2 == BigInt::from(1) {
        t = -t;
    }
    (p, q, t)
}

#[test]
fn constants_of_the_series() {
    assert_eq!(CHUD_A, 13591409);
    assert_eq!(CHUD_B, 545140134);
    assert_eq!(C3_OVER_24, 10_939_058_860_032_000);
    assert_eq!(640320u64 * 640320 * 640320 / 24, C3_OVER_24);
}

#[test]
fn split_of_the_first_term() {
    let (p, q, t) = binary_split(0, 1);
    assert_eq!(p, BigInt::from(1));
    assert_eq!(q, BigInt::from(1));
    assert_eq!(t, BigInt::from(13591409));
}

#[test]
fn split_of_the_second_term() {
    let (p, q, t) = binary_split(1, 2);
    assert_eq!(p, BigInt::from(5));
    assert_eq!(q, BigInt::from(10_939_058_860_032_000u64));
    // -(13591409 + 545140134) * 5
    assert_eq!(t, BigInt::from(-2_793_657_715i64));
}

#[test]
fn split_of_the_third_term() {
    let (p, q, t) = binary_split(2, 3);
    // 7 * 3 * 11
    assert_eq!(p, BigInt::from(231));
    assert_eq!(q, BigInt::from(8u32) * BigInt::from(10_939_058_860_032_000u64));
    // (13591409 + 2 * 545140134) * 231, positive for an even index
    assert_eq!(t, BigInt::from(254_994_357_387i64));
}

#[test]
fn split_of_two_terms() {
    let (p, q, t) = binary_split(0, 2);
    assert_eq!(p, BigInt::from(5));
    assert_eq!(q, BigInt::from(10_939_058_860_032_000u64));
    let expected = BigInt::from(10_939_058_860_032_000u64) * BigInt::from(13591409)
        - BigInt::from(2_793_657_715i64);
    assert_eq!(t, expected);
}

#[test]
fn split_is_the_fold_of_its_terms() {
    for (a, b) in [(0u64, 1u64), (0, 5), (3, 4), (2, 9), (7, 20), (0, 33)] {
        let mut folded = term(a);
        for k in a + 1..b {
            folded = combine(&folded, &term(k));
        }
        assert_eq!(binary_split(a, b), folded, "range [{}, {})", a, b);
    }
}

#[test]
fn split_is_associative_at_every_cut() {
    let (a, b) = (2u64, 14u64);
    let whole = binary_split(a, b);
    for m in a + 1..b {
        let joined = combine(&binary_split(a, m), &binary_split(m, b));
        assert_eq!(joined, whole, "cut at {}", m);
    }
}

#[test]
fn split_handles_a_large_index() {
    let k = u64::MAX - 1;
    let (p, q, t) = binary_split(k, k + 1);
    assert_eq!((p.clone(), q, t.clone()), term(k));
    assert!(p > BigInt::from(0));
    assert!(t > BigInt::from(0));
}

#[test]
fn sum_over_the_first_terms_is_positive() {
    for n in 1u64..40 {
        let (_, q, t) = binary_split(0, n);
        assert!(t > BigInt::from(0));
        assert!(t <= BigInt::from(CHUD_A) * &q);
        assert!(t >= BigInt::from(CHUD_A - 1) * &q);
    }
}
