use num_bigint::BigInt;
use pi_normality::isqrt::{checked_isqrt, isqrt};

fn big(n: u128) -> BigInt {
    BigInt::from(n)
}

fn is_root(r: &BigInt, n: &BigInt) -> bool {
    let next = r + 1u32;
    r >= &big(0) && &(r * r) <= n && n < &(&next * &next)
}

#[test]
fn isqrt_of_zero_is_zero() {
    assert_eq!(isqrt(&big(0)), big(0));
}

#[test]
fn isqrt_of_small_numbers() {
    let expected = [0u128, 1, 1, 1, 2, 2, 2, 2, 2, 3, 3, 3, 3, 3, 3, 3, 4, 4];
    for (n, r) in expected.iter().enumerate() {
        assert_eq!(isqrt(&big(n as u128)), big(*r), "isqrt({})", n);
    }
}

#[test]
fn isqrt_of_perfect_squares_and_neighbours() {
    for r in [1u128, 2, 3, 10, 99, 1000, 65535, 65536, 4294967295, 4294967296, 18446744073709551615] {
        let square = r * r;
        assert_eq!(isqrt(&big(square)), big(r));
        assert_eq!(isqrt(&big(square - 1)), big(r - 1));
        assert_eq!(isqrt(&big(square + 1)), big(r));
    }
}

#[test]
fn isqrt_of_a_large_power_of_ten() {
    let n = BigInt::from(10u32).pow(40);
    assert_eq!(isqrt(&n), BigInt::from(10u32).pow(20));
    let below = &n - 1u32;
    assert_eq!(isqrt(&below), BigInt::from(10u32).pow(20) - 1u32);
}

#[test]
fn isqrt_is_the_largest_root() {
    let mut n = BigInt::from(3u32);
    for _ in 0..40 {
        n = &n * &n + 12345u32;
        if n.bits() > 5000 {
            break;
        }
        let r = isqrt(&n);
        assert!(is_root(&r, &n));
        assert_eq!(r, n.sqrt());
    }
}

#[test]
fn isqrt_of_the_generator_radicand() {
    // 10005 * 10^40 has the root floor(sqrt(10005) * 10^20).
    let n = BigInt::from(10005u32) * BigInt::from(10u32).pow(40);
    let r = isqrt(&n);
    assert_eq!(r.to_string(), "10002499687578100594479");
    assert!(is_root(&r, &n));
}

#[test]
fn checked_isqrt_refuses_a_negative_number() {
    assert_eq!(checked_isqrt(&BigInt::from(-1)), None);
    assert_eq!(checked_isqrt(&-BigInt::from(10u32).pow(30)), None);
}

#[test]
fn checked_isqrt_of_the_others_is_isqrt() {
    assert_eq!(checked_isqrt(&big(0)), Some(big(0)));
    assert_eq!(checked_isqrt(&big(99)), Some(big(9)));
    assert_eq!(checked_isqrt(&big(100)), Some(big(10)));
    let n = BigInt::from(7u32).pow(101);
    assert_eq!(checked_isqrt(&n), Some(isqrt(&n)));
}
