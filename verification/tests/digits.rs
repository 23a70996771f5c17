use pi_normality::digits::compute_pi_digits;

fn text(digits: &[u8]) -> String {
    digits.iter().map(|d| (b'0' + d) as char).collect()
}

#[test]
fn verify_pi_first_50() {
    let digits = compute_pi_digits(50);
    let s: String = digits.iter().map(|d| (b'0' + d) as char).collect();
    // Pi = 3.14159265358979323846264338327950288419716939937510
    assert_eq!(s, "14159265358979323846264338327950288419716939937510");
}

#[test]
fn no_digits_asked_for() {
    assert_eq!(compute_pi_digits(0), Vec::<u8>::new());
}

#[test]
fn one_digit() {
    assert_eq!(compute_pi_digits(1), vec![1]);
}

#[test]
fn length_is_the_number_asked_for() {
    for n in [1usize, 2, 7, 19, 100, 333] {
        let digits = compute_pi_digits(n);
        assert_eq!(digits.len(), n);
        assert!(digits.iter().all(|d| *d <= 9));
    }
}

#[test]
fn prefix_of_a_longer_run_is_the_shorter_run() {
    let long = compute_pi_digits(1000);
    for n in [1usize, 10, 50, 200, 761, 768, 999] {
        assert_eq!(compute_pi_digits(n), long[..n].to_vec());
    }
}

#[test]
fn digits_around_position_762() {
    let digits = compute_pi_digits(770);
    assert_eq!(text(&digits[760..770]), "4999999837");
}

#[test]
fn first_thousand_end() {
    let digits = compute_pi_digits(1000);
    assert_eq!(text(&digits[990..]), "2164201989");
}
