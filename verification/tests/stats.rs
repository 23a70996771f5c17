use pi_normality::sample::{Ratio, Sample};
use pi_normality::stats::{decimate, Stats};

fn value(r: Ratio) -> f64 {
    r.num as f64 / r.den as f64
}

/// The digit at position `i` of a fixed, uneven test stream.
fn digit_at(i: u64) -> u8 {
    ((i * i + 3 * i + 7) % 10) as u8
}

fn sample_of(counts: [u64; 10]) -> Sample {
    Sample { total: counts.iter().sum(), counts }
}

#[test]
fn new_engine_is_empty() {
    let stats = Stats::new();
    assert_eq!(stats.total(), 0);
    assert_eq!(stats.counts(), [0; 10]);
    assert!(stats.first_digits().is_empty());
    assert!(stats.recent_digits().is_empty());
    assert!(stats.history().is_empty());
}

#[test]
fn metrics_before_any_digit_are_zero() {
    let stats = Stats::new();
    assert_eq!(stats.chi_squared(), Some(Ratio { num: 0, den: 1 }));
    assert_eq!(stats.max_deviation(), Ratio { num: 0, den: 1 });
}

#[test]
fn add_digit_counts_by_value() {
    let mut stats = Stats::new();
    for d in [3u8, 1, 4, 1, 5, 9, 2, 6, 5, 3, 5] {
        stats.add_digit(d);
    }
    assert_eq!(stats.total(), 11);
    assert_eq!(stats.counts(), [0, 2, 1, 2, 1, 3, 1, 0, 0, 1]);
    assert_eq!(stats.snapshot(), Sample { total: 11, counts: [0, 2, 1, 2, 1, 3, 1, 0, 0, 1] });
    assert_eq!(stats.first_digits(), &vec![3u8, 1, 4, 1, 5, 9, 2, 6, 5, 3, 5]);
    assert_eq!(stats.recent_digits(), &vec![3u8, 1, 4, 1, 5, 9, 2, 6, 5, 3, 5]);
}

#[test]
fn add_digits_is_add_digit_in_order() {
    let batch: Vec<u8> = (0..1234).map(digit_at).collect();
    let mut one_by_one = Stats::new();
    for d in &batch {
        one_by_one.add_digit(*d);
    }
    let mut at_once = Stats::new();
    at_once.add_digits(&batch[..700].to_vec());
    at_once.add_digits(&Vec::new());
    at_once.add_digits(&batch[700..].to_vec());
    assert_eq!(at_once.total(), one_by_one.total());
    assert_eq!(at_once.counts(), one_by_one.counts());
    assert_eq!(at_once.first_digits(), one_by_one.first_digits());
    assert_eq!(at_once.recent_digits(), one_by_one.recent_digits());
    assert_eq!(at_once.history(), one_by_one.history());
}

#[test]
fn counters_add_up_to_the_total() {
    let mut stats = Stats::new();
    for i in 0..5000 {
        stats.add_digit(digit_at(i));
        assert_eq!(stats.counts().iter().sum::<u64>(), stats.total());
    }
}

#[test]
fn first_digits_stop_at_two_hundred() {
    let stream: Vec<u8> = (0..250).map(digit_at).collect();
    let mut stats = Stats::new();
    for (i, d) in stream.iter().enumerate() {
        stats.add_digit(*d);
        let kept = (i + 1).min(200);
        assert_eq!(stats.first_digits(), &stream[..kept].to_vec());
    }
}

#[test]
fn chi_squared_of_an_even_split_is_zero() {
    let sample = Sample { total: 1000, counts: [100; 10] };
    let chi = sample.chi_squared().unwrap();
    assert_eq!(chi, Ratio { num: 0, den: 10_000 });
    assert_eq!(value(chi), 0.0);
}

#[test]
fn chi_squared_of_a_thousand_digits_fed_evenly_is_zero() {
    let mut stats = Stats::new();
    for i in 0..1000u64 {
        stats.add_digit((i % 10) as u8);
    }
    assert_eq!(stats.counts(), [100; 10]);
    assert_eq!(stats.chi_squared(), Some(Ratio { num: 0, den: 10_000 }));
}

#[test]
fn chi_squared_exact_value() {
    // Two bins off by two around an expectation of ten: (4 + 4) / 10.
    let sample = sample_of([12, 8, 10, 10, 10, 10, 10, 10, 10, 10]);
    let chi = sample.chi_squared().unwrap();
    assert_eq!(chi, Ratio { num: 800, den: 1000 });
    assert!((value(chi) - 0.8).abs() < 1e-12);
}

#[test]
fn chi_squared_of_a_single_bin() {
    // All 100 digits in one bin: (90^2 + 9 * 10^2) / 10 = 900.
    let sample = sample_of([0, 0, 0, 0, 0, 100, 0, 0, 0, 0]);
    let chi = sample.chi_squared().unwrap();
    assert_eq!(chi, Ratio { num: 900_000, den: 1000 });
    assert_eq!(value(chi), 900.0);
}

#[test]
fn chi_squared_too_large_for_the_numerator() {
    let mut counts = [0u64; 10];
    counts[7] = u64::MAX;
    let sample = Sample { total: u64::MAX, counts };
    assert_eq!(sample.chi_squared(), None);
}

#[test]
fn chi_squared_at_the_edge_of_the_numerator() {
    // 90 * total^2 must fit in 128 bits: it does for total = 2^60.
    let mut counts = [0u64; 10];
    counts[0] = 1 << 60;
    let sample = Sample { total: 1 << 60, counts };
    let chi = sample.chi_squared().unwrap();
    assert_eq!(chi.num, 90u128 << 120);
    assert_eq!(chi.den, 10u128 << 60);
}

#[test]
fn max_deviation_of_a_single_value_is_ninety() {
    let mut stats = Stats::new();
    for _ in 0..100 {
        stats.add_digit(5);
    }
    let deviation = stats.max_deviation();
    assert_eq!(deviation, Ratio { num: 9000, den: 100 });
    assert_eq!(value(deviation), 90.0);
}

#[test]
fn max_deviation_of_an_even_split_is_zero() {
    let sample = Sample { total: 1000, counts: [100; 10] };
    assert_eq!(sample.max_deviation(), Ratio { num: 0, den: 1000 });
}

#[test]
fn max_deviation_picks_the_bin_furthest_off() {
    // Shares 13%, 6%, 11%, and 10% seven times: the furthest is 4 points off.
    let sample = sample_of([13, 6, 11, 10, 10, 10, 10, 10, 10, 10]);
    let deviation = sample.max_deviation();
    assert_eq!(deviation, Ratio { num: 400, den: 100 });
    assert_eq!(value(deviation), 4.0);
}

#[test]
fn max_deviation_of_the_largest_counters() {
    let mut counts = [0u64; 10];
    counts[9] = u64::MAX;
    let sample = Sample { total: u64::MAX, counts };
    let deviation = sample.max_deviation();
    assert_eq!(deviation, Ratio { num: 90 * u64::MAX as u128, den: u64::MAX as u128 });
}

#[test]
fn window_holds_everything_up_to_five_hundred() {
    let stream: Vec<u8> = (0..500).map(digit_at).collect();
    let mut stats = Stats::new();
    for (i, d) in stream.iter().enumerate() {
        stats.add_digit(*d);
        assert_eq!(stats.recent_digits().len(), i + 1);
    }
    assert_eq!(stats.recent_digits(), &stream);
}

#[test]
fn window_drops_two_hundred_at_the_five_hundred_and_first() {
    let stream: Vec<u8> = (0..501).map(digit_at).collect();
    let mut stats = Stats::new();
    for d in &stream[..500] {
        stats.add_digit(*d);
    }
    assert_eq!(stats.recent_digits().len(), 500);
    stats.add_digit(stream[500]);
    assert_eq!(stats.recent_digits().len(), 301);
    assert_eq!(stats.recent_digits(), &stream[200..].to_vec());
}

#[test]
fn window_is_always_the_end_of_the_stream() {
    let stream: Vec<u8> = (0..2000).map(digit_at).collect();
    let mut stats = Stats::new();
    for (i, d) in stream.iter().enumerate() {
        stats.add_digit(*d);
        let n = i + 1;
        let expected = if n <= 500 { n } else { 301 + (n - 501) % 200 };
        let window = stats.recent_digits();
        assert_eq!(window.len(), expected);
        assert_eq!(window, &stream[n - expected..n].to_vec());
    }
}

#[test]
fn samples_are_taken_at_the_intervals() {
    let mut stats = Stats::new();
    let mut due = Vec::new();
    for i in 0..120_000u64 {
        stats.add_digit(digit_at(i));
        let total = i + 1;
        let interval = if total <= 999 {
            50
        } else if total <= 9_999 {
            200
        } else if total <= 99_999 {
            1_000
        } else {
            5_000
        };
        if total % interval == 0 {
            due.push(total);
            let last = *stats.history().last().unwrap();
            assert_eq!(last, stats.snapshot());
        }
        let taken: Vec<u64> = stats.history().iter().map(|s| s.total).collect();
        assert_eq!(taken, due);
    }
    assert_eq!(due.len(), 19 + 45 + 90 + 5);
    assert_eq!(&due[..3], &[50, 100, 150]);
    assert_eq!(&due[18..21], &[950, 1000, 1200]);
    assert_eq!(&due[63..66], &[9800, 10_000, 11_000]);
    assert_eq!(&due[153..], &[99_000, 100_000, 105_000, 110_000, 115_000, 120_000]);
}

#[test]
fn no_sample_before_the_fiftieth_digit() {
    let mut stats = Stats::new();
    for i in 0..49 {
        stats.add_digit(digit_at(i));
    }
    assert!(stats.history().is_empty());
    stats.add_digit(0);
    assert_eq!(stats.history().len(), 1);
    assert_eq!(stats.history()[0].total, 50);
}

#[test]
fn history_is_halved_when_it_exceeds_three_hundred() {
    let mut stats = Stats::new();
    // 154 samples up to 99,000 digits, then one every 5,000.
    for i in 0..825_000u64 {
        stats.add_digit(digit_at(i));
    }
    assert_eq!(stats.history().len(), 300);
    let mut before = stats.history().clone();
    for i in 825_000..830_000u64 {
        assert_eq!(stats.history().len(), 300);
        stats.add_digit(digit_at(i));
    }
    before.push(stats.snapshot());
    assert_eq!(before.len(), 301);
    let after = stats.history();
    assert_eq!(after.len(), 151);
    for (i, sample) in after.iter().enumerate() {
        assert_eq!(*sample, before[2 * i]);
    }
    assert_eq!(after[0].total, 50);
    assert_eq!(after[150].total, 830_000);
}

#[test]
fn history_never_exceeds_three_hundred() {
    let mut stats = Stats::new();
    for i in 0..2_000_000u64 {
        stats.add_digit(digit_at(i));
        assert!(stats.history().len() <= 300);
    }
    let totals: Vec<u64> = stats.history().iter().map(|s| s.total).collect();
    assert!(totals.windows(2).all(|w| w[0] < w[1]));
    assert!(stats.history().iter().all(|s| s.counts.iter().sum::<u64>() == s.total));
}

#[test]
fn decimate_keeps_every_second_sample() {
    let samples: Vec<Sample> =
        (0..7u64).map(|i| Sample { total: 10 * i, counts: [i; 10] }).collect();
    let kept = decimate(&samples);
    assert_eq!(kept, vec![samples[0], samples[2], samples[4], samples[6]]);
    let even: Vec<Sample> = samples[..6].to_vec();
    assert_eq!(decimate(&even), vec![samples[0], samples[2], samples[4]]);
}

#[test]
fn decimate_of_short_histories() {
    let one = vec![Sample { total: 50, counts: [5; 10] }];
    assert_eq!(decimate(&Vec::new()), Vec::new());
    assert_eq!(decimate(&one), one);
}

#[test]
fn decimate_leaves_the_half_rounded_up() {
    for n in 0..310usize {
        let samples: Vec<Sample> =
            (0..n as u64).map(|i| Sample { total: i, counts: [0; 10] }).collect();
        assert_eq!(decimate(&samples).len(), (n + 1) / 2);
    }
}

#[test]
fn max_deviation_is_ninety_for_any_single_value() {
    for v in 0..10usize {
        for total in [1u64, 7, 100, 12345, u64::MAX] {
            let mut counts = [0u64; 10];
            counts[v] = total;
            let deviation = Sample { total, counts }.max_deviation();
            assert_eq!(deviation.num, 90 * deviation.den);
            assert_eq!(deviation.den, total as u128);
        }
    }
}

#[test]
fn max_deviation_never_exceeds_ninety() {
    let mut stats = Stats::new();
    for i in 0..3000 {
        stats.add_digit(digit_at(i));
        let deviation = stats.max_deviation();
        assert!(deviation.num <= 90 * deviation.den);
    }
}

#[test]
fn chi_squared_is_zero_only_for_an_even_split() {
    let mut stats = Stats::new();
    for i in 0..400u64 {
        stats.add_digit((i % 10) as u8);
        let chi = stats.chi_squared().unwrap();
        let even = stats.counts().iter().all(|c| 10 * c == stats.total());
        assert_eq!(chi.num == 0, even);
        assert_eq!(even, (i + 1) % 10 == 0);
    }
}

#[test]
fn metric_histories_follow_the_samples() {
    let mut stats = Stats::new();
    for i in 0..12_000 {
        stats.add_digit(digit_at(i));
    }
    let history = stats.history().clone();
    assert_eq!(history.len(), 19 + 45 + 3);
    let deviations = stats.max_deviation_history();
    let chis = stats.chi_squared_history();
    assert_eq!(deviations.len(), history.len());
    assert_eq!(chis.len(), history.len());
    for (i, sample) in history.iter().enumerate() {
        assert_eq!(deviations[i], sample.max_deviation());
        assert_eq!(chis[i], sample.chi_squared());
        assert_eq!(deviations[i].den, sample.total as u128);
    }
    assert!(Stats::new().max_deviation_history().is_empty());
    assert!(Stats::new().chi_squared_history().is_empty());
}
