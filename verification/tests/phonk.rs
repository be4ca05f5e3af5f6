use phonk::{Level, Phonk, PhonkError};

fn square(n: usize, period: usize) -> Vec<Level> {
    (0..n)
        .map(|k| if k % period < period / 2 { Level::High } else { Level::Low })
        .collect()
}

/// A pulse train that only touches the thresholds at the start of each half period.
fn pulses(n: usize, period: usize) -> Vec<Level> {
    (0..n)
        .map(|k| {
            let m = k % period;
            if m == 0 {
                Level::High
            } else if m == period / 2 {
                Level::Low
            } else {
                Level::Hold
            }
        })
        .collect()
}

#[test]
fn batch_size_too_small() {
    assert!(matches!(
        Phonk::<1, 1, 0>::new(44_100, 20, 8_000),
        Err(PhonkError::BatchSizeTooSmall)
    ));
    assert!(matches!(
        Phonk::<0, 0, 0>::new(44_100, 20, 8_000),
        Err(PhonkError::BatchSizeTooSmall)
    ));
}

#[test]
fn batch_size_not_even() {
    assert!(matches!(
        Phonk::<9, 1, 4>::new(44_100, 20, 8_000),
        Err(PhonkError::BatchSizeNotEven)
    ));
}

#[test]
fn invalid_sample_rate() {
    assert!(matches!(
        Phonk::<128, 2, 64>::new(1, 20, 8_000),
        Err(PhonkError::InvalidSampleRate)
    ));
}

#[test]
fn max_freq_not_above_min_freq() {
    assert!(matches!(
        Phonk::<128, 2, 64>::new(44_100, 500, 500),
        Err(PhonkError::MaxFreqNotAboveMinFreq)
    ));
    assert!(matches!(
        Phonk::<128, 2, 64>::new(44_100, 0, 0),
        Err(PhonkError::MaxFreqNotAboveMinFreq)
    ));
}

#[test]
fn min_period_out_of_bounds() {
    // 44100 / 100 rounds up to a period of 441 samples, above half of a batch of 8.
    assert!(matches!(
        Phonk::<8, 1, 4>::new(44_100, 20, 100),
        Err(PhonkError::MaxFreqPeriodOutOfBounds)
    ));
}

#[test]
fn max_period_out_of_bounds() {
    // 100 / 60 is a maximum period of a single sample.
    assert!(matches!(
        Phonk::<9_600, 150, 4_800>::new(100, 60, 99),
        Err(PhonkError::MaxFreqPeriodOutOfBounds)
    ));
}

#[test]
fn new_detector_has_its_periods_and_zero_correlations() {
    let phonk = Phonk::<9_600, 150, 4_800>::new(44_100, 20, 8_000).unwrap();
    assert_eq!(phonk.min_period(), 6);
    assert_eq!(phonk.max_period(), 2_205);
    assert!(phonk.get_correlations().iter().all(|&c| c == 0));
}

#[test]
fn min_period_rounds_up_and_max_period_down() {
    let phonk = Phonk::<128, 2, 64>::new(1_000, 21, 400).unwrap();
    assert_eq!(phonk.min_period(), 3);
    assert_eq!(phonk.max_period(), 47);
    let exact = Phonk::<128, 2, 64>::new(1_000, 20, 500).unwrap();
    assert_eq!(exact.min_period(), 2);
    assert_eq!(exact.max_period(), 50);
}

#[test]
fn square_wave_correlations_and_lag() {
    let mut phonk = Phonk::<128, 2, 64>::new(1_000, 20, 500).unwrap();
    let lag = phonk.detect_lag(&square(128, 20));
    assert_eq!(lag, Some(20));
    let expected: [u32; 64] = [
        0, 0, 12, 18, 24, 30, 36, 43, 50, 57, 64, 58, 52, 46, 40, 34, 28, 21, 14, 7, 0, 6, 12, 18,
        24, 30, 36, 43, 50, 57, 64, 58, 52, 46, 40, 34, 28, 21, 14, 7, 0, 6, 12, 18, 24, 30, 36,
        43, 50, 57, 0, 0, 0, 0, 0, 0, 0, 0, 0, 0, 0, 0, 0, 0,
    ];
    assert_eq!(phonk.get_correlations(), &expected);
}

#[test]
fn smallest_remaining_candidate_is_chosen() {
    let mut phonk = Phonk::<128, 2, 64>::new(1_000, 20, 500).unwrap();
    assert_eq!(phonk.detect_lag(&square(128, 30)), Some(30));
}

#[test]
fn repeated_trough_confirms_period() {
    let mut phonk = Phonk::<128, 2, 64>::new(1_000, 20, 500).unwrap();
    assert_eq!(phonk.detect_lag(&square(128, 10)), Some(10));
}

#[test]
fn hold_samples_keep_the_zero_crossing_state() {
    let mut phonk = Phonk::<128, 2, 64>::new(1_000, 20, 500).unwrap();
    assert_eq!(phonk.detect_lag(&pulses(128, 24)), Some(24));
    let c = phonk.get_correlations();
    assert_eq!(c[2], 10);
    assert_eq!(c[12], 64);
    assert_eq!(c[24], 0);
    assert_eq!(c[48], 0);
    assert_eq!(c[49], 5);
}

#[test]
fn constant_signal_has_no_period() {
    let mut phonk = Phonk::<128, 2, 64>::new(1_000, 20, 500).unwrap();
    assert_eq!(phonk.detect_lag(&vec![Level::High; 128]), None);
    assert!(phonk.get_correlations().iter().all(|&c| c == 0));
}

#[test]
fn larger_batch_square_wave() {
    let mut phonk = Phonk::<512, 8, 256>::new(44_100, 200, 8_000).unwrap();
    assert_eq!(phonk.detect_lag(&square(512, 50)), Some(50));
    let c = phonk.get_correlations();
    assert_eq!(c[6], 106);
    assert_eq!(c[25], 448);
    assert_eq!(c[50], 0);
    assert_eq!(c[219], 190);
    assert_eq!(c[220], 0);
}

#[test]
fn full_size_batch_finds_the_period() {
    let mut phonk = Phonk::<9_600, 150, 4_800>::new(44_100, 20, 8_000).unwrap();
    assert_eq!(phonk.detect_lag(&square(9_600, 100)), Some(100));
    assert_eq!(phonk.get_correlations()[100], 0);
    assert_eq!(phonk.detect_lag(&square(9_600, 37)), Some(37));
    assert_eq!(phonk.get_correlations()[6], 3_090);
}

#[test]
fn result_does_not_depend_on_earlier_batches() {
    let mut used = Phonk::<128, 2, 64>::new(1_000, 20, 500).unwrap();
    used.detect_lag(&square(128, 30));
    used.detect_lag(&pulses(128, 24));
    let mut fresh = Phonk::<128, 2, 64>::new(1_000, 20, 500).unwrap();
    assert_eq!(used.detect_lag(&square(128, 20)), fresh.detect_lag(&square(128, 20)));
    assert_eq!(used.get_correlations(), fresh.get_correlations());
}

#[test]
fn steps_compose_to_detect_lag() {
    let mut stepwise = Phonk::<128, 2, 64>::new(1_000, 20, 500).unwrap();
    stepwise.zero_cross(&square(128, 30));
    stepwise.autocorrelate();
    let mut whole = Phonk::<128, 2, 64>::new(1_000, 20, 500).unwrap();
    assert_eq!(stepwise.find_lag(), whole.detect_lag(&square(128, 30)));
    assert_eq!(stepwise.get_correlations(), whole.get_correlations());
}

#[test]
fn periodic_stream_has_zero_correlation_at_its_period() {
    let mut phonk = Phonk::<512, 8, 256>::new(44_100, 200, 8_000).unwrap();
    phonk.detect_lag(&square(512, 64));
    let c = phonk.get_correlations();
    assert_eq!(c[64], 0);
    assert_eq!(c[128], 0);
    assert_eq!(c[192], 0);
    assert!(c[32] > 0);
}

#[test]
fn zero_min_freq_is_caught_before_dividing() {
    assert!(Phonk::<9_600, 150, 4_800>::divides_by_zero(44_100, 0, 8_000));
    assert!(!Phonk::<9_600, 150, 4_800>::divides_by_zero(44_100, 20, 8_000));
    // The minimum period check fails first, so there is no division by zero.
    assert!(!Phonk::<8, 1, 4>::divides_by_zero(44_100, 0, 100));
    assert!(matches!(
        Phonk::<8, 1, 4>::new(44_100, 0, 100),
        Err(PhonkError::MaxFreqPeriodOutOfBounds)
    ));
}

#[test]
fn detected_lag_lies_inside_the_period_range() {
    let mut phonk = Phonk::<128, 2, 64>::new(1_000, 20, 500).unwrap();
    for period in [10usize, 20, 24, 30] {
        if let Some(lag) = phonk.detect_lag(&square(128, period)) {
            assert!(phonk.min_period() < lag as u32);
            assert!(lag as u32 + 1 < phonk.max_period());
        }
    }
}

#[test]
fn partial_last_word_takes_part_in_the_correlation() {
    // 64 low samples, then 36 high ones that only fill the top of the last word.
    let mut levels = vec![Level::Low; 64];
    levels.extend(vec![Level::High; 36]);
    let mut phonk = Phonk::<100, 2, 50>::new(1_000, 25, 500).unwrap();
    assert_eq!(phonk.detect_lag(&levels), None);
    let c = phonk.get_correlations();
    assert_eq!(c[2], 2);
    assert_eq!(c[20], 20);
    assert_eq!(c[36], 36);
    assert_eq!(c[39], 36);
    assert_eq!(c[40], 0);
}

#[test]
fn batch_with_partial_word_finds_the_period() {
    let mut phonk = Phonk::<100, 2, 50>::new(1_000, 25, 500).unwrap();
    assert_eq!(phonk.detect_lag(&square(100, 20)), Some(20));
    let expected: [u32; 50] = [
        0, 0, 12, 18, 24, 30, 36, 43, 50, 57, 64, 58, 52, 46, 40, 34, 28, 21, 14, 7, 0, 6, 12, 18,
        24, 30, 36, 43, 50, 57, 64, 58, 52, 46, 40, 34, 28, 22, 16, 10, 0, 0, 0, 0, 0, 0, 0, 0, 0,
        0,
    ];
    assert_eq!(phonk.get_correlations(), &expected);
    assert_eq!(phonk.detect_lag(&square(100, 16)), Some(16));
    assert_eq!(phonk.get_correlations()[39], 53);
}
