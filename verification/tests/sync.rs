use transmitwave_core::fft_correlation::{correlation_layout, Mode};
use transmitwave_core::sync::barker_code;

#[test]
fn test_barker_code() {
    let barker = barker_code();
    assert_eq!(barker.len(), 11);
}

#[test]
fn test_barker_code_values() {
    let barker = barker_code();
    let expected = vec![1, 1, 1, -1, -1, 1, -1, 1, 1, -1, 1];
    assert_eq!(barker, expected);
}

#[test]
fn test_barker_autocorrelation() {
    let barker = barker_code();
    let autocorr: i32 = barker.iter().map(|&x| (x as i32) * (x as i32)).sum();
    assert_eq!(autocorr, 11);
}

#[test]
fn test_barker_sidelobe_property() {
    let barker = barker_code();
    let mut max_sidelobe = 0i32;
    let mut avg_sidelobe = 0i32;
    for lag in 1..11 {
        let correlation: i32 = barker[..11 - lag]
            .iter()
            .zip(barker[lag..].iter())
            .map(|(a, b)| (*a as i32) * (*b as i32))
            .sum();
        let abs_corr = correlation.abs();
        max_sidelobe = max_sidelobe.max(abs_corr);
        avg_sidelobe += abs_corr;
    }
    avg_sidelobe /= 10;
    assert!(max_sidelobe < 11, "Max sidelobe {} should be < autocorr 11", max_sidelobe);
    assert!(avg_sidelobe < 11, "Avg sidelobe {} should be < autocorr 11", avg_sidelobe);
}

#[test]
fn test_barker_code_symmetry() {
    let barker = barker_code();
    let alternations = barker.windows(2).filter(|w| w[0] != w[1]).count();
    assert!(alternations >= 5, "Barker should have multiple sign changes");
}

#[test]
fn test_barker_chip_spreading() {
    let barker = barker_code();
    assert_eq!(barker.iter().all(|&x| x == 1 || x == -1), true);

    let bit = true;
    let bit_val: i8 = if bit { 1 } else { -1 };
    let spread: Vec<i8> = barker.iter().map(|&x| x * bit_val).collect();
    assert_eq!(spread.len(), 11);
}

#[test]
fn test_barker_despread_clean() {
    let barker = barker_code();
    let bit = true;
    let bit_val = if bit { 1.0 } else { -1.0 };

    let spread: Vec<f32> = barker.iter().map(|&x| (x as f32) * bit_val).collect();

    let correlation: f32 = spread.iter().zip(barker.iter()).map(|(&s, &b)| s * (b as f32)).sum();

    assert!(correlation > 10.0);
}

#[test]
fn test_barker_despread_with_noise() {
    let barker = barker_code();
    let bit = true;
    let bit_val = if bit { 1.0 } else { -1.0 };

    let spread: Vec<f32> = barker
        .iter()
        .enumerate()
        .map(|(i, &x)| {
            let noise = ((i as f32 * 0.789) % 1.0) * 0.2 - 0.1;
            (x as f32) * bit_val + noise
        })
        .collect();

    let correlation: f32 = spread.iter().zip(barker.iter()).map(|(&s, &b)| s * (b as f32)).sum();

    assert!(correlation > 5.0, "Correlation with noise: {}", correlation);
}

#[test]
fn test_barker_as_matched_filter() {
    let barker = barker_code();
    let mut signal = Vec::new();
    for _ in 0..10 {
        for &chip in &barker {
            signal.push(chip as f32);
        }
    }

    let correlation: f32 = signal.iter().zip(barker.iter().cycle()).map(|(&s, &b)| s * (b as f32)).sum();

    assert!(correlation > 100.0);
}

#[test]
fn test_barker_mismatch_detection() {
    let barker = barker_code();
    let random_seq: Vec<i8> = vec![1, -1, 1, 1, -1, 1, -1, -1, 1, -1, -1];

    let correlation: i32 = random_seq.iter().zip(barker.iter()).map(|(a, b)| (*a as i32) * (*b as i32)).sum();

    assert!(correlation.abs() < 10);
}

#[test]
fn barker_sidelobes_at_most_five() {
    let barker = barker_code();
    for lag in 1..11 {
        let c: i32 = (0..11 - lag).map(|i| barker[i] as i32 * barker[i + lag] as i32).sum();
        assert!(c.abs() <= 5);
    }
}

#[test]
fn correlation_layout_modes() {
    // 5-sample signal, 3-sample template: full output 7, transform size 8.
    assert_eq!(correlation_layout(5, 3, Mode::Full), Some((8, 0, 7)));
    assert_eq!(correlation_layout(5, 3, Mode::Same), Some((8, 1, 5)));
    assert_eq!(correlation_layout(5, 3, Mode::Valid), Some((8, 2, 3)));
    assert_eq!(correlation_layout(100, 10, Mode::Full), Some((128, 0, 109)));
    assert_eq!(correlation_layout(100, 10, Mode::Same), Some((128, 4, 100)));
    assert_eq!(correlation_layout(3, 5, Mode::Valid), Some((8, 0, 0)));
    assert_eq!(correlation_layout(0, 5, Mode::Full), None);
    assert_eq!(correlation_layout(5, 0, Mode::Same), None);
    assert_eq!(correlation_layout(1, 1, Mode::Full), Some((1, 0, 1)));
}

#[test]
fn test_barker_code_properties() {
    let barker = barker_code();
    assert_eq!(barker.len(), 11, "Barker code should be 11 bits");
    for bit in &barker {
        assert!(*bit == 1 || *bit == -1, "Barker code should contain only ±1");
    }
}
