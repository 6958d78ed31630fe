use transmitwave_core::dtmf::{
    bytes_to_dtmf_symbols, dtmf_data_span, dtmf_data_start, dtmf_high_freqs_hz, dtmf_low_freqs_hz, dtmf_pairs_fit,
    dtmf_symbol_from_tones, dtmf_symbols_to_bytes, dtmf_tone_indices, DTMF_NUM_SYMBOLS, DTMF_SYMBOL_SAMPLES,
};
use transmitwave_core::error::AudioModemError;
use transmitwave_core::{PREAMBLE_SAMPLES, SYNC_SILENCE_SAMPLES};

#[test]
fn test_dtmf_frequency_constants() {
    assert_eq!(dtmf_low_freqs_hz().len(), 6);
    assert_eq!(dtmf_high_freqs_hz().len(), 8);
    assert_eq!(DTMF_NUM_SYMBOLS, 48);
}

#[test]
fn test_dtmf_symbol_encoding() {
    assert_eq!(0 / 8, 0);
    assert_eq!(0 % 8, 0);

    assert_eq!(47 / 8, 5);
    assert_eq!(47 % 8, 7);

    assert_eq!(15 / 8, 1);
    assert_eq!(15 % 8, 7);
}

#[test]
fn test_dtmf_frequency_spacing() {
    let low = dtmf_low_freqs_hz();
    for i in 1..low.len() {
        let spacing = (low[i] - low[i - 1]) as f32;
        assert!((spacing - 61.0).abs() < 2.0, "Low frequency spacing should be ~61 Hz, got {}", spacing);
    }

    let high = dtmf_high_freqs_hz();
    for i in 1..high.len() {
        let spacing = (high[i] - high[i - 1]) as f32;
        assert!((spacing - 62.0).abs() < 2.0, "High frequency spacing should be ~62 Hz, got {}", spacing);
    }
}

#[test]
fn test_bytes_to_dtmf_symbols() {
    assert_eq!(bytes_to_dtmf_symbols(&[0]), vec![0, 0]);
    assert_eq!(bytes_to_dtmf_symbols(&[47]), vec![0, 47]);
    assert_eq!(bytes_to_dtmf_symbols(&[48]), vec![1, 0]);
    assert_eq!(bytes_to_dtmf_symbols(&[255]), vec![5, 15]);
}

#[test]
fn test_dtmf_symbol_range() {
    for byte_val in 0..=255u8 {
        let symbols = bytes_to_dtmf_symbols(&[byte_val]);
        assert_eq!(symbols.len(), 2);
        for &symbol in &symbols {
            assert!(symbol < DTMF_NUM_SYMBOLS, "Symbol {} out of range for byte {}", symbol, byte_val);
        }
    }
}

#[test]
fn test_dtmf_symbols_to_bytes() {
    assert_eq!(dtmf_symbols_to_bytes(&[0, 0]).unwrap(), vec![0]);
    assert_eq!(dtmf_symbols_to_bytes(&[0, 47]).unwrap(), vec![47]);
    assert_eq!(dtmf_symbols_to_bytes(&[1, 0]).unwrap(), vec![48]);
    assert_eq!(dtmf_symbols_to_bytes(&[5, 15]).unwrap(), vec![255]);
}

#[test]
fn test_dtmf_symbols_to_bytes_invalid_length() {
    let result = dtmf_symbols_to_bytes(&[0, 1, 2]);
    assert!(result.is_err());
}

#[test]
fn dtmf_tone_pairs() {
    assert_eq!(dtmf_tone_indices(0).unwrap(), (0, 0));
    assert_eq!(dtmf_tone_indices(47).unwrap(), (5, 7));
    assert_eq!(dtmf_tone_indices(15).unwrap(), (1, 7));
    assert!(matches!(dtmf_tone_indices(48), Err(AudioModemError::InvalidInputSize)));
    for s in 0..48u8 {
        let (l, h) = dtmf_tone_indices(s).unwrap();
        assert_eq!(dtmf_symbol_from_tones(l, h), s);
    }
}

#[test]
fn dtmf_pairs_that_overflow_a_byte() {
    assert!(dtmf_pairs_fit(&[5, 15]));
    assert!(!dtmf_pairs_fit(&[5, 16]));
    assert!(dtmf_pairs_fit(&[1, 2, 3]));
}

#[test]
fn dtmf_data_region() {
    let total = 50_000;
    assert!(matches!(dtmf_data_start(DTMF_SYMBOL_SAMPLES - 1, Some(0)), Err(AudioModemError::InsufficientData)));
    assert!(matches!(dtmf_data_start(total, None), Err(AudioModemError::PreambleNotFound)));
    assert_eq!(dtmf_data_start(total, Some(100)).unwrap(), 100 + PREAMBLE_SAMPLES + SYNC_SILENCE_SAMPLES);
    assert!(matches!(dtmf_data_start(total, Some(total - 10)), Err(AudioModemError::InsufficientData)));
    assert_eq!(dtmf_data_span(6000, total, Some(3200)).unwrap(), (6000, 9200));
    assert_eq!(dtmf_data_span(6000, total, None).unwrap(), (6000, total));
    assert!(matches!(dtmf_data_span(6000, total, Some(0)), Err(AudioModemError::InsufficientData)));
}

#[test]
fn odd_symbol_count_is_refused_whatever_the_symbols() {
    assert!(matches!(transmitwave_core::dtmf::dtmf_recover_payload(&[47, 47, 47]), Err(AudioModemError::InvalidInputSize)));
}
