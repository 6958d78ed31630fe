use transmitwave_core::dtmf::{dtmf_frame_symbols, dtmf_recover_payload};
use transmitwave_core::error::AudioModemError;
use transmitwave_core::fsk::{fsk_data_start, fsk_frame_bytes, fsk_symbol_span, nibbles_to_bytes, symbol_tone_bins, FSK_SYMBOL_SAMPLES};
use transmitwave_core::transport::{protect_payload, recover_payload};
use transmitwave_core::{MAX_PAYLOAD_SIZE, PREAMBLE_SAMPLES};

#[test]
fn protected_frame_layout() {
    let p = protect_payload(b"Hello").unwrap();
    // Length prefix (frame of 15 bytes), the frame, then 8 parity bytes (small frame).
    assert_eq!(&p[..2], &[0, 15]);
    assert_eq!(p.len(), 2 + 15 + 8);
    assert_eq!(&p[2 + 8..2 + 13], b"Hello");
    // FEC mode byte in the header.
    assert_eq!(p[2 + 5], 8);
    let medium = protect_payload(&[7u8; 20]).unwrap();
    assert_eq!(medium.len(), 2 + 30 + 16);
    let full = protect_payload(&[7u8; 60]).unwrap();
    assert_eq!(full.len(), 2 + 70 + 32);
}

#[test]
fn protect_recover_roundtrip_sizes() {
    for size in [0usize, 1, 5, 9, 10, 39, 40, 100, MAX_PAYLOAD_SIZE] {
        let data: Vec<u8> = (0..size).map(|i| (i * 31 + 7) as u8).collect();
        let mut p = protect_payload(&data).unwrap();
        // Trailing padding from symbol alignment is ignored.
        p.push(0);
        assert_eq!(recover_payload(&p).unwrap(), data, "size {}", size);
    }
}

#[test]
fn protect_rejects_oversized() {
    assert!(matches!(protect_payload(&[0u8; MAX_PAYLOAD_SIZE + 1]), Err(AudioModemError::InvalidInputSize)));
    assert!(matches!(fsk_frame_bytes(&[0u8; MAX_PAYLOAD_SIZE + 1]), Err(AudioModemError::InvalidInputSize)));
}

#[test]
fn recover_errors() {
    assert!(matches!(recover_payload(&[0u8]), Err(AudioModemError::InvalidFrameSize)));
    // A declared frame that no mode can hold.
    assert!(matches!(recover_payload(&[0, 15, 1, 2, 3]), Err(AudioModemError::FecDecodeFailure)));
    // Corrupted payload byte: the frame CRC catches it.
    let mut p = protect_payload(b"Hello").unwrap();
    p[2 + 8] ^= 1;
    assert!(matches!(recover_payload(&p), Err(AudioModemError::PayloadCrcMismatch)));
}

#[test]
fn fsk_frame_is_symbol_aligned() {
    for size in [0usize, 1, 2, 3, 50, 200] {
        let b = fsk_frame_bytes(&vec![1u8; size]).unwrap();
        assert_eq!(b.len() % 3, 0);
        assert_eq!(recover_payload(&b).unwrap(), vec![1u8; size]);
    }
}

#[test]
fn fsk_symbol_bins_and_nibbles() {
    let bins = symbol_tone_bins(&[0xAB, 0x01, 0xF0]).unwrap();
    assert_eq!(bins, vec![10, 16 + 11, 32, 48 + 1, 64 + 15, 80]);
    assert!(matches!(symbol_tone_bins(&[1, 2]), Err(AudioModemError::InvalidInputSize)));
    assert_eq!(nibbles_to_bytes(&[0xA, 0xB, 0x0, 0x1, 0xF, 0x0]), vec![0xAB, 0x01, 0xF0]);
}

#[test]
fn fsk_data_region() {
    let total = 100_000;
    assert!(matches!(fsk_data_start(2 * FSK_SYMBOL_SAMPLES - 1, Some(0)), Err(AudioModemError::InsufficientData)));
    assert!(matches!(fsk_data_start(total, None), Err(AudioModemError::PreambleNotFound)));
    assert_eq!(fsk_data_start(total, Some(500)).unwrap(), 500 + PREAMBLE_SAMPLES);
    assert!(matches!(fsk_data_start(total, Some(total - PREAMBLE_SAMPLES)), Err(AudioModemError::InsufficientData)));
    assert!(matches!(fsk_symbol_span(4500, None), Err(AudioModemError::PostambleNotFound)));
    assert!(matches!(fsk_symbol_span(4500, Some(FSK_SYMBOL_SAMPLES - 1)), Err(AudioModemError::InsufficientData)));
    assert_eq!(fsk_symbol_span(4500, Some(2 * FSK_SYMBOL_SAMPLES + 7)).unwrap(), (4500, 4500 + 2 * FSK_SYMBOL_SAMPLES));
}

#[test]
fn dtmf_symbols_roundtrip() {
    let data = b"DTMF payload";
    let symbols = dtmf_frame_symbols(data).unwrap();
    assert!(symbols.iter().all(|&s| s < 48));
    assert_eq!(dtmf_recover_payload(&symbols).unwrap(), data.to_vec());
    assert!(matches!(dtmf_recover_payload(&symbols[..symbols.len() - 1]), Err(AudioModemError::InvalidInputSize)));
}
