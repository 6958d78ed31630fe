use transmitwave_core::error::AudioModemError;
use transmitwave_core::symbol_redundancy::{decode_symbol_bytes, encode_symbol_bytes, SymbolRedundancyMode};

#[test]
fn test_parity_encode_decode_roundtrip() {
    let data = b"Parity layer test data";
    let encoded = encode_symbol_bytes(data, SymbolRedundancyMode::Parity);
    let decoded = decode_symbol_bytes(&encoded, SymbolRedundancyMode::Parity).unwrap();
    assert_eq!(&decoded[..data.len()], data);
}

#[test]
fn test_single_nibble_error_correction() {
    let data = [0xAB, 0xCD, 0xEF, 0x01];
    let encoded = encode_symbol_bytes(&data, SymbolRedundancyMode::Parity);
    let mut corrupted = encoded.clone();
    corrupted[1] ^= 0x10;
    let decoded = decode_symbol_bytes(&corrupted, SymbolRedundancyMode::Parity).unwrap();
    assert_eq!(&decoded[..data.len()], &data);
}

#[test]
fn test_no_parity_mode_passthrough() {
    let bytes = vec![1, 2, 3, 4, 5, 6];
    assert_eq!(encode_symbol_bytes(&bytes, SymbolRedundancyMode::NoParity), bytes);
    assert_eq!(decode_symbol_bytes(&bytes, SymbolRedundancyMode::NoParity).unwrap(), bytes);
}

#[test]
fn parity_layout_and_padding() {
    let encoded = encode_symbol_bytes(&[0x12, 0x34, 0x56], SymbolRedundancyMode::Parity);
    assert_eq!(encoded.len(), 6);
    assert_eq!(&encoded[..2], &[0x12, 0x34]);
    assert_eq!(&encoded[3..5], &[0x56, 0x00]);
    let decoded = decode_symbol_bytes(&encoded, SymbolRedundancyMode::Parity).unwrap();
    assert_eq!(decoded, vec![0x12, 0x34, 0x56, 0x00]);
    // The parity of an all-zero group is zero.
    assert_eq!(encode_symbol_bytes(&[0, 0], SymbolRedundancyMode::Parity), vec![0, 0, 0]);
}

#[test]
fn parity_decode_rejects_partial_groups() {
    assert!(matches!(
        decode_symbol_bytes(&[1, 2, 3, 4], SymbolRedundancyMode::Parity),
        Err(AudioModemError::InvalidInputSize)
    ));
}

#[test]
fn every_single_nibble_error_is_corrected() {
    let data = [0x3C, 0xA5];
    let encoded = encode_symbol_bytes(&data, SymbolRedundancyMode::Parity);
    for byte in 0..3 {
        for shift in [0u8, 4] {
            for v in 1..16u8 {
                let mut c = encoded.clone();
                c[byte] ^= v << shift;
                let decoded = decode_symbol_bytes(&c, SymbolRedundancyMode::Parity).unwrap();
                assert_eq!(decoded, data.to_vec());
            }
        }
    }
}

#[test]
fn one_wrong_nibble_in_every_group_is_corrected() {
    let data = b"nibble";
    let encoded = encode_symbol_bytes(data, SymbolRedundancyMode::Parity);
    let mut c = encoded.clone();
    c[0] ^= 0x07; // data nibble, group 0
    c[5] ^= 0x90; // parity nibble, group 1
    c[7] ^= 0x0F; // data nibble, group 2
    let decoded = decode_symbol_bytes(&c, SymbolRedundancyMode::Parity).unwrap();
    assert_eq!(&decoded[..], &data[..]);
}
