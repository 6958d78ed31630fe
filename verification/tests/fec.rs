use transmitwave_core::fec::{FecDecoder, FecEncoder, FecMode};
use transmitwave_core::{RS_DATA_BYTES, RS_TOTAL_BYTES};

#[test]
fn test_encode_decode_basic() {
    let encoder = FecEncoder::new().unwrap();
    let decoder = FecDecoder::new().unwrap();

    let data = b"Hello";
    let encoded = encoder.encode(data).unwrap();
    assert_eq!(encoded.len(), RS_TOTAL_BYTES);

    let decoded = decoder.decode(&encoded).unwrap();
    assert_eq!(&decoded[..5], data);
}

#[test]
fn test_encode_decode_empty() {
    let encoder = FecEncoder::new().unwrap();
    let decoder = FecDecoder::new().unwrap();

    let data = b"";
    let encoded = encoder.encode(data).unwrap();
    assert_eq!(encoded.len(), RS_TOTAL_BYTES);

    let decoded = decoder.decode(&encoded).unwrap();
    assert_eq!(decoded.len(), RS_DATA_BYTES);
    assert!(decoded.iter().all(|&b| b == 0));
}

#[test]
fn test_encode_decode_single_byte() {
    let encoder = FecEncoder::new().unwrap();
    let decoder = FecDecoder::new().unwrap();

    let data = b"X";
    let encoded = encoder.encode(data).unwrap();
    assert_eq!(encoded.len(), RS_TOTAL_BYTES);

    let decoded = decoder.decode(&encoded).unwrap();
    assert_eq!(decoded[0], b'X');
}

#[test]
fn test_encode_decode_max_data() {
    let encoder = FecEncoder::new().unwrap();
    let decoder = FecDecoder::new().unwrap();

    let data: Vec<u8> = (0..RS_DATA_BYTES).map(|i| (i % 256) as u8).collect();
    let encoded = encoder.encode(&data).unwrap();
    assert_eq!(encoded.len(), RS_TOTAL_BYTES);

    let decoded = decoder.decode(&encoded).unwrap();
    assert_eq!(&decoded[..RS_DATA_BYTES], data.as_slice());
}

#[test]
fn test_encode_oversized_data() {
    let encoder = FecEncoder::new().unwrap();
    let data = vec![0u8; RS_DATA_BYTES + 1];

    let result = encoder.encode(&data);
    assert!(result.is_err());
}

#[test]
fn test_fec_mode_light() {
    let encoder = FecEncoder::new().unwrap();
    let decoder = FecDecoder::new().unwrap();

    let data = b"Test Light FEC";
    let encoded = encoder.encode_with_mode(data, FecMode::Light).unwrap();
    assert_eq!(encoded.len(), RS_DATA_BYTES + 8);

    let decoded = decoder.decode_with_mode(&encoded, FecMode::Light).unwrap();
    assert_eq!(&decoded[..14], data);
}

#[test]
fn test_fec_mode_medium() {
    let encoder = FecEncoder::new().unwrap();
    let decoder = FecDecoder::new().unwrap();

    let data = b"Test Medium FEC";
    let encoded = encoder.encode_with_mode(data, FecMode::Medium).unwrap();
    assert_eq!(encoded.len(), RS_DATA_BYTES + 16);

    let decoded = decoder.decode_with_mode(&encoded, FecMode::Medium).unwrap();
    assert_eq!(&decoded[..15], data);
}

#[test]
fn test_fec_mode_full() {
    let encoder = FecEncoder::new().unwrap();
    let decoder = FecDecoder::new().unwrap();

    let data = b"Test Full FEC Mode";
    let encoded = encoder.encode_with_mode(data, FecMode::Full).unwrap();
    assert_eq!(encoded.len(), RS_DATA_BYTES + 32);

    let decoded = decoder.decode_with_mode(&encoded, FecMode::Full).unwrap();
    assert_eq!(&decoded[..18], data);
}

#[test]
fn test_encode_with_all_modes() {
    let encoder = FecEncoder::new().unwrap();

    let data = b"Multi-mode test";

    let encoded_light = encoder.encode_with_mode(data, FecMode::Light).unwrap();
    assert_eq!(encoded_light.len(), RS_DATA_BYTES + 8);

    let encoded_medium = encoder.encode_with_mode(data, FecMode::Medium).unwrap();
    assert_eq!(encoded_medium.len(), RS_DATA_BYTES + 16);

    let encoded_full = encoder.encode_with_mode(data, FecMode::Full).unwrap();
    assert_eq!(encoded_full.len(), RS_DATA_BYTES + 32);
}

#[test]
fn test_parity_bytes_integrity() {
    let encoder = FecEncoder::new().unwrap();

    let data = b"Parity integrity test";
    let encoded1 = encoder.encode(data).unwrap();
    let encoded2 = encoder.encode(data).unwrap();

    assert_eq!(encoded1, encoded2);
}

#[test]
fn test_different_inputs_different_parity() {
    let encoder = FecEncoder::new().unwrap();

    let data1 = b"First test data";
    let data2 = b"Second test data";

    let encoded1 = encoder.encode(data1).unwrap();
    let encoded2 = encoder.encode(data2).unwrap();

    assert_ne!(&encoded1[RS_DATA_BYTES..], &encoded2[RS_DATA_BYTES..]);
}

#[test]
fn test_decode_light_without_errors() {
    let encoder = FecEncoder::new().unwrap();
    let decoder = FecDecoder::new().unwrap();

    let data = b"Light mode test";
    let encoded = encoder.encode_with_mode(data, FecMode::Light).unwrap();
    let decoded = decoder.decode_with_mode(&encoded, FecMode::Light).unwrap();
    assert_eq!(&decoded[..15], data);
}

#[test]
fn test_roundtrip_various_patterns() {
    let encoder = FecEncoder::new().unwrap();
    let decoder = FecDecoder::new().unwrap();

    let patterns = vec![
        vec![0u8; 100],
        vec![0xFF; 100],
        (0..100).map(|i| (i % 256) as u8).collect::<Vec<u8>>(),
        (0..100).map(|_| 42u8).collect::<Vec<u8>>(),
    ];

    for data in patterns {
        let encoded = encoder.encode(&data).unwrap();
        let decoded = decoder.decode(&encoded).unwrap();
        assert_eq!(&decoded[..data.len()], data.as_slice());
    }
}

#[test]
fn test_fec_mode_conversions() {
    assert_eq!(FecMode::Light.parity_bytes(), 8);
    assert_eq!(FecMode::Medium.parity_bytes(), 16);
    assert_eq!(FecMode::Full.parity_bytes(), 32);

    assert_eq!(FecMode::from_u8(8).unwrap(), FecMode::Light);
    assert_eq!(FecMode::from_u8(16).unwrap(), FecMode::Medium);
    assert_eq!(FecMode::from_u8(32).unwrap(), FecMode::Full);

    assert!(FecMode::from_u8(99).is_err());
}

#[test]
fn test_fec_mode_selection() {
    assert_eq!(FecMode::from_data_size(10), FecMode::Light);
    assert_eq!(FecMode::from_data_size(20), FecMode::Medium);
    assert_eq!(FecMode::from_data_size(51), FecMode::Full);
    assert_eq!(FecMode::from_data_size(200), FecMode::Full);
}

#[test]
fn test_encode_decode_many_sizes() {
    let encoder = FecEncoder::new().unwrap();
    let decoder = FecDecoder::new().unwrap();

    for size in [1, 5, 10, 16, 32, 50, 100, 150, 200, RS_DATA_BYTES].iter() {
        let data: Vec<u8> = (0..*size).map(|i| (i as u8).wrapping_mul(17)).collect();
        let encoded = encoder.encode(&data).unwrap();
        let decoded = decoder.decode(&encoded).unwrap();
        assert_eq!(&decoded[..*size], data.as_slice(), "Failed for size {}", size);
    }
}

#[test]
fn fec_mode_byte_values_and_boundaries() {
    assert_eq!(FecMode::Light.to_u8(), 8);
    assert_eq!(FecMode::Medium.to_u8(), 16);
    assert_eq!(FecMode::Full.to_u8(), 32);
    assert_eq!(FecMode::from_data_size(19), FecMode::Light);
    assert_eq!(FecMode::from_data_size(49), FecMode::Medium);
    assert_eq!(FecMode::from_data_size(50), FecMode::Medium);
    assert_eq!(FecMode::from_data_size(51), FecMode::Full);
    assert!(FecMode::from_u8(0).is_err());
}

#[test]
fn fec_decode_rejects_wrong_lengths() {
    let decoder = FecDecoder::new().unwrap();
    assert!(decoder.decode(&[0u8; 254]).is_err());
    assert!(decoder.decode_with_mode(&[0u8; RS_DATA_BYTES + 8], FecMode::Medium).is_err());
    assert!(decoder.decode_with_errors(&[0u8; 10], &[]).is_err());
}

#[test]
fn fec_erasures_are_restored() {
    let encoder = FecEncoder::new().unwrap();
    let decoder = FecDecoder::new().unwrap();
    let data: Vec<u8> = (0..RS_DATA_BYTES).map(|i| (i * 7 % 251) as u8).collect();
    let mut encoded = encoder.encode(&data).unwrap();
    // Destroy two shards (bytes 10..14) and report them.
    for b in &mut encoded[10..14] {
        *b = 0xEE;
    }
    let repaired = decoder.decode_with_errors(&encoded, &[10, 12]).unwrap();
    assert_eq!(repaired.len(), RS_DATA_BYTES);
    // The restored shards are back in place; the other bytes are kept as received.
    assert_eq!(repaired, data);
}

#[test]
fn fec_erasures_without_errors_restore_nothing() {
    let encoder = FecEncoder::new().unwrap();
    let decoder = FecDecoder::new().unwrap();
    let encoded = encoder.encode(b"no damage").unwrap();
    let repaired = decoder.decode_with_errors(&encoded, &[]).unwrap();
    assert_eq!(repaired, encoded[..RS_DATA_BYTES].to_vec());
}

#[test]
fn fec_sixteen_erased_shards_are_restored() {
    let encoder = FecEncoder::new().unwrap();
    let decoder = FecDecoder::new().unwrap();
    let data: Vec<u8> = b"repair up to sixteen shards".to_vec();
    let mut encoded = encoder.encode(&data).unwrap();
    let mut positions = Vec::new();
    for s in 0..16usize {
        let p = s * 14;
        encoded[p] ^= 0x5A;
        positions.push(p);
    }
    let repaired = decoder.decode_with_errors(&encoded, &positions).unwrap();
    let mut expected = data.clone();
    expected.resize(RS_DATA_BYTES, 0);
    assert_eq!(repaired, expected);
}
