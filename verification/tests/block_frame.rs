use transmitwave_core::block_frame::{unpack_bytes, BlockDecoder, BlockEncoder};
use transmitwave_core::error::AudioModemError;
use transmitwave_core::{RS_TOTAL_BYTES, MAX_PAYLOAD_SIZE};

#[test]
fn block_stream_roundtrip() {
    let encoder = BlockEncoder::new().unwrap();
    let decoder = BlockDecoder::new().unwrap();
    for data in [b"".to_vec(), b"A".to_vec(), b"Hello blocks".to_vec(), vec![0xAB; MAX_PAYLOAD_SIZE]] {
        let bits = encoder.encode_bits(&data).unwrap();
        assert_eq!(bits.len(), 8 * RS_TOTAL_BYTES);
        assert_eq!(decoder.decode_bits(&bits).unwrap(), data);
    }
}

#[test]
fn block_stream_ignores_trailing_bits() {
    let encoder = BlockEncoder::new().unwrap();
    let decoder = BlockDecoder::new().unwrap();
    let data = b"trailing symbol padding".to_vec();
    let mut bits = encoder.encode_bits(&data).unwrap();
    bits.extend(std::iter::repeat(true).take(45));
    assert_eq!(decoder.decode_bits(&bits).unwrap(), data);
    bits.extend(std::iter::repeat(false).take(8 * 300));
    assert_eq!(decoder.decode_bits(&bits).unwrap(), data);
}

#[test]
fn block_stream_oversized_payload_is_refused() {
    let encoder = BlockEncoder::new().unwrap();
    assert!(matches!(encoder.encode_bits(&vec![0u8; MAX_PAYLOAD_SIZE + 1]), Err(AudioModemError::InvalidInputSize)));
}

#[test]
fn block_stream_too_few_bits() {
    let decoder = BlockDecoder::new().unwrap();
    assert!(matches!(decoder.decode_bits(&[]), Err(AudioModemError::InvalidFrameSize)));
    assert!(matches!(decoder.decode_bits(&[true; 7]), Err(AudioModemError::InvalidFrameSize)));
    // One zero byte is padded up to a block of zeros: an empty frame whose payload CRC is wrong.
    assert!(matches!(decoder.decode_bits(&[false; 8]), Err(AudioModemError::PayloadCrcMismatch)));
}

#[test]
fn block_stream_damaged_payload_is_refused() {
    let encoder = BlockEncoder::new().unwrap();
    let decoder = BlockDecoder::new().unwrap();
    let mut bits = encoder.encode_bits(b"check me").unwrap();
    bits[8 * 9] = !bits[8 * 9];
    assert!(matches!(decoder.decode_bits(&bits), Err(AudioModemError::PayloadCrcMismatch)));
}

#[test]
fn unpack_bytes_is_msb_first() {
    assert_eq!(unpack_bytes(&[0x80, 0x01]), vec![true, false, false, false, false, false, false, false,
        false, false, false, false, false, false, false, true]);
}
