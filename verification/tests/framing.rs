use transmitwave_core::error::AudioModemError;
use transmitwave_core::framing::{crc16, crc8, Frame, FrameDecoder, FrameEncoder};
use transmitwave_core::FRAME_HEADER_SIZE;

#[test]
fn test_frame_encode_decode() {
    let payload = b"Hello".to_vec();
    let frame = Frame {
        payload_len: 5,
        frame_num: 1,
        fec_mode: 8,
        payload: payload.clone(),
        payload_crc: crc16(&payload),
    };

    let encoded = FrameEncoder::encode(&frame).unwrap();
    assert!(encoded.len() >= FRAME_HEADER_SIZE + 5 + 2);

    let decoded = FrameDecoder::decode(&encoded).unwrap();
    assert_eq!(decoded.payload_len, 5);
    assert_eq!(decoded.frame_num, 1);
    assert_eq!(decoded.fec_mode, 8);
    assert_eq!(decoded.payload, b"Hello");
    assert_eq!(decoded.payload_crc, crc16(b"Hello"));
}

#[test]
fn test_frame_header_crc_validation() {
    let payload = b"Hello".to_vec();
    let frame = Frame {
        payload_len: 5,
        frame_num: 1,
        fec_mode: 8,
        payload: payload.clone(),
        payload_crc: crc16(&payload),
    };

    let mut encoded = FrameEncoder::encode(&frame).unwrap();
    encoded[4] = encoded[4].wrapping_add(1);

    match FrameDecoder::decode(&encoded) {
        Err(AudioModemError::HeaderCrcMismatch) => {}
        _ => panic!("Expected HeaderCrcMismatch error"),
    }
}

#[test]
fn test_frame_payload_crc_validation() {
    let payload = b"Hello".to_vec();
    let frame = Frame {
        payload_len: 5,
        frame_num: 1,
        fec_mode: 8,
        payload: payload.clone(),
        payload_crc: crc16(&payload),
    };

    let mut encoded = FrameEncoder::encode(&frame).unwrap();
    encoded[FRAME_HEADER_SIZE] = b'G';

    match FrameDecoder::decode(&encoded) {
        Err(AudioModemError::PayloadCrcMismatch) => {}
        _ => panic!("Expected PayloadCrcMismatch error"),
    }
}

#[test]
fn test_corrupted_payload_rejected() {
    let original_payload = b"Hello World".to_vec();
    let frame = Frame {
        payload_len: 11,
        frame_num: 0,
        fec_mode: 8,
        payload: original_payload.clone(),
        payload_crc: crc16(&original_payload),
    };

    let mut encoded = FrameEncoder::encode(&frame).unwrap();

    let corrupted_payload = b"Hg|lo World".to_vec();
    assert_eq!(corrupted_payload.len(), 11);

    for i in 0..11 {
        encoded[FRAME_HEADER_SIZE + i] = corrupted_payload[i];
    }

    match FrameDecoder::decode(&encoded) {
        Err(AudioModemError::PayloadCrcMismatch) => {}
        _ => panic!("Expected PayloadCrcMismatch error for corrupted payload"),
    }
}

#[test]
fn crc16_check_value() {
    // CRC-16/CCITT-FALSE of "123456789".
    assert_eq!(crc16(b"123456789"), 0x29B1);
    assert_eq!(crc16(b""), 0xFFFF);
}

#[test]
fn crc8_known_values() {
    // CRC-8 (polynomial 0xD5, initial 0) of "123456789".
    assert_eq!(crc8(b"123456789"), 0xBC);
    assert_eq!(crc8(b""), 0);
}

#[test]
fn frame_errors_for_short_and_oversized_input() {
    assert!(matches!(FrameDecoder::decode(&[0u8; 5]), Err(AudioModemError::InvalidFrameSize)));
    assert!(matches!(FrameDecoder::decode_header(&[0u8; 7]), Err(AudioModemError::InvalidFrameSize)));
    let frame = Frame { payload_len: 201, frame_num: 0, fec_mode: 8, payload: vec![0u8; 201], payload_crc: 0 };
    assert!(matches!(FrameEncoder::encode(&frame), Err(AudioModemError::InvalidFrameSize)));
    // A header that declares more payload than there is.
    let payload = b"Hi".to_vec();
    let frame = Frame { payload_len: 2, frame_num: 3, fec_mode: 16, payload: payload.clone(), payload_crc: crc16(&payload) };
    let encoded = FrameEncoder::encode(&frame).unwrap();
    assert!(matches!(FrameDecoder::decode(&encoded[..encoded.len() - 1]), Err(AudioModemError::InvalidFrameSize)));
    let (len, num, fec) = FrameDecoder::decode_header(&encoded).unwrap();
    assert_eq!((len, num, fec), (2, 3, 16));
}

#[test]
fn crcs_notice_a_changed_byte() {
    let data = b"123456789".to_vec();
    for i in 0..data.len() {
        for flip in [0x01u8, 0x80, 0xFF] {
            let mut d = data.clone();
            d[i] ^= flip;
            assert_ne!(crc16(&d), crc16(&data));
            assert_ne!(crc8(&d), crc8(&data));
        }
    }
}

#[test]
fn crc8_notices_a_short_burst_across_bytes() {
    let data = b"\x12\x34\x56\x78".to_vec();
    for s in 1..8u32 {
        // Flip the last `s` bits of byte 1 and the first `8 - s` bits of byte 2.
        let e1 = ((1u32 << s) - 1) as u8;
        let e2 = (0xFFu32 << s) as u8;
        let mut d = data.clone();
        d[1] ^= e1;
        d[2] ^= e2;
        assert_ne!(crc8(&d), crc8(&data));
    }
}
