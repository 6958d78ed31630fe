use transmitwave_core::error::AudioModemError;
use transmitwave_core::trellis::{parity, ConvolutionalEncoder, ViterbiDecoder};

fn message_bits(data: &[u8]) -> Vec<bool> {
    let mut bits = Vec::new();
    for &b in data {
        for i in 0..8 {
            bits.push((b >> (7 - i)) & 1 == 1);
        }
    }
    bits.extend_from_slice(&[false; 6]);
    bits
}

#[test]
fn test_convolutional_encode_basic() {
    let mut encoder = ConvolutionalEncoder::new();
    let bits = encoder.encode(&[0xFF]);
    assert_eq!(bits.len(), 28);
}

#[test]
fn test_parity_function() {
    assert_eq!(parity(0b0000), 0);
    assert_eq!(parity(0b0001), 1);
    assert_eq!(parity(0b0011), 0);
    assert_eq!(parity(0b0111), 1);
    assert_eq!(parity(0b1111), 0);
}

#[test]
fn test_encoder_state_progression() {
    let mut encoder = ConvolutionalEncoder::new();
    assert_eq!(encoder.state(), 0);

    encoder.encode_bit(true);
    assert_ne!(encoder.state(), 0);

    encoder.reset();
    assert_eq!(encoder.state(), 0);
}

#[test]
fn test_convolutional_all_zeros() {
    let mut encoder = ConvolutionalEncoder::new();
    let data = b"\x00";
    let encoded = encoder.encode(data);

    assert_eq!(encoded.len(), 28);
    assert!(encoded.iter().any(|&b| !b));
}

#[test]
fn test_convolutional_all_ones() {
    let mut encoder = ConvolutionalEncoder::new();
    let data = b"\xFF";
    let encoded = encoder.encode(data);

    assert_eq!(encoded.len(), 28);
    assert!(encoded.iter().any(|&b| b));
}

#[test]
fn test_convolutional_alternating_bits() {
    let mut encoder = ConvolutionalEncoder::new();
    let data = b"\xAA";
    let encoded = encoder.encode(data);

    assert_eq!(encoded.len(), 28);
    assert!(encoded.iter().any(|&b| b) && encoded.iter().any(|&b| !b));
}

#[test]
fn test_generator_polynomial_coverage() {
    let g1: u8 = 0b1011011;
    let g2: u8 = 0b1111001;

    assert_ne!(g1, 0);
    assert_ne!(g2, 0);
    assert_ne!(g1, 0xFF);
    assert_ne!(g2, 0xFF);

    assert_ne!(g1, g2);

    assert!(g1.count_ones() >= 4 && g1.count_ones() <= 7);
    assert!(g2.count_ones() >= 4 && g2.count_ones() <= 7);
}

#[test]
fn encode_bit_first_outputs() {
    // From the zero state, input 1 sets the top tap of both generators.
    let mut encoder = ConvolutionalEncoder::new();
    assert_eq!(encoder.encode_bit(true), [true, true]);
    assert_eq!(encoder.state(), 0b100000);
    let mut encoder = ConvolutionalEncoder::new();
    assert_eq!(encoder.encode_bit(false), [false, false]);
    assert_eq!(encoder.state(), 0);
}

#[test]
fn viterbi_hard_recovers_messages() {
    let decoder = ViterbiDecoder::new();
    for msg in [&b"A"[..], b"Z", b"Hello", b"Path", b"OK", b""] {
        let mut encoder = ConvolutionalEncoder::new();
        let encoded = encoder.encode(msg);
        let decoded = decoder.decode_hard(&encoded).unwrap();
        assert_eq!(decoded, message_bits(msg));
    }
}

#[test]
fn viterbi_hard_corrects_single_error() {
    let decoder = ViterbiDecoder::new();
    let mut encoder = ConvolutionalEncoder::new();
    let mut encoded = encoder.encode(b"X");
    encoded[5] = !encoded[5];
    let decoded = decoder.decode_hard(&encoded).unwrap();
    assert_eq!(decoded, message_bits(b"X"));
}

#[test]
fn viterbi_hard_input_errors() {
    let decoder = ViterbiDecoder::new();
    assert!(matches!(decoder.decode_hard(&[true]), Err(AudioModemError::InsufficientData)));
    assert!(matches!(decoder.decode_hard(&[]), Err(AudioModemError::InsufficientData)));
    assert!(matches!(decoder.decode_hard(&[true, false, true]), Err(AudioModemError::InvalidInputSize)));
    assert_eq!(decoder.decode_hard(&[true, true, false, true]).unwrap().len(), 2);
}

#[test]
fn encoding_flushes_the_register() {
    let mut encoder = ConvolutionalEncoder::new();
    encoder.encode(b"first message");
    assert_eq!(encoder.state(), 0);
    let again = encoder.encode(b"OK");
    assert_eq!(again, ConvolutionalEncoder::new().encode(b"OK"));
}

#[test]
fn encode_byte_is_eight_encode_bits() {
    for byte in [0x00u8, 0x80, 0x5A, 0xFF] {
        let mut by_byte = ConvolutionalEncoder::new();
        let mut by_bit = ConvolutionalEncoder::new();
        by_byte.encode_bit(true);
        by_bit.encode_bit(true);
        let coded = by_byte.encode_byte(byte);
        let mut expected = Vec::new();
        for i in 0..8 {
            let out = by_bit.encode_bit((byte >> (7 - i)) & 1 == 1);
            expected.extend_from_slice(&out);
        }
        assert_eq!(coded, expected);
        assert_eq!(by_byte.state(), by_bit.state());
    }
}
