use transmitwave_core::chunking::{calculate_crc16, interleave_chunks, Chunk, ChunkDecoder, ChunkEncoder, ChunkHeader};
use transmitwave_core::decoder_chunked::DecoderChunked;
use transmitwave_core::encoder_chunked::EncoderChunked;

#[test]
fn test_crc16_calculation() {
    let data = b"Hello";
    let crc1 = calculate_crc16(data);
    let crc2 = calculate_crc16(data);
    assert_eq!(crc1, crc2);
}

#[test]
fn test_crc16_different_data() {
    let data1 = b"Hello";
    let data2 = b"World";
    let crc1 = calculate_crc16(data1);
    let crc2 = calculate_crc16(data2);
    assert_ne!(crc1, crc2);
}

#[test]
fn test_chunk_header_encode_decode() {
    let header = ChunkHeader::new(5, 10, 6, 0xABCD);
    let bytes = header.to_bytes();
    assert_eq!(bytes.len(), 7);

    let decoded = ChunkHeader::from_bytes(&bytes).unwrap();
    assert_eq!(decoded.chunk_id, 5);
    assert_eq!(decoded.total_chunks, 10);
    assert_eq!(decoded.payload_len, 6);
    assert_eq!(decoded.crc16, 0xABCD);
}

#[test]
fn test_chunk_encode_decode() {
    let chunk = Chunk::new(2, 5, b"Test".to_vec());
    let bytes = chunk.to_bytes();

    let decoded = Chunk::from_bytes(&bytes).unwrap();
    assert_eq!(decoded.header.chunk_id, 2);
    assert_eq!(decoded.header.total_chunks, 5);
    assert_eq!(decoded.data, b"Test");
    assert!(decoded.validate_crc());
}

#[test]
fn test_chunk_crc_validation() {
    let chunk = Chunk::new(1, 3, b"Hello".to_vec());
    assert!(chunk.validate_crc());
}

#[test]
fn test_chunk_split_32bits() {
    let encoder = ChunkEncoder::new(32).unwrap();
    let data = b"Hi";
    let chunks = encoder.split_into_chunks(data);

    assert_eq!(chunks.len(), 1);
    assert_eq!(chunks[0].header.chunk_id, 0);
    assert_eq!(chunks[0].header.total_chunks, 1);
    assert!(chunks[0].validate_crc());
}

#[test]
fn test_chunk_split_48bits() {
    let encoder = ChunkEncoder::new(48).unwrap();
    let data = b"Hello";
    let chunks = encoder.split_into_chunks(data);

    assert_eq!(chunks.len(), 1);
    assert_eq!(chunks[0].data.len(), 6);
    assert!(chunks[0].validate_crc());
}

#[test]
fn test_chunk_split_64bits() {
    let encoder = ChunkEncoder::new(64).unwrap();
    let data = b"Testing!";
    let chunks = encoder.split_into_chunks(data);

    assert_eq!(chunks.len(), 1);
    assert_eq!(chunks[0].data.len(), 8);
    assert!(chunks[0].validate_crc());
}

#[test]
fn test_chunk_split_multiple() {
    let encoder = ChunkEncoder::new(32).unwrap();
    let data = b"Hello, World!";
    let chunks = encoder.split_into_chunks(data);

    assert_eq!(chunks.len(), 4); // 13 bytes / 4 = 4 chunks
    for chunk in &chunks {
        assert!(chunk.validate_crc());
    }
}

#[test]
fn test_interleave_chunks() {
    let encoder = ChunkEncoder::new(32).unwrap();
    let data = b"ABC";
    let chunks = encoder.split_into_chunks(data);
    let original_count = chunks.len();

    let interleaved = interleave_chunks(chunks, 3);
    assert_eq!(interleaved.len(), original_count * 3);
}

#[test]
fn test_chunk_decode_invalid_size() {
    let decoder = ChunkDecoder::new(32).unwrap();
    let result = decoder.reassemble_chunks(&[], 5);
    assert!(result.is_err());
}

#[test]
fn test_chunk_roundtrip() {
    let encoder = ChunkEncoder::new(48).unwrap();
    let original_data = b"Hello";

    let chunks = encoder.split_into_chunks(original_data);
    assert_eq!(chunks.len(), 1);

    let decoder = ChunkDecoder::new(48).unwrap();
    let reassembled = decoder.reassemble_chunks(&chunks, original_data.len()).unwrap();
    assert_eq!(reassembled, original_data);
}

#[test]
fn test_decoder_chunked_new() {
    let decoder = DecoderChunked::new(48);
    assert!(decoder.is_ok());
}

#[test]
fn test_decoder_chunked_invalid_chunk_bits() {
    let decoder = DecoderChunked::new(40);
    assert!(decoder.is_err());
}

#[test]
fn test_encoder_chunked_new() {
    assert!(EncoderChunked::new(32, 2).is_ok());
    assert!(EncoderChunked::new(40, 2).is_err());
}

#[test]
fn chunked_bits_roundtrip_with_repeats() {
    let data = b"Hello, chunked world!";
    for bits in [32usize, 48, 64] {
        let encoder = EncoderChunked::new(bits, 3).unwrap();
        let stream = encoder.encode_bits(data).unwrap();
        // Every chunk travels in a 255-byte block, three times over.
        let chunk_bytes = bits / 8;
        let chunks = (data.len() + chunk_bytes - 1) / chunk_bytes;
        assert_eq!(stream.len(), 3 * chunks * 255 * 8);
        let decoder = DecoderChunked::new(bits).unwrap();
        assert_eq!(decoder.decode_bits(&stream).unwrap(), data.to_vec());
    }
}

#[test]
fn chunked_decode_skips_corrupted_copies() {
    let data = b"abcdefgh";
    let encoder = EncoderChunked::new(32, 2).unwrap();
    let mut stream = encoder.encode_bits(data).unwrap();
    // Corrupt a data bit of the first copy of chunk 0 (byte 7 of the first block).
    stream[7 * 8 + 3] = !stream[7 * 8 + 3];
    let decoder = DecoderChunked::new(32).unwrap();
    assert_eq!(decoder.decode_bits(&stream).unwrap(), data.to_vec());
}

#[test]
fn chunked_decode_missing_chunk_fails() {
    let data = b"abcdefgh";
    let encoder = EncoderChunked::new(32, 1).unwrap();
    let stream = encoder.encode_bits(data).unwrap();
    // Keep only the first block: chunk 1 never arrives.
    let decoder = DecoderChunked::new(32).unwrap();
    assert!(decoder.decode_bits(&stream[..255 * 8]).is_err());
    // Bits that do not fill a block give nothing.
    assert!(decoder.decode_bits(&stream[..100]).is_err());
}

#[test]
fn test_encoder_chunked_invalid_chunk_bits() {
    let encoder = EncoderChunked::new(40, 3);
    assert!(encoder.is_err());
}

#[test]
fn test_decoder_have_all_chunks_empty() {
    let decoder = DecoderChunked::new(48).unwrap();
    let chunks: Vec<Chunk> = Vec::new();
    assert!(!decoder.have_all_chunks(&chunks, 1));
}

#[test]
fn test_decoder_have_all_chunks_complete() {
    let decoder = DecoderChunked::new(48).unwrap();
    let chunk0 = Chunk::new(0, 2, vec![1, 2, 3, 4, 5, 6]);
    let chunk1 = Chunk::new(1, 2, vec![7, 8, 9, 10, 11, 12]);
    let chunks = vec![chunk0, chunk1];
    assert!(decoder.have_all_chunks(&chunks, 2));
}

#[test]
fn test_decoder_have_all_chunks_incomplete() {
    let decoder = DecoderChunked::new(48).unwrap();
    let chunk0 = Chunk::new(0, 3, vec![1, 2, 3, 4, 5, 6]);
    let chunks = vec![chunk0];
    assert!(!decoder.have_all_chunks(&chunks, 3));
}
