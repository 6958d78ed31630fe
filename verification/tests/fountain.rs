use transmitwave_core::error::AudioModemError;
use transmitwave_core::fountain::{
    fountain_block_bytes, fountain_frame_payload, fountain_payload_samples, parse_fountain_block, FountainReceiver,
    FountainStream,
};
use transmitwave_core::framing::{crc16, Frame, FrameEncoder};
use transmitwave_core::fsk::FSK_SYMBOL_SAMPLES;
use transmitwave_core::{PREAMBLE_SAMPLES, SAMPLE_RATE};

fn block_samples(len: usize) -> usize {
    PREAMBLE_SAMPLES + (len / 3) * FSK_SYMBOL_SAMPLES
}

/// Feeds blocks to a receiver as a demodulator would hand them over (as many bytes
/// as the receiver's block window holds).
fn receive(blocks: &[Vec<u8>], block_size: usize) -> Option<Vec<u8>> {
    let mut rx = FountainReceiver::new(block_size);
    let window_bytes = fountain_payload_samples(block_size as u16) / FSK_SYMBOL_SAMPLES * 3;
    let mut end = 0;
    for b in blocks {
        end += 1000;
        let n = window_bytes.min(b.len());
        if let Some(p) = rx.on_block(end, Some(&b[..n])) {
            return Some(p);
        }
    }
    None
}

#[test]
fn test_fountain_block_size_exceeds_u16_max() {
    let result = FountainStream::new(b"Block size test", 1, u16::MAX as usize + 1);
    assert!(result.is_err());
    if let Err(err) = result {
        let err_msg = format!("{:?}", err);
        assert!(err_msg.contains("block_size") || err_msg.contains("exceeds"), "Error should mention block_size or exceeds: {}", err_msg);
    }
}

#[test]
fn test_fountain_block_size_at_u16_max() {
    let result = FountainStream::new(b"Block size at max test", 1, u16::MAX as usize);
    assert!(result.is_ok(), "Should accept block_size at u16::MAX");
}

#[test]
fn test_fountain_default_config() {
    let mut stream = FountainStream::new(b"Default config test", 30, 64).unwrap();
    assert!(stream.next_block().is_some());
}

#[test]
fn fountain_rejects_oversized_payload() {
    assert!(matches!(FountainStream::new(&[0u8; 201], 1, 64), Err(AudioModemError::InvalidInputSize)));
}

#[test]
fn fountain_block_layout() {
    let packet = [0u8, 0, 0, 1, 9, 8, 7];
    let b = fountain_block_bytes(23, 32, &packet);
    assert_eq!(b.len() % 3, 0);
    assert_eq!(&b[..4], &[0, 0, 0, 23]);
    assert_eq!(&b[4..6], &[0, 32]);
    assert_eq!(&b[6..8], &[0, 7]);
    assert_eq!(&b[8..15], &packet);
    let crc = crc16(&packet);
    assert_eq!(&b[15..17], &[(crc >> 8) as u8, crc as u8]);
    assert_eq!(b.len(), 18);
    assert_eq!(b[17], 0);
    assert_eq!(parse_fountain_block(&b), Some((23, 32, packet.to_vec())));
    assert_eq!(parse_fountain_block(&b[..7]), None);
    assert_eq!(parse_fountain_block(&b[..14]), None);
}

#[test]
fn fountain_payload_window() {
    // 32-byte symbols: 44 bytes of packet and metadata, 15 FSK symbols.
    assert_eq!(fountain_payload_samples(32), 15 * FSK_SYMBOL_SAMPLES);
    assert_eq!(fountain_payload_samples(64), 26 * FSK_SYMBOL_SAMPLES);
    assert_eq!(fountain_payload_samples(0), 4 * FSK_SYMBOL_SAMPLES);
}

#[test]
fn fountain_stream_cycles_sources_then_repairs() {
    let data = b"Repair counter increment test with enough data to have multiple source blocks";
    let mut stream = FountainStream::new(data, 0, 16).unwrap();
    let n = stream.source_packet_count();
    assert!(n >= 2);
    stream.set_repairs_per_cycle(2);
    let mut blocks = Vec::new();
    for _ in 0..(2 * (n + 2)) {
        blocks.push(stream.next_block().unwrap());
    }
    // The second cycle repeats the source packets and sends new repair packets.
    for i in 0..n {
        assert_eq!(blocks[i], blocks[n + 2 + i]);
    }
    assert_ne!(blocks[n], blocks[n + 1]);
    assert_ne!(blocks[n], blocks[2 * n + 2]);
    assert_ne!(blocks[n + 1], blocks[2 * n + 3]);
}

#[test]
fn fountain_stream_stops_at_audio_budget() {
    let mut stream = FountainStream::new(b"Sample rate test", 5, 32).unwrap();
    let budget = 5 * SAMPLE_RATE;
    let mut total = 0;
    let mut count = 0;
    while let Some(b) = stream.next_block() {
        assert!(total < budget);
        total += block_samples(b.len());
        count += 1;
    }
    assert!(count > 0);
    assert!(total >= budget);
}

#[test]
fn fountain_roundtrip_bytes() {
    let data = b"Fountain roundtrip test";
    let mut stream = FountainStream::new(data, 0, 32).unwrap();
    let n = stream.source_packet_count();
    stream.set_repairs_per_cycle((n + 1) / 2);
    let blocks: Vec<Vec<u8>> = (0..10).map(|_| stream.next_block().unwrap()).collect();
    assert_eq!(receive(&blocks, 32).unwrap(), data.to_vec());
}

#[test]
fn fountain_roundtrip_with_block_loss() {
    let data = b"Test with some packet loss";
    let mut stream = FountainStream::new(data, 0, 32).unwrap();
    let n = stream.source_packet_count();
    stream.set_repairs_per_cycle(n);
    let blocks: Vec<Vec<u8>> = (0..20).map(|_| stream.next_block().unwrap()).enumerate().filter(|(i, _)| i % 3 != 0).map(|(_, b)| b).collect();
    assert_eq!(receive(&blocks, 32).unwrap(), data.to_vec());
}

#[test]
fn fountain_roundtrip_various_sizes() {
    for data in [b"A".to_vec(), b"Short".to_vec(), b"Medium length data for testing".to_vec(), vec![42u8; 100]] {
        let mut stream = FountainStream::new(&data, 0, 32).unwrap();
        let n = stream.source_packet_count();
        stream.set_repairs_per_cycle((n + 1) / 2);
        let blocks: Vec<Vec<u8>> = (0..n + 5).map(|_| stream.next_block().unwrap()).collect();
        assert_eq!(receive(&blocks, 32).unwrap(), data, "Failed for data length {}", data.len());
    }
}

#[test]
fn fountain_receiver_drops_inconsistent_blocks() {
    let mut rx = FountainReceiver::new(32);
    // Too short, or failed demodulation: skipped, search moves on.
    assert_eq!(rx.on_block(10, Some(&[1, 2, 3])), None);
    assert_eq!(rx.on_block(20, None), None);
    // A block of another stream after the first is ignored.
    let a = fountain_block_bytes(30, 32, &[0u8; 36]);
    let b = fountain_block_bytes(31, 32, &[0u8; 36]);
    assert_eq!(rx.on_block(30, Some(&a)), None);
    assert_eq!(rx.on_block(40, Some(&b)), None);
}

#[test]
fn fountain_receiver_search_windows() {
    let rx = FountainReceiver::new(32);
    let window = PREAMBLE_SAMPLES + 15 * FSK_SYMBOL_SAMPLES;
    assert_eq!(rx.search_window(1_000_000), Some((0, window)));
    assert_eq!(rx.search_window(PREAMBLE_SAMPLES + 5), Some((0, PREAMBLE_SAMPLES + 5)));
    assert_eq!(rx.search_window(PREAMBLE_SAMPLES - 1), None);
    assert_eq!(rx.search_window(0), None);
    let start = 100 + PREAMBLE_SAMPLES;
    assert_eq!(rx.block_region(100, 1_000_000), Some((start, start + 15 * FSK_SYMBOL_SAMPLES)));
    assert_eq!(rx.block_region(100, start + 10), None);
}

#[test]
fn test_fountain_source_packets_are_identical() {
    let data = b"Source packet identity test";
    let mut stream = FountainStream::new(data, 0, 64).unwrap();
    stream.set_repairs_per_cycle(0);
    let mut source_packets: Vec<Vec<u8>> = Vec::new();
    for _ in 0..10 {
        if let Some(block) = stream.next_block() {
            source_packets.push(block);
        } else {
            break;
        }
    }
    assert!(source_packets.len() >= 2, "Should get at least 2 source packets (got {})", source_packets.len());
    let n = stream.source_packet_count();
    if source_packets.len() >= n * 2 {
        let found_repeat = source_packets.iter().skip(n).any(|pkt| pkt == &source_packets[0]);
        assert!(found_repeat, "With no repairs, source packets should repeat in cycles");
    } else {
        assert!(!source_packets.is_empty());
    }
}

#[test]
fn test_fountain_repair_packets_have_unique_data() {
    let data = b"Unique repair packet test - verify different packets have different encoded data";
    let mut stream = FountainStream::new(data, 0, 64).unwrap();
    let n = stream.source_packet_count();
    stream.set_repairs_per_cycle(n.max(1));
    let mut packets: Vec<Vec<u8>> = Vec::new();
    for _ in 0..20 {
        if let Some(block) = stream.next_block() {
            packets.push(block);
        } else {
            break;
        }
    }
    assert!(packets.len() >= 3, "Should collect at least 3 packets (got {})", packets.len());
    let mut unique: Vec<Vec<u8>> = Vec::new();
    for p in &packets {
        if !unique.contains(p) {
            unique.push(p.clone());
        }
    }
    assert!(unique.len() >= 2, "Should see at least 2 unique packets, got {}", unique.len());
}

#[test]
fn test_fountain_packets_differ_from_metadata() {
    let data = b"Test that packet payloads are different, not just metadata";
    let mut stream = FountainStream::new(data, 0, 64).unwrap();
    let n = stream.source_packet_count();
    stream.set_repairs_per_cycle(n.max(1));
    let mut payloads: Vec<Vec<u8>> = Vec::new();
    for _ in 0..30 {
        if let Some(block) = stream.next_block() {
            // Skip the frame length and symbol size that every block repeats.
            payloads.push(block[6..].to_vec());
        } else {
            break;
        }
    }
    assert!(payloads.len() >= 5, "Should collect at least 5 packets (got {})", payloads.len());
    let mut unique: Vec<Vec<u8>> = Vec::new();
    for p in &payloads {
        if !unique.contains(p) {
            unique.push(p.clone());
        }
    }
    assert!(unique.len() >= 2, "Packet payloads should differ, got {} unique", unique.len());
}

#[test]
fn fountain_block_size_message() {
    match FountainStream::new(b"x", 1, 70000) {
        Err(AudioModemError::InvalidConfig(m)) => assert_eq!(m, "block_size 70000 exceeds maximum u16 value (65535)"),
        _ => panic!("expected an invalid configuration"),
    }
}

#[test]
fn fountain_frame_payload_reads_valid_frames_only() {
    let payload = b"object".to_vec();
    let frame = Frame { payload_len: 6, frame_num: 0, fec_mode: 0, payload: payload.clone(), payload_crc: crc16(&payload) };
    let mut bytes = FrameEncoder::encode(&frame).unwrap();
    assert_eq!(fountain_frame_payload(&bytes), Some(payload));
    bytes[9] ^= 1;
    assert_eq!(fountain_frame_payload(&bytes), None);
    assert_eq!(fountain_frame_payload(&[0u8; 3]), None);
}
