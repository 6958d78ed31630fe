//! Audio modem library: the byte-level protocol of a multi-tone FSK / DTMF
//! audio link (frames, CRCs, Reed-Solomon protection, chunking, convolutional
//! coding, fountain block framing), with its behaviour proved by Verus.
use vstd::prelude::*;

pub mod error;
pub mod bytes;
pub mod framing;
pub mod chunking;
pub mod fec;
pub mod transport;
pub mod fsk;
pub mod dtmf;
pub mod trellis;
pub mod symbol_redundancy;
pub mod fhss;
pub mod sync;
pub mod fft_correlation;
pub mod fountain;
pub mod decoder_chunked;
pub mod encoder_chunked;
pub mod block_frame;
pub mod service;

verus! {

/// Audio sample rate in Hz.
pub const SAMPLE_RATE: usize = 16000;
/// Nominal symbol duration in milliseconds.
pub const SYMBOL_DURATION_MS: usize = 100;
/// Samples per nominal symbol.
pub const SAMPLES_PER_SYMBOL: usize = (SAMPLE_RATE * SYMBOL_DURATION_MS) / 1000;
/// Number of simultaneous FSK tones per symbol.
pub const NUM_FSK_TONES: usize = 6;
/// Duration of the preamble and postamble chirps in milliseconds.
pub const SYNC_DURATION_MS: usize = 250;
pub const PREAMBLE_DURATION_MS: usize = SYNC_DURATION_MS;
pub const PREAMBLE_SAMPLES: usize = (SAMPLE_RATE * SYNC_DURATION_MS) / 1000;
pub const POSTAMBLE_DURATION_MS: usize = SYNC_DURATION_MS;
pub const POSTAMBLE_SAMPLES: usize = (SAMPLE_RATE * SYNC_DURATION_MS) / 1000;
/// Silence around the sync signals in milliseconds.
pub const SYNC_SILENCE_MS: usize = 63;
pub const SYNC_SILENCE_SAMPLES: usize = (SAMPLE_RATE * SYNC_SILENCE_MS) / 1000;
/// Reed-Solomon data bytes per block.
pub const RS_DATA_BYTES: usize = 223;
/// Reed-Solomon total bytes per block with full parity.
pub const RS_TOTAL_BYTES: usize = 255;
/// Reed-Solomon parity bytes with full parity.
pub const RS_ECC_BYTES: usize = RS_TOTAL_BYTES - RS_DATA_BYTES;
/// Frame header size: length (2) + frame number (2) + CRC-8 (1) + FEC mode (1) + reserved (2).
pub const FRAME_HEADER_SIZE: usize = 8;
/// Largest payload a frame carries.
pub const MAX_PAYLOAD_SIZE: usize = 200;

} // verus!
