use vstd::prelude::*;
use crate::bytes::{be16, be16_bytes, lemma_be16_roundtrip, split_be16, join_be16, append_slice, copy_range, zero_bytes, zeros};
use crate::error::{AudioModemError, Result};
use crate::fec::{FecEncoder, FecDecoder, FecMode, mode_parity, mode_for_size, mode_from_byte, fec_parity, pad_block, lemma_mode_byte_roundtrip};
use crate::framing::{Frame, FrameEncoder, FrameDecoder, crc16, spec_crc16, frame_bytes, frame_header, header_prefix, spec_decode_header, spec_decode_frame, lemma_frame_roundtrip};
use crate::{MAX_PAYLOAD_SIZE, RS_DATA_BYTES};

verus! {

// ---------------------------------------------------------------------
// Shortened Reed-Solomon protection of a frame
//
// Layout: 2-byte big-endian frame length, then the frame bytes, then the
// parity bytes of the frame zero-extended (in front) to a 223-byte block.

/// The frame an encoder builds for a payload: frame number 0, the FEC mode chosen
/// from the frame size, and that mode's byte in the header.
pub open spec fn payload_frame(data: Seq<u8>) -> Seq<u8> {
    let mode = mode_for_size(data.len() + 10);
    frame_bytes(data.len() as u16, 0, mode_parity(mode) as u8, data)
}

/// The bytes protecting a payload, when the Reed-Solomon codec succeeds.
pub open spec fn protected_bytes(data: Seq<u8>) -> Option<Seq<u8>> {
    let mode = mode_for_size(data.len() + 10);
    let frame = payload_frame(data);
    match fec_parity(zeros((RS_DATA_BYTES - frame.len()) as nat) + frame, mode) {
        Some(p) => if p.len() == mode_parity(mode) {
            Some(be16_bytes(frame.len() as u16) + frame + p)
        } else {
            None
        },
        None => None,
    }
}

/// Frames a payload and protects it with shortened Reed-Solomon parity.
pub fn protect_payload(data: &[u8]) -> (res: Result<Vec<u8>>)
    ensures
        data@.len() > MAX_PAYLOAD_SIZE ==> res == Err::<Vec<u8>, AudioModemError>(AudioModemError::InvalidInputSize),
        data@.len() <= MAX_PAYLOAD_SIZE ==> res is Ok && protected_bytes(data@) is Some,
        res matches Ok(v) ==> v@ == protected_bytes(data@)->0,
        res matches Ok(v) ==> v@.len() == 2 + data@.len() + 10 + mode_parity(mode_for_size(data@.len() + 10)),
{
    if data.len() > MAX_PAYLOAD_SIZE {
        return Err(AudioModemError::InvalidInputSize);
    }
    let payload = copy_range(data, 0, data.len());
    assert(payload@ == data@);
    let frame_data_size = 8 + data.len() + 2;
    let fec_mode = FecMode::from_data_size(frame_data_size);
    let payload_crc = crc16(payload.as_slice());
    let frame = Frame {
        payload_len: data.len() as u16,
        frame_num: 0,
        fec_mode: fec_mode.to_u8(),
        payload,
        payload_crc,
    };
    let frame_data = match FrameEncoder::encode(&frame) {
        Ok(f) => f,
        Err(e) => return Err(e),
    };
    assert(frame_data@ == payload_frame(data@));
    let mut encoded_data: Vec<u8> = Vec::new();
    let frame_len = frame_data.len() as u16;
    let (h0, h1) = split_be16(frame_len);
    encoded_data.push(h0);
    encoded_data.push(h1);
    // The frame (at most 210 bytes) fits one 223-byte block.
    let chunk_len = frame_data.len();
    let padding_needed = RS_DATA_BYTES - chunk_len;
    let mut padded = zero_bytes(padding_needed);
    append_slice(&mut padded, frame_data.as_slice());
    let encoder = FecEncoder;
    let fec_chunk = match encoder.encode_with_mode(padded.as_slice(), fec_mode) {
        Ok(c) => c,
        Err(e) => return Err(e),
    };
    assert(pad_block(padded@).take(RS_DATA_BYTES as int) == padded@);
    let tail = copy_range(fec_chunk.as_slice(), padding_needed, fec_chunk.len());
    assert(tail@ == frame_data@ + fec_parity(padded@, fec_mode)->0);
    append_slice(&mut encoded_data, tail.as_slice());
    Ok(encoded_data)
}

/// The first frame block's length for a declared frame length.
pub open spec fn first_block_len(frame_len: nat) -> nat {
    if frame_len < RS_DATA_BYTES { frame_len } else { RS_DATA_BYTES as nat }
}

/// The declared frame length of protected bytes.
pub open spec fn declared_len(bytes: Seq<u8>) -> nat {
    be16(bytes[0], bytes[1]) as nat
}

/// Whether mode `m` explains protected bytes: its first block fits and the frame
/// header in it is intact and names `m`.
pub open spec fn mode_fits(bytes: Seq<u8>, m: FecMode) -> bool {
    let first = first_block_len(declared_len(bytes));
    &&& 2 + first + mode_parity(m) <= bytes.len()
    &&& first >= 8
    &&& spec_decode_header(bytes.subrange(2, (2 + first) as int)) matches Ok((_, _, fb))
    &&& mode_from_byte(fb) == Some(m)
}

/// The FEC mode found in protected bytes, trying Light, Medium, then Full.
pub open spec fn detected_mode(bytes: Seq<u8>) -> Option<FecMode> {
    if mode_fits(bytes, FecMode::Light) {
        Some(FecMode::Light)
    } else if mode_fits(bytes, FecMode::Medium) {
        Some(FecMode::Medium)
    } else if mode_fits(bytes, FecMode::Full) {
        Some(FecMode::Full)
    } else {
        None
    }
}

/// The data parts of the blocks after the first, as far as they are present.
pub open spec fn later_blocks(bytes: Seq<u8>, idx: nat, remaining: nat, parity: nat) -> Seq<u8>
    decreases remaining,
{
    if remaining == 0 {
        Seq::empty()
    } else {
        let c: nat = if remaining < RS_DATA_BYTES { remaining } else { RS_DATA_BYTES as nat };
        if idx + c + parity > bytes.len() {
            Seq::empty()
        } else {
            bytes.subrange(idx as int, (idx + c) as int) + later_blocks(bytes, idx + c + parity, (remaining - c) as nat, parity)
        }
    }
}

/// What recovering the payload from protected bytes gives.
pub open spec fn spec_recover(bytes: Seq<u8>) -> core::result::Result<Seq<u8>, AudioModemError> {
    if bytes.len() < 2 {
        Err(AudioModemError::InvalidFrameSize)
    } else {
        match detected_mode(bytes) {
            None => Err(AudioModemError::FecDecodeFailure),
            Some(m) => {
                let f = declared_len(bytes);
                let first = first_block_len(f);
                let p = mode_parity(m);
                let data = bytes.subrange(2, (2 + first) as int) + later_blocks(bytes, 2 + first + p, (f - first) as nat, p);
                match spec_decode_frame(data) {
                    Err(e) => Err(e),
                    Ok((len, _, _, payload, _)) => if len > data.len() {
                        Err(AudioModemError::InvalidFrameSize)
                    } else {
                        Ok(payload)
                    },
                }
            },
        }
    }
}

/// Tries one FEC mode on the first block; returns the block's frame data if the
/// mode fits.
fn try_first_block(decoder: &FecDecoder, bytes: &[u8], first_chunk_len: usize, mode: FecMode) -> (res: Option<Vec<u8>>)
    requires
        bytes@.len() >= 2,
        first_chunk_len == first_block_len(declared_len(bytes@)),
    ensures
        res is Some <==> mode_fits(bytes@, mode),
        res matches Some(v) ==> v@ == bytes@.subrange(2, 2 + first_chunk_len),
{
    let byte_idx: usize = 2;
    let padding_needed_first = RS_DATA_BYTES - first_chunk_len;
    let parity_bytes = mode.parity_bytes();
    let encoded_len = first_chunk_len + parity_bytes;
    if byte_idx + encoded_len <= bytes.len() {
        let shortened_block = copy_range(bytes, byte_idx, byte_idx + encoded_len);
        let mut full_block = zero_bytes(padding_needed_first);
        append_slice(&mut full_block, shortened_block.as_slice());
        if let Ok(decoded_chunk) = decoder.decode_with_mode(full_block.as_slice(), mode) {
            let decoded_data = copy_range(decoded_chunk.as_slice(), padding_needed_first, decoded_chunk.len());
            assert(decoded_data@ =~= bytes@.subrange(2, 2 + first_chunk_len));
            if decoded_data.len() >= 8 {
                if let Ok((_, _, fec_mode_byte)) = FrameDecoder::decode_header(decoded_data.as_slice()) {
                    if let Ok(parsed_mode) = FecMode::from_u8(fec_mode_byte) {
                        if parsed_mode == mode {
                            return Some(decoded_data);
                        }
                    }
                }
            }
        }
    }
    None
}

/// Recovers the payload from shortened-Reed-Solomon protected bytes: reads the
/// frame length, finds the FEC mode from the first block's header, gathers the
/// blocks' data and decodes the frame.
pub fn recover_payload(bytes: &[u8]) -> (res: Result<Vec<u8>>)
    ensures
        match res {
            Ok(v) => spec_recover(bytes@) == Ok::<Seq<u8>, AudioModemError>(v@),
            Err(e) => spec_recover(bytes@) == Err::<Seq<u8>, AudioModemError>(e),
        },
{
    if bytes.len() < 2 {
        return Err(AudioModemError::InvalidFrameSize);
    }
    let decoder = FecDecoder;
    let frame_len = join_be16(bytes[0], bytes[1]);
    let first_chunk_len: usize = if (frame_len as usize) < RS_DATA_BYTES { frame_len as usize } else { RS_DATA_BYTES };
    let (first_decoded, detected_fec_mode) = if let Some(d) = try_first_block(&decoder, bytes, first_chunk_len, FecMode::Light) {
        (d, FecMode::Light)
    } else if let Some(d) = try_first_block(&decoder, bytes, first_chunk_len, FecMode::Medium) {
        (d, FecMode::Medium)
    } else if let Some(d) = try_first_block(&decoder, bytes, first_chunk_len, FecMode::Full) {
        (d, FecMode::Full)
    } else {
        return Err(AudioModemError::FecDecodeFailure);
    };
    assert(detected_mode(bytes@) == Some(detected_fec_mode));
    let parity_bytes = detected_fec_mode.parity_bytes();
    let mut decoded_data = first_decoded;
    let mut byte_idx: usize = 2 + first_chunk_len + parity_bytes;
    let mut remaining_len: usize = frame_len as usize - first_chunk_len;
    let ghost start_idx = byte_idx as nat;
    let ghost start_rem = remaining_len as nat;
    let ghost first_part = decoded_data@;
    while remaining_len > 0
        invariant_except_break
            byte_idx <= bytes@.len(),
            remaining_len <= 65535,
            parity_bytes == mode_parity(detected_fec_mode),
            first_part + later_blocks(bytes@, start_idx, start_rem, parity_bytes as nat)
                == decoded_data@ + later_blocks(bytes@, byte_idx as nat, remaining_len as nat, parity_bytes as nat),
        ensures
            first_part + later_blocks(bytes@, start_idx, start_rem, parity_bytes as nat) == decoded_data@,
        decreases remaining_len,
    {
        let chunk_len = if remaining_len < RS_DATA_BYTES { remaining_len } else { RS_DATA_BYTES };
        let padding_needed = RS_DATA_BYTES - chunk_len;
        let encoded_len = chunk_len + parity_bytes;
        if encoded_len > bytes.len() - byte_idx {
            assert(later_blocks(bytes@, byte_idx as nat, remaining_len as nat, parity_bytes as nat) == Seq::<u8>::empty());
            assert(decoded_data@ + Seq::<u8>::empty() == decoded_data@);
            break;
        }
        let shortened_block = copy_range(bytes, byte_idx, byte_idx + encoded_len);
        let ghost old_idx = byte_idx;
        let ghost old_rem = remaining_len;
        byte_idx += encoded_len;
        let mut full_block = zero_bytes(padding_needed);
        append_slice(&mut full_block, shortened_block.as_slice());
        match decoder.decode_with_mode(full_block.as_slice(), detected_fec_mode) {
            Ok(decoded_chunk) => {
                let part = copy_range(decoded_chunk.as_slice(), padding_needed, decoded_chunk.len());
                assert(part@ =~= bytes@.subrange(old_idx as int, (old_idx + chunk_len) as int));
                let ghost before = decoded_data@;
                append_slice(&mut decoded_data, part.as_slice());
                assert(before + later_blocks(bytes@, old_idx as nat, old_rem as nat, parity_bytes as nat)
                    == decoded_data@ + later_blocks(bytes@, byte_idx as nat, (old_rem - chunk_len) as nat, parity_bytes as nat));
            },
            Err(_) => {
                return Err(AudioModemError::FecDecodeFailure);
            },
        }
        remaining_len -= chunk_len;
    }
    if decoded_data.len() == 0 {
        return Err(AudioModemError::FecDecodeFailure);
    }
    let frame = match FrameDecoder::decode(decoded_data.as_slice()) {
        Ok(f) => f,
        Err(e) => return Err(e),
    };
    if frame.payload_len as usize > decoded_data.len() {
        return Err(AudioModemError::InvalidFrameSize);
    }
    Ok(frame.payload)
}

#[verifier::spinoff_prover]
#[verifier::rlimit(40)]
proof fn lemma_payload_frame_header(data: Seq<u8>)
    requires
        data.len() <= MAX_PAYLOAD_SIZE,
    ensures
        payload_frame(data).len() == data.len() + 10,
        spec_decode_header(payload_frame(data)) == Ok::<(u16, u16, u8), AudioModemError>(
            (data.len() as u16, 0u16, mode_parity(mode_for_size(data.len() + 10)) as u8),
        ),
        spec_decode_frame(payload_frame(data)) == Ok::<(u16, u16, u8, Seq<u8>, u16), AudioModemError>(
            (data.len() as u16, 0u16, mode_parity(mode_for_size(data.len() + 10)) as u8, data, spec_crc16(data)),
        ),
{
    let mode = mode_for_size(data.len() + 10);
    let fb = mode_parity(mode) as u8;
    lemma_frame_roundtrip(data.len() as u16, 0, fb, data);
    let frame = payload_frame(data);
    let r = spec_decode_frame(frame);
    let h = spec_decode_header(frame);
    assert(h is Ok) by {
        if h is Err {
            assert(r is Err);
        }
    }
    assert(h == Ok::<(u16, u16, u8), AudioModemError>((data.len() as u16, 0u16, fb)));
}

proof fn lemma_detected_mode(data: Seq<u8>, bytes: Seq<u8>)
    requires
        data.len() <= MAX_PAYLOAD_SIZE,
        bytes.len() >= 2 + data.len() + 10 + mode_parity(mode_for_size(data.len() + 10)),
        declared_len(bytes) == data.len() + 10,
        bytes.subrange(2, (2 + data.len() + 10) as int) == payload_frame(data),
    ensures
        detected_mode(bytes) == Some(mode_for_size(data.len() + 10)),
{
    let mode = mode_for_size(data.len() + 10);
    lemma_payload_frame_header(data);
    lemma_mode_byte_roundtrip(mode);
    assert(first_block_len(declared_len(bytes)) == data.len() + 10);
    assert(mode_fits(bytes, mode));
    assert(mode_from_byte(mode_parity(mode) as u8) == Some(mode));
    if mode != FecMode::Light {
        assert(!mode_fits(bytes, FecMode::Light));
    }
    if mode == FecMode::Full {
        assert(!mode_fits(bytes, FecMode::Medium));
    }
}

/// Recovering the payload from its protected bytes, followed by any further bytes
/// (such as symbol padding), gives back the payload.
pub proof fn lemma_protect_recover(data: Seq<u8>, extra: Seq<u8>)
    requires
        data.len() <= MAX_PAYLOAD_SIZE,
        protected_bytes(data) is Some,
    ensures
        spec_recover(protected_bytes(data)->0 + extra) == Ok::<Seq<u8>, AudioModemError>(data),
{
    let mode = mode_for_size(data.len() + 10);
    let frame = payload_frame(data);
    let p = fec_parity(zeros((RS_DATA_BYTES - frame.len()) as nat) + frame, mode)->0;
    let bytes = protected_bytes(data)->0 + extra;
    lemma_payload_frame_header(data);
    let f = frame.len();
    lemma_be16_roundtrip(f as u16);
    assert(declared_len(bytes) == f);
    assert(bytes.subrange(2, (2 + f) as int) =~= frame);
    lemma_detected_mode(data, bytes);
    assert(later_blocks(bytes, 2 + f + mode_parity(mode), 0, mode_parity(mode)) == Seq::<u8>::empty());
    assert(frame + Seq::<u8>::empty() == frame);
}

} // verus!
