use vstd::prelude::*;
use crate::bytes::{append_slice, copy_range, zeros};
use crate::decoder_chunked::{lemma_data_bits_shape, lemma_packed_data_bits, pack_bits, packed_bytes};
use crate::error::{AudioModemError, Result};
use crate::fec::{FecDecoder, FecEncoder, FecMode, fec_parity, pad_block};
use crate::framing::{crc16, frame_bytes, lemma_frame_roundtrip, spec_decode_frame, Frame, FrameDecoder, FrameEncoder};
use crate::trellis::{byte_bits, data_bits};
use crate::{FRAME_HEADER_SIZE, MAX_PAYLOAD_SIZE, RS_DATA_BYTES, RS_TOTAL_BYTES};

verus! {

// ---------------------------------------------------------------------
// The single-frame block stream: a payload framed, cut into 223-byte pieces
// each protected by a full-parity Reed-Solomon block, sent as bits most
// significant first; the receiver packs the bits back into bytes, pads them to
// whole blocks and reads the frame from the blocks' data parts.

/// FEC mode byte written into the frame header of a block stream (full parity).
pub const BLOCK_FRAME_FEC_MODE: u8 = 32;

/// The frame of a payload in a block stream.
pub open spec fn stream_frame(data: Seq<u8>) -> Seq<u8> {
    frame_bytes(data.len() as u16, 0, BLOCK_FRAME_FEC_MODE, data)
}

/// The protected bytes of a payload (its frame fits one block), when the codec succeeds.
pub open spec fn stream_bytes(data: Seq<u8>) -> Option<Seq<u8>> {
    let frame = stream_frame(data);
    match fec_parity(frame, FecMode::Full) {
        Some(p) => if p.len() == RS_TOTAL_BYTES - RS_DATA_BYTES {
            Some(pad_block(frame).take(RS_DATA_BYTES as int) + p)
        } else {
            None
        },
        None => None,
    }
}

/// The bytes received, padded with zeros while they are not a whole number of blocks
/// and shorter than a header plus 256 bytes.
pub open spec fn padded_stream(bytes: Seq<u8>) -> Seq<u8> {
    let n = bytes.len();
    if n % (RS_TOTAL_BYTES as nat) == 0 || n >= FRAME_HEADER_SIZE + 256 {
        bytes
    } else if n < RS_TOTAL_BYTES {
        bytes + zeros((RS_TOTAL_BYTES - n) as nat)
    } else {
        bytes + zeros((FRAME_HEADER_SIZE + 256 - n) as nat)
    }
}

/// The data parts of the first `n` whole blocks.
pub open spec fn blocks_data(bytes: Seq<u8>, n: nat) -> Seq<u8>
    decreases n,
{
    if n == 0 {
        Seq::empty()
    } else {
        let k = n - 1;
        blocks_data(bytes, k as nat) + bytes.subrange(RS_TOTAL_BYTES * k, RS_TOTAL_BYTES * k + RS_DATA_BYTES)
    }
}

/// What a receiver makes of demodulated bits.
pub open spec fn spec_decode_stream(bits: Seq<bool>) -> core::result::Result<Seq<u8>, AudioModemError> {
    let bytes = padded_stream(packed_bytes(bits));
    if bits.len() == 0 || bytes.len() < RS_TOTAL_BYTES {
        Err(AudioModemError::InvalidFrameSize)
    } else {
        match spec_decode_frame(blocks_data(bytes, bytes.len() / (RS_TOTAL_BYTES as nat))) {
            Ok(f) => Ok(f.3),
            Err(e) => Err(e),
        }
    }
}

/// Unpacks bytes into bits, most significant bit first.
pub fn unpack_bytes(bytes: &[u8]) -> (res: Vec<bool>)
    requires
        8 * bytes@.len() <= usize::MAX,
    ensures
        res@ == data_bits(bytes@),
{
    let mut bits: Vec<bool> = Vec::new();
    let mut j: usize = 0;
    while j < bytes.len()
        invariant
            j <= bytes@.len(),
            bits@ == data_bits(bytes@.take(j as int)),
        decreases bytes.len() - j,
    {
        let byte = bytes[j];
        let mut i: u8 = 0;
        let ghost before = bits@;
        while i < 8
            invariant
                i <= 8,
                bits@ == before + byte_bits(byte).take(i as int),
            decreases 8 - i,
        {
            bits.push((byte >> (7 - i)) & 1 == 1);
            i += 1;
            assert(bits@ =~= before + byte_bits(byte).take(i as int));
        }
        assert(byte_bits(byte).take(8) =~= byte_bits(byte));
        proof {
            let nxt = bytes@.take(j + 1);
            assert(nxt.drop_last() =~= bytes@.take(j as int));
            assert(nxt.last() == byte);
        }
        j += 1;
    }
    assert(bytes@.take(bytes@.len() as int) =~= bytes@);
    bits
}

/// Sender of single-frame block streams.
pub struct BlockEncoder {
    fec: FecEncoder,
}

impl BlockEncoder {
    /// Creates an encoder (always succeeds).
    pub fn new() -> (res: Result<Self>)
        ensures
            res is Ok,
    {
        let fec = match FecEncoder::new() {
            Ok(f) => f,
            Err(e) => return Err(e),
        };
        Ok(Self { fec })
    }

    /// The bits sent for a payload of at most 200 bytes: its frame protected by a
    /// full-parity Reed-Solomon block, most significant bit first.
    pub fn encode_bits(&self, data: &[u8]) -> (res: Result<Vec<bool>>)
        ensures
            data@.len() > MAX_PAYLOAD_SIZE ==> res == Err::<Vec<bool>, AudioModemError>(AudioModemError::InvalidInputSize),
            data@.len() <= MAX_PAYLOAD_SIZE ==> res is Ok && stream_bytes(data@) is Some,
            res matches Ok(b) ==> b@ == data_bits(stream_bytes(data@)->0),
    {
        if data.len() > MAX_PAYLOAD_SIZE {
            return Err(AudioModemError::InvalidInputSize);
        }
        let payload = copy_range(data, 0, data.len());
        assert(payload@ =~= data@);
        let frame = Frame {
            payload_len: data.len() as u16,
            frame_num: 0,
            fec_mode: BLOCK_FRAME_FEC_MODE,
            payload_crc: crc16(data),
            payload,
        };
        let frame_data = match FrameEncoder::encode(&frame) {
            Ok(f) => f,
            Err(e) => return Err(e),
        };
        assert(frame_data@ == stream_frame(data@));
        assert(frame_data@.len() <= RS_DATA_BYTES);
        let encoded = match self.fec.encode(frame_data.as_slice()) {
            Ok(e) => e,
            Err(e) => return Err(e),
        };
        Ok(unpack_bytes(encoded.as_slice()))
    }
}

/// Receiver of single-frame block streams.
pub struct BlockDecoder {
    fec: FecDecoder,
}

/// The receiver's bytes padded with zeros as `padded_stream` says.
fn pad_stream(bytes: &mut Vec<u8>)
    ensures
        final(bytes)@ == padded_stream(old(bytes)@),
{
    let ghost orig = bytes@;
    while bytes.len() % RS_TOTAL_BYTES != 0 && bytes.len() < FRAME_HEADER_SIZE + 256
        invariant
            orig.len() <= bytes@.len(),
            bytes@ == orig + zeros((bytes@.len() - orig.len()) as nat),
            orig.len() % (RS_TOTAL_BYTES as nat) == 0 || orig.len() >= FRAME_HEADER_SIZE + 256 ==> bytes@ == orig,
            orig.len() < RS_TOTAL_BYTES ==> bytes@.len() <= RS_TOTAL_BYTES,
            RS_TOTAL_BYTES < orig.len() < FRAME_HEADER_SIZE + 256 ==> bytes@.len() <= FRAME_HEADER_SIZE + 256,
        decreases FRAME_HEADER_SIZE + 256 - bytes.len(),
    {
        let ghost before = bytes@;
        bytes.push(0);
        assert(bytes@ =~= orig + zeros((bytes@.len() - orig.len()) as nat));
    }
}

impl BlockDecoder {
    /// Creates a decoder (always succeeds).
    pub fn new() -> (res: Result<Self>)
        ensures
            res is Ok,
    {
        let fec = match FecDecoder::new() {
            Ok(f) => f,
            Err(e) => return Err(e),
        };
        Ok(Self { fec })
    }

    /// Recovers the payload from demodulated bits: packs whole bytes, pads them to
    /// whole blocks (up to a header plus 256 bytes), takes the data part of every
    /// whole block and decodes the frame at their start.
    pub fn decode_bits(&self, bits: &[bool]) -> (res: Result<Vec<u8>>)
        ensures
            match res {
                Ok(p) => spec_decode_stream(bits@) == Ok::<Seq<u8>, AudioModemError>(p@),
                Err(e) => spec_decode_stream(bits@) == Err::<Seq<u8>, AudioModemError>(e),
            },
    {
        if bits.len() == 0 {
            return Err(AudioModemError::InvalidFrameSize);
        }
        let mut bytes = pack_bits(bits);
        pad_stream(&mut bytes);
        if bytes.len() < RS_TOTAL_BYTES {
            return Err(AudioModemError::InvalidFrameSize);
        }
        let n = bytes.len() / RS_TOTAL_BYTES;
        assert(RS_TOTAL_BYTES * n <= bytes@.len()) by (nonlinear_arith)
            requires
                n == bytes@.len() / (RS_TOTAL_BYTES as nat),
        ;
        let mut decoded: Vec<u8> = Vec::new();
        let mut k: usize = 0;
        while k < n
            invariant
                n == bytes@.len() / (RS_TOTAL_BYTES as nat),
                RS_TOTAL_BYTES * n <= bytes@.len(),
                bytes@.len() <= usize::MAX,
                k <= n,
                decoded@ == blocks_data(bytes@, k as nat),
                decoded@.len() == RS_DATA_BYTES * k,
            decreases n - k,
        {
            assert(k * RS_TOTAL_BYTES + RS_TOTAL_BYTES <= bytes@.len()) by (nonlinear_arith)
                requires
                    k < n,
                    RS_TOTAL_BYTES * n <= bytes@.len(),
            ;
            let start = k * RS_TOTAL_BYTES;
            let block = copy_range(bytes.as_slice(), start, start + RS_TOTAL_BYTES);
            let data_part = match self.fec.decode(block.as_slice()) {
                Ok(d) => d,
                Err(e) => return Err(e),
            };
            assert(data_part@ =~= bytes@.subrange(start as int, start + RS_DATA_BYTES));
            append_slice(&mut decoded, data_part.as_slice());
            k += 1;
        }
        if decoded.len() < FRAME_HEADER_SIZE {
            return Err(AudioModemError::InvalidFrameSize);
        }
        match FrameDecoder::decode(decoded.as_slice()) {
            Ok(frame) => Ok(frame.payload),
            Err(e) => Err(e),
        }
    }
}

/// Decoding a frame reads only the frame's own bytes: trailing bytes change nothing.
proof fn lemma_frame_with_trailer(data: Seq<u8>, trailer: Seq<u8>)
    requires
        data.len() <= MAX_PAYLOAD_SIZE,
    ensures
        spec_decode_frame(stream_frame(data) + trailer) == spec_decode_frame(stream_frame(data)),
{
    let f = stream_frame(data);
    let g = f + trailer;
    lemma_frame_roundtrip(data.len() as u16, 0, BLOCK_FRAME_FEC_MODE, data);
    assert(g.take(4) =~= f.take(4));
    assert(g.subrange(FRAME_HEADER_SIZE as int, FRAME_HEADER_SIZE + data.len()) =~= f.subrange(FRAME_HEADER_SIZE as int, FRAME_HEADER_SIZE + data.len()));
    assert(forall|i: int| 0 <= i < f.len() ==> g[i] == f[i]);
}

/// The data parts of the blocks start with the data part of the first block.
proof fn lemma_blocks_data_prefix(bytes: Seq<u8>, n: nat)
    requires
        n >= 1,
        bytes.len() >= RS_TOTAL_BYTES * n,
    ensures
        blocks_data(bytes, n).len() == RS_DATA_BYTES * n,
        blocks_data(bytes, n) == bytes.take(RS_DATA_BYTES as int) + blocks_data(bytes, n).skip(RS_DATA_BYTES as int),
    decreases n,
{
    if n > 1 {
        lemma_blocks_data_prefix(bytes, (n - 1) as nat);
        let prev = blocks_data(bytes, (n - 1) as nat);
        let cur = blocks_data(bytes, n);
        assert(cur.take(RS_DATA_BYTES as int) =~= prev.take(RS_DATA_BYTES as int));
        assert(cur =~= cur.take(RS_DATA_BYTES as int) + cur.skip(RS_DATA_BYTES as int));
        assert(prev.take(RS_DATA_BYTES as int) =~= bytes.take(RS_DATA_BYTES as int));
    } else {
        assert(blocks_data(bytes, 0) =~= Seq::<u8>::empty());
        assert(blocks_data(bytes, 1) =~= bytes.take(RS_DATA_BYTES as int));
    }
}

/// The bits a sender emits for a payload, followed by any further bits, decode to the
/// payload.
pub proof fn lemma_stream_roundtrip(data: Seq<u8>, extra: Seq<bool>)
    requires
        data.len() <= MAX_PAYLOAD_SIZE,
        stream_bytes(data) is Some,
    ensures
        spec_decode_stream(data_bits(stream_bytes(data)->0) + extra) == Ok::<Seq<u8>, AudioModemError>(data),
{
    let sb = stream_bytes(data)->0;
    let f = stream_frame(data);
    let bits = data_bits(sb) + extra;
    assert(sb.len() == RS_TOTAL_BYTES);
    lemma_data_bits_shape(sb);
    lemma_packed_data_bits(sb);
    let packed = packed_bytes(bits);
    assert(packed.len() >= RS_TOTAL_BYTES);
    assert forall|k: int| 0 <= k < RS_TOTAL_BYTES implies packed[k] == sb[k] by {
        assert(bits.subrange(8 * k, 8 * k + 8) =~= data_bits(sb).subrange(8 * k, 8 * k + 8));
        assert(packed_bytes(data_bits(sb))[k] == sb[k]);
    }
    let bytes = padded_stream(packed);
    assert(bytes.len() >= RS_TOTAL_BYTES);
    assert forall|k: int| 0 <= k < RS_TOTAL_BYTES implies bytes[k] == sb[k] by {}
    let n = bytes.len() / (RS_TOTAL_BYTES as nat);
    lemma_blocks_data_prefix(bytes, n);
    let bd = blocks_data(bytes, n);
    assert(bytes.take(RS_DATA_BYTES as int) =~= f + zeros((RS_DATA_BYTES - f.len()) as nat));
    assert(bd =~= f + (zeros((RS_DATA_BYTES - f.len()) as nat) + bd.skip(RS_DATA_BYTES as int)));
    lemma_frame_with_trailer(data, zeros((RS_DATA_BYTES - f.len()) as nat) + bd.skip(RS_DATA_BYTES as int));
    lemma_frame_roundtrip(data.len() as u16, 0, BLOCK_FRAME_FEC_MODE, data);
}

} // verus!
