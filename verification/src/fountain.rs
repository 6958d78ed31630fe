use vstd::prelude::*;
use crate::bytes::{be16, be16_bytes, split_be16, join_be16, append_slice, copy_range, zero_bytes, zeros};
use crate::error::{AudioModemError, Result, append_decimal, decimal};
use vstd::string::StringExecFns;
use crate::framing::{Frame, FrameEncoder, FrameDecoder, crc16, spec_crc16, frame_bytes, spec_decode_frame};
use crate::fsk::{FSK_BYTES_PER_SYMBOL, FSK_SYMBOL_SAMPLES, symbol_padding};
use crate::{MAX_PAYLOAD_SIZE, PREAMBLE_SAMPLES, SAMPLE_RATE};

verus! {

// ---------------------------------------------------------------------
// Fountain (RaptorQ) mode: every audio block carries one RaptorQ packet
// with enough metadata for a receiver to join the stream at any block.
//
// Block layout: frame length (u32 BE), symbol size (u16 BE), packet length
// (u16 BE), serialized packet, CRC-16 of the packet (u16 BE), zero padding
// to whole FSK symbols.

/// Largest frame a payload yields: 8 header bytes, 200 payload bytes, 2 CRC bytes.
pub const MAX_FRAME_BYTES: usize = 210;

/// Big-endian bytes of a 32-bit value.
pub open spec fn be32_bytes(v: u32) -> Seq<u8> {
    seq![(v / 0x1000000) as u8, ((v / 0x10000) % 256) as u8, ((v / 256) % 256) as u8, (v % 256) as u8]
}

/// Big-endian value of four bytes.
pub open spec fn be32(b0: u8, b1: u8, b2: u8, b3: u8) -> u32 {
    (b0 as int * 0x1000000 + b1 as int * 0x10000 + b2 as int * 256 + b3 as int) as u32
}

/// The bytes of a fountain block carrying a serialized packet.
pub open spec fn fountain_block(frame_len: u32, symbol_size: u16, packet: Seq<u8>) -> Seq<u8> {
    let body = be32_bytes(frame_len) + be16_bytes(symbol_size) + be16_bytes((packet.len() % 65536) as u16) + packet
        + be16_bytes(spec_crc16(packet));
    body + zeros(symbol_padding(body.len()))
}

/// What a receiver reads from a demodulated block: frame length, symbol size and
/// packet, when the block is long enough for them.
pub open spec fn parse_block(b: Seq<u8>) -> Option<(u32, u16, Seq<u8>)> {
    if b.len() < 8 {
        None
    } else {
        let plen = be16(b[6], b[7]) as int;
        if b.len() - 8 < plen {
            None
        } else {
            Some((be32(b[0], b[1], b[2], b[3]), be16(b[4], b[5]), b.subrange(8, 8 + plen)))
        }
    }
}

/// The packet a demodulated block carries (empty when it cannot be read).
pub open spec fn block_packet(b: Seq<u8>) -> Seq<u8> {
    match parse_block(b) {
        Some((_, _, p)) => p,
        None => Seq::empty(),
    }
}

/// Audio samples of one received block's payload for a symbol size: the packet plus
/// twelve metadata bytes, in whole FSK symbols.
pub open spec fn payload_samples(symbol_size: u16) -> nat {
    ((symbol_size + 12 + 2) / 3) as nat * FSK_SYMBOL_SAMPLES as nat
}

/// Audio samples of one transmitted block: preamble then one FSK symbol per three bytes.
pub open spec fn block_samples(block_len: nat) -> nat {
    PREAMBLE_SAMPLES as nat + (block_len / 3) * FSK_SYMBOL_SAMPLES as nat
}

proof fn lemma_be32_roundtrip(v: u32)
    ensures
        be32(be32_bytes(v)[0], be32_bytes(v)[1], be32_bytes(v)[2], be32_bytes(v)[3]) == v,
{
}

/// Builds the bytes of a fountain block.
pub fn fountain_block_bytes(frame_len: u32, symbol_size: u16, packet: &[u8]) -> (res: Vec<u8>)
    ensures
        res@ == fountain_block(frame_len, symbol_size, packet@),
        res@.len() % 3 == 0,
{
    let mut out: Vec<u8> = Vec::new();
    out.push((frame_len / 0x1000000) as u8);
    out.push(((frame_len / 0x10000) % 256) as u8);
    out.push(((frame_len / 256) % 256) as u8);
    out.push((frame_len % 256) as u8);
    let (s0, s1) = split_be16(symbol_size);
    out.push(s0);
    out.push(s1);
    let plen = packet.len();
    assert((plen as u16) as nat == plen % 65536) by (bit_vector);
    let (l0, l1) = split_be16(plen as u16);
    out.push(l0);
    out.push(l1);
    append_slice(&mut out, packet);
    let crc = crc16(packet);
    let (c0, c1) = split_be16(crc);
    out.push(c0);
    out.push(c1);
    let ghost body = out@;
    assert(body =~= be32_bytes(frame_len) + be16_bytes(symbol_size) + be16_bytes((packet@.len() % 65536) as u16) + packet@
        + be16_bytes(spec_crc16(packet@)));
    let remainder = out.len() % FSK_BYTES_PER_SYMBOL;
    if remainder != 0 {
        let pad = zero_bytes(FSK_BYTES_PER_SYMBOL - remainder);
        append_slice(&mut out, pad.as_slice());
    } else {
        assert(body + zeros(0) =~= body);
    }
    out
}

/// Reads the frame length, symbol size and packet of a demodulated block.
pub fn parse_fountain_block(block: &[u8]) -> (res: Option<(u32, u16, Vec<u8>)>)
    ensures
        match res {
            Some(r) => parse_block(block@) == Some((r.0, r.1, r.2@)),
            None => parse_block(block@) is None,
        },
{
    if block.len() < 8 {
        return None;
    }
    let frame_len: u32 = (block[0] as u32) * 0x1000000 + (block[1] as u32) * 0x10000 + (block[2] as u32) * 256 + (block[3] as u32);
    let symbol_size = join_be16(block[4], block[5]);
    let plen = join_be16(block[6], block[7]) as usize;
    if block.len() - 8 < plen {
        return None;
    }
    let packet = copy_range(block, 8, 8 + plen);
    Some((frame_len, symbol_size, packet))
}

/// A fountain block reads back as the metadata and packet it was built from.
pub proof fn lemma_block_roundtrip(frame_len: u32, symbol_size: u16, packet: Seq<u8>)
    requires
        packet.len() < 65536,
    ensures
        parse_block(fountain_block(frame_len, symbol_size, packet)) == Some((frame_len, symbol_size, packet)),
{
    let b = fountain_block(frame_len, symbol_size, packet);
    let ssb = be16_bytes(symbol_size);
    let lb = be16_bytes((packet.len() % 65536) as u16);
    assert(b[4] == ssb[0] && b[5] == ssb[1]);
    assert(b[6] == lb[0] && b[7] == lb[1]);
    crate::bytes::lemma_be16_roundtrip(symbol_size);
    crate::bytes::lemma_be16_roundtrip((packet.len() % 65536) as u16);
    lemma_be32_roundtrip(frame_len);
    assert(b.subrange(8, (8 + packet.len()) as int) =~= packet);
}

/// Receiver samples of one block's payload for a symbol size.
pub fn fountain_payload_samples(symbol_size: u16) -> (res: usize)
    ensures
        res == payload_samples(symbol_size),
{
    let packet_bytes = symbol_size as usize + 12;
    let symbols = (packet_bytes + FSK_BYTES_PER_SYMBOL - 1) / FSK_BYTES_PER_SYMBOL;
    assert(symbols <= 21850);
    symbols * FSK_SYMBOL_SAMPLES
}


// ---------------------------------------------------------------------
// RaptorQ (trusted items)

#[verifier::external_type_specification]
#[verifier::external_body]
pub struct ExRaptorqEncoder(raptorq::Encoder);

#[verifier::external_type_specification]
#[verifier::external_body]
pub struct ExRaptorqDecoder(raptorq::Decoder);

/// RaptorQ symbol size for a maximum packet size (`with_defaults` aligns sizes of 64
/// and more down to a multiple of 8).
pub open spec fn rq_symbol_size(max_packet_size: u16) -> nat {
    if max_packet_size >= 64 { (max_packet_size - max_packet_size % 8) as nat } else { max_packet_size as nat }
}

/// A RaptorQ encoder with the object and the packet size it was created for.
pub struct RqEncoder {
    inner: raptorq::Encoder,
    data: Vec<u8>,
    max_packet_size: u16,
}

/// The serialized source packets that `raptorq::Encoder::with_defaults(data,
/// max_packet_size)` gives with `get_encoded_packets(0)`.
pub uninterp spec fn rq_sources(data: Seq<u8>, max_packet_size: u16) -> Seq<Seq<u8>>;

/// How many source blocks `raptorq::Encoder::with_defaults(data, max_packet_size)` has.
pub uninterp spec fn rq_blocks(data: Seq<u8>, max_packet_size: u16) -> nat;

/// The serialized repair packet `repair_id` of source block `block` of
/// `raptorq::Encoder::with_defaults(data, max_packet_size)`.
pub uninterp spec fn rq_repair(data: Seq<u8>, max_packet_size: u16, block: nat, repair_id: u32) -> Seq<u8>;

/// Calls `raptorq::Encoder::with_defaults` (object of `data`, packets of at most
/// `max_packet_size` bytes). Claims only that the result records the two arguments.
/// The bounds keep the call clear of its assertions (a zero packet size, an empty
/// object, too many source blocks).
#[verifier::external_body]
fn rq_encoder(data: Vec<u8>, max_packet_size: u16) -> (res: RqEncoder)
    requires
        1 <= data@.len() <= MAX_FRAME_BYTES,
        max_packet_size >= 1,
    ensures
        res.data@ == data@,
        res.max_packet_size == max_packet_size,
{
    RqEncoder { inner: raptorq::Encoder::with_defaults(&data, max_packet_size), data, max_packet_size }
}

/// Calls `raptorq::Encoder::get_encoded_packets(0)` (the source packets of every
/// block, no repair packets) and serializes each packet. Claims: the result is the
/// named one, and holds at least one packet (a non-empty object has at least one
/// block of at least one source symbol).
#[verifier::external_body]
fn rq_source_packets(encoder: &RqEncoder) -> (res: Vec<Vec<u8>>)
    requires
        1 <= encoder.data@.len(),
    ensures
        res.deep_view() == rq_sources(encoder.data@, encoder.max_packet_size),
        res@.len() >= 1,
{
    let packets = encoder.inner.get_encoded_packets(0);
    let mut out = Vec::new();
    for p in packets.iter() {
        out.push(p.serialize());
    }
    out
}

/// Calls `raptorq::Encoder::get_block_encoders` and returns how many source blocks
/// the encoder has. Claims: the named count, at least one for a non-empty object.
#[verifier::external_body]
fn rq_block_count(encoder: &RqEncoder) -> (res: usize)
    requires
        1 <= encoder.data@.len(),
    ensures
        res == rq_blocks(encoder.data@, encoder.max_packet_size),
        res >= 1,
{
    encoder.inner.get_block_encoders().len()
}

/// Calls `SourceBlockEncoder::repair_packets(first_repair_id, 1)` on source block
/// `block` and serializes the one packet it yields; `None` when there is no such
/// block. Claims: the packet is the named one. The bounds keep repair symbol ids
/// below 2^24 (an assertion of `PayloadId::new`): an object of at most 210 bytes has
/// at most 210 source symbols per block.
#[verifier::external_body]
fn rq_repair_packet(encoder: &RqEncoder, block: usize, first_repair_id: u32) -> (res: Option<Vec<u8>>)
    requires
        first_repair_id <= MAX_REPAIR_ID,
        encoder.data@.len() <= MAX_FRAME_BYTES,
    ensures
        res is Some <==> block < rq_blocks(encoder.data@, encoder.max_packet_size),
        res matches Some(p) ==> p@ == rq_repair(encoder.data@, encoder.max_packet_size, block as nat, first_repair_id),
{
    match encoder.inner.get_block_encoders().get(block) {
        Some(b) => match b.repair_packets(first_repair_id, 1).first() {
            Some(p) => Some(p.serialize()),
            None => None,
        },
        None => None,
    }
}

/// A RaptorQ decoder with the object length and packet size it was created for, and
/// the packets handed to it so far.
pub struct RqDecoder {
    inner: raptorq::Decoder,
    transfer_length: u64,
    max_packet_size: u16,
    handed: Ghost<Seq<Seq<u8>>>,
}

/// Calls `ObjectTransmissionInformation::with_defaults(transfer_length, max_packet_size)`
/// and `raptorq::Decoder::new` on it. Claims only that the result records the two
/// parameters. The bounds keep the call clear of a division by zero (empty object or
/// zero packet size) and give a single source block.
#[verifier::external_body]
fn rq_decoder(transfer_length: u64, max_packet_size: u16) -> (res: RqDecoder)
    requires
        1 <= transfer_length <= MAX_FRAME_BYTES,
        max_packet_size >= 1,
    ensures
        res.transfer_length == transfer_length,
        res.max_packet_size == max_packet_size,
        res.handed@ == Seq::<Seq<u8>>::empty(),
{
    let oti = raptorq::ObjectTransmissionInformation::with_defaults(transfer_length, max_packet_size);
    RqDecoder { inner: raptorq::Decoder::new(oti), transfer_length, max_packet_size, handed: Ghost(Seq::empty()) }
}

/// What `raptorq::Decoder::decode` returns on the last of `packets` (serialized), handed
/// in order to a fresh decoder for an object of `transfer_length` bytes and packets of at
/// most `max_packet_size` bytes: the object, once its blocks are complete.
pub uninterp spec fn rq_decoded(transfer_length: u64, max_packet_size: u16, packets: Seq<Seq<u8>>) -> Option<Seq<u8>>;

/// Calls `EncodingPacket::deserialize` on the packet bytes and `Decoder::decode` with
/// the packet. The decoder's state is what the packets handed to it so far made of it,
/// so the packet joins the recorded history and the result is the named one for the
/// decoder's parameters and that history; a completed object is truncated to the
/// transfer length. The requirements keep the call clear of its panics: a packet
/// shorter than its 4-byte id, a source block other than the only one, a symbol of
/// another size.
#[verifier::external_body]
fn rq_decode(decoder: &mut RqDecoder, packet: &[u8]) -> (res: Option<Vec<u8>>)
    requires
        packet@.len() == 4 + rq_symbol_size(old(decoder).max_packet_size),
        packet@[0] == 0,
        1 <= old(decoder).transfer_length <= MAX_FRAME_BYTES,
    ensures
        final(decoder).transfer_length == old(decoder).transfer_length,
        final(decoder).max_packet_size == old(decoder).max_packet_size,
        final(decoder).handed@ == old(decoder).handed@.push(packet@),
        match res {
            Some(v) => rq_decoded(old(decoder).transfer_length, old(decoder).max_packet_size, final(decoder).handed@)
                == Some(v@),
            None => rq_decoded(old(decoder).transfer_length, old(decoder).max_packet_size, final(decoder).handed@)
                is None,
        },
        res matches Some(v) ==> v@.len() == old(decoder).transfer_length,
{
    decoder.inner.decode(raptorq::EncodingPacket::deserialize(packet))
}

// ---------------------------------------------------------------------
// Transmit side: the packet schedule of a fountain stream

/// The abstract state of a fountain stream.
pub struct StreamView {
    pub frame: Seq<u8>,
    pub frame_length: nat,
    pub symbol_size: u16,
    pub sources: Seq<Seq<u8>>,
    pub next_source_idx: nat,
    pub counters: Seq<u32>,
    pub block_count: nat,
    pub cursor: nat,
    pub repairs_per_cycle: nat,
    pub repairs_sent: nat,
    pub total_samples: nat,
    pub max_samples: nat,
    pub block_id: u32,
}

/// Which packet a stream sends next.
pub enum PacketChoice {
    /// The source packet at an index (its position in the cycle).
    Source(nat),
    /// The source packet at index 0, starting a new cycle.
    Restart,
    /// The next repair packet of a source block.
    Repair(nat),
    /// Nothing more is sent.
    Stop,
}

/// The schedule: each cycle sends every source packet, then `repairs_per_cycle` repair
/// packets taken from the source blocks in turn, then starts over.
pub open spec fn schedule(v: StreamView) -> PacketChoice {
    if v.total_samples >= v.max_samples {
        PacketChoice::Stop
    } else if v.next_source_idx < v.sources.len() {
        PacketChoice::Source(v.next_source_idx)
    } else if v.repairs_per_cycle > 0 && v.repairs_sent < v.repairs_per_cycle {
        if v.block_count == 0 {
            PacketChoice::Stop
        } else {
            PacketChoice::Repair(if v.cursor >= v.block_count { 0 } else { v.cursor })
        }
    } else if v.sources.len() == 0 {
        PacketChoice::Stop
    } else {
        PacketChoice::Restart
    }
}

/// The stream's bookkeeping after a block of `len` bytes is sent.
pub open spec fn after_block(v: StreamView, len: nat) -> StreamView {
    StreamView {
        total_samples: if v.total_samples + block_samples(len) > usize::MAX { usize::MAX as nat } else { v.total_samples + block_samples(len) },
        block_id: if v.block_id == u32::MAX { 0 } else { (v.block_id + 1) as u32 },
        ..v
    }
}

/// Largest repair packet index a block is asked for: a block of a frame of at most
/// 210 bytes has at most 210 source symbols, and its repair symbol ids (source
/// symbols plus index) must stay below 2^24.
pub const MAX_REPAIR_ID: u32 = 16_777_000;

/// Continuous RaptorQ stream of fountain blocks for one frame.
pub struct FountainStream {
    encoder: RqEncoder,
    frame_length: usize,
    symbol_size: u16,
    block_id: u32,
    source_packets: Vec<Vec<u8>>,
    next_source_idx: usize,
    repair_counters: Vec<u32>,
    block_count: usize,
    repair_block_cursor: usize,
    repairs_per_cycle: usize,
    repairs_sent_this_cycle: usize,
    total_samples_generated: usize,
    max_samples: usize,
}

impl View for FountainStream {
    type V = StreamView;

    closed spec fn view(&self) -> StreamView {
        StreamView {
            frame: self.encoder.data@,
            frame_length: self.frame_length as nat,
            symbol_size: self.symbol_size,
            sources: self.source_packets.deep_view(),
            next_source_idx: self.next_source_idx as nat,
            counters: self.repair_counters@,
            block_count: self.block_count as nat,
            cursor: self.repair_block_cursor as nat,
            repairs_per_cycle: self.repairs_per_cycle as nat,
            repairs_sent: self.repairs_sent_this_cycle as nat,
            total_samples: self.total_samples_generated as nat,
            max_samples: self.max_samples as nat,
            block_id: self.block_id,
        }
    }
}

impl FountainStream {
    /// Well-formedness: one repair counter per source block, bounded lengths.
    pub closed spec fn wf(self) -> bool {
        &&& self.repair_counters@.len() == self.block_count
        &&& self.frame_length <= MAX_FRAME_BYTES
        &&& self.frame_length == self.encoder.data@.len()
        &&& 1 <= self.frame_length
        &&& self.encoder.max_packet_size == self.symbol_size
        &&& self.source_packets.deep_view() == rq_sources(self.encoder.data@, self.symbol_size)
        &&& self.source_packets@.len() >= 1
        &&& self.block_count == rq_blocks(self.encoder.data@, self.symbol_size)
        &&& self.block_count >= 1
    }

    proof fn lemma_view_sources(self)
        ensures
            self@.sources.len() == self.source_packets@.len(),
            forall|i: int| 0 <= i < self.source_packets@.len() ==> #[trigger] self@.sources[i] == self.source_packets@[i]@,
    {
        crate::bytes::lemma_nested_deep_view(self.source_packets);
    }

    /// Number of source packets in each cycle.
    pub fn source_packet_count(&self) -> (res: usize)
        ensures
            res == self@.sources.len(),
    {
        proof {
            self.lemma_view_sources();
        }
        self.source_packets.len()
    }

    /// Sets how many repair packets follow the source packets in each cycle.
    pub fn set_repairs_per_cycle(&mut self, repairs: usize)
        requires
            old(self).wf(),
        ensures
            final(self).wf(),
            final(self)@ == (StreamView { repairs_per_cycle: repairs as nat, ..old(self)@ }),
    {
        self.repairs_per_cycle = repairs;
    }
}

/// The message for a block size that does not fit a RaptorQ packet size.
pub open spec fn block_size_text(block_size: usize) -> Seq<char> {
    "block_size "@ + decimal(block_size as nat) + " exceeds maximum u16 value (65535)"@
}

fn block_size_message(block_size: usize) -> (res: String)
    ensures
        res@ == block_size_text(block_size),
{
    let mut m = String::from_str("block_size ");
    append_decimal(&mut m, block_size);
    m.append(" exceeds maximum u16 value (65535)");
    m
}

impl FountainStream {
    /// Starts a fountain stream for a payload: the frame (frame number 0, no FEC mode)
    /// split into RaptorQ packets of at most `block_size` bytes. The stream stops once
    /// `timeout_secs` seconds of audio have been produced (never for 0). No repair
    /// packets are sent until `set_repairs_per_cycle` asks for them.
    pub fn new(data: &[u8], timeout_secs: u32, block_size: usize) -> (res: Result<FountainStream>)
        requires
            block_size >= 1,
        ensures
            data@.len() > MAX_PAYLOAD_SIZE ==> res == Err::<FountainStream, AudioModemError>(AudioModemError::InvalidInputSize),
            data@.len() <= MAX_PAYLOAD_SIZE && block_size > u16::MAX
                ==> (res matches Err(AudioModemError::InvalidConfig(m)) && m@ == block_size_text(block_size)),
            data@.len() <= MAX_PAYLOAD_SIZE && block_size <= u16::MAX ==> res is Ok,
            res matches Ok(st) ==> {
                &&& data@.len() <= MAX_PAYLOAD_SIZE
                &&& block_size <= u16::MAX
                &&& st.wf()
                &&& st@.frame == frame_bytes(data@.len() as u16, 0, 0, data@)
                &&& st@.frame_length == frame_bytes(data@.len() as u16, 0, 0, data@).len()
                &&& st@.symbol_size == block_size
                &&& st@.sources == rq_sources(st@.frame, block_size as u16)
                &&& st@.block_count == rq_blocks(st@.frame, block_size as u16)
                &&& st@.sources.len() >= 1
                &&& st@.block_count >= 1
                &&& st@.next_source_idx == 0
                &&& st@.counters == Seq::new(st@.block_count, |i: int| 0u32)
                &&& st@.cursor == 0
                &&& st@.repairs_per_cycle == 0
                &&& st@.repairs_sent == 0
                &&& st@.total_samples == 0
                &&& st@.max_samples == if timeout_secs == 0 { usize::MAX as nat } else if timeout_secs * SAMPLE_RATE > usize::MAX { usize::MAX as nat } else { (timeout_secs * SAMPLE_RATE) as nat }
                &&& st@.block_id == 0
            },
    {
        if data.len() > MAX_PAYLOAD_SIZE {
            return Err(AudioModemError::InvalidInputSize);
        }
        let payload = copy_range(data, 0, data.len());
        assert(payload@ =~= data@);
        let payload_crc = crc16(payload.as_slice());
        let frame = Frame { payload_len: data.len() as u16, frame_num: 0, fec_mode: 0, payload, payload_crc };
        let frame_data = match FrameEncoder::encode(&frame) {
            Ok(f) => f,
            Err(e) => return Err(e),
        };
        if block_size > 65535 {
            return Err(AudioModemError::InvalidConfig(block_size_message(block_size)));
        }
        let symbol_size = block_size as u16;
        let frame_length = frame_data.len();
        let ghost frame_view = frame_data@;
        assert(frame_view == frame_bytes(data@.len() as u16, 0, 0, data@));
        let encoder = rq_encoder(frame_data, symbol_size);
        let source_packets = rq_source_packets(&encoder);
        if source_packets.len() == 0 {
            return Err(AudioModemError::InvalidConfig("RaptorQ encoder did not produce any source packets".to_string()));
        }
        let block_count = rq_block_count(&encoder);
        if block_count == 0 {
            return Err(AudioModemError::InvalidConfig("RaptorQ encoder has no source blocks".to_string()));
        }
        let mut repair_counters: Vec<u32> = Vec::new();
        let mut i: usize = 0;
        while i < block_count
            invariant
                i <= block_count,
                repair_counters@ == Seq::new(i as nat, |k: int| 0u32),
            decreases block_count - i,
        {
            repair_counters.push(0);
            i += 1;
            assert(repair_counters@ =~= Seq::new(i as nat, |k: int| 0u32));
        }
        let max_samples: usize = if timeout_secs == 0 {
            usize::MAX
        } else {
            match (timeout_secs as usize).checked_mul(SAMPLE_RATE) {
                Some(m) => m,
                None => usize::MAX,
            }
        };
        let st = FountainStream {
            encoder,
            frame_length,
            symbol_size,
            block_id: 0,
            source_packets,
            next_source_idx: 0,
            repair_counters,
            block_count,
            repair_block_cursor: 0,
            repairs_per_cycle: 0,
            repairs_sent_this_cycle: 0,
            total_samples_generated: 0,
            max_samples,
        };
        proof {
            st.lemma_view_sources();
        }
        Ok(st)
    }

    /// The next fountain block to transmit, following `schedule`; `None` once the
    /// audio budget is spent or a repair packet index passes `MAX_REPAIR_ID`.
    pub fn next_block(&mut self) -> (res: Option<Vec<u8>>)
        requires
            old(self).wf(),
        ensures
            final(self).wf(),
            ({
                let v = old(self)@;
                match schedule(v) {
                    PacketChoice::Stop => res is None && final(self)@ == v,
                    PacketChoice::Source(i) => res matches Some(b)
                        && b@ == fountain_block(v.frame_length as u32, v.symbol_size, v.sources[i as int])
                        && final(self)@ == after_block(StreamView { next_source_idx: i + 1, ..v }, b@.len()),
                    PacketChoice::Restart => res matches Some(b)
                        && b@ == fountain_block(v.frame_length as u32, v.symbol_size, v.sources[0])
                        && final(self)@ == after_block(StreamView { next_source_idx: 1, repairs_sent: 0, ..v }, b@.len()),
                    PacketChoice::Repair(blk) => {
                        let v1 = StreamView { cursor: (blk + 1) % v.block_count, ..v };
                        if v.counters[blk as int] > MAX_REPAIR_ID {
                            res is None && final(self)@ == v1
                        } else {
                            res matches Some(b)
                            && b@ == fountain_block(v.frame_length as u32, v.symbol_size,
                                rq_repair(v.frame, v.symbol_size, blk, v.counters[blk as int]))
                            && final(self)@ == after_block(StreamView {
                                counters: v.counters.update(blk as int, (v.counters[blk as int] + 1) as u32),
                                repairs_sent: v.repairs_sent + 1,
                                ..v1
                            }, b@.len())
                        }
                    },
                }
            }),
    {
        proof {
            self.lemma_view_sources();
        }
        if self.total_samples_generated >= self.max_samples {
            return None;
        }
        let packet: Vec<u8> = if self.next_source_idx < self.source_packets.len() {
            let idx = self.next_source_idx;
            self.next_source_idx = idx + 1;
            let p = copy_range(self.source_packets[idx].as_slice(), 0, self.source_packets[idx].len());
            assert(p@ == old(self)@.sources[idx as int]);
            p
        } else if self.repairs_per_cycle > 0 && self.repairs_sent_this_cycle < self.repairs_per_cycle {
            if self.block_count == 0 {
                return None;
            }
            if self.repair_block_cursor >= self.block_count {
                self.repair_block_cursor = 0;
            }
            let blk = self.repair_block_cursor;
            self.repair_block_cursor = (blk + 1) % self.block_count;
            let counter = self.repair_counters[blk];
            if counter > MAX_REPAIR_ID {
                return None;
            }
            match rq_repair_packet(&self.encoder, blk, counter) {
                Some(p) => {
                    self.repair_counters.set(blk, counter + 1);
                    self.repairs_sent_this_cycle = self.repairs_sent_this_cycle + 1;
                    p
                },
                None => {
                    return None;
                },
            }
        } else if self.source_packets.len() == 0 {
            return None;
        } else {
            self.repairs_sent_this_cycle = 0;
            self.next_source_idx = 1;
            let p = copy_range(self.source_packets[0].as_slice(), 0, self.source_packets[0].len());
            assert(p@ == old(self)@.sources[0]);
            p
        };
        let block = fountain_block_bytes(self.frame_length as u32, self.symbol_size, packet.as_slice());
        assert(block@ == fountain_block(self.frame_length as u32, self.symbol_size, packet@));
        let ghost mid = self@;
        let n = block.len() / FSK_BYTES_PER_SYMBOL;
        let samples: usize = match n.checked_mul(FSK_SYMBOL_SAMPLES) {
            Some(m) => m.saturating_add(PREAMBLE_SAMPLES),
            None => usize::MAX,
        };
        assert(samples as nat == if block_samples(block@.len()) > usize::MAX { usize::MAX as nat } else { block_samples(block@.len()) });
        self.total_samples_generated = self.total_samples_generated.saturating_add(samples);
        self.block_id = self.block_id.wrapping_add(1);
        proof {
            self.lemma_view_sources();
            assert(self@ == after_block(mid, block@.len()));
        }
        Some(block)
    }
}

// ---------------------------------------------------------------------
// Receive side: the decisions of a fountain receiver. The audio work around them
// (preamble search, demodulation, the clock) happens outside this library; the
// receiver says where to look and what a demodulated block changes.

/// The abstract state of a fountain receiver.
pub struct ReceiverView {
    pub search_offset: nat,
    pub frame_length: Option<nat>,
    pub symbol_size: Option<u16>,
    pub payload_samples: nat,
    pub decoding: bool,
    /// The packets handed to the RaptorQ decoder so far, in order.
    pub handed: Seq<Seq<u8>>,
}

/// How the stream metadata of a block (frame length `fl`, symbol size `ss`) updates
/// the receiver, and whether the block is kept: a block whose metadata disagrees with
/// the first block's is dropped.
pub open spec fn accept_meta(v: ReceiverView, fl: nat, ss: u16) -> (ReceiverView, bool) {
    if v.frame_length matches Some(e) && e != fl {
        (v, false)
    } else {
        let v1 = ReceiverView { frame_length: Some(fl), ..v };
        if v.symbol_size matches Some(e) && e != ss {
            (v1, false)
        } else if v.symbol_size is None {
            (ReceiverView { symbol_size: Some(ss), payload_samples: payload_samples(ss), ..v1 }, true)
        } else {
            (v1, true)
        }
    }
}

/// The payload of a decoded fountain object: the frame's payload when the object is a
/// valid frame.
pub open spec fn frame_payload(d: Seq<u8>) -> Option<Seq<u8>> {
    match spec_decode_frame(d) {
        Ok(f) => Some(f.3),
        Err(_) => None,
    }
}

/// The payload of what the decoder returned, if anything.
pub open spec fn decoded_payload(o: Option<Seq<u8>>) -> Option<Seq<u8>> {
    match o {
        Some(d) => frame_payload(d),
        None => None,
    }
}

/// Reads the payload out of a decoded fountain object: `Some` exactly when the
/// object is a valid frame.
pub fn fountain_frame_payload(decoded: &[u8]) -> (res: Option<Vec<u8>>)
    ensures
        match res {
            Some(p) => frame_payload(decoded@) == Some(p@),
            None => frame_payload(decoded@) is None,
        },
{
    match FrameDecoder::decode(decoded) {
        Ok(frame) => Some(frame.payload),
        Err(_) => None,
    }
}

/// Whether a decoder can be set up for a stream's metadata.
pub open spec fn decodable_meta(fl: nat, ss: u16) -> bool {
    1 <= fl <= MAX_FRAME_BYTES && ss >= 1
}

/// Fountain receiver state.
pub struct FountainReceiver {
    decoder: Option<RqDecoder>,
    search_offset: usize,
    frame_length: Option<usize>,
    symbol_size: Option<u16>,
    payload_samples_per_block: usize,
}

impl View for FountainReceiver {
    type V = ReceiverView;

    closed spec fn view(&self) -> ReceiverView {
        ReceiverView {
            search_offset: self.search_offset as nat,
            frame_length: match self.frame_length { Some(f) => Some(f as nat), None => None },
            symbol_size: self.symbol_size,
            payload_samples: self.payload_samples_per_block as nat,
            decoding: self.decoder is Some,
            handed: match self.decoder { Some(d) => d.handed@, None => Seq::empty() },
        }
    }
}

impl FountainReceiver {
    /// The decoder matches the recorded metadata; the symbol size is known once the
    /// frame length is.
    pub closed spec fn wf(self) -> bool {
        &&& (self.frame_length is None ==> self.symbol_size is None)
        &&& (self.decoder matches Some(d) ==> {
            &&& self.frame_length == Some(d.transfer_length as usize)
            &&& self.symbol_size == Some(d.max_packet_size)
            &&& decodable_meta(d.transfer_length as nat, d.max_packet_size)
        })
    }

    /// A receiver at the start of the samples, expecting blocks of `block_size` bytes.
    pub fn new(block_size: usize) -> (res: Self)
        ensures
            res.wf(),
            res@ == (ReceiverView {
                search_offset: 0,
                frame_length: None,
                symbol_size: None,
                payload_samples: payload_samples((block_size % 65536) as u16),
                decoding: false,
                handed: Seq::empty(),
            }),
    {
        assert((block_size as u16) as nat == block_size % 65536) by (bit_vector);
        FountainReceiver {
            decoder: None,
            search_offset: 0,
            frame_length: None,
            symbol_size: None,
            payload_samples_per_block: fountain_payload_samples(block_size as u16),
        }
    }

    /// Where to search for the next preamble: the window's first sample (the search
    /// offset) and its length; `None` when the samples are used up.
    pub fn search_window(&self, total_len: usize) -> (res: Option<(usize, usize)>)
        ensures
            ({
                let v = self@;
                let window = (PREAMBLE_SAMPLES + v.payload_samples) as nat;
                if v.search_offset >= total_len {
                    res is None
                } else {
                    let len = if total_len - v.search_offset < window { (total_len - v.search_offset) as nat } else { window };
                    if len < PREAMBLE_SAMPLES { res is None } else { res == Some((v.search_offset as usize, len as usize)) }
                }
            }),
    {
        if self.search_offset >= total_len {
            return None;
        }
        let remaining = total_len - self.search_offset;
        let window = PREAMBLE_SAMPLES.saturating_add(self.payload_samples_per_block);
        let search_len = if remaining < window { remaining } else { window };
        if search_len < PREAMBLE_SAMPLES {
            return None;
        }
        Some((self.search_offset, search_len))
    }

    /// The samples of the block whose preamble starts `preamble_pos` samples into the
    /// search window; `None` (stop searching) when they run past the end.
    pub fn block_region(&self, preamble_pos: usize, total_len: usize) -> (res: Option<(usize, usize)>)
        requires
            self@.search_offset + preamble_pos <= total_len,
        ensures
            ({
                let start = self@.search_offset + preamble_pos + PREAMBLE_SAMPLES;
                if start + FSK_SYMBOL_SAMPLES > total_len || start + self@.payload_samples > total_len {
                    res is None
                } else {
                    res == Some((start as usize, (start + self@.payload_samples) as usize))
                }
            }),
    {
        let data_start = match (self.search_offset + preamble_pos).checked_add(PREAMBLE_SAMPLES) {
            Some(d) => d,
            None => return None,
        };
        if data_start > total_len || total_len - data_start < FSK_SYMBOL_SAMPLES {
            return None;
        }
        let data_end = match data_start.checked_add(self.payload_samples_per_block) {
            Some(e) => e,
            None => return None,
        };
        if data_end > total_len {
            return None;
        }
        Some((data_start, data_end))
    }

    /// Takes in a demodulated block (`None` when demodulation failed) that ends at
    /// sample `data_end`. Returns the payload once the RaptorQ decoder has the whole
    /// frame and it passes the frame checks; otherwise moves the search past the block.
    pub fn on_block(&mut self, data_end: usize, block: Option<&[u8]>) -> (res: Option<Vec<u8>>)
        requires
            old(self).wf(),
        ensures
            final(self).wf(),
            ({
                let v = old(self)@;
                match block {
                    None => res is None && final(self)@ == ReceiverView { search_offset: data_end as nat, ..v },
                    Some(b) => if b@.len() < 6 {
                        res is None && final(self)@ == ReceiverView { search_offset: data_end as nat, ..v }
                    } else {
                        let fl = be32(b@[0], b@[1], b@[2], b@[3]) as nat;
                        let ss = be16(b@[4], b@[5]);
                        let (v1, kept) = accept_meta(v, fl, ss);
                        &&& final(self)@.frame_length == v1.frame_length
                        &&& final(self)@.symbol_size == v1.symbol_size
                        &&& final(self)@.payload_samples == v1.payload_samples
                        &&& (!kept ==> res is None && final(self)@ == ReceiverView { search_offset: data_end as nat, ..v1 })
                        &&& (kept && parse_block(b@) is None ==> res is None && final(self)@ == ReceiverView { search_offset: data_end as nat, ..v1 })
                        &&& (kept && parse_block(b@) is Some ==> final(self)@.decoding == (v.decoding || decodable_meta(fl, ss)))
                        &&& (kept && parse_block(b@) is Some ==> {
                            let packet = block_packet(b@);
                            let fed = final(self)@.decoding && packet.len() == 4 + rq_symbol_size(ss) && packet[0] == 0;
                            &&& final(self)@.handed == (if fed { v.handed.push(packet) } else { v.handed })
                            &&& (res is Some ==> fed)
                            &&& (fed ==> match res {
                                Some(p) => decoded_payload(rq_decoded(fl as u64, ss, final(self)@.handed)) == Some(p@),
                                None => decoded_payload(rq_decoded(fl as u64, ss, final(self)@.handed)) is None,
                            })
                        })
                        &&& (!(kept && parse_block(b@) is Some) ==> final(self)@.handed == v.handed)
                        &&& (res is None ==> final(self)@.search_offset == data_end)
                        &&& (res matches Some(p) ==> kept && parse_block(b@) is Some && final(self)@.decoding
                            && exists|d: Seq<u8>| d.len() == fl && (#[trigger] spec_decode_frame(d) matches Ok(f) && p@ == f.3))
                    },
                }
            }),
    {
        let b = match block {
            None => {
                self.search_offset = data_end;
                return None;
            },
            Some(b) => b,
        };
        if b.len() < 6 {
            self.search_offset = data_end;
            return None;
        }
        let fl32: u32 = (b[0] as u32) * 0x1000000 + (b[1] as u32) * 0x10000 + (b[2] as u32) * 256 + (b[3] as u32);
        let fl = fl32 as usize;
        let ss = join_be16(b[4], b[5]);
        match self.frame_length {
            Some(existing) => {
                if existing != fl {
                    self.search_offset = data_end;
                    return None;
                }
            },
            None => {
                self.frame_length = Some(fl);
            },
        }
        match self.symbol_size {
            Some(existing) => {
                if existing != ss {
                    self.search_offset = data_end;
                    return None;
                }
            },
            None => {
                self.symbol_size = Some(ss);
                self.payload_samples_per_block = fountain_payload_samples(ss);
            },
        }
        if b.len() - 6 < 2 {
            self.search_offset = data_end;
            return None;
        }
        let plen = join_be16(b[6], b[7]) as usize;
        if b.len() - 8 < plen {
            self.search_offset = data_end;
            return None;
        }
        let packet = copy_range(b, 8, 8 + plen);
        if self.decoder.is_none() && 1 <= fl && fl <= MAX_FRAME_BYTES && ss >= 1 {
            self.decoder = Some(rq_decoder(fl as u64, ss));
        }
        let mut dec_opt = self.decoder.take();
        let mut outcome: Option<Vec<u8>> = None;
        match dec_opt {
            Some(mut dec) => {
                let t: usize = if ss >= 64 { (ss - ss % 8) as usize } else { ss as usize };
                if packet.len() == 4 + t && packet[0] == 0 {
                    match rq_decode(&mut dec, packet.as_slice()) {
                        Some(decoded) => {
                            outcome = fountain_frame_payload(decoded.as_slice());
                        },
                        None => {},
                    }
                }
                self.decoder = Some(dec);
            },
            None => {},
        }
        if outcome.is_none() {
            self.search_offset = data_end;
        }
        outcome
    }
}
} // verus!
