use vstd::prelude::*;
use crate::bytes::copy_range;
use crate::bytes::zeros;
use crate::chunking::{chunk_bits_text, Chunk, ChunkDecoder, ChunkHeader, chunk_bytes, chunk_count, chunk_crc_ok, chunk_slice, header_from, joined_data,
    lemma_chunk_roundtrip, padded_chunk, spec_reassemble, valid_chunk_bits};
use crate::encoder_chunked::{chunk_block, chunk_blocks, lemma_padded_len, repeated_views, split_views};
use crate::fec::pad_block;
use crate::trellis::{byte_bits, data_bits};
use crate::error::{AudioModemError, Result};
use crate::fec::FecDecoder;
use crate::{RS_DATA_BYTES, RS_TOTAL_BYTES};

verus! {

// ---------------------------------------------------------------------
// Receiving chunked frames: demodulated bits are packed into bytes, each
// 255-byte Reed-Solomon block holds one chunk at its start, and the payload
// is rebuilt from the first valid copy of every chunk.

/// Value of a bit string, most significant bit first.
pub open spec fn bits_value(b: Seq<bool>) -> nat
    decreases b.len(),
{
    if b.len() == 0 {
        0
    } else {
        bits_value(b.drop_last()) * 2 + if b.last() { 1nat } else { 0nat }
    }
}

/// The bytes of the whole 8-bit groups of a bit string, most significant bit first.
pub open spec fn packed_bytes(bits: Seq<bool>) -> Seq<u8> {
    Seq::new(bits.len() / 8, |k: int| bits_value(bits.subrange(8 * k, 8 * k + 8)) as u8)
}

/// The chunk at the start of Reed-Solomon block `k`, for chunks of `cb` data bytes.
pub open spec fn block_chunk(bytes: Seq<u8>, k: nat, cb: nat) -> (ChunkHeader, Seq<u8>) {
    let portion = bytes.subrange((255 * k) as int, (255 * k + 7 + cb) as int);
    (header_from(portion), portion.skip(7))
}

/// The chunks with a valid CRC among the first `n` blocks, in order.
pub open spec fn valid_chunks(bytes: Seq<u8>, cb: nat, n: nat) -> Seq<(ChunkHeader, Seq<u8>)>
    decreases n,
{
    if n == 0 {
        Seq::empty()
    } else {
        let prev = valid_chunks(bytes, cb, (n - 1) as nat);
        let c = block_chunk(bytes, (n - 1) as nat, cb);
        if chunk_crc_ok(c) { prev.push(c) } else { prev }
    }
}

/// The chunk with an id in a sequence, if any (the first).
pub open spec fn find_id(fs: Seq<(ChunkHeader, Seq<u8>)>, id: u16) -> Option<(ChunkHeader, Seq<u8>)>
    decreases fs.len(),
{
    if fs.len() == 0 {
        None
    } else {
        match find_id(fs.drop_last(), id) {
            Some(c) => Some(c),
            None => if fs.last().0.chunk_id == id { Some(fs.last()) } else { None },
        }
    }
}

/// Whether every chunk id below `total` occurs.
pub open spec fn has_all(fs: Seq<(ChunkHeader, Seq<u8>)>, total: u16) -> bool {
    forall|i: u16| i < total ==> #[trigger] find_id(fs, i) is Some
}

/// The first copy of chunks 0 to `total - 1`, in order.
pub open spec fn chosen_chunks(fs: Seq<(ChunkHeader, Seq<u8>)>, total: u16) -> Seq<(ChunkHeader, Seq<u8>)> {
    Seq::new(total as nat, |i: int| find_id(fs, i as u16)->0)
}

/// Concatenated data of chunk views.
pub open spec fn joined_views(vs: Seq<(ChunkHeader, Seq<u8>)>) -> Seq<u8>
    decreases vs.len(),
{
    if vs.len() == 0 {
        Seq::empty()
    } else {
        joined_views(vs.drop_last()) + vs.last().1
    }
}

/// The payload length the chunks declare: the data of all but the last, plus the
/// last chunk's recorded length.
pub open spec fn declared_length(vs: Seq<(ChunkHeader, Seq<u8>)>) -> nat {
    if vs.len() == 0 {
        0
    } else {
        (joined_views(vs.drop_last()).len() + vs.last().0.payload_len) as nat
    }
}

/// Reassembly over chunk views (as `spec_reassemble` over chunks).
pub open spec fn reassemble_views(vs: Seq<(ChunkHeader, Seq<u8>)>, total_len: nat) -> core::result::Result<Seq<u8>, AudioModemError> {
    if vs.len() == 0 {
        Err(AudioModemError::InvalidFrameSize)
    } else if exists|i: int| 0 <= i < vs.len() && !chunk_crc_ok(#[trigger] vs[i]) {
        Err(AudioModemError::HeaderCrcMismatch)
    } else if total_len <= joined_views(vs).len() {
        Ok(joined_views(vs).take(total_len as int))
    } else {
        Ok(joined_views(vs))
    }
}

/// What decoding the packed bytes of a chunked frame gives.
pub open spec fn spec_decode_chunked(bytes: Seq<u8>, cb: nat) -> core::result::Result<Seq<u8>, AudioModemError> {
    let v = valid_chunks(bytes, cb, bytes.len() / 255);
    if v.len() == 0 {
        Err(AudioModemError::InvalidFrameSize)
    } else {
        let total = v[0].0.total_chunks;
        if !has_all(v, total) {
            Err(AudioModemError::InvalidFrameSize)
        } else {
            let chosen = chosen_chunks(v, total);
            reassemble_views(chosen, declared_length(chosen))
        }
    }
}

proof fn lemma_joined(cs: Seq<Chunk>)
    ensures
        joined_data(cs) == joined_views(cs.map_values(|c: Chunk| c@)),
    decreases cs.len(),
{
    if cs.len() > 0 {
        lemma_joined(cs.drop_last());
        assert(cs.drop_last().map_values(|c: Chunk| c@) =~= cs.map_values(|c: Chunk| c@).drop_last());
    }
}

proof fn lemma_reassemble_views(cs: Seq<Chunk>, n: nat)
    ensures
        spec_reassemble(cs, n) == reassemble_views(cs.map_values(|c: Chunk| c@), n),
{
    lemma_joined(cs);
    let vs = cs.map_values(|c: Chunk| c@);
    if exists|i: int| 0 <= i < cs.len() && !chunk_crc_ok(#[trigger] cs[i]@) {
        let i = choose|i: int| 0 <= i < cs.len() && !chunk_crc_ok(#[trigger] cs[i]@);
        assert(!chunk_crc_ok(vs[i]));
    }
    if exists|i: int| 0 <= i < vs.len() && !chunk_crc_ok(#[trigger] vs[i]) {
        let i = choose|i: int| 0 <= i < vs.len() && !chunk_crc_ok(#[trigger] vs[i]);
        assert(!chunk_crc_ok(cs[i]@));
    }
}

/// Extending a sequence keeps the chunks already found.
proof fn lemma_find_id_push(fs: Seq<(ChunkHeader, Seq<u8>)>, c: (ChunkHeader, Seq<u8>), id: u16)
    ensures
        find_id(fs, id) is Some ==> find_id(fs.push(c), id) == find_id(fs, id),
        find_id(fs, id) is None ==> find_id(fs.push(c), id) == (if c.0.chunk_id == id { Some(c) } else { None::<(ChunkHeader, Seq<u8>)> }),
{
    assert(fs.push(c).drop_last() =~= fs);
}

/// The chunks found in a prefix of the blocks stay what is found in all of them.
proof fn lemma_find_id_prefix(bytes: Seq<u8>, cb: nat, k: nat, n: nat, id: u16)
    requires
        k <= n,
        find_id(valid_chunks(bytes, cb, k), id) is Some,
    ensures
        find_id(valid_chunks(bytes, cb, n), id) == find_id(valid_chunks(bytes, cb, k), id),
    decreases n - k,
{
    if k < n {
        lemma_find_id_prefix(bytes, cb, k, (n - 1) as nat, id);
        lemma_find_id_push(valid_chunks(bytes, cb, (n - 1) as nat), block_chunk(bytes, (n - 1) as nat, cb), id);
    }
}

/// The first valid chunk stays first.
proof fn lemma_valid_prefix(bytes: Seq<u8>, cb: nat, k: nat, n: nat)
    requires
        k <= n,
    ensures
        valid_chunks(bytes, cb, k).len() <= valid_chunks(bytes, cb, n).len(),
        forall|i: int| 0 <= i < valid_chunks(bytes, cb, k).len() ==> #[trigger] valid_chunks(bytes, cb, n)[i] == valid_chunks(bytes, cb, k)[i],
    decreases n - k,
{
    if k < n {
        lemma_valid_prefix(bytes, cb, k, (n - 1) as nat);
    }
}

proof fn lemma_bits_value_bound(b: Seq<bool>)
    requires
        b.len() <= 8,
    ensures
        bits_value(b) < 256,
        b.len() == 0 ==> bits_value(b) == 0,
        bits_value(b) < if b.len() == 0 { 1nat } else if b.len() == 1 { 2nat } else if b.len() == 2 { 4nat } else if b.len() == 3 { 8nat }
            else if b.len() == 4 { 16nat } else if b.len() == 5 { 32nat } else if b.len() == 6 { 64nat } else if b.len() == 7 { 128nat } else { 256nat },
    decreases b.len(),
{
    if b.len() > 0 {
        lemma_bits_value_bound(b.drop_last());
    }
}

/// Packs whole 8-bit groups into bytes, most significant bit first.
pub(crate) fn pack_bits(bits: &[bool]) -> (res: Vec<u8>)
    ensures
        res@ == packed_bytes(bits@),
{
    let n = bits.len() / 8;
    let mut out: Vec<u8> = Vec::new();
    let mut k: usize = 0;
    while k < n
        invariant
            n == bits@.len() / 8,
            bits@.len() <= usize::MAX,
            k <= n,
            out@ == packed_bytes(bits@).take(k as int),
        decreases n - k,
    {
        let ghost chunk = bits@.subrange(8 * k as int, 8 * k + 8);
        let mut byte: u8 = 0;
        let mut i: usize = 0;
        while i < 8
            invariant
                k < n,
                n == bits@.len() / 8,
                8 * n <= bits@.len(),
                bits@.len() <= usize::MAX,
                i <= 8,
                chunk == bits@.subrange(8 * k as int, 8 * k + 8),
                byte as nat == bits_value(chunk.take(i as int)),
            decreases 8 - i,
        {
            proof {
                lemma_bits_value_bound(chunk.take(i as int));
                assert(chunk.take(i + 1).drop_last() =~= chunk.take(i as int));
            }
            let bit: u8 = if bits[8 * k + i] { 1 } else { 0 };
            byte = byte * 2 + bit;
            i += 1;
        }
        assert(chunk.take(8) =~= chunk);
        out.push(byte);
        k += 1;
        assert(out@ =~= packed_bytes(bits@).take(k as int));
    }
    assert(packed_bytes(bits@).take(n as int) =~= packed_bytes(bits@));
    out
}

/// Decoder for chunked frames.
pub struct DecoderChunked {
    fec: FecDecoder,
    chunk_decoder: ChunkDecoder,
    chunk_bits: usize,
}

impl DecoderChunked {
    #[verifier::type_invariant]
    spec fn inv(self) -> bool {
        valid_chunk_bits(self.chunk_bits) && self.chunk_decoder.bits() == self.chunk_bits
    }

    /// The chunk size in bits.
    pub closed spec fn bits(self) -> usize {
        self.chunk_bits
    }

    /// Creates a decoder for 32, 48 or 64 bits per chunk.
    pub fn new(chunk_bits: usize) -> (res: Result<Self>)
        ensures
            valid_chunk_bits(chunk_bits) <==> res is Ok,
            res matches Ok(d) ==> d.bits() == chunk_bits,
            !valid_chunk_bits(chunk_bits) ==> (res matches Err(AudioModemError::InvalidConfig(m)) && m@ == chunk_bits_text()),
    {
        let fec = match FecDecoder::new() {
            Ok(f) => f,
            Err(e) => return Err(e),
        };
        let chunk_decoder = match ChunkDecoder::new(chunk_bits) {
            Ok(d) => d,
            Err(e) => return Err(e),
        };
        Ok(Self { fec, chunk_decoder, chunk_bits })
    }
}


/// The views of a sequence of chunks.
pub open spec fn views(cs: Seq<Chunk>) -> Seq<(ChunkHeader, Seq<u8>)> {
    cs.map_values(|c: Chunk| c@)
}

proof fn lemma_find_id_none(fs: Seq<(ChunkHeader, Seq<u8>)>, id: u16)
    ensures
        find_id(fs, id) is None <==> forall|j: int| 0 <= j < fs.len() ==> #[trigger] fs[j].0.chunk_id != id,
        find_id(fs, id) matches Some(c) ==> c.0.chunk_id == id,
    decreases fs.len(),
{
    if fs.len() > 0 {
        lemma_find_id_none(fs.drop_last(), id);
        if find_id(fs, id) is None {
            assert forall|j: int| 0 <= j < fs.len() implies #[trigger] fs[j].0.chunk_id != id by {
                if j < fs.len() - 1 {
                    assert(fs.drop_last()[j] == fs[j]);
                }
            }
        } else if find_id(fs.drop_last(), id) is Some {
            let j = choose|j: int| 0 <= j < fs.drop_last().len() && #[trigger] fs.drop_last()[j].0.chunk_id == id;
            assert(fs[j] == fs.drop_last()[j]);
        }
    }
}

proof fn lemma_find_id_first(fs: Seq<(ChunkHeader, Seq<u8>)>, id: u16, j: int)
    requires
        0 <= j < fs.len(),
        fs[j].0.chunk_id == id,
        forall|i: int| 0 <= i < j ==> #[trigger] fs[i].0.chunk_id != id,
    ensures
        find_id(fs, id) == Some(fs[j]),
    decreases fs.len(),
{
    if j < fs.len() - 1 {
        assert forall|i: int| 0 <= i < j implies #[trigger] fs.drop_last()[i].0.chunk_id != id by {
            assert(fs.drop_last()[i] == fs[i]);
        }
        lemma_find_id_first(fs.drop_last(), id, j);
    } else {
        assert forall|i: int| 0 <= i < fs.drop_last().len() implies #[trigger] fs.drop_last()[i].0.chunk_id != id by {
            assert(fs.drop_last()[i] == fs[i]);
        }
        lemma_find_id_none(fs.drop_last(), id);
    }
}

/// Index of the chunk with an id.
fn index_of_id(cs: &Vec<Chunk>, id: u16) -> (res: Option<usize>)
    ensures
        match res {
            Some(j) => j < cs@.len() && find_id(views(cs@), id) == Some(cs@[j as int]@),
            None => find_id(views(cs@), id) is None,
        },
{
    let ghost vs = views(cs@);
    let mut j: usize = 0;
    while j < cs.len()
        invariant
            j <= cs@.len(),
            vs == views(cs@),
            vs.len() == cs@.len(),
            forall|i: int| 0 <= i < j ==> #[trigger] vs[i].0.chunk_id != id,
        decreases cs.len() - j,
    {
        if cs[j].header.chunk_id == id {
            proof {
                assert(vs[j as int] == cs@[j as int]@);
                lemma_find_id_first(vs, id, j as int);
            }
            return Some(j);
        }
        assert(vs[j as int] == cs@[j as int]@);
        j += 1;
    }
    proof {
        lemma_find_id_none(vs, id);
    }
    None
}

impl DecoderChunked {
    /// Whether chunks 0 to `total - 1` are all among the collected chunks.
    pub fn have_all_chunks(&self, collected: &Vec<Chunk>, total: u16) -> (res: bool)
        ensures
            res == has_all(views(collected@), total),
    {
        let mut i: u16 = 0;
        while i < total
            invariant
                i <= total,
                forall|k: u16| k < i ==> #[trigger] find_id(views(collected@), k) is Some,
            decreases total - i,
        {
            if index_of_id(collected, i).is_none() {
                return false;
            }
            i += 1;
        }
        true
    }

    /// Rebuilds the payload from the first copy of each of chunks 0 to `total - 1`.
    fn reassemble_and_return(&self, firsts: &Vec<Chunk>, total: u16) -> (res: Result<Vec<u8>>)
        requires
            has_all(views(firsts@), total),
            forall|i: int| 0 <= i < firsts@.len() ==> #[trigger] firsts@[i].data@.len() == self.bits() / 8,
        ensures
            match res {
                Ok(v) => reassemble_views(chosen_chunks(views(firsts@), total), declared_length(chosen_chunks(views(firsts@), total)))
                    == Ok::<Seq<u8>, AudioModemError>(v@),
                Err(e) => reassemble_views(chosen_chunks(views(firsts@), total), declared_length(chosen_chunks(views(firsts@), total)))
                    == Err::<Seq<u8>, AudioModemError>(e),
            },
    {
        proof {
            use_type_invariant(self);
        }
        let ghost fs = views(firsts@);
        let ghost chosen = chosen_chunks(fs, total);
        let mut chunks_vec: Vec<Chunk> = Vec::new();
        let mut i: u16 = 0;
        while i < total
            invariant
                i <= total,
                fs == views(firsts@),
                chosen == chosen_chunks(fs, total),
                has_all(fs, total),
                views(chunks_vec@) == chosen.take(i as int),
                chunks_vec@.len() == i,
                forall|k: int| 0 <= k < chunks_vec@.len() ==> #[trigger] chunks_vec@[k].data@.len() <= 8,
                forall|k: int| 0 <= k < firsts@.len() ==> #[trigger] firsts@[k].data@.len() == self.bits() / 8,
                self.bits() <= 64,
            decreases total - i,
        {
            assert(find_id(fs, i) is Some);
            let j = match index_of_id(firsts, i) {
                Some(j) => j,
                None => {
                    return Err(AudioModemError::InvalidFrameSize);
                },
            };
            let c = firsts[j].duplicate();
            let ghost before = chunks_vec@;
            chunks_vec.push(c);
            proof {
                assert((i as int) as u16 == i);
                assert(chosen[i as int] == find_id(fs, i)->0);
                assert(c@ == chosen[i as int]);
                assert(views(chunks_vec@)[i as int] == chunks_vec@[i as int]@);
                assert forall|m: int| 0 <= m < i implies views(chunks_vec@)[m] == views(before)[m] by {
                    assert(chunks_vec@[m] == before[m]);
                }
                assert(views(chunks_vec@) =~= chosen.take(i + 1));
            }
            i += 1;
        }
        assert(chosen.take(total as int) =~= chosen);
        assert(views(chunks_vec@).len() == total);
        let mut original_len: usize = 0;
        let n = chunks_vec.len();
        let mut k: usize = 0;
        while k < n
            invariant
                n == chunks_vec@.len(),
                k <= n,
                forall|m: int| 0 <= m < chunks_vec@.len() ==> #[trigger] chunks_vec@[m].data@.len() <= 8,
                n <= 65535,
                original_len as nat == if k == n { declared_length(views(chunks_vec@)) } else {
                    joined_views(views(chunks_vec@).take(k as int)).len()
                },
                original_len <= 8 * k + (if k == n { 255int } else { 0int }),
            decreases n - k,
        {
            let ghost vk = views(chunks_vec@).take(k as int);
            proof {
                assert(views(chunks_vec@).take(k + 1).drop_last() =~= vk);
                assert(views(chunks_vec@).take(k + 1).last() == chunks_vec@[k as int]@);
            }
            if k == n - 1 {
                original_len = original_len + chunks_vec[k].header.payload_len as usize;
                proof {
                    assert(views(chunks_vec@).drop_last() =~= vk);
                }
            } else {
                original_len = original_len + chunks_vec[k].data.len();
            }
            k += 1;
        }
        proof {
            lemma_reassemble_views(chunks_vec@, original_len as nat);
        }
        self.chunk_decoder.reassemble_chunks(chunks_vec.as_slice(), original_len)
    }
}

/// Chunk ids found in the valid chunks of a prefix of the blocks are found, the same,
/// in all of them; so are the completeness of a chunk range and the chosen copies.
proof fn lemma_prefix_choice(bytes: Seq<u8>, cb: nat, k: nat, n: nat, total: u16)
    requires
        k <= n,
        valid_chunks(bytes, cb, k).len() > 0,
        has_all(valid_chunks(bytes, cb, k), total),
    ensures
        valid_chunks(bytes, cb, n).len() > 0,
        valid_chunks(bytes, cb, n)[0] == valid_chunks(bytes, cb, k)[0],
        has_all(valid_chunks(bytes, cb, n), total),
        chosen_chunks(valid_chunks(bytes, cb, n), total) == chosen_chunks(valid_chunks(bytes, cb, k), total),
{
    lemma_valid_prefix(bytes, cb, k, n);
    assert forall|i: u16| i < total implies #[trigger] find_id(valid_chunks(bytes, cb, n), i) == find_id(valid_chunks(bytes, cb, k), i) by {
        assert(find_id(valid_chunks(bytes, cb, k), i) is Some);
        lemma_find_id_prefix(bytes, cb, k, n, i);
    }
    assert(chosen_chunks(valid_chunks(bytes, cb, n), total) =~= chosen_chunks(valid_chunks(bytes, cb, k), total));
}

impl DecoderChunked {
    /// Decodes the demodulated bits of a chunked frame: packs them into bytes, takes
    /// the chunk at the start of each 255-byte Reed-Solomon block, keeps the first copy
    /// of each chunk whose CRC is valid, and rebuilds the payload as soon as chunks 0 to
    /// `total - 1` are all present (`total` as the first valid chunk declares it).
    pub fn decode_bits(&self, bits: &[bool]) -> (res: Result<Vec<u8>>)
        ensures
            match res {
                Ok(v) => spec_decode_chunked(packed_bytes(bits@), (self.bits() / 8) as nat) == Ok::<Seq<u8>, AudioModemError>(v@),
                Err(e) => spec_decode_chunked(packed_bytes(bits@), (self.bits() / 8) as nat) == Err::<Seq<u8>, AudioModemError>(e),
            },
    {
        proof {
            use_type_invariant(self);
        }
        let all_bytes = pack_bits(bits);
        let ghost bytes = all_bytes@;
        let cb = self.chunk_bits / 8;
        let chunk_total = 7 + cb;
        let nblocks = all_bytes.len() / RS_TOTAL_BYTES;
        let mut firsts: Vec<Chunk> = Vec::new();
        let mut total_chunks: Option<u16> = None;
        let mut k: usize = 0;
        while k < nblocks
            invariant
                bytes == all_bytes@,
                bytes == packed_bytes(bits@),
                bytes.len() <= usize::MAX,
                nblocks == bytes.len() / 255,
                k <= nblocks,
                cb == self.bits() / 8,
                cb <= 8,
                chunk_total == 7 + cb,
                forall|id: u16| #[trigger] find_id(views(firsts@), id) == find_id(valid_chunks(bytes, cb as nat, k as nat), id),
                forall|i: int| 0 <= i < firsts@.len() ==> #[trigger] firsts@[i].data@.len() == cb,
                total_chunks == (if valid_chunks(bytes, cb as nat, k as nat).len() == 0 { None::<u16> } else {
                    Some(valid_chunks(bytes, cb as nat, k as nat)[0].0.total_chunks)
                }),
                total_chunks matches Some(t) ==> !has_all(valid_chunks(bytes, cb as nat, k as nat), t),
            decreases nblocks - k,
        {
            let ghost vk = valid_chunks(bytes, cb as nat, k as nat);
            let start = k * RS_TOTAL_BYTES;
            let fec_chunk = copy_range(all_bytes.as_slice(), start, start + RS_TOTAL_BYTES);
            match self.fec.decode(fec_chunk.as_slice()) {
                Ok(decoded) => {
                    let portion = copy_range(decoded.as_slice(), 0, chunk_total);
                    assert(portion@ =~= bytes.subrange((255 * k) as int, (255 * k + 7 + cb) as int));
                    match Chunk::from_bytes(portion.as_slice()) {
                        Ok(chunk) => {
                            assert(chunk@ == block_chunk(bytes, k as nat, cb as nat));
                            if chunk.validate_crc() {
                                let ghost vk1 = vk.push(chunk@);
                                assert(valid_chunks(bytes, cb as nat, (k + 1) as nat) == vk1);
                                if total_chunks.is_none() {
                                    total_chunks = Some(chunk.header.total_chunks);
                                }
                                let id = chunk.header.chunk_id;
                                let ghost fs0 = views(firsts@);
                                if index_of_id(&firsts, id).is_none() {
                                    firsts.push(chunk);
                                    proof {
                                        assert(views(firsts@) =~= fs0.push(vk1.last()));
                                        assert forall|j: u16| #[trigger] find_id(views(firsts@), j) == find_id(vk1, j) by {
                                            lemma_find_id_push(fs0, vk1.last(), j);
                                            lemma_find_id_push(vk, vk1.last(), j);
                                        }
                                    }
                                } else {
                                    proof {
                                        assert forall|j: u16| #[trigger] find_id(views(firsts@), j) == find_id(vk1, j) by {
                                            lemma_find_id_push(vk, chunk@, j);
                                        }
                                    }
                                }
                                let total = match total_chunks {
                                    Some(t) => t,
                                    None => 0,
                                };
                                assert(vk1[0] == if vk.len() == 0 { chunk@ } else { vk[0] });
                                if self.have_all_chunks(&firsts, total) {
                                    proof {
                                        assert forall|j: u16| j < total implies #[trigger] find_id(vk1, j) is Some by {
                                            assert(find_id(views(firsts@), j) is Some);
                                        }
                                        assert(has_all(vk1, total));
                                        assert(chosen_chunks(views(firsts@), total) =~= chosen_chunks(vk1, total));
                                        lemma_prefix_choice(bytes, cb as nat, (k + 1) as nat, nblocks as nat, total);
                                        assert(total == vk1[0].0.total_chunks);
                                        let v = valid_chunks(bytes, cb as nat, nblocks as nat);
                                        assert(bytes == packed_bytes(bits@));
                                        assert(v == valid_chunks(packed_bytes(bits@), (self.bits() / 8) as nat, packed_bytes(bits@).len() / 255));
                                        assert(v[0].0.total_chunks == total);
                                        assert(chosen_chunks(v, total) == chosen_chunks(views(firsts@), total));
                                    }
                                    return self.reassemble_and_return(&firsts, total);
                                }
                                proof {
                                    assert(!has_all(vk1, total)) by {
                                        if has_all(vk1, total) {
                                            assert forall|j: u16| j < total implies #[trigger] find_id(views(firsts@), j) is Some by {
                                                assert(find_id(vk1, j) is Some);
                                            }
                                        }
                                    }
                                }
                            }
                        },
                        Err(_) => {},
                    }
                },
                Err(_) => {},
            }
            k += 1;
        }
        Err(AudioModemError::InvalidFrameSize)
    }
}

// ---------------------------------------------------------------------
// The round trip of a chunked frame: the bits the encoder sends decode to the
// payload.

/// The value of the first `i` bits of a byte is the byte shifted right by `8 - i`.
proof fn lemma_byte_prefix_value(b: u8, i: nat)
    requires
        i <= 8,
    ensures
        bits_value(byte_bits(b).take(i as int)) == (b >> ((8 - i) as u8)) as nat,
    decreases i,
{
    if i == 0 {
        assert(byte_bits(b).take(0) =~= Seq::<bool>::empty());
        assert(b >> 8u8 == 0u8) by (bit_vector);
    } else {
        lemma_byte_prefix_value(b, (i - 1) as nat);
        let t = byte_bits(b).take(i as int);
        assert(t.drop_last() =~= byte_bits(b).take(i - 1));
        let s = (8 - i) as u8;
        assert(t.last() == ((b >> s) & 1u8 == 1u8));
        assert(s < 8 ==> (b >> s) as int == 2 * ((b >> (s + 1u8)) as int) + ((b >> s) & 1u8) as int
            && ((b >> s) & 1u8) < 2) by (bit_vector);
        assert((9 - i) as u8 == s + 1);
    }
}

/// Packing the bits of a byte gives the byte.
proof fn lemma_byte_value(b: u8)
    ensures
        bits_value(byte_bits(b)) == b as nat,
{
    lemma_byte_prefix_value(b, 8);
    assert(byte_bits(b).take(8) =~= byte_bits(b));
    assert(b >> 0u8 == b) by (bit_vector);
}

/// The bits of bytes are eight per byte, in order.
pub(crate) proof fn lemma_data_bits_shape(x: Seq<u8>)
    ensures
        data_bits(x).len() == 8 * x.len(),
        forall|k: int| 0 <= k < x.len() ==> #[trigger] data_bits(x).subrange(8 * k, 8 * k + 8) == byte_bits(x[k]),
    decreases x.len(),
{
    if x.len() > 0 {
        let y = x.drop_last();
        lemma_data_bits_shape(y);
        let d = data_bits(x);
        assert(d == data_bits(y) + byte_bits(x.last()));
        assert forall|k: int| 0 <= k < x.len() implies #[trigger] d.subrange(8 * k, 8 * k + 8) == byte_bits(x[k]) by {
            if k < x.len() - 1 {
                assert(d.subrange(8 * k, 8 * k + 8) =~= data_bits(y).subrange(8 * k, 8 * k + 8));
                assert(y[k] == x[k]);
            } else {
                assert(d.subrange(8 * k, 8 * k + 8) =~= byte_bits(x.last()));
            }
        }
    }
}

/// Packing the bits of bytes gives the bytes.
pub(crate) proof fn lemma_packed_data_bits(x: Seq<u8>)
    ensures
        packed_bytes(data_bits(x)) == x,
{
    lemma_data_bits_shape(x);
    let p = packed_bytes(data_bits(x));
    assert forall|k: int| 0 <= k < x.len() implies p[k] == x[k] by {
        assert(data_bits(x).subrange(8 * k, 8 * k + 8) == byte_bits(x[k]));
        lemma_byte_value(x[k]);
    }
    assert(p =~= x);
}

/// Every chunk of a sequence carries `cb` data bytes.
pub open spec fn all_sized(vs: Seq<(ChunkHeader, Seq<u8>)>, cb: nat) -> bool {
    forall|i: int| 0 <= i < vs.len() ==> (#[trigger] vs[i]).1.len() == cb
}

/// The blocks of a chunk sequence are 255 bytes each, and block `k` starts with the
/// bytes of chunk `k`.
proof fn lemma_blocks_layout(vs: Seq<(ChunkHeader, Seq<u8>)>, cb: nat)
    requires
        cb <= 8,
        all_sized(vs, cb),
        chunk_blocks(vs) is Some,
    ensures
        chunk_blocks(vs)->0.len() == 255 * vs.len(),
        forall|k: int| 0 <= k < vs.len() ==> #[trigger] chunk_blocks(vs)->0.subrange(255 * k, 255 * k + 7 + cb) == chunk_bytes(vs[k]),
    decreases vs.len(),
{
    if vs.len() > 0 {
        let y = vs.drop_last();
        assert(all_sized(y, cb)) by {
            assert forall|i: int| 0 <= i < y.len() implies (#[trigger] y[i]).1.len() == cb by {
                assert(y[i] == vs[i]);
            }
        }
        lemma_blocks_layout(y, cb);
        let a = chunk_blocks(y)->0;
        let c = vs.last();
        assert(c == vs[vs.len() - 1]);
        let blk = chunk_block(c)->0;
        let cbytes = chunk_bytes(c);
        lemma_chunk_roundtrip(c);
        assert(cbytes.len() == 7 + cb);
        assert(pad_block(cbytes).len() == 224);
        assert(blk.len() == 255);
        let b = chunk_blocks(vs)->0;
        assert(b == a + blk);
        assert forall|k: int| 0 <= k < vs.len() implies #[trigger] b.subrange(255 * k, 255 * k + 7 + cb) == chunk_bytes(vs[k]) by {
            if k < vs.len() - 1 {
                assert(a.subrange(255 * k, 255 * k + 7 + cb) == chunk_bytes(y[k]));
                assert(b.subrange(255 * k, 255 * k + 7 + cb) =~= a.subrange(255 * k, 255 * k + 7 + cb));
            } else {
                assert(b.subrange(255 * k, 255 * k + 7 + cb) =~= blk.take((7 + cb) as int));
                assert(blk.take((7 + cb) as int) =~= cbytes);
            }
        }
    }
}

/// Whether every chunk of a sequence has a valid CRC.
pub open spec fn all_crc_ok(vs: Seq<(ChunkHeader, Seq<u8>)>) -> bool {
    forall|i: int| 0 <= i < vs.len() ==> chunk_crc_ok(#[trigger] vs[i])
}

/// Reading the chunks back from the blocks of a valid chunk sequence gives the
/// sequence.
proof fn lemma_valid_chunks_of_blocks(vs: Seq<(ChunkHeader, Seq<u8>)>, cb: nat, m: nat)
    requires
        cb <= 8,
        all_sized(vs, cb),
        all_crc_ok(vs),
        chunk_blocks(vs) is Some,
        m <= vs.len(),
    ensures
        valid_chunks(chunk_blocks(vs)->0, cb, m) == vs.take(m as int),
    decreases m,
{
    if m == 0 {
        assert(vs.take(0) =~= Seq::<(ChunkHeader, Seq<u8>)>::empty());
    } else {
        lemma_valid_chunks_of_blocks(vs, cb, (m - 1) as nat);
        lemma_blocks_layout(vs, cb);
        let b = chunk_blocks(vs)->0;
        let k = (m - 1) as int;
        let c = vs[k];
        assert(b.subrange(255 * k, 255 * k + 7 + cb) == chunk_bytes(c));
        lemma_chunk_roundtrip(c);
        assert(block_chunk(b, (m - 1) as nat, cb) == c);
        assert(chunk_crc_ok(c));
        assert(vs.take(m as int) =~= vs.take(k).push(c));
    }
}

/// The concatenated data of the first `k` chunks of a split is the payload prefix
/// (then zero padding once past its end).
proof fn lemma_views_prefix(data: Seq<u8>, cb: nat, k: nat)
    requires
        cb > 0,
        k <= chunk_count(data.len(), cb),
    ensures
        k * cb <= data.len() ==> joined_views(split_views(data, cb).take(k as int)) == data.take((k * cb) as int),
        k * cb > data.len() ==> joined_views(split_views(data, cb).take(k as int)) == data + zeros((k * cb - data.len()) as nat),
    decreases k,
{
    let sv = split_views(data, cb);
    let n = chunk_count(data.len(), cb);
    if k == 0 {
        assert(sv.take(0) =~= Seq::<(ChunkHeader, Seq<u8>)>::empty());
        assert(k * cb == 0) by (nonlinear_arith) requires k == 0;
        assert(data.take(0) =~= Seq::<u8>::empty());
    } else {
        let j = (k - 1) as nat;
        lemma_views_prefix(data, cb, j);
        assert(sv.take(k as int).drop_last() =~= sv.take(j as int));
        assert(sv.take(k as int).last() == sv[j as int]);
        assert(sv[j as int].1 == padded_chunk(data, j, cb));
        assert(j * cb < data.len()) by (nonlinear_arith)
            requires
                j < n,
                n == (data.len() + cb - 1) / (cb as int),
                cb > 0,
        ;
        assert(k * cb == j * cb + cb) by (nonlinear_arith)
            requires k == j + 1;
        let sl = chunk_slice(data, j, cb);
        if k * cb <= data.len() {
            assert(sl == data.subrange((j * cb) as int, (k * cb) as int));
            assert(zeros((cb - sl.len()) as nat) =~= Seq::<u8>::empty());
            assert(joined_views(sv.take(k as int)) =~= data.take((k * cb) as int));
        } else {
            assert(sl == data.subrange((j * cb) as int, data.len() as int));
            assert(cb - sl.len() == k * cb - data.len());
            assert(joined_views(sv.take(k as int)) =~= data + zeros((k * cb - data.len()) as nat));
        }
    }
}

/// The chunks of a non-empty split declare the payload's length and reassemble to it.
proof fn lemma_split_views_reassemble(data: Seq<u8>, cb: nat)
    requires
        4 <= cb <= 8,
        data.len() > 0,
    ensures
        declared_length(split_views(data, cb)) == data.len(),
        reassemble_views(split_views(data, cb), data.len()) == Ok::<Seq<u8>, AudioModemError>(data),
{
    let sv = split_views(data, cb);
    let n = chunk_count(data.len(), cb);
    assert(n >= 1) by (nonlinear_arith)
        requires
            n == (data.len() + cb - 1) / (cb as int),
            cb > 0,
            data.len() > 0,
    ;
    assert(n * cb >= data.len()) by (nonlinear_arith)
        requires
            n == (data.len() + cb - 1) / (cb as int),
            cb > 0,
    ;
    let j = (n - 1) as nat;
    assert(j * cb < data.len()) by (nonlinear_arith)
        requires
            j < n,
            n == (data.len() + cb - 1) / (cb as int),
            cb > 0,
    ;
    assert(n * cb == j * cb + cb) by (nonlinear_arith)
        requires n == j + 1;
    lemma_views_prefix(data, cb, j);
    lemma_views_prefix(data, cb, n);
    assert(sv.drop_last() =~= sv.take(j as int));
    assert(sv.take(n as int) =~= sv);
    let sl = chunk_slice(data, j, cb);
    assert(sl.len() == data.len() - j * cb);
    assert(sv.last() == sv[j as int]);
    assert(sv.last().0.payload_len == sl.len());
    assert(all_crc_ok(sv));
    if n * cb <= data.len() {
        assert(data.take((n * cb) as int) =~= data);
    } else {
        assert((data + zeros((n * cb - data.len()) as nat)).take(data.len() as int) =~= data);
    }
}

/// Decoding the bits of an encoded chunked frame gives the payload back: for a
/// non-empty payload of at most 65535 chunks, sent `factor >= 1` times, whenever every
/// block encodes.
pub proof fn lemma_chunked_roundtrip(data: Seq<u8>, chunk_bits: usize, factor: nat)
    requires
        valid_chunk_bits(chunk_bits),
        data.len() > 0,
        factor >= 1,
        chunk_count(data.len(), (chunk_bits / 8) as nat) <= 65535,
        chunk_blocks(repeated_views(split_views(data, (chunk_bits / 8) as nat), factor)) is Some,
    ensures
        spec_decode_chunked(
            packed_bytes(data_bits(chunk_blocks(repeated_views(split_views(data, (chunk_bits / 8) as nat), factor))->0)),
            (chunk_bits / 8) as nat,
        ) == Ok::<Seq<u8>, AudioModemError>(data),
{
    let cb = (chunk_bits / 8) as nat;
    let sv = split_views(data, cb);
    let n = chunk_count(data.len(), cb);
    let vs = repeated_views(sv, factor);
    assert(n >= 1) by (nonlinear_arith)
        requires
            n == (data.len() + cb - 1) / (cb as int),
            cb > 0,
            data.len() > 0,
    ;
    assert(vs.len() == factor * n);
    assert(vs.len() >= n) by (nonlinear_arith)
        requires vs.len() == factor * n, factor >= 1;
    assert forall|i: int| 0 <= i < vs.len() implies #[trigger] vs[i] == sv[i % (n as int)] && 0 <= i % (n as int) < n by {}
    assert(all_sized(vs, cb)) by {
        assert forall|i: int| 0 <= i < vs.len() implies (#[trigger] vs[i]).1.len() == cb by {
            lemma_padded_len(data, (i % (n as int)) as nat, cb);
        }
    }
    assert(all_crc_ok(vs));
    let b = chunk_blocks(vs)->0;
    lemma_packed_data_bits(b);
    lemma_blocks_layout(vs, cb);
    assert(b.len() / 255 == vs.len());
    lemma_valid_chunks_of_blocks(vs, cb, vs.len());
    assert(vs.take(vs.len() as int) =~= vs);
    let v = valid_chunks(b, cb, b.len() / 255);
    assert(v == vs);
    let total = v[0].0.total_chunks;
    assert(vs[0] == sv[0]);
    assert(total == n as u16);
    assert(total as nat == n);
    // Chunk `i` is found first at position `i`.
    assert forall|i: u16| i < total implies #[trigger] find_id(v, i) == Some(sv[i as int]) by {
        assert((i as nat) < n);
        vstd::arithmetic::div_mod::lemma_small_mod(i as nat, n);
        assert(vs[i as int] == sv[i as int]);
        assert forall|j: int| 0 <= j < i implies #[trigger] v[j].0.chunk_id != i by {
            vstd::arithmetic::div_mod::lemma_small_mod(j as nat, n);
            assert(v[j] == sv[j]);
        }
        lemma_find_id_first(v, i, i as int);
    }
    assert(has_all(v, total));
    assert(chosen_chunks(v, total) =~= sv);
    lemma_split_views_reassemble(data, cb);
}

} // verus!
