use vstd::prelude::*;
use crate::bytes::{be16, be16_bytes, lemma_be16_roundtrip, split_be16, join_be16, append_slice, copy_range, zeros};
use crate::error::{AudioModemError, Result};
use crate::framing::{crc16, spec_crc16};

verus! {

/// CRC-16-CCITT used to validate chunk data.
pub fn calculate_crc16(data: &[u8]) -> (res: u16)
    ensures
        res == spec_crc16(data@),
{
    crc16(data)
}

/// Chunk header: chunk id, total chunks, unpadded payload length, CRC-16 of the data.
#[derive(Clone, Copy, Debug)]
pub struct ChunkHeader {
    pub chunk_id: u16,
    pub total_chunks: u16,
    /// Original payload length (for the last chunk to know its padding)
    pub payload_len: u8,
    pub crc16: u16,
}

/// The seven bytes of a chunk header.
pub open spec fn header_bytes(h: ChunkHeader) -> Seq<u8> {
    be16_bytes(h.chunk_id) + be16_bytes(h.total_chunks) + seq![h.payload_len] + be16_bytes(h.crc16)
}

/// The header read from the first seven bytes of a sequence.
pub open spec fn header_from(data: Seq<u8>) -> ChunkHeader {
    ChunkHeader {
        chunk_id: be16(data[0], data[1]),
        total_chunks: be16(data[2], data[3]),
        payload_len: data[4],
        crc16: be16(data[5], data[6]),
    }
}

impl ChunkHeader {
    /// Creates a chunk header.
    pub fn new(chunk_id: u16, total_chunks: u16, payload_len: u8, crc16: u16) -> (res: Self)
        ensures
            res == (ChunkHeader { chunk_id, total_chunks, payload_len, crc16 }),
    {
        Self { chunk_id, total_chunks, payload_len, crc16 }
    }

    /// Encodes the header to its seven bytes.
    pub fn to_bytes(&self) -> (res: Vec<u8>)
        ensures
            res@ == header_bytes(*self),
    {
        let (a0, a1) = split_be16(self.chunk_id);
        let (b0, b1) = split_be16(self.total_chunks);
        let (c0, c1) = split_be16(self.crc16);
        let mut v: Vec<u8> = Vec::new();
        v.push(a0);
        v.push(a1);
        v.push(b0);
        v.push(b1);
        v.push(self.payload_len);
        v.push(c0);
        v.push(c1);
        assert(v@ == header_bytes(*self));
        v
    }

    /// Decodes a header from its first seven bytes.
    pub fn from_bytes(data: &[u8]) -> (res: Result<Self>)
        ensures
            data@.len() < 7 ==> res == Err::<ChunkHeader, AudioModemError>(AudioModemError::InvalidFrameSize),
            data@.len() >= 7 ==> res == Ok::<ChunkHeader, AudioModemError>(header_from(data@)),
    {
        if data.len() < 7 {
            return Err(AudioModemError::InvalidFrameSize);
        }
        let chunk_id = join_be16(data[0], data[1]);
        let total_chunks = join_be16(data[2], data[3]);
        let payload_len = data[4];
        let crc16 = join_be16(data[5], data[6]);
        Ok(Self { chunk_id, total_chunks, payload_len, crc16 })
    }
}

/// Reading back the bytes of a header gives the header.
pub proof fn lemma_header_roundtrip(h: ChunkHeader)
    ensures
        header_from(header_bytes(h)) == h,
        header_bytes(h).len() == 7,
{
    lemma_be16_roundtrip(h.chunk_id);
    lemma_be16_roundtrip(h.total_chunks);
    lemma_be16_roundtrip(h.crc16);
}

/// A chunk: a header and its (possibly padded) data.
#[derive(Clone, Debug)]
pub struct Chunk {
    pub header: ChunkHeader,
    pub data: Vec<u8>,
}

impl View for Chunk {
    type V = (ChunkHeader, Seq<u8>);

    open spec fn view(&self) -> Self::V {
        (self.header, self.data@)
    }
}

/// The bytes of a chunk: header then data.
pub open spec fn chunk_bytes(c: (ChunkHeader, Seq<u8>)) -> Seq<u8> {
    header_bytes(c.0) + c.1
}

/// Whether a chunk's stored CRC matches its data.
pub open spec fn chunk_crc_ok(c: (ChunkHeader, Seq<u8>)) -> bool {
    spec_crc16(c.1) == c.0.crc16
}

impl Chunk {
    /// Creates a chunk whose header carries the data length and CRC.
    pub fn new(chunk_id: u16, total_chunks: u16, data: Vec<u8>) -> (res: Self)
        ensures
            res@ == (ChunkHeader {
                chunk_id,
                total_chunks,
                payload_len: (data@.len() % 256) as u8,
                crc16: spec_crc16(data@),
            }, data@),
    {
        let crc16 = calculate_crc16(data.as_slice());
        let payload_len = (data.len() % 256) as u8;
        let header = ChunkHeader::new(chunk_id, total_chunks, payload_len, crc16);
        Self { header, data }
    }

    /// Creates a chunk recording an explicit unpadded length (capped at 255).
    pub fn with_payload_len(chunk_id: u16, total_chunks: u16, data: Vec<u8>, actual_len: usize) -> (res: Self)
        ensures
            res@ == (ChunkHeader {
                chunk_id,
                total_chunks,
                payload_len: if actual_len < 255 { actual_len as u8 } else { 255u8 },
                crc16: spec_crc16(data@),
            }, data@),
    {
        let crc16 = calculate_crc16(data.as_slice());
        let payload_len: u8 = if actual_len < 255 { actual_len as u8 } else { 255 };
        let header = ChunkHeader::new(chunk_id, total_chunks, payload_len, crc16);
        Self { header, data }
    }

    /// Checks the chunk's CRC against its data.
    pub fn validate_crc(&self) -> (res: bool)
        ensures
            res == chunk_crc_ok(self@),
    {
        let calculated_crc = calculate_crc16(self.data.as_slice());
        calculated_crc == self.header.crc16
    }

    /// Encodes the chunk: header bytes then data.
    pub fn to_bytes(&self) -> (res: Vec<u8>)
        ensures
            res@ == chunk_bytes(self@),
    {
        let mut result = self.header.to_bytes();
        append_slice(&mut result, self.data.as_slice());
        result
    }

    /// Decodes a chunk: the first seven bytes are the header, the rest is data.
    pub fn from_bytes(data: &[u8]) -> (res: Result<Self>)
        ensures
            data@.len() < 7 ==> res is Err && res == Err::<Chunk, AudioModemError>(AudioModemError::InvalidFrameSize),
            data@.len() >= 7 ==> (res matches Ok(c) && c@ == (header_from(data@), data@.skip(7))),
    {
        if data.len() < 7 {
            return Err(AudioModemError::InvalidFrameSize);
        }
        let head = copy_range(data, 0, 7);
        let header = match ChunkHeader::from_bytes(head.as_slice()) {
            Ok(h) => h,
            Err(e) => return Err(e),
        };
        let chunk_data = copy_range(data, 7, data.len());
        assert(chunk_data@ == data@.skip(7));
        Ok(Self { header, data: chunk_data })
    }

    /// A copy of the chunk with the same header and data.
    pub fn duplicate(&self) -> (res: Self)
        ensures
            res@ == self@,
    {
        let data = copy_range(self.data.as_slice(), 0, self.data.len());
        assert(data@ == self.data@);
        Chunk { header: self.header, data }
    }
}

/// Decoding the bytes of a chunk gives back the chunk.
pub proof fn lemma_chunk_roundtrip(c: (ChunkHeader, Seq<u8>))
    ensures
        chunk_bytes(c).len() >= 7,
        header_from(chunk_bytes(c)) == c.0,
        chunk_bytes(c).skip(7) == c.1,
{
    lemma_header_roundtrip(c.0);
    let b = chunk_bytes(c);
    assert(b.take(7) == header_bytes(c.0));
    assert(b.skip(7) == c.1);
    assert forall|i: int| 0 <= i < 7 implies b[i] == header_bytes(c.0)[i] by {}
}

// ---------------------------------------------------------------------
// Splitting and reassembly

/// Whether a chunk size in bits is supported.
pub open spec fn valid_chunk_bits(bits: usize) -> bool {
    bits == 32 || bits == 48 || bits == 64
}

/// The message for an unsupported chunk size.
pub open spec fn chunk_bits_text() -> Seq<char> {
    "chunk_bits must be 32, 48, or 64"@
}

/// The number of chunks `len` bytes split into.
pub open spec fn chunk_count(len: nat, chunk_bytes: nat) -> nat {
    ((len + chunk_bytes - 1) as nat / chunk_bytes) as nat
}

/// The unpadded data of chunk `i`.
pub open spec fn chunk_slice(data: Seq<u8>, i: nat, chunk_bytes: nat) -> Seq<u8> {
    let start = i * chunk_bytes;
    let end = if start + chunk_bytes <= data.len() { start + chunk_bytes } else { data.len() };
    data.subrange(start as int, end as int)
}

/// The data of chunk `i`, padded with zeros to the chunk size.
pub open spec fn padded_chunk(data: Seq<u8>, i: nat, chunk_bytes: nat) -> Seq<u8> {
    chunk_slice(data, i, chunk_bytes) + zeros((chunk_bytes - chunk_slice(data, i, chunk_bytes).len()) as nat)
}

/// Whether `chunks` is the split of `data` into chunks of `chunk_bytes` bytes.
pub open spec fn is_split_of(chunks: Seq<Chunk>, data: Seq<u8>, chunk_bytes: nat) -> bool {
    let n = chunk_count(data.len(), chunk_bytes);
    &&& chunks.len() == n
    &&& forall|i: int|
        #![trigger chunks[i]]
        0 <= i < n ==> chunks[i]@ == (ChunkHeader {
            chunk_id: i as u16,
            total_chunks: n as u16,
            payload_len: chunk_slice(data, i as nat, chunk_bytes).len() as u8,
            crc16: spec_crc16(padded_chunk(data, i as nat, chunk_bytes)),
        }, padded_chunk(data, i as nat, chunk_bytes))
}

/// The concatenated data of a sequence of chunks.
pub open spec fn joined_data(chunks: Seq<Chunk>) -> Seq<u8>
    decreases chunks.len(),
{
    if chunks.len() == 0 {
        Seq::empty()
    } else {
        joined_data(chunks.drop_last()) + chunks.last().data@
    }
}

/// What reassembling chunks into `total_len` bytes gives.
pub open spec fn spec_reassemble(chunks: Seq<Chunk>, total_len: nat) -> core::result::Result<Seq<u8>, AudioModemError> {
    if chunks.len() == 0 {
        Err(AudioModemError::InvalidFrameSize)
    } else if exists|i: int| 0 <= i < chunks.len() && !chunk_crc_ok(#[trigger] chunks[i]@) {
        Err(AudioModemError::HeaderCrcMismatch)
    } else if total_len <= joined_data(chunks).len() {
        Ok(joined_data(chunks).take(total_len as int))
    } else {
        Ok(joined_data(chunks))
    }
}

/// Chunk encoder: splits a payload into chunks with headers.
pub struct ChunkEncoder {
    chunk_bits: usize,
}

impl ChunkEncoder {
    #[verifier::type_invariant]
    spec fn inv(self) -> bool {
        valid_chunk_bits(self.chunk_bits)
    }

    /// The chunk size in bits.
    pub closed spec fn bits(self) -> usize {
        self.chunk_bits
    }

    /// Creates a chunk encoder for 32, 48 or 64 bits per chunk.
    pub fn new(chunk_bits: usize) -> (res: Result<Self>)
        ensures
            valid_chunk_bits(chunk_bits) <==> res is Ok,
            res matches Ok(e) ==> e.bits() == chunk_bits,
            !valid_chunk_bits(chunk_bits) ==> (res matches Err(AudioModemError::InvalidConfig(m)) && m@ == chunk_bits_text()),
    {
        if !(chunk_bits == 32 || chunk_bits == 48 || chunk_bits == 64) {
            return Err(AudioModemError::InvalidConfig("chunk_bits must be 32, 48, or 64".to_string()));
        }
        Ok(Self { chunk_bits })
    }

    /// Splits a payload into zero-padded chunks that record their unpadded length.
    pub fn split_into_chunks(&self, data: &[u8]) -> (res: Vec<Chunk>)
        requires
            data@.len() + 8 <= usize::MAX,
        ensures
            valid_chunk_bits(self.bits()),
            is_split_of(res@, data@, (self.bits() / 8) as nat),
    {
        proof {
            use_type_invariant(self);
        }
        let chunk_bytes = self.chunk_bits / 8;
        let mut chunks: Vec<Chunk> = Vec::new();
        let total_chunks = (data.len() + chunk_bytes - 1) / chunk_bytes;
        let ghost cb = chunk_bytes as nat;
        let mut i: usize = 0;
        while i < total_chunks
            invariant
                chunk_bytes == self.chunk_bits / 8,
                cb == chunk_bytes as nat,
                4 <= chunk_bytes <= 8,
                data@.len() + 8 <= usize::MAX,
                total_chunks == chunk_count(data@.len(), cb),
                i <= total_chunks,
                chunks@.len() == i,
                forall|j: int|
                    #![trigger chunks@[j]]
                    0 <= j < i ==> chunks@[j]@ == (ChunkHeader {
                        chunk_id: j as u16,
                        total_chunks: total_chunks as u16,
                        payload_len: chunk_slice(data@, j as nat, cb).len() as u8,
                        crc16: spec_crc16(padded_chunk(data@, j as nat, cb)),
                    }, padded_chunk(data@, j as nat, cb)),
            decreases total_chunks - i,
        {
            proof {
                assert(total_chunks as int == (data@.len() + chunk_bytes - 1) / (chunk_bytes as int));
                assert(i * chunk_bytes < data@.len()) by (nonlinear_arith)
                    requires
                        i < total_chunks,
                        total_chunks == (data@.len() + chunk_bytes - 1) / (chunk_bytes as int),
                        chunk_bytes > 0,
                ;
            }
            let start = i * chunk_bytes;
            let end = if start + chunk_bytes <= data.len() { start + chunk_bytes } else { data.len() };
            let actual_len = end - start;
            assert(start as nat == (i as nat) * cb);
            let mut chunk_data = copy_range(data, start, end);
            assert(chunk_data@ == chunk_slice(data@, i as nat, cb));
            let ghost sl = chunk_data@;
            while chunk_data.len() < chunk_bytes
                invariant
                    sl.len() <= chunk_data@.len() <= chunk_bytes,
                    chunk_data@ == sl + zeros((chunk_data@.len() - sl.len()) as nat),
                decreases chunk_bytes - chunk_data.len(),
            {
                chunk_data.push(0);
                assert(chunk_data@ == sl + zeros((chunk_data@.len() - sl.len()) as nat));
            }
            assert(chunk_data@ == padded_chunk(data@, i as nat, cb));
            let chunk = Chunk::with_payload_len(i as u16, total_chunks as u16, chunk_data, actual_len);
            chunks.push(chunk);
            i += 1;
        }
        chunks
    }
}

/// Chunk decoder: validates and reassembles chunks.
pub struct ChunkDecoder {
    chunk_bits: usize,
}

impl ChunkDecoder {
    #[verifier::type_invariant]
    spec fn inv(self) -> bool {
        valid_chunk_bits(self.chunk_bits)
    }

    /// The chunk size in bits.
    pub closed spec fn bits(self) -> usize {
        self.chunk_bits
    }

    /// Creates a chunk decoder for 32, 48 or 64 bits per chunk.
    pub fn new(chunk_bits: usize) -> (res: Result<Self>)
        ensures
            valid_chunk_bits(chunk_bits) <==> res is Ok,
            res matches Ok(d) ==> d.bits() == chunk_bits,
            !valid_chunk_bits(chunk_bits) ==> (res matches Err(AudioModemError::InvalidConfig(m)) && m@ == chunk_bits_text()),
    {
        if !(chunk_bits == 32 || chunk_bits == 48 || chunk_bits == 64) {
            return Err(AudioModemError::InvalidConfig("chunk_bits must be 32, 48, or 64".to_string()));
        }
        Ok(Self { chunk_bits })
    }

    /// Validates every chunk's CRC and joins their data, truncated to `total_len`.
    pub fn reassemble_chunks(&self, chunks: &[Chunk], total_len: usize) -> (res: Result<Vec<u8>>)
        ensures
            match res {
                Ok(v) => spec_reassemble(chunks@, total_len as nat) == Ok::<Seq<u8>, AudioModemError>(v@),
                Err(e) => spec_reassemble(chunks@, total_len as nat) == Err::<Seq<u8>, AudioModemError>(e),
            },
    {
        if chunks.len() == 0 {
            return Err(AudioModemError::InvalidFrameSize);
        }
        let mut result: Vec<u8> = Vec::new();
        let mut i: usize = 0;
        while i < chunks.len()
            invariant
                i <= chunks@.len(),
                result@ == joined_data(chunks@.take(i as int)),
                forall|j: int| 0 <= j < i ==> chunk_crc_ok(#[trigger] chunks@[j]@),
            decreases chunks.len() - i,
        {
            if !chunks[i].validate_crc() {
                return Err(AudioModemError::HeaderCrcMismatch);
            }
            append_slice(&mut result, chunks[i].data.as_slice());
            i += 1;
            assert(chunks@.take(i as int).drop_last() == chunks@.take((i - 1) as int));
        }
        assert(chunks@.take(chunks.len() as int) == chunks@);
        result.truncate(total_len);
        Ok(result)
    }
}

/// Repeats the chunk sequence `factor` times, for redundancy.
pub fn interleave_chunks(chunks: Vec<Chunk>, factor: usize) -> (res: Vec<Chunk>)
    requires
        factor * chunks@.len() <= usize::MAX,
    ensures
        res@.len() == factor * chunks@.len(),
        forall|i: int| 0 <= i < res@.len() ==> #[trigger] res@[i]@ == chunks@[i % (chunks@.len() as int)]@,
{
    let mut interleaved: Vec<Chunk> = Vec::new();
    let n = chunks.len();
    let mut r: usize = 0;
    while r < factor
        invariant
            n == chunks@.len(),
            factor * n <= usize::MAX,
            r <= factor,
            interleaved@.len() == r * n,
            forall|i: int| 0 <= i < interleaved@.len() ==> #[trigger] interleaved@[i]@ == chunks@[i % (n as int)]@,
        decreases factor - r,
    {
        let mut k: usize = 0;
        while k < n
            invariant
                n == chunks@.len(),
                factor * n <= usize::MAX,
                r < factor,
                k <= n,
                interleaved@.len() == r * n + k,
                forall|i: int| 0 <= i < interleaved@.len() ==> #[trigger] interleaved@[i]@ == chunks@[i % (n as int)]@,
            decreases n - k,
        {
            proof {
                assert(r * n + k < factor * n) by (nonlinear_arith)
                    requires r < factor, k < n;
                assert((r * n + k) % (n as int) == k) by (nonlinear_arith)
                    requires k < n, 0 <= r;
            }
            interleaved.push(chunks[k].duplicate());
            k += 1;
        }
        proof {
            assert((r + 1) * n == r * n + n) by (nonlinear_arith);
        }
        r += 1;
    }
    interleaved
}

// ---------------------------------------------------------------------
// Laws

proof fn lemma_chunk_prefix(data: Seq<u8>, cb: nat, chunks: Seq<Chunk>, k: nat)
    requires
        cb > 0,
        is_split_of(chunks, data, cb),
        k <= chunks.len(),
    ensures
        k * cb <= data.len() ==> joined_data(chunks.take(k as int)) == data.take((k * cb) as int),
        k * cb > data.len() ==> joined_data(chunks.take(k as int)) == data + zeros((k * cb - data.len()) as nat),
    decreases k,
{
    let n = chunk_count(data.len(), cb);
    if k == 0 {
        assert(chunks.take(0) =~= Seq::<Chunk>::empty());
        assert(joined_data(chunks.take(0)) == Seq::<u8>::empty());
        assert(k * cb == 0) by (nonlinear_arith) requires k == 0;
        assert(data.take(0) =~= Seq::<u8>::empty());
    } else {
        let j = (k - 1) as nat;
        lemma_chunk_prefix(data, cb, chunks, j);
        assert(chunks.take(k as int).drop_last() =~= chunks.take(j as int));
        let c = chunks[j as int];
        assert(chunks.take(k as int).last() == c);
        assert(joined_data(chunks.take(k as int)) == joined_data(chunks.take(j as int)) + c.data@);
        assert(c.data@ == padded_chunk(data, j, cb));
        assert(n == (data.len() + cb - 1) / (cb as int));
        assert(j * cb < data.len()) by (nonlinear_arith)
            requires
                j < n,
                n == (data.len() + cb - 1) / (cb as int),
                cb > 0,
        ;
        assert(k * cb == j * cb + cb) by (nonlinear_arith)
            requires k == j + 1;
        let prev = joined_data(chunks.take(j as int));
        assert(prev == data.take((j * cb) as int));
        let sl = chunk_slice(data, j, cb);
        if k * cb <= data.len() {
            assert(sl == data.subrange((j * cb) as int, (k * cb) as int));
            assert(zeros((cb - sl.len()) as nat) =~= Seq::<u8>::empty());
            assert(joined_data(chunks.take(k as int)) =~= data.take((k * cb) as int));
        } else {
            assert(sl == data.subrange((j * cb) as int, data.len() as int));
            assert(cb - sl.len() == k * cb - data.len());
            assert(joined_data(chunks.take(k as int)) =~= data + zeros((k * cb - data.len()) as nat));
        }
    }
}

/// Splitting a non-empty payload into chunks and reassembling them to the
/// payload's length gives back the payload.
pub proof fn lemma_split_reassemble(data: Seq<u8>, chunk_bits: usize, chunks: Seq<Chunk>)
    requires
        valid_chunk_bits(chunk_bits),
        data.len() > 0,
        is_split_of(chunks, data, (chunk_bits / 8) as nat),
    ensures
        spec_reassemble(chunks, data.len()) == Ok::<Seq<u8>, AudioModemError>(data),
{
    let cb = (chunk_bits / 8) as nat;
    let n = chunks.len();
    assert(n >= 1) by (nonlinear_arith)
        requires
            n == (data.len() + cb - 1) / (cb as int),
            cb > 0,
            data.len() > 0,
    ;
    assert forall|i: int| 0 <= i < chunks.len() implies chunk_crc_ok(#[trigger] chunks[i]@) by {}
    lemma_chunk_prefix(data, cb, chunks, n);
    assert(chunks.take(n as int) == chunks);
    assert(n * cb >= data.len()) by (nonlinear_arith)
        requires
            n == (data.len() + cb - 1) / (cb as int),
            cb > 0,
    ;
    if n * cb <= data.len() {
        assert(data.take((n * cb) as int) == data);
    } else {
        assert((data + zeros((n * cb - data.len()) as nat)).take(data.len() as int) == data);
    }
}


/// A chunk whose CRC checks out fails the check once any one byte of its data changes.
pub proof fn lemma_chunk_detects_byte_change(c: (ChunkHeader, Seq<u8>), i: int, b: u8)
    requires
        chunk_crc_ok(c),
        0 <= i < c.1.len(),
        b != c.1[i],
    ensures
        !chunk_crc_ok((c.0, c.1.update(i, b))),
{
    crate::framing::lemma_crc16_detects_byte_change(c.1, i, b);
}

} // verus!
