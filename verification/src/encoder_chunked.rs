use vstd::prelude::*;
use crate::chunking::{chunk_bits_text, Chunk, ChunkEncoder, ChunkHeader, chunk_bytes, header_bytes, chunk_count, chunk_slice, padded_chunk, is_split_of, interleave_chunks, valid_chunk_bits};
use crate::error::{AudioModemError, Result};
use crate::fec::{FecEncoder, FecMode, fec_parity, pad_block};
use crate::framing::spec_crc16;
use crate::trellis::{byte_bits, data_bits};
use crate::{RS_DATA_BYTES, RS_ECC_BYTES};

verus! {

// ---------------------------------------------------------------------
// Sending chunked frames: the payload is split into chunks, the chunk
// sequence is repeated, and every chunk travels in its own full-parity
// Reed-Solomon block, bit by bit, most significant bit first.

/// The chunks a payload splits into (as views).
pub open spec fn split_views(data: Seq<u8>, cb: nat) -> Seq<(ChunkHeader, Seq<u8>)> {
    let n = chunk_count(data.len(), cb);
    Seq::new(n, |i: int| (ChunkHeader {
        chunk_id: i as u16,
        total_chunks: n as u16,
        payload_len: chunk_slice(data, i as nat, cb).len() as u8,
        crc16: spec_crc16(padded_chunk(data, i as nat, cb)),
    }, padded_chunk(data, i as nat, cb)))
}

/// The chunk sequence repeated `factor` times.
pub open spec fn repeated_views(s: Seq<(ChunkHeader, Seq<u8>)>, factor: nat) -> Seq<(ChunkHeader, Seq<u8>)> {
    Seq::new(factor * s.len(), |i: int| s[i % (s.len() as int)])
}

/// The full-parity Reed-Solomon block of a chunk (its data zero-padded to 223 bytes,
/// then 32 parity bytes), when the codec succeeds.
pub open spec fn chunk_block(c: (ChunkHeader, Seq<u8>)) -> Option<Seq<u8>> {
    match fec_parity(chunk_bytes(c), FecMode::Full) {
        Some(p) => if p.len() == RS_ECC_BYTES {
            Some(pad_block(chunk_bytes(c)).take(RS_DATA_BYTES as int) + p)
        } else {
            None
        },
        None => None,
    }
}

/// The blocks of a chunk sequence, one after another, when every block encodes.
pub open spec fn chunk_blocks(vs: Seq<(ChunkHeader, Seq<u8>)>) -> Option<Seq<u8>>
    decreases vs.len(),
{
    if vs.len() == 0 {
        Some(Seq::empty())
    } else {
        match (chunk_blocks(vs.drop_last()), chunk_block(vs.last())) {
            (Some(a), Some(b)) => Some(a + b),
            _ => None,
        }
    }
}

/// Chunked frame encoder (the bit stream; its modulation is done outside).
pub struct EncoderChunked {
    fec: FecEncoder,
    chunk_encoder: ChunkEncoder,
    chunk_bits: usize,
    interleave_factor: usize,
}

impl EncoderChunked {
    #[verifier::type_invariant]
    spec fn inv(self) -> bool {
        valid_chunk_bits(self.chunk_bits) && self.chunk_encoder.bits() == self.chunk_bits
    }

    /// The chunk size in bits.
    pub closed spec fn bits(self) -> usize {
        self.chunk_bits
    }

    /// How many times the chunk sequence is sent.
    pub closed spec fn factor(self) -> usize {
        self.interleave_factor
    }

    /// Creates an encoder for 32, 48 or 64 bits per chunk, sending every chunk
    /// `interleave_factor` times.
    pub fn new(chunk_bits: usize, interleave_factor: usize) -> (res: Result<Self>)
        ensures
            valid_chunk_bits(chunk_bits) <==> res is Ok,
            res matches Ok(e) ==> e.bits() == chunk_bits && e.factor() == interleave_factor,
            !valid_chunk_bits(chunk_bits) ==> (res matches Err(AudioModemError::InvalidConfig(m)) && m@ == chunk_bits_text()),
    {
        let fec = match FecEncoder::new() {
            Ok(f) => f,
            Err(e) => return Err(e),
        };
        let chunk_encoder = match ChunkEncoder::new(chunk_bits) {
            Ok(c) => c,
            Err(e) => return Err(e),
        };
        Ok(Self { fec, chunk_encoder, chunk_bits, interleave_factor })
    }

    /// The bits of a chunked frame: the chunk sequence `factor` times, each chunk as
    /// a full-parity Reed-Solomon block, most significant bit first.
    pub fn encode_bits(&self, data: &[u8]) -> (res: Result<Vec<bool>>)
        requires
            data@.len() + 8 <= usize::MAX,
            self.factor() * chunk_count(data@.len(), (self.bits() / 8) as nat) <= usize::MAX / 2048,
        ensures
            ({
                let vs = repeated_views(split_views(data@, (self.bits() / 8) as nat), self.factor() as nat);
                &&& res is Ok
                &&& chunk_blocks(vs) is Some
                &&& (res matches Ok(b) ==> b@ == data_bits(chunk_blocks(vs)->0))
            }),
    {
        proof {
            use_type_invariant(self);
        }
        let ghost cb = (self.chunk_bits / 8) as nat;
        let chunks = self.chunk_encoder.split_into_chunks(data);
        let ghost sv = split_views(data@, cb);
        proof {
            assert forall|i: int| 0 <= i < chunks@.len() implies #[trigger] chunks@[i]@ == sv[i] by {}
        }
        let inter = interleave_chunks(chunks, self.interleave_factor);
        let ghost vs = repeated_views(sv, self.interleave_factor as nat);
        assert(inter@.len() == vs.len());
        proof {
            assert(chunks@.len() == sv.len());
            assert forall|i: int| 0 <= i < inter@.len() implies #[trigger] inter@[i]@ == vs[i] by {
                assert(chunks@.len() > 0) by (nonlinear_arith)
                    requires
                        inter@.len() == self.interleave_factor * chunks@.len(),
                        0 <= i < inter@.len(),
                ;
                let j = i % (chunks@.len() as int);
                assert(0 <= j < chunks@.len());
                assert(inter@[i]@ == chunks@[j]@);
                assert(chunks@[j]@ == sv[j]);
            }
        }
        let mut bits: Vec<bool> = Vec::new();
        let mut k: usize = 0;
        while k < inter.len()
            invariant
                k <= inter@.len(),
                inter@.len() == vs.len(),
                vs == repeated_views(sv, self.interleave_factor as nat),
                sv == split_views(data@, cb),
                cb == (self.chunk_bits / 8) as nat,
                4 <= cb <= 8,
                vs.len() <= usize::MAX / 2048,
                forall|i: int| 0 <= i < inter@.len() ==> #[trigger] inter@[i]@ == vs[i],
                chunk_blocks(vs.take(k as int)) is Some,
                bits@ == data_bits(chunk_blocks(vs.take(k as int))->0),
            decreases inter.len() - k,
        {
            let chunk_bytes_v = inter[k].to_bytes();
            assert(chunk_bytes_v@ == chunk_bytes(vs[k as int]));
            proof {
                assert(sv.len() > 0);
                let i = k as int % (sv.len() as int);
                assert(0 <= i < sv.len());
                assert(vs[k as int] == sv[i]);
                lemma_padded_len(data@, i as nat, cb);
                assert(vs[k as int].1.len() == cb);
            }
            let fec_chunk = match self.fec.encode(chunk_bytes_v.as_slice()) {
                Ok(f) => f,
                Err(e) => {
                    proof {
                        assert(chunk_bytes_v@.len() == header_bytes(vs[k as int].0).len() + cb);
                    }
                    return Err(e);
                },
            };
            let ghost prev_bytes = chunk_blocks(vs.take(k as int))->0;
            let mut j: usize = 0;
            while j < fec_chunk.len()
                invariant
                    j <= fec_chunk@.len(),
                    bits@ == data_bits(prev_bytes + fec_chunk@.take(j as int)),
                decreases fec_chunk.len() - j,
            {
                let byte = fec_chunk[j];
                let mut i: u8 = 0;
                let ghost before = bits@;
                while i < 8
                    invariant
                        i <= 8,
                        bits@ == before + byte_bits(byte).take(i as int),
                    decreases 8 - i,
                {
                    bits.push((byte >> (7 - i)) & 1 == 1);
                    i += 1;
                    assert(bits@ =~= before + byte_bits(byte).take(i as int));
                }
                assert(byte_bits(byte).take(8) =~= byte_bits(byte));
                proof {
                    let nxt = prev_bytes + fec_chunk@.take(j + 1);
                    assert(nxt.drop_last() =~= prev_bytes + fec_chunk@.take(j as int));
                    assert(nxt.last() == byte);
                }
                j += 1;
            }
            proof {
                assert(fec_chunk@.take(fec_chunk@.len() as int) =~= fec_chunk@);
                assert(vs.take(k + 1).drop_last() =~= vs.take(k as int));
                assert(vs.take(k + 1).last() == vs[k as int]);
            }
            k += 1;
        }
        assert(vs.take(vs.len() as int) =~= vs);
        Ok(bits)
    }
}

/// Every chunk of a split is padded to the chunk size.
pub proof fn lemma_padded_len(data: Seq<u8>, i: nat, cb: nat)
    requires
        cb > 0,
        i < chunk_count(data.len(), cb),
    ensures
        padded_chunk(data, i, cb).len() == cb,
{
    assert(i * cb < data.len()) by (nonlinear_arith)
        requires
            cb > 0,
            i < (data.len() + cb - 1) / (cb as int),
    ;
}

} // verus!
