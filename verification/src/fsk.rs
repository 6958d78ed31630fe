use vstd::prelude::*;
use crate::bytes::{zeros, append_slice, zero_bytes};
use crate::error::{AudioModemError, Result};
use crate::transport::{protect_payload, protected_bytes};
use crate::MAX_PAYLOAD_SIZE;

verus! {

/// Number of nibbles (tones) per FSK symbol.
pub const FSK_NIBBLES_PER_SYMBOL: usize = 6;
/// Number of bytes per FSK symbol.
pub const FSK_BYTES_PER_SYMBOL: usize = 3;
/// Samples per FSK symbol (384 ms at 16 kHz).
pub const FSK_SYMBOL_SAMPLES: usize = 6144;
/// Number of frequency bins.
pub const FSK_NUM_BINS: usize = 96;
/// Bins in each nibble's band.
pub const FSK_BINS_PER_BAND: usize = 16;

/// The six nibbles of a 3-byte symbol, high nibble first.
pub open spec fn symbol_nibbles(bytes: Seq<u8>) -> Seq<u8> {
    seq![
        bytes[0] / 16, bytes[0] % 16,
        bytes[1] / 16, bytes[1] % 16,
        bytes[2] / 16, bytes[2] % 16,
    ]
}

/// The frequency bin each nibble of a symbol selects: nibble `i` uses band `i`.
pub open spec fn symbol_bins(bytes: Seq<u8>) -> Seq<usize> {
    Seq::new(6, |i: int| (i * 16 + symbol_nibbles(bytes)[i]) as usize)
}

/// The frequency bins (0..96) that carry a 3-byte symbol.
pub fn symbol_tone_bins(bytes: &[u8]) -> (res: Result<Vec<usize>>)
    ensures
        bytes@.len() != FSK_BYTES_PER_SYMBOL ==> res == Err::<Vec<usize>, AudioModemError>(AudioModemError::InvalidInputSize),
        bytes@.len() == FSK_BYTES_PER_SYMBOL ==> (res matches Ok(v) && v@ == symbol_bins(bytes@)),
        res matches Ok(v) ==> forall|i: int| 0 <= i < 6 ==> #[trigger] v@[i] < FSK_NUM_BINS,
{
    if bytes.len() != FSK_BYTES_PER_SYMBOL {
        return Err(AudioModemError::InvalidInputSize);
    }
    let nibbles = [
        bytes[0] / 16, bytes[0] % 16,
        bytes[1] / 16, bytes[1] % 16,
        bytes[2] / 16, bytes[2] % 16,
    ];
    let mut bins: Vec<usize> = Vec::new();
    let mut i: usize = 0;
    while i < FSK_NIBBLES_PER_SYMBOL
        invariant
            i <= 6,
            nibbles@ == symbol_nibbles(bytes@),
            bins@ == symbol_bins(bytes@).take(i as int),
        decreases 6 - i,
    {
        let band_offset = i * FSK_BINS_PER_BAND;
        let bin = band_offset + (nibbles[i] as usize);
        if bin >= FSK_NUM_BINS {
            return Err(AudioModemError::InvalidInputSize);
        }
        bins.push(bin);
        i += 1;
        assert(bins@ =~= symbol_bins(bytes@).take(i as int));
    }
    assert(symbol_bins(bytes@).take(6) == symbol_bins(bytes@));
    Ok(bins)
}

/// The three bytes a symbol's six detected nibbles stand for.
pub open spec fn nibble_bytes(n: Seq<u8>) -> Seq<u8> {
    seq![(n[0] * 16 + n[1]) as u8, (n[2] * 16 + n[3]) as u8, (n[4] * 16 + n[5]) as u8]
}

/// Rebuilds the three bytes of a symbol from its six nibbles (each below 16).
pub fn nibbles_to_bytes(nibbles: &[u8]) -> (res: Vec<u8>)
    requires
        nibbles@.len() == FSK_NIBBLES_PER_SYMBOL,
        forall|i: int| 0 <= i < 6 ==> #[trigger] nibbles@[i] < 16,
    ensures
        res@ == nibble_bytes(nibbles@),
{
    let mut out: Vec<u8> = Vec::new();
    out.push(nibbles[0] * 16 + nibbles[1]);
    out.push(nibbles[2] * 16 + nibbles[3]);
    out.push(nibbles[4] * 16 + nibbles[5]);
    out
}

/// A symbol's bytes survive the trip through its nibbles.
pub proof fn lemma_nibbles_roundtrip(bytes: Seq<u8>)
    requires
        bytes.len() == 3,
    ensures
        nibble_bytes(symbol_nibbles(bytes)) == bytes,
        forall|i: int| 0 <= i < 6 ==> #[trigger] symbol_nibbles(bytes)[i] < 16,
{
    assert(nibble_bytes(symbol_nibbles(bytes)) =~= bytes);
}

/// Number of zero bytes that align `len` bytes to whole symbols.
pub open spec fn symbol_padding(len: nat) -> nat {
    if len % 3 == 0 { 0 } else { (3 - len % 3) as nat }
}

/// Protected frame bytes for a payload, zero-padded to whole FSK symbols.
pub fn fsk_frame_bytes(data: &[u8]) -> (res: Result<Vec<u8>>)
    ensures
        data@.len() > MAX_PAYLOAD_SIZE ==> res == Err::<Vec<u8>, AudioModemError>(AudioModemError::InvalidInputSize),
        data@.len() <= MAX_PAYLOAD_SIZE ==> res is Ok && protected_bytes(data@) is Some,
        res matches Ok(v) ==> v@ == protected_bytes(data@)->0 + zeros(symbol_padding(protected_bytes(data@)->0.len())),
        res matches Ok(v) ==> v@.len() % 3 == 0,
{
    let mut encoded = match protect_payload(data) {
        Ok(v) => v,
        Err(e) => return Err(e),
    };
    let remainder = encoded.len() % FSK_BYTES_PER_SYMBOL;
    if remainder != 0 {
        let padding = FSK_BYTES_PER_SYMBOL - remainder;
        let pad = zero_bytes(padding);
        append_slice(&mut encoded, pad.as_slice());
    } else {
        assert(encoded@ + zeros(0) =~= encoded@);
    }
    Ok(encoded)
}


/// Where the FSK data of a received frame starts, given where the preamble was found.
pub fn fsk_data_start(total_len: usize, preamble_pos: Option<usize>) -> (res: Result<usize>)
    ensures
        total_len < 2 * FSK_SYMBOL_SAMPLES ==> res == Err::<usize, AudioModemError>(AudioModemError::InsufficientData),
        total_len >= 2 * FSK_SYMBOL_SAMPLES && preamble_pos is None
            ==> res == Err::<usize, AudioModemError>(AudioModemError::PreambleNotFound),
        preamble_pos matches Some(p) ==> (total_len >= 2 * FSK_SYMBOL_SAMPLES ==> {
            if p + crate::PREAMBLE_SAMPLES + FSK_SYMBOL_SAMPLES > total_len {
                res == Err::<usize, AudioModemError>(AudioModemError::InsufficientData)
            } else {
                res == Ok::<usize, AudioModemError>((p + crate::PREAMBLE_SAMPLES) as usize)
            }
        }),
{
    if total_len < 2 * FSK_SYMBOL_SAMPLES {
        return Err(AudioModemError::InsufficientData);
    }
    let p = match preamble_pos {
        Some(p) => p,
        None => return Err(AudioModemError::PreambleNotFound),
    };
    if p > total_len || total_len - p < crate::PREAMBLE_SAMPLES + FSK_SYMBOL_SAMPLES {
        return Err(AudioModemError::InsufficientData);
    }
    Ok(p + crate::PREAMBLE_SAMPLES)
}

/// The whole FSK symbols between the data start and the postamble (found
/// `postamble_pos` samples after the data start).
pub fn fsk_symbol_span(data_start: usize, postamble_pos: Option<usize>) -> (res: Result<(usize, usize)>)
    requires
        postamble_pos matches Some(p) ==> data_start + p <= usize::MAX,
    ensures
        postamble_pos is None ==> res == Err::<(usize, usize), AudioModemError>(AudioModemError::PostambleNotFound),
        postamble_pos matches Some(p) ==> {
            if p < FSK_SYMBOL_SAMPLES {
                res == Err::<(usize, usize), AudioModemError>(AudioModemError::InsufficientData)
            } else {
                res == Ok::<(usize, usize), AudioModemError>((data_start, (data_start + (p / FSK_SYMBOL_SAMPLES) * FSK_SYMBOL_SAMPLES) as usize))
            }
        },
{
    let p = match postamble_pos {
        Some(p) => p,
        None => return Err(AudioModemError::PostambleNotFound),
    };
    let symbol_count = p / FSK_SYMBOL_SAMPLES;
    if symbol_count == 0 {
        return Err(AudioModemError::InsufficientData);
    }
    let valid = symbol_count * FSK_SYMBOL_SAMPLES;
    assert(valid <= p) by (nonlinear_arith)
        requires
            symbol_count == p / FSK_SYMBOL_SAMPLES,
            valid == symbol_count * FSK_SYMBOL_SAMPLES,
    ;
    Ok((data_start, data_start + valid))
}
} // verus!
