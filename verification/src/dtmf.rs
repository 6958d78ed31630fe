use vstd::prelude::*;
use crate::error::{AudioModemError, Result};
use crate::transport::{protect_payload, protected_bytes, recover_payload, spec_recover, lemma_protect_recover};
use crate::MAX_PAYLOAD_SIZE;

verus! {

/// Number of DTMF symbols (6 low x 8 high tones).
pub const DTMF_NUM_SYMBOLS: u8 = 48;
/// Samples per DTMF symbol (200 ms at 16 kHz).
pub const DTMF_SYMBOL_SAMPLES: usize = 3200;
/// Number of low-band tones.
pub const DTMF_NUM_LOW_FREQS: usize = 6;
/// Number of high-band tones.
pub const DTMF_NUM_HIGH_FREQS: usize = 8;

/// Low-band tone frequencies in Hz.
pub fn dtmf_low_freqs_hz() -> (res: [u16; 6])
    ensures
        res@ == seq![697u16, 758, 818, 879, 939, 1000],
{
    [697, 758, 818, 879, 939, 1000]
}

/// High-band tone frequencies in Hz.
pub fn dtmf_high_freqs_hz() -> (res: [u16; 8])
    ensures
        res@ == seq![1200u16, 1262, 1324, 1386, 1448, 1510, 1572, 1633],
{
    [1200, 1262, 1324, 1386, 1448, 1510, 1572, 1633]
}

/// The (low, high) tone indices of a symbol below 48.
pub fn dtmf_tone_indices(symbol: u8) -> (res: Result<(usize, usize)>)
    ensures
        symbol >= DTMF_NUM_SYMBOLS ==> res == Err::<(usize, usize), AudioModemError>(AudioModemError::InvalidInputSize),
        symbol < DTMF_NUM_SYMBOLS ==> res == Ok::<(usize, usize), AudioModemError>(((symbol / 8) as usize, (symbol % 8) as usize)),
        res matches Ok(t) ==> t.0 < DTMF_NUM_LOW_FREQS && t.1 < DTMF_NUM_HIGH_FREQS,
{
    if symbol >= DTMF_NUM_SYMBOLS {
        return Err(AudioModemError::InvalidInputSize);
    }
    Ok(((symbol / 8) as usize, (symbol % 8) as usize))
}

/// The symbol of a detected (low, high) tone pair.
pub fn dtmf_symbol_from_tones(low_idx: usize, high_idx: usize) -> (res: u8)
    requires
        low_idx < DTMF_NUM_LOW_FREQS,
        high_idx < DTMF_NUM_HIGH_FREQS,
    ensures
        res == low_idx * 8 + high_idx,
        res < DTMF_NUM_SYMBOLS,
{
    (low_idx * 8 + high_idx) as u8
}

/// A symbol survives the trip through its tone pair.
pub proof fn lemma_tones_roundtrip(symbol: u8)
    requires
        symbol < DTMF_NUM_SYMBOLS,
    ensures
        (symbol / 8) * 8 + symbol % 8 == symbol,
{
}

/// The two base-48 symbols of each byte: `byte / 48` then `byte % 48`.
pub open spec fn spec_bytes_to_symbols(bytes: Seq<u8>) -> Seq<u8> {
    Seq::new(2 * bytes.len(), |i: int| if i % 2 == 0 { bytes[i / 2] / 48 } else { bytes[i / 2] % 48 })
}

/// Converts bytes to DTMF symbols, two per byte.
pub fn bytes_to_dtmf_symbols(bytes: &[u8]) -> (res: Vec<u8>)
    requires
        2 * bytes@.len() <= usize::MAX,
    ensures
        res@ == spec_bytes_to_symbols(bytes@),
        forall|i: int| 0 <= i < res@.len() ==> #[trigger] res@[i] < DTMF_NUM_SYMBOLS,
{
    let mut symbols: Vec<u8> = Vec::new();
    let mut i: usize = 0;
    while i < bytes.len()
        invariant
            i <= bytes@.len(),
            symbols@ == spec_bytes_to_symbols(bytes@).take(2 * i),
        decreases bytes.len() - i,
    {
        let byte = bytes[i];
        let high = byte / DTMF_NUM_SYMBOLS;
        let low = byte % DTMF_NUM_SYMBOLS;
        symbols.push(high);
        symbols.push(low);
        i += 1;
        assert(symbols@ =~= spec_bytes_to_symbols(bytes@).take(2 * i));
    }
    assert(spec_bytes_to_symbols(bytes@).take((2 * bytes@.len()) as int) == spec_bytes_to_symbols(bytes@));
    symbols
}

/// Whether every symbol pair `(high, low)` stands for a byte (`high * 48 + low < 256`).
pub open spec fn pairs_fit(symbols: Seq<u8>) -> bool {
    forall|k: int| 0 <= k < symbols.len() / 2 ==> #[trigger] symbols[2 * k] * 48 + symbols[2 * k + 1] < 256
}

/// The bytes of symbol pairs.
pub open spec fn spec_symbols_to_bytes(symbols: Seq<u8>) -> Seq<u8> {
    Seq::new(symbols.len() / 2, |k: int| (symbols[2 * k] * 48 + symbols[2 * k + 1]) as u8)
}

/// Whether every symbol pair stands for a byte.
pub fn dtmf_pairs_fit(symbols: &[u8]) -> (res: bool)
    ensures
        res == pairs_fit(symbols@),
{
    let n = symbols.len() / 2;
    let mut k: usize = 0;
    while k < n
        invariant
            n == symbols@.len() / 2,
            2 * n <= symbols@.len(),
            symbols@.len() <= usize::MAX,
            k <= n,
            forall|j: int| 0 <= j < k ==> #[trigger] symbols@[2 * j] * 48 + symbols@[2 * j + 1] < 256,
        decreases n - k,
    {
        if (symbols[2 * k] as usize) * 48 + (symbols[2 * k + 1] as usize) >= 256 {
            return false;
        }
        k += 1;
    }
    true
}

/// Converts DTMF symbol pairs back to bytes (`high * 48 + low`).
pub fn dtmf_symbols_to_bytes(symbols: &[u8]) -> (res: Result<Vec<u8>>)
    requires
        symbols@.len() % 2 == 0 ==> pairs_fit(symbols@),
    ensures
        symbols@.len() % 2 != 0 ==> res == Err::<Vec<u8>, AudioModemError>(AudioModemError::InvalidInputSize),
        symbols@.len() % 2 == 0 ==> (res matches Ok(v) && v@ == spec_symbols_to_bytes(symbols@)),
{
    if symbols.len() % 2 != 0 {
        return Err(AudioModemError::InvalidInputSize);
    }
    let n = symbols.len() / 2;
    let mut bytes: Vec<u8> = Vec::new();
    let mut k: usize = 0;
    while k < n
        invariant
            n == symbols@.len() / 2,
            2 * n <= symbols@.len(),
            symbols@.len() <= usize::MAX,
            pairs_fit(symbols@),
            k <= n,
            bytes@ == spec_symbols_to_bytes(symbols@).take(k as int),
        decreases n - k,
    {
        let i0: usize = k + k;
        let high = symbols[i0];
        let low = symbols[i0 + 1];
        assert(i0 == 2 * k);
        assert(high * 48 + low < 256);
        let byte_val = high * DTMF_NUM_SYMBOLS + low;
        bytes.push(byte_val);
        k += 1;
        assert(bytes@ =~= spec_symbols_to_bytes(symbols@).take(k as int));
    }
    assert(spec_symbols_to_bytes(symbols@).take(n as int) == spec_symbols_to_bytes(symbols@));
    Ok(bytes)
}

/// Bytes survive the trip through DTMF symbols.
pub proof fn lemma_symbols_roundtrip(bytes: Seq<u8>)
    ensures
        pairs_fit(spec_bytes_to_symbols(bytes)),
        spec_symbols_to_bytes(spec_bytes_to_symbols(bytes)) == bytes,
{
    let s = spec_bytes_to_symbols(bytes);
    assert forall|k: int| 0 <= k < s.len() / 2 implies #[trigger] s[2 * k] * 48 + s[2 * k + 1] < 256 by {
        assert((2 * k) / 2 == k);
        assert((2 * k + 1) / 2 == k);
    }
    assert forall|k: int| 0 <= k < bytes.len() implies #[trigger] spec_symbols_to_bytes(s)[k] == bytes[k] by {
        assert((2 * k) / 2 == k);
        assert((2 * k + 1) / 2 == k);
    }
    assert(spec_symbols_to_bytes(s) =~= bytes);
}

/// The DTMF symbols that carry a payload (protected frame, two symbols per byte).
pub fn dtmf_frame_symbols(data: &[u8]) -> (res: Result<Vec<u8>>)
    ensures
        data@.len() > MAX_PAYLOAD_SIZE ==> res == Err::<Vec<u8>, AudioModemError>(AudioModemError::InvalidInputSize),
        data@.len() <= MAX_PAYLOAD_SIZE ==> res is Ok && protected_bytes(data@) is Some,
        res matches Ok(v) ==> v@ == spec_bytes_to_symbols(protected_bytes(data@)->0),
{
    let encoded = match protect_payload(data) {
        Ok(v) => v,
        Err(e) => return Err(e),
    };
    Ok(bytes_to_dtmf_symbols(encoded.as_slice()))
}

/// What recovering a payload from DTMF symbols gives.
pub open spec fn spec_dtmf_recover(symbols: Seq<u8>) -> core::result::Result<Seq<u8>, AudioModemError> {
    if symbols.len() % 2 != 0 {
        Err(AudioModemError::InvalidInputSize)
    } else {
        spec_recover(spec_symbols_to_bytes(symbols))
    }
}

/// Recovers the payload from demodulated DTMF symbols.
pub fn dtmf_recover_payload(symbols: &[u8]) -> (res: Result<Vec<u8>>)
    requires
        symbols@.len() % 2 == 0 ==> pairs_fit(symbols@),
    ensures
        match res {
            Ok(v) => spec_dtmf_recover(symbols@) == Ok::<Seq<u8>, AudioModemError>(v@),
            Err(e) => spec_dtmf_recover(symbols@) == Err::<Seq<u8>, AudioModemError>(e),
        },
{
    let bytes = match dtmf_symbols_to_bytes(symbols) {
        Ok(b) => b,
        Err(e) => return Err(e),
    };
    recover_payload(bytes.as_slice())
}

/// The symbols carrying a payload give back the payload.
pub proof fn lemma_dtmf_roundtrip(data: Seq<u8>)
    requires
        data.len() <= MAX_PAYLOAD_SIZE,
        protected_bytes(data) is Some,
    ensures
        spec_dtmf_recover(spec_bytes_to_symbols(protected_bytes(data)->0)) == Ok::<Seq<u8>, AudioModemError>(data),
{
    let b = protected_bytes(data)->0;
    lemma_symbols_roundtrip(b);
    lemma_protect_recover(data, Seq::empty());
    assert(b + Seq::<u8>::empty() == b);
    assert(spec_bytes_to_symbols(b).len() % 2 == 0);
}


/// Where the DTMF data of a received frame starts: after the preamble and the silence
/// that follows it.
pub fn dtmf_data_start(total_len: usize, preamble_pos: Option<usize>) -> (res: Result<usize>)
    ensures
        total_len < DTMF_SYMBOL_SAMPLES ==> res == Err::<usize, AudioModemError>(AudioModemError::InsufficientData),
        total_len >= DTMF_SYMBOL_SAMPLES && preamble_pos is None
            ==> res == Err::<usize, AudioModemError>(AudioModemError::PreambleNotFound),
        preamble_pos matches Some(p) ==> (total_len >= DTMF_SYMBOL_SAMPLES ==> {
            if p + crate::PREAMBLE_SAMPLES + crate::SYNC_SILENCE_SAMPLES >= total_len {
                res == Err::<usize, AudioModemError>(AudioModemError::InsufficientData)
            } else {
                res == Ok::<usize, AudioModemError>((p + crate::PREAMBLE_SAMPLES + crate::SYNC_SILENCE_SAMPLES) as usize)
            }
        }),
{
    if total_len < DTMF_SYMBOL_SAMPLES {
        return Err(AudioModemError::InsufficientData);
    }
    let p = match preamble_pos {
        Some(p) => p,
        None => return Err(AudioModemError::PreambleNotFound),
    };
    if p >= total_len || total_len - p <= crate::PREAMBLE_SAMPLES + crate::SYNC_SILENCE_SAMPLES {
        return Err(AudioModemError::InsufficientData);
    }
    Ok(p + crate::PREAMBLE_SAMPLES + crate::SYNC_SILENCE_SAMPLES)
}

/// The DTMF data region: up to the postamble when one was found (`postamble_pos`
/// samples after the data start), else to the end of the samples.
pub fn dtmf_data_span(data_start: usize, total_len: usize, postamble_pos: Option<usize>) -> (res: Result<(usize, usize)>)
    requires
        data_start < total_len,
        postamble_pos matches Some(p) ==> data_start + p <= total_len,
    ensures
        ({
            let end = match postamble_pos { Some(p) => data_start + p, None => total_len as int };
            if end <= data_start {
                res == Err::<(usize, usize), AudioModemError>(AudioModemError::InsufficientData)
            } else {
                res == Ok::<(usize, usize), AudioModemError>((data_start, end as usize))
            }
        }),
{
    let data_end = match postamble_pos {
        Some(p) => data_start + p,
        None => total_len,
    };
    if data_end <= data_start {
        return Err(AudioModemError::InsufficientData);
    }
    Ok((data_start, data_end))
}
} // verus!
