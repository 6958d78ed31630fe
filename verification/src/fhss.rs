use vstd::prelude::*;

verus! {

// ---------------------------------------------------------------------
// Frequency hopping: a deterministic pseudorandom band per symbol.

/// One shift of the 16-bit Galois LFSR with feedback polynomial 0x8016.
pub open spec fn lfsr_step(l: u16) -> u16 {
    if l & 1 == 1 {
        (l >> 1u16) ^ 0x8016u16
    } else {
        l >> 1u16
    }
}

/// The register after `n` shifts.
pub open spec fn lfsr_run(l: u16, n: nat) -> u16
    decreases n,
{
    if n == 0 {
        l
    } else {
        lfsr_step(lfsr_run(l, (n - 1) as nat))
    }
}

/// The register seed of a symbol: its index plus 0x6359, modulo 2^16.
pub open spec fn hop_seed(symbol_index: nat) -> u16 {
    ((symbol_index % 65536 + 0x6359) % 65536) as u16
}

/// The band of a symbol: the register after eight shifts, modulo the band count, for
/// two to four bands; band 0 otherwise.
pub open spec fn hop_band(symbol_index: nat, num_bands: nat) -> nat {
    if num_bands < 2 || num_bands > 4 {
        0
    } else {
        lfsr_run(hop_seed(symbol_index), 8) as nat % num_bands
    }
}

/// The frequency band (0 to `num_bands - 1`) used for a symbol.
pub fn get_band_for_symbol(symbol_index: usize, num_bands: usize) -> (res: usize)
    ensures
        res == hop_band(symbol_index as nat, num_bands as nat),
        1 <= num_bands <= 4 ==> res < num_bands,
{
    if num_bands == 0 || num_bands > 4 {
        return 0;
    }
    if num_bands == 1 {
        return 0;
    }
    assert((symbol_index as u16) as nat == symbol_index % 65536) by (bit_vector);
    let mut lfsr = (symbol_index as u16).wrapping_add(0x6359);
    assert(lfsr == hop_seed(symbol_index as nat));
    let mut i: usize = 0;
    while i < 8
        invariant
            i <= 8,
            lfsr == lfsr_run(hop_seed(symbol_index as nat), i as nat),
        decreases 8 - i,
    {
        let lsb = lfsr & 1;
        lfsr >>= 1u16;
        if lsb == 1 {
            lfsr ^= 0x8016;
        }
        i += 1;
    }
    (lfsr as usize) % num_bands
}

} // verus!
