use vstd::prelude::*;
use crate::error::{AudioModemError, Result};

verus! {

// ---------------------------------------------------------------------
// A (6, 4) Reed-Solomon code over GF(16) on nibbles: every two data bytes
// (four nibbles) get one parity byte (two nibbles), and a single wrong
// nibble per group can be corrected.

/// Whether the symbol stream carries parity.
#[derive(Debug, Clone, Copy, PartialEq, Eq, Structural)]
pub enum SymbolRedundancyMode {
    /// Bytes pass through unchanged.
    NoParity,
    /// Each pair of bytes carries a parity byte.
    Parity,
}

/// Powers of the primitive element of GF(16) (x^4 + x + 1), twice over.
pub open spec fn gf16_exp_seq() -> Seq<u8> {
    seq![1u8, 2, 4, 8, 3, 6, 12, 11, 5, 10, 7, 14, 15, 13, 9, 1, 2, 4, 8, 3, 6, 12, 11, 5, 10, 7, 14, 15, 13, 9]
}

/// Discrete logarithms in GF(16); -1 stands for the logarithm of zero.
pub open spec fn gf16_log_seq() -> Seq<i8> {
    seq![-1i8, 0, 1, 4, 2, 8, 5, 10, 3, 14, 9, 7, 6, 13, 11, 12]
}

/// Product in GF(16), by logarithms.
pub open spec fn gf_mul(a: u8, b: u8) -> u8 {
    if a == 0 || b == 0 {
        0
    } else {
        gf16_exp_seq()[(gf16_log_seq()[a as int] + gf16_log_seq()[b as int]) % 15]
    }
}

/// Generator polynomial coefficients: g(x) = x^2 + 6x + 8 = (x - a)(x - a^2).
pub open spec fn gen_g1() -> u8 {
    6
}

pub open spec fn gen_g0() -> u8 {
    8
}

/// One step of the parity shift register for a data symbol.
pub open spec fn rs_step(p: (u8, u8), s: u8) -> (u8, u8) {
    let f = s ^ p.0;
    (p.1 ^ gf_mul(f, gen_g1()), gf_mul(f, gen_g0()))
}

/// The two parity nibbles of a sequence of data nibbles.
pub open spec fn rs_parity(d: Seq<u8>) -> (u8, u8)
    decreases d.len(),
{
    if d.len() == 0 {
        (0, 0)
    } else {
        rs_step(rs_parity(d.drop_last()), d.last())
    }
}

/// Whether every element is a nibble.
pub open spec fn all_nibbles(d: Seq<u8>) -> bool {
    forall|i: int| 0 <= i < d.len() ==> #[trigger] d[i] < 16
}

/// The first single-nibble change of the data (position by position, value by value,
/// from search point `t` on) that makes its parity equal `parity`.
pub open spec fn first_fix(data: Seq<u8>, parity: (u8, u8), t: nat) -> Option<Seq<u8>>
    decreases 64 - t,
{
    if t >= 64 {
        None
    } else {
        let idx = (t / 16) as int;
        let cand = (t % 16) as u8;
        if cand != data[idx] && rs_parity(data.update(idx, cand)) == parity {
            Some(data.update(idx, cand))
        } else {
            first_fix(data, parity, t + 1)
        }
    }
}

/// The six nibbles after correction: unchanged when the parity matches; otherwise the
/// first single data-nibble change that makes it match; otherwise the data with its
/// recomputed parity.
pub open spec fn corrected(n: Seq<u8>) -> Seq<u8> {
    let data = n.take(4);
    let parity = (n[4], n[5]);
    let expected = rs_parity(data);
    if expected == parity {
        n
    } else {
        match first_fix(data, parity, 0) {
            Some(fixed) => fixed + seq![parity.0, parity.1],
            None => data + seq![expected.0, expected.1],
        }
    }
}

/// The six nibbles of a three-byte group, high nibble first.
pub open spec fn group_nibbles(b0: u8, b1: u8, b2: u8) -> Seq<u8> {
    seq![b0 / 16, b0 % 16, b1 / 16, b1 % 16, b2 / 16, b2 % 16]
}

/// Data byte `i`, or zero past the end.
pub open spec fn byte_or_zero(data: Seq<u8>, i: int) -> u8 {
    if 0 <= i < data.len() { data[i] } else { 0 }
}

/// The parity byte of two data bytes.
pub open spec fn parity_byte(d0: u8, d1: u8) -> u8 {
    let p = rs_parity(seq![d0 / 16, d0 % 16, d1 / 16, d1 % 16]);
    (p.0 * 16 + p.1) as u8
}

/// Parity encoding: each pair of data bytes (the last one padded with zero) followed
/// by its parity byte.
pub open spec fn rs16_encoded(data: Seq<u8>) -> Seq<u8> {
    let groups = (data.len() + 1) / 2;
    Seq::new((groups * 3) as nat, |p: int| {
        let g = p / 3;
        if p % 3 == 0 {
            byte_or_zero(data, 2 * g)
        } else if p % 3 == 1 {
            byte_or_zero(data, 2 * g + 1)
        } else {
            parity_byte(byte_or_zero(data, 2 * g), byte_or_zero(data, 2 * g + 1))
        }
    })
}

/// Parity decoding of a whole number of three-byte groups: two corrected data bytes
/// per group.
pub open spec fn rs16_decoded(bytes: Seq<u8>) -> Seq<u8> {
    Seq::new(((bytes.len() / 3) * 2) as nat, |p: int| {
        let g = p / 2;
        let n = corrected(group_nibbles(bytes[3 * g], bytes[3 * g + 1], bytes[3 * g + 2]));
        if p % 2 == 0 {
            (n[0] * 16 + n[1]) as u8
        } else {
            (n[2] * 16 + n[3]) as u8
        }
    })
}

fn gf16_exp_table() -> (res: [u8; 30])
    ensures
        res@ == gf16_exp_seq(),
{
    let t: [u8; 30] = [1, 2, 4, 8, 3, 6, 12, 11, 5, 10, 7, 14, 15, 13, 9, 1, 2, 4, 8, 3, 6, 12, 11, 5, 10, 7, 14, 15, 13, 9];
    assert(t@ =~= gf16_exp_seq());
    t
}

fn gf16_log_table() -> (res: [i8; 16])
    ensures
        res@ == gf16_log_seq(),
{
    let t: [i8; 16] = [-1, 0, 1, 4, 2, 8, 5, 10, 3, 14, 9, 7, 6, 13, 11, 12];
    assert(t@ =~= gf16_log_seq());
    t
}

proof fn lemma_gf_mul_nibble(a: u8, b: u8)
    requires
        a < 16,
        b < 16,
    ensures
        gf_mul(a, b) < 16,
{
    if a != 0 && b != 0 {
        let i = (gf16_log_seq()[a as int] + gf16_log_seq()[b as int]) % 15;
        assert(0 <= i < 15);
        assert(gf16_exp_seq()[i] < 16);
    }
}

/// Product in GF(16).
fn gf16_mul(a: u8, b: u8) -> (res: u8)
    requires
        a < 16,
        b < 16,
    ensures
        res == gf_mul(a, b),
        res < 16,
{
    proof {
        lemma_gf_mul_nibble(a, b);
    }
    if a == 0 || b == 0 {
        return 0;
    }
    let log = gf16_log_table();
    let exp = gf16_exp_table();
    let log_a = log[a as usize] as i32;
    let log_b = log[b as usize] as i32;
    assert(log_a >= 0 && log_b >= 0 && log_a < 15 && log_b < 15);
    let idx = ((log_a + log_b) % 15) as usize;
    exp[idx]
}

proof fn lemma_step_nibbles(p: (u8, u8), s: u8)
    requires
        p.0 < 16,
        p.1 < 16,
        s < 16,
    ensures
        rs_step(p, s).0 < 16,
        rs_step(p, s).1 < 16,
{
    let p0 = p.0;
    let p1 = p.1;
    let f = s ^ p0;
    lemma_xor_nibble(s, p0);
    lemma_gf_mul_nibble(f, gen_g1());
    lemma_gf_mul_nibble(f, gen_g0());
    let m = gf_mul(f, gen_g1());
    lemma_xor_nibble(p1, m);
}

/// The parity of nibbles is a pair of nibbles.
pub proof fn lemma_parity_nibbles(d: Seq<u8>)
    requires
        all_nibbles(d),
    ensures
        rs_parity(d).0 < 16,
        rs_parity(d).1 < 16,
    decreases d.len(),
{
    if d.len() > 0 {
        assert(all_nibbles(d.drop_last()));
        lemma_parity_nibbles(d.drop_last());
        lemma_step_nibbles(rs_parity(d.drop_last()), d.last());
    }
}

/// Parity nibbles of four data nibbles.
fn rs_encode_4_data_symbols(data: &[u8; 4]) -> (res: [u8; 2])
    requires
        all_nibbles(data@),
    ensures
        res@ == seq![rs_parity(data@).0, rs_parity(data@).1],
{
    let mut p0: u8 = 0;
    let mut p1: u8 = 0;
    let mut i: usize = 0;
    while i < 4
        invariant
            i <= 4,
            all_nibbles(data@),
            data@.len() == 4,
            (p0, p1) == rs_parity(data@.take(i as int)),
            p0 < 16,
            p1 < 16,
        decreases 4 - i,
    {
        let symbol = data[i];
        let feedback = symbol ^ p0;
        proof {
            lemma_xor_nibble(symbol, p0);
        }
        let m1 = gf16_mul(feedback, 6);
        let m0 = gf16_mul(feedback, 8);
        proof {
            lemma_xor_nibble(p1, m1);
        }
        proof {
            assert(data@.take(i + 1).drop_last() =~= data@.take(i as int));
        }
        p0 = p1 ^ m1;
        p1 = m0;
        i += 1;
    }
    assert(data@.take(4) =~= data@);
    let res = [p0, p1];
    assert(res@ =~= seq![rs_parity(data@).0, rs_parity(data@).1]);
    res
}

/// Corrects at most one wrong data nibble of a six-nibble group.
fn rs_correct_single_symbol(nibbles: &mut [u8; 6])
    requires
        all_nibbles(old(nibbles)@),
    ensures
        final(nibbles)@ == corrected(old(nibbles)@),
{
    let ghost n = nibbles@;
    let mut data = [nibbles[0], nibbles[1], nibbles[2], nibbles[3]];
    let parity = [nibbles[4], nibbles[5]];
    assert(data@ =~= n.take(4));
    let expected = rs_encode_4_data_symbols(&data);
    if expected[0] == parity[0] && expected[1] == parity[1] {
        return;
    }
    let ghost d0 = data@;
    let mut idx: usize = 0;
    while idx < 4
        invariant
            idx <= 4,
            n == old(nibbles)@,
            n.len() == 6,
            d0.len() == 4,
            d0 == n.take(4),
            rs_parity(d0) != (n[4], n[5]),
            data@ == d0,
            all_nibbles(d0),
            parity@ == seq![n[4], n[5]],
            first_fix(d0, (n[4], n[5]), 0) == first_fix(d0, (n[4], n[5]), (16 * idx) as nat),
        decreases 4 - idx,
    {
        let original = data[idx];
        let mut cand: u8 = 0;
        while cand < 16
            invariant
                idx < 4,
                cand <= 16,
                n == old(nibbles)@,
                n.len() == 6,
                d0.len() == 4,
                d0 == n.take(4),
                rs_parity(d0) != (n[4], n[5]),
                original == d0[idx as int],
                data@ == d0.update(idx as int, data@[idx as int]),
                data@.len() == 4,
                all_nibbles(d0),
                parity@ == seq![n[4], n[5]],
                first_fix(d0, (n[4], n[5]), 0) == first_fix(d0, (n[4], n[5]), (16 * idx + cand) as nat),
            decreases 16 - cand,
        {
            if cand != original {
                data[idx] = cand;
                assert(data@ =~= d0.update(idx as int, cand));
                assert(all_nibbles(data@));
                let p = rs_encode_4_data_symbols(&data);
                if p[0] == parity[0] && p[1] == parity[1] {
                    proof {
                        let t = (16 * idx + cand) as nat;
                        assert(t / 16 == idx && t % 16 == cand);
                        assert(first_fix(d0, (n[4], n[5]), t) == Some(d0.update(idx as int, cand)));
                    }
                    nibbles[0] = data[0];
                    nibbles[1] = data[1];
                    nibbles[2] = data[2];
                    nibbles[3] = data[3];
                    nibbles[4] = parity[0];
                    nibbles[5] = parity[1];
                    assert(nibbles@ =~= data@ + seq![n[4], n[5]]);
                    return;
                }
            }
            proof {
                let t = (16 * idx + cand) as nat;
                assert(t / 16 == idx && t % 16 == cand);
            }
            cand += 1;
        }
        data[idx] = original;
        assert(data@ =~= d0);
        idx += 1;
    }
    assert(first_fix(d0, (n[4], n[5]), 64) is None);
    nibbles[0] = data[0];
    nibbles[1] = data[1];
    nibbles[2] = data[2];
    nibbles[3] = data[3];
    nibbles[4] = expected[0];
    nibbles[5] = expected[1];
    assert(nibbles@ =~= d0 + seq![rs_parity(d0).0, rs_parity(d0).1]);
}


proof fn lemma_first_fix_nibbles(data: Seq<u8>, parity: (u8, u8), t: nat)
    requires
        all_nibbles(data),
        data.len() == 4,
    ensures
        first_fix(data, parity, t) matches Some(f) ==> all_nibbles(f) && f.len() == 4,
    decreases 64 - t,
{
    if t < 64 {
        let idx = (t / 16) as int;
        let cand = (t % 16) as u8;
        if !(cand != data[idx] && rs_parity(data.update(idx, cand)) == parity) {
            lemma_first_fix_nibbles(data, parity, t + 1);
        }
    }
}

/// Correction keeps six nibbles.
pub proof fn lemma_corrected_nibbles(n: Seq<u8>)
    requires
        n.len() == 6,
        all_nibbles(n),
    ensures
        corrected(n).len() == 6,
        all_nibbles(corrected(n)),
{
    let data = n.take(4);
    assert(all_nibbles(data));
    lemma_parity_nibbles(data);
    lemma_first_fix_nibbles(data, (n[4], n[5]), 0);
    let c = corrected(n);
    assert forall|i: int| 0 <= i < c.len() implies #[trigger] c[i] < 16 by {
        if rs_parity(data) != (n[4], n[5]) {
            match first_fix(data, (n[4], n[5]), 0) {
                Some(f) => {
                    if i < 4 {
                        assert(c[i] == f[i]);
                    }
                },
                None => {},
            }
        }
    }
}

/// Packs two nibbles into a byte, high nibble first.
fn pack_nibbles(hi: u8, lo: u8) -> (res: u8)
    requires
        hi < 16,
        lo < 16,
    ensures
        res == (hi * 16 + lo) as u8,
{
    assert(hi < 16 && lo < 16 ==> (hi << 4u8) | lo == (hi * 16 + lo) as u8) by (bit_vector);
    (hi << 4u8) | lo
}

/// High nibble of a byte.
fn high_nibble(b: u8) -> (res: u8)
    ensures
        res == b / 16,
        res < 16,
{
    assert((b >> 4u8) & 0x0Fu8 == b / 16) by (bit_vector);
    (b >> 4u8) & 0x0F
}

/// Low nibble of a byte.
fn low_nibble(b: u8) -> (res: u8)
    ensures
        res == b % 16,
        res < 16,
{
    assert(b & 0x0Fu8 == b % 16) by (bit_vector);
    b & 0x0F
}

/// Parity encoding of a byte stream.
fn encode_with_rs16(data: &[u8]) -> (res: Vec<u8>)
    requires
        (data@.len() + 1) / 2 * 3 <= usize::MAX,
    ensures
        res@ == rs16_encoded(data@),
{
    let groups = (data.len() + 1) / 2;
    let mut output: Vec<u8> = Vec::new();
    let mut g: usize = 0;
    while g < groups
        invariant
            groups == (data@.len() + 1) / 2,
            groups * 3 <= usize::MAX,
            g <= groups,
            output@ == rs16_encoded(data@).take((3 * g) as int),
        decreases groups - g,
    {
        let d0: u8 = if 2 * g < data.len() { data[2 * g] } else { 0 };
        let d1: u8 = if 2 * g + 1 < data.len() { data[2 * g + 1] } else { 0 };
        let data_nibbles = [high_nibble(d0), low_nibble(d0), high_nibble(d1), low_nibble(d1)];
        assert(data_nibbles@ =~= seq![d0 / 16, d0 % 16, d1 / 16, d1 % 16]);
        let parity = rs_encode_4_data_symbols(&data_nibbles);
        proof {
            lemma_parity_nibbles(data_nibbles@);
        }
        let b0 = pack_nibbles(data_nibbles[0], data_nibbles[1]);
        let b1 = pack_nibbles(data_nibbles[2], data_nibbles[3]);
        let b2 = pack_nibbles(parity[0], parity[1]);
        assert(b0 == d0 && b1 == d1);
        let ghost prev = output@;
        output.push(b0);
        output.push(b1);
        output.push(b2);
        proof {
            let full = rs16_encoded(data@);
            assert(full.len() == groups * 3);
            assert(byte_or_zero(data@, 2 * g as int) == d0);
            assert(byte_or_zero(data@, 2 * g + 1) == d1);
            assert((3 * g) / 3 == g && (3 * g) % 3 == 0);
            assert((3 * g + 1) / 3 == g && (3 * g + 1) % 3 == 1);
            assert((3 * g + 2) / 3 == g && (3 * g + 2) % 3 == 2);
            assert(output@ =~= full.take((3 * (g + 1)) as int));
        }
        g += 1;
    }
    assert(rs16_encoded(data@).take((3 * groups) as int) =~= rs16_encoded(data@));
    output
}

/// Parity decoding of a byte stream of whole three-byte groups.
fn decode_with_rs16(bytes: &[u8]) -> (res: Result<Vec<u8>>)
    ensures
        bytes@.len() % 3 != 0 ==> res == Err::<Vec<u8>, AudioModemError>(AudioModemError::InvalidInputSize),
        bytes@.len() % 3 == 0 ==> (res matches Ok(v) && v@ == rs16_decoded(bytes@)),
{
    if bytes.len() % 3 != 0 {
        return Err(AudioModemError::InvalidInputSize);
    }
    let groups = bytes.len() / 3;
    let mut output: Vec<u8> = Vec::new();
    let mut g: usize = 0;
    while g < groups
        invariant
            groups == bytes@.len() / 3,
            bytes@.len() % 3 == 0,
            3 * groups == bytes@.len(),
            bytes@.len() <= usize::MAX,
            g <= groups,
            output@ == rs16_decoded(bytes@).take((2 * g) as int),
        decreases groups - g,
    {
        let c0 = bytes[3 * g];
        let c1 = bytes[3 * g + 1];
        let c2 = bytes[3 * g + 2];
        let mut nibbles = [high_nibble(c0), low_nibble(c0), high_nibble(c1), low_nibble(c1), high_nibble(c2), low_nibble(c2)];
        let ghost n = nibbles@;
        assert(n =~= group_nibbles(c0, c1, c2));
        rs_correct_single_symbol(&mut nibbles);
        proof {
            lemma_corrected_nibbles(n);
        }
        let b0 = pack_nibbles(nibbles[0], nibbles[1]);
        let b1 = pack_nibbles(nibbles[2], nibbles[3]);
        output.push(b0);
        output.push(b1);
        proof {
            let full = rs16_decoded(bytes@);
            assert(full.len() == groups * 2);
            assert((2 * g) / 2 == g && (2 * g) % 2 == 0);
            assert((2 * g + 1) / 2 == g && (2 * g + 1) % 2 == 1);
            assert(output@ =~= full.take((2 * (g + 1)) as int));
        }
        g += 1;
    }
    assert(rs16_decoded(bytes@).take((2 * groups) as int) =~= rs16_decoded(bytes@));
    Ok(output)
}

/// What encoding in a mode gives.
pub open spec fn spec_encode_symbols(data: Seq<u8>, mode: SymbolRedundancyMode) -> Seq<u8> {
    match mode {
        SymbolRedundancyMode::NoParity => data,
        SymbolRedundancyMode::Parity => rs16_encoded(data),
    }
}

/// Adds the symbol-level redundancy of a mode to a byte stream.
pub fn encode_symbol_bytes(data: &[u8], mode: SymbolRedundancyMode) -> (res: Vec<u8>)
    requires
        (data@.len() + 1) / 2 * 3 <= usize::MAX,
    ensures
        res@ == spec_encode_symbols(data@, mode),
{
    match mode {
        SymbolRedundancyMode::NoParity => {
            let mut out: Vec<u8> = Vec::new();
            crate::bytes::append_slice(&mut out, data);
            out
        },
        SymbolRedundancyMode::Parity => encode_with_rs16(data),
    }
}

/// Removes (and applies) the symbol-level redundancy of a mode.
pub fn decode_symbol_bytes(bytes: &[u8], mode: SymbolRedundancyMode) -> (res: Result<Vec<u8>>)
    ensures
        mode == SymbolRedundancyMode::NoParity ==> (res matches Ok(v) && v@ == bytes@),
        mode == SymbolRedundancyMode::Parity && bytes@.len() % 3 != 0
            ==> res == Err::<Vec<u8>, AudioModemError>(AudioModemError::InvalidInputSize),
        mode == SymbolRedundancyMode::Parity && bytes@.len() % 3 == 0
            ==> (res matches Ok(v) && v@ == rs16_decoded(bytes@)),
{
    match mode {
        SymbolRedundancyMode::NoParity => {
            let mut out: Vec<u8> = Vec::new();
            crate::bytes::append_slice(&mut out, bytes);
            Ok(out)
        },
        SymbolRedundancyMode::Parity => decode_with_rs16(bytes),
    }
}

/// A byte stream padded with a zero byte to even length.
pub open spec fn pad_even(data: Seq<u8>) -> Seq<u8> {
    if data.len() % 2 == 0 { data } else { data.push(0) }
}

/// A clean group passes correction unchanged.
proof fn lemma_clean_group(d0: u8, d1: u8)
    ensures
        ({
            let n = corrected(group_nibbles(d0, d1, parity_byte(d0, d1)));
            (n[0] * 16 + n[1]) as u8 == d0 && (n[2] * 16 + n[3]) as u8 == d1
        }),
{
    let data = seq![d0 / 16, d0 % 16, d1 / 16, d1 % 16];
    assert(all_nibbles(data));
    lemma_parity_nibbles(data);
    let p = rs_parity(data);
    let pb = parity_byte(d0, d1);
    assert(pb == (p.0 * 16 + p.1) as u8);
    assert(pb / 16 == p.0 && pb % 16 == p.1);
    let g = group_nibbles(d0, d1, pb);
    assert(g.take(4) =~= data);
    assert(corrected(g) == g);
}

/// Decoding the parity encoding of a byte stream gives the stream back, padded with a
/// zero byte to even length.
pub proof fn lemma_rs16_roundtrip(data: Seq<u8>)
    ensures
        rs16_decoded(rs16_encoded(data)) == pad_even(data),
{
    let e = rs16_encoded(data);
    let groups = (data.len() + 1) / 2;
    assert(e.len() == groups * 3);
    assert(e.len() / 3 == groups);
    let d = rs16_decoded(e);
    let pe = pad_even(data);
    assert(pe.len() == groups * 2);
    assert forall|p: int| 0 <= p < d.len() implies d[p] == pe[p] by {
        let g = p / 2;
        assert(0 <= g < groups);
        assert((3 * g) / 3 == g && (3 * g) % 3 == 0);
        assert((3 * g + 1) / 3 == g && (3 * g + 1) % 3 == 1);
        assert((3 * g + 2) / 3 == g && (3 * g + 2) % 3 == 2);
        let d0 = byte_or_zero(data, 2 * g);
        let d1 = byte_or_zero(data, 2 * g + 1);
        assert(e[3 * g] == d0 && e[3 * g + 1] == d1 && e[3 * g + 2] == parity_byte(d0, d1));
        lemma_clean_group(d0, d1);
        if p % 2 == 0 {
            assert(p == 2 * g);
        } else {
            assert(p == 2 * g + 1);
        }
    }
    assert(d =~= pe);
}

// ---------------------------------------------------------------------
// Distance of the code: the parity nibbles as bit formulas, so that the
// bit-vector solver can check that no nonzero change of at most two data
// nibbles leaves the parity unchanged.

/// Multiplication by the primitive element x of GF(16) (x^4 = x + 1).
pub open spec fn xtime(a: u8) -> u8 {
    if a & 8u8 == 8u8 { ((a << 1u8) & 15u8) ^ 3u8 } else { (a << 1u8) & 15u8 }
}

/// Multiplication by 6 = x^2 + x.
pub open spec fn mul6(a: u8) -> u8 {
    xtime(xtime(a)) ^ xtime(a)
}

/// Multiplication by 8 = x^3.
pub open spec fn mul8(a: u8) -> u8 {
    xtime(xtime(xtime(a)))
}

/// The feedback values of the parity register for four data nibbles.
pub open spec fn fb1(d0: u8, d1: u8) -> u8 {
    d1 ^ mul6(d0)
}

pub open spec fn fb2(d0: u8, d1: u8, d2: u8) -> u8 {
    d2 ^ mul8(d0) ^ mul6(fb1(d0, d1))
}

pub open spec fn fb3(d0: u8, d1: u8, d2: u8, d3: u8) -> u8 {
    d3 ^ mul8(fb1(d0, d1)) ^ mul6(fb2(d0, d1, d2))
}

/// The parity nibbles of four data nibbles, as bit formulas.
pub open spec fn par0(d0: u8, d1: u8, d2: u8, d3: u8) -> u8 {
    mul8(fb2(d0, d1, d2)) ^ mul6(fb3(d0, d1, d2, d3))
}

pub open spec fn par1(d0: u8, d1: u8, d2: u8, d3: u8) -> u8 {
    mul8(fb3(d0, d1, d2, d3))
}

proof fn lemma_mul_tables(a: u8)
    requires
        a < 16,
    ensures
        gf_mul(a, 6) == mul6(a),
        gf_mul(a, 8) == mul8(a),
        mul6(a) < 16,
        mul8(a) < 16,
{
    assert(a < 16 ==> mul6(a) < 16 && mul8(a) < 16
        && (a == 0 ==> mul6(a) == 0 && mul8(a) == 0)
        && (a == 1 ==> mul6(a) == 6 && mul8(a) == 8)
        && (a == 2 ==> mul6(a) == 12 && mul8(a) == 3)
        && (a == 3 ==> mul6(a) == 10 && mul8(a) == 11)
        && (a == 4 ==> mul6(a) == 11 && mul8(a) == 6)
        && (a == 5 ==> mul6(a) == 13 && mul8(a) == 14)
        && (a == 6 ==> mul6(a) == 7 && mul8(a) == 5)
        && (a == 7 ==> mul6(a) == 1 && mul8(a) == 13)
        && (a == 8 ==> mul6(a) == 5 && mul8(a) == 12)
        && (a == 9 ==> mul6(a) == 3 && mul8(a) == 4)
        && (a == 10 ==> mul6(a) == 9 && mul8(a) == 15)
        && (a == 11 ==> mul6(a) == 15 && mul8(a) == 7)
        && (a == 12 ==> mul6(a) == 14 && mul8(a) == 10)
        && (a == 13 ==> mul6(a) == 8 && mul8(a) == 2)
        && (a == 14 ==> mul6(a) == 2 && mul8(a) == 9)
        && (a == 15 ==> mul6(a) == 4 && mul8(a) == 1)) by (bit_vector);
    let e = gf16_exp_seq();
    let l = gf16_log_seq();
    assert(l[6] == 5 && l[8] == 3);
    if a == 1 { assert(l[1] == 0 && e[5] == 6 && e[3] == 8); }
    else if a == 2 { assert(l[2] == 1 && e[6] == 12 && e[4] == 3); }
    else if a == 3 { assert(l[3] == 4 && e[9] == 10 && e[7] == 11); }
    else if a == 4 { assert(l[4] == 2 && e[7] == 11 && e[5] == 6); }
    else if a == 5 { assert(l[5] == 8 && e[13] == 13 && e[11] == 14); }
    else if a == 6 { assert(l[6] == 5 && e[10] == 7 && e[8] == 5); }
    else if a == 7 { assert(l[7] == 10 && e[0] == 1 && e[13] == 13); }
    else if a == 8 { assert(l[8] == 3 && e[8] == 5 && e[6] == 12); }
    else if a == 9 { assert(l[9] == 14 && e[4] == 3 && e[2] == 4); }
    else if a == 10 { assert(l[10] == 9 && e[14] == 9 && e[12] == 15); }
    else if a == 11 { assert(l[11] == 7 && e[12] == 15 && e[10] == 7); }
    else if a == 12 { assert(l[12] == 6 && e[11] == 14 && e[9] == 10); }
    else if a == 13 { assert(l[13] == 13 && e[3] == 8 && e[1] == 2); }
    else if a == 14 { assert(l[14] == 11 && e[1] == 2 && e[14] == 9); }
    else if a == 15 { assert(l[15] == 12 && e[2] == 4 && e[0] == 1); }
}


proof fn lemma_xor_nibble(a: u8, b: u8)
    requires
        a < 16,
        b < 16,
    ensures
        a ^ b < 16,
{
    assert(a < 16 && b < 16 ==> a ^ b < 16) by (bit_vector);
}

/// The parity of four data nibbles is given by the bit formulas.
proof fn lemma_parity_formula(d: Seq<u8>)
    requires
        d.len() == 4,
        all_nibbles(d),
    ensures
        rs_parity(d) == (par0(d[0], d[1], d[2], d[3]), par1(d[0], d[1], d[2], d[3])),
{
    let (d0, d1, d2, d3) = (d[0], d[1], d[2], d[3]);
    assert(d0 < 16 && d1 < 16 && d2 < 16 && d3 < 16);
    let s1 = d.take(1);
    let s2 = d.take(2);
    let s3 = d.take(3);
    assert(s1.drop_last() =~= Seq::<u8>::empty());
    assert(s2.drop_last() =~= s1);
    assert(s3.drop_last() =~= s2);
    assert(d.drop_last() =~= s3);
    assert(rs_parity(Seq::<u8>::empty()) == (0u8, 0u8));
    // First step: feedback d0.
    assert(d0 ^ 0u8 == d0) by (bit_vector);
    assert(s1.last() == d0 && s2.last() == d1 && s3.last() == d2 && d.last() == d3);
    lemma_mul_tables(d0);
    assert(0u8 ^ mul6(d0) == mul6(d0)) by (bit_vector);
    assert(rs_parity(s1) == (mul6(d0), mul8(d0)));
    // Second step.
    let f1 = fb1(d0, d1);
    assert(f1 == d1 ^ mul6(d0));
    lemma_xor_nibble(d1, mul6(d0));
    lemma_mul_tables(f1);
    assert(rs_parity(s2) == (mul8(d0) ^ mul6(f1), mul8(f1)));
    // Third step.
    let f2 = fb2(d0, d1, d2);
    assert(d2 ^ (mul8(d0) ^ mul6(f1)) == d2 ^ mul8(d0) ^ mul6(f1)) by (bit_vector);
    lemma_xor_nibble(mul8(d0), mul6(f1));
    lemma_xor_nibble(d2, mul8(d0) ^ mul6(f1));
    lemma_mul_tables(f2);
    assert(rs_parity(s3) == (mul8(f1) ^ mul6(f2), mul8(f2)));
    // Fourth step.
    let f3 = fb3(d0, d1, d2, d3);
    assert(d3 ^ (mul8(f1) ^ mul6(f2)) == d3 ^ mul8(f1) ^ mul6(f2)) by (bit_vector);
    lemma_xor_nibble(mul8(f1), mul6(f2));
    lemma_xor_nibble(d3, mul8(f1) ^ mul6(f2));
    lemma_mul_tables(f3);
    assert(rs_parity(d) == (mul8(f2) ^ mul6(f3), mul8(f3)));
}


/// The parity register run on four nibbles, with its intermediate values named:
/// the feedbacks `f1`..`f3` and the parity nibbles `p0`, `p1`.
pub open spec fn register_run(x0: u8, x1: u8, x2: u8, x3: u8, f1: u8, f2: u8, f3: u8, p0: u8, p1: u8) -> bool {
    &&& f1 == x1 ^ mul6(x0)
    &&& f2 == x2 ^ mul8(x0) ^ mul6(f1)
    &&& f3 == x3 ^ mul8(f1) ^ mul6(f2)
    &&& p0 == mul8(f2) ^ mul6(f3)
    &&& p1 == mul8(f3)
}

/// The register is linear: run on the difference of two words, it gives the
/// difference of their parities.
proof fn lemma_register_linear(
    a0: u8, a1: u8, a2: u8, a3: u8, fa1: u8, fa2: u8, fa3: u8, pa0: u8, pa1: u8,
    b0: u8, b1: u8, b2: u8, b3: u8, fb1: u8, fb2: u8, fb3: u8, pb0: u8, pb1: u8,
    fx1: u8, fx2: u8, fx3: u8, px0: u8, px1: u8,
)
    requires
        a0 < 16, a1 < 16, a2 < 16, a3 < 16,
        b0 < 16, b1 < 16, b2 < 16, b3 < 16,
        register_run(a0, a1, a2, a3, fa1, fa2, fa3, pa0, pa1),
        register_run(b0, b1, b2, b3, fb1, fb2, fb3, pb0, pb1),
        register_run(a0 ^ b0, a1 ^ b1, a2 ^ b2, a3 ^ b3, fx1, fx2, fx3, px0, px1),
    ensures
        px0 == pa0 ^ pb0,
        px1 == pa1 ^ pb1,
{
    assert(fx1 == fa1 ^ fb1) by (bit_vector)
        requires
            a0 < 16 && a1 < 16 && b0 < 16 && b1 < 16,
            fa1 == a1 ^ mul6(a0),
            fb1 == b1 ^ mul6(b0),
            fx1 == (a1 ^ b1) ^ mul6(a0 ^ b0);
    assert(fa1 < 16 && fb1 < 16) by (bit_vector)
        requires
            a0 < 16 && a1 < 16 && b0 < 16 && b1 < 16,
            fa1 == a1 ^ mul6(a0),
            fb1 == b1 ^ mul6(b0);
    assert(fx2 == fa2 ^ fb2 && fa2 < 16 && fb2 < 16) by (bit_vector)
        requires
            a0 < 16 && a2 < 16 && b0 < 16 && b2 < 16 && fa1 < 16 && fb1 < 16,
            fx1 == fa1 ^ fb1,
            fa2 == a2 ^ mul8(a0) ^ mul6(fa1),
            fb2 == b2 ^ mul8(b0) ^ mul6(fb1),
            fx2 == (a2 ^ b2) ^ mul8(a0 ^ b0) ^ mul6(fx1);
    assert(fx3 == fa3 ^ fb3 && fa3 < 16 && fb3 < 16) by (bit_vector)
        requires
            a3 < 16 && b3 < 16 && fa1 < 16 && fb1 < 16 && fa2 < 16 && fb2 < 16,
            fx1 == fa1 ^ fb1,
            fx2 == fa2 ^ fb2,
            fa3 == a3 ^ mul8(fa1) ^ mul6(fa2),
            fb3 == b3 ^ mul8(fb1) ^ mul6(fb2),
            fx3 == (a3 ^ b3) ^ mul8(fx1) ^ mul6(fx2);
    assert(px0 == pa0 ^ pb0 && px1 == pa1 ^ pb1) by (bit_vector)
        requires
            fa2 < 16 && fb2 < 16 && fa3 < 16 && fb3 < 16,
            fx2 == fa2 ^ fb2,
            fx3 == fa3 ^ fb3,
            pa0 == mul8(fa2) ^ mul6(fa3),
            pb0 == mul8(fb2) ^ mul6(fb3),
            px0 == mul8(fx2) ^ mul6(fx3),
            pa1 == mul8(fa3),
            pb1 == mul8(fb3),
            px1 == mul8(fx3);
}

/// A nonzero change of at most two data nibbles changes the parity, and a change of
/// exactly one data nibble changes both parity nibbles: the code has distance three.
proof fn lemma_register_distance(x0: u8, x1: u8, x2: u8, x3: u8, f1: u8, f2: u8, f3: u8, p0: u8, p1: u8)
    requires
        x0 < 16, x1 < 16, x2 < 16, x3 < 16,
        register_run(x0, x1, x2, x3, f1, f2, f3, p0, p1),
    ensures
        ((x2 == 0 && x3 == 0) || (x1 == 0 && x3 == 0) || (x1 == 0 && x2 == 0)
            || (x0 == 0 && x3 == 0) || (x0 == 0 && x2 == 0) || (x0 == 0 && x1 == 0))
            && p0 == 0 && p1 == 0
            ==> x0 == 0 && x1 == 0 && x2 == 0 && x3 == 0,
        ((x1 == 0 && x2 == 0 && x3 == 0) || (x0 == 0 && x2 == 0 && x3 == 0)
            || (x0 == 0 && x1 == 0 && x3 == 0) || (x0 == 0 && x1 == 0 && x2 == 0))
            && !(x0 == 0 && x1 == 0 && x2 == 0 && x3 == 0)
            ==> p0 != 0 && p1 != 0,
{
    assert(
        ((x2 == 0 && x3 == 0) || (x1 == 0 && x3 == 0) || (x1 == 0 && x2 == 0)
            || (x0 == 0 && x3 == 0) || (x0 == 0 && x2 == 0) || (x0 == 0 && x1 == 0))
            && p0 == 0 && p1 == 0
            ==> x0 == 0 && x1 == 0 && x2 == 0 && x3 == 0) by (bit_vector)
        requires
            x0 < 16 && x1 < 16 && x2 < 16 && x3 < 16,
            f1 == x1 ^ mul6(x0),
            f2 == x2 ^ mul8(x0) ^ mul6(f1),
            f3 == x3 ^ mul8(f1) ^ mul6(f2),
            p0 == mul8(f2) ^ mul6(f3),
            p1 == mul8(f3);
    assert(
        ((x1 == 0 && x2 == 0 && x3 == 0) || (x0 == 0 && x2 == 0 && x3 == 0)
            || (x0 == 0 && x1 == 0 && x3 == 0) || (x0 == 0 && x1 == 0 && x2 == 0))
            && !(x0 == 0 && x1 == 0 && x2 == 0 && x3 == 0)
            ==> p0 != 0 && p1 != 0) by (bit_vector)
        requires
            x0 < 16 && x1 < 16 && x2 < 16 && x3 < 16,
            f1 == x1 ^ mul6(x0),
            f2 == x2 ^ mul8(x0) ^ mul6(f1),
            f3 == x3 ^ mul8(f1) ^ mul6(f2),
            p0 == mul8(f2) ^ mul6(f3),
            p1 == mul8(f3);
}

/// The register run of a data word and of the difference of two words.
proof fn lemma_parity_difference(a: Seq<u8>, b: Seq<u8>) -> (x: (u8, u8, u8, u8))
    requires
        a.len() == 4,
        b.len() == 4,
        all_nibbles(a),
        all_nibbles(b),
    ensures
        x == (a[0] ^ b[0], a[1] ^ b[1], a[2] ^ b[2], a[3] ^ b[3]),
        x.0 < 16 && x.1 < 16 && x.2 < 16 && x.3 < 16,
        register_run(x.0, x.1, x.2, x.3, fb1(x.0, x.1), fb2(x.0, x.1, x.2), fb3(x.0, x.1, x.2, x.3),
            rs_parity(a).0 ^ rs_parity(b).0, rs_parity(a).1 ^ rs_parity(b).1),
{
    lemma_parity_formula(a);
    lemma_parity_formula(b);
    assert(a[0] < 16 && a[1] < 16 && a[2] < 16 && a[3] < 16);
    assert(b[0] < 16 && b[1] < 16 && b[2] < 16 && b[3] < 16);
    let x = (a[0] ^ b[0], a[1] ^ b[1], a[2] ^ b[2], a[3] ^ b[3]);
    lemma_xor_nibble(a[0], b[0]);
    lemma_xor_nibble(a[1], b[1]);
    lemma_xor_nibble(a[2], b[2]);
    lemma_xor_nibble(a[3], b[3]);
    lemma_register_linear(
        a[0], a[1], a[2], a[3], fb1(a[0], a[1]), fb2(a[0], a[1], a[2]), fb3(a[0], a[1], a[2], a[3]),
        par0(a[0], a[1], a[2], a[3]), par1(a[0], a[1], a[2], a[3]),
        b[0], b[1], b[2], b[3], fb1(b[0], b[1]), fb2(b[0], b[1], b[2]), fb3(b[0], b[1], b[2], b[3]),
        par0(b[0], b[1], b[2], b[3]), par1(b[0], b[1], b[2], b[3]),
        fb1(x.0, x.1), fb2(x.0, x.1, x.2), fb3(x.0, x.1, x.2, x.3),
        par0(x.0, x.1, x.2, x.3), par1(x.0, x.1, x.2, x.3),
    );
    x
}

proof fn lemma_xor_zero(a: u8, b: u8)
    ensures
        (a ^ b == 0) == (a == b),
{
    assert((a ^ b == 0) == (a == b)) by (bit_vector);
}

/// Two data words that agree outside positions `i` and `j` and have the same parity
/// are equal.
proof fn lemma_two_changes(a: Seq<u8>, b: Seq<u8>, i: int, j: int)
    requires
        a.len() == 4,
        b.len() == 4,
        all_nibbles(a),
        all_nibbles(b),
        forall|k: int| 0 <= k < 4 && k != i && k != j ==> a[k] == b[k],
        rs_parity(a) == rs_parity(b),
    ensures
        a == b,
{
    let x = lemma_parity_difference(a, b);
    lemma_xor_zero(a[0], b[0]);
    lemma_xor_zero(a[1], b[1]);
    lemma_xor_zero(a[2], b[2]);
    lemma_xor_zero(a[3], b[3]);
    lemma_xor_zero(rs_parity(a).0, rs_parity(b).0);
    lemma_xor_zero(rs_parity(a).1, rs_parity(b).1);
    lemma_register_distance(x.0, x.1, x.2, x.3, fb1(x.0, x.1), fb2(x.0, x.1, x.2), fb3(x.0, x.1, x.2, x.3),
        rs_parity(a).0 ^ rs_parity(b).0, rs_parity(a).1 ^ rs_parity(b).1);
    assert(a =~= b);
}

/// Changing one data nibble changes both parity nibbles.
proof fn lemma_one_change(d: Seq<u8>, j: int, c: u8)
    requires
        d.len() == 4,
        all_nibbles(d),
        0 <= j < 4,
        c < 16,
        c != d[j],
    ensures
        rs_parity(d.update(j, c)).0 != rs_parity(d).0,
        rs_parity(d.update(j, c)).1 != rs_parity(d).1,
{
    let a = d.update(j, c);
    assert(all_nibbles(a));
    let x = lemma_parity_difference(a, d);
    lemma_xor_zero(a[0], d[0]);
    lemma_xor_zero(a[1], d[1]);
    lemma_xor_zero(a[2], d[2]);
    lemma_xor_zero(a[3], d[3]);
    lemma_xor_zero(rs_parity(a).0, rs_parity(d).0);
    lemma_xor_zero(rs_parity(a).1, rs_parity(d).1);
    lemma_register_distance(x.0, x.1, x.2, x.3, fb1(x.0, x.1), fb2(x.0, x.1, x.2), fb3(x.0, x.1, x.2, x.3),
        rs_parity(a).0 ^ rs_parity(d).0, rs_parity(a).1 ^ rs_parity(d).1);
}


/// A group of six nibbles as sent: four data nibbles and their parity.
pub open spec fn codeword(d: Seq<u8>) -> Seq<u8> {
    d + seq![rs_parity(d).0, rs_parity(d).1]
}

/// The search for a fix, started at or before the fix that undoes a wrong data nibble,
/// finds that fix.
proof fn lemma_first_fix_finds(d: Seq<u8>, k: int, v: u8, t: nat)
    requires
        d.len() == 4,
        all_nibbles(d),
        0 <= k < 4,
        v < 16,
        v != d[k],
        t <= 16 * k + d[k],
    ensures
        first_fix(d.update(k, v), rs_parity(d), t) == Some(d),
    decreases 16 * k + d[k] - t,
{
    let a = d.update(k, v);
    let p = rs_parity(d);
    let idx = (t / 16) as int;
    let cand = (t % 16) as u8;
    assert(0 <= idx < 4);
    if t == 16 * k + d[k] {
        assert(idx == k && cand == d[k]);
        assert(a.update(k, d[k]) =~= d);
    } else {
        if cand != a[idx] {
            let b = a.update(idx, cand);
            assert(all_nibbles(b));
            if idx == k {
                assert(cand < d[k]);
                assert(b =~= d.update(k, cand));
                lemma_one_change(d, k, cand);
            } else {
                assert(all_nibbles(a));
                if rs_parity(b) == p {
                    lemma_two_changes(b, d, k, idx);
                    assert(b[k] == v);
                }
            }
        }
        lemma_first_fix_finds(d, k, v, t + 1);
    }
}

/// No single data-nibble change gives a parity that differs from the true one in
/// exactly one nibble.
proof fn lemma_first_fix_none(d: Seq<u8>, q: (u8, u8), t: nat)
    requires
        d.len() == 4,
        all_nibbles(d),
        (q.0 == rs_parity(d).0) != (q.1 == rs_parity(d).1),
    ensures
        first_fix(d, q, t) is None,
    decreases 64 - t,
{
    if t < 64 {
        let idx = (t / 16) as int;
        let cand = (t % 16) as u8;
        if cand != d[idx] {
            lemma_one_change(d, idx, cand);
        }
        lemma_first_fix_none(d, q, t + 1);
    }
}

/// Correction restores a group in which at most one nibble (data or parity) was
/// changed.
pub proof fn lemma_single_nibble_corrected(d: Seq<u8>, k: int, v: u8)
    requires
        d.len() == 4,
        all_nibbles(d),
        0 <= k < 6,
        v < 16,
    ensures
        corrected(codeword(d).update(k, v)) == codeword(d),
{
    let c = codeword(d);
    let n = c.update(k, v);
    let p = rs_parity(d);
    assert(c.take(4) =~= d);
    if v == c[k] {
        assert(n =~= c);
    } else if k < 4 {
        let a = d.update(k, v);
        assert(n.take(4) =~= a);
        assert((n[4], n[5]) == p);
        lemma_one_change(d, k, v);
        lemma_first_fix_finds(d, k, v, 0);
        assert(corrected(n) =~= c);
    } else {
        assert(n.take(4) =~= d);
        lemma_first_fix_none(d, (n[4], n[5]), 0);
        assert(corrected(n) =~= c);
    }
}


/// The data nibbles of two bytes.
pub open spec fn byte_nibbles(d0: u8, d1: u8) -> Seq<u8> {
    seq![d0 / 16, d0 % 16, d1 / 16, d1 % 16]
}

/// The six nibbles of group `g` of a byte stream.
pub open spec fn group_at(s: Seq<u8>, g: int) -> Seq<u8> {
    group_nibbles(s[3 * g], s[3 * g + 1], s[3 * g + 2])
}

/// Received bytes differ from sent ones in at most one nibble per three-byte group.
pub open spec fn one_nibble_per_group(received: Seq<u8>, sent: Seq<u8>) -> bool {
    &&& received.len() == sent.len()
    &&& forall|g: int| 0 <= g < sent.len() / 3 ==> exists|k: int, v: u8|
        0 <= k < 6 && v < 16 && #[trigger] group_at(received, g) == #[trigger] group_at(sent, g).update(k, v)
}

/// A sent group is the codeword of its two data bytes.
proof fn lemma_group_codeword(d0: u8, d1: u8)
    ensures
        all_nibbles(byte_nibbles(d0, d1)),
        byte_nibbles(d0, d1).len() == 4,
        group_nibbles(d0, d1, parity_byte(d0, d1)) == codeword(byte_nibbles(d0, d1)),
{
    let data = byte_nibbles(d0, d1);
    assert(all_nibbles(data));
    lemma_parity_nibbles(data);
    let p = rs_parity(data);
    let pb = parity_byte(d0, d1);
    assert(pb / 16 == p.0 && pb % 16 == p.1);
    assert(group_nibbles(d0, d1, pb) =~= codeword(data));
}

/// Decoding a parity-encoded stream in which each group has at most one wrong nibble
/// gives the stream back, padded with a zero byte to even length.
pub proof fn lemma_rs16_corrects(data: Seq<u8>, received: Seq<u8>)
    requires
        one_nibble_per_group(received, rs16_encoded(data)),
    ensures
        rs16_decoded(received) == pad_even(data),
{
    let e = rs16_encoded(data);
    let groups = (data.len() + 1) / 2;
    assert(e.len() == groups * 3);
    assert(e.len() / 3 == groups);
    assert(received.len() / 3 == groups);
    let d = rs16_decoded(received);
    let pe = pad_even(data);
    assert forall|p: int| 0 <= p < d.len() implies d[p] == pe[p] by {
        let g = p / 2;
        assert(0 <= g < groups);
        assert((3 * g) / 3 == g && (3 * g) % 3 == 0);
        assert((3 * g + 1) / 3 == g && (3 * g + 1) % 3 == 1);
        assert((3 * g + 2) / 3 == g && (3 * g + 2) % 3 == 2);
        let d0 = byte_or_zero(data, 2 * g);
        let d1 = byte_or_zero(data, 2 * g + 1);
        assert(e[3 * g] == d0 && e[3 * g + 1] == d1 && e[3 * g + 2] == parity_byte(d0, d1));
        lemma_group_codeword(d0, d1);
        assert(group_at(e, g) == group_nibbles(d0, d1, parity_byte(d0, d1)));
        let (k, v) = choose|k: int, v: u8| 0 <= k < 6 && v < 16
            && #[trigger] group_at(received, g) == #[trigger] group_at(e, g).update(k, v);
        lemma_single_nibble_corrected(byte_nibbles(d0, d1), k, v);
        let n = corrected(group_nibbles(received[3 * g], received[3 * g + 1], received[3 * g + 2]));
        assert(n == codeword(byte_nibbles(d0, d1)));
        assert(n[0] == d0 / 16 && n[1] == d0 % 16 && n[2] == d1 / 16 && n[3] == d1 % 16);
        if p % 2 == 0 {
            assert(p == 2 * g);
        } else {
            assert(p == 2 * g + 1);
        }
    }
    assert(d =~= pe);
}

} // verus!
