use vstd::prelude::*;
use crate::bytes::{be16, be16_bytes, lemma_be16_roundtrip, split_be16, join_be16, append_slice, copy_range};
use crate::error::{AudioModemError, Result};
use crate::{FRAME_HEADER_SIZE, MAX_PAYLOAD_SIZE};

verus! {

// ---------------------------------------------------------------------
// CRC-16-CCITT (initial value 0xFFFF, polynomial 0x1021, MSB first)

/// One shift of the CRC-16 register.
pub open spec fn crc16_shift(c: u16) -> u16 {
    if c & 0x8000u16 != 0 {
        ((c << 1u16) ^ 0x1021u16) as u16
    } else {
        (c << 1u16) as u16
    }
}

/// `k` shifts of the CRC-16 register.
pub open spec fn crc16_shifts(c: u16, k: nat) -> u16
    decreases k,
{
    if k == 0 {
        c
    } else {
        crc16_shift(crc16_shifts(c, (k - 1) as nat))
    }
}

/// The CRC-16 register after absorbing one byte.
pub open spec fn crc16_byte(c: u16, b: u8) -> u16 {
    crc16_shifts(c ^ ((b as u16) << 8u16), 8)
}

/// CRC-16-CCITT of a byte sequence.
#[verifier::opaque]
pub open spec fn spec_crc16(data: Seq<u8>) -> u16
    decreases data.len(),
{
    if data.len() == 0 {
        0xFFFFu16
    } else {
        crc16_byte(spec_crc16(data.drop_last()), data.last())
    }
}

fn crc16_shift_exec(crc: u32) -> (res: u32)
    ensures
        (res & 0xFFFF) as u16 == crc16_shift((crc & 0xFFFF) as u16),
{
    let shifted = crc << 1u32;
    let res = if shifted & 0x10000 != 0 {
        shifted ^ 0x1021
    } else {
        shifted
    };
    assert((res & 0xFFFF) as u16 == crc16_shift((crc & 0xFFFF) as u16)) by (bit_vector)
        requires
            shifted == crc << 1u32,
            res == if shifted & 0x10000 != 0 { shifted ^ 0x1021 } else { shifted },
    ;
    res
}

/// Absorbs one byte into a 32-bit CRC-16 register (only the low 16 bits matter).
fn crc16_absorb(crc: u32, byte: u8) -> (res: u32)
    ensures
        (res & 0xFFFF) as u16 == crc16_byte((crc & 0xFFFF) as u16, byte),
{
    let mixed = crc ^ ((byte as u32) << 8u32);
    assert((mixed & 0xFFFF) as u16 == ((crc & 0xFFFF) as u16) ^ ((byte as u16) << 8u16))
        by (bit_vector)
        requires
            mixed == crc ^ ((byte as u32) << 8u32),
    ;
    let mut c = mixed;
    let mut k: usize = 0;
    while k < 8
        invariant
            k <= 8,
            (c & 0xFFFF) as u16 == crc16_shifts((mixed & 0xFFFF) as u16, k as nat),
        decreases 8 - k,
    {
        c = crc16_shift_exec(c);
        k += 1;
    }
    c
}

/// CRC-16-CCITT for payload integrity verification.
pub fn crc16(data: &[u8]) -> (res: u16)
    ensures
        res == spec_crc16(data@),
{
    let mut crc: u32 = 0xFFFF;
    let mut i: usize = 0;
    assert((crc & 0xFFFF) as u16 == 0xFFFFu16) by (bit_vector)
        requires
            crc == 0xFFFFu32,
    ;
    assert(data@.take(0) =~= Seq::<u8>::empty());
    reveal(spec_crc16);
    while i < data.len()
        invariant
            i <= data.len(),
            (crc & 0xFFFF) as u16 == spec_crc16(data@.take(i as int)),
        decreases data.len() - i,
    {
        let ghost prev = data@.take(i as int);
        crc = crc16_absorb(crc, data[i]);
        i += 1;
        assert(data@.take(i as int).drop_last() == prev);
        reveal(spec_crc16);
    }
    assert(data@.take(data.len() as int) == data@);
    assert(crc & 0xFFFF <= 0xFFFF) by (bit_vector);
    (crc & 0xFFFF) as u16
}

// ---------------------------------------------------------------------
// CRC-8 (initial value 0, polynomial 0xD5, MSB first)

/// One shift of the CRC-8 register.
pub open spec fn crc8_shift(c: u8) -> u8 {
    if c & 0x80u8 != 0 {
        ((c << 1u8) ^ 0xD5u8) as u8
    } else {
        (c << 1u8) as u8
    }
}

/// `k` shifts of the CRC-8 register.
pub open spec fn crc8_shifts(c: u8, k: nat) -> u8
    decreases k,
{
    if k == 0 {
        c
    } else {
        crc8_shift(crc8_shifts(c, (k - 1) as nat))
    }
}

/// CRC-8 (polynomial 0xD5) of a byte sequence.
#[verifier::opaque]
pub open spec fn spec_crc8(data: Seq<u8>) -> u8
    decreases data.len(),
{
    if data.len() == 0 {
        0u8
    } else {
        crc8_shifts(spec_crc8(data.drop_last()) ^ data.last(), 8)
    }
}

/// CRC-8 with polynomial 0xD5 (x^8 + x^7 + x^6 + x^4 + x^2 + 1).
pub fn crc8(data: &[u8]) -> (res: u8)
    ensures
        res == spec_crc8(data@),
{
    let mut crc: u8 = 0;
    let mut i: usize = 0;
    reveal(spec_crc8);
    assert(data@.take(0) =~= Seq::<u8>::empty());
    while i < data.len()
        invariant
            i <= data.len(),
            crc == spec_crc8(data@.take(i as int)),
        decreases data.len() - i,
    {
        let ghost prev = data@.take(i as int);
        let ghost start = crc ^ data[i as int];
        crc = crc ^ data[i];
        let mut k: usize = 0;
        while k < 8
            invariant
                k <= 8,
                crc == crc8_shifts(start, k as nat),
            decreases 8 - k,
        {
            if (crc & 0x80) != 0 {
                crc = (crc << 1u8) ^ 0xD5;
            } else {
                crc = crc << 1u8;
            }
            k += 1;
        }
        i += 1;
        assert(data@.take(i as int).drop_last() == prev);
        reveal(spec_crc8);
    }
    assert(data@.take(data.len() as int) == data@);
    crc
}

// ---------------------------------------------------------------------
// Frames

/// A frame: header fields, payload and the payload's CRC-16.
pub struct Frame {
    pub payload_len: u16,
    pub frame_num: u16,
    /// FEC mode indicator (8, 16 or 32 parity bytes)
    pub fec_mode: u8,
    pub payload: Vec<u8>,
    pub payload_crc: u16,
}

impl View for Frame {
    type V = (u16, u16, u8, Seq<u8>, u16);

    open spec fn view(&self) -> Self::V {
        (self.payload_len, self.frame_num, self.fec_mode, self.payload@, self.payload_crc)
    }
}

pub struct FrameEncoder;

pub struct FrameDecoder;

/// The four header bytes covered by the header CRC.
pub open spec fn header_prefix(payload_len: u16, frame_num: u16) -> Seq<u8> {
    be16_bytes(payload_len) + be16_bytes(frame_num)
}

/// The eight header bytes of a frame.
pub open spec fn frame_header(payload_len: u16, frame_num: u16, fec_mode: u8) -> Seq<u8> {
    header_prefix(payload_len, frame_num) + seq![
        spec_crc8(header_prefix(payload_len, frame_num)),
        fec_mode,
        0u8,
        0u8,
    ]
}

/// The bytes of an encoded frame: header, payload, CRC-16 of the payload (big-endian).
pub open spec fn frame_bytes(payload_len: u16, frame_num: u16, fec_mode: u8, payload: Seq<u8>) -> Seq<u8> {
    frame_header(payload_len, frame_num, fec_mode) + payload + be16_bytes(spec_crc16(payload))
}

/// What decoding a frame header gives.
pub open spec fn spec_decode_header(data: Seq<u8>) -> core::result::Result<(u16, u16, u8), AudioModemError> {
    if data.len() < FRAME_HEADER_SIZE {
        Err(AudioModemError::InvalidFrameSize)
    } else if data[4] != spec_crc8(data.take(4)) {
        Err(AudioModemError::HeaderCrcMismatch)
    } else {
        Ok((be16(data[0], data[1]), be16(data[2], data[3]), data[5]))
    }
}

/// What decoding a whole frame gives, as (length, number, FEC mode, payload, payload CRC).
pub open spec fn spec_decode_frame(data: Seq<u8>) -> core::result::Result<(u16, u16, u8, Seq<u8>, u16), AudioModemError> {
    match spec_decode_header(data) {
        Err(e) => Err(e),
        Ok((len, num, fec)) => {
            let end = FRAME_HEADER_SIZE + len;
            if data.len() < end + 2 {
                Err(AudioModemError::InvalidFrameSize)
            } else {
                let payload = data.subrange(FRAME_HEADER_SIZE as int, end as int);
                if be16(data[end as int], data[end + 1]) != spec_crc16(payload) {
                    Err(AudioModemError::PayloadCrcMismatch)
                } else {
                    Ok((len, num, fec, payload, spec_crc16(payload)))
                }
            }
        },
    }
}

impl FrameEncoder {
    /// Encodes a frame: header with CRC-8, payload, CRC-16 of the payload.
    pub fn encode(frame: &Frame) -> (res: Result<Vec<u8>>)
        ensures
            frame.payload@.len() > MAX_PAYLOAD_SIZE <==> res == Err::<Vec<u8>, AudioModemError>(AudioModemError::InvalidFrameSize),
            frame.payload@.len() <= MAX_PAYLOAD_SIZE ==> (res matches Ok(v) && v@ == frame_bytes(
                frame.payload_len,
                frame.frame_num,
                frame.fec_mode,
                frame.payload@,
            )),
    {
        if frame.payload.len() > MAX_PAYLOAD_SIZE {
            return Err(AudioModemError::InvalidFrameSize);
        }
        let (l0, l1) = split_be16(frame.payload_len);
        let (n0, n1) = split_be16(frame.frame_num);
        let mut encoded: Vec<u8> = Vec::new();
        encoded.push(l0);
        encoded.push(l1);
        encoded.push(n0);
        encoded.push(n1);
        assert(encoded@ == header_prefix(frame.payload_len, frame.frame_num));
        let crc_checksum = crc8(encoded.as_slice());
        encoded.push(crc_checksum);
        encoded.push(frame.fec_mode);
        encoded.push(0);
        encoded.push(0);
        assert(encoded@ == frame_header(frame.payload_len, frame.frame_num, frame.fec_mode));
        append_slice(&mut encoded, frame.payload.as_slice());
        let payload_crc = crc16(frame.payload.as_slice());
        let (c0, c1) = split_be16(payload_crc);
        encoded.push(c0);
        encoded.push(c1);
        assert(encoded@ == frame_bytes(frame.payload_len, frame.frame_num, frame.fec_mode, frame.payload@));
        Ok(encoded)
    }
}

impl FrameDecoder {
    /// Decodes a frame header and verifies its CRC-8.
    pub fn decode_header(data: &[u8]) -> (res: Result<(u16, u16, u8)>)
        ensures
            match res {
                Ok(h) => spec_decode_header(data@) == Ok::<(u16, u16, u8), AudioModemError>(h),
                Err(e) => spec_decode_header(data@) == Err::<(u16, u16, u8), AudioModemError>(e),
            },
    {
        if data.len() < FRAME_HEADER_SIZE {
            return Err(AudioModemError::InvalidFrameSize);
        }
        let payload_len = join_be16(data[0], data[1]);
        let frame_num = join_be16(data[2], data[3]);
        let expected_crc = data[4];
        let head = copy_range(data, 0, 4);
        assert(head@ == data@.take(4));
        let computed_crc = crc8(head.as_slice());
        if expected_crc != computed_crc {
            return Err(AudioModemError::HeaderCrcMismatch);
        }
        let fec_mode = data[5];
        Ok((payload_len, frame_num, fec_mode))
    }

    /// Decodes a complete frame (header, payload, payload CRC-16).
    pub fn decode(data: &[u8]) -> (res: Result<Frame>)
        ensures
            match res {
                Ok(f) => spec_decode_frame(data@) == Ok::<(u16, u16, u8, Seq<u8>, u16), AudioModemError>(f@),
                Err(e) => spec_decode_frame(data@) == Err::<(u16, u16, u8, Seq<u8>, u16), AudioModemError>(e),
            },
    {
        let (payload_len, frame_num, fec_mode) = match Self::decode_header(data) {
            Ok(h) => h,
            Err(e) => return Err(e),
        };
        let payload_end = FRAME_HEADER_SIZE + payload_len as usize;
        if data.len() < payload_end + 2 {
            return Err(AudioModemError::InvalidFrameSize);
        }
        let payload = copy_range(data, FRAME_HEADER_SIZE, payload_end);
        let received_crc = join_be16(data[payload_end], data[payload_end + 1]);
        let computed_crc = crc16(payload.as_slice());
        if received_crc != computed_crc {
            return Err(AudioModemError::PayloadCrcMismatch);
        }
        Ok(Frame { payload_len, frame_num, fec_mode, payload, payload_crc: computed_crc })
    }
}

/// Decoding an encoded frame gives back its fields whenever the length field
/// matches the payload: what the frame encoder writes, the frame decoder reads.
pub proof fn lemma_frame_roundtrip(payload_len: u16, frame_num: u16, fec_mode: u8, payload: Seq<u8>)
    requires
        payload.len() == payload_len,
    ensures
        spec_decode_frame(frame_bytes(payload_len, frame_num, fec_mode, payload)) == Ok::<(u16, u16, u8, Seq<u8>, u16), AudioModemError>(
            (payload_len, frame_num, fec_mode, payload, spec_crc16(payload)),
        ),
{
    let data = frame_bytes(payload_len, frame_num, fec_mode, payload);
    let hp = header_prefix(payload_len, frame_num);
    assert(data.take(4) == hp);
    lemma_be16_roundtrip(payload_len);
    lemma_be16_roundtrip(frame_num);
    lemma_be16_roundtrip(spec_crc16(payload));
    let end = FRAME_HEADER_SIZE + payload_len;
    assert(data.subrange(FRAME_HEADER_SIZE as int, end as int) == payload);
}


// ---------------------------------------------------------------------
// Error detection: both CRCs notice any change confined to one byte.

/// Every shift of the CRC-16 register is one-to-one (the polynomial's constant term
/// marks which shifts carried the feedback).
proof fn lemma_crc16_shifts_injective(a: u16, b: u16, k: nat)
    requires
        a != b,
    ensures
        crc16_shifts(a, k) != crc16_shifts(b, k),
    decreases k,
{
    if k > 0 {
        lemma_crc16_shifts_injective(a, b, (k - 1) as nat);
        let x = crc16_shifts(a, (k - 1) as nat);
        let y = crc16_shifts(b, (k - 1) as nat);
        assert(x != y ==> crc16_shift(x) != crc16_shift(y)) by (bit_vector);
    }
}

/// Every shift of the CRC-8 register is one-to-one.
proof fn lemma_crc8_shifts_injective(a: u8, b: u8, k: nat)
    requires
        a != b,
    ensures
        crc8_shifts(a, k) != crc8_shifts(b, k),
    decreases k,
{
    if k > 0 {
        lemma_crc8_shifts_injective(a, b, (k - 1) as nat);
        let x = crc8_shifts(a, (k - 1) as nat);
        let y = crc8_shifts(b, (k - 1) as nat);
        assert(x != y ==> crc8_shift(x) != crc8_shift(y)) by (bit_vector);
    }
}

/// Two sequences that differ at position `i` only, from there to the end of prefix `k`,
/// leave different CRC-16 registers.
proof fn lemma_crc16_registers_differ(d: Seq<u8>, e: Seq<u8>, i: int, k: int)
    requires
        d.len() == e.len(),
        0 <= i < k <= d.len(),
        d[i] != e[i],
        forall|j: int| 0 <= j < d.len() && j != i ==> d[j] == e[j],
    ensures
        spec_crc16(d.take(k)) != spec_crc16(e.take(k)),
    decreases k,
{
    reveal(spec_crc16);
    let dk = d.take(k);
    let ek = e.take(k);
    assert(dk.drop_last() =~= d.take(k - 1));
    assert(ek.drop_last() =~= e.take(k - 1));
    let rd = spec_crc16(d.take(k - 1));
    let re = spec_crc16(e.take(k - 1));
    if k - 1 == i {
        assert(d.take(k - 1) =~= e.take(k - 1));
        let x = d[i];
        let y = e[i];
        assert(x != y ==> rd ^ ((x as u16) << 8u16) != rd ^ ((y as u16) << 8u16)) by (bit_vector);
        lemma_crc16_shifts_injective(rd ^ ((x as u16) << 8u16), rd ^ ((y as u16) << 8u16), 8);
    } else {
        lemma_crc16_registers_differ(d, e, i, k - 1);
        let x = d[k - 1];
        assert(e[k - 1] == x);
        assert(rd != re ==> rd ^ ((x as u16) << 8u16) != re ^ ((x as u16) << 8u16)) by (bit_vector);
        lemma_crc16_shifts_injective(rd ^ ((x as u16) << 8u16), re ^ ((x as u16) << 8u16), 8);
    }
}

/// Once two sequences leave different CRC-8 registers, equal bytes after that keep
/// the registers different.
proof fn lemma_crc8_registers_stay_different(d: Seq<u8>, e: Seq<u8>, j: int, k: int)
    requires
        d.len() == e.len(),
        0 <= j <= k <= d.len(),
        spec_crc8(d.take(j)) != spec_crc8(e.take(j)),
        forall|m: int| j <= m < k ==> d[m] == e[m],
    ensures
        spec_crc8(d.take(k)) != spec_crc8(e.take(k)),
    decreases k - j,
{
    if k > j {
        lemma_crc8_registers_stay_different(d, e, j, k - 1);
        reveal(spec_crc8);
        assert(d.take(k).drop_last() =~= d.take(k - 1));
        assert(e.take(k).drop_last() =~= e.take(k - 1));
        let rd = spec_crc8(d.take(k - 1));
        let re = spec_crc8(e.take(k - 1));
        let x = d[k - 1];
        assert(e[k - 1] == x);
        assert(rd != re ==> rd ^ x != re ^ x) by (bit_vector);
        lemma_crc8_shifts_injective(rd ^ x, re ^ x, 8);
    }
}

/// Eight shifts of the CRC-8 register, written out.
pub open spec fn crc8_byte(c: u8) -> u8 {
    crc8_shift(crc8_shift(crc8_shift(crc8_shift(crc8_shift(crc8_shift(crc8_shift(crc8_shift(c))))))))
}

proof fn lemma_crc8_byte(c: u8)
    ensures
        crc8_shifts(c, 8) == crc8_byte(c),
{
    reveal_with_fuel(crc8_shifts, 9);
}

/// Two sequences that differ at position `i` only leave different CRC-8 registers
/// from there on.
proof fn lemma_crc8_registers_differ(d: Seq<u8>, e: Seq<u8>, i: int, k: int)
    requires
        d.len() == e.len(),
        0 <= i < k <= d.len(),
        d[i] != e[i],
        forall|j: int| 0 <= j < d.len() && j != i ==> d[j] == e[j],
    ensures
        spec_crc8(d.take(k)) != spec_crc8(e.take(k)),
    decreases k,
{
    reveal(spec_crc8);
    let dk = d.take(k);
    let ek = e.take(k);
    assert(dk.drop_last() =~= d.take(k - 1));
    assert(ek.drop_last() =~= e.take(k - 1));
    let rd = spec_crc8(d.take(k - 1));
    let re = spec_crc8(e.take(k - 1));
    if k - 1 == i {
        assert(d.take(k - 1) =~= e.take(k - 1));
        let x = d[i];
        let y = e[i];
        assert(x != y ==> rd ^ x != rd ^ y) by (bit_vector);
        lemma_crc8_shifts_injective(rd ^ x, rd ^ y, 8);
    } else {
        lemma_crc8_registers_differ(d, e, i, i + 1);
        lemma_crc8_registers_stay_different(d, e, i + 1, k);
    }
}

/// CRC-16 detects every change confined to one byte (in particular every single-bit
/// error).
pub proof fn lemma_crc16_detects_byte_change(data: Seq<u8>, i: int, b: u8)
    requires
        0 <= i < data.len(),
        b != data[i],
    ensures
        spec_crc16(data.update(i, b)) != spec_crc16(data),
{
    let e = data.update(i, b);
    lemma_crc16_registers_differ(data, e, i, data.len() as int);
    assert(data.take(data.len() as int) =~= data);
    assert(e.take(e.len() as int) =~= e);
}

/// CRC-8 detects every change confined to one byte (in particular every single-bit
/// error).
pub proof fn lemma_crc8_detects_byte_change(data: Seq<u8>, i: int, b: u8)
    requires
        0 <= i < data.len(),
        b != data[i],
    ensures
        spec_crc8(data.update(i, b)) != spec_crc8(data),
{
    let e = data.update(i, b);
    lemma_crc8_registers_differ(data, e, i, data.len() as int);
    assert(data.take(data.len() as int) =~= data);
    assert(e.take(e.len() as int) =~= e);
}

/// CRC-8 detects every burst of at most 8 flipped bits that straddles two adjacent
/// bytes: `e1` flips bits among the last `s` bits of byte `i` and `e2` bits among the
/// first `8 - s` bits of byte `i + 1` (most significant bit first), not both nothing.
pub proof fn lemma_crc8_detects_short_burst(data: Seq<u8>, i: int, s: u8, e1: u8, e2: u8)
    requires
        0 <= i,
        i + 1 < data.len(),
        1 <= s <= 7,
        e1 >> s == 0,
        e2 << ((8 - s) as u8) == 0,
        e1 != 0 || e2 != 0,
    ensures
        spec_crc8(data.update(i, data[i] ^ e1).update(i + 1, data[i + 1] ^ e2)) != spec_crc8(data),
{
    let d = data;
    let e = data.update(i, data[i] ^ e1).update(i + 1, data[i + 1] ^ e2);
    reveal(spec_crc8);
    assert(d.take(i) =~= e.take(i));
    assert(d.take(i + 1).drop_last() =~= d.take(i));
    assert(e.take(i + 1).drop_last() =~= e.take(i));
    assert(d.take(i + 2).drop_last() =~= d.take(i + 1));
    assert(e.take(i + 2).drop_last() =~= e.take(i + 1));
    let r = spec_crc8(d.take(i));
    let x = d[i];
    let y = d[i + 1];
    lemma_crc8_byte(r ^ x);
    lemma_crc8_byte(r ^ (x ^ e1));
    let rd1 = spec_crc8(d.take(i + 1));
    let re1 = spec_crc8(e.take(i + 1));
    assert(rd1 == crc8_byte(r ^ x));
    assert(re1 == crc8_byte(r ^ (x ^ e1)));
    assert(1 <= s <= 7 && e1 >> s == 0 && e2 << ((8 - s) as u8) == 0 && (e1 != 0 || e2 != 0)
        ==> crc8_byte(r ^ x) ^ y != crc8_byte(r ^ (x ^ e1)) ^ (y ^ e2)) by (bit_vector);
    lemma_crc8_shifts_injective(rd1 ^ y, re1 ^ (y ^ e2), 8);
    assert(spec_crc8(d.take(i + 2)) != spec_crc8(e.take(i + 2)));
    lemma_crc8_registers_stay_different(d, e, i + 2, d.len() as int);
    assert(d.take(d.len() as int) =~= d);
    assert(e.take(e.len() as int) =~= e);
}

} // verus!
