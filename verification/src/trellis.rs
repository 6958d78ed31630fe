use vstd::prelude::*;
use crate::error::{AudioModemError, Result};

verus! {

// ---------------------------------------------------------------------
// Rate 1/2 convolutional code, constraint length 7:
// G1 = 133 (octal) = 1011011, G2 = 171 (octal) = 1111001, 64 states.

/// Parity (xor of all bits) of a byte.
pub open spec fn spec_parity(b: u8) -> u8 {
    (b ^ (b >> 1u8) ^ (b >> 2u8) ^ (b >> 3u8) ^ (b >> 4u8) ^ (b >> 5u8) ^ (b >> 6u8) ^ (b >> 7u8)) & 1u8
}

/// Calculates the parity of a byte.
pub fn parity(byte: u8) -> (res: u8)
    ensures
        res == spec_parity(byte),
{
    let mut p: u8 = 0;
    let mut b: u8 = byte;
    assert(spec_parity(0u8) == 0u8 && 0u8 ^ spec_parity(byte) == spec_parity(byte)) by (bit_vector);
    while b != 0
        invariant
            p <= 1,
            p ^ spec_parity(b) == spec_parity(byte),
        decreases b,
    {
        assert(b != 0 ==> spec_parity(b) == (b & 1u8) ^ spec_parity(b >> 1u8)) by (bit_vector);
        assert(p <= 1 && b != 0 ==> (p ^ (b & 1u8)) <= 1 && (b >> 1u8) < b) by (bit_vector);
        assert(p ^ spec_parity(b) == spec_parity(byte) && b != 0
            ==> (p ^ (b & 1u8)) ^ spec_parity(b >> 1u8) == spec_parity(byte)) by (bit_vector)
            requires
                b != 0 ==> spec_parity(b) == (b & 1u8) ^ spec_parity(b >> 1u8),
        ;
        p ^= b & 1;
        b >>= 1u8;
    }
    assert(p ^ 0u8 == p) by (bit_vector);
    p
}

/// The register value of an input bit.
pub open spec fn conv_input(bit: bool) -> u8 {
    if bit { 1u8 } else { 0u8 }
}

/// The two output bits for an input bit in a state.
pub open spec fn conv_out(state: u8, bit: bool) -> (bool, bool) {
    let combined = ((conv_input(bit) << 6u8) | state) & 0x7Fu8;
    (spec_parity(combined & 0x5Bu8) != 0u8, spec_parity(combined & 0x79u8) != 0u8)
}

/// The state after an input bit.
pub open spec fn conv_next(state: u8, bit: bool) -> u8 {
    (state >> 1u8) | (conv_input(bit) << 5u8)
}

/// The state after a sequence of input bits.
pub open spec fn run_state(s: u8, bits: Seq<bool>) -> u8
    decreases bits.len(),
{
    if bits.len() == 0 {
        s
    } else {
        conv_next(run_state(s, bits.drop_last()), bits.last())
    }
}

/// The coded output of a sequence of input bits (two bits per input bit).
pub open spec fn run_out(s: u8, bits: Seq<bool>) -> Seq<bool>
    decreases bits.len(),
{
    if bits.len() == 0 {
        Seq::empty()
    } else {
        let o = conv_out(run_state(s, bits.drop_last()), bits.last());
        run_out(s, bits.drop_last()).push(o.0).push(o.1)
    }
}

/// The bits of a byte, most significant first.
pub open spec fn byte_bits(b: u8) -> Seq<bool> {
    Seq::new(8, |i: int| (b >> ((7 - i) as u8)) & 1u8 == 1u8)
}

/// The bits of a message, most significant first, followed by six zero tail bits.
pub open spec fn message_bits(data: Seq<u8>) -> Seq<bool>
    decreases data.len(),
{
    data_bits(data) + Seq::new(6, |i: int| false)
}

/// The bits of a byte sequence, most significant first.
pub open spec fn data_bits(data: Seq<u8>) -> Seq<bool>
    decreases data.len(),
{
    if data.len() == 0 {
        Seq::empty()
    } else {
        data_bits(data.drop_last()) + byte_bits(data.last())
    }
}

/// Running a concatenation is running its parts in turn.
pub proof fn lemma_run_concat(s: u8, a: Seq<bool>, b: Seq<bool>)
    ensures
        run_state(s, a + b) == run_state(run_state(s, a), b),
        run_out(s, a + b) == run_out(s, a) + run_out(run_state(s, a), b),
    decreases b.len(),
{
    if b.len() == 0 {
        assert(a + b == a);
    } else {
        lemma_run_concat(s, a, b.drop_last());
        assert((a + b).drop_last() == a + b.drop_last());
        assert((a + b).last() == b.last());
        let o = conv_out(run_state(s, a + b.drop_last()), b.last());
        assert(run_out(s, a + b) == run_out(s, a + b.drop_last()).push(o.0).push(o.1));
        assert(run_out(run_state(s, a), b) == run_out(run_state(s, a), b.drop_last()).push(o.0).push(o.1));
        assert(run_out(s, a + b) =~= run_out(s, a) + run_out(run_state(s, a), b));
    }
}

/// The output is twice as long as the input.
pub proof fn lemma_run_out_len(s: u8, bits: Seq<bool>)
    ensures
        run_out(s, bits).len() == 2 * bits.len(),
    decreases bits.len(),
{
    if bits.len() > 0 {
        lemma_run_out_len(s, bits.drop_last());
    }
}

/// Running a bit string outputs, for each input bit in turn, the two bits one step
/// gives from the state reached so far: encoding a byte is encoding its eight bits
/// one after the other, most significant first.
pub proof fn lemma_run_out_steps(s: u8, bits: Seq<bool>)
    ensures
        run_out(s, bits).len() == 2 * bits.len(),
        forall|i: int| 0 <= i < bits.len() ==> #[trigger] run_out(s, bits).subrange(2 * i, 2 * i + 2)
            == seq![conv_out(run_state(s, bits.take(i)), bits[i]).0, conv_out(run_state(s, bits.take(i)), bits[i]).1],
    decreases bits.len(),
{
    if bits.len() > 0 {
        let prev = bits.drop_last();
        lemma_run_out_steps(s, prev);
        let r = run_out(s, bits);
        assert forall|i: int| 0 <= i < bits.len() implies #[trigger] r.subrange(2 * i, 2 * i + 2)
            == seq![conv_out(run_state(s, bits.take(i)), bits[i]).0, conv_out(run_state(s, bits.take(i)), bits[i]).1] by {
            if i < bits.len() - 1 {
                assert(r.subrange(2 * i, 2 * i + 2) =~= run_out(s, prev).subrange(2 * i, 2 * i + 2));
                assert(prev.take(i) =~= bits.take(i));
                assert(prev[i] == bits[i]);
            } else {
                assert(prev =~= bits.take(i));
                assert(r.subrange(2 * i, 2 * i + 2) =~= seq![conv_out(run_state(s, prev), bits.last()).0, conv_out(run_state(s, prev), bits.last()).1]);
            }
        }
    }
}

/// Xor of five bits.
pub open spec fn xor5(a: bool, b: bool, c: bool, d: bool, e: bool) -> bool {
    (((a != b) != c) != d) != e
}

/// Input bit `j` of a bit string, zero before its start (the register starts empty).
pub open spec fn input_at(x: Seq<bool>, j: int) -> bool {
    0 <= j < x.len() && x[j]
}

/// Bit facts of one step of the register: the next state shifts the input in at the top,
/// the outputs are the xor of the tapped register bits, and flipping the input (or the
/// newest register bit) changes the outputs as the generators say.
proof fn lemma_register_step(s: u8, b: bool, a0: bool, a1: bool, a2: bool, a3: bool, a4: bool)
    by (bit_vector)
    requires
        s < 64,
    ensures
        conv_next(s, b) < 64,
        (conv_next(s, b) >> 5u8) & 1u8 == conv_input(b),
        (conv_next(s, b) >> 4u8) & 1u8 == (s >> 5u8) & 1u8,
        (conv_next(s, b) >> 3u8) & 1u8 == (s >> 4u8) & 1u8,
        (conv_next(s, b) >> 2u8) & 1u8 == (s >> 3u8) & 1u8,
        (conv_next(s, b) >> 1u8) & 1u8 == (s >> 2u8) & 1u8,
        conv_next(s, b) & 1u8 == (s >> 1u8) & 1u8,
        conv_out(s, b).0 == ((conv_input(b) ^ ((s >> 4u8) & 1u8) ^ ((s >> 3u8) & 1u8) ^ ((s >> 1u8) & 1u8) ^ (s & 1u8)) == 1u8),
        conv_out(s, b).1 == ((conv_input(b) ^ ((s >> 5u8) & 1u8) ^ ((s >> 4u8) & 1u8) ^ ((s >> 3u8) & 1u8) ^ (s & 1u8)) == 1u8),
        conv_next(s, !b) == conv_next(s, b) ^ 32u8,
        conv_next(s, false) < 32,
        conv_next(s, true) == conv_next(s, false) + 32,
        conv_out(s, b).0 != conv_out(s, !b).0,
        conv_out(s, b).1 != conv_out(s, !b).1,
        s >= 32 ==> conv_out((s - 32) as u8, b).1 != conv_out(s, b).1,
        s >= 32 ==> conv_out((s - 32) as u8, !b).0 != conv_out(s, b).0,
        ((conv_input(a0) ^ conv_input(a1) ^ conv_input(a2) ^ conv_input(a3) ^ conv_input(a4)) == 1u8) == xor5(a0, a1, a2, a3, a4),
{
}

/// The register after `k` inputs holds the last six inputs, newest at the top bit.
proof fn lemma_register_history(x: Seq<bool>, k: int)
    requires
        0 <= k <= x.len(),
    ensures
        run_state(0, x.take(k)) < 64,
        (run_state(0, x.take(k)) >> 5u8) & 1u8 == conv_input(input_at(x, k - 1)),
        (run_state(0, x.take(k)) >> 4u8) & 1u8 == conv_input(input_at(x, k - 2)),
        (run_state(0, x.take(k)) >> 3u8) & 1u8 == conv_input(input_at(x, k - 3)),
        (run_state(0, x.take(k)) >> 2u8) & 1u8 == conv_input(input_at(x, k - 4)),
        (run_state(0, x.take(k)) >> 1u8) & 1u8 == conv_input(input_at(x, k - 5)),
        run_state(0, x.take(k)) & 1u8 == conv_input(input_at(x, k - 6)),
    decreases k,
{
    if k == 0 {
        assert(x.take(0) =~= Seq::<bool>::empty());
        assert((0u8 >> 5u8) & 1u8 == 0u8 && (0u8 >> 4u8) & 1u8 == 0u8 && (0u8 >> 3u8) & 1u8 == 0u8
            && (0u8 >> 2u8) & 1u8 == 0u8 && (0u8 >> 1u8) & 1u8 == 0u8 && 0u8 & 1u8 == 0u8) by (bit_vector);
    } else {
        lemma_register_history(x, k - 1);
        let s = run_state(0, x.take(k - 1));
        assert(x.take(k).drop_last() =~= x.take(k - 1));
        assert(x.take(k).last() == x[k - 1]);
        lemma_register_step(s, x[k - 1], false, false, false, false, false);
    }
}

/// The code's generators, stated over the input bits: coded bit `2k` is the xor of the
/// inputs `k`, `k-2`, `k-3`, `k-5`, `k-6` (G1 = 133 octal) and coded bit `2k+1` the xor of
/// the inputs `k`, `k-1`, `k-2`, `k-3`, `k-6` (G2 = 171 octal), the register starting empty.
pub proof fn lemma_code_generators(x: Seq<bool>, k: int)
    requires
        0 <= k < x.len(),
    ensures
        run_out(0, x).len() == 2 * x.len(),
        run_out(0, x)[2 * k] == xor5(input_at(x, k), input_at(x, k - 2), input_at(x, k - 3), input_at(x, k - 5), input_at(x, k - 6)),
        run_out(0, x)[2 * k + 1] == xor5(input_at(x, k), input_at(x, k - 1), input_at(x, k - 2), input_at(x, k - 3), input_at(x, k - 6)),
{
    lemma_run_out_steps(0, x);
    lemma_register_history(x, k);
    let s = run_state(0, x.take(k));
    let r = run_out(0, x);
    assert(r.subrange(2 * k, 2 * k + 2)[0] == r[2 * k]);
    assert(r.subrange(2 * k, 2 * k + 2)[1] == r[2 * k + 1]);
    assert(input_at(x, k) == x[k]);
    lemma_register_step(s, x[k], input_at(x, k), input_at(x, k - 2), input_at(x, k - 3), input_at(x, k - 5), input_at(x, k - 6));
    lemma_register_step(s, x[k], input_at(x, k), input_at(x, k - 1), input_at(x, k - 2), input_at(x, k - 3), input_at(x, k - 6));
}

/// Hamming distance is at most the sum of the distances through a third sequence.
proof fn lemma_hamming_triangle(a: Seq<bool>, b: Seq<bool>, c: Seq<bool>)
    requires
        a.len() == b.len(),
        b.len() == c.len(),
    ensures
        hamming(a, c) <= hamming(a, b) + hamming(c, b),
    decreases a.len(),
{
    if a.len() > 0 {
        lemma_hamming_triangle(a.drop_last(), b.drop_last(), c.drop_last());
    }
}

/// The distance of prefixes is at most the distance of the whole.
proof fn lemma_hamming_take(a: Seq<bool>, b: Seq<bool>, n: int)
    requires
        a.len() == b.len(),
        0 <= n <= a.len(),
    ensures
        hamming(a.take(n), b.take(n)) <= hamming(a, b),
    decreases a.len(),
{
    if n == a.len() {
        assert(a.take(n) =~= a);
        assert(b.take(n) =~= b);
    } else {
        lemma_hamming_take(a.drop_last(), b.drop_last(), n);
        assert(a.drop_last().take(n) =~= a.take(n));
        assert(b.drop_last().take(n) =~= b.take(n));
    }
}

/// Two sequences differing at listed (increasing) positions are at least that many apart.
proof fn lemma_hamming_at_least(a: Seq<bool>, b: Seq<bool>, idx: Seq<int>)
    requires
        a.len() == b.len(),
        forall|t: int| 0 <= t < idx.len() ==> 0 <= #[trigger] idx[t] < a.len() && a[idx[t]] != b[idx[t]],
        forall|s: int, t: int| 0 <= s < t < idx.len() ==> idx[s] < idx[t],
    ensures
        hamming(a, b) >= idx.len(),
    decreases a.len(),
{
    if a.len() == 0 {
        if idx.len() > 0 {
            assert(0 <= idx[0] < a.len());
        }
    } else {
        let n = a.len() - 1;
        let a0 = a.drop_last();
        let b0 = b.drop_last();
        if idx.len() > 0 && idx.last() == n {
            let i0 = idx.drop_last();
            assert forall|t: int| 0 <= t < i0.len() implies 0 <= #[trigger] i0[t] < a0.len() && a0[i0[t]] != b0[i0[t]] by {
                assert(i0[t] == idx[t]);
                assert(idx[t] < idx[idx.len() - 1]);
            }
            lemma_hamming_at_least(a0, b0, i0);
        } else {
            assert forall|t: int| 0 <= t < idx.len() implies 0 <= #[trigger] idx[t] < a0.len() && a0[idx[t]] != b0[idx[t]] by {
                if t < idx.len() - 1 {
                    assert(idx[t] < idx[idx.len() - 1]);
                }
            }
            lemma_hamming_at_least(a0, b0, idx);
        }
    }
}

/// The coded bits of a prefix are the prefix of the coded bits.
proof fn lemma_run_out_take(x: Seq<bool>, k: int)
    requires
        0 <= k <= x.len(),
    ensures
        run_out(0, x.take(k)) == run_out(0, x).take(2 * k),
        run_out(0, x).len() == 2 * x.len(),
{
    let xk = x.take(k);
    assert(x =~= xk + x.skip(k));
    lemma_run_concat(0, xk, x.skip(k));
    lemma_run_out_len(0, xk);
    lemma_run_out_len(0, x);
    assert(run_out(0, x).take(2 * k) =~= run_out(0, xk));
}

/// The two coded bits of input `j`.
proof fn lemma_out_pair(y: Seq<bool>, j: int)
    requires
        0 <= j < y.len(),
    ensures
        run_out(0, y).len() == 2 * y.len(),
        run_out(0, y)[2 * j] == conv_out(run_state(0, y.take(j)), y[j]).0,
        run_out(0, y)[2 * j + 1] == conv_out(run_state(0, y.take(j)), y[j]).1,
{
    lemma_run_out_steps(0, y);
    let ry = run_out(0, y);
    assert(ry.subrange(2 * j, 2 * j + 2)[0] == ry[2 * j]);
    assert(ry.subrange(2 * j, 2 * j + 2)[1] == ry[2 * j + 1]);
}

/// Two input strings first differing at position `j` have coded bits at least two apart,
/// and at least three apart when another input follows position `j`.
#[verifier::spinoff_prover]
#[verifier::rlimit(30)]
proof fn lemma_column_distance(y: Seq<bool>, z: Seq<bool>, j: int)
    requires
        y.len() == z.len(),
        0 <= j < y.len(),
        y.take(j) == z.take(j),
        y[j] != z[j],
    ensures
        hamming(run_out(0, y), run_out(0, z)) >= 2,
        j + 1 < y.len() ==> hamming(run_out(0, y), run_out(0, z)) >= 3,
{
    let ry = run_out(0, y);
    let rz = run_out(0, z);
    let s = run_state(0, y.take(j));
    lemma_run_state_bound(0, y.take(j));
    lemma_register_step(s, y[j], false, false, false, false, false);
    lemma_out_pair(y, j);
    lemma_out_pair(z, j);
    assert(ry[2 * j] != rz[2 * j] && ry[2 * j + 1] != rz[2 * j + 1]);
    if j + 1 < y.len() {
        let j1 = j + 1;
        assert(y.take(j1).drop_last() =~= y.take(j));
        assert(z.take(j1).drop_last() =~= z.take(j));
        assert(y.take(j1).last() == y[j]);
        assert(z.take(j1).last() == z[j]);
        let lo = conv_next(s, false);
        let sy = run_state(0, y.take(j1));
        let sz = run_state(0, z.take(j1));
        assert(sy == conv_next(s, y[j]));
        assert(sz == conv_next(s, z[j]));
        assert((sy == lo && sz == (lo + 32) as u8) || (sz == lo && sy == (lo + 32) as u8));
        lemma_register_step((lo + 32) as u8, y[j1], false, false, false, false, false);
        lemma_register_step((lo + 32) as u8, z[j1], false, false, false, false, false);
        lemma_out_pair(y, j1);
        lemma_out_pair(z, j1);
        assert(y.take(j1) == y.take(j + 1));
        let d = if ry[2 * j1] != rz[2 * j1] { 2 * j1 } else { 2 * j1 + 1 };
        assert(ry[d] != rz[d]);
        lemma_hamming_at_least(ry, rz, seq![2 * j, 2 * j + 1, d]);
    } else {
        lemma_hamming_at_least(ry, rz, seq![2 * j, 2 * j + 1]);
    }
}

/// Two different input strings of one length: where they first differ.
proof fn lemma_first_difference(y: Seq<bool>, z: Seq<bool>) -> (j: int)
    requires
        y.len() == z.len(),
        y != z,
    ensures
        0 <= j < y.len(),
        y.take(j) == z.take(j),
        y[j] != z[j],
    decreases y.len(),
{
    if y.len() == 0 {
        assert(y =~= z);
        0
    } else if y.drop_last() != z.drop_last() {
        let j = lemma_first_difference(y.drop_last(), z.drop_last());
        assert(y.take(j) =~= y.drop_last().take(j));
        assert(z.take(j) =~= z.drop_last().take(j));
        j
    } else {
        let j = y.len() - 1;
        assert(y.take(j) =~= y.drop_last());
        assert(z.take(j) =~= z.drop_last());
        if y[j] == z[j] {
            assert forall|i: int| 0 <= i < y.len() implies y[i] == z[i] by {
                if i < j {
                    assert(y[i] == y.drop_last()[i]);
                    assert(z[i] == z.drop_last()[i]);
                }
            }
            assert(y =~= z);
        }
        j
    }
}

/// What a received sequence decodes to: an input string whose coded bits match it, or
/// miss it by one bit when the string ends with a zero input (as every message does,
/// with its zero tail).
pub open spec fn decodes_to(x: Seq<bool>, rx: Seq<bool>) -> bool {
    &&& x.len() >= 1
    &&& rx.len() == 2 * x.len()
    &&& (hamming(run_out(0, x), rx) == 0 || (hamming(run_out(0, x), rx) == 1 && !x.last()))
}

/// A path of `k` steps within one bit of the received bits, when `x` is what they decode
/// to, follows `x`, or differs from it only in its last input.
proof fn lemma_close_path(x: Seq<bool>, rx: Seq<bool>, q: Seq<bool>, k: int)
    requires
        decodes_to(x, rx),
        0 <= k <= x.len(),
        q.len() == k,
        hamming(run_out(0, q), rx.take(2 * k)) <= 1,
    ensures
        hamming(run_out(0, x.take(k)), rx.take(2 * k)) <= hamming(run_out(0, x), rx),
        q == x.take(k) || (k >= 1 && q.take(k - 1) == x.take(k - 1) && q[k - 1] != x[k - 1]),
        hamming(run_out(0, x), rx) == 0 && hamming(run_out(0, q), rx.take(2 * k)) == 0 ==> q == x.take(k),
{
    let xk = x.take(k);
    lemma_run_out_take(x, k);
    lemma_run_out_len(0, q);
    lemma_hamming_take(run_out(0, x), rx, 2 * k);
    lemma_hamming_triangle(run_out(0, q), rx.take(2 * k), run_out(0, xk));
    if q != xk {
        let j = lemma_first_difference(q, xk);
        lemma_column_distance(q, xk, j);
        assert(j == k - 1);
        assert(q.take(k - 1) =~= q.take(j));
        assert(xk.take(k - 1) =~= x.take(k - 1));
        assert(xk[k - 1] == x[k - 1]);
    }
}

/// Only one input string decodes from a received sequence.
proof fn lemma_decodes_unique(x: Seq<bool>, y: Seq<bool>, rx: Seq<bool>)
    requires
        decodes_to(x, rx),
        decodes_to(y, rx),
    ensures
        x == y,
{
    if x != y {
        lemma_run_out_len(0, x);
        lemma_run_out_len(0, y);
        lemma_hamming_triangle(run_out(0, x), rx, run_out(0, y));
        let j = lemma_first_difference(x, y);
        lemma_column_distance(x, y, j);
    }
}

/// Every message's bits (with their zero tail), received with at most one bit flipped,
/// decode to the message's bits.
pub proof fn lemma_message_decodes(data: Seq<u8>, rx: Seq<bool>)
    requires
        rx.len() == 2 * message_bits(data).len(),
        hamming(run_out(0, message_bits(data)), rx) <= 1,
    ensures
        decodes_to(message_bits(data), rx),
{
    let m = message_bits(data);
    assert(m.last() == false);
}

/// Convolutional encoder (shift register of the last six input bits).
pub struct ConvolutionalEncoder {
    state: u8,
}

impl View for ConvolutionalEncoder {
    type V = u8;

    /// The register: the last six input bits, the latest in bit 5.
    closed spec fn view(&self) -> u8 {
        self.state
    }
}

impl ConvolutionalEncoder {
    /// The register holds six bits.
    #[verifier::type_invariant]
    spec fn inv(self) -> bool {
        self.state < 64
    }

    /// Creates an encoder in the all-zero state.
    pub fn new() -> (res: Self)
        ensures
            res@ == 0,
    {
        Self { state: 0 }
    }

    /// The register value.
    pub fn state(&self) -> (res: u8)
        ensures
            res == self@,
            res < 64,
    {
        proof {
            use_type_invariant(self);
        }
        self.state
    }

    /// Encodes one input bit into two output bits.
    pub fn encode_bit(&mut self, input: bool) -> (res: [bool; 2])
        ensures
            res@ == seq![conv_out(old(self)@, input).0, conv_out(old(self)@, input).1],
            final(self)@ == conv_next(old(self)@, input),
    {
        proof {
            use_type_invariant(&*self);
            lemma_next_state_bound(self.state, input);
        }
        let input_bit: u8 = if input { 1 } else { 0 };
        let combined = ((input_bit << 6u8) | self.state) & 0x7F;
        let out1 = parity(combined & 0b1011011);
        let out2 = parity(combined & 0b1111001);
        self.state = (self.state >> 1u8) | (input_bit << 5u8);
        [out1 != 0, out2 != 0]
    }

    /// Encodes a byte (most significant bit first) into 16 bits.
    pub fn encode_byte(&mut self, byte: u8) -> (res: Vec<bool>)
        ensures
            res@ == run_out(old(self)@, byte_bits(byte)),
            final(self)@ == run_state(old(self)@, byte_bits(byte)),
    {
        let ghost s0 = self.state;
        let mut output: Vec<bool> = Vec::new();
        let mut i: u8 = 0;
        while i < 8
            invariant
                i <= 8,
                output@ == run_out(s0, byte_bits(byte).take(i as int)),
                self.state == run_state(s0, byte_bits(byte).take(i as int)),
            decreases 8 - i,
        {
            let bit = (byte >> (7 - i)) & 1 == 1;
            assert(bit == byte_bits(byte)[i as int]);
            let coded = self.encode_bit(bit);
            output.push(coded[0]);
            output.push(coded[1]);
            i += 1;
            assert(byte_bits(byte).take(i as int).drop_last() == byte_bits(byte).take((i - 1) as int));
        }
        assert(byte_bits(byte).take(8) == byte_bits(byte));
        output
    }

    /// Encodes a whole message followed by six zero tail bits that flush the register.
    pub fn encode(&mut self, data: &[u8]) -> (res: Vec<bool>)
        ensures
            res@ == run_out(old(self)@, message_bits(data@)),
            final(self)@ == run_state(old(self)@, message_bits(data@)),
            final(self)@ == 0,
    {
        proof {
            use_type_invariant(&*self);
        }
        let ghost s0 = self.state;
        let mut output: Vec<bool> = Vec::new();
        let mut i: usize = 0;
        while i < data.len()
            invariant
                i <= data@.len(),
                output@ == run_out(s0, data_bits(data@.take(i as int))),
                self.state == run_state(s0, data_bits(data@.take(i as int))),
            decreases data.len() - i,
        {
            let ghost prefix = data_bits(data@.take(i as int));
            let ghost st = self.state;
            let coded = self.encode_byte(data[i]);
            let mut k: usize = 0;
            let ghost before = output@;
            while k < coded.len()
                invariant
                    k <= coded@.len(),
                    output@ == before + coded@.take(k as int),
                decreases coded.len() - k,
            {
                output.push(coded[k]);
                k += 1;
                assert(coded@.take(k as int) == coded@.take((k - 1) as int).push(coded@[k - 1]));
            }
            assert(coded@.take(coded@.len() as int) == coded@);
            proof {
                lemma_run_concat(s0, prefix, byte_bits(data@[i as int]));
                assert(data@.take(i + 1).drop_last() == data@.take(i as int));
            }
            i += 1;
        }
        assert(data@.take(data@.len() as int) == data@);
        let ghost body = data_bits(data@);
        let ghost st = self.state;
        proof {
            lemma_run_state_bound(s0, body);
            assert(st >> 0u8 == st) by (bit_vector);
        }
        let mut t: usize = 0;
        while t < 6
            invariant
                t <= 6,
                st < 64,
                output@ == run_out(s0, body + Seq::new(t as nat, |j: int| false)),
                self.state == run_state(s0, body + Seq::new(t as nat, |j: int| false)),
                self.state == st >> (t as u8),
            decreases 6 - t,
        {
            let ghost tt = t as u8;
            proof {
                assert(tt < 6 ==> ((st >> tt) >> 1u8) | (0u8 << 5u8) == st >> (tt + 1) as u8) by (bit_vector);
            }
            let coded = self.encode_bit(false);
            output.push(coded[0]);
            output.push(coded[1]);
            let ghost prev = body + Seq::new(t as nat, |j: int| false);
            t += 1;
            assert((body + Seq::new(t as nat, |j: int| false)).drop_last() == prev);
            assert((body + Seq::new(t as nat, |j: int| false)).last() == false);
        }
        assert(st < 64 ==> st >> 6u8 == 0) by (bit_vector);
        output
    }

    /// Resets the encoder to the all-zero state.
    pub fn reset(&mut self)
        ensures
            final(self)@ == 0,
    {
        self.state = 0;
    }
}


// ---------------------------------------------------------------------
// Viterbi decoding (hard decisions)

/// Number of positions where two bit sequences differ (over their common length).
pub open spec fn hamming(a: Seq<bool>, b: Seq<bool>) -> nat
    decreases a.len(),
{
    if a.len() == 0 || b.len() == 0 {
        0
    } else {
        hamming(a.drop_last(), b.drop_last()) + if a.last() != b.last() { 1nat } else { 0nat }
    }
}

proof fn lemma_next_state_bound(s: u8, bit: bool)
    requires
        s < 64,
    ensures
        conv_next(s, bit) < 64,
{
    let ib = conv_input(bit);
    assert(s < 64 && ib <= 1 ==> (s >> 1u8) | (ib << 5u8) < 64) by (bit_vector);
}

proof fn lemma_run_state_bound(s: u8, bits: Seq<bool>)
    requires
        s < 64,
    ensures
        run_state(s, bits) < 64,
    decreases bits.len(),
{
    if bits.len() > 0 {
        lemma_run_state_bound(s, bits.drop_last());
        lemma_next_state_bound(run_state(s, bits.drop_last()), bits.last());
    }
}

/// In every state the first output bit tells the two input bits apart (G1 taps the input).
proof fn lemma_first_output_distinguishes(s: u8)
    requires
        s < 64,
    ensures
        conv_out(s, true).0 != conv_out(s, false).0,
{
    assert(s < 64 ==> (spec_parity((((1u8 << 6u8) | s) & 0x7Fu8) & 0x5Bu8) != 0u8) != (spec_parity((((0u8 << 6u8) | s) & 0x7Fu8) & 0x5Bu8) != 0u8))
        by (bit_vector);
    assert(conv_input(true) == 1u8);
    assert(conv_input(false) == 0u8);
}

/// Different input sequences of the same length give different coded outputs.
pub proof fn lemma_run_out_injective(s: u8, a: Seq<bool>, b: Seq<bool>)
    requires
        s < 64,
        a.len() == b.len(),
        run_out(s, a) == run_out(s, b),
    ensures
        a == b,
    decreases a.len(),
{
    if a.len() > 0 {
        let a0 = a.drop_last();
        let b0 = b.drop_last();
        lemma_run_out_len(s, a0);
        lemma_run_out_len(s, b0);
        let oa = conv_out(run_state(s, a0), a.last());
        let ob = conv_out(run_state(s, b0), b.last());
        let ra = run_out(s, a);
        assert(ra == run_out(s, a0).push(oa.0).push(oa.1));
        assert(run_out(s, a0) =~= ra.take(ra.len() - 2));
        assert(run_out(s, b0) =~= ra.take(ra.len() - 2));
        lemma_run_out_injective(s, a0, b0);
        assert(ra[ra.len() - 2] == oa.0);
        assert(ra[ra.len() - 2] == ob.0);
        lemma_run_state_bound(s, a0);
        lemma_first_output_distinguishes(run_state(s, a0));
        assert(a.last() == b.last());
        assert(a == a0.push(a.last()));
        assert(b == b0.push(b.last()));
        assert(a =~= b);
    }
}

proof fn lemma_hamming_zero(a: Seq<bool>, b: Seq<bool>)
    requires
        a.len() == b.len(),
        hamming(a, b) == 0,
    ensures
        a == b,
    decreases a.len(),
{
    if a.len() > 0 {
        lemma_hamming_zero(a.drop_last(), b.drop_last());
        assert(a =~= a.drop_last().push(a.last()));
        assert(b =~= b.drop_last().push(b.last()));
    }
}

proof fn lemma_hamming_self(a: Seq<bool>)
    ensures
        hamming(a, a) == 0,
    decreases a.len(),
{
    if a.len() > 0 {
        lemma_hamming_self(a.drop_last());
    }
}

/// A path through the trellis: its end state, its metric and its input bits.
struct TrellisPath {
    state: u8,
    metric: usize,
    bits: Vec<bool>,
}

/// Whether a path of `k` steps is consistent: its state is where its bits lead, and
/// its metric is the distance between its coded bits and the first `2k` received bits.
spec fn path_ok(p: TrellisPath, rx: Seq<bool>, k: nat) -> bool {
    &&& p.bits@.len() == k
    &&& p.state == run_state(0, p.bits@)
    &&& p.state < 64
    &&& p.metric == hamming(run_out(0, p.bits@), rx.take((2 * k) as int))
    &&& p.metric <= 2 * k
}

/// A zero-metric path follows the codeword exactly.
proof fn lemma_zero_metric_path(bits: Seq<bool>, x: Seq<bool>, rx: Seq<bool>, k: nat)
    requires
        run_out(0, x) == rx,
        bits.len() == k,
        k <= x.len(),
        hamming(run_out(0, bits), rx.take((2 * k) as int)) == 0,
    ensures
        bits == x.take(k as int),
{
    lemma_run_out_len(0, bits);
    lemma_run_out_len(0, x);
    let xk = x.take(k as int);
    assert(x == xk + x.skip(k as int));
    lemma_run_concat(0, xk, x.skip(k as int));
    lemma_run_out_len(0, xk);
    assert(rx.take((2 * k) as int) =~= run_out(0, xk));
    lemma_hamming_zero(run_out(0, bits), rx.take((2 * k) as int));
    lemma_run_out_injective(0, bits, xk);
}

/// The codeword's prefix has metric zero.
proof fn lemma_codeword_prefix_metric(x: Seq<bool>, rx: Seq<bool>, k: nat)
    requires
        run_out(0, x) == rx,
        k <= x.len(),
    ensures
        hamming(run_out(0, x.take(k as int)), rx.take((2 * k) as int)) == 0,
{
    lemma_run_out_len(0, x);
    let xk = x.take(k as int);
    assert(x == xk + x.skip(k as int));
    lemma_run_concat(0, xk, x.skip(k as int));
    lemma_run_out_len(0, xk);
    assert(rx.take((2 * k) as int) =~= run_out(0, xk));
    lemma_hamming_self(run_out(0, xk));
}

proof fn lemma_hamming_push(a: Seq<bool>, b: Seq<bool>, x: bool, y: bool)
    ensures
        hamming(a.push(x), b.push(y)) == hamming(a, b) + if x != y { 1nat } else { 0nat },
{
    assert(a.push(x).drop_last() == a);
    assert(b.push(y).drop_last() == b);
}

/// Extending a path by one input bit adds the branch distance to its metric.
proof fn lemma_extend(bits: Seq<bool>, x: bool, rx: Seq<bool>, k: nat)
    requires
        bits.len() == k,
        rx.len() >= 2 * k + 2,
    ensures
        ({
            let o = conv_out(run_state(0, bits), x);
            hamming(run_out(0, bits.push(x)), rx.take((2 * k + 2) as int)) == hamming(run_out(0, bits), rx.take((2 * k) as int))
                + (if o.0 != rx[(2 * k) as int] { 1nat } else { 0nat }) + (if o.1 != rx[(2 * k + 1) as int] { 1nat } else { 0nat })
        }),
        run_state(0, bits.push(x)) == conv_next(run_state(0, bits), x),
{
    let o = conv_out(run_state(0, bits), x);
    let nb = bits.push(x);
    assert(nb.drop_last() == bits);
    lemma_run_out_len(0, bits);
    let ro = run_out(0, nb);
    assert(ro == run_out(0, bits).push(o.0).push(o.1));
    let a = run_out(0, bits);
    let b = rx.take((2 * k) as int);
    let t2 = rx.take((2 * k + 2) as int);
    assert(t2 =~= b.push(rx[(2 * k) as int]).push(rx[(2 * k + 1) as int]));
    lemma_hamming_push(a.push(o.0), b.push(rx[(2 * k) as int]), o.1, rx[(2 * k + 1) as int]);
    lemma_hamming_push(a, b, o.0, rx[(2 * k) as int]);
}

/// Viterbi decoder for the convolutional code (64 states).
pub struct ViterbiDecoder {
    num_states: usize,
    g1: u8,
    g2: u8,
}

impl ViterbiDecoder {
    #[verifier::type_invariant]
    spec fn inv(self) -> bool {
        self.num_states == 64 && self.g1 == 0x5B && self.g2 == 0x79
    }

    /// The generator polynomials (G1, G2) of the decoder.
    pub closed spec fn generators(self) -> (u8, u8) {
        (self.g1, self.g2)
    }

    /// The number of trellis states of the decoder.
    pub closed spec fn states(self) -> usize {
        self.num_states
    }

    /// Creates a decoder for G1 = 133, G2 = 171 (octal), constraint length 7.
    pub fn new() -> (res: Self)
        ensures
            res.generators() == (0b1011011u8, 0b1111001u8),
            res.states() == 64,
    {
        Self { num_states: 64, g1: 0b1011011, g2: 0b1111001 }
    }

    /// The two output bits for an input bit in a state.
    fn get_output_bits(&self, state: u8, input: bool) -> (res: (bool, bool))
        ensures
            res == conv_out(state, input),
    {
        proof {
            use_type_invariant(self);
        }
        let input_bit: u8 = if input { 1 } else { 0 };
        let combined = ((input_bit << 6u8) | state) & 0x7F;
        let out1 = parity(combined & self.g1);
        let out2 = parity(combined & self.g2);
        (out1 != 0, out2 != 0)
    }

    /// The state after an input bit.
    fn get_next_state(&self, state: u8, input: bool) -> (res: u8)
        ensures
            res == conv_next(state, input),
    {
        let input_bit: u8 = if input { 1 } else { 0 };
        (state >> 1u8) | (input_bit << 5u8)
    }
}

/// Offers the extension of `p` by `input` to the survivor of its next state.
fn relax(
    dec: &ViterbiDecoder,
    next: &mut Vec<Option<TrellisPath>>,
    p: &TrellisPath,
    input: bool,
    r1: bool,
    r2: bool,
    Ghost(rx): Ghost<Seq<bool>>,
    Ghost(k): Ghost<nat>,
)
    requires
        old(next)@.len() == 64,
        rx.len() <= usize::MAX,
        path_ok(*p, rx, k),
        rx.len() >= 2 * k + 2,
        r1 == rx[(2 * k) as int],
        r2 == rx[(2 * k + 1) as int],
        forall|s: int| 0 <= s < 64 ==> (#[trigger] old(next)@[s] matches Some(q) ==> path_ok(q, rx, k + 1) && q.state == s),
    ensures
        final(next)@.len() == 64,
        forall|s: int| 0 <= s < 64 ==> (#[trigger] final(next)@[s] matches Some(q) ==> path_ok(q, rx, k + 1) && q.state == s),
        forall|s: int| 0 <= s < 64 && s != conv_next(p.state, input) ==> #[trigger] final(next)@[s] == old(next)@[s],
        forall|s: int| 0 <= s < 64 ==> (#[trigger] old(next)@[s] matches Some(q) && q.metric == 0 ==> final(next)@[s] == old(next)@[s]),
        forall|s: int| 0 <= s < 64 ==> (#[trigger] old(next)@[s] matches Some(q)
            ==> final(next)@[s] matches Some(q2) && q2.metric <= q.metric),
        final(next)@[conv_next(p.state, input) as int] is Some,
        final(next)@[conv_next(p.state, input) as int]->0.metric <= p.metric
            + (if conv_out(p.state, input).0 != r1 { 1nat } else { 0nat })
            + (if conv_out(p.state, input).1 != r2 { 1nat } else { 0nat }),
{
    let next_state = dec.get_next_state(p.state, input);
    let (out1, out2) = dec.get_output_bits(p.state, input);
    proof {
        lemma_next_state_bound(p.state, input);
    }
    let branch_metric: usize = (if out1 != r1 { 1 } else { 0 }) + (if out2 != r2 { 1 } else { 0 });
    let new_metric = p.metric + branch_metric;
    let ns = next_state as usize;
    let better = match &next[ns] {
        None => true,
        Some(q) => new_metric < q.metric,
    };
    if better {
        let mut new_bits: Vec<bool> = Vec::new();
        let mut i: usize = 0;
        while i < p.bits.len()
            invariant
                i <= p.bits@.len(),
                new_bits@ == p.bits@.take(i as int),
            decreases p.bits.len() - i,
        {
            new_bits.push(p.bits[i]);
            i += 1;
            assert(new_bits@ =~= p.bits@.take(i as int));
        }
        assert(p.bits@.take(p.bits@.len() as int) == p.bits@);
        new_bits.push(input);
        proof {
            lemma_extend(p.bits@, input, rx, k);
            lemma_run_state_bound(0, new_bits@);
        }
        next.set(ns, Some(TrellisPath { state: next_state, metric: new_metric, bits: new_bits }));
    }
}

/// Paths of equal metric come in increasing order of their states.
spec fn tie_ordered(s: Seq<TrellisPath>) -> bool {
    forall|a: int, b: int| 0 <= a < b < s.len() && s[a].metric == s[b].metric ==> s[a].state < s[b].state
}

/// No two paths end in the same state.
spec fn distinct_states(s: Seq<TrellisPath>) -> bool {
    forall|a: int, b: int| 0 <= a < s.len() && 0 <= b < s.len() && a != b ==> s[a].state != s[b].state
}

/// Paths in strictly increasing order of their states.
spec fn states_increasing(s: Seq<TrellisPath>) -> bool {
    forall|a: int, b: int| 0 <= a < b < s.len() ==> s[a].state < s[b].state
}

spec fn sorted_by_metric(s: Seq<TrellisPath>) -> bool {
    forall|a: int, b: int| 0 <= a < b < s.len() ==> s[a].metric <= s[b].metric
}

#[verifier::opaque]
spec fn drawn_from(out: Seq<TrellisPath>, orig: Seq<TrellisPath>, j: int) -> bool {
    forall|i: int| #![trigger out[i]] 0 <= i < out.len() ==> exists|m: int| #![trigger orig[m]] 0 <= m < j && out[i] == orig[m]
}

#[verifier::opaque]
spec fn keeps_all(out: Seq<TrellisPath>, orig: Seq<TrellisPath>, j: int) -> bool {
    forall|m: int| #![trigger orig[m]] 0 <= m < j ==> exists|i: int| #![trigger out[i]] 0 <= i < out.len() && out[i] == orig[m]
}

proof fn lemma_insert_sorted(prev: Seq<TrellisPath>, e: TrellisPath, pos: int)
    requires
        0 <= pos <= prev.len(),
        forall|a: int| 0 <= a < pos ==> prev[a].metric <= e.metric,
        pos < prev.len() ==> prev[pos].metric > e.metric,
        sorted_by_metric(prev),
    ensures
        sorted_by_metric(prev.insert(pos, e)),
{
    let out = prev.insert(pos, e);
    assert forall|a: int, b: int| 0 <= a < b < out.len() implies out[a].metric <= out[b].metric by {
        if b < pos {
            assert(out[a] == prev[a] && out[b] == prev[b]);
        } else if b == pos {
            assert(out[a] == prev[a]);
        } else if a < pos {
            assert(out[a] == prev[a]);
            assert(out[b] == prev[b - 1]);
        } else if a == pos {
            assert(out[b] == prev[b - 1]);
            if pos < b - 1 {
                assert(prev[pos].metric <= prev[b - 1].metric);
            }
        } else {
            assert(out[a] == prev[a - 1]);
            assert(out[b] == prev[b - 1]);
        }
    }
}

proof fn lemma_insert_from(orig: Seq<TrellisPath>, prev: Seq<TrellisPath>, e: TrellisPath, pos: int, j: int)
    requires
        0 <= j < orig.len(),
        e == orig[j],
        0 <= pos <= prev.len(),
        drawn_from(prev, orig, j),
        keeps_all(prev, orig, j),
    ensures
        drawn_from(prev.insert(pos, e), orig, j + 1),
        keeps_all(prev.insert(pos, e), orig, j + 1),
{
    reveal(drawn_from);
    reveal(keeps_all);
    let out = prev.insert(pos, e);
    assert forall|i: int| #![trigger out[i]] 0 <= i < out.len() implies exists|m: int| #![trigger orig[m]] 0 <= m < j + 1 && out[i] == orig[m] by {
        if i < pos {
            assert(out[i] == prev[i]);
            let m = choose|m: int| 0 <= m < j && prev[i] == orig[m];
            assert(0 <= m < j + 1 && out[i] == orig[m]);
        } else if i == pos {
            assert(out[i] == orig[j]);
        } else {
            assert(out[i] == prev[i - 1]);
            let m = choose|m: int| 0 <= m < j && prev[i - 1] == orig[m];
            assert(0 <= m < j + 1 && out[i] == orig[m]);
        }
    }
    assert forall|m: int| #![trigger orig[m]] 0 <= m < j + 1 implies exists|i: int| #![trigger out[i]] 0 <= i < out.len() && out[i] == orig[m] by {
        if m == j {
            assert(out[pos] == orig[m]);
        } else {
            let i = choose|i: int| 0 <= i < prev.len() && prev[i] == orig[m];
            if i < pos {
                assert(out[i] == orig[m]);
            } else {
                assert(out[i + 1] == orig[m]);
            }
        }
    }
}

/// Inserts a path after every path whose metric is at most its own.
fn insert_by_metric(out: &mut Vec<TrellisPath>, e: TrellisPath) -> (pos: usize)
    requires
        sorted_by_metric(old(out)@),
    ensures
        pos <= old(out)@.len(),
        final(out)@ == old(out)@.insert(pos as int, e),
        sorted_by_metric(final(out)@),
        forall|a: int| 0 <= a < pos ==> #[trigger] old(out)@[a].metric <= e.metric,
        forall|a: int| pos <= a < old(out)@.len() ==> #[trigger] old(out)@[a].metric > e.metric,
{
    let mut pos: usize = 0;
    while pos < out.len() && out[pos].metric <= e.metric
        invariant
            pos <= out@.len(),
            forall|a: int| 0 <= a < pos ==> out@[a].metric <= e.metric,
        decreases out.len() - pos,
    {
        pos += 1;
    }
    let ghost prev = out@;
    proof {
        lemma_insert_sorted(prev, e, pos as int);
        assert forall|a: int| pos <= a < prev.len() implies #[trigger] prev[a].metric > e.metric by {
            assert(prev[pos as int].metric <= prev[a].metric);
        }
    }
    out.insert(pos, e);
    pos
}

/// Stable insertion sort of paths by metric.
fn sort_paths(paths: Vec<TrellisPath>) -> (res: Vec<TrellisPath>)
    requires
        states_increasing(paths@),
    ensures
        tie_ordered(res@),
        distinct_states(res@),
        res@.len() == paths@.len(),
        sorted_by_metric(res@),
        drawn_from(res@, paths@, paths@.len() as int),
        keeps_all(res@, paths@, paths@.len() as int),
{
    let ghost orig = paths@;
    let mut out: Vec<TrellisPath> = Vec::new();
    let mut rest = paths;
    let n = rest.len();
    let mut j: usize = 0;
    proof {
        reveal(drawn_from);
        reveal(keeps_all);
    }
    while j < n
        invariant
            n == orig.len(),
            j <= n,
            rest@ == orig.skip(j as int),
            out@.len() == j,
            sorted_by_metric(out@),
            drawn_from(out@, orig, j as int),
            keeps_all(out@, orig, j as int),
            states_increasing(orig),
            tie_ordered(out@),
            distinct_states(out@),
        decreases n - j,
    {
        let e = rest.remove(0);
        assert(e == orig[j as int]);
        assert(rest@ =~= orig.skip(j + 1));
        let ghost prev = out@;
        proof {
            reveal(drawn_from);
            assert forall|i: int| 0 <= i < prev.len() implies #[trigger] prev[i].state < e.state by {
                let m = choose|m: int| #![trigger orig[m]] 0 <= m < j && prev[i] == orig[m];
            }
        }
        let pos = insert_by_metric(&mut out, e);
        proof {
            lemma_insert_from(orig, prev, e, pos as int, j as int);
            let o = out@;
            assert forall|a: int, b: int| 0 <= a < b < o.len() && o[a].metric == o[b].metric implies o[a].state < o[b].state by {
                if a < pos && b < pos {
                    assert(o[a] == prev[a] && o[b] == prev[b]);
                } else if a < pos && b == pos {
                    assert(o[a] == prev[a]);
                } else if a < pos {
                    assert(o[a] == prev[a] && o[b] == prev[b - 1]);
                } else if a == pos {
                    assert(o[b] == prev[b - 1]);
                } else {
                    assert(o[a] == prev[a - 1] && o[b] == prev[b - 1]);
                }
            }
            assert forall|a: int, b: int| 0 <= a < o.len() && 0 <= b < o.len() && a != b implies o[a].state != o[b].state by {
                let pa = if a < pos { a } else { a - 1 };
                let pb = if b < pos { b } else { b - 1 };
                if a != pos && b != pos {
                    assert(o[a] == prev[pa] && o[b] == prev[pb]);
                } else if a == pos {
                    assert(o[b] == prev[pb]);
                } else {
                    assert(o[a] == prev[pa]);
                }
            }
        }
        j += 1;
    }
    out
}


/// Whether some input string decodes from the received bits.
spec fn has_target(rx: Seq<bool>) -> bool {
    exists|x: Seq<bool>| decodes_to(x, rx)
}

/// The input string the received bits decode to (when there is one).
spec fn target(rx: Seq<bool>) -> Seq<bool> {
    choose|x: Seq<bool>| decodes_to(x, rx)
}

/// Whether a path with the given input bits is among the paths.
spec fn holds_prefix(s: Seq<TrellisPath>, b: Seq<bool>) -> bool {
    exists|i: int| 0 <= i < s.len() && #[trigger] s[i].bits@ == b
}

spec fn has_zero(s: Seq<TrellisPath>) -> bool {
    exists|i: int| 0 <= i < s.len() && #[trigger] s[i].metric == 0
}

/// On a codeword, the zero-metric survivor of step `k` follows it, and its branch
/// for the next codeword bit matches the next two received bits.
proof fn lemma_codeword_branch(x: Seq<bool>, rx: Seq<bool>, p: TrellisPath, k: nat)
    requires
        run_out(0, x) == rx,
        rx.len() >= 2 * k + 2,
        path_ok(p, rx, k),
        p.metric == 0,
    ensures
        k < x.len(),
        conv_out(p.state, x[k as int]) == (rx[(2 * k) as int], rx[(2 * k + 1) as int]),
{
    lemma_run_out_len(0, x);
    lemma_zero_metric_path(p.bits@, x, rx, k);
    lemma_codeword_prefix_metric(x, rx, k + 1);
    lemma_extend(x.take(k as int), x[k as int], rx, k);
    assert(x.take(k as int).push(x[k as int]) =~= x.take((k + 1) as int));
}

/// Extends every survivor by both input bits, keeping the best path into each state.
fn extend_all(
    dec: &ViterbiDecoder,
    cur: &Vec<TrellisPath>,
    r1: bool,
    r2: bool,
    Ghost(rx): Ghost<Seq<bool>>,
    Ghost(k): Ghost<nat>,
) -> (next: Vec<Option<TrellisPath>>)
    requires
        rx.len() <= usize::MAX,
        rx.len() >= 2 * k + 2,
        r1 == rx[(2 * k) as int],
        r2 == rx[(2 * k + 1) as int],
        1 <= cur@.len() <= 64,
        forall|i: int| 0 <= i < cur@.len() ==> path_ok(#[trigger] cur@[i], rx, k),
        (exists|x: Seq<bool>| run_out(0, x) == rx) ==> has_zero(cur@),
        has_target(rx) ==> holds_prefix(cur@, target(rx).take(k as int)),
    ensures
        next@.len() == 64,
        forall|t: int| 0 <= t < 64 ==> (#[trigger] next@[t] matches Some(q) ==> path_ok(q, rx, k + 1)),
        forall|t: int| 0 <= t < 64 ==> (#[trigger] next@[t] matches Some(q) ==> q.state == t),
        has_target(rx) ==> exists|w: int| 0 <= w < 64 && #[trigger] next@[w] is Some
            && next@[w]->0.bits@ == target(rx).take((k + 1) as int),
        exists|w: int| 0 <= w < 64 && #[trigger] next@[w] is Some
            && ((exists|x: Seq<bool>| run_out(0, x) == rx) ==> next@[w]->0.metric == 0),
{
    let ghost has_cw = exists|x: Seq<bool>| run_out(0, x) == rx;
    let ghost x = choose|x: Seq<bool>| run_out(0, x) == rx;
    let ghost zi: int = if has_cw { choose|i: int| 0 <= i < cur@.len() && #[trigger] cur@[i].metric == 0 } else { 0 };
    proof {
        if has_cw {
            lemma_codeword_branch(x, rx, cur@[zi], k);
        }
    }
    let ghost w: int = if has_cw { conv_next(cur@[zi].state, x[k as int]) as int } else { conv_next(cur@[0].state, false) as int };
    proof {
        lemma_next_state_bound(cur@[zi].state, if has_cw { x[k as int] } else { false });
    }
    let ghost ht = has_target(rx);
    let ghost tx = target(rx);
    let ghost ci: int = if ht { choose|i: int| 0 <= i < cur@.len() && #[trigger] cur@[i].bits@ == tx.take(k as int) } else { 0 };
    let ghost m1: nat = if ht { hamming(run_out(0, tx.take((k + 1) as int)), rx.take((2 * k + 2) as int)) } else { 0 };
    let ghost wt: int = if ht { conv_next(cur@[ci].state, tx[k as int]) as int } else { 0 };
    proof {
        if ht {
            assert(decodes_to(tx, rx));
            lemma_next_state_bound(cur@[ci].state, tx[k as int]);
            lemma_extend(tx.take(k as int), tx[k as int], rx, k);
            assert(tx.take(k as int).push(tx[k as int]) =~= tx.take((k + 1) as int));
            lemma_run_out_take(tx, (k + 1) as int);
            lemma_run_out_take(tx, k as int);
            lemma_hamming_take(run_out(0, tx), rx, (2 * k + 2) as int);
            assert(m1 <= 1);
            assert(cur@[ci].metric + (if conv_out(cur@[ci].state, tx[k as int]).0 != r1 { 1nat } else { 0nat })
                + (if conv_out(cur@[ci].state, tx[k as int]).1 != r2 { 1nat } else { 0nat }) == m1);
        }
    }
    let mut next: Vec<Option<TrellisPath>> = Vec::new();
    let mut s: usize = 0;
    while s < 64
        invariant
            s <= 64,
            next@.len() == s,
            forall|t: int| 0 <= t < s ==> #[trigger] next@[t] is None,
        decreases 64 - s,
    {
        next.push(None);
        s += 1;
    }
    let mut j: usize = 0;
    while j < cur.len()
        invariant
            j <= cur@.len(),
            1 <= cur@.len() <= 64,
            next@.len() == 64,
            rx.len() <= usize::MAX,
            rx.len() >= 2 * k + 2,
            r1 == rx[(2 * k) as int],
            r2 == rx[(2 * k + 1) as int],
            forall|i: int| 0 <= i < cur@.len() ==> path_ok(#[trigger] cur@[i], rx, k),
            forall|t: int| 0 <= t < 64 ==> (#[trigger] next@[t] matches Some(q) ==> path_ok(q, rx, k + 1) && q.state == t),
            0 <= zi < cur@.len(),
            0 <= w < 64,
            has_cw ==> cur@[zi].metric == 0 && conv_out(cur@[zi].state, x[k as int]) == (r1, r2)
                && w == conv_next(cur@[zi].state, x[k as int]),
            !has_cw ==> zi == 0 && w == conv_next(cur@[0].state, false),
            j > zi ==> next@[w] is Some && (has_cw ==> next@[w]->0.metric == 0),
            ht ==> 0 <= ci < cur@.len() && 0 <= wt < 64 && wt == conv_next(cur@[ci].state, tx[k as int]) && m1 <= 1
                && cur@[ci].metric + (if conv_out(cur@[ci].state, tx[k as int]).0 != r1 { 1nat } else { 0nat })
                    + (if conv_out(cur@[ci].state, tx[k as int]).1 != r2 { 1nat } else { 0nat }) == m1,
            ht && j > ci ==> (next@[wt] is Some && next@[wt]->0.metric <= m1),
        decreases cur.len() - j,
    {
        let p = &cur[j];
        let ghost n0 = next@;
        relax(dec, &mut next, p, false, r1, r2, Ghost(rx), Ghost(k));
        let ghost n1 = next@;
        relax(dec, &mut next, p, true, r1, r2, Ghost(rx), Ghost(k));
        proof {
            if ht && j > ci {
                assert(n0[wt] is Some && n0[wt]->0.metric <= m1);
                assert(n1[wt] is Some && n1[wt]->0.metric <= m1);
                assert(next@[wt] is Some && next@[wt]->0.metric <= m1);
            } else if ht && j == ci {
                if tx[k as int] {
                    assert(next@[wt] is Some && next@[wt]->0.metric <= m1);
                } else {
                    assert(n1[wt] is Some && n1[wt]->0.metric <= m1);
                    assert(next@[wt] is Some && next@[wt]->0.metric <= m1);
                }
            }
            let ghost b = n1[w];
            let ghost c = next@[w];
            if j > zi {
                assert(b is Some && (has_cw ==> b->0.metric == 0));
                assert(c is Some && (has_cw ==> c->0.metric == 0));
            } else if j == zi {
                if has_cw {
                    if x[k as int] {
                        assert(c is Some && c->0.metric == 0);
                    } else {
                        assert(b is Some && b->0.metric == 0);
                        assert(c is Some && c->0.metric == 0);
                    }
                } else {
                    assert(b is Some);
                    assert(c is Some);
                }
            }
        }
        j += 1;
    }
    assert(next@[w] is Some);
    proof {
        if ht {
            let q = next@[wt]->0;
            assert(path_ok(q, rx, k + 1) && q.state == wt);
            lemma_close_path(tx, rx, q.bits@, (k + 1) as int);
            if q.bits@ != tx.take((k + 1) as int) {
                let qb = q.bits@;
                assert(qb.drop_last() =~= qb.take(k as int));
                assert(tx.take((k + 1) as int).take(k as int) =~= tx.take(k as int));
                assert(run_state(0, qb) == conv_next(run_state(0, qb.drop_last()), qb[k as int]));
                lemma_run_state_bound(0, tx.take(k as int));
                lemma_register_step(run_state(0, tx.take(k as int)), tx[k as int], false, false, false, false, false);
                assert(qb[k as int] == !tx[k as int]);
                assert(false);
            }
            assert(next@[wt] is Some && next@[wt]->0.bits@ == tx.take((k + 1) as int));
        }
    }
    next
}

/// The survivors in order of their states.
fn collect_survivors(next: Vec<Option<TrellisPath>>, Ghost(rx): Ghost<Seq<bool>>, Ghost(k): Ghost<nat>) -> (flat: Vec<TrellisPath>)
    requires
        next@.len() == 64,
        forall|t: int| 0 <= t < 64 ==> (#[trigger] next@[t] matches Some(q) ==> path_ok(q, rx, k)),
        exists|w: int| 0 <= w < 64 && #[trigger] next@[w] is Some
            && ((exists|x: Seq<bool>| run_out(0, x) == rx) ==> next@[w]->0.metric == 0),
        forall|t: int| 0 <= t < 64 ==> (#[trigger] next@[t] matches Some(q) ==> q.state == t),
        has_target(rx) ==> exists|w: int| 0 <= w < 64 && #[trigger] next@[w] is Some
            && next@[w]->0.bits@ == target(rx).take(k as int),
    ensures
        1 <= flat@.len() <= 64,
        forall|i: int| 0 <= i < flat@.len() ==> path_ok(#[trigger] flat@[i], rx, k),
        (exists|x: Seq<bool>| run_out(0, x) == rx) ==> has_zero(flat@),
        states_increasing(flat@),
        has_target(rx) ==> holds_prefix(flat@, target(rx).take(k as int)),
{
    let ghost ht = has_target(rx);
    let ghost wt: int = if ht { choose|w: int| 0 <= w < 64 && #[trigger] next@[w] is Some
        && next@[w]->0.bits@ == target(rx).take(k as int) } else { 0 };
    let ghost has_cw = exists|x: Seq<bool>| run_out(0, x) == rx;
    let ghost full = next@;
    let ghost w = choose|w: int| 0 <= w < 64 && #[trigger] full[w] is Some
        && (has_cw ==> full[w]->0.metric == 0);
    let mut next = next;
    let mut flat: Vec<TrellisPath> = Vec::new();
    let mut s: usize = 0;
    while s < 64
        invariant
            s <= 64,
            full.len() == 64,
            next@ == full.skip(s as int),
            flat@.len() <= s,
            forall|t: int| 0 <= t < 64 ==> (#[trigger] full[t] matches Some(q) ==> path_ok(q, rx, k)),
            forall|i: int| 0 <= i < flat@.len() ==> path_ok(#[trigger] flat@[i], rx, k),
            0 <= w < 64,
            full[w] is Some && (has_cw ==> full[w]->0.metric == 0),
            s > w ==> flat@.len() >= 1 && (has_cw ==> has_zero(flat@)),
            forall|t: int| 0 <= t < 64 ==> (#[trigger] full[t] matches Some(q) ==> q.state == t),
            forall|i: int| 0 <= i < flat@.len() ==> #[trigger] flat@[i].state < s,
            states_increasing(flat@),
            ht ==> 0 <= wt < 64 && full[wt] is Some && full[wt]->0.bits@ == target(rx).take(k as int),
            ht && s > wt ==> holds_prefix(flat@, target(rx).take(k as int)),
        decreases 64 - s,
    {
        let slot = next.remove(0);
        assert(slot == full[s as int]);
        assert(next@ =~= full.skip(s + 1));
        let ghost before = flat@;
        match slot {
            Some(q) => {
                flat.push(q);
                proof {
                    if s as int == w && has_cw {
                        assert(flat@[flat@.len() - 1].metric == 0);
                    }
                    if s as int > w && has_cw {
                        let i = choose|i: int| 0 <= i < before.len() && #[trigger] before[i].metric == 0;
                        assert(flat@[i] == before[i]);
                    }
                    assert(q.state == s);
                    assert forall|i: int| 0 <= i < flat@.len() implies #[trigger] flat@[i].state < s + 1 by {
                        if i < before.len() {
                            assert(flat@[i] == before[i]);
                        }
                    }
                    assert forall|a: int, b: int| 0 <= a < b < flat@.len() implies flat@[a].state < flat@[b].state by {
                        assert(flat@[a] == before[a]);
                        if b < before.len() {
                            assert(flat@[b] == before[b]);
                        }
                    }
                    if ht && s as int == wt {
                        assert(flat@[flat@.len() - 1].bits@ == target(rx).take(k as int));
                    }
                    if ht && s as int > wt {
                        let i = choose|i: int| 0 <= i < before.len() && #[trigger] before[i].bits@ == target(rx).take(k as int);
                        assert(flat@[i] == before[i]);
                    }
                }
            },
            None => {},
        }
        s += 1;
    }
    flat
}

/// What sorting keeps of a set of survivors: each is consistent, and a zero-metric
/// path among them comes first.
proof fn lemma_sorted_survivors(sorted: Seq<TrellisPath>, orig: Seq<TrellisPath>, rx: Seq<bool>, k: nat)
    requires
        sorted.len() == orig.len(),
        sorted_by_metric(sorted),
        drawn_from(sorted, orig, orig.len() as int),
        keeps_all(sorted, orig, orig.len() as int),
        forall|i: int| 0 <= i < orig.len() ==> path_ok(#[trigger] orig[i], rx, k),
    ensures
        forall|i: int| 0 <= i < sorted.len() ==> path_ok(#[trigger] sorted[i], rx, k),
        has_zero(orig) ==> sorted[0].metric == 0,
{
    reveal(drawn_from);
    reveal(keeps_all);
    assert forall|i: int| 0 <= i < sorted.len() implies path_ok(#[trigger] sorted[i], rx, k) by {
        let m = choose|m: int| #![trigger orig[m]] 0 <= m < orig.len() && sorted[i] == orig[m];
        assert(path_ok(orig[m], rx, k));
    }
    if has_zero(orig) {
        let zm = choose|i: int| 0 <= i < orig.len() && #[trigger] orig[i].metric == 0;
        let zs = choose|i: int| #![trigger sorted[i]] 0 <= i < sorted.len() && sorted[i] == orig[zm];
        assert(sorted[zs].metric == 0);
        if zs > 0 {
            assert(sorted[0].metric <= sorted[zs].metric);
        }
    }
}

/// The first sixteen of the sorted paths are drawn from the originals, stay sorted, and
/// every original left out has a metric at least that of the sixteenth.
#[verifier::spinoff_prover]
proof fn lemma_prune_take(sorted: Seq<TrellisPath>, orig: Seq<TrellisPath>)
    requires
        sorted.len() == orig.len(),
        orig.len() > 16,
        sorted_by_metric(sorted),
        drawn_from(sorted, orig, orig.len() as int),
        keeps_all(sorted, orig, orig.len() as int),
    ensures
        sorted_by_metric(sorted.take(16)),
        drawn_from(sorted.take(16), orig, orig.len() as int),
        forall|m: int| 0 <= m < orig.len() ==> sorted.take(16).contains(#[trigger] orig[m]) || sorted.take(16)[15].metric <= orig[m].metric,
{
    reveal(drawn_from);
    reveal(keeps_all);
    let t = sorted.take(16);
    assert forall|i: int| #![trigger t[i]] 0 <= i < t.len() implies exists|m: int| #![trigger orig[m]] 0 <= m < orig.len() && t[i] == orig[m] by {
        assert(t[i] == sorted[i]);
    }
    assert forall|m: int| 0 <= m < orig.len() implies t.contains(#[trigger] orig[m]) || t[15].metric <= orig[m].metric by {
        let i = choose|i: int| #![trigger sorted[i]] 0 <= i < sorted.len() && sorted[i] == orig[m];
        if i < 16 {
            assert(t[i] == orig[m]);
        } else {
            assert(t[15] == sorted[15]);
        }
    }
}

/// Within one bit of the received bits, at most two paths of distinct states can lie:
/// the one following the decoded input string and the one differing from it in its
/// last input.
proof fn lemma_few_close(s: Seq<TrellisPath>, rx: Seq<bool>, k: nat)
    requires
        has_target(rx),
        2 * k <= rx.len(),
        s.len() >= 3,
        distinct_states(s),
        forall|i: int| 0 <= i < s.len() ==> path_ok(#[trigger] s[i], rx, k),
    ensures
        !(s[0].metric <= 1 && s[1].metric <= 1 && s[2].metric <= 1),
{
    if s[0].metric <= 1 && s[1].metric <= 1 && s[2].metric <= 1 {
        lemma_three_close(s, rx, k);
    }
}

proof fn lemma_three_close(s: Seq<TrellisPath>, rx: Seq<bool>, k: nat)
    requires
        has_target(rx),
        2 * k <= rx.len(),
        s.len() >= 3,
        distinct_states(s),
        forall|i: int| 0 <= i < s.len() ==> path_ok(#[trigger] s[i], rx, k),
        s[0].metric <= 1,
        s[1].metric <= 1,
        s[2].metric <= 1,
    ensures
        s[0].state == s[1].state || s[0].state == s[2].state || s[1].state == s[2].state,
{
    let tx = target(rx);
    assert(decodes_to(tx, rx));
    let kk = k as int;
    assert forall|i: int| 0 <= i < 3 implies #[trigger] s[i].bits@ == tx.take(kk)
        || (kk >= 1 && s[i].bits@.take(kk - 1) == tx.take(kk - 1) && s[i].bits@[kk - 1] != tx[kk - 1]) by {
        assert(path_ok(s[i], rx, k));
        lemma_close_path(tx, rx, s[i].bits@, kk);
    }
    assert(path_ok(s[0], rx, k) && path_ok(s[1], rx, k) && path_ok(s[2], rx, k));
    let b0 = s[0].bits@;
    let b1 = s[1].bits@;
    let b2 = s[2].bits@;
    if b0 != tx.take(kk) && b1 != tx.take(kk) {
        assert(b0 =~= b1);
    } else if b0 != tx.take(kk) && b2 != tx.take(kk) {
        assert(b0 =~= b2);
    } else if b1 != tx.take(kk) && b2 != tx.take(kk) {
        assert(b1 =~= b2);
    }
}

/// Keeps the sixteen paths of lowest metric (stably, by metric) when there are more.
fn prune_survivors(flat: Vec<TrellisPath>, Ghost(rx): Ghost<Seq<bool>>, Ghost(k): Ghost<nat>) -> (res: Vec<TrellisPath>)
    requires
        1 <= flat@.len() <= 64,
        forall|i: int| 0 <= i < flat@.len() ==> path_ok(#[trigger] flat@[i], rx, k),
        (exists|x: Seq<bool>| run_out(0, x) == rx) ==> has_zero(flat@),
        states_increasing(flat@),
        2 * k <= rx.len(),
        has_target(rx) ==> holds_prefix(flat@, target(rx).take(k as int)),
    ensures
        tie_ordered(res@),
        has_target(rx) ==> holds_prefix(res@, target(rx).take(k as int)),
        1 <= res@.len() <= 64,
        forall|i: int| 0 <= i < res@.len() ==> path_ok(#[trigger] res@[i], rx, k),
        (exists|x: Seq<bool>| run_out(0, x) == rx) ==> has_zero(res@),
        flat@.len() <= 16 ==> res@ == flat@,
        flat@.len() > 16 ==> {
            &&& res@.len() == 16
            &&& sorted_by_metric(res@)
            &&& drawn_from(res@, flat@, flat@.len() as int)
            &&& forall|m: int| 0 <= m < flat@.len() ==> res@.contains(#[trigger] flat@[m]) || res@[15].metric <= flat@[m].metric
        },
{
    let ghost has_cw = exists|x: Seq<bool>| run_out(0, x) == rx;
    if flat.len() > 16 {
        let ghost orig = flat@;
        let mut sorted = sort_paths(flat);
        proof {
            lemma_sorted_survivors(sorted@, orig, rx, k);
        }
        let ghost before = sorted@;
        sorted.truncate(16);
        proof {
            assert(sorted@[0] == before[0]);
            if has_cw {
                assert(sorted@[0].metric == 0);
            }
            assert(sorted@ =~= before.take(16));
            lemma_prune_take(before, orig);
            let res = sorted@;
            assert(tie_ordered(res)) by {
                assert forall|a: int, b: int| 0 <= a < b < res.len() && res[a].metric == res[b].metric implies res[a].state < res[b].state by {
                    assert(res[a] == before[a] && res[b] == before[b]);
                }
            }
            if has_target(rx) {
                let tx = target(rx);
                let ci = choose|i: int| 0 <= i < orig.len() && #[trigger] orig[i].bits@ == tx.take(k as int);
                if !res.contains(orig[ci]) {
                    assert(res[15].metric <= orig[ci].metric);
                    assert(decodes_to(tx, rx));
                    assert(path_ok(orig[ci], rx, k));
                    lemma_run_out_take(tx, k as int);
                    lemma_hamming_take(run_out(0, tx), rx, (2 * k) as int);
                    assert(orig[ci].metric <= 1);
                    assert(res[0].metric <= res[15].metric && res[1].metric <= res[15].metric && res[2].metric <= res[15].metric);
                    assert(distinct_states(res)) by {
                        assert forall|a: int, b: int| 0 <= a < res.len() && 0 <= b < res.len() && a != b implies res[a].state != res[b].state by {
                            assert(res[a] == before[a] && res[b] == before[b]);
                        }
                    }
                    lemma_few_close(res, rx, k);
                }
                let i = choose|i: int| 0 <= i < res.len() && res[i] == orig[ci];
                assert(res[i].bits@ == tx.take(k as int));
            }
        }
        sorted
    } else {
        proof {
            assert(tie_ordered(flat@));
        }
        flat
    }
}

impl ViterbiDecoder {
    /// Hard-decision Viterbi decoding: returns one decoded bit per received pair,
    /// tail bits included, keeping at most sixteen survivors per step. A codeword decodes
    /// to its input bits, and so does one with a single bit flipped when the input ends
    /// with a zero (every message does, with its zero tail): the error is corrected.
    pub fn decode_hard(&self, hard_bits: &[bool]) -> (res: Result<Vec<bool>>)
        ensures
            hard_bits@.len() < 2 ==> res == Err::<Vec<bool>, AudioModemError>(AudioModemError::InsufficientData),
            hard_bits@.len() >= 2 && hard_bits@.len() % 2 == 1
                ==> res == Err::<Vec<bool>, AudioModemError>(AudioModemError::InvalidInputSize),
            hard_bits@.len() >= 2 && hard_bits@.len() % 2 == 0 ==> res is Ok,
            res matches Ok(bits) ==> 2 * bits@.len() == hard_bits@.len(),
            forall|x: Seq<bool>| #[trigger] run_out(0, x) == hard_bits@ && hard_bits@.len() >= 2
                ==> (res matches Ok(bits) && bits@ == x),
            forall|x: Seq<bool>| #[trigger] decodes_to(x, hard_bits@) ==> (res matches Ok(bits) && bits@ == x),
    {
        if hard_bits.len() < 2 {
            proof {
                assert forall|x: Seq<bool>| #[trigger] decodes_to(x, hard_bits@) implies false by {}
            }
            return Err(AudioModemError::InsufficientData);
        }
        if hard_bits.len() % 2 != 0 {
            proof {
                assert forall|x: Seq<bool>| #[trigger] run_out(0, x) == hard_bits@ implies false by {
                    lemma_run_out_len(0, x);
                }
                assert forall|x: Seq<bool>| #[trigger] decodes_to(x, hard_bits@) implies false by {}
            }
            return Err(AudioModemError::InvalidInputSize);
        }
        let ghost rx = hard_bits@;
        let num_symbols = hard_bits.len() / 2;
        let mut cur: Vec<TrellisPath> = Vec::new();
        cur.push(TrellisPath { state: 0, metric: 0, bits: Vec::new() });
        proof {
            assert(rx.take(0) =~= Seq::<bool>::empty());
            assert(cur@[0].bits@ =~= Seq::<bool>::empty());
            assert(cur@[0].metric == 0);
            assert(target(rx).take(0) =~= Seq::<bool>::empty());
            assert(cur@[0].bits@ == target(rx).take(0));
        }
        let mut k: usize = 0;
        while k < num_symbols
            invariant
                rx == hard_bits@,
                rx.len() == 2 * num_symbols,
                hard_bits@.len() <= usize::MAX,
                k <= num_symbols,
                1 <= cur@.len() <= 64,
                forall|i: int| 0 <= i < cur@.len() ==> path_ok(#[trigger] cur@[i], rx, k as nat),
                (exists|x: Seq<bool>| run_out(0, x) == rx) ==> has_zero(cur@),
                tie_ordered(cur@),
                has_target(rx) ==> holds_prefix(cur@, target(rx).take(k as int)),
            decreases num_symbols - k,
        {
            let r1 = hard_bits[2 * k];
            let r2 = hard_bits[2 * k + 1];
            let next = extend_all(self, &cur, r1, r2, Ghost(rx), Ghost(k as nat));
            let flat = collect_survivors(next, Ghost(rx), Ghost((k + 1) as nat));
            cur = prune_survivors(flat, Ghost(rx), Ghost((k + 1) as nat));
            k += 1;
        }
        let mut best: usize = 0;
        let mut i: usize = 1;
        while i < cur.len()
            invariant
                1 <= cur@.len(),
                best < i <= cur@.len(),
                forall|m: int| 0 <= m < i ==> cur@[best as int].metric <= #[trigger] cur@[m].metric,
                forall|m: int| 0 <= m < best ==> cur@[best as int].metric < #[trigger] cur@[m].metric,
            decreases cur.len() - i,
        {
            if cur[i].metric < cur[best].metric {
                best = i;
            }
            i += 1;
        }
        let ghost survivors = cur@;
        let chosen = cur.swap_remove(best);
        proof {
            assert(path_ok(chosen, rx, num_symbols as nat));
            assert(rx.take(rx.len() as int) =~= rx);
            assert forall|x: Seq<bool>| #[trigger] run_out(0, x) == rx implies chosen.bits@ == x by {
                let zi = choose|m: int| 0 <= m < survivors.len() && #[trigger] survivors[m].metric == 0;
                assert(survivors[best as int].metric <= survivors[zi].metric);
                lemma_run_out_len(0, x);
                lemma_zero_metric_path(chosen.bits@, x, rx, num_symbols as nat);
                assert(x.take(num_symbols as int) =~= x);
            }
            if has_target(rx) {
                let tx = target(rx);
                let n = num_symbols as int;
                assert(decodes_to(tx, rx));
                assert(tx.take(n) =~= tx);
                let ci = choose|i: int| 0 <= i < survivors.len() && #[trigger] survivors[i].bits@ == tx.take(n);
                let cp = survivors[ci];
                assert(path_ok(cp, rx, num_symbols as nat));
                let e = hamming(run_out(0, tx), rx);
                assert(cp.metric == e);
                assert(chosen.metric <= cp.metric);
                lemma_close_path(tx, rx, chosen.bits@, n);
                if chosen.bits@ != tx {
                    let cb = chosen.bits@;
                    lemma_run_out_len(0, cb);
                    lemma_run_out_len(0, tx);
                    let j = lemma_first_difference(cb, tx);
                    lemma_column_distance(cb, tx, j);
                    lemma_hamming_triangle(run_out(0, cb), rx, run_out(0, tx));
                    assert(chosen.metric == cp.metric);
                    assert(ci != best as int);
                    if ci < best as int {
                        assert(survivors[best as int].metric < survivors[ci].metric);
                    }
                    assert(survivors[best as int].state < survivors[ci].state);
                    assert(cb.drop_last() =~= cb.take(n - 1));
                    assert(tx.drop_last() =~= tx.take(n - 1));
                    lemma_run_state_bound(0, tx.take(n - 1));
                    lemma_register_step(run_state(0, tx.take(n - 1)), false, false, false, false, false, false);
                    assert(!tx[n - 1]);
                    assert(cb[n - 1]);
                    assert(false);
                }
            }
            assert forall|x: Seq<bool>| #[trigger] decodes_to(x, hard_bits@) implies chosen.bits@ == x by {
                lemma_decodes_unique(x, target(rx), rx);
            }
        }
        Ok(chosen.bits)
    }
}
} // verus!
