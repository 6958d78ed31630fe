use vstd::prelude::*;
use reed_solomon_simd::Error;
use crate::bytes::{zeros, append_slice, copy_range, zero_bytes, lemma_nested_deep_view};
use crate::error::{AudioModemError, Result};
use crate::{RS_DATA_BYTES, RS_ECC_BYTES, RS_TOTAL_BYTES};

verus! {

/// FEC mode: how many Reed-Solomon parity bytes protect a block.
#[derive(Debug, Clone, Copy, PartialEq, Eq, Structural)]
pub enum FecMode {
    /// 8 parity bytes (for frame data under 20 bytes)
    Light,
    /// 16 parity bytes (for frame data of 20 to 50 bytes)
    Medium,
    /// 32 parity bytes (for frame data over 50 bytes)
    Full,
}

/// Parity bytes of a mode.
pub open spec fn mode_parity(m: FecMode) -> nat {
    match m {
        FecMode::Light => 8,
        FecMode::Medium => 16,
        FecMode::Full => 32,
    }
}

/// The mode chosen for frame data of a given size.
pub open spec fn mode_for_size(data_size: nat) -> FecMode {
    if data_size < 20 {
        FecMode::Light
    } else if data_size <= 50 {
        FecMode::Medium
    } else {
        FecMode::Full
    }
}

/// The mode a byte value names, if any.
pub open spec fn mode_from_byte(v: u8) -> Option<FecMode> {
    if v == 8 {
        Some(FecMode::Light)
    } else if v == 16 {
        Some(FecMode::Medium)
    } else if v == 32 {
        Some(FecMode::Full)
    } else {
        None
    }
}

impl FecMode {
    /// Chooses the FEC mode from the frame data size (header + payload + CRC).
    pub fn from_data_size(data_size: usize) -> (res: Self)
        ensures
            res == mode_for_size(data_size as nat),
    {
        if data_size < 20 {
            FecMode::Light
        } else if data_size <= 50 {
            FecMode::Medium
        } else {
            FecMode::Full
        }
    }

    /// Parity bytes of this mode.
    pub fn parity_bytes(&self) -> (res: usize)
        ensures
            res == mode_parity(*self),
    {
        match self {
            FecMode::Light => 8,
            FecMode::Medium => 16,
            FecMode::Full => 32,
        }
    }

    /// The mode a byte value names.
    pub fn from_u8(value: u8) -> (res: Result<Self>)
        ensures
            mode_from_byte(value) matches Some(m) ==> res == Ok::<FecMode, AudioModemError>(m),
            mode_from_byte(value) is None ==> (res matches Err(AudioModemError::InvalidConfig(m)) && m@ == "Invalid FEC mode"@),
    {
        match value {
            8 => Ok(FecMode::Light),
            16 => Ok(FecMode::Medium),
            32 => Ok(FecMode::Full),
            _ => Err(AudioModemError::InvalidConfig("Invalid FEC mode".to_string())),
        }
    }

    /// The byte value of this mode (its parity byte count).
    pub fn to_u8(&self) -> (res: u8)
        ensures
            res as nat == mode_parity(*self),
    {
        match self {
            FecMode::Light => 8,
            FecMode::Medium => 16,
            FecMode::Full => 32,
        }
    }
}

/// A mode survives the trip through its byte value.
pub proof fn lemma_mode_byte_roundtrip(m: FecMode)
    ensures
        mode_from_byte(mode_parity(m) as u8) == Some(m),
{
}

// ---------------------------------------------------------------------
// Reed-Solomon over 2-byte shards (reed-solomon-simd)

/// The step of a Reed-Solomon call that failed.
pub enum RsFailure {
    /// The codec could not be set up for the shard counts or size.
    Setup,
    /// An original shard was refused.
    AddOriginal,
    /// A recovery shard was refused.
    AddRecovery,
    /// Encoding or reconstruction itself failed.
    Finish,
}

/// Recovery shards that `reed_solomon_simd::encode` computes for the given
/// shard counts and original shards (`None` when it reports an error).
pub uninterp spec fn rs_recovery(original_count: nat, recovery_count: nat, original: Seq<Seq<u8>>) -> Option<Seq<Seq<u8>>>;

/// Calls `reed_solomon_simd::encode`. Claims: it succeeds exactly when the named
/// result is `Some`, returns that result, and on success returns `recovery_count`
/// shards each as long as the first original shard (its `recovery_iter` yields
/// one shard of `shard_bytes` bytes per recovery index); and it succeeds when the
/// shard counts are supported (both at most 1024 here), exactly `original_count`
/// shards are given, and all have the same even, non-zero length.
#[verifier::external_body]
fn rs_encode_shards(original_count: usize, recovery_count: usize, original: &Vec<Vec<u8>>) -> (res: core::result::Result<Vec<Vec<u8>>, RsFailure>)
    ensures
        res is Ok <==> rs_recovery(original_count as nat, recovery_count as nat, original.deep_view()) is Some,
        res matches Ok(r) ==> r.deep_view() == rs_recovery(original_count as nat, recovery_count as nat, original.deep_view())->0,
        res matches Ok(r) ==> original@.len() > 0 && r@.len() == recovery_count
            && forall|i: int| 0 <= i < r@.len() ==> #[trigger] r@[i]@.len() == original@[0]@.len(),
        (1 <= original_count <= 1024 && 1 <= recovery_count <= 1024 && original@.len() == original_count
            && original@[0]@.len() > 0 && original@[0]@.len() % 2 == 0
            && forall|i: int| 0 <= i < original@.len() ==> #[trigger] original@[i]@.len() == original@[0]@.len())
            ==> res is Ok,
{
    match reed_solomon_simd::encode(original_count, recovery_count, original.iter()) {
        Ok(r) => Ok(r),
        Err(Error::UnsupportedShardCount { .. } | Error::InvalidShardSize { .. }) => Err(RsFailure::Setup),
        Err(Error::DifferentShardSize { .. } | Error::TooManyOriginalShards { .. }) => Err(RsFailure::AddOriginal),
        Err(_) => Err(RsFailure::Finish),
    }
}

/// Original shards that `reed_solomon_simd::decode` restores, as (indices, shards),
/// from the given original shards (with their indices) and recovery shards
/// (indexed by position); `None` when it reports an error.
pub uninterp spec fn rs_restored(
    original_count: nat,
    recovery_count: nat,
    original_idx: Seq<usize>,
    original: Seq<Seq<u8>>,
    recovery: Seq<Seq<u8>>,
) -> Option<(Seq<usize>, Seq<Seq<u8>>)>;

/// Whether the shards handed to the decoder come from encoding the original shards
/// `full`, with enough of them to restore the rest: supported counts, `full` of equal
/// even non-zero length, every recovery shard the codec's own for `full`, every given
/// original shard the one of `full` at its (distinct, in-range) index, and at least as
/// many shards given as there are originals.
pub open spec fn restorable(
    original_count: nat,
    recovery_count: nat,
    original_idx: Seq<usize>,
    original: Seq<Seq<u8>>,
    recovery: Seq<Seq<u8>>,
    full: Seq<Seq<u8>>,
) -> bool {
    &&& 1 <= original_count <= 1024
    &&& 1 <= recovery_count <= 1024
    &&& full.len() == original_count
    &&& full[0].len() > 0 && full[0].len() % 2 == 0
    &&& (forall|i: int| 0 <= i < full.len() ==> #[trigger] full[i].len() == full[0].len())
    &&& rs_recovery(original_count, recovery_count, full) == Some(recovery)
    &&& recovery.len() == recovery_count
    &&& (forall|j: int| 0 <= j < recovery.len() ==> #[trigger] recovery[j].len() == full[0].len())
    &&& original_idx.len() == original.len()
    &&& (forall|a: int, b: int| 0 <= a < b < original_idx.len() ==> original_idx[a] != original_idx[b])
    &&& (forall|k: int| 0 <= k < original_idx.len() ==> (#[trigger] original_idx[k]) < original_count
        && original[k] == full[original_idx[k] as int])
    &&& original_idx.len() + recovery_count >= original_count
}

/// Calls `reed_solomon_simd::decode` with original shards `(original_idx[k], original[k])`
/// and recovery shards `(k, recovery[k])`. Claims: it succeeds exactly when the named
/// result is `Some` and returns it, split into indices and shards in increasing index
/// order (a `BTreeMap` walk); every restored index is below `original_count` and every
/// restored shard is as long as the first recovery shard (with no recovery shards
/// nothing is restored). And, as the crate documents ("when some original shards get
/// lost, restore them ... provide at least as many shards as there were original
/// shards"): when the shards are `restorable` from some `full`, decoding succeeds,
/// every missing original index is restored, and every restored shard is the one of
/// `full`.
#[verifier::external_body]
fn rs_decode_shards(
    original_count: usize,
    recovery_count: usize,
    original_idx: &Vec<usize>,
    original: &Vec<Vec<u8>>,
    recovery: &Vec<Vec<u8>>,
) -> (res: core::result::Result<(Vec<usize>, Vec<Vec<u8>>), RsFailure>)
    requires
        original_idx@.len() == original@.len(),
    ensures
        res is Ok <==> rs_restored(original_count as nat, recovery_count as nat, original_idx@, original.deep_view(), recovery.deep_view()) is Some,
        res matches Ok(r) ==> (r.0@, r.1.deep_view()) == rs_restored(
            original_count as nat,
            recovery_count as nat,
            original_idx@,
            original.deep_view(),
            recovery.deep_view(),
        )->0,
        res matches Ok(r) ==> r.0@.len() == r.1@.len()
            && (forall|k: int| 0 <= k < r.0@.len() ==> #[trigger] r.0@[k] < original_count)
            && (forall|k: int| 0 <= k < r.1@.len() ==> #[trigger] r.1@[k]@.len() == recovery@[0]@.len()),
        res is Err ==> forall|full: Seq<Seq<u8>>| !#[trigger] restorable(original_count as nat, recovery_count as nat,
            original_idx@, original.deep_view(), recovery.deep_view(), full),
        res matches Ok(r) ==> forall|full: Seq<Seq<u8>>| #[trigger] restorable(original_count as nat, recovery_count as nat,
            original_idx@, original.deep_view(), recovery.deep_view(), full) ==> {
                &&& (forall|k: int| 0 <= k < r.1@.len() ==> #[trigger] r.1@[k]@ == full[r.0@[k] as int])
                &&& (forall|i: usize| i < original_count && !original_idx@.contains(i) ==> #[trigger] r.0@.contains(i))
            },
{
    let originals = original_idx.iter().copied().zip(original.iter());
    match reed_solomon_simd::decode(original_count, recovery_count, originals, recovery.iter().enumerate()) {
        Ok(map) => Ok(map.into_iter().unzip()),
        Err(Error::UnsupportedShardCount { .. } | Error::InvalidShardSize { .. }) => Err(RsFailure::Setup),
        Err(Error::InvalidOriginalShardIndex { .. } | Error::DuplicateOriginalShardIndex { .. }) => Err(RsFailure::AddOriginal),
        Err(Error::InvalidRecoveryShardIndex { .. } | Error::DuplicateRecoveryShardIndex { .. }) => Err(RsFailure::AddRecovery),
        Err(_) => Err(RsFailure::Finish),
    }
}

// ---------------------------------------------------------------------
// Specification of the block code

/// Bytes per shard.
pub open spec fn shard_size() -> nat {
    2
}

/// Data bytes padded to a whole number of shards (224 bytes).
pub open spec fn padded_len() -> nat {
    224
}

/// Number of original shards (112).
pub open spec fn original_count() -> nat {
    112
}

/// A block's data, zero-padded to the shard-aligned length.
pub open spec fn pad_block(data: Seq<u8>) -> Seq<u8> {
    data + zeros((padded_len() - data.len()) as nat)
}

/// The original shards of a padded block.
pub open spec fn data_shards(padded: Seq<u8>) -> Seq<Seq<u8>> {
    Seq::new(original_count(), |i: int| padded.subrange(2 * i, 2 * i + 2))
}

/// Concatenation of shards.
pub open spec fn flatten(shards: Seq<Seq<u8>>) -> Seq<u8>
    decreases shards.len(),
{
    if shards.len() == 0 {
        Seq::empty()
    } else {
        flatten(shards.drop_last()) + shards.last()
    }
}

/// The parity bytes of a block in a mode, when the codec succeeds (with one two-byte
/// recovery shard per two parity bytes, as it gives for two-byte original shards).
pub open spec fn fec_parity(data: Seq<u8>, mode: FecMode) -> Option<Seq<u8>> {
    match rs_recovery(original_count(), mode_parity(mode) / 2, data_shards(pad_block(data))) {
        Some(r) => if r.len() == mode_parity(mode) / 2 && forall|i: int| 0 <= i < r.len() ==> #[trigger] r[i].len() == 2 {
            Some(flatten(r))
        } else {
            None
        },
        None => None,
    }
}

/// What decoding a block in a mode gives (the data part is returned as is).
pub open spec fn spec_decode_with_mode(encoded: Seq<u8>, mode: FecMode) -> core::result::Result<Seq<u8>, AudioModemError> {
    if encoded.len() != RS_DATA_BYTES + mode_parity(mode) {
        Err(AudioModemError::InvalidInputSize)
    } else {
        Ok(encoded.take(RS_DATA_BYTES as int))
    }
}

/// Whether a byte of shard `i` is listed among the error positions.
pub open spec fn shard_damaged(errs: Seq<usize>, i: int) -> bool {
    errs.contains((2 * i) as usize) || errs.contains((2 * i + 1) as usize)
}

/// Indices, in increasing order, of the first `n` original shards with no listed error.
pub open spec fn kept_indices(errs: Seq<usize>, n: nat) -> Seq<usize>
    decreases n,
{
    if n == 0 {
        Seq::empty()
    } else if shard_damaged(errs, n - 1) {
        kept_indices(errs, (n - 1) as nat)
    } else {
        kept_indices(errs, (n - 1) as nat).push((n - 1) as usize)
    }
}

/// The original shards handed to the decoder: those of the kept indices.
pub open spec fn kept_shards(padded: Seq<u8>, idx: Seq<usize>) -> Seq<Seq<u8>> {
    Seq::new(idx.len(), |k: int| data_shards(padded)[idx[k] as int])
}

/// The 16 recovery shards of a full-parity block.
pub open spec fn block_recovery(encoded: Seq<u8>) -> Seq<Seq<u8>> {
    Seq::new(16, |i: int| encoded.subrange(RS_DATA_BYTES + 2 * i, RS_DATA_BYTES + 2 * i + 2))
}

/// Writes a restored shard at its place in the 223 data bytes (the part that fits).
pub open spec fn place_shard(prev: Seq<u8>, idx: usize, shard: Seq<u8>) -> Seq<u8> {
    let start = 2 * idx;
    let end = if start + 2 <= RS_DATA_BYTES { start + 2 } else { RS_DATA_BYTES as int };
    Seq::new(prev.len(), |p: int| if start <= p < end { shard[p - start] } else { prev[p] })
}

/// The received data bytes with the restored shards written at their places, in order.
pub open spec fn place_restored(base: Seq<u8>, idx: Seq<usize>, shards: Seq<Seq<u8>>) -> Seq<u8>
    decreases idx.len(),
{
    if idx.len() == 0 || shards.len() == 0 {
        base
    } else {
        place_shard(place_restored(base, idx.drop_last(), shards.drop_last()), idx.last(), shards.last())
    }
}

/// The shard counts and shards handed to the codec when repairing a 255-byte block.
pub open spec fn repair_restored(encoded: Seq<u8>, errs: Seq<usize>) -> Option<(Seq<usize>, Seq<Seq<u8>>)> {
    let idx = kept_indices(errs, original_count());
    rs_restored(original_count(), 16, idx, kept_shards(pad_block(encoded.take(RS_DATA_BYTES as int)), idx), block_recovery(encoded))
}


/// Whether a received 255-byte block is a full-parity encoding of `d` apart from the
/// data bytes of damaged shards (shards with a listed position), with at most 16 such
/// shards: the parity bytes are the codec's own for `d`, and every other data byte
/// is as sent.
pub open spec fn repairable_from(encoded: Seq<u8>, errs: Seq<usize>, d: Seq<u8>) -> bool {
    &&& d.len() <= RS_DATA_BYTES
    &&& encoded.len() == RS_TOTAL_BYTES
    &&& rs_recovery(original_count(), 16, data_shards(pad_block(d))) == Some(block_recovery(encoded))
    &&& (forall|p: int| 0 <= p < RS_DATA_BYTES && !shard_damaged(errs, p / 2) ==> #[trigger] encoded[p] == pad_block(d)[p])
    &&& kept_indices(errs, original_count()).len() + 16 >= original_count()
}

/// The kept indices are increasing, in range, and exactly the undamaged shards.
proof fn lemma_kept_indices(errs: Seq<usize>, n: nat)
    requires
        n <= 112,
    ensures
        forall|a: int, b: int| 0 <= a < b < kept_indices(errs, n).len() ==> kept_indices(errs, n)[a] < kept_indices(errs, n)[b],
        forall|k: int| 0 <= k < kept_indices(errs, n).len() ==> (#[trigger] kept_indices(errs, n)[k]) < n
            && !shard_damaged(errs, kept_indices(errs, n)[k] as int),
        forall|i: usize| i < n && !shard_damaged(errs, i as int) ==> #[trigger] kept_indices(errs, n).contains(i),
    decreases n,
{
    if n > 0 {
        let m = (n - 1) as nat;
        lemma_kept_indices(errs, m);
        let prev = kept_indices(errs, m);
        let cur = kept_indices(errs, n);
        if !shard_damaged(errs, m as int) {
            assert(cur == prev.push(m as usize));
            assert forall|i: usize| i < n && !shard_damaged(errs, i as int) implies #[trigger] cur.contains(i) by {
                if i < m {
                    assert(prev.contains(i));
                    let j = choose|j: int| 0 <= j < prev.len() && prev[j] == i;
                    assert(cur[j] == i);
                } else {
                    assert(cur[prev.len() as int] == i);
                }
            }
        }
    }
}

/// A block repairable from `d` hands the decoder shards restorable from the shards of `d`.
proof fn lemma_repairable_restorable(encoded: Seq<u8>, errs: Seq<usize>, d: Seq<u8>)
    requires
        repairable_from(encoded, errs, d),
    ensures
        restorable(original_count(), 16, kept_indices(errs, original_count()),
            kept_shards(pad_block(encoded.take(RS_DATA_BYTES as int)), kept_indices(errs, original_count())),
            block_recovery(encoded), data_shards(pad_block(d))),
{
    let idx = kept_indices(errs, original_count());
    let full = data_shards(pad_block(d));
    let pe = pad_block(encoded.take(RS_DATA_BYTES as int));
    let pd = pad_block(d);
    lemma_kept_indices(errs, original_count());
    assert(pd.len() == 224 && pe.len() == 224);
    assert forall|i: int| 0 <= i < full.len() implies #[trigger] full[i].len() == full[0].len() by {}
    assert forall|j: int| 0 <= j < block_recovery(encoded).len() implies #[trigger] block_recovery(encoded)[j].len() == full[0].len() by {}
    assert forall|k: int| 0 <= k < idx.len() implies (#[trigger] idx[k]) < original_count()
        && kept_shards(pe, idx)[k] == full[idx[k] as int] by {
        let i = idx[k] as int;
        assert(!shard_damaged(errs, i));
        assert forall|q: int| 0 <= q < 2 implies #[trigger] pe.subrange(2 * i, 2 * i + 2)[q] == pd.subrange(2 * i, 2 * i + 2)[q] by {
            let p = 2 * i + q;
            assert(p / 2 == i);
            if p < RS_DATA_BYTES {
                assert(encoded[p] == pd[p]);
            }
        }
        assert(pe.subrange(2 * i, 2 * i + 2) =~= pd.subrange(2 * i, 2 * i + 2));
    }
}

/// Writing correct shards over a base gives the target wherever the base was right or
/// a shard was written.
proof fn lemma_place_restored(base: Seq<u8>, pd: Seq<u8>, idx: Seq<usize>, shards: Seq<Seq<u8>>)
    requires
        base.len() == RS_DATA_BYTES,
        pd.len() == 224,
        idx.len() == shards.len(),
        forall|k: int| 0 <= k < idx.len() ==> (#[trigger] idx[k]) < 112 && shards[k] == pd.subrange(2 * idx[k], 2 * idx[k] + 2),
    ensures
        place_restored(base, idx, shards).len() == RS_DATA_BYTES,
        forall|p: int| 0 <= p < RS_DATA_BYTES && (base[p] == pd[p] || idx.contains((p / 2) as usize))
            ==> #[trigger] place_restored(base, idx, shards)[p] == pd[p],
    decreases idx.len(),
{
    if idx.len() > 0 {
        let i0 = idx.drop_last();
        let s0 = shards.drop_last();
        assert forall|k: int| 0 <= k < i0.len() implies (#[trigger] i0[k]) < 112 && s0[k] == pd.subrange(2 * i0[k], 2 * i0[k] + 2) by {
            assert(i0[k] == idx[k] && s0[k] == shards[k]);
        }
        lemma_place_restored(base, pd, i0, s0);
        let prev = place_restored(base, i0, s0);
        let last = idx.last();
        assert(shards.last() == pd.subrange(2 * last, 2 * last + 2));
        assert forall|p: int| 0 <= p < RS_DATA_BYTES && (base[p] == pd[p] || idx.contains((p / 2) as usize))
            implies #[trigger] place_restored(base, idx, shards)[p] == pd[p] by {
            if (p / 2) as usize == last {
            } else if idx.contains((p / 2) as usize) {
                let j = choose|j: int| 0 <= j < idx.len() && idx[j] == (p / 2) as usize;
                assert(j < idx.len() - 1);
                assert(i0[j] == idx[j]);
                assert(i0.contains((p / 2) as usize));
            }
        }
    }
}

pub struct FecEncoder;

pub struct FecDecoder;

proof fn lemma_flatten_len(shards: Seq<Seq<u8>>, w: nat)
    requires
        forall|i: int| 0 <= i < shards.len() ==> #[trigger] shards[i].len() == w,
    ensures
        flatten(shards).len() == shards.len() * w,
    decreases shards.len(),
{
    if shards.len() > 0 {
        lemma_flatten_len(shards.drop_last(), w);
        assert(shards.len() * w == (shards.len() - 1) * w + w) by (nonlinear_arith);
    }
}

/// Two-byte shards sit side by side in their concatenation.
proof fn lemma_flatten_shards(shards: Seq<Seq<u8>>)
    requires
        forall|i: int| 0 <= i < shards.len() ==> #[trigger] shards[i].len() == 2,
    ensures
        flatten(shards).len() == 2 * shards.len(),
        forall|i: int| 0 <= i < shards.len() ==> #[trigger] flatten(shards).subrange(2 * i, 2 * i + 2) == shards[i],
    decreases shards.len(),
{
    if shards.len() > 0 {
        let prev = shards.drop_last();
        lemma_flatten_shards(prev);
        let f = flatten(shards);
        assert forall|i: int| 0 <= i < shards.len() implies #[trigger] f.subrange(2 * i, 2 * i + 2) == shards[i] by {
            if i < shards.len() - 1 {
                assert(f.subrange(2 * i, 2 * i + 2) =~= flatten(prev).subrange(2 * i, 2 * i + 2));
                assert(prev[i] == shards[i]);
            } else {
                assert(f.subrange(2 * i, 2 * i + 2) =~= shards.last());
            }
        }
    }
}

/// The block sent for `d` with full parity.
pub open spec fn sent_block(d: Seq<u8>) -> Seq<u8> {
    pad_block(d).take(RS_DATA_BYTES as int) + fec_parity(d, FecMode::Full)->0
}

/// A block sent as the full-parity encoding of `d` and received with changes only at
/// listed data positions, with at most 16 shards holding a listed position (the kept
/// shards number at least 96), is repairable from `d`: `decode_with_errors` then gives
/// back the sent data bytes.
pub proof fn lemma_damaged_block_repairable(d: Seq<u8>, rx: Seq<u8>, errs: Seq<usize>)
    requires
        d.len() <= RS_DATA_BYTES,
        fec_parity(d, FecMode::Full) is Some,
        rx.len() == RS_TOTAL_BYTES,
        forall|p: int| 0 <= p < RS_TOTAL_BYTES && rx[p] != #[trigger] sent_block(d)[p]
            ==> p < RS_DATA_BYTES && errs.contains(p as usize),
        kept_indices(errs, original_count()).len() + 16 >= original_count(),
    ensures
        repairable_from(rx, errs, d),
        sent_block(d).take(RS_DATA_BYTES as int) == pad_block(d).take(RS_DATA_BYTES as int),
{
    let r = rs_recovery(original_count(), 16, data_shards(pad_block(d)))->0;
    let pd = pad_block(d);
    let sb = sent_block(d);
    assert(mode_parity(FecMode::Full) / 2 == 16);
    assert(r.len() == 16);
    assert(forall|i: int| 0 <= i < r.len() ==> #[trigger] r[i].len() == 2);
    lemma_flatten_shards(r);
    assert(sb.len() == RS_TOTAL_BYTES);
    assert forall|i: int| 0 <= i < 16 implies #[trigger] block_recovery(rx)[i] == r[i] by {
        assert forall|q: int| 0 <= q < 2 implies #[trigger] rx[RS_DATA_BYTES + 2 * i + q] == r[i][q] by {
            let p = RS_DATA_BYTES + 2 * i + q;
            if rx[p] != sb[p] {
                assert(false);
            }
            assert(sb[p] == flatten(r)[2 * i + q]);
            assert(flatten(r).subrange(2 * i, 2 * i + 2)[q] == flatten(r)[2 * i + q]);
        }
        assert(r[i].len() == 2);
        assert(block_recovery(rx)[i].len() == 2);
        assert forall|q: int| 0 <= q < 2 implies #[trigger] block_recovery(rx)[i][q] == r[i][q] by {
            assert(block_recovery(rx)[i][q] == rx[RS_DATA_BYTES + 2 * i + q]);
        }
        assert(block_recovery(rx)[i] =~= r[i]);
    }
    assert(block_recovery(rx) =~= r);
    assert forall|p: int| 0 <= p < RS_DATA_BYTES && !shard_damaged(errs, p / 2) implies #[trigger] rx[p] == pad_block(d)[p] by {
        if rx[p] != sb[p] {
            assert(errs.contains(p as usize));
            if p % 2 == 0 {
                assert((2 * (p / 2)) as usize == p as usize);
            } else {
                assert((2 * (p / 2) + 1) as usize == p as usize);
            }
        }
        assert(sb[p] == pd[p]);
    }
    assert(sb.take(RS_DATA_BYTES as int) =~= pd.take(RS_DATA_BYTES as int));
}

/// Whether a position is listed.
fn contains_position(positions: &[usize], pos: usize) -> (res: bool)
    ensures
        res == positions@.contains(pos),
{
    let mut i: usize = 0;
    while i < positions.len()
        invariant
            i <= positions@.len(),
            forall|k: int| 0 <= k < i ==> positions@[k] != pos,
        decreases positions.len() - i,
    {
        if positions[i] == pos {
            return true;
        }
        i += 1;
    }
    false
}

impl FecEncoder {
    /// Creates an encoder (always succeeds).
    pub fn new() -> (res: Result<Self>)
        ensures
            res is Ok,
    {
        Ok(Self)
    }

    /// Encodes with full (32-byte) parity.
    pub fn encode(&self, data: &[u8]) -> (res: Result<Vec<u8>>)
        ensures
            data@.len() > RS_DATA_BYTES ==> res == Err::<Vec<u8>, AudioModemError>(AudioModemError::InvalidInputSize),
            data@.len() <= RS_DATA_BYTES ==> res is Ok && fec_parity(data@, FecMode::Full) is Some,
            res matches Ok(e) ==> e@ == pad_block(data@).take(RS_DATA_BYTES as int) + fec_parity(data@, FecMode::Full)->0,
            res matches Ok(e) ==> e@.len() == RS_TOTAL_BYTES,
    {
        self.encode_with_mode(data, FecMode::Full)
    }

    /// Encodes a block of at most 223 bytes: the zero-padded data then the parity bytes.
    pub fn encode_with_mode(&self, data: &[u8], mode: FecMode) -> (res: Result<Vec<u8>>)
        ensures
            data@.len() > RS_DATA_BYTES ==> res == Err::<Vec<u8>, AudioModemError>(AudioModemError::InvalidInputSize),
            data@.len() <= RS_DATA_BYTES ==> res is Ok && fec_parity(data@, mode) is Some,
            res matches Ok(e) ==> e@ == pad_block(data@).take(RS_DATA_BYTES as int) + fec_parity(data@, mode)->0,
            res matches Ok(e) ==> e@.len() == RS_DATA_BYTES + mode_parity(mode),
    {
        if data.len() > RS_DATA_BYTES {
            return Err(AudioModemError::InvalidInputSize);
        }
        let parity_bytes = mode.parity_bytes();
        let shard_size: usize = 2;
        let padded_len = ((RS_DATA_BYTES + shard_size - 1) / shard_size) * shard_size;
        let mut padded_data: Vec<u8> = copy_range(data, 0, data.len());
        let tail = zero_bytes(padded_len - data.len());
        append_slice(&mut padded_data, tail.as_slice());
        assert(padded_data@ == pad_block(data@));
        let num_original = padded_len / shard_size;
        let num_recovery = (parity_bytes + shard_size - 1) / shard_size;
        let mut shards: Vec<Vec<u8>> = Vec::new();
        let mut i: usize = 0;
        while i < num_original
            invariant
                num_original == 112,
                shard_size == 2,
                padded_data@.len() == 224,
                i <= num_original,
                shards@.len() == i,
                forall|k: int| 0 <= k < i ==> #[trigger] shards@[k]@ == data_shards(padded_data@)[k],
            decreases num_original - i,
        {
            let shard = copy_range(padded_data.as_slice(), i * shard_size, i * shard_size + shard_size);
            shards.push(shard);
            i += 1;
        }
        proof {
            lemma_nested_deep_view(shards);
        }
        assert(shards.deep_view() =~= data_shards(padded_data@));
        assert forall|k: int| 0 <= k < shards@.len() implies #[trigger] shards@[k]@.len() == 2 by {
            assert(shards@[k]@ == data_shards(padded_data@)[k]);
        }
        assert(shards@[0]@.len() == 2);
        let recovery = match rs_encode_shards(num_original, num_recovery, &shards) {
            Ok(r) => r,
            Err(RsFailure::Setup) => {
                return Err(AudioModemError::InvalidConfig("Failed to create RS encoder".to_string()));
            },
            Err(RsFailure::AddOriginal) => {
                return Err(AudioModemError::FecError("Failed to add original shard".to_string()));
            },
            Err(_) => {
                return Err(AudioModemError::FecError("Failed to encode with RS".to_string()));
            },
        };
        proof {
            assert(num_recovery == mode_parity(mode) / 2);
            assert(shards@[0]@.len() == 2);
            lemma_nested_deep_view(recovery);
            assert forall|k: int| 0 <= k < recovery@.len() implies #[trigger] recovery.deep_view()[k].len() == 2 by {
                assert(recovery.deep_view()[k] == recovery@[k]@);
            }
            lemma_flatten_len(recovery.deep_view(), 2);
        }
        let mut encoded = copy_range(padded_data.as_slice(), 0, RS_DATA_BYTES);
        let mut parity_offset = RS_DATA_BYTES;
        let mut r: usize = 0;
        while r < recovery.len() && r < num_recovery
            invariant
                num_recovery == recovery@.len(),
                parity_bytes == mode_parity(mode),
                num_recovery * 2 == parity_bytes,
                r <= num_recovery,
                forall|k: int| 0 <= k < recovery@.len() ==> #[trigger] recovery@[k]@.len() == 2,
                parity_offset == RS_DATA_BYTES + 2 * r,
                encoded@ == padded_data@.take(RS_DATA_BYTES as int) + flatten(recovery.deep_view().take(r as int)),
            decreases num_recovery - r,
        {
            let remaining = RS_DATA_BYTES + parity_bytes - parity_offset;
            let shard = &recovery[r];
            let to_copy = if shard.len() < remaining { shard.len() } else { remaining };
            let piece = copy_range(shard.as_slice(), 0, to_copy);
            assert(piece@ == recovery.deep_view()[r as int]);
            append_slice(&mut encoded, piece.as_slice());
            parity_offset += to_copy;
            r += 1;
            assert(recovery.deep_view().take(r as int).drop_last() == recovery.deep_view().take((r - 1) as int));
        }
        assert(recovery.deep_view().take(num_recovery as int) == recovery.deep_view());
        Ok(encoded)
    }
}

impl FecDecoder {
    /// Creates a decoder (always succeeds).
    pub fn new() -> (res: Result<Self>)
        ensures
            res is Ok,
    {
        Ok(Self)
    }

    /// Decodes a full-parity block of exactly 255 bytes.
    pub fn decode(&self, encoded: &[u8]) -> (res: Result<Vec<u8>>)
        ensures
            encoded@.len() != RS_TOTAL_BYTES ==> res == Err::<Vec<u8>, AudioModemError>(AudioModemError::InvalidInputSize),
            encoded@.len() == RS_TOTAL_BYTES ==> (res matches Ok(v) && v@ == encoded@.take(RS_DATA_BYTES as int)),
    {
        if encoded.len() != RS_TOTAL_BYTES {
            return Err(AudioModemError::InvalidInputSize);
        }
        self.decode_with_mode(encoded, FecMode::Full)
    }

    /// Decodes a block in a mode: with all shards present, the data part is the result.
    pub fn decode_with_mode(&self, encoded: &[u8], mode: FecMode) -> (res: Result<Vec<u8>>)
        ensures
            match res {
                Ok(v) => spec_decode_with_mode(encoded@, mode) == Ok::<Seq<u8>, AudioModemError>(v@),
                Err(e) => spec_decode_with_mode(encoded@, mode) == Err::<Seq<u8>, AudioModemError>(e),
            },
    {
        let parity_bytes = mode.parity_bytes();
        let total_bytes = RS_DATA_BYTES + parity_bytes;
        if encoded.len() != total_bytes {
            return Err(AudioModemError::InvalidInputSize);
        }
        let decoded = copy_range(encoded, 0, RS_DATA_BYTES);
        Ok(decoded)
    }

    /// Repairs a full-parity block whose listed byte positions are unreliable: shards
    /// holding such a byte are left out as erasures and restored by the codec. The
    /// result holds the received data bytes with the restored shards written over theirs.
    pub fn decode_with_errors(&self, encoded: &[u8], error_positions: &[usize]) -> (res: Result<Vec<u8>>)
        ensures
            encoded@.len() != RS_TOTAL_BYTES ==> res == Err::<Vec<u8>, AudioModemError>(AudioModemError::InvalidInputSize),
            encoded@.len() == RS_TOTAL_BYTES ==> (res is Ok <==> repair_restored(encoded@, error_positions@) is Some),
            res matches Ok(v) ==> (repair_restored(encoded@, error_positions@) matches Some(r) && v@ == place_restored(encoded@.take(RS_DATA_BYTES as int), r.0, r.1)),
            encoded@.len() == RS_TOTAL_BYTES && res is Err ==> (res matches Err(AudioModemError::InvalidConfig(_)) || res matches Err(AudioModemError::FecError(_))),
            forall|d: Seq<u8>| #[trigger] repairable_from(encoded@, error_positions@, d)
                ==> (res matches Ok(v) && v@ == pad_block(d).take(RS_DATA_BYTES as int)),
    {
        if encoded.len() != RS_TOTAL_BYTES {
            return Err(AudioModemError::InvalidInputSize);
        }
        let shard_size: usize = 2;
        let padded_len: usize = 224;
        let num_original: usize = 112;
        let num_recovery: usize = 16;
        let mut padded_data = copy_range(encoded, 0, RS_DATA_BYTES);
        padded_data.push(0);
        assert(padded_data@ =~= pad_block(encoded@.take(RS_DATA_BYTES as int)));
        let mut idx: Vec<usize> = Vec::new();
        let mut kept: Vec<Vec<u8>> = Vec::new();
        let mut i: usize = 0;
        while i < num_original
            invariant
                num_original == 112,
                shard_size == 2,
                padded_data@ == pad_block(encoded@.take(RS_DATA_BYTES as int)),
                i <= num_original,
                forall|k: int| 0 <= k < idx@.len() ==> #[trigger] idx@[k] < i,
                idx@ == kept_indices(error_positions@, i as nat),
                kept@.len() == idx@.len(),
                forall|k: int| 0 <= k < kept@.len() ==> #[trigger] kept@[k]@ == data_shards(padded_data@)[idx@[k] as int],
            decreases num_original - i,
        {
            let start = i * shard_size;
            let damaged = contains_position(error_positions, start) || contains_position(error_positions, start + 1);
            if !damaged {
                let shard = copy_range(padded_data.as_slice(), start, start + shard_size);
                idx.push(i);
                kept.push(shard);
            }
            i += 1;
        }
        let mut recovery: Vec<Vec<u8>> = Vec::new();
        let mut r: usize = 0;
        while r < num_recovery
            invariant
                num_recovery == 16,
                shard_size == 2,
                encoded@.len() == RS_TOTAL_BYTES,
                r <= num_recovery,
                recovery@.len() == r,
                forall|k: int| 0 <= k < r ==> #[trigger] recovery@[k]@ == block_recovery(encoded@)[k],
            decreases num_recovery - r,
        {
            let start = RS_DATA_BYTES + r * shard_size;
            recovery.push(copy_range(encoded, start, start + shard_size));
            r += 1;
        }
        proof {
            lemma_nested_deep_view(kept);
            lemma_nested_deep_view(recovery);
            assert(kept.deep_view() =~= kept_shards(padded_data@, idx@));
            assert(recovery.deep_view() =~= block_recovery(encoded@));
        }
        let outcome = rs_decode_shards(num_original, num_recovery, &idx, &kept, &recovery);
        proof {
            if outcome is Err {
                assert forall|d: Seq<u8>| !#[trigger] repairable_from(encoded@, error_positions@, d) by {
                    if repairable_from(encoded@, error_positions@, d) {
                        lemma_repairable_restorable(encoded@, error_positions@, d);
                    }
                }
            }
        }
        let restored = match outcome {
            Ok(r) => r,
            Err(RsFailure::Setup) => {
                return Err(AudioModemError::InvalidConfig("Failed to create RS decoder".to_string()));
            },
            Err(RsFailure::AddOriginal) => {
                return Err(AudioModemError::FecError("Failed to add original shard".to_string()));
            },
            Err(RsFailure::AddRecovery) => {
                return Err(AudioModemError::FecError("Failed to add recovery shard".to_string()));
            },
            Err(RsFailure::Finish) => {
                return Err(AudioModemError::FecError("Failed to reconstruct corrupted data".to_string()));
            },
        };
        let (ridx, rshards) = restored;
        let ghost rr = repair_restored(encoded@, error_positions@)->0;
        proof {
            lemma_nested_deep_view(rshards);
            assert(recovery@[0]@.len() == 2);
        }
        let mut decoded = copy_range(encoded, 0, RS_DATA_BYTES);
        let mut k: usize = 0;
        while k < ridx.len()
            invariant
                rr == (ridx@, rshards.deep_view()),
                shard_size == 2,
                ridx@.len() == rshards@.len(),
                forall|m: int| 0 <= m < ridx@.len() ==> #[trigger] ridx@[m] < 112,
                forall|m: int| 0 <= m < rshards@.len() ==> #[trigger] rshards@[m]@.len() == 2,
                k <= ridx@.len(),
                decoded@.len() == RS_DATA_BYTES,
                decoded@ == place_restored(encoded@.take(RS_DATA_BYTES as int), ridx@.take(k as int), rshards.deep_view().take(k as int)),
            decreases ridx.len() - k,
        {
            let ghost prev = decoded@;
            let start = ridx[k] * shard_size;
            let end = if start + shard_size <= RS_DATA_BYTES { start + shard_size } else { RS_DATA_BYTES };
            let shard = &rshards[k];
            proof {
                assert(rshards.deep_view()[k as int] == shard@);
            }
            if start < RS_DATA_BYTES {
                let mut j: usize = start;
                while j < end
                    invariant
                        start <= j <= end <= RS_DATA_BYTES,
                        end - start <= 2,
                        shard@.len() == 2,
                        prev.len() == RS_DATA_BYTES,
                        decoded@ == Seq::new(prev.len(), |p: int| if start <= p < j { shard@[p - start] } else { prev[p] }),
                    decreases end - j,
                {
                    decoded.set(j, shard[j - start]);
                    j += 1;
                    assert(decoded@ =~= Seq::new(prev.len(), |p: int| if start <= p < j { shard@[p - start] } else { prev[p] }));
                }
            }
            proof {
                let ik = ridx@.take(k + 1);
                let sk = rshards.deep_view().take(k + 1);
                assert(ik.drop_last() =~= ridx@.take(k as int));
                assert(sk.drop_last() =~= rshards.deep_view().take(k as int));
                assert(decoded@ =~= place_shard(prev, ridx@[k as int], shard@));
            }
            k += 1;
        }
        proof {
            assert(ridx@.take(ridx@.len() as int) =~= ridx@);
            assert(rshards.deep_view().take(ridx@.len() as int) =~= rshards.deep_view());
            assert forall|d: Seq<u8>| #[trigger] repairable_from(encoded@, error_positions@, d)
                implies decoded@ == pad_block(d).take(RS_DATA_BYTES as int) by {
                let pd = pad_block(d);
                let full = data_shards(pd);
                let base = encoded@.take(RS_DATA_BYTES as int);
                lemma_repairable_restorable(encoded@, error_positions@, d);
                lemma_kept_indices(error_positions@, original_count());
                assert(pd.len() == 224);
                assert forall|m: int| 0 <= m < ridx@.len() implies (#[trigger] ridx@[m]) < 112
                    && rshards.deep_view()[m] == pd.subrange(2 * ridx@[m], 2 * ridx@[m] + 2) by {
                    assert(rshards.deep_view()[m] == rshards@[m]@);
                    assert(rshards@[m]@ == full[ridx@[m] as int]);
                }
                lemma_place_restored(base, pd, ridx@, rshards.deep_view());
                assert forall|p: int| 0 <= p < RS_DATA_BYTES implies #[trigger] decoded@[p] == pd[p] by {
                    let i = p / 2;
                    if !shard_damaged(error_positions@, i) {
                        assert(base[p] == encoded@[p]);
                    } else {
                        assert(!idx@.contains(i as usize));
                        assert(ridx@.contains(i as usize));
                    }
                }
                assert(decoded@ =~= pd.take(RS_DATA_BYTES as int));
            }
        }
        Ok(decoded)
    }
}

/// A block encoded in a mode decodes, in the same mode, to its zero-padded data.
pub proof fn lemma_fec_roundtrip(data: Seq<u8>, mode: FecMode, parity: Seq<u8>)
    requires
        data.len() <= RS_DATA_BYTES,
        parity.len() == mode_parity(mode),
    ensures
        spec_decode_with_mode(pad_block(data).take(RS_DATA_BYTES as int) + parity, mode)
            == Ok::<Seq<u8>, AudioModemError>(data + zeros((RS_DATA_BYTES - data.len()) as nat)),
{
    let e = pad_block(data).take(RS_DATA_BYTES as int) + parity;
    assert(e.take(RS_DATA_BYTES as int) =~= data + zeros((RS_DATA_BYTES - data.len()) as nat));
}

} // verus!
