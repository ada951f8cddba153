//! The erasure code that parity shards are made with.
//!
//! A codec is made for `original` data shards and `recovery` parity shards of
//! `bytes` bytes each. The encoder takes the data shards in order and hands out
//! the parity shards; the decoder takes any of both and hands out the data
//! shards it was not given.

use crate::buffers;
use bytes::Bytes;
use reed_solomon_simd::{ReedSolomonDecoder, ReedSolomonEncoder};
use vstd::prelude::*;

verus! {

/// `reed_solomon_simd::ReedSolomonEncoder`.
#[verifier::external_type_specification]
#[verifier::external_body]
pub struct ExReedSolomonEncoder(reed_solomon_simd::ReedSolomonEncoder);

/// `reed_solomon_simd::ReedSolomonDecoder`.
#[verifier::external_type_specification]
#[verifier::external_body]
pub struct ExReedSolomonDecoder(reed_solomon_simd::ReedSolomonDecoder);

/// Why no codec can be made.
#[derive(Clone, Copy, Debug, PartialEq, Eq, Structural)]
pub enum CodecError {
    /// There are too many or too few shards.
    UnsupportedShardCount { original_count: usize, recovery_count: usize },
    /// The size of a shard is zero or odd.
    InvalidShardSize { shard_bytes: usize },
}

/// The smallest power of two that is at least `n`.
pub open spec fn next_power_of_two(n: nat) -> nat
    decreases n,
{
    if n <= 1 {
        1
    } else {
        2 * next_power_of_two(((n + 1) / 2) as nat)
    }
}

/// The shard counts that a codec can be made for.
pub open spec fn supported_counts(original: nat, recovery: nat) -> bool {
    let original_wide = next_power_of_two(original);
    let recovery_wide = next_power_of_two(recovery);
    let smaller_wide = if original_wide <= recovery_wide {
        original_wide
    } else {
        recovery_wide
    };
    let larger = if original >= recovery {
        original
    } else {
        recovery
    };
    &&& 0 < original <= 65536
    &&& 0 < recovery <= 65536
    &&& smaller_wide + larger <= 65536
}

/// The shard counts and the shard size that a codec can be made for.
pub open spec fn supported(original: nat, recovery: nat, bytes: nat) -> bool {
    &&& supported_counts(original, recovery)
    &&& bytes > 0
    &&& bytes % 2 == 0
}

/// Why no codec can be made for these counts and this size.
pub open spec fn refusal(original: usize, recovery: usize, bytes: usize) -> CodecError {
    if !supported_counts(original as nat, recovery as nat) {
        CodecError::UnsupportedShardCount { original_count: original, recovery_count: recovery }
    } else {
        CodecError::InvalidShardSize { shard_bytes: bytes }
    }
}

proof fn lemma_next_power_of_two_monotone(a: nat, b: nat)
    requires
        a <= b,
    ensures
        next_power_of_two(a) <= next_power_of_two(b),
        b <= next_power_of_two(b),
        1 <= next_power_of_two(b),
    decreases b,
{
    if b > 1 {
        let half = ((b + 1) / 2) as nat;
        if a > 1 {
            lemma_next_power_of_two_monotone(((a + 1) / 2) as nat, half);
        } else {
            lemma_next_power_of_two_monotone(0, half);
        }
    }
}

/// A codec that can be made for some number of parity shards can be made for
/// any smaller number of them.
pub proof fn narrower_is_supported(original: nat, wide: nat, narrow: nat, bytes: nat)
    requires
        supported(original, wide, bytes),
        0 < narrow <= wide,
    ensures
        supported(original, narrow, bytes),
{
    lemma_next_power_of_two_monotone(narrow, wide);
}

/// Data and parity shards together never outnumber the field.
pub proof fn supported_counts_fit(original: nat, recovery: nat, bytes: nat)
    requires
        supported(original, recovery, bytes),
    ensures
        original + recovery <= 65536,
{
    lemma_next_power_of_two_monotone(0, original);
    lemma_next_power_of_two_monotone(0, recovery);
    if original <= recovery {
        lemma_next_power_of_two_monotone(original, recovery);
    } else {
        lemma_next_power_of_two_monotone(recovery, original);
    }
}

/// The data shard count, the parity shard count and the shard size that an
/// encoder is set to.
pub uninterp spec fn encoder_shape(encoder: ReedSolomonEncoder) -> (nat, nat, nat);

/// The data shards that an encoder was given since it was made, reset or read.
pub uninterp spec fn encoder_shards(encoder: ReedSolomonEncoder) -> Seq<Seq<u8>>;

/// The parity shards of the data shards `original`.
pub uninterp spec fn recovery_shards(original: Seq<Seq<u8>>, recovery: nat) -> Seq<Seq<u8>>;

/// The data shard count, the parity shard count and the shard size that a
/// decoder is set to.
pub uninterp spec fn decoder_shape(decoder: ReedSolomonDecoder) -> (nat, nat, nat);

/// The shards that a decoder was given since it was made or read, by position:
/// data shards from zero, parity shards after the last data shard.
pub uninterp spec fn decoder_shards(decoder: ReedSolomonDecoder) -> Map<int, Seq<u8>>;

/// The data shard at `index` that a decoder of `original` data and `recovery`
/// parity shards restores from the shards `given`.
pub uninterp spec fn restored_shard(
    original: nat,
    recovery: nat,
    given: Map<int, Seq<u8>>,
    index: int,
) -> Seq<u8>;

/// The bytes of each vector of a list.
pub open spec fn shard_contents(shards: Seq<Vec<u8>>) -> Seq<Seq<u8>> {
    Seq::new(shards.len(), |i: int| shards[i]@)
}

/// Whether each of the shards `given`, by position, is that of the code word of
/// the data shards `data`.
pub open spec fn of_code_word(
    given: Map<int, Seq<u8>>,
    data: Seq<Seq<u8>>,
    recovery: nat,
) -> bool {
    forall|at: int| #[trigger]
        given.dom().contains(at) ==> {
            &&& 0 <= at < data.len() + recovery
            &&& given[at] == if at < data.len() {
                data[at]
            } else {
                recovery_shards(data, recovery)[at - data.len()]
            }
        }
}

/// Whether `restored` lists the data shards that `given` lacks, each once and in
/// ascending order.
pub open spec fn lists_missing(
    restored: Seq<(usize, Vec<u8>)>,
    original: nat,
    given: Map<int, Seq<u8>>,
) -> bool {
    &&& forall|i: int|
        0 <= i < restored.len() ==> (#[trigger] restored[i]).0 < original && !given.dom().contains(
            restored[i].0 as int,
        )
    &&& forall|i: int, j: int| 0 <= i < j < restored.len() ==> restored[i].0 < restored[j].0
    &&& forall|index: int|
        0 <= index < original && !#[trigger] given.dom().contains(index) ==> exists|i: int|
            0 <= i < restored.len() && (#[trigger] restored[i]).0 == index
}

/// `ReedSolomonEncoder::new`: succeeds exactly on the supported counts and
/// sizes, and starts with no shard.
#[verifier::external_body]
fn encoder_new(original: usize, recovery: usize, bytes: usize) -> (result: Option<
    ReedSolomonEncoder,
>)
    requires
        bytes <= u32::MAX,
    ensures
        result is Some <==> supported(original as nat, recovery as nat, bytes as nat),
        result matches Some(encoder) ==> {
            &&& encoder_shape(encoder) == (original as nat, recovery as nat, bytes as nat)
            &&& encoder_shards(encoder) == Seq::<Seq<u8>>::empty()
        },
{
    ReedSolomonEncoder::new(original, recovery, bytes).ok()
}

/// `ReedSolomonEncoder::supports`: whether there can be a codec for these counts.
#[verifier::external_body]
pub(crate) fn counts_supported(original: usize, recovery: usize) -> (result: bool)
    ensures
        result == supported_counts(original as nat, recovery as nat),
{
    ReedSolomonEncoder::supports(original, recovery)
}

/// An encoder for these counts and this size, or why there is none.
pub(crate) fn make_encoder(original: usize, recovery: usize, bytes: usize) -> (result: Result<
    ReedSolomonEncoder,
    CodecError,
>)
    requires
        bytes <= u32::MAX,
    ensures
        result is Ok <==> supported(original as nat, recovery as nat, bytes as nat),
        result matches Err(error) ==> error == refusal(original, recovery, bytes),
        result matches Ok(encoder) ==> {
            &&& encoder_shape(encoder) == (original as nat, recovery as nat, bytes as nat)
            &&& encoder_shards(encoder) == Seq::<Seq<u8>>::empty()
        },
{
    match encoder_new(original, recovery, bytes) {
        Some(encoder) => Ok(encoder),
        None => Err(why_refused(original, recovery, bytes)),
    }
}

/// A decoder for these counts and this size, or why there is none.
pub(crate) fn make_decoder(original: usize, recovery: usize, bytes: usize) -> (result: Result<
    ReedSolomonDecoder,
    CodecError,
>)
    requires
        bytes <= u32::MAX,
    ensures
        result is Ok <==> supported(original as nat, recovery as nat, bytes as nat),
        result matches Err(error) ==> error == refusal(original, recovery, bytes),
        result matches Ok(decoder) ==> {
            &&& decoder_shape(decoder) == (original as nat, recovery as nat, bytes as nat)
            &&& decoder_shards(decoder) == Map::<int, Seq<u8>>::empty()
        },
{
    match decoder_new(original, recovery, bytes) {
        Some(decoder) => Ok(decoder),
        None => Err(why_refused(original, recovery, bytes)),
    }
}

fn why_refused(original: usize, recovery: usize, bytes: usize) -> (error: CodecError)
    ensures
        error == refusal(original, recovery, bytes),
{
    if counts_supported(original, recovery) {
        CodecError::InvalidShardSize { shard_bytes: bytes }
    } else {
        CodecError::UnsupportedShardCount { original_count: original, recovery_count: recovery }
    }
}

/// `ReedSolomonEncoder::reset`: takes on a supported shape and forgets the
/// shards it was given.
#[verifier::external_body]
pub(crate) fn encoder_reset(
    encoder: &mut ReedSolomonEncoder,
    original: usize,
    recovery: usize,
    bytes: usize,
) -> (done: bool)
    requires
        supported(original as nat, recovery as nat, bytes as nat),
        bytes <= u32::MAX,
    ensures
        done,
        encoder_shape(*final(encoder)) == (original as nat, recovery as nat, bytes as nat),
        encoder_shards(*final(encoder)) == Seq::<Seq<u8>>::empty(),
{
    encoder.reset(original, recovery, bytes).is_ok()
}

/// `ReedSolomonEncoder::add_original_shard`: takes the next data shard, unless
/// it has them all or the size is wrong.
#[verifier::external_body]
pub(crate) fn encoder_add(encoder: &mut ReedSolomonEncoder, shard: &[u8]) -> (taken: bool)
    ensures
        encoder_shape(*final(encoder)) == encoder_shape(*old(encoder)),
        taken <==> encoder_shards(*old(encoder)).len() < encoder_shape(*old(encoder)).0
            && shard@.len() == encoder_shape(*old(encoder)).2,
        taken ==> encoder_shards(*final(encoder)) == encoder_shards(*old(encoder)).push(
            shard@,
        ),
        !taken ==> encoder_shards(*final(encoder)) == encoder_shards(*old(encoder)),
{
    encoder.add_original_shard(shard).is_ok()
}

/// `ReedSolomonEncoder::encode`, read out through `EncoderResult::recovery_iter`:
/// once every data shard was given, the parity shards in order, after which the
/// encoder holds no shard.
#[verifier::external_body]
pub(crate) fn encoder_encode(encoder: &mut ReedSolomonEncoder) -> (result: Option<
    Vec<Vec<u8>>,
>)
    ensures
        encoder_shape(*final(encoder)) == encoder_shape(*old(encoder)),
        result is Some <==> encoder_shards(*old(encoder)).len() == encoder_shape(*old(encoder)).0,
        result matches Some(shards) ==> {
            &&& shard_contents(shards@) == recovery_shards(
                encoder_shards(*old(encoder)),
                encoder_shape(*old(encoder)).1,
            )
            &&& shards@.len() == encoder_shape(*old(encoder)).1
            &&& forall|i: int|
                0 <= i < shards@.len() ==> (#[trigger] shards@[i])@.len() == encoder_shape(
                    *old(encoder),
                ).2
            &&& encoder_shards(*final(encoder)) == Seq::<Seq<u8>>::empty()
        },
        result is None ==> encoder_shards(*final(encoder)) == encoder_shards(*old(encoder)),
{
    match encoder.encode() {
        Ok(encoded) => Some(encoded.recovery_iter().map(|shard| shard.to_vec()).collect()),
        Err(_) => None,
    }
}

/// `ReedSolomonDecoder::new`: succeeds exactly on the supported counts and
/// sizes, and starts with no shard.
#[verifier::external_body]
fn decoder_new(original: usize, recovery: usize, bytes: usize) -> (result: Option<
    ReedSolomonDecoder,
>)
    requires
        bytes <= u32::MAX,
    ensures
        result is Some <==> supported(original as nat, recovery as nat, bytes as nat),
        result matches Some(decoder) ==> {
            &&& decoder_shape(decoder) == (original as nat, recovery as nat, bytes as nat)
            &&& decoder_shards(decoder) == Map::<int, Seq<u8>>::empty()
        },
{
    ReedSolomonDecoder::new(original, recovery, bytes).ok()
}

/// `ReedSolomonDecoder::add_original_shard`: takes the data shard at `index`,
/// unless there is no such shard, it was given before or its size is wrong.
#[verifier::external_body]
pub(crate) fn decoder_add_original(
    decoder: &mut ReedSolomonDecoder,
    index: usize,
    shard: &[u8],
) -> (taken: bool)
    requires
        index <= u16::MAX,
    ensures
        decoder_shape(*final(decoder)) == decoder_shape(*old(decoder)),
        taken <==> index < decoder_shape(*old(decoder)).0 && !decoder_shards(
            *old(decoder),
        ).dom().contains(index as int) && shard@.len() == decoder_shape(*old(decoder)).2,
        taken ==> decoder_shards(*final(decoder)) == decoder_shards(*old(decoder)).insert(
            index as int,
            shard@,
        ),
        !taken ==> decoder_shards(*final(decoder)) == decoder_shards(*old(decoder)),
{
    decoder.add_original_shard(index, shard).is_ok()
}

/// `ReedSolomonDecoder::add_recovery_shard`: takes the parity shard at `index`,
/// unless there is no such shard, it was given before or its size is wrong.
#[verifier::external_body]
pub(crate) fn decoder_add_recovery(
    decoder: &mut ReedSolomonDecoder,
    index: usize,
    shard: &[u8],
) -> (taken: bool)
    requires
        index <= u16::MAX,
    ensures
        decoder_shape(*final(decoder)) == decoder_shape(*old(decoder)),
        taken <==> index < decoder_shape(*old(decoder)).1 && !decoder_shards(
            *old(decoder),
        ).dom().contains(decoder_shape(*old(decoder)).0 + index) && shard@.len() == decoder_shape(
            *old(decoder),
        ).2,
        taken ==> decoder_shards(*final(decoder)) == decoder_shards(*old(decoder)).insert(
            decoder_shape(*old(decoder)).0 + index,
            shard@,
        ),
        !taken ==> decoder_shards(*final(decoder)) == decoder_shards(*old(decoder)),
{
    decoder.add_recovery_shard(index, shard).is_ok()
}

/// `ReedSolomonDecoder::decode`, read out through
/// `DecoderResult::restored_original_iter`: given as many shards as there are
/// data shards, it hands out every data shard it was not given, after which it
/// holds no shard. What it restores is what was encoded, whenever the shards it
/// was given belong to one code word.
#[verifier::external_body]
pub(crate) fn decoder_decode(decoder: &mut ReedSolomonDecoder) -> (result: Option<
    Vec<(usize, Vec<u8>)>,
>)
    ensures
        decoder_shape(*final(decoder)) == decoder_shape(*old(decoder)),
        result is Some <==> decoder_shards(*old(decoder)).dom().len() >= decoder_shape(
            *old(decoder),
        ).0,
        result matches Some(restored) ==> {
            let (original, recovery, bytes) = decoder_shape(*old(decoder));
            let given = decoder_shards(*old(decoder));
            &&& lists_missing(restored@, original, given)
            &&& forall|i: int|
                #![trigger restored@[i]]
                0 <= i < restored@.len() ==> restored@[i].1@.len() == bytes && restored@[i].1@
                    == restored_shard(original, recovery, given, restored@[i].0 as int)
            &&& forall|data: Seq<Seq<u8>>, i: int|
                data.len() == original && (forall|d: int|
                    0 <= d < original ==> (#[trigger] data[d]).len() == bytes)
                    && #[trigger] of_code_word(given, data, recovery) && 0 <= i < restored@.len()
                    ==> (#[trigger] restored@[i]).1@ == data[restored@[i].0 as int]
            &&& decoder_shards(*final(decoder)) == Map::<int, Seq<u8>>::empty()
        },
        result is None ==> decoder_shards(*final(decoder)) == decoder_shards(*old(decoder)),
{
    match decoder.decode() {
        Ok(decoded) => Some(
            decoded.restored_original_iter().map(|(index, shard)| (index, shard.to_vec())).collect(),
        ),
        Err(_) => None,
    }
}

/// The shards as shared buffers.
pub(crate) fn into_buffers(shards: Vec<Vec<u8>>) -> (buffers: Vec<Bytes>)
    ensures
        buffers@.len() == shards@.len(),
        buffers::contents(buffers@) == shard_contents(shards@),
{
    let mut buffers: Vec<Bytes> = Vec::new();
    let mut rest = shards;
    let ghost given = shards@;
    let mut at: usize = 0;
    while at < rest.len()
        invariant
            at <= rest@.len(),
            rest@.len() == given.len(),
            buffers@.len() == at,
            forall|i: int| at <= i < rest@.len() ==> rest@[i] == given[i],
            forall|i: int| 0 <= i < at ==> buffers::held(#[trigger] buffers@[i]) == given[i]@,
        decreases rest@.len() - at,
    {
        let mut shard: Vec<u8> = Vec::new();
        std::mem::swap(&mut shard, &mut rest[at]);
        buffers.push(buffers::buffer_of(shard));
        at += 1;
    }
    buffers
}

} // verus!
