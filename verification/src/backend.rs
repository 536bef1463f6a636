//! Trusted bindings to the block-oriented compression primitive and the
//! checksum primitive. Everything else in the crate is verified against the
//! contracts stated here.

use vstd::prelude::*;
use crate::Error;

verus! {

/// The bytes that the block primitive produces when compressing `src`
/// against the history window `dict`.
pub uninterp spec fn block_compressed(src: Seq<u8>, dict: Seq<u8>) -> Seq<u8>;

/// The outcome of decompressing `src` against the history window `dict`
/// into a destination of `cap` bytes: the recovered bytes, or `None` when
/// `src` is not a valid block or does not fit in `cap` bytes.
pub uninterp spec fn block_decompressed(src: Seq<u8>, dict: Seq<u8>, cap: nat) -> Option<Seq<u8>>;

/// The 32-bit checksum of `data` under `seed`.
pub uninterp spec fn xxh32_of(seed: u32, data: Seq<u8>) -> u32;

/// Worst-case compressed size for an input of `n` bytes, as guaranteed by
/// the block primitive: every compressed block fits in this many bytes.
pub open spec fn max_compressed_spec(n: nat) -> nat {
    20 + (n * 110) / 100
}

/// Inputs above this size are not accepted by the codec layer; it keeps all
/// size arithmetic comfortably inside `u32`/`usize` range.
pub const MAX_INPUT_SIZE: usize = 0x7E00_0000;

/// Relies on lz4_flex::block::compress_into_with_dict: it succeeds exactly
/// when the destination holds get_maximum_output_size(src.len()) bytes
/// (its first step rejects anything smaller and nothing is written), the
/// compressed bytes are a function of `src` and `dict` alone, and
/// decompressing them with the same `dict` into any large enough buffer
/// returns `src`. Bytes of `dst` past the returned count may be used as
/// scratch space, so only the prefix is described.
#[verifier::external_body]
pub(crate) fn raw_compress_into(src: &[u8], dst: &mut Vec<u8>, dict: &[u8]) -> (r: Result<
    usize,
    Error,
>)
    requires
        src@.len() <= MAX_INPUT_SIZE,
    ensures
        final(dst)@.len() == old(dst)@.len(),
        r matches Ok(n) ==> {
            &&& n <= final(dst)@.len()
            &&& n == block_compressed(src@, dict@).len()
            &&& n <= max_compressed_spec(src@.len() as nat)
            &&& final(dst)@.take(n as int) == block_compressed(src@, dict@)
            &&& forall|cap: nat|
                cap >= src@.len() ==> #[trigger] block_decompressed(
                    block_compressed(src@, dict@),
                    dict@,
                    cap,
                ) == Some(src@)
        },
        r is Ok <==> old(dst)@.len() >= max_compressed_spec(src@.len() as nat),
        r is Err ==> final(dst)@ == old(dst)@,
        r matches Err(e) ==> e == Error::CodecFailure,
{
    match lz4_flex::block::compress_into_with_dict(src, dst.as_mut_slice(), dict) {
        Ok(n) => Ok(n),
        Err(_) => Err(Error::CodecFailure),
    }
}

/// Relies on lz4_flex::block::decompress_into_with_dict: success and the
/// recovered bytes are a function of `src`, `dict` and the destination
/// length alone. On failure the destination may hold partial scratch data,
/// but its length is unchanged.
#[verifier::external_body]
pub(crate) fn raw_decompress_into(src: &[u8], dst: &mut Vec<u8>, dict: &[u8]) -> (r: Result<
    usize,
    Error,
>)
    ensures
        final(dst)@.len() == old(dst)@.len(),
        r matches Ok(n) ==> {
            &&& n <= final(dst)@.len()
            &&& block_decompressed(src@, dict@, old(dst)@.len() as nat) == Some(
                final(dst)@.take(n as int),
            )
        },
        r is Ok <==> block_decompressed(src@, dict@, old(dst)@.len() as nat) is Some,
        r matches Err(e) ==> e == Error::CodecFailure,
{
    match lz4_flex::block::decompress_into_with_dict(src, dst.as_mut_slice(), dict) {
        Ok(n) => Ok(n),
        Err(_) => Err(Error::CodecFailure),
    }
}

/// Relies on twox_hash::XxHash32::oneshot: the checksum is a function of the
/// seed and the bytes alone.
#[verifier::external_body]
pub(crate) fn xxh32(seed: u32, data: &[u8]) -> (r: u32)
    ensures
        r == xxh32_of(seed, data@),
{
    twox_hash::XxHash32::oneshot(seed, data)
}

#[verifier::external_type_specification]
#[verifier::external_body]
pub struct ExCompressTable(lz4_flex::block::CompressTable);

/// Relies on lz4_flex::block::CompressTable::large: allocates a reusable
/// compression hash table sized for inputs of any length.
#[verifier::external_body]
pub(crate) fn fresh_table() -> lz4_flex::block::CompressTable {
    lz4_flex::block::CompressTable::large()
}

/// Relies on lz4_flex::block::compress_into_with_table: the table is cleared
/// on entry and serves as scratch memory only, so every outcome is a valid
/// block that decompresses (with no history) back to `src`; it succeeds
/// exactly when the destination holds get_maximum_output_size(src.len())
/// bytes, and on failure nothing is written.
#[verifier::external_body]
pub(crate) fn raw_compress_with_table(
    src: &[u8],
    dst: &mut Vec<u8>,
    table: &mut lz4_flex::block::CompressTable,
) -> (r: Result<usize, Error>)
    requires
        src@.len() <= MAX_INPUT_SIZE,
    ensures
        final(dst)@.len() == old(dst)@.len(),
        r matches Ok(n) ==> {
            &&& n <= final(dst)@.len()
            &&& n <= max_compressed_spec(src@.len() as nat)
            &&& forall|cap: nat|
                cap >= src@.len() ==> #[trigger] block_decompressed(
                    final(dst)@.take(n as int),
                    Seq::<u8>::empty(),
                    cap,
                ) == Some(src@)
        },
        r is Ok <==> old(dst)@.len() >= max_compressed_spec(src@.len() as nat),
        r is Err ==> final(dst)@ == old(dst)@,
        r matches Err(e) ==> e == Error::CodecFailure,
{
    match lz4_flex::block::compress_into_with_table(src, dst.as_mut_slice(), table) {
        Ok(n) => Ok(n),
        Err(_) => Err(Error::CodecFailure),
    }
}

} // verus!
