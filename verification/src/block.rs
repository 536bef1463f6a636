//! The block codec adapter: bounds-checked single-shot compression and
//! decompression of one block, and the worst-case size query that every
//! caller uses before allocating a destination buffer.

use vstd::prelude::*;
use vstd::arithmetic::div_mod::{lemma_div_is_ordered, lemma_div_multiples_vanish};
use vstd::slice::slice_subrange;
use crate::backend::{
    block_compressed, block_decompressed, fresh_table, max_compressed_spec, raw_compress_into,
    raw_compress_with_table, raw_decompress_into, MAX_INPUT_SIZE,
};
use crate::{Error, Report};

verus! {

/// Compression effort requested for a block or a stream.
///
/// The block primitive applies a single compression strategy; the level is
/// recorded on the context for interface compatibility and reporting, and
/// does not change the bytes produced.
#[derive(Clone, Copy, Debug, PartialEq, Eq, Structural)]
pub enum CompressionLevel {
    Default,
    Min,
    Max,
    Custom(i32),
}

impl CompressionLevel {
    pub open spec fn spec_as_i32(self) -> i32 {
        match self {
            CompressionLevel::Default => 9,
            CompressionLevel::Min => 3,
            CompressionLevel::Max => 12,
            CompressionLevel::Custom(level) => level,
        }
    }

    pub fn as_i32(&self) -> (r: i32)
        ensures
            r == self.spec_as_i32(),
    {
        match self {
            CompressionLevel::Default => 9,
            CompressionLevel::Min => 3,
            CompressionLevel::Max => 12,
            CompressionLevel::Custom(level) => *level,
        }
    }
}

/// How a streaming compression call treats a destination that cannot hold
/// the whole compressed block: `Default` fails, `Partial` compresses the
/// longest source prefix whose worst-case compressed size fits.
#[derive(Clone, Copy, Debug, PartialEq, Eq, Structural)]
pub enum CompressionMode {
    Default,
    Partial,
}

/// An upper bound on the compressed size of any `a`-byte input, never
/// smaller than for a shorter input.
pub proof fn lemma_max_compressed_size_monotonic(a: nat, b: nat)
    requires
        a <= b,
    ensures
        max_compressed_spec(a) <= max_compressed_spec(b),
{
    assert(a * 110 <= b * 110) by (nonlinear_arith)
        requires
            a <= b,
    ;
    lemma_div_is_ordered((a * 110) as int, (b * 110) as int, 100);
}

/// The worst-case compressed size always exceeds the input length, so an
/// underestimate can never occur.
pub proof fn lemma_max_compressed_size_overestimates(n: nat)
    ensures
        max_compressed_spec(n) >= 20 + n,
{
    assert(n * 100 <= n * 110) by (nonlinear_arith);
    lemma_div_is_ordered((n * 100) as int, (n * 110) as int, 100);
    lemma_div_multiples_vanish(n as int, 100);
    assert((n * 100) as int == 100 * (n as int));
}

/// Worst-case compressed size for an `n`-byte input: a pure, non-failing
/// overestimate used to size destination buffers.
pub fn max_compressed_size(n: usize) -> (r: usize)
    requires
        n <= MAX_INPUT_SIZE,
    ensures
        r == max_compressed_spec(n as nat),
{
    proof {
        lemma_max_compressed_size_overestimates(n as nat);
    }
    let r: u64 = 20 + (n as u64) * 110 / 100;
    r as usize
}

/// Scratch state for single-shot block compression: a reusable hash table
/// created once and borrowed exclusively for the duration of one call.
pub struct ExtState {
    table: lz4_flex::block::CompressTable,
}

impl ExtState {
    pub fn new() -> Self {
        ExtState { table: fresh_table() }
    }
}

/// Compresses all of `src` into the start of `dst`, returning the number of
/// bytes written. Fails with `CodecFailure` exactly when `dst` is shorter
/// than `max_compressed_size(src.len())`, in which case `dst` is untouched.
pub fn compress(src: &[u8], dst: &mut Vec<u8>, level: CompressionLevel) -> (r: Result<usize, Error>)
    requires
        src@.len() <= MAX_INPUT_SIZE,
    ensures
        final(dst)@.len() == old(dst)@.len(),
        r is Ok <==> old(dst)@.len() >= max_compressed_spec(src@.len() as nat),
        r matches Ok(n) ==> {
            &&& n == block_compressed(src@, Seq::<u8>::empty()).len()
            &&& n <= max_compressed_spec(src@.len() as nat)
            &&& final(dst)@.take(n as int) == block_compressed(src@, Seq::<u8>::empty())
            &&& forall|cap: nat|
                cap >= src@.len() ==> #[trigger] block_decompressed(
                    block_compressed(src@, Seq::<u8>::empty()),
                    Seq::<u8>::empty(),
                    cap,
                ) == Some(src@)
        },
        r is Err ==> final(dst)@ == old(dst)@,
        r matches Err(e) ==> e == Error::CodecFailure,
{
    let _ = level.as_i32();
    let no_dict: Vec<u8> = Vec::new();
    raw_compress_into(src, dst, no_dict.as_slice())
}

/// Compresses all of `src` into the start of `dst` using caller-provided
/// scratch state instead of allocating a fresh table. The exact bytes may
/// differ from [`compress`], but every outcome decompresses back to `src`.
pub fn compress_ext_state(
    state: &mut ExtState,
    src: &[u8],
    dst: &mut Vec<u8>,
    level: CompressionLevel,
) -> (r: Result<usize, Error>)
    requires
        src@.len() <= MAX_INPUT_SIZE,
    ensures
        final(dst)@.len() == old(dst)@.len(),
        r is Ok <==> old(dst)@.len() >= max_compressed_spec(src@.len() as nat),
        r matches Ok(n) ==> {
            &&& n <= final(dst)@.len()
            &&& n <= max_compressed_spec(src@.len() as nat)
            &&& forall|cap: nat|
                cap >= src@.len() ==> #[trigger] block_decompressed(
                    final(dst)@.take(n as int),
                    Seq::<u8>::empty(),
                    cap,
                ) == Some(src@)
        },
        r is Err ==> final(dst)@ == old(dst)@,
        r matches Err(e) ==> e == Error::CodecFailure,
{
    let _ = level.as_i32();
    raw_compress_with_table(src, dst, &mut state.table)
}

/// The longest prefix length of an `src_len`-byte input whose worst-case
/// compressed size fits in `dst_len` bytes.
pub(crate) fn dest_size_prefix(src_len: usize, dst_len: usize) -> (n: usize)
    requires
        src_len <= MAX_INPUT_SIZE,
    ensures
        n <= src_len,
        dst_len >= 20 ==> max_compressed_spec(n as nat) <= dst_len,
        n < src_len ==> max_compressed_spec((n + 1) as nat) > dst_len,
        dst_len < 20 ==> n == 0,
{
    let mut n: usize = if src_len < dst_len {
        src_len
    } else {
        dst_len
    };
    proof {
        assert forall|m: nat| n < m && m <= src_len implies max_compressed_spec(m) > dst_len by {
            lemma_max_compressed_size_overestimates(m);
        }
    }
    while n > 0 && max_compressed_size(n) > dst_len
        invariant
            n <= src_len,
            src_len <= MAX_INPUT_SIZE,
            forall|m: nat| n < m && m <= src_len ==> #[trigger] max_compressed_spec(m) > dst_len,
        decreases n,
    {
        n = n - 1;
    }
    proof {
        lemma_max_compressed_size_overestimates(0);
        if n == 0 && dst_len >= 20 {
            assert(max_compressed_spec(0) == 20);
        }
    }
    n
}

/// Partial-mode compression: compresses the longest source prefix whose
/// worst-case compressed size fits in `dst`, reporting both how many source
/// bytes were consumed and how many destination bytes were produced. Fails
/// with `CodecFailure` exactly when `dst` cannot hold even an empty block,
/// in which case `dst` is untouched.
pub fn compress_dest_size(
    state: &mut ExtState,
    src: &[u8],
    dst: &mut Vec<u8>,
    level: CompressionLevel,
) -> (r: Result<Report, Error>)
    requires
        src@.len() <= MAX_INPUT_SIZE,
    ensures
        final(dst)@.len() == old(dst)@.len(),
        r is Ok <==> old(dst)@.len() >= 20,
        r matches Ok(rep) ==> {
            &&& rep.src_len <= src@.len()
            &&& max_compressed_spec(rep.src_len as nat) <= old(dst)@.len()
            &&& rep.src_len < src@.len() ==> max_compressed_spec((rep.src_len + 1) as nat) > old(
                dst,
            )@.len()
            &&& rep.dst_len <= final(dst)@.len()
            &&& forall|cap: nat|
                cap >= rep.src_len ==> #[trigger] block_decompressed(
                    final(dst)@.take(rep.dst_len as int),
                    Seq::<u8>::empty(),
                    cap,
                ) == Some(src@.take(rep.src_len as int))
        },
        r is Err ==> final(dst)@ == old(dst)@,
        r matches Err(e) ==> e == Error::CodecFailure,
{
    let n = dest_size_prefix(src.len(), dst.len());
    let prefix = slice_subrange(src, 0, n);
    match raw_compress_with_table(prefix, dst, &mut state.table) {
        Ok(written) => Ok(Report { dst_len: written, src_len: n }),
        Err(e) => Err(e),
    }
}

/// Decompresses the block `src` into the start of `dst` (whose length caps
/// the output), returning the number of bytes recovered. Fails with
/// `CodecFailure` exactly when `src` is not a valid block for an empty
/// history or its content does not fit in `dst`.
pub fn decompress(src: &[u8], dst: &mut Vec<u8>) -> (r: Result<usize, Error>)
    ensures
        final(dst)@.len() == old(dst)@.len(),
        r is Ok <==> block_decompressed(src@, Seq::<u8>::empty(), old(dst)@.len() as nat) is Some,
        r matches Ok(n) ==> {
            &&& n <= final(dst)@.len()
            &&& block_decompressed(src@, Seq::<u8>::empty(), old(dst)@.len() as nat) == Some(
                final(dst)@.take(n as int),
            )
        },
        r matches Err(e) ==> e == Error::CodecFailure,
{
    let no_dict: Vec<u8> = Vec::new();
    raw_decompress_into(src, dst, no_dict.as_slice())
}

/// Decompresses the block `src` against the history window `dict` into the
/// start of `dst`, returning the number of bytes recovered.
pub fn decompress_with_dict(src: &[u8], dst: &mut Vec<u8>, dict: &[u8]) -> (r: Result<
    usize,
    Error,
>)
    ensures
        final(dst)@.len() == old(dst)@.len(),
        r is Ok <==> block_decompressed(src@, dict@, old(dst)@.len() as nat) is Some,
        r matches Ok(n) ==> {
            &&& n <= final(dst)@.len()
            &&& block_decompressed(src@, dict@, old(dst)@.len() as nat) == Some(
                final(dst)@.take(n as int),
            )
        },
        r matches Err(e) ==> e == Error::CodecFailure,
{
    raw_decompress_into(src, dst, dict)
}

} // verus!
