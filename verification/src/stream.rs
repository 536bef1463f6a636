//! The streaming compressor: a private context that carries the codec's
//! history window across calls, and the `Compressor` built on it.

use vstd::prelude::*;
use crate::backend::{
    block_compressed, block_decompressed, max_compressed_spec, raw_compress_into, MAX_INPUT_SIZE,
};
use crate::block::{max_compressed_size, CompressionLevel, CompressionMode};
use crate::buffer::{append_range, window, window_concat};
use crate::{Error, Report};

verus! {

/// Mutable state owned by exactly one stream: the history window the codec
/// references between calls, and the configured effort. The context owns a
/// copy of the recent source bytes, so the history stays alive and
/// unmodified until the next call supersedes it.
pub struct CompressionContext {
    hist: Vec<u8>,
    level: i32,
    favor_dec_speed: bool,
}

impl CompressionContext {
    /// The history window the next block will be compressed against.
    pub closed spec fn history(self) -> Seq<u8> {
        self.hist@
    }

    pub closed spec fn level_spec(self) -> i32 {
        self.level
    }

    /// The history never outgrows the codec's window.
    pub closed spec fn wf(self) -> bool {
        self.hist@.len() <= crate::buffer::WINDOW_SIZE
    }

    /// Creates a context with empty history. The backing storage is a
    /// growable private buffer, so construction itself cannot be rejected.
    pub fn new() -> (r: Result<Self, Error>)
        ensures
            r matches Ok(c) && c.history() == Seq::<u8>::empty() && c.level_spec() == 9 && c.wf(),
    {
        Ok(CompressionContext { hist: Vec::new(), level: 9, favor_dec_speed: false })
    }

    pub fn set_compression_level(&mut self, level: i32)
        ensures
            final(self).history() == old(self).history(),
            final(self).level_spec() == level,
            final(self).wf() == old(self).wf(),
    {
        self.level = level;
    }

    pub fn set_favor_dec_speed(&mut self, flag: bool)
        ensures
            final(self).history() == old(self).history(),
            final(self).level_spec() == old(self).level_spec(),
            final(self).wf() == old(self).wf(),
    {
        self.favor_dec_speed = flag;
    }

    /// Reinitializes the history without touching the allocation.
    pub fn reset(&mut self, level: i32)
        ensures
            final(self).history() == Seq::<u8>::empty(),
            final(self).level_spec() == level,
            final(self).wf(),
    {
        self.hist.clear();
        self.level = level;
    }

    /// Preloads the dictionary as history: the codec will see its trailing
    /// window exactly as if those bytes had just been compressed.
    pub fn load_dict(&mut self, dict: &[u8])
        requires
            dict@.len() <= usize::MAX,
        ensures
            final(self).history() == window(dict@),
            final(self).level_spec() == old(self).level_spec(),
            final(self).wf(),
    {
        let empty: Vec<u8> = Vec::new();
        let mut d: Vec<u8> = Vec::new();
        append_range(&mut d, dict, 0, dict.len());
        proof {
            assert(d@ =~= dict@);
            assert(empty@ + d@ =~= dict@);
        }
        self.hist = window_concat(&empty, &d);
    }

    /// Compresses all of `src` into the start of `dst` against the current
    /// history, then extends the history with `src`. Fails exactly when
    /// `dst` is shorter than the worst-case compressed size; the context
    /// and `dst` are then unchanged.
    pub fn next(&mut self, src: &[u8], dst: &mut Vec<u8>) -> (r: Result<Report, Error>)
        requires
            src@.len() <= MAX_INPUT_SIZE,
            old(self).wf(),
        ensures
            final(self).wf(),
            final(self).level_spec() == old(self).level_spec(),
            final(dst)@.len() == old(dst)@.len(),
            r is Ok <==> old(dst)@.len() >= max_compressed_spec(src@.len() as nat),
            r matches Ok(rep) ==> {
                &&& rep.src_len == src@.len()
                &&& rep.dst_len <= final(dst)@.len()
                &&& rep.dst_len == block_compressed(src@, old(self).history()).len()
                &&& final(dst)@.take(rep.dst_len as int) == block_compressed(
                    src@,
                    old(self).history(),
                )
                &&& final(self).history() == window(old(self).history() + src@)
                &&& forall|cap: nat|
                    cap >= src@.len() ==> #[trigger] block_decompressed(
                        block_compressed(src@, old(self).history()),
                        old(self).history(),
                        cap,
                    ) == Some(src@)
            },
            r is Err ==> final(dst)@ == old(dst)@ && *final(self) == *old(self),
            r matches Err(e) ==> e == Error::CodecFailure,
    {
        match raw_compress_into(src, dst, self.hist.as_slice()) {
            Ok(n) => {
                let mut s: Vec<u8> = Vec::new();
                append_range(&mut s, src, 0, src.len());
                proof {
                    assert(s@ =~= src@);
                }
                self.hist = window_concat(&self.hist, &s);
                Ok(Report { dst_len: n, src_len: src.len() })
            },
            Err(e) => Err(e),
        }
    }

    /// Partial-mode variant: compresses the longest source prefix whose
    /// worst-case compressed size fits in `dst`, and extends the history
    /// with exactly the consumed prefix. Fails exactly when `dst` cannot
    /// hold even an empty block.
    pub fn next_partial(&mut self, src: &[u8], dst: &mut Vec<u8>) -> (r: Result<Report, Error>)
        requires
            src@.len() <= MAX_INPUT_SIZE,
            old(self).wf(),
        ensures
            final(self).wf(),
            final(self).level_spec() == old(self).level_spec(),
            final(dst)@.len() == old(dst)@.len(),
            r is Ok <==> old(dst)@.len() >= 20,
            r matches Ok(rep) ==> {
                &&& rep.src_len <= src@.len()
                &&& rep.dst_len <= final(dst)@.len()
                &&& max_compressed_spec(rep.src_len as nat) <= old(dst)@.len()
                &&& rep.src_len < src@.len() ==> max_compressed_spec((rep.src_len + 1) as nat)
                    > old(dst)@.len()
                &&& rep.dst_len == block_compressed(
                    src@.take(rep.src_len as int),
                    old(self).history(),
                ).len()
                &&& final(dst)@.take(rep.dst_len as int) == block_compressed(
                    src@.take(rep.src_len as int),
                    old(self).history(),
                )
                &&& final(self).history() == window(
                    old(self).history() + src@.take(rep.src_len as int),
                )
                &&& forall|cap: nat|
                    cap >= rep.src_len ==> #[trigger] block_decompressed(
                        block_compressed(src@.take(rep.src_len as int), old(self).history()),
                        old(self).history(),
                        cap,
                    ) == Some(src@.take(rep.src_len as int))
            },
            r is Err ==> final(dst)@ == old(dst)@ && *final(self) == *old(self),
            r matches Err(e) ==> e == Error::CodecFailure,
    {
        let n = crate::block::dest_size_prefix(src.len(), dst.len());
        let prefix = vstd::slice::slice_subrange(src, 0, n);
        match raw_compress_into(prefix, dst, self.hist.as_slice()) {
            Ok(written) => {
                let mut s: Vec<u8> = Vec::new();
                append_range(&mut s, src, 0, n);
                proof {
                    assert(s@ =~= src@.take(n as int));
                }
                self.hist = window_concat(&self.hist, &s);
                Ok(Report { dst_len: written, src_len: n })
            },
            Err(e) => Err(e),
        }
    }
}

/// The streaming compressor: one source chunk in, one compressed block out
/// per call, with history preserved across calls for better ratio.
pub struct Compressor {
    ctx: CompressionContext,
    compression_level: CompressionLevel,
    dict: Vec<u8>,
}

impl Compressor {
    /// The history window the next block will be compressed against.
    pub closed spec fn history(self) -> Seq<u8> {
        self.ctx.history()
    }

    /// The dictionary most recently installed by `reset_with_dict`.
    pub closed spec fn dict_view(self) -> Seq<u8> {
        self.dict@
    }

    pub closed spec fn level_of(self) -> CompressionLevel {
        self.compression_level
    }

    pub closed spec fn wf(self) -> bool {
        self.ctx.wf()
    }

    pub fn new() -> (r: Result<Self, Error>)
        ensures
            r matches Ok(c) && c.history() == Seq::<u8>::empty() && c.dict_view()
                == Seq::<u8>::empty() && c.level_of() == CompressionLevel::Default && c.wf(),
    {
        match CompressionContext::new() {
            Ok(ctx) => Ok(
                Compressor {
                    ctx,
                    compression_level: CompressionLevel::Default,
                    dict: Vec::new(),
                },
            ),
            Err(e) => Err(e),
        }
    }

    pub fn set_compression_level(&mut self, level: CompressionLevel)
        ensures
            final(self).history() == old(self).history(),
            final(self).dict_view() == old(self).dict_view(),
            final(self).level_of() == level,
            final(self).wf() == old(self).wf(),
    {
        self.compression_level = level;
        let raw = level.as_i32();
        self.ctx.set_compression_level(raw);
    }

    pub fn set_favor_dec_speed(&mut self, flag: bool)
        ensures
            final(self).history() == old(self).history(),
            final(self).dict_view() == old(self).dict_view(),
            final(self).level_of() == old(self).level_of(),
            final(self).wf() == old(self).wf(),
    {
        self.ctx.set_favor_dec_speed(flag);
    }

    /// Starts a fresh stream: history is discarded, the level is kept.
    pub fn reset(&mut self)
        ensures
            final(self).history() == Seq::<u8>::empty(),
            final(self).dict_view() == old(self).dict_view(),
            final(self).level_of() == old(self).level_of(),
            final(self).wf(),
    {
        let raw = self.compression_level.as_i32();
        self.ctx.reset(raw);
    }

    /// Starts a fresh stream preloaded with `dict`: an empty dictionary is
    /// equivalent to a plain `reset`, a non-empty one becomes the initial
    /// history window and is retained for the stream's lifetime.
    pub fn reset_with_dict(&mut self, dict: &[u8])
        requires
            dict@.len() <= usize::MAX,
        ensures
            final(self).history() == window(dict@),
            final(self).dict_view() == dict@,
            final(self).level_of() == old(self).level_of(),
            final(self).wf(),
    {
        if dict.len() == 0 {
            self.reset();
            proof {
                assert(window(dict@) =~= Seq::<u8>::empty());
            }
        } else {
            self.ctx.load_dict(dict);
        }
        let mut d: Vec<u8> = Vec::new();
        append_range(&mut d, dict, 0, dict.len());
        proof {
            assert(d@ =~= dict@);
        }
        self.dict = d;
    }

    /// Compresses one source chunk into the start of `dst` and preserves it
    /// as history for the next call. In `Default` mode the whole chunk is
    /// consumed or the call fails; in `Partial` mode the longest prefix
    /// whose worst-case compressed size fits is consumed. The report gives
    /// both counts. On failure `dst` and the stream are unchanged.
    pub fn next(&mut self, src: &[u8], dst: &mut Vec<u8>, mode: CompressionMode) -> (r: Result<
        Report,
        Error,
    >)
        requires
            src@.len() <= MAX_INPUT_SIZE,
            old(self).wf(),
        ensures
            final(self).wf(),
            final(self).dict_view() == old(self).dict_view(),
            final(self).level_of() == old(self).level_of(),
            final(dst)@.len() == old(dst)@.len(),
            mode == CompressionMode::Default ==> (r is Ok <==> old(dst)@.len()
                >= max_compressed_spec(src@.len() as nat)),
            mode == CompressionMode::Partial ==> (r is Ok <==> old(dst)@.len() >= 20),
            r matches Ok(rep) ==> {
                &&& rep.src_len <= src@.len()
                &&& rep.dst_len <= final(dst)@.len()
                &&& mode == CompressionMode::Default ==> rep.src_len == src@.len()
                &&& rep.src_len < src@.len() ==> max_compressed_spec((rep.src_len + 1) as nat)
                    > old(dst)@.len()
                &&& rep.dst_len == block_compressed(
                    src@.take(rep.src_len as int),
                    old(self).history(),
                ).len()
                &&& final(dst)@.take(rep.dst_len as int) == block_compressed(
                    src@.take(rep.src_len as int),
                    old(self).history(),
                )
                &&& final(self).history() == window(
                    old(self).history() + src@.take(rep.src_len as int),
                )
                &&& forall|cap: nat|
                    cap >= rep.src_len ==> #[trigger] block_decompressed(
                        block_compressed(src@.take(rep.src_len as int), old(self).history()),
                        old(self).history(),
                        cap,
                    ) == Some(src@.take(rep.src_len as int))
            },
            r is Err ==> final(dst)@ == old(dst)@ && *final(self) == *old(self),
            r matches Err(e) ==> e == Error::CodecFailure,
    {
        match mode {
            CompressionMode::Default => {
                let r = self.ctx.next(src, dst);
                proof {
                    if r is Ok {
                        assert(src@.take(src@.len() as int) =~= src@);
                    }
                }
                r
            },
            CompressionMode::Partial => self.ctx.next_partial(src, dst),
        }
    }

    /// Grow-then-truncate append: reserves worst-case room, compresses one
    /// chunk, and appends exactly the confirmed bytes to `dst`, so no byte
    /// past the returned length is ever exposed. The destination always
    /// suffices, so the whole chunk is consumed in either mode.
    pub fn next_to_vec(&mut self, src: &[u8], dst: &mut Vec<u8>, mode: CompressionMode) -> (r:
        Result<Report, Error>)
        requires
            src@.len() <= MAX_INPUT_SIZE,
            old(self).wf(),
        ensures
            final(self).wf(),
            final(self).dict_view() == old(self).dict_view(),
            final(self).level_of() == old(self).level_of(),
            r is Ok,
            r matches Ok(rep) ==> {
                &&& rep.src_len == src@.len()
                &&& rep.dst_len <= final(dst)@.len()
                &&& rep.dst_len == block_compressed(src@, old(self).history()).len()
                &&& final(dst)@ == old(dst)@ + block_compressed(src@, old(self).history())
                &&& final(self).history() == window(old(self).history() + src@)
            },
            r is Err ==> final(dst)@ == old(dst)@,
    {
        let cap = max_compressed_size(src.len());
        let mut scratch: Vec<u8> = Vec::new();
        scratch.resize(cap, 0u8);
        proof {
            crate::block::lemma_max_compressed_size_overestimates(src@.len() as nat);
        }
        let r = self.next(src, &mut scratch, mode);
        match r {
            Ok(rep) => {
                proof {
                    assert(src@.take(rep.src_len as int) =~= src@);
                    assert(scratch@.subrange(0, rep.dst_len as int) == scratch@.take(
                        rep.dst_len as int,
                    ));
                }
                append_range(dst, scratch.as_slice(), 0, rep.dst_len);
                Ok(rep)
            },
            Err(e) => Err(e),
        }
    }
}

} // verus!
