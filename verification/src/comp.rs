//! The streaming frame encoder: emits the header once, then one block
//! record per call, and closes the frame with the end mark and trailing
//! checks. Its contracts guarantee that the emitted bytes decode back to
//! exactly the bytes it was fed.

use vstd::prelude::*;
use vstd::bytes::{spec_u32_to_le_bytes, u32_to_le_bytes};
use vstd::slice::slice_subrange;
use crate::backend::{
    block_compressed, block_decompressed, max_compressed_spec, raw_compress_into, xxh32,
};
use crate::block::{lemma_max_compressed_size_monotonic, max_compressed_size};
use crate::buffer::{append_range, window_concat};
use crate::frame::{
    block_hist, chk_bytes, content_size_ok, decode_stream, end_bytes, header_bytes, info_wf,
    lemma_frame_decodes, lemma_records_snoc, record_bytes, records_decode, write_header, Decoded,
    FrameInfo,
};
use crate::{Error, Report};

verus! {

/// A streaming frame encoder. It retains the fed bytes: they are the
/// history window for linked blocks and the input of the trailing content
/// checksum.
pub struct FrameCompressor {
    info: FrameInfo,
    dict: Vec<u8>,
    content: Vec<u8>,
    started: bool,
    finished: bool,
    emitted: Ghost<Seq<u8>>,
}

impl FrameCompressor {
    /// The frame configuration this encoder writes.
    pub closed spec fn info_spec(self) -> FrameInfo {
        self.info
    }

    /// Every source byte accepted so far.
    pub closed spec fn payload(self) -> Seq<u8> {
        self.content@
    }

    /// Every frame byte emitted so far.
    pub closed spec fn emitted(self) -> Seq<u8> {
        self.emitted@
    }

    pub closed spec fn dict_view(self) -> Seq<u8> {
        self.dict@
    }

    pub closed spec fn is_started(self) -> bool {
        self.started
    }

    pub closed spec fn is_finished(self) -> bool {
        self.finished
    }

    /// The emitted bytes are always a valid frame prefix: the header, then
    /// a run of complete block records decoding to exactly the payload.
    pub closed spec fn wf(self) -> bool {
        &&& info_wf(self.info)
        &&& (self.started && !self.finished ==> {
            &&& self.emitted@.len() >= header_bytes(self.info).len()
            &&& self.emitted@.take(header_bytes(self.info).len() as int) == header_bytes(self.info)
            &&& records_decode(
                self.emitted@.skip(header_bytes(self.info).len() as int),
                self.dict@,
                Seq::<u8>::empty(),
                self.info,
            ) == Some(self.content@)
        })
        &&& (!self.started ==> self.emitted@ == Seq::<u8>::empty() && self.content@
            == Seq::<u8>::empty())
        &&& (self.finished ==> self.started)
    }

    /// Creates an encoder for one frame. Succeeds exactly when the
    /// configuration names one of the defined block sizes.
    pub fn new(info: FrameInfo, dict: &[u8]) -> (r: Result<Self, Error>)
        ensures
            r is Ok <==> info_wf(info),
            r matches Ok(c) ==> {
                &&& c.wf()
                &&& c.info_spec() == info
                &&& c.dict_view() == dict@
                &&& c.payload() == Seq::<u8>::empty()
                &&& c.emitted() == Seq::<u8>::empty()
                &&& !c.is_started()
                &&& !c.is_finished()
            },
            r matches Err(e) ==> e == Error::FrameFormatError,
    {
        if !(info.block_max_size == 65536 || info.block_max_size == 262144
            || info.block_max_size == 1048576 || info.block_max_size == 4194304) {
            return Err(Error::FrameFormatError);
        }
        let mut d: Vec<u8> = Vec::new();
        append_range(&mut d, dict, 0, dict.len());
        proof {
            assert(d@ =~= dict@);
        }
        Ok(
            FrameCompressor {
                info,
                dict: d,
                content: Vec::new(),
                started: false,
                finished: false,
                emitted: Ghost(Seq::<u8>::empty()),
            },
        )
    }

    /// Appends one block record for `src` (prefixed by the header on the
    /// first call) to `out`. The record holds `src` stored verbatim when
    /// compression would not shrink it, its compressed form otherwise;
    /// either way the emitted frame still decodes to exactly the payload.
    /// Fails exactly when the frame is already finished or `src` exceeds
    /// the negotiated block size, leaving everything unchanged.
    #[verifier::rlimit(100)]
    pub fn next(&mut self, src: &[u8], out: &mut Vec<u8>) -> (r: Result<Report, Error>)
        requires
            old(self).wf(),
        ensures
            final(self).wf(),
            final(self).info_spec() == old(self).info_spec(),
            final(self).dict_view() == old(self).dict_view(),
            final(self).is_finished() == old(self).is_finished(),
            r is Ok <==> !old(self).is_finished() && src@.len() <= old(
                self,
            ).info_spec().block_max_size,
            r matches Ok(rep) ==> ({
                let delta = (if old(self).is_started() {
                    Seq::<u8>::empty()
                } else {
                    header_bytes(old(self).info_spec())
                }) + record_bytes(
                    src@,
                    block_hist(
                        old(self).info_spec(),
                        old(self).dict_view(),
                        old(self).payload(),
                    ),
                    old(self).info_spec(),
                );
                &&& final(self).is_started()
                &&& final(self).payload() == old(self).payload() + src@
                &&& final(self).emitted() == old(self).emitted() + delta
                &&& final(out)@ == old(out)@ + delta
                &&& rep.src_len == src@.len()
                &&& rep.dst_len == delta.len()
            }),
            r is Err ==> final(out)@ == old(out)@ && *final(self) == *old(self),
            r matches Err(e) ==> e == Error::CodecFailure,
    {
        if self.finished {
            return Err(Error::CodecFailure);
        }
        if src.len() > self.info.block_max_size as usize {
            return Err(Error::CodecFailure);
        }
        let ghost old_out = out@;
        let ghost old_content = self.content@;
        let ghost old_emitted = self.emitted@;
        let ghost old_started = self.started;
        let was_started = self.started;
        if !self.started {
            write_header(&self.info, out);
            self.emitted = Ghost(self.emitted@ + header_bytes(self.info));
            self.started = true;
            proof {
                assert(self.emitted@.take(header_bytes(self.info).len() as int) =~= header_bytes(
                    self.info,
                ));
                assert(self.emitted@.skip(header_bytes(self.info).len() as int)
                    =~= Seq::<u8>::empty());
            }
        }
        let ghost recs = self.emitted@.skip(header_bytes(self.info).len() as int);
        let empty: Vec<u8> = Vec::new();
        let hist: Vec<u8> = if self.info.block_independent {
            window_concat(&empty, &self.dict)
        } else {
            window_concat(&self.dict, &self.content)
        };
        proof {
            assert(empty@ + self.dict@ =~= self.dict@);
            assert(hist@ == block_hist(self.info, self.dict@, self.content@));
        }
        let bound = max_compressed_size(src.len());
        let mut scratch: Vec<u8> = Vec::new();
        scratch.resize(bound, 0u8);
        let n: usize;
        match raw_compress_into(src, &mut scratch, hist.as_slice()) {
            Ok(written) => {
                n = written;
            },
            Err(_) => {
                proof {
                    assert(false);
                }
                return Err(Error::CodecFailure);
            },
        }
        proof {
            lemma_max_compressed_size_monotonic(src@.len() as nat, 4194304nat);
            assert(max_compressed_spec(4194304nat) < 0x80000000);
            assert(n < 0x80000000);
        }
        let ghost c = block_compressed(src@, hist@);
        let stored = n == 0 || n >= src.len();
        let szv: u32 = if stored {
            (src.len() as u32) + 0x80000000u32
        } else {
            n as u32
        };
        let ghost out_hdr = out@;
        let pos0 = out.len();
        let szb = u32_to_le_bytes(szv);
        append_range(out, szb.as_slice(), 0, 4);
        if stored {
            append_range(out, src, 0, src.len());
            if self.info.block_checksum {
                let ck = xxh32(0, src);
                let ckb = u32_to_le_bytes(ck);
                append_range(out, ckb.as_slice(), 0, 4);
            }
        } else {
            append_range(out, scratch.as_slice(), 0, n);
            if self.info.block_checksum {
                let data = slice_subrange(scratch.as_slice(), 0, n);
                let ck = xxh32(0, data);
                let ckb = u32_to_le_bytes(ck);
                append_range(out, ckb.as_slice(), 0, 4);
            }
        }
        proof {
            assert(c == scratch@.take(n as int));
            assert(c.len() == n);
            let rb = record_bytes(src@, hist@, self.info);
            if stored {
                assert(c.len() == 0 || c.len() >= src@.len());
                assert(rb == spec_u32_to_le_bytes(szv) + src@ + chk_bytes(self.info, src@));
                assert(src@.subrange(0, src@.len() as int) =~= src@);
            } else {
                assert(!(c.len() == 0 || c.len() >= src@.len() || c.len() >= 0x80000000));
                assert(rb == spec_u32_to_le_bytes(szv) + c + chk_bytes(self.info, c));
                assert(scratch@.subrange(0, n as int) =~= c);
            }
            assert(szb@.subrange(0, 4) =~= spec_u32_to_le_bytes(szv));
            assert(out@ =~= out_hdr + rb);
        }
        let ghost rb = record_bytes(src@, hist@, self.info);
        append_range(&mut self.content, src, 0, src.len());
        proof {
            assert(src@.subrange(0, src@.len() as int) =~= src@);
        }
        self.emitted = Ghost(self.emitted@ + rb);
        proof {
            let hb = header_bytes(self.info);
            assert(block_decompressed(
                block_compressed(src@, hist@),
                hist@,
                self.info.block_max_size as nat,
            ) == Some(src@));
            lemma_records_snoc(recs, self.dict@, Seq::<u8>::empty(), old_content, src@, self.info);
            assert(self.emitted@.take(hb.len() as int) =~= hb);
            assert(self.emitted@.skip(hb.len() as int) =~= recs + rb);
            assert(records_decode(
                self.emitted@.skip(hb.len() as int),
                self.dict@,
                Seq::<u8>::empty(),
                self.info,
            ) == Some(self.content@));
            if old_started {
                assert(self.emitted@ =~= old_emitted + (Seq::<u8>::empty() + rb));
                assert(out@ =~= old_out + (Seq::<u8>::empty() + rb));
            } else {
                assert(self.emitted@ =~= old_emitted + (header_bytes(self.info) + rb));
                assert(out@ =~= old_out + (header_bytes(self.info) + rb));
            }
        }
        let written = out.len() - pos0;
        let mut hdr_len: usize = 7;
        if self.info.content_size.is_some() {
            hdr_len = hdr_len + 8;
        }
        if self.info.dict_id.is_some() {
            hdr_len = hdr_len + 4;
        }
        let dst_len = if was_started {
            written
        } else {
            written + hdr_len
        };
        proof {
            if !old_started {
                crate::frame::lemma_header_bytes_len(self.info);
                assert(header_bytes(self.info).len() == hdr_len);
            }
        }
        Ok(Report { dst_len, src_len: src.len() })
    }

    /// Closes the frame: writes the header if nothing was emitted yet, the
    /// end mark, and the content checksum when configured, after which the
    /// complete emitted byte stream decodes to exactly the payload. Fails
    /// exactly when the frame is already finished or the payload length
    /// breaks the content-size promise in the header, leaving everything
    /// unchanged.
    #[verifier::rlimit(100)]
    pub fn finish(&mut self, out: &mut Vec<u8>) -> (r: Result<Report, Error>)
        requires
            old(self).wf(),
        ensures
            final(self).wf(),
            final(self).info_spec() == old(self).info_spec(),
            final(self).dict_view() == old(self).dict_view(),
            r is Ok <==> !old(self).is_finished() && content_size_ok(
                old(self).info_spec(),
                old(self).payload(),
            ),
            r matches Ok(rep) ==> ({
                let delta = (if old(self).is_started() {
                    Seq::<u8>::empty()
                } else {
                    header_bytes(old(self).info_spec())
                }) + end_bytes(old(self).info_spec(), old(self).payload());
                &&& final(self).is_finished()
                &&& final(self).payload() == old(self).payload()
                &&& final(self).emitted() == old(self).emitted() + delta
                &&& final(out)@ == old(out)@ + delta
                &&& rep.src_len == 0
                &&& rep.dst_len == delta.len()
                &&& decode_stream(final(self).emitted(), old(self).dict_view())
                    == (Decoded::Done {
                    content: old(self).payload(),
                    consumed: final(self).emitted().len() as int,
                })
            }),
            r is Err ==> final(out)@ == old(out)@ && *final(self) == *old(self),
            r matches Err(e) ==> e == Error::FrameFormatError,
    {
        if self.finished {
            return Err(Error::FrameFormatError);
        }
        match self.info.content_size {
            Some(nsz) => {
                if self.content.len() as u64 != nsz {
                    return Err(Error::FrameFormatError);
                }
            },
            None => {},
        }
        let ghost old_out = out@;
        let ghost old_emitted = self.emitted@;
        let ghost old_started = self.started;
        let pos0 = out.len();
        if !self.started {
            write_header(&self.info, out);
            self.emitted = Ghost(self.emitted@ + header_bytes(self.info));
            self.started = true;
            proof {
                assert(self.emitted@.take(header_bytes(self.info).len() as int) =~= header_bytes(
                    self.info,
                ));
                assert(self.emitted@.skip(header_bytes(self.info).len() as int)
                    =~= Seq::<u8>::empty());
            }
        }
        let ghost recs = self.emitted@.skip(header_bytes(self.info).len() as int);
        let zb = u32_to_le_bytes(0);
        append_range(out, zb.as_slice(), 0, 4);
        if self.info.content_checksum {
            let ck = xxh32(0, self.content.as_slice());
            let ckb = u32_to_le_bytes(ck);
            append_range(out, ckb.as_slice(), 0, 4);
        }
        let ghost eb = end_bytes(self.info, self.content@);
        self.emitted = Ghost(self.emitted@ + eb);
        self.finished = true;
        proof {
            assert(zb@.subrange(0, 4) =~= spec_u32_to_le_bytes(0));
            let hb = header_bytes(self.info);
            assert(self.emitted@.take(hb.len() as int) =~= hb);
            assert(self.emitted@ =~= hb + recs + eb);
            lemma_frame_decodes(self.info, self.dict@, recs, self.content@);
            if old_started {
                assert(self.emitted@ =~= old_emitted + (Seq::<u8>::empty() + eb));
                assert(out@ =~= old_out + (Seq::<u8>::empty() + eb));
            } else {
                assert(self.emitted@ =~= old_emitted + (hb + eb));
                assert(out@ =~= old_out + (hb + eb));
            }
            assert(self.emitted@.skip(hb.len() as int) =~= recs + eb);
        }
        let written = out.len() - pos0;
        Ok(Report { dst_len: written, src_len: 0 })
    }
}

/// One-shot frame compression: splits `src` into blocks of the negotiated
/// size, frames them, and returns a complete frame that decodes to exactly
/// `src`. Fails exactly when the configuration names no defined block size
/// or `src` breaks its content-size promise.
pub fn compress_frame(src: &[u8], info: FrameInfo, dict: &[u8]) -> (r: Result<Vec<u8>, Error>)
    ensures
        r is Ok <==> info_wf(info) && content_size_ok(info, src@),
        r matches Ok(v) ==> decode_stream(v@, dict@) == (Decoded::Done {
            content: src@,
            consumed: v@.len() as int,
        }),
        r matches Err(e) ==> e == Error::FrameFormatError,
{
    let mut enc = match FrameCompressor::new(info, dict) {
        Ok(enc) => enc,
        Err(e) => {
            return Err(e);
        },
    };
    let mut out: Vec<u8> = Vec::new();
    let mut i: usize = 0;
    while i < src.len()
        invariant
            i <= src@.len(),
            enc.wf(),
            !enc.is_finished(),
            enc.info_spec() == info,
            enc.dict_view() == dict@,
            info_wf(info),
            enc.payload() == src@.take(i as int),
            out@ == enc.emitted(),
        decreases src@.len() - i,
    {
        let step = if src.len() - i < info.block_max_size as usize {
            src.len() - i
        } else {
            info.block_max_size as usize
        };
        let chunk = slice_subrange(src, i, i + step);
        match enc.next(chunk, &mut out) {
            Ok(_) => {},
            Err(_) => {
                proof {
                    assert(false);
                }
                return Err(Error::FrameFormatError);
            },
        }
        proof {
            assert(src@.take(i as int) + src@.subrange(i as int, (i + step) as int) =~= src@.take(
                (i + step) as int,
            ));
        }
        i = i + step;
    }
    proof {
        assert(src@.take(src@.len() as int) =~= src@);
    }
    match enc.finish(&mut out) {
        Ok(_) => Ok(out),
        Err(e) => Err(e),
    }
}

} // verus!
