//! The streaming frame decoder: a state machine driven by arbitrarily
//! chunked input. It accumulates raw bytes until a whole header or block
//! record is available, commits one full protocol step at a time, and
//! appends decoded content to the caller's buffer.

use vstd::prelude::*;
use vstd::bytes::u32_from_le_bytes;
use vstd::slice::slice_subrange;
use crate::backend::{block_decompressed, raw_decompress_into, xxh32};
use crate::buffer::{append_range, drop_front, window_concat};
use crate::frame::{
    block_hist, decode_blocks, decode_stream, header_have, header_info, header_ok, info_wf,
    lemma_header_info_wf, lemma_shift_add, parse_header, rec_step, Decoded, FrameInfo, RecStep,
};
use crate::{Error, Report};

verus! {

enum Phase {
    Header,
    Blocks,
    Done,
    Failed,
}

/// The streaming decoder for one frame. Decoded content is retained
/// internally: it is the history window for linked blocks and the input of
/// the trailing content checksum. After a format error the instance is
/// poisoned and a fresh one is needed; after the frame ends, leftover
/// bytes stay pending and further input is refused.
pub struct Decompressor {
    phase: Phase,
    buf: Vec<u8>,
    content: Vec<u8>,
    dict: Vec<u8>,
    info: FrameInfo,
}

impl Decompressor {
    /// Raw bytes accepted but not yet consumed by a complete protocol step.
    pub closed spec fn pending(self) -> Seq<u8> {
        self.buf@
    }

    /// All content decoded so far.
    pub closed spec fn decoded(self) -> Seq<u8> {
        self.content@
    }

    pub closed spec fn dict_view(self) -> Seq<u8> {
        self.dict@
    }

    /// Whether the header has been parsed.
    pub closed spec fn started(self) -> bool {
        !(self.phase is Header)
    }

    pub closed spec fn is_done(self) -> bool {
        self.phase is Done
    }

    pub closed spec fn is_failed(self) -> bool {
        self.phase is Failed
    }

    /// The header metadata, once a valid header has been consumed.
    pub closed spec fn frame_info(self) -> Option<FrameInfo> {
        match self.phase {
            Phase::Blocks => Some(self.info),
            Phase::Done => Some(self.info),
            _ => None,
        }
    }

    /// What decoding the pending bytes extended by `input` yields: the
    /// whole stream from the start while the header is outstanding, the
    /// block region afterwards.
    pub open spec fn resume(self, input: Seq<u8>) -> Decoded {
        if !self.started() {
            decode_stream(self.pending() + input, self.dict_view())
        } else {
            decode_blocks(
                self.pending() + input,
                self.dict_view(),
                self.decoded(),
                self.frame_info()->0,
            )
        }
    }

    /// The machine never sits on a complete unprocessed step: pending
    /// bytes are always a strict prefix of a header or of a block record.
    pub closed spec fn wf(self) -> bool {
        match self.phase {
            Phase::Header => self.content@.len() == 0 && !header_have(self.buf@),
            Phase::Blocks => info_wf(self.info) && rec_step(
                self.buf@,
                self.dict@,
                self.content@,
                self.info,
            ) is More,
            Phase::Done => true,
            Phase::Failed => true,
        }
    }

    /// A decoder awaiting the start of a frame, with no dictionary.
    pub fn new() -> (r: Decompressor)
        ensures
            r.wf(),
            !r.started(),
            !r.is_done(),
            !r.is_failed(),
            r.pending() == Seq::<u8>::empty(),
            r.decoded() == Seq::<u8>::empty(),
            r.dict_view() == Seq::<u8>::empty(),
            r.frame_info() is None,
    {
        Decompressor {
            phase: Phase::Header,
            buf: Vec::new(),
            content: Vec::new(),
            dict: Vec::new(),
            info: FrameInfo::basic(),
        }
    }

    /// Installs the dictionary the frame was compressed with. It must be
    /// set before the header is consumed.
    pub fn set_dict(&mut self, dict: &[u8])
        requires
            !old(self).started(),
        ensures
            final(self).dict_view() == dict@,
            final(self).pending() == old(self).pending(),
            final(self).decoded() == old(self).decoded(),
            final(self).started() == old(self).started(),
            final(self).is_done() == old(self).is_done(),
            final(self).is_failed() == old(self).is_failed(),
            final(self).frame_info() == old(self).frame_info(),
            final(self).wf() == old(self).wf(),
    {
        let mut d: Vec<u8> = Vec::new();
        append_range(&mut d, dict, 0, dict.len());
        proof {
            assert(d@ =~= dict@);
        }
        self.dict = d;
    }

    /// The parsed header metadata, or `None` while the header is still
    /// outstanding (or the stream already failed).
    pub fn read_frame_info(&self) -> (r: Option<FrameInfo>)
        ensures
            r == self.frame_info(),
    {
        match self.phase {
            Phase::Blocks => Some(self.info),
            Phase::Done => Some(self.info),
            _ => None,
        }
    }

    /// Whether the stream ended exactly at the frame end: anything else —
    /// a failed stream, a header or block cut short, or no frame at all —
    /// is a format error.
    pub fn finish(&self) -> (r: Result<(), Error>)
        ensures
            r is Ok <==> self.is_done(),
            r matches Err(e) ==> e == Error::FrameFormatError,
    {
        match self.phase {
            Phase::Done => Ok(()),
            _ => Err(Error::FrameFormatError),
        }
    }

    /// Partial-frame variant: a stream cut exactly at a block boundary
    /// (after the header, with no bytes of a record pending) passes too,
    /// and the content decoded so far stands; a stream cut inside a header
    /// or record, or already failed, is still a format error.
    pub fn finish_partial(&self) -> (r: Result<(), Error>)
        ensures
            r is Ok <==> self.is_done() || (self.started() && !self.is_failed()
                && self.pending().len() == 0),
            r matches Err(e) ==> e == Error::FrameFormatError,
    {
        match self.phase {
            Phase::Done => Ok(()),
            Phase::Blocks => {
                if self.buf.len() == 0 {
                    Ok(())
                } else {
                    Err(Error::FrameFormatError)
                }
            },
            _ => Err(Error::FrameFormatError),
        }
    }

    /// Feeds one chunk of raw frame bytes, decodes every complete protocol
    /// step it completes, and appends the decoded content to `out`. The
    /// report counts the raw bytes accepted and the content bytes
    /// produced. A format violation poisons the stream and discards the
    /// pending bytes; input after the frame ended is refused.
    #[verifier::loop_isolation(false)]
    #[verifier::rlimit(60)]
    pub fn next(&mut self, input: &[u8], out: &mut Vec<u8>) -> (r: Result<Report, Error>)
        requires
            old(self).wf(),
        ensures
            final(self).wf(),
            final(self).dict_view() == old(self).dict_view(),
            old(self).is_failed() ==> (r matches Err(e) && e == Error::FrameFormatError)
                && final(out)@ == old(out)@ && *final(self) == *old(self),
            old(self).is_done() ==> {
                &&& final(out)@ == old(out)@
                &&& *final(self) == *old(self)
                &&& (r is Ok <==> input@.len() == 0)
                &&& (r matches Ok(rep) ==> rep.dst_len == 0 && rep.src_len == 0)
                &&& (r matches Err(e) ==> e == Error::FrameFormatError)
            },
            !old(self).is_failed() && !old(self).is_done() ==> ({
                let res = old(self).resume(input@);
                let tot = old(self).pending() + input@;
                &&& final(self).decoded() == res.content()
                &&& final(out)@ == old(out)@ + res.content().skip(
                    old(self).decoded().len() as int,
                )
                &&& (match res {
                    Decoded::NeedMore { .. } => r is Ok && !final(self).is_done() && !final(self).is_failed() && final(self).pending() == tot.skip(res.consumed()),
                    Decoded::Done { .. } => r is Ok && final(self).is_done() && final(self).pending() == tot.skip(res.consumed()),
                    Decoded::Bad { .. } => (r matches Err(e) && e == Error::FrameFormatError)
                        && final(self).is_failed() && final(self).pending() == Seq::<u8>::empty(),
                })
                &&& (r matches Ok(rep) ==> rep.src_len == input@.len() && rep.dst_len
                    == res.content().len() - old(self).decoded().len())
                &&& (old(self).started() && r is Ok ==> final(self).frame_info() == old(self).frame_info())
                &&& (!old(self).started() && r is Ok ==> final(self).frame_info() == (
                if header_ok(tot) {
                    Some(header_info(tot))
                } else {
                    Option::<FrameInfo>::None
                }))
            }),
    {
        match self.phase {
            Phase::Failed => {
                return Err(Error::FrameFormatError);
            },
            Phase::Done => {
                if input.len() == 0 {
                    return Ok(Report { dst_len: 0, src_len: 0 });
                } else {
                    return Err(Error::FrameFormatError);
                }
            },
            _ => {},
        }
        let ghost tot = self.buf@ + input@;
        let ghost res = old(self).resume(input@);
        let ghost dict0 = self.dict@;
        let ghost orig_content = self.content@;
        let orig_out = out.len();
        append_range(&mut self.buf, input, 0, input.len());
        proof {
            assert(input@.subrange(0, input@.len() as int) =~= input@);
            assert(self.buf@ =~= tot);
        }
        let ghost mut k: int = 0;
        let ghost mut info0 = self.info;
        let in_header = match self.phase {
            Phase::Header => true,
            _ => false,
        };
        if in_header {
            match parse_header(self.buf.as_slice()) {
                Ok(None) => {
                    proof {
                        assert(res == (Decoded::NeedMore {
                            content: Seq::<u8>::empty(),
                            consumed: 0int,
                        }));
                        assert(tot.skip(0) =~= tot);
                    }
                    return Ok(Report { dst_len: 0, src_len: input.len() });
                },
                Err(_) => {
                    self.phase = Phase::Failed;
                    self.buf.clear();
                    proof {
                        assert(res == (Decoded::Bad {
                            content: Seq::<u8>::empty(),
                            consumed: 0int,
                        }));
                    }
                    return Err(Error::FrameFormatError);
                },
                Ok(Some(parsed)) => {
                    let (info, n) = parsed;
                    self.info = info;
                    self.phase = Phase::Blocks;
                    drop_front(&mut self.buf, n);
                    proof {
                        lemma_header_info_wf(tot);
                        k = n as int;
                        assert(header_ok(tot));
                        assert(self.info == header_info(tot));
                        assert(k == crate::frame::header_len_of(tot[4]));
                        assert(self.content@ =~= Seq::<u8>::empty());
                        assert(self.buf@ == tot.skip(k));
                        assert(res == decode_blocks(
                            self.buf@,
                            self.dict@,
                            self.content@,
                            self.info,
                        ).shift(k));
                        info0 = self.info;
                    }
                },
            }
        }
        loop
            invariant
                self.phase is Blocks,
                self.info == info0,
                info_wf(self.info),
                self.dict@ == dict0,
                0 <= k <= tot.len(),
                self.buf@ == tot.skip(k),
                orig_content.len() <= self.content@.len(),
                self.content@.take(orig_content.len() as int) == orig_content,
                out@ == old(out)@ + self.content@.skip(orig_content.len() as int),
                orig_out == old(out)@.len(),
                res == decode_blocks(self.buf@, self.dict@, self.content@, self.info).shift(k),
            decreases self.buf@.len(),
        {
            let ghost buf0 = self.buf@;
            let ghost content0 = self.content@;
            if self.buf.len() < 4 {
                proof {
                    assert(rec_step(buf0, dict0, content0, self.info) is More);
                    assert(res == (Decoded::NeedMore { content: content0, consumed: k }));
                }
                let produced = out.len() - orig_out;
                return Ok(Report { dst_len: produced, src_len: input.len() });
            }
            let szb = slice_subrange(self.buf.as_slice(), 0, 4);
            let sz = u32_from_le_bytes(szb);
            if sz == 0 {
                let size_ok = match self.info.content_size {
                    Some(nsz) => self.content.len() as u64 == nsz,
                    None => true,
                };
                if self.info.content_checksum {
                    if self.buf.len() < 8 {
                        proof {
                            assert(rec_step(buf0, dict0, content0, self.info) is More);
                            assert(res == (Decoded::NeedMore { content: content0, consumed: k }));
                        }
                        let produced = out.len() - orig_out;
                        return Ok(Report { dst_len: produced, src_len: input.len() });
                    }
                    let ckb = slice_subrange(self.buf.as_slice(), 4, 8);
                    let ck = u32_from_le_bytes(ckb);
                    let expect = xxh32(0, self.content.as_slice());
                    if ck == expect && size_ok {
                        drop_front(&mut self.buf, 8);
                        self.phase = Phase::Done;
                        proof {
                            assert(rec_step(buf0, dict0, content0, self.info) == (RecStep::End {
                                consumed: 8int,
                            }));
                            assert(res == (Decoded::Done { content: content0, consumed: k + 8 }));
                            assert(self.buf@ =~= tot.skip(k + 8));
                        }
                        let produced = out.len() - orig_out;
                        return Ok(Report { dst_len: produced, src_len: input.len() });
                    } else {
                        self.phase = Phase::Failed;
                        self.buf.clear();
                        proof {
                            assert(rec_step(buf0, dict0, content0, self.info) is Invalid);
                            assert(res == (Decoded::Bad { content: content0, consumed: k }));
                        }
                        return Err(Error::FrameFormatError);
                    }
                } else {
                    if size_ok {
                        drop_front(&mut self.buf, 4);
                        self.phase = Phase::Done;
                        proof {
                            assert(rec_step(buf0, dict0, content0, self.info) == (RecStep::End {
                                consumed: 4int,
                            }));
                            assert(res == (Decoded::Done { content: content0, consumed: k + 4 }));
                            assert(self.buf@ =~= tot.skip(k + 4));
                        }
                        let produced = out.len() - orig_out;
                        return Ok(Report { dst_len: produced, src_len: input.len() });
                    } else {
                        self.phase = Phase::Failed;
                        self.buf.clear();
                        proof {
                            assert(rec_step(buf0, dict0, content0, self.info) is Invalid);
                            assert(res == (Decoded::Bad { content: content0, consumed: k }));
                        }
                        return Err(Error::FrameFormatError);
                    }
                }
            }
            let stored = sz >= 0x80000000u32;
            let dlen = (sz % 0x80000000u32) as usize;
            if dlen > self.info.block_max_size as usize {
                self.phase = Phase::Failed;
                self.buf.clear();
                proof {
                    assert(rec_step(buf0, dict0, content0, self.info) is Invalid);
                    assert(res == (Decoded::Bad { content: content0, consumed: k }));
                }
                return Err(Error::FrameFormatError);
            }
            let clen: usize = if self.info.block_checksum {
                4
            } else {
                0
            };
            let rec_len = 4 + dlen + clen;
            if self.buf.len() < rec_len {
                proof {
                    assert(rec_step(buf0, dict0, content0, self.info) is More);
                    assert(res == (Decoded::NeedMore { content: content0, consumed: k }));
                }
                let produced = out.len() - orig_out;
                return Ok(Report { dst_len: produced, src_len: input.len() });
            }
            let mut data: Vec<u8> = Vec::new();
            append_range(&mut data, self.buf.as_slice(), 4, 4 + dlen);
            if self.info.block_checksum {
                let bkb = slice_subrange(self.buf.as_slice(), 4 + dlen, rec_len);
                let bck = u32_from_le_bytes(bkb);
                let expect = xxh32(0, data.as_slice());
                if bck != expect {
                    self.phase = Phase::Failed;
                    self.buf.clear();
                    proof {
                        assert(rec_step(buf0, dict0, content0, self.info) is Invalid);
                        assert(res == (Decoded::Bad { content: content0, consumed: k }));
                    }
                    return Err(Error::FrameFormatError);
                }
            }
            let piece: Vec<u8>;
            if stored {
                piece = data;
                proof {
                    assert(rec_step(buf0, dict0, content0, self.info) == (RecStep::Piece {
                        rec_len: rec_len as int,
                        piece: piece@,
                    }));
                }
            } else {
                let empty: Vec<u8> = Vec::new();
                let hist: Vec<u8> = if self.info.block_independent {
                    window_concat(&empty, &self.dict)
                } else {
                    window_concat(&self.dict, &self.content)
                };
                proof {
                    assert(empty@ + self.dict@ =~= self.dict@);
                    assert(hist@ == block_hist(self.info, dict0, content0));
                }
                let mut scratch: Vec<u8> = Vec::new();
                scratch.resize(self.info.block_max_size as usize, 0u8);
                match raw_decompress_into(data.as_slice(), &mut scratch, hist.as_slice()) {
                    Ok(nn) => {
                        let mut p: Vec<u8> = Vec::new();
                        append_range(&mut p, scratch.as_slice(), 0, nn);
                        piece = p;
                        proof {
                            assert(piece@ =~= scratch@.take(nn as int));
                            assert(block_decompressed(
                                data@,
                                hist@,
                                self.info.block_max_size as nat,
                            ) == Some(piece@));
                            assert(rec_step(buf0, dict0, content0, self.info) == (RecStep::Piece {
                                rec_len: rec_len as int,
                                piece: piece@,
                            }));
                        }
                    },
                    Err(_) => {
                        self.phase = Phase::Failed;
                        self.buf.clear();
                        proof {
                            assert(rec_step(buf0, dict0, content0, self.info) is Invalid);
                            assert(res == (Decoded::Bad { content: content0, consumed: k }));
                        }
                        return Err(Error::FrameFormatError);
                    },
                }
            }
            append_range(&mut self.content, piece.as_slice(), 0, piece.len());
            append_range(out, piece.as_slice(), 0, piece.len());
            drop_front(&mut self.buf, rec_len);
            proof {
                assert(piece@.subrange(0, piece@.len() as int) =~= piece@);
                assert(self.content@ == content0 + piece@);
                assert(decode_blocks(buf0, dict0, content0, self.info) == decode_blocks(
                    buf0.skip(rec_len as int),
                    dict0,
                    content0 + piece@,
                    self.info,
                ).shift(rec_len as int));
                lemma_shift_add(
                    decode_blocks(self.buf@, dict0, self.content@, self.info),
                    rec_len as int,
                    k,
                );
                k = k + rec_len;
                assert(self.buf@ =~= tot.skip(k));
                assert(self.content@.take(orig_content.len() as int) =~= orig_content);
                assert(out@ =~= old(out)@ + self.content@.skip(orig_content.len() as int));
                assert(res == decode_blocks(self.buf@, self.dict@, self.content@, self.info).shift(
                    k,
                ));
            }
        }
    }
}

/// One-shot frame decompression: feeds the whole byte stream to a fresh
/// decoder and returns the content. Succeeds exactly when the bytes decode
/// to a complete frame (trailing bytes beyond the frame end are ignored);
/// a format violation or a frame cut short is a format error.
pub fn decompress_frame(frame: &[u8], dict: &[u8]) -> (r: Result<Vec<u8>, Error>)
    ensures
        r is Ok <==> decode_stream(frame@, dict@) is Done,
        r matches Ok(v) ==> v@ == decode_stream(frame@, dict@).content(),
        r matches Err(e) ==> e == Error::FrameFormatError,
{
    let mut dec = Decompressor::new();
    dec.set_dict(dict);
    let mut out: Vec<u8> = Vec::new();
    proof {
        assert(dec.pending() + frame@ =~= frame@);
    }
    let ghost res = decode_stream(frame@, dict@);
    match dec.next(frame, &mut out) {
        Ok(_) => {},
        Err(e) => {
            return Err(e);
        },
    }
    proof {
        assert(res.content().skip(0) =~= res.content());
        assert(out@ =~= res.content());
    }
    match dec.finish() {
        Ok(_) => Ok(out),
        Err(e) => Err(e),
    }
}

} // verus!
