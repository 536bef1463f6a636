//! The frame protocol: the self-describing byte format wrapping compressed
//! blocks. This module defines the header layout, the block-record layout,
//! and the byte-level decoding function that the streaming encoder and
//! decoder are verified against.

use vstd::prelude::*;
use vstd::bytes::{
    lemma_auto_spec_u32_to_from_le_bytes, lemma_auto_spec_u64_to_from_le_bytes,
    spec_u32_from_le_bytes, spec_u32_to_le_bytes, spec_u64_from_le_bytes, spec_u64_to_le_bytes,
    u32_from_le_bytes, u32_to_le_bytes, u64_from_le_bytes, u64_to_le_bytes,
};
use vstd::slice::slice_subrange;
use crate::backend::{block_compressed, block_decompressed, xxh32, xxh32_of};
use crate::buffer::{append_range, window};
use crate::Error;

verus! {

/// The metadata carried by a frame header.
#[derive(Clone, Copy, Debug)]
pub struct FrameInfo {
    /// Whether each block may be decoded without the history of the blocks
    /// before it.
    pub block_independent: bool,
    /// Whether each block record carries its own checksum.
    pub block_checksum: bool,
    /// Whether the frame ends with a checksum of the whole content.
    pub content_checksum: bool,
    /// The total content length promised by the header, if any.
    pub content_size: Option<u64>,
    /// The identifier of the dictionary needed to decode, if any.
    pub dict_id: Option<u32>,
    /// The negotiated maximum byte count of one block's content.
    pub block_max_size: u32,
}

/// The four block sizes the format can negotiate.
pub open spec fn info_wf(info: FrameInfo) -> bool {
    ||| info.block_max_size == 65536
    ||| info.block_max_size == 262144
    ||| info.block_max_size == 1048576
    ||| info.block_max_size == 4194304
}

impl FrameInfo {
    /// A default configuration: independent blocks of at most 64 KiB, no
    /// checksums, no promised size, no dictionary.
    pub fn basic() -> (r: FrameInfo)
        ensures
            info_wf(r),
            r.block_independent && !r.block_checksum && !r.content_checksum,
            r.content_size is None && r.dict_id is None,
            r.block_max_size == 65536,
    {
        FrameInfo {
            block_independent: true,
            block_checksum: false,
            content_checksum: false,
            content_size: None,
            dict_id: None,
            block_max_size: 65536,
        }
    }
}

pub open spec fn magic_seq() -> Seq<u8> {
    seq![4u8, 0x22u8, 0x4du8, 0x18u8]
}

/// Whether bit `div` (given as its place value) is set in `flg`.
pub open spec fn flag_bit(flg: u8, div: u8) -> bool {
    ((flg as int) / (div as int)) % 2 == 1
}

pub open spec fn flg_block_independent(flg: u8) -> bool {
    flag_bit(flg, 32)
}

pub open spec fn flg_block_checksum(flg: u8) -> bool {
    flag_bit(flg, 16)
}

pub open spec fn flg_content_size(flg: u8) -> bool {
    flag_bit(flg, 8)
}

pub open spec fn flg_content_checksum(flg: u8) -> bool {
    flag_bit(flg, 4)
}

pub open spec fn flg_dict_id(flg: u8) -> bool {
    flag_bit(flg, 1)
}

/// The content carried in the two version bits.
pub open spec fn flg_version(flg: u8) -> int {
    (flg as int) / 64
}

/// The maximum block content size encoded in the BD byte, or 0 when the
/// size code is not one the format defines.
pub open spec fn bd_size(bd: u8) -> u32 {
    let code = ((bd as int) / 16) % 8;
    if code == 4 {
        65536u32
    } else if code == 5 {
        262144u32
    } else if code == 6 {
        1048576u32
    } else if code == 7 {
        4194304u32
    } else {
        0u32
    }
}

pub open spec fn bd_ok(bd: u8) -> bool {
    &&& (bd as int) % 16 == 0
    &&& (bd as int) / 128 == 0
    &&& bd_size(bd) != 0
}

/// Total header length implied by the flag byte: magic, FLG, BD, the
/// optional fields, and the header-checksum byte.
pub open spec fn header_len_of(flg: u8) -> int {
    7 + (if flg_content_size(flg) {
        8int
    } else {
        0int
    }) + (if flg_dict_id(flg) {
        4int
    } else {
        0int
    })
}

/// The header-checksum byte derived from the descriptor bytes.
pub open spec fn hc_of_desc(desc: Seq<u8>) -> u8 {
    ((((xxh32_of(0, desc)) as int) / 256) % 256) as u8
}

/// Whether `s` begins with enough bytes to hold a whole header.
pub open spec fn header_have(s: Seq<u8>) -> bool {
    s.len() >= 5 && s.len() >= header_len_of(s[4])
}

/// Whether `s` begins with a structurally valid header: magic, supported
/// version, clear reserved bits, a defined block size code, and a matching
/// header checksum.
pub open spec fn header_ok(s: Seq<u8>) -> bool {
    &&& header_have(s)
    &&& s[0] == 4 && s[1] == 0x22 && s[2] == 0x4d && s[3] == 0x18
    &&& flg_version(s[4]) == 1
    &&& !flag_bit(s[4], 2)
    &&& bd_ok(s[5])
    &&& s[header_len_of(s[4]) - 1] == hc_of_desc(s.subrange(4, header_len_of(s[4]) - 1))
}

/// The metadata read out of a valid header at the front of `s`.
pub open spec fn header_info(s: Seq<u8>) -> FrameInfo {
    let flg = s[4];
    FrameInfo {
        block_independent: flg_block_independent(flg),
        block_checksum: flg_block_checksum(flg),
        content_checksum: flg_content_checksum(flg),
        content_size: if flg_content_size(flg) {
            Some(spec_u64_from_le_bytes(s.subrange(6, 14)))
        } else {
            None
        },
        dict_id: if flg_dict_id(flg) {
            Some(
                spec_u32_from_le_bytes(
                    s.subrange(
                        6 + (if flg_content_size(flg) {
                            8int
                        } else {
                            0int
                        }),
                        10 + (if flg_content_size(flg) {
                            8int
                        } else {
                            0int
                        }),
                    ),
                ),
            )
        } else {
            None
        },
        block_max_size: bd_size(s[5]),
    }
}

/// The flag byte a header for `info` carries.
pub open spec fn flg_byte(info: FrameInfo) -> u8 {
    (64 + (if info.block_independent {
        32int
    } else {
        0int
    }) + (if info.block_checksum {
        16int
    } else {
        0int
    }) + (if info.content_size is Some {
        8int
    } else {
        0int
    }) + (if info.content_checksum {
        4int
    } else {
        0int
    }) + (if info.dict_id is Some {
        1int
    } else {
        0int
    })) as u8
}

/// The block-descriptor byte a header for `info` carries.
pub open spec fn bd_byte(info: FrameInfo) -> u8 {
    if info.block_max_size == 65536 {
        64u8
    } else if info.block_max_size == 262144 {
        80u8
    } else if info.block_max_size == 1048576 {
        96u8
    } else {
        112u8
    }
}

/// The descriptor region of a header: FLG, BD, then the optional fields.
pub open spec fn desc_bytes(info: FrameInfo) -> Seq<u8> {
    seq![flg_byte(info), bd_byte(info)] + (match info.content_size {
        Some(n) => spec_u64_to_le_bytes(n),
        None => Seq::<u8>::empty(),
    }) + (match info.dict_id {
        Some(d) => spec_u32_to_le_bytes(d),
        None => Seq::<u8>::empty(),
    })
}

/// The complete header a frame for `info` begins with.
pub open spec fn header_bytes(info: FrameInfo) -> Seq<u8> {
    magic_seq() + desc_bytes(info) + seq![hc_of_desc(desc_bytes(info))]
}

/// The length of a written header: magic, FLG, BD, the optional fields,
/// and the checksum byte.
pub proof fn lemma_header_bytes_len(info: FrameInfo)
    ensures
        header_bytes(info).len() == 7 + (if info.content_size is Some {
            8int
        } else {
            0int
        }) + (if info.dict_id is Some {
            4int
        } else {
            0int
        }),
{
    lemma_auto_spec_u64_to_from_le_bytes();
    lemma_auto_spec_u32_to_from_le_bytes();
    match info.content_size {
        Some(n) => assert(spec_u64_to_le_bytes(n).len() == 8),
        None => (),
    }
    match info.dict_id {
        Some(d) => assert(spec_u32_to_le_bytes(d).len() == 4),
        None => (),
    }
}

/// A header this module writes parses back to exactly the metadata it was
/// written from, whatever bytes follow it.
pub proof fn lemma_header_prepend(info: FrameInfo, t: Seq<u8>)
    requires
        info_wf(info),
    ensures
        header_have(header_bytes(info) + t),
        header_ok(header_bytes(info) + t),
        header_info(header_bytes(info) + t) == info,
        header_len_of((header_bytes(info) + t)[4]) == header_bytes(info).len(),
{
    let s = header_bytes(info) + t;
    let flg = flg_byte(info);
    let ind: int = if info.block_independent {
        32
    } else {
        0
    };
    let bch: int = if info.block_checksum {
        16
    } else {
        0
    };
    let csz: int = if info.content_size is Some {
        8
    } else {
        0
    };
    let cch: int = if info.content_checksum {
        4
    } else {
        0
    };
    let did: int = if info.dict_id is Some {
        1
    } else {
        0
    };
    let v: int = 64 + ind + bch + csz + cch + did;
    assert(v <= 125);
    assert(flg == v as u8);
    assert(flg as int == v);
    assert(flg_version(flg) == 1);
    assert(flag_bit(flg, 32) == info.block_independent);
    assert(flag_bit(flg, 16) == info.block_checksum);
    assert(flag_bit(flg, 8) == (info.content_size is Some));
    assert(flag_bit(flg, 4) == info.content_checksum);
    assert(flag_bit(flg, 1) == (info.dict_id is Some));
    assert(!flag_bit(flg, 2));
    let bd = bd_byte(info);
    assert(bd_ok(bd));
    assert(bd_size(bd) == info.block_max_size);
    lemma_auto_spec_u64_to_from_le_bytes();
    lemma_auto_spec_u32_to_from_le_bytes();
    let desc = desc_bytes(info);
    let cs_part = (match info.content_size {
        Some(n) => spec_u64_to_le_bytes(n),
        None => Seq::<u8>::empty(),
    });
    let did_part = (match info.dict_id {
        Some(d) => spec_u32_to_le_bytes(d),
        None => Seq::<u8>::empty(),
    });
    match info.content_size {
        Some(n) => assert(spec_u64_to_le_bytes(n).len() == 8),
        None => (),
    }
    match info.dict_id {
        Some(d) => assert(spec_u32_to_le_bytes(d).len() == 4),
        None => (),
    }
    let did_len: int = if info.dict_id is Some {
        4
    } else {
        0
    };
    assert(cs_part.len() == csz);
    assert(did_part.len() == did_len);
    assert(desc == seq![flg_byte(info), bd_byte(info)] + cs_part + did_part);
    assert(desc.len() == 2 + csz + did_len);
    let hb = header_bytes(info);
    assert(hb.len() == 7 + csz + did_len);
    assert(s[4] == flg);
    assert(s[5] == bd);
    assert(header_len_of(flg) == hb.len());
    assert(header_have(s));
    assert(s.subrange(4, header_len_of(flg) - 1) =~= desc);
    assert(s[header_len_of(flg) - 1] == hc_of_desc(desc));
    assert(s[0] == 4 && s[1] == 0x22 && s[2] == 0x4d && s[3] == 0x18);
    assert(header_ok(s));
    if info.content_size is Some {
        assert(s.subrange(6, 14) =~= spec_u64_to_le_bytes(info.content_size->0));
        assert(header_info(s).content_size == info.content_size);
    }
    if info.dict_id is Some {
        assert(s.subrange(6 + csz, 10 + csz) =~= spec_u32_to_le_bytes(info.dict_id->0));
        assert(header_info(s).dict_id == info.dict_id);
    }
    assert(header_info(s) == info);
}

/// Writes the header for `info` at the end of `out`.
pub fn write_header(info: &FrameInfo, out: &mut Vec<u8>)
    requires
        info_wf(*info),
    ensures
        final(out)@ == old(out)@ + header_bytes(*info),
{
    let mut desc: Vec<u8> = Vec::new();
    let mut flg: u8 = 64;
    if info.block_independent {
        flg = flg + 32;
    }
    if info.block_checksum {
        flg = flg + 16;
    }
    if info.content_size.is_some() {
        flg = flg + 8;
    }
    if info.content_checksum {
        flg = flg + 4;
    }
    if info.dict_id.is_some() {
        flg = flg + 1;
    }
    assert(flg == flg_byte(*info));
    desc.push(flg);
    let bd: u8 = if info.block_max_size == 65536 {
        64
    } else if info.block_max_size == 262144 {
        80
    } else if info.block_max_size == 1048576 {
        96
    } else {
        112
    };
    assert(bd == bd_byte(*info));
    desc.push(bd);
    match info.content_size {
        Some(n) => {
            let b = u64_to_le_bytes(n);
            append_range(&mut desc, b.as_slice(), 0, 8);
        },
        None => {},
    }
    match info.dict_id {
        Some(d) => {
            let b = u32_to_le_bytes(d);
            append_range(&mut desc, b.as_slice(), 0, 4);
        },
        None => {},
    }
    proof {
        assert(desc@ =~= desc_bytes(*info));
    }
    let h = xxh32(0, desc.as_slice());
    let hc: u8 = ((h / 256) % 256) as u8;
    assert(hc == hc_of_desc(desc_bytes(*info)));
    out.push(4);
    out.push(0x22);
    out.push(0x4d);
    out.push(0x18);
    append_range(out, desc.as_slice(), 0, desc.len());
    out.push(hc);
    proof {
        assert(desc@.subrange(0, desc@.len() as int) =~= desc@);
        assert(final(out)@ =~= old(out)@ + header_bytes(*info));
    }
}

/// Attempts to read a header from the front of `buf`: `Ok(None)` while the
/// header is still incomplete, the parsed metadata and header length once
/// it is complete and valid, and `FrameFormatError` exactly when a
/// complete header is invalid.
pub fn parse_header(buf: &[u8]) -> (r: Result<Option<(FrameInfo, usize)>, Error>)
    ensures
        r matches Ok(None) <==> !header_have(buf@),
        r is Err <==> header_have(buf@) && !header_ok(buf@),
        r matches Ok(Some(p)) ==> {
            &&& header_ok(buf@)
            &&& p.0 == header_info(buf@)
            &&& p.1 == header_len_of(buf@[4])
            &&& 7 <= p.1 <= buf@.len()
            &&& info_wf(p.0)
        },
        r matches Err(e) ==> e == Error::FrameFormatError,
{
    if buf.len() < 5 {
        return Ok(None);
    }
    let flg = buf[4];
    let csz: usize = if (flg / 8) % 2 == 1 {
        8
    } else {
        0
    };
    let did: usize = if flg % 2 == 1 {
        4
    } else {
        0
    };
    let hlen: usize = 7 + csz + did;
    assert(hlen == header_len_of(flg));
    if buf.len() < hlen {
        return Ok(None);
    }
    assert(header_have(buf@));
    if !(buf[0] == 4 && buf[1] == 0x22 && buf[2] == 0x4d && buf[3] == 0x18) {
        return Err(Error::FrameFormatError);
    }
    if flg / 64 != 1 {
        return Err(Error::FrameFormatError);
    }
    if (flg / 2) % 2 == 1 {
        return Err(Error::FrameFormatError);
    }
    let bd = buf[5];
    if bd % 16 != 0 || bd / 128 != 0 {
        return Err(Error::FrameFormatError);
    }
    let code = (bd / 16) % 8;
    let bmax: u32 = if code == 4 {
        65536
    } else if code == 5 {
        262144
    } else if code == 6 {
        1048576
    } else if code == 7 {
        4194304
    } else {
        0
    };
    assert(bmax == bd_size(bd));
    if bmax == 0 {
        return Err(Error::FrameFormatError);
    }
    let desc = slice_subrange(buf, 4, hlen - 1);
    let h = xxh32(0, desc);
    let hc: u8 = ((h / 256) % 256) as u8;
    assert(hc == hc_of_desc(buf@.subrange(4, header_len_of(buf@[4]) - 1)));
    if buf[hlen - 1] != hc {
        assert(!header_ok(buf@));
        return Err(Error::FrameFormatError);
    }
    let content_size: Option<u64> = if csz == 8 {
        Some(u64_from_le_bytes(slice_subrange(buf, 6, 14)))
    } else {
        None
    };
    let dict_id: Option<u32> = if did == 4 {
        Some(u32_from_le_bytes(slice_subrange(buf, 6 + csz, 10 + csz)))
    } else {
        None
    };
    let info = FrameInfo {
        block_independent: (flg / 32) % 2 == 1,
        block_checksum: (flg / 16) % 2 == 1,
        content_checksum: (flg / 4) % 2 == 1,
        content_size,
        dict_id,
        block_max_size: bmax,
    };
    assert(header_ok(buf@));
    assert(info == header_info(buf@));
    Ok(Some((info, hlen)))
}

/// Whether `content` matches the size the header promised, if it promised
/// one.
pub open spec fn content_size_ok(info: FrameInfo, content: Seq<u8>) -> bool {
    match info.content_size {
        Some(n) => content.len() == n,
        None => true,
    }
}

/// The history the next block is coded against: the dictionary window for
/// independent blocks, the window over dictionary plus prior content for
/// linked blocks.
pub open spec fn block_hist(info: FrameInfo, dict: Seq<u8>, content: Seq<u8>) -> Seq<u8> {
    if info.block_independent {
        window(dict)
    } else {
        window(dict + content)
    }
}

/// The per-block checksum field, when the frame carries one.
pub open spec fn chk_bytes(info: FrameInfo, data: Seq<u8>) -> Seq<u8> {
    if info.block_checksum {
        spec_u32_to_le_bytes(xxh32_of(0, data))
    } else {
        Seq::<u8>::empty()
    }
}

/// The outcome of examining the front of a byte stream for one complete
/// block record.
pub ghost enum RecStep {
    /// Not enough bytes yet for a whole record.
    More,
    /// A complete record is present but violates the format.
    Invalid,
    /// The end mark (and matching trailing checks), consuming this many bytes.
    End { consumed: int },
    /// One complete valid block record of `rec_len` bytes, decoding to `piece`.
    Piece { rec_len: int, piece: Seq<u8> },
}

/// Examines the front of `s` for one block record, given the decoding
/// history so far.
pub open spec fn rec_step(s: Seq<u8>, dict: Seq<u8>, content: Seq<u8>, info: FrameInfo) -> RecStep {
    if s.len() < 4 {
        RecStep::More
    } else {
        let sz = spec_u32_from_le_bytes(s.subrange(0, 4));
        if sz == 0 {
            if info.content_checksum {
                if s.len() < 8 {
                    RecStep::More
                } else if spec_u32_from_le_bytes(s.subrange(4, 8)) == xxh32_of(0, content)
                    && content_size_ok(info, content) {
                    RecStep::End { consumed: 8 }
                } else {
                    RecStep::Invalid
                }
            } else if content_size_ok(info, content) {
                RecStep::End { consumed: 4 }
            } else {
                RecStep::Invalid
            }
        } else {
            let stored = sz >= 0x80000000u32;
            let dlen = (sz as int) % 0x80000000;
            if dlen > info.block_max_size {
                RecStep::Invalid
            } else {
                let clen: int = if info.block_checksum {
                    4
                } else {
                    0
                };
                let rec_len = 4 + dlen + clen;
                if s.len() < rec_len {
                    RecStep::More
                } else {
                    let data = s.subrange(4, 4 + dlen);
                    if info.block_checksum && spec_u32_from_le_bytes(s.subrange(4 + dlen, rec_len))
                        != xxh32_of(0, data) {
                        RecStep::Invalid
                    } else if stored {
                        RecStep::Piece { rec_len, piece: data }
                    } else {
                        match block_decompressed(
                            data,
                            block_hist(info, dict, content),
                            info.block_max_size as nat,
                        ) {
                            Some(p) => RecStep::Piece { rec_len, piece: p },
                            None => RecStep::Invalid,
                        }
                    }
                }
            }
        }
    }
}

/// The state of decoding the block region of a frame: the content decoded
/// from the complete records seen so far, and how many bytes they took.
pub ghost enum Decoded {
    /// All complete records decoded; more bytes are needed to go on.
    NeedMore { content: Seq<u8>, consumed: int },
    /// The end mark was reached and every trailing check passed.
    Done { content: Seq<u8>, consumed: int },
    /// A complete record violates the format; decoding cannot continue.
    Bad { content: Seq<u8>, consumed: int },
}

impl Decoded {
    pub open spec fn content(self) -> Seq<u8> {
        match self {
            Decoded::NeedMore { content, .. } => content,
            Decoded::Done { content, .. } => content,
            Decoded::Bad { content, .. } => content,
        }
    }

    pub open spec fn consumed(self) -> int {
        match self {
            Decoded::NeedMore { consumed, .. } => consumed,
            Decoded::Done { consumed, .. } => consumed,
            Decoded::Bad { consumed, .. } => consumed,
        }
    }

    /// The same outcome, seen from `k` bytes earlier in the stream.
    pub open spec fn shift(self, k: int) -> Decoded {
        match self {
            Decoded::NeedMore { content, consumed } => Decoded::NeedMore {
                content,
                consumed: consumed + k,
            },
            Decoded::Done { content, consumed } => Decoded::Done {
                content,
                consumed: consumed + k,
            },
            Decoded::Bad { content, consumed } => Decoded::Bad {
                content,
                consumed: consumed + k,
            },
        }
    }
}

pub proof fn lemma_shift_zero(d: Decoded)
    ensures
        d.shift(0) == d,
{
}

pub proof fn lemma_shift_add(d: Decoded, a: int, b: int)
    ensures
        d.shift(a).shift(b) == d.shift(a + b),
{
}

/// Decodes every complete block record at the front of `s`, with `content`
/// already decoded before `s`.
pub open spec fn decode_blocks(s: Seq<u8>, dict: Seq<u8>, content: Seq<u8>, info: FrameInfo) -> Decoded
    decreases s.len(),
{
    match rec_step(s, dict, content, info) {
        RecStep::More => Decoded::NeedMore { content, consumed: 0 },
        RecStep::Invalid => Decoded::Bad { content, consumed: 0 },
        RecStep::End { consumed } => Decoded::Done { content, consumed },
        RecStep::Piece { rec_len, piece } => if 0 < rec_len <= s.len() {
            decode_blocks(s.skip(rec_len), dict, content + piece, info).shift(rec_len)
        } else {
            Decoded::Bad { content, consumed: 0 }
        },
    }
}

/// Whether `s` is exactly a run of complete valid block records (no end
/// mark), and the content after decoding them all onto `content`.
pub open spec fn records_decode(s: Seq<u8>, dict: Seq<u8>, content: Seq<u8>, info: FrameInfo) -> Option<
    Seq<u8>,
>
    decreases s.len(),
{
    if s.len() == 0 {
        Some(content)
    } else {
        match rec_step(s, dict, content, info) {
            RecStep::Piece { rec_len, piece } => if 0 < rec_len <= s.len() {
                records_decode(s.skip(rec_len), dict, content + piece, info)
            } else {
                None
            },
            _ => None,
        }
    }
}

/// Decodes a whole byte stream: header first, then the block records.
pub open spec fn decode_stream(s: Seq<u8>, dict: Seq<u8>) -> Decoded {
    if !header_have(s) {
        Decoded::NeedMore { content: Seq::<u8>::empty(), consumed: 0 }
    } else if !header_ok(s) {
        Decoded::Bad { content: Seq::<u8>::empty(), consumed: 0 }
    } else {
        decode_blocks(
            s.skip(header_len_of(s[4])),
            dict,
            Seq::<u8>::empty(),
            header_info(s),
        ).shift(header_len_of(s[4]))
    }
}

/// A valid header always negotiates one of the defined block sizes.
pub proof fn lemma_header_info_wf(s: Seq<u8>)
    requires
        header_ok(s),
    ensures
        info_wf(header_info(s)),
{
}

/// The record the encoder emits for one source chunk: stored verbatim when
/// compression would not shrink it (or could not be framed), compressed
/// otherwise.
pub open spec fn record_bytes(src: Seq<u8>, hist: Seq<u8>, info: FrameInfo) -> Seq<u8> {
    let c = block_compressed(src, hist);
    if c.len() == 0 || c.len() >= src.len() || c.len() >= 0x80000000 {
        spec_u32_to_le_bytes((src.len() + 0x80000000) as u32) + src + chk_bytes(info, src)
    } else {
        spec_u32_to_le_bytes(c.len() as u32) + c + chk_bytes(info, c)
    }
}

/// The end of a frame: the zero size field, then the content checksum if
/// the header announced one.
pub open spec fn end_bytes(info: FrameInfo, content: Seq<u8>) -> Seq<u8> {
    spec_u32_to_le_bytes(0) + (if info.content_checksum {
        spec_u32_to_le_bytes(xxh32_of(0, content))
    } else {
        Seq::<u8>::empty()
    })
}

/// A record outcome other than "need more bytes" never changes when more
/// bytes arrive: it reads only the complete record at the front.
pub proof fn lemma_rec_step_extend(s: Seq<u8>, t: Seq<u8>, dict: Seq<u8>, content: Seq<u8>, info: FrameInfo)
    requires
        !(rec_step(s, dict, content, info) is More),
    ensures
        rec_step(s + t, dict, content, info) == rec_step(s, dict, content, info),
{
    let u = s + t;
    assert(s.len() >= 4);
    assert(u.subrange(0, 4) =~= s.subrange(0, 4));
    let sz = spec_u32_from_le_bytes(s.subrange(0, 4));
    if sz == 0 {
        if info.content_checksum {
            assert(s.len() >= 8);
            assert(u.subrange(4, 8) =~= s.subrange(4, 8));
        }
    } else {
        let dlen = (sz as int) % 0x80000000;
        if dlen <= info.block_max_size {
            let clen: int = if info.block_checksum {
                4
            } else {
                0
            };
            let rec_len = 4 + dlen + clen;
            assert(s.len() >= rec_len);
            assert(u.subrange(4, 4 + dlen) =~= s.subrange(4, 4 + dlen));
            if info.block_checksum {
                assert(u.subrange(4 + dlen, rec_len) =~= s.subrange(4 + dlen, rec_len));
            }
        }
    }
}

/// Decoding a run of already-validated records then the rest of the stream
/// is the same as decoding the whole stream.
pub proof fn lemma_records_prepend(
    m: Seq<u8>,
    rest: Seq<u8>,
    dict: Seq<u8>,
    c0: Seq<u8>,
    c: Seq<u8>,
    info: FrameInfo,
)
    requires
        records_decode(m, dict, c0, info) == Some(c),
    ensures
        decode_blocks(m + rest, dict, c0, info) == decode_blocks(rest, dict, c, info).shift(
            m.len() as int,
        ),
    decreases m.len(),
{
    if m.len() == 0 {
        assert(m + rest =~= rest);
        assert(c == c0);
        lemma_shift_zero(decode_blocks(rest, dict, c, info));
    } else {
        let step = rec_step(m, dict, c0, info);
        match step {
            RecStep::Piece { rec_len, piece } => {
                assert(0 < rec_len <= m.len());
                lemma_rec_step_extend(m, rest, dict, c0, info);
                assert((m + rest).skip(rec_len) =~= m.skip(rec_len) + rest);
                lemma_records_prepend(m.skip(rec_len), rest, dict, c0 + piece, c, info);
                lemma_shift_add(
                    decode_blocks(rest, dict, c, info),
                    m.len() - rec_len,
                    rec_len,
                );
            },
            _ => {
                assert(false);
            },
        }
    }
}

/// The record the encoder emits parses back as one valid record decoding
/// to exactly the source chunk, whatever bytes follow it. The decompression
/// hypothesis is discharged by the compress call that produced the record.
pub proof fn lemma_record_step(
    src: Seq<u8>,
    dict: Seq<u8>,
    content: Seq<u8>,
    info: FrameInfo,
    rest: Seq<u8>,
)
    requires
        info_wf(info),
        src.len() <= info.block_max_size,
        block_decompressed(
            block_compressed(src, block_hist(info, dict, content)),
            block_hist(info, dict, content),
            info.block_max_size as nat,
        ) == Some(src),
    ensures
        ({
            let rb = record_bytes(src, block_hist(info, dict, content), info);
            &&& rec_step(rb + rest, dict, content, info) == (RecStep::Piece {
                rec_len: rb.len() as int,
                piece: src,
            })
            &&& 4 <= rb.len()
        }),
{
    lemma_auto_spec_u32_to_from_le_bytes();
    let h = block_hist(info, dict, content);
    let c = block_compressed(src, h);
    let rb = record_bytes(src, h, info);
    let u = rb + rest;
    let stored_form = c.len() == 0 || c.len() >= src.len() || c.len() >= 0x80000000;
    let data: Seq<u8> = if stored_form {
        src
    } else {
        c
    };
    let szv: u32 = if stored_form {
        (src.len() + 0x80000000) as u32
    } else {
        c.len() as u32
    };
    assert(rb == spec_u32_to_le_bytes(szv) + data + chk_bytes(info, data));
    let clen: int = if info.block_checksum {
        4
    } else {
        0
    };
    assert(chk_bytes(info, data).len() == clen);
    assert(rb.len() == 4 + data.len() + clen);
    assert(u.subrange(0, 4) =~= spec_u32_to_le_bytes(szv));
    assert(spec_u32_from_le_bytes(u.subrange(0, 4)) == szv);
    if stored_form {
        assert(src.len() + 0x80000000 < 0x100000000) by {
            assert(src.len() <= 4194304);
        }
        assert(szv as int == src.len() + 0x80000000);
        assert(szv != 0);
        assert(szv >= 0x80000000u32);
        vstd::arithmetic::div_mod::lemma_mod_multiples_vanish(1, src.len() as int, 0x80000000);
        vstd::arithmetic::div_mod::lemma_small_mod(src.len() as nat, 0x80000000nat);
        assert((szv as int) % 0x80000000 == src.len());
    } else {
        assert(0 < c.len() < 0x80000000);
        assert(szv as int == c.len());
        assert(szv != 0);
        assert(!(szv >= 0x80000000u32));
        vstd::arithmetic::div_mod::lemma_small_mod(c.len() as nat, 0x80000000nat);
        assert((szv as int) % 0x80000000 == c.len());
    }
    let dlen = (szv as int) % 0x80000000;
    assert(dlen == data.len());
    assert(dlen <= info.block_max_size) by {
        if !stored_form {
            assert(c.len() < src.len());
        }
    }
    let rec_len = 4 + dlen + clen;
    assert(u.len() >= rec_len);
    assert(u.subrange(4, 4 + dlen) =~= data);
    if info.block_checksum {
        assert(u.subrange(4 + dlen, rec_len) =~= spec_u32_to_le_bytes(xxh32_of(0, data)));
        assert(spec_u32_from_le_bytes(u.subrange(4 + dlen, rec_len)) == xxh32_of(0, data));
    }
    if stored_form {
        assert(rec_step(u, dict, content, info) == (RecStep::Piece {
            rec_len,
            piece: data,
        }));
    } else {
        assert(block_decompressed(data, h, info.block_max_size as nat) == Some(src));
        assert(rec_step(u, dict, content, info) == (RecStep::Piece {
            rec_len,
            piece: src,
        }));
    }
}

/// Appending the record for one more chunk to a valid run of records keeps
/// it a valid run, now decoding to the content extended by the chunk.
pub proof fn lemma_records_snoc(
    m: Seq<u8>,
    dict: Seq<u8>,
    c0: Seq<u8>,
    c: Seq<u8>,
    src: Seq<u8>,
    info: FrameInfo,
)
    requires
        records_decode(m, dict, c0, info) == Some(c),
        info_wf(info),
        src.len() <= info.block_max_size,
        block_decompressed(
            block_compressed(src, block_hist(info, dict, c)),
            block_hist(info, dict, c),
            info.block_max_size as nat,
        ) == Some(src),
    ensures
        records_decode(
            m + record_bytes(src, block_hist(info, dict, c), info),
            dict,
            c0,
            info,
        ) == Some(c + src),
    decreases m.len(),
{
    let rb = record_bytes(src, block_hist(info, dict, c), info);
    if m.len() == 0 {
        assert(c == c0);
        assert(m + rb =~= rb);
        let empty_rest = Seq::<u8>::empty();
        lemma_record_step(src, dict, c, info, empty_rest);
        assert(rb + empty_rest =~= rb);
        assert(rec_step(rb, dict, c, info) == (RecStep::Piece {
            rec_len: rb.len() as int,
            piece: src,
        }));
        assert(rb.skip(rb.len() as int) =~= Seq::<u8>::empty());
        assert(records_decode(rb.skip(rb.len() as int), dict, c + src, info) == Some(c + src));
    } else {
        let step = rec_step(m, dict, c0, info);
        match step {
            RecStep::Piece { rec_len, piece } => {
                assert(0 < rec_len <= m.len());
                lemma_rec_step_extend(m, rb, dict, c0, info);
                assert((m + rb).skip(rec_len) =~= m.skip(rec_len) + rb);
                lemma_records_snoc(m.skip(rec_len), dict, c0 + piece, c, src, info);
            },
            _ => {
                assert(false);
            },
        }
    }
}

/// The end record closes the block region: decoding it alone yields `Done`
/// with the content unchanged.
pub proof fn lemma_end_decode(info: FrameInfo, dict: Seq<u8>, c: Seq<u8>)
    requires
        content_size_ok(info, c),
    ensures
        decode_blocks(end_bytes(info, c), dict, c, info) == (Decoded::Done {
            content: c,
            consumed: end_bytes(info, c).len() as int,
        }),
{
    lemma_auto_spec_u32_to_from_le_bytes();
    let s = end_bytes(info, c);
    assert(s.subrange(0, 4) =~= spec_u32_to_le_bytes(0));
    assert(spec_u32_from_le_bytes(s.subrange(0, 4)) == 0);
    if info.content_checksum {
        assert(s.len() == 8);
        assert(s.subrange(4, 8) =~= spec_u32_to_le_bytes(xxh32_of(0, c)));
        assert(spec_u32_from_le_bytes(s.subrange(4, 8)) == xxh32_of(0, c));
        assert(rec_step(s, dict, c, info) == (RecStep::End { consumed: 8 }));
    } else {
        assert(s.len() == 4);
        assert(rec_step(s, dict, c, info) == (RecStep::End { consumed: 4 }));
    }
}

/// A frame assembled from a header, a valid run of records, and the end
/// record decodes as a whole to exactly the recorded content.
pub proof fn lemma_frame_decodes(info: FrameInfo, dict: Seq<u8>, recs: Seq<u8>, c: Seq<u8>)
    requires
        info_wf(info),
        records_decode(recs, dict, Seq::<u8>::empty(), info) == Some(c),
        content_size_ok(info, c),
    ensures
        ({
            let frame = header_bytes(info) + recs + end_bytes(info, c);
            decode_stream(frame, dict) == (Decoded::Done {
                content: c,
                consumed: frame.len() as int,
            })
        }),
{
    let tail = recs + end_bytes(info, c);
    let frame = header_bytes(info) + recs + end_bytes(info, c);
    assert(frame =~= header_bytes(info) + tail);
    lemma_header_prepend(info, tail);
    assert(header_ok(frame));
    assert(header_info(frame) == info);
    let hlen = header_len_of(frame[4]);
    assert(hlen == header_bytes(info).len());
    assert(frame.skip(hlen) =~= tail);
    lemma_records_prepend(recs, end_bytes(info, c), dict, Seq::<u8>::empty(), c, info);
    lemma_end_decode(info, dict, c);
    assert(decode_blocks(tail, dict, Seq::<u8>::empty(), info) == (Decoded::Done {
        content: c,
        consumed: end_bytes(info, c).len() as int,
    }).shift(recs.len() as int));
}


} // verus!
