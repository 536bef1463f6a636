use lzzzz::block::{
    compress, compress_dest_size, compress_ext_state, decompress, decompress_with_dict,
    max_compressed_size, CompressionLevel, CompressionMode, ExtState,
};
use lzzzz::comp::{compress_frame, FrameCompressor};
use lzzzz::decomp::{decompress_frame, Decompressor};
use lzzzz::dict::Dictionary;
use lzzzz::frame::FrameInfo;
use lzzzz::stream::{CompressionContext, Compressor};
use lzzzz::Error;
use std::io::{Read, Write};

#[test]
fn empty_dst() {
    assert!(Compressor::new()
        .unwrap()
        .next(&b"hello"[..], &mut Vec::new(), CompressionMode::Default)
        .is_err());
}

#[test]
fn compression_context() {
    println!("{}", CompressionContext::new().is_ok());
}

#[test]
fn zero_dst_is_codec_failure() {
    let mut stream = Compressor::new().unwrap();
    let r = stream.next(&b"aaaaa"[..], &mut Vec::new(), CompressionMode::Default);
    assert_eq!(r.unwrap_err(), Error::CodecFailure);
}

#[test]
fn scenario_small_default() {
    let mut stream = Compressor::new().unwrap();
    let data = &b"aaaaa"[..];
    let mut buf = vec![0u8; 2048];
    let len = stream
        .next(data, &mut buf, CompressionMode::Default)
        .unwrap()
        .dst_len();
    assert!(len > 0);
    let mut decoded = vec![0u8; data.len()];
    let n = decompress(&buf[..len], &mut decoded).unwrap();
    assert_eq!(n, data.len());
    assert_eq!(&decoded[..n], data);
}

#[test]
fn dictionary_shared_handle() {
    let sample = b"0123456789";
    let dict = Dictionary::new(&sample[..]).unwrap();
    assert_eq!(dict.handle().as_slice(), &sample[..]);
    let mut a = Compressor::new().unwrap();
    let mut b = Compressor::new().unwrap();
    a.reset_with_dict(dict.handle());
    b.reset_with_dict(dict.handle());
    let mut buf_a = vec![0u8; 256];
    let mut buf_b = vec![0u8; 256];
    let la = a
        .next(&b"0123456789"[..], &mut buf_a, CompressionMode::Default)
        .unwrap()
        .dst_len();
    let lb = b
        .next(&b"0123456789"[..], &mut buf_b, CompressionMode::Default)
        .unwrap()
        .dst_len();
    assert_eq!(&buf_a[..la], &buf_b[..lb]);
    let cloned = dict.clone();
    assert_eq!(cloned.handle().as_slice(), &sample[..]);
}

#[test]
fn max_compressed_size_monotone() {
    let mut prev = 0usize;
    for n in [0usize, 1, 2, 10, 100, 1000, 65536, 1 << 20] {
        let bound = max_compressed_size(n);
        assert!(bound >= prev);
        assert!(bound >= n);
        prev = bound;
    }
    assert_eq!(max_compressed_size(0), 20);
    assert_eq!(max_compressed_size(100), 20 + 110);
}

#[test]
fn compress_bound_holds() {
    for src in [
        b"".to_vec(),
        b"a".to_vec(),
        vec![7u8; 10_000],
        (0..255u8).cycle().take(4096).collect::<Vec<u8>>(),
    ] {
        let mut dst = vec![0u8; max_compressed_size(src.len())];
        let n = compress(&src, &mut dst, CompressionLevel::Default).unwrap();
        assert!(n <= max_compressed_size(src.len()));
        let mut back = vec![0u8; src.len()];
        let m = decompress(&dst[..n], &mut back).unwrap();
        assert_eq!(&back[..m], &src[..]);
    }
}

#[test]
fn compression_shrinks_repetitive_input() {
    let src = vec![b'a'; 1000];
    let mut dst = vec![0u8; max_compressed_size(src.len())];
    let n = compress(&src, &mut dst, CompressionLevel::Default).unwrap();
    assert!(n < src.len());
    assert_ne!(&dst[..n], &src[..]);
}

#[test]
fn stream_linked_roundtrip() {
    let chunk1 = &b"As soon as they had strength, they arose, joined hands again, and went on."[..];
    let chunk2 = &b"As soon as they had strength, they arose once more and went on together."[..];
    let mut stream = Compressor::new().unwrap();
    let mut b1 = vec![0u8; 2048];
    let l1 = stream
        .next(chunk1, &mut b1, CompressionMode::Default)
        .unwrap()
        .dst_len();
    let mut b2 = vec![0u8; 2048];
    let l2 = stream
        .next(chunk2, &mut b2, CompressionMode::Default)
        .unwrap()
        .dst_len();
    let mut d1 = vec![0u8; chunk1.len()];
    let n1 = decompress(&b1[..l1], &mut d1).unwrap();
    assert_eq!(&d1[..n1], chunk1);
    let mut d2 = vec![0u8; chunk2.len()];
    let n2 = decompress_with_dict(&b2[..l2], &mut d2, chunk1).unwrap();
    assert_eq!(&d2[..n2], chunk2);
}

#[test]
fn partial_mode_reports_consumed() {
    let src = &b"abcdefghijklmnopqrstuvwxyz0123456789"[..];
    let mut stream = Compressor::new().unwrap();
    let mut dst = vec![0u8; 30];
    let rep = stream.next(src, &mut dst, CompressionMode::Partial).unwrap();
    assert!(rep.src_len() < src.len());
    assert!(rep.src_len() > 0);
    let mut back = vec![0u8; rep.src_len()];
    let m = decompress(&dst[..rep.dst_len()], &mut back).unwrap();
    assert_eq!(&back[..m], &src[..rep.src_len()]);
}

#[test]
fn buffer_restored_on_failure() {
    let mut stream = Compressor::new().unwrap();
    let mut dst = vec![9u8; 3];
    let before = dst.clone();
    let r = stream.next(&b"hello world"[..], &mut dst, CompressionMode::Default);
    assert!(r.is_err());
    assert_eq!(dst.len(), before.len());
    assert_eq!(dst, before);
}

#[test]
fn next_to_vec_appends_only_confirmed_bytes() {
    let mut stream = Compressor::new().unwrap();
    let mut dst = b"prefix".to_vec();
    let rep = stream
        .next_to_vec(&b"hello hello hello hello"[..], &mut dst, CompressionMode::Default)
        .unwrap();
    assert_eq!(&dst[..6], b"prefix");
    assert_eq!(dst.len(), 6 + rep.dst_len());
    let mut back = vec![0u8; 23];
    let m = decompress(&dst[6..], &mut back).unwrap();
    assert_eq!(&back[..m], &b"hello hello hello hello"[..]);
}

#[test]
fn ext_state_roundtrip() {
    let mut state = ExtState::new();
    let src = &b"the quick brown fox jumps over the lazy dog, twice over the lazy dog"[..];
    let mut dst = vec![0u8; max_compressed_size(src.len())];
    let n = compress_ext_state(&mut state, src, &mut dst, CompressionLevel::Default).unwrap();
    let mut back = vec![0u8; src.len()];
    let m = decompress(&dst[..n], &mut back).unwrap();
    assert_eq!(&back[..m], src);
}

#[test]
fn compress_dest_size_consumes_prefix() {
    let mut state = ExtState::new();
    let src = &b"abcdefghijklmnopqrstuvwxyz0123456789abcdefghijklmnopqrstuvwxyz"[..];
    let mut dst = vec![0u8; 40];
    let rep = compress_dest_size(&mut state, src, &mut dst, CompressionLevel::Default).unwrap();
    assert!(rep.src_len() > 0 && rep.src_len() < src.len());
    let mut back = vec![0u8; rep.src_len()];
    let m = decompress(&dst[..rep.dst_len()], &mut back).unwrap();
    assert_eq!(&back[..m], &src[..rep.src_len()]);
    let too_small = compress_dest_size(&mut state, src, &mut vec![0u8; 10], CompressionLevel::Default);
    assert_eq!(too_small.unwrap_err(), Error::CodecFailure);
}

fn encode_frame(info: FrameInfo, dict: &[u8], chunks: &[&[u8]]) -> Vec<u8> {
    let mut enc = FrameCompressor::new(info, dict).unwrap();
    let mut out = Vec::new();
    for chunk in chunks {
        enc.next(chunk, &mut out).unwrap();
    }
    enc.finish(&mut out).unwrap();
    out
}

fn decode_frame(frame: &[u8], dict: &[u8]) -> Result<Vec<u8>, Error> {
    let mut dec = Decompressor::new();
    dec.set_dict(dict);
    let mut out = Vec::new();
    dec.next(frame, &mut out)?;
    dec.finish()?;
    Ok(out)
}

#[test]
fn frame_roundtrip_basic() {
    let payload = b"hello frame format, hello frame format, hello!".to_vec();
    let frame = encode_frame(FrameInfo::basic(), b"", &[payload.as_slice()]);
    let out = decode_frame(&frame, b"").unwrap();
    assert_eq!(out, payload);
}

#[test]
fn frame_roundtrip_empty_payload() {
    let frame = encode_frame(FrameInfo::basic(), b"", &[]);
    let out = decode_frame(&frame, b"").unwrap();
    assert!(out.is_empty());
}

#[test]
fn frame_roundtrip_all_features() {
    let chunk1 = vec![b'x'; 700];
    let chunk2 = b"linked history should help compress this x-run xxxxxxxxxxxx".to_vec();
    let info = FrameInfo {
        block_independent: false,
        block_checksum: true,
        content_checksum: true,
        content_size: Some((chunk1.len() + chunk2.len()) as u64),
        dict_id: Some(77),
        block_max_size: 262144,
    };
    let dict = b"xxxxxxxxxxxxxxxxxxxxxxxx";
    let frame = encode_frame(info, dict, &[chunk1.as_slice(), chunk2.as_slice()]);
    let out = decode_frame(&frame, dict).unwrap();
    let mut expect = chunk1.clone();
    expect.extend_from_slice(&chunk2);
    assert_eq!(out, expect);
}

#[test]
fn frame_info_is_reported() {
    let info = FrameInfo {
        block_independent: true,
        block_checksum: false,
        content_checksum: true,
        content_size: Some(5),
        dict_id: Some(42),
        block_max_size: 65536,
    };
    let frame = encode_frame(info, b"", &[&b"hello"[..]]);
    let mut dec = Decompressor::new();
    assert!(dec.read_frame_info().is_none());
    let mut out = Vec::new();
    dec.next(&frame, &mut out).unwrap();
    let got = dec.read_frame_info().unwrap();
    assert_eq!(got.content_size, Some(5));
    assert_eq!(got.dict_id, Some(42));
    assert!(got.content_checksum);
    assert!(!got.block_checksum);
    assert!(got.block_independent);
    assert_eq!(got.block_max_size, 65536);
}

#[test]
fn frame_chunked_decode_one_byte_at_a_time() {
    let payload = b"split headers and blocks across many tiny reads".to_vec();
    let info = FrameInfo {
        block_independent: true,
        block_checksum: true,
        content_checksum: true,
        content_size: None,
        dict_id: None,
        block_max_size: 65536,
    };
    let frame = encode_frame(info, b"", &[payload.as_slice()]);
    let mut dec = Decompressor::new();
    let mut out = Vec::new();
    for byte in &frame {
        dec.next(std::slice::from_ref(byte), &mut out).unwrap();
    }
    dec.finish().unwrap();
    assert_eq!(out, payload);
}

#[test]
fn frame_truncated_mid_block_is_error() {
    let payload = b"truncate me somewhere in the middle of the only block".to_vec();
    let frame = encode_frame(FrameInfo::basic(), b"", &[payload.as_slice()]);
    let mut dec = Decompressor::new();
    let mut out = Vec::new();
    dec.next(&frame[..frame.len() / 2], &mut out).unwrap();
    assert_eq!(dec.finish().unwrap_err(), Error::FrameFormatError);
    assert_eq!(dec.finish_partial().unwrap_err(), Error::FrameFormatError);
}

#[test]
fn frame_truncated_at_block_boundary_partial_ok() {
    let chunk = b"a complete block, then the stream stops".to_vec();
    let mut enc = FrameCompressor::new(FrameInfo::basic(), b"").unwrap();
    let mut frame = Vec::new();
    enc.next(&chunk, &mut frame).unwrap();
    // the end mark is never written: the stream stops at a block boundary
    let mut dec = Decompressor::new();
    let mut out = Vec::new();
    dec.next(&frame, &mut out).unwrap();
    assert_eq!(dec.finish().unwrap_err(), Error::FrameFormatError);
    dec.finish_partial().unwrap();
    assert_eq!(out, chunk);
}

#[test]
fn frame_bad_magic_is_error() {
    let payload = b"good frame".to_vec();
    let mut frame = encode_frame(FrameInfo::basic(), b"", &[payload.as_slice()]);
    frame[0] ^= 0xff;
    let mut dec = Decompressor::new();
    let mut out = Vec::new();
    assert_eq!(
        dec.next(&frame, &mut out).unwrap_err(),
        Error::FrameFormatError
    );
}

#[test]
fn frame_header_checksum_detects_corruption() {
    let payload = b"checksummed header".to_vec();
    let info = FrameInfo {
        block_independent: true,
        block_checksum: false,
        content_checksum: false,
        content_size: None,
        dict_id: None,
        block_max_size: 65536,
    };
    let mut frame = encode_frame(info, b"", &[payload.as_slice()]);
    // byte 6 is the header checksum for this configuration
    frame[6] = frame[6].wrapping_add(1);
    let mut dec = Decompressor::new();
    let mut out = Vec::new();
    assert_eq!(
        dec.next(&frame, &mut out).unwrap_err(),
        Error::FrameFormatError
    );
}

#[test]
fn frame_block_checksum_detects_corruption() {
    let payload = vec![b'q'; 300];
    let info = FrameInfo {
        block_independent: true,
        block_checksum: true,
        content_checksum: false,
        content_size: None,
        dict_id: None,
        block_max_size: 65536,
    };
    let mut frame = encode_frame(info, b"", &[payload.as_slice()]);
    // flip one byte inside the block body (header is 7 bytes, size field 4)
    let idx = 7 + 4 + 2;
    frame[idx] ^= 0x55;
    let mut dec = Decompressor::new();
    let mut out = Vec::new();
    let fed = dec.next(&frame, &mut out);
    assert!(fed.is_err() || dec.finish().is_err());
}

#[test]
fn frame_content_checksum_detects_corruption() {
    let payload = b"content checksum covers the whole payload".to_vec();
    let info = FrameInfo {
        block_independent: true,
        block_checksum: false,
        content_checksum: true,
        content_size: None,
        dict_id: None,
        block_max_size: 65536,
    };
    let mut frame = encode_frame(info, b"", &[payload.as_slice()]);
    let end = frame.len();
    frame[end - 1] = frame[end - 1].wrapping_add(1);
    let mut dec = Decompressor::new();
    let mut out = Vec::new();
    assert_eq!(
        dec.next(&frame, &mut out).unwrap_err(),
        Error::FrameFormatError
    );
}

#[test]
fn frame_rejects_input_after_done() {
    let payload = b"one frame only".to_vec();
    let frame = encode_frame(FrameInfo::basic(), b"", &[payload.as_slice()]);
    let mut dec = Decompressor::new();
    let mut out = Vec::new();
    dec.next(&frame, &mut out).unwrap();
    dec.finish().unwrap();
    assert_eq!(
        dec.next(b"more", &mut out).unwrap_err(),
        Error::FrameFormatError
    );
}

#[test]
fn frame_content_size_mismatch_on_finish() {
    let info = FrameInfo {
        block_independent: true,
        block_checksum: false,
        content_checksum: false,
        content_size: Some(10),
        dict_id: None,
        block_max_size: 65536,
    };
    let mut enc = FrameCompressor::new(info, b"").unwrap();
    let mut out = Vec::new();
    enc.next(b"hello", &mut out).unwrap();
    assert_eq!(enc.finish(&mut out).unwrap_err(), Error::FrameFormatError);
}

#[test]
fn frame_oversized_chunk_is_refused() {
    let mut enc = FrameCompressor::new(FrameInfo::basic(), b"").unwrap();
    let mut out = Vec::new();
    let big = vec![0u8; 65537];
    assert_eq!(enc.next(&big, &mut out).unwrap_err(), Error::CodecFailure);
}

#[test]
fn dictionary_effect_on_ratio_and_decode() {
    let dict: Vec<u8> = b"the quick brown fox jumps over the lazy dog".to_vec();
    let payload = b"the quick brown fox jumps over the lazy dog".to_vec();
    let info_plain = FrameInfo::basic();
    let frame_plain = encode_frame(info_plain, b"", &[payload.as_slice()]);
    let frame_dict = encode_frame(info_plain, &dict, &[payload.as_slice()]);
    assert!(frame_dict.len() <= frame_plain.len());
    let out = decode_frame(&frame_dict, &dict).unwrap();
    assert_eq!(out, payload);
    // without the dictionary the frame must not silently decode to the original
    let wrong = decode_frame(&frame_dict, b"");
    match wrong {
        Ok(bytes) => assert_ne!(bytes, payload),
        Err(_) => {}
    }
}

#[test]
fn interop_our_frames_decode_with_lz4_flex() {
    let payload = b"interoperability: the wire format must match other implementations".to_vec();
    let info = FrameInfo {
        block_independent: true,
        block_checksum: true,
        content_checksum: true,
        content_size: Some(payload.len() as u64),
        dict_id: None,
        block_max_size: 65536,
    };
    let frame = encode_frame(info, b"", &[payload.as_slice()]);
    let mut reader = lz4_flex::frame::FrameDecoder::new(std::io::Cursor::new(frame));
    let mut out = Vec::new();
    reader.read_to_end(&mut out).unwrap();
    assert_eq!(out, payload);
}

#[test]
fn interop_lz4_flex_frames_decode_here() {
    let payload = b"frames produced elsewhere must decode here byte-for-byte".to_vec();
    let mut enc = lz4_flex::frame::FrameEncoder::new(Vec::new());
    enc.write_all(&payload).unwrap();
    let frame = enc.finish().unwrap();
    let out = decode_frame(&frame, b"").unwrap();
    assert_eq!(out, payload);
}

#[test]
fn reset_clears_history() {
    let chunk = &b"history matters for linked blocks, history matters"[..];
    let mut s1 = Compressor::new().unwrap();
    let mut b1 = vec![0u8; 2048];
    let l1 = s1.next(chunk, &mut b1, CompressionMode::Default).unwrap().dst_len();
    s1.next(chunk, &mut vec![0u8; 2048], CompressionMode::Default).unwrap();
    s1.reset();
    let mut b3 = vec![0u8; 2048];
    let l3 = s1.next(chunk, &mut b3, CompressionMode::Default).unwrap().dst_len();
    assert_eq!(&b1[..l1], &b3[..l3]);
}

#[test]
fn reset_with_empty_dict_equals_reset() {
    let chunk = &b"empty dictionary behaves like a plain reset"[..];
    let mut s1 = Compressor::new().unwrap();
    let mut s2 = Compressor::new().unwrap();
    s1.reset();
    s2.reset_with_dict(b"");
    let mut b1 = vec![0u8; 2048];
    let mut b2 = vec![0u8; 2048];
    let l1 = s1.next(chunk, &mut b1, CompressionMode::Default).unwrap().dst_len();
    let l2 = s2.next(chunk, &mut b2, CompressionMode::Default).unwrap().dst_len();
    assert_eq!(&b1[..l1], &b2[..l2]);
}

#[test]
fn compression_level_is_recorded() {
    assert_eq!(CompressionLevel::Default.as_i32(), 9);
    assert_eq!(CompressionLevel::Min.as_i32(), 3);
    assert_eq!(CompressionLevel::Max.as_i32(), 12);
    assert_eq!(CompressionLevel::Custom(7).as_i32(), 7);
    let mut s = Compressor::new().unwrap();
    s.set_compression_level(CompressionLevel::Max);
    s.set_favor_dec_speed(true);
    let mut buf = vec![0u8; 256];
    assert!(s.next(&b"still works"[..], &mut buf, CompressionMode::Default).is_ok());
}

#[test]
fn oneshot_roundtrip_multiblock() {
    // spans several blocks at the smallest negotiated block size
    let mut payload = Vec::new();
    for i in 0..200_000u32 {
        payload.push((i % 251) as u8);
    }
    let info = FrameInfo {
        block_independent: false,
        block_checksum: true,
        content_checksum: true,
        content_size: Some(payload.len() as u64),
        dict_id: None,
        block_max_size: 65536,
    };
    let frame = compress_frame(&payload, info, b"").unwrap();
    let out = decompress_frame(&frame, b"").unwrap();
    assert_eq!(out, payload);
}

#[test]
fn oneshot_roundtrip_various_inputs() {
    let samples: Vec<Vec<u8>> = vec![
        Vec::new(),
        b"x".to_vec(),
        vec![0u8; 13],
        b"incompressible: 9f86d081884c7d659a2feaa0c55ad015".to_vec(),
        vec![b'z'; 70_000],
    ];
    for payload in samples {
        let frame = compress_frame(&payload, FrameInfo::basic(), b"").unwrap();
        let out = decompress_frame(&frame, b"").unwrap();
        assert_eq!(out, payload);
    }
}

#[test]
fn oneshot_refuses_bad_block_size() {
    let info = FrameInfo {
        block_independent: true,
        block_checksum: false,
        content_checksum: false,
        content_size: None,
        dict_id: None,
        block_max_size: 12345,
    };
    assert_eq!(
        compress_frame(b"data", info, b"").unwrap_err(),
        Error::FrameFormatError
    );
}

#[test]
fn oneshot_decode_rejects_truncation() {
    let frame = compress_frame(b"whole frame", FrameInfo::basic(), b"").unwrap();
    let r = decompress_frame(&frame[..frame.len() - 1], b"");
    assert_eq!(r.unwrap_err(), Error::FrameFormatError);
}

#[test]
fn frame_header_exact_layout() {
    let frame = encode_frame(FrameInfo::basic(), b"", &[]);
    // magic, FLG (version 1, independent blocks), BD (64 KiB code),
    // header checksum, then the four-byte end mark
    assert_eq!(&frame[..4], &[0x04, 0x22, 0x4D, 0x18]);
    assert_eq!(frame[4], 0x60);
    assert_eq!(frame[5], 0x40);
    assert_eq!(frame.len(), 7 + 4);
    assert_eq!(&frame[7..], &[0, 0, 0, 0]);
}
