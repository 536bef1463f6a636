//! A streaming LZ4 codec layer: framed encode/decode, stateful streaming
//! compression with history and dictionaries, and buffered growth helpers,
//! built on a block-oriented compression primitive.

use vstd::prelude::*;

pub mod backend;
pub mod block;
pub mod buffer;
pub mod comp;
pub mod decomp;
pub mod dict;
pub mod frame;
pub mod stream;

verus! {

/// The errors a codec operation can report.
#[derive(Clone, Copy, PartialEq, Eq, Structural, Debug)]
pub enum Error {
    /// The block primitive reported failure (destination too small, corrupt data).
    CodecFailure,
    /// Structural violation in a frame: bad magic, unsupported version,
    /// checksum mismatch, or a size field out of bounds.
    FrameFormatError,
    /// Context or scratch allocation failed.
    ResourceError,
    /// Dictionary construction was rejected.
    DictionaryBuildFailed,
}

/// How many bytes a call consumed and produced.
#[derive(Clone, Copy, PartialEq, Eq, Structural, Debug)]
pub struct Report {
    pub dst_len: usize,
    pub src_len: usize,
}

impl Report {
    /// Number of bytes written to the destination.
    pub fn dst_len(&self) -> (r: usize)
        ensures
            r == self.dst_len,
    {
        self.dst_len
    }

    /// Number of source bytes consumed.
    pub fn src_len(&self) -> (r: usize)
        ensures
            r == self.src_len,
    {
        self.src_len
    }
}

} // verus!
