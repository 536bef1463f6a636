//! A pre-built dictionary: an immutable byte sample preloaded into
//! streaming contexts to improve compression of small, related payloads.

use vstd::prelude::*;
use crate::buffer::append_range;
use crate::Error;

verus! {

/// An immutable dictionary handle. Any number of streams may read the same
/// dictionary; cloning a handle shares the same byte content, and the
/// bytes are never mutated after construction. Only the last 64 KiB of the
/// sample can influence compression, by the format's own contract.
pub struct Dictionary {
    data: Vec<u8>,
}

impl View for Dictionary {
    type V = Seq<u8>;

    closed spec fn view(&self) -> Seq<u8> {
        self.data@
    }
}

impl Clone for Dictionary {
    fn clone(&self) -> (r: Self)
        ensures
            r@ == self@,
    {
        let mut data: Vec<u8> = Vec::new();
        append_range(&mut data, self.data.as_slice(), 0, self.data.len());
        proof {
            assert(data@ =~= self.data@);
        }
        Dictionary { data }
    }
}

impl Dictionary {
    /// Builds a dictionary from a byte sample. The block primitive ingests
    /// any sample, so construction always succeeds; the `Result` mirrors
    /// the adapter surface, whose native builders can reject a sample.
    pub fn new(data: &[u8]) -> (r: Result<Self, Error>)
        ensures
            r matches Ok(d) && d@ == data@,
    {
        let mut owned: Vec<u8> = Vec::new();
        append_range(&mut owned, data, 0, data.len());
        proof {
            assert(owned@ =~= data@);
        }
        Ok(Dictionary { data: owned })
    }

    /// The dictionary bytes handed to a codec context.
    pub fn handle(&self) -> (r: &Vec<u8>)
        ensures
            r@ == self@,
    {
        &self.data
    }
}

} // verus!
