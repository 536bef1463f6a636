//! Byte-buffer discipline shared by the streaming engines: the history
//! window, front-of-buffer consumption, and append helpers whose contracts
//! guarantee that a caller never sees bytes past the confirmed length.

use vstd::prelude::*;

verus! {

/// The codec's history window: only this many trailing bytes of previously
/// processed data can influence compression of the next block.
pub const WINDOW_SIZE: usize = 65536;

/// The trailing window of `s` that the codec may reference.
pub open spec fn window(s: Seq<u8>) -> Seq<u8> {
    if s.len() <= WINDOW_SIZE {
        s
    } else {
        s.skip(s.len() - WINDOW_SIZE)
    }
}

/// Appends `src[from..to]` to `dst`.
pub fn append_range(dst: &mut Vec<u8>, src: &[u8], from: usize, to: usize)
    requires
        from <= to <= src@.len(),
    ensures
        final(dst)@ == old(dst)@ + src@.subrange(from as int, to as int),
{
    let mut i = from;
    while i < to
        invariant
            from <= i <= to <= src@.len(),
            dst@ == old(dst)@ + src@.subrange(from as int, i as int),
            dst@.len() == old(dst)@.len() + (i - from),
        decreases to - i,
    {
        let byte = src[i];
        dst.push(byte);
        proof {
            assert(src@.subrange(from as int, (i + 1) as int) =~= src@.subrange(
                from as int,
                i as int,
            ).push(src@[i as int]));
            assert(dst@ =~= old(dst)@ + src@.subrange(from as int, (i + 1) as int));
        }
        i = i + 1;
    }
    proof {
        assert(dst@ =~= old(dst)@ + src@.subrange(from as int, to as int));
    }
}

/// Removes the first `n` bytes of `v`, keeping the rest in order.
pub fn drop_front(v: &mut Vec<u8>, n: usize)
    requires
        n <= old(v)@.len(),
    ensures
        final(v)@ == old(v)@.skip(n as int),
{
    let mut rest: Vec<u8> = Vec::new();
    append_range(&mut rest, v.as_slice(), n, v.len());
    proof {
        assert(rest@ =~= old(v)@.skip(n as int));
    }
    *v = rest;
}

/// The trailing window of `a + b`, materialized.
pub fn window_concat(a: &Vec<u8>, b: &Vec<u8>) -> (r: Vec<u8>)
    ensures
        r@ == window(a@ + b@),
{
    let mut r: Vec<u8> = Vec::new();
    if b.len() >= WINDOW_SIZE {
        let start = b.len() - WINDOW_SIZE;
        append_range(&mut r, b.as_slice(), start, b.len());
        proof {
            if a@.len() + b@.len() <= WINDOW_SIZE {
                assert(r@ =~= a@ + b@);
            } else {
                assert(r@ =~= (a@ + b@).skip((a@.len() + b@.len() - WINDOW_SIZE) as int));
            }
        }
    } else {
        let room = WINDOW_SIZE - b.len();
        let take_a = if a.len() < room {
            a.len()
        } else {
            room
        };
        let start_a = a.len() - take_a;
        append_range(&mut r, a.as_slice(), start_a, a.len());
        append_range(&mut r, b.as_slice(), 0, b.len());
        proof {
            assert(b@.subrange(0, b@.len() as int) =~= b@);
            if a@.len() + b@.len() <= WINDOW_SIZE {
                assert(start_a == 0);
                assert(a@.subrange(0, a@.len() as int) =~= a@);
                assert(r@ =~= a@ + b@);
            } else {
                assert(take_a == room);
                assert(start_a == a@.len() + b@.len() - WINDOW_SIZE);
                assert(r@ =~= (a@ + b@).skip(start_a as int));
            }
        }
    }
    r
}

} // verus!
