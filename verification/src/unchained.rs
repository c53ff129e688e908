//! Layout of a block of the newer block chain.
//!
//! ```text
//! N    64        32     N    N        N
//! HASH SIGNATURE PUBKEY NEXT PREVIOUS PAYLOAD
//! ```

use vstd::prelude::*;
use core::ops::Range;

verus! {

/// Whether a block with `N` byte hashes fits in `usize`.
pub open spec fn block_fits(n: int) -> bool {
    4 * n + 96 <= usize::MAX
}

/// Field offsets of a block with `N` byte hashes.
pub struct Math<const N: usize> {}

impl<const N: usize> Math<N> {
    pub fn hash_range() -> (r: Range<usize>)
        ensures
            r.start == 0,
            r.end == N,
    {
        0..N
    }

    pub fn signature_range() -> (r: Range<usize>)
        requires
            block_fits(N as int),
        ensures
            r.start == N,
            r.end == N + 64,
    {
        N..N + 64
    }

    pub fn pubkey_range() -> (r: Range<usize>)
        requires
            block_fits(N as int),
        ensures
            r.start == N + 64,
            r.end == N + 96,
    {
        let start = N + 64;
        start..start + 32
    }

    pub fn next_range() -> (r: Range<usize>)
        requires
            block_fits(N as int),
        ensures
            r.start == N + 96,
            r.end == 2 * N + 96,
    {
        let start = N + 96;
        start..start + N
    }

    pub fn previous_range() -> (r: Range<usize>)
        requires
            block_fits(N as int),
        ensures
            r.start == 2 * N + 96,
            r.end == 3 * N + 96,
    {
        let start = 2 * N + 96;
        start..start + N
    }

    pub fn payload_range() -> (r: Range<usize>)
        requires
            block_fits(N as int),
        ensures
            r.start == 3 * N + 96,
            r.end == 4 * N + 96,
    {
        let start = 3 * N + 96;
        start..start + N
    }

    /// Bytes in a block.
    pub fn size() -> (r: usize)
        requires
            block_fits(N as int),
        ensures
            r == 4 * N + 96,
    {
        4 * N + 96
    }
}

/// Read-only access to the fields of a block.
pub struct Block<'a, const N: usize> {
    buf: &'a [u8],
}

impl<'a, const N: usize> Block<'a, N> {
    pub closed spec fn spec_buf(&self) -> Seq<u8> {
        self.buf@
    }

    pub fn new(buf: &'a [u8]) -> (r: Self)
        ensures
            r.spec_buf() == buf@,
    {
        Self { buf }
    }

    pub fn as_hash(&self) -> (r: &[u8])
        requires
            self.spec_buf().len() >= N,
        ensures
            r@ == self.spec_buf().subrange(0, N as int),
    {
        let range = Math::<N>::hash_range();
        vstd::slice::slice_subrange(self.buf, range.start, range.end)
    }

    pub fn as_signature(&self) -> (r: &[u8])
        requires
            block_fits(N as int),
            self.spec_buf().len() >= N + 64,
        ensures
            r@ == self.spec_buf().subrange(N as int, N + 64),
    {
        let range = Math::<N>::signature_range();
        vstd::slice::slice_subrange(self.buf, range.start, range.end)
    }

    pub fn as_pubkey(&self) -> (r: &[u8])
        requires
            block_fits(N as int),
            self.spec_buf().len() >= N + 96,
        ensures
            r@ == self.spec_buf().subrange(N + 64, N + 96),
    {
        let range = Math::<N>::pubkey_range();
        vstd::slice::slice_subrange(self.buf, range.start, range.end)
    }

    pub fn as_next(&self) -> (r: &[u8])
        requires
            block_fits(N as int),
            self.spec_buf().len() >= 2 * N + 96,
        ensures
            r@ == self.spec_buf().subrange(N + 96, 2 * N + 96),
    {
        let range = Math::<N>::next_range();
        vstd::slice::slice_subrange(self.buf, range.start, range.end)
    }

    pub fn as_previous(&self) -> (r: &[u8])
        requires
            block_fits(N as int),
            self.spec_buf().len() >= 3 * N + 96,
        ensures
            r@ == self.spec_buf().subrange(2 * N + 96, 3 * N + 96),
    {
        let range = Math::<N>::previous_range();
        vstd::slice::slice_subrange(self.buf, range.start, range.end)
    }

    pub fn as_payload(&self) -> (r: &[u8])
        requires
            block_fits(N as int),
            self.spec_buf().len() >= 4 * N + 96,
        ensures
            r@ == self.spec_buf().subrange(3 * N + 96, 4 * N + 96),
    {
        let range = Math::<N>::payload_range();
        vstd::slice::slice_subrange(self.buf, range.start, range.end)
    }
}

/// The bytes `start..end` of `s`, for writing.
fn range_mut(s: &mut [u8], start: usize, end: usize) -> (r: &mut [u8])
    requires
        start <= end <= old(s)@.len(),
    ensures
        r@ == old(s)@.subrange(start as int, end as int),
        final(s)@ == old(s)@.subrange(0, start as int) + final(r)@ + old(s)@.subrange(
            end as int,
            old(s)@.len() as int,
        ),
{
    let (head, _tail) = s.split_at_mut(end);
    let (_front, mid) = head.split_at_mut(start);
    mid
}

/// Write access to the fields of a block.
pub struct MutBlock<'a, const N: usize> {
    buf: &'a mut [u8],
}

impl<'a, const N: usize> MutBlock<'a, N> {
    pub closed spec fn spec_buf(&self) -> Seq<u8> {
        self.buf@
    }

    pub fn new(buf: &'a mut [u8]) -> (r: Self)
        ensures
            r.spec_buf() == old(buf)@,
    {
        Self { buf }
    }

    fn field(&mut self, start: usize, end: usize) -> (r: &mut [u8])
        requires
            start <= end <= old(self).spec_buf().len(),
        ensures
            r@ == old(self).spec_buf().subrange(start as int, end as int),
            final(self).spec_buf() == old(self).spec_buf().subrange(0, start as int) + final(r)@
                + old(self).spec_buf().subrange(end as int, old(self).spec_buf().len() as int),
    {
        range_mut(self.buf, start, end)
    }

    pub fn as_hash(&mut self) -> (r: &mut [u8])
        requires
            old(self).spec_buf().len() >= N as int,
        ensures
            r@ == old(self).spec_buf().subrange(0, N as int),
            final(self).spec_buf() == old(self).spec_buf().subrange(0, 0) + final(r)@
                + old(self).spec_buf().subrange(N as int, old(self).spec_buf().len() as int),
    {
        let range = Math::<N>::hash_range();
        self.field(range.start, range.end)
    }

    pub fn as_signature(&mut self) -> (r: &mut [u8])
        requires
            block_fits(N as int),
            old(self).spec_buf().len() >= N + 64,
        ensures
            r@ == old(self).spec_buf().subrange(N as int, N + 64),
            final(self).spec_buf() == old(self).spec_buf().subrange(0, N as int) + final(r)@
                + old(self).spec_buf().subrange(N + 64, old(self).spec_buf().len() as int),
    {
        let range = Math::<N>::signature_range();
        self.field(range.start, range.end)
    }

    pub fn as_pubkey(&mut self) -> (r: &mut [u8])
        requires
            block_fits(N as int),
            old(self).spec_buf().len() >= N + 96,
        ensures
            r@ == old(self).spec_buf().subrange(N + 64, N + 96),
            final(self).spec_buf() == old(self).spec_buf().subrange(0, N + 64) + final(r)@
                + old(self).spec_buf().subrange(N + 96, old(self).spec_buf().len() as int),
    {
        let range = Math::<N>::pubkey_range();
        self.field(range.start, range.end)
    }

    pub fn as_next(&mut self) -> (r: &mut [u8])
        requires
            block_fits(N as int),
            old(self).spec_buf().len() >= 2 * N + 96,
        ensures
            r@ == old(self).spec_buf().subrange(N + 96, 2 * N + 96),
            final(self).spec_buf() == old(self).spec_buf().subrange(0, N + 96) + final(r)@
                + old(self).spec_buf().subrange(2 * N + 96, old(self).spec_buf().len() as int),
    {
        let range = Math::<N>::next_range();
        self.field(range.start, range.end)
    }

    pub fn as_previous(&mut self) -> (r: &mut [u8])
        requires
            block_fits(N as int),
            old(self).spec_buf().len() >= 3 * N + 96,
        ensures
            r@ == old(self).spec_buf().subrange(2 * N + 96, 3 * N + 96),
            final(self).spec_buf() == old(self).spec_buf().subrange(0, 2 * N + 96) + final(r)@
                + old(self).spec_buf().subrange(3 * N + 96, old(self).spec_buf().len() as int),
    {
        let range = Math::<N>::previous_range();
        self.field(range.start, range.end)
    }

    pub fn as_payload(&mut self) -> (r: &mut [u8])
        requires
            block_fits(N as int),
            old(self).spec_buf().len() >= 4 * N + 96,
        ensures
            r@ == old(self).spec_buf().subrange(3 * N + 96, 4 * N + 96),
            final(self).spec_buf() == old(self).spec_buf().subrange(0, 3 * N + 96) + final(r)@
                + old(self).spec_buf().subrange(4 * N + 96, old(self).spec_buf().len() as int),
    {
        let range = Math::<N>::payload_range();
        self.field(range.start, range.end)
    }
}

/// Read access to a buffer.
pub struct Read<'a> {
    buf: &'a [u8],
}

impl<'a> Read<'a> {
    pub closed spec fn spec_buf(&self) -> Seq<u8> {
        self.buf@
    }

    pub fn new(buf: &'a [u8]) -> (r: Self)
        ensures
            r.spec_buf() == buf@,
    {
        Self { buf }
    }
}

/// Write access to a buffer.
pub struct Write<'a> {
    buf: &'a mut [u8],
}

impl<'a> Write<'a> {
    pub closed spec fn spec_buf(&self) -> Seq<u8> {
        self.buf@
    }

    pub fn new(buf: &'a mut [u8]) -> (r: Self)
        ensures
            r.spec_buf() == old(buf)@,
    {
        Self { buf }
    }
}

} // verus!
