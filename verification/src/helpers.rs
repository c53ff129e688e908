//! Flipping single bits, for checking that every bit of a message matters.

use vstd::prelude::*;

verus! {

/// `s` with bit `bit` flipped (bit 0 is the lowest bit of the first byte).
pub open spec fn flipped(s: Seq<u8>, bit: int) -> Seq<u8> {
    s.update(bit / 8, s[bit / 8] ^ (1u8 << ((bit % 8) as u8)))
}

/// Flipping a bit changes exactly the byte that holds it, and flipping the
/// same bit again gives the buffer back.
pub proof fn lemma_flip_twice(s: Seq<u8>, bit: int)
    requires
        0 <= bit < s.len() * 8,
    ensures
        flipped(s, bit).len() == s.len(),
        flipped(s, bit) != s,
        forall|i: int| 0 <= i < s.len() && i != bit / 8 ==> #[trigger] flipped(s, bit)[i] == s[i],
        flipped(flipped(s, bit), bit) == s,
{
    let i = bit / 8;
    let k = (bit % 8) as u8;
    let x = s[i];
    assert(((x ^ (1u8 << k)) ^ (1u8 << k)) == x && (x ^ (1u8 << k)) != x) by (bit_vector)
        requires
            k < 8,
    ;
    assert(flipped(s, bit)[i] != s[i]);
    assert(flipped(flipped(s, bit), bit) =~= s);
}

/// Flips bit `bit` of `buf`.
pub fn flip_bit_in(buf: &mut [u8], bit: usize)
    requires
        bit < old(buf)@.len() * 8,
    ensures
        final(buf)@ == flipped(old(buf)@, bit as int),
{
    let i = bit / 8;
    let v = buf[i] ^ (1u8 << ((bit % 8) as u8));
    buf[i] = v;
}

/// A copy of `src` with bit `bit` flipped.
pub fn flip_bit(src: &[u8], bit: usize) -> (r: Vec<u8>)
    requires
        bit < src@.len() * 8,
    ensures
        r@ == flipped(src@, bit as int),
{
    let mut copy = vstd::slice::slice_to_vec(src);
    flip_bit_in(copy.as_mut_slice(), bit);
    copy
}

/// Yields each copy of a buffer with one bit flipped, lowest bit first.
pub struct BitFlipIter<'a> {
    src: &'a [u8],
    bit: usize,
}

impl<'a> BitFlipIter<'a> {
    pub closed spec fn spec_src(&self) -> Seq<u8> {
        self.src@
    }

    /// The bit that the next copy flips.
    pub closed spec fn spec_bit(&self) -> usize {
        self.bit
    }

    pub fn new(src: &'a [u8]) -> (r: Self)
        ensures
            r.spec_src() == src@,
            r.spec_bit() == 0,
    {
        Self { src: src, bit: 0 }
    }

    /// The copy with the next bit flipped, or `None` once every bit has been.
    pub fn next(&mut self) -> (r: Option<Vec<u8>>)
        requires
            old(self).spec_bit() < usize::MAX,
        ensures
            final(self).spec_src() == old(self).spec_src(),
            old(self).spec_bit() < old(self).spec_src().len() * 8 ==> {
                &&& r matches Some(v) && v@ == flipped(old(self).spec_src(), old(self).spec_bit() as int)
                &&& final(self).spec_bit() == old(self).spec_bit() + 1
            },
            old(self).spec_bit() >= old(self).spec_src().len() * 8 ==> r is None,
            old(self).spec_bit() >= old(self).spec_src().len() * 8 ==> final(self).spec_bit()
                == old(self).spec_bit(),
    {
        if self.bit / 8 < self.src.len() {
            let buf = flip_bit(self.src, self.bit);
            self.bit = self.bit + 1;
            Some(buf)
        } else {
            None
        }
    }
}

} // verus!
