//! Object hashing protocol.

use vstd::prelude::*;
use core::marker::PhantomData;

verus! {

/// What Blake3's extendable output gives for `data` when `out_len` bytes are
/// read from it.
pub uninterp spec fn blake3_xof(data: Seq<u8>, out_len: nat) -> Seq<u8>;

/// Hashes `data` with `blake3::Hasher` (`update`, then `finalize_xof` and
/// `fill`), filling all of `out` with the extendable output.  The contract
/// claims that the output is a function of the data and the output length,
/// and that the buffer keeps its length.
#[verifier::external_body]
pub(crate) fn blake3_fill(data: &[u8], out: &mut [u8])
    ensures
        final(out)@ == blake3_xof(data@, old(out)@.len()),
        final(out)@.len() == old(out)@.len(),
{
    let mut h = blake3::Hasher::new();
    h.update(data);
    h.finalize_xof().fill(out);
}

/// A hash function producing digests of any length that is a positive
/// multiple of 5 bytes.
pub trait Hasher: Sized {
    /// The digest of `data` when `len` bytes are asked for.
    spec fn spec_hash(data: Seq<u8>, len: nat) -> Seq<u8>;

    fn new() -> Self;

    fn hash_into(&self, data: &[u8], hash: &mut [u8])
        requires
            old(hash)@.len() > 0,
            old(hash)@.len() % 5 == 0,
        ensures
            final(hash)@ == Self::spec_hash(data@, old(hash)@.len()),
            final(hash)@.len() == old(hash)@.len(),
    ;
}

pub struct Blake3 {}

impl Hasher for Blake3 {
    open spec fn spec_hash(data: Seq<u8>, len: nat) -> Seq<u8> {
        blake3_xof(data, len)
    }

    fn new() -> Self {
        Self {  }
    }

    fn hash_into(&self, payload: &[u8], hash: &mut [u8]) {
        blake3_fill(payload, hash);
    }
}

pub type DefaultHasher = Blake3;

// ---------------------------------------------------------------------------
// Hashes of the leaf-wise object format: each hashes a one byte domain tag
// followed by the fields, into 30 bytes.

/// Little-endian bytes of a `u64`.
pub open spec fn le_bytes_u64(v: u64) -> Seq<u8> {
    Seq::new(8, |i: int| ((v >> (8 * i) as u64) & 0xff) as u8)
}

/// The `u64` whose little-endian bytes are `s[0..8]`.
pub open spec fn u64_from_le(s: Seq<u8>) -> u64 {
    (s[0] as u64) | (s[1] as u64) << 8u64 | (s[2] as u64) << 16u64 | (s[3] as u64) << 24u64 | (
    s[4] as u64) << 32u64 | (s[5] as u64) << 40u64 | (s[6] as u64) << 48u64 | (s[7] as u64)
        << 56u64
}

/// The little-endian bytes of zero are zeros.
pub proof fn lemma_le_bytes_zero()
    ensures
        le_bytes_u64(0) == Seq::new(8, |i: int| 0u8),
{
    assert forall|i: int| 0 <= i < 8 implies le_bytes_u64(0)[i] == 0u8 by {
        let s = (8 * i) as u64;
        assert((0u64 >> s) & 0xff == 0) by (bit_vector);
    }
    assert(le_bytes_u64(0) =~= Seq::new(8, |i: int| 0u8));
}

/// Reading back the little-endian bytes of a `u64` gives the `u64`.
pub proof fn lemma_u64_le_roundtrip(v: u64)
    ensures
        u64_from_le(le_bytes_u64(v)) == v,
        le_bytes_u64(v).len() == 8,
{
    let b = le_bytes_u64(v);
    assert(b[0] == ((v >> 0u64) & 0xff) as u8);
    assert(b[1] == ((v >> 8u64) & 0xff) as u8);
    assert(b[2] == ((v >> 16u64) & 0xff) as u8);
    assert(b[3] == ((v >> 24u64) & 0xff) as u8);
    assert(b[4] == ((v >> 32u64) & 0xff) as u8);
    assert(b[5] == ((v >> 40u64) & 0xff) as u8);
    assert(b[6] == ((v >> 48u64) & 0xff) as u8);
    assert(b[7] == ((v >> 56u64) & 0xff) as u8);
    assert(((v >> 0u64) & 0xff) < 256 && ((v >> 8u64) & 0xff) < 256 && ((v >> 16u64) & 0xff) < 256
        && ((v >> 24u64) & 0xff) < 256 && ((v >> 32u64) & 0xff) < 256 && ((v >> 40u64) & 0xff) < 256
        && ((v >> 48u64) & 0xff) < 256 && ((v >> 56u64) & 0xff) < 256) by (bit_vector);
    assert(((v >> 0u64) & 0xff) | ((v >> 8u64) & 0xff) << 8u64 | ((v >> 16u64) & 0xff) << 16u64 | ((
    v >> 24u64) & 0xff) << 24u64 | ((v >> 32u64) & 0xff) << 32u64 | ((v >> 40u64) & 0xff) << 40u64
        | ((v >> 48u64) & 0xff) << 48u64 | ((v >> 56u64) & 0xff) << 56u64 == v) by (bit_vector);
}

/// Reads a `u64` from 8 little-endian bytes.
pub fn read_u64_le(s: &[u8]) -> (r: u64)
    requires
        s@.len() == 8,
    ensures
        r == u64_from_le(s@),
{
    (s[0] as u64) | (s[1] as u64) << 8 | (s[2] as u64) << 16 | (s[3] as u64) << 24 | (s[4] as u64)
        << 32 | (s[5] as u64) << 40 | (s[6] as u64) << 48 | (s[7] as u64) << 56
}

/// The little-endian bytes of a `u64`.
pub fn u64_le_bytes(v: u64) -> (r: [u8; 8])
    ensures
        r@ == le_bytes_u64(v),
{
    let r = [
        (v & 0xff) as u8,
        ((v >> 8) & 0xff) as u8,
        ((v >> 16) & 0xff) as u8,
        ((v >> 24) & 0xff) as u8,
        ((v >> 32) & 0xff) as u8,
        ((v >> 40) & 0xff) as u8,
        ((v >> 48) & 0xff) as u8,
        ((v >> 56) & 0xff) as u8,
    ];
    assert(v & 0xff == (v >> 0u64) & 0xff) by (bit_vector);
    assert(r@ =~= le_bytes_u64(v));
    r
}

/// The 30 byte hash of a message.
pub open spec fn tub_hash(msg: Seq<u8>) -> Seq<u8> {
    blake3_xof(msg, 30)
}

/// Message hashed for leaf `index` holding `data`.
pub open spec fn leaf_message(index: u64, data: Seq<u8>) -> Seq<u8> {
    seq![0u8] + le_bytes_u64(index) + data
}

/// Message hashed for the payload (leaf hashes or small data) of an object of `size` bytes.
pub open spec fn payload_message(size: u64, payload: Seq<u8>) -> Seq<u8> {
    seq![1u8] + le_bytes_u64(size) + payload
}

/// Message hashed for the root hash of an object of `size` bytes.
pub open spec fn root_message(size: u64, payload_hash: Seq<u8>) -> Seq<u8> {
    seq![2u8] + le_bytes_u64(size) + payload_hash
}

/// Message hashed for the tombstone of the object with hash `hash`.
pub open spec fn tombstone_message(hash: Seq<u8>) -> Seq<u8> {
    seq![3u8] + hash
}

fn push_u64_le(buf: &mut Vec<u8>, v: u64)
    ensures
        final(buf)@ == old(buf)@ + le_bytes_u64(v),
{
    let mut i: u64 = 0;
    while i < 8
        invariant
            i <= 8,
            buf@ == old(buf)@ + le_bytes_u64(v).take(i as int),
        decreases 8 - i,
    {
        let b = ((v >> (8 * i)) & 0xff) as u8;
        proof {
            assert(buf@.push(b) =~= old(buf)@ + le_bytes_u64(v).take(i + 1));
        }
        buf.push(b);
        i = i + 1;
    }
    assert(le_bytes_u64(v).take(8) =~= le_bytes_u64(v));
}

fn hash_message(msg: &[u8]) -> (r: [u8; 30])
    ensures
        r@ == tub_hash(msg@),
{
    let mut out = [0u8;30];
    blake3_fill(msg, &mut out);
    out
}

/// Hash of leaf `index` holding `data`.
pub fn hash_leaf(index: u64, data: &[u8]) -> (r: [u8; 30])
    ensures
        r@ == tub_hash(leaf_message(index, data@)),
{
    let mut msg: Vec<u8> = Vec::new();
    msg.push(0u8);
    push_u64_le(&mut msg, index);
    msg.extend_from_slice(data);
    assert(msg@ =~= leaf_message(index, data@));
    hash_message(msg.as_slice())
}

/// Hash of the payload of an object of `size` bytes.
pub fn hash_payload(size: u64, payload: &[u8]) -> (r: [u8; 30])
    ensures
        r@ == tub_hash(payload_message(size, payload@)),
{
    let mut msg: Vec<u8> = Vec::new();
    msg.push(1u8);
    push_u64_le(&mut msg, size);
    msg.extend_from_slice(payload);
    assert(msg@ =~= payload_message(size, payload@));
    hash_message(msg.as_slice())
}

/// Root hash of an object of `size` bytes with the given payload hash.
pub fn hash_root(size: u64, payload_hash: &[u8]) -> (r: [u8; 30])
    ensures
        r@ == tub_hash(root_message(size, payload_hash@)),
{
    let mut msg: Vec<u8> = Vec::new();
    msg.push(2u8);
    push_u64_le(&mut msg, size);
    msg.extend_from_slice(payload_hash);
    assert(msg@ =~= root_message(size, payload_hash@));
    hash_message(msg.as_slice())
}

/// Tombstone hash for the object with hash `hash`.
pub fn hash_tombstone(hash: &[u8]) -> (r: [u8; 30])
    ensures
        r@ == tub_hash(tombstone_message(hash@)),
{
    let mut msg: Vec<u8> = Vec::new();
    msg.push(3u8);
    msg.extend_from_slice(hash);
    assert(msg@ =~= tombstone_message(hash@));
    hash_message(msg.as_slice())
}

/// Sizes of the fields of an object header: digest, size, and a kind byte.
pub trait Protocol: Sized {
    /// Bytes of the digest field.
    spec fn spec_digest() -> nat;

    /// Bytes of the size field.
    spec fn spec_size() -> nat;

    fn digest() -> (r: usize)
        ensures
            r == Self::spec_digest(),
    ;

    fn size() -> (r: usize)
        ensures
            r == Self::spec_size(),
    ;

    /// Bytes of the whole header: digest, size and the kind byte (at most
    /// `usize::MAX`).
    fn header() -> (r: usize)
        ensures
            Self::spec_digest() + Self::spec_size() + 1 <= usize::MAX ==> r == Self::spec_digest()
                + Self::spec_size() + 1,
            Self::spec_digest() + Self::spec_size() + 1 > usize::MAX ==> r == usize::MAX,
    {
        Self::digest().saturating_add(Self::size()).saturating_add(1)
    }
}

/// The protocol of this store: a 30 byte digest and a 3 byte size field.
pub struct ProtocolZero {}

impl Protocol for ProtocolZero {
    open spec fn spec_digest() -> nat {
        30
    }

    open spec fn spec_size() -> nat {
        3
    }

    fn digest() -> (r: usize) {
        30
    }

    fn size() -> (r: usize) {
        3
    }
}

/// Bytes of the header of protocol `P`: digest, size and the kind byte,
/// capped at `usize::MAX`.
pub open spec fn header_len<P: Protocol>() -> int {
    if P::spec_digest() + P::spec_size() + 1 <= usize::MAX {
        (P::spec_digest() + P::spec_size() + 1) as int
    } else {
        usize::MAX as int
    }
}

pub struct Hash<const N: usize> {
    buf: [u8; N],
}

impl<const N: usize> Hash<N> {
    /// The bytes of this hash.
    pub closed spec fn spec_bytes(&self) -> Seq<u8> {
        self.buf@
    }
}

/// Iterator over hashes; it yields nothing.
pub struct HashIter<const N: usize> {}

impl<const N: usize> HashIter<N> {
    pub fn next(&mut self) -> (r: Option<Hash<N>>)
        ensures
            r is None,
    {
        None
    }
}

pub struct Object<P: Protocol, const N: usize> {
    phantom: PhantomData<P>,
    buf: Vec<u8>,
}

impl<P: Protocol, const N: usize> Object<P, N> {
    /// The bytes of this object.
    pub closed spec fn spec_buf(&self) -> Seq<u8> {
        self.buf@
    }

    /// The header bytes, at the start of the buffer.
    pub fn as_header(&self) -> (r: &[u8])
        requires
            header_len::<P>() <= self.spec_buf().len(),
        ensures
            r@ == self.spec_buf().subrange(0, header_len::<P>()),
    {
        let h = P::header();
        vstd::slice::slice_subrange(self.buf.as_slice(), 0, h)
    }
}

} // verus!
