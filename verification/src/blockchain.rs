//! Signed headers of a block chain.
//!
//! ```text
//! 0..30    30..94     94..126
//! HASH     SIGNATURE  PUBKEY
//! ```
//!
//! The hash covers the signature and the public key; the signature signs the
//! public key.

use vstd::prelude::*;
use crate::chaos::{DefaultName, Name};
use crate::protocol::{blake3_fill, tub_hash, le_bytes_u64, u64_from_le, read_u64_le, u64_le_bytes, lemma_u64_le_roundtrip};

verus! {

/// Whether libsodium accepts `sig` as an ed25519 signature of `msg` by the
/// public key `pk`.
pub uninterp spec fn ed25519_verify(sig: Seq<u8>, msg: Seq<u8>, pk: Seq<u8>) -> bool;

/// The ed25519 signature that libsodium makes of `msg` with the secret key `sk`.
pub uninterp spec fn ed25519_sign(msg: Seq<u8>, sk: Seq<u8>) -> Seq<u8>;

/// The public key that libsodium reads out of a 64 byte secret key: its
/// last 32 bytes (the first 32 are the seed).
pub open spec fn secret_key_public(sk: Seq<u8>) -> Seq<u8> {
    sk.subrange(32, 64)
}

/// Whether 64 bytes form a signature that the `ed25519` crate's
/// `Signature::try_from` accepts: the three highest bits of the last byte
/// are clear.
pub open spec fn signature_ok(b: Seq<u8>) -> bool {
    b.len() == 64 && b[63] & 0xe0 == 0
}

/// `sodiumoxide::crypto::sign::verify_detached`, on a signature and a public
/// key given as bytes (converted with `Signature::try_from` and
/// `PublicKey::from_slice`, which accept them by the `requires`).  The
/// contract claims that the answer is a function of the three arguments.
#[verifier::external_body]
fn verify_detached(sig: &[u8], msg: &[u8], pk: &[u8]) -> (r: bool)
    requires
        signature_ok(sig@),
        pk@.len() == 32,
    ensures
        r == ed25519_verify(sig@, msg@, pk@),
{
    let sig = sodiumoxide::crypto::sign::Signature::try_from(sig).unwrap();
    let pk = sodiumoxide::crypto::sign::PublicKey::from_slice(pk).unwrap();
    sodiumoxide::crypto::sign::verify_detached(&sig, msg, &pk)
}

/// `sodiumoxide::crypto::sign::sign_detached` with the secret key given as
/// bytes.  The contract claims that the signature is a function of the
/// message and the key, and that `Signature::try_from` accepts it (the crate
/// builds it with `Signature::new`, which panics on any other).
#[verifier::external_body]
fn sign_detached(msg: &[u8], sk: &[u8; 64]) -> (r: [u8; 64])
    ensures
        r@ == ed25519_sign(msg@, sk@),
        signature_ok(r@),
{
    let sk = sodiumoxide::crypto::sign::SecretKey(*sk);
    sodiumoxide::crypto::sign::sign_detached(msg, &sk).to_bytes()
}

/// `sodiumoxide::crypto::sign::SecretKey::public_key` on a secret key given
/// as bytes.  The contract claims what libsodium's
/// `crypto_sign_ed25519_sk_to_pk` does: it copies the key's last 32 bytes.
#[verifier::external_body]
fn public_key(sk: &[u8; 64]) -> (r: [u8; 32])
    ensures
        r@ == secret_key_public(sk@),
{
    sodiumoxide::crypto::sign::SecretKey(*sk).public_key().0
}

/// The 30 byte Blake3 hash of `payload`.
fn compute_hash(payload: &[u8]) -> (r: DefaultName)
    ensures
        r.buf@ == tub_hash(payload@),
{
    let mut hash = DefaultName::new();
    blake3_fill(payload, hash.as_mut_buf());
    hash
}

fn copy_into(dst: &mut [u8], at: usize, src: &[u8])
    requires
        at + src@.len() <= old(dst)@.len(),
    ensures
        final(dst)@ == old(dst)@.subrange(0, at as int) + src@ + old(dst)@.subrange(
            at + src@.len(),
            old(dst)@.len() as int,
        ),
{
    let dlen = dst.len();
    let mut i: usize = 0;
    while i < src.len()
        invariant
            at + src@.len() <= dlen,
            dlen == old(dst)@.len(),
            dst@.len() == dlen,
            i <= src@.len(),
            forall|j: int| 0 <= j < at || at + src@.len() <= j < dlen ==> #[trigger] dst@[j] == old(dst)@[j],
            forall|j: int| 0 <= j < i ==> #[trigger] dst@[at + j] == src@[j],
            forall|j: int| i <= j < src@.len() ==> #[trigger] dst@[at + j] == old(dst)@[at + j],
        decreases src@.len() - i,
    {
        dst[at + i] = src[i];
        i = i + 1;
    }
    assert(dst@ =~= old(dst)@.subrange(0, at as int) + src@ + old(dst)@.subrange(
        at + src@.len(),
        old(dst)@.len() as int,
    )) by {
        assert forall|j: int| 0 <= j < dlen implies #[trigger] dst@[j] == (old(dst)@.subrange(0, at as int) + src@ + old(dst)@.subrange(at + src@.len(), old(dst)@.len() as int))[j] by {
            if at <= j < at + src@.len() {
                assert(dst@[at + (j - at)] == src@[j - at]);
            }
        }
    }
}

/// A block chain header: hash, signature, public key.
pub struct Header {
    buf: [u8; 126],
}

impl View for Header {
    type V = Seq<u8>;

    closed spec fn view(&self) -> Seq<u8> {
        self.buf@
    }
}

/// The signature field.
pub open spec fn header_signature(b: Seq<u8>) -> Seq<u8> {
    b.subrange(30, 94)
}

/// The public key field.
pub open spec fn header_pubkey(b: Seq<u8>) -> Seq<u8> {
    b.subrange(94, 126)
}

impl Header {
    /// Every header is 126 bytes long.
    pub proof fn lemma_view_len(&self)
        ensures
            self@.len() == 126,
    {
    }

    pub fn new() -> (r: Self)
        ensures
            r@ == Seq::new(126, |i: int| 0u8),
    {
        let r = Self { buf: [0u8;126] };
        assert(r.buf@ =~= Seq::new(126, |i: int| 0u8));
        r
    }

    pub fn len(&self) -> (r: usize)
        ensures
            r == 126,
            r == self@.len(),
    {
        self.buf.len()
    }

    /// The hash of signature and public key.
    pub fn compute(&self) -> (r: DefaultName)
        ensures
            r.buf@ == tub_hash(self@.subrange(30, 126)),
    {
        compute_hash(&self.buf[30..126])
    }

    /// Signs the public key of `sk` with `sk`, writes signature, public key
    /// and hash, and gives the signature.
    pub fn sign(&mut self, sk: &[u8; 64]) -> (r: [u8; 64])
        ensures
            ({
                let pk = secret_key_public(sk@);
                let sig = ed25519_sign(pk, sk@);
                &&& r@ == sig
                &&& signature_ok(sig)
                &&& header_signature(final(self)@) == sig
                &&& header_pubkey(final(self)@) == pk
                &&& final(self)@.subrange(0, 30) == tub_hash(sig + pk)
            }),
    {
        let pk = public_key(sk);
        let sig = sign_detached(&pk, sk);
        self.set_signature(&sig);
        self.set_pubkey(&pk);
        let ghost b2 = self.buf@;
        proof {
            assert(b2.subrange(30, 126) =~= sig@ + pk@);
        }
        let h = self.compute();
        self.set_hash(&h);
        proof {
            assert(self.buf@.subrange(30, 94) =~= sig@);
            assert(self.buf@.subrange(94, 126) =~= pk@);
            assert(self.buf@.subrange(0, 30) =~= h.buf@);
        }
        sig
    }

    /// Whether the hash field holds the hash of signature and public key.
    pub fn verify_hash(&self) -> (r: bool)
        ensures
            r == (self@.subrange(0, 30) == tub_hash(self@.subrange(30, 126))),
    {
        let h = self.hash();
        let c = self.compute();
        h == c
    }

    /// Whether the signature is a valid ed25519 signature of the public key
    /// by the public key.
    pub fn verify_signature(&self) -> (r: bool)
        ensures
            r == (signature_ok(header_signature(self@)) && ed25519_verify(
                header_signature(self@),
                header_pubkey(self@),
                header_pubkey(self@),
            )),
    {
        let sig = &self.buf[30..94];
        if sig[63] & 0xe0 == 0 {
            let pk = &self.buf[94..126];
            verify_detached(sig, pk, pk)
        } else {
            false
        }
    }

    pub fn verify(&self) -> (r: bool)
        ensures
            r == ((self@.subrange(0, 30) == tub_hash(self@.subrange(30, 126))) && signature_ok(
                header_signature(self@),
            ) && ed25519_verify(header_signature(self@), header_pubkey(self@), header_pubkey(self@))),
    {
        self.verify_hash() && self.verify_signature()
    }

    pub fn as_buf(&self) -> (r: &[u8])
        ensures
            r@ == self@,
    {
        &self.buf
    }

    pub fn as_mut_buf(&mut self) -> (r: &mut [u8])
        ensures
            r@ == old(self)@,
            final(self)@ == final(r)@,
    {
        &mut self.buf
    }

    pub fn hash(&self) -> (r: DefaultName)
        ensures
            r.buf@ == self@.subrange(0, 30),
    {
        Name::from(&self.buf[0..30])
    }

    pub fn set_hash(&mut self, hash: &DefaultName)
        ensures
            final(self)@ == hash.buf@ + old(self)@.subrange(30, 126),
    {
        copy_into(&mut self.buf, 0, hash.as_buf());
        assert(self.buf@ =~= hash.buf@ + old(self).buf@.subrange(30, 126));
    }

    /// The signature, where `Signature::try_from` accepts it.
    pub fn signature(&self) -> (r: Option<[u8; 64]>)
        ensures
            r is Some <==> signature_ok(header_signature(self@)),
            r matches Some(s) ==> s@ == header_signature(self@),
    {
        if self.buf[93] & 0xe0 == 0 {
            let mut s = [0u8;64];
            copy_into(&mut s, 0, &self.buf[30..94]);
            assert(s@ =~= header_signature(self.buf@));
            Some(s)
        } else {
            None
        }
    }

    pub fn set_signature(&mut self, sig: &[u8; 64])
        ensures
            final(self)@ == old(self)@.subrange(0, 30) + sig@ + old(self)@.subrange(94, 126),
    {
        copy_into(&mut self.buf, 30, sig);
    }

    pub fn pubkey(&self) -> (r: [u8; 32])
        ensures
            r@ == header_pubkey(self@),
    {
        let mut p = [0u8;32];
        copy_into(&mut p, 0, &self.buf[94..126]);
        assert(p@ =~= header_pubkey(self.buf@));
        p
    }

    pub fn set_pubkey(&mut self, pk: &[u8; 32])
        ensures
            final(self)@ == old(self)@.subrange(0, 94) + pk@,
    {
        copy_into(&mut self.buf, 94, pk);
        assert(self.buf@ =~= old(self).buf@.subrange(0, 94) + pk@);
    }
}

/// A freshly signed header passes the hash check.
pub proof fn lemma_signed_hash_ok(h: Seq<u8>, sig: Seq<u8>, pk: Seq<u8>)
    requires
        sig.len() == 64,
        pk.len() == 32,
        h.len() == 126,
        h.subrange(30, 94) == sig,
        h.subrange(94, 126) == pk,
        h.subrange(0, 30) == tub_hash(sig + pk),
    ensures
        h.subrange(0, 30) == tub_hash(h.subrange(30, 126)),
{
    assert(h.subrange(30, 126) =~= sig + pk);
}

// ---------------------------------------------------------------------------
// Blocks

/// The signed range of a block: previous hash and payload hash.
pub open spec fn block_signed(b: Seq<u8>) -> Seq<u8> {
    b.subrange(94, 154)
}

/// A block of the chain, checked against the chain's public key.
///
/// ```text
/// 0..30  30..94     94..124   124..154  154..162
/// HASH   SIGNATURE  PREVIOUS  PAYLOAD   INDEX
/// ```
pub struct Block {
    buf: [u8; 162],
    pk: [u8; 32],
}

impl View for Block {
    type V = Seq<u8>;

    closed spec fn view(&self) -> Seq<u8> {
        self.buf@
    }
}

impl Block {
    /// The public key the block is checked against.
    pub closed spec fn spec_pk(&self) -> Seq<u8> {
        self.pk@
    }

    /// Every block is 162 bytes long and checked against a 32-byte key.
    pub proof fn lemma_view_len(&self)
        ensures
            self@.len() == 162,
            self.spec_pk().len() == 32,
    {
    }

    pub fn new(pk: [u8; 32]) -> (r: Self)
        ensures
            r@ == Seq::new(162, |i: int| 0u8),
            r.spec_pk() == pk@,
    {
        let r = Self { buf: [0u8;162], pk: pk };
        assert(r.buf@ =~= Seq::new(162, |i: int| 0u8));
        r
    }

    pub fn len(&self) -> (r: usize)
        ensures
            r == 162,
            r == self@.len(),
    {
        self.buf.len()
    }

    pub fn as_buf(&self) -> (r: &[u8])
        ensures
            r@ == self@,
    {
        &self.buf
    }

    pub fn as_mut_buf(&mut self) -> (r: &mut [u8])
        ensures
            r@ == old(self)@,
            final(self)@ == final(r)@,
            final(self).spec_pk() == old(self).spec_pk(),
    {
        &mut self.buf
    }

    /// The hash of signature, previous, payload (not the index).
    pub fn compute(&self) -> (r: DefaultName)
        ensures
            r.buf@ == tub_hash(self@.subrange(30, 154)),
    {
        compute_hash(&self.buf[30..154])
    }

    /// Signs previous and payload with `sk`, writes signature and hash, and
    /// gives the signature.
    pub fn sign(&mut self, sk: &[u8; 64]) -> (r: [u8; 64])
        ensures
            r@ == ed25519_sign(block_signed(old(self)@), sk@),
            signature_ok(r@),
            final(self)@.subrange(30, 94) == r@,
            final(self)@.subrange(94, 162) == old(self)@.subrange(94, 162),
            final(self)@.subrange(0, 30) == tub_hash(final(self)@.subrange(30, 154)),
            final(self).spec_pk() == old(self).spec_pk(),
    {
        let sig = sign_detached(&self.buf[94..154], sk);
        self.set_signature(&sig);
        let ghost b1 = self.buf@;
        let h = self.compute();
        self.set_hash(&h);
        proof {
            assert(self.buf@.subrange(30, 154) =~= b1.subrange(30, 154));
            assert(self.buf@.subrange(0, 30) =~= h.buf@);
            assert(self.buf@.subrange(30, 94) =~= sig@);
            assert(self.buf@.subrange(94, 162) =~= old(self).buf@.subrange(94, 162));
        }
        sig
    }

    pub fn as_signed(&self) -> (r: &[u8])
        ensures
            r@ == block_signed(self@),
    {
        &self.buf[94..154]
    }

    pub fn verify_hash(&self) -> (r: bool)
        ensures
            r == (self@.subrange(0, 30) == tub_hash(self@.subrange(30, 154))),
    {
        let h = self.hash();
        let c = self.compute();
        h == c
    }

    /// Whether the signature is a valid ed25519 signature of previous and
    /// payload by the chain's public key.
    pub fn verify_signature(&self) -> (r: bool)
        ensures
            r == (signature_ok(self@.subrange(30, 94)) && ed25519_verify(
                self@.subrange(30, 94),
                block_signed(self@),
                self.spec_pk(),
            )),
    {
        let sig = &self.buf[30..94];
        if sig[63] & 0xe0 == 0 {
            verify_detached(sig, &self.buf[94..154], &self.pk)
        } else {
            false
        }
    }

    pub fn verify(&self) -> (r: bool)
        ensures
            r == ((self@.subrange(0, 30) == tub_hash(self@.subrange(30, 154))) && signature_ok(
                self@.subrange(30, 94),
            ) && ed25519_verify(self@.subrange(30, 94), block_signed(self@), self.spec_pk())),
    {
        self.verify_hash() && self.verify_signature()
    }

    /// Whether the block verifies and follows the block `previous`.
    pub fn verify_against(&self, previous: &DefaultName) -> (r: bool)
        ensures
            r == ((self@.subrange(0, 30) == tub_hash(self@.subrange(30, 154))) && signature_ok(
                self@.subrange(30, 94),
            ) && ed25519_verify(self@.subrange(30, 94), block_signed(self@), self.spec_pk())
                && self@.subrange(94, 124) == previous.buf@),
    {
        if self.verify() {
            let p = self.previous();
            p == *previous
        } else {
            false
        }
    }

    pub fn hash(&self) -> (r: DefaultName)
        ensures
            r.buf@ == self@.subrange(0, 30),
    {
        Name::from(&self.buf[0..30])
    }

    pub fn set_hash(&mut self, hash: &DefaultName)
        ensures
            final(self)@ == hash.buf@ + old(self)@.subrange(30, 162),
            final(self).spec_pk() == old(self).spec_pk(),
    {
        copy_into(&mut self.buf, 0, hash.as_buf());
        assert(self.buf@ =~= hash.buf@ + old(self).buf@.subrange(30, 162));
    }

    /// The signature, where `Signature::try_from` accepts it.
    pub fn signature(&self) -> (r: Option<[u8; 64]>)
        ensures
            r is Some <==> signature_ok(self@.subrange(30, 94)),
            r matches Some(s) ==> s@ == self@.subrange(30, 94),
    {
        if self.buf[93] & 0xe0 == 0 {
            let mut s = [0u8;64];
            copy_into(&mut s, 0, &self.buf[30..94]);
            assert(s@ =~= self.buf@.subrange(30, 94));
            Some(s)
        } else {
            None
        }
    }

    pub fn set_signature(&mut self, sig: &[u8; 64])
        ensures
            final(self)@ == old(self)@.subrange(0, 30) + sig@ + old(self)@.subrange(94, 162),
            final(self).spec_pk() == old(self).spec_pk(),
    {
        copy_into(&mut self.buf, 30, sig);
    }

    pub fn previous(&self) -> (r: DefaultName)
        ensures
            r.buf@ == self@.subrange(94, 124),
    {
        Name::from(&self.buf[94..124])
    }

    pub fn set_previous(&mut self, hash: &DefaultName)
        ensures
            final(self)@ == old(self)@.subrange(0, 94) + hash.buf@ + old(self)@.subrange(124, 162),
            final(self).spec_pk() == old(self).spec_pk(),
    {
        copy_into(&mut self.buf, 94, hash.as_buf());
    }

    pub fn payload(&self) -> (r: DefaultName)
        ensures
            r.buf@ == self@.subrange(124, 154),
    {
        Name::from(&self.buf[124..154])
    }

    pub fn set_payload(&mut self, hash: &DefaultName)
        ensures
            final(self)@ == old(self)@.subrange(0, 124) + hash.buf@ + old(self)@.subrange(154, 162),
            final(self).spec_pk() == old(self).spec_pk(),
    {
        copy_into(&mut self.buf, 124, hash.as_buf());
    }

    pub fn index(&self) -> (r: u64)
        ensures
            r == u64_from_le(self@.subrange(154, 162)),
    {
        read_u64_le(&self.buf[154..162])
    }

    pub fn set_index(&mut self, index: u64)
        ensures
            final(self)@ == old(self)@.subrange(0, 154) + le_bytes_u64(index),
            final(self).spec_pk() == old(self).spec_pk(),
    {
        let b = u64_le_bytes(index);
        copy_into(&mut self.buf, 154, &b);
        assert(self.buf@ =~= old(self).buf@.subrange(0, 154) + le_bytes_u64(index));
    }
}

// ---------------------------------------------------------------------------
// The chain

/// Whether a reader whose last block has the hash `previous` takes in the
/// block `b` checked against the public key `pk`: its hash is right, its
/// signature is well formed and verifies, and it follows `previous`.
pub open spec fn accepts(previous: Seq<u8>, b: Seq<u8>, pk: Seq<u8>) -> bool {
    &&& b.subrange(0, 30) == tub_hash(b.subrange(30, 154))
    &&& signature_ok(b.subrange(30, 94))
    &&& ed25519_verify(b.subrange(30, 94), block_signed(b), pk)
    &&& b.subrange(94, 124) == previous
}

/// Where a chain stands: the hash of its last block (of the header, before
/// any block) and the index of the next block.
pub struct ChainState {
    pub previous: DefaultName,
    pub index: u64,
}

impl ChainState {
    /// A chain with only its header.
    pub fn new(header_hash: DefaultName) -> (r: Self)
        ensures
            r.previous == header_hash,
            r.index == 0,
    {
        Self { previous: header_hash, index: 0 }
    }

    /// Fills `block` as the next block, carrying `payload`, signs it with
    /// `sk`, and moves the chain past it.
    pub fn sign_next(&mut self, block: &mut Block, payload: &DefaultName, sk: &[u8; 64])
        requires
            old(self).index < u64::MAX,
        ensures
            final(block)@.subrange(94, 124) == old(self).previous.buf@,
            final(block)@.subrange(124, 154) == payload.buf@,
            u64_from_le(final(block)@.subrange(154, 162)) == old(self).index,
            final(block)@.subrange(0, 30) == tub_hash(final(block)@.subrange(30, 154)),
            final(block)@.subrange(30, 94) == ed25519_sign(final(block)@.subrange(94, 154), sk@),
            signature_ok(final(block)@.subrange(30, 94)),
            final(block).spec_pk() == old(block).spec_pk(),
            final(self).previous.buf@ == final(block)@.subrange(0, 30),
            final(self).index == old(self).index + 1,
    {
        block.set_payload(payload);
        block.set_previous(&self.previous);
        block.set_index(self.index);
        let ghost b3 = block@;
        proof {
            assert(b3.subrange(94, 124) =~= self.previous.buf@);
            assert(b3.subrange(124, 154) =~= payload.buf@);
            assert(b3.subrange(154, 162) =~= le_bytes_u64(self.index));
            lemma_u64_le_roundtrip(self.index);
        }
        block.sign(sk);
        proof {
            assert(block@.subrange(94, 124) =~= b3.subrange(94, 162).subrange(0, 30));
            assert(block@.subrange(124, 154) =~= b3.subrange(94, 162).subrange(30, 60));
            assert(block@.subrange(154, 162) =~= b3.subrange(94, 162).subrange(60, 68));
            assert(block@.subrange(94, 154) =~= b3.subrange(94, 154));
        }
        self.index = self.index + 1;
        self.previous = block.hash();
    }

    /// Takes in the next block read back from the chain file: it must verify
    /// and follow the last block; the chain then moves past it.
    pub fn accept(&mut self, block: &Block) -> (r: bool)
        requires
            old(self).index < u64::MAX,
        ensures
            r == accepts(old(self).previous.buf@, block@, block.spec_pk()),
            r ==> final(self).previous.buf@ == block@.subrange(0, 30) && final(self).index == old(self).index + 1,
            !r ==> final(self).previous == old(self).previous && final(self).index == old(self).index,
    {
        if block.verify_against(&self.previous) {
            self.index = self.index + 1;
            self.previous = block.hash();
            true
        } else {
            false
        }
    }
}


/// A block that the chain signs as its next one (as `sign_next` leaves it)
/// is taken in by a reader standing where the chain stood exactly when the
/// signature that the secret key made verifies under the reader's public
/// key: its hash and its link to the previous block always check out.
pub proof fn lemma_signed_next_accepted(previous: Seq<u8>, b: Seq<u8>, pk: Seq<u8>, sk: Seq<u8>)
    requires
        b.len() == 162,
        b.subrange(94, 124) == previous,
        b.subrange(0, 30) == tub_hash(b.subrange(30, 154)),
        b.subrange(30, 94) == ed25519_sign(b.subrange(94, 154), sk),
        signature_ok(b.subrange(30, 94)),
    ensures
        accepts(previous, b, pk) <==> ed25519_verify(
            ed25519_sign(block_signed(b), sk),
            block_signed(b),
            pk,
        ),
{
}

} // verus!
