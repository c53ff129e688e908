//! Content Hash Addressable Object Store.
//!
//! An Object's wire format contains just four fields of the following sizes in
//! bytes:
//!
//! | Hash | Size | Kind | DATA       |
//! |------|------|------|------------|
//! |   30 |    3 |    1 | 1-16777216 |
//!
//! All objects start with a fixed size header (generic on `<N>`) followed by
//! 1 to 16777216 bytes of object data.  Empty objects (size=0) are not allowed.
//!
//! The size is "size minus one" encoded into 24 bits by first subtracting one
//! from the size.  In 24 bits you can store values from 0-16777215, but what
//! we actually want is 1-16777216.
//!
//! The store itself keeps objects back to back in an append-only file; this
//! module holds the index of that file (which object lies at which offset),
//! while the reading and writing of the file is done by its caller.

use vstd::prelude::*;
use crate::base::{INFO_LEN, OBJECT_MAX_SIZE};
use crate::dbase32::{
    bin_txt_ok, db32_decode_bytes, db32_encode, db32dec_into, db32enc, is_db32_text,
};
use crate::protocol::{Blake3, Hasher};
use crate::namemap::NameMap;
use crate::text::ascii_chars;
use crate::util::getrandom;

verus! {

pub type DefaultName = Name<30>;

pub type DefaultObject = Object<Blake3, 30>;

/// Whether `N` is a name length that hashing and Dbase32 encoding accept.
pub open spec fn valid_name_len(n: int) -> bool {
    &&& n > 0
    &&& n % 5 == 0
    &&& n <= usize::MAX / 8
}

/// N byte long Tub name (content hash or random ID).
#[derive(Debug, Eq, Clone, Copy, PartialOrd, Ord, Hash)]
pub struct Name<const N: usize> {
    pub buf: [u8; N],
}

impl<const N: usize> View for Name<N> {
    type V = Seq<u8>;

    open spec fn view(&self) -> Seq<u8> {
        self.buf@
    }
}

impl<const N: usize> PartialEq for Name<N> {
    fn eq(&self, other: &Self) -> (r: bool) {
        let mut i: usize = 0;
        while i < N
            invariant
                i <= N,
                self.buf@.len() == N,
                other.buf@.len() == N,
                forall|k: int| 0 <= k < i ==> self.buf@[k] == other.buf@[k],
            decreases N - i,
        {
            if self.buf[i] != other.buf[i] {
                return false;
            }
            i = i + 1;
        }
        assert(self.buf@ =~= other.buf@);
        true
    }
}

impl<const N: usize> vstd::std_specs::cmp::PartialEqSpecImpl for Name<N> {
    open spec fn obeys_eq_spec() -> bool {
        true
    }

    open spec fn eq_spec(&self, other: &Self) -> bool {
        self.buf@ == other.buf@
    }
}

impl<const N: usize> Name<N> {
    /// All zero bytes.
    pub fn new() -> (r: Self)
        ensures
            r.buf@ == Seq::new(N as nat, |i: int| 0u8),
    {
        Self { buf: [0u8;N] }
    }

    /// A name holding a copy of `src`, which must be `N` bytes long.
    pub fn from(src: &[u8]) -> (r: Self)
        requires
            src@.len() == N,
        ensures
            r.buf@ == src@,
    {
        let mut buf = [0u8;N];
        let mut i: usize = 0;
        while i < N
            invariant
                i <= N,
                src@.len() == N,
                buf@.len() == N,
                forall|k: int| 0 <= k < i ==> buf@[k] == src@[k],
            decreases N - i,
        {
            buf[i] = src[i];
            i = i + 1;
        }
        assert(buf@ =~= src@);
        Self { buf: buf }
    }

    /// Decodes a Dbase32 encoded name.
    pub fn from_str(txt: &str) -> (r: Self)
        requires
            bin_txt_ok(N as int, vstd::utf8::encode_utf8(txt@).len() as int),
            is_db32_text(vstd::utf8::encode_utf8(txt@)),
        ensures
            r.buf@ == db32_decode_bytes(vstd::utf8::encode_utf8(txt@)),
    {
        let mut buf = [0u8;N];
        let ok = db32dec_into(txt.as_bytes(), &mut buf);
        Self { buf: buf }
    }

    /// Fills the name with random bytes.
    /// Fills the name with random bytes; says whether the system's
    /// randomness could be had (when not, the bytes are left unspecified).
    pub fn randomize(&mut self) -> (ok: bool) {
        getrandom(&mut self.buf)
    }

    pub fn into_buf(self) -> (r: [u8; N])
        ensures
            r == self.buf,
    {
        self.buf
    }

    pub fn len(&self) -> (r: usize)
        ensures
            r == N,
    {
        N
    }

    pub fn as_buf(&self) -> (r: &[u8])
        ensures
            r@ == self.buf@,
    {
        self.buf.as_slice()
    }

    pub fn as_mut_buf(&mut self) -> (r: &mut [u8])
        ensures
            r@ == old(self).buf@,
            final(self).buf@ == final(r)@,
    {
        &mut self.buf
    }

    /// The Dbase32 encoding of the name.
    pub fn to_string(&self) -> (r: String)
        requires
            valid_name_len(N as int),
        ensures
            r@ == ascii_chars(db32_encode(self.buf@)),
    {
        db32enc(self.buf.as_slice())
    }
}

// ---------------------------------------------------------------------------
// Info

/// Little-endian bytes of a `u32`.
pub open spec fn le_bytes_u32(v: u32) -> Seq<u8> {
    seq![(v & 0xff) as u8, ((v >> 8) & 0xff) as u8, ((v >> 16) & 0xff) as u8, ((v >> 24) & 0xff) as u8]
}

/// The `u32` whose little-endian bytes are `s[0..4]`.
pub open spec fn u32_from_le(s: Seq<u8>) -> u32 {
    (s[0] as u32) | (s[1] as u32) << 8 | (s[2] as u32) << 16 | (s[3] as u32) << 24
}

/// The packed value of a size and kind.
pub open spec fn info_value(size: int, kind: u8) -> u32 {
    ((size - 1) as u32) | (kind as u32) << 24u32
}

/// The size held in a packed value.
pub open spec fn info_size(val: u32) -> int {
    (val & 0x00ffffffu32) + 1
}

/// The kind held in a packed value.
pub open spec fn info_kind(val: u32) -> u8 {
    (val >> 24u32) as u8
}

/// Reading back the little-endian bytes of a `u32` gives the value.
pub proof fn lemma_le_bytes_u32(v: u32)
    ensures
        u32_from_le(le_bytes_u32(v)) == v,
        le_bytes_u32(v).len() == 4,
{
    let b0 = (v & 0xff) as u8;
    let b1 = ((v >> 8) & 0xff) as u8;
    let b2 = ((v >> 16) & 0xff) as u8;
    let b3 = ((v >> 24) & 0xff) as u8;
    assert((v & 0xff) < 256 && ((v >> 8) & 0xff) < 256 && ((v >> 16) & 0xff) < 256 && ((v >> 24)
        & 0xff) < 256) by (bit_vector);
    assert((v & 0xff) | ((v >> 8) & 0xff) << 8 | ((v >> 16) & 0xff) << 16 | ((v >> 24) & 0xff)
        << 24 == v) by (bit_vector);
}

/// Writing out the value read from four bytes gives the bytes.
pub proof fn lemma_u32_from_le(s: Seq<u8>)
    requires
        s.len() == 4,
    ensures
        le_bytes_u32(u32_from_le(s)) == s,
{
    let v = u32_from_le(s);
    let s0 = s[0] as u32;
    let s1 = s[1] as u32;
    let s2 = s[2] as u32;
    let s3 = s[3] as u32;
    assert(s0 < 256 && s1 < 256 && s2 < 256 && s3 < 256 ==> {
        let w = s0 | s1 << 8 | s2 << 16 | s3 << 24;
        &&& (w & 0xff) == s0
        &&& ((w >> 8) & 0xff) == s1
        &&& ((w >> 16) & 0xff) == s2
        &&& ((w >> 24) & 0xff) == s3
    }) by (bit_vector);
    assert(le_bytes_u32(v) =~= s);
}

/// Reading the size and kind out of a packed value and packing them again
/// gives the value.
pub proof fn lemma_info_repack(val: u32)
    ensures
        info_value(info_size(val), info_kind(val)) == val,
{
    assert(((val & 0x00ffffffu32) | (((val >> 24u32) as u8) as u32) << 24u32) == val)
        by (bit_vector);
}

/// The four header bytes that a random object gets from four drawn bytes:
/// for a small object the first byte is raised to at least 15 and the next
/// two are cleared, so that its size lies between 16 and 256.
pub open spec fn clamp_info_spec(raw: Seq<u8>, small: bool) -> Seq<u8> {
    if small {
        seq![if raw[0] < 15 { 15u8 } else { raw[0] }, 0u8, 0u8, raw[3]]
    } else {
        raw
    }
}

/// The header bytes of a random object drawn as `raw`.
pub fn clamp_info(raw: [u8; 4], small: bool) -> (r: [u8; 4])
    ensures
        r@ == clamp_info_spec(raw@, small),
{
    let mut r = raw;
    if small {
        if r[0] < 15 {
            r[0] = 15;
        }
        r[1] = 0;
        r[2] = 0;
    }
    assert(r@ =~= clamp_info_spec(raw@, small));
    r
}

/// Packing a size and a kind and reading them back gives the size and kind.
pub proof fn lemma_info_roundtrip(size: int, kind: u8)
    requires
        1 <= size <= OBJECT_MAX_SIZE,
    ensures
        info_size(info_value(size, kind)) == size,
        info_kind(info_value(size, kind)) == kind,
{
    let s = (size - 1) as u32;
    let k = kind as u32;
    assert(s < 0x1000000 && k < 256 ==> ((s | k << 24) & 0x00ffffff) == s && ((s | k << 24)
        >> 24) == k) by (bit_vector);
}

/// Any packed value gives a size of 1 to 16777216.
pub proof fn lemma_info_size_range(val: u32)
    ensures
        1 <= info_size(val) <= OBJECT_MAX_SIZE,
{
    assert(val & 0x00ffffff <= 0x00ffffff) by (bit_vector);
}

/// Packs 24-bit `size` and 8-bit `kind` into a `u32`.
#[derive(Debug, PartialEq, Eq, Structural)]
pub struct Info {
    val: u32,
}

impl Info {
    /// The packed value.
    pub closed spec fn value(&self) -> u32 {
        self.val
    }

    pub fn new(size: usize, kind: u8) -> (r: Self)
        requires
            1 <= size <= OBJECT_MAX_SIZE,
        ensures
            r.value() == info_value(size as int, kind),
    {
        Self { val: (size - 1) as u32 | (kind as u32) << 24 }
    }

    /// Reads the packed value from 4 little-endian bytes.
    pub fn from_le_bytes(buf: &[u8]) -> (r: Self)
        requires
            buf@.len() == 4,
        ensures
            r.value() == u32_from_le(buf@),
    {
        Self {
            val: (buf[0] as u32) | (buf[1] as u32) << 8 | (buf[2] as u32) << 16 | (buf[3] as u32)
                << 24,
        }
    }

    /// The packed value as 4 little-endian bytes.
    pub fn to_le_bytes(&self) -> (r: [u8; 4])
        ensures
            r@ == le_bytes_u32(self.value()),
    {
        let v = self.val;
        let r = [(v & 0xff) as u8, ((v >> 8) & 0xff) as u8, ((v >> 16) & 0xff) as u8, ((v >> 24)
            & 0xff) as u8];
        assert(r@ =~= le_bytes_u32(v));
        r
    }

    pub fn raw(&self) -> (r: u32)
        ensures
            r == self.value(),
    {
        self.val
    }

    pub fn size(&self) -> (r: usize)
        ensures
            r == info_size(self.value()),
            1 <= r <= OBJECT_MAX_SIZE,
    {
        proof {
            lemma_info_size_range(self.val);
        }
        ((self.val & 0x00ffffff) + 1) as usize
    }

    pub fn kind(&self) -> (r: u8)
        ensures
            r == info_kind(self.value()),
    {
        (self.val >> 24) as u8
    }
}

// ---------------------------------------------------------------------------
// Object

/// Length of an object header.
pub open spec fn header_len(n: int) -> int {
    n + INFO_LEN
}

/// Whether `N` fits the arithmetic of object buffers.
pub open spec fn fits_objects(n: int) -> bool {
    n + INFO_LEN + OBJECT_MAX_SIZE <= usize::MAX
}

/// The info value held by an object buffer.
pub open spec fn buf_info(buf: Seq<u8>, n: int) -> u32 {
    u32_from_le(buf.subrange(n, n + 4))
}

/// The hash an object buffer should carry: the hash of everything after the
/// hash field (info and data).
pub open spec fn buf_compute<H: Hasher>(buf: Seq<u8>, n: int) -> Seq<u8> {
    H::spec_hash(buf.skip(n), n as nat)
}

/// Whether the hash field of an object buffer matches its contents.
pub open spec fn buf_is_valid<H: Hasher>(buf: Seq<u8>, n: int) -> bool {
    buf.take(n) == buf_compute::<H>(buf, n)
}

/// The payload (info and data) of an object with the given size and kind.
pub open spec fn object_payload(size: int, kind: u8, data: Seq<u8>) -> Seq<u8> {
    le_bytes_u32(info_value(size, kind)) + data
}

/// Buffer containing a single object's header plus data.
#[derive(Debug)]
pub struct Object<H: Hasher, const N: usize> {
    hasher: H,
    buf: Vec<u8>,
    cur: usize,
}

impl<H: Hasher, const N: usize> View for Object<H, N> {
    type V = Seq<u8>;

    closed spec fn view(&self) -> Seq<u8> {
        self.buf@
    }
}

impl<H: Hasher, const N: usize> Object<H, N> {
    /// The read cursor.
    pub closed spec fn cursor(&self) -> usize {
        self.cur
    }

    /// An object with an all zero header and no data.
    pub fn new() -> (r: Self)
        requires
            fits_objects(N as int),
        ensures
            r@ == Seq::new((N + INFO_LEN) as nat, |i: int| 0u8),
            r.cursor() == 0,
    {
        Self { buf: vec![0; N + INFO_LEN], hasher: H::new(), cur: 0 }
    }

    pub fn into_buf(self) -> (r: Vec<u8>)
        ensures
            r@ == self@,
    {
        self.buf
    }

    fn set_zeros(&mut self, len: usize)
        ensures
            final(self)@ == Seq::new(len as nat, |i: int| 0u8),
            final(self).cursor() == old(self).cursor(),
    {
        self.buf.clear();
        self.buf.resize(len, 0);
        assert(self.buf@ =~= Seq::new(len as nat, |i: int| 0u8));
    }

    /// Resets to a zero hash, the given size and kind, and `size` zero bytes
    /// of data.
    pub fn reset(&mut self, size: usize, kind: u8)
        requires
            fits_objects(N as int),
            1 <= size <= OBJECT_MAX_SIZE,
        ensures
            final(self)@ == Seq::new(N as nat, |i: int| 0u8) + le_bytes_u32(
                info_value(size as int, kind),
            ) + Seq::new(size as nat, |i: int| 0u8),
            final(self).cursor() == old(self).cursor(),
    {
        self.set_zeros(N + INFO_LEN + size);
        self.set_info(Info::new(size, kind));
        assert(self.buf@ =~= Seq::new(N as nat, |i: int| 0u8) + le_bytes_u32(
            info_value(size as int, kind),
        ) + Seq::new(size as nat, |i: int| 0u8));
    }

    /// Resets to an all zero header with no data.
    pub fn clear(&mut self)
        requires
            fits_objects(N as int),
        ensures
            final(self)@ == Seq::new((N + INFO_LEN) as nat, |i: int| 0u8),
            final(self).cursor() == 0,
    {
        self.set_zeros(N + INFO_LEN);
        self.cur = 0;
    }

    /// Resizes the data to the size held in the header.
    pub fn resize_to_info(&mut self)
        requires
            fits_objects(N as int),
            old(self)@.len() >= N + INFO_LEN,
        ensures
            ({
                let len = N + INFO_LEN + info_size(buf_info(old(self)@, N as int));
                &&& final(self)@.len() == len
                &&& forall|i: int|
                    0 <= i < len ==> #[trigger] final(self)@[i] == if i < old(self)@.len() {
                        old(self)@[i]
                    } else {
                        0u8
                    }
            }),
            final(self).cursor() == old(self).cursor(),
    {
        let size = self.info().size();
        self.buf.resize(N + INFO_LEN + size, 0);
    }

    pub fn len(&self) -> (r: usize)
        ensures
            r == self@.len(),
    {
        self.buf.len()
    }

    /// How many more bytes fit before the object reaches its largest size.
    pub fn remaining(&self) -> (r: usize)
        requires
            fits_objects(N as int),
        ensures
            r == if self@.len() > N + INFO_LEN + OBJECT_MAX_SIZE {
                0
            } else {
                N + INFO_LEN + OBJECT_MAX_SIZE - self@.len()
            },
    {
        let max = N + INFO_LEN + OBJECT_MAX_SIZE;
        if self.len() > max {
            0
        } else {
            max - self.len()
        }
    }

    pub fn extend(&mut self, data: &[u8])
        ensures
            final(self)@ == old(self)@ + data@,
            final(self).cursor() == old(self).cursor(),
    {
        self.buf.extend_from_slice(data);
    }

    /// Fills the header with random bytes, clamped by `clamp_info` (so that
    /// when `small` sizes stay between 16 and 256 bytes), the data with
    /// random bytes, and finalizes; `None` when the system's randomness could
    /// not be had.
    pub fn randomize(&mut self, small: bool) -> (r: Option<Name<N>>)
        requires
            fits_objects(N as int),
            valid_name_len(N as int),
            old(self)@.len() >= N + INFO_LEN,
        ensures
            r matches Some(h) ==> {
                &&& h.buf@ == final(self)@.take(N as int)
                &&& buf_is_valid::<H>(final(self)@, N as int)
                &&& final(self)@.len() == N + INFO_LEN + info_size(buf_info(final(self)@, N as int))
                &&& exists|raw: Seq<u8>|
                    raw.len() == 4 && final(self)@.subrange(N as int, N + 4)
                        == #[trigger] clamp_info_spec(raw, small)
                &&& small ==> 16 <= info_size(buf_info(final(self)@, N as int)) <= 256
            },
            r is None ==> final(self)@.len() >= N + INFO_LEN,
    {
        let mut drawn = [0u8;4];
        if !getrandom(&mut drawn) {
            return None;
        }
        let info_buf = clamp_info(drawn, small);
        let info = Info::from_le_bytes(info_buf.as_slice());
        proof {
            lemma_u32_from_le(info_buf@);
            if small {
                let w0 = info_buf@[0] as u32;
                let w3 = info_buf@[3] as u32;
                assert(15 <= w0 && w0 < 256 ==> {
                    let w = w0 | 0u32 << 8 | 0u32 << 16 | w3 << 24;
                    15 <= (w & 0x00ffffff) < 256
                }) by (bit_vector);
            }
        }
        self.set_info(info);
        self.resize_to_info();
        let ghost sized = self@;
        let ghost size = info_size(buf_info(sized, N as int));
        proof {
            lemma_info_size_range(buf_info(sized, N as int));
            assert(sized.subrange(N as int, N + 4) =~= info_buf@);
        }
        if !getrandom(self.as_mut_data()) {
            return None;
        }
        proof {
            assert(self@.subrange(N as int, N + 4) =~= sized.subrange(N as int, N + 4));
        }
        let ghost kind = info_kind(buf_info(self@, N as int));
        let r = self.finalize();
        proof {
            lemma_info_roundtrip(size, kind);
            assert(self@.subrange(N as int, N + 4) =~= le_bytes_u32(info_value(size, kind)));
            lemma_le_bytes_u32(info_value(size, kind));
            lemma_info_repack(info.value());
            assert(self@.subrange(N as int, N + 4) == clamp_info_spec(drawn@, small));
        }
        Some(r)
    }

    /// Computes the hash of everything after the hash field.
    pub fn compute(&self) -> (r: Name<N>)
        requires
            valid_name_len(N as int),
            self@.len() >= N,
        ensures
            r.buf@ == buf_compute::<H>(self@, N as int),
    {
        let mut hash: Name<N> = Name::new();
        let payload = self.as_payload();
        self.hasher.hash_into(payload, hash.as_mut_buf());
        hash
    }

    /// Whether the hash field matches the contents.
    pub fn is_valid(&self) -> (r: bool)
        requires
            valid_name_len(N as int),
            self@.len() >= N,
        ensures
            r == buf_is_valid::<H>(self@, N as int),
    {
        let h = self.hash();
        let c = self.compute();
        h == c
    }

    /// Whether the object is valid and carries `hash`.
    pub fn validate_against(&self, hash: &Name<N>) -> (r: bool)
        requires
            valid_name_len(N as int),
            self@.len() >= N,
        ensures
            r == (buf_is_valid::<H>(self@, N as int) && hash.buf@ == self@.take(N as int)),
    {
        self.is_valid() && *hash == self.hash()
    }

    fn finalize_kind(&mut self, kind: u8) -> (r: Name<N>)
        requires
            valid_name_len(N as int),
            fits_objects(N as int),
            old(self)@.len() >= N + INFO_LEN + 1,
            old(self)@.len() <= N + INFO_LEN + OBJECT_MAX_SIZE,
        ensures
            final(self)@ == r.buf@ + object_payload(
                old(self)@.len() - N - INFO_LEN,
                kind,
                old(self)@.skip(N + INFO_LEN),
            ),
            r.buf@ == H::spec_hash(
                object_payload(old(self)@.len() - N - INFO_LEN, kind, old(self)@.skip(N + INFO_LEN)),
                N as nat,
            ),
            buf_is_valid::<H>(final(self)@, N as int),
            final(self).cursor() == old(self).cursor(),
    {
        let size = self.buf.len() - N - INFO_LEN;
        self.set_info(Info::new(size, kind));
        let ghost payload = object_payload(size as int, kind, old(self)@.skip(N + INFO_LEN));
        assert(self@.skip(N as int) =~= payload);
        let hash = self.compute();
        let ghost s1 = self@;
        self.set_hash(hash);
        proof {
            assert(hash.buf@.len() == N);
            assert(self@ =~= hash.buf@ + payload);
            assert(self@.take(N as int) =~= hash.buf@);
            assert(self@.skip(N as int) =~= payload);
        }
        hash
    }

    /// Sets the size to the data length (keeping the kind) and sets the hash.
    pub fn finalize(&mut self) -> (r: Name<N>)
        requires
            valid_name_len(N as int),
            fits_objects(N as int),
            old(self)@.len() >= N + INFO_LEN + 1,
            old(self)@.len() <= N + INFO_LEN + OBJECT_MAX_SIZE,
        ensures
            final(self)@ == r.buf@ + object_payload(
                old(self)@.len() - N - INFO_LEN,
                info_kind(buf_info(old(self)@, N as int)),
                old(self)@.skip(N + INFO_LEN),
            ),
            r.buf@ == H::spec_hash(
                object_payload(
                    old(self)@.len() - N - INFO_LEN,
                    info_kind(buf_info(old(self)@, N as int)),
                    old(self)@.skip(N + INFO_LEN),
                ),
                N as nat,
            ),
            buf_is_valid::<H>(final(self)@, N as int),
            final(self).cursor() == old(self).cursor(),
    {
        let kind = self.info().kind();
        self.finalize_kind(kind)
    }

    /// Sets the size to the data length and the kind, and sets the hash.
    pub fn finalize_with_kind(&mut self, kind: u8) -> (r: Name<N>)
        requires
            valid_name_len(N as int),
            fits_objects(N as int),
            old(self)@.len() >= N + INFO_LEN + 1,
            old(self)@.len() <= N + INFO_LEN + OBJECT_MAX_SIZE,
        ensures
            final(self)@ == r.buf@ + object_payload(
                old(self)@.len() - N - INFO_LEN,
                kind,
                old(self)@.skip(N + INFO_LEN),
            ),
            r.buf@ == H::spec_hash(
                object_payload(old(self)@.len() - N - INFO_LEN, kind, old(self)@.skip(N + INFO_LEN)),
                N as nat,
            ),
            buf_is_valid::<H>(final(self)@, N as int),
            final(self).cursor() == old(self).cursor(),
    {
        self.finalize_kind(kind)
    }

    /// The hash field.
    pub fn hash(&self) -> (r: Name<N>)
        requires
            self@.len() >= N,
        ensures
            r.buf@ == self@.take(N as int),
    {
        Name::from(vstd::slice::slice_subrange(self.buf.as_slice(), 0, N))
    }

    /// Overwrites the hash field.
    pub fn set_hash(&mut self, hash: Name<N>)
        requires
            old(self)@.len() >= N,
        ensures
            final(self)@ == hash.buf@ + old(self)@.skip(N as int),
            final(self).cursor() == old(self).cursor(),
    {
        let mut i: usize = 0;
        while i < N
            invariant
                i <= N,
                self@.len() == old(self)@.len(),
                old(self)@.len() >= N,
                hash.buf@.len() == N,
                forall|k: int| 0 <= k < i ==> #[trigger] self@[k] == hash.buf@[k],
                forall|k: int| N <= k < self@.len() ==> #[trigger] self@[k] == old(self)@[k],
                self.cursor() == old(self).cursor(),
            decreases N - i,
        {
            self.buf[i] = hash.buf[i];
            i = i + 1;
        }
        assert(self@ =~= hash.buf@ + old(self)@.skip(N as int));
    }

    /// The info field.
    pub fn info(&self) -> (r: Info)
        requires
            self@.len() >= N + INFO_LEN,
        ensures
            r.value() == buf_info(self@, N as int),
    {
        let len = self.buf.len();
        Info::from_le_bytes(vstd::slice::slice_subrange(self.buf.as_slice(), N, N + INFO_LEN))
    }

    /// Overwrites the info field.
    pub fn set_info(&mut self, info: Info)
        requires
            old(self)@.len() >= N + INFO_LEN,
        ensures
            final(self)@ == old(self)@.take(N as int) + le_bytes_u32(info.value()) + old(
                self,
            )@.skip(N + INFO_LEN),
            buf_info(final(self)@, N as int) == info.value(),
            final(self).cursor() == old(self).cursor(),
    {
        let b = info.to_le_bytes();
        let len = self.buf.len();
        self.buf[N] = b[0];
        self.buf[N + 1] = b[1];
        self.buf[N + 2] = b[2];
        self.buf[N + 3] = b[3];
        proof {
            assert(self@ =~= old(self)@.take(N as int) + le_bytes_u32(info.value()) + old(
                self,
            )@.skip(N + INFO_LEN));
            assert(self@.subrange(N as int, N + 4) =~= le_bytes_u32(info.value()));
            lemma_le_bytes_u32(info.value());
        }
    }

    pub fn as_buf(&self) -> (r: &[u8])
        ensures
            r@ == self@,
    {
        self.buf.as_slice()
    }

    pub fn as_mut_buf(&mut self) -> (r: &mut [u8])
        ensures
            r@ == old(self)@,
            final(self)@ == final(r)@,
            final(self).cursor() == old(self).cursor(),
    {
        self.buf.as_mut_slice()
    }

    pub fn as_mut_vec(&mut self) -> (r: &mut Vec<u8>)
        ensures
            r@ == old(self)@,
            final(self)@ == final(r)@,
            final(self).cursor() == old(self).cursor(),
    {
        &mut self.buf
    }

    /// The hash and info fields, for writing.
    pub fn as_mut_header(&mut self) -> (r: &mut [u8])
        requires
            old(self)@.len() >= N + INFO_LEN,
        ensures
            r@ == old(self)@.take(N + INFO_LEN),
            final(self)@ == final(r)@ + old(self)@.skip(N + INFO_LEN),
            final(self).cursor() == old(self).cursor(),
    {
        let len = self.buf.len();
        let (head, _tail) = self.buf.as_mut_slice().split_at_mut(N + INFO_LEN);
        head
    }

    /// The object data.
    pub fn as_data(&self) -> (r: &[u8])
        requires
            self@.len() >= N + INFO_LEN,
        ensures
            r@ == self@.skip(N + INFO_LEN),
    {
        let len = self.buf.len();
        vstd::slice::slice_subrange(self.buf.as_slice(), N + INFO_LEN, len)
    }

    /// The object data, for writing.
    pub fn as_mut_data(&mut self) -> (r: &mut [u8])
        requires
            old(self)@.len() >= N + INFO_LEN,
        ensures
            r@ == old(self)@.skip(N + INFO_LEN),
            final(self)@ == old(self)@.take(N + INFO_LEN) + final(r)@,
            final(self).cursor() == old(self).cursor(),
    {
        let len = self.buf.len();
        let (_head, tail) = self.buf.as_mut_slice().split_at_mut(N + INFO_LEN);
        tail
    }

    /// Everything after the hash field: info and data.
    pub fn as_payload(&self) -> (r: &[u8])
        requires
            self@.len() >= N,
        ensures
            r@ == self@.skip(N as int),
    {
        vstd::slice::slice_subrange(self.buf.as_slice(), N, self.buf.len())
    }
}

/// Bytes of the object whose header starts `data`: header and data.
pub open spec fn object_len(data: Seq<u8>, n: nat) -> int {
    n + INFO_LEN + info_size(buf_info(data, n as int))
}

/// Whether `o` is one whole object: a header, as much data as it gives, and
/// a hash that matches.
pub open spec fn whole_object<H: Hasher>(o: Seq<u8>, n: nat) -> bool {
    &&& o.len() >= n + INFO_LEN
    &&& o.len() == object_len(o, n)
    &&& buf_is_valid::<H>(o, n as int)
}

/// `front` before the objects of `rest`, if any.
pub open spec fn prepend_objects(front: Seq<Seq<u8>>, rest: Option<Seq<Seq<u8>>>) -> Option<
    Seq<Seq<u8>>,
> {
    match rest {
        Some(r) => Some(front + r),
        None => None,
    }
}

/// The objects of a store file `data`, back to back, up to where fewer
/// bytes than a header remain; `None` when an object's data is cut short or,
/// when `checked`, an object's hash does not match.
pub open spec fn store_objects<H: Hasher>(data: Seq<u8>, n: nat, checked: bool) -> Option<
    Seq<Seq<u8>>,
>
    decreases data.len(),
{
    if data.len() < n + INFO_LEN {
        Some(Seq::empty())
    } else {
        let len = object_len(data, n);
        if len > data.len() || (checked && !buf_is_valid::<H>(data.take(len), n as int)) {
            None
        } else {
            match store_objects::<H>(data.skip(len), n, checked) {
                Some(rest) => Some(seq![data.take(len)] + rest),
                None => None,
            }
        }
    }
}

/// The index of objects written one after the other from offset 0: each
/// name maps to the info and offset of the last object with that name.
pub open spec fn index_of(objs: Seq<Seq<u8>>, n: nat) -> Map<Seq<u8>, (u32, u64)>
    decreases objs.len(),
{
    if objs.len() == 0 {
        Map::empty()
    } else {
        index_of(objs.drop_last(), n).insert(
            objs.last().take(n as int),
            (buf_info(objs.last(), n as int), objs.drop_last().flatten().len() as u64),
        )
    }
}

/// A value in the store index: the header info and the offset of an object
/// in the pack file.
pub struct Entry {
    pub info: Info,
    pub offset: u64,
}

impl View for Entry {
    type V = (u32, u64);

    open spec fn view(&self) -> (u32, u64) {
        (self.info.value(), self.offset)
    }
}

impl Entry {
    pub fn new(info: Info, offset: u64) -> (r: Self)
        ensures
            r.info == info,
            r.offset == offset,
    {
        Self { info: info, offset: offset }
    }
}

/// The index of an append-only object file: where each object starts, with
/// its header info, and where the next object goes.
pub struct StoreIndex<const N: usize> {
    map: NameMap<N, Entry>,
    offset: u64,
}

impl<const N: usize> View for StoreIndex<N> {
    type V = Map<Seq<u8>, (u32, u64)>;

    closed spec fn view(&self) -> Map<Seq<u8>, (u32, u64)> {
        self.map@
    }
}

impl<const N: usize> StoreIndex<N> {
    pub closed spec fn wf(&self) -> bool {
        self.map.wf()
    }

    /// Where the next object goes.
    pub closed spec fn spec_offset(&self) -> u64 {
        self.offset
    }

    pub fn new() -> (r: Self)
        ensures
            r.wf(),
            r@ == Map::<Seq<u8>, (u32, u64)>::empty(),
            r.spec_offset() == 0,
    {
        Self { map: NameMap::new(), offset: 0 }
    }

    /// Forgets everything, to rebuild from the start of the file.
    pub fn clear(&mut self)
        ensures
            final(self).wf(),
            final(self)@ == Map::<Seq<u8>, (u32, u64)>::empty(),
            final(self).spec_offset() == 0,
    {
        self.map.clear();
        self.offset = 0;
    }

    pub fn len(&self) -> (r: usize)
        requires
            self.wf(),
        ensures
            r == self@.len(),
    {
        self.map.len()
    }

    pub fn offset(&self) -> (r: u64)
        ensures
            r == self.spec_offset(),
    {
        self.offset
    }

    pub fn contains_key(&self, hash: &Name<N>) -> (r: bool)
        requires
            self.wf(),
        ensures
            r == self@.contains_key(hash.buf@),
    {
        self.map.contains_key(hash)
    }

    pub fn get(&self, hash: &Name<N>) -> (r: Option<&Entry>)
        requires
            self.wf(),
        ensures
            r is Some <==> self@.contains_key(hash.buf@),
            r matches Some(e) ==> e@ == self@[hash.buf@],
    {
        self.map.get(hash)
    }

    /// The indexed names, in ascending order.
    pub fn keys(&self) -> (r: Vec<Name<N>>)
        requires
            self.wf(),
        ensures
            r@.len() == self@.len(),
            forall|i: int| 0 <= i < r@.len() ==> self@.contains_key(#[trigger] r@[i].buf@),
            forall|k: Seq<u8>| self@.contains_key(k) ==> exists|i: int| 0 <= i < r@.len() && r@[i].buf@ == k,
    {
        proof {
            self.map.lemma_pairs();
        }
        let n = self.map.len();
        let mut keys: Vec<Name<N>> = Vec::new();
        let mut i: usize = 0;
        while i < n
            invariant
                self.wf(),
                n == self.map.spec_pairs().len(),
                i <= n,
                keys@.len() == i,
                forall|j: int| 0 <= j < i ==> (#[trigger] keys@[j]).buf@ == self.map.spec_pairs()[j].0,
            decreases n - i,
        {
            keys.push(*self.map.key_at(i));
            i = i + 1;
        }
        proof {
            self.map.lemma_pairs();
            assert forall|j: int| 0 <= j < keys@.len() implies self@.contains_key(#[trigger] keys@[j].buf@) by {
                assert(keys@[j].buf@ == self.map.spec_pairs()[j].0);
            }
            assert forall|k: Seq<u8>| self@.contains_key(k) implies exists|j: int| 0 <= j < keys@.len() && keys@[j].buf@ == k by {
                let j = choose|j: int| 0 <= j < self.map.spec_pairs().len() && self.map.spec_pairs()[j].0 == k;
                assert(keys@[j].buf@ == k);
            }
        }
        keys
    }

    /// Indexes `obj`, appended at the current offset, and moves past it
    /// (a name seen again is indexed at its latest place).
    pub fn record<H: Hasher>(&mut self, obj: &Object<H, N>)
        requires
            old(self).wf(),
            obj@.len() >= N + INFO_LEN,
            old(self).spec_offset() + obj@.len() <= u64::MAX,
        ensures
            final(self).wf(),
            final(self)@ == old(self)@.insert(
                obj@.take(N as int),
                (buf_info(obj@, N as int), old(self).spec_offset()),
            ),
            final(self).spec_offset() == old(self).spec_offset() + obj@.len(),
    {
        let hash = obj.hash();
        let info = obj.info();
        self.map.insert(hash, Entry::new(info, self.offset));
        self.offset = self.offset + obj.len() as u64;
    }

    /// Rebuilds the index from the bytes of a store file: objects back to
    /// back, up to where fewer bytes than a header remain.  Says whether the
    /// file read back whole: `false` when an object's data is cut short or,
    /// when `checked`, an object's hash does not match.
    pub fn reindex_bytes<H: Hasher>(&mut self, data: &[u8], checked: bool) -> (r: bool)
        requires
            valid_name_len(N as int),
            fits_objects(N as int),
            data@.len() <= u64::MAX,
        ensures
            final(self).wf(),
            r == (store_objects::<H>(data@, N as nat, checked) is Some),
            r ==> final(self)@ == index_of(store_objects::<H>(data@, N as nat, checked).unwrap(), N as nat)
                && final(self).spec_offset() == store_objects::<H>(data@, N as nat, checked).unwrap().flatten().len(),
    {
        self.clear();
        let len = data.len();
        let mut pos: usize = 0;
        let ghost mut front: Seq<Seq<u8>> = Seq::empty();
        proof {
            assert(data@.skip(0) =~= data@);
            assert(front + Seq::<Seq<u8>>::empty() =~= Seq::<Seq<u8>>::empty());
            assert(self@ =~= index_of(front, N as nat));
        }
        while len - pos >= N + INFO_LEN
            invariant
                self.wf(),
                valid_name_len(N as int),
                fits_objects(N as int),
                len == data@.len(),
                len <= u64::MAX,
                pos <= len,
                self.spec_offset() == pos,
                pos == front.flatten().len(),
                self@ == index_of(front, N as nat),
                store_objects::<H>(data@, N as nat, checked) == prepend_objects(
                    front,
                    store_objects::<H>(data@.skip(pos as int), N as nat, checked),
                ),
            decreases len - pos,
        {
            let ghost rest = data@.skip(pos as int);
            let info = Info::from_le_bytes(vstd::slice::slice_subrange(data, pos + N, pos + N + INFO_LEN));
            let olen = N + INFO_LEN + info.size();
            proof {
                assert(rest.subrange(N as int, N + 4) =~= data@.subrange(pos + N, pos + N + 4));
                assert(olen == object_len(rest, N as nat));
            }
            if olen > len - pos {
                proof {
                    assert(store_objects::<H>(rest, N as nat, checked) is None);
                }
                return false;
            }
            let mut o: Object<H, N> = Object::new();
            o.as_mut_vec().clear();
            o.extend(vstd::slice::slice_subrange(data, pos, pos + olen));
            proof {
                assert(o@ =~= rest.take(olen as int));
            }
            if checked && !o.is_valid() {
                proof {
                    assert(store_objects::<H>(rest, N as nat, checked) is None);
                }
                return false;
            }
            self.record(&o);
            proof {
                let f2 = front.push(o@);
                assert(f2.drop_last() =~= front);
                front.lemma_flatten_push(o@);
                assert(rest.skip(olen as int) =~= data@.skip(pos + olen));
                let tail = store_objects::<H>(data@.skip(pos + olen), N as nat, checked);
                if let Some(t) = tail {
                    assert(front + (seq![o@] + t) =~= f2 + t);
                }
                front = f2;
            }
            pos = pos + olen;
        }
        proof {
            assert(store_objects::<H>(data@.skip(pos as int), N as nat, checked) == Some(Seq::<Seq<u8>>::empty()));
            assert(front + Seq::<Seq<u8>>::empty() =~= front);
        }
        true
    }

    /// Indexes `obj` unless its name is already indexed, and says whether
    /// it was new (a new object is to be appended at the old offset).
    pub fn save<H: Hasher>(&mut self, obj: &Object<H, N>) -> (r: bool)
        requires
            old(self).wf(),
            obj@.len() >= N + INFO_LEN,
            old(self).spec_offset() + obj@.len() <= u64::MAX,
        ensures
            final(self).wf(),
            r == !old(self)@.contains_key(obj@.take(N as int)),
            r ==> final(self)@ == old(self)@.insert(
                obj@.take(N as int),
                (buf_info(obj@, N as int), old(self).spec_offset()),
            ) && final(self).spec_offset() == old(self).spec_offset() + obj@.len(),
            !r ==> final(self)@ == old(self)@ && final(self).spec_offset() == old(self).spec_offset(),
    {
        let hash = obj.hash();
        if self.map.contains_key(&hash) {
            false
        } else {
            self.record(obj);
            true
        }
    }
}

/// Whole objects written one after the other, followed by fewer bytes than
/// a header, read back as the same objects.
pub proof fn lemma_store_objects_flatten<H: Hasher>(objs: Seq<Seq<u8>>, tail: Seq<u8>, n: nat, checked: bool)
    requires
        forall|i: int| 0 <= i < objs.len() ==> whole_object::<H>(#[trigger] objs[i], n),
        tail.len() < n + INFO_LEN,
    ensures
        store_objects::<H>(objs.flatten() + tail, n, checked) == Some(objs),
    decreases objs.len(),
{
    if objs.len() > 0 {
        let head = objs[0];
        let rest = objs.drop_first();
        assert forall|i: int| 0 <= i < rest.len() implies whole_object::<H>(#[trigger] rest[i], n) by {
            assert(rest[i] == objs[i + 1]);
        }
        lemma_store_objects_flatten::<H>(rest, tail, n, checked);
        let data = objs.flatten() + tail;
        assert(whole_object::<H>(head, n));
        assert(objs.flatten() == head + rest.flatten());
        assert(data =~= head + (rest.flatten() + tail));
        assert(data.subrange(n as int, n as int + 4) =~= head.subrange(n as int, n as int + 4));
        assert(object_len(data, n) == head.len());
        assert(data.take(head.len() as int) =~= head);
        assert(data.skip(head.len() as int) =~= rest.flatten() + tail);
        assert(seq![head] + rest =~= objs);
    } else {
        assert(objs.flatten() + tail =~= tail);
    }
}

/// Object `j` lies in the bytes of all the objects right after the objects
/// before it.
pub proof fn lemma_flatten_at(objs: Seq<Seq<u8>>, j: int)
    requires
        0 <= j < objs.len(),
    ensures
        ({
            let p = objs.take(j).flatten().len();
            &&& p as int + objs[j].len() <= objs.flatten().len()
            &&& objs.flatten().subrange(p as int, p as int + objs[j].len()) == objs[j]
        }),
{
    let x = objs.take(j);
    let y = objs.skip(j);
    assert(x + y =~= objs);
    vstd::seq_lib::lemma_flatten_concat(x, y);
    assert(y.first() == objs[j]);
    assert(y.flatten() == objs[j] + y.drop_first().flatten());
    let p = x.flatten().len();
    assert(objs.flatten().subrange(p as int, p as int + objs[j].len()) =~= objs[j]);
}

/// In the index of objects written one after the other, the name of each
/// object maps to the info and offset of the last object with that name.
pub proof fn lemma_index_of_finds(objs: Seq<Seq<u8>>, n: nat, i: int)
    requires
        0 <= i < objs.len(),
    ensures
        index_of(objs, n).contains_key(objs[i].take(n as int)),
        exists|j: int|
            #![trigger objs[j]]
            i <= j < objs.len() && objs[j].take(n as int) == objs[i].take(n as int)
                && index_of(objs, n)[objs[i].take(n as int)] == (
                buf_info(objs[j], n as int),
                objs.take(j).flatten().len() as u64,
            ),
    decreases objs.len(),
{
    let last = objs.len() - 1;
    let key = objs[i].take(n as int);
    assert(objs.take(last) =~= objs.drop_last());
    if objs[last].take(n as int) == key {
        assert(objs[last] == objs.last());
    } else {
        assert(i < last);
        lemma_index_of_finds(objs.drop_last(), n, i);
        let j = choose|j: int|
            #![trigger objs.drop_last()[j]]
            i <= j < objs.drop_last().len() && objs.drop_last()[j].take(n as int) == key
                && index_of(objs.drop_last(), n)[key] == (
                buf_info(objs.drop_last()[j], n as int),
                objs.drop_last().take(j).flatten().len() as u64,
            );
        assert(objs.drop_last().take(j) =~= objs.take(j));
        assert(objs[j] == objs.drop_last()[j]);
    }
}

/// Reindexing a store file of whole objects written one after the other
/// (with fewer bytes than a header after them) reads back every object: its
/// name is indexed, and the index points at the last object written under
/// that name, whose bytes stand in the file at that offset.
pub proof fn lemma_store_reindex<H: Hasher>(objs: Seq<Seq<u8>>, tail: Seq<u8>, n: nat, checked: bool, i: int)
    requires
        forall|k: int| 0 <= k < objs.len() ==> whole_object::<H>(#[trigger] objs[k], n),
        tail.len() < n + INFO_LEN,
        0 <= i < objs.len(),
    ensures
        ({
            let data = objs.flatten() + tail;
            let found = store_objects::<H>(data, n, checked);
            let key = objs[i].take(n as int);
            &&& found == Some(objs)
            &&& index_of(objs, n).contains_key(key)
            &&& exists|j: int|
                #![trigger objs[j]]
                i <= j < objs.len() && objs[j].take(n as int) == key && index_of(objs, n)[key] == (
                    buf_info(objs[j], n as int),
                    objs.take(j).flatten().len() as u64,
                ) && data.subrange(
                    objs.take(j).flatten().len() as int,
                    objs.take(j).flatten().len() as int + objs[j].len(),
                ) == objs[j] && whole_object::<H>(objs[j], n)
        }),
{
    lemma_store_objects_flatten::<H>(objs, tail, n, checked);
    lemma_index_of_finds(objs, n, i);
    let key = objs[i].take(n as int);
    let j = choose|j: int|
        #![trigger objs[j]]
        i <= j < objs.len() && objs[j].take(n as int) == key && index_of(objs, n)[key] == (
            buf_info(objs[j], n as int),
            objs.take(j).flatten().len() as u64,
        );
    lemma_flatten_at(objs, j);
    let p = objs.take(j).flatten().len();
    let data = objs.flatten() + tail;
    assert(data.subrange(p as int, p as int + objs[j].len()) =~= objs.flatten().subrange(p as int, p as int + objs[j].len()));
}

/// An object saved into the index is found again, with its info, at the
/// offset it was saved at.
pub proof fn lemma_save_then_get(
    before: Map<Seq<u8>, (u32, u64)>,
    after: Map<Seq<u8>, (u32, u64)>,
    hash: Seq<u8>,
    info: u32,
    offset: u64,
)
    requires
        after == before.insert(hash, (info, offset)),
    ensures
        after.contains_key(hash),
        after[hash] == (info, offset),
        forall|k: Seq<u8>| k != hash ==> after.contains_key(k) == before.contains_key(k),
{
}

} // verus!
