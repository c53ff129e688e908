//! Objects that refer to other objects: the leaf hashes of a large file, a
//! map from object names to the names of the containers holding them,
//! reading and writing the data of an object as a stream, and a stream of
//! objects compressed into one object.
//!
//! Files and the store are the application's part.

use vstd::prelude::*;
use crate::base::{INFO_LEN, OBJECT_MAX_SIZE};
use crate::chaos::{Info, Name, Object, buf_info, buf_is_valid, fits_objects, info_size, object_len, object_payload, prepend_objects, u32_from_le, valid_name_len, whole_object};
use crate::protocol::{Hasher, le_bytes_u64, u64_from_le, read_u64_le, u64_le_bytes, lemma_u64_le_roundtrip};
use crate::namemap::{NameMap, bytes_sorted};
use crate::strmap::{pairs_map, keys_unique, lemma_pairs_map};

verus! {

// ---------------------------------------------------------------------------
// Containers

/// An object holding an encoded stream of other objects.
pub struct Container<H: Hasher, const N: usize> {
    inner: Object<H, N>,
}

impl<H: Hasher, const N: usize> Container<H, N> {
    pub closed spec fn spec_inner(&self) -> Object<H, N> {
        self.inner
    }

    pub fn new(inner: Object<H, N>) -> (r: Self)
        ensures
            r.spec_inner() == inner,
    {
        Self { inner: inner }
    }

    /// Whether `obj` fits in what is left of the container.
    pub fn has_space(&self, obj: &Object<H, N>) -> (r: bool)
        requires
            fits_objects(N as int),
        ensures
            r == (obj@.len() < if self.spec_inner()@.len() > N + INFO_LEN + OBJECT_MAX_SIZE {
                0
            } else {
                N + INFO_LEN + OBJECT_MAX_SIZE - self.spec_inner()@.len()
            }),
    {
        obj.len() < self.inner.remaining()
    }
}

/// Reads the data of an object as a stream.
pub struct ReadFrom<H: Hasher, const N: usize> {
    obj: Object<H, N>,
    pos: usize,
}

impl<H: Hasher, const N: usize> ReadFrom<H, N> {
    pub closed spec fn spec_obj(&self) -> Object<H, N> {
        self.obj
    }

    /// How much of the data has been read.
    pub closed spec fn spec_pos(&self) -> usize {
        self.pos
    }

    pub fn new(obj: Object<H, N>) -> (r: Self)
        ensures
            r.spec_obj() == obj,
            r.spec_pos() == 0,
    {
        Self { obj: obj, pos: 0 }
    }

    pub fn into_inner(self) -> (r: Object<H, N>)
        ensures
            r == self.spec_obj(),
    {
        self.obj
    }

    /// Copies the next bytes of the data into `buf`, as many as fit, and
    /// says how many.
    pub fn read(&mut self, buf: &mut [u8]) -> (r: usize)
        requires
            old(self).spec_obj()@.len() >= N + INFO_LEN,
            old(self).spec_pos() <= old(self).spec_obj()@.len() - (N + INFO_LEN),
        ensures
            ({
                let data = old(self).spec_obj()@.skip(N + INFO_LEN);
                let pos = old(self).spec_pos() as int;
                let remaining = data.len() - pos;
                &&& r == if remaining < old(buf)@.len() { remaining } else { old(buf)@.len() as int }
                &&& final(self).spec_pos() == pos + r
                &&& final(self).spec_obj() == old(self).spec_obj()
                &&& final(buf)@ == data.subrange(pos, pos + r) + old(buf)@.skip(r as int)
            }),
    {
        let data = self.obj.as_data();
        let dlen = data.len();
        let remaining = dlen - self.pos;
        let amount = if remaining < buf.len() {
            remaining
        } else {
            buf.len()
        };
        let ghost b0 = buf@;
        if amount > 0 {
            let start = self.pos;
            let mut i: usize = 0;
            while i < amount
                invariant
                    i <= amount,
                    amount <= buf@.len(),
                    start + amount <= dlen,
                    dlen == data@.len(),
                    buf@.len() == b0.len(),
                    forall|j: int| 0 <= j < i ==> #[trigger] buf@[j] == data@[start + j],
                    forall|j: int| i <= j < buf@.len() ==> #[trigger] buf@[j] == b0[j],
                decreases amount - i,
            {
                buf[i] = data[start + i];
                i = i + 1;
            }
            self.pos = start + amount;
        }
        proof {
            let pos = old(self).spec_pos() as int;
            assert(buf@ =~= data@.subrange(pos, pos + amount) + b0.skip(amount as int));
        }
        amount
    }
}

/// Writes a stream into the data of an object, up to its largest size.
pub struct WriteTo<H: Hasher, const N: usize> {
    obj: Object<H, N>,
}

impl<H: Hasher, const N: usize> WriteTo<H, N> {
    pub closed spec fn spec_obj(&self) -> Object<H, N> {
        self.obj
    }

    pub fn new(obj: Object<H, N>) -> (r: Self)
        ensures
            r.spec_obj() == obj,
    {
        Self { obj: obj }
    }

    pub fn into_inner(self) -> (r: Object<H, N>)
        ensures
            r == self.spec_obj(),
    {
        self.obj
    }

    /// Appends as much of `buf` as fits and says how much.
    pub fn write(&mut self, buf: &[u8]) -> (r: usize)
        requires
            fits_objects(N as int),
        ensures
            ({
                let len = old(self).spec_obj()@.len();
                let room = if len > N + INFO_LEN + OBJECT_MAX_SIZE {
                    0
                } else {
                    N + INFO_LEN + OBJECT_MAX_SIZE - len
                };
                &&& r == if buf@.len() < room { buf@.len() as int } else { room }
                &&& final(self).spec_obj()@ == old(self).spec_obj()@ + buf@.take(r as int)
            }),
    {
        let room = self.obj.remaining();
        let amount = if buf.len() < room {
            buf.len()
        } else {
            room
        };
        if amount > 0 {
            let part = vstd::slice::slice_subrange(buf, 0, amount);
            self.obj.as_mut_vec().extend_from_slice(part);
            proof {
                assert(self.obj@ =~= old(self).obj@ + buf@.take(amount as int));
            }
        } else {
            proof {
                assert(self.obj@ =~= old(self).obj@ + buf@.take(0));
            }
        }
        amount
    }
}

// ---------------------------------------------------------------------------
// Location map

/// The pairs of a location map's wire form, in order.
pub open spec fn location_pairs(buf: Seq<u8>, n: nat) -> Seq<(Seq<u8>, Seq<u8>)> {
    Seq::new(
        buf.len() / (2 * n),
        |i: int| (buf.subrange(2 * n * i, 2 * n * i + n), buf.subrange(2 * n * i + n, 2 * n * (i + 1))),
    )
}

/// The wire form of pairs: each key then its value.
pub open spec fn pairs_bytes(s: Seq<(Seq<u8>, Seq<u8>)>) -> Seq<u8>
    decreases s.len(),
{
    if s.len() == 0 {
        Seq::empty()
    } else {
        pairs_bytes(s.drop_last()) + s.last().0 + s.last().1
    }
}

/// Maps the name of an object to the name of the container holding it.
pub struct LocationMap<const N: usize> {
    map: NameMap<N, Name<N>>,
}

impl<const N: usize> View for LocationMap<N> {
    type V = Map<Seq<u8>, Seq<u8>>;

    closed spec fn view(&self) -> Map<Seq<u8>, Seq<u8>> {
        self.map@
    }
}

impl<const N: usize> LocationMap<N> {
    /// The pairs in ascending order of key.
    pub closed spec fn spec_pairs(&self) -> Seq<(Seq<u8>, Seq<u8>)> {
        self.map.spec_pairs()
    }

    pub closed spec fn wf(&self) -> bool {
        self.map.wf()
    }

    /// The pairs are those of the map, in ascending order of key.
    pub proof fn lemma_pairs(&self)
        requires
            self.wf(),
        ensures
            bytes_sorted(self.spec_pairs()),
            self@ == pairs_map(self.spec_pairs()),
            keys_unique(self.spec_pairs()),
            forall|k: Seq<u8>| #[trigger]
                self@.contains_key(k) <==> exists|i: int|
                    0 <= i < self.spec_pairs().len() && self.spec_pairs()[i].0 == k,
            forall|i: int|
                0 <= i < self.spec_pairs().len() ==> #[trigger] self@[self.spec_pairs()[i].0]
                    == self.spec_pairs()[i].1,
            forall|i: int|
                0 <= i < self.spec_pairs().len() ==> (#[trigger] self.spec_pairs()[i]).0.len() == N
                    && self.spec_pairs()[i].1.len() == N,
    {
        self.map.lemma_pairs();
        self.map.lemma_value_lens();
    }

    pub fn new() -> (r: Self)
        ensures
            r.wf(),
            r@ == Map::<Seq<u8>, Seq<u8>>::empty(),
    {
        Self { map: NameMap::new() }
    }

    pub fn clear(&mut self)
        ensures
            final(self).wf(),
            final(self)@ == Map::<Seq<u8>, Seq<u8>>::empty(),
    {
        self.map.clear();
    }

    /// Maps `key` to `val`, giving back the value it replaces.
    pub fn insert(&mut self, key: Name<N>, val: Name<N>) -> (r: Option<Name<N>>)
        requires
            old(self).wf(),
        ensures
            final(self).wf(),
            final(self)@ == old(self)@.insert(key.buf@, val.buf@),
            r is Some <==> old(self)@.contains_key(key.buf@),
            r matches Some(v) ==> v.buf@ == old(self)@[key.buf@],
    {
        self.map.insert(key, val)
    }

    pub fn get(&self, key: &Name<N>) -> (r: Option<&Name<N>>)
        requires
            self.wf(),
        ensures
            r is Some <==> self@.contains_key(key.buf@),
            r matches Some(v) ==> v.buf@ == self@[key.buf@],
    {
        self.map.get(key)
    }

    /// Replaces the map by the pairs in `buf`, each an `N` byte key then an
    /// `N` byte value; a key that occurs twice keeps its last value.
    pub fn deserialize(&mut self, buf: &[u8])
        requires
            N > 0,
            buf@.len() > 0,
            buf@.len() as int % (2 * N as int) == 0,
        ensures
            final(self).wf(),
            final(self)@ == pairs_map(location_pairs(buf@, N as nat)),
    {
        self.clear();
        let ghost all = location_pairs(buf@, N as nat);
        let ghost bl: int = buf@.len() as int;
        let ghost w: int = 2 * N as int;
        let mut offset: usize = 0;
        let mut i: usize = 0;
        proof {
            assert(all.take(0) =~= Seq::<(Seq<u8>, Seq<u8>)>::empty());
            vstd::arithmetic::div_mod::lemma_fundamental_div_mod(bl, w);
            assert(all.len() == bl / w);
        }
        while offset < buf.len()
            invariant
                N > 0,
                bl == buf@.len(),
                w == 2 * N,
                bl % w == 0,
                bl == w * (bl / w),
                all == location_pairs(buf@, N as nat),
                all.len() == bl / w,
                offset == w * i,
                offset <= bl,
                i <= all.len(),
                self.wf(),
                self@ == pairs_map(all.take(i as int)),
            decreases bl - offset,
        {
            proof {
                let q = bl / w;
                assert(i < q) by (nonlinear_arith)
                    requires
                        offset == w * i,
                        offset < bl,
                        bl == w * q,
                        w > 0,
                ;
                assert(offset + w <= bl) by (nonlinear_arith)
                    requires
                        offset == w * i,
                        i < q,
                        bl == w * q,
                        w > 0,
                ;
            }
            let key = Name::from(vstd::slice::slice_subrange(buf, offset, offset + N));
            let val = Name::from(vstd::slice::slice_subrange(buf, offset + N, offset + 2 * N));
            proof {
                let n = N as nat;
                assert(2 * n * i == offset && 2 * n * i + n == offset + N && 2 * n * (i + 1) == offset + 2 * N) by (nonlinear_arith)
                    requires
                        offset == w * i,
                        w == 2 * N,
                        n == N,
                ;
                assert(all[i as int] == (key.buf@, val.buf@));
                assert(all.take(i + 1).drop_last() =~= all.take(i as int));
            }
            self.insert(key, val);
            offset = offset + 2 * N;
            i = i + 1;
            proof {
                assert(offset == w * i) by (nonlinear_arith)
                    requires
                        offset == w * (i - 1) + w,
                ;
            }
        }
        proof {
            let q = bl / w;
            assert(i == q) by (nonlinear_arith)
                requires
                    offset == w * i,
                    offset == bl,
                    bl == w * q,
                    w > 0,
            ;
            assert(all.take(i as int) =~= all);
        }
    }

    /// Appends the pairs, in descending order of key, each key then its value.
    pub fn serialize(&self, buf: &mut Vec<u8>)
        requires
            self.wf(),
        ensures
            final(buf)@ == old(buf)@ + pairs_bytes(self.spec_pairs().reverse()),
    {
        let ghost rev = self.spec_pairs().reverse();
        let n = self.map.len();
        let mut k: usize = 0;
        while k < n
            invariant
                self.wf(),
                n == self.spec_pairs().len(),
                rev == self.spec_pairs().reverse(),
                k <= n,
                buf@ == old(buf)@ + pairs_bytes(rev.take(k as int)),
            decreases n - k,
        {
            let key = self.map.key_at(n - 1 - k);
            let val = self.map.value_at(n - 1 - k);
            buf.extend_from_slice(key.as_buf());
            buf.extend_from_slice(val.as_buf());
            proof {
                assert(rev[k as int] == self.spec_pairs()[n - 1 - k]);
                assert(rev.take(k + 1).drop_last() =~= rev.take(k as int));
                assert(buf@ =~= old(buf)@ + pairs_bytes(rev.take(k + 1)));
            }
            k = k + 1;
        }
        assert(rev.take(n as int) =~= rev);
    }
}

// ---------------------------------------------------------------------------
// Leaf hashes

/// The leaf hashes of a large file, with its total size.
#[derive(Debug)]
pub struct LeafHashes<const N: usize> {
    total: u64,
    hashes: Vec<Name<N>>,
}

/// The hashes of a sequence of names.
pub open spec fn name_bufs<const N: usize>(s: Seq<Name<N>>) -> Seq<Seq<u8>> {
    Seq::new(s.len(), |i: int| s[i].buf@)
}

/// The hashes one after the other.
pub open spec fn concat_hashes(s: Seq<Seq<u8>>) -> Seq<u8>
    decreases s.len(),
{
    if s.len() == 0 {
        Seq::empty()
    } else {
        concat_hashes(s.drop_last()) + s.last()
    }
}

/// The wire form: the total size (little-endian `u64`), then the hashes.
pub open spec fn leaf_hashes_bytes(total: u64, hashes: Seq<Seq<u8>>) -> Seq<u8> {
    le_bytes_u64(total) + concat_hashes(hashes)
}

/// The hashes of a wire form: `N` bytes each after the total.
pub open spec fn parse_hashes(buf: Seq<u8>, n: nat) -> Seq<Seq<u8>> {
    Seq::new(((buf.len() - 8) / n as int) as nat, |i: int| buf.subrange(8 + n * i, 8 + n * (i + 1)))
}

impl<const N: usize> LeafHashes<N> {
    pub closed spec fn spec_total(&self) -> u64 {
        self.total
    }

    pub closed spec fn spec_hashes(&self) -> Seq<Seq<u8>> {
        name_bufs(self.hashes@)
    }

    /// Every hash has `N` bytes.
    pub proof fn lemma_hash_lens(&self)
        ensures
            forall|i: int| 0 <= i < self.spec_hashes().len() ==> (#[trigger] self.spec_hashes()[i]).len() == N,
    {
    }

    pub fn new() -> (r: Self)
        ensures
            r.spec_total() == 0,
            r.spec_hashes() == Seq::<Seq<u8>>::empty(),
    {
        let r = Self { total: 0, hashes: Vec::new() };
        assert(r.spec_hashes() =~= Seq::<Seq<u8>>::empty());
        r
    }

    /// The hashes, in order.
    pub fn iter(&self) -> (r: core::slice::Iter<'_, Name<N>>)
        ensures
            name_bufs(vstd::std_specs::slice::into_iter_elts(r)) == self.spec_hashes(),
    {
        broadcast use vstd::std_specs::slice::group_slice_axioms;

        let r = self.hashes.as_slice().iter();
        assert(vstd::std_specs::iter::IteratorSpec::remaining(&r).unref() =~= self.hashes@);
        r
    }

    /// Adds the hash of the next leaf, of `size` bytes.
    pub fn append_leaf(&mut self, hash: Name<N>, size: usize)
        requires
            old(self).spec_total() + size <= u64::MAX,
        ensures
            final(self).spec_total() == old(self).spec_total() + size,
            final(self).spec_hashes() == old(self).spec_hashes().push(hash.buf@),
    {
        self.hashes.push(hash);
        self.total = self.total + size as u64;
        assert(self.spec_hashes() =~= old(self).spec_hashes().push(hash.buf@));
    }

    pub fn serialize(&self, buf: &mut Vec<u8>)
        ensures
            final(buf)@ == old(buf)@ + leaf_hashes_bytes(self.spec_total(), self.spec_hashes()),
    {
        let t = u64_le_bytes(self.total);
        buf.extend_from_slice(&t);
        let ghost b1 = buf@;
        let ghost hs = self.spec_hashes();
        let n = self.hashes.len();
        let mut i: usize = 0;
        while i < n
            invariant
                n == self.hashes@.len(),
                hs == self.spec_hashes(),
                i <= n,
                buf@ == b1 + concat_hashes(hs.take(i as int)),
            decreases n - i,
        {
            buf.extend_from_slice(self.hashes[i].as_buf());
            proof {
                assert(hs.take(i + 1).drop_last() =~= hs.take(i as int));
                assert(buf@ =~= b1 + concat_hashes(hs.take(i + 1)));
            }
            i = i + 1;
        }
        proof {
            assert(hs.take(n as int) =~= hs);
            assert(final(buf)@ =~= old(buf)@ + leaf_hashes_bytes(self.total, hs));
        }
    }

    /// Reads the wire form: the total, then `N` byte hashes to the end.
    pub fn deserialize(buf: &[u8]) -> (r: Self)
        requires
            N > 0,
            buf@.len() >= 8,
            (buf@.len() - 8) % (N as int) == 0,
        ensures
            r.spec_total() == u64_from_le(buf@.subrange(0, 8)),
            r.spec_hashes() == parse_hashes(buf@, N as nat),
    {
        let total = read_u64_le(vstd::slice::slice_subrange(buf, 0, 8));
        let mut hashes: Vec<Name<N>> = Vec::new();
        let mut offset: usize = 8;
        let ghost all = parse_hashes(buf@, N as nat);
        let ghost m: int = buf@.len() - 8;
        let ghost w: int = N as int;
        let mut i: usize = 0;
        proof {
            vstd::arithmetic::div_mod::lemma_fundamental_div_mod(m, w);
            assert(name_bufs(hashes@) =~= all.take(0));
        }
        while offset < buf.len()
            invariant
                N > 0,
                w == N,
                m == buf@.len() - 8,
                m == w * (m / w),
                all == parse_hashes(buf@, N as nat),
                all.len() == m / w,
                offset == 8 + w * i,
                offset <= buf@.len(),
                name_bufs(hashes@) == all.take(i as int),
            decreases buf@.len() - offset,
        {
            proof {
                let q = m / w;
                assert(i < q) by (nonlinear_arith)
                    requires
                        offset == 8 + w * i,
                        offset < m + 8,
                        m == w * q,
                        w > 0,
                ;
                assert(offset + w <= m + 8) by (nonlinear_arith)
                    requires
                        offset == 8 + w * i,
                        i < q,
                        m == w * q,
                        w > 0,
                ;
            }
            let hash = Name::from(vstd::slice::slice_subrange(buf, offset, offset + N));
            let ghost h0 = hashes@;
            hashes.push(hash);
            proof {
                let n = N as nat;
                assert(8 + n * i == offset && 8 + n * (i + 1) == offset + N) by (nonlinear_arith)
                    requires
                        offset == 8 + w * i,
                        w == N,
                        n == N,
                ;
                assert(all[i as int] == hash.buf@);
                assert(name_bufs(hashes@) =~= name_bufs(h0).push(hash.buf@));
                assert(all.take(i + 1) =~= all.take(i as int).push(all[i as int]));
                assert(name_bufs(hashes@) =~= all.take(i + 1));
            }
            offset = offset + N;
            i = i + 1;
            proof {
                assert(offset == 8 + w * i) by (nonlinear_arith)
                    requires
                        offset == 8 + w * (i - 1) + w,
                ;
            }
        }
        proof {
            let q = m / w;
            assert(i == q) by (nonlinear_arith)
                requires
                    offset == 8 + w * i,
                    offset == m + 8,
                    m == w * q,
                    w > 0,
            ;
            assert(all.take(i as int) =~= all);
        }
        Self { total: total, hashes: hashes }
    }
}

proof fn lemma_concat_hashes(h: Seq<Seq<u8>>, n: nat)
    requires
        forall|i: int| 0 <= i < h.len() ==> (#[trigger] h[i]).len() == n,
    ensures
        concat_hashes(h).len() == n * h.len(),
        forall|i: int|
            0 <= i < h.len() ==> concat_hashes(h).subrange(n * i, n * (i + 1)) == #[trigger] h[i],
    decreases h.len(),
{
    if h.len() > 0 {
        let t = h.drop_last();
        assert forall|i: int| 0 <= i < t.len() implies (#[trigger] t[i]).len() == n by {
            assert(t[i] == h[i]);
        }
        lemma_concat_hashes(t, n);
        let c = concat_hashes(h);
        let ct = concat_hashes(t);
        assert(c == ct + h.last());
        assert(n * h.len() == n * t.len() + n) by (nonlinear_arith)
            requires
                h.len() == t.len() + 1,
        ;
        assert forall|i: int| 0 <= i < h.len() implies c.subrange(n * i, n * (i + 1)) == #[trigger] h[i] by {
            assert(n * (i + 1) == n * i + n) by (nonlinear_arith);
            if i < t.len() {
                assert(n * (i + 1) <= n * t.len()) by (nonlinear_arith)
                    requires
                        i + 1 <= t.len(),
                ;
                assert(0 <= n * i) by (nonlinear_arith)
                    requires
                        0 <= i,
                ;
                assert(c.subrange(n * i, n * (i + 1)) =~= ct.subrange(n * i, n * (i + 1)));
                assert(t[i] == h[i]);
            } else {
                assert(i == t.len());
                assert(c.subrange(n * i, n * (i + 1)) =~= h.last());
            }
        }
    }
}

/// Reading back the wire form of leaf hashes gives the total and the hashes.
pub proof fn lemma_leaf_hashes_roundtrip(total: u64, hashes: Seq<Seq<u8>>, n: nat)
    requires
        n > 0,
        forall|i: int| 0 <= i < hashes.len() ==> (#[trigger] hashes[i]).len() == n,
    ensures
        ({
            let b = leaf_hashes_bytes(total, hashes);
            &&& b.len() >= 8
            &&& (b.len() - 8) % (n as int) == 0
            &&& u64_from_le(b.subrange(0, 8)) == total
            &&& parse_hashes(b, n) == hashes
        }),
{
    let b = leaf_hashes_bytes(total, hashes);
    lemma_u64_le_roundtrip(total);
    lemma_concat_hashes(hashes, n);
    let c = concat_hashes(hashes);
    assert(b.subrange(0, 8) =~= le_bytes_u64(total));
    assert((b.len() - 8) == n * hashes.len());
    vstd::arithmetic::div_mod::lemma_mod_multiples_basic(hashes.len() as int, n as int);
    vstd::arithmetic::div_mod::lemma_div_multiples_vanish(hashes.len() as int, n as int);
    assert(n * hashes.len() == hashes.len() * n) by (nonlinear_arith);
    let p = parse_hashes(b, n);
    assert(p.len() == hashes.len());
    assert(b == le_bytes_u64(total) + c);
    assert forall|i: int| 0 <= i < hashes.len() implies p[i] == hashes[i] by {
        assert(n * (i + 1) <= n * hashes.len()) by (nonlinear_arith)
            requires
                i + 1 <= hashes.len(),
        ;
        assert(0 <= n * i <= n * (i + 1)) by (nonlinear_arith)
            requires
                0 <= i,
        ;
        assert(c.subrange(n * i, n * (i + 1)) == hashes[i]);
        assert(b.subrange(8 + n * i, 8 + n * (i + 1)) =~= c.subrange(n * i, n * (i + 1)));
    }
    assert(p =~= hashes);
}

proof fn lemma_pairs_bytes(s: Seq<(Seq<u8>, Seq<u8>)>, n: nat)
    requires
        forall|i: int| 0 <= i < s.len() ==> (#[trigger] s[i]).0.len() == n && s[i].1.len() == n,
    ensures
        pairs_bytes(s).len() == 2 * n * s.len(),
        forall|i: int|
            0 <= i < s.len() ==> pairs_bytes(s).subrange(2 * n * i, 2 * n * i + n) == (#[trigger] s[i]).0
                && pairs_bytes(s).subrange(2 * n * i + n, 2 * n * (i + 1)) == s[i].1,
    decreases s.len(),
{
    if s.len() > 0 {
        let t = s.drop_last();
        assert forall|i: int| 0 <= i < t.len() implies (#[trigger] t[i]).0.len() == n && t[i].1.len() == n by {
            assert(t[i] == s[i]);
        }
        lemma_pairs_bytes(t, n);
        let c = pairs_bytes(s);
        let ct = pairs_bytes(t);
        assert(c == ct + s.last().0 + s.last().1);
        assert(2 * n * s.len() == 2 * n * t.len() + 2 * n) by (nonlinear_arith)
            requires
                s.len() == t.len() + 1,
        ;
        assert forall|i: int| 0 <= i < s.len() implies c.subrange(2 * n * i, 2 * n * i + n) == (#[trigger] s[i]).0
            && c.subrange(2 * n * i + n, 2 * n * (i + 1)) == s[i].1 by {
            assert(2 * n * (i + 1) == 2 * n * i + 2 * n) by (nonlinear_arith);
            if i < t.len() {
                assert(2 * n * (i + 1) <= 2 * n * t.len()) by (nonlinear_arith)
                    requires
                        i + 1 <= t.len(),
                ;
                assert(0 <= 2 * n * i) by (nonlinear_arith)
                    requires
                        0 <= i,
                ;
                assert(c.subrange(2 * n * i, 2 * n * i + n) =~= ct.subrange(2 * n * i, 2 * n * i + n));
                assert(c.subrange(2 * n * i + n, 2 * n * (i + 1)) =~= ct.subrange(2 * n * i + n, 2 * n * (i + 1)));
                assert(t[i] == s[i]);
            } else {
                assert(i == t.len());
                assert(c.subrange(2 * n * i, 2 * n * i + n) =~= s.last().0);
                assert(c.subrange(2 * n * i + n, 2 * n * (i + 1)) =~= s.last().1);
            }
        }
    }
}

/// Writing a non-empty location map and reading it back gives the same map.
pub proof fn lemma_location_roundtrip<const N: usize>(m: &LocationMap<N>)
    requires
        N > 0,
        m.wf(),
        m@.len() > 0,
    ensures
        ({
            let b = pairs_bytes(m.spec_pairs().reverse());
            &&& b.len() > 0
            &&& b.len() as int % (2 * N as int) == 0
            &&& pairs_map(location_pairs(b, N as nat)) == m@
        }),
{
    m.lemma_pairs();
    let s = m.spec_pairs();
    let r = s.reverse();
    let n = N as nat;
    assert forall|i: int| 0 <= i < r.len() implies (#[trigger] r[i]).0.len() == n && r[i].1.len() == n by {
        assert(r[i] == s[s.len() - 1 - i]);
    }
    lemma_pairs_bytes(r, n);
    let b = pairs_bytes(r);
    lemma_pairs_map(s);
    assert(s.len() > 0) by {
        if s.len() == 0 {
            assert(pairs_map(s) =~= Map::<Seq<u8>, Seq<u8>>::empty());
        }
    }
    assert(b.len() == 2 * n * r.len());
    assert(b.len() > 0) by (nonlinear_arith)
        requires
            b.len() == 2 * n * r.len(),
            n > 0,
            r.len() > 0,
    ;
    assert(2 * n * r.len() == r.len() * (2 * n)) by (nonlinear_arith);
    vstd::arithmetic::div_mod::lemma_mod_multiples_basic(r.len() as int, 2 * n as int);
    vstd::arithmetic::div_mod::lemma_div_multiples_vanish(r.len() as int, 2 * n as int);
    let lp = location_pairs(b, n);
    assert(lp =~= r);
    assert(keys_unique(r)) by {
        assert forall|i: int, j: int| 0 <= i < j < r.len() implies #[trigger] r[i].0 != #[trigger] r[j].0 by {
            assert(r[i] == s[s.len() - 1 - i] && r[j] == s[s.len() - 1 - j]);
        }
    }
    lemma_pairs_map(r);
    assert forall|k: Seq<u8>| #[trigger] pairs_map(r).contains_key(k) <==> pairs_map(s).contains_key(k) by {
        if pairs_map(r).contains_key(k) {
            let i = choose|i: int| 0 <= i < r.len() && r[i].0 == k;
            assert(s[s.len() - 1 - i].0 == k);
        }
        if pairs_map(s).contains_key(k) {
            let i = choose|i: int| 0 <= i < s.len() && s[i].0 == k;
            assert(r[s.len() - 1 - i] == s[i]);
        }
    }
    assert forall|k: Seq<u8>| #[trigger] pairs_map(r).contains_key(k) implies pairs_map(r)[k] == pairs_map(s)[k] by {
        let i = choose|i: int| 0 <= i < r.len() && r[i].0 == k;
        assert(r[i] == s[s.len() - 1 - i]);
    }
    assert(pairs_map(r) =~= pairs_map(s));
}

/// Bytes of a large file taken into its next leaf object: at most the
/// largest object size.
pub fn chunk_size(remaining: u64) -> (r: u64)
    ensures
        r == if remaining < OBJECT_MAX_SIZE { remaining } else { OBJECT_MAX_SIZE as u64 },
{
    if remaining < OBJECT_MAX_SIZE as u64 {
        remaining
    } else {
        OBJECT_MAX_SIZE as u64
    }
}

/// Stores the leaf hashes of a large file in `obj`, with the kind of a leaf
/// list, and gives the object's name (the file's name).
pub fn leaf_hashes_object<H: Hasher, const N: usize>(leaves: &LeafHashes<N>, obj: &mut Object<H, N>) -> (r: Name<N>)
    requires
        valid_name_len(N as int),
        fits_objects(N as int),
        8 + N * leaves.spec_hashes().len() <= OBJECT_MAX_SIZE,
        forall|i: int| 0 <= i < leaves.spec_hashes().len() ==> (#[trigger] leaves.spec_hashes()[i]).len() == N,
    ensures
        ({
            let data = leaf_hashes_bytes(leaves.spec_total(), leaves.spec_hashes());
            &&& final(obj)@ == r.buf@ + object_payload(data.len() as int, 1, data)
            &&& r.buf@ == H::spec_hash(object_payload(data.len() as int, 1, data), N as nat)
        }),
{
    proof {
        lemma_concat_hashes(leaves.spec_hashes(), N as nat);
    }
    obj.clear();
    leaves.serialize(obj.as_mut_vec());
    let ghost b = obj@;
    proof {
        assert(b.skip(N + INFO_LEN) =~= leaf_hashes_bytes(leaves.spec_total(), leaves.spec_hashes()));
    }
    obj.finalize_with_kind(1)
}

// ---------------------------------------------------------------------------
// Compressed object streams

/// What zstd decompresses `data` to; `None` when `data` is not a zstd stream.
pub uninterp spec fn zstd_decompressed(data: Seq<u8>) -> Option<Seq<u8>>;

/// What zstd compresses `data` to at `level`; `None` when it fails.
pub uninterp spec fn zstd_compressed(data: Seq<u8>, level: int) -> Option<Seq<u8>>;

/// `zstd::stream::decode_all` on `data`.  The contract claims that the
/// outcome is a function of the bytes.
#[verifier::external_body]
fn zstd_decode(data: &[u8]) -> (r: Option<Vec<u8>>)
    ensures
        r is None <==> zstd_decompressed(data@) is None,
        r matches Some(v) ==> zstd_decompressed(data@) == Some(v@),
{
    zstd::stream::decode_all(data).ok()
}

/// `zstd::stream::encode_all` on `data` at `level`.  The contract claims
/// that the outcome is a function of the bytes and the level, and that zstd
/// is lossless: what it gives decompresses to `data`.
#[verifier::external_body]
fn zstd_encode(data: &[u8], level: i32) -> (r: Option<Vec<u8>>)
    ensures
        r is None <==> zstd_compressed(data@, level as int) is None,
        r matches Some(v) ==> zstd_compressed(data@, level as int) == Some(v@) && zstd_decompressed(v@)
            == Some(data@),
{
    zstd::stream::encode_all(data, level).ok()
}

/// The buffers of a sequence of objects.
pub open spec fn object_views<H: Hasher, const N: usize>(s: Seq<Object<H, N>>) -> Seq<Seq<u8>> {
    Seq::new(s.len(), |i: int| s[i]@)
}

/// The whole objects that `data` holds back to back; `None` when it does not
/// split into them.
pub open spec fn parse_objects<H: Hasher>(data: Seq<u8>, n: nat) -> Option<Seq<Seq<u8>>>
    decreases data.len(),
{
    if data.len() == 0 {
        Some(Seq::empty())
    } else if data.len() < n + INFO_LEN {
        None
    } else {
        let len = object_len(data, n);
        if len > data.len() || !buf_is_valid::<H>(data.take(len), n as int) {
            None
        } else {
            match parse_objects::<H>(data.skip(len), n) {
                Some(rest) => Some(seq![data.take(len)] + rest),
                None => None,
            }
        }
    }
}

/// The objects that `data` splits into are whole objects, and one after the
/// other they make up `data`.
pub proof fn lemma_parse_objects_split<H: Hasher>(data: Seq<u8>, n: nat)
    requires
        parse_objects::<H>(data, n) is Some,
    ensures
        parse_objects::<H>(data, n).unwrap().flatten() == data,
        forall|i: int|
            0 <= i < parse_objects::<H>(data, n).unwrap().len() ==> whole_object::<H>(
                #[trigger] parse_objects::<H>(data, n).unwrap()[i],
                n,
            ),
    decreases data.len(),
{
    if data.len() > 0 {
        let len = object_len(data, n);
        let head = data.take(len);
        let rest = data.skip(len);
        lemma_parse_objects_split::<H>(rest, n);
        let s = parse_objects::<H>(data, n).unwrap();
        let r = parse_objects::<H>(rest, n).unwrap();
        assert(s == seq![head] + r);
        assert(s.drop_first() =~= r);
        assert(head.subrange(n as int, n as int + 4) =~= data.subrange(n as int, n as int + 4));
        assert(head + rest =~= data);
        assert forall|i: int| 0 <= i < s.len() implies whole_object::<H>(#[trigger] s[i], n) by {
            if i > 0 {
                assert(s[i] == r[i - 1]);
            }
        }
    }
}

/// Whole objects put one after the other split back into the same objects.
pub proof fn lemma_objects_roundtrip<H: Hasher>(objs: Seq<Seq<u8>>, n: nat)
    requires
        forall|i: int| 0 <= i < objs.len() ==> whole_object::<H>(#[trigger] objs[i], n),
    ensures
        parse_objects::<H>(objs.flatten(), n) == Some(objs),
    decreases objs.len(),
{
    if objs.len() > 0 {
        let head = objs[0];
        let rest = objs.drop_first();
        assert forall|i: int| 0 <= i < rest.len() implies whole_object::<H>(#[trigger] rest[i], n) by {
            assert(rest[i] == objs[i + 1]);
        }
        lemma_objects_roundtrip::<H>(rest, n);
        let data = objs.flatten();
        assert(whole_object::<H>(head, n));
        assert(data == head + rest.flatten());
        assert(data.subrange(n as int, n as int + 4) =~= head.subrange(n as int, n as int + 4));
        assert(object_len(data, n) == head.len());
        assert(data.take(head.len() as int) =~= head);
        assert(data.skip(head.len() as int) =~= rest.flatten());
        assert(seq![head] + rest =~= objs);
    }
}

/// Compresses the objects, one after the other, into the data of a new
/// object of kind 0; `None` when compression fails or what it gives is empty
/// or larger than an object holds.
pub fn encode_objects<H: Hasher, const N: usize>(objs: &[Object<H, N>], level: i32) -> (r: Option<
    Object<H, N>,
>)
    requires
        valid_name_len(N as int),
        fits_objects(N as int),
    ensures
        r is Some <==> (zstd_compressed(object_views(objs@).flatten(), level as int) matches Some(z)
            && 1 <= z.len() <= OBJECT_MAX_SIZE),
        r matches Some(c) ==> {
            let z = zstd_compressed(object_views(objs@).flatten(), level as int).unwrap();
            &&& c@ == H::spec_hash(object_payload(z.len() as int, 0, z), N as nat) + object_payload(
                z.len() as int,
                0,
                z,
            )
            &&& zstd_decompressed(z) == Some(object_views(objs@).flatten())
        },
{
    let mut data: Vec<u8> = Vec::new();
    let n = objs.len();
    let mut i: usize = 0;
    while i < n
        invariant
            n == objs@.len(),
            i <= n,
            data@ == object_views(objs@.take(i as int)).flatten(),
        decreases n - i,
    {
        let ghost before = object_views(objs@.take(i as int));
        data.extend_from_slice(objs[i].as_buf());
        proof {
            assert(object_views(objs@.take(i + 1)) =~= before.push(objs@[i as int]@));
            before.lemma_flatten_push(objs@[i as int]@);
        }
        i = i + 1;
    }
    proof {
        assert(objs@.take(n as int) =~= objs@);
    }
    match zstd_encode(data.as_slice(), level) {
        None => None,
        Some(z) => {
            if z.len() == 0 || z.len() > OBJECT_MAX_SIZE {
                None
            } else {
                let mut c: Object<H, N> = Object::new();
                c.extend(z.as_slice());
                proof {
                    assert(c@.skip(N + INFO_LEN) =~= z@);
                }
                c.finalize_with_kind(0);
                Some(c)
            }
        },
    }
}

/// Decompresses the data of `container` and splits it into the objects it
/// holds, each whole and valid; `None` when it does not decompress or does
/// not split into whole objects.
pub fn decode_objects<H: Hasher, const N: usize>(container: &Object<H, N>) -> (r: Option<
    Vec<Object<H, N>>,
>)
    requires
        valid_name_len(N as int),
        fits_objects(N as int),
        container@.len() >= N + INFO_LEN,
    ensures
        r is Some <==> (zstd_decompressed(container@.skip(N + INFO_LEN)) matches Some(d)
            && parse_objects::<H>(d, N as nat) is Some),
        r matches Some(v) ==> object_views(v@) == parse_objects::<H>(
            zstd_decompressed(container@.skip(N + INFO_LEN)).unwrap(),
            N as nat,
        ).unwrap(),
{
    let d = match zstd_decode(container.as_data()) {
        None => {
            return None;
        },
        Some(d) => d,
    };
    let ghost dd = d@;
    let mut out: Vec<Object<H, N>> = Vec::new();
    let len = d.len();
    let mut pos: usize = 0;
    proof {
        assert(dd.skip(0) =~= dd);
        assert(object_views(out@) + Seq::<Seq<u8>>::empty() =~= Seq::<Seq<u8>>::empty());
    }
    while pos < len
        invariant
            valid_name_len(N as int),
            fits_objects(N as int),
            d@ == dd,
            zstd_decompressed(container@.skip(N + INFO_LEN)) == Some(dd),
            len == dd.len(),
            pos <= len,
            parse_objects::<H>(dd, N as nat) == prepend_objects(
                object_views(out@),
                parse_objects::<H>(dd.skip(pos as int), N as nat),
            ),
        decreases len - pos,
    {
        let ghost rest = dd.skip(pos as int);
        let remaining = len - pos;
        if remaining < N + INFO_LEN {
            proof {
                assert(rest.len() == remaining);
                assert(parse_objects::<H>(rest, N as nat) is None);
            }
            return None;
        }
        let info = Info::from_le_bytes(vstd::slice::slice_subrange(d.as_slice(), pos + N, pos + N + INFO_LEN));
        let olen = N + INFO_LEN + info.size();
        proof {
            assert(rest.subrange(N as int, N + 4) =~= dd.subrange(pos + N, pos + N + 4));
            assert(olen == object_len(rest, N as nat));
        }
        if olen > remaining {
            proof {
                assert(rest.len() == remaining);
                assert(parse_objects::<H>(rest, N as nat) is None);
            }
            return None;
        }
        let mut o: Object<H, N> = Object::new();
        o.as_mut_vec().clear();
        o.extend(vstd::slice::slice_subrange(d.as_slice(), pos, pos + olen));
        proof {
            assert(o@ =~= rest.take(olen as int));
        }
        if !o.is_valid() {
            return None;
        }
        let ghost front = object_views(out@);
        out.push(o);
        proof {
            assert(object_views(out@) =~= front.push(rest.take(olen as int)));
            assert(rest.skip(olen as int) =~= dd.skip(pos + olen));
            let tail = parse_objects::<H>(dd.skip(pos + olen), N as nat);
            if let Some(t) = tail {
                assert(front + (seq![rest.take(olen as int)] + t) =~= front.push(rest.take(olen as int)) + t);
            }
        }
        pos = pos + olen;
    }
    proof {
        assert(dd.skip(len as int) =~= Seq::<u8>::empty());
        assert(object_views(out@) + Seq::<Seq<u8>>::empty() =~= object_views(out@));
    }
    Some(out)
}

} // verus!
