//! Index entries, store statistics and the layout of a store on disk.
//!
//! The store's files are read and written by the application; the paths it
//! uses and the bookkeeping over its entries are computed here.

use vstd::prelude::*;
use crate::base::{HEADER_LEN, LEAF_SIZE, OBJECTDIR, PACKFILE, PARTIALDIR, TMPDIR, TUB_HASH_LEN, ObjectType, object_type_code, TubHash};
use crate::chaos::Name;
use crate::leaf_io::{ReindexBuf, header_hash, header_payload_hash, header_size, leaf_count, commit_valid, payload_end, leaf_state, ranges_fit, lemma_state_in_buffer};
use crate::namemap::NameMap;
use crate::protocol::{hash_tombstone, root_message, tombstone_message, tub_hash};
use crate::dbase32::{db32enc, db32_encode, lemma_encode_ascii};
use crate::leaf_io::{get_preamble_size, preamble_size};
use crate::text::{ascii_chars, ascii_to_string, string_bytes};

verus! {

/// An entry in the index: what kind of object, its size, and where its
/// header starts in the pack file.
#[derive(Debug, PartialEq, Eq, Structural, Clone, Copy)]
pub struct Entry {
    pub kind: ObjectType,
    pub size: u64,
    pub offset: u64,
}

impl View for Entry {
    type V = Entry;

    open spec fn view(&self) -> Entry {
        *self
    }
}

impl Entry {
    /// An entry for a data object.
    pub fn new(size: u64, offset: u64) -> (r: Self)
        ensures
            r.kind == ObjectType::Data,
            r.size == size,
            r.offset == offset,
    {
        Self { kind: ObjectType::Data, size: size, offset: offset }
    }

    /// Where the object's data starts in the pack file: after the header and
    /// leaf hashes.
    pub fn data_offset(&self) -> (r: u64)
        requires
            self.offset + preamble_size(self.size as int) <= u64::MAX,
        ensures
            r == self.offset + preamble_size(self.size as int),
    {
        self.offset + get_preamble_size(self.size)
    }

    pub fn is_large(&self) -> (r: bool)
        ensures
            r == (self.size > LEAF_SIZE),
    {
        self.size > LEAF_SIZE
    }

    pub fn is_small(&self) -> (r: bool)
        ensures
            r == (self.size <= LEAF_SIZE),
    {
        !self.is_large()
    }
}

/// Count and total size of a set of entries.
pub struct Summary {
    count: u64,
    total: u64,
}

impl Summary {
    pub closed spec fn spec_count(&self) -> u64 {
        self.count
    }

    pub closed spec fn spec_total(&self) -> u64 {
        self.total
    }

    pub fn new() -> (r: Self)
        ensures
            r.spec_count() == 0,
            r.spec_total() == 0,
    {
        Self { count: 0, total: 0 }
    }

    /// Counts one more entry.
    pub fn increment(&mut self, entry: &Entry)
        requires
            old(self).spec_count() < u64::MAX,
            old(self).spec_total() + entry.size <= u64::MAX,
        ensures
            final(self).spec_count() == old(self).spec_count() + 1,
            final(self).spec_total() == old(self).spec_total() + entry.size,
    {
        self.count = self.count + 1;
        self.total = self.total + entry.size;
    }

    pub fn count(&self) -> (r: u64)
        ensures
            r == self.spec_count(),
    {
        self.count
    }

    pub fn total(&self) -> (r: u64)
        ensures
            r == self.spec_total(),
    {
        self.total
    }
}

/// Summaries of the store's entries: large and small, data and tree.
pub struct Stats {
    large: Summary,
    small: Summary,
    data: Summary,
    tree: Summary,
}

impl Stats {
    pub closed spec fn spec_large(&self) -> Summary {
        self.large
    }

    pub closed spec fn spec_small(&self) -> Summary {
        self.small
    }

    pub closed spec fn spec_data(&self) -> Summary {
        self.data
    }

    pub closed spec fn spec_tree(&self) -> Summary {
        self.tree
    }

    pub fn new() -> (r: Self)
        ensures
            r.spec_large().spec_count() == 0 && r.spec_large().spec_total() == 0,
            r.spec_small().spec_count() == 0 && r.spec_small().spec_total() == 0,
            r.spec_data().spec_count() == 0 && r.spec_data().spec_total() == 0,
            r.spec_tree().spec_count() == 0 && r.spec_tree().spec_total() == 0,
    {
        Self { large: Summary::new(), small: Summary::new(), data: Summary::new(), tree: Summary::new() }
    }

    /// The summary of the large objects.
    pub fn large(&self) -> (r: &Summary)
        ensures
            *r == self.spec_large(),
    {
        &self.large
    }

    /// The summary of the small objects.
    pub fn small(&self) -> (r: &Summary)
        ensures
            *r == self.spec_small(),
    {
        &self.small
    }

    /// The summary of the data objects.
    pub fn data(&self) -> (r: &Summary)
        ensures
            *r == self.spec_data(),
    {
        &self.data
    }

    /// The summary of the tree objects.
    pub fn tree(&self) -> (r: &Summary)
        ensures
            *r == self.spec_tree(),
    {
        &self.tree
    }

    /// Counts an entry by its size class and by its kind.
    pub fn increment(&mut self, entry: &Entry)
        requires
            entry.size > LEAF_SIZE ==> old(self).spec_large().spec_count() < u64::MAX
                && old(self).spec_large().spec_total() + entry.size <= u64::MAX,
            entry.size <= LEAF_SIZE ==> old(self).spec_small().spec_count() < u64::MAX
                && old(self).spec_small().spec_total() + entry.size <= u64::MAX,
            entry.kind == ObjectType::Data ==> old(self).spec_data().spec_count() < u64::MAX
                && old(self).spec_data().spec_total() + entry.size <= u64::MAX,
            entry.kind == ObjectType::Tree ==> old(self).spec_tree().spec_count() < u64::MAX
                && old(self).spec_tree().spec_total() + entry.size <= u64::MAX,
        ensures
            ({
                let large = entry.size > LEAF_SIZE;
                let data = entry.kind == ObjectType::Data;
                let (o, f) = (*old(self), *final(self));
                &&& f.spec_large().spec_count() == o.spec_large().spec_count() + if large { 1int } else { 0 }
                &&& f.spec_large().spec_total() == o.spec_large().spec_total() + if large { entry.size as int } else { 0 }
                &&& f.spec_small().spec_count() == o.spec_small().spec_count() + if large { 0int } else { 1 }
                &&& f.spec_small().spec_total() == o.spec_small().spec_total() + if large { 0int } else { entry.size as int }
                &&& f.spec_data().spec_count() == o.spec_data().spec_count() + if data { 1int } else { 0 }
                &&& f.spec_data().spec_total() == o.spec_data().spec_total() + if data { entry.size as int } else { 0 }
                &&& f.spec_tree().spec_count() == o.spec_tree().spec_count() + if data { 0int } else { 1 }
                &&& f.spec_tree().spec_total() == o.spec_tree().spec_total() + if data { 0int } else { entry.size as int }
            }),
    {
        if entry.is_large() {
            self.large.increment(entry);
        } else {
            self.small.increment(entry);
        }
        match entry.kind {
            ObjectType::Data => {
                self.data.increment(entry);
            },
            ObjectType::Tree => {
                self.tree.increment(entry);
            },
        }
    }
}

// ---------------------------------------------------------------------------
// Paths inside the store directory

/// Path of the pack file.
pub fn pack_path() -> (r: String)
    ensures
        r@ == PACKFILE@,
{
    String::from_str(PACKFILE)
}

/// Path of the pack file's previous version (the extension `db` becomes
/// `db.old`).
pub fn old_pack_path() -> (r: String)
    ensures
        r@ == PACKFILE@ + ".old"@,
{
    let mut s = String::from_str(PACKFILE);
    s.append(".old");
    s
}

/// The Dbase32 text of a name, as a `String` and as its bytes.
fn name_text(id: &[u8]) -> (r: (String, Vec<u8>))
    requires
        id@.len() == 15 || id@.len() == 30,
    ensures
        r.0@ == ascii_chars(db32_encode(id@)),
        r.1@ == db32_encode(id@),
        forall|i: int| 0 <= i < r.1@.len() ==> #[trigger] r.1@[i] < 128,
        r.1@.len() == id@.len() / 5 * 8,
{
    let s = db32enc(id);
    let b = vstd::slice::slice_to_vec(string_bytes(&s));
    proof {
        lemma_encode_ascii(id@);
    }
    (s, b)
}

/// Path of a large object's data file: `objects/`, the first two symbols
/// of its Dbase32 name, `/`, the rest.
pub fn object_path(id: &[u8; 30]) -> (r: String)
    ensures
        r@ == OBJECTDIR@ + "/"@ + ascii_chars(db32_encode(id@).take(2)) + "/"@ + ascii_chars(
            db32_encode(id@).skip(2),
        ),
{
    let (_, b) = name_text(id);
    let n = b.len();
    let prefix = ascii_to_string(vstd::slice::slice_to_vec(vstd::slice::slice_subrange(b.as_slice(), 0, 2)));
    let suffix = ascii_to_string(vstd::slice::slice_to_vec(vstd::slice::slice_subrange(b.as_slice(), 2, n)));
    let mut s = String::from_str(OBJECTDIR);
    s.append("/");
    s.append(prefix.as_str());
    s.append("/");
    s.append(suffix.as_str());
    proof {
        assert(b@.subrange(0, 2) =~= db32_encode(id@).take(2));
        assert(b@.subrange(2, n as int) =~= db32_encode(id@).skip(2));
    }
    s
}

/// Path of a partially written object: `partial/` and its Dbase32 name.
pub fn partial_path(id: &[u8; 30]) -> (r: String)
    ensures
        r@ == PARTIALDIR@ + "/"@ + ascii_chars(db32_encode(id@)),
{
    let (t, _) = name_text(id);
    let mut s = String::from_str(PARTIALDIR);
    s.append("/");
    s.append(t.as_str());
    s
}

/// Path of a temporary file: `tmp/` and the Dbase32 text of its key.
pub fn tmp_path(key: &[u8; 15]) -> (r: String)
    ensures
        r@ == TMPDIR@ + "/"@ + ascii_chars(db32_encode(key@)),
{
    let (t, _) = name_text(key);
    let mut s = String::from_str(TMPDIR);
    s.append("/");
    s.append(t.as_str());
    s
}

// ---------------------------------------------------------------------------
// The index of a pack file

/// Bytes that an entry with a header of `size` takes in the pack file: the
/// header, then the leaf hashes of a large object or the data of a small one.
pub open spec fn entry_len(size: u64) -> int {
    HEADER_LEN + if size > LEAF_SIZE {
        TUB_HASH_LEN * leaf_count(size as int)
    } else {
        size as int
    }
}

/// Whether a header is that of an object.
pub open spec fn is_object_header(h: Seq<u8>) -> bool {
    header_size(h) != 0 && header_hash(h) == tub_hash(root_message(header_size(h), header_payload_hash(h)))
}

/// Whether a header is a tombstone.
pub open spec fn is_tombstone_header(h: Seq<u8>) -> bool {
    header_size(h) == 0 && header_payload_hash(h) == tub_hash(tombstone_message(header_hash(h)))
}

/// The tombstone of the object `hash`: its hash, a zero size and type, and
/// the tombstone hash in the payload hash field.
pub open spec fn tombstone_bytes(hash: Seq<u8>) -> Seq<u8> {
    hash + Seq::new(9, |i: int| 0u8) + tub_hash(tombstone_message(hash))
}

/// The index after an object of `size` bytes whose entry takes `len`
/// bytes is appended at `offset`: the object is indexed there, and the
/// next entry starts after it.
pub open spec fn commit_step(
    map: Map<Seq<u8>, Entry>,
    offset: u64,
    hash: Seq<u8>,
    size: u64,
    len: int,
) -> (Map<Seq<u8>, Entry>, int) {
    if map.contains_key(hash) {
        (map, offset as int)
    } else {
        (map.insert(hash, Entry { kind: ObjectType::Data, size: size, offset: offset }), offset + len)
    }
}

/// The index after a tombstone of `hash` is appended at `offset`.
pub open spec fn delete_step(map: Map<Seq<u8>, Entry>, offset: u64, hash: Seq<u8>) -> (
    Map<Seq<u8>, Entry>,
    int,
) {
    if map.contains_key(hash) {
        (map.remove(hash), offset + HEADER_LEN)
    } else {
        (map, offset as int)
    }
}

/// The index after the header `h` is read back at `offset` while
/// rebuilding it: an object is indexed, a tombstone removes its object.
pub open spec fn reindex_step(map: Map<Seq<u8>, Entry>, offset: u64, h: Seq<u8>) -> (
    Map<Seq<u8>, Entry>,
    int,
) {
    if is_object_header(h) {
        (
            map.insert(header_hash(h), Entry { kind: ObjectType::Data, size: header_size(h), offset: offset }),
            offset + entry_len(header_size(h)),
        )
    } else {
        (map.remove(header_hash(h)), offset + entry_len(header_size(h)))
    }
}

/// What a pack file holds, by object hash, and where the next entry goes.
pub struct PackIndex {
    map: NameMap<30, Entry>,
    offset: u64,
}

impl View for PackIndex {
    type V = Map<Seq<u8>, Entry>;

    closed spec fn view(&self) -> Map<Seq<u8>, Entry> {
        self.map@
    }
}

impl PackIndex {
    pub closed spec fn wf(&self) -> bool {
        self.map.wf()
    }

    /// Where the next entry goes in the pack file.
    pub closed spec fn spec_offset(&self) -> u64 {
        self.offset
    }

    pub fn new() -> (r: Self)
        ensures
            r.wf(),
            r@ == Map::<Seq<u8>, Entry>::empty(),
            r.spec_offset() == 0,
    {
        Self { map: NameMap::new(), offset: 0 }
    }

    /// Forgets everything, to rebuild from the start of the pack file.
    pub fn clear(&mut self)
        ensures
            final(self).wf(),
            final(self)@ == Map::<Seq<u8>, Entry>::empty(),
            final(self).spec_offset() == 0,
    {
        self.map.clear();
        self.offset = 0;
    }

    pub fn len(&self) -> (r: usize)
        requires
            self.wf(),
        ensures
            r == self@.len(),
    {
        self.map.len()
    }

    pub fn offset(&self) -> (r: u64)
        ensures
            r == self.spec_offset(),
    {
        self.offset
    }

    pub fn get(&self, hash: &TubHash) -> (r: Option<Entry>)
        requires
            self.wf(),
        ensures
            r is Some <==> self@.contains_key(hash@),
            r matches Some(e) ==> e == self@[hash@],
    {
        match self.map.get(&Name { buf: *hash }) {
            Some(e) => Some(*e),
            None => None,
        }
    }

    /// The indexed hashes, in ascending order.
    pub fn keys(&self) -> (r: Vec<TubHash>)
        requires
            self.wf(),
        ensures
            r@.len() == self@.len(),
            forall|i: int| 0 <= i < r@.len() ==> self@.contains_key(#[trigger] r@[i]@),
            forall|k: Seq<u8>| self@.contains_key(k) ==> exists|i: int| 0 <= i < r@.len() && r@[i]@ == k,
    {
        proof {
            self.map.lemma_pairs();
        }
        let n = self.map.len();
        let mut keys: Vec<TubHash> = Vec::new();
        let mut i: usize = 0;
        while i < n
            invariant
                self.wf(),
                n == self.map.spec_pairs().len(),
                i <= n,
                keys@.len() == i,
                forall|j: int| 0 <= j < i ==> (#[trigger] keys@[j])@ == self.map.spec_pairs()[j].0,
            decreases n - i,
        {
            keys.push(self.map.key_at(i).buf);
            i = i + 1;
        }
        proof {
            self.map.lemma_pairs();
            assert forall|j: int| 0 <= j < keys@.len() implies self@.contains_key(#[trigger] keys@[j]@) by {
                assert(keys@[j]@ == self.map.spec_pairs()[j].0);
            }
            assert forall|k: Seq<u8>| self@.contains_key(k) implies exists|j: int| 0 <= j < keys@.len() && keys@[j]@ == k by {
                let j = choose|j: int| 0 <= j < self.map.spec_pairs().len() && self.map.spec_pairs()[j].0 == k;
                assert(keys@[j]@ == k);
            }
        }
        keys
    }

    /// The indexed entries in ascending order of hash.
    pub closed spec fn spec_pairs(&self) -> Seq<(Seq<u8>, Entry)> {
        self.map.spec_pairs()
    }

    /// Counts and sizes of the indexed objects: large and small, data and
    /// tree.
    pub fn stats(&self) -> (r: Stats)
        requires
            self.wf(),
            total_where(self.spec_pairs(), |e: Entry| true) <= u64::MAX,
            self.spec_pairs().len() <= u64::MAX,
        ensures
            ({
                let p = self.spec_pairs();
                let large = |e: Entry| e.size > LEAF_SIZE;
                let small = |e: Entry| e.size <= LEAF_SIZE;
                let data = |e: Entry| e.kind == ObjectType::Data;
                let tree = |e: Entry| e.kind == ObjectType::Tree;
                &&& r.spec_large().spec_count() == count_where(p, large)
                &&& r.spec_large().spec_total() == total_where(p, large)
                &&& r.spec_small().spec_count() == count_where(p, small)
                &&& r.spec_small().spec_total() == total_where(p, small)
                &&& r.spec_data().spec_count() == count_where(p, data)
                &&& r.spec_data().spec_total() == total_where(p, data)
                &&& r.spec_tree().spec_count() == count_where(p, tree)
                &&& r.spec_tree().spec_total() == total_where(p, tree)
            }),
    {
        let ghost p = self.spec_pairs();
        let ghost all = |e: Entry| true;
        let ghost large = |e: Entry| e.size > LEAF_SIZE;
        let ghost small = |e: Entry| e.size <= LEAF_SIZE;
        let ghost data = |e: Entry| e.kind == ObjectType::Data;
        let ghost tree = |e: Entry| e.kind == ObjectType::Tree;
        let mut stats = Stats::new();
        let n = self.map.len();
        let mut i: usize = 0;
        proof {
            assert(p.take(0).len() == 0);
        }
        while i < n
            invariant
                self.wf(),
                p == self.spec_pairs(),
                n == p.len(),
                i <= n,
                all == (|e: Entry| true),
                large == (|e: Entry| e.size > LEAF_SIZE),
                small == (|e: Entry| e.size <= LEAF_SIZE),
                data == (|e: Entry| e.kind == ObjectType::Data),
                tree == (|e: Entry| e.kind == ObjectType::Tree),
                total_where(p, all) <= u64::MAX,
                n <= u64::MAX,
                stats.spec_large().spec_count() == count_where(p.take(i as int), large),
                stats.spec_large().spec_total() == total_where(p.take(i as int), large),
                stats.spec_small().spec_count() == count_where(p.take(i as int), small),
                stats.spec_small().spec_total() == total_where(p.take(i as int), small),
                stats.spec_data().spec_count() == count_where(p.take(i as int), data),
                stats.spec_data().spec_total() == total_where(p.take(i as int), data),
                stats.spec_tree().spec_count() == count_where(p.take(i as int), tree),
                stats.spec_tree().spec_total() == total_where(p.take(i as int), tree),
            decreases n - i,
        {
            let e = self.map.value_at(i);
            proof {
                let t = p.take(i + 1);
                assert(t.drop_last() =~= p.take(i as int));
                assert(t.last() == p[i as int]);
                lemma_where_bounds(t, large);
                lemma_where_bounds(t, small);
                lemma_where_bounds(t, data);
                lemma_where_bounds(t, tree);
                lemma_total_prefix(p, i + 1);
            }
            stats.increment(e);
            i = i + 1;
        }
        proof {
            assert(p.take(n as int) =~= p);
        }
        stats
    }

    /// Indexes an object of `size` bytes whose entry, `len` bytes long, is
    /// appended at the current offset; says whether it was new (an object
    /// already present is not appended again).
    pub fn commit(&mut self, hash: &TubHash, size: u64, len: u64) -> (r: bool)
        requires
            old(self).wf(),
            old(self).spec_offset() + len <= u64::MAX,
        ensures
            final(self).wf(),
            r == !old(self)@.contains_key(hash@),
            (final(self)@, final(self).spec_offset() as int) == commit_step(
                old(self)@,
                old(self).spec_offset(),
                hash@,
                size,
                len as int,
            ),
    {
        let name = Name { buf: *hash };
        if self.map.contains_key(&name) {
            false
        } else {
            self.map.insert(name, Entry::new(size, self.offset));
            self.offset = self.offset + len;
            true
        }
    }

    /// Removes an object, whose tombstone is appended at the current
    /// offset; gives back its entry.
    pub fn delete(&mut self, hash: &TubHash) -> (r: Option<Entry>)
        requires
            old(self).wf(),
            old(self).spec_offset() + HEADER_LEN <= u64::MAX,
        ensures
            final(self).wf(),
            r is Some <==> old(self)@.contains_key(hash@),
            r matches Some(e) ==> e == old(self)@[hash@],
            (final(self)@, final(self).spec_offset() as int) == delete_step(
                old(self)@,
                old(self).spec_offset(),
                hash@,
            ),
    {
        let name = Name { buf: *hash };
        let r = self.map.remove(&name);
        if r.is_some() {
            self.offset = self.offset + HEADER_LEN as u64;
        }
        r
    }

    /// Takes in the header read back at the current offset while rebuilding
    /// the index: an object is indexed, a tombstone removes its object, and
    /// the offset moves past the entry.
    pub fn reindex_entry(&mut self, rbuf: &ReindexBuf)
        requires
            old(self).wf(),
            is_object_header(rbuf@) || (is_tombstone_header(rbuf@) && old(self)@.contains_key(
                header_hash(rbuf@),
            )),
            old(self).spec_offset() + entry_len(header_size(rbuf@)) <= u64::MAX,
        ensures
            final(self).wf(),
            (final(self)@, final(self).spec_offset() as int) == reindex_step(
                old(self)@,
                old(self).spec_offset(),
                rbuf@,
            ),
    {
        let hash = rbuf.hash();
        let size = rbuf.size();
        if rbuf.is_object() {
            self.map.insert(Name { buf: hash }, Entry::new(size, self.offset));
        } else {
            self.map.remove(&Name { buf: hash });
        }
        self.offset = self.offset + rbuf.offset_size();
    }

    /// Classifies the header read back at the current offset while
    /// rebuilding the index, and takes it in when it is an object or the
    /// tombstone of an indexed object; any other header leaves the index as
    /// it is.
    pub fn reindex_header(&mut self, rbuf: &ReindexBuf) -> (r: HeaderKind)
        requires
            old(self).wf(),
            old(self).spec_offset() + entry_len(header_size(rbuf@)) <= u64::MAX,
        ensures
            final(self).wf(),
            r == header_kind(old(self)@, rbuf@),
            r == HeaderKind::Object || r == HeaderKind::Tombstone ==> final(self)@ == reindex_step(
                old(self)@,
                old(self).spec_offset(),
                rbuf@,
            ).0 && final(self).spec_offset() == reindex_step(old(self)@, old(self).spec_offset(), rbuf@).1,
            r == HeaderKind::OrphanTombstone || r == HeaderKind::Bad ==> final(self)@ == old(self)@
                && final(self).spec_offset() == old(self).spec_offset(),
    {
        if rbuf.is_object() {
            self.reindex_entry(rbuf);
            HeaderKind::Object
        } else if rbuf.is_tombstone() {
            let hash = rbuf.hash();
            if self.map.contains_key(&Name { buf: hash }) {
                self.reindex_entry(rbuf);
                HeaderKind::Tombstone
            } else {
                HeaderKind::OrphanTombstone
            }
        } else {
            HeaderKind::Bad
        }
    }
}

/// What a header read back from a pack file is.
#[derive(Debug, PartialEq, Eq, Structural, Clone, Copy)]
pub enum HeaderKind {
    /// The header of an object.
    Object,
    /// The tombstone of an indexed object.
    Tombstone,
    /// A tombstone of an object that is not indexed.
    OrphanTombstone,
    /// Neither an object nor a tombstone.
    Bad,
}

/// What the header `h` is, against the index `map`.
pub open spec fn header_kind(map: Map<Seq<u8>, Entry>, h: Seq<u8>) -> HeaderKind {
    if is_object_header(h) {
        HeaderKind::Object
    } else if is_tombstone_header(h) {
        if map.contains_key(header_hash(h)) {
            HeaderKind::Tombstone
        } else {
            HeaderKind::OrphanTombstone
        }
    } else {
        HeaderKind::Bad
    }
}

/// Number of the entries of `s` that satisfy `pred`.
pub open spec fn count_where(s: Seq<(Seq<u8>, Entry)>, pred: spec_fn(Entry) -> bool) -> int
    decreases s.len(),
{
    if s.len() == 0 {
        0
    } else {
        count_where(s.drop_last(), pred) + if pred(s.last().1) { 1int } else { 0 }
    }
}

/// Total size of the entries of `s` that satisfy `pred`.
pub open spec fn total_where(s: Seq<(Seq<u8>, Entry)>, pred: spec_fn(Entry) -> bool) -> int
    decreases s.len(),
{
    if s.len() == 0 {
        0
    } else {
        total_where(s.drop_last(), pred) + if pred(s.last().1) { s.last().1.size as int } else { 0 }
    }
}

proof fn lemma_where_bounds(s: Seq<(Seq<u8>, Entry)>, pred: spec_fn(Entry) -> bool)
    ensures
        0 <= count_where(s, pred) <= s.len(),
        0 <= total_where(s, pred) <= total_where(s, |e: Entry| true),
    decreases s.len(),
{
    if s.len() > 0 {
        lemma_where_bounds(s.drop_last(), pred);
    }
}

proof fn lemma_total_prefix(s: Seq<(Seq<u8>, Entry)>, i: int)
    requires
        0 <= i <= s.len(),
    ensures
        total_where(s.take(i), |e: Entry| true) <= total_where(s, |e: Entry| true),
    decreases s.len() - i,
{
    if i < s.len() {
        lemma_total_prefix(s, i + 1);
        assert(s.take(i + 1).drop_last() =~= s.take(i));
    } else {
        assert(s.take(i) =~= s);
    }
}

/// The tombstone header of the object `hash`.
pub fn tombstone_header(hash: &TubHash) -> (r: [u8; 69])
    ensures
        r@ == tombstone_bytes(hash@),
        is_tombstone_header(r@),
        header_hash(r@) == hash@,
{
    let t = hash_tombstone(hash);
    let mut buf = [0u8;69];
    let mut i: usize = 0;
    while i < 30
        invariant
            i <= 30,
            forall|j: int| 0 <= j < i ==> buf@[j] == hash@[j],
            forall|j: int| 30 <= j < 69 ==> buf@[j] == 0,
        decreases 30 - i,
    {
        buf[i] = hash[i];
        i = i + 1;
    }
    let mut k: usize = 0;
    while k < 30
        invariant
            k <= 30,
            forall|j: int| 0 <= j < 30 ==> buf@[j] == hash@[j],
            forall|j: int| 30 <= j < 39 ==> buf@[j] == 0,
            forall|j: int| 0 <= j < k ==> buf@[39 + j] == t@[j],
        decreases 30 - k,
    {
        buf[39 + k] = t[k];
        k = k + 1;
    }
    proof {
        assert(buf@ =~= tombstone_bytes(hash@));
        assert(header_hash(buf@) =~= hash@);
        assert(header_payload_hash(buf@) =~= t@);
        crate::protocol::lemma_le_bytes_zero();
        assert(buf@.subrange(30, 38) =~= crate::protocol::le_bytes_u64(0));
        crate::protocol::lemma_u64_le_roundtrip(0);
    }
    buf
}

/// Rebuilding the index replays what was written: reading back the header
/// of an object committed at some offset indexes it there and moves past
/// its entry, as the commit did; reading back the tombstone of a present
/// object removes it and moves past the tombstone, as the deletion did.
pub proof fn lemma_reindex_replays(
    map: Map<Seq<u8>, Entry>,
    offset: u64,
    h: Seq<u8>,
    hash: Seq<u8>,
)
    requires
        h.len() == HEADER_LEN,
        hash.len() == 30,
    ensures
        is_object_header(h) && !map.contains_key(header_hash(h)) ==> reindex_step(map, offset, h)
            == commit_step(map, offset, header_hash(h), header_size(h), entry_len(header_size(h))),
        map.contains_key(hash) ==> reindex_step(map, offset, tombstone_bytes(hash)) == delete_step(
            map,
            offset,
            hash,
        ),
{
    let t = tombstone_bytes(hash);
    assert(t.subrange(0, 30) =~= hash);
    crate::protocol::lemma_le_bytes_zero();
    assert(t.subrange(30, 38) =~= crate::protocol::le_bytes_u64(0));
    crate::protocol::lemma_u64_le_roundtrip(0);
    if map.contains_key(hash) {
        assert(header_size(t) == 0);
        assert(!is_object_header(t));
        assert(entry_len(0) == HEADER_LEN);
    }
}

/// What a finalized buffer commits is indexed again on reading back: its
/// header is an object header of its size, and its entry takes as many
/// bytes as were committed.
pub proof fn lemma_committed_header(b: Seq<u8>, size: u64, k: u64)
    requires
        ranges_fit(size),
        size > 0,
        b.len() >= HEADER_LEN,
        commit_valid(b, leaf_state(size, k)),
    ensures
        is_object_header(b.subrange(0, HEADER_LEN as int)),
        header_size(b.subrange(0, HEADER_LEN as int)) == size,
        entry_len(size) == payload_end(leaf_state(size, k)),
{
    let h = b.subrange(0, HEADER_LEN as int);
    assert(h.subrange(30, 38) =~= b.subrange(30, 38));
    assert(h.subrange(0, 30) =~= b.subrange(0, 30));
    assert(h.subrange(39, 69) =~= b.subrange(39, 69));
    lemma_state_in_buffer(size, k);
    crate::leaf_io::lemma_leaf_count_bounds(size);
}

} // verus!
