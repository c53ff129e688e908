//! Version control built on Bathtub DB: directory listings, the tracking
//! list, commits and the comparison of flattened trees.
//!
//! Walking the file system, loading objects and writing files are the
//! application's part; what is decided and encoded here is plain data.

use vstd::prelude::*;
use vstd::utf8::{decode_utf8, encode_utf8, valid_utf8};
use crate::base::{INFO_LEN, OBJECT_MAX_SIZE};
use crate::chaos::{Name, Object, fits_objects, object_payload, valid_name_len};
use crate::protocol::Hasher;
use crate::strmap::{StrMap, pairs_map, pair_keys, keys_sorted, lemma_sorted_unique, lemma_pairs_map};
use crate::text::{bytes_less, lemma_bytes_less_order, string_bytes, string_from_utf8};

verus! {

pub type DefaultCommit = Commit<30>;

/// Kind of a directory entry, as its wire byte.
#[derive(Debug, PartialEq, Eq, Structural, Clone, Copy)]
pub enum Kind {
    EmptyDir,
    EmptyFile,
    Dir,
    File,
    ExeFile,
    SymLink,
}

impl Kind {
    pub open spec fn spec_code(self) -> u8 {
        match self {
            Kind::EmptyDir => 0,
            Kind::EmptyFile => 1,
            Kind::Dir => 2,
            Kind::File => 3,
            Kind::ExeFile => 4,
            Kind::SymLink => 5,
        }
    }

    /// The wire byte of the kind.
    pub fn code(&self) -> (r: u8)
        ensures
            r == self.spec_code(),
    {
        match self {
            Kind::EmptyDir => 0,
            Kind::EmptyFile => 1,
            Kind::Dir => 2,
            Kind::File => 3,
            Kind::ExeFile => 4,
            Kind::SymLink => 5,
        }
    }

    /// The kind with wire byte `code`; there are six.
    pub fn from_code(code: u8) -> (r: Self)
        requires
            code < 6,
        ensures
            r.spec_code() == code,
    {
        match code {
            0 => Kind::EmptyDir,
            1 => Kind::EmptyFile,
            2 => Kind::Dir,
            3 => Kind::File,
            4 => Kind::ExeFile,
            _ => Kind::SymLink,
        }
    }
}

/// A directory entry.
#[derive(Debug, PartialEq, Clone)]
pub enum Item<const N: usize> {
    EmptyDir,
    EmptyFile,
    Dir(Name<N>),
    File(Name<N>),
    ExeFile(Name<N>),
    SymLink(String),
}

/// A directory entry as plain values.
pub enum ItemView {
    EmptyDir,
    EmptyFile,
    Dir(Seq<u8>),
    File(Seq<u8>),
    ExeFile(Seq<u8>),
    SymLink(Seq<char>),
}

impl<const N: usize> View for Item<N> {
    type V = ItemView;

    open spec fn view(&self) -> ItemView {
        match self {
            Item::EmptyDir => ItemView::EmptyDir,
            Item::EmptyFile => ItemView::EmptyFile,
            Item::Dir(h) => ItemView::Dir(h.buf@),
            Item::File(h) => ItemView::File(h.buf@),
            Item::ExeFile(h) => ItemView::ExeFile(h.buf@),
            Item::SymLink(t) => ItemView::SymLink(t@),
        }
    }
}

/// The wire byte of an entry's kind.
pub open spec fn item_code(item: ItemView) -> u8 {
    match item {
        ItemView::EmptyDir => 0,
        ItemView::EmptyFile => 1,
        ItemView::Dir(_) => 2,
        ItemView::File(_) => 3,
        ItemView::ExeFile(_) => 4,
        ItemView::SymLink(_) => 5,
    }
}

impl<const N: usize> Item<N> {
    /// The kind of the entry.
    pub fn kind(&self) -> (r: Kind)
        ensures
            r.spec_code() == item_code(self@),
    {
        match self {
            Item::EmptyDir => Kind::EmptyDir,
            Item::EmptyFile => Kind::EmptyFile,
            Item::Dir(_) => Kind::Dir,
            Item::File(_) => Kind::File,
            Item::ExeFile(_) => Kind::ExeFile,
            Item::SymLink(_) => Kind::SymLink,
        }
    }

    /// A copy of the entry.
    pub fn duplicate(&self) -> (r: Self)
        ensures
            r@ == self@,
    {
        match self {
            Item::EmptyDir => Item::EmptyDir,
            Item::EmptyFile => Item::EmptyFile,
            Item::Dir(h) => Item::Dir(*h),
            Item::File(h) => Item::File(*h),
            Item::ExeFile(h) => Item::ExeFile(*h),
            Item::SymLink(t) => Item::SymLink(t.clone()),
        }
    }

    /// Whether two entries are the same.
    pub fn same_as(&self, other: &Self) -> (r: bool)
        ensures
            r == (self@ == other@),
    {
        match (self, other) {
            (Item::EmptyDir, Item::EmptyDir) => true,
            (Item::EmptyFile, Item::EmptyFile) => true,
            (Item::Dir(a), Item::Dir(b)) => a.eq(b),
            (Item::File(a), Item::File(b)) => a.eq(b),
            (Item::ExeFile(a), Item::ExeFile(b)) => a.eq(b),
            (Item::SymLink(a), Item::SymLink(b)) => a.eq(b),
            _ => false,
        }
    }
}

// ---------------------------------------------------------------------------
// Wire format of a directory listing

/// Little-endian bytes of a `u16`.
pub open spec fn le_bytes_u16(v: u16) -> Seq<u8> {
    seq![(v % 256) as u8, (v / 256) as u8]
}

/// What follows the name of an entry: nothing, the `N` byte hash, or the
/// symlink target's byte length (a `u16`, cut to 16 bits) and bytes.
pub open spec fn item_payload(item: ItemView) -> Seq<u8> {
    match item {
        ItemView::EmptyDir => Seq::empty(),
        ItemView::EmptyFile => Seq::empty(),
        ItemView::Dir(h) => h,
        ItemView::File(h) => h,
        ItemView::ExeFile(h) => h,
        ItemView::SymLink(t) => le_bytes_u16((encode_utf8(t).len() % 65536) as u16) + encode_utf8(
            t,
        ),
    }
}

/// One entry: kind byte, name length (cut to 8 bits), name, payload.
pub open spec fn entry_bytes(name: Seq<char>, item: ItemView) -> Seq<u8> {
    seq![item_code(item), (encode_utf8(name).len() % 256) as u8] + encode_utf8(name) + item_payload(
        item,
    )
}

/// The entries one after the other.
pub open spec fn dir_bytes(entries: Seq<(Seq<char>, ItemView)>) -> Seq<u8>
    decreases entries.len(),
{
    if entries.len() == 0 {
        Seq::empty()
    } else {
        dir_bytes(entries.drop_last()) + entry_bytes(entries.last().0, entries.last().1)
    }
}

/// An entry that the wire format carries unchanged: a name of 1 to 255
/// bytes, a hash of `n` bytes, a symlink target of at most 65535 bytes.
pub open spec fn entry_ok(e: (Seq<char>, ItemView), n: nat) -> bool {
    &&& 1 <= encode_utf8(e.0).len() <= 255
    &&& match e.1 {
        ItemView::Dir(h) => h.len() == n,
        ItemView::File(h) => h.len() == n,
        ItemView::ExeFile(h) => h.len() == n,
        ItemView::SymLink(t) => encode_utf8(t).len() <= 65535,
        _ => true,
    }
}

fn push_u16_le(buf: &mut Vec<u8>, v: u16)
    ensures
        final(buf)@ == old(buf)@ + le_bytes_u16(v),
{
    buf.push((v % 256) as u8);
    buf.push((v / 256) as u8);
    assert(final(buf)@ =~= old(buf)@ + le_bytes_u16(v));
}

fn extend_bytes(buf: &mut Vec<u8>, src: &[u8])
    ensures
        final(buf)@ == old(buf)@ + src@,
{
    let mut i: usize = 0;
    while i < src.len()
        invariant
            i <= src@.len(),
            buf@ == old(buf)@ + src@.subrange(0, i as int),
        decreases src@.len() - i,
    {
        buf.push(src[i]);
        i = i + 1;
        assert(buf@ =~= old(buf)@ + src@.subrange(0, i as int));
    }
    assert(src@.subrange(0, i as int) =~= src@);
}

/// Appends the wire form of one entry.
fn write_entry<const N: usize>(buf: &mut Vec<u8>, name: &String, item: &Item<N>)
    ensures
        final(buf)@ == old(buf)@ + entry_bytes(name@, item@),
{
    let nb = string_bytes(name);
    let kind = item.kind();
    buf.push(kind.code());
    buf.push((nb.len() % 256) as u8);
    extend_bytes(buf, nb);
    match item {
        Item::EmptyDir => {},
        Item::EmptyFile => {},
        Item::Dir(h) => {
            extend_bytes(buf, h.as_buf());
        },
        Item::File(h) => {
            extend_bytes(buf, h.as_buf());
        },
        Item::ExeFile(h) => {
            extend_bytes(buf, h.as_buf());
        },
        Item::SymLink(t) => {
            let tb = string_bytes(t);
            push_u16_le(buf, (tb.len() % 65536) as u16);
            extend_bytes(buf, tb);
        },
    }
    assert(final(buf)@ =~= old(buf)@ + entry_bytes(name@, item@));
}

/// Reads the entry at the start of `buf` (`n` byte hashes): the entry and
/// the number of bytes it takes, or `None` where the bytes are no entry.
pub open spec fn parse_entry(buf: Seq<u8>, n: nat) -> Option<((Seq<char>, ItemView), int)> {
    if buf.len() < 2 || buf[0] > 5 || buf[1] == 0 || buf.len() < 2 + buf[1] {
        None
    } else {
        let o = 2 + buf[1] as int;
        let nb = buf.subrange(2, o);
        if !valid_utf8(nb) {
            None
        } else {
            let name = decode_utf8(nb);
            let k = buf[0];
            if k == 0 {
                Some(((name, ItemView::EmptyDir), o))
            } else if k == 1 {
                Some(((name, ItemView::EmptyFile), o))
            } else if k <= 4 {
                if buf.len() < o + n {
                    None
                } else {
                    let h = buf.subrange(o, o + n);
                    let item = if k == 2 {
                        ItemView::Dir(h)
                    } else if k == 3 {
                        ItemView::File(h)
                    } else {
                        ItemView::ExeFile(h)
                    };
                    Some(((name, item), o + n))
                }
            } else if buf.len() < o + 2 {
                None
            } else {
                let t = buf[o] + 256 * buf[o + 1];
                if buf.len() < o + 2 + t {
                    None
                } else {
                    let tb = buf.subrange(o + 2, o + 2 + t);
                    if !valid_utf8(tb) {
                        None
                    } else {
                        Some(((name, ItemView::SymLink(decode_utf8(tb))), o + 2 + t))
                    }
                }
            }
        }
    }
}

/// Reads the entries of a directory listing, in order; `None` where the
/// bytes are no listing.
pub open spec fn parse_dir(buf: Seq<u8>, n: nat) -> Option<Seq<(Seq<char>, ItemView)>>
    decreases buf.len(),
{
    if buf.len() == 0 {
        Some(Seq::empty())
    } else {
        match parse_entry(buf, n) {
            None => None,
            Some((e, used)) => if 0 < used <= buf.len() {
                match parse_dir(buf.subrange(used, buf.len() as int), n) {
                    None => None,
                    Some(rest) => Some(seq![e] + rest),
                }
            } else {
                None
            },
        }
    }
}

proof fn lemma_dir_bytes_front(s: Seq<(Seq<char>, ItemView)>)
    requires
        s.len() > 0,
    ensures
        dir_bytes(s) == entry_bytes(s[0].0, s[0].1) + dir_bytes(s.drop_first()),
    decreases s.len(),
{
    if s.len() == 1 {
        assert(s.drop_last().len() == 0);
        assert(s.drop_first().len() == 0);
        assert(s.last() == s[0]);
        assert(dir_bytes(s.drop_last()) =~= Seq::<u8>::empty());
        assert(dir_bytes(s.drop_first()) =~= Seq::<u8>::empty());
        assert(dir_bytes(s) == dir_bytes(s.drop_last()) + entry_bytes(s.last().0, s.last().1));
        assert(dir_bytes(s) =~= entry_bytes(s[0].0, s[0].1) + dir_bytes(s.drop_first()));
    } else {
        lemma_dir_bytes_front(s.drop_last());
        assert(s.drop_last().drop_first() =~= s.drop_first().drop_last());
        assert(s.drop_last()[0] == s[0]);
        assert(s.drop_first().last() == s.last());
        let a = entry_bytes(s[0].0, s[0].1);
        let m = dir_bytes(s.drop_last().drop_first());
        let z = entry_bytes(s.last().0, s.last().1);
        assert(dir_bytes(s) == dir_bytes(s.drop_last()) + z);
        assert(dir_bytes(s.drop_first()) == dir_bytes(s.drop_first().drop_last()) + z);
        assert(dir_bytes(s.drop_last()) == a + m);
        assert((a + m) + z =~= a + (m + z));
    }
}

#[verifier::spinoff_prover]
#[verifier::rlimit(40)]
proof fn lemma_parse_entry(e: (Seq<char>, ItemView), rest: Seq<u8>, n: nat)
    requires
        entry_ok(e, n),
    ensures
        parse_entry(entry_bytes(e.0, e.1) + rest, n) == Some((e, entry_bytes(e.0, e.1).len() as int)),
{
    let b = entry_bytes(e.0, e.1) + rest;
    let nb = encode_utf8(e.0);
    vstd::utf8::encode_utf8_valid_utf8(e.0);
    vstd::utf8::encode_utf8_decode_utf8(e.0);
    let o: int = 2 + nb.len() as int;
    let n: int = n as int;
    assert(b[0] == item_code(e.1));
    assert(b[1] == nb.len());
    assert(b.subrange(2, o) =~= nb);
    match e.1 {
        ItemView::Dir(h) => {
            assert(b.subrange(o, o + n) =~= h);
        },
        ItemView::File(h) => {
            assert(b.subrange(o, o + n) =~= h);
        },
        ItemView::ExeFile(h) => {
            assert(b.subrange(o, o + n) =~= h);
        },
        ItemView::SymLink(t) => {
            let tb = encode_utf8(t);
            vstd::utf8::encode_utf8_valid_utf8(t);
            vstd::utf8::encode_utf8_decode_utf8(t);
            let v = (tb.len() % 65536) as u16;
            assert(v == tb.len());
            assert(b[o] == (v % 256) as u8);
            assert(b[o + 1] == (v / 256) as u8);
            assert(b[o] + 256 * b[o + 1] == tb.len());
            assert(b.subrange(o + 2, o + 2 + tb.len() as int) =~= tb);
        },
        _ => {},
    }
}

/// Reading back the wire form of well-formed entries gives those entries.
#[verifier::spinoff_prover]
#[verifier::rlimit(40)]
pub proof fn lemma_parse_dir_bytes(s: Seq<(Seq<char>, ItemView)>, n: nat)
    requires
        forall|i: int| 0 <= i < s.len() ==> entry_ok(#[trigger] s[i], n),
    ensures
        parse_dir(dir_bytes(s), n) == Some(s),
    decreases s.len(),
{
    if s.len() == 0 {
        assert(dir_bytes(s).len() == 0);
        assert(s =~= Seq::<(Seq<char>, ItemView)>::empty());
    } else {
        lemma_dir_bytes_front(s);
        let e = s[0];
        let tail = s.drop_first();
        assert(entry_ok(s[0], n));
        lemma_parse_entry(e, dir_bytes(tail), n);
        assert forall|i: int| 0 <= i < tail.len() implies entry_ok(#[trigger] tail[i], n) by {
            assert(tail[i] == s[i + 1]);
        }
        lemma_parse_dir_bytes(tail, n);
        let b = dir_bytes(s);
        let used = entry_bytes(e.0, e.1).len() as int;
        assert(b.subrange(used, b.len() as int) =~= dir_bytes(tail));
        assert(seq![e] + tail =~= s);
    }
}

/// Reads the entry at `offset`: its name, its item and where the next begins.
fn parse_entry_at<const N: usize>(buf: &[u8], offset: usize) -> (r: Option<(String, Item<N>, usize)>)
    requires
        offset <= buf@.len(),
    ensures
        ({
            let sub = buf@.subrange(offset as int, buf@.len() as int);
            match r {
                None => parse_entry(sub, N as nat) is None,
                Some((name, item, next)) => offset < next <= buf@.len() && parse_entry(
                    sub,
                    N as nat,
                ) == Some(((name@, item@), next - offset)),
            }
        }),
{
    let ghost sub = buf@.subrange(offset as int, buf@.len() as int);
    let rem = buf.len() - offset;
    if rem < 2 {
        return None;
    }
    let k = buf[offset];
    let size = buf[offset + 1] as usize;
    assert(sub[0] == k && sub[1] == size);
    if k > 5 || size == 0 || rem < 2 + size {
        return None;
    }
    let o = offset + 2 + size;
    let nbv = vstd::slice::slice_to_vec(vstd::slice::slice_subrange(buf, offset + 2, o));
    assert(nbv@ =~= sub.subrange(2, 2 + size));
    let name = match string_from_utf8(nbv) {
        Some(s) => s,
        None => {
            return None;
        },
    };
    if k == 0 {
        return Some((name, Item::EmptyDir, o));
    }
    if k == 1 {
        return Some((name, Item::EmptyFile, o));
    }
    if k <= 4 {
        if buf.len() - o < N {
            return None;
        }
        let h = Name::from(vstd::slice::slice_subrange(buf, o, o + N));
        assert(h.buf@ =~= sub.subrange(2 + size, 2 + size + N));
        let item = if k == 2 {
            Item::Dir(h)
        } else if k == 3 {
            Item::File(h)
        } else {
            Item::ExeFile(h)
        };
        return Some((name, item, o + N));
    }
    if buf.len() - o < 2 {
        return None;
    }
    let t = buf[o] as usize + 256 * buf[o + 1] as usize;
    assert(sub[2 + size] == buf@[o as int] && sub[2 + size + 1] == buf@[o + 1]);
    if buf.len() - o - 2 < t {
        return None;
    }
    let tbv = vstd::slice::slice_to_vec(vstd::slice::slice_subrange(buf, o + 2, o + 2 + t));
    assert(tbv@ =~= sub.subrange(2 + size + 2, 2 + size + 2 + t));
    match string_from_utf8(tbv) {
        Some(target) => Some((name, Item::SymLink(target), o + 2 + t)),
        None => None,
    }
}

// ---------------------------------------------------------------------------
// Dir

/// A map from a name to an entry (a flattened tree maps paths).
pub type ItemMap<const N: usize> = StrMap<Item<N>>;

/// Stores the entries of a directory.
#[derive(Debug, PartialEq)]
pub struct Dir<const N: usize> {
    map: ItemMap<N>,
}

impl<const N: usize> View for Dir<N> {
    type V = Map<Seq<char>, ItemView>;

    closed spec fn view(&self) -> Map<Seq<char>, ItemView> {
        self.map.spec_map()
    }
}

impl<const N: usize> Dir<N> {
    pub closed spec fn wf(&self) -> bool {
        self.map.wf()
    }

    /// The entries in the order of their names' bytes.
    pub closed spec fn spec_pairs(&self) -> Seq<(Seq<char>, ItemView)> {
        self.map.spec_pairs()
    }

    /// The entries are those of the map, in ascending order of name.
    pub proof fn lemma_pairs(&self)
        requires
            self.wf(),
        ensures
            keys_sorted(self.spec_pairs()),
            self@ == pairs_map(self.spec_pairs()),
            self@.len() == self.spec_pairs().len(),
    {
        self.map.lemma_wf();
    }

    pub fn new() -> (r: Self)
        ensures
            r.wf(),
            r@ == Map::<Seq<char>, ItemView>::empty(),
    {
        Self { map: StrMap::new() }
    }

    pub fn len(&self) -> (r: usize)
        requires
            self.wf(),
        ensures
            r == self@.len(),
    {
        self.map.len()
    }

    pub fn is_empty(&self) -> (r: bool)
        requires
            self.wf(),
        ensures
            r == (self@.len() == 0),
    {
        self.map.is_empty()
    }

    pub fn as_map(&self) -> (r: &ItemMap<N>)
        ensures
            r.spec_map() == self@,
            r.wf() == self.wf(),
            r.spec_pairs() == self.spec_pairs(),
    {
        &self.map
    }

    /// Appends the entries, in ascending order of name, to `buf`.
    pub fn serialize(&self, buf: &mut Vec<u8>)
        requires
            self.wf(),
        ensures
            final(buf)@ == old(buf)@ + dir_bytes(self.spec_pairs()),
    {
        let ghost pairs = self.spec_pairs();
        let n = self.map.len();
        let mut i: usize = 0;
        while i < n
            invariant
                self.wf(),
                pairs == self.spec_pairs(),
                n == pairs.len(),
                i <= n,
                buf@ == old(buf)@ + dir_bytes(pairs.take(i as int)),
            decreases n - i,
        {
            write_entry(buf, self.map.key_at(i), self.map.value_at(i));
            proof {
                assert(pairs.take(i + 1).drop_last() =~= pairs.take(i as int));
                assert(buf@ =~= old(buf)@ + dir_bytes(pairs.take(i + 1)));
            }
            i = i + 1;
        }
        assert(pairs.take(n as int) =~= pairs);
    }

    /// Reads a directory listing; `None` where the bytes are no listing.
    /// A name that occurs twice keeps its last entry.
    pub fn try_deserialize(buf: &[u8]) -> (r: Option<Self>)
        ensures
            r is Some <==> parse_dir(buf@, N as nat) is Some,
            r matches Some(d) ==> d.wf() && d@ == pairs_map(parse_dir(buf@, N as nat).unwrap()),
    {
        let mut dir: Self = Self::new();
        let mut offset: usize = 0;
        let ghost mut done: Seq<(Seq<char>, ItemView)> = Seq::empty();
        proof {
            assert(buf@.subrange(0, buf@.len() as int) =~= buf@);
            assert(done + Seq::<(Seq<char>, ItemView)>::empty() =~= done);
            if let Some(all) = parse_dir(buf@, N as nat) {
                assert(done + all =~= all);
            }
        }
        while offset < buf.len()
            invariant
                offset <= buf@.len(),
                dir.wf(),
                dir@ == pairs_map(done),
                parse_dir(buf@, N as nat) == (match parse_dir(
                    buf@.subrange(offset as int, buf@.len() as int),
                    N as nat,
                ) {
                    None => None,
                    Some(rest) => Some(done + rest),
                }),
            decreases buf@.len() - offset,
        {
            let ghost sub = buf@.subrange(offset as int, buf@.len() as int);
            match parse_entry_at::<N>(buf, offset) {
                None => {
                    return None;
                },
                Some((name, item, next)) => {
                    let ghost e = (name@, item@);
                    proof {
                        assert(sub.subrange(next - offset, sub.len() as int) =~= buf@.subrange(
                            next as int,
                            buf@.len() as int,
                        ));
                        let nsub = buf@.subrange(next as int, buf@.len() as int);
                        if let Some(rest) = parse_dir(nsub, N as nat) {
                            assert(done.push(e) + rest =~= done + (seq![e] + rest));
                        }
                    }
                    dir.map.insert(name, item);
                    proof {
                        assert(done.push(e).drop_last() =~= done);
                        done = done.push(e);
                    }
                    offset = next;
                },
            }
        }
        proof {
            assert(buf@.subrange(offset as int, buf@.len() as int).len() == 0);
            assert(done + Seq::<(Seq<char>, ItemView)>::empty() =~= done);
        }
        Some(dir)
    }

    /// Reads a directory listing, which must be well formed.
    pub fn deserialize(buf: &[u8]) -> (r: Self)
        requires
            parse_dir(buf@, N as nat) is Some,
        ensures
            r.wf(),
            r@ == pairs_map(parse_dir(buf@, N as nat).unwrap()),
    {
        match Self::try_deserialize(buf) {
            Some(d) => d,
            None => Self::new(),
        }
    }

    fn add(&mut self, name: String, item: Item<N>) -> (r: Item<N>)
        requires
            old(self).wf(),
        ensures
            final(self).wf(),
            final(self)@ == old(self)@.insert(name@, item@),
            r@ == item@,
    {
        let copy = item.duplicate();
        self.map.insert(name, item);
        copy
    }

    pub fn add_empty_dir(&mut self, name: String) -> (r: Item<N>)
        requires
            old(self).wf(),
        ensures
            final(self).wf(),
            final(self)@ == old(self)@.insert(name@, ItemView::EmptyDir),
            r@ == ItemView::EmptyDir,
    {
        self.add(name, Item::EmptyDir)
    }

    pub fn add_empty_file(&mut self, name: String) -> (r: Item<N>)
        requires
            old(self).wf(),
        ensures
            final(self).wf(),
            final(self)@ == old(self)@.insert(name@, ItemView::EmptyFile),
            r@ == ItemView::EmptyFile,
    {
        self.add(name, Item::EmptyFile)
    }

    pub fn add_dir(&mut self, name: String, hash: Name<N>) -> (r: Item<N>)
        requires
            old(self).wf(),
        ensures
            final(self).wf(),
            final(self)@ == old(self)@.insert(name@, ItemView::Dir(hash.buf@)),
            r@ == ItemView::Dir(hash.buf@),
    {
        self.add(name, Item::Dir(hash))
    }

    pub fn add_file(&mut self, name: String, hash: Name<N>) -> (r: Item<N>)
        requires
            old(self).wf(),
        ensures
            final(self).wf(),
            final(self)@ == old(self)@.insert(name@, ItemView::File(hash.buf@)),
            r@ == ItemView::File(hash.buf@),
    {
        self.add(name, Item::File(hash))
    }

    pub fn add_exefile(&mut self, name: String, hash: Name<N>) -> (r: Item<N>)
        requires
            old(self).wf(),
        ensures
            final(self).wf(),
            final(self)@ == old(self)@.insert(name@, ItemView::ExeFile(hash.buf@)),
            r@ == ItemView::ExeFile(hash.buf@),
    {
        self.add(name, Item::ExeFile(hash))
    }

    pub fn add_symlink(&mut self, name: String, target: String) -> (r: Item<N>)
        requires
            old(self).wf(),
        ensures
            final(self).wf(),
            final(self)@ == old(self)@.insert(name@, ItemView::SymLink(target@)),
            r@ == ItemView::SymLink(target@),
    {
        self.add(name, Item::SymLink(target))
    }
}

/// Whether a hash that an entry holds has `n` bytes.
pub open spec fn hash_len_ok(item: ItemView, n: nat) -> bool {
    match item {
        ItemView::Dir(h) => h.len() == n,
        ItemView::File(h) => h.len() == n,
        ItemView::ExeFile(h) => h.len() == n,
        _ => true,
    }
}

impl<const N: usize> Dir<N> {
    /// Every hash in a directory has `N` bytes.
    pub proof fn lemma_hash_lens(&self)
        requires
            self.wf(),
        ensures
            forall|k: Seq<char>| #[trigger] self@.contains_key(k) ==> hash_len_ok(self@[k], N as nat),
    {
        self.map.lemma_wf();
        self.map.lemma_values();
        assert forall|k: Seq<char>| #[trigger] self@.contains_key(k) implies hash_len_ok(
            self@[k],
            N as nat,
        ) by {
            let ps = self.map.spec_pairs();
            let i = choose|i: int| 0 <= i < ps.len() && ps[i].0 == k;
            assert(self@[k] == ps[i].1);
            let item = self.map.spec_value(i);
            match item {
                Item::Dir(h) => assert(h.buf@.len() == N),
                Item::File(h) => assert(h.buf@.len() == N),
                Item::ExeFile(h) => assert(h.buf@.len() == N),
                _ => {},
            }
        }
    }
}

/// Writing a directory listing and reading it back gives the same
/// directory, where every name has 1 to 255 bytes and every symlink target
/// at most 65535 bytes.
pub proof fn lemma_dir_roundtrip<const N: usize>(d: &Dir<N>)
    requires
        d.wf(),
        forall|k: Seq<char>| #[trigger]
            d@.contains_key(k) ==> 1 <= encode_utf8(k).len() <= 255 && (d@[k] matches ItemView::SymLink(
                t,
            ) ==> encode_utf8(t).len() <= 65535),
    ensures
        parse_dir(dir_bytes(d.spec_pairs()), N as nat) == Some(d.spec_pairs()),
        pairs_map(parse_dir(dir_bytes(d.spec_pairs()), N as nat).unwrap()) == d@,
{
    d.lemma_pairs();
    let s = d.spec_pairs();
    crate::strmap::lemma_sorted_unique(s);
    lemma_pairs_map(s);
    d.lemma_hash_lens();
    assert forall|i: int| 0 <= i < s.len() implies entry_ok(#[trigger] s[i], N as nat) by {
        assert(d@.contains_key(s[i].0));
        assert(hash_len_ok(d@[s[i].0], N as nat));
        assert(d@[s[i].0] == s[i].1);
        assert((s[i].0, d@[s[i].0]) == s[i]);
    }
    lemma_parse_dir_bytes(s, N as nat);
}

// ---------------------------------------------------------------------------
// Tracking list

/// What a byte of the tracking list's wire form says.
#[derive(Debug, PartialEq, Eq, Structural, Clone, Copy)]
pub enum TrackedKind {
    Invalid,
    Added,
    Removed,
    Renamed,
    Unknown,
}

impl TrackedKind {
    pub open spec fn spec_code(self) -> u8 {
        match self {
            TrackedKind::Invalid => 0,
            TrackedKind::Added => 1,
            TrackedKind::Removed => 2,
            TrackedKind::Renamed => 3,
            TrackedKind::Unknown => 4,
        }
    }

    pub fn code(&self) -> (r: u8)
        ensures
            r == self.spec_code(),
    {
        match self {
            TrackedKind::Invalid => 0,
            TrackedKind::Added => 1,
            TrackedKind::Removed => 2,
            TrackedKind::Renamed => 3,
            TrackedKind::Unknown => 4,
        }
    }
}

/// The `TrackedKind` that a byte stands for: 4 and above are unknown.
pub open spec fn tracked_of(item: u8) -> TrackedKind {
    if item == 0 {
        TrackedKind::Invalid
    } else if item == 1 {
        TrackedKind::Added
    } else if item == 2 {
        TrackedKind::Removed
    } else if item == 3 {
        TrackedKind::Renamed
    } else {
        TrackedKind::Unknown
    }
}

impl From<u8> for TrackedKind {
    fn from(item: u8) -> (r: Self) {
        if item == 0 {
            TrackedKind::Invalid
        } else if item == 1 {
            TrackedKind::Added
        } else if item == 2 {
            TrackedKind::Removed
        } else if item == 3 {
            TrackedKind::Renamed
        } else {
            TrackedKind::Unknown
        }
    }
}

impl vstd::std_specs::convert::FromSpecImpl<u8> for TrackedKind {
    open spec fn obeys_from_spec() -> bool {
        true
    }

    open spec fn from_spec(v: u8) -> Self {
        tracked_of(v)
    }
}

/// What is to happen to a tracked path.
#[derive(Debug, PartialEq, Clone)]
pub enum TrackedItem {
    Added,
    Removed,
    Renamed(String),
}

/// A tracked path's state as plain values.
pub enum TrackedView {
    Added,
    Removed,
    Renamed(Seq<char>),
}

impl View for TrackedItem {
    type V = TrackedView;

    open spec fn view(&self) -> TrackedView {
        match self {
            TrackedItem::Added => TrackedView::Added,
            TrackedItem::Removed => TrackedView::Removed,
            TrackedItem::Renamed(s) => TrackedView::Renamed(s@),
        }
    }
}

pub open spec fn tracked_code(item: TrackedView) -> u8 {
    match item {
        TrackedView::Added => 1,
        TrackedView::Removed => 2,
        TrackedView::Renamed(_) => 3,
    }
}

/// One entry: kind byte, path length (a `u16`, cut to 16 bits), path, and
/// for a rename the new path's length and bytes.
pub open spec fn tracked_entry_bytes(path: Seq<char>, item: TrackedView) -> Seq<u8> {
    let pb = encode_utf8(path);
    seq![tracked_code(item)] + le_bytes_u16((pb.len() % 65536) as u16) + pb + match item {
        TrackedView::Renamed(n) => le_bytes_u16((encode_utf8(n).len() % 65536) as u16)
            + encode_utf8(n),
        _ => Seq::empty(),
    }
}

pub open spec fn tracking_bytes(entries: Seq<(Seq<char>, TrackedView)>) -> Seq<u8>
    decreases entries.len(),
{
    if entries.len() == 0 {
        Seq::empty()
    } else {
        tracking_bytes(entries.drop_last()) + tracked_entry_bytes(
            entries.last().0,
            entries.last().1,
        )
    }
}

/// Reads the entry at the start of `buf`: the entry and its length.
pub open spec fn parse_tracked_entry(buf: Seq<u8>) -> Option<((Seq<char>, TrackedView), int)> {
    if buf.len() < 3 || buf[0] == 0 || buf[0] > 3 {
        None
    } else {
        let size = buf[1] + 256 * buf[2];
        if buf.len() < 3 + size || !valid_utf8(buf.subrange(3, 3 + size)) {
            None
        } else {
            let path = decode_utf8(buf.subrange(3, 3 + size));
            let o = 3 + size;
            if buf[0] == 1 {
                Some(((path, TrackedView::Added), o))
            } else if buf[0] == 2 {
                Some(((path, TrackedView::Removed), o))
            } else if buf.len() < o + 2 {
                None
            } else {
                let t = buf[o] + 256 * buf[o + 1];
                if buf.len() < o + 2 + t || !valid_utf8(buf.subrange(o + 2, o + 2 + t)) {
                    None
                } else {
                    Some(
                        (
                            (path, TrackedView::Renamed(decode_utf8(buf.subrange(o + 2, o + 2 + t)))),
                            o + 2 + t,
                        ),
                    )
                }
            }
        }
    }
}

/// Reads the entries of a tracking list, in order.
pub open spec fn parse_tracking(buf: Seq<u8>) -> Option<Seq<(Seq<char>, TrackedView)>>
    decreases buf.len(),
{
    if buf.len() == 0 {
        Some(Seq::empty())
    } else {
        match parse_tracked_entry(buf) {
            None => None,
            Some((e, used)) => if 0 < used <= buf.len() {
                match parse_tracking(buf.subrange(used, buf.len() as int)) {
                    None => None,
                    Some(rest) => Some(seq![e] + rest),
                }
            } else {
                None
            },
        }
    }
}

/// An entry that the wire form carries unchanged: paths of at most 65535 bytes.
pub open spec fn tracked_entry_ok(e: (Seq<char>, TrackedView)) -> bool {
    &&& encode_utf8(e.0).len() <= 65535
    &&& match e.1 {
        TrackedView::Renamed(n) => encode_utf8(n).len() <= 65535,
        _ => true,
    }
}

proof fn lemma_tracking_bytes_front(s: Seq<(Seq<char>, TrackedView)>)
    requires
        s.len() > 0,
    ensures
        tracking_bytes(s) == tracked_entry_bytes(s[0].0, s[0].1) + tracking_bytes(s.drop_first()),
    decreases s.len(),
{
    if s.len() == 1 {
        assert(s.last() == s[0]);
        assert(tracking_bytes(s.drop_last()) =~= Seq::<u8>::empty());
        assert(tracking_bytes(s.drop_first()) =~= Seq::<u8>::empty());
        assert(tracking_bytes(s) == tracking_bytes(s.drop_last()) + tracked_entry_bytes(
            s.last().0,
            s.last().1,
        ));
        assert(tracking_bytes(s) =~= tracked_entry_bytes(s[0].0, s[0].1) + tracking_bytes(
            s.drop_first(),
        ));
    } else {
        lemma_tracking_bytes_front(s.drop_last());
        assert(s.drop_last().drop_first() =~= s.drop_first().drop_last());
        assert(s.drop_last()[0] == s[0]);
        assert(s.drop_first().last() == s.last());
        let a = tracked_entry_bytes(s[0].0, s[0].1);
        let m = tracking_bytes(s.drop_last().drop_first());
        let z = tracked_entry_bytes(s.last().0, s.last().1);
        assert(tracking_bytes(s) == tracking_bytes(s.drop_last()) + z);
        assert(tracking_bytes(s.drop_first()) == tracking_bytes(s.drop_first().drop_last()) + z);
        assert(tracking_bytes(s.drop_last()) == a + m);
        assert((a + m) + z =~= a + (m + z));
    }
}

#[verifier::spinoff_prover]
#[verifier::rlimit(40)]
proof fn lemma_parse_tracked_entry(e: (Seq<char>, TrackedView), rest: Seq<u8>)
    requires
        tracked_entry_ok(e),
    ensures
        parse_tracked_entry(tracked_entry_bytes(e.0, e.1) + rest) == Some(
            (e, tracked_entry_bytes(e.0, e.1).len() as int),
        ),
{
    let b = tracked_entry_bytes(e.0, e.1) + rest;
    let pb = encode_utf8(e.0);
    vstd::utf8::encode_utf8_valid_utf8(e.0);
    vstd::utf8::encode_utf8_decode_utf8(e.0);
    let v = (pb.len() % 65536) as u16;
    assert(v == pb.len());
    assert(b[1] == (v % 256) as u8 && b[2] == (v / 256) as u8);
    assert(b[1] + 256 * b[2] == pb.len());
    let o: int = 3 + pb.len() as int;
    assert(b.subrange(3, o) =~= pb);
    match e.1 {
        TrackedView::Renamed(n) => {
            let nb = encode_utf8(n);
            vstd::utf8::encode_utf8_valid_utf8(n);
            vstd::utf8::encode_utf8_decode_utf8(n);
            let w = (nb.len() % 65536) as u16;
            assert(w == nb.len());
            assert(b[o] == (w % 256) as u8 && b[o + 1] == (w / 256) as u8);
            assert(b[o] + 256 * b[o + 1] == nb.len());
            assert(b.subrange(o + 2, o + 2 + nb.len() as int) =~= nb);
        },
        _ => {},
    }
}

/// Reading back the wire form of well-formed entries gives those entries.
#[verifier::spinoff_prover]
#[verifier::rlimit(40)]
pub proof fn lemma_parse_tracking_bytes(s: Seq<(Seq<char>, TrackedView)>)
    requires
        forall|i: int| 0 <= i < s.len() ==> tracked_entry_ok(#[trigger] s[i]),
    ensures
        parse_tracking(tracking_bytes(s)) == Some(s),
    decreases s.len(),
{
    if s.len() == 0 {
        assert(tracking_bytes(s).len() == 0);
        assert(s =~= Seq::<(Seq<char>, TrackedView)>::empty());
    } else {
        lemma_tracking_bytes_front(s);
        let e = s[0];
        let tail = s.drop_first();
        assert(tracked_entry_ok(s[0]));
        lemma_parse_tracked_entry(e, tracking_bytes(tail));
        assert forall|i: int| 0 <= i < tail.len() implies tracked_entry_ok(#[trigger] tail[i]) by {
            assert(tail[i] == s[i + 1]);
        }
        lemma_parse_tracking_bytes(tail);
        let b = tracking_bytes(s);
        let used = tracked_entry_bytes(e.0, e.1).len() as int;
        assert(b.subrange(used, b.len() as int) =~= tracking_bytes(tail));
        assert(seq![e] + tail =~= s);
    }
}

fn read_u16_at(buf: &[u8], o: usize) -> (r: usize)
    requires
        o + 2 <= buf@.len(),
    ensures
        r == buf@[o as int] + 256 * buf@[o + 1],
{
    buf[o] as usize + 256 * buf[o + 1] as usize
}

/// Reads the tracking list entry at `offset`.
fn parse_tracked_at(buf: &[u8], offset: usize) -> (r: Option<(String, TrackedItem, usize)>)
    requires
        offset <= buf@.len(),
    ensures
        ({
            let sub = buf@.subrange(offset as int, buf@.len() as int);
            match r {
                None => parse_tracked_entry(sub) is None,
                Some((path, item, next)) => offset < next <= buf@.len() && parse_tracked_entry(sub)
                    == Some(((path@, item@), next - offset)),
            }
        }),
{
    let ghost sub = buf@.subrange(offset as int, buf@.len() as int);
    if buf.len() - offset < 3 {
        return None;
    }
    let k = buf[offset];
    assert(sub[0] == k && sub[1] == buf@[offset + 1] && sub[2] == buf@[offset + 2]);
    if k == 0 || k > 3 {
        return None;
    }
    let size = read_u16_at(buf, offset + 1);
    if buf.len() - offset - 3 < size {
        return None;
    }
    let o = offset + 3 + size;
    let pv = vstd::slice::slice_to_vec(vstd::slice::slice_subrange(buf, offset + 3, o));
    assert(pv@ =~= sub.subrange(3, 3 + size));
    let path = match string_from_utf8(pv) {
        Some(s) => s,
        None => {
            return None;
        },
    };
    if k == 1 {
        return Some((path, TrackedItem::Added, o));
    }
    if k == 2 {
        return Some((path, TrackedItem::Removed, o));
    }
    if buf.len() - o < 2 {
        return None;
    }
    let t = read_u16_at(buf, o);
    assert(sub[3 + size] == buf@[o as int] && sub[3 + size + 1] == buf@[o + 1]);
    if buf.len() - o - 2 < t {
        return None;
    }
    let nv = vstd::slice::slice_to_vec(vstd::slice::slice_subrange(buf, o + 2, o + 2 + t));
    assert(nv@ =~= sub.subrange(3 + size + 2, 3 + size + 2 + t));
    match string_from_utf8(nv) {
        Some(new) => Some((path, TrackedItem::Renamed(new), o + 2 + t)),
        None => None,
    }
}

fn write_tracked_entry(buf: &mut Vec<u8>, path: &String, item: &TrackedItem)
    ensures
        final(buf)@ == old(buf)@ + tracked_entry_bytes(path@, item@),
{
    let pb = string_bytes(path);
    let code: u8 = match item {
        TrackedItem::Added => 1,
        TrackedItem::Removed => 2,
        TrackedItem::Renamed(_) => 3,
    };
    buf.push(code);
    push_u16_le(buf, (pb.len() % 65536) as u16);
    extend_bytes(buf, pb);
    if let TrackedItem::Renamed(new) = item {
        let nb = string_bytes(new);
        push_u16_le(buf, (nb.len() % 65536) as u16);
        extend_bytes(buf, nb);
    }
    assert(final(buf)@ =~= old(buf)@ + tracked_entry_bytes(path@, item@));
}

/// List of paths to be tracked.
#[derive(Debug, PartialEq)]
pub struct TrackingList {
    map: StrMap<TrackedItem>,
}

impl View for TrackingList {
    type V = Map<Seq<char>, TrackedView>;

    closed spec fn view(&self) -> Map<Seq<char>, TrackedView> {
        self.map.spec_map()
    }
}

impl TrackingList {
    pub closed spec fn wf(&self) -> bool {
        self.map.wf()
    }

    /// The entries in the order of their paths' bytes.
    pub closed spec fn spec_pairs(&self) -> Seq<(Seq<char>, TrackedView)> {
        self.map.spec_pairs()
    }

    /// The entries are those of the map, in ascending order of path.
    pub proof fn lemma_pairs(&self)
        requires
            self.wf(),
        ensures
            keys_sorted(self.spec_pairs()),
            self@ == pairs_map(self.spec_pairs()),
            self@.len() == self.spec_pairs().len(),
    {
        self.map.lemma_wf();
    }

    pub fn new() -> (r: Self)
        ensures
            r.wf(),
            r@ == Map::<Seq<char>, TrackedView>::empty(),
    {
        Self { map: StrMap::new() }
    }

    /// Reads a tracking list; `None` where the bytes are no tracking list.
    pub fn try_deserialize(buf: &[u8]) -> (r: Option<Self>)
        ensures
            r is Some <==> parse_tracking(buf@) is Some,
            r matches Some(t) ==> t.wf() && t@ == pairs_map(parse_tracking(buf@).unwrap()),
    {
        let mut list = Self::new();
        let mut offset: usize = 0;
        let ghost mut done: Seq<(Seq<char>, TrackedView)> = Seq::empty();
        proof {
            assert(buf@.subrange(0, buf@.len() as int) =~= buf@);
            if let Some(all) = parse_tracking(buf@) {
                assert(done + all =~= all);
            }
        }
        while offset < buf.len()
            invariant
                offset <= buf@.len(),
                list.wf(),
                list@ == pairs_map(done),
                parse_tracking(buf@) == (match parse_tracking(
                    buf@.subrange(offset as int, buf@.len() as int),
                ) {
                    None => None,
                    Some(rest) => Some(done + rest),
                }),
            decreases buf@.len() - offset,
        {
            let ghost sub = buf@.subrange(offset as int, buf@.len() as int);
            match parse_tracked_at(buf, offset) {
                None => {
                    return None;
                },
                Some((path, item, next)) => {
                    let ghost e = (path@, item@);
                    proof {
                        assert(sub.subrange(next - offset, sub.len() as int) =~= buf@.subrange(
                            next as int,
                            buf@.len() as int,
                        ));
                        let nsub = buf@.subrange(next as int, buf@.len() as int);
                        if let Some(rest) = parse_tracking(nsub) {
                            assert(done.push(e) + rest =~= done + (seq![e] + rest));
                        }
                    }
                    list.map.insert(path, item);
                    proof {
                        assert(done.push(e).drop_last() =~= done);
                        done = done.push(e);
                    }
                    offset = next;
                },
            }
        }
        proof {
            assert(buf@.subrange(offset as int, buf@.len() as int).len() == 0);
            assert(done + Seq::<(Seq<char>, TrackedView)>::empty() =~= done);
        }
        Some(list)
    }

    /// Reads a tracking list, which must be well formed.
    pub fn deserialize(buf: &[u8]) -> (r: Self)
        requires
            parse_tracking(buf@) is Some,
        ensures
            r.wf(),
            r@ == pairs_map(parse_tracking(buf@).unwrap()),
    {
        match Self::try_deserialize(buf) {
            Some(t) => t,
            None => Self::new(),
        }
    }

    /// Appends the entries, in ascending order of path, to `buf`.
    pub fn serialize(&self, buf: &mut Vec<u8>)
        requires
            self.wf(),
        ensures
            final(buf)@ == old(buf)@ + tracking_bytes(self.spec_pairs()),
    {
        let ghost pairs = self.spec_pairs();
        let n = self.map.len();
        let mut i: usize = 0;
        while i < n
            invariant
                self.wf(),
                pairs == self.spec_pairs(),
                n == pairs.len(),
                i <= n,
                buf@ == old(buf)@ + tracking_bytes(pairs.take(i as int)),
            decreases n - i,
        {
            write_tracked_entry(buf, self.map.key_at(i), self.map.value_at(i));
            proof {
                assert(pairs.take(i + 1).drop_last() =~= pairs.take(i as int));
                assert(buf@ =~= old(buf)@ + tracking_bytes(pairs.take(i + 1)));
            }
            i = i + 1;
        }
        assert(pairs.take(n as int) =~= pairs);
    }

    /// The entries in ascending order of path.
    pub fn as_sorted_vec(&self) -> (r: Vec<(&String, &TrackedItem)>)
        requires
            self.wf(),
        ensures
            r@.len() == self.spec_pairs().len(),
            forall|i: int|
                0 <= i < r@.len() ==> (#[trigger] r@[i]).0@ == self.spec_pairs()[i].0 && r@[i].1@
                    == self.spec_pairs()[i].1,
    {
        let n = self.map.len();
        let mut list: Vec<(&String, &TrackedItem)> = Vec::new();
        let mut i: usize = 0;
        while i < n
            invariant
                self.wf(),
                n == self.spec_pairs().len(),
                i <= n,
                list@.len() == i,
                forall|j: int|
                    0 <= j < i ==> (#[trigger] list@[j]).0@ == self.spec_pairs()[j].0
                        && list@[j].1@ == self.spec_pairs()[j].1,
            decreases n - i,
        {
            list.push((self.map.key_at(i), self.map.value_at(i)));
            i = i + 1;
        }
        list
    }

    pub fn len(&self) -> (r: usize)
        requires
            self.wf(),
        ensures
            r == self@.len(),
    {
        self.map.len()
    }

    pub fn is_empty(&self) -> (r: bool)
        requires
            self.wf(),
        ensures
            r == (self@.len() == 0),
    {
        self.map.is_empty()
    }

    pub fn contains(&self, key: &String) -> (r: bool)
        requires
            self.wf(),
        ensures
            r == self@.contains_key(key@),
    {
        self.map.contains_key(key)
    }

    /// Stops tracking `path`, giving back what it was.
    pub fn clear(&mut self, path: &String) -> (r: Option<TrackedItem>)
        requires
            old(self).wf(),
        ensures
            final(self).wf(),
            final(self)@ == old(self)@.remove(path@),
            r is Some <==> old(self)@.contains_key(path@),
            r matches Some(v) ==> v@ == old(self)@[path@],
    {
        self.map.remove(path)
    }

    /// Marks `path` as added, giving back what it was.
    pub fn add(&mut self, path: String) -> (r: Option<TrackedItem>)
        requires
            old(self).wf(),
        ensures
            final(self).wf(),
            final(self)@ == old(self)@.insert(path@, TrackedView::Added),
            r is Some <==> old(self)@.contains_key(path@),
            r matches Some(v) ==> v@ == old(self)@[path@],
    {
        self.map.insert(path, TrackedItem::Added)
    }

    /// Marks `path` as removed, giving back what it was.
    pub fn remove(&mut self, path: String) -> (r: Option<TrackedItem>)
        requires
            old(self).wf(),
        ensures
            final(self).wf(),
            final(self)@ == old(self)@.insert(path@, TrackedView::Removed),
            r is Some <==> old(self)@.contains_key(path@),
            r matches Some(v) ==> v@ == old(self)@[path@],
    {
        self.map.insert(path, TrackedItem::Removed)
    }

    /// Marks `from` as renamed to `to`, giving back what `from` was.
    pub fn rename(&mut self, from: String, to: String) -> (r: Option<TrackedItem>)
        requires
            old(self).wf(),
        ensures
            final(self).wf(),
            final(self)@ == old(self)@.insert(from@, TrackedView::Renamed(to@)),
            r is Some <==> old(self)@.contains_key(from@),
            r matches Some(v) ==> v@ == old(self)@[from@],
    {
        let item = TrackedItem::Renamed(to);
        self.map.insert(from, item)
    }
}

/// Writing a tracking list and reading it back gives the same list, where
/// every path has at most 65535 bytes.
pub proof fn lemma_tracking_roundtrip(t: &TrackingList)
    requires
        t.wf(),
        forall|k: Seq<char>| #[trigger] t@.contains_key(k) ==> tracked_entry_ok((k, t@[k])),
    ensures
        parse_tracking(tracking_bytes(t.spec_pairs())) == Some(t.spec_pairs()),
        pairs_map(parse_tracking(tracking_bytes(t.spec_pairs())).unwrap()) == t@,
{
    t.lemma_pairs();
    let s = t.spec_pairs();
    crate::strmap::lemma_sorted_unique(s);
    lemma_pairs_map(s);
    assert forall|i: int| 0 <= i < s.len() implies tracked_entry_ok(#[trigger] s[i]) by {
        assert(t@.contains_key(s[i].0));
        assert(t@[s[i].0] == s[i].1);
        assert((s[i].0, t@[s[i].0]) == s[i]);
    }
    lemma_parse_tracking_bytes(s);
}

// ---------------------------------------------------------------------------
// Comparing flattened trees

/// Whether a tree is scanned only, or its files imported into the store too.
#[derive(Debug, PartialEq, Eq, Structural, Clone, Copy)]
pub enum ScanMode {
    Scan,
    Import,
}

/// How a flattened tree differs from another.
#[derive(Debug)]
pub struct Status<const N: usize> {
    pub removed: Vec<String>,
    pub changed: Vec<String>,
    pub unknown: Vec<String>,
    pub newch: Vec<(String, Item<N>, Item<N>)>,
}

impl<const N: usize> Status<N> {
    pub fn new() -> (r: Self)
        ensures
            r.removed@.len() == 0,
            r.changed@.len() == 0,
            r.unknown@.len() == 0,
            r.newch@.len() == 0,
    {
        Self { removed: Vec::new(), changed: Vec::new(), unknown: Vec::new(), newch: Vec::new() }
    }
}

/// The strings of a sequence, by their views.
pub open spec fn string_views(v: Seq<String>) -> Seq<Seq<char>> {
    Seq::new(v.len(), |i: int| v[i]@)
}

/// The triples of a sequence, by their views.
pub open spec fn change_views<const N: usize>(v: Seq<(String, Item<N>, Item<N>)>) -> Seq<
    (Seq<char>, ItemView, ItemView),
> {
    Seq::new(v.len(), |i: int| (v[i].0@, v[i].1@, v[i].2@))
}

/// The paths of `keys` that `b` lacks.
pub open spec fn removed_paths(keys: Seq<Seq<char>>, b: Map<Seq<char>, ItemView>) -> Seq<
    Seq<char>,
> {
    keys.filter(|k: Seq<char>| !b.contains_key(k))
}

/// The paths of `keys` that `b` maps to another entry than `a` does.
pub open spec fn changed_paths(
    keys: Seq<Seq<char>>,
    a: Map<Seq<char>, ItemView>,
    b: Map<Seq<char>, ItemView>,
) -> Seq<Seq<char>> {
    keys.filter(|k: Seq<char>| b.contains_key(k) && b[k] != a[k])
}

/// Each changed path with its entry in `a` and in `b`.
pub open spec fn changes(
    keys: Seq<Seq<char>>,
    a: Map<Seq<char>, ItemView>,
    b: Map<Seq<char>, ItemView>,
) -> Seq<(Seq<char>, ItemView, ItemView)> {
    let c = changed_paths(keys, a, b);
    Seq::new(c.len(), |i: int| (c[i], a[c[i]], b[c[i]]))
}

proof fn lemma_filter_step<A>(s: Seq<A>, i: int, pred: spec_fn(A) -> bool)
    requires
        0 <= i < s.len(),
    ensures
        s.take(i + 1).filter(pred) == if pred(s[i]) {
            s.take(i).filter(pred).push(s[i])
        } else {
            s.take(i).filter(pred)
        },
{
    reveal(Seq::filter);
    assert(s.take(i + 1).drop_last() =~= s.take(i));
    assert(s.take(i + 1).last() == s[i]);
}

/// Filtering out every element leaves nothing.
proof fn lemma_filter_none<A>(s: Seq<A>, pred: spec_fn(A) -> bool)
    requires
        forall|i: int| 0 <= i < s.len() ==> !pred(#[trigger] s[i]),
    ensures
        s.filter(pred).len() == 0,
    decreases s.len(),
{
    reveal(Seq::filter);
    if s.len() > 0 {
        assert forall|i: int| 0 <= i < s.drop_last().len() implies !pred(#[trigger] s.drop_last()[i]) by {
            assert(s.drop_last()[i] == s[i]);
        }
        lemma_filter_none(s.drop_last(), pred);
        assert(!pred(s[s.len() - 1]));
    }
}

/// What a filter keeps: exactly the elements that pass.
proof fn lemma_filter_members<A>(s: Seq<A>, pred: spec_fn(A) -> bool)
    ensures
        forall|x: A| #[trigger] s.filter(pred).contains(x) <==> s.contains(x) && pred(x),
{
    broadcast use vstd::seq_lib::group_filter_ensures;
    assert forall|x: A| #[trigger] s.filter(pred).contains(x) <==> s.contains(x) && pred(x) by {
        if s.filter(pred).contains(x) {
            s.lemma_filter_contains_rev(pred, x);
            let i = choose|i: int| 0 <= i < s.filter(pred).len() && s.filter(pred)[i] == x;
            assert(pred(s.filter(pred)[i]));
        }
        if s.contains(x) && pred(x) {
            let i = choose|i: int| 0 <= i < s.len() && s[i] == x;
            s.lemma_filter_contains(pred, i);
        }
    }
}

/// The paths ascend strictly in the order of their UTF-8 bytes (so none
/// occurs twice).
pub open spec fn paths_ascend(s: Seq<Seq<char>>) -> bool {
    forall|i: int, j: int|
        0 <= i < j < s.len() ==> bytes_less(encode_utf8(#[trigger] s[i]), encode_utf8(#[trigger] s[j]))
}

/// Filtering ascending paths keeps them ascending.
proof fn lemma_filter_ascend(s: Seq<Seq<char>>, pred: spec_fn(Seq<char>) -> bool)
    requires
        paths_ascend(s),
    ensures
        paths_ascend(s.filter(pred)),
    decreases s.len(),
{
    reveal(Seq::filter);
    if s.len() > 0 {
        let front = s.drop_last();
        assert(paths_ascend(front)) by {
            assert forall|i: int, j: int| 0 <= i < j < front.len() implies bytes_less(
                encode_utf8(#[trigger] front[i]),
                encode_utf8(#[trigger] front[j]),
            ) by {
                assert(front[i] == s[i] && front[j] == s[j]);
            }
        }
        lemma_filter_ascend(front, pred);
        let f = front.filter(pred);
        let last = s.last();
        if pred(last) {
            let g = f.push(last);
            assert(s.filter(pred) == g);
            assert forall|i: int, j: int| 0 <= i < j < g.len() implies bytes_less(
                encode_utf8(#[trigger] g[i]),
                encode_utf8(#[trigger] g[j]),
            ) by {
                if j == g.len() - 1 {
                    assert(g[i] == f[i]);
                    assert(f.contains(f[i]));
                    front.lemma_filter_contains_rev(pred, f[i]);
                    let k = choose|k: int| 0 <= k < front.len() && front[k] == f[i];
                    assert(s[k] == front[k]);
                    assert(s[s.len() - 1] == last);
                } else {
                    assert(g[i] == f[i] && g[j] == f[j]);
                }
            }
        }
    }
}

/// The keys of a well-formed map are exactly the paths it holds, in
/// ascending order.
proof fn lemma_keys_members<const N: usize>(a: &ItemMap<N>)
    requires
        a.wf(),
    ensures
        forall|k: Seq<char>| #[trigger] a.spec_keys().contains(k) <==> a.spec_map().contains_key(k),
        paths_ascend(a.spec_keys()),
{
    a.lemma_wf();
    assert forall|i: int, j: int| 0 <= i < j < a.spec_keys().len() implies bytes_less(
        encode_utf8(#[trigger] a.spec_keys()[i]),
        encode_utf8(#[trigger] a.spec_keys()[j]),
    ) by {
        assert(a.spec_keys()[i] == a.spec_pairs()[i].0);
        assert(a.spec_keys()[j] == a.spec_pairs()[j].0);
    }
    assert forall|k: Seq<char>| #[trigger] a.spec_keys().contains(k) <==> a.spec_map().contains_key(
        k,
    ) by {
        if a.spec_keys().contains(k) {
            let i = choose|i: int| 0 <= i < a.spec_keys().len() && a.spec_keys()[i] == k;
            assert(a.spec_pairs()[i].0 == k);
        }
        if a.spec_map().contains_key(k) {
            let i = choose|i: int| 0 <= i < a.spec_pairs().len() && a.spec_pairs()[i].0 == k;
            assert(a.spec_keys()[i] == k);
        }
    }
}

/// What comparing two flattened trees reports, path by path: a path is
/// removed exactly when `a` has it and `b` lacks it, changed exactly when
/// both have it and its entries differ in any way (kind, hash or target),
/// and unknown exactly when `b` has it and `a` lacks it; each change carries
/// the path's entry in `a` and in `b`. Each list ascends, so no path is
/// reported twice.
pub proof fn lemma_compare_members<const N: usize>(a: &ItemMap<N>, b: &ItemMap<N>)
    requires
        a.wf(),
        b.wf(),
    ensures
        paths_ascend(removed_paths(a.spec_keys(), b.spec_map())),
        paths_ascend(changed_paths(a.spec_keys(), a.spec_map(), b.spec_map())),
        paths_ascend(removed_paths(b.spec_keys(), a.spec_map())),
        forall|k: Seq<char>| #[trigger]
            removed_paths(a.spec_keys(), b.spec_map()).contains(k) <==> a.spec_map().contains_key(k)
                && !b.spec_map().contains_key(k),
        forall|k: Seq<char>| #[trigger]
            changed_paths(a.spec_keys(), a.spec_map(), b.spec_map()).contains(k) <==> {
                &&& a.spec_map().contains_key(k)
                &&& b.spec_map().contains_key(k)
                &&& b.spec_map()[k] != a.spec_map()[k]
            },
        forall|k: Seq<char>| #[trigger]
            removed_paths(b.spec_keys(), a.spec_map()).contains(k) <==> b.spec_map().contains_key(k)
                && !a.spec_map().contains_key(k),
        changes(a.spec_keys(), a.spec_map(), b.spec_map()).len() == changed_paths(
            a.spec_keys(),
            a.spec_map(),
            b.spec_map(),
        ).len(),
        forall|i: int|
            0 <= i < changes(a.spec_keys(), a.spec_map(), b.spec_map()).len() ==> {
                let c = #[trigger] changes(a.spec_keys(), a.spec_map(), b.spec_map())[i];
                &&& changed_paths(a.spec_keys(), a.spec_map(), b.spec_map()).contains(c.0)
                &&& c.1 == a.spec_map()[c.0]
                &&& c.2 == b.spec_map()[c.0]
            },
{
    let am = a.spec_map();
    let bm = b.spec_map();
    lemma_keys_members(a);
    lemma_keys_members(b);
    lemma_filter_members(a.spec_keys(), |k: Seq<char>| !bm.contains_key(k));
    lemma_filter_members(a.spec_keys(), |k: Seq<char>| bm.contains_key(k) && bm[k] != am[k]);
    lemma_filter_members(b.spec_keys(), |k: Seq<char>| !am.contains_key(k));
    lemma_filter_ascend(a.spec_keys(), |k: Seq<char>| !bm.contains_key(k));
    lemma_filter_ascend(a.spec_keys(), |k: Seq<char>| bm.contains_key(k) && bm[k] != am[k]);
    lemma_filter_ascend(b.spec_keys(), |k: Seq<char>| !am.contains_key(k));
    let c = changed_paths(a.spec_keys(), am, bm);
    assert forall|i: int| 0 <= i < changes(a.spec_keys(), am, bm).len() implies {
        let ch = #[trigger] changes(a.spec_keys(), am, bm)[i];
        &&& c.contains(ch.0)
        &&& ch.1 == am[ch.0]
        &&& ch.2 == bm[ch.0]
    } by {
        assert(changes(a.spec_keys(), am, bm)[i].0 == c[i]);
    }
}

/// A flattened tree compared with itself shows nothing removed, changed or
/// unknown.
pub proof fn lemma_compare_self<const N: usize>(a: &ItemMap<N>)
    requires
        a.wf(),
    ensures
        removed_paths(a.spec_keys(), a.spec_map()).len() == 0,
        changed_paths(a.spec_keys(), a.spec_map(), a.spec_map()).len() == 0,
        changes(a.spec_keys(), a.spec_map(), a.spec_map()).len() == 0,
{
    a.lemma_wf();
    let k = a.spec_keys();
    let m = a.spec_map();
    assert forall|i: int| 0 <= i < k.len() implies #[trigger] m.contains_key(k[i]) by {
        assert(k[i] == a.spec_pairs()[i].0);
    }
    lemma_filter_none(k, |p: Seq<char>| !m.contains_key(p));
    lemma_filter_none(k, |p: Seq<char>| m.contains_key(p) && m[p] != m[p]);
}

/// Compares the flattened tree `a` with the flattened tree `b`: the paths of
/// `a` that `b` lacks, those whose entry differs (with both entries), in
/// ascending order, and the paths of `b` that `a` lacks, in ascending order.
pub fn compare_trees<const N: usize>(a: &ItemMap<N>, b: &ItemMap<N>) -> (r: Status<N>)
    requires
        a.wf(),
        b.wf(),
    ensures
        string_views(r.removed@) == removed_paths(a.spec_keys(), b.spec_map()),
        string_views(r.changed@) == changed_paths(a.spec_keys(), a.spec_map(), b.spec_map()),
        change_views(r.newch@) == changes(a.spec_keys(), a.spec_map(), b.spec_map()),
        string_views(r.unknown@) == removed_paths(b.spec_keys(), a.spec_map()),
{
    proof {
        a.lemma_wf();
        b.lemma_wf();
    }
    let ghost am = a.spec_map();
    let ghost bm = b.spec_map();
    let ghost ak = a.spec_keys();
    let ghost bk = b.spec_keys();
    let ghost pred_removed = |k: Seq<char>| !bm.contains_key(k);
    let ghost pred_changed = |k: Seq<char>| bm.contains_key(k) && bm[k] != am[k];
    let ghost pred_unknown = |k: Seq<char>| !am.contains_key(k);
    let mut status = Status::new();
    let n = a.len();
    let mut i: usize = 0;
    proof {
        assert(string_views(status.removed@) =~= ak.take(0).filter(pred_removed)) by {
            reveal(Seq::filter);
        }
        assert(string_views(status.changed@) =~= ak.take(0).filter(pred_changed)) by {
            reveal(Seq::filter);
        }
    }
    while i < n
        invariant
            a.wf(),
            b.wf(),
            am == a.spec_map(),
            bm == b.spec_map(),
            ak == a.spec_keys(),
            n == ak.len(),
            i <= n,
            pred_removed == (|k: Seq<char>| !bm.contains_key(k)),
            pred_changed == (|k: Seq<char>| bm.contains_key(k) && bm[k] != am[k]),
            forall|j: int| 0 <= j < ak.len() ==> #[trigger] am[ak[j]] == a.spec_pairs()[j].1,
            string_views(status.removed@) == ak.take(i as int).filter(pred_removed),
            string_views(status.changed@) == ak.take(i as int).filter(pred_changed),
            change_views(status.newch@) == ({
                let c = ak.take(i as int).filter(pred_changed);
                Seq::new(c.len(), |j: int| (c[j], am[c[j]], bm[c[j]]))
            }),
            status.unknown@.len() == 0,
        decreases n - i,
    {
        let key = a.key_at(i);
        let old = a.value_at(i);
        proof {
            lemma_filter_step(ak, i as int, pred_removed);
            lemma_filter_step(ak, i as int, pred_changed);
            assert(ak[i as int] == key@);
            assert(am[key@] == old@);
        }
        let ghost c0 = ak.take(i as int).filter(pred_changed);
        match b.get(key) {
            Some(new) => {
                proof {
                    assert(!pred_removed(key@));
                }
                if !new.same_as(old) {
                    let ghost nc0 = status.newch@;
                    status.changed.push(key.clone());
                    status.newch.push((key.clone(), old.duplicate(), new.duplicate()));
                    proof {
                        assert(pred_changed(key@));
                        let c1 = ak.take(i + 1).filter(pred_changed);
                        assert(c1 == c0.push(key@));
                        assert(change_views(status.newch@) =~= change_views(nc0).push(
                            (key@, old@, new@),
                        ));
                        assert(bm[key@] == new@);
                        assert(change_views(status.newch@) =~= Seq::new(
                            c1.len(),
                            |j: int| (c1[j], am[c1[j]], bm[c1[j]]),
                        ));
                    }
                }
            },
            None => {
                status.removed.push(key.clone());
                proof {
                    assert(pred_removed(key@));
                    assert(!pred_changed(key@));
                }
            },
        }
        proof {
            assert(string_views(status.removed@) =~= ak.take(i + 1).filter(pred_removed));
            assert(string_views(status.changed@) =~= ak.take(i + 1).filter(pred_changed));
        }
        i = i + 1;
    }
    proof {
        assert(ak.take(n as int) =~= ak);
        assert(string_views(status.unknown@) =~= bk.take(0).filter(pred_unknown)) by {
            reveal(Seq::filter);
        }
    }
    let m = b.len();
    let mut j: usize = 0;
    while j < m
        invariant
            a.wf(),
            b.wf(),
            am == a.spec_map(),
            bk == b.spec_keys(),
            m == bk.len(),
            j <= m,
            pred_unknown == (|k: Seq<char>| !am.contains_key(k)),
            string_views(status.unknown@) == bk.take(j as int).filter(pred_unknown),
            string_views(status.removed@) == removed_paths(ak, bm),
            string_views(status.changed@) == changed_paths(ak, am, bm),
            change_views(status.newch@) == changes(ak, am, bm),
        decreases m - j,
    {
        let key = b.key_at(j);
        proof {
            lemma_filter_step(bk, j as int, pred_unknown);
        }
        proof {
            assert(bk[j as int] == key@);
        }
        if !a.contains_key(key) {
            status.unknown.push(key.clone());
            proof {
                assert(pred_unknown(key@));
            }
        } else {
            proof {
                assert(!pred_unknown(key@));
            }
        }
        proof {
            assert(string_views(status.unknown@) =~= bk.take(j + 1).filter(pred_unknown));
        }
        j = j + 1;
    }
    proof {
        assert(bk.take(m as int) =~= bk);
    }
    status
}

/// The unified diff (histogram algorithm) between two texts, as the
/// `imara-diff` crate writes it.
pub uninterp spec fn unified_diff(before: Seq<char>, after: Seq<char>) -> Seq<char>;

/// Diffs two texts with `imara_diff::diff` (histogram algorithm, unified diff
/// builder).  The contract claims only that the result is a function of the
/// two texts.
#[verifier::external_body]
fn compute_diff_inner(before: &str, after: &str) -> (r: String)
    ensures
        r@ == unified_diff(before@, after@),
{
    let input = imara_diff::intern::InternedInput::new(before, after);
    imara_diff::diff(
        imara_diff::Algorithm::Histogram,
        &input,
        imara_diff::UnifiedDiffBuilder::new(&input),
    )
}

/// The unified diff between two byte strings, where both are UTF-8.
pub fn compute_diff(before: &[u8], after: &[u8]) -> (r: Option<String>)
    ensures
        r is Some <==> valid_utf8(before@) && valid_utf8(after@),
        r matches Some(d) ==> d@ == unified_diff(decode_utf8(before@), decode_utf8(after@)),
{
    if let Some(a) = string_from_utf8(vstd::slice::slice_to_vec(before)) {
        if let Some(b) = string_from_utf8(vstd::slice::slice_to_vec(after)) {
            return Some(compute_diff_inner(a.as_str(), b.as_str()));
        }
    }
    None
}

// ---------------------------------------------------------------------------
// Scanning a working tree

/// The relative path of `name` inside the directory `parent` (the root when
/// `parent` is empty).
pub open spec fn join_spec(parent: Seq<char>, name: Seq<char>) -> Seq<char> {
    if parent.len() == 0 {
        name
    } else {
        parent + seq!['/'] + name
    }
}

pub fn join_path(parent: &String, name: &String) -> (r: String)
    ensures
        r@ == join_spec(parent@, name@),
{
    if parent.as_str().is_empty() {
        name.clone()
    } else {
        let mut s = parent.clone();
        s.append("/");
        s.append(name.as_str());
        proof {
            reveal_strlit("/");
        }
        s
    }
}

/// Whether Unix permission bits let anyone execute the file.
pub fn is_executable(mode: u32) -> (r: bool)
    ensures
        r == (mode & 0o111 != 0),
{
    mode & 0o111 != 0
}

/// What the scan of a working tree found at a directory entry.
pub enum Found<const N: usize> {
    /// A symbolic link, with its target.
    SymLink(String),
    /// A file: the name of its contents (`None` when it is empty) and its
    /// Unix permission bits.
    File(Option<Name<N>>, u32),
    /// A directory: the name of its tree object (`None` when nothing in it
    /// is kept).
    Dir(Option<Name<N>>),
}

/// The entry that a found thing becomes.
pub open spec fn found_item<const N: usize>(found: Found<N>) -> ItemView {
    match found {
        Found::SymLink(t) => ItemView::SymLink(t@),
        Found::File(None, _) => ItemView::EmptyFile,
        Found::File(Some(h), mode) => if mode & 0o111 != 0 {
            ItemView::ExeFile(h.buf@)
        } else {
            ItemView::File(h.buf@)
        },
        Found::Dir(None) => ItemView::EmptyDir,
        Found::Dir(Some(h)) => ItemView::Dir(h.buf@),
    }
}

/// A found file with contents becomes an executable entry exactly when any
/// of its three execute bits is set (owner, group or others, each alone
/// enough), and keeps its contents' name either way; a file found empty is
/// an empty file whatever its mode.
pub proof fn lemma_found_file<const N: usize>(h: Name<N>, mode: u32)
    ensures
        (found_item(Found::File(Some(h), mode)) is ExeFile) <==> (mode & 0o111 != 0),
        (found_item(Found::File(Some(h), mode)) is File) <==> (mode & 0o111 == 0),
        mode & 0o100 != 0 || mode & 0o010 != 0 || mode & 0o001 != 0 ==> found_item(
            Found::File(Some(h), mode),
        ) == ItemView::ExeFile(h.buf@),
        mode & 0o111 == 0 ==> found_item(Found::File(Some(h), mode)) == ItemView::File(h.buf@),
        found_item(Found::<N>::File(None, mode)) == ItemView::EmptyFile,
        found_item(Found::<N>::Dir(Some(h))) == ItemView::Dir(h.buf@),
        found_item(Found::<N>::Dir(None)) == ItemView::EmptyDir,
{
    assert((mode & 0o100 != 0 || mode & 0o010 != 0 || mode & 0o001 != 0) <==> mode & 0o111 != 0)
        by (bit_vector);
}

/// Adds to `dir` the entry `name` for what the scan found there: a symlink,
/// an empty file, a file (executable when anyone may execute it), an empty
/// directory or a directory; gives the entry.
pub fn add_found<const N: usize>(dir: &mut Dir<N>, name: String, found: Found<N>) -> (r: Item<N>)
    requires
        old(dir).wf(),
    ensures
        final(dir).wf(),
        r@ == found_item(found),
        final(dir)@ == old(dir)@.insert(name@, found_item(found)),
        found matches Found::File(Some(h), mode) ==> r@ == if mode & 0o111 != 0 {
            ItemView::ExeFile(h.buf@)
        } else {
            ItemView::File(h.buf@)
        },
{
    match found {
        Found::SymLink(target) => dir.add_symlink(name, target),
        Found::File(None, _) => dir.add_empty_file(name),
        Found::File(Some(hash), mode) => {
            if is_executable(mode) {
                dir.add_exefile(name, hash)
            } else {
                dir.add_file(name, hash)
            }
        },
        Found::Dir(None) => dir.add_empty_dir(name),
        Found::Dir(Some(hash)) => dir.add_dir(name, hash),
    }
}

/// Stores a directory listing as a tree object: `None` for an empty
/// directory, else the name of the object that holds its wire form, whose
/// kind is a tree's.
pub fn tree_object<H: Hasher, const N: usize>(dir: &Dir<N>, obj: &mut Object<H, N>) -> (r: Option<Name<N>>)
    requires
        dir.wf(),
        valid_name_len(N as int),
        fits_objects(N as int),
        dir_bytes(dir.spec_pairs()).len() <= OBJECT_MAX_SIZE,
    ensures
        r is Some <==> dir@.len() > 0,
        r is None ==> final(obj)@ == old(obj)@,
        r matches Some(h) ==> {
            let data = dir_bytes(dir.spec_pairs());
            &&& final(obj)@ == h.buf@ + object_payload(data.len() as int, 6, data)
            &&& h.buf@ == H::spec_hash(object_payload(data.len() as int, 6, data), N as nat)
        },
{
    if dir.is_empty() {
        None
    } else {
        proof {
            dir.lemma_pairs();
            lemma_dir_bytes_nonempty(dir.spec_pairs());
        }
        obj.clear();
        dir.serialize(obj.as_mut_vec());
        let ghost b = obj@;
        proof {
            assert(b.skip(N + INFO_LEN) =~= dir_bytes(dir.spec_pairs()));
        }
        Some(obj.finalize_with_kind(6))
    }
}

proof fn lemma_dir_bytes_nonempty(s: Seq<(Seq<char>, ItemView)>)
    requires
        s.len() > 0,
    ensures
        dir_bytes(s).len() >= 2,
{
    assert(dir_bytes(s) == dir_bytes(s.drop_last()) + entry_bytes(s.last().0, s.last().1));
}

// ---------------------------------------------------------------------------
// Commit

/// A commit: the root tree and a message.
pub struct Commit<const N: usize> {
    pub tree: Name<N>,
    pub msg: String,
}

/// The wire form of a commit: the tree's name, then the message's bytes.
pub open spec fn commit_bytes(tree: Seq<u8>, msg: Seq<char>) -> Seq<u8> {
    tree + encode_utf8(msg)
}

impl<const N: usize> Commit<N> {
    pub fn new(tree: Name<N>, msg: String) -> (r: Self)
        ensures
            r.tree == tree,
            r.msg == msg,
    {
        Self { tree, msg }
    }

    /// Reads a commit: the first `N` bytes name the tree, the rest is the
    /// message, which must be UTF-8.
    pub fn deserialize(buf: &[u8]) -> (r: Self)
        requires
            buf@.len() >= N,
            valid_utf8(buf@.subrange(N as int, buf@.len() as int)),
        ensures
            r.tree.buf@ == buf@.subrange(0, N as int),
            r.msg@ == decode_utf8(buf@.subrange(N as int, buf@.len() as int)),
    {
        let tree = Name::from(vstd::slice::slice_subrange(buf, 0, N));
        let rest = vstd::slice::slice_to_vec(vstd::slice::slice_subrange(buf, N, buf.len()));
        let msg = match string_from_utf8(rest) {
            Some(s) => s,
            None => String::new(),
        };
        Self { tree, msg }
    }

    pub fn serialize(&self, buf: &mut Vec<u8>)
        ensures
            final(buf)@ == old(buf)@ + commit_bytes(self.tree.buf@, self.msg@),
    {
        extend_bytes(buf, self.tree.as_buf());
        extend_bytes(buf, string_bytes(&self.msg));
        assert(final(buf)@ =~= old(buf)@ + commit_bytes(self.tree.buf@, self.msg@));
    }
}

/// Reading back a written commit gives its tree and message.
pub proof fn lemma_commit_roundtrip<const N: usize>(tree: Seq<u8>, msg: Seq<char>)
    requires
        tree.len() == N,
    ensures
        ({
            let b = commit_bytes(tree, msg);
            &&& b.len() >= N
            &&& b.subrange(0, N as int) == tree
            &&& valid_utf8(b.subrange(N as int, b.len() as int))
            &&& decode_utf8(b.subrange(N as int, b.len() as int)) == msg
        }),
{
    let b = commit_bytes(tree, msg);
    assert(b.subrange(0, N as int) =~= tree);
    assert(b.subrange(N as int, b.len() as int) =~= encode_utf8(msg));
    vstd::utf8::encode_utf8_valid_utf8(msg);
    vstd::utf8::encode_utf8_decode_utf8(msg);
}

} // verus!
