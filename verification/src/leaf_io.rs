//! Leaf-wise object layout.
//!
//! In general, anything that uses LEAF_SIZE should be here.
//!
//! A pack file entry is a 69 byte header (root hash, u64 size, type byte,
//! payload hash), then for large objects one 30 byte hash per leaf, then the
//! data of small objects (large objects keep their data in a file of their
//! own).

use vstd::prelude::*;
use crate::base::{HEADER_LEN, LEAF_SIZE, TUB_HASH_LEN, TubHash};
use crate::protocol::{
    hash_leaf, hash_payload, hash_root, hash_tombstone, le_bytes_u64, leaf_message,
    payload_message, root_message, tombstone_message, tub_hash, u64_from_le, read_u64_le,
    u64_le_bytes, lemma_u64_le_roundtrip,
};

verus! {

// ---------------------------------------------------------------------------
// Sizes

/// Number of leaves of an object of `size` bytes.
pub open spec fn leaf_count(size: int) -> int {
    if size % (LEAF_SIZE as int) == 0 {
        size / (LEAF_SIZE as int)
    } else {
        size / (LEAF_SIZE as int) + 1
    }
}

/// Size of the root hash + u64 + type byte + payload hash + leaf hashes.
pub open spec fn preamble_size(size: int) -> int {
    (TUB_HASH_LEN + 9) + leaf_count(size) * TUB_HASH_LEN
}

/// Whether the buffer ranges of an object of `size` bytes fit in `usize`
/// (always so where `usize` has 64 bits).
pub open spec fn ranges_fit(size: u64) -> bool {
    HEADER_LEN + TUB_HASH_LEN * leaf_count(size as int) + LEAF_SIZE <= usize::MAX
}

/// How many leaves an object of `size` bytes has: enough to hold it, one
/// for a small object, two or more for a large one.
pub proof fn lemma_leaf_count_bounds(size: u64)
    ensures
        0 <= leaf_count(size as int) <= 0x200_0000_0000,
        (leaf_count(size as int) - 1) * LEAF_SIZE < size || size == 0,
        leaf_count(size as int) * LEAF_SIZE >= size,
        size == 0 <==> leaf_count(size as int) == 0,
        size <= LEAF_SIZE ==> leaf_count(size as int) <= 1,
        size > LEAF_SIZE ==> leaf_count(size as int) >= 2,
{
    let l = LEAF_SIZE as int;
    let q = size as int / l;
    let r = size as int % l;
    vstd::arithmetic::div_mod::lemma_fundamental_div_mod(size as int, l);
    assert(size == l * q + r);
    assert(q <= 0x200_0000_0000 - 1) by {
        vstd::arithmetic::div_mod::lemma_div_is_ordered(size as int, u64::MAX as int, l);
        assert(u64::MAX as int / l == 0x1ff_ffff_ffff);
    }
}

pub fn get_leaf_count(size: u64) -> (r: u64)
    ensures
        r == leaf_count(size as int),
{
    proof {
        lemma_leaf_count_bounds(size);
    }
    let count = size / LEAF_SIZE;
    if size % LEAF_SIZE == 0 {
        count
    } else {
        count + 1
    }
}

pub fn get_leaf_payload_size(size: u64) -> (r: u64)
    ensures
        r == TUB_HASH_LEN * leaf_count(size as int),
{
    proof {
        lemma_leaf_count_bounds(size);
    }
    TUB_HASH_LEN as u64 * get_leaf_count(size)
}

/// Returns size of the root hash + u64 + leaf_hashes.
pub fn get_preamble_size(size: u64) -> (r: u64)
    ensures
        r == preamble_size(size as int),
{
    proof {
        lemma_leaf_count_bounds(size);
    }
    (TUB_HASH_LEN as u64 + 9) + get_leaf_count(size) * (TUB_HASH_LEN as u64)
}

/// Returns size of header + leaf_hashes + data.
pub fn get_full_object_size(size: u64) -> (r: u64)
    requires
        preamble_size(size as int) + size <= u64::MAX,
    ensures
        r == preamble_size(size as int) + size,
{
    get_preamble_size(size) + size
}

pub fn get_buffer_size(size: u64) -> (r: u64)
    ensures
        r == preamble_size(size as int) + if size < LEAF_SIZE {
            size
        } else {
            LEAF_SIZE
        },
{
    proof {
        lemma_leaf_count_bounds(size);
    }
    get_preamble_size(size) + if size < LEAF_SIZE {
        size
    } else {
        LEAF_SIZE
    }
}

/// The byte range of leaf `index` in an object of `size` bytes.
pub open spec fn leaf_range(index: int, size: int) -> Option<(u64, u64)> {
    let start = index * LEAF_SIZE;
    if start < size {
        Some(
            (
                start as u64,
                (if start + LEAF_SIZE < size {
                    start + LEAF_SIZE
                } else {
                    size
                }) as u64,
            ),
        )
    } else {
        None
    }
}

pub fn get_leaf_range(index: u64, size: u64) -> (r: Option<(u64, u64)>)
    requires
        index * LEAF_SIZE <= u64::MAX,
    ensures
        r == leaf_range(index as int, size as int),
{
    let start = index * LEAF_SIZE;
    if start < size {
        let stop = if size - start > LEAF_SIZE {
            start + LEAF_SIZE
        } else {
            size
        };
        Some((start, stop))
    } else {
        None
    }
}

pub fn get_leaf_size(index: u64, size: u64) -> (r: Option<u64>)
    requires
        index * LEAF_SIZE <= u64::MAX,
    ensures
        r == match leaf_range(index as int, size as int) {
            Some((start, stop)) => Some((stop - start) as u64),
            None => None::<u64>,
        },
{
    if let Some((start, stop)) = get_leaf_range(index, size) {
        Some(stop - start)
    } else {
        None
    }
}

/// Bytes in leaf `index` of an object of `size` bytes (none past the last
/// leaf).
pub open spec fn leaf_len(index: int, size: int) -> int {
    match leaf_range(index, size) {
        Some((start, stop)) => stop - start,
        None => 0,
    }
}

/// Bytes in the first `k` leaves of an object of `size` bytes.
pub open spec fn leaves_total(k: int, size: int) -> int
    decreases k,
{
    if k <= 0 {
        0
    } else {
        leaves_total(k - 1, size) + leaf_len(k - 1, size)
    }
}

proof fn lemma_full_leaves(k: int, size: u64)
    requires
        0 <= k,
        k * LEAF_SIZE <= size,
    ensures
        leaves_total(k, size as int) == k * LEAF_SIZE,
    decreases k,
{
    if k > 0 {
        lemma_full_leaves(k - 1, size);
    }
}

/// Every leaf of an object is full but the last, which holds at least one
/// byte; there are no leaves past the last; and the leaves hold the object's
/// bytes exactly.
pub proof fn lemma_leaf_sizes(size: u64)
    ensures
        forall|i: int|
            0 <= i < leaf_count(size as int) ==> #[trigger] leaf_range(i, size as int) is Some && 1
                <= leaf_len(i, size as int) <= LEAF_SIZE,
        forall|i: int|
            0 <= i < leaf_count(size as int) - 1 ==> #[trigger] leaf_len(i, size as int) == LEAF_SIZE,
        forall|i: int| i >= leaf_count(size as int) ==> #[trigger] leaf_range(i, size as int) is None,
        leaves_total(leaf_count(size as int), size as int) == size,
{
    lemma_leaf_count_bounds(size);
    let count = leaf_count(size as int);
    if count > 0 {
        lemma_full_leaves(count - 1, size);
    }
}

/// The leaves that `TubBuf` walks: from the state of leaf 0, each
/// `hash_leaf` goes to the state of the next leaf; leaf `k` is open (so
/// `as_mut_leaf` gives it) exactly while `k` is below the leaf count, and
/// then its slice holds the bytes of leaf `k`.
pub proof fn lemma_leaf_walk(size: u64, k: u64)
    requires
        ranges_fit(size),
        size > 0,
        k < u64::MAX,
    ensures
        ({
            let st = leaf_state(size, k);
            &&& !st.closed <==> k < leaf_count(size as int)
            &&& k < leaf_count(size as int) ==> st.leaf_index == k && st.leaf_stop - st.leaf_start
                == leaf_len(k as int, size as int)
            &&& size > LEAF_SIZE && k < leaf_count(size as int) ==> leaf_state(
                size,
                (st.leaf_index + 1) as u64,
            ) == leaf_state(size, (k + 1) as u64)
        }),
{
    lemma_leaf_state(size, k);
    lemma_leaf_sizes(size);
    lemma_leaf_count_bounds(size);
}

/// Walking a large object's leaves from leaf 0 takes exactly as many
/// steps as it has leaves: leaves `0` to `leaf_count - 1` are open in turn,
/// each with a slice of that leaf's length, the one after is closed, and the
/// slices together hold the object's bytes.
pub proof fn lemma_leaf_walk_count(size: u64)
    requires
        ranges_fit(size),
        size > LEAF_SIZE,
    ensures
        ({
            let count = leaf_count(size as int);
            &&& 2 <= count < u64::MAX
            &&& forall|k: u64|
                k < count ==> {
                    let st = #[trigger] leaf_state(size, k);
                    &&& !st.closed
                    &&& st.leaf_index == k
                    &&& st.leaf_stop - st.leaf_start == leaf_len(k as int, size as int)
                    &&& leaf_state(size, (st.leaf_index + 1) as u64) == leaf_state(size, (k + 1) as u64)
                }
            &&& leaf_state(size, count as u64).closed
            &&& leaves_total(count, size as int) == size
        }),
{
    lemma_leaf_count_bounds(size);
    lemma_leaf_sizes(size);
    let count = leaf_count(size as int);
    assert forall|k: u64| k < count implies {
        let st = #[trigger] leaf_state(size, k);
        &&& !st.closed
        &&& st.leaf_index == k
        &&& st.leaf_stop - st.leaf_start == leaf_len(k as int, size as int)
        &&& leaf_state(size, (st.leaf_index + 1) as u64) == leaf_state(size, (k + 1) as u64)
    } by {
        lemma_leaf_walk(size, k);
    }
    lemma_leaf_walk(size, count as u64);
}

#[derive(Debug, PartialEq, Eq)]
pub struct LeafInfo {
    pub hash: TubHash,
    pub index: u64,
}

impl LeafInfo {
    pub fn new(hash: TubHash, index: u64) -> (r: Self)
        ensures
            r.hash == hash,
            r.index == index,
    {
        Self { hash: hash, index: index }
    }
}

#[derive(Debug, PartialEq, Eq, Structural)]
pub struct LeafOffset {
    pub index: u64,
    pub size: u64,
    pub offset: u64,
}

impl LeafOffset {
    pub fn new(index: u64, size: u64, offset: u64) -> (r: Self)
        ensures
            r == (LeafOffset { index, size, offset }),
    {
        Self { index: index, size: size, offset: offset }
    }
}

/// Iterates over the leaves of an object of `size` bytes stored at `offset`.
#[derive(Debug)]
pub struct LeafOffsetIter {
    pub size: u64,
    pub offset: u64,
    index: u64,
}

impl LeafOffsetIter {
    pub fn new(size: u64, offset: u64) -> (r: Self)
        ensures
            r.total() == size,
            r.start() == offset,
            r.position() == 0,
    {
        Self { size: size, offset: offset, index: 0 }
    }

    /// Index of the next leaf.
    pub closed spec fn position(&self) -> u64 {
        self.index
    }

    /// Offset of the object.
    pub closed spec fn start(&self) -> u64 {
        self.offset
    }

    /// The object size.
    pub closed spec fn total(&self) -> u64 {
        self.size
    }

    /// Yields the next leaf, or `None` after the last one.
    pub fn next(&mut self) -> (r: Option<LeafOffset>)
        requires
            old(self).start() + old(self).total() <= u64::MAX,
            old(self).position() <= leaf_count(old(self).total() as int),
        ensures
            final(self).total() == old(self).total(),
            final(self).start() == old(self).start(),
            old(self).position() < leaf_count(old(self).total() as int) ==> {
                let consumed = old(self).position() * LEAF_SIZE;
                &&& r == Some(
                    LeafOffset {
                        index: old(self).position(),
                        size: (if old(self).total() - consumed < LEAF_SIZE {
                            old(self).total() - consumed
                        } else {
                            LEAF_SIZE as int
                        }) as u64,
                        offset: (old(self).start() + consumed) as u64,
                    },
                )
                &&& final(self).position() == old(self).position() + 1
            },
            old(self).position() >= leaf_count(old(self).total() as int) ==> r is None
                && final(self).position() == old(self).position(),
    {
        proof {
            lemma_leaf_count_bounds(self.size);
        }
        if self.index < get_leaf_count(self.size) {
            let consumed = self.index * LEAF_SIZE;
            let offset = self.offset + consumed;
            let remaining = self.size - consumed;
            let size = if remaining < LEAF_SIZE {
                remaining
            } else {
                LEAF_SIZE
            };
            let info = LeafOffset::new(self.index, size, offset);
            self.index = self.index + 1;
            Some(info)
        } else {
            None
        }
    }
}

/// Iterates over the byte ranges of the leaves of an object of `size` bytes.
#[derive(Debug)]
pub struct LeafRangeIter {
    pub size: u64,
    index: u64,
}

impl LeafRangeIter {
    pub fn new(size: u64) -> (r: Self)
        ensures
            r.total() == size,
            r.position() == 0,
    {
        Self { size: size, index: 0 }
    }

    /// Index of the next leaf.
    pub closed spec fn position(&self) -> u64 {
        self.index
    }

    /// The object size.
    pub closed spec fn total(&self) -> u64 {
        self.size
    }

    /// Yields the next leaf range, or `None` after the last one.
    pub fn next(&mut self) -> (r: Option<(u64, u64)>)
        requires
            old(self).position() <= leaf_count(old(self).total() as int),
        ensures
            final(self).total() == old(self).total(),
            r == leaf_range(old(self).position() as int, old(self).total() as int),
            r is Some ==> final(self).position() == old(self).position() + 1,
            r is None ==> final(self).position() == old(self).position(),
    {
        proof {
            lemma_leaf_count_bounds(self.size);
        }
        if self.index < get_leaf_count(self.size) {
            let r = get_leaf_range(self.index, self.size);
            match r {
                Some(rng) => {
                    self.index = self.index + 1;
                    Some(rng)
                },
                None => None,
            }
        } else {
            None
        }
    }
}

// ---------------------------------------------------------------------------
// Leaf state

/// Where the current leaf lies in the object and in the buffer.
#[derive(Debug, PartialEq, Eq, Structural, Clone, Copy)]
pub struct LeafState {
    pub closed: bool,
    pub object_size: u64,
    pub leaf_index: u64,
    pub file_start: u64,
    pub file_stop: u64,
    pub leaf_start: usize,
    pub leaf_stop: usize,
    pub leaf_hash_start: usize,
    pub leaf_hash_stop: usize,
}

/// The state for leaf `leaf_index` of an object of `object_size` bytes.
pub open spec fn leaf_state(object_size: u64, leaf_index: u64) -> LeafState {
    if object_size == 0 {
        LeafState {
            closed: true,
            object_size: 0,
            leaf_index: 0,
            file_start: 0,
            file_stop: 0,
            leaf_start: 0,
            leaf_stop: 0,
            leaf_hash_start: 0,
            leaf_hash_stop: 0,
        }
    } else if object_size <= LEAF_SIZE {
        LeafState {
            closed: leaf_index > 0,
            object_size: object_size,
            leaf_index: 0,
            file_start: 0,
            file_stop: object_size,
            leaf_start: HEADER_LEN,
            leaf_stop: (HEADER_LEN + object_size) as usize,
            leaf_hash_start: HEADER_LEN,
            leaf_hash_stop: HEADER_LEN,
        }
    } else {
        let count = leaf_count(object_size as int);
        let closed = leaf_index >= count;
        let index = if closed {
            count - 1
        } else {
            leaf_index as int
        };
        let file_start = index * LEAF_SIZE;
        let file_stop = if file_start + LEAF_SIZE < object_size {
            file_start + LEAF_SIZE
        } else {
            object_size as int
        };
        let leaf_start = HEADER_LEN + TUB_HASH_LEN * count;
        LeafState {
            closed: closed,
            object_size: object_size,
            leaf_index: index as u64,
            file_start: file_start as u64,
            file_stop: file_stop as u64,
            leaf_start: leaf_start as usize,
            leaf_stop: (leaf_start + (file_stop - file_start)) as usize,
            leaf_hash_start: (HEADER_LEN + index * TUB_HASH_LEN) as usize,
            leaf_hash_stop: (HEADER_LEN + index * TUB_HASH_LEN + TUB_HASH_LEN) as usize,
        }
    }
}

/// Facts about the ranges of every leaf state.
pub proof fn lemma_leaf_state(object_size: u64, leaf_index: u64)
    requires
        ranges_fit(object_size),
    ensures
        ({
            let s = leaf_state(object_size, leaf_index);
            &&& s.object_size == object_size
            &&& s.leaf_start <= s.leaf_stop
            &&& s.leaf_hash_start <= s.leaf_hash_stop <= s.leaf_start
            &&& object_size > 0 ==> HEADER_LEN <= s.leaf_hash_start
            &&& object_size > LEAF_SIZE ==> s.leaf_hash_stop == s.leaf_hash_start + TUB_HASH_LEN
            &&& s.leaf_stop - s.leaf_start <= LEAF_SIZE
            &&& s.leaf_stop - s.leaf_start == s.file_stop - s.file_start
            &&& s.leaf_stop <= HEADER_LEN + TUB_HASH_LEN * leaf_count(object_size as int) + LEAF_SIZE
            &&& object_size > 0 ==> s.leaf_index < leaf_count(object_size as int)
            &&& object_size > LEAF_SIZE ==> s.leaf_start == HEADER_LEN + TUB_HASH_LEN * leaf_count(
                object_size as int,
            )
            &&& s.leaf_stop > s.leaf_start || object_size == 0
        }),
{
    lemma_leaf_count_bounds(object_size);
    if object_size > LEAF_SIZE {
        let count = leaf_count(object_size as int);
        let index = if leaf_index >= count {
            count - 1
        } else {
            leaf_index as int
        };
        vstd::arithmetic::mul::lemma_mul_inequality(index, count - 1, LEAF_SIZE as int);
    }
}

impl LeafState {
    /// The state for leaf `leaf_index` of an object of `object_size` bytes.
    pub fn new_raw(object_size: u64, leaf_index: u64) -> (r: Self)
        requires
            ranges_fit(object_size),
        ensures
            r == leaf_state(object_size, leaf_index),
    {
        proof {
            lemma_leaf_state(object_size, leaf_index);
            lemma_leaf_count_bounds(object_size);
        }
        if object_size == 0 {
            Self {
                closed: true,
                object_size: 0,
                leaf_index: 0,
                file_start: 0,
                file_stop: 0,
                leaf_start: 0,
                leaf_stop: 0,
                leaf_hash_start: 0,
                leaf_hash_stop: 0,
            }
        } else if object_size <= LEAF_SIZE {
            let closed = leaf_index > 0;
            let leaf_index: u64 = 0;
            let file_start: u64 = 0;
            let file_stop = object_size;
            let leaf_start = HEADER_LEN;
            let leaf_stop = leaf_start + object_size as usize;
            let leaf_hash_start = HEADER_LEN;
            let leaf_hash_stop = HEADER_LEN;
            Self {
                closed: closed,
                object_size: object_size,
                leaf_index: leaf_index,
                file_start: file_start,
                file_stop: file_stop,
                leaf_start: leaf_start,
                leaf_stop: leaf_stop,
                leaf_hash_start: leaf_hash_start,
                leaf_hash_stop: leaf_hash_stop,
            }
        } else {
            let count = get_leaf_count(object_size);
            let closed = if leaf_index < count {
                false
            } else {
                true
            };
            let leaf_index = if closed {
                count - 1
            } else {
                leaf_index
            };
            proof {
                vstd::arithmetic::mul::lemma_mul_inequality(
                    leaf_index as int,
                    count - 1,
                    LEAF_SIZE as int,
                );
            }
            let file_start = leaf_index * LEAF_SIZE;
            let file_stop = if object_size - file_start > LEAF_SIZE {
                file_start + LEAF_SIZE
            } else {
                object_size
            };
            let leaf_start = HEADER_LEN + TUB_HASH_LEN * count as usize;
            let leaf_stop = leaf_start + (file_stop - file_start) as usize;
            let leaf_hash_start = HEADER_LEN + leaf_index as usize * TUB_HASH_LEN;
            let leaf_hash_stop = leaf_hash_start + TUB_HASH_LEN;
            Self {
                closed: closed,
                object_size: object_size,
                leaf_index: leaf_index,
                file_start: file_start,
                file_stop: file_stop,
                leaf_start: leaf_start,
                leaf_stop: leaf_stop,
                leaf_hash_start: leaf_hash_start,
                leaf_hash_stop: leaf_hash_stop,
            }
        }
    }

    /// The state for the first leaf.
    pub fn new(object_size: u64) -> (r: Self)
        requires
            ranges_fit(object_size),
        ensures
            r == leaf_state(object_size, 0),
    {
        Self::new_raw(object_size, 0)
    }

    /// The state for the following leaf.
    pub fn next_leaf(self) -> (r: Self)
        requires
            ranges_fit(self.object_size),
            self.leaf_index < u64::MAX,
        ensures
            r == leaf_state(self.object_size, (self.leaf_index + 1) as u64),
    {
        Self::new_raw(self.object_size, self.leaf_index + 1)
    }

    pub fn is_small(&self) -> (r: bool)
        ensures
            r == (self.object_size > 0 && self.object_size <= LEAF_SIZE),
    {
        self.object_size > 0 && self.object_size <= LEAF_SIZE
    }

    pub fn is_large(&self) -> (r: bool)
        ensures
            r == (self.object_size > LEAF_SIZE),
    {
        self.object_size > 0 && !self.is_small()
    }

    pub fn can_read(&self) -> (r: bool)
        ensures
            r == (self.object_size > 0),
    {
        self.object_size > 0
    }

    pub fn can_write(&self) -> (r: bool)
        ensures
            r == (self.object_size > 0 && !self.closed),
    {
        self.object_size > 0 && !self.closed
    }

    pub fn leaf_hash_range(&self) -> (r: core::ops::Range<usize>)
        ensures
            r.start == self.leaf_hash_start,
            r.end == self.leaf_hash_stop,
    {
        self.leaf_hash_start..self.leaf_hash_stop
    }

    pub fn leaf_hashes_range(&self) -> (r: core::ops::Range<usize>)
        ensures
            r.start == HEADER_LEN,
            r.end == self.leaf_start,
    {
        HEADER_LEN..self.leaf_start
    }

    pub fn leaf_range(&self) -> (r: core::ops::Range<usize>)
        ensures
            r.start == self.leaf_start,
            r.end == self.leaf_stop,
    {
        self.leaf_start..self.leaf_stop
    }

    pub fn payload_range(&self) -> (r: core::ops::Range<usize>)
        ensures
            r.start == HEADER_LEN,
            r.end == if self.object_size > 0 && self.object_size <= LEAF_SIZE {
                self.leaf_stop
            } else {
                self.leaf_start
            },
    {
        let start = HEADER_LEN;
        let stop = if self.is_small() {
            self.leaf_stop
        } else {
            self.leaf_start
        };
        start..stop
    }

    pub fn commit_range(&self) -> (r: core::ops::Range<usize>)
        ensures
            r.start == 0,
            r.end == if self.object_size > 0 && self.object_size <= LEAF_SIZE {
                self.leaf_stop
            } else {
                self.leaf_start
            },
    {
        let stop = if self.is_small() {
            self.leaf_stop
        } else {
            self.leaf_start
        };
        0..stop
    }
}

// ---------------------------------------------------------------------------
// Buffers

/// `s` with `v` written over it from `at` on.
pub open spec fn splice(s: Seq<u8>, at: int, v: Seq<u8>) -> Seq<u8> {
    s.subrange(0, at) + v + s.subrange(at + v.len(), s.len() as int)
}

/// The root hash field of a header.
pub open spec fn header_hash(b: Seq<u8>) -> Seq<u8> {
    b.subrange(0, 30)
}

/// The size field of a header.
pub open spec fn header_size(b: Seq<u8>) -> u64 {
    u64_from_le(b.subrange(30, 38))
}

/// The payload hash field of a header.
pub open spec fn header_payload_hash(b: Seq<u8>) -> Seq<u8> {
    b.subrange(39, 69)
}

/// Where the payload ends: after the data of a small object, after the leaf
/// hashes of a large one.
pub open spec fn payload_end(s: LeafState) -> int {
    if s.object_size > 0 && s.object_size <= LEAF_SIZE {
        s.leaf_stop as int
    } else {
        s.leaf_start as int
    }
}

/// Whether the header holds the size, the hash of the payload and the root
/// hash that the payload gives.
pub open spec fn commit_valid(b: Seq<u8>, s: LeafState) -> bool {
    &&& header_size(b) == s.object_size
    &&& header_payload_hash(b) == tub_hash(payload_message(s.object_size, b.subrange(69, payload_end(s))))
    &&& header_hash(b) == tub_hash(root_message(s.object_size, header_payload_hash(b)))
}

/// What a splice keeps and what it writes.
pub proof fn lemma_splice(s: Seq<u8>, at: int, v: Seq<u8>)
    requires
        0 <= at,
        at + v.len() <= s.len(),
    ensures
        splice(s, at, v).len() == s.len(),
        forall|j: int|
            0 <= j < s.len() ==> #[trigger] splice(s, at, v)[j] == if at <= j < at + v.len() {
                v[j - at]
            } else {
                s[j]
            },
{
}

/// The slot of leaf `i`'s hash in a buffer.
pub open spec fn leaf_slot(b: Seq<u8>, i: int) -> Seq<u8> {
    b.subrange(HEADER_LEN + TUB_HASH_LEN * i, HEADER_LEN + TUB_HASH_LEN * (i + 1))
}

/// The root hash of a large object of `size` bytes whose leaves hash to
/// `hashes`: the hash of the size and the payload hash, which is the hash of
/// the size and the leaf hashes one after the other.
pub open spec fn large_root(size: u64, hashes: Seq<Seq<u8>>) -> Seq<u8> {
    tub_hash(root_message(size, tub_hash(payload_message(size, hashes.flatten()))))
}

/// Writing a hash into the slot of leaf `k` keeps the slot of every other
/// leaf.
pub proof fn lemma_slot_kept(b: Seq<u8>, k: int, h: Seq<u8>, j: int)
    requires
        0 <= k,
        0 <= j,
        j != k,
        h.len() == TUB_HASH_LEN,
        HEADER_LEN + TUB_HASH_LEN * (k + 1) <= b.len(),
        HEADER_LEN + TUB_HASH_LEN * (j + 1) <= b.len(),
    ensures
        leaf_slot(splice(b, HEADER_LEN + TUB_HASH_LEN * k, h), j) == leaf_slot(b, j),
        leaf_slot(splice(b, HEADER_LEN + TUB_HASH_LEN * k, h), k) == h,
{
    let at = HEADER_LEN + TUB_HASH_LEN * k;
    lemma_splice(b, at, h);
    assert(leaf_slot(splice(b, at, h), j) =~= leaf_slot(b, j));
    assert(leaf_slot(splice(b, at, h), k) =~= h);
}

proof fn lemma_slots_flatten(b: Seq<u8>, hashes: Seq<Seq<u8>>)
    requires
        b.len() >= HEADER_LEN + TUB_HASH_LEN * hashes.len(),
        forall|i: int| 0 <= i < hashes.len() ==> leaf_slot(b, i) == #[trigger] hashes[i],
    ensures
        b.subrange(HEADER_LEN as int, HEADER_LEN + TUB_HASH_LEN * hashes.len()) == hashes.flatten(),
    decreases hashes.len(),
{
    if hashes.len() == 0 {
        assert(b.subrange(HEADER_LEN as int, HEADER_LEN as int) =~= hashes.flatten());
    } else {
        let c = hashes.len() - 1;
        let front = hashes.drop_last();
        assert forall|i: int| 0 <= i < front.len() implies leaf_slot(b, i) == #[trigger] front[i] by {
            assert(front[i] == hashes[i]);
        }
        lemma_slots_flatten(b, front);
        assert(front.push(hashes[c]) =~= hashes);
        front.lemma_flatten_push(hashes[c]);
        assert(leaf_slot(b, c) == hashes[c]);
        assert(b.subrange(HEADER_LEN as int, HEADER_LEN + TUB_HASH_LEN * hashes.len()) =~= b.subrange(
            HEADER_LEN as int,
            HEADER_LEN + TUB_HASH_LEN * c,
        ) + leaf_slot(b, c));
    }
}

/// A large object whose leaf hash slots hold `hashes` and whose header was
/// then finalized (`commit_valid`) carries the root that the leaf hashes
/// give, and the payload hash of the leaf hashes.
pub proof fn lemma_large_root(b: Seq<u8>, size: u64, k: u64, hashes: Seq<Seq<u8>>)
    requires
        ranges_fit(size),
        size > LEAF_SIZE,
        b.len() >= leaf_state(size, k).leaf_start,
        hashes.len() == leaf_count(size as int),
        forall|i: int| 0 <= i < hashes.len() ==> leaf_slot(b, i) == #[trigger] hashes[i],
        commit_valid(b, leaf_state(size, k)),
    ensures
        header_payload_hash(b) == tub_hash(payload_message(size, hashes.flatten())),
        header_hash(b) == large_root(size, hashes),
{
    lemma_leaf_state(size, k);
    lemma_slots_flatten(b, hashes);
}

fn write_at(buf: &mut Vec<u8>, at: usize, src: &[u8])
    requires
        at + src@.len() <= old(buf)@.len(),
    ensures
        final(buf)@ == splice(old(buf)@, at as int, src@),
{
    let blen = buf.len();
    let mut i: usize = 0;
    while i < src.len()
        invariant
            at + src@.len() <= old(buf)@.len(),
            blen == old(buf)@.len(),
            i <= src@.len(),
            buf@.len() == old(buf)@.len(),
            forall|j: int| 0 <= j < at || at + src@.len() <= j < buf@.len() ==> #[trigger] buf@[j] == old(buf)@[j],
            forall|j: int| 0 <= j < i ==> #[trigger] buf@[at + j] == src@[j],
            forall|j: int| i <= j < src@.len() ==> #[trigger] buf@[at + j] == old(buf)@[at + j],
        decreases src@.len() - i,
    {
        buf.set(at + i, src[i]);
        i = i + 1;
    }
    assert(buf@ =~= splice(old(buf)@, at as int, src@)) by {
        assert forall|j: int| 0 <= j < buf@.len() implies buf@[j] == splice(old(buf)@, at as int, src@)[j] by {
            if at <= j < at + src@.len() {
                assert(buf@[at + (j - at)] == src@[j - at]);
            }
        }
    }
}

fn range_mut(s: &mut [u8], start: usize, end: usize) -> (r: &mut [u8])
    requires
        start <= end <= old(s)@.len(),
    ensures
        r@ == old(s)@.subrange(start as int, end as int),
        final(s)@ == old(s)@.subrange(0, start as int) + final(r)@ + old(s)@.subrange(
            end as int,
            old(s)@.len() as int,
        ),
{
    let (head, _tail) = s.split_at_mut(end);
    let (_front, mid) = head.split_at_mut(start);
    mid
}

/// Every leaf's ranges lie within the buffer sized for the first leaf,
/// after the header.
pub proof fn lemma_state_in_buffer(size: u64, k: u64)
    requires
        ranges_fit(size),
    ensures
        ({
            let s = leaf_state(size, k);
            let f = leaf_state(size, 0);
            &&& s.leaf_stop <= f.leaf_stop
            &&& s.leaf_start == f.leaf_start
            &&& s.object_size == size
            &&& s.leaf_start <= s.leaf_stop
            &&& s.leaf_hash_start <= s.leaf_hash_stop <= s.leaf_start
            &&& size > 0 ==> HEADER_LEN <= s.leaf_hash_start
            &&& size > 0 ==> HEADER_LEN <= s.leaf_start
            &&& size > LEAF_SIZE ==> s.leaf_hash_stop == s.leaf_hash_start + TUB_HASH_LEN
            &&& size > 0 ==> s.leaf_index < leaf_count(size as int) <= 0x200_0000_0000
            &&& size == 0 ==> s == f && f.leaf_stop == 0 && s.leaf_index == 0
            &&& payload_end(s) <= f.leaf_stop
            &&& size > 0 ==> HEADER_LEN <= payload_end(s)
        }),
{
    lemma_leaf_state(size, k);
    lemma_leaf_state(size, 0);
    lemma_leaf_count_bounds(size);
}

/// Buffer for an object's header, leaf hashes and one leaf.
pub struct TubBuf {
    buf: Vec<u8>,
    state: LeafState,
}

impl TubBuf {
    pub closed spec fn spec_buf(&self) -> Seq<u8> {
        self.buf@
    }

    pub closed spec fn spec_state(&self) -> LeafState {
        self.state
    }

    /// The state is one of the object's leaves, and the buffer is as long as
    /// the first leaf needs.
    pub closed spec fn wf(&self) -> bool {
        &&& ranges_fit(self.state.object_size)
        &&& exists|k: u64| self.state == leaf_state(self.state.object_size, k)
        &&& self.buf@.len() == leaf_state(self.state.object_size, 0).leaf_stop
    }

    /// A well-formed buffer is as long as the object's first leaf needs: at
    /// least a header for an object of some bytes, nothing for none. Its
    /// state is that of one of the object's leaves, and the current leaf,
    /// the slot of its hash and the payload lie within the buffer.
    pub proof fn lemma_len(&self)
        requires
            self.wf(),
        ensures
            self.spec_buf().len() == leaf_state(self.spec_state().object_size, 0).leaf_stop,
            self.spec_state().object_size > 0 ==> self.spec_buf().len() >= HEADER_LEN,
            self.spec_state().object_size == 0 ==> self.spec_buf().len() == 0,
            exists|k: u64| self.spec_state() == #[trigger] leaf_state(self.spec_state().object_size, k),
            ({
                let s = self.spec_state();
                &&& s.leaf_hash_start <= s.leaf_hash_stop <= s.leaf_start
                &&& s.leaf_start <= s.leaf_stop <= self.spec_buf().len()
                &&& payload_end(s) <= self.spec_buf().len()
                &&& s.object_size > 0 ==> HEADER_LEN <= payload_end(s)
            }),
    {
        self.lemma_wf();
        let k = choose|k: u64| self.state == leaf_state(self.state.object_size, k);
        assert(self.spec_state() == leaf_state(self.spec_state().object_size, k));
    }

    proof fn lemma_wf(&self)
        requires
            self.wf(),
        ensures
            ({
                let s = self.state;
                let size = s.object_size;
                &&& s.leaf_stop <= self.buf@.len()
                &&& s.leaf_start <= s.leaf_stop
                &&& s.leaf_hash_start <= s.leaf_hash_stop <= s.leaf_start
                &&& size > 0 ==> HEADER_LEN <= s.leaf_hash_start
                &&& size > 0 ==> HEADER_LEN <= s.leaf_start
                &&& size > LEAF_SIZE ==> s.leaf_hash_stop == s.leaf_hash_start + TUB_HASH_LEN
                &&& s.leaf_index < 0x200_0000_0000
                &&& size == 0 ==> self.buf@.len() == 0
                &&& payload_end(s) <= self.buf@.len()
                &&& size > 0 ==> HEADER_LEN <= payload_end(s)
                &&& s == leaf_state(size, s.leaf_index) || s == leaf_state(size, (s.leaf_index + 1) as u64)
            }),
    {
        let k = choose|k: u64| self.state == leaf_state(self.state.object_size, k);
        lemma_state_in_buffer(self.state.object_size, k);
        let size = self.state.object_size;
        lemma_leaf_count_bounds(size);
        if size > LEAF_SIZE {
            let count = leaf_count(size as int);
            if k >= count {
                assert(leaf_state(size, k) == leaf_state(size, (self.state.leaf_index + 1) as u64));
            }
        } else if size > 0 {
            if k > 0 {
                assert(leaf_state(size, k) == leaf_state(size, (self.state.leaf_index + 1) as u64));
            }
        }
    }

    pub fn new() -> (r: Self)
        ensures
            r.wf(),
            r.spec_state() == leaf_state(0, 0),
            r.spec_buf().len() == 0,
    {
        let r = Self { buf: Vec::new(), state: LeafState::new(0) };
        assert(r.state == leaf_state(r.state.object_size, 0));
        r
    }

    pub fn len(&self) -> (r: usize)
        ensures
            r == self.spec_buf().len(),
    {
        self.buf.len()
    }

    /// Makes room for an object of `size` bytes (zero filled) and goes to
    /// its first leaf.
    pub fn resize(&mut self, size: u64)
        requires
            ranges_fit(size),
        ensures
            final(self).wf(),
            final(self).spec_state() == leaf_state(size, 0),
            final(self).spec_buf() == Seq::new(leaf_state(size, 0).leaf_stop as nat, |i: int| 0u8),
            size > 0 ==> final(self).spec_buf().len() >= HEADER_LEN,
    {
        self.state = LeafState::new(size);
        self.buf.clear();
        let n = self.state.leaf_stop;
        let mut i: usize = 0;
        while i < n
            invariant
                i <= n,
                self.state == leaf_state(size, 0),
                n == self.state.leaf_stop,
                self.buf@ == Seq::new(i as nat, |j: int| 0u8),
            decreases n - i,
        {
            self.buf.push(0u8);
            i = i + 1;
            assert(self.buf@ =~= Seq::new(i as nat, |j: int| 0u8));
        }
        proof {
            lemma_leaf_state(size, 0);
            assert(self.state == leaf_state(self.state.object_size, 0u64));
        }
    }

    pub fn hash(&self) -> (r: [u8; 30])
        requires
            self.spec_buf().len() >= 30,
        ensures
            r@ == header_hash(self.spec_buf()),
    {
        let mut h = [0u8;30];
        let mut i: usize = 0;
        while i < 30
            invariant
                self.buf@.len() >= 30,
                i <= 30,
                forall|j: int| 0 <= j < i ==> h@[j] == self.buf@[j],
            decreases 30 - i,
        {
            h[i] = self.buf[i];
            i = i + 1;
        }
        assert(h@ =~= header_hash(self.buf@));
        h
    }

    pub fn payload_hash(&self) -> (r: [u8; 30])
        requires
            self.spec_buf().len() >= 69,
        ensures
            r@ == header_payload_hash(self.spec_buf()),
    {
        let mut h = [0u8;30];
        let mut i: usize = 0;
        while i < 30
            invariant
                self.buf@.len() >= 69,
                i <= 30,
                forall|j: int| 0 <= j < i ==> h@[j] == self.buf@[39 + j],
            decreases 30 - i,
        {
            h[i] = self.buf[39 + i];
            i = i + 1;
        }
        assert(h@ =~= header_payload_hash(self.buf@));
        h
    }

    pub fn size(&self) -> (r: u64)
        requires
            self.spec_buf().len() >= 38,
        ensures
            r == header_size(self.spec_buf()),
    {
        read_u64_le(vstd::slice::slice_subrange(self.buf.as_slice(), 30, 38))
    }

    fn compute_payload(&self) -> (r: [u8; 30])
        requires
            self.wf(),
            self.spec_state().object_size > 0,
        ensures
            r@ == tub_hash(
                payload_message(self.state.object_size, self.buf@.subrange(69, payload_end(self.state))),
            ),
    {
        proof {
            self.lemma_wf();
        }
        hash_payload(self.state.object_size, self.as_payload())
    }

    fn compute_root(&self) -> (r: [u8; 30])
        requires
            self.spec_buf().len() >= 69,
        ensures
            r@ == tub_hash(root_message(self.state.object_size, header_payload_hash(self.buf@))),
    {
        let ph = self.payload_hash();
        hash_root(self.state.object_size, &ph)
    }

    /// Hashes the current leaf into its slot and goes to the next leaf.
    pub fn hash_leaf(&mut self)
        requires
            old(self).wf(),
            old(self).spec_state().object_size > LEAF_SIZE,
        ensures
            final(self).wf(),
            final(self).spec_state() == leaf_state(
                old(self).spec_state().object_size,
                (old(self).spec_state().leaf_index + 1) as u64,
            ),
            final(self).spec_buf() == splice(
                old(self).spec_buf(),
                old(self).spec_state().leaf_hash_start as int,
                tub_hash(
                    leaf_message(
                        old(self).spec_state().leaf_index,
                        old(self).spec_buf().subrange(
                            old(self).spec_state().leaf_start as int,
                            old(self).spec_state().leaf_stop as int,
                        ),
                    ),
                ),
            ),
    {
        proof {
            self.lemma_wf();
        }
        let ghost old_state = self.state;
        let hash = hash_leaf(self.state.leaf_index, self.as_leaf());
        write_at(&mut self.buf, self.state.leaf_hash_start, &hash);
        proof {
            lemma_splice(old(self).buf@, old_state.leaf_hash_start as int, hash@);
        }
        self.state = self.state.next_leaf();
        proof {
            lemma_leaf_state(old_state.object_size, (old_state.leaf_index + 1) as u64);
            assert(self.state == leaf_state(self.state.object_size, (old_state.leaf_index + 1) as u64));
        }
    }

    /// Hashes the payload into the header.
    pub fn hash_payload(&mut self)
        requires
            old(self).wf(),
            old(self).spec_state().object_size > 0,
        ensures
            final(self).wf(),
            final(self).spec_state() == old(self).spec_state(),
            tub_hash(
                payload_message(
                    old(self).spec_state().object_size,
                    old(self).spec_buf().subrange(69, payload_end(old(self).spec_state())),
                ),
            ).len() == 30,
            final(self).spec_buf() == splice(
                old(self).spec_buf(),
                39,
                tub_hash(
                    payload_message(
                        old(self).spec_state().object_size,
                        old(self).spec_buf().subrange(69, payload_end(old(self).spec_state())),
                    ),
                ),
            ),
    {
        proof {
            self.lemma_wf();
        }
        let hash = self.compute_payload();
        write_at(&mut self.buf, 39, &hash);
    }

    /// Header and payload, as committed to a pack file.
    pub fn as_commit(&self) -> (r: &[u8])
        requires
            self.wf(),
            self.spec_state().object_size > 0,
        ensures
            r@ == self.spec_buf().subrange(0, payload_end(self.spec_state())),
    {
        proof {
            self.lemma_wf();
        }
        let range = self.state.commit_range();
        vstd::slice::slice_subrange(self.buf.as_slice(), range.start, range.end)
    }

    pub fn as_payload(&self) -> (r: &[u8])
        requires
            self.wf(),
            self.spec_state().object_size > 0,
        ensures
            r@ == self.spec_buf().subrange(69, payload_end(self.spec_state())),
    {
        proof {
            self.lemma_wf();
        }
        let range = self.state.payload_range();
        vstd::slice::slice_subrange(self.buf.as_slice(), range.start, range.end)
    }

    /// The slot of the current leaf's hash.
    pub fn as_leaf_hash(&self) -> (r: &[u8])
        requires
            self.wf(),
            self.spec_state().object_size > 0,
        ensures
            r@ == self.spec_buf().subrange(
                self.spec_state().leaf_hash_start as int,
                self.spec_state().leaf_hash_stop as int,
            ),
    {
        proof {
            self.lemma_wf();
        }
        let range = self.state.leaf_hash_range();
        vstd::slice::slice_subrange(self.buf.as_slice(), range.start, range.end)
    }

    pub fn as_leaf_hashes(&self) -> (r: &[u8])
        requires
            self.wf(),
            self.spec_state().object_size > 0,
        ensures
            r@ == self.spec_buf().subrange(69, self.spec_state().leaf_start as int),
    {
        proof {
            self.lemma_wf();
        }
        let range = self.state.leaf_hashes_range();
        vstd::slice::slice_subrange(self.buf.as_slice(), range.start, range.end)
    }

    pub fn as_leaf(&self) -> (r: &[u8])
        requires
            self.wf(),
            self.spec_state().object_size > 0,
        ensures
            r@ == self.spec_buf().subrange(
                self.spec_state().leaf_start as int,
                self.spec_state().leaf_stop as int,
            ),
    {
        proof {
            self.lemma_wf();
        }
        let range = self.state.leaf_range();
        vstd::slice::slice_subrange(self.buf.as_slice(), range.start, range.end)
    }

    pub fn as_mut_commit(&mut self) -> (r: &mut [u8])
        requires
            old(self).wf(),
            old(self).spec_state().object_size > 0,
            !old(self).spec_state().closed,
        ensures
            r@ == old(self).spec_buf().subrange(0, payload_end(old(self).spec_state())),
            final(self).spec_buf() == final(r)@ + old(self).spec_buf().subrange(
                payload_end(old(self).spec_state()),
                old(self).spec_buf().len() as int,
            ),
            final(self).spec_state() == old(self).spec_state(),
    {
        proof {
            self.lemma_wf();
        }
        let range = self.state.commit_range();
        range_mut(self.buf.as_mut_slice(), range.start, range.end)
    }

    pub fn as_mut_leaf(&mut self) -> (r: Option<&mut [u8]>)
        requires
            old(self).wf(),
        ensures
            r is Some <==> old(self).spec_state().object_size > 0 && !old(self).spec_state().closed,
            final(self).spec_state() == old(self).spec_state(),
            r is None ==> final(self).spec_buf() == old(self).spec_buf(),
            r matches Some(leaf) ==> {
                let s = old(self).spec_state();
                let b = old(self).spec_buf();
                &&& leaf@ == b.subrange(s.leaf_start as int, s.leaf_stop as int)
                &&& final(self).spec_buf() == b.subrange(0, s.leaf_start as int) + final(leaf)@
                    + b.subrange(s.leaf_stop as int, b.len() as int)
            },
    {
        proof {
            self.lemma_wf();
        }
        if self.state.can_write() {
            let range = self.state.leaf_range();
            Some(range_mut(self.buf.as_mut_slice(), range.start, range.end))
        } else {
            None
        }
    }

    /// Hashes `data` as a small object (at most one leaf), leaving it
    /// finalized in the buffer, and gives its root hash.
    pub fn hash_data(&mut self, data: &[u8]) -> (r: [u8; 30])
        requires
            old(self).wf(),
            !(old(self).spec_state().object_size > LEAF_SIZE),
            1 <= data@.len() <= LEAF_SIZE,
        ensures
            final(self).wf(),
            final(self).spec_state() == leaf_state(data@.len() as u64, 0),
            final(self).spec_buf().subrange(69, final(self).spec_buf().len() as int) == data@,
            commit_valid(final(self).spec_buf(), final(self).spec_state()),
            r@ == tub_hash(
                root_message(
                    data@.len() as u64,
                    tub_hash(payload_message(data@.len() as u64, data@)),
                ),
            ),
    {
        let size = data.len() as u64;
        proof {
            lemma_leaf_count_bounds(size);
        }
        self.resize(size);
        proof {
            self.lemma_wf();
        }
        write_at(&mut self.buf, HEADER_LEN, data);
        proof {
            assert(self.buf@.subrange(69, self.buf@.len() as int) =~= data@);
        }
        self.finalize();
        proof {
            assert(self.buf@.subrange(69, self.buf@.len() as int) =~= data@);
        }
        self.hash()
    }

    /// Whether the buffer holds a tombstone header: size zero and the hash
    /// of the tombstone in the leaf hash slot.
    pub fn is_tombstone(&self) -> (r: bool)
        requires
            self.spec_buf().len() == HEADER_LEN,
            self.spec_state().object_size == 0 || self.spec_state().leaf_hash_start
                <= self.spec_state().leaf_hash_stop <= HEADER_LEN,
        ensures
            r == (header_size(self.spec_buf()) == 0 && (if self.spec_state().object_size == 0 {
                header_payload_hash(self.spec_buf())
            } else {
                self.spec_buf().subrange(
                    self.spec_state().leaf_hash_start as int,
                    self.spec_state().leaf_hash_stop as int,
                )
            }) == tub_hash(tombstone_message(header_hash(self.spec_buf())))),
    {
        if self.size() != 0 {
            return false;
        }
        let slot = if self.state.object_size == 0 {
            vstd::slice::slice_subrange(self.buf.as_slice(), 39, 69)
        } else {
            vstd::slice::slice_subrange(
                self.buf.as_slice(),
                self.state.leaf_hash_start,
                self.state.leaf_hash_stop,
            )
        };
        let h = self.hash();
        let t = hash_tombstone(&h);
        bytes_equal(slot, &t)
    }

    pub fn is_small(&self) -> (r: bool)
        ensures
            r == (self.spec_state().object_size > 0 && self.spec_state().object_size <= LEAF_SIZE),
    {
        self.state.is_small()
    }

    pub fn is_large(&self) -> (r: bool)
        ensures
            r == (self.spec_state().object_size > LEAF_SIZE),
    {
        self.state.is_large()
    }

    /// Whether the header matches the payload (see `commit_valid`).
    pub fn is_valid_for_commit(&self) -> (r: bool)
        requires
            self.wf(),
            self.spec_state().object_size > 0,
        ensures
            r == commit_valid(self.spec_buf(), self.spec_state()),
    {
        proof {
            self.lemma_wf();
        }
        let size_ok = self.size() == self.state.object_size;
        let ph = self.payload_hash();
        let cp = self.compute_payload();
        let h = self.hash();
        let cr = self.compute_root();
        size_ok && bytes_equal(&ph, &cp) && bytes_equal(&h, &cr)
    }

    /// Writes the payload hash, the size and the root hash into the header;
    /// the header is then valid for commit.
    pub fn finalize(&mut self)
        requires
            old(self).wf(),
            old(self).spec_state().object_size > 0,
        ensures
            final(self).wf(),
            final(self).spec_state() == old(self).spec_state(),
            final(self).spec_buf().len() == old(self).spec_buf().len(),
            final(self).spec_buf().subrange(69, final(self).spec_buf().len() as int)
                == old(self).spec_buf().subrange(69, old(self).spec_buf().len() as int),
            final(self).spec_buf()[38] == old(self).spec_buf()[38],
            commit_valid(final(self).spec_buf(), final(self).spec_state()),
    {
        proof {
            self.lemma_wf();
        }
        let ghost b0 = self.buf@;
        self.hash_payload();
        let ghost b1 = self.buf@;
        proof {
            lemma_splice(b0, 39, tub_hash(payload_message(self.state.object_size, b0.subrange(69, payload_end(self.state)))));
        }
        let size_bytes = u64_le_bytes(self.state.object_size);
        write_at(&mut self.buf, 30, &size_bytes);
        let ghost b2 = self.buf@;
        proof {
            lemma_splice(b1, 30, size_bytes@);
        }
        let root = self.compute_root();
        write_at(&mut self.buf, 0, &root);
        proof {
            lemma_splice(b2, 0, root@);
            assert(b1.subrange(39, 69) =~= tub_hash(payload_message(self.state.object_size, b0.subrange(69, payload_end(self.state)))));
            let b = self.buf@;
            let s = self.state;
            lemma_u64_le_roundtrip(s.object_size);
            assert(b.subrange(69, b.len() as int) =~= b0.subrange(69, b0.len() as int));
            assert(b.subrange(30, 38) =~= le_bytes_u64(s.object_size));
            assert(b.subrange(39, 69) =~= tub_hash(payload_message(s.object_size, b0.subrange(69, payload_end(s)))));
            assert(b.subrange(69, payload_end(s)) =~= b0.subrange(69, payload_end(s)));
            assert(header_hash(b) =~= root@);
            assert(header_payload_hash(b) =~= header_payload_hash(b2));
        }
    }
}

/// Compares two byte strings.
fn bytes_equal(a: &[u8], b: &[u8]) -> (r: bool)
    ensures
        r == (a@ == b@),
{
    if a.len() != b.len() {
        return false;
    }
    let mut i: usize = 0;
    while i < a.len()
        invariant
            a@.len() == b@.len(),
            i <= a@.len(),
            forall|j: int| 0 <= j < i ==> a@[j] == b@[j],
        decreases a@.len() - i,
    {
        if a[i] != b[i] {
            return false;
        }
        i = i + 1;
    }
    assert(a@ =~= b@);
    true
}

/// Read-only view of a header.
pub struct Header<'a> {
    buf: &'a [u8],
}

impl<'a> Header<'a> {
    pub closed spec fn spec_buf(&self) -> Seq<u8> {
        self.buf@
    }

    pub fn new(buf: &'a [u8]) -> (r: Self)
        ensures
            r.spec_buf() == buf@,
    {
        Self { buf: buf }
    }

    pub fn as_root_hash(&self) -> (r: &[u8])
        requires
            self.spec_buf().len() >= 30,
        ensures
            r@ == self.spec_buf().subrange(0, 30),
    {
        vstd::slice::slice_subrange(self.buf, 0, 30)
    }

    pub fn as_size(&self) -> (r: &[u8])
        requires
            self.spec_buf().len() >= 38,
        ensures
            r@ == self.spec_buf().subrange(30, 38),
    {
        vstd::slice::slice_subrange(self.buf, 30, 38)
    }

    /// The root hash range: this accessor reads the same bytes as
    /// `as_root_hash`.
    pub fn as_payload_hash(&self) -> (r: &[u8])
        requires
            self.spec_buf().len() >= 30,
        ensures
            r@ == self.spec_buf().subrange(0, 30),
    {
        vstd::slice::slice_subrange(self.buf, 0, 30)
    }

    /// Everything of the header after the root hash.
    pub fn as_tail(&self) -> (r: &[u8])
        requires
            self.spec_buf().len() >= HEADER_LEN,
        ensures
            r@ == self.spec_buf().subrange(30, 69),
    {
        vstd::slice::slice_subrange(self.buf, 30, HEADER_LEN)
    }
}

/// A header read back from a pack file while rebuilding the index.
pub struct ReindexBuf {
    buf: [u8; 69],
}

impl View for ReindexBuf {
    type V = Seq<u8>;

    closed spec fn view(&self) -> Seq<u8> {
        self.buf@
    }
}

impl ReindexBuf {
    pub fn new() -> (r: Self)
        ensures
            r@ == Seq::new(69, |i: int| 0u8),
    {
        let r = Self { buf: [0u8;69] };
        assert(r.buf@ =~= Seq::new(69, |i: int| 0u8));
        r
    }

    /// Whether the header is that of an object: a size, and the root hash
    /// that the size and payload hash give.
    pub fn is_object(&self) -> (r: bool)
        ensures
            r == (header_size(self@) != 0 && header_hash(self@) == tub_hash(
                root_message(header_size(self@), header_payload_hash(self@)),
            )),
    {
        let size = self.size();
        if size == 0 {
            return false;
        }
        let h = self.hash();
        let ph = self.payload_hash();
        let root = hash_root(size, &ph);
        bytes_equal(&h, &root)
    }

    /// Whether the header is a tombstone: size zero, and the hash of the
    /// tombstone of the root hash in the payload hash field.
    pub fn is_tombstone(&self) -> (r: bool)
        ensures
            r == (header_size(self@) == 0 && header_payload_hash(self@) == tub_hash(
                tombstone_message(header_hash(self@)),
            )),
    {
        if self.size() != 0 {
            return false;
        }
        let h = self.hash();
        let ph = self.payload_hash();
        let t = hash_tombstone(&h);
        bytes_equal(&ph, &t)
    }

    pub fn as_mut_buf(&mut self) -> (r: &mut [u8])
        ensures
            r@ == old(self)@,
            final(self)@ == final(r)@,
    {
        &mut self.buf
    }

    pub fn size(&self) -> (r: u64)
        ensures
            r == header_size(self@),
    {
        read_u64_le(vstd::slice::slice_subrange(self.buf.as_slice(), 30, 38))
    }

    pub fn hash(&self) -> (r: [u8; 30])
        ensures
            r@ == header_hash(self@),
    {
        let mut h = [0u8;30];
        let mut i: usize = 0;
        while i < 30
            invariant
                i <= 30,
                forall|j: int| 0 <= j < i ==> h@[j] == self.buf@[j],
            decreases 30 - i,
        {
            h[i] = self.buf[i];
            i = i + 1;
        }
        assert(h@ =~= header_hash(self.buf@));
        h
    }

    pub fn payload_hash(&self) -> (r: [u8; 30])
        ensures
            r@ == header_payload_hash(self@),
    {
        let mut h = [0u8;30];
        let mut i: usize = 0;
        while i < 30
            invariant
                i <= 30,
                forall|j: int| 0 <= j < i ==> h@[j] == self.buf@[39 + j],
            decreases 30 - i,
        {
            h[i] = self.buf[39 + i];
            i = i + 1;
        }
        assert(h@ =~= header_payload_hash(self.buf@));
        h
    }

    /// How many bytes the entry takes in a pack file: the header, and the
    /// leaf hashes of a large object or the data of a small one.
    pub fn offset_size(&self) -> (r: u64)
        ensures
            r == HEADER_LEN + if header_size(self@) > LEAF_SIZE {
                TUB_HASH_LEN * leaf_count(header_size(self@) as int)
            } else {
                header_size(self@) as int
            },
    {
        let size = self.size();
        let body = if size > LEAF_SIZE {
            get_leaf_payload_size(size)
        } else {
            size
        };
        proof {
            lemma_leaf_count_bounds(size);
        }
        HEADER_LEN as u64 + body
    }

    pub fn reset(&mut self)
        ensures
            final(self)@ == Seq::new(69, |i: int| 0u8),
    {
        self.buf = [0u8;69];
        assert(self.buf@ =~= Seq::new(69, |i: int| 0u8));
    }
}

} // verus!
