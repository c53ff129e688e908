//! A tree of object names, each filed under a random abstract id, kept sorted
//! by id.

use vstd::prelude::*;
use crate::base::{TubHash, TubId};
use crate::namemap::{bytes_sorted, lemma_bytes_sorted_unique, lemma_sorted_insert};
use crate::strmap::{pairs_map, keys_unique, lemma_pairs_map};
use crate::text::{bytes_less, compare_bytes, lemma_bytes_less_order};
use crate::util::getrandom;

verus! {

/// An abstract id and the object name filed under it.
struct AOPair {
    id: TubId,
    obj_id: TubHash,
}

/// The wire form of the pairs: a zero byte, then each id and its object
/// name in order.
pub open spec fn tree_bytes(pairs: Seq<(Seq<u8>, Seq<u8>)>) -> Seq<u8> {
    seq![0u8] + pairs_concat(pairs)
}

/// Each id then its object name, one pair after the other.
pub open spec fn pairs_concat(pairs: Seq<(Seq<u8>, Seq<u8>)>) -> Seq<u8>
    decreases pairs.len(),
{
    if pairs.len() == 0 {
        Seq::empty()
    } else {
        pairs_concat(pairs.drop_last()) + pairs.last().0 + pairs.last().1
    }
}

/// Object names filed under abstract ids, with a read position.
pub struct Tree {
    ids: Vec<AOPair>,
    /// How many ids have been read.
    pub cur: usize,
}

impl View for Tree {
    type V = Map<Seq<u8>, Seq<u8>>;

    closed spec fn view(&self) -> Map<Seq<u8>, Seq<u8>> {
        pairs_map(self.spec_pairs())
    }
}

impl Tree {
    /// The ids and object names in ascending order of id.
    pub closed spec fn spec_pairs(&self) -> Seq<(Seq<u8>, Seq<u8>)> {
        Seq::new(self.ids@.len(), |i: int| (self.ids@[i].id@, self.ids@[i].obj_id@))
    }

    /// How many ids have been read.
    pub closed spec fn spec_cur(&self) -> usize {
        self.cur
    }

    pub closed spec fn wf(&self) -> bool {
        bytes_sorted(self.spec_pairs())
    }

    /// The pairs are those of the map, in ascending order of id, each id of
    /// 15 bytes and each name of 30.
    pub proof fn lemma_pairs(&self)
        requires
            self.wf(),
        ensures
            self@ == pairs_map(self.spec_pairs()),
            keys_unique(self.spec_pairs()),
            forall|k: Seq<u8>| #[trigger]
                self@.contains_key(k) <==> exists|i: int|
                    0 <= i < self.spec_pairs().len() && self.spec_pairs()[i].0 == k,
            forall|i: int|
                0 <= i < self.spec_pairs().len() ==> #[trigger] self@[self.spec_pairs()[i].0]
                    == self.spec_pairs()[i].1,
            self@.len() == self.spec_pairs().len(),
            forall|i: int|
                0 <= i < self.spec_pairs().len() ==> (#[trigger] self.spec_pairs()[i]).0.len() == 15
                    && self.spec_pairs()[i].1.len() == 30,
    {
        lemma_bytes_sorted_unique(self.spec_pairs());
        lemma_pairs_map(self.spec_pairs());
    }

    pub fn new() -> (r: Self)
        ensures
            r.wf(),
            r.spec_pairs().len() == 0,
            r@ == Map::<Seq<u8>, Seq<u8>>::empty(),
            r.spec_cur() == 0,
    {
        let r = Self { ids: Vec::new(), cur: 0 };
        assert(r.spec_pairs() =~= Seq::<(Seq<u8>, Seq<u8>)>::empty());
        r
    }

    pub fn len(&self) -> (r: usize)
        ensures
            r == self.spec_pairs().len(),
    {
        self.ids.len()
    }

    /// Binary search for `id`: its position, or where it would go.
    fn search(&self, id: &TubId) -> (r: (usize, bool))
        requires
            self.wf(),
        ensures
            r.0 <= self.spec_pairs().len(),
            r.1 ==> r.0 < self.spec_pairs().len() && self.spec_pairs()[r.0 as int].0 == id@,
            !r.1 ==> forall|j: int| 0 <= j < r.0 ==> bytes_less(#[trigger] self.spec_pairs()[j].0, id@),
            !r.1 ==> forall|j: int|
                r.0 <= j < self.spec_pairs().len() ==> bytes_less(id@, #[trigger] self.spec_pairs()[j].0),
    {
        let ghost p = self.spec_pairs();
        let mut lo: usize = 0;
        let mut hi: usize = self.ids.len();
        while lo < hi
            invariant
                self.wf(),
                p == self.spec_pairs(),
                lo <= hi <= p.len(),
                p.len() == self.ids@.len(),
                forall|j: int| 0 <= j < lo ==> bytes_less(#[trigger] p[j].0, id@),
                forall|j: int| hi <= j < p.len() ==> bytes_less(id@, #[trigger] p[j].0),
            decreases hi - lo,
        {
            let mid = lo + (hi - lo) / 2;
            let c = compare_bytes(self.ids[mid].id.as_slice(), id.as_slice());
            proof {
                assert(p[mid as int].0 == self.ids@[mid as int].id@);
            }
            if c == 0 {
                return (mid, true);
            } else if c < 0 {
                proof {
                    assert forall|j: int| 0 <= j < mid + 1 implies bytes_less(#[trigger] p[j].0, id@) by {
                        if j < mid {
                            lemma_bytes_less_order(p[j].0, p[mid as int].0, id@);
                        }
                    }
                }
                lo = mid + 1;
            } else {
                proof {
                    assert forall|j: int| mid <= j < p.len() implies bytes_less(id@, #[trigger] p[j].0) by {
                        if j > mid {
                            lemma_bytes_less_order(id@, p[mid as int].0, p[j].0);
                        }
                    }
                }
                hi = mid;
            }
        }
        (lo, false)
    }

    /// Whether `id` is absent, given the order on both sides of `i`.
    proof fn lemma_absent(&self, k: Seq<u8>, i: int)
        requires
            self.wf(),
            0 <= i <= self.spec_pairs().len(),
            forall|j: int| 0 <= j < i ==> bytes_less(#[trigger] self.spec_pairs()[j].0, k),
            forall|j: int| i <= j < self.spec_pairs().len() ==> bytes_less(k, #[trigger] self.spec_pairs()[j].0),
        ensures
            !self@.contains_key(k),
    {
        self.lemma_pairs();
        let p = self.spec_pairs();
        lemma_bytes_less_order(k, k, k);
        if self@.contains_key(k) {
            let j = choose|j: int| 0 <= j < p.len() && p[j].0 == k;
            if j < i {
                assert(bytes_less(p[j].0, k));
            } else {
                assert(bytes_less(k, p[j].0));
            }
        }
    }

    /// Files `obj_id` under `abs_id`, unless that id is taken already.
    pub fn add_with_abs_id(&mut self, abs_id: &TubId, obj_id: &TubHash)
        requires
            old(self).wf(),
        ensures
            final(self).wf(),
            final(self)@ == if old(self)@.contains_key(abs_id@) {
                old(self)@
            } else {
                old(self)@.insert(abs_id@, obj_id@)
            },
            final(self).spec_cur() == old(self).spec_cur(),
    {
        proof {
            self.lemma_pairs();
        }
        let ghost p = self.spec_pairs();
        let (pos, found) = self.search(abs_id);
        if found {
            proof {
                assert(p[pos as int].0 == abs_id@);
            }
        } else {
            proof {
                self.lemma_absent(abs_id@, pos as int);
            }
            self.ids.insert(pos, AOPair { id: *abs_id, obj_id: *obj_id });
            proof {
                assert(self.spec_pairs() =~= p.insert(pos as int, (abs_id@, obj_id@)));
                lemma_sorted_insert(p, pos as int, abs_id@, obj_id@);
            }
        }
    }

    /// Files `obj_id` under a fresh random id (nothing is filed when the id
    /// drawn is taken already); says whether a random id could be drawn, and
    /// changes nothing when not.
    pub fn add(&mut self, obj_id: &TubHash) -> (drawn: bool)
        requires
            old(self).wf(),
        ensures
            final(self).wf(),
            drawn ==> exists|id: Seq<u8>|
                #![trigger old(self)@.contains_key(id)]
                id.len() == 15 && final(self)@ == if old(self)@.contains_key(id) {
                    old(self)@
                } else {
                    old(self)@.insert(id, obj_id@)
                },
            !drawn ==> final(self)@ == old(self)@,
            final(self).spec_cur() == old(self).spec_cur(),
    {
        let mut id = [0u8;15];
        if !getrandom(&mut id) {
            return false;
        }
        self.add_with_abs_id(&id, obj_id);
        assert(old(self)@.contains_key(id@) || !old(self)@.contains_key(id@));
        true
    }

    /// The id at the read position, which moves on by one.
    pub fn read_next_id(&mut self) -> (r: TubId)
        requires
            old(self).spec_cur() < old(self).spec_pairs().len(),
        ensures
            r@ == old(self).spec_pairs()[old(self).spec_cur() as int].0,
            final(self).spec_cur() == old(self).spec_cur() + 1,
            final(self).spec_pairs() == old(self).spec_pairs(),
    {
        let n = self.ids.len();
        let r = self.ids[self.cur].id;
        self.cur = self.cur + 1;
        r
    }

    /// The object name filed under `abstract_id`: the search starts where
    /// the id's first byte would put it if ids were spread evenly, and walks
    /// towards it.
    pub fn get_object_id(&mut self, abstract_id: TubId) -> (r: TubHash)
        requires
            old(self).wf(),
            old(self)@.contains_key(abstract_id@),
        ensures
            r@ == old(self)@[abstract_id@],
            *final(self) == *old(self),
    {
        proof {
            self.lemma_pairs();
        }
        let ghost p = self.spec_pairs();
        let ghost k = choose|k: int| 0 <= k < p.len() && p[k].0 == abstract_id@;
        let len = self.ids.len();
        let first = abstract_id[0] as usize;
        proof {
            assert(first * len <= 255 * len) by (nonlinear_arith)
                requires
                    first <= 255,
            ;
            assert((first * len) / 256 < len) by (nonlinear_arith)
                requires
                    first <= 255,
                    len > 0,
            ;
        }
        let mut i: usize = ((first as u128 * len as u128) / 256) as usize;
        let mut c = compare_bytes(abstract_id.as_slice(), self.ids[i].id.as_slice());
        while c != 0
            invariant
                self.wf(),
                p == self.spec_pairs(),
                p.len() == len,
                len == self.ids@.len(),
                0 <= k < len,
                p[k].0 == abstract_id@,
                0 <= i < len,
                c < 0 <==> bytes_less(abstract_id@, p[i as int].0),
                c == 0 <==> abstract_id@ == p[i as int].0,
                c > 0 <==> bytes_less(p[i as int].0, abstract_id@),
            decreases if i < k { k - i } else { i - k },
        {
            proof {
                lemma_bytes_less_order(p[i as int].0, abstract_id@, abstract_id@);
                lemma_bytes_less_order(abstract_id@, p[i as int].0, abstract_id@);
                if i < k {
                    assert(bytes_less(p[i as int].0, p[k].0));
                }
                if i > k {
                    assert(bytes_less(p[k].0, p[i as int].0));
                }
            }
            if c < 0 {
                i = i - 1;
            } else {
                i = i + 1;
            }
            c = compare_bytes(abstract_id.as_slice(), self.ids[i].id.as_slice());
            proof {
                assert(p[i as int].0 == self.ids@[i as int].id@);
            }
        }
        proof {
            assert(p[i as int].0 == self.ids@[i as int].id@);
            if i != k {
                assert(p[i as int].0 != p[k].0);
            }
        }
        self.ids[i].obj_id
    }

    /// The wire form: a zero byte, then each id and object name in order.
    pub fn get_tree_object(&mut self) -> (r: Vec<u8>)
        ensures
            r@ == tree_bytes(old(self).spec_pairs()),
            r@.len() == 1 + 45 * old(self).spec_pairs().len(),
            *final(self) == *old(self),
    {
        let ghost p = self.spec_pairs();
        let mut obj: Vec<u8> = Vec::new();
        obj.push(0u8);
        let n = self.ids.len();
        let mut el: usize = 0;
        proof {
            assert(p.take(0) =~= Seq::<(Seq<u8>, Seq<u8>)>::empty());
            assert(obj@ =~= tree_bytes(p.take(0)));
        }
        while el < n
            invariant
                p == self.spec_pairs(),
                n == p.len(),
                el <= n,
                obj@ == tree_bytes(p.take(el as int)),
            decreases n - el,
        {
            let ghost before = obj@;
            obj.extend_from_slice(self.ids[el].id.as_slice());
            obj.extend_from_slice(self.ids[el].obj_id.as_slice());
            proof {
                assert(p.take(el + 1).drop_last() =~= p.take(el as int));
                assert(p.take(el + 1).last() == p[el as int]);
                assert(obj@ =~= tree_bytes(p.take(el + 1)));
            }
            el = el + 1;
        }
        proof {
            assert(p.take(n as int) =~= p);
            assert forall|i: int| 0 <= i < p.len() implies (#[trigger] p[i]).0.len() == 15
                && p[i].1.len() == 30 by {
                assert(p[i] == (self.ids@[i].id@, self.ids@[i].obj_id@));
            }
            lemma_pairs_concat(p);
        }
        obj
    }

    /// The next id, moving the read position on by one; `None` past the end.
    pub fn next(&mut self) -> (r: Option<TubId>)
        requires
            old(self).spec_cur() < usize::MAX,
        ensures
            final(self).spec_cur() == old(self).spec_cur() + 1,
            final(self).spec_pairs() == old(self).spec_pairs(),
            r is Some <==> old(self).spec_cur() < old(self).spec_pairs().len(),
            r matches Some(id) ==> id@ == old(self).spec_pairs()[old(self).spec_cur() as int].0,
    {
        self.cur = self.cur + 1;
        if self.cur <= self.ids.len() {
            Some(self.ids[self.cur - 1].id)
        } else {
            None
        }
    }

    /// The id at position `n`.
    pub fn nth(&mut self, n: usize) -> (r: Option<TubId>)
        requires
            n < old(self).spec_pairs().len(),
        ensures
            r matches Some(id) && id@ == old(self).spec_pairs()[n as int].0,
            *final(self) == *old(self),
    {
        Some(self.ids[n].id)
    }
}

/// The pairs laid out one after the other take 45 bytes each, pair `i`'s
/// id at bytes `45 * i` to `45 * i + 15` and its object name in the 30
/// bytes after, when every id has 15 bytes and every name 30.
pub proof fn lemma_pairs_concat(pairs: Seq<(Seq<u8>, Seq<u8>)>)
    requires
        forall|i: int| 0 <= i < pairs.len() ==> (#[trigger] pairs[i]).0.len() == 15 && pairs[i].1.len() == 30,
    ensures
        pairs_concat(pairs).len() == 45 * pairs.len(),
        forall|i: int|
            0 <= i < pairs.len() ==> {
                &&& #[trigger] pairs_concat(pairs).subrange(45 * i, 45 * i + 15) == pairs[i].0
                &&& pairs_concat(pairs).subrange(45 * i + 15, 45 * i + 45) == pairs[i].1
            },
    decreases pairs.len(),
{
    if pairs.len() > 0 {
        let front = pairs.drop_last();
        assert forall|i: int| 0 <= i < front.len() implies (#[trigger] front[i]).0.len() == 15
            && front[i].1.len() == 30 by {
            assert(front[i] == pairs[i]);
        }
        lemma_pairs_concat(front);
        let pf = pairs_concat(front);
        let last = pairs.last();
        let whole = pairs_concat(pairs);
        assert(whole == pf + last.0 + last.1);
        let n = front.len() as int;
        assert forall|i: int| 0 <= i < pairs.len() implies {
            &&& #[trigger] pairs_concat(pairs).subrange(45 * i, 45 * i + 15) == pairs[i].0
            &&& pairs_concat(pairs).subrange(45 * i + 15, 45 * i + 45) == pairs[i].1
        } by {
            if i < n {
                assert(pairs[i] == front[i]);
                assert(pf.subrange(45 * i, 45 * i + 15) == front[i].0);
                assert(pf.subrange(45 * i + 15, 45 * i + 45) == front[i].1);
                assert(whole.subrange(45 * i, 45 * i + 15) =~= pf.subrange(45 * i, 45 * i + 15));
                assert(whole.subrange(45 * i + 15, 45 * i + 45) =~= pf.subrange(
                    45 * i + 15,
                    45 * i + 45,
                ));
            } else {
                assert(i == n);
                assert(whole.subrange(45 * i, 45 * i + 15) =~= last.0);
                assert(whole.subrange(45 * i + 15, 45 * i + 45) =~= last.1);
            }
        }
    }
}

/// The tree object holds every pair of the tree, in id order: after its
/// zero byte, pair `i`'s 15-byte id stands at byte `1 + 45 * i` and its
/// 30-byte object name right after, so it is `1 + 45 * len` bytes long.
pub proof fn lemma_tree_object(t: &Tree)
    requires
        t.wf(),
    ensures
        ({
            let p = t.spec_pairs();
            let b = tree_bytes(p);
            &&& b.len() == 1 + 45 * p.len()
            &&& b[0] == 0
            &&& forall|i: int|
                0 <= i < p.len() ==> {
                    &&& #[trigger] b.subrange(1 + 45 * i, 1 + 45 * i + 15) == p[i].0
                    &&& b.subrange(1 + 45 * i + 15, 1 + 45 * i + 45) == p[i].1
                    &&& t@[b.subrange(1 + 45 * i, 1 + 45 * i + 15)] == b.subrange(
                        1 + 45 * i + 15,
                        1 + 45 * i + 45,
                    )
                }
        }),
{
    t.lemma_pairs();
    let p = t.spec_pairs();
    lemma_pairs_concat(p);
    let c = pairs_concat(p);
    let b = tree_bytes(p);
    assert forall|i: int| 0 <= i < p.len() implies {
        &&& #[trigger] b.subrange(1 + 45 * i, 1 + 45 * i + 15) == p[i].0
        &&& b.subrange(1 + 45 * i + 15, 1 + 45 * i + 45) == p[i].1
        &&& t@[b.subrange(1 + 45 * i, 1 + 45 * i + 15)] == b.subrange(1 + 45 * i + 15, 1 + 45 * i + 45)
    } by {
        assert(c.subrange(45 * i, 45 * i + 15) == p[i].0);
        assert(c.subrange(45 * i + 15, 45 * i + 45) == p[i].1);
        assert(b.subrange(1 + 45 * i, 1 + 45 * i + 15) =~= c.subrange(45 * i, 45 * i + 15));
        assert(b.subrange(1 + 45 * i + 15, 1 + 45 * i + 45) =~= c.subrange(45 * i + 15, 45 * i + 45));
        assert(t@[p[i].0] == p[i].1);
    }
}

/// The name filed under a free id (as `add_with_abs_id` files it) is the
/// name `get_object_id` finds under that id, and every other id keeps what
/// it had; filing under a taken id changes nothing.
pub proof fn lemma_add_then_get(before: Map<Seq<u8>, Seq<u8>>, id: Seq<u8>, obj: Seq<u8>)
    ensures
        ({
            let after = if before.contains_key(id) { before } else { before.insert(id, obj) };
            &&& after.contains_key(id)
            &&& !before.contains_key(id) ==> after[id] == obj
            &&& before.contains_key(id) ==> after == before
            &&& forall|k: Seq<u8>| k != id ==> (#[trigger] after.contains_key(k) == before.contains_key(k))
            &&& forall|k: Seq<u8>| k != id && before.contains_key(k) ==> #[trigger] after[k] == before[k]
        }),
{
}

} // verus!
