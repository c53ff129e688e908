//! A map keyed by fixed-size names, kept as a vector sorted by the names'
//! bytes.

use vstd::prelude::*;
use crate::chaos::Name;
use crate::strmap::{pairs_map, keys_unique, lemma_pairs_map};
use crate::text::{bytes_less, compare_bytes, lemma_bytes_less_order};

verus! {

/// The keys ascend strictly in byte order.
pub open spec fn bytes_sorted<W>(s: Seq<(Seq<u8>, W)>) -> bool {
    forall|i: int, j: int| 0 <= i < j < s.len() ==> bytes_less(#[trigger] s[i].0, #[trigger] s[j].0)
}

/// Strictly sorted keys are unique.
pub proof fn lemma_bytes_sorted_unique<W>(s: Seq<(Seq<u8>, W)>)
    requires
        bytes_sorted(s),
    ensures
        keys_unique(s),
{
    assert forall|i: int, j: int| 0 <= i < j < s.len() implies #[trigger] s[i].0
        != #[trigger] s[j].0 by {
        lemma_bytes_less_order(s[i].0, s[j].0, s[j].0);
    }
}

/// Replacing the value of a present key.
pub proof fn lemma_sorted_update<W>(s: Seq<(Seq<u8>, W)>, i: int, k: Seq<u8>, v: W)
    requires
        bytes_sorted(s),
        0 <= i < s.len(),
        s[i].0 == k,
    ensures
        bytes_sorted(s.update(i, (k, v))),
        pairs_map(s.update(i, (k, v))) == pairs_map(s).insert(k, v),
{
    let t = s.update(i, (k, v));
    assert(bytes_sorted(t)) by {
        assert forall|a: int, b: int| 0 <= a < b < t.len() implies bytes_less(
            #[trigger] t[a].0,
            #[trigger] t[b].0,
        ) by {
            assert(t[a].0 == s[a].0 && t[b].0 == s[b].0);
        }
    }
    lemma_bytes_sorted_unique(s);
    lemma_bytes_sorted_unique(t);
    lemma_pairs_map(s);
    lemma_pairs_map(t);
    assert forall|q: Seq<u8>| #[trigger] pairs_map(t).contains_key(q) <==> pairs_map(s).insert(
        k,
        v,
    ).contains_key(q) by {
        if pairs_map(t).contains_key(q) {
            let j = choose|j: int| 0 <= j < t.len() && t[j].0 == q;
            assert(s[j].0 == q);
        }
        if pairs_map(s).contains_key(q) {
            let j = choose|j: int| 0 <= j < s.len() && s[j].0 == q;
            assert(t[j].0 == q);
        }
        if q == k {
            assert(t[i].0 == q);
        }
    }
    assert forall|q: Seq<u8>| #[trigger] pairs_map(t).contains_key(q) implies pairs_map(t)[q]
        == pairs_map(s).insert(k, v)[q] by {
        let j = choose|j: int| 0 <= j < t.len() && t[j].0 == q;
        if j != i {
            assert(t[j] == s[j]);
        }
    }
    assert(pairs_map(t) =~= pairs_map(s).insert(k, v));
}

/// Inserting a new key at its sorted position.
pub proof fn lemma_sorted_insert<W>(s: Seq<(Seq<u8>, W)>, i: int, k: Seq<u8>, v: W)
    requires
        bytes_sorted(s),
        0 <= i <= s.len(),
        forall|j: int| 0 <= j < i ==> bytes_less(#[trigger] s[j].0, k),
        forall|j: int| i <= j < s.len() ==> bytes_less(k, #[trigger] s[j].0),
    ensures
        bytes_sorted(s.insert(i, (k, v))),
        pairs_map(s.insert(i, (k, v))) == pairs_map(s).insert(k, v),
{
    let t = s.insert(i, (k, v));
    assert(bytes_sorted(t)) by {
        assert forall|a: int, b: int| 0 <= a < b < t.len() implies bytes_less(
            #[trigger] t[a].0,
            #[trigger] t[b].0,
        ) by {
            if a < i && b < i {
                assert(t[a] == s[a] && t[b] == s[b]);
            } else if a < i && b == i {
                assert(t[a] == s[a]);
            } else if a < i {
                assert(t[a] == s[a] && t[b] == s[b - 1]);
                lemma_bytes_less_order(s[a].0, k, s[b - 1].0);
            } else if a == i {
                assert(t[b] == s[b - 1]);
            } else {
                assert(t[a] == s[a - 1] && t[b] == s[b - 1]);
            }
        }
    }
    lemma_bytes_sorted_unique(s);
    lemma_bytes_sorted_unique(t);
    lemma_pairs_map(s);
    lemma_pairs_map(t);
    lemma_bytes_less_order(k, k, k);
    assert forall|q: Seq<u8>| #[trigger] pairs_map(t).contains_key(q) <==> pairs_map(s).insert(
        k,
        v,
    ).contains_key(q) by {
        if pairs_map(t).contains_key(q) {
            let j = choose|j: int| 0 <= j < t.len() && t[j].0 == q;
            if j < i {
                assert(s[j].0 == q);
            } else if j > i {
                assert(s[j - 1].0 == q);
            }
        }
        if pairs_map(s).contains_key(q) {
            let j = choose|j: int| 0 <= j < s.len() && s[j].0 == q;
            if j < i {
                assert(t[j].0 == q);
            } else {
                assert(t[j + 1].0 == q);
            }
        }
        if q == k {
            assert(t[i].0 == q);
        }
    }
    assert forall|q: Seq<u8>| #[trigger] pairs_map(t).contains_key(q) implies pairs_map(t)[q]
        == pairs_map(s).insert(k, v)[q] by {
        let j = choose|j: int| 0 <= j < t.len() && t[j].0 == q;
        if j < i {
            assert(t[j] == s[j]);
        } else if j > i {
            assert(t[j] == s[j - 1]);
        }
    }
    assert(pairs_map(t) =~= pairs_map(s).insert(k, v));
}

/// Removing a present key.
pub proof fn lemma_sorted_remove<W>(s: Seq<(Seq<u8>, W)>, i: int)
    requires
        bytes_sorted(s),
        0 <= i < s.len(),
    ensures
        bytes_sorted(s.remove(i)),
        pairs_map(s.remove(i)) == pairs_map(s).remove(s[i].0),
{
    let t = s.remove(i);
    let k = s[i].0;
    assert(bytes_sorted(t)) by {
        assert forall|a: int, b: int| 0 <= a < b < t.len() implies bytes_less(
            #[trigger] t[a].0,
            #[trigger] t[b].0,
        ) by {
            if b < i {
                assert(t[a] == s[a] && t[b] == s[b]);
            } else if a < i {
                assert(t[a] == s[a] && t[b] == s[b + 1]);
            } else {
                assert(t[a] == s[a + 1] && t[b] == s[b + 1]);
            }
        }
    }
    lemma_bytes_sorted_unique(s);
    lemma_bytes_sorted_unique(t);
    lemma_pairs_map(s);
    lemma_pairs_map(t);
    assert forall|q: Seq<u8>| #[trigger] pairs_map(t).contains_key(q) <==> pairs_map(s).remove(
        k,
    ).contains_key(q) by {
        if pairs_map(t).contains_key(q) {
            let j = choose|j: int| 0 <= j < t.len() && t[j].0 == q;
            if j < i {
                assert(s[j].0 == q);
            } else {
                assert(s[j + 1].0 == q);
            }
        }
        if pairs_map(s).contains_key(q) && q != k {
            let j = choose|j: int| 0 <= j < s.len() && s[j].0 == q;
            if j < i {
                assert(t[j].0 == q);
            } else {
                assert(j != i);
                assert(t[j - 1].0 == q);
            }
        }
    }
    assert forall|q: Seq<u8>| #[trigger] pairs_map(t).contains_key(q) implies pairs_map(t)[q]
        == pairs_map(s).remove(k)[q] by {
        let j = choose|j: int| 0 <= j < t.len() && t[j].0 == q;
        if j < i {
            assert(t[j] == s[j]);
        } else {
            assert(t[j] == s[j + 1]);
        }
    }
    assert(pairs_map(t) =~= pairs_map(s).remove(k));
}

/// A map from names to values, sorted by name.
#[derive(Debug)]
pub struct NameMap<const N: usize, V> {
    entries: Vec<(Name<N>, V)>,
}

impl<const N: usize, V: View> View for NameMap<N, V> {
    type V = Map<Seq<u8>, V::V>;

    closed spec fn view(&self) -> Map<Seq<u8>, V::V> {
        pairs_map(self.spec_pairs())
    }
}

impl<const N: usize, V: View> NameMap<N, V> {
    /// The pairs in ascending order of name.
    pub closed spec fn spec_pairs(&self) -> Seq<(Seq<u8>, V::V)> {
        Seq::new(self.entries@.len(), |i: int| (self.entries@[i].0.buf@, self.entries@[i].1@))
    }

    pub closed spec fn wf(&self) -> bool {
        bytes_sorted(self.spec_pairs())
    }

    /// The pairs are those of the map, in ascending order of name.
    pub proof fn lemma_pairs(&self)
        requires
            self.wf(),
        ensures
            bytes_sorted(self.spec_pairs()),
            self@ == pairs_map(self.spec_pairs()),
            keys_unique(self.spec_pairs()),
            forall|k: Seq<u8>| #[trigger]
                self@.contains_key(k) <==> exists|i: int|
                    0 <= i < self.spec_pairs().len() && self.spec_pairs()[i].0 == k,
            forall|i: int|
                0 <= i < self.spec_pairs().len() ==> #[trigger] self@[self.spec_pairs()[i].0]
                    == self.spec_pairs()[i].1,
            self@.dom().finite(),
            self@.len() == self.spec_pairs().len(),
            forall|i: int| 0 <= i < self.spec_pairs().len() ==> (#[trigger] self.spec_pairs()[i]).0.len() == N,
    {
        lemma_bytes_sorted_unique(self.spec_pairs());
        lemma_pairs_map(self.spec_pairs());
    }

    pub fn new() -> (r: Self)
        ensures
            r.wf(),
            r@ == Map::<Seq<u8>, V::V>::empty(),
            r.spec_pairs().len() == 0,
    {
        let r = Self { entries: Vec::new() };
        assert(r.spec_pairs() =~= Seq::<(Seq<u8>, V::V)>::empty());
        r
    }

    pub fn clear(&mut self)
        ensures
            final(self).wf(),
            final(self)@ == Map::<Seq<u8>, V::V>::empty(),
            final(self).spec_pairs().len() == 0,
    {
        self.entries.clear();
        assert(self.spec_pairs() =~= Seq::<(Seq<u8>, V::V)>::empty());
    }

    pub fn len(&self) -> (r: usize)
        requires
            self.wf(),
        ensures
            r == self@.len(),
            r == self.spec_pairs().len(),
    {
        proof {
            self.lemma_pairs();
        }
        self.entries.len()
    }

    /// Position of `key`, or where it would go.
    fn find(&self, key: &Name<N>) -> (r: (usize, bool))
        requires
            self.wf(),
        ensures
            r.0 <= self.spec_pairs().len(),
            r.1 ==> r.0 < self.spec_pairs().len() && self.spec_pairs()[r.0 as int].0 == key.buf@,
            forall|j: int| 0 <= j < r.0 ==> bytes_less(#[trigger] self.spec_pairs()[j].0, key.buf@),
            !r.1 ==> forall|j: int|
                r.0 <= j < self.spec_pairs().len() ==> bytes_less(key.buf@, #[trigger] self.spec_pairs()[j].0),
            !r.1 ==> !self@.contains_key(key.buf@),
    {
        proof {
            self.lemma_pairs();
        }
        let mut i: usize = 0;
        while i < self.entries.len()
            invariant
                self.wf(),
                i <= self.entries@.len(),
                forall|j: int| 0 <= j < i ==> bytes_less(#[trigger] self.spec_pairs()[j].0, key.buf@),
            decreases self.entries@.len() - i,
        {
            let c = compare_bytes(self.entries[i].0.as_buf(), key.as_buf());
            if c == 0 {
                return (i, true);
            }
            if c > 0 {
                proof {
                    let p = self.spec_pairs();
                    assert forall|j: int| i <= j < p.len() implies bytes_less(
                        key.buf@,
                        #[trigger] p[j].0,
                    ) by {
                        if j > i {
                            lemma_bytes_less_order(key.buf@, p[i as int].0, p[j].0);
                        }
                    }
                    self.lemma_absent(key.buf@, i as int);
                }
                return (i, false);
            }
            i = i + 1;
        }
        proof {
            self.lemma_absent(key.buf@, i as int);
        }
        (i, false)
    }

    proof fn lemma_absent(&self, k: Seq<u8>, i: int)
        requires
            self.wf(),
            0 <= i <= self.spec_pairs().len(),
            forall|j: int| 0 <= j < i ==> bytes_less(#[trigger] self.spec_pairs()[j].0, k),
            forall|j: int| i <= j < self.spec_pairs().len() ==> bytes_less(k, #[trigger] self.spec_pairs()[j].0),
        ensures
            !self@.contains_key(k),
    {
        self.lemma_pairs();
        let p = self.spec_pairs();
        lemma_bytes_less_order(k, k, k);
        if self@.contains_key(k) {
            let j = choose|j: int| 0 <= j < p.len() && p[j].0 == k;
            if j < i {
                assert(bytes_less(p[j].0, k));
            } else {
                assert(bytes_less(k, p[j].0));
            }
        }
    }

    /// Maps `key` to `val`, giving back the value it replaces.
    pub fn insert(&mut self, key: Name<N>, val: V) -> (r: Option<V>)
        requires
            old(self).wf(),
        ensures
            final(self).wf(),
            final(self)@ == old(self)@.insert(key.buf@, val@),
            r is Some <==> old(self)@.contains_key(key.buf@),
            r matches Some(v) ==> v@ == old(self)@[key.buf@],
    {
        proof {
            self.lemma_pairs();
        }
        let ghost old_pairs = self.spec_pairs();
        let ghost vv = val@;
        let (i, found) = self.find(&key);
        if found {
            let mut pair = (key, val);
            self.entries.set_and_swap(i, &mut pair);
            proof {
                assert(self.spec_pairs() =~= old_pairs.update(i as int, (key.buf@, vv)));
                lemma_sorted_update(old_pairs, i as int, key.buf@, vv);
                assert(pair.1@ == old_pairs[i as int].1);
            }
            let (_, old_val) = pair;
            Some(old_val)
        } else {
            self.entries.insert(i, (key, val));
            proof {
                assert(self.spec_pairs() =~= old_pairs.insert(i as int, (key.buf@, vv)));
                lemma_sorted_insert(old_pairs, i as int, key.buf@, vv);
            }
            None
        }
    }

    pub fn get(&self, key: &Name<N>) -> (r: Option<&V>)
        requires
            self.wf(),
        ensures
            r is Some <==> self@.contains_key(key.buf@),
            r matches Some(v) ==> v@ == self@[key.buf@],
    {
        proof {
            self.lemma_pairs();
        }
        let (i, found) = self.find(key);
        if found {
            Some(&self.entries[i].1)
        } else {
            None
        }
    }

    pub fn contains_key(&self, key: &Name<N>) -> (r: bool)
        requires
            self.wf(),
        ensures
            r == self@.contains_key(key.buf@),
    {
        proof {
            self.lemma_pairs();
        }
        let (_, found) = self.find(key);
        found
    }

    /// Removes `key`, giving back its value.
    pub fn remove(&mut self, key: &Name<N>) -> (r: Option<V>)
        requires
            old(self).wf(),
        ensures
            final(self).wf(),
            final(self)@ == old(self)@.remove(key.buf@),
            r is Some <==> old(self)@.contains_key(key.buf@),
            r matches Some(v) ==> v@ == old(self)@[key.buf@],
    {
        proof {
            self.lemma_pairs();
        }
        let ghost old_pairs = self.spec_pairs();
        let (i, found) = self.find(key);
        if found {
            let (_, v) = self.entries.remove(i);
            proof {
                assert(self.spec_pairs() =~= old_pairs.remove(i as int));
                lemma_sorted_remove(old_pairs, i as int);
            }
            Some(v)
        } else {
            proof {
                assert(pairs_map(old_pairs).remove(key.buf@) =~= pairs_map(old_pairs));
            }
            None
        }
    }

    /// The name at position `i` in ascending order.
    pub fn key_at(&self, i: usize) -> (r: &Name<N>)
        requires
            i < self.spec_pairs().len(),
        ensures
            r.buf@ == self.spec_pairs()[i as int].0,
    {
        &self.entries[i].0
    }

    /// The value at position `i` in ascending order of name.
    pub fn value_at(&self, i: usize) -> (r: &V)
        requires
            i < self.spec_pairs().len(),
        ensures
            r@ == self.spec_pairs()[i as int].1,
    {
        &self.entries[i].1
    }
}

impl<const N: usize, const M: usize> NameMap<N, Name<M>> {
    /// Every value is a name of `M` bytes.
    pub proof fn lemma_value_lens(&self)
        ensures
            forall|i: int| 0 <= i < self.spec_pairs().len() ==> (#[trigger] self.spec_pairs()[i]).1.len() == M,
    {
    }
}

} // verus!
