//! A map keyed by `String`, kept as a vector sorted by the keys' bytes.
//!
//! Walking it gives the keys in the order that sorting `String`s gives, so
//! whatever is written out from it comes out in one canonical order.

use vstd::prelude::*;
use vstd::utf8::encode_utf8;
use crate::text::{bytes_less, compare_bytes, lemma_bytes_less_order, string_bytes};

verus! {

/// The map that inserting the pairs of `s` one after the other gives (a
/// later pair replaces an earlier one with the same key).
pub open spec fn pairs_map<K, W>(s: Seq<(K, W)>) -> Map<K, W>
    decreases s.len(),
{
    if s.len() == 0 {
        Map::empty()
    } else {
        pairs_map(s.drop_last()).insert(s.last().0, s.last().1)
    }
}

/// No key occurs twice in `s`.
pub open spec fn keys_unique<K, W>(s: Seq<(K, W)>) -> bool {
    forall|i: int, j: int| 0 <= i < j < s.len() ==> #[trigger] s[i].0 != #[trigger] s[j].0
}

/// The keys of `s` ascend strictly in byte order.
pub open spec fn keys_sorted<W>(s: Seq<(Seq<char>, W)>) -> bool {
    forall|i: int, j: int|
        0 <= i < j < s.len() ==> bytes_less(
            encode_utf8(#[trigger] s[i].0),
            encode_utf8(#[trigger] s[j].0),
        )
}

/// The keys of a sequence of pairs, in order.
pub open spec fn pair_keys<K, W>(s: Seq<(K, W)>) -> Seq<K> {
    Seq::new(s.len(), |i: int| s[i].0)
}

/// Sorted keys are unique.
pub proof fn lemma_sorted_unique<W>(s: Seq<(Seq<char>, W)>)
    requires
        keys_sorted(s),
    ensures
        keys_unique(s),
{
    assert forall|i: int, j: int| 0 <= i < j < s.len() implies #[trigger] s[i].0
        != #[trigger] s[j].0 by {
        lemma_bytes_less_order(encode_utf8(s[i].0), encode_utf8(s[j].0), encode_utf8(s[j].0));
    }
}

/// What the map of pairs with unique keys holds: each pair, and nothing else.
pub proof fn lemma_pairs_map<K, W>(s: Seq<(K, W)>)
    requires
        keys_unique(s),
    ensures
        forall|k: K| #[trigger]
            pairs_map(s).contains_key(k) <==> exists|i: int| 0 <= i < s.len() && s[i].0 == k,
        forall|i: int| 0 <= i < s.len() ==> #[trigger] pairs_map(s)[s[i].0] == s[i].1,
        pairs_map(s).dom().finite(),
        pairs_map(s).len() == s.len(),
    decreases s.len(),
{
    if s.len() > 0 {
        let t = s.drop_last();
        assert(keys_unique(t)) by {
            assert forall|i: int, j: int| 0 <= i < j < t.len() implies #[trigger] t[i].0
                != #[trigger] t[j].0 by {
                assert(t[i] == s[i] && t[j] == s[j]);
            }
        }
        lemma_pairs_map(t);
        let last = s.last();
        assert(!pairs_map(t).contains_key(last.0)) by {
            if pairs_map(t).contains_key(last.0) {
                let i = choose|i: int| 0 <= i < t.len() && t[i].0 == last.0;
                assert(s[i].0 == s[s.len() - 1].0);
            }
        }
        assert forall|k: K| #[trigger]
            pairs_map(s).contains_key(k) <==> exists|i: int| 0 <= i < s.len() && s[i].0 == k by {
            if pairs_map(s).contains_key(k) && k != last.0 {
                let i = choose|i: int| 0 <= i < t.len() && t[i].0 == k;
                assert(s[i].0 == k);
            }
            if exists|i: int| 0 <= i < s.len() && s[i].0 == k {
                let i = choose|i: int| 0 <= i < s.len() && s[i].0 == k;
                if i < s.len() - 1 {
                    assert(t[i].0 == k);
                }
            }
        }
        assert forall|i: int| 0 <= i < s.len() implies #[trigger] pairs_map(s)[s[i].0]
            == s[i].1 by {
            if i < s.len() - 1 {
                assert(t[i] == s[i]);
                assert(s[i].0 != last.0);
            }
        }
    }
}

/// A map from `String` keys to values, sorted by key.
#[derive(Debug, PartialEq)]
pub struct StrMap<V> {
    entries: Vec<(String, V)>,
}

impl<V: View> StrMap<V> {
    /// The pairs in key order, each key and value taken by its view.
    pub closed spec fn spec_pairs(&self) -> Seq<(Seq<char>, V::V)> {
        Seq::new(self.entries@.len(), |i: int| (self.entries@[i].0@, self.entries@[i].1@))
    }

    /// The map's invariant: the keys ascend strictly.
    pub closed spec fn wf(&self) -> bool {
        keys_sorted(self.spec_pairs())
    }

    pub open spec fn spec_map(&self) -> Map<Seq<char>, V::V> {
        pairs_map(self.spec_pairs())
    }

    /// The keys in ascending order.
    pub open spec fn spec_keys(&self) -> Seq<Seq<char>> {
        pair_keys(self.spec_pairs())
    }

    /// What the invariant gives: sorted unique keys, each pair in the map.
    pub proof fn lemma_wf(&self)
        requires
            self.wf(),
        ensures
            keys_sorted(self.spec_pairs()),
            keys_unique(self.spec_pairs()),
            forall|k: Seq<char>| #[trigger]
                self.spec_map().contains_key(k) <==> exists|i: int|
                    0 <= i < self.spec_pairs().len() && self.spec_pairs()[i].0 == k,
            forall|i: int|
                0 <= i < self.spec_pairs().len() ==> #[trigger] self.spec_map()[self.spec_pairs()[i].0]
                    == self.spec_pairs()[i].1,
            self.spec_map().dom().finite(),
            self.spec_map().len() == self.spec_pairs().len(),
    {
        lemma_sorted_unique(self.spec_pairs());
        lemma_pairs_map(self.spec_pairs());
    }

    /// The value stored at position `i`.
    pub closed spec fn spec_value(&self, i: int) -> V {
        self.entries@[i].1
    }

    /// Each pair's value is the view of a value that the map stores.
    pub proof fn lemma_values(&self)
        ensures
            forall|i: int|
                0 <= i < self.spec_pairs().len() ==> #[trigger] self.spec_pairs()[i].1
                    == self.spec_value(i)@,
    {
    }

    pub fn new() -> (r: Self)
        ensures
            r.wf(),
            r.spec_pairs() == Seq::<(Seq<char>, V::V)>::empty(),
            r.spec_map() == Map::<Seq<char>, V::V>::empty(),
    {
        let r = Self { entries: Vec::new() };
        assert(r.spec_pairs() =~= Seq::<(Seq<char>, V::V)>::empty());
        r
    }

    pub fn len(&self) -> (r: usize)
        requires
            self.wf(),
        ensures
            r == self.spec_map().len(),
            r == self.spec_pairs().len(),
    {
        proof {
            self.lemma_wf();
        }
        self.entries.len()
    }

    pub fn is_empty(&self) -> (r: bool)
        requires
            self.wf(),
        ensures
            r == (self.spec_map().len() == 0),
    {
        proof {
            self.lemma_wf();
        }
        self.entries.len() == 0
    }

    /// The position of `key`, or where it would be inserted.
    fn find(&self, key: &String) -> (r: (usize, bool))
        requires
            self.wf(),
        ensures
            r.0 <= self.spec_pairs().len(),
            r.1 ==> r.0 < self.spec_pairs().len() && self.spec_pairs()[r.0 as int].0 == key@,
            forall|j: int|
                0 <= j < r.0 ==> bytes_less(
                    encode_utf8(#[trigger] self.spec_pairs()[j].0),
                    encode_utf8(key@),
                ),
            !r.1 ==> forall|j: int|
                r.0 <= j < self.spec_pairs().len() ==> bytes_less(
                    encode_utf8(key@),
                    encode_utf8(#[trigger] self.spec_pairs()[j].0),
                ),
    {
        let kb = string_bytes(key);
        let mut i: usize = 0;
        while i < self.entries.len()
            invariant
                self.wf(),
                i <= self.entries@.len(),
                kb@ == encode_utf8(key@),
                forall|j: int|
                    0 <= j < i ==> bytes_less(
                        encode_utf8(#[trigger] self.spec_pairs()[j].0),
                        encode_utf8(key@),
                    ),
            decreases self.entries@.len() - i,
        {
            let c = compare_bytes(string_bytes(&self.entries[i].0), kb);
            if c == 0 {
                proof {
                    vstd::utf8::encode_utf8_decode_utf8(self.entries@[i as int].0@);
                    vstd::utf8::encode_utf8_decode_utf8(key@);
                    assert(self.spec_pairs()[i as int].0 == self.entries@[i as int].0@);
                }
                return (i, true);
            }
            if c > 0 {
                proof {
                    let p = self.spec_pairs();
                    assert forall|j: int| i <= j < p.len() implies bytes_less(
                        encode_utf8(key@),
                        encode_utf8(#[trigger] p[j].0),
                    ) by {
                        if j > i {
                            lemma_bytes_less_order(
                                encode_utf8(key@),
                                encode_utf8(p[i as int].0),
                                encode_utf8(p[j].0),
                            );
                        }
                    }
                }
                return (i, false);
            }
            i = i + 1;
        }
        (i, false)
    }

    pub fn contains_key(&self, key: &String) -> (r: bool)
        requires
            self.wf(),
        ensures
            r == self.spec_map().contains_key(key@),
    {
        proof {
            self.lemma_wf();
        }
        let (i, found) = self.find(key);
        proof {
            if !found && self.spec_map().contains_key(key@) {
                let p = self.spec_pairs();
                let j = choose|j: int| 0 <= j < p.len() && p[j].0 == key@;
                lemma_bytes_less_order(encode_utf8(key@), encode_utf8(key@), encode_utf8(key@));
                if j < i {
                    assert(bytes_less(encode_utf8(p[j].0), encode_utf8(key@)));
                } else {
                    assert(bytes_less(encode_utf8(key@), encode_utf8(p[j].0)));
                }
            }
        }
        found
    }

    pub fn get(&self, key: &String) -> (r: Option<&V>)
        requires
            self.wf(),
        ensures
            r is Some <==> self.spec_map().contains_key(key@),
            r matches Some(v) ==> v@ == self.spec_map()[key@],
    {
        proof {
            self.lemma_wf();
        }
        let (i, found) = self.find(key);
        if found {
            proof {
                assert(self.spec_pairs()[i as int].1 == self.entries@[i as int].1@);
            }
            Some(&self.entries[i].1)
        } else {
            proof {
                if self.spec_map().contains_key(key@) {
                    let p = self.spec_pairs();
                    let j = choose|j: int| 0 <= j < p.len() && p[j].0 == key@;
                    lemma_bytes_less_order(encode_utf8(key@), encode_utf8(key@), encode_utf8(key@));
                    if j < i {
                        assert(bytes_less(encode_utf8(p[j].0), encode_utf8(key@)));
                    } else {
                        assert(bytes_less(encode_utf8(key@), encode_utf8(p[j].0)));
                    }
                }
            }
            None
        }
    }

    /// Inserts `value` under `key`, giving back the value it replaces.
    pub fn insert(&mut self, key: String, value: V) -> (r: Option<V>)
        requires
            old(self).wf(),
        ensures
            final(self).wf(),
            final(self).spec_map() == old(self).spec_map().insert(key@, value@),
            r is Some <==> old(self).spec_map().contains_key(key@),
            r matches Some(v) ==> v@ == old(self).spec_map()[key@],
    {
        proof {
            self.lemma_wf();
        }
        let ghost kv = key@;
        let ghost vv = value@;
        let ghost old_pairs = self.spec_pairs();
        let (i, found) = self.find(&key);
        if found {
            let mut pair = (key, value);
            self.entries.set_and_swap(i, &mut pair);
            proof {
                assert(self.spec_pairs() =~= old_pairs.update(i as int, (kv, vv)));
                lemma_map_update(old_pairs, i as int, kv, vv);
                assert(pair.1@ == old_pairs[i as int].1);
            }
            let (_, old_value) = pair;
            Some(old_value)
        } else {
            self.entries.insert(i, (key, value));
            proof {
                assert(self.spec_pairs() =~= old_pairs.insert(i as int, (kv, vv)));
                lemma_map_insert(old_pairs, i as int, kv, vv);
                if old_pairs.len() > 0 && pairs_map(old_pairs).contains_key(kv) {
                    let j = choose|j: int| 0 <= j < old_pairs.len() && old_pairs[j].0 == kv;
                    lemma_bytes_less_order(encode_utf8(kv), encode_utf8(kv), encode_utf8(kv));
                    if j < i {
                        assert(bytes_less(encode_utf8(old_pairs[j].0), encode_utf8(kv)));
                    } else {
                        assert(bytes_less(encode_utf8(kv), encode_utf8(old_pairs[j].0)));
                    }
                }
            }
            None
        }
    }

    /// Removes `key`, giving back its value.
    pub fn remove(&mut self, key: &String) -> (r: Option<V>)
        requires
            old(self).wf(),
        ensures
            final(self).wf(),
            final(self).spec_map() == old(self).spec_map().remove(key@),
            r is Some <==> old(self).spec_map().contains_key(key@),
            r matches Some(v) ==> v@ == old(self).spec_map()[key@],
    {
        proof {
            self.lemma_wf();
        }
        let ghost old_pairs = self.spec_pairs();
        let (i, found) = self.find(key);
        if found {
            let (_, v) = self.entries.remove(i);
            proof {
                assert(self.spec_pairs() =~= old_pairs.remove(i as int));
                lemma_map_remove(old_pairs, i as int);
            }
            Some(v)
        } else {
            proof {
                if pairs_map(old_pairs).contains_key(key@) {
                    let j = choose|j: int| 0 <= j < old_pairs.len() && old_pairs[j].0 == key@;
                    lemma_bytes_less_order(encode_utf8(key@), encode_utf8(key@), encode_utf8(key@));
                    if j < i {
                        assert(bytes_less(encode_utf8(old_pairs[j].0), encode_utf8(key@)));
                    } else {
                        assert(bytes_less(encode_utf8(key@), encode_utf8(old_pairs[j].0)));
                    }
                }
                assert(pairs_map(old_pairs).remove(key@) =~= pairs_map(old_pairs));
            }
            None
        }
    }

    /// The key at position `i` in key order.
    pub fn key_at(&self, i: usize) -> (r: &String)
        requires
            i < self.spec_pairs().len(),
        ensures
            r@ == self.spec_pairs()[i as int].0,
    {
        &self.entries[i].0
    }

    /// The value at position `i` in key order.
    pub fn value_at(&self, i: usize) -> (r: &V)
        requires
            i < self.spec_pairs().len(),
        ensures
            r@ == self.spec_pairs()[i as int].1,
    {
        &self.entries[i].1
    }
}

/// Replacing the value of a present key.
proof fn lemma_map_update<W>(s: Seq<(Seq<char>, W)>, i: int, k: Seq<char>, v: W)
    requires
        keys_sorted(s),
        0 <= i < s.len(),
        s[i].0 == k,
    ensures
        keys_sorted(s.update(i, (k, v))),
        pairs_map(s.update(i, (k, v))) == pairs_map(s).insert(k, v),
{
    let t = s.update(i, (k, v));
    assert(keys_sorted(t)) by {
        assert forall|a: int, b: int| 0 <= a < b < t.len() implies bytes_less(
            encode_utf8(#[trigger] t[a].0),
            encode_utf8(#[trigger] t[b].0),
        ) by {
            assert(t[a].0 == s[a].0 && t[b].0 == s[b].0);
        }
    }
    lemma_sorted_unique(s);
    lemma_sorted_unique(t);
    lemma_pairs_map(s);
    lemma_pairs_map(t);
    assert forall|q: Seq<char>| #[trigger] pairs_map(t).contains_key(q) <==> pairs_map(
        s,
    ).insert(k, v).contains_key(q) by {
        if pairs_map(t).contains_key(q) {
            let j = choose|j: int| 0 <= j < t.len() && t[j].0 == q;
            assert(s[j].0 == q);
        }
        if pairs_map(s).contains_key(q) {
            let j = choose|j: int| 0 <= j < s.len() && s[j].0 == q;
            assert(t[j].0 == q);
        }
        if q == k {
            assert(t[i].0 == q);
        }
    }
    assert forall|q: Seq<char>| #[trigger] pairs_map(t).contains_key(q) implies pairs_map(t)[q]
        == pairs_map(s).insert(k, v)[q] by {
        let j = choose|j: int| 0 <= j < t.len() && t[j].0 == q;
        if j != i {
            assert(t[j] == s[j]);
        }
    }
    assert(pairs_map(t) =~= pairs_map(s).insert(k, v));
}

/// Inserting a new key at its sorted position.
proof fn lemma_map_insert<W>(s: Seq<(Seq<char>, W)>, i: int, k: Seq<char>, v: W)
    requires
        keys_sorted(s),
        0 <= i <= s.len(),
        forall|j: int| 0 <= j < i ==> bytes_less(encode_utf8(#[trigger] s[j].0), encode_utf8(k)),
        forall|j: int| i <= j < s.len() ==> bytes_less(encode_utf8(k), encode_utf8(#[trigger] s[j].0)),
    ensures
        keys_sorted(s.insert(i, (k, v))),
        pairs_map(s.insert(i, (k, v))) == pairs_map(s).insert(k, v),
{
    let t = s.insert(i, (k, v));
    assert(keys_sorted(t)) by {
        assert forall|a: int, b: int| 0 <= a < b < t.len() implies bytes_less(
            encode_utf8(#[trigger] t[a].0),
            encode_utf8(#[trigger] t[b].0),
        ) by {
            if a < i && b < i {
                assert(t[a] == s[a] && t[b] == s[b]);
            } else if a < i && b == i {
                assert(t[a] == s[a]);
            } else if a < i {
                assert(t[a] == s[a] && t[b] == s[b - 1]);
                lemma_bytes_less_order(encode_utf8(s[a].0), encode_utf8(k), encode_utf8(s[b - 1].0));
            } else if a == i {
                assert(t[b] == s[b - 1]);
            } else {
                assert(t[a] == s[a - 1] && t[b] == s[b - 1]);
            }
        }
    }
    lemma_sorted_unique(s);
    lemma_sorted_unique(t);
    lemma_pairs_map(s);
    lemma_pairs_map(t);
    assert forall|q: Seq<char>| #[trigger] pairs_map(t).contains_key(q) <==> pairs_map(
        s,
    ).insert(k, v).contains_key(q) by {
        if pairs_map(t).contains_key(q) {
            let j = choose|j: int| 0 <= j < t.len() && t[j].0 == q;
            if j < i {
                assert(s[j].0 == q);
            } else if j > i {
                assert(s[j - 1].0 == q);
            }
        }
        if pairs_map(s).contains_key(q) {
            let j = choose|j: int| 0 <= j < s.len() && s[j].0 == q;
            if j < i {
                assert(t[j].0 == q);
            } else {
                assert(t[j + 1].0 == q);
            }
        }
        if q == k {
            assert(t[i].0 == q);
        }
    }
    assert forall|q: Seq<char>| #[trigger] pairs_map(t).contains_key(q) implies pairs_map(t)[q]
        == pairs_map(s).insert(k, v)[q] by {
        let j = choose|j: int| 0 <= j < t.len() && t[j].0 == q;
        if j < i {
            assert(t[j] == s[j]);
            assert(s[j].0 != k) by {
                lemma_bytes_less_order(encode_utf8(k), encode_utf8(k), encode_utf8(k));
            }
        } else if j > i {
            assert(t[j] == s[j - 1]);
            assert(s[j - 1].0 != k) by {
                lemma_bytes_less_order(encode_utf8(k), encode_utf8(k), encode_utf8(k));
            }
        }
    }
    assert(pairs_map(t) =~= pairs_map(s).insert(k, v));
}

/// Removing a present key.
proof fn lemma_map_remove<W>(s: Seq<(Seq<char>, W)>, i: int)
    requires
        keys_sorted(s),
        0 <= i < s.len(),
    ensures
        keys_sorted(s.remove(i)),
        pairs_map(s.remove(i)) == pairs_map(s).remove(s[i].0),
{
    let t = s.remove(i);
    let k = s[i].0;
    assert(keys_sorted(t)) by {
        assert forall|a: int, b: int| 0 <= a < b < t.len() implies bytes_less(
            encode_utf8(#[trigger] t[a].0),
            encode_utf8(#[trigger] t[b].0),
        ) by {
            if b < i {
                assert(t[a] == s[a] && t[b] == s[b]);
            } else if a < i {
                assert(t[a] == s[a] && t[b] == s[b + 1]);
            } else {
                assert(t[a] == s[a + 1] && t[b] == s[b + 1]);
            }
        }
    }
    lemma_sorted_unique(s);
    lemma_sorted_unique(t);
    lemma_pairs_map(s);
    lemma_pairs_map(t);
    assert forall|q: Seq<char>| #[trigger] pairs_map(t).contains_key(q) <==> pairs_map(
        s,
    ).remove(k).contains_key(q) by {
        if pairs_map(t).contains_key(q) {
            let j = choose|j: int| 0 <= j < t.len() && t[j].0 == q;
            if j < i {
                assert(s[j].0 == q);
            } else {
                assert(s[j + 1].0 == q);
            }
        }
        if pairs_map(s).contains_key(q) && q != k {
            let j = choose|j: int| 0 <= j < s.len() && s[j].0 == q;
            if j < i {
                assert(t[j].0 == q);
            } else {
                assert(j != i);
                assert(t[j - 1].0 == q);
            }
        }
    }
    assert forall|q: Seq<char>| #[trigger] pairs_map(t).contains_key(q) implies pairs_map(t)[q]
        == pairs_map(s).remove(k)[q] by {
        let j = choose|j: int| 0 <= j < t.len() && t[j].0 == q;
        if j < i {
            assert(t[j] == s[j]);
        } else {
            assert(t[j] == s[j + 1]);
        }
    }
    assert(pairs_map(t) =~= pairs_map(s).remove(k));
}

} // verus!
