//! The ignore list of a working tree: relative paths that scanning skips,
//! kept one per line in the `.tubignore` file.

use vstd::prelude::*;
use vstd::utf8::{decode_utf8, encode_utf8, valid_utf8};
use crate::base::DOTDIR;
use crate::strmap::StrMap;
use crate::text::{bytes_less, string_bytes, string_from_utf8};

verus! {

/// Length of the first line of `b`: the bytes before the first newline.
pub open spec fn line_len(b: Seq<u8>) -> int
    decreases b.len(),
{
    if b.len() == 0 || b[0] == 10 {
        0
    } else {
        1 + line_len(b.drop_first())
    }
}

/// A line without its carriage return, if it ends with one.
pub open spec fn strip_cr(line: Seq<u8>) -> Seq<u8> {
    if line.len() > 0 && line.last() == 13 {
        line.drop_last()
    } else {
        line
    }
}

/// The lines of `b` as `BufRead::lines` gives them: split at each newline,
/// a carriage return before it dropped, no line after a final newline.
pub open spec fn lines(b: Seq<u8>) -> Seq<Seq<u8>>
    decreases b.len(),
{
    if b.len() == 0 {
        Seq::empty()
    } else {
        let k = line_len(b);
        let rest = if k < b.len() {
            b.skip(k + 1)
        } else {
            Seq::empty()
        };
        if 0 <= k <= b.len() && rest.len() < b.len() {
            seq![strip_cr(b.take(k))] + lines(rest)
        } else {
            Seq::empty()
        }
    }
}

/// Each path followed by a newline.
pub open spec fn lines_bytes(paths: Seq<Seq<char>>) -> Seq<u8>
    decreases paths.len(),
{
    if paths.len() == 0 {
        Seq::empty()
    } else {
        lines_bytes(paths.drop_last()) + encode_utf8(paths.last()) + seq![10u8]
    }
}

/// A path that survives being written as a line: no newline in it, no
/// carriage return at its end.
pub open spec fn line_ok(path: Seq<char>) -> bool {
    let b = encode_utf8(path);
    &&& forall|i: int| 0 <= i < b.len() ==> b[i] != 10
    &&& !(b.len() > 0 && b.last() == 13)
}

proof fn lemma_line_len(b: Seq<u8>, k: int)
    requires
        0 <= k <= b.len(),
        forall|j: int| 0 <= j < k ==> b[j] != 10,
        k == b.len() || b[k] == 10,
    ensures
        line_len(b) == k,
    decreases b.len(),
{
    if b.len() > 0 && b[0] != 10 {
        assert forall|j: int| 0 <= j < k - 1 implies b.drop_first()[j] != 10 by {
            assert(b.drop_first()[j] == b[j + 1]);
        }
        lemma_line_len(b.drop_first(), k - 1);
    }
}

proof fn lemma_line_len_bounds(b: Seq<u8>)
    ensures
        0 <= line_len(b) <= b.len(),
    decreases b.len(),
{
    if b.len() > 0 && b[0] != 10 {
        lemma_line_len_bounds(b.drop_first());
    }
}

proof fn lemma_lines_bytes_front(s: Seq<Seq<char>>)
    requires
        s.len() > 0,
    ensures
        lines_bytes(s) == encode_utf8(s[0]) + seq![10u8] + lines_bytes(s.drop_first()),
    decreases s.len(),
{
    if s.len() == 1 {
        assert(s.last() == s[0]);
        assert(lines_bytes(s.drop_last()) =~= Seq::<u8>::empty());
        assert(lines_bytes(s.drop_first()) =~= Seq::<u8>::empty());
        assert(lines_bytes(s) == lines_bytes(s.drop_last()) + encode_utf8(s.last()) + seq![10u8]);
        assert(lines_bytes(s) =~= encode_utf8(s[0]) + seq![10u8] + lines_bytes(s.drop_first()));
    } else {
        lemma_lines_bytes_front(s.drop_last());
        assert(s.drop_last().drop_first() =~= s.drop_first().drop_last());
        assert(s.drop_last()[0] == s[0]);
        assert(s.drop_first().last() == s.last());
        let a = encode_utf8(s[0]) + seq![10u8];
        let m = lines_bytes(s.drop_last().drop_first());
        let z = encode_utf8(s.last()) + seq![10u8];
        assert(lines_bytes(s) =~= lines_bytes(s.drop_last()) + z);
        assert(lines_bytes(s.drop_first()) =~= lines_bytes(s.drop_first().drop_last()) + z);
        assert(lines_bytes(s.drop_last()) =~= a + m);
        assert((a + m) + z =~= a + (m + z));
        assert(lines_bytes(s) =~= a + lines_bytes(s.drop_first()));
    }
}

/// Reading back the lines of written paths gives the paths' bytes.
pub proof fn lemma_lines_roundtrip(s: Seq<Seq<char>>)
    requires
        forall|i: int| 0 <= i < s.len() ==> line_ok(#[trigger] s[i]),
    ensures
        lines(lines_bytes(s)) == Seq::new(s.len(), |i: int| encode_utf8(s[i])),
    decreases s.len(),
{
    if s.len() == 0 {
        assert(lines_bytes(s).len() == 0);
        assert(lines(lines_bytes(s)) =~= Seq::new(s.len(), |i: int| encode_utf8(s[i])));
    } else {
        lemma_lines_bytes_front(s);
        let b = lines_bytes(s);
        let e = encode_utf8(s[0]);
        let tail = s.drop_first();
        assert(line_ok(s[0]));
        assert forall|j: int| 0 <= j < e.len() implies b[j] != 10 by {
            assert(b[j] == e[j]);
        }
        assert(b[e.len() as int] == 10);
        lemma_line_len(b, e.len() as int);
        assert(b.take(e.len() as int) =~= e);
        assert(strip_cr(e) == e);
        assert(b.skip(e.len() as int + 1) =~= lines_bytes(tail));
        assert forall|i: int| 0 <= i < tail.len() implies line_ok(#[trigger] tail[i]) by {
            assert(tail[i] == s[i + 1]);
        }
        lemma_lines_roundtrip(tail);
        assert(lines(b) =~= Seq::new(s.len(), |i: int| encode_utf8(s[i])));
    }
}

/// Relative paths to skip when scanning a working tree.
#[derive(Debug)]
pub struct IgnoreList {
    map: StrMap<()>,
}

impl View for IgnoreList {
    type V = Set<Seq<char>>;

    closed spec fn view(&self) -> Set<Seq<char>> {
        self.map.spec_map().dom()
    }
}

impl IgnoreList {
    pub closed spec fn wf(&self) -> bool {
        self.map.wf()
    }

    /// The paths in ascending order of their bytes.
    pub closed spec fn spec_sorted(&self) -> Seq<Seq<char>> {
        self.map.spec_keys()
    }

    /// The sorted paths are the list's paths, each once.
    pub proof fn lemma_sorted(&self)
        requires
            self.wf(),
        ensures
            forall|i: int, j: int|
                0 <= i < j < self.spec_sorted().len() ==> bytes_less(
                    encode_utf8(#[trigger] self.spec_sorted()[i]),
                    encode_utf8(#[trigger] self.spec_sorted()[j]),
                ),
            forall|k: Seq<char>| #[trigger] self@.contains(k) <==> self.spec_sorted().contains(k),
            self.spec_sorted().len() == self@.len(),
            self@.finite(),
    {
        self.map.lemma_wf();
        assert forall|i: int, j: int|
            0 <= i < j < self.spec_sorted().len() implies bytes_less(
                encode_utf8(#[trigger] self.spec_sorted()[i]),
                encode_utf8(#[trigger] self.spec_sorted()[j]),
            ) by {
            assert(self.spec_sorted()[i] == self.map.spec_pairs()[i].0);
            assert(self.spec_sorted()[j] == self.map.spec_pairs()[j].0);
        }
        assert forall|k: Seq<char>| #[trigger] self@.contains(k) <==> self.spec_sorted().contains(k) by {
            if self@.contains(k) {
                let i = choose|i: int| 0 <= i < self.map.spec_pairs().len() && self.map.spec_pairs()[i].0 == k;
                assert(self.spec_sorted()[i] == k);
            }
            if self.spec_sorted().contains(k) {
                let i = choose|i: int| 0 <= i < self.spec_sorted().len() && self.spec_sorted()[i] == k;
                assert(self.map.spec_pairs()[i].0 == k);
            }
        }
    }

    pub fn new() -> (r: Self)
        ensures
            r.wf(),
            r@ == Set::<Seq<char>>::empty(),
    {
        let r = Self { map: StrMap::new() };
        assert(r.map.spec_map().dom() =~= Set::<Seq<char>>::empty());
        r
    }

    /// Adds `relpath`; says whether it was not there yet.
    pub fn ignore(&mut self, relpath: String) -> (r: bool)
        requires
            old(self).wf(),
        ensures
            final(self).wf(),
            final(self)@ == old(self)@.insert(relpath@),
            r == !old(self)@.contains(relpath@),
    {
        let r = self.map.insert(relpath, ());
        assert(self.map.spec_map().dom() =~= old(self).map.spec_map().dom().insert(relpath@));
        r.is_none()
    }

    /// Removes `relpath`; says whether it was there.
    pub fn unignore(&mut self, relpath: &String) -> (r: bool)
        requires
            old(self).wf(),
        ensures
            final(self).wf(),
            final(self)@ == old(self)@.remove(relpath@),
            r == old(self)@.contains(relpath@),
    {
        let r = self.map.remove(relpath);
        assert(self.map.spec_map().dom() =~= old(self).map.spec_map().dom().remove(relpath@));
        r.is_some()
    }

    pub fn contains(&self, relpath: &String) -> (r: bool)
        requires
            self.wf(),
        ensures
            r == self@.contains(relpath@),
    {
        self.map.contains_key(relpath)
    }

    /// Starts over with the paths that are always skipped: `.git` and the
    /// control directory.
    pub fn reset(&mut self)
        ensures
            final(self).wf(),
            final(self)@ == Set::<Seq<char>>::empty().insert(".git"@).insert(DOTDIR@),
    {
        *self = Self::new();
        self.ignore(String::from_str(".git"));
        self.ignore(String::from_str(DOTDIR));
    }

    /// The paths in ascending order.
    pub fn sorted_vec(&self) -> (r: Vec<&String>)
        requires
            self.wf(),
        ensures
            r@.len() == self.spec_sorted().len(),
            forall|i: int| 0 <= i < r@.len() ==> (#[trigger] r@[i])@ == self.spec_sorted()[i],
    {
        let n = self.map.len();
        let mut v: Vec<&String> = Vec::new();
        let mut i: usize = 0;
        while i < n
            invariant
                self.wf(),
                n == self.map.spec_pairs().len(),
                i <= n,
                v@.len() == i,
                forall|j: int| 0 <= j < i ==> (#[trigger] v@[j])@ == self.spec_sorted()[j],
            decreases n - i,
        {
            v.push(self.map.key_at(i));
            i = i + 1;
        }
        v
    }

    /// The `.tubignore` form: each path in ascending order, then a newline.
    pub fn to_bytes(&self) -> (r: Vec<u8>)
        requires
            self.wf(),
        ensures
            r@ == lines_bytes(self.spec_sorted()),
    {
        let ghost keys = self.spec_sorted();
        let n = self.map.len();
        let mut buf: Vec<u8> = Vec::new();
        let mut i: usize = 0;
        while i < n
            invariant
                self.wf(),
                keys == self.spec_sorted(),
                n == keys.len(),
                i <= n,
                buf@ == lines_bytes(keys.take(i as int)),
            decreases n - i,
        {
            let b = string_bytes(self.map.key_at(i));
            let mut j: usize = 0;
            let ghost b0 = buf@;
            while j < b.len()
                invariant
                    j <= b@.len(),
                    buf@ == b0 + b@.take(j as int),
                decreases b@.len() - j,
            {
                buf.push(b[j]);
                j = j + 1;
                assert(buf@ =~= b0 + b@.take(j as int));
            }
            buf.push(10u8);
            proof {
                assert(b@.take(j as int) =~= b@);
                assert(keys.take(i + 1).drop_last() =~= keys.take(i as int));
                assert(keys.take(i + 1).last() == keys[i as int]);
                assert(buf@ =~= lines_bytes(keys.take(i + 1)));
            }
            i = i + 1;
        }
        assert(keys.take(n as int) =~= keys);
        buf
    }

    /// Adds each line of `content` (a `.tubignore` file) as a path; stops
    /// and says `false` at the first line that is not UTF-8.
    pub fn load_lines(&mut self, content: &[u8]) -> (r: bool)
        requires
            old(self).wf(),
        ensures
            final(self).wf(),
            r == forall|i: int| 0 <= i < lines(content@).len() ==> valid_utf8(#[trigger] lines(content@)[i]),
            r ==> final(self)@ == old(self)@.union(
                Set::new(|p: Seq<char>| exists|i: int| 0 <= i < lines(content@).len() && p == decode_utf8(#[trigger] lines(content@)[i])),
            ),
            old(self)@.subset_of(final(self)@),
    {
        let ghost all = lines(content@);
        let len = content.len();
        let mut pos: usize = 0;
        let ghost mut done: int = 0;
        proof {
            assert(content@.skip(0) =~= content@);
        }
        while pos < len
            invariant
                self.wf(),
                len == content@.len(),
                pos <= len,
                all == lines(content@),
                0 <= done <= all.len(),
                all == all.take(done) + lines(content@.skip(pos as int)),
                forall|i: int| 0 <= i < done ==> valid_utf8(#[trigger] all[i]),
                self@ == old(self)@.union(
                    Set::new(|p: Seq<char>| exists|i: int| 0 <= i < done && p == decode_utf8(#[trigger] all[i])),
                ),
            decreases len - pos,
        {
            let ghost rest = content@.skip(pos as int);
            let mut end = pos;
            while end < len && content[end] != 10
                invariant
                    pos <= end <= len,
                    len == content@.len(),
                    forall|j: int| pos <= j < end ==> content@[j] != 10,
                decreases len - end,
            {
                end = end + 1;
            }
            let mut stop = end;
            if stop > pos && content[stop - 1] == 13 {
                stop = stop - 1;
            }
            proof {
                assert forall|j: int| 0 <= j < end - pos implies rest[j] != 10 by {
                    assert(rest[j] == content@[pos + j]);
                }
                if end < len {
                    assert(rest[end - pos] == content@[end as int]);
                }
                lemma_line_len(rest, end - pos);
                assert(rest.take(end - pos) =~= content@.subrange(pos as int, end as int));
                assert(strip_cr(rest.take(end - pos)) =~= content@.subrange(pos as int, stop as int));
                let next = if end < len { end + 1 } else { len as int };
                let k = end - pos;
                assert(rest.len() == len - pos);
                let ra = if k < rest.len() { rest.skip(k + 1) } else { Seq::<u8>::empty() };
                assert(ra =~= content@.skip(next));
                assert(ra.len() < rest.len());
                assert(line_len(rest) == k);
                assert(lines(rest) == seq![strip_cr(rest.take(k))] + lines(ra));
                assert(lines(rest) == seq![strip_cr(rest.take(end - pos))] + lines(content@.skip(next)));
                assert(all[done] == content@.subrange(pos as int, stop as int)) by {
                    assert(all.take(done) + lines(rest) == all);
                    assert(lines(rest)[0] == all[done]);
                }
                assert(all.take(done + 1) + lines(content@.skip(next)) =~= all) by {
                    assert(all.take(done + 1) =~= all.take(done).push(all[done]));
                    assert(all.take(done) + lines(rest) == all);
                }
            }
            let line = vstd::slice::slice_to_vec(vstd::slice::slice_subrange(content, pos, stop));
            match string_from_utf8(line) {
                Some(path) => {
                    let ghost pv = path@;
                    self.ignore(path);
                    proof {
                        assert(self@ =~= old(self)@.union(
                            Set::new(|p: Seq<char>| exists|i: int| 0 <= i < done + 1 && p == decode_utf8(#[trigger] all[i])),
                        )) by {
                            assert forall|p: Seq<char>| #[trigger] self@.contains(p) implies old(self)@.union(
                                Set::new(|p: Seq<char>| exists|i: int| 0 <= i < done + 1 && p == decode_utf8(#[trigger] all[i])),
                            ).contains(p) by {
                                if p == pv {
                                    assert(p == decode_utf8(all[done]));
                                }
                            }
                            assert forall|p: Seq<char>| old(self)@.union(
                                Set::new(|p: Seq<char>| exists|i: int| 0 <= i < done + 1 && p == decode_utf8(#[trigger] all[i])),
                            ).contains(p) implies #[trigger] self@.contains(p) by {
                                if !old(self)@.contains(p) {
                                    let i = choose|i: int| 0 <= i < done + 1 && p == decode_utf8(#[trigger] all[i]);
                                    if i < done {
                                        assert(Set::new(|p: Seq<char>| exists|i: int| 0 <= i < done && p == decode_utf8(#[trigger] all[i])).contains(p));
                                    }
                                }
                            }
                        }
                        done = done + 1;
                    }
                    pos = if end < len {
                        end + 1
                    } else {
                        len
                    };
                },
                None => {
                    proof {
                        assert(!valid_utf8(all[done]));
                    }
                    return false;
                },
            }
        }
        proof {
            assert(content@.skip(pos as int).len() == 0);
            assert(all.take(done) =~= all);
            assert(done == all.len());
        }
        true
    }
}

/// Writing an ignore list and loading the file into an empty list gives the
/// same paths, where no path holds a newline or ends with a carriage return.
pub proof fn lemma_ignore_roundtrip(l: &IgnoreList)
    requires
        l.wf(),
        forall|p: Seq<char>| #[trigger] l@.contains(p) ==> line_ok(p),
    ensures
        ({
            let ls = lines(lines_bytes(l.spec_sorted()));
            &&& forall|i: int| 0 <= i < ls.len() ==> valid_utf8(#[trigger] ls[i])
            &&& Set::<Seq<char>>::empty().union(
                Set::new(|p: Seq<char>| exists|i: int| 0 <= i < ls.len() && p == decode_utf8(#[trigger] ls[i])),
            ) == l@
        }),
{
    l.lemma_sorted();
    let s = l.spec_sorted();
    assert forall|i: int| 0 <= i < s.len() implies line_ok(#[trigger] s[i]) by {
        assert(s.contains(s[i]));
        assert(l@.contains(s[i]));
    }
    lemma_lines_roundtrip(s);
    let ls = lines(lines_bytes(s));
    assert forall|i: int| 0 <= i < ls.len() implies valid_utf8(#[trigger] ls[i]) by {
        vstd::utf8::encode_utf8_valid_utf8(s[i]);
    }
    let d = Set::new(|p: Seq<char>| exists|i: int| 0 <= i < ls.len() && p == decode_utf8(#[trigger] ls[i]));
    assert forall|p: Seq<char>| #[trigger] d.contains(p) <==> l@.contains(p) by {
        if d.contains(p) {
            let i = choose|i: int| 0 <= i < ls.len() && p == decode_utf8(#[trigger] ls[i]);
            vstd::utf8::encode_utf8_decode_utf8(s[i]);
            assert(s.contains(s[i]));
        }
        if l@.contains(p) {
            assert(s.contains(p));
            let i = choose|i: int| 0 <= i < s.len() && s[i] == p;
            vstd::utf8::encode_utf8_decode_utf8(s[i]);
            assert(p == decode_utf8(ls[i]));
        }
    }
    assert(Set::<Seq<char>>::empty().union(d) =~= l@);
}

} // verus!
