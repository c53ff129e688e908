//! Choosing the files to import from a directory tree.
//!
//! The application walks the directories; what is taken, what is skipped
//! and the running total are decided here.

use vstd::prelude::*;
use vstd::utf8::encode_utf8;
use crate::text::string_bytes;

verus! {

/// Directories nested this deep are not entered.
pub const MAX_DEPTH: usize = 32;

/// A file to import: its path and size.
pub struct SrcFile(pub String, pub u64);

/// What a directory entry is.
#[derive(Debug, PartialEq, Eq, Structural, Clone, Copy)]
pub enum EntryKind {
    File,
    Dir,
    SymLink,
    Other,
}

/// What the scan does with a directory entry.
#[derive(Debug, PartialEq, Eq, Structural, Clone, Copy)]
pub enum ScanAction {
    /// Its name starts with a dot.
    SkipHidden,
    SkipSymlink,
    /// A file of zero bytes.
    SkipEmpty,
    /// A file to import.
    Take,
    /// A directory to scan, one level deeper.
    Descend,
    /// Anything else.
    Pass,
}

/// What the scan does with an entry named `name` (UTF-8 bytes `name`).
pub open spec fn scan_action_spec(name: Seq<u8>, kind: EntryKind, size: u64) -> ScanAction {
    if name.len() > 0 && name[0] == 46 {
        ScanAction::SkipHidden
    } else if kind == EntryKind::SymLink {
        ScanAction::SkipSymlink
    } else if kind == EntryKind::File {
        if size > 0 {
            ScanAction::Take
        } else {
            ScanAction::SkipEmpty
        }
    } else if kind == EntryKind::Dir {
        ScanAction::Descend
    } else {
        ScanAction::Pass
    }
}

/// Decides what to do with a directory entry: hidden entries and symlinks
/// are skipped, non-empty files taken, directories entered.
pub fn scan_action(name: &String, kind: EntryKind, size: u64) -> (r: ScanAction)
    ensures
        r == scan_action_spec(encode_utf8(name@), kind, size),
{
    let b = string_bytes(name);
    if b.len() > 0 && b[0] == 46 {
        ScanAction::SkipHidden
    } else if kind == EntryKind::SymLink {
        ScanAction::SkipSymlink
    } else if kind == EntryKind::File {
        if size > 0 {
            ScanAction::Take
        } else {
            ScanAction::SkipEmpty
        }
    } else if kind == EntryKind::Dir {
        ScanAction::Descend
    } else {
        ScanAction::Pass
    }
}

/// Only the first byte of a name decides whether an entry is hidden: an
/// entry is skipped as hidden exactly when its name begins with a dot, and
/// an entry whose name does not is imported when it is a non-empty file,
/// entered when it is a directory, and skipped as a symlink when it is one.
pub proof fn lemma_scan_hidden(name: Seq<u8>, kind: EntryKind, size: u64)
    ensures
        (scan_action_spec(name, kind, size) == ScanAction::SkipHidden) <==> (name.len() > 0
            && name[0] == 46),
        !(name.len() > 0 && name[0] == 46) ==> {
            &&& kind == EntryKind::File && size > 0 ==> scan_action_spec(name, kind, size)
                == ScanAction::Take
            &&& kind == EntryKind::File && size == 0 ==> scan_action_spec(name, kind, size)
                == ScanAction::SkipEmpty
            &&& kind == EntryKind::Dir ==> scan_action_spec(name, kind, size) == ScanAction::Descend
            &&& kind == EntryKind::SymLink ==> scan_action_spec(name, kind, size)
                == ScanAction::SkipSymlink
            &&& kind == EntryKind::Other ==> scan_action_spec(name, kind, size) == ScanAction::Pass
        },
{
}

/// Two names with the same first byte get the same decision: nothing past
/// the first byte of a name counts.
pub proof fn lemma_scan_first_byte(a: Seq<u8>, b: Seq<u8>, kind: EntryKind, size: u64)
    requires
        a.len() > 0,
        b.len() > 0,
        a[0] == b[0],
    ensures
        scan_action_spec(a, kind, size) == scan_action_spec(b, kind, size),
{
}

/// Whether a directory at `depth` is scanned.
pub fn within_depth(depth: usize) -> (r: bool)
    ensures
        r == (depth < MAX_DEPTH),
{
    depth < MAX_DEPTH
}

/// The files taken by a scan, in the order found, and their total size.
pub struct Scanner {
    accum: Vec<SrcFile>,
    total: u64,
}

impl Scanner {
    /// The paths and sizes taken, in order.
    pub closed spec fn spec_files(&self) -> Seq<(Seq<char>, u64)> {
        Seq::new(self.accum@.len(), |i: int| (self.accum@[i].0@, self.accum@[i].1))
    }

    pub closed spec fn spec_total(&self) -> u64 {
        self.total
    }

    pub fn new() -> (r: Self)
        ensures
            r.spec_files() == Seq::<(Seq<char>, u64)>::empty(),
            r.spec_total() == 0,
    {
        let r = Self { accum: Vec::new(), total: 0 };
        assert(r.spec_files() =~= Seq::<(Seq<char>, u64)>::empty());
        r
    }

    /// Takes a file of `size` bytes.
    pub fn push(&mut self, path: String, size: u64)
        requires
            old(self).spec_total() + size <= u64::MAX,
        ensures
            final(self).spec_files() == old(self).spec_files().push((path@, size)),
            final(self).spec_total() == old(self).spec_total() + size,
    {
        let ghost p = path@;
        self.accum.push(SrcFile(path, size));
        self.total = self.total + size;
        assert(self.spec_files() =~= old(self).spec_files().push((p, size)));
    }

    /// The files taken, in order.
    pub fn iter(&self) -> (r: core::slice::Iter<'_, SrcFile>)
        ensures
            ({
                let e = vstd::std_specs::slice::into_iter_elts(r);
                Seq::new(e.len(), |i: int| (e[i].0@, e[i].1)) == self.spec_files()
            }),
    {
        broadcast use vstd::std_specs::slice::group_slice_axioms;

        let r = self.accum.as_slice().iter();
        assert(vstd::std_specs::iter::IteratorSpec::remaining(&r).unref() =~= self.accum@);
        assert(Seq::new(self.accum@.len(), |i: int| (self.accum@[i].0@, self.accum@[i].1)) =~= self.spec_files());
        r
    }

    pub fn count(&self) -> (r: usize)
        ensures
            r == self.spec_files().len(),
    {
        self.accum.len()
    }

    pub fn total(&self) -> (r: u64)
        ensures
            r == self.spec_total(),
    {
        self.total
    }
}

} // verus!
