//! The tree scan as a worklist: the directories still to read, and the
//! source documents found so far. The caller reads each directory that
//! `next_dir` hands out and reports its entries to `visit`.
use vstd::prelude::*;
use crate::paths::{is_source_file, is_source_spec};

verus! {

/// What a directory entry is.
#[derive(Clone, Copy, Debug, PartialEq, Eq, Structural)]
pub enum EntryKind {
    File,
    Dir,
    Other,
}

/// A scan in progress.
pub struct Scan {
    pending: Vec<String>,
    found: Vec<String>,
}

impl Scan {
    /// The directories still to read, the last one next.
    pub closed spec fn pending(&self) -> Seq<Seq<char>> {
        self.pending@.map_values(|s: String| s@)
    }

    /// The source documents found so far, in the order found.
    pub closed spec fn found(&self) -> Seq<Seq<char>> {
        self.found@.map_values(|s: String| s@)
    }

    /// A scan of `root`; where `root` is not a directory there is nothing to
    /// read and nothing is found.
    pub fn new(root: String, root_is_dir: bool) -> (r: Scan)
        ensures
            r.pending() == (if root_is_dir { seq![root@] } else { Seq::<Seq<char>>::empty() }),
            r.found() == Seq::<Seq<char>>::empty(),
    {
        let mut pending: Vec<String> = Vec::new();
        let ghost r0 = root@;
        if root_is_dir {
            pending.push(root);
        }
        let r = Scan { pending, found: Vec::new() };
        assert(r.found() =~= Seq::<Seq<char>>::empty());
        if root_is_dir {
            assert(r.pending() =~= seq![r0]);
        } else {
            assert(r.pending() =~= Seq::<Seq<char>>::empty());
        }
        r
    }

    /// The next directory to read, taken off the worklist; None when the
    /// scan is done.
    pub fn next_dir(&mut self) -> (r: Option<String>)
        ensures
            final(self).found() == old(self).found(),
            old(self).pending().len() == 0 ==> r is None && final(self).pending() == old(self).pending(),
            old(self).pending().len() > 0 ==> (r matches Some(d) && d@ == old(self).pending().last()
                && final(self).pending() == old(self).pending().drop_last()),
    {
        let r = self.pending.pop();
        proof {
            if old(self).pending@.len() > 0 {
                assert(self.pending() =~= old(self).pending().drop_last());
            }
        }
        r
    }

    /// Takes in one entry of a directory read: a source document is kept, a
    /// directory is put on the worklist, anything else is passed over.
    pub fn visit(&mut self, path: String, kind: EntryKind)
        ensures
            kind == EntryKind::File && is_source_spec(path@) ==> final(self).found() == old(
                self,
            ).found().push(path@) && final(self).pending() == old(self).pending(),
            kind == EntryKind::Dir ==> final(self).pending() == old(self).pending().push(path@)
                && final(self).found() == old(self).found(),
            kind == EntryKind::Other || (kind == EntryKind::File && !is_source_spec(path@))
                ==> final(self).found() == old(self).found() && final(self).pending() == old(
                self,
            ).pending(),
    {
        let ghost p = path@;
        match kind {
            EntryKind::File => {
                if is_source_file(path.as_str()) {
                    self.found.push(path);
                    assert(self.found() =~= old(self).found().push(p));
                }
            },
            EntryKind::Dir => {
                self.pending.push(path);
                assert(self.pending() =~= old(self).pending().push(p));
            },
            EntryKind::Other => {},
        }
    }

    /// Is the scan done?
    pub fn is_done(&self) -> (r: bool)
        ensures
            r == (self.pending().len() == 0),
    {
        self.pending.len() == 0
    }

    /// The source documents found, in the order found.
    pub fn into_found(self) -> (r: Vec<String>)
        ensures
            r@.map_values(|s: String| s@) == self.found(),
    {
        self.found
    }
}

} // verus!
