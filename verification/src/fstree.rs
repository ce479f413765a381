//! A snapshot of the reachable part of a filesystem.
//!
//! The scanner does no I/O itself: a caller reads the directories once,
//! canonicalizes every path it meets, and hands the result over as an
//! `FsTree`. A directory that could not be read simply has no listing; an
//! entry whose path could not be resolved carries no canonical form.

use vstd::prelude::*;

verus! {

/// What a directory entry turned out to be once resolved.
pub enum EntryKind {
    /// A regular file.
    File,
    /// A directory.
    Directory,
    /// Anything else (a special file, a dangling link, ...).
    Other,
}

/// One entry of a directory listing: the canonical form of the entry's path
/// (`None` when resolution failed) and what the entry is.
pub struct Entry {
    pub canon: Option<String>,
    pub kind: EntryKind,
}

/// A readable directory: its canonical path and its entries, in the order
/// the directory was enumerated.
pub struct DirListing {
    pub canon: String,
    pub entries: Vec<Entry>,
}

/// A snapshot of a filesystem: one listing per readable directory, keyed by
/// canonical path. A directory without a listing here is taken to be
/// unreadable.
pub struct FsTree {
    pub dirs: Vec<DirListing>,
}

impl FsTree {
    /// The listings are keyed by distinct canonical paths.
    pub open spec fn wf(self) -> bool {
        forall|i: int, j: int|
            0 <= i < j < self.dirs@.len() ==> self.dirs@[i].canon@ != self.dirs@[j].canon@
    }

    /// The set of canonical paths that have a listing.
    pub open spec fn canon_paths(self) -> Set<Seq<char>> {
        self.dirs@.map_values(|d: DirListing| d.canon@).to_set()
    }

    /// Whether the directory with canonical path `c` has a listing.
    pub open spec fn has_listing(self, c: Seq<char>) -> bool {
        exists|i: int| 0 <= i < self.dirs@.len() && self.dirs@[i].canon@ == c
    }

    /// The index of the listing for canonical path `c`.
    pub open spec fn index_of(self, c: Seq<char>) -> int {
        choose|i: int| 0 <= i < self.dirs@.len() && self.dirs@[i].canon@ == c
    }

    /// The entries listed for the directory with canonical path `c`.
    pub open spec fn entries_of(self, c: Seq<char>) -> Seq<Entry> {
        self.dirs@[self.index_of(c)].entries@
    }

    pub proof fn lemma_has_listing_in_canon_paths(self, c: Seq<char>)
        ensures
            self.has_listing(c) <==> self.canon_paths().contains(c),
    {
        let m = self.dirs@.map_values(|d: DirListing| d.canon@);
        if self.has_listing(c) {
            let i = choose|i: int| 0 <= i < self.dirs@.len() && self.dirs@[i].canon@ == c;
            assert(m[i] == c);
        }
        if self.canon_paths().contains(c) {
            let i = choose|i: int| 0 <= i < m.len() && m[i] == c;
            assert(self.dirs@[i].canon@ == c);
        }
    }

    pub proof fn lemma_canon_paths_finite(self)
        ensures
            self.canon_paths().finite(),
    {
        vstd::seq_lib::seq_to_set_is_finite(
            self.dirs@.map_values(|d: DirListing| d.canon@),
        );
    }

    /// Finds the listing for canonical path `c`, if there is one.
    pub fn lookup(&self, c: &String) -> (r: Option<usize>)
        ensures
            match r {
                Some(i) => i < self.dirs@.len() && self.dirs@[i as int].canon@ == c@,
                None => !self.has_listing(c@),
            },
    {
        let n = self.dirs.len();
        for i in 0..n
            invariant
                n == self.dirs@.len(),
                forall|k: int| 0 <= k < i ==> self.dirs@[k].canon@ != c@,
        {
            if self.dirs[i].canon == *c {
                return Some(i);
            }
        }
        None
    }
}

} // verus!
