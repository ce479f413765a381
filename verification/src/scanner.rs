//! The directory scanner: configuration, filters, and the verified
//! depth-first traversal of a filesystem snapshot.

use vstd::prelude::*;
use vstd::string::StrSliceExecFns;
use vstd::string::StringExecFns;

use crate::casefold::lower_of;
use crate::casefold::lowercase;
use crate::casefold::trim;
use crate::casefold::trim_of;
use crate::fstree::Entry;
use crate::fstree::EntryKind;
use crate::fstree::FsTree;
use crate::pathname::ext_of_path;
use crate::pathname::in_ancestor_chain;
use crate::pathname::is_in_ancestor_chain;
use crate::pathname::path_ext;
use crate::pathname::path_stem;
use crate::pathname::stem_of_path;

verus! {

/// A recursive file search: where to start, which files to keep, which
/// directories to stay out of.
pub struct FileSearch {
    /// The starting path; the current working directory when unset.
    pub root: Option<String>,
    /// Stems a file must have, one of them, unless the list is empty.
    pub exclusive_filenames: Vec<String>,
    /// Extensions a file must have, one of them, unless the list is empty.
    pub exclusive_exts: Vec<String>,
    /// Directories, given by path, whose subtrees are pruned.
    pub exclude_dirs: Vec<String>,
}

/// An extension brought to the form filters compare: trimmed, lower-cased,
/// and led by a dot unless it is empty.
pub open spec fn norm_ext(e: Seq<char>) -> Seq<char> {
    let t = lower_of(trim_of(e));
    if t.len() == 0 {
        t
    } else if t[0] == '.' {
        t
    } else {
        seq!['.'] + t
    }
}

/// The filename filter: empty means every file; otherwise the lower-cased
/// stem must equal one of the configured names, as given.
pub open spec fn filename_passes(names: Seq<Seq<char>>, path: Seq<char>) -> bool {
    names.len() == 0 || names.contains(lower_of(stem_of_path(path)))
}

/// The extension filter: empty means every file; otherwise the file's
/// lower-cased extension and a configured one must agree once both are
/// normalized.
pub open spec fn ext_passes(exts: Seq<Seq<char>>, path: Seq<char>) -> bool {
    exts.len() == 0 || exists|i: int|
        0 <= i < exts.len() && norm_ext(lower_of(ext_of_path(path))) == norm_ext(exts[i])
}

impl FileSearch {
    /// Both filters at once: a file is kept only when each passes.
    pub open spec fn filter_ok(self, path: Seq<char>) -> bool {
        filename_passes(self.exclusive_filenames.deep_view(), path) && ext_passes(
            self.exclusive_exts.deep_view(),
            path,
        )
    }

    /// Whether `c` is one of the excluded directories or lies beneath one.
    pub open spec fn dir_excluded(self, c: Seq<char>) -> bool {
        exists|i: int|
            0 <= i < self.exclude_dirs@.len() && in_ancestor_chain(self.exclude_dirs@[i]@, c)
    }

    /// A fresh search: no root, no filters, no exclusions.
    pub fn new() -> (r: Self)
        ensures
            r.root is None,
            r.exclusive_filenames@.len() == 0,
            r.exclusive_exts@.len() == 0,
            r.exclude_dirs@.len() == 0,
    {
        let root: Option<String> = None;
        let exclusive_filenames: Vec<String> = Vec::new();
        let exclusive_exts: Vec<String> = Vec::new();
        let exclude_dirs: Vec<String> = Vec::new();
        FileSearch { root, exclusive_filenames, exclusive_exts, exclude_dirs }
    }

    /// Sets the starting path, kept verbatim; it is resolved only when a
    /// traversal begins.
    pub fn set_root(&mut self, root: &str)
        ensures
            final(self).root matches Some(p) && p@ == root@,
            final(self).exclusive_filenames == old(self).exclusive_filenames,
            final(self).exclusive_exts == old(self).exclusive_exts,
            final(self).exclude_dirs == old(self).exclude_dirs,
    {
        self.root = Some(root.to_owned());
    }

    /// Replaces the filename filter.
    pub fn set_exclusive_filenames(&mut self, filenames: Vec<&str>)
        ensures
            final(self).exclusive_filenames.deep_view() == filenames.deep_view(),
            final(self).root == old(self).root,
            final(self).exclusive_exts == old(self).exclusive_exts,
            final(self).exclude_dirs == old(self).exclude_dirs,
    {
        self.exclusive_filenames = copy_strs(filenames);
    }

    /// Replaces the extension filter.
    pub fn set_exclusive_extensions(&mut self, exts: Vec<&str>)
        ensures
            final(self).exclusive_exts.deep_view() == exts.deep_view(),
            final(self).root == old(self).root,
            final(self).exclusive_filenames == old(self).exclusive_filenames,
            final(self).exclude_dirs == old(self).exclude_dirs,
    {
        self.exclusive_exts = copy_strs(exts);
    }

    /// Replaces the excluded-directory list.
    pub fn set_exclude_directories(&mut self, dirs: Vec<&str>)
        ensures
            final(self).exclude_dirs.deep_view() == dirs.deep_view(),
            final(self).root == old(self).root,
            final(self).exclusive_filenames == old(self).exclusive_filenames,
            final(self).exclusive_exts == old(self).exclusive_exts,
    {
        self.exclude_dirs = copy_strs(dirs);
    }

    /// The path a traversal starts from: the configured root, or the given
    /// working directory when none is set.
    pub fn get_root_path(&self, cwd: &str) -> (r: String)
        ensures
            r@ == match self.root {
                Some(p) => p@,
                None => cwd@,
            },
    {
        match &self.root {
            Some(p) => p.clone(),
            None => cwd.to_owned(),
        }
    }

    /// Brings an extension to the form filters compare.
    pub fn format_extension(&self, ext: &String) -> (r: String)
        ensures
            r@ == norm_ext(ext@),
    {
        let t = lowercase(trim(ext.as_str()));
        if t.as_str().is_empty() {
            return t;
        }
        if t.as_str().get_char(0) == '.' {
            return t;
        }
        let dot = String::from_str(".");
        proof {
            reveal_strlit(".");
            assert(dot@ =~= seq!['.']);
        }
        dot.concat(t.as_str())
    }

    /// Whether `path` passes the filename filter.
    pub fn is_exclusive_filename(&self, path: &String) -> (r: bool)
        ensures
            r == filename_passes(self.exclusive_filenames.deep_view(), path@),
    {
        if self.exclusive_filenames.len() == 0 {
            return true;
        }
        let stem = lowercase(path_stem(path.as_str()));
        let n = self.exclusive_filenames.len();
        for i in 0..n
            invariant
                n == self.exclusive_filenames@.len(),
                stem@ == lower_of(stem_of_path(path@)),
                forall|k: int|
                    0 <= k < i ==> self.exclusive_filenames.deep_view()[k] != stem@,
        {
            if self.exclusive_filenames[i] == stem {
                proof {
                    assert(self.exclusive_filenames.deep_view()[i as int] == stem@);
                }
                return true;
            }
            proof {
                assert(self.exclusive_filenames.deep_view()[i as int]
                    == self.exclusive_filenames@[i as int]@);
            }
        }
        false
    }

    /// Whether `path` passes the extension filter.
    pub fn is_exclusive_extension(&self, path: &String) -> (r: bool)
        ensures
            r == ext_passes(self.exclusive_exts.deep_view(), path@),
    {
        if self.exclusive_exts.len() == 0 {
            return true;
        }
        let file_ext = lowercase(path_ext(path.as_str()));
        let file_ext = self.format_extension(&file_ext);
        let n = self.exclusive_exts.len();
        for i in 0..n
            invariant
                n == self.exclusive_exts@.len(),
                file_ext@ == norm_ext(lower_of(ext_of_path(path@))),
                forall|k: int|
                    0 <= k < i ==> norm_ext(self.exclusive_exts.deep_view()[k]) != file_ext@,
        {
            proof {
                assert(self.exclusive_exts.deep_view()[i as int]
                    == self.exclusive_exts@[i as int]@);
            }
            let e = self.format_extension(&self.exclusive_exts[i]);
            if e == file_ext {
                return true;
            }
        }
        false
    }

    /// Both filters together.
    pub fn get_filter_validation(&self, path: &String) -> (r: bool)
        ensures
            r == self.filter_ok(path@),
    {
        let is_exclusive_filename = self.is_exclusive_filename(path);
        let is_exclusive_extension = self.is_exclusive_extension(path);
        is_exclusive_filename && is_exclusive_extension
    }

    /// Whether `dir` is `file` itself or one of its ancestors.
    pub fn is_same_directory(&self, file: &String, dir: &String) -> (r: bool)
        ensures
            r == in_ancestor_chain(dir@, file@),
    {
        is_in_ancestor_chain(dir.as_str(), file.as_str())
    }

    /// Whether `path` is one of the excluded directories or lies beneath
    /// one.
    pub fn is_excluded_directory(&self, path: &String) -> (r: bool)
        ensures
            r == self.dir_excluded(path@),
    {
        let n = self.exclude_dirs.len();
        for i in 0..n
            invariant
                n == self.exclude_dirs@.len(),
                forall|k: int|
                    0 <= k < i ==> !in_ancestor_chain(self.exclude_dirs@[k]@, path@),
        {
            if self.is_same_directory(path, &self.exclude_dirs[i]) {
                return true;
            }
        }
        false
    }

    /// Appends `path` to the result when it passes the filters and is not
    /// there yet.
    pub fn handle_file(&self, path: &String, files: &mut Vec<String>)
        ensures
            final(files).deep_view() == (if !old(files).deep_view().contains(path@)
                && self.filter_ok(path@) {
                old(files).deep_view().push(path@)
            } else {
                old(files).deep_view()
            }),
    {
        let filter_validation = self.get_filter_validation(path);
        if !contains_string(files, path) && filter_validation {
            files.push(path.clone());
            proof {
                assert(files.deep_view() =~= old(files).deep_view().push(path@));
            }
        } else {
            proof {
                assert(files.deep_view() =~= old(files).deep_view());
            }
        }
    }

    /// Records `path` as visited when it is new; the traversal descends
    /// into a directory exactly when this returns true.
    pub fn handle_folder(&self, path: &String, roots: &mut Vec<String>) -> (descend: bool)
        ensures
            descend == !old(roots).deep_view().contains(path@),
            final(roots).deep_view() == (if descend {
                old(roots).deep_view().push(path@)
            } else {
                old(roots).deep_view()
            }),
    {
        if !contains_string(roots, path) {
            roots.push(path.clone());
            proof {
                assert(roots.deep_view() =~= old(roots).deep_view().push(path@));
            }
            true
        } else {
            proof {
                assert(roots.deep_view() =~= old(roots).deep_view());
            }
            false
        }
    }
}

/// Whether one of the strings in `v` has the characters of `x`.
pub fn contains_string(v: &Vec<String>, x: &String) -> (r: bool)
    ensures
        r == v.deep_view().contains(x@),
{
    let n = v.len();
    for i in 0..n
        invariant
            n == v@.len(),
            forall|k: int| 0 <= k < i ==> v.deep_view()[k] != x@,
    {
        proof {
            assert(v.deep_view()[i as int] == v@[i as int]@);
        }
        if v[i] == *x {
            return true;
        }
    }
    false
}

/// Copies borrowed strings into owned ones, in order.
fn copy_strs(v: Vec<&str>) -> (r: Vec<String>)
    ensures
        r.deep_view() == v.deep_view(),
{
    let mut r: Vec<String> = Vec::new();
    let n = v.len();
    for i in 0..n
        invariant
            n == v@.len(),
            r@.len() == i,
            r.deep_view() =~= v.deep_view().take(i as int),
    {
        let ghost r_old = r@;
        r.push(v[i].to_owned());
        proof {
            assert forall|j: int| 0 <= j <= i as int implies r.deep_view()[j] == v.deep_view().take(
                i + 1,
            )[j] by {
                assert(r.deep_view()[j] == r@[j]@);
                assert(v.deep_view()[j] == v@[j]@);
                if j < i as int {
                    assert(r@[j] == r_old[j]);
                    assert(r_old[j]@ == Seq::new(r_old.len(), |k: int| r_old[k]@)[j]);
                }
            }
            assert(r.deep_view() =~= v.deep_view().take(i + 1));
        }
    }
    proof {
        assert(v.deep_view().take(n as int) =~= v.deep_view());
    }
    r
}

/// No two entries of `s` are the same.
pub open spec fn no_dup(s: Seq<Seq<char>>) -> bool {
    forall|i: int, j: int| 0 <= i < j < s.len() ==> s[i] != s[j]
}

/// What the traversal owes one directory entry once it has looked at it: a
/// file that passes the filters is in the results, a subdirectory is
/// recorded as visited, everything else asks nothing.
pub open spec fn entry_done(
    cfg: FileSearch,
    e: Entry,
    roots: Seq<Seq<char>>,
    files: Seq<Seq<char>>,
) -> bool {
    match e.canon {
        Some(p) => match e.kind {
            EntryKind::File => cfg.filter_ok(p@) ==> files.contains(p@),
            EntryKind::Directory => roots.contains(p@),
            EntryKind::Other => true,
        },
        None => true,
    }
}

/// A directory counts as dealt with when it was excluded, unreadable, or
/// every entry of its listing is done.
pub open spec fn dir_processed(
    cfg: FileSearch,
    fs: FsTree,
    d: Seq<char>,
    roots: Seq<Seq<char>>,
    files: Seq<Seq<char>>,
) -> bool {
    (!cfg.dir_excluded(d) && fs.has_listing(d)) ==> forall|k: int|
        0 <= k < fs.entries_of(d).len() ==> entry_done(
            cfg,
            #[trigger] fs.entries_of(d)[k],
            roots,
            files,
        )
}

/// The listing of `a` names a subdirectory that resolved to `b`.
pub open spec fn dir_link(fs: FsTree, a: Seq<char>, b: Seq<char>) -> bool {
    fs.has_listing(a) && exists|j: int|
        0 <= j < fs.entries_of(a).len() && (#[trigger] fs.entries_of(a)[j]).kind is Directory
            && (fs.entries_of(a)[j].canon matches Some(p) && p@ == b)
}

/// The listing of `d` names a regular file that resolved to `f`.
pub open spec fn file_entry(fs: FsTree, d: Seq<char>, f: Seq<char>) -> bool {
    fs.has_listing(d) && exists|j: int|
        0 <= j < fs.entries_of(d).len() && (#[trigger] fs.entries_of(d)[j]).kind is File
            && (fs.entries_of(d)[j].canon matches Some(p) && p@ == f)
}

/// A chain of directories the traversal can walk down: it starts at the
/// root, and each step leaves a directory that is not excluded through one
/// of its listed subdirectories.
pub open spec fn dir_chain(cfg: FileSearch, fs: FsTree, root: Seq<char>, p: Seq<Seq<char>>) -> bool {
    p.len() >= 1 && p[0] == root && forall|i: int|
        0 <= i < p.len() - 1 ==> !cfg.dir_excluded(#[trigger] p[i]) && dir_link(fs, p[i], p[i + 1])
}

/// Whether the traversal can reach directory `d` from `root`.
pub open spec fn dir_reachable(cfg: FileSearch, fs: FsTree, root: Seq<char>, d: Seq<char>) -> bool {
    exists|p: Seq<Seq<char>>| dir_chain(cfg, fs, root, p) && p.last() == d
}

/// Whether the traversal can discover file `f`: some reachable directory
/// that is neither excluded nor unreadable lists it.
pub open spec fn file_discoverable(
    cfg: FileSearch,
    fs: FsTree,
    root: Seq<char>,
    f: Seq<char>,
) -> bool {
    exists|d: Seq<char>|
        dir_reachable(cfg, fs, root, d) && !cfg.dir_excluded(d) && file_entry(fs, d, f)
}

/// How many directories of the snapshot the traversal has not yet visited;
/// the measure that shrinks as it descends.
pub open spec fn unvisited_count(fs: FsTree, visited: Seq<Seq<char>>) -> nat {
    fs.canon_paths().difference(visited.to_set()).len()
}

proof fn lemma_reach_step(cfg: FileSearch, fs: FsTree, root: Seq<char>, a: Seq<char>, b: Seq<char>)
    requires
        dir_reachable(cfg, fs, root, a),
        !cfg.dir_excluded(a),
        dir_link(fs, a, b),
    ensures
        dir_reachable(cfg, fs, root, b),
{
    let p = choose|p: Seq<Seq<char>>| dir_chain(cfg, fs, root, p) && p.last() == a;
    let q = p.push(b);
    assert forall|i: int| 0 <= i < q.len() - 1 implies !cfg.dir_excluded(#[trigger] q[i])
        && dir_link(fs, q[i], q[i + 1]) by {
        if i < p.len() - 1 {
            assert(q[i] == p[i] && q[i + 1] == p[i + 1]);
        } else {
            assert(q[i] == p.last() && q[i + 1] == b);
        }
    }
    assert(dir_chain(cfg, fs, root, q) && q.last() == b);
}

proof fn lemma_chain_processed(
    cfg: FileSearch,
    fs: FsTree,
    root: Seq<char>,
    roots: Seq<Seq<char>>,
    files: Seq<Seq<char>>,
    chain: Seq<Seq<char>>,
)
    requires
        forall|q: Seq<char>| #[trigger]
            roots.contains(q) ==> dir_processed(cfg, fs, q, roots, files) || q == root,
        dir_processed(cfg, fs, root, roots, files),
        dir_chain(cfg, fs, root, chain),
    ensures
        dir_processed(cfg, fs, chain.last(), roots, files),
    decreases chain.len(),
{
    if chain.len() == 1 {
        assert(chain.last() == chain[0]);
    } else {
        let pre = chain.drop_last();
        assert forall|i: int| 0 <= i < pre.len() - 1 implies !cfg.dir_excluded(#[trigger] pre[i])
            && dir_link(fs, pre[i], pre[i + 1]) by {
            assert(pre[i] == chain[i] && pre[i + 1] == chain[i + 1]);
        }
        assert(pre[0] == chain[0]);
        lemma_chain_processed(cfg, fs, root, roots, files, pre);
        let e = pre.last();
        let b = chain.last();
        assert(e == chain[chain.len() - 2]);
        assert(!cfg.dir_excluded(e) && dir_link(fs, e, b));
        let j = choose|j: int|
            0 <= j < fs.entries_of(e).len() && (#[trigger] fs.entries_of(e)[j]).kind is Directory
                && (fs.entries_of(e)[j].canon matches Some(p) && p@ == b);
        assert(entry_done(cfg, fs.entries_of(e)[j], roots, files));
        assert(roots.contains(b));
    }
}

proof fn lemma_contains_mono_prefix(s1: Seq<Seq<char>>, s2: Seq<Seq<char>>)
    requires
        s1.is_prefix_of(s2),
    ensures
        forall|x: Seq<char>| #[trigger] s1.contains(x) ==> s2.contains(x),
{
    assert forall|x: Seq<char>| #[trigger] s1.contains(x) implies s2.contains(x) by {
        let i = choose|i: int| 0 <= i < s1.len() && s1[i] == x;
        assert(s1[i] == s2.subrange(0, s1.len() as int)[i]);
        assert(s2[i] == x);
    }
}

proof fn lemma_prefix_push(s: Seq<Seq<char>>, x: Seq<char>)
    ensures
        s.is_prefix_of(s.push(x)),
{
    assert(s =~= s.push(x).subrange(0, s.len() as int));
}

proof fn lemma_prefix_trans(s1: Seq<Seq<char>>, s2: Seq<Seq<char>>, s3: Seq<Seq<char>>)
    requires
        s1.is_prefix_of(s2),
        s2.is_prefix_of(s3),
    ensures
        s1.is_prefix_of(s3),
{
    assert forall|i: int| 0 <= i < s1.len() implies s1[i] == s3.subrange(
        0,
        s1.len() as int,
    )[i] by {
        assert(s1[i] == s2.subrange(0, s1.len() as int)[i]);
        assert(s2[i] == s3.subrange(0, s2.len() as int)[i]);
    }
    assert(s1 =~= s3.subrange(0, s1.len() as int));
}

proof fn lemma_done_mono(
    cfg: FileSearch,
    e: Entry,
    r1: Seq<Seq<char>>,
    f1: Seq<Seq<char>>,
    r2: Seq<Seq<char>>,
    f2: Seq<Seq<char>>,
)
    requires
        entry_done(cfg, e, r1, f1),
        forall|x: Seq<char>| #[trigger] r1.contains(x) ==> r2.contains(x),
        forall|x: Seq<char>| #[trigger] f1.contains(x) ==> f2.contains(x),
    ensures
        entry_done(cfg, e, r2, f2),
{
}

proof fn lemma_processed_mono(
    cfg: FileSearch,
    fs: FsTree,
    d: Seq<char>,
    r1: Seq<Seq<char>>,
    f1: Seq<Seq<char>>,
    r2: Seq<Seq<char>>,
    f2: Seq<Seq<char>>,
)
    requires
        dir_processed(cfg, fs, d, r1, f1),
        forall|x: Seq<char>| #[trigger] r1.contains(x) ==> r2.contains(x),
        forall|x: Seq<char>| #[trigger] f1.contains(x) ==> f2.contains(x),
    ensures
        dir_processed(cfg, fs, d, r2, f2),
{
    if !cfg.dir_excluded(d) && fs.has_listing(d) {
        assert forall|k: int| 0 <= k < fs.entries_of(d).len() implies entry_done(
            cfg,
            #[trigger] fs.entries_of(d)[k],
            r2,
            f2,
        ) by {
            lemma_done_mono(cfg, fs.entries_of(d)[k], r1, f1, r2, f2);
        }
    }
}

proof fn lemma_no_dup_push(s: Seq<Seq<char>>, x: Seq<char>)
    requires
        no_dup(s),
        !s.contains(x),
    ensures
        no_dup(s.push(x)),
{
    let t = s.push(x);
    assert forall|i: int, j: int| 0 <= i < j < t.len() implies t[i] != t[j] by {
        if j == s.len() {
            assert(s.contains(s[i]));
        } else {
            assert(t[i] == s[i] && t[j] == s[j]);
        }
    }
}

impl FileSearch {
    /// One directory of the depth-first descent: prune it when it is
    /// excluded or was already visited upstream, otherwise take its files
    /// and descend into its fresh subdirectories.
    fn search(
        &self,
        canon: &String,
        fs: &FsTree,
        root0: Ghost<Seq<char>>,
        gray: Ghost<Set<Seq<char>>>,
        m: Ghost<nat>,
        roots: Vec<String>,
        files: Vec<String>,
    ) -> (res: (Vec<String>, Vec<String>))
        requires
            fs.wf(),
            m@ == unvisited_count(*fs, roots.deep_view()),
            dir_reachable(*self, *fs, root0@, canon@),
            forall|q: Seq<char>| #[trigger]
                roots.deep_view().contains(q) ==> dir_processed(
                    *self,
                    *fs,
                    q,
                    roots.deep_view(),
                    files.deep_view(),
                ) || gray@.contains(q) || q == canon@,
            no_dup(files.deep_view()),
            forall|f: Seq<char>| #[trigger]
                files.deep_view().contains(f) ==> file_discoverable(*self, *fs, root0@, f)
                    && self.filter_ok(f),
        ensures
            roots.deep_view().is_prefix_of(res.0.deep_view()),
            files.deep_view().is_prefix_of(res.1.deep_view()),
            forall|q: Seq<char>| #[trigger]
                res.0.deep_view().contains(q) ==> dir_processed(
                    *self,
                    *fs,
                    q,
                    res.0.deep_view(),
                    res.1.deep_view(),
                ) || gray@.contains(q) || q == canon@,
            dir_processed(*self, *fs, canon@, res.0.deep_view(), res.1.deep_view()),
            no_dup(res.1.deep_view()),
            forall|f: Seq<char>| #[trigger]
                res.1.deep_view().contains(f) ==> file_discoverable(*self, *fs, root0@, f)
                    && self.filter_ok(f),
            unvisited_count(*fs, res.0.deep_view()) <= unvisited_count(*fs, roots.deep_view()),
        decreases
            m@,
            (if fs.has_listing(canon@) {
                1int
            } else {
                0int
            }),
    {
        if self.is_excluded_directory(canon) {
            return (roots, files);
        }
        let idx = match fs.lookup(canon) {
            None => {
                return (roots, files);
            },
            Some(i) => i,
        };
        proof {
            let w = fs.index_of(canon@);
            assert(fs.dirs@[w].canon@ == canon@);
            assert(fs.entries_of(canon@) == fs.dirs@[idx as int].entries@);
        }
        let ghost roots_in = roots.deep_view();
        let ghost files_in = files.deep_view();
        let mut roots = roots;
        let mut files = files;
        let n = fs.dirs[idx].entries.len();
        for j in 0..n
            invariant
                fs.wf(),
                idx < fs.dirs@.len(),
                fs.dirs@[idx as int].canon@ == canon@,
                n == fs.dirs@[idx as int].entries@.len(),
                fs.entries_of(canon@) == fs.dirs@[idx as int].entries@,
                fs.has_listing(canon@),
                !self.dir_excluded(canon@),
                dir_reachable(*self, *fs, root0@, canon@),
                roots_in.is_prefix_of(roots.deep_view()),
                files_in.is_prefix_of(files.deep_view()),
                forall|q: Seq<char>| #[trigger]
                    roots.deep_view().contains(q) ==> dir_processed(
                        *self,
                        *fs,
                        q,
                        roots.deep_view(),
                        files.deep_view(),
                    ) || gray@.contains(q) || q == canon@,
                no_dup(files.deep_view()),
                forall|f: Seq<char>| #[trigger]
                    files.deep_view().contains(f) ==> file_discoverable(*self, *fs, root0@, f)
                        && self.filter_ok(f),
                forall|k: int|
                    0 <= k < j ==> entry_done(
                        *self,
                        #[trigger] fs.dirs@[idx as int].entries@[k],
                        roots.deep_view(),
                        files.deep_view(),
                    ),
                unvisited_count(*fs, roots.deep_view()) <= m@,
        {
            broadcast use vstd::seq_lib::lemma_seq_contains_after_push;

            let entry = &fs.dirs[idx].entries[j];
            match &entry.canon {
                None => {},
                Some(p) => {
                    match &entry.kind {
                        EntryKind::Other => {},
                        EntryKind::File => {
                            let ghost files_before = files.deep_view();
                            self.handle_file(p, &mut files);
                            proof {
                                let fnew = files.deep_view();
                                if !files_before.contains(p@) && self.filter_ok(p@) {
                                    assert(fnew == files_before.push(p@));
                                    lemma_prefix_push(files_before, p@);
                                    lemma_no_dup_push(files_before, p@);
                                    assert(file_entry(*fs, canon@, p@)) by {
                                        assert((#[trigger] fs.entries_of(canon@)[j as int]).kind
                                            is File);
                                    }
                                    assert(file_discoverable(*self, *fs, root0@, p@));
                                } else {
                                    assert(fnew == files_before);
                                    assert(files_before.is_prefix_of(fnew));
                                }
                                lemma_prefix_trans(files_in, files_before, fnew);
                                assert forall|x: Seq<char>| #[trigger]
                                    files_before.contains(x) implies fnew.contains(x) by {}
                                assert forall|q: Seq<char>| #[trigger]
                                    roots.deep_view().contains(q) && !gray@.contains(q) && q
                                    != canon@ implies dir_processed(
                                    *self,
                                    *fs,
                                    q,
                                    roots.deep_view(),
                                    fnew,
                                ) by {
                                    lemma_processed_mono(
                                        *self,
                                        *fs,
                                        q,
                                        roots.deep_view(),
                                        files_before,
                                        roots.deep_view(),
                                        fnew,
                                    );
                                }
                                assert forall|k: int| 0 <= k < j + 1 implies entry_done(
                                    *self,
                                    #[trigger] fs.dirs@[idx as int].entries@[k],
                                    roots.deep_view(),
                                    fnew,
                                ) by {
                                    if k < j {
                                        lemma_done_mono(
                                            *self,
                                            fs.dirs@[idx as int].entries@[k],
                                            roots.deep_view(),
                                            files_before,
                                            roots.deep_view(),
                                            fnew,
                                        );
                                    }
                                }
                            }
                        },
                        EntryKind::Directory => {
                            let ghost roots_before = roots.deep_view();
                            let ghost files_before = files.deep_view();
                            let descend = self.handle_folder(p, &mut roots);
                            if descend {
                                let ghost pushed = roots.deep_view();
                                proof {
                                    assert(pushed == roots_before.push(p@));
                                    lemma_prefix_push(roots_before, p@);
                                    lemma_contains_mono_prefix(roots_before, pushed);
                                    roots_before.lemma_push_to_set_commute(p@);
                                    fs.lemma_canon_paths_finite();
                                    fs.lemma_has_listing_in_canon_paths(p@);
                                    assert(roots_before.to_set().contains(p@)
                                        == roots_before.contains(p@));
                                    if fs.has_listing(p@) {
                                        fs.canon_paths().lemma_set_insert_diff_decreases(
                                            roots_before.to_set(),
                                            p@,
                                        );
                                        assert(unvisited_count(*fs, pushed) < unvisited_count(
                                            *fs,
                                            roots_before,
                                        ));
                                    } else {
                                        assert(!fs.canon_paths().contains(p@));
                                        assert(fs.canon_paths().difference(pushed.to_set())
                                            =~= fs.canon_paths().difference(
                                            roots_before.to_set(),
                                        ));
                                    }
                                    assert(unvisited_count(*fs, pushed) <= m@);
                                    assert(dir_link(*fs, canon@, p@)) by {
                                        assert((#[trigger] fs.entries_of(canon@)[j as int]).kind
                                            is Directory);
                                    }
                                    lemma_reach_step(*self, *fs, root0@, canon@, p@);
                                    // the fresh directory is the one entry of the visited
                                    // list that is not yet dealt with; everything else
                                    // carries over unchanged
                                    assert forall|q: Seq<char>| #[trigger]
                                        pushed.contains(q) && !(gray@.insert(canon@)).contains(q)
                                        && q != p@ implies dir_processed(
                                        *self,
                                        *fs,
                                        q,
                                        pushed,
                                        files.deep_view(),
                                    ) by {
                                        assert(roots_before.contains(q));
                                        lemma_processed_mono(
                                            *self,
                                            *fs,
                                            q,
                                            roots_before,
                                            files.deep_view(),
                                            pushed,
                                            files.deep_view(),
                                        );
                                    }
                                }
                                let r = self.search(
                                    p,
                                    fs,
                                    root0,
                                    Ghost(gray@.insert(canon@)),
                                    Ghost(unvisited_count(*fs, pushed)),
                                    roots,
                                    files,
                                );
                                roots = r.0;
                                files = r.1;
                                proof {
                                    let r0 = roots.deep_view();
                                    let f1 = files.deep_view();
                                    lemma_prefix_trans(roots_in, roots_before, pushed);
                                    lemma_prefix_trans(roots_in, pushed, r0);
                                    lemma_prefix_trans(files_in, files_before, f1);
                                    lemma_contains_mono_prefix(pushed, r0);
                                    lemma_contains_mono_prefix(files_before, f1);
                                    lemma_prefix_trans(roots_before, pushed, r0);
                                    lemma_contains_mono_prefix(roots_before, r0);
                                    assert forall|q: Seq<char>| #[trigger]
                                        r0.contains(q) && !gray@.contains(q) && q != canon@
                                        implies dir_processed(*self, *fs, q, r0, f1) by {
                                        if q == p@ {
                                        } else {
                                            assert(!(gray@.insert(canon@)).contains(q));
                                        }
                                    }
                                    assert forall|k: int| 0 <= k < j + 1 implies entry_done(
                                        *self,
                                        #[trigger] fs.dirs@[idx as int].entries@[k],
                                        r0,
                                        f1,
                                    ) by {
                                        if k < j {
                                            lemma_done_mono(
                                                *self,
                                                fs.dirs@[idx as int].entries@[k],
                                                roots_before,
                                                files_before,
                                                r0,
                                                f1,
                                            );
                                        } else {
                                            assert(pushed.contains(p@));
                                            assert(r0.contains(p@));
                                        }
                                    }
                                }
                            } else {
                                proof {
                                    assert(roots.deep_view().contains(p@));
                                }
                            }
                        },
                    }
                },
            }
        }
        (roots, files)
    }

    /// The whole search: walks the snapshot depth first from the resolved
    /// root and returns the canonical path of every discoverable file that
    /// passes both filters, each exactly once. An unresolvable root yields
    /// nothing.
    pub fn search_files(&self, root_canon: Option<&str>, fs: &FsTree) -> (r: Vec<String>)
        requires
            fs.wf(),
        ensures
            no_dup(r.deep_view()),
            match root_canon {
                None => r.deep_view().len() == 0,
                Some(rc) => forall|f: Seq<char>| #[trigger]
                    r.deep_view().contains(f) <==> (file_discoverable(*self, *fs, rc@, f)
                        && self.filter_ok(f)),
            },
    {
        match root_canon {
            None => Vec::new(),
            Some(rc) => {
                let rc_string = rc.to_owned();
                let roots: Vec<String> = Vec::new();
                let files: Vec<String> = Vec::new();
                proof {
                    let chain = seq![rc@];
                    assert(chain.last() == rc@ && chain[0] == rc@);
                    assert(dir_chain(*self, *fs, rc@, chain));
                    assert(dir_reachable(*self, *fs, rc@, rc@));
                    assert(roots.deep_view().len() == 0);
                    assert(files.deep_view().len() == 0);
                }
                let r = self.search(
                    &rc_string,
                    fs,
                    Ghost(rc@),
                    Ghost(Set::empty()),
                    Ghost(unvisited_count(*fs, roots.deep_view())),
                    roots,
                    files,
                );
                let fi = r.1;
                proof {
                    let ro_dv = r.0.deep_view();
                    let fi_dv = fi.deep_view();
                    assert forall|f: Seq<char>|
                        file_discoverable(*self, *fs, rc@, f) && self.filter_ok(f)
                        implies #[trigger] fi_dv.contains(f) by {
                        let d = choose|d: Seq<char>|
                            dir_reachable(*self, *fs, rc@, d) && !self.dir_excluded(d)
                                && file_entry(*fs, d, f);
                        assert forall|q: Seq<char>| #[trigger]
                            ro_dv.contains(q) implies dir_processed(*self, *fs, q, ro_dv, fi_dv)
                            || q == rc@ by {
                            assert(!Set::<Seq<char>>::empty().contains(q));
                        }
                        lemma_reachable_processed(*self, *fs, rc@, ro_dv, fi_dv, d);
                        let j = choose|j: int|
                            0 <= j < fs.entries_of(d).len() && (#[trigger] fs.entries_of(
                                d,
                            )[j]).kind is File && (fs.entries_of(d)[j].canon matches Some(p) && p@
                                == f);
                        assert(entry_done(*self, fs.entries_of(d)[j], ro_dv, fi_dv));
                    }
                }
                fi
            },
        }
    }
}

proof fn lemma_reachable_processed(
    cfg: FileSearch,
    fs: FsTree,
    root: Seq<char>,
    roots: Seq<Seq<char>>,
    files: Seq<Seq<char>>,
    d: Seq<char>,
)
    requires
        forall|q: Seq<char>| #[trigger]
            roots.contains(q) ==> dir_processed(cfg, fs, q, roots, files) || q == root,
        dir_processed(cfg, fs, root, roots, files),
        dir_reachable(cfg, fs, root, d),
    ensures
        dir_processed(cfg, fs, d, roots, files),
{
    let chain = choose|p: Seq<Seq<char>>| dir_chain(cfg, fs, root, p) && p.last() == d;
    lemma_chain_processed(cfg, fs, root, roots, files, chain);
}

/// Excluding a directory excludes every directory beneath it: the
/// exclusion check holds again, and for the same configured entry, at each
/// deeper directory of the pruned subtree.
pub proof fn lemma_exclusion_covers_subtree(cfg: FileSearch, d: Seq<char>, c: Seq<char>)
    requires
        cfg.dir_excluded(d),
        in_ancestor_chain(d, c),
    ensures
        cfg.dir_excluded(c),
{
    let i = choose|i: int|
        0 <= i < cfg.exclude_dirs@.len() && in_ancestor_chain(cfg.exclude_dirs@[i]@, d);
    crate::pathname::lemma_ancestor_chain_trans(cfg.exclude_dirs@[i]@, d, c);
    assert(in_ancestor_chain(cfg.exclude_dirs@[i]@, c));
}

/// Two extension filters whose entries normalize alike accept exactly the
/// same files: how an extension is spelt — its case, surrounding
/// whitespace, a leading dot or none — makes no difference beyond its
/// normalized form.
pub proof fn lemma_extension_spelling_irrelevant(
    exts1: Seq<Seq<char>>,
    exts2: Seq<Seq<char>>,
    path: Seq<char>,
)
    requires
        exts1.len() == exts2.len(),
        forall|i: int| 0 <= i < exts1.len() ==> norm_ext(exts1[i]) == norm_ext(#[trigger] exts2[i]),
    ensures
        ext_passes(exts1, path) == ext_passes(exts2, path),
{
    if exts1.len() > 0 {
        let e = norm_ext(lower_of(ext_of_path(path)));
        if ext_passes(exts1, path) {
            let i = choose|i: int| 0 <= i < exts1.len() && e == norm_ext(exts1[i]);
            assert(e == norm_ext(exts2[i]));
        }
        if ext_passes(exts2, path) {
            let i = choose|i: int| 0 <= i < exts2.len() && e == norm_ext(exts2[i]);
            assert(e == norm_ext(exts1[i]));
        }
    }
}

/// With no filename filter and no extension filter configured, every file
/// passes the combined filter; by the contract of `search_files`, every
/// discoverable file then appears in the result, exactly once.
pub proof fn lemma_empty_filters_pass(cfg: FileSearch, path: Seq<char>)
    requires
        cfg.exclusive_filenames@.len() == 0,
        cfg.exclusive_exts@.len() == 0,
    ensures
        cfg.filter_ok(path),
{
    assert(cfg.exclusive_filenames.deep_view().len() == 0);
    assert(cfg.exclusive_exts.deep_view().len() == 0);
}

} // verus!
