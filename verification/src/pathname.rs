//! Canonical paths as character strings.
//!
//! A canonical path is an absolute, symlink-free path whose components are
//! separated by `/`. This module gives the scanner the pieces it reads from
//! such a path — the file name, its stem, its extension — and the
//! ancestor-chain test used for directory exclusion.

use vstd::prelude::*;
use vstd::string::StrSliceExecFns;

verus! {

/// The largest index at which `c` occurs in `s`, or `-1` when it does not
/// occur at all.
pub open spec fn last_index_of(s: Seq<char>, c: char) -> int
    decreases s.len(),
{
    if s.len() == 0 {
        -1
    } else if s[s.len() - 1] == c {
        s.len() - 1
    } else {
        last_index_of(s.drop_last(), c)
    }
}

pub proof fn lemma_last_index_of(s: Seq<char>, c: char)
    ensures
        -1 <= last_index_of(s, c) < s.len(),
        last_index_of(s, c) == -1 ==> forall|k: int| 0 <= k < s.len() ==> s[k] != c,
        last_index_of(s, c) >= 0 ==> s[last_index_of(s, c)] == c,
        forall|k: int| last_index_of(s, c) < k < s.len() ==> s[k] != c,
    decreases s.len(),
{
    if s.len() == 0 {
    } else if s[s.len() - 1] == c {
    } else {
        lemma_last_index_of(s.drop_last(), c);
        assert(forall|k: int| 0 <= k < s.len() - 1 ==> s.drop_last()[k] == s[k]);
    }
}

/// The part of `s` after its last `/`; all of `s` when it has none.
pub open spec fn file_name_of(s: Seq<char>) -> Seq<char> {
    s.subrange(last_index_of(s, '/') + 1, s.len() as int)
}

/// The stem of a file name: the name up to its last `.`, except that a
/// name whose only `.` stands first (a hidden file) and a name without a
/// `.` are their own stem.
pub open spec fn stem_of_name(name: Seq<char>) -> Seq<char> {
    let d = last_index_of(name, '.');
    if d <= 0 {
        name
    } else {
        name.subrange(0, d)
    }
}

/// The extension of a file name: what follows its last `.`, under the same
/// exceptions as [`stem_of_name`]; empty when there is none.
pub open spec fn ext_of_name(name: Seq<char>) -> Seq<char> {
    let d = last_index_of(name, '.');
    if d <= 0 {
        Seq::empty()
    } else {
        name.subrange(d + 1, name.len() as int)
    }
}

/// The stem of the file a path points at.
pub open spec fn stem_of_path(p: Seq<char>) -> Seq<char> {
    stem_of_name(file_name_of(p))
}

/// The extension of the file a path points at; empty when there is none.
pub open spec fn ext_of_path(p: Seq<char>) -> Seq<char> {
    ext_of_name(file_name_of(p))
}

/// Whether `dir` is `path` itself or one of its ancestors: `dir` is a
/// prefix of `path` that ends at a component boundary.
pub open spec fn in_ancestor_chain(dir: Seq<char>, path: Seq<char>) -> bool {
    path == dir || (dir.len() < path.len() && path.subrange(0, dir.len() as int) == dir && (
    path[dir.len() as int] == '/' || (dir.len() > 0 && dir[dir.len() - 1] == '/')))
}

/// The ancestor-chain relation is transitive: what contains a directory
/// contains everything beneath that directory.
pub proof fn lemma_ancestor_chain_trans(x: Seq<char>, d: Seq<char>, c: Seq<char>)
    requires
        in_ancestor_chain(x, d),
        in_ancestor_chain(d, c),
    ensures
        in_ancestor_chain(x, c),
{
    if x == d || d == c {
    } else {
        assert(x.len() < d.len() < c.len());
        assert forall|i: int| 0 <= i < x.len() implies c.subrange(0, x.len() as int)[i]
            == x[i] by {
            assert(c.subrange(0, d.len() as int)[i] == c[i]);
            assert(d.subrange(0, x.len() as int)[i] == d[i]);
        }
        assert(c.subrange(0, x.len() as int) =~= x);
        if x.len() > 0 && x[x.len() - 1] == '/' {
        } else {
            assert(d[x.len() as int] == '/');
            assert(c.subrange(0, d.len() as int)[x.len() as int] == c[x.len() as int]);
        }
    }
}

/// The largest index at which `c` occurs in `s`, if any.
pub fn last_index(s: &str, c: char) -> (r: Option<usize>)
    ensures
        match r {
            Some(i) => i < s@.len() && i == last_index_of(s@, c),
            None => last_index_of(s@, c) == -1,
        },
{
    let n = s.unicode_len();
    let mut i = n;
    while i > 0
        invariant
            i <= n,
            n == s@.len(),
            forall|k: int| i <= k < n ==> s@[k] != c,
        decreases i,
    {
        i = i - 1;
        if s.get_char(i) == c {
            proof {
                lemma_last_index_of(s@, c);
            }
            return Some(i);
        }
    }
    proof {
        lemma_last_index_of(s@, c);
    }
    None
}

/// The part of `s` after its last `/`; all of `s` when it has none.
pub fn file_name(s: &str) -> (r: &str)
    ensures
        r@ == file_name_of(s@),
{
    let n = s.unicode_len();
    match last_index(s, '/') {
        Some(i) => s.substring_char(i + 1, n),
        None => {
            proof {
                assert(s@.subrange(0, s@.len() as int) =~= s@);
            }
            s
        },
    }
}

/// The stem of the file `s` points at.
pub fn path_stem(s: &str) -> (r: &str)
    ensures
        r@ == stem_of_path(s@),
{
    let name = file_name(s);
    match last_index(name, '.') {
        Some(d) if d > 0 => name.substring_char(0, d),
        _ => name,
    }
}

/// The extension of the file `s` points at; empty when there is none.
pub fn path_ext(s: &str) -> (r: &str)
    ensures
        r@ == ext_of_path(s@),
{
    let name = file_name(s);
    let n = name.unicode_len();
    match last_index(name, '.') {
        Some(d) if d > 0 => name.substring_char(d + 1, n),
        _ => {
            let empty = "";
            proof {
                reveal_strlit("");
                assert(empty@ =~= Seq::<char>::empty());
            }
            empty
        },
    }
}

/// Whether `dir` is `path` itself or one of its ancestors.
pub fn is_in_ancestor_chain(dir: &str, path: &str) -> (r: bool)
    ensures
        r == in_ancestor_chain(dir@, path@),
{
    let nd = dir.unicode_len();
    let np = path.unicode_len();
    if nd > np {
        return false;
    }
    let mut i: usize = 0;
    while i < nd
        invariant
            i <= nd <= np,
            nd == dir@.len(),
            np == path@.len(),
            forall|k: int| 0 <= k < i ==> path@[k] == dir@[k],
        decreases nd - i,
    {
        if dir.get_char(i) != path.get_char(i) {
            proof {
                assert(path@ != dir@);
                assert(path@.subrange(0, nd as int)[i as int] == path@[i as int]);
            }
            return false;
        }
        i = i + 1;
    }
    if nd == np {
        proof {
            assert(path@ =~= dir@);
        }
        return true;
    }
    proof {
        assert(path@.subrange(0, nd as int) =~= dir@);
    }
    if path.get_char(nd) == '/' {
        return true;
    }
    nd > 0 && dir.get_char(nd - 1) == '/'
}

} // verus!
