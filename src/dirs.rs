//! The directories that a file map holds, explicitly or as ancestors.
use vstd::prelude::*;
use crate::types::{FileMap, FileType, PathSet};

verus! {

/// The proper prefixes of `k` that end right before a `'/'`, among the first
/// `n` positions.
pub open spec fn ancestors_upto(k: Seq<char>, n: int) -> Set<Seq<char>> {
    Set::new(|d: Seq<char>| exists|i: int| 0 < i < n && i < k.len() && k[i] == '/' && d == k.subrange(0, i))
}

pub open spec fn ancestors(k: Seq<char>) -> Set<Seq<char>> {
    ancestors_upto(k, k.len() as int)
}

/// What the first `n` entries of `m` contribute to its directories.
pub open spec fn dirs_upto(m: FileMap, n: int) -> Set<Seq<char>> {
    Set::new(
        |d: Seq<char>|
            exists|j: int|
                #![trigger m.keys()[j]]
                0 <= j < n && (ancestors(m.keys()[j]).contains(d) || (d == m.keys()[j]
                    && m.entries@[j].file_type == FileType::Directory)),
    )
}

/// Every explicit directory entry of `m` and every proper ancestor of an entry.
pub open spec fn dir_set(m: FileMap) -> Set<Seq<char>> {
    dirs_upto(m, m.keys().len() as int)
}

/// The directories of `m`.
pub fn collect_directories(m: &FileMap) -> (r: PathSet)
    requires
        m.wf(),
    ensures
        r.wf(),
        r.elems().to_set() == dir_set(*m),
{
    let mut dirs = PathSet::new();
    let n = m.paths.len();
    let mut j: usize = 0;
    proof {
        assert(dirs.elems().to_set() =~= dirs_upto(*m, 0));
    }
    while j < n
        invariant
            m.wf(),
            n == m.keys().len(),
            j <= n,
            dirs.wf(),
            dirs.elems().to_set() == dirs_upto(*m, j as int),
        decreases n - j,
    {
        let path = &m.paths[j];
        let ghost k = path@;
        let ghost before = dirs.elems().to_set();
        if m.entries[j].file_type == FileType::Directory {
            dirs.insert(path.clone());
        }
        let ghost base = dirs.elems().to_set();
        proof {
            assert(base == before.union(
                if m.entries@[j as int].file_type == FileType::Directory { set![k] } else { Set::empty() },
            ));
            assert(ancestors_upto(k, 0) =~= Set::empty());
            assert(base.union(ancestors_upto(k, 0)) =~= base);
        }
        let len = path.as_str().unicode_len();
        let mut i: usize = 0;
        while i < len
            invariant
                m.wf(),
                n == m.keys().len(),
                j < n,
                *path == m.paths@[j as int],
                k == path@,
                len == k.len(),
                i <= len,
                dirs.wf(),
                dirs.elems().to_set() == base.union(ancestors_upto(k, i as int)),
            decreases len - i,
        {
            if i > 0 && path.as_str().get_char(i) == '/' {
                let prefix = String::from_str(path.as_str().substring_char(0, i));
                dirs.insert(prefix);
                proof {
                    assert(ancestors_upto(k, i + 1) =~= ancestors_upto(k, i as int).insert(k.subrange(0, i as int)));
                }
            } else {
                proof {
                    assert(ancestors_upto(k, i + 1) =~= ancestors_upto(k, i as int));
                }
            }
            proof {
                assert(dirs.elems().to_set() =~= base.union(ancestors_upto(k, i + 1)));
            }
            i = i + 1;
        }
        proof {
            assert(m.keys()[j as int] == k);
            assert forall|d: Seq<char>| #[trigger] dirs_upto(*m, j + 1).contains(d) <==> dirs.elems().to_set().contains(d) by {
                if dirs_upto(*m, j + 1).contains(d) {
                    let jj = choose|jj: int|
                        0 <= jj < j + 1 && (#[trigger] ancestors(m.keys()[jj]).contains(d) || (d == m.keys()[jj]
                            && m.entries@[jj].file_type == FileType::Directory));
                    if jj < j {
                        assert(dirs_upto(*m, j as int).contains(d));
                    }
                }
                if dirs.elems().to_set().contains(d) {
                    if before.contains(d) {
                        let jj = choose|jj: int|
                            0 <= jj < j && (#[trigger] ancestors(m.keys()[jj]).contains(d) || (d == m.keys()[jj]
                                && m.entries@[jj].file_type == FileType::Directory));
                        assert(0 <= jj < j + 1);
                    } else if ancestors(k).contains(d) {
                        assert(ancestors(m.keys()[j as int]).contains(d));
                    } else {
                        assert(d == k);
                    }
                }
            }
            assert(dirs_upto(*m, j + 1) =~= dirs.elems().to_set());
        }
        j = j + 1;
    }
    dirs
}

/// An explicit directory entry is one of the directories.
pub proof fn lemma_explicit_dir(m: FileMap, y: int)
    requires
        0 <= y < m.keys().len(),
        m.entries@[y].file_type == FileType::Directory,
    ensures
        dir_set(m).contains(m.keys()[y]),
{
    let d = m.keys()[y];
    let n = m.keys().len() as int;
    assert(ancestors(m.keys()[y]).contains(d) || (d == m.keys()[y] && m.entries@[y].file_type == FileType::Directory));
    assert(dirs_upto(m, n).contains(d));
}

} // verus!
