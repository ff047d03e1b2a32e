//! Input entries, the sorted file map, and the nodes of the diff tree.
use vstd::prelude::*;
use crate::paths::{compare_paths, path_lt, strictly_sorted, lemma_lt_transitive};

verus! {

#[derive(Clone, Copy, Debug, PartialEq, Eq, Structural)]
pub enum FileType {
    File,
    Directory,
}

#[derive(Clone, Copy, Debug, PartialEq, Eq, Structural)]
pub enum DiffStatus {
    Unchanged,
    Added,
    Removed,
    Modified,
    Renamed,
}

#[derive(Debug)]
pub struct FileMapEntry {
    pub file_type: FileType,
    /// Text of a file; empty for a directory.
    pub content: String,
}

/// A mapping from normalized path to entry, kept sorted by path with each path
/// at most once.
#[derive(Debug)]
pub struct FileMap {
    pub paths: Vec<String>,
    pub entries: Vec<FileMapEntry>,
}

pub open spec fn view_paths(v: Seq<String>) -> Seq<Seq<char>> {
    v.map_values(|s: String| s@)
}

/// Position of `p` in a sorted vector of paths, or where it would go.
pub fn locate_in(v: &Vec<String>, p: &str) -> (r: (usize, bool))
    requires
        strictly_sorted(view_paths(v@)),
    ensures
        r.0 <= v@.len(),
        r.1 ==> r.0 < v@.len() && v@[r.0 as int]@ == p@,
        forall|i: int| 0 <= i < r.0 ==> path_lt(#[trigger] view_paths(v@)[i], p@),
        !r.1 ==> forall|i: int| r.0 <= i < v@.len() ==> path_lt(p@, #[trigger] view_paths(v@)[i]),
{
    let ghost ks = view_paths(v@);
    let n = v.len();
    let mut lo: usize = 0;
    let mut hi: usize = n;
    while lo < hi
        invariant
            n == v@.len(),
            ks == view_paths(v@),
            strictly_sorted(ks),
            lo <= hi <= n,
            forall|k: int| 0 <= k < lo ==> path_lt(#[trigger] ks[k], p@),
            forall|k: int| hi <= k < n ==> path_lt(p@, #[trigger] ks[k]),
        decreases hi - lo,
    {
        let mid = lo + (hi - lo) / 2;
        match compare_paths(v[mid].as_str(), p) {
            core::cmp::Ordering::Less => {
                proof {
                    assert forall|k: int| 0 <= k < mid + 1 implies path_lt(#[trigger] ks[k], p@) by {
                        if k < mid {
                            lemma_lt_transitive(ks[k], ks[mid as int], p@);
                        }
                    }
                }
                lo = mid + 1;
            },
            core::cmp::Ordering::Equal => {
                proof {
                    assert forall|k: int| 0 <= k < mid implies path_lt(#[trigger] ks[k], p@) by {
                        assert(ks[mid as int] == p@);
                    }
                }
                return (mid, true);
            },
            core::cmp::Ordering::Greater => {
                proof {
                    assert forall|k: int| mid <= k < n implies path_lt(p@, #[trigger] ks[k]) by {
                        if k > mid {
                            lemma_lt_transitive(p@, ks[mid as int], ks[k]);
                        }
                    }
                }
                hi = mid;
            },
        }
    }
    (lo, false)
}

/// A set of paths, kept sorted.
#[derive(Debug)]
pub struct PathSet {
    pub items: Vec<String>,
}

impl PathSet {
    pub open spec fn elems(&self) -> Seq<Seq<char>> {
        view_paths(self.items@)
    }

    pub open spec fn wf(&self) -> bool {
        strictly_sorted(self.elems())
    }

    pub fn new() -> (r: PathSet)
        ensures
            r.wf(),
            r.elems().len() == 0,
    {
        let r = PathSet { items: Vec::new() };
        assert(r.elems() =~= Seq::<Seq<char>>::empty());
        r
    }

    pub fn contains(&self, p: &str) -> (r: bool)
        requires
            self.wf(),
        ensures
            r == self.elems().contains(p@),
    {
        let (i, found) = locate_in(&self.items, p);
        proof {
            if !found && self.elems().contains(p@) {
                let k = self.elems().index_of(p@);
                crate::paths::lemma_lt_irreflexive(p@);
            }
            if found {
                assert(self.elems()[i as int] == p@);
            }
        }
        found
    }

    pub fn insert(&mut self, p: String)
        requires
            old(self).wf(),
        ensures
            final(self).wf(),
            final(self).elems().to_set() == old(self).elems().to_set().insert(p@),
    {
        let ghost old_keys = self.elems();
        let ghost pv = p@;
        let (i, found) = locate_in(&self.items, p.as_str());
        if found {
            proof {
                assert(old_keys[i as int] == pv);
                assert(old_keys.to_set() =~= old_keys.to_set().insert(pv));
            }
        } else {
            self.items.insert(i, p);
            proof {
                let ks = self.elems();
                assert(ks =~= old_keys.insert(i as int, pv));
                assert forall|a: int, b: int| 0 <= a < b < ks.len() implies path_lt(#[trigger] ks[a], #[trigger] ks[b]) by {
                    if b == i {
                    } else if a == i {
                    } else if a < i && i < b {
                        lemma_lt_transitive(ks[a], pv, ks[b]);
                    }
                }
                assert forall|x: Seq<char>| ks.contains(x) <==> old_keys.contains(x) || x == pv by {
                    if ks.contains(x) {
                        let k = ks.index_of(x);
                        if k < i {
                            assert(old_keys[k] == x);
                        } else if k > i {
                            assert(old_keys[k - 1] == x);
                        }
                    }
                    if old_keys.contains(x) {
                        let k = old_keys.index_of(x);
                        if k < i {
                            assert(ks[k] == x);
                        } else {
                            assert(ks[k + 1] == x);
                        }
                    }
                    if x == pv {
                        assert(ks[i as int] == x);
                    }
                }
                assert(ks.to_set() =~= old_keys.to_set().insert(pv));
            }
        }
    }
}

impl FileMap {
    pub open spec fn keys(&self) -> Seq<Seq<char>> {
        view_paths(self.paths@)
    }

    pub open spec fn wf(&self) -> bool {
        &&& self.paths@.len() == self.entries@.len()
        &&& strictly_sorted(self.keys())
    }

    pub open spec fn has(&self, p: Seq<char>) -> bool {
        self.keys().contains(p)
    }

    /// The entry stored under `p`, if any.
    pub open spec fn entry_at(&self, p: Seq<char>) -> Option<(FileType, Seq<char>)> {
        if self.has(p) {
            let i = self.keys().index_of(p);
            Some((self.entries@[i].file_type, self.entries@[i].content@))
        } else {
            None
        }
    }

    /// The text of `p` where `p` is a file.
    pub open spec fn content_at(&self, p: Seq<char>) -> Option<Seq<char>> {
        match self.entry_at(p) {
            Some((FileType::File, c)) => Some(c),
            _ => None,
        }
    }

    pub fn new() -> (r: FileMap)
        ensures
            r.wf(),
            r.keys().len() == 0,
    {
        let r = FileMap { paths: Vec::new(), entries: Vec::new() };
        assert(r.keys() =~= Seq::<Seq<char>>::empty());
        r
    }

    pub fn len(&self) -> (r: usize)
        requires
            self.wf(),
        ensures
            r == self.keys().len(),
    {
        self.paths.len()
    }

    fn locate(&self, p: &str) -> (r: (usize, bool))
        requires
            self.wf(),
        ensures
            r.0 <= self.keys().len(),
            r.1 ==> r.0 < self.keys().len() && self.keys()[r.0 as int] == p@,
            forall|i: int| 0 <= i < r.0 ==> path_lt(#[trigger] self.keys()[i], p@),
            !r.1 ==> forall|i: int| r.0 <= i < self.keys().len() ==> path_lt(p@, #[trigger] self.keys()[i]),
    {
        locate_in(&self.paths, p)
    }

    /// Looks up the entry of `p`.
    pub fn get(&self, p: &str) -> (r: Option<&FileMapEntry>)
        requires
            self.wf(),
        ensures
            match r {
                Some(e) => self.entry_at(p@) == Some((e.file_type, e.content@)),
                None => self.entry_at(p@).is_none(),
            },
    {
        let (i, found) = self.locate(p);
        proof {
            if found {
                self.lemma_index_of(i as int);
            } else if self.has(p@) {
                let k = self.keys().index_of(p@);
                if k < i {
                    crate::paths::lemma_lt_irreflexive(p@);
                } else {
                    crate::paths::lemma_lt_irreflexive(p@);
                }
            }
        }
        if found {
            Some(&self.entries[i])
        } else {
            None
        }
    }

    pub proof fn lemma_index_of(&self, i: int)
        requires
            self.wf(),
            0 <= i < self.keys().len(),
        ensures
            self.has(self.keys()[i]),
            self.keys().index_of(self.keys()[i]) == i,
    {
        let p = self.keys()[i];
        assert(self.keys().contains(p));
        let k = self.keys().index_of(p);
        if k != i {
            if k < i {
                crate::paths::lemma_lt_irreflexive(p);
            } else {
                crate::paths::lemma_lt_irreflexive(p);
            }
        }
    }

    /// Stores `entry` under `p`, replacing an entry already there.
    pub fn insert(&mut self, p: String, entry: FileMapEntry)
        requires
            old(self).wf(),
        ensures
            final(self).wf(),
            final(self).keys().to_set() == old(self).keys().to_set().insert(p@),
            final(self).entry_at(p@) == Some((entry.file_type, entry.content@)),
            forall|q: Seq<char>| q != p@ ==> #[trigger] final(self).entry_at(q) == old(self).entry_at(q),
    {
        let ghost old_keys = self.keys();
        let ghost pv = p@;
        let ghost et = (entry.file_type, entry.content@);
        let (i, found) = self.locate(p.as_str());
        if found {
            self.entries.set(i, entry);
            proof {
                assert(self.keys() == old_keys);
                self.lemma_index_of(i as int);
                assert forall|q: Seq<char>| q != pv implies #[trigger] self.entry_at(q) == old(self).entry_at(q) by {
                    if self.has(q) {
                        let k = self.keys().index_of(q);
                        assert(k != i);
                    }
                }
                assert(self.keys().to_set() =~= old_keys.to_set().insert(pv));
            }
        } else {
            self.paths.insert(i, p);
            self.entries.insert(i, entry);
            proof {
                let ks = self.keys();
                assert(ks =~= old_keys.insert(i as int, pv));
                assert forall|a: int, b: int| 0 <= a < b < ks.len() implies path_lt(#[trigger] ks[a], #[trigger] ks[b]) by {
                    if b == i {
                    } else if a == i {
                    } else if a < i && i < b {
                        lemma_lt_transitive(ks[a], pv, ks[b]);
                    }
                }
                self.lemma_index_of(i as int);
                assert forall|q: Seq<char>| q != pv implies #[trigger] self.entry_at(q) == old(self).entry_at(q) by {
                    if old(self).has(q) {
                        let k = old_keys.index_of(q);
                        let k2 = if k < i { k } else { k + 1 };
                        assert(ks[k2] == q);
                        self.lemma_index_of(k2);
                    }
                    if self.has(q) {
                        let k = ks.index_of(q);
                        assert(k != i);
                        let k0 = if k < i { k } else { k - 1 };
                        assert(old_keys[k0] == q);
                    }
                }
                assert forall|x: Seq<char>| ks.contains(x) <==> old_keys.contains(x) || x == pv by {
                    if ks.contains(x) {
                        let k = ks.index_of(x);
                        if k < i {
                            assert(old_keys[k] == x);
                        } else if k > i {
                            assert(old_keys[k - 1] == x);
                        }
                    }
                    if old_keys.contains(x) {
                        let k = old_keys.index_of(x);
                        if k < i {
                            assert(ks[k] == x);
                        } else {
                            assert(ks[k + 1] == x);
                        }
                    }
                    if x == pv {
                        assert(ks[i as int] == x);
                    }
                }
                assert(ks.to_set() =~= old_keys.to_set().insert(pv));
            }
        }
    }
}

} // verus!
