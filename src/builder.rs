//! The entry points: the model of the whole build, the builder that holds the
//! two snapshots and the threshold, and `build_diff_tree`.
use vstd::prelude::*;
use crate::types::{FileMap, PathSet, view_paths};
use crate::paths::{parent_path, split_last, strictly_sorted, lemma_sorted_unique};
use crate::dirs::{dir_set, collect_directories};
use crate::renames::{rename_pairs, detect_renames, pairs_view};
use crate::score::{clamp_spec, clamp_threshold, SCALE};
use crate::laws::{tree_sorted, law_sorted};
use crate::tree::{TreeModel, NodeView, DiffFileEntry, Layout, spec_root, build_root};

verus! {

/// Some rename takes its old path from `q`.
pub open spec fn renamed_away(rs: Seq<(Seq<char>, Seq<char>)>, q: Seq<char>) -> bool {
    exists|j: int| 0 <= j < rs.len() && (#[trigger] rs[j]).1 == q
}

/// Every path that the tree shows: the entries and directories of both
/// sides, but for the old path of a rename that no directory holds.
pub open spec fn tree_paths(from: FileMap, to: FileMap, t: nat) -> Set<Seq<char>> {
    let rs = rename_pairs(from, to, t);
    let fd = dir_set(from);
    let td = dir_set(to);
    Set::new(
        |q: Seq<char>|
            (from.keys().contains(q) && !(renamed_away(rs, q) && !fd.contains(q) && !td.contains(q)))
                || to.keys().contains(q) || fd.contains(q) || td.contains(q),
    )
}

/// The elements of a set of paths in order.
pub open spec fn sorted_paths(s: Set<Seq<char>>) -> Seq<Seq<char>> {
    choose|v: Seq<Seq<char>>| strictly_sorted(v) && v.to_set() == s
}

/// The length of the longest of the first `n` paths.
pub open spec fn max_len(s: Seq<Seq<char>>, n: int) -> int
    decreases n,
{
    if n <= 0 {
        0
    } else {
        let m = max_len(s, n - 1);
        if s[n - 1].len() > m {
            s[n - 1].len() as int
        } else {
            m
        }
    }
}

pub proof fn lemma_max_len(s: Seq<Seq<char>>, n: int)
    ensures
        max_len(s, n) >= 0,
    decreases n,
{
    if n > 0 {
        lemma_max_len(s, n - 1);
    }
}

pub open spec fn tree_model(from: FileMap, to: FileMap, t: nat) -> TreeModel {
    let all = sorted_paths(tree_paths(from, to, t));
    TreeModel {
        from,
        to,
        renames: rename_pairs(from, to, t),
        from_dirs: dir_set(from),
        to_dirs: dir_set(to),
        all,
        bound: max_len(all, all.len() as int),
    }
}

/// The diff tree of two well-formed snapshots under a threshold of `t`
/// millionths, `t` within `0..=SCALE`.
pub open spec fn diff_tree(from: FileMap, to: FileMap, t: nat) -> NodeView {
    spec_root(tree_model(from, to, t))
}

fn is_renamed_away(rs: &Vec<(String, String)>, q: &String) -> (r: bool)
    ensures
        r == renamed_away(pairs_view(rs@), q@),
{
    let mut i: usize = 0;
    while i < rs.len()
        invariant
            i <= rs@.len(),
            forall|j: int| 0 <= j < i ==> (#[trigger] rs@[j]).1@ != q@,
        decreases rs@.len() - i,
    {
        if rs[i].1 == *q {
            proof {
                assert(pairs_view(rs@)[i as int].1 == q@);
            }
            return true;
        }
        i = i + 1;
    }
    proof {
        if renamed_away(pairs_view(rs@), q@) {
            let j = choose|j: int| 0 <= j < rs@.len() && (#[trigger] pairs_view(rs@)[j]).1 == q@;
            assert(rs@[j].1@ == q@);
        }
    }
    false
}

/// Adds every path of `v` to `set`.
fn insert_all(set: &mut PathSet, v: &Vec<String>)
    requires
        old(set).wf(),
    ensures
        final(set).wf(),
        final(set).elems().to_set() == old(set).elems().to_set().union(view_paths(v@).to_set()),
{
    let ghost start = set.elems().to_set();
    let mut i: usize = 0;
    proof {
        assert(view_paths(v@).subrange(0, 0).to_set() =~= Set::<Seq<char>>::empty());
        assert(start.union(Set::<Seq<char>>::empty()) =~= start);
    }
    while i < v.len()
        invariant
            i <= v@.len(),
            set.wf(),
            set.elems().to_set() == start.union(view_paths(v@).subrange(0, i as int).to_set()),
        decreases v@.len() - i,
    {
        set.insert(v[i].clone());
        proof {
            let vp = view_paths(v@);
            assert(vp.subrange(0, i + 1) =~= vp.subrange(0, i as int).push(vp[i as int]));
            vp.subrange(0, i as int).lemma_push_to_set_commute(vp[i as int]);
            assert(set.elems().to_set() =~= start.union(vp.subrange(0, i + 1).to_set()));
        }
        i = i + 1;
    }
    proof {
        assert(view_paths(v@).subrange(0, i as int) =~= view_paths(v@));
    }
}

/// Lays out the tree of two snapshots: the renames, both sides' directories,
/// and every path in order with its parent and length.
fn lay_out(from: &FileMap, to: &FileMap, t: u64) -> (r: Layout)
    requires
        from.wf(),
        to.wf(),
        t <= SCALE,
    ensures
        r.fits(from, to, tree_model(*from, *to, t as nat)),
        strictly_sorted(tree_model(*from, *to, t as nat).all),
{
    let ghost m = tree_model(*from, *to, t as nat);
    let renames = detect_renames(from, to, t);
    let from_dirs = collect_directories(from);
    let to_dirs = collect_directories(to);
    let ghost rs = pairs_view(renames@);
    let ghost fd = dir_set(*from);
    let ghost td = dir_set(*to);
    let mut all = PathSet::new();
    insert_all(&mut all, &to.paths);
    insert_all(&mut all, &from_dirs.items);
    insert_all(&mut all, &to_dirs.items);
    let ghost base = all.elems().to_set();
    let mut i: usize = 0;
    let n = from.paths.len();
    proof {
        assert(Set::new(|q: Seq<char>| from.keys().subrange(0, 0).contains(q) && !(renamed_away(rs, q) && !fd.contains(q) && !td.contains(q))) =~= Set::<Seq<char>>::empty());
        assert(base.union(Set::<Seq<char>>::empty()) =~= base);
    }
    while i < n
        invariant
            from.wf(),
            n == from.keys().len(),
            i <= n,
            all.wf(),
            rs == pairs_view(renames@),
            from_dirs.wf(),
            to_dirs.wf(),
            from_dirs.elems().to_set() == fd,
            to_dirs.elems().to_set() == td,
            all.elems().to_set() == base.union(Set::new(|q: Seq<char>| from.keys().subrange(0, i as int).contains(q)
                && !(renamed_away(rs, q) && !fd.contains(q) && !td.contains(q)))),
        decreases n - i,
    {
        let q = &from.paths[i];
        let gone = is_renamed_away(&renames, q) && !from_dirs.contains(q.as_str()) && !to_dirs.contains(q.as_str());
        let ghost before = all.elems().to_set();
        if !gone {
            all.insert(q.clone());
        }
        proof {
            let ks = from.keys();
            assert(ks.subrange(0, i + 1) =~= ks.subrange(0, i as int).push(ks[i as int]));
            assert(ks[i as int] == q@);
            assert forall|x: Seq<char>| ks.subrange(0, i + 1).contains(x) <==> ks.subrange(0, i as int).contains(x) || x == q@ by {
                if ks.subrange(0, i + 1).contains(x) {
                    let k = ks.subrange(0, i + 1).index_of(x);
                    if k < i {
                        assert(ks.subrange(0, i as int)[k] == x);
                    }
                }
                if ks.subrange(0, i as int).contains(x) {
                    let k = ks.subrange(0, i as int).index_of(x);
                    assert(ks.subrange(0, i + 1)[k] == x);
                }
                if x == q@ {
                    assert(ks.subrange(0, i + 1)[i as int] == x);
                }
            }
            assert(from_dirs.elems().to_set().contains(q@) == from_dirs.elems().contains(q@));
            assert(to_dirs.elems().to_set().contains(q@) == to_dirs.elems().contains(q@));
            assert(gone == (renamed_away(rs, q@) && !fd.contains(q@) && !td.contains(q@)));
            let s_old = Set::new(|x: Seq<char>| ks.subrange(0, i as int).contains(x)
                && !(renamed_away(rs, x) && !fd.contains(x) && !td.contains(x)));
            let s_new = Set::new(|x: Seq<char>| ks.subrange(0, i + 1).contains(x)
                && !(renamed_away(rs, x) && !fd.contains(x) && !td.contains(x)));
            if gone {
                assert(s_new =~= s_old);
            } else {
                assert forall|x: Seq<char>| s_new.contains(x) <==> s_old.insert(q@).contains(x) by {
                    if x == q@ {
                        assert(ks.subrange(0, i + 1)[i as int] == q@);
                        assert(ks.subrange(0, i + 1).contains(x));
                    } else {
                        assert(ks.subrange(0, i + 1).contains(x) == ks.subrange(0, i as int).contains(x));
                    }
                }
                assert(s_new =~= s_old.insert(q@));
            }
            assert(all.elems().to_set() =~= base.union(s_new));
        }
        i = i + 1;
    }
    proof {
        assert(from.keys().subrange(0, n as int) =~= from.keys());
        assert(view_paths(from_dirs.items@).to_set() == fd);
        assert(all.elems().to_set() =~= tree_paths(*from, *to, t as nat));
        lemma_sorted_unique(all.elems(), sorted_paths(tree_paths(*from, *to, t as nat)));
        assert(all.elems() == m.all);
    }
    let mut parents: Vec<String> = Vec::new();
    let mut lens: Vec<usize> = Vec::new();
    let mut bound: usize = 0;
    let mut k: usize = 0;
    let total = all.items.len();
    while k < total
        invariant
            total == all.items@.len(),
            view_paths(all.items@) == m.all,
            k <= total,
            parents@.len() == k,
            lens@.len() == k,
            forall|j: int| 0 <= j < k ==> (#[trigger] parents@[j])@ == parent_path(m.all[j]),
            forall|j: int| 0 <= j < k ==> #[trigger] lens@[j] == m.all[j].len(),
            bound == max_len(m.all, k as int),
        decreases total - k,
    {
        let p = all.items[k].as_str();
        let (parent, _leaf) = split_last(p);
        let len = p.unicode_len();
        parents.push(parent);
        lens.push(len);
        if len > bound {
            bound = len;
        }
        k = k + 1;
    }
    Layout { renames, from_dirs, to_dirs, all: all.items, parents, lens, bound }
}

/// Builds the diff tree of `from` and `to` under a threshold of `t`
/// millionths, `t` within `0..=SCALE`.
fn build_with(from: &FileMap, to: &FileMap, t: u64) -> (r: DiffFileEntry)
    requires
        from.wf(),
        to.wf(),
        t <= SCALE,
    ensures
        r@ == diff_tree(*from, *to, t as nat),
        tree_sorted(r@),
{
    let ghost m = tree_model(*from, *to, t as nat);
    let layout = lay_out(from, to, t);
    proof {
        lemma_max_len(m.all, m.all.len() as int);
        law_sorted(m);
    }
    build_root(from, to, &layout, Ghost(m))
}

/// Holds two snapshots and a similarity threshold, and builds their diff tree.
pub struct DiffTreeBuilder {
    pub from_files: FileMap,
    pub to_files: FileMap,
    /// In millionths, within `0..=SCALE`.
    pub similarity_threshold: u64,
}

impl DiffTreeBuilder {
    pub open spec fn wf(&self) -> bool {
        &&& self.from_files.wf()
        &&& self.to_files.wf()
        &&& self.similarity_threshold <= SCALE
    }

    /// A builder with empty snapshots and the threshold `similarity_threshold`
    /// millionths, clamped to `0..=SCALE`.
    pub fn new(similarity_threshold: i64) -> (r: DiffTreeBuilder)
        ensures
            r.wf(),
            r.from_files.keys().len() == 0,
            r.to_files.keys().len() == 0,
            r.similarity_threshold == clamp_spec(similarity_threshold as int),
    {
        DiffTreeBuilder {
            from_files: FileMap::new(),
            to_files: FileMap::new(),
            similarity_threshold: clamp_threshold(similarity_threshold),
        }
    }

    pub fn set_from_files(&mut self, files: FileMap)
        requires
            old(self).wf(),
            files.wf(),
        ensures
            final(self).wf(),
            final(self).from_files == files,
            final(self).to_files == old(self).to_files,
            final(self).similarity_threshold == old(self).similarity_threshold,
    {
        self.from_files = files;
    }

    pub fn set_to_files(&mut self, files: FileMap)
        requires
            old(self).wf(),
            files.wf(),
        ensures
            final(self).wf(),
            final(self).to_files == files,
            final(self).from_files == old(self).from_files,
            final(self).similarity_threshold == old(self).similarity_threshold,
    {
        self.to_files = files;
    }

    /// The diff tree of the two snapshots.
    pub fn build_tree(&self) -> (r: DiffFileEntry)
        requires
            self.wf(),
        ensures
            r@ == diff_tree(self.from_files, self.to_files, self.similarity_threshold as nat),
            tree_sorted(r@),
    {
        build_with(&self.from_files, &self.to_files, self.similarity_threshold)
    }
}

/// The diff tree of `from_files` and `to_files` under a threshold of
/// `similarity_threshold` millionths, clamped to `0..=SCALE`.
pub fn build_diff_tree(from_files: FileMap, to_files: FileMap, similarity_threshold: i64) -> (r: DiffFileEntry)
    requires
        from_files.wf(),
        to_files.wf(),
    ensures
        r@ == diff_tree(from_files, to_files, clamp_spec(similarity_threshold as int)),
        tree_sorted(r@),
{
    let mut builder = DiffTreeBuilder::new(similarity_threshold);
    builder.set_from_files(from_files);
    builder.set_to_files(to_files);
    builder.build_tree()
}

} // verus!
