//! Laws of the diff tree, proved over the model of the build.
use vstd::prelude::*;
use crate::types::{FileMap, FileType, DiffStatus};
use crate::tree::{
    NodeView, TreeModel, spec_node, spec_children, spec_root, file_node, dir_status, child_of,
    sum_added, sum_removed, all_unchanged, rename_source,
};
use crate::paths::strictly_sorted;
use crate::builder::{diff_tree, tree_model, tree_paths, renamed_away};
use crate::dirs::dir_set;
use crate::renames::{only_in, rename_pairs, rename_matches, pairs_upto, added_files, deleted_files, del_path};
use crate::score::{clamp_spec, SCALE};

verus! {

pub open spec fn child_paths(v: NodeView) -> Seq<Seq<char>> {
    v.children.map_values(|c: NodeView| c.path)
}

/// Every node's children are strictly ascending by path.
pub open spec fn tree_sorted(v: NodeView) -> bool
    decreases v,
{
    &&& strictly_sorted(child_paths(v))
    &&& forall|i: int| 0 <= i < v.children.len() ==> tree_sorted(#[trigger] v.children[i])
}

/// Every directory's counts are the sums of its children's.
pub open spec fn tree_sums(v: NodeView) -> bool
    decreases v,
{
    &&& v.file_type == FileType::Directory ==> v.added == Some(sum_added(v.children)) && v.removed == Some(
        sum_removed(v.children),
    )
    &&& forall|i: int| 0 <= i < v.children.len() ==> tree_sums(#[trigger] v.children[i])
}

/// An unchanged directory has only unchanged children, and so only unchanged
/// descendants.
pub open spec fn tree_status(v: NodeView) -> bool
    decreases v,
{
    &&& v.file_type == FileType::Directory && v.status == DiffStatus::Unchanged ==> all_unchanged(v.children)
    &&& forall|i: int| 0 <= i < v.children.len() ==> tree_status(#[trigger] v.children[i])
}

/// Every node is unchanged, with no line added or removed.
pub open spec fn tree_quiet(v: NodeView) -> bool
    decreases v,
{
    &&& v.status == DiffStatus::Unchanged
    &&& v.added == Some(0u64)
    &&& v.removed == Some(0u64)
    &&& forall|i: int| 0 <= i < v.children.len() ==> tree_quiet(#[trigger] v.children[i])
}

pub open spec fn node_ok(v: NodeView) -> bool {
    tree_sums(v) && tree_status(v)
}

proof fn lemma_node_ok(m: TreeModel, p: Seq<char>)
    ensures
        node_ok(spec_node(m, p)),
    decreases m.bound - p.len(), m.all.len() + 1,
{
    let v = spec_node(m, p);
    if resolve_is_file(m, p) {
        assert(v.children.len() == 0);
    } else {
        lemma_children_ok(m, p, 0);
        let cs = spec_children(m, p, 0);
        assert(v.children == cs);
        assert forall|i: int| 0 <= i < v.children.len() implies tree_sums(#[trigger] v.children[i]) && tree_status(v.children[i]) by {
            assert(node_ok(cs[i]));
        }
    }
}

pub open spec fn resolve_is_file(m: TreeModel, p: Seq<char>) -> bool {
    crate::tree::resolve_type(m, p) == FileType::File
}

proof fn lemma_children_ok(m: TreeModel, p: Seq<char>, i: int)
    ensures
        forall|k: int| 0 <= k < spec_children(m, p, i).len() ==> node_ok(#[trigger] spec_children(m, p, i)[k]),
    decreases m.bound - p.len(), m.all.len() - i,
{
    if i < 0 || i >= m.all.len() {
    } else {
        let q = m.all[i];
        lemma_children_ok(m, p, i + 1);
        if child_of(m, p, q) {
            lemma_node_ok(m, q);
            let cs = spec_children(m, p, i);
            let rest = spec_children(m, p, i + 1);
            assert(cs == seq![spec_node(m, q)] + rest);
            assert forall|k: int| 0 <= k < cs.len() implies node_ok(#[trigger] cs[k]) by {
                if k > 0 {
                    assert(cs[k] == rest[k - 1]);
                } else {
                    assert(cs[0] == spec_node(m, q));
                }
            }
        } else {
            assert(spec_children(m, p, i) == spec_children(m, p, i + 1));
        }
    }
}

/// Aggregation: in the tree of any two snapshots, each directory's added and
/// removed counts are the sums, held at `u64::MAX`, of its children's, and so
/// of its files'.
pub proof fn law_aggregation(from: FileMap, to: FileMap, t: nat)
    ensures
        tree_sums(diff_tree(from, to, t)),
{
    let m = tree_model(from, to, t);
    lemma_children_ok(m, seq![], 0);
    let v = diff_tree(from, to, t);
    assert forall|i: int| 0 <= i < v.children.len() implies tree_sums(#[trigger] v.children[i]) by {
        assert(node_ok(v.children[i]));
    }
}

/// Status monotonicity: in the tree of any two snapshots, an unchanged
/// directory has only unchanged descendants; the root, present on both
/// sides, is unchanged exactly when all its children are.
pub proof fn law_status(from: FileMap, to: FileMap, t: nat)
    ensures
        tree_status(diff_tree(from, to, t)),
        diff_tree(from, to, t).status == DiffStatus::Unchanged <==> all_unchanged(diff_tree(from, to, t).children),
{
    let m = tree_model(from, to, t);
    lemma_children_ok(m, seq![], 0);
    let v = diff_tree(from, to, t);
    assert forall|i: int| 0 <= i < v.children.len() implies tree_status(#[trigger] v.children[i]) by {
        assert(node_ok(v.children[i]));
    }
}

proof fn lemma_only_in_self(a: FileMap, n: int)
    requires
        a.wf(),
        n <= a.keys().len(),
    ensures
        only_in(a, a, n) == Seq::<int>::empty(),
    decreases n,
{
    if n > 0 {
        lemma_only_in_self(a, n - 1);
        a.lemma_index_of(n - 1);
    }
}

proof fn lemma_sums_zero(cs: Seq<NodeView>)
    requires
        forall|k: int| 0 <= k < cs.len() ==> (#[trigger] cs[k]).added == Some(0u64) && cs[k].removed == Some(0u64),
    ensures
        sum_added(cs) == 0,
        sum_removed(cs) == 0,
    decreases cs.len(),
{
    if cs.len() > 0 {
        let c = cs.last();
        assert(cs[cs.len() - 1] == c);
        lemma_sums_zero(cs.drop_last());
    }
}

pub open spec fn same_sides(m: TreeModel) -> bool {
    &&& m.from == m.to
    &&& m.renames.len() == 0
    &&& m.from_dirs == m.to_dirs
}

proof fn lemma_quiet_node(m: TreeModel, p: Seq<char>)
    requires
        same_sides(m),
    ensures
        tree_quiet(spec_node(m, p)),
    decreases m.bound - p.len(), m.all.len() + 1,
{
    let v = spec_node(m, p);
    if resolve_is_file(m, p) {
        assert(rename_source(m.renames, p, 0).is_none());
        assert(v.children.len() == 0);
    } else {
        lemma_quiet_children(m, p, 0);
        let cs = spec_children(m, p, 0);
        assert(v.children == cs);
        lemma_sums_zero(cs);
        assert(all_unchanged(cs));
    }
}

proof fn lemma_quiet_children(m: TreeModel, p: Seq<char>, i: int)
    requires
        same_sides(m),
    ensures
        forall|k: int| 0 <= k < spec_children(m, p, i).len() ==> tree_quiet(#[trigger] spec_children(m, p, i)[k]),
    decreases m.bound - p.len(), m.all.len() - i,
{
    if i < 0 || i >= m.all.len() {
    } else {
        let q = m.all[i];
        lemma_quiet_children(m, p, i + 1);
        let cs = spec_children(m, p, i);
        let rest = spec_children(m, p, i + 1);
        if child_of(m, p, q) {
            lemma_quiet_node(m, q);
            assert(cs == seq![spec_node(m, q)] + rest);
            assert forall|k: int| 0 <= k < cs.len() implies tree_quiet(#[trigger] cs[k]) by {
                if k > 0 {
                    assert(cs[k] == rest[k - 1]);
                } else {
                    assert(cs[0] == spec_node(m, q));
                }
            }
        } else {
            assert(cs == rest);
        }
    }
}

/// Identity: the tree of a snapshot against itself has every node unchanged,
/// with no line added or removed.
pub proof fn law_identity(files: FileMap, t: nat)
    requires
        files.wf(),
    ensures
        tree_quiet(diff_tree(files, files, t)),
{
    let m = tree_model(files, files, t);
    lemma_only_in_self(files, files.keys().len() as int);
    assert(added_files(files, files).len() == 0);
    assert(rename_pairs(files, files, t) == pairs_upto(files, files, t, 0));
    assert(same_sides(m));
    lemma_quiet_children(m, seq![], 0);
    let cs = spec_children(m, seq![], 0);
    lemma_sums_zero(cs);
    assert(all_unchanged(cs));
    let v = diff_tree(files, files, t);
    assert(v.children == cs);
    assert forall|i: int| 0 <= i < v.children.len() implies tree_quiet(#[trigger] v.children[i]) by {
        assert(tree_quiet(cs[i]));
    }
}

/// Clamping: thresholds below zero act as zero, and thresholds above one as one.
pub proof fn law_clamp(from: FileMap, to: FileMap, low: int, high: int)
    requires
        low <= 0,
        high >= SCALE,
    ensures
        diff_tree(from, to, clamp_spec(low)) == diff_tree(from, to, clamp_spec(0)),
        diff_tree(from, to, clamp_spec(high)) == diff_tree(from, to, clamp_spec(SCALE as int)),
{
}

/// Determinism: two trees built from the same snapshots and threshold are equal.
pub proof fn law_determinism(from: FileMap, to: FileMap, t: int, first: NodeView, second: NodeView)
    requires
        first == diff_tree(from, to, clamp_spec(t)),
        second == diff_tree(from, to, clamp_spec(t)),
    ensures
        first == second,
{
}

proof fn lemma_sorted_node(m: TreeModel, p: Seq<char>)
    requires
        strictly_sorted(m.all),
    ensures
        tree_sorted(spec_node(m, p)),
        spec_node(m, p).path == p,
    decreases m.bound - p.len(), m.all.len() + 1,
{
    let v = spec_node(m, p);
    if resolve_is_file(m, p) {
        assert(v.children.len() == 0);
        assert(child_paths(v) =~= Seq::<Seq<char>>::empty());
    } else {
        lemma_sorted_children(m, p, 0);
        let cs = spec_children(m, p, 0);
        assert(v.children == cs);
        assert(child_paths(v) == cs.map_values(|c: NodeView| c.path));
    }
}

proof fn lemma_sorted_children(m: TreeModel, p: Seq<char>, i: int)
    requires
        strictly_sorted(m.all),
    ensures
        forall|k: int| 0 <= k < spec_children(m, p, i).len() ==> tree_sorted(#[trigger] spec_children(m, p, i)[k]),
        strictly_sorted(spec_children(m, p, i).map_values(|c: NodeView| c.path)),
        forall|k: int| 0 <= k < spec_children(m, p, i).len() ==> exists|j: int| i <= j < m.all.len() && (#[trigger] spec_children(m, p, i)[k]).path == m.all[j],
    decreases m.bound - p.len(), m.all.len() - i,
{
    let cs = spec_children(m, p, i);
    if i < 0 || i >= m.all.len() {
        assert(cs.map_values(|c: NodeView| c.path) =~= Seq::<Seq<char>>::empty());
    } else {
        let q = m.all[i];
        lemma_sorted_children(m, p, i + 1);
        let rest = spec_children(m, p, i + 1);
        if child_of(m, p, q) {
            lemma_sorted_node(m, q);
            assert(cs == seq![spec_node(m, q)] + rest);
            let ps = cs.map_values(|c: NodeView| c.path);
            let rs = rest.map_values(|c: NodeView| c.path);
            assert forall|k: int| 0 <= k < cs.len() implies tree_sorted(#[trigger] cs[k]) && exists|j: int| i <= j < m.all.len() && cs[k].path == m.all[j] by {
                if k > 0 {
                    assert(cs[k] == rest[k - 1]);
                    let j = choose|j: int| i + 1 <= j < m.all.len() && (#[trigger] rest[k - 1]).path == m.all[j];
                    assert(cs[k].path == m.all[j]);
                } else {
                    assert(cs[0] == spec_node(m, q));
                    assert(cs[0].path == m.all[i]);
                }
            }
            assert forall|a: int, b: int| 0 <= a < b < ps.len() implies crate::paths::path_lt(#[trigger] ps[a], #[trigger] ps[b]) by {
                assert(ps[b] == rs[b - 1]);
                assert(rest[b - 1] == cs[b]);
                let jb = choose|j: int| i + 1 <= j < m.all.len() && (#[trigger] rest[b - 1]).path == m.all[j];
                if a == 0 {
                    assert(ps[0] == q);
                    assert(crate::paths::path_lt(m.all[i], m.all[jb]));
                } else {
                    assert(ps[a] == rs[a - 1]);
                }
            }
        } else {
            assert(cs == rest);
            assert forall|k: int| 0 <= k < cs.len() implies exists|j: int| i <= j < m.all.len() && (#[trigger] cs[k]).path == m.all[j] by {
                let j = choose|j: int| i + 1 <= j < m.all.len() && (#[trigger] rest[k]).path == m.all[j];
            }
        }
    }
}

/// Sortedness: the root's children and every directory's below are strictly ascending by
/// path, for any model whose paths are sorted.
pub proof fn law_sorted(m: TreeModel)
    requires
        strictly_sorted(m.all),
    ensures
        tree_sorted(spec_root(m)),
{
    lemma_sorted_children(m, seq![], 0);
    let v = spec_root(m);
    let cs = spec_children(m, seq![], 0);
    assert(v.children == cs);
    assert(child_paths(v) == cs.map_values(|c: NodeView| c.path));
}

proof fn lemma_pairs_sources(from: FileMap, to: FileMap, t: nat, n: int)
    requires
        0 <= n <= added_files(from, to).len(),
        forall|i: int| 0 <= i < rename_matches(from, to, t).len() ==> (#[trigger] rename_matches(from, to, t)[i] matches Some(k) ==> 0 <= k < deleted_files(from, to).len()),
        rename_matches(from, to, t).len() == added_files(from, to).len(),
    ensures
        forall|j: int| 0 <= j < pairs_upto(from, to, t, n).len() ==> exists|k: int| 0 <= k < deleted_files(from, to).len() && (#[trigger] pairs_upto(from, to, t, n)[j]).1 == del_path(from, to, k),
    decreases n,
{
    if n > 0 {
        lemma_pairs_sources(from, to, t, n - 1);
        let r = pairs_upto(from, to, t, n - 1);
        let ps = pairs_upto(from, to, t, n);
        match rename_matches(from, to, t)[n - 1] {
            Some(k) => {
                assert forall|j: int| 0 <= j < ps.len() implies exists|k2: int| 0 <= k2 < deleted_files(from, to).len() && (#[trigger] ps[j]).1 == del_path(from, to, k2) by {
                    if j < r.len() {
                        assert(ps[j] == r[j]);
                        let k2 = choose|k2: int| 0 <= k2 < deleted_files(from, to).len() && (#[trigger] r[j]).1 == del_path(from, to, k2);
                    } else {
                        assert(ps[j].1 == del_path(from, to, k));
                    }
                }
            },
            None => {},
        }
    }
}

/// Renames leave no trace of their source: the old path of a rename, unless
/// it is a directory of either side, is no path of the tree.
pub proof fn law_rename_source_gone(from: FileMap, to: FileMap, t: nat, j: int)
    requires
        from.wf(),
        to.wf(),
        0 <= j < rename_pairs(from, to, t).len(),
        !dir_set(from).contains(rename_pairs(from, to, t)[j].1),
        !dir_set(to).contains(rename_pairs(from, to, t)[j].1),
    ensures
        !tree_paths(from, to, t).contains(rename_pairs(from, to, t)[j].1),
{
    let rs = rename_pairs(from, to, t);
    let q = rs[j].1;
    crate::renames::law_rename_sources_unique(from, to, t);
    lemma_pairs_sources(from, to, t, added_files(from, to).len() as int);
    let k = choose|k: int| 0 <= k < deleted_files(from, to).len() && (#[trigger] rs[j]).1 == del_path(from, to, k);
    crate::renames::lemma_only_in(from, to, from.keys().len() as int);
    let x = deleted_files(from, to)[k];
    assert(to.content_at(q).is_none());
    assert(renamed_away(rs, q));
    if to.keys().contains(q) {
        let y = to.keys().index_of(q);
        to.lemma_index_of(y);
        assert(to.entries@[y].file_type == FileType::Directory);
        assert(to.keys()[y] == q);
        crate::dirs::lemma_explicit_dir(to, y);
    }
}

/// Swapping sides, for a file that no rename reaches either way: an added
/// file becomes removed and the other way round, with the added and removed
/// counts exchanged; unchanged and modified files keep their status. (The
/// counts of a modified file come from the line diff in each direction, and a
/// rename found one way need not be found the other way, as the passes are
/// greedy in the order of the added paths.)
pub proof fn law_swap_file(from: FileMap, to: FileMap, t: nat, p: Seq<char>)
    requires
        rename_source(rename_pairs(from, to, t), p, rename_pairs(from, to, t).len() as int).is_none(),
        rename_source(rename_pairs(to, from, t), p, rename_pairs(to, from, t).len() as int).is_none(),
    ensures
        ({
            let a = file_node(tree_model(from, to, t), p);
            let b = file_node(tree_model(to, from, t), p);
            &&& a.status == DiffStatus::Added <==> b.status == DiffStatus::Removed
            &&& a.status == DiffStatus::Removed <==> b.status == DiffStatus::Added
            &&& a.status == DiffStatus::Unchanged <==> b.status == DiffStatus::Unchanged
            &&& a.status == DiffStatus::Modified <==> b.status == DiffStatus::Modified
            &&& a.status != DiffStatus::Modified ==> a.added == b.removed && a.removed == b.added
        }),
{
}

/// Swapping sides turns a directory that only one side has from added into
/// removed and the other way round, whatever its children.
pub proof fn law_swap_dir(in_from: bool, in_to: bool, cs: Seq<NodeView>, swapped: Seq<NodeView>)
    requires
        in_from != in_to,
    ensures
        dir_status(in_from, in_to, cs) == DiffStatus::Added <==> dir_status(in_to, in_from, swapped)
            == DiffStatus::Removed,
        dir_status(in_from, in_to, cs) == DiffStatus::Removed <==> dir_status(in_to, in_from, swapped)
            == DiffStatus::Added,
{
}

/// Positions of the added files behind each rename, in order.
proof fn lemma_pairs_index(from: FileMap, to: FileMap, t: nat, n: int) -> (idx: Seq<int>)
    requires
        0 <= n <= rename_matches(from, to, t).len(),
    ensures
        idx.len() == pairs_upto(from, to, t, n).len(),
        forall|j: int| 0 <= j < idx.len() ==> 0 <= #[trigger] idx[j] < n,
        forall|j1: int, j2: int| 0 <= j1 < j2 < idx.len() ==> #[trigger] idx[j1] < #[trigger] idx[j2],
        forall|j: int| 0 <= j < idx.len() ==> ((#[trigger] rename_matches(from, to, t)[idx[j]]) matches Some(k)
            && pairs_upto(from, to, t, n)[j] == (crate::renames::add_path(from, to, idx[j]), del_path(from, to, k))),
    decreases n,
{
    if n <= 0 {
        seq![]
    } else {
        let prev = lemma_pairs_index(from, to, t, n - 1);
        match rename_matches(from, to, t)[n - 1] {
            Some(k) => {
                let idx = prev.push(n - 1);
                let ps = pairs_upto(from, to, t, n);
                assert forall|j: int| 0 <= j < idx.len() implies ((#[trigger] rename_matches(from, to, t)[idx[j]]) matches Some(k2)
                    && ps[j] == (crate::renames::add_path(from, to, idx[j]), del_path(from, to, k2))) by {
                    if j < prev.len() {
                        assert(idx[j] == prev[j]);
                        assert(ps[j] == pairs_upto(from, to, t, n - 1)[j]);
                    }
                }
                assert forall|j1: int, j2: int| 0 <= j1 < j2 < idx.len() implies #[trigger] idx[j1] < #[trigger] idx[j2] by {
                    if j2 < prev.len() {
                        assert(idx[j1] == prev[j1] && idx[j2] == prev[j2]);
                    } else {
                        assert(idx[j1] == prev[j1]);
                    }
                }
                assert forall|j: int| 0 <= j < idx.len() implies 0 <= #[trigger] idx[j] < n by {
                    if j < prev.len() {
                        assert(idx[j] == prev[j]);
                    }
                }
                idx
            },
            None => prev,
        }
    }
}

/// Rename uniqueness: no two renames share an old path, nor a new path.
pub proof fn law_rename_unique(from: FileMap, to: FileMap, t: nat)
    requires
        from.wf(),
        to.wf(),
    ensures
        forall|j1: int, j2: int|
            0 <= j1 < rename_pairs(from, to, t).len() && 0 <= j2 < rename_pairs(from, to, t).len() && j1 != j2
                ==> (#[trigger] rename_pairs(from, to, t)[j1]).1 != (#[trigger] rename_pairs(from, to, t)[j2]).1
                && rename_pairs(from, to, t)[j1].0 != rename_pairs(from, to, t)[j2].0,
{
    let rs = rename_pairs(from, to, t);
    let na = added_files(from, to).len() as int;
    crate::renames::law_rename_sources_unique(from, to, t);
    let idx = lemma_pairs_index(from, to, t, na);
    crate::renames::lemma_only_in(from, to, from.keys().len() as int);
    crate::renames::lemma_only_in(to, from, to.keys().len() as int);
    assert forall|j1: int, j2: int|
        0 <= j1 < rs.len() && 0 <= j2 < rs.len() && j1 != j2 implies (#[trigger] rs[j1]).1 != (#[trigger] rs[j2]).1
            && rs[j1].0 != rs[j2].0 by {
        let i1 = idx[j1];
        let i2 = idx[j2];
        assert(i1 != i2) by {
            if j1 < j2 {
                assert(idx[j1] < idx[j2]);
            } else {
                assert(idx[j2] < idx[j1]);
            }
        }
        let m = rename_matches(from, to, t);
        assert(m[i1] is Some);
        assert(m[i2] is Some);
        let k1 = m[i1]->Some_0;
        let k2 = m[i2]->Some_0;
        assert(k1 != k2);
        let d = deleted_files(from, to);
        let a = added_files(from, to);
        let (x1, x2) = (d[k1], d[k2]);
        if x1 < x2 {
            assert(crate::paths::path_lt(from.keys()[x1], from.keys()[x2]));
        } else {
            assert(x1 != x2) by {
                if k1 < k2 {
                    assert(d[k1] < d[k2]);
                } else {
                    assert(d[k2] < d[k1]);
                }
            }
            assert(crate::paths::path_lt(from.keys()[x2], from.keys()[x1]));
        }
        if from.keys()[x1] == from.keys()[x2] {
            crate::paths::lemma_lt_irreflexive(from.keys()[x1]);
        }
        let (y1, y2) = (a[i1], a[i2]);
        if i1 < i2 {
            assert(a[i1] < a[i2]);
            assert(crate::paths::path_lt(to.keys()[y1], to.keys()[y2]));
        } else {
            assert(a[i2] < a[i1]);
            assert(crate::paths::path_lt(to.keys()[y2], to.keys()[y1]));
        }
        if to.keys()[y1] == to.keys()[y2] {
            crate::paths::lemma_lt_irreflexive(to.keys()[y1]);
        }
    }
}

/// Status monotonicity, the other way: a directory that both sides have (or
/// neither) is unchanged exactly when all its children are.
pub proof fn law_status_both_sides(from: FileMap, to: FileMap, t: nat, p: Seq<char>)
    requires
        dir_set(from).contains(p) == dir_set(to).contains(p),
        crate::tree::resolve_type(tree_model(from, to, t), p) == FileType::Directory,
    ensures
        spec_node(tree_model(from, to, t), p).status == DiffStatus::Unchanged <==> all_unchanged(
            spec_node(tree_model(from, to, t), p).children,
        ),
{
}

} // verus!
