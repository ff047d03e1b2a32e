//! The diff tree: its nodes, the model that fixes each node's status and
//! counts, and the builder that assembles and annotates it.
use vstd::prelude::*;
use crate::types::{FileMap, FileType, DiffStatus, PathSet, view_paths};
use crate::paths::parent_path;
use crate::text::{line_counts, count_line_changes};
use crate::lines::{line_count, count_lines};
use crate::renames::pairs_view;

verus! {

broadcast use vstd::std_specs::vec::group_vec_axioms;

/// The mathematical value of a node of the diff tree.
pub struct NodeView {
    pub path: Seq<char>,
    pub old_path: Option<Seq<char>>,
    pub file_type: FileType,
    pub status: DiffStatus,
    pub added: Option<u64>,
    pub removed: Option<u64>,
    pub children: Seq<NodeView>,
}

/// A node of the diff tree. Directories own their children, sorted by path.
#[derive(Debug)]
pub struct DiffFileEntry {
    pub path: String,
    pub old_path: Option<String>,
    pub file_type: FileType,
    pub status: DiffStatus,
    pub added: Option<u64>,
    pub removed: Option<u64>,
    pub children: Option<Vec<DiffFileEntry>>,
}

pub open spec fn views_of(cs: Vec<DiffFileEntry>, n: int) -> Seq<NodeView>
    decreases cs, n,
{
    if n <= 0 || n > cs@.len() {
        seq![]
    } else {
        views_of(cs, n - 1).push(cs@[n - 1].view())
    }
}

pub open spec fn opt_string(o: Option<String>) -> Option<Seq<char>> {
    match o {
        Some(s) => Some(s@),
        None => None,
    }
}

impl DiffFileEntry {
    pub open spec fn view(&self) -> NodeView
        decreases self, 0int,
    {
        NodeView {
            path: self.path@,
            old_path: opt_string(self.old_path),
            file_type: self.file_type,
            status: self.status,
            added: self.added,
            removed: self.removed,
            children: match self.children {
                Some(cs) => views_of(cs, cs@.len() as int),
                None => seq![],
            },
        }
    }
}

proof fn lemma_views_of_prefix(a: Vec<DiffFileEntry>, b: Vec<DiffFileEntry>, n: int)
    requires
        0 <= n <= a@.len(),
        n <= b@.len(),
        forall|j: int| 0 <= j < n ==> a@[j] == b@[j],
    ensures
        views_of(a, n) == views_of(b, n),
    decreases n,
{
    if n > 0 {
        lemma_views_of_prefix(a, b, n - 1);
    }
}

proof fn lemma_views_of_len(a: Vec<DiffFileEntry>, n: int)
    requires
        0 <= n <= a@.len(),
    ensures
        views_of(a, n).len() == n,
        forall|j: int| 0 <= j < n ==> #[trigger] views_of(a, n)[j] == a@[j].view(),
    decreases n,
{
    if n > 0 {
        lemma_views_of_len(a, n - 1);
    }
}

/// What the tree is built from.
pub struct TreeModel {
    pub from: FileMap,
    pub to: FileMap,
    /// (new path, old path) of each rename.
    pub renames: Seq<(Seq<char>, Seq<char>)>,
    pub from_dirs: Set<Seq<char>>,
    pub to_dirs: Set<Seq<char>>,
    /// Every path of the tree, sorted.
    pub all: Seq<Seq<char>>,
    /// No path of `all` is longer.
    pub bound: int,
}

/// The old path of the first rename to `p` among the first `n`.
pub open spec fn rename_source(rs: Seq<(Seq<char>, Seq<char>)>, p: Seq<char>, n: int) -> Option<Seq<char>>
    decreases n,
{
    if n <= 0 {
        None
    } else {
        let r = rename_source(rs, p, n - 1);
        if r.is_none() && rs[n - 1].0 == p {
            Some(rs[n - 1].1)
        } else {
            r
        }
    }
}

/// The type of `p`: its entry's in `from`, else in `to`, else a directory.
pub open spec fn resolve_type(m: TreeModel, p: Seq<char>) -> FileType {
    match m.from.entry_at(p) {
        Some(e) => e.0,
        None => match m.to.entry_at(p) {
            Some(e) => e.0,
            None => FileType::Directory,
        },
    }
}

pub open spec fn leaf(p: Seq<char>, old_path: Option<Seq<char>>, status: DiffStatus, added: nat, removed: nat) -> NodeView {
    NodeView {
        path: p,
        old_path,
        file_type: FileType::File,
        status,
        added: Some(added as u64),
        removed: Some(removed as u64),
        children: seq![],
    }
}

/// The annotated node of file `p`.
pub open spec fn file_node(m: TreeModel, p: Seq<char>) -> NodeView {
    let before = m.from.content_at(p);
    let after = m.to.content_at(p);
    match rename_source(m.renames, p, m.renames.len() as int) {
        Some(old) if m.from.content_at(old).is_some() && after.is_some() => {
            let c = line_counts(m.from.content_at(old).unwrap(), after.unwrap());
            leaf(p, Some(old), DiffStatus::Renamed, c.0, c.1)
        },
        _ => match (before, after) {
            (Some(a), Some(b)) => if a == b {
                leaf(p, None, DiffStatus::Unchanged, 0, 0)
            } else {
                let c = line_counts(a, b);
                leaf(p, None, DiffStatus::Modified, c.0, c.1)
            },
            (Some(a), None) => leaf(p, None, DiffStatus::Removed, 0, line_count(a)),
            (None, Some(b)) => leaf(p, None, DiffStatus::Added, line_count(b), 0),
            (None, None) => leaf(p, None, DiffStatus::Unchanged, 0, 0),
        },
    }
}

pub open spec fn sat_add(a: u64, b: u64) -> u64 {
    if a + b > u64::MAX {
        u64::MAX
    } else {
        (a + b) as u64
    }
}

/// The sum of the children's added lines, held at `u64::MAX`.
pub open spec fn sum_added(cs: Seq<NodeView>) -> u64
    decreases cs.len(),
{
    if cs.len() == 0 {
        0
    } else {
        sat_add(sum_added(cs.drop_last()), cs.last().added.unwrap_or(0))
    }
}

/// The sum of the children's removed lines, held at `u64::MAX`.
pub open spec fn sum_removed(cs: Seq<NodeView>) -> u64
    decreases cs.len(),
{
    if cs.len() == 0 {
        0
    } else {
        sat_add(sum_removed(cs.drop_last()), cs.last().removed.unwrap_or(0))
    }
}

pub open spec fn all_unchanged(cs: Seq<NodeView>) -> bool {
    forall|j: int| 0 <= j < cs.len() ==> (#[trigger] cs[j]).status == DiffStatus::Unchanged
}

/// Status of a directory from its presence on each side and its children.
pub open spec fn dir_status(in_from: bool, in_to: bool, cs: Seq<NodeView>) -> DiffStatus {
    if !in_from && in_to {
        DiffStatus::Added
    } else if in_from && !in_to {
        DiffStatus::Removed
    } else if all_unchanged(cs) {
        DiffStatus::Unchanged
    } else {
        DiffStatus::Modified
    }
}

pub open spec fn dir_node(path: Seq<char>, status: DiffStatus, cs: Seq<NodeView>) -> NodeView {
    NodeView {
        path,
        old_path: None,
        file_type: FileType::Directory,
        status,
        added: Some(sum_added(cs)),
        removed: Some(sum_removed(cs)),
        children: cs,
    }
}

/// `q` is placed directly under `p`.
pub open spec fn child_of(m: TreeModel, p: Seq<char>, q: Seq<char>) -> bool {
    parent_path(q) == p && p.len() < q.len() <= m.bound
}

/// The annotated node of `p`.
pub open spec fn spec_node(m: TreeModel, p: Seq<char>) -> NodeView
    decreases m.bound - p.len(), m.all.len() + 1,
{
    if resolve_type(m, p) == FileType::File {
        file_node(m, p)
    } else {
        let cs = spec_children(m, p, 0);
        dir_node(p, dir_status(m.from_dirs.contains(p), m.to_dirs.contains(p), cs), cs)
    }
}

/// The nodes of the paths placed under `p`, from position `i` of the sorted paths.
pub open spec fn spec_children(m: TreeModel, p: Seq<char>, i: int) -> Seq<NodeView>
    decreases m.bound - p.len(), m.all.len() - i,
{
    if i < 0 || i >= m.all.len() {
        seq![]
    } else {
        let q = m.all[i];
        let rest = spec_children(m, p, i + 1);
        if child_of(m, p, q) {
            seq![spec_node(m, q)] + rest
        } else {
            rest
        }
    }
}

pub open spec fn root_path() -> Seq<char> {
    seq!['/']
}

/// The root of the tree: present on both sides, at path `"/"`.
pub open spec fn spec_root(m: TreeModel) -> NodeView {
    let cs = spec_children(m, seq![], 0);
    dir_node(root_path(), dir_status(true, true, cs), cs)
}

/// The sorted paths of the tree and what the builder reads of them.
pub struct Layout {
    pub renames: Vec<(String, String)>,
    pub from_dirs: PathSet,
    pub to_dirs: PathSet,
    pub all: Vec<String>,
    /// The parent of each path of `all`.
    pub parents: Vec<String>,
    /// The length of each path of `all`.
    pub lens: Vec<usize>,
    pub bound: usize,
}

impl Layout {
    pub open spec fn fits(&self, from: &FileMap, to: &FileMap, m: TreeModel) -> bool {
        &&& m.from == *from
        &&& m.to == *to
        &&& from.wf()
        &&& to.wf()
        &&& pairs_view(self.renames@) == m.renames
        &&& self.from_dirs.wf()
        &&& self.to_dirs.wf()
        &&& self.from_dirs.elems().to_set() == m.from_dirs
        &&& self.to_dirs.elems().to_set() == m.to_dirs
        &&& view_paths(self.all@) == m.all
        &&& self.parents@.len() == self.all@.len()
        &&& self.lens@.len() == self.all@.len()
        &&& forall|i: int| 0 <= i < self.all@.len() ==> (#[trigger] self.parents@[i])@ == parent_path(m.all[i])
        &&& forall|i: int| 0 <= i < self.all@.len() ==> #[trigger] self.lens@[i] == m.all[i].len()
        &&& self.bound == m.bound
    }
}

/// The old path of the rename to `p`, if any.
fn rename_lookup<'a>(rs: &'a Vec<(String, String)>, p: &String) -> (r: Option<&'a String>)
    ensures
        opt_string(match r { Some(s) => Some(*s), None => None }) == rename_source(pairs_view(rs@), p@, rs@.len() as int),
{
    let mut found: Option<&String> = None;
    let mut i: usize = 0;
    while i < rs.len()
        invariant
            i <= rs@.len(),
            opt_string(match found { Some(s) => Some(*s), None => None }) == rename_source(pairs_view(rs@), p@, i as int),
        decreases rs@.len() - i,
    {
        if found.is_none() && rs[i].0 == *p {
            found = Some(&rs[i].1);
        }
        i = i + 1;
    }
    found
}

/// The type of `p` as the tree takes it.
fn file_type_of(from: &FileMap, to: &FileMap, p: &str, Ghost(m): Ghost<TreeModel>) -> (r: FileType)
    requires
        from.wf(),
        to.wf(),
        m.from == *from,
        m.to == *to,
    ensures
        r == resolve_type(m, p@),
{
    match from.get(p) {
        Some(e) => e.file_type,
        None => match to.get(p) {
            Some(e) => e.file_type,
            None => FileType::Directory,
        },
    }
}

/// The text of file `p` of `m`.
fn content_of<'a>(m: &'a FileMap, p: &str) -> (r: Option<&'a String>)
    requires
        m.wf(),
    ensures
        opt_string(match r { Some(s) => Some(*s), None => None }) == m.content_at(p@),
{
    match m.get(p) {
        Some(e) => {
            if e.file_type == FileType::File {
                Some(&e.content)
            } else {
                None
            }
        },
        None => None,
    }
}

fn make_leaf(p: &String, old_path: Option<String>, status: DiffStatus, added: usize, removed: usize) -> (r: DiffFileEntry)
    ensures
        r@ == leaf(p@, opt_string(old_path), status, added as nat, removed as nat),
{
    let r = DiffFileEntry {
        path: p.clone(),
        old_path,
        file_type: FileType::File,
        status,
        added: Some(added as u64),
        removed: Some(removed as u64),
        children: Some(Vec::new()),
    };
    proof {
        let cs = r.children->Some_0;
        assert(views_of(cs, 0) =~= Seq::<NodeView>::empty());
    }
    r
}

/// Status and line counts of file `p`.
fn annotate_file(from: &FileMap, to: &FileMap, renames: &Vec<(String, String)>, p: &String, Ghost(m): Ghost<TreeModel>) -> (r: DiffFileEntry)
    requires
        from.wf(),
        to.wf(),
        m.from == *from,
        m.to == *to,
        m.renames == pairs_view(renames@),
    ensures
        r@ == file_node(m, p@),
{
    let before = content_of(from, p.as_str());
    let after = content_of(to, p.as_str());
    match rename_lookup(renames, p) {
        Some(old) => {
            let source = content_of(from, old.as_str());
            match (source, after) {
                (Some(a), Some(b)) => {
                    let (x, y) = count_line_changes(a.as_str(), b.as_str());
                    return make_leaf(p, Some(old.clone()), DiffStatus::Renamed, x, y);
                },
                _ => {},
            }
        },
        None => {},
    }
    match (before, after) {
        (Some(a), Some(b)) => {
            if *a == *b {
                make_leaf(p, None, DiffStatus::Unchanged, 0, 0)
            } else {
                let (x, y) = count_line_changes(a.as_str(), b.as_str());
                make_leaf(p, None, DiffStatus::Modified, x, y)
            }
        },
        (Some(a), None) => {
            let n = count_lines(a.as_str());
            make_leaf(p, None, DiffStatus::Removed, 0, n)
        },
        (None, Some(b)) => {
            let n = count_lines(b.as_str());
            make_leaf(p, None, DiffStatus::Added, n, 0)
        },
        (None, None) => make_leaf(p, None, DiffStatus::Unchanged, 0, 0),
    }
}

/// The nodes under `p`, with the sums of their counts and whether all are
/// unchanged.
fn build_children(from: &FileMap, to: &FileMap, l: &Layout, p: &String, Ghost(m): Ghost<TreeModel>) -> (r: (
    Vec<DiffFileEntry>,
    u64,
    u64,
    bool,
))
    requires
        l.fits(from, to, m),
        0 <= m.bound - p@.len(),
    ensures
        views_of(r.0, r.0@.len() as int) == spec_children(m, p@, 0),
        r.1 == sum_added(spec_children(m, p@, 0)),
        r.2 == sum_removed(spec_children(m, p@, 0)),
        r.3 == all_unchanged(spec_children(m, p@, 0)),
    decreases m.bound - p@.len(), m.all.len(),
{
    let mut children: Vec<DiffFileEntry> = Vec::new();
    let plen = p.as_str().unicode_len();
    let n = l.all.len();
    let mut added: u64 = 0;
    let mut removed: u64 = 0;
    let mut unchanged = true;
    let mut i: usize = 0;
    proof {
        assert(views_of(children, 0) =~= Seq::<NodeView>::empty());
        assert(Seq::<NodeView>::empty() + spec_children(m, p@, 0) =~= spec_children(m, p@, 0));
    }
    while i < n
        invariant
            l.fits(from, to, m),
            n == l.all@.len(),
            n == m.all.len(),
            plen == p@.len(),
            0 <= m.bound - p@.len(),
            i <= n,
            views_of(children, children@.len() as int) + spec_children(m, p@, i as int) == spec_children(m, p@, 0),
            added == sum_added(views_of(children, children@.len() as int)),
            removed == sum_removed(views_of(children, children@.len() as int)),
            unchanged == all_unchanged(views_of(children, children@.len() as int)),
        decreases n - i,
    {
        let ghost cv = views_of(children, children@.len() as int);
        let ghost q = m.all[i as int];
        proof {
            assert(l.all@[i as int]@ == q);
            assert(l.parents@[i as int]@ == parent_path(q));
            assert(l.lens@[i as int] == q.len());
        }
        if l.parents[i] == *p && plen < l.lens[i] && l.lens[i] <= l.bound {
            let child = build_node(from, to, l, &l.all[i], Ghost(m));
            added = added.saturating_add(child.added.unwrap_or(0));
            removed = removed.saturating_add(child.removed.unwrap_or(0));
            if child.status != DiffStatus::Unchanged {
                unchanged = false;
            }
            let ghost old_children = children;
            children.push(child);
            proof {
                lemma_views_of_prefix(children, old_children, old_children@.len() as int);
                let nv = views_of(children, children@.len() as int);
                assert(nv == cv.push(spec_node(m, q)));
                assert(nv.drop_last() == cv);
                assert(cv + spec_children(m, p@, i as int) =~= nv + spec_children(m, p@, i + 1));
                lemma_views_of_len(children, children@.len() as int);
                lemma_views_of_len(old_children, old_children@.len() as int);
                if unchanged {
                    assert forall|j: int| 0 <= j < nv.len() implies (#[trigger] nv[j]).status == DiffStatus::Unchanged by {
                        if j < cv.len() {
                            assert(nv[j] == cv[j]);
                        }
                    }
                } else if all_unchanged(cv) {
                    assert(nv[nv.len() - 1].status != DiffStatus::Unchanged);
                } else {
                    let j = choose|j: int| 0 <= j < cv.len() && (#[trigger] cv[j]).status != DiffStatus::Unchanged;
                    assert(nv[j] == cv[j]);
                }
            }
        } else {
            proof {
                assert(spec_children(m, p@, i as int) == spec_children(m, p@, i + 1));
            }
        }
        i = i + 1;
    }
    proof {
        assert(spec_children(m, p@, n as int) == Seq::<NodeView>::empty());
        assert(views_of(children, children@.len() as int) + Seq::<NodeView>::empty() =~= views_of(children, children@.len() as int));
    }
    (children, added, removed, unchanged)
}

fn dir_status_of(in_from: bool, in_to: bool, unchanged: bool) -> (r: DiffStatus)
    ensures
        forall|cs: Seq<NodeView>| all_unchanged(cs) == unchanged ==> r == #[trigger] dir_status(in_from, in_to, cs),
{
    if !in_from && in_to {
        DiffStatus::Added
    } else if in_from && !in_to {
        DiffStatus::Removed
    } else if unchanged {
        DiffStatus::Unchanged
    } else {
        DiffStatus::Modified
    }
}

/// The annotated node of `p` with everything under it.
fn build_node(from: &FileMap, to: &FileMap, l: &Layout, p: &String, Ghost(m): Ghost<TreeModel>) -> (r: DiffFileEntry)
    requires
        l.fits(from, to, m),
        0 <= m.bound - p@.len(),
    ensures
        r@ == spec_node(m, p@),
    decreases m.bound - p@.len(), m.all.len() + 1,
{
    if file_type_of(from, to, p.as_str(), Ghost(m)) == FileType::File {
        return annotate_file(from, to, &l.renames, p, Ghost(m));
    }
    let (children, added, removed, unchanged) = build_children(from, to, l, p, Ghost(m));
    let in_from = l.from_dirs.contains(p.as_str());
    let in_to = l.to_dirs.contains(p.as_str());
    let status = dir_status_of(in_from, in_to, unchanged);
    proof {
        assert(in_from == m.from_dirs.contains(p@));
        assert(in_to == m.to_dirs.contains(p@));
    }
    DiffFileEntry {
        path: p.clone(),
        old_path: None,
        file_type: FileType::Directory,
        status,
        added: Some(added),
        removed: Some(removed),
        children: Some(children),
    }
}

/// The annotated root, at path `"/"`.
pub(crate) fn build_root(from: &FileMap, to: &FileMap, l: &Layout, Ghost(m): Ghost<TreeModel>) -> (r: DiffFileEntry)
    requires
        l.fits(from, to, m),
        0 <= m.bound,
    ensures
        r@ == spec_root(m),
{
    let top = String::new();
    proof {
        assert(top@ == Seq::<char>::empty());
    }
    let (children, added, removed, unchanged) = build_children(from, to, l, &top, Ghost(m));
    let status = dir_status_of(true, true, unchanged);
    let path = String::from_str("/");
    proof {
        reveal_strlit("/");
        assert(path@ =~= root_path());
    }
    DiffFileEntry {
        path,
        old_path: None,
        file_type: FileType::Directory,
        status,
        added: Some(added),
        removed: Some(removed),
        children: Some(children),
    }
}

} // verus!
