//! Rename detection: pairs each file that only the new snapshot has with a
//! file that only the old one had, first by equal content and then by the
//! best similarity that passes the length, overlap and score tests.
use vstd::prelude::*;
use crate::types::{FileMap, FileType};
use crate::lines::{LineSet, hash_content, hash_bytes, text_bytes, distinct_lines, count_common, lemma_count_common_bound};
use crate::score::{Score, similarity, similarity_parts, lengths_ok, lengths_compatible, overlap_ok, overlap_sufficient, score_reaches, score_above, SCALE};
use crate::paths::{leaf_name, split_last};

verus! {

/// Positions among the first `n` entries of `a` that are files whose path is
/// no file of `b`, in order.
pub open spec fn only_in(a: FileMap, b: FileMap, n: int) -> Seq<int>
    decreases n,
{
    if n <= 0 {
        seq![]
    } else {
        let r = only_in(a, b, n - 1);
        if a.entries@[n - 1].file_type == FileType::File && b.content_at(a.keys()[n - 1]).is_none() {
            r.push(n - 1)
        } else {
            r
        }
    }
}

pub proof fn lemma_only_in(a: FileMap, b: FileMap, n: int)
    requires
        a.wf(),
        n <= a.keys().len(),
    ensures
        forall|k: int| 0 <= k < only_in(a, b, n).len() ==> {
            let x = #[trigger] only_in(a, b, n)[k];
            &&& 0 <= x < n
            &&& a.entries@[x].file_type == FileType::File
            &&& b.content_at(a.keys()[x]).is_none()
        },
        forall|k1: int, k2: int| 0 <= k1 < k2 < only_in(a, b, n).len() ==> #[trigger] only_in(a, b, n)[k1] < #[trigger] only_in(a, b, n)[k2],
    decreases n,
{
    if n > 0 {
        lemma_only_in(a, b, n - 1);
    }
}

/// Positions in `from` of the files that `to` lacks.
pub open spec fn deleted_files(from: FileMap, to: FileMap) -> Seq<int> {
    only_in(from, to, from.keys().len() as int)
}

/// Positions in `to` of the files that `from` lacks.
pub open spec fn added_files(from: FileMap, to: FileMap) -> Seq<int> {
    only_in(to, from, to.keys().len() as int)
}

pub open spec fn del_path(from: FileMap, to: FileMap, k: int) -> Seq<char> {
    from.keys()[deleted_files(from, to)[k]]
}

pub open spec fn del_text(from: FileMap, to: FileMap, k: int) -> Seq<char> {
    from.entries@[deleted_files(from, to)[k]].content@
}

pub open spec fn add_path(from: FileMap, to: FileMap, i: int) -> Seq<char> {
    to.keys()[added_files(from, to)[i]]
}

pub open spec fn add_text(from: FileMap, to: FileMap, i: int) -> Seq<char> {
    to.entries@[added_files(from, to)[i]].content@
}

/// The first of the first `n` deleted files that is unused and has the text of
/// added file `i`.
pub open spec fn exact_match(from: FileMap, to: FileMap, used: Seq<bool>, i: int, n: int) -> Option<int>
    decreases n,
{
    if n <= 0 {
        None
    } else {
        let r = exact_match(from, to, used, i, n - 1);
        if r.is_none() && !used[n - 1] && del_text(from, to, n - 1) == add_text(from, to, i) {
            Some(n - 1)
        } else {
            r
        }
    }
}

/// Which deleted files are taken, and the deleted file matched to each added
/// file, after the exact pass over the first `i` added files.
pub open spec fn exact_phase(from: FileMap, to: FileMap, i: int) -> (Seq<bool>, Seq<Option<int>>)
    decreases i,
{
    if i <= 0 {
        (Seq::new(deleted_files(from, to).len(), |k: int| false), seq![])
    } else {
        let (used, m) = exact_phase(from, to, i - 1);
        match exact_match(from, to, used, i - 1, deleted_files(from, to).len() as int) {
            Some(k) => (used.update(k, true), m.push(Some(k))),
            None => (used, m.push(None)),
        }
    }
}

pub open spec fn same_name(from: FileMap, to: FileMap, i: int, k: int) -> bool {
    leaf_name(add_path(from, to, i)) == leaf_name(del_path(from, to, k))
}

/// Deleted file `k` may be the source of added file `i`.
pub open spec fn candidate(from: FileMap, to: FileMap, t: nat, used: Seq<bool>, i: int, k: int) -> bool {
    let d = del_text(from, to, k);
    let a = add_text(from, to, i);
    let sim = similarity_parts(d, a);
    &&& !used[k]
    &&& lengths_compatible(text_bytes(d).len(), text_bytes(a).len(), t)
    &&& overlap_sufficient(
        count_common(distinct_lines(a), distinct_lines(d)),
        distinct_lines(a).len(),
        distinct_lines(d).len(),
        t,
    )
    &&& score_reaches(same_name(from, to, i, k), sim.0, sim.1, t)
}

pub open spec fn beats(from: FileMap, to: FileMap, i: int, k1: int, k2: int) -> bool {
    let s1 = similarity_parts(del_text(from, to, k1), add_text(from, to, i));
    let s2 = similarity_parts(del_text(from, to, k2), add_text(from, to, i));
    score_above(same_name(from, to, i, k1), s1.0, s1.1, same_name(from, to, i, k2), s2.0, s2.1)
}

/// The best candidate among the first `n` deleted files; the first wins ties.
pub open spec fn best_match(from: FileMap, to: FileMap, t: nat, used: Seq<bool>, i: int, n: int) -> Option<int>
    decreases n,
{
    if n <= 0 {
        None
    } else {
        let b = best_match(from, to, t, used, i, n - 1);
        if candidate(from, to, t, used, i, n - 1) {
            match b {
                None => Some(n - 1),
                Some(k) => if beats(from, to, i, n - 1, k) {
                    Some(n - 1)
                } else {
                    b
                },
            }
        } else {
            b
        }
    }
}

/// The state after the similarity pass over the first `i` added files.
pub open spec fn similar_phase(from: FileMap, to: FileMap, t: nat, i: int) -> (Seq<bool>, Seq<Option<int>>)
    decreases i,
{
    if i <= 0 {
        exact_phase(from, to, added_files(from, to).len() as int)
    } else {
        let (used, m) = similar_phase(from, to, t, i - 1);
        if m[i - 1].is_some() {
            (used, m)
        } else {
            match best_match(from, to, t, used, i - 1, deleted_files(from, to).len() as int) {
                Some(k) => (used.update(k, true), m.update(i - 1, Some(k))),
                None => (used, m),
            }
        }
    }
}

/// The deleted file matched to each added file.
pub open spec fn rename_matches(from: FileMap, to: FileMap, t: nat) -> Seq<Option<int>> {
    similar_phase(from, to, t, added_files(from, to).len() as int).1
}

/// The renames among the first `n` added files, as (new path, old path).
pub open spec fn pairs_upto(from: FileMap, to: FileMap, t: nat, n: int) -> Seq<(Seq<char>, Seq<char>)>
    decreases n,
{
    if n <= 0 {
        seq![]
    } else {
        let r = pairs_upto(from, to, t, n - 1);
        match rename_matches(from, to, t)[n - 1] {
            Some(k) => r.push((add_path(from, to, n - 1), del_path(from, to, k))),
            None => r,
        }
    }
}

/// The renames that the detector finds, as (new path, old path), in the order
/// of the new paths.
pub open spec fn rename_pairs(from: FileMap, to: FileMap, t: nat) -> Seq<(Seq<char>, Seq<char>)> {
    pairs_upto(from, to, t, added_files(from, to).len() as int)
}

pub open spec fn idx_view(v: Seq<usize>) -> Seq<int> {
    v.map_values(|x: usize| x as int)
}

pub open spec fn opt_view(v: Seq<Option<usize>>) -> Seq<Option<int>> {
    v.map_values(|o: Option<usize>| match o {
        Some(k) => Some(k as int),
        None => None,
    })
}

pub open spec fn pairs_view(v: Seq<(String, String)>) -> Seq<(Seq<char>, Seq<char>)> {
    v.map_values(|p: (String, String)| (p.0@, p.1@))
}

/// Positions of the files of `a` whose path is no file of `b`.
fn files_only_in(a: &FileMap, b: &FileMap) -> (r: Vec<usize>)
    requires
        a.wf(),
        b.wf(),
    ensures
        idx_view(r@) == only_in(*a, *b, a.keys().len() as int),
{
    let mut r: Vec<usize> = Vec::new();
    let mut j: usize = 0;
    let n = a.paths.len();
    proof {
        assert(idx_view(r@) =~= only_in(*a, *b, 0));
    }
    while j < n
        invariant
            a.wf(),
            b.wf(),
            n == a.keys().len(),
            j <= n,
            idx_view(r@) == only_in(*a, *b, j as int),
        decreases n - j,
    {
        if a.entries[j].file_type == FileType::File {
            let other = b.get(a.paths[j].as_str());
            let in_b = match other {
                Some(e) => e.file_type == FileType::File,
                None => false,
            };
            if !in_b {
                r.push(j);
                proof {
                    assert(idx_view(r@) =~= only_in(*a, *b, j as int).push(j as int));
                }
            }
        }
        j = j + 1;
    }
    r
}

/// What the passes read of each listed file of `m`: its hash, its distinct
/// lines and its leaf name.
fn prepare(m: &FileMap, idx: &Vec<usize>) -> (r: (Vec<u64>, Vec<LineSet>, Vec<String>))
    requires
        m.wf(),
        forall|k: int| 0 <= k < idx@.len() ==> #[trigger] idx@[k] < m.keys().len(),
    ensures
        r.0@.len() == idx@.len(),
        r.1@.len() == idx@.len(),
        r.2@.len() == idx@.len(),
        forall|k: int| 0 <= k < idx@.len() ==> {
            let c = #[trigger] m.entries@[idx@[k] as int].content@;
            &&& r.0@[k] == hash_bytes(text_bytes(c))
            &&& r.1@[k].wf_for(text_bytes(c))
            &&& r.1@[k].lines(text_bytes(c)) == distinct_lines(c)
            &&& r.2@[k]@ == leaf_name(m.keys()[idx@[k] as int])
        },
{
    let mut hs: Vec<u64> = Vec::new();
    let mut sets: Vec<LineSet> = Vec::new();
    let mut names: Vec<String> = Vec::new();
    let mut k: usize = 0;
    while k < idx.len()
        invariant
            m.wf(),
            forall|k: int| 0 <= k < idx@.len() ==> #[trigger] idx@[k] < m.keys().len(),
            k <= idx@.len(),
            hs@.len() == k,
            sets@.len() == k,
            names@.len() == k,
            forall|j: int| 0 <= j < k ==> {
                let c = #[trigger] m.entries@[idx@[j] as int].content@;
                &&& hs@[j] == hash_bytes(text_bytes(c))
                &&& sets@[j].wf_for(text_bytes(c))
                &&& sets@[j].lines(text_bytes(c)) == distinct_lines(c)
                &&& names@[j]@ == leaf_name(m.keys()[idx@[j] as int])
            },
        decreases idx@.len() - k,
    {
        let x = idx[k];
        let content = m.entries[x].content.as_str();
        let bytes = content.as_bytes();
        hs.push(hash_content(content));
        sets.push(LineSet::of_text(bytes));
        let (_parent, leaf) = split_last(m.paths[x].as_str());
        names.push(leaf);
        k = k + 1;
    }
    (hs, sets, names)
}

/// Finds the renames from `from` to `to` under threshold `t` millionths, as
/// (new path, old path) pairs.
pub fn detect_renames(from: &FileMap, to: &FileMap, t: u64) -> (r: Vec<(String, String)>)
    requires
        from.wf(),
        to.wf(),
        t <= SCALE,
    ensures
        pairs_view(r@) == rename_pairs(*from, *to, t as nat),
{
    let ghost f = *from;
    let ghost g = *to;
    let ghost tt = t as nat;
    let dels = files_only_in(from, to);
    let adds = files_only_in(to, from);
    proof {
        lemma_only_in(f, g, f.keys().len() as int);
        lemma_only_in(g, f, g.keys().len() as int);
        assert forall|k: int| 0 <= k < dels@.len() implies #[trigger] dels@[k] < f.keys().len() by {
            assert(idx_view(dels@)[k] == deleted_files(f, g)[k]);
        }
        assert forall|k: int| 0 <= k < adds@.len() implies #[trigger] adds@[k] < g.keys().len() by {
            assert(idx_view(adds@)[k] == added_files(f, g)[k]);
        }
    }
    let nd = dels.len();
    let na = adds.len();
    let (dh, ds, dn) = prepare(from, &dels);
    let (ah, asets, an) = prepare(to, &adds);
    proof {
        assert forall|k: int| 0 <= k < nd implies {
            &&& #[trigger] from.entries@[dels@[k] as int].content@ == del_text(f, g, k)
            &&& from.keys()[dels@[k] as int] == del_path(f, g, k)
        } by {
            assert(idx_view(dels@)[k] == deleted_files(f, g)[k]);
        }
        assert forall|i: int| 0 <= i < na implies {
            &&& #[trigger] to.entries@[adds@[i] as int].content@ == add_text(f, g, i)
            &&& to.keys()[adds@[i] as int] == add_path(f, g, i)
        } by {
            assert(idx_view(adds@)[i] == added_files(f, g)[i]);
        }
    }
    let mut used: Vec<bool> = Vec::new();
    let mut k: usize = 0;
    while k < nd
        invariant
            k <= nd,
            used@ == Seq::new(k as nat, |j: int| false),
        decreases nd - k,
    {
        used.push(false);
        proof {
            assert(used@ =~= Seq::new((k + 1) as nat, |j: int| false));
        }
        k = k + 1;
    }
    let mut matched: Vec<Option<usize>> = Vec::new();
    proof {
        assert(opt_view(matched@) =~= exact_phase(f, g, 0).1);
    }
    let mut i: usize = 0;
    while i < na
        invariant
            f == *from,
            g == *to,
            from.wf(),
            to.wf(),
            nd == dels@.len(),
            na == adds@.len(),
            nd == deleted_files(f, g).len(),
            na == added_files(f, g).len(),
            dh@.len() == nd,
            ah@.len() == na,
            forall|k: int| 0 <= k < nd ==> #[trigger] dels@[k] < f.keys().len(),
            forall|k: int| 0 <= k < na ==> #[trigger] adds@[k] < g.keys().len(),
            forall|k: int| 0 <= k < nd ==> {
                let c = #[trigger] from.entries@[dels@[k] as int].content@;
                &&& c == del_text(f, g, k)
                &&& dh@[k] == hash_bytes(text_bytes(c))
            },
            forall|k: int| 0 <= k < na ==> {
                let c = #[trigger] to.entries@[adds@[k] as int].content@;
                &&& c == add_text(f, g, k)
                &&& ah@[k] == hash_bytes(text_bytes(c))
            },
            i <= na,
            used@.len() == nd,
            matched@.len() == i,
            used@ == exact_phase(f, g, i as int).0,
            opt_view(matched@) == exact_phase(f, g, i as int).1,
            forall|j: int| 0 <= j < i ==> (#[trigger] matched@[j] matches Some(x) ==> x < nd),
        decreases na - i,
    {
        let add_content = &to.entries[adds[i]].content;
        let mut found: Option<usize> = None;
        let mut k: usize = 0;
        while k < nd
            invariant
                f == *from,
                g == *to,
                from.wf(),
                to.wf(),
                nd == dels@.len(),
                nd == deleted_files(f, g).len(),
                dh@.len() == nd,
                i < na,
                na == ah@.len(),
                forall|k: int| 0 <= k < nd ==> #[trigger] dels@[k] < f.keys().len(),
                forall|k: int| 0 <= k < nd ==> {
                    let c = #[trigger] from.entries@[dels@[k] as int].content@;
                    &&& c == del_text(f, g, k)
                    &&& dh@[k] == hash_bytes(text_bytes(c))
                },
                add_content@ == add_text(f, g, i as int),
                ah@[i as int] == hash_bytes(text_bytes(add_content@)),
                used@.len() == nd,
                k <= nd,
                match found {
                    Some(x) => exact_match(f, g, used@, i as int, k as int) == Some(x as int) && x < nd,
                    None => exact_match(f, g, used@, i as int, k as int).is_none(),
                },
            decreases nd - k,
        {
            proof {
                let c = from.entries@[dels@[k as int] as int].content@;
                assert(c == del_text(f, g, k as int));
            }
            if found.is_none() && !used[k] && dh[k] == ah[i] && from.entries[dels[k]].content == *add_content {
                found = Some(k);
            }
            k = k + 1;
        }
        let ghost old_m = matched@;
        match found {
            Some(x) => {
                used.set(x, true);
                matched.push(Some(x));
            },
            None => {
                matched.push(None);
            },
        }
        proof {
            assert(opt_view(matched@) =~= exact_phase(f, g, i + 1).1);
            assert(used@ =~= exact_phase(f, g, i + 1).0);
        }
        i = i + 1;
    }
    proof {
        assert(opt_view(matched@) == similar_phase(f, g, tt, 0).1);
    }
    let mut i: usize = 0;
    while i < na
        invariant
            f == *from,
            g == *to,
            tt == t as nat,
            t <= SCALE,
            from.wf(),
            to.wf(),
            nd == dels@.len(),
            na == adds@.len(),
            nd == deleted_files(f, g).len(),
            na == added_files(f, g).len(),
            ds@.len() == nd,
            dn@.len() == nd,
            asets@.len() == na,
            an@.len() == na,
            forall|k: int| 0 <= k < nd ==> #[trigger] dels@[k] < f.keys().len(),
            forall|k: int| 0 <= k < na ==> #[trigger] adds@[k] < g.keys().len(),
            forall|k: int| 0 <= k < nd ==> {
                let c = #[trigger] from.entries@[dels@[k] as int].content@;
                &&& c == del_text(f, g, k)
                &&& ds@[k].wf_for(text_bytes(c))
                &&& ds@[k].lines(text_bytes(c)) == distinct_lines(c)
                &&& dn@[k]@ == leaf_name(del_path(f, g, k))
            },
            forall|k: int| 0 <= k < na ==> {
                let c = #[trigger] to.entries@[adds@[k] as int].content@;
                &&& c == add_text(f, g, k)
                &&& asets@[k].wf_for(text_bytes(c))
                &&& asets@[k].lines(text_bytes(c)) == distinct_lines(c)
                &&& an@[k]@ == leaf_name(add_path(f, g, k))
            },
            i <= na,
            used@.len() == nd,
            matched@.len() == na,
            used@ == similar_phase(f, g, tt, i as int).0,
            opt_view(matched@) == similar_phase(f, g, tt, i as int).1,
            forall|j: int| 0 <= j < na ==> (#[trigger] matched@[j] matches Some(x) ==> x < nd),
        decreases na - i,
    {
        let ghost mi = opt_view(matched@)[i as int];
        if matched[i].is_none() {
            let add_content = &to.entries[adds[i]].content;
            let ab = add_content.as_str().as_bytes();
            let mut best: Option<(usize, Score)> = None;
            let mut k: usize = 0;
            while k < nd
                invariant
                    f == *from,
                    g == *to,
                    from.wf(),
                    to.wf(),
                    tt == t as nat,
                    t <= SCALE,
                    nd == dels@.len(),
                    nd == deleted_files(f, g).len(),
                    ds@.len() == nd,
                    dn@.len() == nd,
                    i < na,
                    na == asets@.len(),
                    na == an@.len(),
                    forall|k: int| 0 <= k < nd ==> #[trigger] dels@[k] < f.keys().len(),
                    forall|k: int| 0 <= k < nd ==> {
                        let c = #[trigger] from.entries@[dels@[k] as int].content@;
                        &&& c == del_text(f, g, k)
                        &&& ds@[k].wf_for(text_bytes(c))
                        &&& ds@[k].lines(text_bytes(c)) == distinct_lines(c)
                        &&& dn@[k]@ == leaf_name(del_path(f, g, k))
                    },
                    add_content@ == add_text(f, g, i as int),
                    ab@ == text_bytes(add_content@),
                    asets@[i as int].wf_for(ab@),
                    asets@[i as int].lines(ab@) == distinct_lines(add_content@),
                    an@[i as int]@ == leaf_name(add_path(f, g, i as int)),
                    used@.len() == nd,
                    k <= nd,
                    match best {
                        Some((x, s)) => {
                            &&& best_match(f, g, tt, used@, i as int, k as int) == Some(x as int)
                            &&& x < nd
                            &&& s.equal == similarity_parts(del_text(f, g, x as int), add_text(f, g, i as int)).0
                            &&& s.total == similarity_parts(del_text(f, g, x as int), add_text(f, g, i as int)).1
                            &&& s.boosted == same_name(f, g, i as int, x as int)
                        },
                        None => best_match(f, g, tt, used@, i as int, k as int).is_none(),
                    },
                decreases nd - k,
            {
                if !used[k] {
                    let del_content = &from.entries[dels[k]].content;
                    let db = del_content.as_str().as_bytes();
                    if lengths_ok(db.len(), ab.len(), t) {
                        proof {
                            lemma_count_common_bound(asets@[i as int].lines(ab@), ds@[k as int].lines(db@));
                        }
                        let common = asets[i].common_with(ab, &ds[k], db);
                        if overlap_ok(common, asets[i].ranges.len(), ds[k].ranges.len(), t) {
                            let boosted = an[i] == dn[k];
                            let s = similarity(del_content, add_content, boosted);
                            if s.meets(t) {
                                match best {
                                    None => {
                                        best = Some((k, s));
                                    },
                                    Some((_, bs)) => {
                                        if s.beats(&bs) {
                                            best = Some((k, s));
                                        }
                                    },
                                }
                            }
                        }
                    }
                }
                k = k + 1;
            }
            match best {
                Some((x, _)) => {
                    used.set(x, true);
                    matched.set(i, Some(x));
                },
                None => {},
            }
        }
        proof {
            assert(opt_view(matched@) =~= similar_phase(f, g, tt, i + 1).1);
            assert(used@ =~= similar_phase(f, g, tt, i + 1).0);
        }
        i = i + 1;
    }
    let mut out: Vec<(String, String)> = Vec::new();
    let mut i: usize = 0;
    proof {
        assert(pairs_view(out@) =~= pairs_upto(f, g, tt, 0));
        assert(opt_view(matched@) == rename_matches(f, g, tt));
    }
    while i < na
        invariant
            f == *from,
            g == *to,
            nd == dels@.len(),
            na == adds@.len(),
            na == added_files(f, g).len(),
            forall|k: int| 0 <= k < nd ==> #[trigger] dels@[k] < f.keys().len(),
            forall|k: int| 0 <= k < na ==> #[trigger] adds@[k] < g.keys().len(),
            forall|k: int| 0 <= k < nd ==> #[trigger] from.keys()[dels@[k] as int] == del_path(f, g, k),
            forall|k: int| 0 <= k < na ==> #[trigger] to.keys()[adds@[k] as int] == add_path(f, g, k),
            from.wf(),
            to.wf(),
            matched@.len() == na,
            opt_view(matched@) == rename_matches(f, g, tt),
            forall|j: int| 0 <= j < na ==> (#[trigger] matched@[j] matches Some(x) ==> x < nd),
            i <= na,
            pairs_view(out@) == pairs_upto(f, g, tt, i as int),
        decreases na - i,
    {
        assert(opt_view(matched@)[i as int] == rename_matches(f, g, tt)[i as int]);
        match matched[i] {
            Some(x) => {
                let ghost before = pairs_view(out@);
                out.push((to.paths[adds[i]].clone(), from.paths[dels[x]].clone()));
                proof {
                    assert(rename_matches(f, g, tt)[i as int] == Some(x as int));
                    assert(pairs_upto(f, g, tt, i + 1) == before.push((add_path(f, g, i as int), del_path(f, g, x as int))));
                    assert(to.paths@[adds@[i as int] as int]@ == to.keys()[adds@[i as int] as int]);
                    assert(from.paths@[dels@[x as int] as int]@ == from.keys()[dels@[x as int] as int]);
                    assert(pairs_view(out@) =~= before.push((add_path(f, g, i as int), del_path(f, g, x as int))));
                }
            },
            None => {
                proof {
                    assert(rename_matches(f, g, tt)[i as int] == None::<int>);
                }
            },
        }
        i = i + 1;
    }
    out
}

/// Each matched deleted file is marked used, and no two added files share one.
pub open spec fn phase_inv(nd: int, used: Seq<bool>, m: Seq<Option<int>>) -> bool {
    &&& used.len() == nd
    &&& forall|i: int| 0 <= i < m.len() ==> (#[trigger] m[i] matches Some(k) ==> 0 <= k < nd && used[k])
    &&& forall|i1: int, i2: int| 0 <= i1 < m.len() && 0 <= i2 < m.len() && i1 != i2 && (#[trigger] m[i1]).is_some() ==> m[i1] != #[trigger] m[i2]
}

proof fn lemma_exact_match(from: FileMap, to: FileMap, used: Seq<bool>, i: int, n: int)
    requires
        n <= used.len(),
    ensures
        exact_match(from, to, used, i, n) matches Some(k) ==> 0 <= k < n && !used[k],
    decreases n,
{
    if n > 0 {
        lemma_exact_match(from, to, used, i, n - 1);
    }
}

proof fn lemma_best_match(from: FileMap, to: FileMap, t: nat, used: Seq<bool>, i: int, n: int)
    requires
        n <= used.len(),
    ensures
        best_match(from, to, t, used, i, n) matches Some(k) ==> 0 <= k < n && !used[k],
    decreases n,
{
    if n > 0 {
        lemma_best_match(from, to, t, used, i, n - 1);
    }
}

proof fn lemma_exact_phase(from: FileMap, to: FileMap, i: int)
    requires
        0 <= i,
    ensures
        phase_inv(deleted_files(from, to).len() as int, exact_phase(from, to, i).0, exact_phase(from, to, i).1),
        exact_phase(from, to, i).1.len() == i,
    decreases i,
{
    let nd = deleted_files(from, to).len() as int;
    if i > 0 {
        lemma_exact_phase(from, to, i - 1);
        let (used, m) = exact_phase(from, to, i - 1);
        lemma_exact_match(from, to, used, i - 1, nd);
        let (u2, m2) = exact_phase(from, to, i);
        match exact_match(from, to, used, i - 1, nd) {
            Some(k) => {
                assert forall|a: int| 0 <= a < m2.len() implies (#[trigger] m2[a] matches Some(x) ==> 0 <= x < nd && u2[x]) by {
                    if a < i - 1 {
                        assert(m2[a] == m[a]);
                    }
                }
                assert forall|a: int, b: int| 0 <= a < m2.len() && 0 <= b < m2.len() && a != b && (#[trigger] m2[a]).is_some() implies m2[a] != #[trigger] m2[b] by {
                    if a < i - 1 && b < i - 1 {
                        assert(m2[a] == m[a] && m2[b] == m[b]);
                    } else if a < i - 1 {
                        assert(m2[a] == m[a]);
                    } else {
                        assert(m2[b] == m[b]);
                    }
                }
            },
            None => {
                assert forall|a: int| 0 <= a < m2.len() implies (#[trigger] m2[a] matches Some(x) ==> 0 <= x < nd && u2[x]) by {
                    if a < i - 1 {
                        assert(m2[a] == m[a]);
                    }
                }
                assert forall|a: int, b: int| 0 <= a < m2.len() && 0 <= b < m2.len() && a != b && (#[trigger] m2[a]).is_some() implies m2[a] != #[trigger] m2[b] by {
                    if a < i - 1 && b < i - 1 {
                        assert(m2[a] == m[a] && m2[b] == m[b]);
                    } else if a < i - 1 {
                        assert(m2[a] == m[a]);
                    } else {
                        assert(m2[b] == m[b]);
                    }
                }
            },
        }
    }
}

proof fn lemma_similar_phase(from: FileMap, to: FileMap, t: nat, i: int)
    requires
        0 <= i <= added_files(from, to).len(),
    ensures
        phase_inv(deleted_files(from, to).len() as int, similar_phase(from, to, t, i).0, similar_phase(from, to, t, i).1),
        similar_phase(from, to, t, i).1.len() == added_files(from, to).len(),
    decreases i,
{
    let nd = deleted_files(from, to).len() as int;
    if i == 0 {
        lemma_exact_phase(from, to, added_files(from, to).len() as int);
    } else {
        lemma_similar_phase(from, to, t, i - 1);
        let (used, m) = similar_phase(from, to, t, i - 1);
        if m[i - 1].is_none() {
            lemma_best_match(from, to, t, used, i - 1, nd);
            match best_match(from, to, t, used, i - 1, nd) {
                Some(k) => {
                    let (u2, m2) = similar_phase(from, to, t, i);
                    assert forall|a: int| 0 <= a < m2.len() implies (#[trigger] m2[a] matches Some(x) ==> 0 <= x < nd && u2[x]) by {
                        if a != i - 1 {
                            assert(m2[a] == m[a]);
                        }
                    }
                    assert forall|a: int, b: int| 0 <= a < m2.len() && 0 <= b < m2.len() && a != b && (#[trigger] m2[a]).is_some() implies m2[a] != #[trigger] m2[b] by {
                        if a != i - 1 && b != i - 1 {
                            assert(m2[a] == m[a] && m2[b] == m[b]);
                        } else if a != i - 1 {
                            assert(m2[a] == m[a]);
                        } else {
                            assert(m2[b] == m[b]);
                        }
                    }
                },
                None => {},
            }
        }
    }
}

/// No deleted file is the source of two renames.
pub proof fn law_rename_sources_unique(from: FileMap, to: FileMap, t: nat)
    ensures
        forall|i1: int, i2: int|
            0 <= i1 < rename_matches(from, to, t).len() && 0 <= i2 < rename_matches(from, to, t).len() && i1 != i2
                && (#[trigger] rename_matches(from, to, t)[i1]).is_some() ==> rename_matches(from, to, t)[i1]
                != #[trigger] rename_matches(from, to, t)[i2],
        forall|i: int| 0 <= i < rename_matches(from, to, t).len() ==> (#[trigger] rename_matches(from, to, t)[i] matches Some(k) ==> 0 <= k < deleted_files(from, to).len()),
        rename_matches(from, to, t).len() == added_files(from, to).len(),
{
    lemma_similar_phase(from, to, t, added_files(from, to).len() as int);
}

} // verus!
