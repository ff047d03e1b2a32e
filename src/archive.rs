//! Preparing the listing of an unpacked archive for a build: recognising the
//! container format, adding the directories that entries imply, and lifting
//! the entries out of a single common top-level directory.
use vstd::prelude::*;
use crate::types::{FileMap, FileMapEntry, FileType, PathSet};

verus! {

/// The bytes open with the gzip magic number.
pub open spec fn gzip_magic(b: Seq<u8>) -> bool {
    b.len() >= 2 && b[0] == 0x1f && b[1] == 0x8b
}

/// The bytes open with one of the zip signatures (local file, end of central
/// directory, spanned archive).
pub open spec fn zip_magic(b: Seq<u8>) -> bool {
    &&& b.len() >= 4
    &&& b[0] == 0x50 && b[1] == 0x4b
    &&& (b[2] == 0x03 && b[3] == 0x04) || (b[2] == 0x05 && b[3] == 0x06) || (b[2] == 0x07 && b[3] == 0x08)
}

pub fn is_gzip(bytes: &[u8]) -> (r: bool)
    ensures
        r == gzip_magic(bytes@),
{
    bytes.len() >= 2 && bytes[0] == 0x1f && bytes[1] == 0x8b
}

pub fn is_zip(bytes: &[u8]) -> (r: bool)
    ensures
        r == zip_magic(bytes@),
{
    bytes.len() >= 4 && bytes[0] == 0x50 && bytes[1] == 0x4b && ((bytes[2] == 0x03 && bytes[3] == 0x04) || (
    bytes[2] == 0x05 && bytes[3] == 0x06) || (bytes[2] == 0x07 && bytes[3] == 0x08))
}

/// No component of `k` that starts before position `i` is empty.
pub open spec fn intact(k: Seq<char>, i: int) -> bool
    decreases i,
{
    if i <= 0 {
        true
    } else {
        intact(k, i - 1) && !(k[i - 1] == '/' && (i - 1 == 0 || k[i - 2] == '/'))
    }
}

/// A `'/'` at position `i` of `k` closes a non-empty component, and no
/// earlier component is empty.
pub open spec fn closes_part(k: Seq<char>, i: int) -> bool {
    0 < i < k.len() && k[i] == '/' && k[i - 1] != '/' && intact(k, i)
}

/// The directories that path `k` implies through its first `n` positions:
/// the prefixes before each `'/'` up to the first empty component.
pub open spec fn implied_upto(k: Seq<char>, n: int) -> Set<Seq<char>> {
    Set::new(|d: Seq<char>| exists|i: int| 0 <= i < n && #[trigger] closes_part(k, i) && d == k.subrange(0, i))
}

/// The directories that the first `n` keys of `m` imply.
pub open spec fn implied_by(m: FileMap, n: int) -> Set<Seq<char>> {
    Set::new(
        |d: Seq<char>|
            exists|j: int| 0 <= j < n && #[trigger] implied_upto(m.keys()[j], m.keys()[j].len() as int).contains(d),
    )
}

/// The directories that the keys of `m` imply.
pub open spec fn implied_dirs(m: FileMap) -> Set<Seq<char>> {
    implied_by(m, m.keys().len() as int)
}

/// Adds an empty directory entry for every directory that a path implies and
/// that has no entry yet.
pub fn ensure_directories(files: &mut FileMap)
    requires
        old(files).wf(),
    ensures
        final(files).wf(),
        final(files).keys().to_set() == old(files).keys().to_set().union(implied_dirs(*old(files))),
        forall|q: Seq<char>| #[trigger] old(files).has(q) ==> final(files).entry_at(q) == old(files).entry_at(q),
        forall|q: Seq<char>|
            !old(files).has(q) && #[trigger] implied_dirs(*old(files)).contains(q) ==> final(files).entry_at(q)
                == Some((FileType::Directory, Seq::<char>::empty())),
{
    let ghost start = *files;
    let mut keys: Vec<String> = Vec::new();
    let n = files.paths.len();
    let mut j: usize = 0;
    while j < n
        invariant
            n == files.paths@.len(),
            j <= n,
            keys@ == files.paths@.subrange(0, j as int),
        decreases n - j,
    {
        keys.push(files.paths[j].clone());
        proof {
            assert(keys@ =~= files.paths@.subrange(0, j + 1));
        }
        j = j + 1;
    }
    proof {
        assert(keys@ =~= files.paths@);
        assert(implied_by(start, 0) =~= Set::empty());
        assert(files.keys().to_set() =~= start.keys().to_set().union(implied_by(start, 0)));
    }
    let mut j: usize = 0;
    while j < n
        invariant
            files.wf(),
            start.wf(),
            n == start.keys().len(),
            keys@ == start.paths@,
            j <= n,
            files.keys().to_set() == start.keys().to_set().union(implied_by(start, j as int)),
            forall|q: Seq<char>| #[trigger] start.has(q) ==> files.entry_at(q) == start.entry_at(q),
            forall|q: Seq<char>|
                !start.has(q) && #[trigger] files.has(q) ==> files.entry_at(q) == Some(
                    (FileType::Directory, Seq::<char>::empty()),
                ),
        decreases n - j,
    {
        let path = &keys[j];
        let ghost k = path@;
        proof {
            assert(k == start.keys()[j as int]);
        }
        let len = path.as_str().unicode_len();
        let mut i: usize = 0;
        let mut whole = true;
        let ghost before = files.keys().to_set();
        proof {
            assert(implied_upto(k, 0) =~= Set::empty());
            assert(before.union(implied_upto(k, 0)) =~= before);
        }
        while i < len
            invariant
                files.wf(),
                start.wf(),
                k == path@,
                len == k.len(),
                i <= len,
                whole == intact(k, i as int),
                files.keys().to_set() == before.union(implied_upto(k, i as int)),
                start.keys().to_set().subset_of(before),
                forall|q: Seq<char>| #[trigger] start.has(q) ==> files.entry_at(q) == start.entry_at(q),
                forall|q: Seq<char>|
                    !start.has(q) && #[trigger] files.has(q) ==> files.entry_at(q) == Some(
                        (FileType::Directory, Seq::<char>::empty()),
                    ),
            decreases len - i,
        {
            let c = path.as_str().get_char(i);
            let ghost keys_before = files.keys().to_set();
            let ghost closes = closes_part(k, i as int);
            let mut opens_empty = false;
            if c == '/' {
                if i == 0 {
                    opens_empty = true;
                } else if path.as_str().get_char(i - 1) == '/' {
                    opens_empty = true;
                }
            }
            if c == '/' && !opens_empty && whole {
                let prefix = String::from_str(path.as_str().substring_char(0, i));
                proof {
                    assert(closes);
                }
                if files.get(prefix.as_str()).is_none() {
                    let ghost pre = *files;
                    files.insert(prefix, FileMapEntry { file_type: FileType::Directory, content: String::new() });
                    proof {
                        assert forall|q: Seq<char>| #[trigger] start.has(q) implies files.entry_at(q) == start.entry_at(q) by {
                            assert(keys_before.contains(q));
                            assert(pre.has(q));
                        }
                        assert forall|q: Seq<char>| !start.has(q) && #[trigger] files.has(q) implies files.entry_at(q) == Some(
                            (FileType::Directory, Seq::<char>::empty()),
                        ) by {
                            if q != k.subrange(0, i as int) {
                                assert(files.keys().to_set().contains(q));
                                assert(pre.keys().to_set().contains(q));
                                assert(pre.has(q));
                            }
                        }
                    }
                } else {
                    proof {
                        assert(keys_before.contains(k.subrange(0, i as int)));
                        assert(keys_before.insert(k.subrange(0, i as int)) =~= keys_before);
                    }
                }
                proof {
                    assert(implied_upto(k, i + 1) =~= implied_upto(k, i as int).insert(k.subrange(0, i as int)));
                    assert(files.keys().to_set() =~= before.union(implied_upto(k, i + 1)));
                }
            } else {
                proof {
                    assert(!closes);
                    assert(implied_upto(k, i + 1) =~= implied_upto(k, i as int));
                }
            }
            if c == '/' && opens_empty {
                whole = false;
            }
            i = i + 1;
        }
        proof {
            let acc = implied_by(start, j as int);
            let acc2 = implied_by(start, j + 1);
            assert forall|d: Seq<char>| acc2.contains(d) <==> acc.contains(d) || implied_upto(k, len as int).contains(d) by {
                if acc2.contains(d) {
                    let jj = choose|jj: int| 0 <= jj < j + 1 && #[trigger] implied_upto(start.keys()[jj], start.keys()[jj].len() as int).contains(d);
                    if jj < j {
                        assert(acc.contains(d));
                    }
                }
                if acc.contains(d) {
                    let jj = choose|jj: int| 0 <= jj < j && #[trigger] implied_upto(start.keys()[jj], start.keys()[jj].len() as int).contains(d);
                    assert(0 <= jj < j + 1);
                }
                if implied_upto(k, len as int).contains(d) {
                    assert(implied_upto(start.keys()[j as int], start.keys()[j as int].len() as int).contains(d));
                }
            }
            assert(files.keys().to_set() =~= start.keys().to_set().union(acc2));
        }
        j = j + 1;
    }
    proof {
        assert forall|q: Seq<char>|
            !start.has(q) && #[trigger] implied_dirs(start).contains(q) implies files.entry_at(q) == Some(
                (FileType::Directory, Seq::<char>::empty()),
            ) by {
            assert(files.keys().to_set().contains(q));
        }
    }
}

/// Position of the first `'/'` of `k` at or after `i`, or its length.
pub open spec fn first_slash_from(k: Seq<char>, i: int) -> int
    decreases k.len() - i,
{
    if i >= k.len() {
        k.len() as int
    } else if k[i] == '/' {
        i
    } else {
        first_slash_from(k, i + 1)
    }
}

/// The first component of `k`.
pub open spec fn first_part(k: Seq<char>) -> Seq<char> {
    k.subrange(0, first_slash_from(k, 0))
}

proof fn lemma_first_slash(k: Seq<char>, i: int)
    requires
        0 <= i <= k.len(),
    ensures
        i <= first_slash_from(k, i) <= k.len(),
    decreases k.len() - i,
{
    if i < k.len() && k[i] != '/' {
        lemma_first_slash(k, i + 1);
    }
}

/// The first component of path `p`.
fn first_part_of(p: &str) -> (r: String)
    ensures
        r@ == first_part(p@),
{
    let n = p.unicode_len();
    let mut i: usize = 0;
    while i < n
        invariant
            i <= n,
            n == p@.len(),
            first_slash_from(p@, 0) == first_slash_from(p@, i as int),
        ensures
            first_slash_from(p@, 0) == first_slash_from(p@, i as int),
            i == n || p@[i as int] == '/',
            i <= n,
        decreases n - i,
    {
        if p.get_char(i) == '/' {
            break;
        }
        i = i + 1;
    }
    String::from_str(p.substring_char(0, i))
}

/// The non-empty first components of the first `n` keys of `m`.
pub open spec fn tops_upto(m: FileMap, n: int) -> Set<Seq<char>> {
    Set::new(|t: Seq<char>| t.len() > 0 && exists|j: int| 0 <= j < n && #[trigger] first_part(m.keys()[j]) == t)
}

pub open spec fn top_parts(m: FileMap) -> Set<Seq<char>> {
    tops_upto(m, m.keys().len() as int)
}

/// `k` lies strictly inside directory `r`.
pub open spec fn under_root(k: Seq<char>, r: Seq<char>) -> bool {
    k.len() > r.len() + 1 && k.subrange(0, r.len() as int) == r && k[r.len() as int] == '/'
}

/// The path `q` inside directory `r`.
pub open spec fn join(r: Seq<char>, q: Seq<char>) -> Seq<char> {
    r + seq!['/'] + q
}

/// `r` is the one top-level component of `m`, a directory entry of it, with
/// at least one path inside it.
pub open spec fn is_common_root(m: FileMap, r: Seq<char>) -> bool {
    &&& top_parts(m) == set![r]
    &&& m.entry_at(r) matches Some((FileType::Directory, _))
    &&& exists|j: int| 0 <= j < m.keys().len() && under_root(#[trigger] m.keys()[j], r)
}

/// The entries of `m` inside `r`, keyed by their path below it.
pub open spec fn lifted(m: FileMap, r: Seq<char>, q: Seq<char>) -> Option<(FileType, Seq<char>)> {
    if q.len() > 0 {
        m.entry_at(join(r, q))
    } else {
        None
    }
}

proof fn lemma_join_strip(k: Seq<char>, r: Seq<char>)
    requires
        under_root(k, r),
    ensures
        join(r, k.subrange(r.len() + 1int, k.len() as int)) == k,
        k.subrange(r.len() + 1int, k.len() as int).len() > 0,
{
    assert(join(r, k.subrange(r.len() + 1int, k.len() as int)) =~= k);
}

proof fn lemma_join_under(r: Seq<char>, q: Seq<char>)
    requires
        q.len() > 0,
    ensures
        under_root(join(r, q), r),
        join(r, q).subrange(r.len() + 1int, join(r, q).len() as int) == q,
{
    assert(join(r, q).subrange(0, r.len() as int) =~= r);
    assert(join(r, q).subrange(r.len() + 1int, join(r, q).len() as int) =~= q);
}

/// Lifts every entry out of the single top-level directory of `files`, where
/// there is one that holds anything; otherwise returns `files` as it is.
pub fn strip_common_root(files: FileMap) -> (r: FileMap)
    requires
        files.wf(),
    ensures
        r.wf(),
        forall|root: Seq<char>, q: Seq<char>|
            #![trigger is_common_root(files, root), r.entry_at(q)]
            is_common_root(files, root) ==> r.entry_at(q) == lifted(files, root, q),
        !(exists|root: Seq<char>| is_common_root(files, root)) ==> r == files,
{
    let n = files.paths.len();
    let mut tops = PathSet::new();
    let mut j: usize = 0;
    proof {
        assert(tops.elems().to_set() =~= tops_upto(files, 0));
    }
    while j < n
        invariant
            files.wf(),
            n == files.keys().len(),
            j <= n,
            tops.wf(),
            tops.elems().to_set() == tops_upto(files, j as int),
        decreases n - j,
    {
        let first = first_part_of(files.paths[j].as_str());
        let ghost fp = first@;
        proof {
            assert(files.keys()[j as int] == files.paths@[j as int]@);
        }
        if first.as_str().unicode_len() > 0 {
            tops.insert(first);
            proof {
                assert(tops_upto(files, j + 1) =~= tops_upto(files, j as int).insert(fp));
            }
        } else {
            proof {
                assert(tops_upto(files, j + 1) =~= tops_upto(files, j as int));
            }
        }
        j = j + 1;
    }
    if tops.items.len() != 1 {
        proof {
            assert forall|root: Seq<char>| !is_common_root(files, root) by {
                if top_parts(files) == set![root] {
                    if tops.items@.len() == 0 {
                        assert(tops.elems().to_set().contains(root));
                        assert(tops.elems().contains(root));
                    } else {
                        let a = tops.elems()[0];
                        let b = tops.elems()[1];
                        assert(tops.elems().to_set().contains(a));
                        assert(tops.elems().to_set().contains(b));
                        assert(crate::paths::path_lt(a, b));
                        crate::paths::lemma_lt_irreflexive(a);
                    }
                }
            }
        }
        return files;
    }
    let root = tops.items[0].clone();
    let ghost rv = root@;
    proof {
        assert(tops.elems()[0] == rv);
        assert forall|x: Seq<char>| tops.elems().to_set().contains(x) <==> x == rv by {
            if tops.elems().contains(x) {
                let i = tops.elems().index_of(x);
                assert(i == 0);
            }
            if x == rv {
                assert(tops.elems().contains(x));
            }
        }
        assert(tops.elems().to_set() =~= set![rv]);
    }
    let is_dir = match files.get(root.as_str()) {
        Some(e) => e.file_type == FileType::Directory,
        None => false,
    };
    if !is_dir {
        proof {
            assert forall|x: Seq<char>| !is_common_root(files, x) by {
                if top_parts(files) == set![x] {
                    assert(set![x].contains(rv));
                }
            }
        }
        return files;
    }
    let rlen = root.as_str().unicode_len();
    let mut out = FileMap::new();
    let mut found = false;
    let mut j: usize = 0;
    while j < n
        invariant
            files.wf(),
            n == files.keys().len(),
            j <= n,
            out.wf(),
            rv == root@,
            rlen == rv.len(),
            found == exists|jj: int| 0 <= jj < j && under_root(#[trigger] files.keys()[jj], rv),
            forall|q: Seq<char>| #[trigger] out.entry_at(q) == (if q.len() > 0 && files.has(join(rv, q)) && files.keys().index_of(join(rv, q)) < j {
                files.entry_at(join(rv, q))
            } else {
                None
            }),
        decreases n - j,
    {
        let path = &files.paths[j];
        let ghost k = path@;
        proof {
            assert(files.keys()[j as int] == k);
            files.lemma_index_of(j as int);
        }
        let plen = path.as_str().unicode_len();
        let mut inside = false;
        if plen > rlen && plen - rlen > 1 {
            if path.as_str().get_char(rlen) == '/' {
                let head = String::from_str(path.as_str().substring_char(0, rlen));
                if head == root {
                    inside = true;
                }
            }
        }
        proof {
            assert(inside == under_root(k, rv));
        }
        let ghost pre = out;
        if inside {
            let rest = String::from_str(path.as_str().substring_char(rlen + 1, plen));
            let entry = FileMapEntry { file_type: files.entries[j].file_type, content: files.entries[j].content.clone() };
            proof {
                lemma_join_strip(k, rv);
            }
            out.insert(rest, entry);
            found = true;
            proof {
                let q0 = k.subrange(rv.len() + 1int, k.len() as int);
                assert forall|q: Seq<char>| #[trigger] out.entry_at(q) == (if q.len() > 0 && files.has(join(rv, q)) && files.keys().index_of(join(rv, q)) < j + 1 {
                    files.entry_at(join(rv, q))
                } else {
                    None
                }) by {
                    if q == q0 {
                        assert(files.entry_at(k) == Some((files.entries@[j as int].file_type, files.entries@[j as int].content@)));
                    } else if q.len() > 0 && files.has(join(rv, q)) {
                        lemma_join_under(rv, q);
                        if files.keys().index_of(join(rv, q)) == j {
                            assert(join(rv, q) == k);
                        }
                    }
                }
            }
        } else {
            proof {
                assert forall|q: Seq<char>| #[trigger] out.entry_at(q) == (if q.len() > 0 && files.has(join(rv, q)) && files.keys().index_of(join(rv, q)) < j + 1 {
                    files.entry_at(join(rv, q))
                } else {
                    None
                }) by {
                    if q.len() > 0 && files.has(join(rv, q)) && files.keys().index_of(join(rv, q)) == j {
                        lemma_join_under(rv, q);
                    }
                }
            }
        }
        j = j + 1;
    }
    if !found {
        proof {
            assert forall|x: Seq<char>| !is_common_root(files, x) by {
                if top_parts(files) == set![x] {
                    assert(set![x].contains(rv));
                }
            }
        }
        return files;
    }
    proof {
        assert(is_common_root(files, rv));
        assert forall|x: Seq<char>, q: Seq<char>| #![trigger is_common_root(files, x), out.entry_at(q)]
            is_common_root(files, x) implies out.entry_at(q) == lifted(files, x, q) by {
            assert(set![x].contains(rv));
            if q.len() > 0 && files.has(join(rv, q)) {
                let y = files.keys().index_of(join(rv, q));
            }
        }
    }
    out
}

/// `'\\'` read as `'/'`.
pub open spec fn slash_of(c: char) -> char {
    if c == '\\' {
        '/'
    } else {
        c
    }
}

pub open spec fn with_slashes(p: Seq<char>) -> Seq<char> {
    p.map_values(|c: char| slash_of(c))
}

/// Leading `"./"` pairs removed, as often as they occur.
pub open spec fn drop_dot_slashes(p: Seq<char>) -> Seq<char>
    decreases p.len(),
{
    if p.len() >= 2 && p[0] == '.' && p[1] == '/' {
        drop_dot_slashes(p.subrange(2, p.len() as int))
    } else {
        p
    }
}

/// Leading `'/'` removed.
pub open spec fn drop_leading_slashes(p: Seq<char>) -> Seq<char>
    decreases p.len(),
{
    if p.len() >= 1 && p[0] == '/' {
        drop_leading_slashes(p.subrange(1, p.len() as int))
    } else {
        p
    }
}

/// Trailing `'/'` removed.
pub open spec fn drop_trailing_slashes(p: Seq<char>) -> Seq<char>
    decreases p.len(),
{
    if p.len() >= 1 && p.last() == '/' {
        drop_trailing_slashes(p.drop_last())
    } else {
        p
    }
}

/// An archive entry's path in the form the file maps use: forward slashes, no
/// leading `"./"` or `'/'`, and for a directory no trailing `'/'`; empty for
/// the archive's own root.
pub open spec fn normalized(p: Seq<char>, is_directory: bool) -> Seq<char> {
    let t = drop_leading_slashes(drop_dot_slashes(with_slashes(p)));
    if t.len() == 0 || t == seq!['.'] {
        seq![]
    } else if is_directory {
        drop_trailing_slashes(t)
    } else {
        t
    }
}

/// Normalizes the path of an archive entry.
pub fn normalize_path(path: &str, is_directory: bool) -> (r: String)
    ensures
        r@ == normalized(path@, is_directory),
{
    let n = path.unicode_len();
    let mut chars: Vec<char> = Vec::new();
    let mut i: usize = 0;
    while i < n
        invariant
            n == path@.len(),
            i <= n,
            chars@ == with_slashes(path@.subrange(0, i as int)),
        decreases n - i,
    {
        let c = path.get_char(i);
        chars.push(if c == '\\' { '/' } else { c });
        proof {
            assert(with_slashes(path@.subrange(0, i + 1)) =~= with_slashes(path@.subrange(0, i as int)).push(slash_of(c)));
        }
        i = i + 1;
    }
    proof {
        assert(path@.subrange(0, n as int) =~= path@);
    }
    let ghost w = chars@;
    assert(forall|x: int| 0 <= x < n ==> w[x] == slash_of(path@[x]));
    let mut start: usize = 0;
    proof {
        assert(w.subrange(0, n as int) =~= w);
    }
    while n - start >= 2 && chars[start] == '.' && chars[start + 1] == '/'
        invariant
            n == w.len(),
            chars@ == w,
            start <= n,
            drop_dot_slashes(w) == drop_dot_slashes(w.subrange(start as int, n as int)),
        decreases n - start,
    {
        proof {
            let s = w.subrange(start as int, n as int);
            assert(s.subrange(2, s.len() as int) =~= w.subrange(start + 2, n as int));
        }
        start = start + 2;
    }
    proof {
        let s = w.subrange(start as int, n as int);
        assert(drop_dot_slashes(s) == s);
    }
    while start < n && chars[start] == '/'
        invariant
            n == w.len(),
            chars@ == w,
            start <= n,
            drop_leading_slashes(drop_dot_slashes(w)) == drop_leading_slashes(w.subrange(start as int, n as int)),
        decreases n - start,
    {
        proof {
            let s = w.subrange(start as int, n as int);
            assert(s.subrange(1, s.len() as int) =~= w.subrange(start + 1, n as int));
        }
        start = start + 1;
    }
    let ghost t = w.subrange(start as int, n as int);
    proof {
        assert(drop_leading_slashes(t) == t);
    }
    if start == n || (n - start == 1 && chars[start] == '.') {
        proof {
            if start + 1 == n {
                assert(t =~= seq!['.']);
            }
        }
        return String::new();
    }
    proof {
        if t == seq!['.'] {
            assert(t.len() == 1);
        }
    }
    let mut end: usize = n;
    if is_directory {
        while end > start && chars[end - 1] == '/'
            invariant
                n == w.len(),
                chars@ == w,
                start <= end <= n,
                drop_trailing_slashes(t) == drop_trailing_slashes(w.subrange(start as int, end as int)),
            decreases end,
        {
            proof {
                assert(w.subrange(start as int, end as int).drop_last() =~= w.subrange(start as int, end - 1));
            }
            end = end - 1;
        }
        proof {
            let s = w.subrange(start as int, end as int);
            assert(drop_trailing_slashes(s) == s);
        }
    }
    let mut out = String::new();
    let mut k: usize = start;
    proof {
        assert(drop_trailing_slashes(t) == w.subrange(start as int, end as int) || !is_directory);
        if !is_directory {
            assert(end == n);
        }
    }
    proof {
        assert(out@ =~= w.subrange(start as int, start as int));
    }
    while k < end
        invariant
            n == w.len(),
            chars@ == w,
            start <= k <= end <= n,
            n == path@.len(),
            forall|x: int| 0 <= x < n ==> w[x] == slash_of(#[trigger] path@[x]),
            out@ == w.subrange(start as int, k as int),
        decreases end - k,
    {
        let ghost before = out@;
        if chars[k] == '/' {
            out.append("/");
            proof {
                reveal_strlit("/");
            }
        } else {
            out.append(path.substring_char(k, k + 1));
            proof {
                assert(w[k as int] == slash_of(path@[k as int]));
                assert(path@.subrange(k as int, k + 1) =~= seq![w[k as int]]);
            }
        }
        proof {
            assert(w.subrange(start as int, k + 1) =~= w.subrange(start as int, k as int).push(w[k as int]));
            assert(out@ =~= w.subrange(start as int, k + 1));
        }
        k = k + 1;
    }
    out
}

} // verus!
