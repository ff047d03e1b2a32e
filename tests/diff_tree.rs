use diff_wasm::{build_diff_tree, DiffFileEntry, DiffStatus, DiffTreeBuilder, FileMap, FileMapEntry, FileType};

const T07: i64 = 700_000;

fn file(text: &str) -> FileMapEntry {
    FileMapEntry { file_type: FileType::File, content: text.to_string() }
}

fn dir() -> FileMapEntry {
    FileMapEntry { file_type: FileType::Directory, content: String::new() }
}

fn map(entries: &[(&str, FileMapEntry)]) -> FileMap {
    let mut m = FileMap::new();
    for (p, e) in entries {
        m.insert(p.to_string(), FileMapEntry { file_type: e.file_type, content: e.content.clone() });
    }
    m
}

fn children(n: &DiffFileEntry) -> &Vec<DiffFileEntry> {
    n.children.as_ref().unwrap()
}

fn find<'a>(n: &'a DiffFileEntry, path: &str) -> Option<&'a DiffFileEntry> {
    if n.path == path {
        return Some(n);
    }
    for c in children(n) {
        if let Some(x) = find(c, path) {
            return Some(x);
        }
    }
    None
}

fn all_nodes<'a>(n: &'a DiffFileEntry, out: &mut Vec<&'a DiffFileEntry>) {
    out.push(n);
    for c in children(n) {
        all_nodes(c, out);
    }
}

fn file_sums(n: &DiffFileEntry) -> (u64, u64) {
    if n.file_type == FileType::File {
        return (n.added.unwrap(), n.removed.unwrap());
    }
    let mut a = 0;
    let mut r = 0;
    for c in children(n) {
        let (x, y) = file_sums(c);
        a += x;
        r += y;
    }
    (a, r)
}

fn check_invariants(root: &DiffFileEntry) {
    let mut nodes = Vec::new();
    all_nodes(root, &mut nodes);
    for n in nodes {
        let cs = children(n);
        for w in cs.windows(2) {
            assert!(w[0].path < w[1].path, "{} !< {}", w[0].path, w[1].path);
        }
        if n.file_type == FileType::Directory {
            let (a, r) = file_sums(n);
            assert_eq!(n.added, Some(a));
            assert_eq!(n.removed, Some(r));
            if n.status == DiffStatus::Unchanged {
                assert!(cs.iter().all(|c| c.status == DiffStatus::Unchanged));
            }
        } else {
            assert!(cs.is_empty());
        }
        if n.status == DiffStatus::Renamed {
            assert_eq!(n.file_type, FileType::File);
            assert!(n.old_path.is_some());
        } else {
            assert!(n.old_path.is_none());
        }
    }
}

fn hundred_lines() -> Vec<String> {
    (0..100).map(|i| format!("line number {i} of the file")).collect()
}

#[test]
fn empty_against_one_file() {
    let from = map(&[]);
    let to = map(&[("a.txt", file("hello\nworld"))]);
    let root = build_diff_tree(from, to, T07);
    check_invariants(&root);
    assert_eq!(root.path, "/");
    assert_eq!(root.status, DiffStatus::Modified);
    let cs = children(&root);
    assert_eq!(cs.len(), 1);
    assert_eq!(cs[0].path, "a.txt");
    assert_eq!(cs[0].status, DiffStatus::Added);
    assert_eq!(cs[0].added, Some(2));
    assert_eq!(cs[0].removed, Some(0));
}

#[test]
fn pure_modification() {
    let from = map(&[("x", file("1\n2\n3"))]);
    let to = map(&[("x", file("1\n2\n4"))]);
    let root = build_diff_tree(from, to, T07);
    check_invariants(&root);
    let x = find(&root, "x").unwrap();
    assert_eq!(x.status, DiffStatus::Modified);
    assert_eq!(x.added, Some(1));
    assert_eq!(x.removed, Some(1));
    assert_eq!(root.status, DiffStatus::Modified);
    assert_eq!(root.added, Some(1));
    assert_eq!(root.removed, Some(1));
}

#[test]
fn exact_rename() {
    let from = map(&[("src/old.js", file("console.log(1)"))]);
    let to = map(&[("src/new.js", file("console.log(1)"))]);
    let root = build_diff_tree(from, to, T07);
    check_invariants(&root);
    let n = find(&root, "src/new.js").unwrap();
    assert_eq!(n.status, DiffStatus::Renamed);
    assert_eq!(n.old_path.as_deref(), Some("src/old.js"));
    assert_eq!(n.added, Some(0));
    assert_eq!(n.removed, Some(0));
    assert!(find(&root, "src/old.js").is_none());
    assert_eq!(find(&root, "src").unwrap().status, DiffStatus::Modified);
}

#[test]
fn similar_rename_with_same_name() {
    let lines = hundred_lines();
    let mut changed = lines.clone();
    for i in [3, 20, 41, 66, 90] {
        changed[i] = format!("edited line {i}");
    }
    let from = map(&[("a/foo.txt", file(&lines.join("\n")))]);
    let to = map(&[("b/foo.txt", file(&changed.join("\n")))]);
    let root = build_diff_tree(from, to, T07);
    check_invariants(&root);
    let n = find(&root, "b/foo.txt").unwrap();
    assert_eq!(n.status, DiffStatus::Renamed);
    assert_eq!(n.old_path.as_deref(), Some("a/foo.txt"));
    assert_eq!(n.added, Some(5));
    assert_eq!(n.removed, Some(5));
    assert!(find(&root, "a/foo.txt").is_none());
    let a = find(&root, "a").unwrap();
    assert_eq!(a.status, DiffStatus::Removed);
    assert!(children(a).is_empty());
    assert_eq!(find(&root, "b").unwrap().status, DiffStatus::Added);
}

#[test]
fn dissimilar_files_are_not_renamed() {
    let old: Vec<String> = (0..10).map(|i| format!("shared or old {i}")).collect();
    let mut new = old.clone();
    for (i, l) in new.iter_mut().enumerate().skip(5) {
        *l = format!("brand new {i}");
    }
    let from = map(&[("one.txt", file(&old.join("\n")))]);
    let to = map(&[("two.txt", file(&new.join("\n")))]);
    let root = build_diff_tree(from, to, T07);
    check_invariants(&root);
    assert_eq!(find(&root, "two.txt").unwrap().status, DiffStatus::Added);
    assert_eq!(find(&root, "one.txt").unwrap().status, DiffStatus::Removed);
    assert_eq!(find(&root, "one.txt").unwrap().removed, Some(10));
}

#[test]
fn directory_bookkeeping() {
    let from = map(&[("a/b/x", file("1"))]);
    let to = map(&[("a/b/x", file("1")), ("a/c/y", file("2"))]);
    let root = build_diff_tree(from, to, T07);
    check_invariants(&root);
    let a = find(&root, "a").unwrap();
    assert_eq!(a.status, DiffStatus::Modified);
    assert_eq!(a.added, Some(1));
    assert_eq!(a.removed, Some(0));
    let names: Vec<&str> = children(a).iter().map(|c| c.path.as_str()).collect();
    assert_eq!(names, vec!["a/b", "a/c"]);
    assert_eq!(find(&root, "a/b").unwrap().status, DiffStatus::Unchanged);
    assert_eq!(find(&root, "a/c").unwrap().status, DiffStatus::Added);
    assert_eq!(find(&root, "a/c/y").unwrap().status, DiffStatus::Added);
}

fn sample_map() -> FileMap {
    map(&[
        ("README.md", file("# title\ntext\n")),
        ("src/lib.rs", file("fn a() {}\nfn b() {}\n")),
        ("src/util/mod.rs", file("pub mod x;\n")),
        ("docs", dir()),
        ("assets/logo.svg", file("<svg/>")),
    ])
}

#[test]
fn identity_is_unchanged_everywhere() {
    let root = build_diff_tree(sample_map(), sample_map(), T07);
    check_invariants(&root);
    let mut nodes = Vec::new();
    all_nodes(&root, &mut nodes);
    assert!(nodes.len() > 5);
    for n in nodes {
        assert_eq!(n.status, DiffStatus::Unchanged, "{}", n.path);
        assert_eq!(n.added, Some(0));
        assert_eq!(n.removed, Some(0));
    }
}

#[test]
fn empty_maps_give_a_bare_root() {
    let root = build_diff_tree(FileMap::new(), FileMap::new(), T07);
    assert_eq!(root.path, "/");
    assert_eq!(root.status, DiffStatus::Unchanged);
    assert!(children(&root).is_empty());
    assert_eq!(root.added, Some(0));
    assert_eq!(root.removed, Some(0));
}

#[test]
fn swapping_sides_swaps_added_and_removed() {
    let a = map(&[("keep.txt", file("k")), ("gone.txt", file("g1\ng2\ng3")), ("dir/edit.txt", file("1\n2\n3"))]);
    let b = map(&[("keep.txt", file("k")), ("fresh/new.txt", file("n1\nn2")), ("dir/edit.txt", file("1\n9\n3"))]);
    let b2 = map(&[("keep.txt", file("k")), ("fresh/new.txt", file("n1\nn2")), ("dir/edit.txt", file("1\n9\n3"))]);
    let a2 = map(&[("keep.txt", file("k")), ("gone.txt", file("g1\ng2\ng3")), ("dir/edit.txt", file("1\n2\n3"))]);
    let fwd = build_diff_tree(a, b, T07);
    let back = build_diff_tree(b2, a2, T07);
    check_invariants(&fwd);
    check_invariants(&back);
    let g1 = find(&fwd, "gone.txt").unwrap();
    let g2 = find(&back, "gone.txt").unwrap();
    assert_eq!(g1.status, DiffStatus::Removed);
    assert_eq!(g2.status, DiffStatus::Added);
    assert_eq!(g1.removed, g2.added);
    assert_eq!(find(&fwd, "fresh").unwrap().status, DiffStatus::Added);
    assert_eq!(find(&back, "fresh").unwrap().status, DiffStatus::Removed);
    let e1 = find(&fwd, "dir/edit.txt").unwrap();
    let e2 = find(&back, "dir/edit.txt").unwrap();
    assert_eq!(e1.added, e2.removed);
    assert_eq!(e1.removed, e2.added);
}

#[test]
fn thresholds_are_clamped() {
    let lines = hundred_lines();
    let mut changed = lines.clone();
    for i in 0..40 {
        changed[i] = format!("other {i}");
    }
    let build = |t: i64| {
        let from = map(&[("p/a.txt", file(&lines.join("\n")))]);
        let to = map(&[("q/b.txt", file(&changed.join("\n")))]);
        format!("{:?}", build_diff_tree(from, to, t))
    };
    assert_eq!(build(-1_000_000), build(0));
    assert_eq!(build(2_000_000), build(1_000_000));
    assert!(build(0).contains("Renamed"));
    assert!(!build(1_000_000).contains("Renamed"));
}

#[test]
fn builds_are_deterministic() {
    let one = format!("{:?}", build_diff_tree(sample_map(), map(&[("src/lib.rs", file("x"))]), T07));
    let two = format!("{:?}", build_diff_tree(sample_map(), map(&[("src/lib.rs", file("x"))]), T07));
    assert_eq!(one, two);
}

#[test]
fn each_source_is_renamed_once() {
    let from = map(&[("a.txt", file("same text\n")), ("b.txt", file("other\n"))]);
    let to = map(&[("c.txt", file("same text\n")), ("d.txt", file("same text\n"))]);
    let root = build_diff_tree(from, to, T07);
    check_invariants(&root);
    let c = find(&root, "c.txt").unwrap();
    let d = find(&root, "d.txt").unwrap();
    assert_eq!(c.status, DiffStatus::Renamed);
    assert_eq!(c.old_path.as_deref(), Some("a.txt"));
    assert_eq!(d.status, DiffStatus::Added);
    assert!(find(&root, "a.txt").is_none());
    assert_eq!(find(&root, "b.txt").unwrap().status, DiffStatus::Removed);
}

#[test]
fn builder_matches_the_free_function() {
    let mut b = DiffTreeBuilder::new(T07);
    b.set_from_files(sample_map());
    b.set_to_files(map(&[("README.md", file("# title\n"))]));
    let via_builder = format!("{:?}", b.build_tree());
    let direct = format!("{:?}", build_diff_tree(sample_map(), map(&[("README.md", file("# title\n"))]), T07));
    assert_eq!(via_builder, direct);
    assert_eq!(DiffTreeBuilder::new(-5).similarity_threshold, 0);
    assert_eq!(DiffTreeBuilder::new(3_000_000).similarity_threshold, 1_000_000);
}

#[test]
fn explicit_directories_are_kept() {
    let from = map(&[("docs", dir())]);
    let to = map(&[("docs", dir()), ("empty", dir())]);
    let root = build_diff_tree(from, to, T07);
    check_invariants(&root);
    assert_eq!(find(&root, "docs").unwrap().file_type, FileType::Directory);
    assert_eq!(find(&root, "docs").unwrap().status, DiffStatus::Unchanged);
    assert_eq!(find(&root, "empty").unwrap().status, DiffStatus::Added);
}

#[test]
fn file_map_insert_replaces() {
    let mut m = FileMap::new();
    m.insert("b".to_string(), file("1"));
    m.insert("a".to_string(), file("2"));
    m.insert("b".to_string(), file("3"));
    assert_eq!(m.len(), 2);
    assert_eq!(m.get("b").unwrap().content, "3");
    assert_eq!(m.paths, vec!["a".to_string(), "b".to_string()]);
    assert!(m.get("c").is_none());
}

#[test]
fn trailing_newline_counts_as_one_line() {
    let from = map(&[]);
    let to = map(&[("n.txt", file("a\r\nb\n"))]);
    let root = build_diff_tree(from, to, T07);
    assert_eq!(find(&root, "n.txt").unwrap().added, Some(2));
}
