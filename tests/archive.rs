use diff_wasm::archive::{ensure_directories, is_gzip, is_zip, normalize_path, strip_common_root};
use diff_wasm::{FileMap, FileMapEntry, FileType};

fn file(text: &str) -> FileMapEntry {
    FileMapEntry { file_type: FileType::File, content: text.to_string() }
}

fn dir() -> FileMapEntry {
    FileMapEntry { file_type: FileType::Directory, content: String::new() }
}

#[test]
fn magic_numbers() {
    assert!(is_gzip(&[0x1f, 0x8b, 0x08]));
    assert!(!is_gzip(&[0x1f]));
    assert!(is_zip(&[0x50, 0x4b, 0x03, 0x04, 0]));
    assert!(is_zip(&[0x50, 0x4b, 0x05, 0x06]));
    assert!(is_zip(&[0x50, 0x4b, 0x07, 0x08]));
    assert!(!is_zip(&[0x50, 0x4b, 0x03, 0x05]));
    assert!(!is_zip(&[0x50, 0x4b, 0x03]));
}

#[test]
fn paths_are_normalized() {
    assert_eq!(normalize_path("./package/a.js", false), "package/a.js");
    assert_eq!(normalize_path("././x", false), "x");
    assert_eq!(normalize_path("/abs/path", false), "abs/path");
    assert_eq!(normalize_path("dir\\sub\\f.txt", false), "dir/sub/f.txt");
    assert_eq!(normalize_path("pkg/lib/", true), "pkg/lib");
    assert_eq!(normalize_path("pkg/lib/", false), "pkg/lib/");
    assert_eq!(normalize_path("./", true), "");
    assert_eq!(normalize_path(".", true), "");
    assert_eq!(normalize_path("", false), "");
}

#[test]
fn implied_directories_are_added() {
    let mut m = FileMap::new();
    m.insert("a/b/c.txt".to_string(), file("x"));
    m.insert("a/keep".to_string(), file("y"));
    m.insert("odd//z".to_string(), file("z"));
    ensure_directories(&mut m);
    assert_eq!(m.get("a").unwrap().file_type, FileType::Directory);
    assert_eq!(m.get("a/b").unwrap().file_type, FileType::Directory);
    assert_eq!(m.get("a/b").unwrap().content, "");
    assert_eq!(m.get("a/keep").unwrap().content, "y");
    assert_eq!(m.get("odd").unwrap().file_type, FileType::Directory);
    assert!(m.get("odd/").is_none());
    assert_eq!(m.len(), 6);
}

#[test]
fn common_root_is_stripped() {
    let mut m = FileMap::new();
    m.insert("package".to_string(), dir());
    m.insert("package/index.js".to_string(), file("1"));
    m.insert("package/lib".to_string(), dir());
    m.insert("package/lib/a.js".to_string(), file("2"));
    let s = strip_common_root(m);
    assert_eq!(s.paths, vec!["index.js".to_string(), "lib".to_string(), "lib/a.js".to_string()]);
    assert_eq!(s.get("lib/a.js").unwrap().content, "2");
    assert_eq!(s.get("lib").unwrap().file_type, FileType::Directory);
}

#[test]
fn no_common_root_keeps_everything() {
    let mut m = FileMap::new();
    m.insert("a".to_string(), dir());
    m.insert("a/x".to_string(), file("1"));
    m.insert("b".to_string(), file("2"));
    let s = strip_common_root(m);
    assert_eq!(s.paths, vec!["a".to_string(), "a/x".to_string(), "b".to_string()]);

    let mut f = FileMap::new();
    f.insert("only".to_string(), file("not a directory"));
    f.insert("only/x".to_string(), file("1"));
    assert_eq!(strip_common_root(f).len(), 2);

    let mut e = FileMap::new();
    e.insert("root".to_string(), dir());
    let s = strip_common_root(e);
    assert_eq!(s.paths, vec!["root".to_string()]);
}
