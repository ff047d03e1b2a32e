use diff_wasm::{count_diff, get_diff_content};
use diff_wasm::lines::{count_lines, hash_content};
use diff_wasm::paths::{compare_paths, split_last};
use diff_wasm::score::{similarity, lengths_ok, overlap_ok, Score};
use diff_wasm::text::count_line_changes;

#[test]
fn count_diff_counts_changed_lines() {
    let c = count_diff("1\n2\n3", "1\n2\n4");
    assert_eq!((c.added, c.removed), (1, 1));
    let e = count_diff("", "");
    assert_eq!((e.added, e.removed), (0, 0));
    let a = count_diff("a", "a\nb\nc");
    assert_eq!((a.added, a.removed), (2, 0));
}

#[test]
fn diff_content_has_header_and_signed_lines() {
    let s = get_diff_content("f.txt", "a\nb", "a\nc");
    assert_eq!(s, "--- from/f.txt\n+++ to/f.txt\n  a\n- b\n+ c");
}

#[test]
fn line_changes_keep_terminators() {
    assert_eq!(count_line_changes("x\ny\n", "x\nz\n"), (1, 1));
    assert_eq!(count_line_changes("same", "same"), (0, 0));
}

#[test]
fn lines_are_counted_like_str_lines() {
    assert_eq!(count_lines(""), 0);
    assert_eq!(count_lines("a"), 1);
    assert_eq!(count_lines("a\n"), 1);
    assert_eq!(count_lines("a\n\nb"), 3);
    assert_eq!(count_lines("\n"), 1);
}

#[test]
fn similarity_fast_paths_and_diff() {
    let s = similarity(&"a\nb".to_string(), &"a\nb".to_string(), false);
    assert_eq!((s.equal, s.total), (1, 1));
    let e = similarity(&"".to_string(), &"a".to_string(), false);
    assert_eq!((e.equal, e.total), (0, 1));
    let d = similarity(&"1\n2\n3\n".to_string(), &"1\n2\n4\n".to_string(), true);
    assert_eq!((d.equal, d.total), (2, 4));
    assert!(d.boosted);
}

#[test]
fn score_threshold_and_order() {
    let plain = Score { equal: 2, total: 4, boosted: false };
    let boosted = Score { equal: 2, total: 4, boosted: true };
    assert!(plain.meets(500_000));
    assert!(!plain.meets(500_001));
    assert!(boosted.meets(600_000));
    assert!(boosted.beats(&plain));
    assert!(!plain.beats(&boosted));
    assert!(!plain.beats(&plain));
    let five_sixths = Score { equal: 5, total: 6, boosted: false };
    let four_fifths = Score { equal: 4, total: 5, boosted: false };
    let boosted_two_thirds = Score { equal: 2, total: 3, boosted: true };
    assert!(five_sixths.beats(&boosted_two_thirds));
    assert!(!boosted_two_thirds.beats(&five_sixths));
    assert!(!four_fifths.beats(&boosted_two_thirds));
    assert!(!boosted_two_thirds.beats(&four_fifths));
}

#[test]
fn length_and_overlap_filters() {
    assert!(lengths_ok(70, 100, 700_000));
    assert!(!lengths_ok(69, 100, 700_000));
    assert!(lengths_ok(142, 100, 700_000));
    assert!(!lengths_ok(143, 100, 700_000));
    assert!(lengths_ok(0, 0, 0));
    assert!(overlap_ok(0, 0, 0, 1_000_000));
    assert!(overlap_ok(49, 100, 100, 1_000_000) == false);
    assert!(overlap_ok(7, 10, 10, 700_000));
    assert!(!overlap_ok(6, 10, 10, 700_000));
}

#[test]
fn paths_order_and_split() {
    assert_eq!(compare_paths("a/b", "a/c"), std::cmp::Ordering::Less);
    assert_eq!(compare_paths("a-1", "a/b"), std::cmp::Ordering::Less);
    assert_eq!(compare_paths("ab", "a"), std::cmp::Ordering::Greater);
    assert_eq!(compare_paths("x", "x"), std::cmp::Ordering::Equal);
    let (p, l) = split_last("a/b/c.txt");
    assert_eq!((p.as_str(), l.as_str()), ("a/b", "c.txt"));
    let (p, l) = split_last("top");
    assert_eq!((p.as_str(), l.as_str()), ("", "top"));
}

#[test]
fn hash_depends_on_content() {
    assert_eq!(hash_content("abc"), hash_content("abc"));
    assert_ne!(hash_content("abc"), hash_content("abd"));
    assert_eq!(hash_content(""), 0xcbf29ce484222325);
}

use diff_wasm::score::score_of_tags;
use diff_wasm::text::{count_changes, render_patch, tally, LineTag};

#[test]
fn tally_counts_each_kind() {
    let tags = vec![LineTag::Equal, LineTag::Insert, LineTag::Equal, LineTag::Delete, LineTag::Insert];
    assert_eq!(tally(&tags), (2, 1, 2));
    assert_eq!(tally(&Vec::new()), (0, 0, 0));
}

#[test]
fn changes_are_counted_and_rendered() {
    let changes = vec![
        (LineTag::Equal, "keep".to_string()),
        (LineTag::Delete, "old".to_string()),
        (LineTag::Insert, "new".to_string()),
        (LineTag::Insert, "more".to_string()),
    ];
    let c = count_changes(&changes);
    assert_eq!((c.added, c.removed), (2, 1));
    assert_eq!(render_patch("p", &changes), "--- from/p\n+++ to/p\n  keep\n- old\n+ new\n+ more");
    assert_eq!(render_patch("q", &Vec::new()), "--- from/q\n+++ to/q");
}

#[test]
fn score_of_tags_uses_equal_over_total() {
    let s = score_of_tags(&vec![LineTag::Equal, LineTag::Equal, LineTag::Delete], false);
    assert_eq!((s.equal, s.total, s.boosted), (2, 3, false));
    let e = score_of_tags(&Vec::new(), true);
    assert_eq!((e.equal, e.total, e.boosted), (0, 1, true));
}
