//! Line-level text primitives: line splitting, the line diff, its counts,
//! the similarity score, the distinct-line overlap and a content hash.
use vstd::prelude::*;

verus! {

/// The role of one line in a line diff.
#[derive(Clone, Copy, Debug, PartialEq, Eq, Structural)]
pub enum LineTag {
    Equal,
    Delete,
    Insert,
}

/// Result of a line diff: how many lines were inserted and deleted.
#[derive(Clone, Copy, Debug, PartialEq, Eq, Structural)]
pub struct DiffCounts {
    pub added: usize,
    pub removed: usize,
}

/// The tags of the line diff that `similar` computes between two texts cut
/// into lines that keep their terminators.
pub uninterp spec fn line_diff(from: Seq<char>, to: Seq<char>) -> Seq<LineTag>;

/// The changes, with their line text, of the diff that `similar` computes
/// between two texts cut at every `'\n'`.
pub uninterp spec fn split_diff(from: Seq<char>, to: Seq<char>) -> Seq<(LineTag, Seq<char>)>;

/// Relies on `similar::TextDiff::from_lines` and `iter_all_changes`: the tag of
/// each change, in diff order.
#[verifier::external_body]
pub(crate) fn diff_line_tags(from: &str, to: &str) -> (r: Vec<LineTag>)
    ensures
        r@ == line_diff(from@, to@),
{
    let diff = similar::TextDiff::from_lines(from, to);
    let mut r = Vec::new();
    for change in diff.iter_all_changes() {
        r.push(match change.tag() {
            similar::ChangeTag::Equal => LineTag::Equal,
            similar::ChangeTag::Delete => LineTag::Delete,
            similar::ChangeTag::Insert => LineTag::Insert,
        });
    }
    r
}

/// Relies on `similar::TextDiff::from_slices` over the pieces of each text cut
/// at `'\n'`, and `iter_all_changes`: each change's tag and text, in diff order.
#[verifier::external_body]
fn diff_split_changes(from: &str, to: &str) -> (r: Vec<(LineTag, String)>)
    ensures
        r@.map_values(|c: (LineTag, String)| (c.0, c.1@)) == split_diff(from@, to@),
{
    let from_lines: Vec<&str> = from.split('\n').collect();
    let to_lines: Vec<&str> = to.split('\n').collect();
    let diff = similar::TextDiff::from_slices(&from_lines, &to_lines);
    let mut r = Vec::new();
    for change in diff.iter_all_changes() {
        let tag = match change.tag() {
            similar::ChangeTag::Equal => LineTag::Equal,
            similar::ChangeTag::Delete => LineTag::Delete,
            similar::ChangeTag::Insert => LineTag::Insert,
        };
        r.push((tag, change.value().to_string()));
    }
    r
}

/// How many of `tags` are `t`.
pub open spec fn count_tag(tags: Seq<LineTag>, t: LineTag) -> nat
    decreases tags.len(),
{
    if tags.len() == 0 {
        0
    } else {
        count_tag(tags.drop_last(), t) + if tags.last() == t { 1nat } else { 0nat }
    }
}

pub proof fn lemma_count_tags_total(tags: Seq<LineTag>)
    ensures
        count_tag(tags, LineTag::Equal) + count_tag(tags, LineTag::Delete) + count_tag(tags, LineTag::Insert)
            == tags.len(),
    decreases tags.len(),
{
    if tags.len() > 0 {
        lemma_count_tags_total(tags.drop_last());
    }
}

/// Counts the tags of a line diff by kind: (equal, deleted, inserted).
pub fn tally(tags: &Vec<LineTag>) -> (r: (usize, usize, usize))
    ensures
        r.0 == count_tag(tags@, LineTag::Equal),
        r.1 == count_tag(tags@, LineTag::Delete),
        r.2 == count_tag(tags@, LineTag::Insert),
{
    let mut e: usize = 0;
    let mut d: usize = 0;
    let mut a: usize = 0;
    let mut i: usize = 0;
    while i < tags.len()
        invariant
            i <= tags@.len(),
            e == count_tag(tags@.subrange(0, i as int), LineTag::Equal),
            d == count_tag(tags@.subrange(0, i as int), LineTag::Delete),
            a == count_tag(tags@.subrange(0, i as int), LineTag::Insert),
        decreases tags@.len() - i,
    {
        let ghost pre = tags@.subrange(0, i as int);
        let ghost next = tags@.subrange(0, i + 1);
        proof {
            assert(next.drop_last() =~= pre);
            lemma_count_tags_total(pre);
        }
        match tags[i] {
            LineTag::Equal => e = e + 1,
            LineTag::Delete => d = d + 1,
            LineTag::Insert => a = a + 1,
        }
        i = i + 1;
    }
    proof {
        assert(tags@.subrange(0, i as int) =~= tags@);
    }
    (e, d, a)
}

/// Line counts of a diff over lines that keep their terminators:
/// (inserted, deleted).
pub open spec fn line_counts(from: Seq<char>, to: Seq<char>) -> (nat, nat) {
    (count_tag(line_diff(from, to), LineTag::Insert), count_tag(line_diff(from, to), LineTag::Delete))
}

/// Inserted and deleted lines between two texts, each cut into lines that
/// keep their terminators.
pub fn count_line_changes(from: &str, to: &str) -> (r: (usize, usize))
    ensures
        r.0 == line_counts(from@, to@).0,
        r.1 == line_counts(from@, to@).1,
{
    let tags = diff_line_tags(from, to);
    let (_e, d, a) = tally(&tags);
    (a, d)
}

pub open spec fn split_tags(from: Seq<char>, to: Seq<char>) -> Seq<LineTag> {
    split_diff(from, to).map_values(|c: (LineTag, Seq<char>)| c.0)
}

/// Inserted and deleted lines among the changes of a diff.
pub fn count_changes(changes: &Vec<(LineTag, String)>) -> (r: DiffCounts)
    ensures
        r.added == count_tag(changes@.map_values(|c: (LineTag, String)| c.0), LineTag::Insert),
        r.removed == count_tag(changes@.map_values(|c: (LineTag, String)| c.0), LineTag::Delete),
{
    let mut tags: Vec<LineTag> = Vec::new();
    let mut i: usize = 0;
    while i < changes.len()
        invariant
            i <= changes@.len(),
            tags@ == changes@.subrange(0, i as int).map_values(|c: (LineTag, String)| c.0),
        decreases changes@.len() - i,
    {
        tags.push(changes[i].0);
        proof {
            assert(changes@.subrange(0, i + 1).map_values(|c: (LineTag, String)| c.0)
                =~= changes@.subrange(0, i as int).map_values(|c: (LineTag, String)| c.0).push(changes@[i as int].0));
        }
        i = i + 1;
    }
    proof {
        assert(changes@.subrange(0, i as int) =~= changes@);
    }
    let (_e, d, a) = tally(&tags);
    DiffCounts { added: a, removed: d }
}

/// Lines inserted and deleted between two texts cut at every `'\n'`.
pub fn count_diff(from: &str, to: &str) -> (r: DiffCounts)
    ensures
        r.added == count_tag(split_tags(from@, to@), LineTag::Insert),
        r.removed == count_tag(split_tags(from@, to@), LineTag::Delete),
{
    let changes = diff_split_changes(from, to);
    proof {
        let cs = changes@.map_values(|c: (LineTag, String)| (c.0, c.1@));
        assert(changes@.map_values(|c: (LineTag, String)| c.0) =~= cs.map_values(|c: (LineTag, Seq<char>)| c.0));
    }
    count_changes(&changes)
}

pub open spec fn tag_sign(t: LineTag) -> Seq<char> {
    match t {
        LineTag::Delete => seq!['-'],
        LineTag::Insert => seq!['+'],
        LineTag::Equal => seq![' '],
    }
}

/// One line per change: a newline, the sign, a space and the line.
pub open spec fn patch_lines(changes: Seq<(LineTag, Seq<char>)>) -> Seq<char>
    decreases changes.len(),
{
    if changes.len() == 0 {
        seq![]
    } else {
        patch_lines(changes.drop_last()) + seq!['\n'] + tag_sign(changes.last().0) + seq![' ']
            + changes.last().1
    }
}

pub open spec fn patch_header(filename: Seq<char>) -> Seq<char> {
    seq!['-', '-', '-', ' ', 'f', 'r', 'o', 'm', '/'] + filename + seq![
        '\n',
        '+',
        '+',
        '+',
        ' ',
        't',
        'o',
        '/',
    ] + filename
}

/// A textual patch of `filename` from the changes of a diff: a header, then
/// one line per change.
pub fn render_patch(filename: &str, changes: &Vec<(LineTag, String)>) -> (r: String)
    ensures
        r@ == patch_header(filename@) + patch_lines(changes@.map_values(|c: (LineTag, String)| (c.0, c.1@))),
{
    let ghost cs = changes@.map_values(|c: (LineTag, String)| (c.0, c.1@));
    let mut result = String::from_str("--- from/");
    result.append(filename);
    result.append("\n+++ to/");
    result.append(filename);
    proof {
        reveal_strlit("--- from/");
        reveal_strlit("\n+++ to/");
        assert(result@ =~= patch_header(filename@));
        assert(cs.subrange(0, 0) =~= Seq::<(LineTag, Seq<char>)>::empty());
    }
    let mut i: usize = 0;
    while i < changes.len()
        invariant
            i <= changes@.len(),
            cs == changes@.map_values(|c: (LineTag, String)| (c.0, c.1@)),
            result@ == patch_header(filename@) + patch_lines(cs.subrange(0, i as int)),
        decreases changes@.len() - i,
    {
        let ghost before = result@;
        let sign = match changes[i].0 {
            LineTag::Delete => "-",
            LineTag::Insert => "+",
            LineTag::Equal => " ",
        };
        result.append("\n");
        result.append(sign);
        result.append(" ");
        result.append(changes[i].1.as_str());
        proof {
            reveal_strlit("\n");
            reveal_strlit("-");
            reveal_strlit("+");
            reveal_strlit(" ");
            assert(cs.subrange(0, i + 1).drop_last() =~= cs.subrange(0, i as int));
            assert(sign@ == tag_sign(changes@[i as int].0));
            assert(result@ =~= before + seq!['\n'] + tag_sign(cs[i as int].0) + seq![' '] + cs[i as int].1);
        }
        i = i + 1;
    }
    proof {
        assert(cs.subrange(0, i as int) =~= cs);
    }
    result
}

/// A textual patch of two versions of `filename`, with one line per change of
/// the diff over the texts cut at `'\n'`.
pub fn get_diff_content(filename: &str, from_content: &str, to_content: &str) -> (r: String)
    ensures
        r@ == patch_header(filename@) + patch_lines(split_diff(from_content@, to_content@)),
{
    let changes = diff_split_changes(from_content, to_content);
    render_patch(filename, &changes)
}

} // verus!
