//! The diff engine: a line-level unified patch between two texts, with the
//! number of lines added and removed.
//!
//! A patch is for display and audit. Nothing in the crate reconstructs a
//! text from one: a restore always reads the full object.

use vstd::prelude::*;
use crate::text::{decimal, join_lines, lines, push_decimal, push_lines, split_lines};

verus! {

/// What a line of a hunk is: kept, removed from the old text, or added by
/// the new one.
#[derive(Clone, Copy, Debug, PartialEq, Eq, Structural)]
pub enum ChangeTag {
    Equal,
    Delete,
    Insert,
}

/// One hunk of a unified diff: its rendered text, and the tag of each of
/// its lines in order.
#[derive(Debug)]
pub struct Hunk {
    pub text: String,
    pub tags: Vec<ChangeTag>,
}

/// The mathematical value of a [`Hunk`].
pub struct HunkView {
    pub text: Seq<char>,
    pub tags: Seq<ChangeTag>,
}

impl View for Hunk {
    type V = HunkView;

    open spec fn view(&self) -> HunkView {
        HunkView { text: self.text@, tags: self.tags@ }
    }
}

impl DeepView for Hunk {
    type V = HunkView;

    open spec fn deep_view(&self) -> HunkView {
        self@
    }
}

/// A patch with its line counts.
#[derive(Debug)]
pub struct DiffSummary {
    pub patch: String,
    pub lines_added: u64,
    pub lines_removed: u64,
}

/// The mathematical value of a [`DiffSummary`].
pub struct DiffSummaryView {
    pub patch: Seq<char>,
    pub lines_added: u64,
    pub lines_removed: u64,
}

impl View for DiffSummary {
    type V = DiffSummaryView;

    open spec fn view(&self) -> DiffSummaryView {
        DiffSummaryView {
            patch: self.patch@,
            lines_added: self.lines_added,
            lines_removed: self.lines_removed,
        }
    }
}

/// The hunks that `similar` finds between `old` and `new`, compared line by
/// line with its default algorithm and a context of three lines, under the
/// file name `path`.
pub uninterp spec fn similar_unified_hunks(
    old: Seq<char>,
    new: Seq<char>,
    path: Seq<char>,
) -> Seq<HunkView>;

/// Calls `similar::TextDiff::from_lines` on the two texts, then
/// `unified_diff`, `header` with `path` as both file names, and
/// `iter_hunks`. Each hunk is handed out as its `Display` text and the
/// `tag` of each change of its `iter_changes`. The hunks are a function of
/// the three texts alone; the contract gives them the name
/// [`similar_unified_hunks`] and says nothing else of them.
#[verifier::external_body]
pub(crate) fn unified_hunks(old: &str, new: &str, path: &str) -> (r: Vec<Hunk>)
    ensures
        r.deep_view() == similar_unified_hunks(old@, new@, path@),
{
    let diff = similar::TextDiff::from_lines(old, new);
    let mut unified = diff.unified_diff();
    unified.header(path, path);
    unified.iter_hunks().map(|h| Hunk {
        text: h.to_string(),
        tags: h.iter_changes().map(|c| match c.tag() {
            similar::ChangeTag::Equal => ChangeTag::Equal,
            similar::ChangeTag::Delete => ChangeTag::Delete,
            similar::ChangeTag::Insert => ChangeTag::Insert,
        }).collect(),
    }).collect()
}

/// The texts of `hunks`, one after the other.
pub open spec fn hunk_texts(hunks: Seq<HunkView>) -> Seq<char>
    decreases hunks.len(),
{
    if hunks.len() == 0 {
        Seq::empty()
    } else {
        hunk_texts(hunks.drop_last()) + hunks.last().text
    }
}

/// How many of `tags` are `tag`.
pub open spec fn count_tag(tags: Seq<ChangeTag>, tag: ChangeTag) -> nat
    decreases tags.len(),
{
    if tags.len() == 0 {
        0
    } else {
        count_tag(tags.drop_last(), tag) + if tags.last() == tag {
            1nat
        } else {
            0nat
        }
    }
}

/// How many lines of `hunks` carry `tag`.
pub open spec fn total_tag(hunks: Seq<HunkView>, tag: ChangeTag) -> nat
    decreases hunks.len(),
{
    if hunks.len() == 0 {
        0
    } else {
        total_tag(hunks.drop_last(), tag) + count_tag(hunks.last().tags, tag)
    }
}

/// `n` as a `u64`, or `u64::MAX` where `n` is larger.
pub open spec fn saturate(n: nat) -> u64 {
    if n > u64::MAX {
        u64::MAX
    } else {
        n as u64
    }
}

/// The patch and counts that `hunks` amount to: their texts in order, the
/// number of inserted lines and the number of deleted lines.
pub open spec fn summary_of(hunks: Seq<HunkView>) -> DiffSummaryView {
    DiffSummaryView {
        patch: hunk_texts(hunks),
        lines_added: saturate(total_tag(hunks, ChangeTag::Insert)),
        lines_removed: saturate(total_tag(hunks, ChangeTag::Delete)),
    }
}

/// The diff between `old` and `new` under the file name `path`.
pub open spec fn diff_of(old: Seq<char>, new: Seq<char>, path: Seq<char>) -> DiffSummaryView {
    summary_of(similar_unified_hunks(old, new, path))
}

/// Renders `hunks` as one patch and counts their added and removed lines.
/// The counts stop at `u64::MAX`.
pub fn summarize(hunks: &Vec<Hunk>) -> (r: DiffSummary)
    ensures
        r@ == summary_of(hunks.deep_view()),
{
    let ghost all = hunks.deep_view();
    let mut patch = String::new();
    let mut added: u64 = 0;
    let mut removed: u64 = 0;
    let mut i: usize = 0;
    while i < hunks.len()
        invariant
            i <= hunks.len(),
            all == hunks.deep_view(),
            patch@ == hunk_texts(all.take(i as int)),
            added == saturate(total_tag(all.take(i as int), ChangeTag::Insert)),
            removed == saturate(total_tag(all.take(i as int), ChangeTag::Delete)),
        decreases hunks.len() - i,
    {
        let hunk = &hunks[i];
        let ghost done = all.take(i as int);
        proof {
            assert(all.take(i + 1).drop_last() == done);
            assert(all.take(i + 1).last() == hunk@);
        }
        patch.append(hunk.text.as_str());
        let mut j: usize = 0;
        while j < hunk.tags.len()
            invariant
                j <= hunk.tags.len(),
                added == saturate(
                    total_tag(done, ChangeTag::Insert) + count_tag(
                        hunk.tags@.take(j as int),
                        ChangeTag::Insert,
                    ),
                ),
                removed == saturate(
                    total_tag(done, ChangeTag::Delete) + count_tag(
                        hunk.tags@.take(j as int),
                        ChangeTag::Delete,
                    ),
                ),
            decreases hunk.tags.len() - j,
        {
            proof {
                assert(hunk.tags@.take(j + 1).drop_last() == hunk.tags@.take(j as int));
                assert(hunk.tags@.take(j + 1).last() == hunk.tags@[j as int]);
            }
            match hunk.tags[j] {
                ChangeTag::Insert => {
                    if added < u64::MAX {
                        added = added + 1;
                    }
                },
                ChangeTag::Delete => {
                    if removed < u64::MAX {
                        removed = removed + 1;
                    }
                },
                ChangeTag::Equal => {},
            }
            j += 1;
        }
        assert(hunk.tags@.take(hunk.tags.len() as int) == hunk.tags@);
        i += 1;
    }
    assert(all.take(hunks.len() as int) == all);
    DiffSummary { patch, lines_added: added, lines_removed: removed }
}

/// The diff engine: the unified patch from `old_text` to `new_text` under
/// the file name `path`, with its counts of added and removed lines.
pub fn diff(old_text: &str, new_text: &str, path: &str) -> (r: DiffSummary)
    ensures
        r@ == diff_of(old_text@, new_text@, path@),
{
    let hunks = unified_hunks(old_text, new_text, path);
    summarize(&hunks)
}

/// Each of `ls` with a `+` before it, the lines separated by line feeds.
pub open spec fn added_lines(ls: Seq<Seq<char>>) -> Seq<char> {
    join_lines(ls, seq!['+'])
}

/// The patch of a text that has no earlier version: a header that names
/// `/dev/null` and `path`, one hunk header with the number of lines, and
/// every line of `content` as an addition.
pub open spec fn initial_patch_of(content: Seq<char>, path: Seq<char>) -> DiffSummaryView {
    let ls = lines(content);
    DiffSummaryView {
        patch: "--- /dev/null\n+++ "@ + path + "\n@@ -0,0 +1,"@ + decimal(ls.len()) + " @@\n"@
            + added_lines(ls),
        lines_added: saturate(ls.len()),
        lines_removed: 0,
    }
}

/// The patch for the first version of a file: all of `content` is new.
pub fn initial_patch(content: &str, path: &str) -> (r: DiffSummary)
    ensures
        r@ == initial_patch_of(content@, path@),
{
    let ls = split_lines(content);
    let ghost all = ls.deep_view();
    let count: u64 = ls.len() as u64;
    let mut patch = String::new();
    patch.append("--- /dev/null\n+++ ");
    patch.append(path);
    patch.append("\n@@ -0,0 +1,");
    push_decimal(&mut patch, count);
    patch.append(" @@\n");
    assert(patch@ =~= "--- /dev/null\n+++ "@ + path@ + "\n@@ -0,0 +1,"@ + decimal(all.len())
        + " @@\n"@);
    proof {
        reveal_strlit("+");
        assert("+"@ =~= seq!['+']);
        assert(all.take(ls.len() as int) == all);
    }
    push_lines(&mut patch, &ls, ls.len(), "+");
    DiffSummary { patch, lines_added: count, lines_removed: 0 }
}

} // verus!
