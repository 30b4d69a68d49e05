//! How history is shown: the age of a snapshot, its short id, the line
//! that lists it, the first lines of a search hit, and the entry that
//! keeps the stores out of a `.gitignore`.

use vstd::prelude::*;
use crate::db::{Snapshot, SnapshotView};
use crate::text::{
    contains, contains_text, decimal, join_lines, lines, push_decimal, push_lines, push_range,
    split_lines, to_chars,
};

verus! {

/// The age of something that happened `elapsed` milliseconds ago: in whole
/// seconds below a minute, in whole minutes below an hour, and in whole
/// hours from there on. A negative age is given in seconds, rounded
/// towards zero.
pub open spec fn age_text(elapsed: int) -> Seq<char> {
    if elapsed < 0 {
        let seconds = (-elapsed) / 1000;
        if seconds == 0 {
            "0s ago"@
        } else {
            seq!['-'] + decimal(seconds as nat) + "s ago"@
        }
    } else if elapsed < 60_000 {
        decimal((elapsed / 1000) as nat) + "s ago"@
    } else if elapsed < 3_600_000 {
        decimal((elapsed / 60_000) as nat) + "m ago"@
    } else {
        decimal((elapsed / 3_600_000) as nat) + "h ago"@
    }
}

/// Appends the age at `now` of what happened at `then`.
pub fn push_age(out: &mut String, now: i64, then: i64)
    ensures
        final(out)@ == old(out)@ + age_text(now - then),
{
    let elapsed: i128 = now as i128 - then as i128;
    if elapsed < 0 {
        let seconds: u64 = ((0 - elapsed) / 1000) as u64;
        if seconds == 0 {
            out.append("0s ago");
        } else {
            out.push('-');
            push_decimal(out, seconds);
            out.append("s ago");
            assert(out@ =~= old(out)@ + (seq!['-'] + decimal(seconds as nat) + "s ago"@));
        }
    } else if elapsed < 60_000 {
        push_decimal(out, (elapsed / 1000) as u64);
        out.append("s ago");
        assert(out@ =~= old(out)@ + age_text(now - then));
    } else if elapsed < 3_600_000 {
        push_decimal(out, (elapsed / 60_000) as u64);
        out.append("m ago");
        assert(out@ =~= old(out)@ + age_text(now - then));
    } else {
        push_decimal(out, (elapsed / 3_600_000) as u64);
        out.append("h ago");
        assert(out@ =~= old(out)@ + age_text(now - then));
    }
}

/// The age at `now` of what happened at `then`, both in milliseconds.
pub fn format_age(now: i64, then: i64) -> (r: String)
    ensures
        r@ == age_text(now - then),
{
    let mut out = String::new();
    push_age(&mut out, now, then);
    out
}

/// The number of characters of a short id.
pub const SHORT_ID_LENGTH: usize = 7;

/// The first seven characters of `id`, or all of it where it is shorter.
pub open spec fn short_id_text(id: Seq<char>) -> Seq<char> {
    if id.len() <= SHORT_ID_LENGTH {
        id
    } else {
        id.take(SHORT_ID_LENGTH as int)
    }
}

/// The short form of a snapshot id.
pub fn short_id(id: &str) -> (r: String)
    ensures
        r@ == short_id_text(id@),
{
    let chars = to_chars(id);
    let end = if chars.len() <= SHORT_ID_LENGTH {
        chars.len()
    } else {
        SHORT_ID_LENGTH
    };
    let mut out = String::new();
    push_range(&mut out, &chars, 0, end);
    assert(chars@.subrange(0, end as int) =~= short_id_text(id@));
    out
}

/// The line that lists a snapshot: its short id in brackets, its age at
/// `now`, and its counts of added and removed lines.
pub open spec fn history_line_text(s: SnapshotView, now: i64) -> Seq<char> {
    seq!['['] + short_id_text(s.id) + "] "@ + age_text(now - s.timestamp) + " | +"@ + decimal(
        s.lines_added as nat,
    ) + ", -"@ + decimal(s.lines_removed as nat) + " lines"@
}

/// The line that lists `snapshot` in the history of its file.
pub fn history_line(snapshot: &Snapshot, now: i64) -> (r: String)
    ensures
        r@ == history_line_text(snapshot@, now),
{
    let mut out = String::new();
    out.push('[');
    let short = short_id(snapshot.id.as_str());
    out.append(short.as_str());
    out.append("] ");
    push_age(&mut out, now, snapshot.timestamp);
    out.append(" | +");
    push_decimal(&mut out, snapshot.lines_added);
    out.append(", -");
    push_decimal(&mut out, snapshot.lines_removed);
    out.append(" lines");
    assert(out@ =~= history_line_text(snapshot@, now));
    out
}

/// The first `max_lines` lines of `content`, separated by line feeds.
pub open spec fn snippet_text(content: Seq<char>, max_lines: nat) -> Seq<char> {
    let ls = lines(content);
    if ls.len() <= max_lines {
        join_lines(ls, Seq::empty())
    } else {
        join_lines(ls.take(max_lines as int), Seq::empty())
    }
}

/// The start of `content` for display: its first `max_lines` lines.
pub fn snippet(content: &str, max_lines: usize) -> (r: String)
    ensures
        r@ == snippet_text(content@, max_lines as nat),
{
    let ls = split_lines(content);
    let count = if ls.len() <= max_lines {
        ls.len()
    } else {
        max_lines
    };
    let mut out = String::new();
    proof {
        reveal_strlit("");
        assert(""@ =~= Seq::<char>::empty());
        assert(ls.deep_view().take(ls.len() as int) == ls.deep_view());
    }
    push_lines(&mut out, &ls, count, "");
    out
}

/// The directory of the stores as a `.gitignore` names it.
pub const IGNORE_PATTERN: &'static str = ".stasher/";

/// The lines that add the stores to a `.gitignore`.
pub const IGNORE_ENTRY: &'static str = "\n# Stasher local history\n.stasher/\n";

/// What has to be appended to a `.gitignore` with the content `current`:
/// the entry for the stores, unless it names them already.
pub fn gitignore_addition(current: &str) -> (r: Option<&'static str>)
    ensures
        r.deep_view() == if contains_text(current@, IGNORE_PATTERN@) {
            None
        } else {
            Some(IGNORE_ENTRY@)
        },
{
    if contains(current, IGNORE_PATTERN) {
        None
    } else {
        Some(IGNORE_ENTRY)
    }
}

} // verus!
