//! What holds of the table of snapshots: where a snapshot goes, which one
//! is the most recent of a path, which one an id finds, and what a prune
//! retains.

use vstd::prelude::*;
use crate::db::{
    find, history, insert_position, latest, lemma_insert_position, ordered_by_time, retained,
    unique_snapshots, with_snapshot, SnapshotView,
};

verus! {

/// `insert_position` is a place of the table or its end.
proof fn lemma_insert_position_range(snapshots: Seq<SnapshotView>, t: i64)
    ensures
        0 <= insert_position(snapshots, t) <= snapshots.len(),
    decreases snapshots.len(),
{
    if snapshots.len() > 0 && snapshots.last().timestamp > t {
        lemma_insert_position_range(snapshots.drop_last(), t);
    }
}

/// The elements of a table after a snapshot was put in at `p`.
pub proof fn lemma_inserted(snapshots: Seq<SnapshotView>, s: SnapshotView)
    requires
        ordered_by_time(snapshots),
    ensures
        ({
            let p = insert_position(snapshots, s.timestamp);
            let after = with_snapshot(snapshots, s);
            &&& 0 <= p <= snapshots.len()
            &&& after.len() == snapshots.len() + 1
            &&& after[p] == s
            &&& forall|i: int| 0 <= i < p ==> #[trigger] after[i] == snapshots[i]
            &&& forall|i: int| p < i < after.len() ==> #[trigger] after[i] == snapshots[i - 1]
            &&& forall|i: int| p <= i < snapshots.len() ==> (#[trigger] snapshots[i]).timestamp
                > s.timestamp
        }),
{
    lemma_insert_position(snapshots, s.timestamp);
}

/// The snapshot at `i` is the most recent of its path where no later one
/// names that path.
pub proof fn lemma_latest_is(snapshots: Seq<SnapshotView>, path: Seq<char>, i: int)
    requires
        0 <= i < snapshots.len(),
        snapshots[i].file_path == path,
        forall|j: int| i < j < snapshots.len() ==> (#[trigger] snapshots[j]).file_path != path,
    ensures
        latest(snapshots, path) == Some(snapshots[i]),
    decreases snapshots.len(),
{
    if i < snapshots.len() - 1 {
        assert(snapshots[snapshots.len() - 1].file_path != path);
        lemma_latest_is(snapshots.drop_last(), path, i);
    }
}

/// A path that no snapshot names has no most recent snapshot.
pub proof fn lemma_latest_none(snapshots: Seq<SnapshotView>, path: Seq<char>)
    requires
        forall|i: int| 0 <= i < snapshots.len() ==> (#[trigger] snapshots[i]).file_path != path,
    ensures
        latest(snapshots, path) is None,
    decreases snapshots.len(),
{
    if snapshots.len() > 0 {
        let front = snapshots.drop_last();
        assert(snapshots[snapshots.len() - 1].file_path != path);
        assert forall|i: int| 0 <= i < front.len() implies (#[trigger] front[i]).file_path
            != path by {
            assert(snapshots[i].file_path != path);
        }
        lemma_latest_none(front, path);
    }
}

/// The most recent snapshot of a path is one of the table and names the
/// path; a path has none only where no snapshot names it.
pub proof fn lemma_latest_found(snapshots: Seq<SnapshotView>, path: Seq<char>)
    ensures
        match latest(snapshots, path) {
            Some(last) => last.file_path == path && exists|i: int|
                0 <= i < snapshots.len() && #[trigger] snapshots[i] == last,
            None => forall|i: int|
                0 <= i < snapshots.len() ==> (#[trigger] snapshots[i]).file_path != path,
        },
    decreases snapshots.len(),
{
    if snapshots.len() > 0 {
        let front = snapshots.drop_last();
        if snapshots.last().file_path == path {
            assert(snapshots[snapshots.len() - 1] == snapshots.last());
        } else {
            lemma_latest_found(front, path);
            match latest(front, path) {
                Some(last) => {
                    let i = choose|i: int| 0 <= i < front.len() && #[trigger] front[i] == last;
                    assert(snapshots[i] == last);
                },
                None => {
                    assert forall|i: int| 0 <= i < snapshots.len() implies (
                    #[trigger] snapshots[i]).file_path != path by {
                        if i < front.len() {
                            assert(front[i].file_path != path);
                        }
                    }
                },
            }
        }
    }
}

/// The most recent snapshot of a path stands at a place behind which no
/// snapshot names the path.
pub proof fn lemma_latest_index(snapshots: Seq<SnapshotView>, path: Seq<char>)
    requires
        latest(snapshots, path) is Some,
    ensures
        exists|i: int|
            0 <= i < snapshots.len() && snapshots[i] == latest(snapshots, path)->0 && forall|
                j: int,
            |
                i < j < snapshots.len() ==> (#[trigger] snapshots[j]).file_path != path,
    decreases snapshots.len(),
{
    let last = snapshots.len() - 1;
    if snapshots.last().file_path == path {
        assert(snapshots[last] == latest(snapshots, path)->0);
    } else {
        let front = snapshots.drop_last();
        lemma_latest_index(front, path);
        let i = choose|i: int|
            0 <= i < front.len() && front[i] == latest(front, path)->0 && forall|j: int|
                i < j < front.len() ==> (#[trigger] front[j]).file_path != path;
        assert(snapshots[i] == latest(snapshots, path)->0);
        assert forall|j: int| i < j < snapshots.len() implies (#[trigger] snapshots[j]).file_path
            != path by {
            if j < last {
                assert(front[j].file_path != path);
            }
        }
    }
}

/// Putting in a snapshot of another path leaves the most recent snapshot
/// of `path` as it was.
pub proof fn lemma_latest_of_other_path(
    snapshots: Seq<SnapshotView>,
    s: SnapshotView,
    path: Seq<char>,
)
    requires
        ordered_by_time(snapshots),
        s.file_path != path,
    ensures
        latest(with_snapshot(snapshots, s), path) == latest(snapshots, path),
{
    lemma_inserted(snapshots, s);
    let p = insert_position(snapshots, s.timestamp);
    let after = with_snapshot(snapshots, s);
    lemma_latest_found(snapshots, path);
    match latest(snapshots, path) {
        Some(last) => {
            lemma_latest_index(snapshots, path);
            let i = choose|i: int|
                0 <= i < snapshots.len() && snapshots[i] == last && forall|j: int|
                    i < j < snapshots.len() ==> (#[trigger] snapshots[j]).file_path != path;
            let k = if i < p { i } else { i + 1 };
            assert(after[k] == last);
            assert forall|j: int| k < j < after.len() implies (#[trigger] after[j]).file_path
                != path by {
                if j < p {
                    assert(snapshots[j].file_path != path);
                } else if j > p {
                    assert(snapshots[j - 1].file_path != path);
                }
            }
            lemma_latest_is(after, path, k);
        },
        None => {
            assert forall|j: int| 0 <= j < after.len() implies (#[trigger] after[j]).file_path
                != path by {
                if j < p {
                    assert(snapshots[j].file_path != path);
                } else if j > p {
                    assert(snapshots[j - 1].file_path != path);
                }
            }
            lemma_latest_none(after, path);
        },
    }
}

/// Among snapshots with unique ids, the one at `i` is the one found under
/// its path and id.
pub proof fn lemma_find_is(snapshots: Seq<SnapshotView>, i: int)
    requires
        unique_snapshots(snapshots),
        0 <= i < snapshots.len(),
    ensures
        find(snapshots, snapshots[i].file_path, snapshots[i].id) == Some(snapshots[i]),
    decreases snapshots.len(),
{
    let last = snapshots.len() - 1;
    if i < last {
        assert(snapshots[i].id != snapshots[last].id);
        let front = snapshots.drop_last();
        assert(unique_snapshots(front)) by {
            assert forall|a: int, b: int| 0 <= a < b < front.len() implies (#[trigger] front[a]).id
                != (#[trigger] front[b]).id by {
                assert(snapshots[a].id != snapshots[b].id);
            }
        }
        lemma_find_is(front, i);
    }
}

/// A snapshot that is found is one of the table, with the path and the id
/// that were asked for.
pub proof fn lemma_find_found(snapshots: Seq<SnapshotView>, path: Seq<char>, id: Seq<char>)
    ensures
        match find(snapshots, path, id) {
            Some(s) => s.file_path == path && s.id == id && exists|i: int|
                0 <= i < snapshots.len() && #[trigger] snapshots[i] == s,
            None => true,
        },
    decreases snapshots.len(),
{
    if snapshots.len() > 0 {
        let front = snapshots.drop_last();
        if snapshots.last().file_path == path && snapshots.last().id == id {
            assert(snapshots[snapshots.len() - 1] == snapshots.last());
        } else {
            lemma_find_found(front, path, id);
            match find(front, path, id) {
                Some(s) => {
                    let i = choose|i: int| 0 <= i < front.len() && #[trigger] front[i] == s;
                    assert(snapshots[i] == s);
                },
                None => {},
            }
        }
    }
}

/// Putting in a snapshot at any place leaves what is found under another
/// id as it was.
proof fn lemma_find_insert(
    snapshots: Seq<SnapshotView>,
    s: SnapshotView,
    p: int,
    path: Seq<char>,
    id: Seq<char>,
)
    requires
        s.id != id,
        0 <= p <= snapshots.len(),
    ensures
        find(snapshots.insert(p, s), path, id) == find(snapshots, path, id),
    decreases snapshots.len() - p,
{
    let after = snapshots.insert(p, s);
    if p == snapshots.len() {
        assert(after.drop_last() == snapshots);
    } else {
        assert(after.last() == snapshots.last());
        assert(after.drop_last() == snapshots.drop_last().insert(p, s));
        lemma_find_insert(snapshots.drop_last(), s, p, path, id);
    }
}

/// Putting in a snapshot leaves what is found under another id as it was.
pub proof fn lemma_find_of_other_id(
    snapshots: Seq<SnapshotView>,
    s: SnapshotView,
    path: Seq<char>,
    id: Seq<char>,
)
    requires
        s.id != id,
    ensures
        find(with_snapshot(snapshots, s), path, id) == find(snapshots, path, id),
{
    lemma_insert_position_range(snapshots, s.timestamp);
    lemma_find_insert(snapshots, s, insert_position(snapshots, s.timestamp), path, id);
}

/// What is retained is part of the table.
pub proof fn lemma_retained_subset(snapshots: Seq<SnapshotView>, cutoff: int)
    ensures
        forall|i: int|
            0 <= i < retained(snapshots, cutoff).len() ==> exists|j: int|
                0 <= j < snapshots.len() && #[trigger] snapshots[j] == (#[trigger] retained(
                    snapshots,
                    cutoff,
                )[i]),
    decreases snapshots.len(),
{
    if snapshots.len() > 0 {
        let front = snapshots.drop_last();
        let kept = retained(snapshots, cutoff);
        lemma_retained_subset(front, cutoff);
        assert forall|i: int| 0 <= i < kept.len() implies exists|j: int|
            0 <= j < snapshots.len() && #[trigger] snapshots[j] == #[trigger] kept[i] by {
            if i < retained(front, cutoff).len() {
                assert(kept[i] == retained(front, cutoff)[i]);
                let j = choose|j: int|
                    0 <= j < front.len() && #[trigger] front[j] == retained(front, cutoff)[i];
                assert(snapshots[j] == kept[i]);
            } else {
                assert(snapshots[snapshots.len() - 1] == kept[i]);
            }
        }
    }
}

/// What is retained of a well-formed table has unique ids and stands in
/// the order of time.
pub proof fn lemma_retained_ordered(snapshots: Seq<SnapshotView>, cutoff: int)
    requires
        unique_snapshots(snapshots),
        ordered_by_time(snapshots),
    ensures
        unique_snapshots(retained(snapshots, cutoff)),
        ordered_by_time(retained(snapshots, cutoff)),
    decreases snapshots.len(),
{
    if snapshots.len() > 0 {
        let front = snapshots.drop_last();
        let last = snapshots.len() - 1;
        let kept = retained(snapshots, cutoff);
        assert(unique_snapshots(front) && ordered_by_time(front)) by {
            assert forall|a: int, b: int| 0 <= a < b < front.len() implies (#[trigger] front[a]).id
                != (#[trigger] front[b]).id && front[a].timestamp <= front[b].timestamp by {
                assert(snapshots[a].id != snapshots[b].id);
                assert(snapshots[a].timestamp <= snapshots[b].timestamp);
            }
        }
        lemma_retained_ordered(front, cutoff);
        lemma_retained_subset(front, cutoff);
        if snapshots.last().timestamp >= cutoff {
            let inner = retained(front, cutoff);
            assert forall|a: int, b: int| 0 <= a < b < kept.len() implies (#[trigger] kept[a]).id
                != (#[trigger] kept[b]).id && kept[a].timestamp <= kept[b].timestamp by {
                if b < inner.len() {
                    assert(inner[a].id != inner[b].id);
                    assert(inner[a].timestamp <= inner[b].timestamp);
                } else {
                    let j = choose|j: int| 0 <= j < front.len() && #[trigger] front[j] == inner[a];
                    assert(snapshots[j].id != snapshots[last].id);
                    assert(snapshots[j].timestamp <= snapshots[last].timestamp);
                }
            }
        }
    }
}

/// A snapshot that is retained is found in what is retained.
pub proof fn lemma_find_retained(
    snapshots: Seq<SnapshotView>,
    cutoff: int,
    path: Seq<char>,
    id: Seq<char>,
)
    requires
        find(snapshots, path, id) is Some,
        find(snapshots, path, id)->0.timestamp >= cutoff,
    ensures
        find(retained(snapshots, cutoff), path, id) == find(snapshots, path, id),
    decreases snapshots.len(),
{
    if snapshots.len() > 0 {
        let front = snapshots.drop_last();
        if snapshots.last().file_path == path && snapshots.last().id == id {
            assert(retained(snapshots, cutoff).last() == snapshots.last());
        } else {
            lemma_find_retained(front, cutoff, path, id);
            if snapshots.last().timestamp >= cutoff {
                assert(retained(snapshots, cutoff).drop_last() == retained(front, cutoff));
            }
        }
    }
}

/// The history of a path holds exactly the snapshots of the table that
/// name the path.
pub proof fn law_history_is_of_the_path(snapshots: Seq<SnapshotView>, path: Seq<char>)
    ensures
        forall|i: int|
            0 <= i < history(snapshots, path).len() ==> (#[trigger] history(
                snapshots,
                path,
            )[i]).file_path == path && exists|k: int|
                0 <= k < snapshots.len() && #[trigger] snapshots[k] == history(snapshots, path)[i],
        forall|k: int|
            0 <= k < snapshots.len() && (#[trigger] snapshots[k]).file_path == path ==> exists|
                i: int,
            |
                0 <= i < history(snapshots, path).len() && #[trigger] history(snapshots, path)[i]
                    == snapshots[k],
    decreases snapshots.len(),
{
    if snapshots.len() > 0 {
        let front = snapshots.drop_last();
        let last = snapshots.len() - 1;
        let h = history(snapshots, path);
        let inner = history(front, path);
        law_history_is_of_the_path(front, path);
        let shift: int = if snapshots.last().file_path == path { 1 } else { 0 };
        assert forall|i: int| 0 <= i < h.len() implies (#[trigger] h[i]).file_path == path
            && exists|k: int| 0 <= k < snapshots.len() && #[trigger] snapshots[k] == h[i] by {
            if i < shift {
                assert(snapshots[last] == h[i]);
            } else {
                assert(h[i] == inner[i - shift]);
                let k = choose|k: int| 0 <= k < front.len() && #[trigger] front[k] == inner[i
                    - shift];
                assert(snapshots[k] == h[i]);
            }
        }
        assert forall|k: int|
            0 <= k < snapshots.len() && (#[trigger] snapshots[k]).file_path == path implies exists|
            i: int,
        | 0 <= i < h.len() && #[trigger] h[i] == snapshots[k] by {
            if k == last {
                assert(h[0] == snapshots[k]);
            } else {
                assert(front[k].file_path == path);
                let i = choose|i: int| 0 <= i < inner.len() && #[trigger] inner[i] == front[k];
                assert(h[i + shift] == snapshots[k]);
            }
        }
    }
}

/// The history of a path begins with its most recent snapshot, and goes
/// back in time from there: in a table ordered by time, no entry of the
/// history is later than the entry before it.
pub proof fn law_history_is_newest_first(snapshots: Seq<SnapshotView>, path: Seq<char>)
    requires
        ordered_by_time(snapshots),
    ensures
        latest(snapshots, path) == if history(snapshots, path).len() == 0 {
            None
        } else {
            Some(history(snapshots, path)[0])
        },
        forall|i: int, j: int|
            0 <= i < j < history(snapshots, path).len() ==> (#[trigger] history(
                snapshots,
                path,
            )[i]).timestamp >= (#[trigger] history(snapshots, path)[j]).timestamp,
    decreases snapshots.len(),
{
    if snapshots.len() > 0 {
        let front = snapshots.drop_last();
        let last = snapshots.len() - 1;
        let h = history(snapshots, path);
        let inner = history(front, path);
        assert(ordered_by_time(front)) by {
            assert forall|a: int, b: int| 0 <= a < b < front.len() implies (
            #[trigger] front[a]).timestamp <= (#[trigger] front[b]).timestamp by {
                assert(snapshots[a].timestamp <= snapshots[b].timestamp);
            }
        }
        law_history_is_newest_first(front, path);
        law_history_is_of_the_path(front, path);
        if snapshots.last().file_path == path {
            assert forall|i: int, j: int| 0 <= i < j < h.len() implies (#[trigger] h[i]).timestamp
                >= (#[trigger] h[j]).timestamp by {
                assert(h[j] == inner[j - 1]);
                if i == 0 {
                    let k = choose|k: int| 0 <= k < front.len() && #[trigger] front[k] == inner[j
                        - 1];
                    assert(snapshots[k].timestamp <= snapshots[last].timestamp);
                } else {
                    assert(h[i] == inner[i - 1]);
                }
            }
        }
    }
}

} // verus!
