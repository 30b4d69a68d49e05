//! What holds of the engine, proved over its mathematical value.
//!
//! Each law speaks of [`record`], [`restored`] and [`pruned`], the spec
//! functions in which the contracts of the engine's methods are stated, so
//! each holds of every run of the engine.

use vstd::prelude::*;
use crate::db::{
    accepts_snapshot, find, has_session, has_snapshot, insert_position, latest,
    lemma_with_snapshot_wf, referenced, retained, tables_wf,
};
use crate::diff::saturate;
use crate::error::EngineErrorView;
use crate::hash::blake3_hex;
use crate::history::{
    history_wf, horizon, is_unchanged, new_snapshot, pruned, record, restored, HistoryView,
    RecordOutcomeView,
};
use crate::object_store::{content_addressed, put_of};
use crate::table_laws::{
    lemma_find_found, lemma_find_is, lemma_find_of_other_id, lemma_find_retained, lemma_inserted,
    lemma_latest_found, lemma_latest_is, lemma_latest_of_other_path, lemma_retained_ordered,
    lemma_retained_subset,
};
use crate::text::lines;

verus! {

/// Every snapshot refers to an object that the store holds.
pub open spec fn consistent(s: HistoryView) -> bool {
    forall|i: int|
        0 <= i < s.db.snapshots.len() ==> s.objects.contains_key(
            (#[trigger] s.db.snapshots[i]).content_hash,
        )
}

/// Every object of the store is referred to by some snapshot.
pub open spec fn no_garbage(s: HistoryView) -> bool {
    forall|h: Seq<char>| #[trigger]
        s.objects.contains_key(h) ==> referenced(s.db.snapshots).contains(h)
}

/// No snapshot of `path` is later than `now`: the clock has not run
/// backwards since the path was last recorded.
pub open spec fn not_before_history(s: HistoryView, path: Seq<char>, now: i64) -> bool {
    forall|i: int|
        0 <= i < s.db.snapshots.len() && (#[trigger] s.db.snapshots[i]).file_path == path
            ==> s.db.snapshots[i].timestamp <= now
}

/// The store holds no other text under the hash of `content`.
pub open spec fn no_collision(s: HistoryView, content: Seq<char>) -> bool {
    s.objects.contains_key(blake3_hex(content)) ==> s.objects[blake3_hex(content)] == content
}

/// Recording keeps the engine's value well-formed.
pub proof fn law_record_keeps_wf(
    s: HistoryView,
    path: Seq<char>,
    content: Seq<char>,
    id: Seq<char>,
    now: i64,
)
    requires
        history_wf(s),
    ensures
        history_wf(record(s, path, content, id, now).0),
{
    let after = record(s, path, content, id, now).0;
    if !is_unchanged(s, path, content) {
        let snapshot = new_snapshot(s, path, content, id, now);
        if accepts_snapshot(s.db, snapshot) {
            lemma_with_snapshot_wf(s.db, snapshot);
        }
        assert(content_addressed(after.objects)) by {
            assert forall|h: Seq<char>| #[trigger] after.objects.contains_key(h) implies h
                == blake3_hex(after.objects[h]) by {
                if s.objects.contains_key(h) {
                    assert(h == blake3_hex(s.objects[h]));
                }
            }
        }
    }
}

/// Recording keeps every snapshot's object in the store: where every
/// snapshot had its object before, every snapshot has it afterwards, the
/// new one too.
pub proof fn law_record_keeps_consistent(
    s: HistoryView,
    path: Seq<char>,
    content: Seq<char>,
    id: Seq<char>,
    now: i64,
)
    requires
        history_wf(s),
        consistent(s),
    ensures
        consistent(record(s, path, content, id, now).0),
{
    let after = record(s, path, content, id, now).0;
    if !is_unchanged(s, path, content) {
        let snapshot = new_snapshot(s, path, content, id, now);
        if accepts_snapshot(s.db, snapshot) {
            lemma_inserted(s.db.snapshots, snapshot);
            let p = insert_position(s.db.snapshots, now);
            assert forall|i: int|
                0 <= i < after.db.snapshots.len() implies after.objects.contains_key(
                (#[trigger] after.db.snapshots[i]).content_hash,
            ) by {
                if i < p {
                    assert(s.objects.contains_key(s.db.snapshots[i].content_hash));
                } else if i > p {
                    assert(s.objects.contains_key(s.db.snapshots[i - 1].content_hash));
                }
            }
        } else {
            assert forall|i: int|
                0 <= i < after.db.snapshots.len() implies after.objects.contains_key(
                (#[trigger] after.db.snapshots[i]).content_hash,
            ) by {
                assert(s.objects.contains_key(s.db.snapshots[i].content_hash));
            }
        }
    }
}

/// Recorded history is immutable. A recording, whatever its outcome,
/// leaves the sessions as they are, keeps every snapshot of the table as
/// it is, and keeps every object of the store with the content it had.
pub proof fn law_record_only_adds(
    s: HistoryView,
    path: Seq<char>,
    content: Seq<char>,
    id: Seq<char>,
    now: i64,
)
    requires
        history_wf(s),
    ensures
        record(s, path, content, id, now).0.db.sessions == s.db.sessions,
        forall|i: int|
            0 <= i < s.db.snapshots.len() ==> exists|k: int|
                0 <= k < record(s, path, content, id, now).0.db.snapshots.len() && #[trigger] record(
                    s,
                    path,
                    content,
                    id,
                    now,
                ).0.db.snapshots[k] == #[trigger] s.db.snapshots[i],
        forall|h: Seq<char>| #[trigger]
            s.objects.contains_key(h) ==> record(s, path, content, id, now).0.objects.contains_key(
                h,
            ) && record(s, path, content, id, now).0.objects[h] == s.objects[h],
{
    let after = record(s, path, content, id, now).0;
    if !is_unchanged(s, path, content) && accepts_snapshot(
        s.db,
        new_snapshot(s, path, content, id, now),
    ) {
        let snapshot = new_snapshot(s, path, content, id, now);
        lemma_inserted(s.db.snapshots, snapshot);
        let p = insert_position(s.db.snapshots, now);
        assert forall|i: int| 0 <= i < s.db.snapshots.len() implies exists|k: int|
            0 <= k < after.db.snapshots.len() && #[trigger] after.db.snapshots[k]
                == #[trigger] s.db.snapshots[i] by {
            let k = if i < p { i } else { i + 1 };
            assert(after.db.snapshots[k] == s.db.snapshots[i]);
        }
    } else {
        assert forall|i: int| 0 <= i < s.db.snapshots.len() implies exists|k: int|
            0 <= k < after.db.snapshots.len() && #[trigger] after.db.snapshots[k]
                == #[trigger] s.db.snapshots[i] by {
            assert(after.db.snapshots[i] == s.db.snapshots[i]);
        }
    }
}

/// The first snapshot of a path has nothing to remove: where the path has
/// no snapshot yet and the table takes the id, the recording writes a
/// snapshot that counts every line of the content as added and none as
/// removed.
pub proof fn law_first_snapshot_only_adds(
    s: HistoryView,
    path: Seq<char>,
    content: Seq<char>,
    id: Seq<char>,
    now: i64,
)
    requires
        history_wf(s),
        latest(s.db.snapshots, path) is None,
        !has_snapshot(s.db.snapshots, id),
    ensures
        record(s, path, content, id, now).1 matches Ok(RecordOutcomeView::Recorded(snapshot))
            && snapshot.lines_added == saturate(lines(content).len()) && snapshot.lines_removed
            == 0 && snapshot.content_hash == blake3_hex(content),
{
}

/// Idempotence. When a change has been recorded without failure, and the
/// clock had not run backwards, recording the same content at the same
/// path once more does nothing: the engine's value stays as it is and the
/// outcome is `Unchanged`, whatever id and time the second call brings.
pub proof fn law_record_is_idempotent(
    s: HistoryView,
    path: Seq<char>,
    content: Seq<char>,
    id: Seq<char>,
    now: i64,
    id_again: Seq<char>,
    now_again: i64,
)
    requires
        history_wf(s),
        not_before_history(s, path, now),
        record(s, path, content, id, now).1 is Ok,
    ensures
        ({
            let once = record(s, path, content, id, now).0;
            record(once, path, content, id_again, now_again) == (
                once,
                Ok::<RecordOutcomeView, EngineErrorView>(
                    RecordOutcomeView::Unchanged,
                ),
            )
        }),
{
    let once = record(s, path, content, id, now).0;
    if !is_unchanged(s, path, content) {
        let snapshot = new_snapshot(s, path, content, id, now);
        lemma_inserted(s.db.snapshots, snapshot);
        let p = insert_position(s.db.snapshots, now);
        assert forall|j: int| p < j < once.db.snapshots.len() implies (
        #[trigger] once.db.snapshots[j]).file_path != path by {
            assert(s.db.snapshots[j - 1].timestamp > now);
        }
        lemma_latest_is(once.db.snapshots, path, p);
    }
}

/// Deduplication. Recording the same content at two different paths, each
/// with a change to record and under ids that the table takes, writes two
/// snapshots that share one hash, and the second recording adds no
/// object: after both, the store holds what it held before and the one
/// object of that content.
pub proof fn law_same_content_is_stored_once(
    s: HistoryView,
    first_path: Seq<char>,
    second_path: Seq<char>,
    content: Seq<char>,
    first_id: Seq<char>,
    first_now: i64,
    second_id: Seq<char>,
    second_now: i64,
)
    requires
        history_wf(s),
        first_path != second_path,
        !is_unchanged(s, first_path, content),
        !is_unchanged(s, second_path, content),
        !has_snapshot(s.db.snapshots, first_id),
        !has_snapshot(s.db.snapshots, second_id),
        first_id != second_id,
    ensures
        ({
            let (one, first) = record(s, first_path, content, first_id, first_now);
            let (two, second) = record(one, second_path, content, second_id, second_now);
            &&& first matches Ok(RecordOutcomeView::Recorded(a))
            &&& second matches Ok(RecordOutcomeView::Recorded(b))
            &&& first->Ok_0->Recorded_0.content_hash == blake3_hex(content)
            &&& second->Ok_0->Recorded_0.content_hash == blake3_hex(content)
            &&& two.db.snapshots.len() == s.db.snapshots.len() + 2
            &&& one.objects == put_of(s.objects, content)
            &&& two.objects == one.objects
            &&& two.objects.dom() == s.objects.dom().insert(blake3_hex(content))
        }),
{
    let (one, first) = record(s, first_path, content, first_id, first_now);
    let a = new_snapshot(s, first_path, content, first_id, first_now);
    law_record_keeps_wf(s, first_path, content, first_id, first_now);
    lemma_latest_of_other_path(s.db.snapshots, a, second_path);
    assert(!is_unchanged(one, second_path, content));
    let b = new_snapshot(one, second_path, content, second_id, second_now);
    lemma_inserted(s.db.snapshots, a);
    let p = insert_position(s.db.snapshots, first_now);
    assert(!has_snapshot(one.db.snapshots, second_id)) by {
        if has_snapshot(one.db.snapshots, second_id) {
            let i = choose|i: int|
                0 <= i < one.db.snapshots.len() && (#[trigger] one.db.snapshots[i]).id
                    == second_id;
            if i < p {
                assert(s.db.snapshots[i].id == second_id);
            } else if i > p {
                assert(s.db.snapshots[i - 1].id == second_id);
            }
        }
    }
    lemma_inserted(one.db.snapshots, b);
    assert(put_of(one.objects, content) == one.objects);
    assert(one.objects.dom() =~= s.objects.dom().insert(blake3_hex(content)));
}

/// Round trip, most recent snapshot. After a recording that did not fail,
/// a restore of the path without a snapshot id yields exactly the content
/// that was recorded, provided that every snapshot had its object, that
/// the clock had not run backwards, and that the store held no other text
/// under the same hash.
pub proof fn law_restore_yields_last_recorded(
    s: HistoryView,
    path: Seq<char>,
    content: Seq<char>,
    id: Seq<char>,
    now: i64,
)
    requires
        history_wf(s),
        consistent(s),
        not_before_history(s, path, now),
        no_collision(s, content),
        record(s, path, content, id, now).1 is Ok,
    ensures
        restored(record(s, path, content, id, now).0, path, None) == Ok::<
            Seq<char>,
            EngineErrorView,
        >(content),
{
    let after = record(s, path, content, id, now).0;
    if is_unchanged(s, path, content) {
        lemma_latest_found(s.db.snapshots, path);
    } else {
        let snapshot = new_snapshot(s, path, content, id, now);
        lemma_inserted(s.db.snapshots, snapshot);
        let p = insert_position(s.db.snapshots, now);
        assert forall|j: int| p < j < after.db.snapshots.len() implies (
        #[trigger] after.db.snapshots[j]).file_path != path by {
            assert(s.db.snapshots[j - 1].timestamp > now);
        }
        lemma_latest_is(after.db.snapshots, path, p);
    }
}

/// Round trip, named snapshot. After a snapshot was recorded, a restore of
/// its path under its id yields exactly the content that was recorded,
/// provided that the store held no other text under the same hash.
pub proof fn law_restore_yields_named_snapshot(
    s: HistoryView,
    path: Seq<char>,
    content: Seq<char>,
    id: Seq<char>,
    now: i64,
)
    requires
        history_wf(s),
        no_collision(s, content),
        record(s, path, content, id, now).1 is Ok,
        record(s, path, content, id, now).1->Ok_0 is Recorded,
    ensures
        restored(record(s, path, content, id, now).0, path, Some(id)) == Ok::<
            Seq<char>,
            EngineErrorView,
        >(content),
{
    let after = record(s, path, content, id, now).0;
    let snapshot = new_snapshot(s, path, content, id, now);
    lemma_with_snapshot_wf(s.db, snapshot);
    lemma_inserted(s.db.snapshots, snapshot);
    let p = insert_position(s.db.snapshots, now);
    lemma_find_is(after.db.snapshots, p);
    lemma_latest_found(after.db.snapshots, path);
    assert(after.db.snapshots[p].file_path == path);
}

/// What a snapshot restores to never changes while it exists: a later
/// recording, of any path and content, leaves the restore of a named
/// snapshot as it was.
pub proof fn law_restore_is_stable_under_record(
    s: HistoryView,
    path: Seq<char>,
    id: Seq<char>,
    other_path: Seq<char>,
    content: Seq<char>,
    other_id: Seq<char>,
    now: i64,
)
    requires
        history_wf(s),
        restored(s, path, Some(id)) is Ok,
    ensures
        restored(record(s, other_path, content, other_id, now).0, path, Some(id)) == restored(
            s,
            path,
            Some(id),
        ),
{
    let after = record(s, other_path, content, other_id, now).0;
    if !is_unchanged(s, other_path, content) {
        let snapshot = new_snapshot(s, other_path, content, other_id, now);
        if accepts_snapshot(s.db, snapshot) {
            lemma_find_found(s.db.snapshots, path, id);
            let found = find(s.db.snapshots, path, id)->0;
            let i = choose|i: int| 0 <= i < s.db.snapshots.len() && #[trigger] s.db.snapshots[i]
                == found;
            assert(s.db.snapshots[i].id == id);
            assert(other_id != id);
            lemma_find_of_other_id(s.db.snapshots, snapshot, path, id);
            lemma_inserted(s.db.snapshots, snapshot);
            let p = insert_position(s.db.snapshots, now);
            let k = if i < p { i } else { i + 1 };
            assert(after.db.snapshots[k] == found);
            lemma_latest_found(after.db.snapshots, path);
        }
    }
}

/// A prune leaves what a retained snapshot restores to as it was.
pub proof fn law_restore_is_stable_under_prune(
    s: HistoryView,
    path: Seq<char>,
    id: Seq<char>,
    days: u32,
    now: i64,
)
    requires
        history_wf(s),
        restored(s, path, Some(id)) is Ok,
        find(s.db.snapshots, path, id)->0.timestamp >= horizon(days, now),
    ensures
        restored(pruned(s, days, now), path, Some(id)) == restored(s, path, Some(id)),
{
    let after = pruned(s, days, now);
    let cutoff = horizon(days, now);
    lemma_find_retained(s.db.snapshots, cutoff, path, id);
    let found = find(s.db.snapshots, path, id)->0;
    lemma_find_found(after.db.snapshots, path, id);
    let i = choose|i: int| 0 <= i < after.db.snapshots.len() && #[trigger] after.db.snapshots[i]
        == found;
    assert(after.db.snapshots[i].content_hash == found.content_hash);
    assert(referenced(after.db.snapshots).contains(found.content_hash));
    lemma_latest_found(after.db.snapshots, path);
}

/// Prune safety. After a prune, for every horizon, no object is left that
/// no surviving snapshot refers to, and every object that a surviving
/// snapshot refers to is still in the store with the content it had: where
/// every snapshot had its object before, every surviving snapshot has it
/// afterwards.
pub proof fn law_prune_is_safe(s: HistoryView, days: u32, now: i64)
    requires
        history_wf(s),
    ensures
        history_wf(pruned(s, days, now)),
        no_garbage(pruned(s, days, now)),
        forall|h: Seq<char>|
            referenced(pruned(s, days, now).db.snapshots).contains(h) && s.objects.contains_key(h)
                ==> #[trigger] pruned(s, days, now).objects.contains_key(h) && pruned(
                s,
                days,
                now,
            ).objects[h] == s.objects[h],
        consistent(s) ==> consistent(pruned(s, days, now)),
{
    let after = pruned(s, days, now);
    let cutoff = horizon(days, now);
    let kept = after.db.snapshots;
    lemma_retained_subset(s.db.snapshots, cutoff);
    lemma_retained_ordered(s.db.snapshots, cutoff);
    assert(tables_wf(after.db)) by {
        assert forall|i: int| 0 <= i < kept.len() implies has_session(
            after.db.sessions,
            (#[trigger] kept[i]).session_id,
        ) by {
            let j = choose|j: int|
                0 <= j < s.db.snapshots.len() && #[trigger] s.db.snapshots[j] == kept[i];
            assert(has_session(s.db.sessions, s.db.snapshots[j].session_id));
        }
    }
    assert(content_addressed(after.objects)) by {
        assert forall|h: Seq<char>| #[trigger] after.objects.contains_key(h) implies h
            == blake3_hex(after.objects[h]) by {
            assert(s.objects.contains_key(h));
        }
    }
    assert(after.objects.dom() =~= s.objects.dom().intersect(referenced(kept)));
    if consistent(s) {
        assert forall|i: int| 0 <= i < kept.len() implies after.objects.contains_key(
            (#[trigger] kept[i]).content_hash,
        ) by {
            let j = choose|j: int|
                0 <= j < s.db.snapshots.len() && #[trigger] s.db.snapshots[j] == kept[i];
            assert(s.objects.contains_key(s.db.snapshots[j].content_hash));
            assert(referenced(kept).contains(kept[i].content_hash));
        }
    }
}

/// One write to a path: the content, and the id and time under which it
/// is recorded.
pub struct Write {
    pub content: Seq<char>,
    pub id: Seq<char>,
    pub now: i64,
}

/// The engine's value after `writes` were recorded at `path`, one after
/// the other.
pub open spec fn replayed(s: HistoryView, path: Seq<char>, writes: Seq<Write>) -> HistoryView
    decreases writes.len(),
{
    if writes.len() == 0 {
        s
    } else {
        let w = writes.last();
        record(replayed(s, path, writes.drop_last()), path, w.content, w.id, w.now).0
    }
}

/// Every write of `writes` was recorded without failure, at a time that
/// is not before the path's history, and with a content that shares its
/// hash with no other text of the store.
pub open spec fn undisturbed(s: HistoryView, path: Seq<char>, writes: Seq<Write>) -> bool
    decreases writes.len(),
{
    writes.len() == 0 || {
        let before = replayed(s, path, writes.drop_last());
        let w = writes.last();
        &&& undisturbed(s, path, writes.drop_last())
        &&& not_before_history(before, path, w.now)
        &&& no_collision(before, w.content)
        &&& record(before, path, w.content, w.id, w.now).1 is Ok
    }
}

/// A sequence of recordings keeps the engine's value well-formed and every
/// snapshot's object in the store.
pub proof fn lemma_replayed_keeps(s: HistoryView, path: Seq<char>, writes: Seq<Write>)
    requires
        history_wf(s),
        consistent(s),
    ensures
        history_wf(replayed(s, path, writes)),
        consistent(replayed(s, path, writes)),
    decreases writes.len(),
{
    if writes.len() > 0 {
        let before = replayed(s, path, writes.drop_last());
        let w = writes.last();
        lemma_replayed_keeps(s, path, writes.drop_last());
        law_record_keeps_wf(before, path, w.content, w.id, w.now);
        law_record_keeps_consistent(before, path, w.content, w.id, w.now);
    }
}

/// Round trip. After any sequence of undisturbed writes to a path, a
/// restore of the path without a snapshot id yields exactly the content of
/// the last write.
pub proof fn law_round_trip(s: HistoryView, path: Seq<char>, writes: Seq<Write>)
    requires
        history_wf(s),
        consistent(s),
        writes.len() > 0,
        undisturbed(s, path, writes),
    ensures
        restored(replayed(s, path, writes), path, None) == Ok::<
            Seq<char>,
            EngineErrorView,
        >(writes.last().content),
{
    let before = replayed(s, path, writes.drop_last());
    let w = writes.last();
    lemma_replayed_keeps(s, path, writes.drop_last());
    law_restore_yields_last_recorded(before, path, w.content, w.id, w.now);
}

/// Round trip by id. After any sequence of undisturbed writes to a path, a
/// restore under the id of a write that recorded a snapshot yields exactly
/// the content of that write, however many writes followed it.
pub proof fn law_round_trip_by_id(s: HistoryView, path: Seq<char>, writes: Seq<Write>, k: int)
    requires
        history_wf(s),
        consistent(s),
        0 <= k < writes.len(),
        undisturbed(s, path, writes),
        record(
            replayed(s, path, writes.take(k)),
            path,
            writes[k].content,
            writes[k].id,
            writes[k].now,
        ).1->Ok_0 is Recorded,
    ensures
        restored(replayed(s, path, writes), path, Some(writes[k].id)) == Ok::<
            Seq<char>,
            EngineErrorView,
        >(writes[k].content),
    decreases writes.len(),
{
    let front = writes.drop_last();
    let before = replayed(s, path, front);
    let w = writes.last();
    lemma_replayed_keeps(s, path, front);
    if k == writes.len() - 1 {
        assert(writes.take(k) == front);
        law_restore_yields_named_snapshot(before, path, w.content, w.id, w.now);
    } else {
        assert(front.take(k) == writes.take(k));
        law_round_trip_by_id(s, path, front, k);
        law_restore_is_stable_under_record(
            before,
            path,
            writes[k].id,
            path,
            w.content,
            w.id,
            w.now,
        );
    }
}

} // verus!
