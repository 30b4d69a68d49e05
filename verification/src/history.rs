//! The versioning engine: it decides whether a change is real, files the
//! new content, records a snapshot of it, restores earlier content and
//! prunes old history.
//!
//! The engine owns the metadata store and the object store. Its behaviour
//! is stated over [`HistoryView`], the mathematical value of both stores
//! together; the laws that hold of it are proved in [`crate::laws`].

use vstd::prelude::*;
use crate::ambient::{fresh_id, now_millis};
use crate::db::{
    accepts_snapshot, closed_sessions, find, has_session, history, latest, lemma_retained_all,
    referenced, retained, session_index, tables_wf, with_snapshot, Database, DatabaseView, Session, SessionView,
    Snapshot, SnapshotView,
};
use crate::diff::{diff, diff_of, initial_patch, initial_patch_of, DiffSummaryView};
use crate::error::{result_view, EngineError, EngineErrorView, ErrorKind, Operation};
use crate::hash::{blake3_hex, content_hash};
use crate::object_store::{content_addressed, put_of, ObjectStore};
use crate::paths::{relative_path, relative_to};

verus! {

/// The mathematical value of the engine: both stores, the tracked root and
/// the session under which it records.
pub struct HistoryView {
    pub db: DatabaseView,
    pub objects: Map<Seq<char>, Seq<char>>,
    pub base_path: Seq<char>,
    pub session_id: Seq<char>,
}

/// What a call of `record_change` did.
#[derive(Debug, PartialEq, Eq)]
pub enum RecordOutcome {
    /// The content is that of the most recent snapshot: nothing was
    /// written.
    Unchanged,
    /// A snapshot was recorded.
    Recorded(Snapshot),
}

/// The mathematical value of a [`RecordOutcome`].
pub enum RecordOutcomeView {
    Unchanged,
    Recorded(SnapshotView),
}

impl View for RecordOutcome {
    type V = RecordOutcomeView;

    open spec fn view(&self) -> RecordOutcomeView {
        match self {
            RecordOutcome::Unchanged => RecordOutcomeView::Unchanged,
            RecordOutcome::Recorded(s) => RecordOutcomeView::Recorded(s@),
        }
    }
}

/// The invariant of the engine's value: the tables are well-formed, every
/// object is filed under its own hash, and the current session is in the
/// table.
pub open spec fn history_wf(s: HistoryView) -> bool {
    &&& tables_wf(s.db)
    &&& s.objects.dom().finite()
    &&& content_addressed(s.objects)
    &&& has_session(s.db.sessions, s.session_id)
}

/// Whether `content` is what the most recent snapshot of `path` holds, by
/// its hash.
pub open spec fn is_unchanged(s: HistoryView, path: Seq<char>, content: Seq<char>) -> bool {
    match latest(s.db.snapshots, path) {
        Some(last) => last.content_hash == blake3_hex(content),
        None => false,
    }
}

/// The content against which a change is diffed: the object of the
/// snapshot `last`, or the empty text where the store does not hold it.
pub open spec fn prior_content(s: HistoryView, last: SnapshotView) -> Seq<char> {
    if s.objects.contains_key(last.content_hash) {
        s.objects[last.content_hash]
    } else {
        Seq::empty()
    }
}

/// The patch and counts of recording `content` at `path`: against the
/// content of the most recent snapshot, or all of it new where the path
/// has no snapshot.
pub open spec fn change_summary(s: HistoryView, path: Seq<char>, content: Seq<char>)
    -> DiffSummaryView {
    match latest(s.db.snapshots, path) {
        Some(last) => diff_of(prior_content(s, last), content, path),
        None => initial_patch_of(content, path),
    }
}

/// The snapshot that recording `content` at `path` writes.
pub open spec fn new_snapshot(
    s: HistoryView,
    path: Seq<char>,
    content: Seq<char>,
    id: Seq<char>,
    now: i64,
) -> SnapshotView {
    let summary = change_summary(s, path, content);
    SnapshotView {
        id,
        session_id: s.session_id,
        file_path: path,
        timestamp: now,
        diff_patch: summary.patch,
        content_hash: blake3_hex(content),
        lines_added: summary.lines_added,
        lines_removed: summary.lines_removed,
    }
}

/// The snapshot algorithm. Where the content is that of the most recent
/// snapshot of the path, nothing happens. Otherwise the content is filed
/// in the object store, and the snapshot is put into the table. Where the
/// table refuses the snapshot, because its id is taken, the call fails
/// with `StoreFailure` and no snapshot is recorded; the object stays filed.
pub open spec fn record(
    s: HistoryView,
    path: Seq<char>,
    content: Seq<char>,
    id: Seq<char>,
    now: i64,
) -> (HistoryView, Result<RecordOutcomeView, EngineErrorView>) {
    if is_unchanged(s, path, content) {
        (s, Ok(RecordOutcomeView::Unchanged))
    } else {
        let snapshot = new_snapshot(s, path, content, id, now);
        let objects = put_of(s.objects, content);
        if accepts_snapshot(s.db, snapshot) {
            (
                HistoryView {
                    db: DatabaseView {
                        sessions: s.db.sessions,
                        snapshots: with_snapshot(s.db.snapshots, snapshot),
                    },
                    objects,
                    ..s
                },
                Ok(RecordOutcomeView::Recorded(snapshot)),
            )
        } else {
            (
                HistoryView { objects, ..s },
                Err(
                    EngineErrorView {
                        kind: ErrorKind::StoreFailure,
                        operation: Operation::RecordChange,
                        path,
                    },
                ),
            )
        }
    }
}

/// The value with which an engine starts: the two stores as given, and a
/// session that begins at `now`. `StoreFailure` where the table holds a
/// session with that id already.
pub open spec fn opened(
    db: DatabaseView,
    objects: Map<Seq<char>, Seq<char>>,
    base_path: Seq<char>,
    session_id: Seq<char>,
    now: i64,
) -> Result<HistoryView, EngineErrorView> {
    if has_session(db.sessions, session_id) {
        Err(
            EngineErrorView {
                kind: ErrorKind::StoreFailure,
                operation: Operation::OpenSession,
                path: base_path,
            },
        )
    } else {
        Ok(
            HistoryView {
                db: DatabaseView {
                    sessions: db.sessions.push(
                        SessionView { id: session_id, start_time: now, end_time: None, meta: None },
                    ),
                    snapshots: db.snapshots,
                },
                objects,
                base_path,
                session_id,
            },
        )
    }
}

/// The snapshot that a restore of `path` reads: the most recent one, or
/// the one named by `id`. `NotFound` where the path has no snapshot,
/// `UnknownSnapshot` where it has none with that id.
pub open spec fn resolve(snapshots: Seq<SnapshotView>, path: Seq<char>, id: Option<Seq<char>>)
    -> Result<SnapshotView, ErrorKind> {
    match latest(snapshots, path) {
        None => Err(ErrorKind::NotFound),
        Some(last) => match id {
            None => Ok(last),
            Some(wanted) => match find(snapshots, path, wanted) {
                Some(snapshot) => Ok(snapshot),
                None => Err(ErrorKind::UnknownSnapshot),
            },
        },
    }
}

/// What a restore of `path` yields: the content filed under the hash of
/// the resolved snapshot, and `IntegrityViolation` where the object store
/// does not hold it.
pub open spec fn restored(s: HistoryView, path: Seq<char>, id: Option<Seq<char>>) -> Result<
    Seq<char>,
    EngineErrorView,
> {
    match resolve(s.db.snapshots, path, id) {
        Err(kind) => Err(EngineErrorView { kind, operation: Operation::Restore, path }),
        Ok(snapshot) => if s.objects.contains_key(snapshot.content_hash) {
            Ok(s.objects[snapshot.content_hash])
        } else {
            Err(
                EngineErrorView {
                    kind: ErrorKind::IntegrityViolation,
                    operation: Operation::Restore,
                    path,
                },
            )
        },
    }
}

/// The length of a day in milliseconds.
pub const MILLIS_PER_DAY: i64 = 86_400_000;

/// The time before which a snapshot is older than `days` days at `now`.
pub open spec fn horizon(days: u32, now: i64) -> int {
    now - days * MILLIS_PER_DAY
}

/// The value after a prune: the snapshots that are not older than the
/// horizon, and of the objects those that a remaining snapshot refers to.
pub open spec fn pruned(s: HistoryView, days: u32, now: i64) -> HistoryView {
    let snapshots = retained(s.db.snapshots, horizon(days, now));
    HistoryView {
        db: DatabaseView { sessions: s.db.sessions, snapshots },
        objects: s.objects.restrict(referenced(snapshots)),
        ..s
    }
}

/// A file of the tracked tree with its current content.
#[derive(Debug, PartialEq, Eq)]
pub struct TrackedFile {
    pub path: String,
    pub content: String,
}

/// The mathematical value of a [`TrackedFile`].
pub struct TrackedFileView {
    pub path: Seq<char>,
    pub content: Seq<char>,
}

impl View for TrackedFile {
    type V = TrackedFileView;

    open spec fn view(&self) -> TrackedFileView {
        TrackedFileView { path: self.path@, content: self.content@ }
    }
}

impl DeepView for TrackedFile {
    type V = TrackedFileView;

    open spec fn deep_view(&self) -> TrackedFileView {
        self@
    }
}

/// Recording `files` one after the other, file `i` under the id and time
/// `stamps[i]`: the value at the end, and the outcome of each file.
pub open spec fn synced(
    s: HistoryView,
    files: Seq<TrackedFileView>,
    stamps: Seq<(Seq<char>, i64)>,
) -> (HistoryView, Seq<Result<RecordOutcomeView, EngineErrorView>>)
    decreases files.len(),
{
    if files.len() == 0 || stamps.len() != files.len() {
        (s, Seq::empty())
    } else {
        let (before, outcomes) = synced(s, files.drop_last(), stamps.drop_last());
        let (after, outcome) = record(
            before,
            relative_to(before.base_path, files.last().path),
            files.last().content,
            stamps.last().0,
            stamps.last().1,
        );
        (after, outcomes.push(outcome))
    }
}

/// The outcomes of a sync as mathematical values.
pub open spec fn outcome_views(outcomes: Seq<Result<RecordOutcome, EngineError>>) -> Seq<
    Result<RecordOutcomeView, EngineErrorView>,
> {
    Seq::new(outcomes.len(), |i: int| result_view(outcomes[i]))
}

/// Ending the current session at `now`: the value afterwards and the
/// result. The session gets `now` as its end; where it has ended before,
/// nothing changes and the call fails.
pub open spec fn session_ended(s: HistoryView, now: i64) -> (
    HistoryView,
    Result<(), EngineErrorView>,
) {
    match closed_sessions(s.db.sessions, s.session_id, now) {
        Ok(sessions) => (
            HistoryView { db: DatabaseView { sessions, snapshots: s.db.snapshots }, ..s },
            Ok(()),
        ),
        Err(kind) => (
            s,
            Err(EngineErrorView { kind, operation: Operation::CloseSession, path: s.base_path }),
        ),
    }
}

/// The engine.
pub struct HistoryManager {
    db: Database,
    objects: ObjectStore,
    base_path: String,
    current_session_id: String,
}

impl View for HistoryManager {
    type V = HistoryView;

    closed spec fn view(&self) -> HistoryView {
        HistoryView {
            db: self.db@,
            objects: self.objects@,
            base_path: self.base_path@,
            session_id: self.current_session_id@,
        }
    }
}

impl HistoryManager {
    /// The invariant of the engine: both stores are well-formed and the
    /// current session is in the table.
    pub closed spec fn wf(&self) -> bool {
        &&& self.db.wf()
        &&& self.objects.wf()
        &&& has_session(self.db@.sessions, self.current_session_id@)
    }

    /// A well-formed engine has a well-formed value.
    pub proof fn lemma_wf(&self)
        requires
            self.wf(),
        ensures
            history_wf(self@),
    {
        self.objects.lemma_wf();
    }

    /// An engine on the two stores, for the tree under `base_path`, with a
    /// new session `session_id` that begins at `now`. `StoreFailure` where
    /// the table holds a session with that id already.
    pub fn with_session(
        db: Database,
        objects: ObjectStore,
        base_path: &str,
        session_id: &str,
        now: i64,
    ) -> (r: Result<HistoryManager, EngineError>)
        requires
            db.wf(),
            objects.wf(),
        ensures
            r is Ok ==> r->Ok_0.wf(),
            result_view(r) == opened(db@, objects@, base_path@, session_id@, now),
    {
        let mut db = db;
        let session = Session {
            id: session_id.to_owned(),
            start_time: now,
            end_time: None,
            meta: None,
        };
        match db.insert_session(session) {
            Ok(_) => {
                let engine = HistoryManager {
                    db,
                    objects,
                    base_path: base_path.to_owned(),
                    current_session_id: session_id.to_owned(),
                };
                proof {
                    let sessions = engine.db@.sessions;
                    assert(sessions[sessions.len() - 1].id == session_id@);
                }
                Ok(engine)
            },
            Err(kind) => Err(EngineError::new(kind, Operation::OpenSession, base_path)),
        }
    }

    /// An engine on the two stores, for the tree under `base_path`. It
    /// opens a session under a fresh id at the current time.
    pub fn new(db: Database, objects: ObjectStore, base_path: &str) -> (r: Result<
        HistoryManager,
        EngineError,
    >)
        requires
            db.wf(),
            objects.wf(),
        ensures
            r is Ok ==> r->Ok_0.wf(),
            exists|id: Seq<char>, now: i64|
                result_view(r) == opened(db@, objects@, base_path@, id, now),
    {
        let id = fresh_id();
        let now = now_millis();
        HistoryManager::with_session(db, objects, base_path, id.as_str(), now)
    }

    /// The metadata store.
    pub fn db(&self) -> (r: &Database)
        ensures
            r@ == self@.db,
            self.wf() ==> r.wf(),
    {
        &self.db
    }

    /// The object store.
    pub fn objects(&self) -> (r: &ObjectStore)
        ensures
            r@ == self@.objects,
            self.wf() ==> r.wf(),
    {
        &self.objects
    }

    /// The tracked root.
    pub fn base_path(&self) -> (r: &str)
        ensures
            r@ == self@.base_path,
    {
        self.base_path.as_str()
    }

    /// The id of the session under which the engine records.
    pub fn session_id(&self) -> (r: &str)
        ensures
            r@ == self@.session_id,
    {
        self.current_session_id.as_str()
    }

    /// Gives the two stores back.
    pub fn into_stores(self) -> (r: (Database, ObjectStore))
        ensures
            r.0@ == self@.db,
            r.1@ == self@.objects,
            self.wf() ==> r.0.wf() && r.1.wf(),
    {
        (self.db, self.objects)
    }

    /// Records `content` as the current content of `file_path`, under a
    /// fresh snapshot id and the current time: the snapshot algorithm of
    /// [`record`], for whatever id and time the call obtained.
    ///
    /// A snapshot that was recorded is for the caller to submit to the
    /// semantic index. A failure there is no failure of the recording; see
    /// [`crate::search::index_warning`].
    pub fn record_change(&mut self, file_path: &str, content: &str) -> (r: Result<
        RecordOutcome,
        EngineError,
    >)
        requires
            old(self).wf(),
        ensures
            final(self).wf(),
            exists|id: Seq<char>, now: i64|
                (final(self)@, result_view(r)) == record(
                    old(self)@,
                    relative_to(old(self)@.base_path, file_path@),
                    content@,
                    id,
                    now,
                ),
    {
        let id = fresh_id();
        let now = now_millis();
        self.record_change_at(file_path, content, id.as_str(), now)
    }

    /// The content of `path` as a snapshot holds it: its most recent one,
    /// or the one named by `snapshot_id`. `path` is the name under which
    /// the snapshots were recorded.
    pub fn restore(&self, path: &str, snapshot_id: Option<&str>) -> (r: Result<
        String,
        EngineError,
    >)
        requires
            self.wf(),
        ensures
            result_view(r) == restored(self@, path@, snapshot_id.deep_view()),
    {
        let last = self.db.latest_snapshot(path);
        let target = match last {
            None => {
                return Err(EngineError::new(ErrorKind::NotFound, Operation::Restore, path));
            },
            Some(snapshot) => match snapshot_id {
                None => snapshot,
                Some(id) => match self.db.find_snapshot(path, id) {
                    Some(named) => named,
                    None => {
                        return Err(
                            EngineError::new(
                                ErrorKind::UnknownSnapshot,
                                Operation::Restore,
                                path,
                            ),
                        );
                    },
                },
            },
        };
        match self.objects.get(target.content_hash.as_str()) {
            Ok(content) => Ok(content),
            Err(_) => Err(
                EngineError::new(ErrorKind::IntegrityViolation, Operation::Restore, path),
            ),
        }
    }

    /// The snapshots of `path`, most recent first.
    pub fn list_snapshots(&self, path: &str) -> (r: Vec<Snapshot>)
        ensures
            r.deep_view() == history(self@.db.snapshots, path@),
    {
        self.db.list_snapshots(path)
    }

    /// Removes the snapshots that are older than `days` days at the time
    /// `now`, then every object that no remaining snapshot refers to.
    /// Returns the number of snapshots and the number of objects removed.
    pub fn prune_at(&mut self, days: u32, now: i64) -> (r: (usize, usize))
        requires
            old(self).wf(),
        ensures
            final(self).wf(),
            final(self)@ == pruned(old(self)@, days, now),
            r.0 == old(self)@.db.snapshots.len() - final(self)@.db.snapshots.len(),
            r.1 == old(self)@.objects.len() - final(self)@.objects.len(),
    {
        let span: i128 = (days as i128) * (MILLIS_PER_DAY as i128);
        let cutoff: i128 = (now as i128) - span;
        let removed_snapshots = if cutoff < i64::MIN as i128 {
            proof {
                lemma_retained_all(self@.db.snapshots, horizon(days, now));
            }
            0
        } else {
            self.db.delete_older_than(cutoff as i64)
        };
        let keep = self.db.referenced_hashes();
        let removed_objects = self.objects.retain(&keep);
        (removed_snapshots, removed_objects)
    }

    /// Removes the snapshots that are older than `days` days now, and the
    /// objects left without a snapshot: [`pruned`], for whatever time the
    /// call obtained.
    pub fn prune(&mut self, days: u32) -> (r: (usize, usize))
        requires
            old(self).wf(),
        ensures
            final(self).wf(),
            exists|now: i64| final(self)@ == pruned(old(self)@, days, now),
            r.0 == old(self)@.db.snapshots.len() - final(self)@.db.snapshots.len(),
            r.1 == old(self)@.objects.len() - final(self)@.objects.len(),
    {
        let now = now_millis();
        self.prune_at(days, now)
    }

    /// Records every file of `files` in turn, each under a fresh id and the
    /// time at which its turn came, as if each had just changed. A file
    /// that fails does not stop the others. Returns the outcome of each
    /// file.
    pub fn sync_all(&mut self, files: &Vec<TrackedFile>) -> (r: Vec<
        Result<RecordOutcome, EngineError>,
    >)
        requires
            old(self).wf(),
        ensures
            final(self).wf(),
            r.len() == files.len(),
            exists|stamps: Seq<(Seq<char>, i64)>|
                stamps.len() == files.len() && (final(self)@, outcome_views(r@)) == synced(
                    old(self)@,
                    files.deep_view(),
                    stamps,
                ),
    {
        let ghost all = files.deep_view();
        let ghost mut stamps: Seq<(Seq<char>, i64)> = Seq::empty();
        let mut out: Vec<Result<RecordOutcome, EngineError>> = Vec::new();
        let mut i: usize = 0;
        assert(outcome_views(out@) =~= Seq::empty());
        assert(all.take(0).len() == 0);
        while i < files.len()
            invariant
                i <= files.len(),
                all == files.deep_view(),
                self.wf(),
                stamps.len() == i,
                out.len() == i,
                (self@, outcome_views(out@)) == synced(old(self)@, all.take(i as int), stamps),
            decreases files.len() - i,
        {
            let id = fresh_id();
            let now = now_millis();
            let ghost before = self@;
            let ghost outcomes = outcome_views(out@);
            let ghost earlier = stamps;
            let outcome = self.record_change_at(
                files[i].path.as_str(),
                files[i].content.as_str(),
                id.as_str(),
                now,
            );
            proof {
                stamps = stamps.push((id@, now));
                assert(stamps.drop_last() == earlier);
                assert(all.take(i + 1).drop_last() == all.take(i as int));
                assert(all.take(i + 1).last() == files[i as int]@);
            }
            let ghost shown = result_view(outcome);
            out.push(outcome);
            assert(outcome_views(out@) =~= outcomes.push(shown));
            i += 1;
        }
        assert(all.take(files.len() as int) == all);
        out
    }

    /// Ends the current session at the time `now`. `StoreFailure`, and no
    /// change, where it has ended before.
    pub fn end_session_at(&mut self, now: i64) -> (r: Result<(), EngineError>)
        requires
            old(self).wf(),
        ensures
            final(self).wf(),
            (final(self)@, result_view(r)) == session_ended(old(self)@, now),
    {
        let ghost before = self@;
        match self.db.close_session(self.current_session_id.as_str(), now) {
            Ok(_) => {
                proof {
                    let i = session_index(before.db.sessions, before.session_id);
                    assert(self@.db.sessions[i].id == before.session_id);
                }
                Ok(())
            },
            Err(kind) => Err(
                EngineError::new(kind, Operation::CloseSession, self.base_path.as_str()),
            ),
        }
    }

    /// Ends the current session at the current time: [`session_ended`],
    /// for whatever time the call obtained.
    pub fn end_session(&mut self) -> (r: Result<(), EngineError>)
        requires
            old(self).wf(),
        ensures
            final(self).wf(),
            exists|now: i64|
                (final(self)@, result_view(r)) == #[trigger] session_ended(old(self)@, now),
    {
        let now = now_millis();
        self.end_session_at(now)
    }

    /// Records `content` as the current content of `file_path`, under the
    /// snapshot id `snapshot_id` and the time `now`. The path is taken
    /// relative to the tracked root.
    pub fn record_change_at(
        &mut self,
        file_path: &str,
        content: &str,
        snapshot_id: &str,
        now: i64,
    ) -> (r: Result<RecordOutcome, EngineError>)
        requires
            old(self).wf(),
        ensures
            final(self).wf(),
            (final(self)@, result_view(r)) == record(
                old(self)@,
                relative_to(old(self)@.base_path, file_path@),
                content@,
                snapshot_id@,
                now,
            ),
    {
        let path = relative_path(self.base_path.as_str(), file_path);
        let new_hash = content_hash(content);
        let last = self.db.latest_snapshot(path.as_str());
        let summary = match &last {
            Some(snapshot) => {
                if snapshot.content_hash == new_hash {
                    return Ok(RecordOutcome::Unchanged);
                }
                let old_content = match self.objects.get(snapshot.content_hash.as_str()) {
                    Ok(text) => text,
                    Err(_) => String::new(),
                };
                diff(old_content.as_str(), content, path.as_str())
            },
            None => initial_patch(content, path.as_str()),
        };
        let stored = self.objects.put(content);
        let snapshot = Snapshot {
            id: snapshot_id.to_owned(),
            session_id: self.current_session_id.clone(),
            file_path: path.clone(),
            timestamp: now,
            diff_patch: summary.patch,
            content_hash: stored,
            lines_added: summary.lines_added,
            lines_removed: summary.lines_removed,
        };
        let copy = snapshot.clone();
        match self.db.insert_snapshot(snapshot) {
            Ok(_) => Ok(RecordOutcome::Recorded(copy)),
            Err(kind) => Err(EngineError::new(kind, Operation::RecordChange, path.as_str())),
        }
    }
}

} // verus!
