//! The metadata store: the table of sessions and the table of snapshots.
//!
//! The snapshots are kept in the order of their timestamps, and among equal
//! timestamps in the order in which they were inserted. The most recent
//! snapshot of a path is therefore the last one that names it.

use vstd::prelude::*;
use crate::error::ErrorKind;

verus! {

/// One run of the engine.
#[derive(Debug, PartialEq, Eq)]
pub struct Session {
    pub id: String,
    pub start_time: i64,
    pub end_time: Option<i64>,
    pub meta: Option<String>,
}

/// The mathematical value of a [`Session`].
pub struct SessionView {
    pub id: Seq<char>,
    pub start_time: i64,
    pub end_time: Option<i64>,
    pub meta: Option<Seq<char>>,
}

impl View for Session {
    type V = SessionView;

    open spec fn view(&self) -> SessionView {
        SessionView {
            id: self.id@,
            start_time: self.start_time,
            end_time: self.end_time,
            meta: match self.meta {
                Some(m) => Some(m@),
                None => None,
            },
        }
    }
}

impl DeepView for Session {
    type V = SessionView;

    open spec fn deep_view(&self) -> SessionView {
        self@
    }
}

impl Clone for Session {
    fn clone(&self) -> (r: Session)
        ensures
            r@ == self@,
    {
        Session {
            id: self.id.clone(),
            start_time: self.start_time,
            end_time: self.end_time,
            meta: match &self.meta {
                Some(m) => Some(m.clone()),
                None => None,
            },
        }
    }
}

/// One recorded change to one file.
#[derive(Debug, PartialEq, Eq)]
pub struct Snapshot {
    pub id: String,
    pub session_id: String,
    pub file_path: String,
    pub timestamp: i64,
    pub diff_patch: String,
    pub content_hash: String,
    pub lines_added: u64,
    pub lines_removed: u64,
}

/// The mathematical value of a [`Snapshot`].
pub struct SnapshotView {
    pub id: Seq<char>,
    pub session_id: Seq<char>,
    pub file_path: Seq<char>,
    pub timestamp: i64,
    pub diff_patch: Seq<char>,
    pub content_hash: Seq<char>,
    pub lines_added: u64,
    pub lines_removed: u64,
}

impl View for Snapshot {
    type V = SnapshotView;

    open spec fn view(&self) -> SnapshotView {
        SnapshotView {
            id: self.id@,
            session_id: self.session_id@,
            file_path: self.file_path@,
            timestamp: self.timestamp,
            diff_patch: self.diff_patch@,
            content_hash: self.content_hash@,
            lines_added: self.lines_added,
            lines_removed: self.lines_removed,
        }
    }
}

impl DeepView for Snapshot {
    type V = SnapshotView;

    open spec fn deep_view(&self) -> SnapshotView {
        self@
    }
}

impl Clone for Snapshot {
    fn clone(&self) -> (r: Snapshot)
        ensures
            r@ == self@,
    {
        Snapshot {
            id: self.id.clone(),
            session_id: self.session_id.clone(),
            file_path: self.file_path.clone(),
            timestamp: self.timestamp,
            diff_patch: self.diff_patch.clone(),
            content_hash: self.content_hash.clone(),
            lines_added: self.lines_added,
            lines_removed: self.lines_removed,
        }
    }
}

/// The two tables as mathematical sequences.
pub struct DatabaseView {
    pub sessions: Seq<SessionView>,
    pub snapshots: Seq<SnapshotView>,
}

/// Whether a session with this id is in the table.
pub open spec fn has_session(sessions: Seq<SessionView>, id: Seq<char>) -> bool {
    exists|i: int| 0 <= i < sessions.len() && (#[trigger] sessions[i]).id == id
}

/// Whether a snapshot with this id is in the table.
pub open spec fn has_snapshot(snapshots: Seq<SnapshotView>, id: Seq<char>) -> bool {
    exists|i: int| 0 <= i < snapshots.len() && (#[trigger] snapshots[i]).id == id
}

/// No two sessions share an id.
pub open spec fn unique_sessions(sessions: Seq<SessionView>) -> bool {
    forall|i: int, j: int|
        0 <= i < j < sessions.len() ==> (#[trigger] sessions[i]).id != (#[trigger] sessions[j]).id
}

/// No two snapshots share an id.
pub open spec fn unique_snapshots(snapshots: Seq<SnapshotView>) -> bool {
    forall|i: int, j: int|
        0 <= i < j < snapshots.len() ==> (#[trigger] snapshots[i]).id != (
        #[trigger] snapshots[j]).id
}

/// The snapshots stand in the order of their timestamps.
pub open spec fn ordered_by_time(snapshots: Seq<SnapshotView>) -> bool {
    forall|i: int, j: int|
        0 <= i < j < snapshots.len() ==> (#[trigger] snapshots[i]).timestamp <= (
        #[trigger] snapshots[j]).timestamp
}

/// Every snapshot belongs to a session of the table.
pub open spec fn sessions_known(v: DatabaseView) -> bool {
    forall|i: int|
        0 <= i < v.snapshots.len() ==> has_session(
            v.sessions,
            (#[trigger] v.snapshots[i]).session_id,
        )
}

/// The invariant of the two tables.
pub open spec fn tables_wf(v: DatabaseView) -> bool {
    &&& unique_sessions(v.sessions)
    &&& unique_snapshots(v.snapshots)
    &&& ordered_by_time(v.snapshots)
    &&& sessions_known(v)
}

/// Where a snapshot taken at `t` goes: behind every snapshot that is not
/// later than `t`.
pub open spec fn insert_position(snapshots: Seq<SnapshotView>, t: i64) -> int
    decreases snapshots.len(),
{
    if snapshots.len() == 0 {
        0
    } else if snapshots.last().timestamp <= t {
        snapshots.len() as int
    } else {
        insert_position(snapshots.drop_last(), t)
    }
}

/// The table with `s` put in at its place in time.
pub open spec fn with_snapshot(snapshots: Seq<SnapshotView>, s: SnapshotView) -> Seq<
    SnapshotView,
> {
    snapshots.insert(insert_position(snapshots, s.timestamp), s)
}

/// The most recent snapshot of `path`: the last one in the table that
/// names it.
pub open spec fn latest(snapshots: Seq<SnapshotView>, path: Seq<char>) -> Option<SnapshotView>
    decreases snapshots.len(),
{
    if snapshots.len() == 0 {
        None
    } else if snapshots.last().file_path == path {
        Some(snapshots.last())
    } else {
        latest(snapshots.drop_last(), path)
    }
}

/// The snapshots of `path`, most recent first.
pub open spec fn history(snapshots: Seq<SnapshotView>, path: Seq<char>) -> Seq<SnapshotView>
    decreases snapshots.len(),
{
    if snapshots.len() == 0 {
        Seq::empty()
    } else if snapshots.last().file_path == path {
        seq![snapshots.last()] + history(snapshots.drop_last(), path)
    } else {
        history(snapshots.drop_last(), path)
    }
}

/// The snapshot of `path` with this id, if there is one.
pub open spec fn find(snapshots: Seq<SnapshotView>, path: Seq<char>, id: Seq<char>) -> Option<
    SnapshotView,
>
    decreases snapshots.len(),
{
    if snapshots.len() == 0 {
        None
    } else if snapshots.last().file_path == path && snapshots.last().id == id {
        Some(snapshots.last())
    } else {
        find(snapshots.drop_last(), path, id)
    }
}

/// The snapshots that are not older than `cutoff`, in their order.
pub open spec fn retained(snapshots: Seq<SnapshotView>, cutoff: int) -> Seq<SnapshotView>
    decreases snapshots.len(),
{
    if snapshots.len() == 0 {
        Seq::empty()
    } else if snapshots.last().timestamp >= cutoff {
        retained(snapshots.drop_last(), cutoff).push(snapshots.last())
    } else {
        retained(snapshots.drop_last(), cutoff)
    }
}

/// The hashes that some snapshot refers to.
pub open spec fn referenced(snapshots: Seq<SnapshotView>) -> Set<Seq<char>> {
    Set::new(
        |h: Seq<char>|
            exists|i: int| 0 <= i < snapshots.len() && (#[trigger] snapshots[i]).content_hash == h,
    )
}

/// In a table ordered by time, `insert_position` parts the snapshots that
/// are not later than `t` from those that are.
pub proof fn lemma_insert_position(snapshots: Seq<SnapshotView>, t: i64)
    requires
        ordered_by_time(snapshots),
    ensures
        0 <= insert_position(snapshots, t) <= snapshots.len(),
        forall|i: int|
            0 <= i < insert_position(snapshots, t) ==> (#[trigger] snapshots[i]).timestamp <= t,
        forall|i: int|
            insert_position(snapshots, t) <= i < snapshots.len() ==> (
            #[trigger] snapshots[i]).timestamp > t,
    decreases snapshots.len(),
{
    if snapshots.len() > 0 {
        let front = snapshots.drop_last();
        if snapshots.last().timestamp <= t {
            assert forall|i: int| 0 <= i < snapshots.len() implies (
            #[trigger] snapshots[i]).timestamp <= t by {
                if i < snapshots.len() - 1 {
                    assert(snapshots[i].timestamp <= snapshots[snapshots.len() - 1].timestamp);
                }
            }
        } else {
            assert(ordered_by_time(front)) by {
                assert forall|i: int, j: int| 0 <= i < j < front.len() implies (
                #[trigger] front[i]).timestamp <= (#[trigger] front[j]).timestamp by {
                    assert(snapshots[i].timestamp <= snapshots[j].timestamp);
                }
            }
            lemma_insert_position(front, t);
            assert forall|i: int| 0 <= i < insert_position(snapshots, t) implies (
            #[trigger] snapshots[i]).timestamp <= t by {
                assert(front[i].timestamp <= t);
            }
            assert forall|i: int|
                insert_position(snapshots, t) <= i < snapshots.len() implies (
            #[trigger] snapshots[i]).timestamp > t by {
                if i < front.len() {
                    assert(front[i].timestamp > t);
                }
            }
        }
    }
}

/// Putting a snapshot with a fresh id and a known session into
/// well-formed tables leaves them well-formed.
pub proof fn lemma_with_snapshot_wf(v: DatabaseView, s: SnapshotView)
    requires
        tables_wf(v),
        !has_snapshot(v.snapshots, s.id),
        has_session(v.sessions, s.session_id),
    ensures
        tables_wf(DatabaseView { sessions: v.sessions, snapshots: with_snapshot(v.snapshots, s) }),
{
    let old_snaps = v.snapshots;
    let p = insert_position(old_snaps, s.timestamp);
    lemma_insert_position(old_snaps, s.timestamp);
    let new_snaps = with_snapshot(old_snaps, s);
    assert forall|i: int| 0 <= i < new_snaps.len() implies #[trigger] new_snaps[i] == (if i < p {
        old_snaps[i]
    } else if i == p {
        s
    } else {
        old_snaps[i - 1]
    }) by {}
    assert(unique_snapshots(new_snaps)) by {
        assert forall|i: int, j: int| 0 <= i < j < new_snaps.len() implies (
        #[trigger] new_snaps[i]).id != (#[trigger] new_snaps[j]).id by {
            let a = if i < p { i } else { i - 1 };
            let b = if j < p { j } else { j - 1 };
            if i == p {
                assert(old_snaps[b].id != s.id);
            } else if j == p {
                assert(old_snaps[a].id != s.id);
            } else {
                assert(old_snaps[a].id != old_snaps[b].id);
            }
        }
    }
    assert(ordered_by_time(new_snaps)) by {
        assert forall|i: int, j: int| 0 <= i < j < new_snaps.len() implies (
        #[trigger] new_snaps[i]).timestamp <= (#[trigger] new_snaps[j]).timestamp by {
            let a = if i < p { i } else { i - 1 };
            let b = if j < p { j } else { j - 1 };
            if i == p {
                assert(old_snaps[b].timestamp > s.timestamp);
            } else if j == p {
                assert(old_snaps[a].timestamp <= s.timestamp);
            } else {
                assert(old_snaps[a].timestamp <= old_snaps[b].timestamp);
            }
        }
    }
    assert forall|i: int| 0 <= i < new_snaps.len() implies has_session(
        v.sessions,
        (#[trigger] new_snaps[i]).session_id,
    ) by {
        if i != p {
            let a = if i < p { i } else { i - 1 };
            assert(has_session(v.sessions, old_snaps[a].session_id));
        }
    }
}

/// In a table ordered by time, the snapshots that are not older than
/// `cutoff` are the ones from position `k` on, where `k` is the first
/// position that holds one.
pub proof fn lemma_retained_is_suffix(snapshots: Seq<SnapshotView>, cutoff: int, k: int)
    requires
        ordered_by_time(snapshots),
        0 <= k <= snapshots.len(),
        forall|i: int| 0 <= i < k ==> (#[trigger] snapshots[i]).timestamp < cutoff,
        k < snapshots.len() ==> snapshots[k].timestamp >= cutoff,
    ensures
        retained(snapshots, cutoff) == snapshots.skip(k),
    decreases snapshots.len(),
{
    if snapshots.len() == 0 {
        assert(snapshots.skip(k) =~= Seq::<SnapshotView>::empty());
    } else {
        let front = snapshots.drop_last();
        let last = snapshots.len() - 1;
        assert(ordered_by_time(front)) by {
            assert forall|i: int, j: int| 0 <= i < j < front.len() implies (
            #[trigger] front[i]).timestamp <= (#[trigger] front[j]).timestamp by {
                assert(snapshots[i].timestamp <= snapshots[j].timestamp);
            }
        }
        if k == snapshots.len() {
            assert(snapshots[last].timestamp < cutoff);
            lemma_retained_is_suffix(front, cutoff, k - 1);
            assert(forall|i: int| 0 <= i < k - 1 ==> front[i] == snapshots[i]);
            assert(front.skip(k - 1) =~= snapshots.skip(k));
        } else {
            if k < last {
                assert(snapshots[k].timestamp <= snapshots[last].timestamp);
                assert(front[k] == snapshots[k]);
            }
            assert(forall|i: int| 0 <= i < k ==> front[i] == snapshots[i]);
            lemma_retained_is_suffix(front, cutoff, k);
            assert(front.skip(k).push(snapshots.last()) =~= snapshots.skip(k));
        }
    }
}

/// Where no snapshot is older than `cutoff`, all are retained.
pub proof fn lemma_retained_all(snapshots: Seq<SnapshotView>, cutoff: int)
    requires
        forall|i: int| 0 <= i < snapshots.len() ==> (#[trigger] snapshots[i]).timestamp >= cutoff,
    ensures
        retained(snapshots, cutoff) == snapshots,
    decreases snapshots.len(),
{
    if snapshots.len() > 0 {
        let front = snapshots.drop_last();
        assert(forall|i: int| 0 <= i < front.len() ==> front[i] == snapshots[i]);
        lemma_retained_all(front, cutoff);
        assert(front.push(snapshots.last()) =~= snapshots);
    } else {
        assert(snapshots =~= Seq::<SnapshotView>::empty());
    }
}

/// The hashes of the snapshots, in the order of the table.
pub open spec fn hashes_of(snapshots: Seq<SnapshotView>) -> Seq<Seq<char>> {
    Seq::new(snapshots.len(), |i: int| snapshots[i].content_hash)
}

/// As a set, the hashes of the snapshots are the hashes referred to.
pub proof fn lemma_hashes_of(snapshots: Seq<SnapshotView>)
    ensures
        hashes_of(snapshots).to_set() == referenced(snapshots),
{
    let hs = hashes_of(snapshots);
    assert forall|h: Seq<char>| hs.to_set().contains(h) == referenced(snapshots).contains(h) by {
        if hs.to_set().contains(h) {
            let i = choose|i: int| 0 <= i < hs.len() && hs[i] == h;
            assert(snapshots[i].content_hash == h);
        }
        if referenced(snapshots).contains(h) {
            let i = choose|i: int|
                0 <= i < snapshots.len() && (#[trigger] snapshots[i]).content_hash == h;
            assert(hs[i] == h);
        }
    }
    assert(hs.to_set() =~= referenced(snapshots));
}

/// Whether the tables take `s`: its id is new and its session is known.
pub open spec fn accepts_snapshot(v: DatabaseView, s: SnapshotView) -> bool {
    !has_snapshot(v.snapshots, s.id) && has_session(v.sessions, s.session_id)
}

/// Where the session with this id stands.
pub open spec fn session_index(sessions: Seq<SessionView>, id: Seq<char>) -> int {
    choose|i: int| 0 <= i < sessions.len() && (#[trigger] sessions[i]).id == id
}

/// `session` with its end set to `end_time`.
pub open spec fn ended(session: SessionView, end_time: i64) -> SessionView {
    SessionView { end_time: Some(end_time), ..session }
}

/// What closing the session `id` at `end_time` gives: the sessions with
/// that one ended, `NotFound` where there is no such session, and
/// `StoreFailure` where it has ended before.
pub open spec fn closed_sessions(
    sessions: Seq<SessionView>,
    id: Seq<char>,
    end_time: i64,
) -> Result<Seq<SessionView>, ErrorKind> {
    if !has_session(sessions, id) {
        Err(ErrorKind::NotFound)
    } else {
        let i = session_index(sessions, id);
        if sessions[i].end_time is Some {
            Err(ErrorKind::StoreFailure)
        } else {
            Ok(sessions.update(i, ended(sessions[i], end_time)))
        }
    }
}

/// The metadata store.
pub struct Database {
    sessions: Vec<Session>,
    snapshots: Vec<Snapshot>,
}

impl View for Database {
    type V = DatabaseView;

    closed spec fn view(&self) -> DatabaseView {
        DatabaseView { sessions: self.sessions.deep_view(), snapshots: self.snapshots.deep_view() }
    }
}

impl Database {
    /// The invariant of the store: ids are unique, every snapshot belongs
    /// to a session of the store, and the snapshots stand in the order of
    /// their timestamps.
    pub open spec fn wf(&self) -> bool {
        tables_wf(self@)
    }

    /// A store with both tables empty.
    pub fn init() -> (db: Database)
        ensures
            db.wf(),
            db@.sessions == Seq::<SessionView>::empty(),
            db@.snapshots == Seq::<SnapshotView>::empty(),
    {
        let db = Database { sessions: Vec::new(), snapshots: Vec::new() };
        assert(db@.sessions =~= Seq::<SessionView>::empty());
        assert(db@.snapshots =~= Seq::<SnapshotView>::empty());
        db
    }

    fn session_position(&self, id: &str) -> (r: Option<usize>)
        ensures
            match r {
                Some(i) => i < self@.sessions.len() && self@.sessions[i as int].id == id@,
                None => !has_session(self@.sessions, id@),
            },
    {
        let key = id.to_owned();
        let mut i: usize = 0;
        while i < self.sessions.len()
            invariant
                i <= self.sessions.len(),
                key@ == id@,
                forall|k: int| 0 <= k < i ==> (#[trigger] self@.sessions[k]).id != id@,
            decreases self.sessions.len() - i,
        {
            if self.sessions[i].id == key {
                return Some(i);
            }
            i += 1;
        }
        None
    }

    /// Whether a session with this id is in the store.
    pub fn has_session(&self, id: &str) -> (r: bool)
        ensures
            r == has_session(self@.sessions, id@),
    {
        self.session_position(id).is_some()
    }

    /// Whether a snapshot with this id is in the store.
    pub fn has_snapshot(&self, id: &str) -> (r: bool)
        ensures
            r == has_snapshot(self@.snapshots, id@),
    {
        let key = id.to_owned();
        let mut i: usize = 0;
        while i < self.snapshots.len()
            invariant
                i <= self.snapshots.len(),
                key@ == id@,
                forall|k: int| 0 <= k < i ==> (#[trigger] self@.snapshots[k]).id != id@,
            decreases self.snapshots.len() - i,
        {
            if self.snapshots[i].id == key {
                assert(self@.snapshots[i as int].id == id@);
                return true;
            }
            i += 1;
        }
        false
    }

    /// Adds a session. `StoreFailure`, and no change, where its id is
    /// taken.
    pub fn insert_session(&mut self, session: Session) -> (r: Result<(), ErrorKind>)
        requires
            old(self).wf(),
        ensures
            final(self).wf(),
            match r {
                Ok(_) => !has_session(old(self)@.sessions, session@.id) && final(self)@ == (
                DatabaseView {
                    sessions: old(self)@.sessions.push(session@),
                    snapshots: old(self)@.snapshots,
                }),
                Err(kind) => kind == ErrorKind::StoreFailure && has_session(
                    old(self)@.sessions,
                    session@.id,
                ) && final(self)@ == old(self)@,
            },
    {
        if self.has_session(session.id.as_str()) {
            return Err(ErrorKind::StoreFailure);
        }
        let ghost before = self@;
        let ghost added = session@;
        self.sessions.push(session);
        proof {
            let after = self@;
            assert(after.sessions =~= before.sessions.push(added));
            assert(after.snapshots == before.snapshots);
            assert forall|i: int| 0 <= i < after.snapshots.len() implies has_session(
                after.sessions,
                (#[trigger] after.snapshots[i]).session_id,
            ) by {
                assert(has_session(before.sessions, before.snapshots[i].session_id));
                let k = session_index(before.sessions, before.snapshots[i].session_id);
                assert(after.sessions[k].id == after.snapshots[i].session_id);
            }
        }
        Ok(())
    }

    /// Sets the end of the session with this id. `NotFound` where there is
    /// no such session, `StoreFailure` where it has ended already; neither
    /// changes the store.
    pub fn close_session(&mut self, id: &str, end_time: i64) -> (r: Result<(), ErrorKind>)
        requires
            old(self).wf(),
        ensures
            final(self).wf(),
            final(self)@.snapshots == old(self)@.snapshots,
            match closed_sessions(old(self)@.sessions, id@, end_time) {
                Ok(sessions) => r is Ok && final(self)@.sessions == sessions,
                Err(kind) => r == Err::<(), ErrorKind>(kind) && final(self)@ == old(self)@,
            },
    {
        match self.session_position(id) {
            None => Err(ErrorKind::NotFound),
            Some(i) => {
                let ghost before = self@;
                proof {
                    let k = session_index(before.sessions, id@);
                    if k < i {
                        assert(before.sessions[k].id != before.sessions[i as int].id);
                    } else if i < k {
                        assert(before.sessions[i as int].id != before.sessions[k].id);
                    }
                }
                if self.sessions[i].end_time.is_some() {
                    return Err(ErrorKind::StoreFailure);
                }
                self.sessions[i].end_time = Some(end_time);
                proof {
                    let after = self@;
                    assert(after.sessions =~= before.sessions.update(
                        i as int,
                        ended(before.sessions[i as int], end_time),
                    ));
                    assert(after.snapshots == before.snapshots);
                    assert forall|a: int| 0 <= a < after.snapshots.len() implies has_session(
                        after.sessions,
                        (#[trigger] after.snapshots[a]).session_id,
                    ) by {
                        assert(has_session(before.sessions, before.snapshots[a].session_id));
                        let k = session_index(before.sessions, before.snapshots[a].session_id);
                        assert(after.sessions[k].id == after.snapshots[a].session_id);
                    }
                }
                Ok(())
            },
        }
    }

    /// The most recent snapshot of `path`, if it has any.
    pub fn latest_snapshot(&self, path: &str) -> (r: Option<Snapshot>)
        ensures
            r.deep_view() == latest(self@.snapshots, path@),
    {
        let key = path.to_owned();
        let ghost all = self@.snapshots;
        let mut i: usize = self.snapshots.len();
        assert(all.take(i as int) == all);
        while i > 0
            invariant
                i <= self.snapshots.len(),
                all == self@.snapshots,
                key@ == path@,
                latest(all, path@) == latest(all.take(i as int), path@),
            decreases i,
        {
            assert(all.take(i as int).drop_last() == all.take(i - 1));
            i -= 1;
            if self.snapshots[i].file_path == key {
                return Some(self.snapshots[i].clone());
            }
        }
        None
    }

    /// The snapshots of `path`, most recent first.
    pub fn list_snapshots(&self, path: &str) -> (r: Vec<Snapshot>)
        ensures
            r.deep_view() == history(self@.snapshots, path@),
    {
        let key = path.to_owned();
        let ghost all = self@.snapshots;
        let mut out: Vec<Snapshot> = Vec::new();
        let mut i: usize = self.snapshots.len();
        assert(all.take(i as int) == all);
        assert(out.deep_view() + history(all, path@) =~= history(all, path@));
        while i > 0
            invariant
                i <= self.snapshots.len(),
                all == self@.snapshots,
                key@ == path@,
                history(all, path@) == out.deep_view() + history(all.take(i as int), path@),
            decreases i,
        {
            assert(all.take(i as int).drop_last() == all.take(i - 1));
            i -= 1;
            if self.snapshots[i].file_path == key {
                let ghost before = out.deep_view();
                out.push(self.snapshots[i].clone());
                assert(out.deep_view() =~= before.push(all[i as int]));
                assert(before + (seq![all[i as int]] + history(all.take(i as int), path@))
                    =~= out.deep_view() + history(all.take(i as int), path@));
            }
        }
        assert(out.deep_view() + history(all.take(0), path@) =~= out.deep_view());
        out
    }

    /// The snapshot of `path` with this id, if there is one.
    pub fn find_snapshot(&self, path: &str, id: &str) -> (r: Option<Snapshot>)
        ensures
            r.deep_view() == find(self@.snapshots, path@, id@),
    {
        let path_key = path.to_owned();
        let id_key = id.to_owned();
        let ghost all = self@.snapshots;
        let mut i: usize = self.snapshots.len();
        assert(all.take(i as int) == all);
        while i > 0
            invariant
                i <= self.snapshots.len(),
                all == self@.snapshots,
                path_key@ == path@,
                id_key@ == id@,
                find(all, path@, id@) == find(all.take(i as int), path@, id@),
            decreases i,
        {
            assert(all.take(i as int).drop_last() == all.take(i - 1));
            i -= 1;
            if self.snapshots[i].file_path == path_key && self.snapshots[i].id == id_key {
                return Some(self.snapshots[i].clone());
            }
        }
        None
    }

    /// Removes the snapshots that are older than `cutoff` and returns how
    /// many they were.
    pub fn delete_older_than(&mut self, cutoff: i64) -> (removed: usize)
        requires
            old(self).wf(),
        ensures
            final(self).wf(),
            final(self)@.sessions == old(self)@.sessions,
            final(self)@.snapshots == retained(old(self)@.snapshots, cutoff as int),
            removed == old(self)@.snapshots.len() - final(self)@.snapshots.len(),
    {
        let ghost before = self@;
        let mut k: usize = 0;
        while k < self.snapshots.len() && self.snapshots[k].timestamp < cutoff
            invariant
                k <= self.snapshots.len(),
                before == self@,
                forall|i: int| 0 <= i < k ==> (#[trigger] before.snapshots[i]).timestamp < cutoff,
            decreases self.snapshots.len() - k,
        {
            k += 1;
        }
        let tail = self.snapshots.split_off(k);
        self.snapshots = tail;
        proof {
            let after = self@;
            lemma_retained_is_suffix(before.snapshots, cutoff as int, k as int);
            assert(after.snapshots =~= before.snapshots.skip(k as int));
            assert(after.sessions == before.sessions);
            assert(unique_snapshots(after.snapshots)) by {
                assert forall|i: int, j: int| 0 <= i < j < after.snapshots.len() implies (
                #[trigger] after.snapshots[i]).id != (#[trigger] after.snapshots[j]).id by {
                    assert(before.snapshots[i + k].id != before.snapshots[j + k].id);
                }
            }
            assert(ordered_by_time(after.snapshots)) by {
                assert forall|i: int, j: int| 0 <= i < j < after.snapshots.len() implies (
                #[trigger] after.snapshots[i]).timestamp <= (
                #[trigger] after.snapshots[j]).timestamp by {
                    assert(before.snapshots[i + k].timestamp <= before.snapshots[j
                        + k].timestamp);
                }
            }
            assert forall|i: int| 0 <= i < after.snapshots.len() implies has_session(
                after.sessions,
                (#[trigger] after.snapshots[i]).session_id,
            ) by {
                assert(has_session(before.sessions, before.snapshots[i + k].session_id));
            }
        }
        k
    }

    /// The hash of every snapshot, in the order of the table. A hash that
    /// several snapshots share is listed once for each.
    pub fn referenced_hashes(&self) -> (r: Vec<String>)
        ensures
            r.deep_view() == hashes_of(self@.snapshots),
            r.deep_view().to_set() == referenced(self@.snapshots),
    {
        let mut out: Vec<String> = Vec::new();
        let mut i: usize = 0;
        while i < self.snapshots.len()
            invariant
                i <= self.snapshots.len(),
                out.deep_view() == hashes_of(self@.snapshots).take(i as int),
            decreases self.snapshots.len() - i,
        {
            let ghost before = out.deep_view();
            out.push(self.snapshots[i].content_hash.clone());
            assert(out.deep_view() =~= before.push(self@.snapshots[i as int].content_hash));
            i += 1;
            assert(out.deep_view() =~= hashes_of(self@.snapshots).take(i as int));
        }
        proof {
            assert(out.deep_view() =~= hashes_of(self@.snapshots));
            lemma_hashes_of(self@.snapshots);
        }
        out
    }

    /// Every snapshot, in the order of the table.
    pub fn snapshots(&self) -> (r: Vec<Snapshot>)
        ensures
            r.deep_view() == self@.snapshots,
    {
        let mut out: Vec<Snapshot> = Vec::new();
        let mut i: usize = 0;
        while i < self.snapshots.len()
            invariant
                i <= self.snapshots.len(),
                out.deep_view() == self@.snapshots.take(i as int),
            decreases self.snapshots.len() - i,
        {
            let ghost before = out.deep_view();
            out.push(self.snapshots[i].clone());
            assert(out.deep_view() =~= before.push(self@.snapshots[i as int]));
            i += 1;
            assert(out.deep_view() =~= self@.snapshots.take(i as int));
        }
        assert(out.deep_view() =~= self@.snapshots);
        out
    }

    /// Every session, in the order in which they were added.
    pub fn sessions(&self) -> (r: Vec<Session>)
        ensures
            r.deep_view() == self@.sessions,
    {
        let mut out: Vec<Session> = Vec::new();
        let mut i: usize = 0;
        while i < self.sessions.len()
            invariant
                i <= self.sessions.len(),
                out.deep_view() == self@.sessions.take(i as int),
            decreases self.sessions.len() - i,
        {
            let ghost before = out.deep_view();
            out.push(self.sessions[i].clone());
            assert(out.deep_view() =~= before.push(self@.sessions[i as int]));
            i += 1;
            assert(out.deep_view() =~= self@.sessions.take(i as int));
        }
        assert(out.deep_view() =~= self@.sessions);
        out
    }

    /// The number of snapshots in the store.
    pub fn snapshot_count(&self) -> (r: usize)
        ensures
            r == self@.snapshots.len(),
    {
        self.snapshots.len()
    }

    /// Adds a snapshot at its place in time. `StoreFailure`, and no change,
    /// where its id is taken or its session is not in the store.
    pub fn insert_snapshot(&mut self, snapshot: Snapshot) -> (r: Result<(), ErrorKind>)
        requires
            old(self).wf(),
        ensures
            final(self).wf(),
            match r {
                Ok(_) => accepts_snapshot(old(self)@, snapshot@) && final(self)@ == (DatabaseView {
                    sessions: old(self)@.sessions,
                    snapshots: with_snapshot(old(self)@.snapshots, snapshot@),
                }),
                Err(kind) => kind == ErrorKind::StoreFailure && !accepts_snapshot(
                    old(self)@,
                    snapshot@,
                ) && final(self)@ == old(self)@,
            },
    {
        if self.has_snapshot(snapshot.id.as_str()) || !self.has_session(
            snapshot.session_id.as_str(),
        ) {
            return Err(ErrorKind::StoreFailure);
        }
        let ghost before = self@;
        let ghost added = snapshot@;
        let mut p: usize = self.snapshots.len();
        assert(before.snapshots.take(p as int) == before.snapshots);
        while p > 0 && self.snapshots[p - 1].timestamp > snapshot.timestamp
            invariant
                p <= self.snapshots.len(),
                before == self@,
                added == snapshot@,
                insert_position(before.snapshots, added.timestamp) == insert_position(
                    before.snapshots.take(p as int),
                    added.timestamp,
                ),
            decreases p,
        {
            assert(before.snapshots.take(p as int).drop_last() == before.snapshots.take(p - 1));
            p -= 1;
        }
        assert(insert_position(before.snapshots, added.timestamp) == p);
        self.snapshots.insert(p, snapshot);
        proof {
            let after = self@;
            assert(after.snapshots =~= with_snapshot(before.snapshots, added));
            assert(after.sessions == before.sessions);
            lemma_with_snapshot_wf(before, added);
        }
        Ok(())
    }
}

} // verus!
