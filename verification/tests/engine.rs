use stasher::db::{Database, Session, Snapshot};
use stasher::error::{EngineError, ErrorKind, Operation};
use stasher::history::{HistoryManager, RecordOutcome, TrackedFile};
use stasher::object_store::ObjectStore;

const DAY: i64 = 86_400_000;

fn engine() -> HistoryManager {
    HistoryManager::with_session(Database::init(), ObjectStore::new(), "/work", "session-1", 1_000)
        .unwrap()
}

fn recorded(outcome: Result<RecordOutcome, EngineError>) -> Snapshot {
    match outcome {
        Ok(RecordOutcome::Recorded(snapshot)) => snapshot,
        other => panic!("expected a recorded snapshot, got {:?}", other),
    }
}

#[test]
fn recording_unchanged_content_twice_gives_one_snapshot() {
    let mut e = engine();
    let first = e.record_change_at("/work/x.txt", "same\n", "id-1", 2_000);
    assert!(matches!(first, Ok(RecordOutcome::Recorded(_))));
    let second = e.record_change_at("/work/x.txt", "same\n", "id-2", 3_000);
    assert_eq!(second, Ok(RecordOutcome::Unchanged));
    assert_eq!(e.list_snapshots("x.txt").len(), 1);
    assert_eq!(e.db().snapshot_count(), 1);
    assert_eq!(e.objects().len(), 1);
}

#[test]
fn identical_content_at_two_paths_is_stored_once() {
    let mut e = engine();
    let a = recorded(e.record_change_at("/work/a.txt", "shared", "id-1", 2_000));
    let b = recorded(e.record_change_at("/work/b.txt", "shared", "id-2", 2_001));
    assert_eq!(a.content_hash, b.content_hash);
    assert_eq!(e.db().snapshot_count(), 2);
    assert_eq!(e.objects().len(), 1);
    assert!(e.objects().contains(&a.content_hash));
}

#[test]
fn restore_without_id_returns_the_most_recent_content() {
    let mut e = engine();
    recorded(e.record_change_at("/work/f.txt", "one", "id-1", 10));
    recorded(e.record_change_at("/work/f.txt", "two\nlines\n", "id-2", 20));
    recorded(e.record_change_at("/work/f.txt", "three", "id-3", 30));
    assert_eq!(e.restore("f.txt", None), Ok("three".to_string()));
}

#[test]
fn restore_with_id_returns_the_content_of_that_snapshot() {
    let mut e = engine();
    recorded(e.record_change_at("/work/f.txt", "one", "id-1", 10));
    recorded(e.record_change_at("/work/f.txt", "two\nlines\n", "id-2", 20));
    recorded(e.record_change_at("/work/f.txt", "three", "id-3", 30));
    assert_eq!(e.restore("f.txt", Some("id-1")), Ok("one".to_string()));
    assert_eq!(e.restore("f.txt", Some("id-2")), Ok("two\nlines\n".to_string()));
    assert_eq!(e.restore("f.txt", Some("id-3")), Ok("three".to_string()));
}

#[test]
fn restore_of_unknown_path_is_not_found() {
    let e = engine();
    assert_eq!(
        e.restore("nothing.txt", None),
        Err(EngineError {
            kind: ErrorKind::NotFound,
            operation: Operation::Restore,
            path: "nothing.txt".to_string(),
        })
    );
    assert_eq!(e.restore("nothing.txt", Some("id-1")).unwrap_err().kind, ErrorKind::NotFound);
}

#[test]
fn restore_of_unknown_snapshot_id_is_a_distinct_error() {
    let mut e = engine();
    recorded(e.record_change_at("/work/f.txt", "one", "id-1", 10));
    recorded(e.record_change_at("/work/g.txt", "other", "id-2", 20));
    let missing = e.restore("f.txt", Some("no-such-id")).unwrap_err();
    assert_eq!(missing.kind, ErrorKind::UnknownSnapshot);
    assert_eq!(missing.operation, Operation::Restore);
    assert_eq!(missing.path, "f.txt");
    let foreign = e.restore("f.txt", Some("id-2")).unwrap_err();
    assert_eq!(foreign.kind, ErrorKind::UnknownSnapshot);
}

#[test]
fn restore_with_a_missing_object_is_an_integrity_violation() {
    let mut db = Database::init();
    db.insert_session(Session {
        id: "old-session".to_string(),
        start_time: 0,
        end_time: None,
        meta: None,
    })
    .unwrap();
    db.insert_snapshot(Snapshot {
        id: "id-1".to_string(),
        session_id: "old-session".to_string(),
        file_path: "f.txt".to_string(),
        timestamp: 5,
        diff_patch: String::new(),
        content_hash: "feedface".to_string(),
        lines_added: 0,
        lines_removed: 0,
    })
    .unwrap();
    let e = HistoryManager::with_session(db, ObjectStore::new(), "/work", "session-1", 10).unwrap();
    assert_eq!(
        e.restore("f.txt", None),
        Err(EngineError {
            kind: ErrorKind::IntegrityViolation,
            operation: Operation::Restore,
            path: "f.txt".to_string(),
        })
    );
}

#[test]
fn a_missing_prior_object_is_diffed_as_empty() {
    let mut db = Database::init();
    db.insert_session(Session {
        id: "old-session".to_string(),
        start_time: 0,
        end_time: None,
        meta: None,
    })
    .unwrap();
    db.insert_snapshot(Snapshot {
        id: "id-1".to_string(),
        session_id: "old-session".to_string(),
        file_path: "f.txt".to_string(),
        timestamp: 5,
        diff_patch: String::new(),
        content_hash: "feedface".to_string(),
        lines_added: 0,
        lines_removed: 0,
    })
    .unwrap();
    let mut e =
        HistoryManager::with_session(db, ObjectStore::new(), "/work", "session-1", 10).unwrap();
    let s = recorded(e.record_change_at("/work/f.txt", "a\nb\n", "id-2", 20));
    assert_eq!(s.lines_added, 2);
    assert_eq!(s.lines_removed, 0);
    assert_eq!(s.diff_patch, "@@ -0,0 +1,2 @@\n+a\n+b\n");
}

#[test]
fn first_snapshot_of_three_lines_adds_three() {
    let mut e = engine();
    let s = recorded(e.record_change_at("/work/new.txt", "a\nb\nc", "id-1", 2_000));
    assert_eq!(s.lines_added, 3);
    assert_eq!(s.lines_removed, 0);
    assert_eq!(s.file_path, "new.txt");
    assert_eq!(s.session_id, "session-1");
    assert_eq!(s.timestamp, 2_000);
    assert_eq!(s.id, "id-1");
    assert_eq!(s.diff_patch, "--- /dev/null\n+++ new.txt\n@@ -0,0 +1,3 @@\n+a\n+b\n+c");
}

#[test]
fn foo_bar_foo_scenario() {
    let mut e = engine();
    let first = recorded(e.record_change_at("/work/x.txt", "foo", "id-1", 100));
    assert_eq!(e.list_snapshots("x.txt").len(), 1);
    let h1 = first.content_hash.clone();

    let second = recorded(e.record_change_at("/work/x.txt", "bar", "id-2", 200));
    let h2 = second.content_hash.clone();
    assert_ne!(h1, h2);
    assert_eq!(second.lines_added, 1);
    assert_eq!(second.lines_removed, 1);
    assert!(second.diff_patch.contains("-foo"));
    assert!(second.diff_patch.contains("+bar"));
    assert_eq!(e.objects().len(), 2);

    let third = recorded(e.record_change_at("/work/x.txt", "foo", "id-3", 300));
    assert_eq!(third.content_hash, h1);
    assert_eq!(e.objects().len(), 2);

    let listed = e.list_snapshots("x.txt");
    assert_eq!(listed.len(), 3);
    assert_eq!(listed[0].id, "id-3");
    assert_eq!(listed[1].id, "id-2");
    assert_eq!(listed[2].id, "id-1");
    assert_eq!(listed[0], third);
}

#[test]
fn a_taken_snapshot_id_is_a_store_failure_and_records_nothing() {
    let mut e = engine();
    recorded(e.record_change_at("/work/a.txt", "one", "id-1", 10));
    let again = e.record_change_at("/work/b.txt", "two", "id-1", 20);
    assert_eq!(
        again,
        Err(EngineError {
            kind: ErrorKind::StoreFailure,
            operation: Operation::RecordChange,
            path: "b.txt".to_string(),
        })
    );
    assert_eq!(e.db().snapshot_count(), 1);
    assert!(e.list_snapshots("b.txt").is_empty());
}

#[test]
fn record_change_draws_its_own_id_and_time() {
    let mut e = engine();
    let a = recorded(e.record_change("/work/a.txt", "one"));
    let b = recorded(e.record_change("/work/a.txt", "two"));
    assert_ne!(a.id, b.id);
    assert_eq!(a.id.len(), 36);
    assert!(a.timestamp > 1_600_000_000_000);
    assert!(b.timestamp >= a.timestamp);
    assert_eq!(e.record_change("/work/a.txt", "two"), Ok(RecordOutcome::Unchanged));
    assert_eq!(e.restore("a.txt", None), Ok("two".to_string()));
}

#[test]
fn a_path_outside_the_root_keeps_its_name() {
    let mut e = engine();
    let s = recorded(e.record_change_at("/elsewhere/a.txt", "one", "id-1", 10));
    assert_eq!(s.file_path, "/elsewhere/a.txt");
}

#[test]
fn prune_removes_old_snapshots_and_only_unreferenced_objects() {
    let mut e = engine();
    let old_a = recorded(e.record_change_at("/work/a.txt", "shared", "id-1", 1 * DAY));
    let old_b = recorded(e.record_change_at("/work/b.txt", "only old", "id-2", 2 * DAY));
    let new_b = recorded(e.record_change_at("/work/b.txt", "shared", "id-3", 50 * DAY));
    let new_c = recorded(e.record_change_at("/work/c.txt", "fresh", "id-4", 51 * DAY));
    assert_eq!(old_a.content_hash, new_b.content_hash);
    assert_eq!(e.objects().len(), 3);

    let (snapshots, objects) = e.prune_at(30, 60 * DAY);
    assert_eq!((snapshots, objects), (2, 1));
    assert_eq!(e.db().snapshot_count(), 2);
    assert_eq!(e.objects().len(), 2);
    assert!(e.objects().contains(&new_b.content_hash));
    assert!(e.objects().contains(&new_c.content_hash));
    assert!(!e.objects().contains(&old_b.content_hash));
    assert_eq!(e.restore("b.txt", None), Ok("shared".to_string()));
    assert_eq!(e.restore("c.txt", Some("id-4")), Ok("fresh".to_string()));
    assert_eq!(e.restore("a.txt", None).unwrap_err().kind, ErrorKind::NotFound);
    assert_eq!(e.restore("b.txt", Some("id-2")).unwrap_err().kind, ErrorKind::UnknownSnapshot);
}

#[test]
fn prune_keeps_a_snapshot_exactly_at_the_horizon() {
    let mut e = engine();
    recorded(e.record_change_at("/work/a.txt", "a", "id-1", 30 * DAY - 1));
    recorded(e.record_change_at("/work/b.txt", "b", "id-2", 30 * DAY));
    assert_eq!(e.prune_at(30, 60 * DAY), (1, 1));
    assert_eq!(e.list_snapshots("b.txt").len(), 1);
    assert_eq!(e.prune_at(30, 60 * DAY), (0, 0));
}

#[test]
fn prune_with_a_horizon_before_all_time_removes_nothing() {
    let mut e = engine();
    recorded(e.record_change_at("/work/a.txt", "a", "id-1", i64::MIN));
    recorded(e.record_change_at("/work/b.txt", "b", "id-2", 5));
    assert_eq!(e.prune_at(u32::MAX, i64::MIN), (0, 0));
    assert_eq!(e.prune_at(0, i64::MIN), (0, 0));
    assert_eq!(e.prune_at(0, 6), (2, 2));
}

#[test]
fn prune_sweeps_objects_that_no_snapshot_refers_to() {
    let mut objects = ObjectStore::new();
    let orphan = objects.put("orphan");
    let mut e =
        HistoryManager::with_session(Database::init(), objects, "/work", "session-1", 0).unwrap();
    recorded(e.record_change_at("/work/a.txt", "kept", "id-1", 10 * DAY));
    assert_eq!(e.prune_at(1, 10 * DAY), (0, 1));
    assert!(!e.objects().contains(&orphan));
    assert_eq!(e.restore("a.txt", None), Ok("kept".to_string()));
}

#[test]
fn prune_draws_its_own_time() {
    let mut e = engine();
    recorded(e.record_change_at("/work/a.txt", "ancient", "id-1", 1_000));
    recorded(e.record_change("/work/b.txt", "current"));
    assert_eq!(e.prune(30), (1, 1));
    assert_eq!(e.restore("b.txt", None), Ok("current".to_string()));
}

#[test]
fn a_snapshot_taken_while_the_clock_ran_backwards_is_not_the_most_recent() {
    let mut e = engine();
    recorded(e.record_change_at("/work/a.txt", "late", "id-1", 100));
    recorded(e.record_change_at("/work/a.txt", "early", "id-2", 50));
    let listed = e.list_snapshots("a.txt");
    assert_eq!(listed[0].id, "id-1");
    assert_eq!(listed[1].id, "id-2");
    assert_eq!(e.restore("a.txt", None), Ok("late".to_string()));
    assert_eq!(e.restore("a.txt", Some("id-2")), Ok("early".to_string()));
}

#[test]
fn unchanged_content_is_recorded_again_while_the_clock_runs_backwards() {
    let mut e = engine();
    recorded(e.record_change_at("/work/a.txt", "late", "id-1", 100));
    recorded(e.record_change_at("/work/a.txt", "early", "id-2", 50));
    recorded(e.record_change_at("/work/a.txt", "early", "id-3", 60));
    assert_eq!(e.list_snapshots("a.txt").len(), 3);
    assert_eq!(e.objects().len(), 2);
    assert_eq!(e.record_change_at("/work/a.txt", "late", "id-4", 70), Ok(RecordOutcome::Unchanged));
}

#[test]
fn snapshots_with_equal_timestamps_keep_the_order_of_insertion() {
    let mut e = engine();
    recorded(e.record_change_at("/work/a.txt", "1", "id-1", 7));
    recorded(e.record_change_at("/work/a.txt", "2", "id-2", 7));
    recorded(e.record_change_at("/work/a.txt", "3", "id-3", 7));
    let listed = e.list_snapshots("a.txt");
    assert_eq!(listed[0].id, "id-3");
    assert_eq!(listed[2].id, "id-1");
    assert_eq!(e.restore("a.txt", None), Ok("3".to_string()));
}

#[test]
fn sync_all_records_every_file_once() {
    let mut e = engine();
    let files = vec![
        TrackedFile { path: "/work/a.txt".to_string(), content: "a".to_string() },
        TrackedFile { path: "/work/sub/b.txt".to_string(), content: "b\n".to_string() },
        TrackedFile { path: "/work/c.txt".to_string(), content: "a".to_string() },
    ];
    let outcomes = e.sync_all(&files);
    assert_eq!(outcomes.len(), 3);
    for outcome in &outcomes {
        assert!(matches!(outcome, Ok(RecordOutcome::Recorded(_))));
    }
    assert_eq!(e.db().snapshot_count(), 3);
    assert_eq!(e.objects().len(), 2);
    assert_eq!(e.list_snapshots("sub/b.txt").len(), 1);
    let again = e.sync_all(&files);
    assert_eq!(
        again,
        vec![
            Ok(RecordOutcome::Unchanged),
            Ok(RecordOutcome::Unchanged),
            Ok(RecordOutcome::Unchanged)
        ]
    );
    assert_eq!(e.db().snapshot_count(), 3);
}

#[test]
fn a_new_engine_opens_a_session() {
    let e = engine();
    assert_eq!(e.session_id(), "session-1");
    assert_eq!(e.base_path(), "/work");
    assert_eq!(
        e.db().sessions(),
        vec![Session { id: "session-1".to_string(), start_time: 1_000, end_time: None, meta: None }]
    );
}

#[test]
fn a_taken_session_id_is_a_store_failure() {
    let e = engine();
    let (db, objects) = e.into_stores();
    let again = HistoryManager::with_session(db, objects, "/work", "session-1", 2_000);
    assert_eq!(
        again.err(),
        Some(EngineError {
            kind: ErrorKind::StoreFailure,
            operation: Operation::OpenSession,
            path: "/work".to_string(),
        })
    );
}

#[test]
fn new_draws_a_fresh_session_id() {
    let first = HistoryManager::new(Database::init(), ObjectStore::new(), "/work").unwrap();
    let id = first.session_id().to_string();
    assert_eq!(id.len(), 36);
    let (db, objects) = first.into_stores();
    let second = HistoryManager::new(db, objects, "/work").unwrap();
    assert_ne!(second.session_id(), id);
    assert_eq!(second.db().sessions().len(), 2);
}

#[test]
fn ending_a_session_sets_its_end_once() {
    let mut e = engine();
    assert_eq!(e.end_session_at(9_000), Ok(()));
    assert_eq!(e.db().sessions()[0].end_time, Some(9_000));
    assert_eq!(
        e.end_session_at(9_500),
        Err(EngineError {
            kind: ErrorKind::StoreFailure,
            operation: Operation::CloseSession,
            path: "/work".to_string(),
        })
    );
    assert_eq!(e.db().sessions()[0].end_time, Some(9_000));
}

#[test]
fn end_session_draws_its_own_time() {
    let mut e = engine();
    assert_eq!(e.end_session(), Ok(()));
    assert!(e.db().sessions()[0].end_time.unwrap() > 1_600_000_000_000);
}
