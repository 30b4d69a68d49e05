use stasher::db::{Database, Session, Snapshot};
use stasher::error::ErrorKind;
use stasher::object_store::ObjectStore;

fn session(id: &str) -> Session {
    Session { id: id.to_string(), start_time: 1, end_time: None, meta: None }
}

fn snapshot(id: &str, path: &str, timestamp: i64, hash: &str) -> Snapshot {
    Snapshot {
        id: id.to_string(),
        session_id: "s".to_string(),
        file_path: path.to_string(),
        timestamp,
        diff_patch: format!("patch of {}", id),
        content_hash: hash.to_string(),
        lines_added: 1,
        lines_removed: 2,
    }
}

fn db_with(snapshots: Vec<Snapshot>) -> Database {
    let mut db = Database::init();
    db.insert_session(session("s")).unwrap();
    for s in snapshots {
        db.insert_snapshot(s).unwrap();
    }
    db
}

fn ids(snapshots: &[Snapshot]) -> Vec<String> {
    snapshots.iter().map(|s| s.id.clone()).collect()
}

#[test]
fn put_files_content_under_its_blake3_hash() {
    let mut store = ObjectStore::new();
    assert_eq!(
        store.put(""),
        "af1349b9f5f9a1a6a0404dea36dcc9499bcb25c9adc112b7cc9a93cae41f3262"
    );
    assert_eq!(
        store.put("foo"),
        "04e0bb39f30b1a3feb89f536c93be15055482df748674b00d26e5a75777702e9"
    );
    assert_eq!(store.len(), 2);
}

#[test]
fn put_then_get_returns_the_content() {
    let mut store = ObjectStore::new();
    let hash = store.put("hello\n");
    assert_eq!(store.get(&hash), Ok("hello\n".to_string()));
    assert!(store.contains(&hash));
}

#[test]
fn put_of_the_same_content_is_a_no_op() {
    let mut store = ObjectStore::new();
    let first = store.put("twice");
    let second = store.put("twice");
    assert_eq!(first, second);
    assert_eq!(store.len(), 1);
    assert_eq!(store.get(&first), Ok("twice".to_string()));
}

#[test]
fn get_of_unknown_hash_is_not_found() {
    let store = ObjectStore::new();
    assert_eq!(store.get("00"), Err(ErrorKind::NotFound));
    assert!(!store.contains("00"));
}

#[test]
fn delete_removes_the_object_and_says_whether_it_was_there() {
    let mut store = ObjectStore::new();
    let a = store.put("a");
    let b = store.put("b");
    let c = store.put("c");
    assert!(store.delete(&b));
    assert!(!store.delete(&b));
    assert_eq!(store.len(), 2);
    assert_eq!(store.get(&a), Ok("a".to_string()));
    assert_eq!(store.get(&b), Err(ErrorKind::NotFound));
    assert_eq!(store.get(&c), Ok("c".to_string()));
}

#[test]
fn retain_keeps_exactly_the_named_objects() {
    let mut store = ObjectStore::new();
    let a = store.put("a");
    let b = store.put("b");
    let c = store.put("c");
    let d = store.put("d");
    let keep = vec![c.clone(), "unknown".to_string(), a.clone(), c.clone()];
    assert_eq!(store.retain(&keep), 2);
    assert_eq!(store.len(), 2);
    assert!(store.contains(&a));
    assert!(!store.contains(&b));
    assert_eq!(store.get(&c), Ok("c".to_string()));
    assert!(!store.contains(&d));
    assert_eq!(store.retain(&Vec::new()), 2);
    assert_eq!(store.len(), 0);
}

#[test]
fn init_gives_empty_tables() {
    let db = Database::init();
    assert_eq!(db.snapshot_count(), 0);
    assert!(db.sessions().is_empty());
    assert!(db.snapshots().is_empty());
    assert!(db.referenced_hashes().is_empty());
    assert_eq!(db.latest_snapshot("a"), None);
}

#[test]
fn a_session_id_is_taken_once() {
    let mut db = Database::init();
    assert_eq!(db.insert_session(session("s")), Ok(()));
    assert!(db.has_session("s"));
    assert!(!db.has_session("t"));
    assert_eq!(db.insert_session(session("s")), Err(ErrorKind::StoreFailure));
    assert_eq!(db.sessions().len(), 1);
}

#[test]
fn close_session_sets_the_end_of_an_open_session() {
    let mut db = Database::init();
    db.insert_session(session("s")).unwrap();
    db.insert_session(session("t")).unwrap();
    assert_eq!(db.close_session("t", 99), Ok(()));
    let sessions = db.sessions();
    assert_eq!(sessions[0].end_time, None);
    assert_eq!(sessions[1].end_time, Some(99));
    assert_eq!(sessions[1].start_time, 1);
    assert_eq!(db.close_session("t", 100), Err(ErrorKind::StoreFailure));
    assert_eq!(db.sessions()[1].end_time, Some(99));
    assert_eq!(db.close_session("nobody", 100), Err(ErrorKind::NotFound));
}

#[test]
fn insert_snapshot_refuses_a_taken_id_and_an_unknown_session() {
    let mut db = db_with(vec![snapshot("1", "a", 10, "h1")]);
    assert_eq!(db.insert_snapshot(snapshot("1", "b", 20, "h2")), Err(ErrorKind::StoreFailure));
    let mut stranger = snapshot("2", "b", 20, "h2");
    stranger.session_id = "nobody".to_string();
    assert_eq!(db.insert_snapshot(stranger), Err(ErrorKind::StoreFailure));
    assert_eq!(db.snapshot_count(), 1);
    assert!(db.has_snapshot("1"));
    assert!(!db.has_snapshot("2"));
}

#[test]
fn snapshots_stand_in_the_order_of_time() {
    let db = db_with(vec![
        snapshot("c", "a", 30, "h"),
        snapshot("a", "a", 10, "h"),
        snapshot("b", "b", 20, "h"),
        snapshot("b2", "a", 20, "h"),
        snapshot("z", "a", -5, "h"),
    ]);
    assert_eq!(ids(&db.snapshots()), vec!["z", "a", "b", "b2", "c"]);
}

#[test]
fn latest_and_history_go_by_path() {
    let db = db_with(vec![
        snapshot("1", "a", 10, "h1"),
        snapshot("2", "b", 20, "h2"),
        snapshot("3", "a", 30, "h3"),
        snapshot("4", "b", 40, "h4"),
    ]);
    assert_eq!(db.latest_snapshot("a").map(|s| s.id), Some("3".to_string()));
    assert_eq!(db.latest_snapshot("b").map(|s| s.id), Some("4".to_string()));
    assert_eq!(db.latest_snapshot("c"), None);
    assert_eq!(ids(&db.list_snapshots("a")), vec!["3", "1"]);
    assert_eq!(ids(&db.list_snapshots("b")), vec!["4", "2"]);
    assert!(db.list_snapshots("c").is_empty());
    assert_eq!(db.list_snapshots("a")[1], snapshot("1", "a", 10, "h1"));
}

#[test]
fn find_needs_both_path_and_id() {
    let db = db_with(vec![snapshot("1", "a", 10, "h1"), snapshot("2", "b", 20, "h2")]);
    assert_eq!(db.find_snapshot("a", "1"), Some(snapshot("1", "a", 10, "h1")));
    assert_eq!(db.find_snapshot("a", "2"), None);
    assert_eq!(db.find_snapshot("b", "1"), None);
    assert_eq!(db.find_snapshot("a", "3"), None);
}

#[test]
fn delete_older_than_removes_what_is_before_the_cutoff() {
    let mut db = db_with(vec![
        snapshot("1", "a", 10, "h1"),
        snapshot("2", "b", 20, "h2"),
        snapshot("3", "a", 20, "h3"),
        snapshot("4", "b", 40, "h1"),
    ]);
    assert_eq!(db.delete_older_than(10), 0);
    assert_eq!(db.delete_older_than(20), 1);
    assert_eq!(ids(&db.snapshots()), vec!["2", "3", "4"]);
    assert_eq!(db.referenced_hashes(), vec!["h2", "h3", "h1"]);
    assert_eq!(db.delete_older_than(21), 2);
    assert_eq!(ids(&db.snapshots()), vec!["4"]);
    assert_eq!(db.delete_older_than(i64::MAX), 1);
    assert_eq!(db.snapshot_count(), 0);
    assert_eq!(db.sessions().len(), 1);
}

#[test]
fn referenced_hashes_lists_a_shared_hash_for_each_snapshot() {
    let db = db_with(vec![
        snapshot("1", "a", 10, "h1"),
        snapshot("2", "b", 20, "h1"),
        snapshot("3", "a", 30, "h2"),
    ]);
    assert_eq!(db.referenced_hashes(), vec!["h1", "h1", "h2"]);
}
