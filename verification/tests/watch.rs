use stasher::daemon::{should_index, ChangeEvent, ChangedPath, StasherDaemon};
use stasher::db::Database;
use stasher::error::{EngineError, ErrorKind, Operation};
use stasher::history::{HistoryManager, RecordOutcome};
use stasher::object_store::ObjectStore;
use stasher::paths::{find_root_with, find_stasher_root, join_path, parent_of, relative_path};
use stasher::search::{
    index_warning, IndexRequest, ResultBatch, SearchEngine, SearchHit, SearchRecord, TableAction,
};

fn daemon() -> StasherDaemon {
    StasherDaemon::new(
        HistoryManager::with_session(Database::init(), ObjectStore::new(), "/work", "s", 0)
            .unwrap(),
    )
}

fn named(path: &str, is_file: bool) -> ChangedPath {
    ChangedPath { path: path.to_string(), is_file }
}

fn strings(items: &[&str]) -> Vec<String> {
    items.iter().map(|s| s.to_string()).collect()
}

#[test]
fn should_index_leaves_out_stores_and_build_output() {
    assert!(should_index("/work/src/main.rs"));
    assert!(should_index("/work/.gitignore"));
    assert!(should_index("/work/targets/a"));
    assert!(should_index("target/a"));
    assert!(!should_index("/work/.git/HEAD"));
    assert!(!should_index("/work/.stasher/objects/ab"));
    assert!(!should_index("/work/target/debug/a"));
    assert!(!should_index("/work/sub/target/x"));
}

#[test]
fn should_watch_needs_a_regular_file() {
    let d = daemon();
    assert!(d.should_watch(&named("/work/a.rs", true)));
    assert!(!d.should_watch(&named("/work/a.rs", false)));
    assert!(!d.should_watch(&named("/work/.git/a", true)));
}

#[test]
fn watched_files_are_the_watched_paths_of_a_modification() {
    let d = daemon();
    let event = ChangeEvent {
        is_modify: true,
        paths: vec![
            named("/work/a.rs", true),
            named("/work/.stasher/metadata.db", true),
            named("/work/dir", false),
            named("/work/b.rs", true),
        ],
    };
    assert_eq!(d.watched_files(&event), vec!["/work/a.rs", "/work/b.rs"]);
    let other = ChangeEvent { is_modify: false, paths: vec![named("/work/a.rs", true)] };
    assert!(d.watched_files(&other).is_empty());
    assert!(d.watched_files(&ChangeEvent { is_modify: true, paths: vec![] }).is_empty());
}

#[test]
fn handle_event_reads_and_records_each_watched_file() {
    let mut d = daemon();
    let event = ChangeEvent {
        is_modify: true,
        paths: vec![
            named("/work/a.rs", true),
            named("/work/.git/index", true),
            named("/work/gone.rs", true),
            named("/work/b.rs", true),
        ],
    };
    let asked = std::cell::RefCell::new(Vec::new());
    let read = |path: &String| {
        asked.borrow_mut().push(path.clone());
        if path == "/work/gone.rs" {
            None
        } else {
            Some(format!("content of {}", path))
        }
    };
    let outcomes = d.handle_event(&event, &read);
    assert_eq!(asked.borrow().clone(), vec!["/work/a.rs", "/work/gone.rs", "/work/b.rs"]);
    assert_eq!(outcomes.len(), 3);
    assert!(matches!(outcomes[0], Ok(RecordOutcome::Recorded(_))));
    assert_eq!(
        outcomes[1],
        Err(EngineError {
            kind: ErrorKind::IoFailure,
            operation: Operation::RecordChange,
            path: "gone.rs".to_string(),
        })
    );
    assert!(matches!(outcomes[2], Ok(RecordOutcome::Recorded(_))));
    assert_eq!(
        d.handle_event(&event, &read),
        vec![
            Ok(RecordOutcome::Unchanged),
            Err(EngineError {
                kind: ErrorKind::IoFailure,
                operation: Operation::RecordChange,
                path: "gone.rs".to_string(),
            }),
            Ok(RecordOutcome::Unchanged)
        ]
    );
    let history = d.into_history();
    assert_eq!(history.db().snapshot_count(), 2);
    assert_eq!(history.restore("b.rs", None), Ok("content of /work/b.rs".to_string()));
}

#[test]
fn handle_event_ignores_what_is_not_a_modification() {
    let mut d = daemon();
    let event = ChangeEvent { is_modify: false, paths: vec![named("/work/a.rs", true)] };
    assert!(d.handle_event(&event, |_p: &String| Some("x".to_string())).is_empty());
    assert_eq!(d.history().db().snapshot_count(), 0);
}

#[test]
fn a_file_that_cannot_be_read_is_an_io_failure_and_records_nothing() {
    let mut d = daemon();
    assert_eq!(
        d.process_file_change("/work/a.rs", None),
        Err(EngineError {
            kind: ErrorKind::IoFailure,
            operation: Operation::RecordChange,
            path: "a.rs".to_string(),
        })
    );
    assert_eq!(d.history().db().snapshot_count(), 0);
    assert_eq!(d.history().objects().len(), 0);
}

#[test]
fn a_file_that_was_read_is_recorded() {
    let mut d = daemon();
    assert!(matches!(
        d.process_file_change("/work/a.rs", Some("fn main() {}\n")),
        Ok(RecordOutcome::Recorded(_))
    ));
    assert_eq!(
        d.process_file_change("/work/a.rs", Some("fn main() {}\n")),
        Ok(RecordOutcome::Unchanged)
    );
    let history = d.into_history();
    assert_eq!(history.restore("a.rs", None), Ok("fn main() {}\n".to_string()));
}

#[test]
fn relative_path_strips_the_root() {
    assert_eq!(relative_path("/work", "/work/a/b.txt"), "a/b.txt");
    assert_eq!(relative_path("/work/", "/work/a/b.txt"), "a/b.txt");
    assert_eq!(relative_path("/work", "/work//a"), "a");
    assert_eq!(relative_path("/work", "/work"), "");
    assert_eq!(relative_path("/work", "/workshop/a"), "/workshop/a");
    assert_eq!(relative_path("/work", "/other/a"), "/other/a");
    assert_eq!(relative_path("", "/other/a"), "/other/a");
    assert_eq!(relative_path("/work/deep/er", "/work"), "/work");
    assert_eq!(relative_path("/", "/a"), "a");
}

#[test]
fn parent_goes_up_one_directory() {
    assert_eq!(parent_of("/a/b/c"), Some("/a/b".to_string()));
    assert_eq!(parent_of("/a/b/"), Some("/a".to_string()));
    assert_eq!(parent_of("/a//b"), Some("/a".to_string()));
    assert_eq!(parent_of("/a"), Some("/".to_string()));
    assert_eq!(parent_of("/"), None);
    assert_eq!(parent_of("//"), None);
    assert_eq!(parent_of("a/b"), Some("a".to_string()));
    assert_eq!(parent_of("a"), Some("".to_string()));
    assert_eq!(parent_of(""), None);
}

#[test]
fn relative_path_agrees_with_the_standard_library_on_plain_paths() {
    let cases = [
        ("/work", "/work/a/b.txt"),
        ("/work/", "/work/a/b.txt"),
        ("/work", "/work//a"),
        ("/work", "/work"),
        ("/work", "/workshop/a"),
        ("/work", "/other/a"),
        ("", "/other/a"),
        ("/", "/a/b"),
        ("a/b", "a/b/c/d"),
        ("/work/deep", "/work"),
    ];
    for (base, path) in cases {
        let p = std::path::Path::new(path);
        let expected = p.strip_prefix(base).unwrap_or(p).to_string_lossy().to_string();
        assert_eq!(relative_path(base, path), expected, "{} under {}", path, base);
    }
}

#[test]
fn parent_agrees_with_the_standard_library_on_plain_paths() {
    for path in ["/a/b/c", "/a/b/", "/a//b", "/a", "/", "a/b", "a", "", "a/b/c.txt", "/x/y z/w"] {
        let expected =
            std::path::Path::new(path).parent().map(|p| p.to_string_lossy().to_string());
        assert_eq!(parent_of(path), expected, "parent of {:?}", path);
    }
}

#[test]
fn join_path_agrees_with_the_standard_library_on_plain_paths() {
    for (dir, name) in [("/a", ".stasher"), ("/", ".stasher"), ("", ".stasher"), ("a/", "b")] {
        let expected = std::path::Path::new(dir).join(name).to_string_lossy().to_string();
        assert_eq!(join_path(dir, name), expected);
    }
}

#[test]
fn join_path_puts_one_separator_between() {
    assert_eq!(join_path("/a", ".stasher"), "/a/.stasher");
    assert_eq!(join_path("/", ".stasher"), "/.stasher");
    assert_eq!(join_path("", ".stasher"), ".stasher");
    assert_eq!(join_path("a/", "b"), "a/b");
}

#[test]
fn find_root_with_returns_the_nearest_marked_directory() {
    assert_eq!(
        find_root_with("/a/b/c", |d: &String| d == "/a" || d == "/"),
        Some("/a".to_string())
    );
    assert_eq!(find_root_with("/a/b/c", |d: &String| d == "/a/b/c"), Some("/a/b/c".to_string()));
    assert_eq!(find_root_with("/a/b/c", |d: &String| d == "/"), Some("/".to_string()));
    assert_eq!(find_root_with("a/b", |d: &String| d.is_empty()), Some("".to_string()));
    assert_eq!(find_root_with("/a/b/c", |_d: &String| false), None);
    assert_eq!(find_root_with("", |_d: &String| false), None);
}

#[test]
fn find_root_with_asks_each_directory_on_the_way_up_once() {
    let asked = std::cell::RefCell::new(Vec::new());
    let found = find_root_with("/a/b/c", |d: &String| {
        asked.borrow_mut().push(d.clone());
        false
    });
    assert_eq!(found, None);
    assert_eq!(asked.into_inner(), vec!["/a/b/c", "/a/b", "/a", "/"]);
}

#[test]
fn find_stasher_root_finds_nothing_where_nothing_is() {
    assert_eq!(find_stasher_root("/no-such-directory-for-stasher/a/b"), None);
}

#[test]
fn the_index_works_on_its_table() {
    let engine = SearchEngine::new();
    assert_eq!(engine.table_name(), "snapshots_v1");
    assert_eq!(engine.dimension(), 768);
    assert!(engine.has_table(&strings(&["other", "snapshots_v1"])));
    assert!(!engine.has_table(&strings(&["snapshots_v2"])));
    assert!(!engine.has_table(&Vec::new()));
}

#[test]
fn index_snapshot_creates_the_table_for_the_first_row() {
    let engine = SearchEngine::new();
    let vector: Vec<u32> = (0..768).collect();
    let request = engine.index_snapshot(
        "id-1".to_string(),
        "a.txt".to_string(),
        "content".to_string(),
        vec![vector.clone(), vec![7]],
        &Vec::new(),
    );
    assert_eq!(
        request,
        Ok(IndexRequest {
            action: TableAction::Create,
            record: SearchRecord {
                snapshot_id: "id-1".to_string(),
                file_path: "a.txt".to_string(),
                content: "content".to_string(),
                vector,
            },
        })
    );
}

#[test]
fn index_snapshot_appends_to_an_existing_table() {
    let engine = SearchEngine::new();
    let request = engine
        .index_snapshot(
            "id-1".to_string(),
            "a.txt".to_string(),
            "content".to_string(),
            vec![vec![1; 768]],
            &strings(&["snapshots_v1"]),
        )
        .unwrap();
    assert_eq!(request.action, TableAction::Append);
    assert_eq!(request.record.vector, vec![1; 768]);
}

#[test]
fn index_snapshot_refuses_a_missing_or_misshapen_embedding() {
    let engine = SearchEngine::new();
    let failure = EngineError {
        kind: ErrorKind::StoreFailure,
        operation: Operation::Index,
        path: "a.txt".to_string(),
    };
    let tables = strings(&["snapshots_v1"]);
    assert_eq!(
        engine.index_snapshot(
            "i".to_string(),
            "a.txt".to_string(),
            "c".to_string(),
            vec![],
            &tables
        ),
        Err(failure.clone())
    );
    assert_eq!(
        engine.index_snapshot(
            "i".to_string(),
            "a.txt".to_string(),
            "c".to_string(),
            vec![vec![0; 767]],
            &tables
        ),
        Err(failure)
    );
}

fn batch(ids: &[&str], paths: &[&str], contents: &[&str], distances: &[f32]) -> ResultBatch {
    ResultBatch {
        snapshot_ids: Some(strings(ids)),
        file_paths: Some(strings(paths)),
        contents: Some(strings(contents)),
        distances: Some(distances.iter().map(|d| d.to_bits()).collect()),
        num_rows: ids.len(),
    }
}

fn hit(id: &str, path: &str, content: &str, distance: f32) -> SearchHit {
    SearchHit {
        snapshot_id: id.to_string(),
        file_path: path.to_string(),
        content: content.to_string(),
        score: distance.to_bits(),
    }
}

fn ids_of(hits: &[SearchHit]) -> Vec<String> {
    hits.iter().map(|h| h.snapshot_id.clone()).collect()
}

#[test]
fn search_without_a_table_is_empty() {
    assert_eq!(SearchEngine::new().search(None, 5), Ok(vec![]));
}

#[test]
fn search_returns_the_nearest_first() {
    let batches = vec![
        batch(
            &["recipe", "migration"],
            &["b", "a"],
            &["coffee recipe", "database migration"],
            &[1.25, 0.5],
        ),
        batch(&[], &[], &[], &[]),
        batch(&["third"], &["c"], &["third"], &[0.75]),
    ];
    assert_eq!(
        SearchEngine::new().search(Some(&batches), 5),
        Ok(vec![
            hit("migration", "a", "database migration", 0.5),
            hit("third", "c", "third", 0.75),
            hit("recipe", "b", "coffee recipe", 1.25)
        ])
    );
    assert_eq!(SearchEngine::new().search(Some(&Vec::new()), 5), Ok(vec![]));
}

#[test]
fn search_keeps_the_order_of_hits_at_equal_distance() {
    let batches = vec![
        batch(&["1", "2", "3"], &["a", "b", "c"], &["x", "y", "z"], &[0.5, 0.25, 0.5]),
        batch(&["4", "5"], &["d", "e"], &["v", "w"], &[0.25, 0.5]),
    ];
    let hits = SearchEngine::new().search(Some(&batches), 10).unwrap();
    assert_eq!(ids_of(&hits), vec!["2", "4", "1", "3", "5"]);
}

#[test]
fn search_orders_distances_as_numbers() {
    let distances = [2.0, 0.0, -1.5, f32::INFINITY, -0.0, 1.0e-30, -3.0, f32::MAX, 0.5];
    let names: Vec<String> = (0..distances.len()).map(|i| i.to_string()).collect();
    let refs: Vec<&str> = names.iter().map(|s| s.as_str()).collect();
    let batches = vec![batch(&refs, &refs, &refs, &distances)];
    let hits = SearchEngine::new().search(Some(&batches), distances.len()).unwrap();
    let found: Vec<f32> = hits.iter().map(|h| f32::from_bits(h.score)).collect();
    let mut expected = distances.to_vec();
    expected.sort_by(|a, b| a.total_cmp(b));
    assert_eq!(found.len(), expected.len());
    for (a, b) in found.iter().zip(expected.iter()) {
        assert_eq!(a.to_bits(), b.to_bits());
    }
}

#[test]
fn search_returns_no_more_than_the_limit() {
    let batches = vec![
        batch(&["1", "2"], &["a", "b"], &["x", "y"], &[0.75, 0.5]),
        batch(&["3"], &["c"], &["z"], &[0.25]),
    ];
    assert_eq!(
        SearchEngine::new().search(Some(&batches), 2),
        Ok(vec![hit("3", "c", "z", 0.25), hit("2", "b", "y", 0.5)])
    );
    assert_eq!(SearchEngine::new().search(Some(&batches), 1), Ok(vec![hit("3", "c", "z", 0.25)]));
    assert_eq!(SearchEngine::new().search(Some(&batches), 0), Ok(vec![]));
}

#[test]
fn search_fails_on_a_missing_column_and_names_it() {
    let failure = |column: &str| EngineError {
        kind: ErrorKind::StoreFailure,
        operation: Operation::Search,
        path: column.to_string(),
    };
    let good = batch(&["1"], &["a"], &["x"], &[0.5]);
    let mut no_ids = batch(&["2"], &["b"], &["y"], &[0.5]);
    no_ids.snapshot_ids = None;
    no_ids.contents = None;
    assert_eq!(
        SearchEngine::new().search(Some(&vec![good, no_ids]), 5),
        Err(failure("snapshot_id"))
    );
    let mut no_paths = batch(&["2"], &["b"], &["y"], &[0.5]);
    no_paths.file_paths = None;
    assert_eq!(SearchEngine::new().search(Some(&vec![no_paths]), 0), Err(failure("file_path")));
    let mut short_contents = batch(&["2", "3"], &["b", "c"], &["y"], &[0.5, 0.5]);
    short_contents.num_rows = 2;
    assert_eq!(SearchEngine::new().search(Some(&vec![short_contents]), 5), Err(failure("content")));
    let mut no_distances = batch(&["2"], &["b"], &["y"], &[0.5]);
    no_distances.distances = None;
    assert_eq!(SearchEngine::new().search(Some(&vec![no_distances]), 5), Err(failure("_distance")));
    let short_distances = batch(&["2", "3"], &["b", "c"], &["y", "z"], &[0.5]);
    assert_eq!(
        SearchEngine::new().search(Some(&vec![short_distances]), 5),
        Err(failure("_distance"))
    );
}

#[test]
fn a_failure_to_index_is_a_warning() {
    assert_eq!(index_warning(&Ok(())), None);
    let failure = EngineError::new(ErrorKind::StoreFailure, Operation::Index, "a.txt");
    assert_eq!(
        index_warning(&Err(failure)),
        Some("Failed to index snapshot: index 'a.txt': store failure".to_string())
    );
}
