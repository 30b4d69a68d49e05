//! The watching side of the engine: which change events lead to a
//! recording, and what becomes of a file that was reported as changed.
//!
//! The watch itself, and the reading of a changed file, happen outside
//! this crate. An event arrives as plain values, and a file's content as
//! what the read gave.

use vstd::prelude::*;
use crate::error::{result_view, EngineError, EngineErrorView, ErrorKind, Operation};
use crate::history::{
    outcome_views, record, HistoryManager, HistoryView, RecordOutcome, RecordOutcomeView,
};
use crate::paths::{relative_path, relative_to};
use crate::text::{contains, contains_text};

verus! {

/// A path named by a change event, and whether a regular file stood there
/// when the event was taken.
#[derive(Debug, PartialEq, Eq)]
pub struct ChangedPath {
    pub path: String,
    pub is_file: bool,
}

/// The mathematical value of a [`ChangedPath`].
pub struct ChangedPathView {
    pub path: Seq<char>,
    pub is_file: bool,
}

impl View for ChangedPath {
    type V = ChangedPathView;

    open spec fn view(&self) -> ChangedPathView {
        ChangedPathView { path: self.path@, is_file: self.is_file }
    }
}

impl DeepView for ChangedPath {
    type V = ChangedPathView;

    open spec fn deep_view(&self) -> ChangedPathView {
        self@
    }
}

/// An event of the watch: whether it reports a modification, and the
/// paths that it names.
#[derive(Debug, PartialEq, Eq)]
pub struct ChangeEvent {
    pub is_modify: bool,
    pub paths: Vec<ChangedPath>,
}

/// The mathematical value of a [`ChangeEvent`].
pub struct ChangeEventView {
    pub is_modify: bool,
    pub paths: Seq<ChangedPathView>,
}

impl View for ChangeEvent {
    type V = ChangeEventView;

    open spec fn view(&self) -> ChangeEventView {
        ChangeEventView { is_modify: self.is_modify, paths: self.paths.deep_view() }
    }
}

/// Whether a path is one whose changes are recorded: it lies neither in
/// the engine's own stores, nor in a `.git` directory, nor in a `target`
/// directory.
pub open spec fn indexable(path: Seq<char>) -> bool {
    &&& !contains_text(path, "/.git/"@)
    &&& !contains_text(path, "/.stasher/"@)
    &&& !contains_text(path, "/target/"@)
}

/// Whether changes to `path` are recorded. The watch must ask this before
/// it reports a change.
pub fn should_index(path: &str) -> (r: bool)
    ensures
        r == indexable(path@),
{
    !contains(path, "/.git/") && !contains(path, "/.stasher/") && !contains(path, "/target/")
}

/// Whether a named path is watched: it is indexable and a regular file.
pub open spec fn watched(p: ChangedPathView) -> bool {
    indexable(p.path) && p.is_file
}

/// Of `paths`, those that are watched, in their order.
pub open spec fn watched_paths(paths: Seq<ChangedPathView>) -> Seq<Seq<char>>
    decreases paths.len(),
{
    if paths.len() == 0 {
        Seq::empty()
    } else if watched(paths.last()) {
        watched_paths(paths.drop_last()).push(paths.last().path)
    } else {
        watched_paths(paths.drop_last())
    }
}

/// The files to process for an event: the watched paths of a
/// modification, and none for any other event.
pub open spec fn files_to_process(event: ChangeEventView) -> Seq<Seq<char>> {
    if event.is_modify {
        watched_paths(event.paths)
    } else {
        Seq::empty()
    }
}

/// What processing a changed file does. Where the file could not be read,
/// nothing is recorded and the failure is an `IoFailure`; otherwise its
/// content is recorded under its path relative to the tracked root.
pub open spec fn processed(
    s: HistoryView,
    path: Seq<char>,
    content: Option<Seq<char>>,
    id: Seq<char>,
    now: i64,
) -> (HistoryView, Result<RecordOutcomeView, EngineErrorView>) {
    match content {
        None => (
            s,
            Err(
                EngineErrorView {
                    kind: ErrorKind::IoFailure,
                    operation: Operation::RecordChange,
                    path: relative_to(s.base_path, path),
                },
            ),
        ),
        Some(text) => record(s, relative_to(s.base_path, path), text, id, now),
    }
}

/// Whether `read` has given `content` for the file written `path`.
pub open spec fn read_gave<F: Fn(&String) -> Option<String>>(
    read: F,
    path: Seq<char>,
    content: Option<Seq<char>>,
) -> bool {
    exists|p: String, c: Option<String>|
        p@ == path && c.deep_view() == content && call_ensures(read, (&p,), c)
}

/// Processing `files` one after the other, file `i` with the content
/// `reads[i]` under the id and time `stamps[i]`: the value at the end, and
/// the outcome of each file.
pub open spec fn handled(
    s: HistoryView,
    files: Seq<Seq<char>>,
    reads: Seq<Option<Seq<char>>>,
    stamps: Seq<(Seq<char>, i64)>,
) -> (HistoryView, Seq<Result<RecordOutcomeView, EngineErrorView>>)
    decreases files.len(),
{
    if files.len() == 0 || reads.len() != files.len() || stamps.len() != files.len() {
        (s, Seq::empty())
    } else {
        let (before, outcomes) = handled(
            s,
            files.drop_last(),
            reads.drop_last(),
            stamps.drop_last(),
        );
        let (after, outcome) = processed(
            before,
            files.last(),
            reads.last(),
            stamps.last().0,
            stamps.last().1,
        );
        (after, outcomes.push(outcome))
    }
}

/// The daemon: it takes the events of the watch and hands the changed
/// files to the engine.
pub struct StasherDaemon {
    history: HistoryManager,
}

impl View for StasherDaemon {
    type V = HistoryView;

    closed spec fn view(&self) -> HistoryView {
        self.history@
    }
}

impl StasherDaemon {
    /// The invariant of the daemon: its engine is well-formed.
    pub closed spec fn wf(&self) -> bool {
        self.history.wf()
    }

    /// A daemon that records through `history`.
    pub fn new(history: HistoryManager) -> (r: StasherDaemon)
        requires
            history.wf(),
        ensures
            r.wf(),
            r@ == history@,
    {
        StasherDaemon { history }
    }

    /// The engine through which the daemon records.
    pub fn history(&self) -> (r: &HistoryManager)
        ensures
            r@ == self@,
            self.wf() ==> r.wf(),
    {
        &self.history
    }

    /// Gives the engine back.
    pub fn into_history(self) -> (r: HistoryManager)
        ensures
            r@ == self@,
            self.wf() ==> r.wf(),
    {
        self.history
    }

    /// Whether a path named by an event is watched.
    pub fn should_watch(&self, path: &ChangedPath) -> (r: bool)
        ensures
            r == watched(path@),
    {
        should_index(path.path.as_str()) && path.is_file
    }

    /// The files to process for `event`, as the event names them.
    pub fn watched_files(&self, event: &ChangeEvent) -> (r: Vec<String>)
        ensures
            r.deep_view() == files_to_process(event@),
    {
        let mut out: Vec<String> = Vec::new();
        if !event.is_modify {
            assert(out.deep_view() =~= Seq::<Seq<char>>::empty());
            return out;
        }
        let ghost all = event.paths.deep_view();
        let mut i: usize = 0;
        assert(out.deep_view() =~= watched_paths(all.take(0)));
        while i < event.paths.len()
            invariant
                i <= event.paths.len(),
                all == event.paths.deep_view(),
                out.deep_view() == watched_paths(all.take(i as int)),
            decreases event.paths.len() - i,
        {
            proof {
                assert(all.take(i + 1).drop_last() == all.take(i as int));
                assert(all.take(i + 1).last() == event.paths[i as int]@);
            }
            if self.should_watch(&event.paths[i]) {
                let ghost before = out.deep_view();
                out.push(event.paths[i].path.clone());
                assert(out.deep_view() =~= before.push(event.paths[i as int]@.path));
            }
            i += 1;
        }
        assert(all.take(event.paths.len() as int) == all);
        out
    }

    /// Handles an event of the watch: every file to process for it is read
    /// with `read` and processed, in the order in which the event names
    /// them. A file that fails does not stop the others. Returns the
    /// outcome of each file.
    pub fn handle_event<F: Fn(&String) -> Option<String>>(
        &mut self,
        event: &ChangeEvent,
        read: F,
    ) -> (r: Vec<Result<RecordOutcome, EngineError>>)
        requires
            old(self).wf(),
            forall|p: &String| call_requires(read, (p,)),
        ensures
            final(self).wf(),
            r.len() == files_to_process(event@).len(),
            exists|reads: Seq<Option<Seq<char>>>, stamps: Seq<(Seq<char>, i64)>|
                {
                    &&& reads.len() == files_to_process(event@).len()
                    &&& stamps.len() == reads.len()
                    &&& forall|i: int|
                        0 <= i < reads.len() ==> read_gave(
                            read,
                            files_to_process(event@)[i],
                            #[trigger] reads[i],
                        )
                    &&& (final(self)@, outcome_views(r@)) == handled(
                        old(self)@,
                        files_to_process(event@),
                        reads,
                        stamps,
                    )
                },
    {
        let files = self.watched_files(event);
        let ghost all = files.deep_view();
        let ghost mut reads: Seq<Option<Seq<char>>> = Seq::empty();
        let ghost mut stamps: Seq<(Seq<char>, i64)> = Seq::empty();
        let mut out: Vec<Result<RecordOutcome, EngineError>> = Vec::new();
        let mut i: usize = 0;
        assert(outcome_views(out@) =~= Seq::empty());
        assert(all.take(0).len() == 0);
        while i < files.len()
            invariant
                i <= files.len(),
                all == files.deep_view(),
                self.wf(),
                forall|p: &String| call_requires(read, (p,)),
                reads.len() == i,
                stamps.len() == i,
                out.len() == i,
                forall|k: int| 0 <= k < i ==> read_gave(read, all[k], #[trigger] reads[k]),
                (self@, outcome_views(out@)) == handled(
                    old(self)@,
                    all.take(i as int),
                    reads,
                    stamps,
                ),
            decreases files.len() - i,
        {
            let content = read(&files[i]);
            assert(read_gave(read, all[i as int], content.deep_view()));
            let text: Option<&str> = match &content {
                Some(c) => Some(c.as_str()),
                None => None,
            };
            let ghost before = self@;
            let ghost outcomes = outcome_views(out@);
            let ghost earlier_reads = reads;
            let ghost earlier_stamps = stamps;
            let outcome = self.process_file_change(files[i].as_str(), text);
            proof {
                let (id, now) = choose|id: Seq<char>, now: i64|
                    (self@, result_view(outcome)) == processed(
                        before,
                        all[i as int],
                        content.deep_view(),
                        id,
                        now,
                    );
                reads = reads.push(content.deep_view());
                stamps = stamps.push((id, now));
                assert(reads.drop_last() == earlier_reads);
                assert(stamps.drop_last() == earlier_stamps);
                assert(all.take(i + 1).drop_last() == all.take(i as int));
                assert(all.take(i + 1).last() == all[i as int]);
            }
            let ghost shown = result_view(outcome);
            out.push(outcome);
            assert(outcome_views(out@) =~= outcomes.push(shown));
            i += 1;
        }
        assert(all.take(files.len() as int) == all);
        out
    }

    /// Processes a file that was reported as changed. `content` is what
    /// reading the file gave, `None` where it could not be read. The
    /// outcome is that of [`processed`], for whatever id and time the call
    /// obtained.
    pub fn process_file_change(&mut self, path: &str, content: Option<&str>) -> (r: Result<
        RecordOutcome,
        EngineError,
    >)
        requires
            old(self).wf(),
        ensures
            final(self).wf(),
            exists|id: Seq<char>, now: i64|
                (final(self)@, result_view(r)) == processed(
                    old(self)@,
                    path@,
                    content.deep_view(),
                    id,
                    now,
                ),
    {
        match content {
            Some(text) => {
                let outcome = self.history.record_change(path, text);
                proof {
                    let key = relative_to(old(self)@.base_path, path@);
                    let (id, now) = choose|id: Seq<char>, now: i64|
                        (self@, result_view(outcome)) == record(old(self)@, key, text@, id, now);
                    assert((self@, result_view(outcome)) == processed(
                        old(self)@,
                        path@,
                        content.deep_view(),
                        id,
                        now,
                    ));
                }
                outcome
            },
            None => {
                let key = relative_path(self.history.base_path(), path);
                let failure = EngineError::new(
                    ErrorKind::IoFailure,
                    Operation::RecordChange,
                    key.as_str(),
                );
                assert((self@, result_view(Err::<RecordOutcome, EngineError>(failure)))
                    == processed(old(self)@, path@, content.deep_view(), Seq::empty(), 0));
                Err(failure)
            },
        }
    }
}

} // verus!
