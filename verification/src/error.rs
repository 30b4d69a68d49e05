//! The failures that the engine reports.

use vstd::prelude::*;

verus! {

/// What went wrong.
#[derive(Clone, Copy, Debug, PartialEq, Eq, Structural)]
pub enum ErrorKind {
    /// A file or a blob could not be read or written.
    IoFailure,
    /// The metadata store or the index refused a request.
    StoreFailure,
    /// The path has no history, or the object is not in the store.
    NotFound,
    /// The named snapshot does not exist, or belongs to another path.
    UnknownSnapshot,
    /// A snapshot refers to an object that the store does not hold.
    IntegrityViolation,
}

/// The request during which a failure happened.
#[derive(Clone, Copy, Debug, PartialEq, Eq, Structural)]
pub enum Operation {
    OpenSession,
    CloseSession,
    RecordChange,
    Restore,
    ListSnapshots,
    Prune,
    Index,
    Search,
}

/// A failure, with the request and the path that it concerns. For a
/// failed search, `path` names the column of the index that was at fault.
#[derive(Debug, PartialEq, Eq)]
pub struct EngineError {
    pub kind: ErrorKind,
    pub operation: Operation,
    pub path: String,
}

/// The mathematical value of an [`EngineError`].
pub struct EngineErrorView {
    pub kind: ErrorKind,
    pub operation: Operation,
    pub path: Seq<char>,
}

impl View for EngineError {
    type V = EngineErrorView;

    open spec fn view(&self) -> EngineErrorView {
        EngineErrorView { kind: self.kind, operation: self.operation, path: self.path@ }
    }
}

impl Clone for EngineError {
    fn clone(&self) -> (r: EngineError)
        ensures
            r@ == self@,
    {
        EngineError { kind: self.kind, operation: self.operation, path: self.path.clone() }
    }
}

/// The mathematical value of a result that may be an [`EngineError`].
pub open spec fn result_view<T: View>(r: Result<T, EngineError>) -> Result<T::V, EngineErrorView> {
    match r {
        Ok(value) => Ok(value@),
        Err(e) => Err(e@),
    }
}

/// The name under which a request is reported.
pub open spec fn operation_name(operation: Operation) -> Seq<char> {
    match operation {
        Operation::OpenSession => "open session"@,
        Operation::CloseSession => "close session"@,
        Operation::RecordChange => "record change"@,
        Operation::Restore => "restore"@,
        Operation::ListSnapshots => "list snapshots"@,
        Operation::Prune => "prune"@,
        Operation::Index => "index"@,
        Operation::Search => "search"@,
    }
}

/// The words in which a kind of failure is reported.
pub open spec fn kind_text(kind: ErrorKind) -> Seq<char> {
    match kind {
        ErrorKind::IoFailure => "i/o failure"@,
        ErrorKind::StoreFailure => "store failure"@,
        ErrorKind::NotFound => "not found"@,
        ErrorKind::UnknownSnapshot => "unknown snapshot"@,
        ErrorKind::IntegrityViolation => "integrity violation"@,
    }
}

/// The report of a failure: the request, the path in quotes, and the kind.
pub open spec fn describe_text(e: EngineErrorView) -> Seq<char> {
    operation_name(e.operation) + " '"@ + e.path + "': "@ + kind_text(e.kind)
}

impl Operation {
    /// The name under which this request is reported.
    pub fn name(&self) -> (r: &'static str)
        ensures
            r@ == operation_name(*self),
    {
        match self {
            Operation::OpenSession => "open session",
            Operation::CloseSession => "close session",
            Operation::RecordChange => "record change",
            Operation::Restore => "restore",
            Operation::ListSnapshots => "list snapshots",
            Operation::Prune => "prune",
            Operation::Index => "index",
            Operation::Search => "search",
        }
    }
}

impl ErrorKind {
    /// The words in which this kind of failure is reported.
    pub fn text(&self) -> (r: &'static str)
        ensures
            r@ == kind_text(*self),
    {
        match self {
            ErrorKind::IoFailure => "i/o failure",
            ErrorKind::StoreFailure => "store failure",
            ErrorKind::NotFound => "not found",
            ErrorKind::UnknownSnapshot => "unknown snapshot",
            ErrorKind::IntegrityViolation => "integrity violation",
        }
    }
}

impl EngineError {
    /// A failure of `kind` during `operation` on `path`.
    pub fn new(kind: ErrorKind, operation: Operation, path: &str) -> (e: EngineError)
        ensures
            e@ == (EngineErrorView { kind, operation, path: path@ }),
    {
        EngineError { kind, operation, path: path.to_owned() }
    }

    /// The report of this failure, naming the request and the path.
    pub fn describe(&self) -> (r: String)
        ensures
            r@ == describe_text(self@),
    {
        let mut out = String::new();
        out.append(self.operation.name());
        out.append(" '");
        out.append(self.path.as_str());
        out.append("': ");
        out.append(self.kind.text());
        assert(out@ =~= describe_text(self@));
        out
    }
}

} // verus!
