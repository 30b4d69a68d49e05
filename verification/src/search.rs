//! The semantic index, as far as it is a matter of decisions: whether the
//! table of the index has to be created, what an index record holds, how
//! the rows that a query brings back become hits in the order of their
//! distance, and what becomes of a failure to index.
//!
//! The embedding of a text and the search for the nearest vectors are
//! numerical services outside this crate. An embedding passes through as
//! the bit patterns of its components, and so does the distance of a hit;
//! nothing here computes with them. Distances are compared by the order
//! that their bit patterns have as single-precision numbers.

use vstd::prelude::*;
use crate::error::{describe_text, EngineError, EngineErrorView, ErrorKind, Operation};
use crate::text::list_contains;

verus! {

/// One row of the index: a snapshot's id, path and full content, and the
/// embedding of the content.
#[derive(Debug, PartialEq, Eq)]
pub struct SearchRecord {
    pub snapshot_id: String,
    pub file_path: String,
    pub content: String,
    pub vector: Vec<u32>,
}

/// The mathematical value of a [`SearchRecord`].
pub struct SearchRecordView {
    pub snapshot_id: Seq<char>,
    pub file_path: Seq<char>,
    pub content: Seq<char>,
    pub vector: Seq<u32>,
}

impl View for SearchRecord {
    type V = SearchRecordView;

    open spec fn view(&self) -> SearchRecordView {
        SearchRecordView {
            snapshot_id: self.snapshot_id@,
            file_path: self.file_path@,
            content: self.content@,
            vector: self.vector@,
        }
    }
}

impl DeepView for SearchRecord {
    type V = SearchRecordView;

    open spec fn deep_view(&self) -> SearchRecordView {
        self@
    }
}

/// What has to be done with the table of the index before a row is added.
#[derive(Clone, Copy, Debug, PartialEq, Eq, Structural)]
pub enum TableAction {
    /// The table exists: the row is appended.
    Append,
    /// The table does not exist: it is created with the row.
    Create,
}

/// A row to add to the index, and how.
#[derive(Debug, PartialEq, Eq)]
pub struct IndexRequest {
    pub action: TableAction,
    pub record: SearchRecord,
}

/// One result of a search: the snapshot that was found, and its distance
/// from the query as the bit pattern of a single-precision number.
#[derive(Debug, PartialEq, Eq)]
pub struct SearchHit {
    pub snapshot_id: String,
    pub file_path: String,
    pub content: String,
    pub score: u32,
}

/// The mathematical value of a [`SearchHit`].
pub struct SearchHitView {
    pub snapshot_id: Seq<char>,
    pub file_path: Seq<char>,
    pub content: Seq<char>,
    pub score: u32,
}

impl View for SearchHit {
    type V = SearchHitView;

    open spec fn view(&self) -> SearchHitView {
        SearchHitView {
            snapshot_id: self.snapshot_id@,
            file_path: self.file_path@,
            content: self.content@,
            score: self.score,
        }
    }
}

impl DeepView for SearchHit {
    type V = SearchHitView;

    open spec fn deep_view(&self) -> SearchHitView {
        self@
    }
}

/// The rows that a query brought back in one batch: the three text
/// columns and the column of distances by name, each absent where the
/// batch has no column of that name and type, and the number of rows.
#[derive(Debug, PartialEq, Eq)]
pub struct ResultBatch {
    pub snapshot_ids: Option<Vec<String>>,
    pub file_paths: Option<Vec<String>>,
    pub contents: Option<Vec<String>>,
    pub distances: Option<Vec<u32>>,
    pub num_rows: usize,
}

/// The mathematical value of a [`ResultBatch`].
pub struct ResultBatchView {
    pub snapshot_ids: Option<Seq<Seq<char>>>,
    pub file_paths: Option<Seq<Seq<char>>>,
    pub contents: Option<Seq<Seq<char>>>,
    pub distances: Option<Seq<u32>>,
    pub num_rows: nat,
}

impl View for ResultBatch {
    type V = ResultBatchView;

    open spec fn view(&self) -> ResultBatchView {
        ResultBatchView {
            snapshot_ids: self.snapshot_ids.deep_view(),
            file_paths: self.file_paths.deep_view(),
            contents: self.contents.deep_view(),
            distances: match self.distances {
                Some(d) => Some(d@),
                None => None,
            },
            num_rows: self.num_rows as nat,
        }
    }
}

impl DeepView for ResultBatch {
    type V = ResultBatchView;

    open spec fn deep_view(&self) -> ResultBatchView {
        self@
    }
}

/// Whether a column is there and has a value for each of `rows` rows.
pub open spec fn column_ok<T>(column: Option<Seq<T>>, rows: nat) -> bool {
    column is Some && column->0.len() >= rows
}

/// The name of the first column of `batch` that is absent or too short,
/// if there is one.
pub open spec fn batch_fault(batch: ResultBatchView) -> Option<Seq<char>> {
    if !column_ok(batch.snapshot_ids, batch.num_rows) {
        Some("snapshot_id"@)
    } else if !column_ok(batch.file_paths, batch.num_rows) {
        Some("file_path"@)
    } else if !column_ok(batch.contents, batch.num_rows) {
        Some("content"@)
    } else if !column_ok(batch.distances, batch.num_rows) {
        Some("_distance"@)
    } else {
        None
    }
}

/// The rows of a batch without a fault, as hits.
pub open spec fn batch_rows(batch: ResultBatchView) -> Seq<SearchHitView> {
    Seq::new(
        batch.num_rows,
        |i: int|
            SearchHitView {
                snapshot_id: batch.snapshot_ids->0[i],
                file_path: batch.file_paths->0[i],
                content: batch.contents->0[i],
                score: batch.distances->0[i],
            },
    )
}

/// The rows of all of `batches` in order, or the fault of the first batch
/// that has one.
pub open spec fn all_rows(batches: Seq<ResultBatchView>) -> Result<Seq<SearchHitView>, Seq<char>>
    decreases batches.len(),
{
    if batches.len() == 0 {
        Ok(Seq::empty())
    } else {
        match all_rows(batches.drop_last()) {
            Err(column) => Err(column),
            Ok(rows) => match batch_fault(batches.last()) {
                Some(column) => Err(column),
                None => Ok(rows + batch_rows(batches.last())),
            },
        }
    }
}

/// The place of a distance in the order of single-precision numbers, from
/// its bit pattern: the pattern itself where the sign bit is clear, and
/// below zero, the further the larger the magnitude, where it is set.
pub open spec fn score_key(score: u32) -> int {
    if score < 0x8000_0000 {
        score as int
    } else {
        0x7fff_ffff - score
    }
}

/// Where a hit with the key `key` goes among ranked hits: behind every hit
/// that is not farther.
pub open spec fn rank_position(hits: Seq<SearchHitView>, key: int) -> int
    decreases hits.len(),
{
    if hits.len() == 0 {
        0
    } else if score_key(hits.last().score) <= key {
        hits.len() as int
    } else {
        rank_position(hits.drop_last(), key)
    }
}

/// `rows` in the order of their distances, nearest first. Rows at equal
/// distance keep the order in which they came.
pub open spec fn ranked(rows: Seq<SearchHitView>) -> Seq<SearchHitView>
    decreases rows.len(),
{
    if rows.len() == 0 {
        Seq::empty()
    } else {
        let front = ranked(rows.drop_last());
        front.insert(rank_position(front, score_key(rows.last().score)), rows.last())
    }
}

/// The first `limit` of `hits`, or all of them where they are fewer.
pub open spec fn at_most(hits: Seq<SearchHitView>, limit: nat) -> Seq<SearchHitView> {
    if hits.len() <= limit {
        hits
    } else {
        hits.take(limit as int)
    }
}

/// What a search yields. Without a table, nothing was ever indexed and the
/// result is empty. With one, it is the rows that the query brought back,
/// nearest first, no more than `limit` of them; a batch with a fault makes
/// the search fail with `StoreFailure`, and the failure names the column.
pub open spec fn search_result(batches: Option<Seq<ResultBatchView>>, limit: nat) -> Result<
    Seq<SearchHitView>,
    EngineErrorView,
> {
    match batches {
        None => Ok(Seq::empty()),
        Some(found) => match all_rows(found) {
            Ok(rows) => Ok(at_most(ranked(rows), limit)),
            Err(column) => Err(
                EngineErrorView {
                    kind: ErrorKind::StoreFailure,
                    operation: Operation::Search,
                    path: column,
                },
            ),
        },
    }
}

/// Ranked hits stand nearest first.
pub proof fn law_ranked_is_nearest_first(rows: Seq<SearchHitView>)
    ensures
        ranked(rows).len() == rows.len(),
        forall|i: int, j: int|
            0 <= i < j < ranked(rows).len() ==> score_key((#[trigger] ranked(rows)[i]).score)
                <= score_key((#[trigger] ranked(rows)[j]).score),
    decreases rows.len(),
{
    if rows.len() > 0 {
        let front = ranked(rows.drop_last());
        let key = score_key(rows.last().score);
        law_ranked_is_nearest_first(rows.drop_last());
        lemma_rank_position(front, key);
        let p = rank_position(front, key);
        let after = ranked(rows);
        assert forall|i: int, j: int| 0 <= i < j < after.len() implies score_key(
            (#[trigger] after[i]).score,
        ) <= score_key((#[trigger] after[j]).score) by {
            let a = if i < p { i } else { i - 1 };
            let b = if j < p { j } else { j - 1 };
            if i == p {
                assert(score_key(front[b].score) > key);
            } else if j == p {
                assert(score_key(front[a].score) <= key);
            } else {
                assert(score_key(front[a].score) <= score_key(front[b].score));
            }
        }
    }
}

/// Ranking neither adds nor drops a hit: the ranked hits are the rows, each
/// as often as it came.
pub proof fn law_ranked_is_a_permutation(rows: Seq<SearchHitView>)
    ensures
        ranked(rows).to_multiset() == rows.to_multiset(),
    decreases rows.len(),
{
    if rows.len() > 0 {
        let front = ranked(rows.drop_last());
        let key = score_key(rows.last().score);
        law_ranked_is_a_permutation(rows.drop_last());
        lemma_rank_position_range(front, key);
        vstd::seq_lib::to_multiset_insert(front, rank_position(front, key), rows.last());
        vstd::seq_lib::to_multiset_build(rows.drop_last(), rows.last());
        assert(rows.drop_last().push(rows.last()) == rows);
        assert(ranked(rows).to_multiset() =~= rows.to_multiset());
    } else {
        assert(rows =~= Seq::<SearchHitView>::empty());
    }
}

proof fn lemma_rank_position_range(hits: Seq<SearchHitView>, key: int)
    ensures
        0 <= rank_position(hits, key) <= hits.len(),
    decreases hits.len(),
{
    if hits.len() > 0 && score_key(hits.last().score) > key {
        lemma_rank_position_range(hits.drop_last(), key);
    }
}

/// Among hits that stand nearest first, `rank_position` parts those that
/// are not farther than `key` from those that are.
proof fn lemma_rank_position(hits: Seq<SearchHitView>, key: int)
    requires
        forall|i: int, j: int|
            0 <= i < j < hits.len() ==> score_key((#[trigger] hits[i]).score) <= score_key(
                (#[trigger] hits[j]).score,
            ),
    ensures
        0 <= rank_position(hits, key) <= hits.len(),
        forall|i: int|
            0 <= i < rank_position(hits, key) ==> score_key((#[trigger] hits[i]).score) <= key,
        forall|i: int|
            rank_position(hits, key) <= i < hits.len() ==> score_key((#[trigger] hits[i]).score)
                > key,
    decreases hits.len(),
{
    if hits.len() > 0 {
        let front = hits.drop_last();
        let last = hits.len() - 1;
        if score_key(hits.last().score) <= key {
            assert forall|i: int| 0 <= i < hits.len() implies score_key(
                (#[trigger] hits[i]).score,
            ) <= key by {
                if i < last {
                    assert(score_key(hits[i].score) <= score_key(hits[last].score));
                }
            }
        } else {
            assert forall|i: int, j: int| 0 <= i < j < front.len() implies score_key(
                (#[trigger] front[i]).score,
            ) <= score_key((#[trigger] front[j]).score) by {
                assert(score_key(hits[i].score) <= score_key(hits[j].score));
            }
            lemma_rank_position(front, key);
            assert forall|i: int| 0 <= i < rank_position(hits, key) implies score_key(
                (#[trigger] hits[i]).score,
            ) <= key by {
                assert(score_key(front[i].score) <= key);
            }
            assert forall|i: int| rank_position(hits, key) <= i < hits.len() implies score_key(
                (#[trigger] hits[i]).score,
            ) > key by {
                if i < last {
                    assert(score_key(front[i].score) > key);
                }
            }
        }
    }
}

/// What indexing a snapshot asks of the index: a row with the first of
/// `embeddings` as its vector, appended where `tables` names the table of
/// the index and creating it otherwise. `StoreFailure` where there is no
/// embedding or the first one has not `dimension` components.
pub open spec fn index_request(
    table: Seq<char>,
    dimension: nat,
    snapshot_id: Seq<char>,
    file_path: Seq<char>,
    content: Seq<char>,
    embeddings: Seq<Seq<u32>>,
    tables: Seq<Seq<char>>,
) -> Result<(TableAction, SearchRecordView), EngineErrorView> {
    if embeddings.len() == 0 || embeddings[0].len() != dimension {
        Err(
            EngineErrorView {
                kind: ErrorKind::StoreFailure,
                operation: Operation::Index,
                path: file_path,
            },
        )
    } else {
        Ok(
            (
                if tables.contains(table) {
                    TableAction::Append
                } else {
                    TableAction::Create
                },
                SearchRecordView { snapshot_id, file_path, content, vector: embeddings[0] },
            ),
        )
    }
}

/// The table in which the index keeps its rows.
pub const TABLE_NAME: &'static str = "snapshots_v1";

/// The number of components of an embedding.
pub const EMBEDDING_DIMENSION: usize = 768;

/// The decisions of the semantic index.
#[derive(Debug)]
pub struct SearchEngine {
    table: String,
    dimension: usize,
}

/// The mathematical value of a [`SearchEngine`].
pub struct SearchEngineView {
    pub table: Seq<char>,
    pub dimension: nat,
}

impl View for SearchEngine {
    type V = SearchEngineView;

    closed spec fn view(&self) -> SearchEngineView {
        SearchEngineView { table: self.table@, dimension: self.dimension as nat }
    }
}

fn copy_column(column: &Vec<String>, i: usize) -> (r: String)
    requires
        i < column.len(),
    ensures
        r@ == column.deep_view()[i as int],
{
    column[i].clone()
}

fn text_column_fits(column: &Option<Vec<String>>, rows: usize) -> (r: bool)
    ensures
        r == column_ok(column.deep_view(), rows as nat),
{
    match column {
        Some(values) => values.len() >= rows,
        None => false,
    }
}

fn batch_fault_of(batch: &ResultBatch) -> (r: Option<&'static str>)
    ensures
        r.deep_view() == batch_fault(batch@),
{
    if !text_column_fits(&batch.snapshot_ids, batch.num_rows) {
        Some("snapshot_id")
    } else if !text_column_fits(&batch.file_paths, batch.num_rows) {
        Some("file_path")
    } else if !text_column_fits(&batch.contents, batch.num_rows) {
        Some("content")
    } else {
        match &batch.distances {
            Some(values) => if values.len() >= batch.num_rows {
                None
            } else {
                Some("_distance")
            },
            None => Some("_distance"),
        }
    }
}

fn key_of(score: u32) -> (r: i64)
    ensures
        r == score_key(score),
{
    if score < 0x8000_0000 {
        score as i64
    } else {
        0x7fff_ffff - (score as i64)
    }
}

/// Puts `hit` at its place among `hits`, which stand in ranked order.
fn rank_in(hits: &mut Vec<SearchHit>, hit: SearchHit, Ghost(rows): Ghost<Seq<SearchHitView>>)
    requires
        old(hits).deep_view() == ranked(rows),
    ensures
        final(hits).deep_view() == ranked(rows.push(hit@)),
{
    let key = key_of(hit.score);
    let ghost before = hits.deep_view();
    let ghost added = hit@;
    let mut p: usize = hits.len();
    assert(before.take(p as int) == before);
    while p > 0 && key_of(hits[p - 1].score) > key
        invariant
            p <= hits.len(),
            before == hits.deep_view(),
            added == hit@,
            key == score_key(added.score),
            rank_position(before, key as int) == rank_position(before.take(p as int), key as int),
        decreases p,
    {
        assert(before.take(p as int).drop_last() == before.take(p - 1));
        p -= 1;
    }
    assert(rank_position(before, key as int) == p);
    hits.insert(p, hit);
    assert(hits.deep_view() =~= before.insert(p as int, added));
    assert(rows.push(added).drop_last() == rows);
}

impl SearchEngine {
    /// The index over the table [`TABLE_NAME`], with embeddings of
    /// [`EMBEDDING_DIMENSION`] components.
    pub fn new() -> (r: SearchEngine)
        ensures
            r@ == (SearchEngineView {
                table: TABLE_NAME@,
                dimension: EMBEDDING_DIMENSION as nat,
            }),
    {
        SearchEngine { table: TABLE_NAME.to_owned(), dimension: EMBEDDING_DIMENSION }
    }

    /// The name of the table of the index.
    pub fn table_name(&self) -> (r: &str)
        ensures
            r@ == self@.table,
    {
        self.table.as_str()
    }

    /// The number of components that an embedding must have.
    pub fn dimension(&self) -> (r: usize)
        ensures
            r == self@.dimension,
    {
        self.dimension
    }

    /// Whether `tables`, the names of the tables that exist, holds the
    /// table of the index.
    pub fn has_table(&self, tables: &Vec<String>) -> (r: bool)
        ensures
            r == tables.deep_view().contains(self@.table),
    {
        list_contains(tables, &self.table)
    }

    /// Prepares the row for a snapshot. `embeddings` is what the embedding
    /// of `content` gave, `tables` the names of the tables that exist.
    pub fn index_snapshot(
        &self,
        snapshot_id: String,
        file_path: String,
        content: String,
        embeddings: Vec<Vec<u32>>,
        tables: &Vec<String>,
    ) -> (r: Result<IndexRequest, EngineError>)
        ensures
            match index_request(
                self@.table,
                self@.dimension,
                snapshot_id@,
                file_path@,
                content@,
                embeddings.deep_view(),
                tables.deep_view(),
            ) {
                Ok((action, record)) => r is Ok && r->Ok_0.action == action && r->Ok_0.record@
                    == record,
                Err(e) => r is Err && r->Err_0@ == e,
            },
    {
        let mut embeddings = embeddings;
        if embeddings.len() == 0 || embeddings[0].len() != self.dimension {
            return Err(
                EngineError::new(ErrorKind::StoreFailure, Operation::Index, file_path.as_str()),
            );
        }
        let ghost first = embeddings.deep_view()[0];
        assert(first == embeddings@[0]@);
        let vector = embeddings.swap_remove(0);
        let action = if self.has_table(tables) {
            TableAction::Append
        } else {
            TableAction::Create
        };
        let record = SearchRecord { snapshot_id, file_path, content, vector };
        Ok(IndexRequest { action, record })
    }

    /// Turns what a query brought back into hits. `batches` is `None`
    /// where the table of the index does not exist.
    pub fn search(&self, batches: Option<&Vec<ResultBatch>>, limit: usize) -> (r: Result<
        Vec<SearchHit>,
        EngineError,
    >)
        ensures
            match search_result(batches.deep_view(), limit as nat) {
                Ok(hits) => r is Ok && r->Ok_0.deep_view() == hits,
                Err(e) => r is Err && r->Err_0@ == e,
            },
    {
        let found = match batches {
            None => {
                let none: Vec<SearchHit> = Vec::new();
                assert(none.deep_view() =~= Seq::<SearchHitView>::empty());
                return Ok(none);
            },
            Some(found) => found,
        };
        let ghost all = found.deep_view();
        let mut out: Vec<SearchHit> = Vec::new();
        let ghost mut rows: Seq<SearchHitView> = Seq::empty();
        let mut b: usize = 0;
        assert(out.deep_view() =~= ranked(rows));
        while b < found.len()
            invariant
                b <= found.len(),
                all == found.deep_view(),
                batches.deep_view() == Some(all),
                all_rows(all.take(b as int)) == Ok::<Seq<SearchHitView>, Seq<char>>(rows),
                out.deep_view() == ranked(rows),
            decreases found.len() - b,
        {
            let batch = &found[b];
            proof {
                assert(all.take(b + 1).drop_last() == all.take(b as int));
                assert(all.take(b + 1).last() == batch@);
            }
            match batch_fault_of(batch) {
                Some(column) => {
                    proof {
                        assert(batch_fault(batch@) == Some(column@));
                        assert(all_rows(all.take(b + 1)) == Err::<Seq<SearchHitView>, Seq<char>>(
                            column@,
                        ));
                        lemma_fault_stays(all, b + 1);
                    }
                    return Err(
                        EngineError::new(ErrorKind::StoreFailure, Operation::Search, column),
                    );
                },
                None => {},
            }
            let ids = batch.snapshot_ids.as_ref().unwrap();
            let paths = batch.file_paths.as_ref().unwrap();
            let contents = batch.contents.as_ref().unwrap();
            let distances = batch.distances.as_ref().unwrap();
            let ghost before = rows;
            let ghost these = batch_rows(batch@);
            let mut i: usize = 0;
            assert(before + these.take(0) =~= before);
            while i < batch.num_rows
                invariant
                    i <= batch.num_rows,
                    batch.num_rows <= ids.len(),
                    batch.num_rows <= paths.len(),
                    batch.num_rows <= contents.len(),
                    batch.num_rows <= distances.len(),
                    batch.snapshot_ids == Some(*ids),
                    batch.file_paths == Some(*paths),
                    batch.contents == Some(*contents),
                    batch.distances == Some(*distances),
                    these == batch_rows(batch@),
                    out.deep_view() == ranked(before + these.take(i as int)),
                decreases batch.num_rows - i,
            {
                let hit = SearchHit {
                    snapshot_id: copy_column(ids, i),
                    file_path: copy_column(paths, i),
                    content: copy_column(contents, i),
                    score: distances[i],
                };
                assert(hit@ == these[i as int]);
                rank_in(&mut out, hit, Ghost(before + these.take(i as int)));
                assert((before + these.take(i as int)).push(these[i as int]) =~= before
                    + these.take(i + 1));
                i += 1;
            }
            proof {
                assert(these.take(batch.num_rows as int) == these);
                rows = before + these;
            }
            b += 1;
        }
        assert(all.take(found.len() as int) == all);
        let ghost full = out.deep_view();
        out.truncate(limit);
        assert(out.deep_view() =~= at_most(full, limit as nat));
        Ok(out)
    }
}

/// A fault among the first `n` batches is the fault of all of them.
proof fn lemma_fault_stays(batches: Seq<ResultBatchView>, n: int)
    requires
        0 <= n <= batches.len(),
        all_rows(batches.take(n)) is Err,
    ensures
        all_rows(batches) == all_rows(batches.take(n)),
    decreases batches.len() - n,
{
    if n < batches.len() {
        assert(batches.drop_last().take(n) == batches.take(n));
        lemma_fault_stays(batches.drop_last(), n);
    } else {
        assert(batches.take(n) == batches);
    }
}

/// What is reported of an attempt to index: nothing where it went well, a
/// warning where it failed. A failure to index is never an error of the
/// recording that led to it.
pub open spec fn index_warning_text(outcome: Result<(), EngineErrorView>) -> Option<Seq<char>> {
    match outcome {
        Ok(_) => None,
        Err(e) => Some("Failed to index snapshot: "@ + describe_text(e)),
    }
}

/// The warning to log for an attempt to index, if it failed.
pub fn index_warning(outcome: &Result<(), EngineError>) -> (r: Option<String>)
    ensures
        r.deep_view() == index_warning_text(crate::error::result_view(*outcome)),
{
    match outcome {
        Ok(_) => None,
        Err(e) => {
            let mut text = String::new();
            text.append("Failed to index snapshot: ");
            let report = e.describe();
            text.append(report.as_str());
            assert(text@ =~= "Failed to index snapshot: "@ + describe_text(e@));
            Some(text)
        },
    }
}

} // verus!
