//! Replaying retained commits: what a commit has to make of the image before it.
use crate::append::FileFormat;
use crate::append_rows::{AppendImage, ImageFile, ImageMetric};
use crate::documents::SemanticCommit;
use crate::error::{corrupt, ErrorView, RuntimeError};
use crate::hash::{Id, Sha256};
use crate::projection::{CommittedData, CommittedMetric, CommittedSnapshot, SummaryEntry};
use crate::tables::{sqlite_i64, stored, CommitRow, ImageRows, IntentRow, MetaRow};
use crate::text::{lemma_lex_total, lemma_lex_transitive, lex_less, text_less};
use crate::value::{find_member, member_of, same_value, CanonicalValue, ValueView};
use vstd::prelude::*;

verus! {

/// What a retained commit did.
#[derive(Clone, Copy, Debug, PartialEq, Eq, Structural)]
pub enum ReplayKind {
    Append,
    Metadata,
}

pub open spec fn is_append(operation: ValueView) -> bool {
    operation matches ValueView::Object(members) && member_of(members, "type"@) == Some(
        ValueView::Text("commit_snapshot"@),
    )
}

/// Whether a commit follows an image with a stored version.
pub open spec fn version_follows(version: i64, commit: SemanticCommit) -> bool {
    version < i64::MAX && version + 1 == commit.table_version
}

/// Checks that a commit follows an image, and tells how to replay it.
pub fn replay_kind(version: i64, commit: &SemanticCommit) -> (r: Result<ReplayKind, RuntimeError>)
    requires
        commit.operations@.len() > 0,
    ensures
        match r {
            Ok(kind) => version_follows(version, *commit) && (kind is Append <==> is_append(
                commit.operations@[0]@,
            )),
            Err(e) => !version_follows(version, *commit) && e@ == ErrorView::Corrupt(
                "retained semantic version gap"@,
            ),
        },
{
    if version == i64::MAX || version < -1 || (version + 1) as u64 != commit.table_version {
        return Err(corrupt("retained semantic version gap"));
    }
    if let CanonicalValue::Object(members) = &commit.operations[0] {
        if let Some(CanonicalValue::Text(kind)) = find_member(members, "type") {
            if crate::text::reads(kind, "commit_snapshot") {
                return Ok(ReplayKind::Append);
            }
        }
    }
    Ok(ReplayKind::Metadata)
}

/// Whether a step back stays at the version: both images have to agree as they
/// are then.
pub fn keeps_version(version: i64, commit: &SemanticCommit) -> (same: bool)
    ensures
        same == (version == commit.table_version),
{
    version >= 0 && version as u64 == commit.table_version
}

/// Checks a recorded result against the one that the operations give.
pub fn check_durable_result(result: &CanonicalValue, recorded: &CanonicalValue) -> (r: Result<
    (),
    RuntimeError,
>)
    ensures
        match r {
            Ok(()) => result@ == recorded@,
            Err(e) => result@ != recorded@ && e@ == ErrorView::Corrupt(
                "durable metadata result differs from operations"@,
            ),
        },
{
    if same_value(result, recorded) {
        Ok(())
    } else {
        Err(corrupt("durable metadata result differs from operations"))
    }
}

/// Where a first commit holds the schema, or why it holds none.
pub open spec fn genesis_schema(commit: SemanticCommit) -> Result<ValueView, ErrorView> {
    if commit.table_version != 0 {
        Err(ErrorView::Corrupt("missing retained genesis commit"@))
    } else {
        match commit.operations@[0]@ {
            ValueView::Object(members) => match member_of(members, "schema"@) {
                Some(schema) => Ok(schema),
                None => Err(ErrorView::Corrupt("missing genesis schema"@)),
            },
            _ => Err(ErrorView::Corrupt("invalid genesis"@)),
        }
    }
}

/// The schema that a table's first commit gave it.
pub fn replay_genesis_schema(commit: &SemanticCommit) -> (r: Result<&CanonicalValue, RuntimeError>)
    requires
        commit.operations@.len() > 0,
    ensures
        match r {
            Ok(schema) => genesis_schema(*commit) == Ok::<ValueView, ErrorView>(schema@),
            Err(e) => genesis_schema(*commit) == Err::<ValueView, ErrorView>(e@),
        },
{
    if commit.table_version != 0 {
        return Err(corrupt("missing retained genesis commit"));
    }
    match &commit.operations[0] {
        CanonicalValue::Object(members) => match find_member(members, "schema") {
            Some(schema) => Ok(schema),
            None => Err(corrupt("missing genesis schema")),
        },
        _ => Err(corrupt("invalid genesis")),
    }
}

/// What a replayed append takes from its commit, in canonical texts.
#[derive(Debug)]
pub struct ReplayedCommit {
    pub table_version: u64,
    pub created_at_ms: i64,
    pub semantic_state: Sha256,
    pub commit_id: Id,
    pub commit_hash: Sha256,
    pub commit_uri: String,
    pub operation_json: String,
    pub result_json: String,
    pub metadata_json: String,
    pub idempotency_key: String,
    pub intent_hash: Sha256,
}

/// Whether all metrics name fields that can be stored.
pub open spec fn metrics_fit(metrics: Seq<CommittedMetric>) -> bool {
    forall|i: int| 0 <= i < metrics.len() ==> (#[trigger] metrics[i]).field_id <= u32::MAX
}

pub open spec fn replayed_metric(out: ImageMetric, metric: CommittedMetric) -> bool {
    &&& out.field_id == metric.field_id
    &&& out.column_size_bytes == metric.column_size_bytes
    &&& out.value_count == metric.value_count
    &&& out.null_count == metric.null_count
    &&& out.nan_count == metric.nan_count
    &&& out.distinct_count == metric.distinct_count
    &&& out.lower_bound_cbor == metric.lower_bound_cbor
    &&& out.upper_bound_cbor == metric.upper_bound_cbor
    &&& out.metadata_json == metric.metadata_json
}

pub open spec fn replayed_file(out: ImageFile, file: CommittedData) -> bool {
    &&& out.file_id == file.file_id
    &&& out.uri == file.uri
    &&& out.format is Parquet
    &&& out.file_size_bytes == file.file_size_bytes
    &&& out.record_count == file.record_count
    &&& out.schema_id == file.schema_id
    &&& out.partition_spec_id == 0
    &&& out.sort_order_id == 0
    &&& out.partition_values_cbor == file.partition_values_cbor
    &&& out.partition_hash == file.partition_hash
    &&& out.content_sha256 == file.content_sha256
    &&& out.metadata_json == file.metadata_json
    &&& out.metrics@.len() == file.metrics@.len()
    &&& forall|i: int|
        0 <= i < out.metrics@.len() ==> replayed_metric(#[trigger] out.metrics@[i], file.metrics@[i])
}

/// What keeps a file from being replayed.
pub open spec fn replay_file_check(file: CommittedData) -> Result<(), ErrorView> {
    if file.schema_id > u32::MAX {
        Err(ErrorView::Corrupt("schema ID overflow"@))
    } else if !metrics_fit(file.metrics@) {
        Err(ErrorView::Corrupt("field ID overflow"@))
    } else {
        Ok(())
    }
}

fn replay_metrics(metrics: Vec<CommittedMetric>) -> (r: Result<Vec<ImageMetric>, RuntimeError>)
    ensures
        match r {
            Ok(out) => {
                &&& metrics_fit(metrics@)
                &&& out@.len() == metrics@.len()
                &&& forall|i: int|
                    0 <= i < out@.len() ==> replayed_metric(#[trigger] out@[i], metrics@[i])
            },
            Err(e) => !metrics_fit(metrics@) && e@ == ErrorView::Corrupt("field ID overflow"@),
        },
{
    let mut rest = metrics;
    let ghost all = rest@;
    let mut out: Vec<ImageMetric> = Vec::new();
    while rest.len() > 0
        invariant
            all == metrics@,
            out@.len() + rest@.len() == all.len(),
            rest@ == all.skip(out@.len() as int),
            forall|i: int|
                0 <= i < out@.len() ==> (#[trigger] all[i]).field_id <= u32::MAX,
            forall|i: int|
                0 <= i < out@.len() ==> replayed_metric(#[trigger] out@[i], all[i]),
        decreases rest@.len(),
    {
        let ghost at = out@.len() as int;
        let ghost before = rest@;
        let metric = rest.remove(0);
        assert(metric == all[at]);
        assert(rest@ =~= all.skip(at + 1));
        if metric.field_id > u32::MAX as u64 {
            return Err(corrupt("field ID overflow"));
        }
        out.push(
            ImageMetric {
                field_id: metric.field_id as u32,
                column_size_bytes: metric.column_size_bytes,
                value_count: metric.value_count,
                null_count: metric.null_count,
                nan_count: metric.nan_count,
                distinct_count: metric.distinct_count,
                lower_bound_cbor: metric.lower_bound_cbor,
                upper_bound_cbor: metric.upper_bound_cbor,
                metadata_json: metric.metadata_json,
            },
        );
    }
    Ok(out)
}

fn replay_file(file: CommittedData) -> (r: Result<ImageFile, RuntimeError>)
    ensures
        match r {
            Ok(out) => replay_file_check(file) is Ok && replayed_file(out, file),
            Err(e) => replay_file_check(file) == Err::<(), ErrorView>(e@),
        },
{
    if file.schema_id > u32::MAX as u64 {
        return Err(corrupt("schema ID overflow"));
    }
    let metrics = match replay_metrics(file.metrics) {
        Err(e) => {
            return Err(e);
        },
        Ok(metrics) => metrics,
    };
    Ok(
        ImageFile {
            file_id: file.file_id,
            uri: file.uri,
            format: FileFormat::Parquet,
            file_size_bytes: file.file_size_bytes,
            record_count: file.record_count,
            schema_id: file.schema_id as u32,
            partition_spec_id: 0,
            sort_order_id: 0,
            partition_values_cbor: file.partition_values_cbor,
            partition_hash: file.partition_hash,
            content_sha256: file.content_sha256,
            metrics,
            metadata_json: file.metadata_json,
        },
    )
}

/// The first thing that keeps files from being replayed.
pub open spec fn replay_files_check(files: Seq<CommittedData>) -> Result<(), ErrorView>
    decreases files.len(),
{
    if files.len() == 0 {
        Ok(())
    } else {
        match replay_file_check(files[0]) {
            Err(e) => Err(e),
            Ok(()) => replay_files_check(files.skip(1)),
        }
    }
}

pub open spec fn replay_check(snapshot: CommittedSnapshot) -> Result<(), ErrorView> {
    match replay_files_check(snapshot.added_files@) {
        Err(e) => Err(e),
        Ok(()) => if snapshot.summary is None {
            Err(ErrorView::Corrupt("invalid summary"@))
        } else {
            Ok(())
        },
    }
}

/// The append that a commit and its snapshot describe.
pub open spec fn replayed(
    image: AppendImage,
    commit: ReplayedCommit,
    snapshot: CommittedSnapshot,
) -> bool {
    &&& image.table_version == commit.table_version
    &&& image.created_at_ms == commit.created_at_ms
    &&& image.semantic_state == commit.semantic_state
    &&& image.commit_id == commit.commit_id
    &&& image.commit_hash == commit.commit_hash
    &&& image.commit_uri == commit.commit_uri
    &&& image.operation_json == commit.operation_json
    &&& image.result_json == commit.result_json
    &&& image.commit_metadata_json == commit.metadata_json
    &&& image.idempotency_key == commit.idempotency_key
    &&& image.intent_hash == commit.intent_hash
    &&& image.snapshot_id == snapshot.snapshot_id
    &&& image.parent_snapshot_id == snapshot.parent_snapshot_id
    &&& image.target_ref == snapshot.target_ref
    &&& image.sequence_number == snapshot.sequence_number
    &&& image.summary_json == snapshot.summary_json
    &&& snapshot.summary == Some(image.summary)
    &&& image.snapshot_metadata_json == snapshot.metadata_json
    &&& image.files@.len() == snapshot.added_files@.len()
    &&& forall|i: int|
        0 <= i < image.files@.len() ==> replayed_file(
            #[trigger] image.files@[i],
            snapshot.added_files@[i],
        )
}

/// Turns a retained append back into the append that made it.
pub fn replay_append(commit: ReplayedCommit, snapshot: CommittedSnapshot) -> (r: Result<
    AppendImage,
    RuntimeError,
>)
    ensures
        match r {
            Ok(image) => replay_check(snapshot) is Ok && replayed(image, commit, snapshot),
            Err(e) => replay_check(snapshot) == Err::<(), ErrorView>(e@),
        },
{
    let ghost start = snapshot;
    let ghost all = snapshot.added_files@;
    let mut rest = snapshot.added_files;
    let mut files: Vec<ImageFile> = Vec::new();
    assert(all.skip(0) =~= all);
    while rest.len() > 0
        invariant
            start == snapshot,
            all == start.added_files@,
            files@.len() + rest@.len() == all.len(),
            rest@ == all.skip(files@.len() as int),
            replay_files_check(all) == replay_files_check(rest@),
            forall|i: int| 0 <= i < files@.len() ==> replayed_file(#[trigger] files@[i], all[i]),
        decreases rest@.len(),
    {
        let ghost at = files@.len() as int;
        let ghost before = rest@;
        let file = rest.remove(0);
        assert(file == before[0]);
        assert(rest@ =~= before.skip(1));
        assert(rest@ =~= all.skip(at + 1));
        match replay_file(file) {
            Err(e) => {
                return Err(e);
            },
            Ok(file) => {
                files.push(file);
            },
        }
    }
    let summary: Vec<SummaryEntry> = match snapshot.summary {
        None => {
            return Err(corrupt("invalid summary"));
        },
        Some(summary) => summary,
    };
    Ok(
        AppendImage {
            table_version: commit.table_version,
            created_at_ms: commit.created_at_ms,
            semantic_state: commit.semantic_state,
            commit_id: commit.commit_id,
            commit_hash: commit.commit_hash,
            commit_uri: commit.commit_uri,
            operation_json: commit.operation_json,
            result_json: commit.result_json,
            commit_metadata_json: commit.metadata_json,
            idempotency_key: commit.idempotency_key,
            intent_hash: commit.intent_hash,
            snapshot_id: snapshot.snapshot_id,
            parent_snapshot_id: snapshot.parent_snapshot_id,
            target_ref: snapshot.target_ref,
            sequence_number: snapshot.sequence_number,
            summary_json: snapshot.summary_json,
            summary,
            snapshot_metadata_json: snapshot.metadata_json,
            files,
        },
    )
}

/// The rows after a metadata commit, besides those that its operations change:
/// the commit, its intent, and the new state of the table.
pub open spec fn committed_rows(before: ImageRows, after: ImageRows, commit: ReplayedCommit) -> bool {
    let version = commit.table_version as i64;
    &&& after.commits@.len() == before.commits@.len() + 1
    &&& after.commits@.drop_last() == before.commits@
    &&& ({
        let row = after.commits@.last();
        &&& row.table_version == version
        &&& row.commit_id == commit.commit_id
        &&& row.parent_table_version == Some((version - 1) as i64)
        &&& row.created_at_ms == commit.created_at_ms
        &&& row.intent_count == 1
        &&& row.semantic_state == commit.semantic_state
        &&& row.uri == commit.commit_uri
        &&& row.sha256 == commit.commit_hash
        &&& row.operation_json == commit.operation_json
        &&& row.result_json@ == commit.result_json@
        &&& row.metadata_json == commit.metadata_json
    })
    &&& after.intents@.len() == before.intents@.len() + 1
    &&& after.intents@.drop_last() == before.intents@
    &&& ({
        let row = after.intents@.last();
        &&& row.key == commit.idempotency_key
        &&& row.intent == commit.intent_hash
        &&& row.commit_id == commit.commit_id
        &&& row.table_version == version
        &&& row.result_json@ == commit.result_json@
    })
    &&& after.meta == (MetaRow {
        table_version: version,
        semantic_state: commit.semantic_state,
        last_commit_id: commit.commit_id,
        last_commit_sha256: commit.commit_hash,
        ..before.meta
    })
    &&& after == (ImageRows {
        commits: after.commits,
        intents: after.intents,
        meta: after.meta,
        ..before
    })
}

/// Writes the rows of a metadata commit.
pub fn apply_metadata(rows: ImageRows, commit: ReplayedCommit) -> (r: Result<
    ImageRows,
    RuntimeError,
>)
    ensures
        match r {
            Ok(after) => commit.table_version <= i64::MAX && committed_rows(rows, after, commit),
            Err(e) => stored(commit.table_version, "version"@) == Err::<i64, ErrorView>(e@),
        },
{
    let version: i64 = match sqlite_i64(commit.table_version, "version") {
        Err(e) => {
            return Err(e);
        },
        Ok(version) => version,
    };
    let mut after = rows;
    let ghost before = after;
    let result_json = commit.result_json.clone();
    after.commits.push(
        CommitRow {
            table_version: version,
            commit_id: commit.commit_id,
            parent_table_version: Some(version - 1),
            created_at_ms: commit.created_at_ms,
            intent_count: 1,
            semantic_state: commit.semantic_state,
            uri: commit.commit_uri,
            sha256: commit.commit_hash,
            operation_json: commit.operation_json,
            result_json: commit.result_json,
            metadata_json: commit.metadata_json,
        },
    );
    assert(after.commits@.drop_last() =~= before.commits@);
    after.intents.push(
        IntentRow {
            key: commit.idempotency_key,
            intent: commit.intent_hash,
            commit_id: commit.commit_id,
            table_version: version,
            result_json,
        },
    );
    assert(after.intents@.drop_last() =~= before.intents@);
    after.meta.table_version = version;
    after.meta.semantic_state = commit.semantic_state;
    after.meta.last_commit_id = commit.commit_id;
    after.meta.last_commit_sha256 = commit.commit_hash;
    Ok(after)
}

/// A table of an image: its name, and its rows as texts.
#[derive(Debug)]
pub struct TableRows {
    pub name: String,
    pub rows: Vec<String>,
}

pub open spec fn texts_of(rows: Seq<String>) -> Seq<Seq<char>> {
    Seq::new(rows.len(), |i: int| rows[i]@)
}

/// The order in which rows are compared.
pub open spec fn not_after(a: Seq<char>, b: Seq<char>) -> bool {
    a == b || lex_less(a, b)
}

pub open spec fn row_order() -> spec_fn(Seq<char>, Seq<char>) -> bool {
    |a: Seq<char>, b: Seq<char>| not_after(a, b)
}

proof fn lemma_row_order()
    ensures
        vstd::relations::total_ordering(row_order()),
{
    let order = row_order();
    assert forall|a: Seq<char>, b: Seq<char>| #[trigger] order(a, b) && #[trigger] order(
        b,
        a,
    ) implies a == b by {
        if a != b {
            lemma_lex_transitive(a, b, a);
            lemma_lex_total(a, b);
            lemma_lex_total(a, a);
        }
    }
    assert forall|a: Seq<char>, b: Seq<char>, c: Seq<char>| #[trigger] order(a, b)
        && #[trigger] order(b, c) implies order(a, c) by {
        if a != b && b != c {
            lemma_lex_transitive(a, b, c);
        }
    }
    assert forall|a: Seq<char>, b: Seq<char>| #[trigger] order(a, b) || #[trigger] order(b, a) by {
        lemma_lex_total(a, b);
    }
}

fn insert_row(rows: &mut Vec<String>, row: String)
    requires
        vstd::relations::sorted_by(texts_of(old(rows)@), row_order()),
    ensures
        vstd::relations::sorted_by(texts_of(final(rows)@), row_order()),
        texts_of(final(rows)@).to_multiset() == texts_of(old(rows)@).to_multiset().insert(row@),
{
    let ghost before = texts_of(rows@);
    let ghost new = row@;
    let ghost order = row_order();
    let mut at: usize = 0;
    while at < rows.len() && text_less(rows[at].as_str(), row.as_str())
        invariant
            at <= rows@.len(),
            before == texts_of(rows@),
            new == row@,
            forall|k: int| 0 <= k < at ==> lex_less(#[trigger] before[k], new),
        decreases rows@.len() - at,
    {
        assert(before[at as int] == rows@[at as int]@);
        at = at + 1;
    }
    proof {
        if at < rows@.len() {
            assert(before[at as int] == rows@[at as int]@);
        }
    }
    rows.insert(at, row);
    proof {
        let after = texts_of(rows@);
        assert(after =~= before.insert(at as int, new));
        vstd::seq_lib::to_multiset_insert(before, at as int, new);
        lemma_row_order();
        assert forall|i: int, j: int| 0 <= i < j < after.len() implies #[trigger] order(
            after[i],
            after[j],
        ) by {
            if j == at {
                assert(after[i] == before[i]);
            } else if i == at {
                assert(after[j] == before[j - 1]);
                lemma_lex_total(before[at as int], new);
                assert(order(new, before[at as int]));
                if j - 1 > at {
                    assert(order(before[at as int], before[j - 1]));
                }
            } else {
                let a = if i < at {
                    i
                } else {
                    i - 1
                };
                let b = if j < at {
                    j
                } else {
                    j - 1
                };
                assert(after[i] == before[a]);
                assert(after[j] == before[b]);
                assert(order(before[a], before[b]));
            }
        }
    }
}

fn sort_rows(rows: &Vec<String>) -> (sorted: Vec<String>)
    ensures
        vstd::relations::sorted_by(texts_of(sorted@), row_order()),
        texts_of(sorted@).to_multiset() == texts_of(rows@).to_multiset(),
{
    let mut sorted: Vec<String> = Vec::new();
    let mut i: usize = 0;
    assert(texts_of(sorted@) =~= texts_of(rows@).take(0));
    while i < rows.len()
        invariant
            i <= rows@.len(),
            vstd::relations::sorted_by(texts_of(sorted@), row_order()),
            texts_of(sorted@).to_multiset() == texts_of(rows@).take(i as int).to_multiset(),
        decreases rows@.len() - i,
    {
        let ghost prefix = texts_of(rows@).take(i as int);
        let row = rows[i].clone();
        proof {
            prefix.to_multiset_ensures();
            assert(texts_of(rows@).take(i + 1) =~= prefix.push(row@));
        }
        insert_row(&mut sorted, row);
        i = i + 1;
    }
    assert(texts_of(rows@).take(i as int) =~= texts_of(rows@));
    sorted
}

/// Two tables hold the same rows, in whatever order.
pub open spec fn same_table(a: TableRows, b: TableRows) -> bool {
    a.name@ == b.name@ && texts_of(a.rows@).to_multiset() == texts_of(b.rows@).to_multiset()
}

fn tables_agree(a: &TableRows, b: &TableRows) -> (same: bool)
    ensures
        same == same_table(*a, *b),
{
    if !(a.name == b.name) {
        return false;
    }
    let left = sort_rows(&a.rows);
    let right = sort_rows(&b.rows);
    let ghost x = texts_of(left@);
    let ghost y = texts_of(right@);
    proof {
        x.to_multiset_ensures();
        y.to_multiset_ensures();
        lemma_row_order();
        if x.to_multiset() == y.to_multiset() {
            vstd::seq_lib::lemma_sorted_unique(x, y, row_order());
        }
    }
    let same = crate::documents::same_texts(&left, &right);
    assert(crate::text::texts_view(left@) =~= x);
    assert(crate::text::texts_view(right@) =~= y);
    same
}

/// Two images hold the same tables, in the order of their names.
pub open spec fn same_images(a: Seq<TableRows>, b: Seq<TableRows>) -> bool {
    &&& a.len() == b.len()
    &&& forall|i: int| 0 <= i < a.len() ==> same_table(#[trigger] a[i], b[i])
}

/// Compares all rows of two images.
pub fn compare_logical_images(a: &Vec<TableRows>, b: &Vec<TableRows>) -> (r: Result<
    (),
    RuntimeError,
>)
    ensures
        match r {
            Ok(()) => same_images(a@, b@),
            Err(e) => !same_images(a@, b@) && e@ == ErrorView::Corrupt(
                "retained commit does not explain relational transition"@,
            ),
        },
{
    if a.len() != b.len() {
        return Err(corrupt("retained commit does not explain relational transition"));
    }
    let mut i: usize = 0;
    while i < a.len()
        invariant
            i <= a@.len(),
            a@.len() == b@.len(),
            forall|k: int| 0 <= k < i ==> same_table(#[trigger] a@[k], b@[k]),
        decreases a@.len() - i,
    {
        if !tables_agree(&a[i], &b[i]) {
            assert(!same_table(a@[i as int], b@[i as int]));
            return Err(corrupt("retained commit does not explain relational transition"));
        }
        i = i + 1;
    }
    Ok(())
}

} // verus!
