//! Logical intents: what a request asks for, apart from how it is carried out.
//! A request that is repeated under one key has to have the same intent.
use crate::append::{AppendFile, AppendRequest};
use crate::candidate::{logical_metrics, metric_documents, number, shown};
use crate::hash::hex_text;
use crate::schema::Schema;
use crate::text::append_decimal;
use crate::value::{
    copy_members, members_view, text, values_view, with_member, CanonicalValue, Member, ValueView,
};
use vstd::prelude::*;

verus! {

/// A file as an intent holds it: by its contents, not by where it is.
pub open spec fn logical_file_document(file: AppendFile) -> ValueView {
    ValueView::Object(
        seq![
            ("expected_length"@, number(file.fingerprint.length as int)),
            ("expected_sha256"@, shown(hex_text(file.fingerprint.sha256@))),
            ("format"@, shown(file.format.spec_text())),
            ("metadata"@, ValueView::Object(members_view(file.metadata@))),
            ("metrics"@, ValueView::Array(metric_documents(file.metrics@))),
            ("partition_spec_id"@, number(file.partition_spec_id as int)),
            ("partition_values"@, ValueView::Object(members_view(file.partition_values@))),
            ("record_count"@, number(file.record_count as int)),
            ("schema_id"@, number(file.schema_id as int)),
            ("sort_order_id"@, number(file.sort_order_id as int)),
        ],
    )
}

pub open spec fn logical_file_documents(files: Seq<AppendFile>) -> Seq<ValueView> {
    Seq::new(files.len(), |i: int| logical_file_document(files[i]))
}

/// The intent of an append.
pub open spec fn intent_document(request: AppendRequest) -> ValueView {
    ValueView::Object(
        seq![
            ("caller_summary"@, ValueView::Object(members_view(request.summary@))),
            ("commit_metadata"@, ValueView::Object(members_view(request.commit_metadata@))),
            ("files"@, ValueView::Array(logical_file_documents(request.files@))),
            ("operation"@, shown("append"@)),
            ("snapshot_metadata"@, ValueView::Object(members_view(request.snapshot_metadata@))),
            ("target_ref"@, shown(request.target_ref@)),
        ],
    )
}

fn number_value(n: u64) -> (v: CanonicalValue)
    ensures
        v@ == number(n as int),
{
    let mut digits = String::new();
    append_decimal(&mut digits, n);
    assert(digits@ =~= crate::text::decimal(n as nat));
    CanonicalValue::Text(digits)
}

fn object(members: &Vec<Member>) -> (v: CanonicalValue)
    ensures
        v@ == ValueView::Object(members_view(members@)),
{
    CanonicalValue::Object(copy_members(members))
}

/// A file as an intent holds it.
pub fn logical_file(file: &AppendFile) -> (v: CanonicalValue)
    ensures
        v@ == logical_file_document(*file),
{
    let m: Vec<Member> = Vec::new();
    assert(members_view(m@) =~= Seq::<(Seq<char>, ValueView)>::empty());
    let m = with_member(m, "expected_length", number_value(file.fingerprint.length));
    let m = with_member(
        m,
        "expected_sha256",
        CanonicalValue::Text(file.fingerprint.sha256.to_text()),
    );
    let m = with_member(m, "format", text(file.format.as_str()));
    let m = with_member(m, "metadata", object(&file.metadata));
    let m = with_member(m, "metrics", CanonicalValue::Array(logical_metrics(&file.metrics)));
    let m = with_member(m, "partition_spec_id", number_value(file.partition_spec_id as u64));
    let m = with_member(m, "partition_values", object(&file.partition_values));
    let m = with_member(m, "record_count", number_value(file.record_count));
    let m = with_member(m, "schema_id", number_value(file.schema_id as u64));
    let m = with_member(m, "sort_order_id", number_value(file.sort_order_id as u64));
    assert(members_view(m@) =~= logical_file_document(*file)->Object_0);
    CanonicalValue::Object(m)
}

/// The intent of an append.
pub fn logical_intent(request: &AppendRequest) -> (v: CanonicalValue)
    ensures
        v@ == intent_document(*request),
{
    let mut files: Vec<CanonicalValue> = Vec::new();
    let mut i: usize = 0;
    assert(values_view(files@) =~= logical_file_documents(request.files@).take(0));
    while i < request.files.len()
        invariant
            i <= request.files@.len(),
            values_view(files@) == logical_file_documents(request.files@).take(i as int),
        decreases request.files@.len() - i,
    {
        let ghost before = files@;
        files.push(logical_file(&request.files[i]));
        i = i + 1;
        assert(files@.drop_last() =~= before);
        assert(values_view(files@) =~= logical_file_documents(request.files@).take(i as int));
    }
    assert(values_view(files@) =~= logical_file_documents(request.files@));
    let m: Vec<Member> = Vec::new();
    assert(members_view(m@) =~= Seq::<(Seq<char>, ValueView)>::empty());
    let m = with_member(m, "caller_summary", object(&request.summary));
    let m = with_member(m, "commit_metadata", object(&request.commit_metadata));
    let m = with_member(m, "files", CanonicalValue::Array(files));
    let m = with_member(m, "operation", text("append"));
    let m = with_member(m, "snapshot_metadata", object(&request.snapshot_metadata));
    let m = with_member(m, "target_ref", CanonicalValue::Text(request.target_ref.clone()));
    assert(members_view(m@) =~= intent_document(*request)->Object_0);
    CanonicalValue::Object(m)
}

/// The intent of an append depends neither on its key nor on where its files
/// come from: a retry from other paths is the same request.
pub proof fn lemma_intent_ignores_places(a: AppendRequest, b: AppendRequest)
    requires
        a.target_ref@ == b.target_ref@,
        a.summary == b.summary,
        a.commit_metadata == b.commit_metadata,
        a.snapshot_metadata == b.snapshot_metadata,
        a.files@.len() == b.files@.len(),
        forall|i: int|
            0 <= i < a.files@.len() ==> (#[trigger] b.files@[i]) == (AppendFile {
                source_path: b.files@[i].source_path,
                ..a.files@[i]
            }),
    ensures
        intent_document(a) == intent_document(b),
{
    assert forall|i: int| 0 <= i < a.files@.len() implies #[trigger] logical_file_document(
        a.files@[i],
    ) == logical_file_document(b.files@[i]) by {
        assert(b.files@[i].fingerprint == a.files@[i].fingerprint);
    }
    assert(logical_file_documents(a.files@) =~= logical_file_documents(b.files@));
}

/// Appends with one intent go to one ref, and each has the other's files by
/// length and digest, in the same order.
pub proof fn lemma_intent_fixes_files(a: AppendRequest, b: AppendRequest, i: int)
    requires
        intent_document(a) == intent_document(b),
        0 <= i < a.files@.len(),
    ensures
        a.target_ref@ == b.target_ref@,
        a.files@.len() == b.files@.len(),
        a.files@[i].fingerprint.length == b.files@[i].fingerprint.length,
        a.files@[i].record_count == b.files@[i].record_count,
        hex_text(a.files@[i].fingerprint.sha256@) == hex_text(b.files@[i].fingerprint.sha256@),
{
    let da = intent_document(a)->Object_0;
    let db = intent_document(b)->Object_0;
    assert(da[5].1 == db[5].1);
    assert(da[2].1 == db[2].1);
    let fa = logical_file_documents(a.files@);
    let fb = logical_file_documents(b.files@);
    assert(fa == fb);
    assert(fa[i] == fb[i]);
    let ma = logical_file_document(a.files@[i])->Object_0;
    let mb = logical_file_document(b.files@[i])->Object_0;
    assert(ma[0].1 == mb[0].1);
    assert(ma[1].1 == mb[1].1);
    assert(ma[7].1 == mb[7].1);
    crate::text::lemma_decimal_injective(
        a.files@[i].fingerprint.length as nat,
        b.files@[i].fingerprint.length as nat,
    );
    crate::text::lemma_decimal_injective(
        a.files@[i].record_count as nat,
        b.files@[i].record_count as nat,
    );
}

/// A request for a new table.
#[derive(Debug)]
pub struct InitializeRequest {
    pub schema: Schema,
    pub metadata: Vec<Member>,
}

impl InitializeRequest {
    /// A request without metadata.
    pub fn new(schema: Schema) -> (request: Self)
        ensures
            request.schema == schema,
            request.metadata@.len() == 0,
    {
        InitializeRequest { schema, metadata: Vec::new() }
    }
}

} // verus!
