//! What an append stores of its files: the totals, the staged files and the time.
use crate::append::{
    derived_summary, number_text, staged_match_result, staged_matches, staged_before, staged_ok,
    timestamp_ms, total_bytes, total_records, totals, validate_request_against,
    validate_request_for_write, validate_staged, AppendFile, AppendRequest, AppendResult,
    VerifiedStagedFile,
};
use crate::catalog::RefType;
use crate::error::RuntimeError;
use crate::hash::Id;
use crate::laws::accepted_appends::{lemma_totals, sum};
use crate::laws::carried_appends::{lemma_says, says};
use crate::schema::Field;
use crate::text::decimal;
use crate::value::{member_of, members_view, Member, ValueView};
use vstd::prelude::*;

verus! {

/// The number that decimal digits stand for.
pub open spec fn number_of(text: Seq<char>) -> int
    decreases text.len(),
{
    if text.len() == 0 {
        0
    } else {
        10 * number_of(text.drop_last()) + (text.last() as int - '0' as int)
    }
}

/// A number in decimal digits, without zeros before it.
pub open spec fn writes(text: Seq<char>, n: int) -> bool {
    &&& text.len() > 0
    &&& forall|i: int| 0 <= i < text.len() ==> '0' <= #[trigger] text[i] <= '9'
    &&& text.len() > 1 ==> text[0] != '0'
    &&& number_of(text) == n
}

pub proof fn lemma_decimal_writes(n: nat)
    ensures
        writes(decimal(n), n as int),
        n > 0 ==> decimal(n)[0] != '0',
    decreases n,
{
    let text = decimal(n);
    if n < 10 {
        assert(text.drop_last() =~= Seq::<char>::empty());
        assert(number_of(text.drop_last()) == 0);
        assert(text[0] == crate::text::digit_char(n));
    } else {
        lemma_decimal_writes(n / 10);
        assert(text.drop_last() =~= decimal(n / 10));
        assert(text[0] == decimal(n / 10)[0]);
        assert forall|i: int| 0 <= i < text.len() implies '0' <= #[trigger] text[i] <= '9' by {
            if i < text.len() - 1 {
                assert(text[i] == decimal(n / 10)[i]);
            }
        }
    }
}

/// A number is written in decimal digits.
pub proof fn lemma_number_is_written(n: u64, text: String)
    requires
        call_ensures(number_text, (n,), text),
    ensures
        writes(text@, n as int),
{
    lemma_decimal_writes(n as nat);
}

pub open spec fn records_of(files: Seq<AppendFile>) -> int {
    sum(Seq::new(files.len(), |i: int| files[i].record_count))
}

pub open spec fn bytes_of(files: Seq<AppendFile>) -> int {
    sum(Seq::new(files.len(), |i: int| files[i].fingerprint.length))
}

/// The totals of files are the sums of their records and of their lengths, and there
/// are none only where one of the sums cannot be stored.
pub proof fn lemma_totals_are_sums(files: Vec<AppendFile>, r: Result<(u64, u64), RuntimeError>)
    requires
        call_ensures(totals, (&files,), r),
    ensures
        r matches Ok((records, bytes)) ==> records == records_of(files@) && bytes == bytes_of(
            files@,
        ),
        r is Err <==> records_of(files@) > 0x7fff_ffff_ffff_ffff || bytes_of(files@)
            > 0x7fff_ffff_ffff_ffff,
{
    lemma_totals(files@);
}

/// The summary of an append tells its files, records and bytes, keeps what the caller
/// said under other keys, and says nothing more.
pub proof fn lemma_summary_tells_the_totals(
    request: AppendRequest,
    r: Result<Vec<Member>, RuntimeError>,
    key: Seq<char>,
    value: ValueView,
)
    requires
        call_ensures(derived_summary, (&request,), r),
    ensures
        r matches Ok(summary) ==> {
            let out = members_view(summary@);
            &&& says(out, "added-data-files"@, value) ==> (value matches ValueView::Text(text)
                && writes(text, request.files@.len() as int))
            &&& says(out, "added-records"@, value) ==> (value matches ValueView::Text(text)
                && writes(text, records_of(request.files@)))
            &&& says(out, "added-files-size"@, value) ==> (value matches ValueView::Text(text)
                && writes(text, bytes_of(request.files@)))
            &&& exists|v: ValueView| says(out, "added-data-files"@, v)
            &&& exists|v: ValueView| says(out, "added-records"@, v)
            &&& exists|v: ValueView| says(out, "added-files-size"@, v)
            &&& key != "added-data-files"@ && key != "added-records"@ && key
                != "added-files-size"@ ==> (says(out, key, value) <==> says(
                members_view(request.summary@),
                key,
                value,
            ))
        },
        r is Err <==> records_of(request.files@) > 0x7fff_ffff_ffff_ffff || bytes_of(
            request.files@,
        ) > 0x7fff_ffff_ffff_ffff,
{
    let files = request.files@;
    lemma_totals(files);
    if let Ok(summary) = r {
        let out = members_view(summary@);
        assert(total_records(files) >= 0 && total_bytes(files) >= 0) by {
            lemma_sums_are_natural(Seq::new(files.len(), |i: int| files[i].record_count));
            lemma_sums_are_natural(Seq::new(files.len(), |i: int| files[i].fingerprint.length));
        }
        lemma_decimal_writes(files.len());
        lemma_decimal_writes(total_records(files) as nat);
        lemma_decimal_writes(total_bytes(files) as nat);
        lemma_says(out, "added-data-files"@, value);
        lemma_says(out, "added-records"@, value);
        lemma_says(out, "added-files-size"@, value);
        lemma_says(out, "added-data-files"@, ValueView::Text(decimal(files.len())));
        lemma_says(out, "added-records"@, ValueView::Text(decimal(total_records(files) as nat)));
        lemma_says(out, "added-files-size"@, ValueView::Text(decimal(total_bytes(files) as nat)));
        lemma_says(out, key, value);
        lemma_says(members_view(request.summary@), key, value);
        assert(member_of(out, key) == member_of(out, key));
    }
}

proof fn lemma_sums_are_natural(numbers: Seq<u64>)
    ensures
        sum(numbers) >= 0,
    decreases numbers.len(),
{
    if numbers.len() > 0 {
        lemma_sums_are_natural(numbers.skip(1));
    }
}

/// Staged files are taken exactly if there is one for each file of the request, in
/// its order, of this table, with its digest, length and format and without an
/// identity of the store, and no two of them share an identifier or an address.
pub proof fn lemma_staged_files_are_the_requested(
    request: AppendRequest,
    staged: Vec<VerifiedStagedFile>,
    table_id: Id,
    r: Result<(), RuntimeError>,
)
    requires
        call_ensures(validate_staged, (&request, &staged, table_id), r),
    ensures
        r is Ok <==> {
            &&& staged@.len() == request.files@.len()
            &&& forall|i: int|
                0 <= i < staged@.len() ==> {
                    &&& (#[trigger] staged@[i]).table_id == table_id
                    &&& staged@[i].ordinal == i
                    &&& staged@[i].sha256 == request.files@[i].fingerprint.sha256
                    &&& staged@[i].length == request.files@[i].fingerprint.length
                    &&& staged@[i].format == request.files@[i].format
                    &&& staged@[i].object_identity is None
                }
            &&& forall|i: int, j: int|
                0 <= i < j < staged@.len() ==> (#[trigger] staged@[i]).file_id != (
                #[trigger] staged@[j]).file_id && staged@[i].uri@ != staged@[j].uri@
        },
{
    let files = request.files@;
    if let Ok(()) = r {
        assert(crate::append::all_staged_ok(files, staged@, table_id));
        assert forall|i: int| 0 <= i < staged@.len() implies {
            &&& (#[trigger] staged@[i]).table_id == table_id
            &&& staged@[i].ordinal == i
            &&& staged@[i].sha256 == request.files@[i].fingerprint.sha256
            &&& staged@[i].length == request.files@[i].fingerprint.length
            &&& staged@[i].format == request.files@[i].format
            &&& staged@[i].object_identity is None
        } by {
            assert(staged_ok(files, staged@, table_id, i));
        }
        assert forall|i: int, j: int| 0 <= i < j < staged@.len() implies (
        #[trigger] staged@[i]).file_id != (#[trigger] staged@[j]).file_id && staged@[i].uri@
            != staged@[j].uri@ by {
            assert(staged_ok(files, staged@, table_id, j));
        }
    } else if staged@.len() == files.len() {
        let i = choose|i: int|
            {
                &&& 0 <= i < staged@.len()
                &&& !#[trigger] staged_ok(files, staged@, table_id, i)
            };
        if staged_matches(files[i], staged@[i], table_id, i) {
            assert(staged_before(staged@, i, staged@[i]));
            let k = choose|k: int|
                0 <= k < i && ((#[trigger] staged@[k]).file_id == staged@[i].file_id
                    || staged@[k].uri@ == staged@[i].uri@);
            assert(staged@[k].file_id == staged@[i].file_id || staged@[k].uri@ == staged@[i].uri@);
        } else {
            assert(staged@[i].ordinal == staged@[i].ordinal);
        }
    }
}

/// A result is that of the staged files exactly if it lists their identifiers and
/// addresses, one by one.
pub proof fn lemma_result_lists_the_staged(
    staged: Vec<VerifiedStagedFile>,
    result: AppendResult,
    same: bool,
)
    requires
        call_ensures(staged_match_result, (&staged, &result), same),
    ensures
        same <==> {
            &&& Seq::new(staged@.len(), |i: int| staged@[i].file_id) == Seq::new(
                result.files@.len(),
                |i: int| result.files@[i].file_id,
            )
            &&& Seq::new(staged@.len(), |i: int| staged@[i].uri@) == Seq::new(
                result.files@.len(),
                |i: int| result.files@[i].uri@,
            )
        },
{
    let ids = Seq::new(staged@.len(), |i: int| staged@[i].file_id);
    let listed = Seq::new(result.files@.len(), |i: int| result.files@[i].file_id);
    let uris = Seq::new(staged@.len(), |i: int| staged@[i].uri@);
    let places = Seq::new(result.files@.len(), |i: int| result.files@[i].uri@);
    if same {
        assert forall|i: int| 0 <= i < staged@.len() implies #[trigger] ids[i] == listed[i]
            && uris[i] == places[i] by {
            assert(staged@[i].file_id == result.files@[i].file_id);
        }
        assert(ids =~= listed);
        assert(uris =~= places);
    }
    if ids == listed && uris == places {
        assert(ids.len() == staged@.len() && listed.len() == result.files@.len());
        assert forall|i: int| 0 <= i < staged@.len() implies (#[trigger] staged@[i]).file_id
            == result.files@[i].file_id && staged@[i].uri@ == result.files@[i].uri@ by {
            assert(ids[i] == staged@[i].file_id && listed[i] == result.files@[i].file_id);
            assert(uris[i] == staged@[i].uri@ && places[i] == result.files@[i].uri@);
        }
    }
}

/// A request may be written exactly if its target is a branch and the request is
/// accepted for the schema.
pub proof fn lemma_written_requests(
    request: AppendRequest,
    target: Option<RefType>,
    current_schema: u32,
    fields: Vec<Field>,
    accepted: Result<(), RuntimeError>,
    r: Result<(), RuntimeError>,
)
    requires
        call_ensures(validate_request_against, (&request, current_schema, &fields), accepted),
        call_ensures(validate_request_for_write, (&request, target, current_schema, &fields), r),
    ensures
        r is Ok <==> target == Some(RefType::Branch) && accepted is Ok,
{
}

/// A time is kept as it is, and refused exactly if a signed number of eight bytes
/// cannot hold it.
pub proof fn lemma_time_is_kept(millis: u128, r: Result<i64, RuntimeError>)
    requires
        call_ensures(timestamp_ms, (millis,), r),
    ensures
        r matches Ok(ms) ==> ms == millis,
        r is Ok <==> millis <= 0x7fff_ffff_ffff_ffff,
{
}

} // verus!
