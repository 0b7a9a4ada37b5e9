//! What can go wrong, with stable machine-readable codes.
use crate::storage::{StorageError, StorageErrorView};
use crate::text::{append_decimal, decimal, joined};
use vstd::prelude::*;

verus! {

/// A failure reported by a protocol codec, carried with its own code.
#[derive(Clone, Debug)]
pub struct ProtocolError {
    pub code: String,
    pub message: String,
}

#[derive(Clone, Debug)]
pub enum RuntimeError {
    InvalidTransaction(String),
    SemanticConflict(String),
    SnapshotNotFound,
    MetadataVersionNotFound(u64),
    HistoryNotRetained(u64),
    Protocol(ProtocolError),
    Storage(StorageError),
    Sqlite(String),
    Turso(String),
    Io(String),
    AlreadyExists,
    IdempotencyConflict,
    FingerprintMismatch,
    StagingMismatch(String),
    InvalidAppend(String),
    InvalidInitialize(String),
    PublicationIndeterminate,
    RebaseExhausted,
    Corrupt(String),
    RefNotFound(String),
    ResourceExhausted(String),
    Cancelled,
    AuthenticatedRangesUnavailable,
}

/// A `RuntimeError` with each text taken as its characters.
pub enum ErrorView {
    InvalidTransaction(Seq<char>),
    SemanticConflict(Seq<char>),
    SnapshotNotFound,
    MetadataVersionNotFound(u64),
    HistoryNotRetained(u64),
    Protocol(Seq<char>, Seq<char>),
    Storage(StorageErrorView),
    Sqlite(Seq<char>),
    Turso(Seq<char>),
    Io(Seq<char>),
    AlreadyExists,
    IdempotencyConflict,
    FingerprintMismatch,
    StagingMismatch(Seq<char>),
    InvalidAppend(Seq<char>),
    InvalidInitialize(Seq<char>),
    PublicationIndeterminate,
    RebaseExhausted,
    Corrupt(Seq<char>),
    RefNotFound(Seq<char>),
    ResourceExhausted(Seq<char>),
    Cancelled,
    AuthenticatedRangesUnavailable,
}

impl View for RuntimeError {
    type V = ErrorView;

    open spec fn view(&self) -> ErrorView {
        match *self {
            RuntimeError::InvalidTransaction(m) => ErrorView::InvalidTransaction(m@),
            RuntimeError::SemanticConflict(m) => ErrorView::SemanticConflict(m@),
            RuntimeError::SnapshotNotFound => ErrorView::SnapshotNotFound,
            RuntimeError::MetadataVersionNotFound(v) => ErrorView::MetadataVersionNotFound(v),
            RuntimeError::HistoryNotRetained(v) => ErrorView::HistoryNotRetained(v),
            RuntimeError::Protocol(e) => ErrorView::Protocol(e.code@, e.message@),
            RuntimeError::Storage(e) => ErrorView::Storage(e@),
            RuntimeError::Sqlite(m) => ErrorView::Sqlite(m@),
            RuntimeError::Turso(m) => ErrorView::Turso(m@),
            RuntimeError::Io(m) => ErrorView::Io(m@),
            RuntimeError::AlreadyExists => ErrorView::AlreadyExists,
            RuntimeError::IdempotencyConflict => ErrorView::IdempotencyConflict,
            RuntimeError::FingerprintMismatch => ErrorView::FingerprintMismatch,
            RuntimeError::StagingMismatch(m) => ErrorView::StagingMismatch(m@),
            RuntimeError::InvalidAppend(m) => ErrorView::InvalidAppend(m@),
            RuntimeError::InvalidInitialize(m) => ErrorView::InvalidInitialize(m@),
            RuntimeError::PublicationIndeterminate => ErrorView::PublicationIndeterminate,
            RuntimeError::RebaseExhausted => ErrorView::RebaseExhausted,
            RuntimeError::Corrupt(m) => ErrorView::Corrupt(m@),
            RuntimeError::RefNotFound(m) => ErrorView::RefNotFound(m@),
            RuntimeError::ResourceExhausted(m) => ErrorView::ResourceExhausted(m@),
            RuntimeError::Cancelled => ErrorView::Cancelled,
            RuntimeError::AuthenticatedRangesUnavailable => ErrorView::AuthenticatedRangesUnavailable,
        }
    }
}

/// A result with its error taken by view.
pub open spec fn outcome<T>(r: Result<T, RuntimeError>) -> Result<T, ErrorView> {
    match r {
        Ok(value) => Ok(value),
        Err(error) => Err(error@),
    }
}

/// The code that a protocol failure carries, or the fixed code of any other failure.
pub open spec fn error_code(e: ErrorView) -> Seq<char> {
    match e {
        ErrorView::InvalidTransaction(_) => "OTMP_INVALID_TRANSACTION"@,
        ErrorView::SemanticConflict(_) => "OTMP_SEMANTIC_CONFLICT"@,
        ErrorView::SnapshotNotFound => "OTMP_SNAPSHOT_NOT_FOUND"@,
        ErrorView::MetadataVersionNotFound(_) => "OTMP_METADATA_VERSION_NOT_FOUND"@,
        ErrorView::HistoryNotRetained(_) => "OTMP_HISTORY_NOT_RETAINED"@,
        ErrorView::Protocol(code, _) => code,
        ErrorView::Storage(error) => crate::storage::storage_error_code(error),
        ErrorView::Sqlite(_) => "OTMP_SQLITE_ERROR"@,
        ErrorView::Turso(_) => "OTMP_TURSO_ERROR"@,
        ErrorView::Io(_) => "OTMP_IO_ERROR"@,
        ErrorView::AlreadyExists => "OTMP_ALREADY_EXISTS"@,
        ErrorView::IdempotencyConflict => "OTMP_IDEMPOTENCY_CONFLICT"@,
        ErrorView::FingerprintMismatch => "OTMP_FINGERPRINT_MISMATCH"@,
        ErrorView::StagingMismatch(_) => "OTMP_STAGING_MISMATCH"@,
        ErrorView::InvalidAppend(_) => "OTMP_INVALID_APPEND"@,
        ErrorView::InvalidInitialize(_) => "OTMP_INVALID_INITIALIZE"@,
        ErrorView::PublicationIndeterminate => "OTMP_PUBLICATION_INDETERMINATE"@,
        ErrorView::RebaseExhausted => "OTMP_REBASE_EXHAUSTED"@,
        ErrorView::Corrupt(_) => "OTMP_CORRUPT_TABLE"@,
        ErrorView::RefNotFound(_) => "OTMP_REF_NOT_FOUND"@,
        ErrorView::ResourceExhausted(_) => "OTMP_RESOURCE_EXHAUSTED"@,
        ErrorView::Cancelled => "OTMP_CANCELLED"@,
        ErrorView::AuthenticatedRangesUnavailable => "OTMP_AUTHENTICATED_RANGES_UNAVAILABLE"@,
    }
}

/// Whether repeating the operation unchanged may succeed.
pub open spec fn error_retryable(e: ErrorView) -> bool {
    match e {
        ErrorView::PublicationIndeterminate | ErrorView::RebaseExhausted => true,
        ErrorView::Storage(error) => crate::storage::storage_error_retryable(error),
        _ => false,
    }
}

/// What went wrong, in words.
pub open spec fn error_message(e: ErrorView) -> Seq<char> {
    match e {
        ErrorView::InvalidTransaction(m) => "transaction is invalid: "@ + m,
        ErrorView::SemanticConflict(m) => "semantic conflict: "@ + m,
        ErrorView::SnapshotNotFound => "snapshot not found"@,
        ErrorView::MetadataVersionNotFound(v) => "metadata version not found: "@ + decimal(v as nat),
        ErrorView::HistoryNotRetained(v) => "history not retained for version: "@ + decimal(v as nat),
        ErrorView::Protocol(_, m) => m,
        ErrorView::Storage(error) => crate::storage::storage_error_message(error),
        ErrorView::Sqlite(m) => "SQLite failure: "@ + m,
        ErrorView::Turso(m) => "Turso failure: "@ + m,
        ErrorView::Io(m) => "I/O failure: "@ + m,
        ErrorView::AlreadyExists => "table already exists"@,
        ErrorView::IdempotencyConflict => "idempotency key was reused for a different logical intent"@,
        ErrorView::FingerprintMismatch => "source or staged object does not match the expected fingerprint"@,
        ErrorView::StagingMismatch(m) => "verified staged files do not match the logical request: "@ + m,
        ErrorView::InvalidAppend(m) => "append request is invalid: "@ + m,
        ErrorView::InvalidInitialize(m) => "initialize request is invalid: "@ + m,
        ErrorView::PublicationIndeterminate => "conditional publication remained indeterminate after reconciliation"@,
        ErrorView::RebaseExhausted => "append-safe rebase retry limit was exhausted"@,
        ErrorView::Corrupt(m) => "table is corrupt: "@ + m,
        ErrorView::RefNotFound(m) => "requested ref does not exist: "@ + m,
        ErrorView::ResourceExhausted(m) => "resource budget exhausted: "@ + m,
        ErrorView::Cancelled => "operation was cancelled"@,
        ErrorView::AuthenticatedRangesUnavailable => "authenticated metadata ranges are unavailable"@,
    }
}

/// A failure as it is handed to other programs.
#[derive(Debug)]
pub struct ErrorPayload {
    pub code: String,
    pub message: String,
    pub retryable: bool,
}

fn numbered(text: &str, n: u64) -> (out: String)
    ensures
        out@ == text@ + decimal(n as nat),
{
    let mut out = text.to_owned();
    append_decimal(&mut out, n);
    out
}

impl RuntimeError {
    /// The stable code of this failure.
    pub fn code(&self) -> (code: &str)
        ensures
            code@ == error_code(self@),
    {
        match self {
            RuntimeError::InvalidTransaction(_) => "OTMP_INVALID_TRANSACTION",
            RuntimeError::SemanticConflict(_) => "OTMP_SEMANTIC_CONFLICT",
            RuntimeError::SnapshotNotFound => "OTMP_SNAPSHOT_NOT_FOUND",
            RuntimeError::MetadataVersionNotFound(_) => "OTMP_METADATA_VERSION_NOT_FOUND",
            RuntimeError::HistoryNotRetained(_) => "OTMP_HISTORY_NOT_RETAINED",
            RuntimeError::Protocol(error) => error.code.as_str(),
            RuntimeError::Storage(error) => error.code(),
            RuntimeError::Sqlite(_) => "OTMP_SQLITE_ERROR",
            RuntimeError::Turso(_) => "OTMP_TURSO_ERROR",
            RuntimeError::Io(_) => "OTMP_IO_ERROR",
            RuntimeError::AlreadyExists => "OTMP_ALREADY_EXISTS",
            RuntimeError::IdempotencyConflict => "OTMP_IDEMPOTENCY_CONFLICT",
            RuntimeError::FingerprintMismatch => "OTMP_FINGERPRINT_MISMATCH",
            RuntimeError::StagingMismatch(_) => "OTMP_STAGING_MISMATCH",
            RuntimeError::InvalidAppend(_) => "OTMP_INVALID_APPEND",
            RuntimeError::InvalidInitialize(_) => "OTMP_INVALID_INITIALIZE",
            RuntimeError::PublicationIndeterminate => "OTMP_PUBLICATION_INDETERMINATE",
            RuntimeError::RebaseExhausted => "OTMP_REBASE_EXHAUSTED",
            RuntimeError::Corrupt(_) => "OTMP_CORRUPT_TABLE",
            RuntimeError::RefNotFound(_) => "OTMP_REF_NOT_FOUND",
            RuntimeError::ResourceExhausted(_) => "OTMP_RESOURCE_EXHAUSTED",
            RuntimeError::Cancelled => "OTMP_CANCELLED",
            RuntimeError::AuthenticatedRangesUnavailable => "OTMP_AUTHENTICATED_RANGES_UNAVAILABLE",
        }
    }

    /// Whether repeating the operation unchanged may succeed.
    pub fn retryable(&self) -> (retryable: bool)
        ensures
            retryable == error_retryable(self@),
    {
        match self {
            RuntimeError::PublicationIndeterminate => true,
            RuntimeError::RebaseExhausted => true,
            RuntimeError::Storage(error) => error.retryable(),
            _ => false,
        }
    }

    /// What went wrong, in words.
    pub fn message(&self) -> (message: String)
        ensures
            message@ == error_message(self@),
    {
        match self {
            RuntimeError::InvalidTransaction(m) => joined("transaction is invalid: ", m.as_str()),
            RuntimeError::SemanticConflict(m) => joined("semantic conflict: ", m.as_str()),
            RuntimeError::SnapshotNotFound => "snapshot not found".to_owned(),
            RuntimeError::MetadataVersionNotFound(v) => numbered("metadata version not found: ", *v),
            RuntimeError::HistoryNotRetained(v) => numbered("history not retained for version: ", *v),
            RuntimeError::Protocol(error) => error.message.clone(),
            RuntimeError::Storage(error) => error.message(),
            RuntimeError::Sqlite(m) => joined("SQLite failure: ", m.as_str()),
            RuntimeError::Turso(m) => joined("Turso failure: ", m.as_str()),
            RuntimeError::Io(m) => joined("I/O failure: ", m.as_str()),
            RuntimeError::AlreadyExists => "table already exists".to_owned(),
            RuntimeError::IdempotencyConflict => "idempotency key was reused for a different logical intent".to_owned(),
            RuntimeError::FingerprintMismatch => "source or staged object does not match the expected fingerprint".to_owned(),
            RuntimeError::StagingMismatch(m) => joined("verified staged files do not match the logical request: ", m.as_str()),
            RuntimeError::InvalidAppend(m) => joined("append request is invalid: ", m.as_str()),
            RuntimeError::InvalidInitialize(m) => joined("initialize request is invalid: ", m.as_str()),
            RuntimeError::PublicationIndeterminate => "conditional publication remained indeterminate after reconciliation".to_owned(),
            RuntimeError::RebaseExhausted => "append-safe rebase retry limit was exhausted".to_owned(),
            RuntimeError::Corrupt(m) => joined("table is corrupt: ", m.as_str()),
            RuntimeError::RefNotFound(m) => joined("requested ref does not exist: ", m.as_str()),
            RuntimeError::ResourceExhausted(m) => joined("resource budget exhausted: ", m.as_str()),
            RuntimeError::Cancelled => "operation was cancelled".to_owned(),
            RuntimeError::AuthenticatedRangesUnavailable => "authenticated metadata ranges are unavailable".to_owned(),
        }
    }

    /// The failure with its code, its words, and whether to try again.
    pub fn payload(&self) -> (payload: ErrorPayload)
        ensures
            payload.code@ == error_code(self@),
            payload.message@ == error_message(self@),
            payload.retryable == error_retryable(self@),
    {
        ErrorPayload {
            code: self.code().to_owned(),
            message: self.message(),
            retryable: self.retryable(),
        }
    }
}

pub(crate) fn corrupt(message: &str) -> (e: RuntimeError)
    ensures
        e@ == ErrorView::Corrupt(message@),
{
    RuntimeError::Corrupt(message.to_owned())
}

pub(crate) fn exhausted(message: &str) -> (e: RuntimeError)
    ensures
        e@ == ErrorView::ResourceExhausted(message@),
{
    RuntimeError::ResourceExhausted(message.to_owned())
}

} // verus!
