//! What a store over local files decides: revisions, conditional writes of the
//! head, and ranges of files that must not change meanwhile.
use crate::hash::{hex_text, sha256_of, Sha256};
use crate::storage::{
    ConditionalWriteOutcome, ObjectMetadata, ObjectVersion, StorageError,
    StorageErrorView,
};
use crate::text::{append_decimal, append_signed, decimal, signed};
use vstd::prelude::*;

verus! {

/// A store under a directory.
#[derive(Debug)]
pub struct LocalObjectStore {
    root: String,
}

impl LocalObjectStore {
    pub closed spec fn spec_root(&self) -> Seq<char> {
        self.root@
    }

    pub fn new(root: String) -> (store: Self)
        ensures
            store.spec_root() == root@,
    {
        LocalObjectStore { root }
    }

    /// The directory.
    pub fn root(&self) -> (root: &str)
        ensures
            root@ == self.spec_root(),
    {
        self.root.as_str()
    }

    /// Where an object lies.
    pub fn path(&self, key: &str) -> (path: String)
        ensures
            path@ == self.spec_root() + "/"@ + key@,
    {
        let mut path = self.root.clone();
        path.append("/");
        path.append(key);
        path
    }
}

/// What a file system says of one revision of a file.
#[derive(Clone, Copy, Debug)]
pub struct FileFacts {
    pub device: u64,
    pub inode: u64,
    pub length: u64,
    pub modified_seconds: u64,
    pub modified_nanos: u32,
    pub changed_seconds: i64,
    pub changed_nanos: i64,
}

pub open spec fn range_token(facts: FileFacts) -> Seq<char> {
    "otmp-local-range-v1:"@ + decimal(facts.device as nat) + ":"@ + decimal(facts.inode as nat)
        + ":"@ + decimal(facts.length as nat) + ":"@ + decimal(facts.modified_seconds as nat) + ":"@
        + decimal(facts.modified_nanos as nat) + ":"@ + signed(facts.changed_seconds as int) + ":"@
        + signed(facts.changed_nanos as int)
}

/// The length and revision of a file. The revision is cheap to come by: no file
/// is hashed to serve a range of it.
pub fn metadata_for(facts: &FileFacts) -> (metadata: ObjectMetadata)
    ensures
        metadata.length == facts.length,
        metadata.version@ == range_token(*facts),
{
    let mut token = "otmp-local-range-v1:".to_owned();
    append_decimal(&mut token, facts.device);
    token.append(":");
    append_decimal(&mut token, facts.inode);
    token.append(":");
    append_decimal(&mut token, facts.length);
    token.append(":");
    append_decimal(&mut token, facts.modified_seconds);
    token.append(":");
    append_decimal(&mut token, facts.modified_nanos as u64);
    token.append(":");
    append_signed(&mut token, facts.changed_seconds);
    token.append(":");
    append_signed(&mut token, facts.changed_nanos);
    ObjectMetadata { length: facts.length, version: ObjectVersion::from_opaque(token) }
}

/// At which moment of a range read a file is looked at.
#[derive(Clone, Copy, Debug)]
pub enum RangeMoment {
    Before,
    Opening,
    During,
}

pub open spec fn changed_message(moment: RangeMoment) -> Seq<char> {
    match moment {
        RangeMoment::Before => "local object version changed before range read"@,
        RangeMoment::Opening => "local object changed while opening range"@,
        RangeMoment::During => "local object version changed during range read"@,
    }
}

/// Checks that a file is still the revision that a range is read of.
pub fn check_unchanged(found: &ObjectMetadata, expected: &ObjectMetadata, moment: RangeMoment) -> (r:
    Result<(), StorageError>)
    ensures
        match r {
            Ok(()) => found@ == expected@,
            Err(e) => {
                &&& found@ != expected@
                &&& e@ == StorageErrorView::VerificationFailed(changed_message(moment))
            },
        },
{
    if found.length != expected.length || found.version != expected.version {
        let message: &str = match moment {
            RangeMoment::Before => "local object version changed before range read",
            RangeMoment::Opening => "local object changed while opening range",
            RangeMoment::During => "local object version changed during range read",
        };
        return Err(StorageError::VerificationFailed(message.to_owned()));
    }
    Ok(())
}

/// The length of an object after one more piece of it was copied.
pub fn grown(length: u64, read: usize, maximum: Option<u64>) -> (r: Result<u64, StorageError>)
    ensures
        match r {
            Ok(n) => n == length + read && (maximum matches Some(most) ==> n <= most),
            Err(e) => if length + read > u64::MAX {
                e@ == StorageErrorView::Io("object length overflow"@)
            } else {
                &&& maximum matches Some(most) && length + read > most
                &&& e@ == StorageErrorView::MaximumLengthExceeded
            },
        },
{
    let size: u64 = read as u64;
    if length > u64::MAX - size {
        return Err(StorageError::Io("object length overflow".to_owned()));
    }
    let n: u64 = length + size;
    if let Some(most) = maximum {
        if n > most {
            return Err(StorageError::MaximumLengthExceeded);
        }
    }
    Ok(n)
}

/// The revision of a head: the digest of its bytes.
pub fn head_version(bytes: &[u8]) -> (version: ObjectVersion)
    ensures
        version@ == hex_text(sha256_of(bytes@)),
{
    ObjectVersion::from_sha256(Sha256::digest(bytes))
}

/// Whether a first head may be written. Where there is a head, nothing is
/// written; its bytes may have been unreadable.
pub fn on_create_head(exists: bool, current: Option<Vec<u8>>) -> (refusal: Option<
    ConditionalWriteOutcome,
>)
    ensures
        match refusal {
            None => !exists,
            Some(outcome) => exists && (outcome matches ConditionalWriteOutcome::Conflict {
                current_version,
            } && match (current, current_version) {
                (Some(bytes), Some(version)) => version@ == hex_text(sha256_of(bytes@)),
                (None, None) => true,
                _ => false,
            }),
        },
{
    if !exists {
        return None;
    }
    let current_version = match current {
        Some(bytes) => Some(head_version(bytes.as_slice())),
        None => None,
    };
    Some(ConditionalWriteOutcome::Conflict { current_version })
}

/// Whether a head may be replaced: only where it is the expected one.
pub fn on_replace_head(current: Option<Vec<u8>>, expected: &ObjectVersion) -> (refusal: Option<
    ConditionalWriteOutcome,
>)
    ensures
        ({
            let same = current matches Some(bytes) && hex_text(sha256_of(bytes@))
                == expected@;
            match refusal {
                None => same,
                Some(outcome) => !same && (outcome matches ConditionalWriteOutcome::Conflict {
                    current_version,
                } && match (current, current_version) {
                    (Some(bytes), Some(version)) => version@ == hex_text(sha256_of(bytes@)),
                    (None, None) => true,
                    _ => false,
                }),
            }
        }),
{
    match current {
        None => Some(ConditionalWriteOutcome::Conflict { current_version: None }),
        Some(bytes) => {
            let version = head_version(bytes.as_slice());
            if version == *expected {
                return None;
            }
            Some(ConditionalWriteOutcome::Conflict { current_version: Some(version) })
        },
    }
}

/// Whether an object is deleted: only where it is the expected revision.
pub fn deletes(current: Option<Vec<u8>>, version: &ObjectVersion) -> (yes: bool)
    ensures
        yes == (current matches Some(bytes) && hex_text(sha256_of(bytes@)) == version@),
{
    match current {
        None => false,
        Some(bytes) => head_version(bytes.as_slice()) == *version,
    }
}

} // verus!
