//! Digests, identifiers and their texts.
use crate::bytes::same_bytes;
use vstd::prelude::*;
use vstd::std_specs::cmp::PartialEqSpecImpl;
use vstd::string::*;

verus! {

/// The SHA-256 digest of a byte string.
pub uninterp spec fn sha256_of(bytes: Seq<u8>) -> Seq<u8>;

/// Calls `sha2::Sha256::digest`. Its result is a function of the bytes alone
/// and is known here only by the name `sha256_of`.
#[verifier::external_body]
fn sha2_digest(bytes: &[u8]) -> (digest: [u8; 32])
    ensures
        digest@ == sha256_of(bytes@),
{
    <sha2::Sha256 as sha2::Digest>::digest(bytes).into()
}

/// The lower-case hexadecimal digit of `d`.
pub open spec fn hex_digit(d: u8) -> char {
    if d < 10 {
        (('0' as u32) + d) as char
    } else {
        (('a' as u32) + (d - 10)) as char
    }
}

/// Two digits for each byte, the high one first.
pub open spec fn hex_text(bytes: Seq<u8>) -> Seq<char> {
    Seq::new(
        bytes.len() * 2,
        |i: int|
            hex_digit(
                if i % 2 == 0 {
                    bytes[i / 2] / 16
                } else {
                    bytes[i / 2] % 16
                },
            ),
    )
}

/// Calls `hex::encode`, which writes each byte as two lower-case digits.
#[verifier::external_body]
fn hex_encode(bytes: &[u8]) -> (text: String)
    ensures
        text@ == hex_text(bytes@),
{
    hex::encode(bytes)
}

/// A SHA-256 digest.
#[derive(Clone, Copy, Debug, Eq, Hash)]
pub struct Sha256 {
    pub bytes: [u8; 32],
}

impl View for Sha256 {
    type V = Seq<u8>;

    open spec fn view(&self) -> Seq<u8> {
        self.bytes@
    }
}

impl PartialEq for Sha256 {
    fn eq(&self, other: &Self) -> (same: bool) {
        let same: bool = same_bytes(self.bytes.as_slice(), other.bytes.as_slice());
        proof {
            if same {
                assert(self.bytes =~= other.bytes);
            }
        }
        same
    }
}

impl PartialEqSpecImpl for Sha256 {
    open spec fn obeys_eq_spec() -> bool {
        true
    }

    open spec fn eq_spec(&self, other: &Self) -> bool {
        *self == *other
    }
}

/// Digests with the same bytes are the same digest.
pub proof fn lemma_same_digest(a: Sha256, b: Sha256)
    requires
        a@ == b@,
    ensures
        a == b,
{
    assert forall|i: int| 0 <= i < 32 implies a.bytes[i] == b.bytes[i] by {
        assert(a.bytes@[i] == b.bytes@[i]);
    }
    assert(a.bytes =~= b.bytes);
}

impl Sha256 {
    pub fn from_bytes(bytes: [u8; 32]) -> (hash: Self)
        ensures
            hash.bytes == bytes,
    {
        Sha256 { bytes }
    }

    pub fn digest(bytes: &[u8]) -> (hash: Self)
        ensures
            hash@ == sha256_of(bytes@),
    {
        Sha256 { bytes: sha2_digest(bytes) }
    }

    /// Whether this is the digest of `bytes`.
    pub fn matches(&self, bytes: &[u8]) -> (same: bool)
        ensures
            same == (self@ == sha256_of(bytes@)),
    {
        let other = Sha256::digest(bytes);
        same_bytes(self.bytes.as_slice(), other.bytes.as_slice())
    }

    /// The digest as hexadecimal text.
    pub fn to_text(&self) -> (text: String)
        ensures
            text@ == hex_text(self@),
    {
        hex_encode(self.bytes.as_slice())
    }
}

/// A sixteen-byte identifier.
#[derive(Clone, Copy, Debug, Eq, Hash)]
pub struct Id {
    pub bytes: [u8; 16],
}

impl View for Id {
    type V = Seq<u8>;

    open spec fn view(&self) -> Seq<u8> {
        self.bytes@
    }
}

impl PartialEq for Id {
    fn eq(&self, other: &Self) -> (same: bool) {
        let same: bool = same_bytes(self.bytes.as_slice(), other.bytes.as_slice());
        proof {
            if same {
                assert(self.bytes =~= other.bytes);
            }
        }
        same
    }
}

impl PartialEqSpecImpl for Id {
    open spec fn obeys_eq_spec() -> bool {
        true
    }

    open spec fn eq_spec(&self, other: &Self) -> bool {
        *self == *other
    }
}

/// Identifiers with the same bytes are the same identifier.
pub proof fn lemma_same_id(a: Id, b: Id)
    requires
        a@ == b@,
    ensures
        a == b,
{
    assert forall|i: int| 0 <= i < 16 implies a.bytes[i] == b.bytes[i] by {
        assert(a.bytes@[i] == b.bytes@[i]);
    }
    assert(a.bytes =~= b.bytes);
}

/// An identifier in the usual groups of hexadecimal digits.
pub open spec fn id_text(bytes: Seq<u8>) -> Seq<char> {
    hex_text(bytes.subrange(0, 4)) + "-"@ + hex_text(bytes.subrange(4, 6)) + "-"@ + hex_text(
        bytes.subrange(6, 8),
    ) + "-"@ + hex_text(bytes.subrange(8, 10)) + "-"@ + hex_text(bytes.subrange(10, 16))
}

/// Calls `uuid::Uuid::now_v7`, whose result rests on the clock and on chance.
/// Every result carries version 7 and the standard variant.
#[verifier::external_body]
fn uuid_now_v7() -> (bytes: [u8; 16])
    ensures
        bytes@[6] / 16 == 7,
        bytes@[8] / 64 == 2,
{
    *uuid::Uuid::now_v7().as_bytes()
}

impl Id {
    pub fn from_bytes(bytes: [u8; 16]) -> (id: Self)
        ensures
            id.bytes == bytes,
    {
        Id { bytes }
    }

    /// A new identifier, ordered by the time of its making.
    pub fn fresh() -> (id: Self)
        ensures
            id@[6] / 16 == 7,
            id@[8] / 64 == 2,
    {
        Id { bytes: uuid_now_v7() }
    }

    pub fn to_text(&self) -> (text: String)
        ensures
            text@ == id_text(self@),
    {
        let b = self.bytes.as_slice();
        let mut text = hex_encode(&b[0..4]);
        text.append("-");
        text.append(hex_encode(&b[4..6]).as_str());
        text.append("-");
        text.append(hex_encode(&b[6..8]).as_str());
        text.append("-");
        text.append(hex_encode(&b[8..10]).as_str());
        text.append("-");
        text.append(hex_encode(&b[10..16]).as_str());
        text
    }
}

} // verus!
