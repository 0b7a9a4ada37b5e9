//! The checks on the objects and bytes from which a single page is read.
use crate::authenticated::entry_of;
use crate::bytes::{be32, copy_range, read_be32, same_bytes};
use crate::documents::{
    generation_accepted, Checkpoint, DocumentCodec, Generation, MetadataImage, ObjectReference,
};
use crate::error::{corrupt, exhausted, ErrorView, RuntimeError};
use crate::hash::{sha256_of, Sha256};
use crate::page_map::{PageCodec, PageMapEntry, PageObjectReference};
use crate::physical::PackEntry;
use crate::reader_engine_pages::sqlite_magic;
use crate::resolve::{assembled, map_agrees, mapped_byte, page_at};
use crate::storage::ObjectMetadata;
use std::ops::Range;
use vstd::prelude::*;

verus! {

/// The size of every page.
pub const PAGE_BYTES: u64 = 4096;

/// The largest object that holds a tree node.
pub const MAXIMUM_NODE_BYTES: u64 = 1048576;

/// The binary logarithm of the largest window that a compressed page may ask for.
pub const WINDOW_LOG: u32 = 12;

// ------------------------------------------------------------------ objects

/// Checks that stored metadata belongs to the object that a reference names.
pub fn check_reference_length(reference: &PageObjectReference, metadata: &ObjectMetadata) -> (r:
    Result<(), RuntimeError>)
    ensures
        match r {
            Ok(()) => reference.length == metadata.length,
            Err(e) => {
                &&& reference.length != metadata.length
                &&& e@ == ErrorView::Corrupt("object length differs from authenticated reference"@)
            },
        },
{
    if reference.length != metadata.length {
        return Err(corrupt("object length differs from authenticated reference"));
    }
    Ok(())
}

/// A reference to an object whose length is known from the store.
pub fn pinned_reference(reference: &ObjectReference, metadata: &ObjectMetadata) -> (r: Result<
    PageObjectReference,
    RuntimeError,
>)
    ensures
        match r {
            Ok(pinned) => {
                &&& reference.length matches Some(n) ==> n == metadata.length
                &&& pinned.uri@ == reference.uri@
                &&& pinned.sha256 == reference.sha256
                &&& pinned.length == metadata.length
            },
            Err(e) => {
                &&& reference.length matches Some(n) && n != metadata.length
                &&& e@ == ErrorView::Corrupt("object reference length mismatch"@)
            },
        },
{
    if let Some(n) = reference.length {
        if n != metadata.length {
            return Err(corrupt("object reference length mismatch"));
        }
    }
    Ok(
        PageObjectReference {
            uri: reference.uri.clone(),
            sha256: reference.sha256,
            length: metadata.length,
        },
    )
}

/// Checks the bytes of an object against the digest of its reference.
pub fn check_node(reference: &PageObjectReference, bytes: &[u8]) -> (r: Result<(), RuntimeError>)
    ensures
        match r {
            Ok(()) => sha256_of(bytes@) == reference.sha256@,
            Err(e) => {
                &&& sha256_of(bytes@) != reference.sha256@
                &&& e@ == ErrorView::Corrupt("authenticated metadata object hash mismatch"@)
            },
        },
{
    if !reference.sha256.matches(bytes) {
        return Err(corrupt("authenticated metadata object hash mismatch"));
    }
    Ok(())
}

/// Checks the size of a tree node before it is read.
pub fn check_node_size(reference: &PageObjectReference) -> (r: Result<(), RuntimeError>)
    ensures
        match r {
            Ok(()) => 0 < reference.length <= MAXIMUM_NODE_BYTES,
            Err(e) => {
                &&& !(0 < reference.length <= MAXIMUM_NODE_BYTES)
                &&& e@ == ErrorView::Corrupt("invalid authenticated tree node size"@)
            },
        },
{
    if reference.length == 0 || reference.length > MAXIMUM_NODE_BYTES {
        return Err(corrupt("invalid authenticated tree node size"));
    }
    Ok(())
}

/// One range of one revision of an object, while it is being read.
#[derive(Debug)]
pub struct RangeKey {
    pub uri: String,
    pub sha256: Sha256,
    pub length: u64,
    pub version: String,
    pub start: u64,
    pub end: u64,
}

pub struct RangeKeyView {
    pub uri: Seq<char>,
    pub sha256: Sha256,
    pub length: u64,
    pub version: Seq<char>,
    pub start: u64,
    pub end: u64,
}

impl View for RangeKey {
    type V = RangeKeyView;

    open spec fn view(&self) -> RangeKeyView {
        RangeKeyView {
            uri: self.uri@,
            sha256: self.sha256,
            length: self.length,
            version: self.version@,
            start: self.start,
            end: self.end,
        }
    }
}

/// Two reads take the same address for different objects.
pub open spec fn disagree(a: RangeKeyView, b: RangeKeyView) -> bool {
    a.uri == b.uri && (a.sha256 != b.sha256 || a.length != b.length || a.version != b.version)
}

/// Finds the read under way that a new one can join. A read of the same address
/// for another object is a conflict.
pub fn join_load(loads: &Vec<RangeKey>, key: &RangeKey) -> (r: Result<Option<usize>, RuntimeError>)
    ensures
        match r {
            Ok(joined) => {
                &&& forall|i: int|
                    0 <= i < loads@.len() ==> !disagree((#[trigger] loads@[i])@, key@)
                &&& match joined {
                    Some(at) => at < loads@.len() && loads@[at as int]@ == key@,
                    None => forall|i: int|
                        0 <= i < loads@.len() ==> (#[trigger] loads@[i])@ != key@,
                }
            },
            Err(e) => {
                &&& exists|i: int| 0 <= i < loads@.len() && disagree((#[trigger] loads@[i])@, key@)
                &&& e@ == ErrorView::Corrupt("conflicting in-flight object reference"@)
            },
        },
{
    let mut joined: Option<usize> = None;
    let mut i: usize = 0;
    while i < loads.len()
        invariant
            i <= loads@.len(),
            forall|j: int| 0 <= j < i ==> !disagree((#[trigger] loads@[j])@, key@),
            match joined {
                Some(at) => at < i && loads@[at as int]@ == key@,
                None => forall|j: int| 0 <= j < i ==> (#[trigger] loads@[j])@ != key@,
            },
        decreases loads@.len() - i,
    {
        let old = &loads[i];
        let same_uri = old.uri == key.uri;
        let same_object = old.sha256 == key.sha256 && old.length == key.length && old.version
            == key.version;
        if same_uri && !same_object {
            assert(disagree(loads@[i as int]@, key@));
            return Err(corrupt("conflicting in-flight object reference"));
        }
        if same_uri && old.start == key.start && old.end == key.end {
            assert(loads@[i as int]@ == key@);
            joined = Some(i);
        }
        i = i + 1;
    }
    Ok(joined)
}

// ------------------------------------------------------------------ charges

/// What a read under way costs besides its bytes.
pub fn load_charge(uri: usize, version: usize) -> (charge: usize)
    requires
        512 + uri * 4 + version * 2 <= usize::MAX,
    ensures
        charge == 512 + uri * 4 + version * 2,
{
    512 + uri * 4 + version * 2
}

/// What a range costs while it is read: its bytes twice, and its key.
pub fn range_charge(start: u64, end: u64, uri: usize, version: usize) -> (r: Result<
    usize,
    RuntimeError,
>)
    requires
        start <= end,
        1024 + uri * 4 + version * 2 <= usize::MAX,
    ensures
        match r {
            Ok(charge) => charge == (end - start) * 2 + 1024 + uri * 4 + version * 2,
            Err(e) => if end - start > usize::MAX {
                e@ == ErrorView::Corrupt("range size overflow"@)
            } else {
                &&& (end - start) * 2 + 1024 + uri * 4 + version * 2 > usize::MAX
                &&& e@ == ErrorView::ResourceExhausted("range allocation overflow"@)
            },
        },
{
    let size: u64 = end - start;
    if size > usize::MAX as u64 {
        return Err(corrupt("range size overflow"));
    }
    let room: u128 = size as u128 * 2 + (1024 + uri * 4 + version * 2) as u128;
    if room > usize::MAX as u128 {
        return Err(exhausted("range allocation overflow"));
    }
    Ok(room as usize)
}

/// What a tree node costs while it is decoded.
pub fn node_charge(bytes: usize) -> (charge: usize)
    requires
        bytes * 6 + 4096 <= usize::MAX,
    ensures
        charge == bytes * 6 + 4096,
{
    bytes * 6 + 4096
}

/// What the index of a pack costs while it is decoded.
pub fn pack_index_charge(bytes: usize) -> (charge: usize)
    requires
        bytes * 3 + 4096 <= usize::MAX,
    ensures
        charge == bytes * 3 + 4096,
{
    bytes * 3 + 4096
}

// -------------------------------------------------------------------- image

/// The digest that a codec gives for the image of a generation.
pub open spec fn root_given<C: DocumentCodec>(codec: C, generation: Generation, root: Sha256) -> bool {
    exists|map: Option<Sha256>|
        {
            &&& map == (match generation.metadata_image.page_map {
                Some(root) => Some(root.sha256),
                None => None,
            })
            &&& #[trigger] call_ensures(
                C::image_root,
                (
                    &codec,
                    generation.table_id,
                    generation.table_version,
                    generation.metadata_image.page_size,
                    generation.metadata_image.page_count,
                    generation.metadata_image.checkpoint.sha256,
                    map,
                ),
                root,
            )
        }
}

pub open spec fn geometry_ok(image: MetadataImage) -> bool {
    &&& 0 < image.page_count <= u32::MAX
    &&& image.page_map matches Some(root) ==> root.height <= 64
}

/// Whether a codec accepts the index of a generation's image.
pub open spec fn index_accepted<C: DocumentCodec>(codec: C, generation: Generation) -> bool {
    generation.metadata_image.checkpoint_page_index matches Some(index)
        && exists|verdict: Result<(), RuntimeError>|
        verdict is Ok && #[trigger] call_ensures(
            C::validate_index,
            (
                &codec,
                &index,
                &generation.metadata_image.checkpoint,
                generation.metadata_image.page_size,
            ),
            verdict,
        )
}

/// Checks that the image of a generation has the root that the generation names.
pub fn check_image_root<C: DocumentCodec>(codec: &C, generation: &Generation) -> (r: Result<
    (),
    RuntimeError,
>)
    ensures
        match r {
            Ok(()) => root_given(
                *codec,
                *generation,
                generation.metadata_image.image_root_sha256,
            ),
            Err(e) => {
                &&& exists|root: Sha256|
                    root != generation.metadata_image.image_root_sha256 && #[trigger] root_given(
                        *codec,
                        *generation,
                        root,
                    )
                &&& e@ == ErrorView::Corrupt("metadata image root mismatch"@)
            },
        },
{
    let image = &generation.metadata_image;
    let map: Option<Sha256> = match &image.page_map {
        None => None,
        Some(root) => Some(root.sha256),
    };
    let root = codec.image_root(
        generation.table_id,
        generation.table_version,
        image.page_size,
        image.page_count,
        image.checkpoint.sha256,
        map,
    );
    assert(root_given(*codec, *generation, root));
    if !(root == image.image_root_sha256) {
        return Err(corrupt("metadata image root mismatch"));
    }
    Ok(())
}

/// Checks that the image of a generation can be read page by page.
pub fn check_image<C: DocumentCodec>(codec: &C, generation: &Generation) -> (r: Result<
    (),
    RuntimeError,
>)
    ensures
        match r {
            Ok(()) => {
                let image = generation.metadata_image;
                &&& generation_accepted(*codec, *generation)
                &&& index_accepted(*codec, *generation)
                &&& geometry_ok(image)
                &&& root_given(*codec, *generation, image.image_root_sha256)
                &&& image.page_map is None ==> image.page_count
                    == image.checkpoint_page_index->Some_0.page_count
            },
            Err(e) => {
                let image = generation.metadata_image;
                ||| call_ensures(
                    C::validate_generation,
                    (codec, generation),
                    Err::<(), RuntimeError>(e),
                )
                ||| {
                    &&& generation_accepted(*codec, *generation)
                    &&& match image.checkpoint_page_index {
                        None => e@ == ErrorView::AuthenticatedRangesUnavailable,
                        Some(index) => {
                            ||| call_ensures(
                                C::validate_index,
                                (codec, &index, &image.checkpoint, image.page_size),
                                Err::<(), RuntimeError>(e),
                            )
                            ||| {
                                &&& index_accepted(*codec, *generation)
                                &&& !geometry_ok(image) || exists|root: Sha256|
                                    root != image.image_root_sha256 && #[trigger] root_given(
                                        *codec,
                                        *generation,
                                        root,
                                    )
                                &&& e@ == ErrorView::Corrupt(
                                    "invalid logical image identity or geometry"@,
                                )
                            }
                            ||| {
                                &&& index_accepted(*codec, *generation)
                                &&& geometry_ok(image)
                                &&& root_given(*codec, *generation, image.image_root_sha256)
                                &&& image.page_map is None && image.page_count != index.page_count
                                &&& e@ == ErrorView::Corrupt("null map does not cover image"@)
                            }
                        },
                    }
                }
            },
        },
{
    let verdict = codec.validate_generation(generation);
    if let Err(e) = verdict {
        return Err(e);
    }
    assert(generation_accepted(*codec, *generation));
    let image = &generation.metadata_image;
    let index = match &image.checkpoint_page_index {
        None => {
            return Err(RuntimeError::AuthenticatedRangesUnavailable);
        },
        Some(index) => index,
    };
    let verdict = codec.validate_index(index, &image.checkpoint, image.page_size);
    if let Err(e) = verdict {
        return Err(e);
    }
    assert(index_accepted(*codec, *generation));
    if image.page_count == 0 || image.page_count > u32::MAX as u64 {
        return Err(corrupt("invalid logical image identity or geometry"));
    }
    let map: Option<Sha256> = match &image.page_map {
        None => None,
        Some(root) => {
            if root.height > 64 {
                return Err(corrupt("invalid logical image identity or geometry"));
            }
            Some(root.sha256)
        },
    };
    let root = codec.image_root(
        generation.table_id,
        generation.table_version,
        image.page_size,
        image.page_count,
        image.checkpoint.sha256,
        map,
    );
    assert(root_given(*codec, *generation, root));
    if !(root == image.image_root_sha256) {
        return Err(corrupt("invalid logical image identity or geometry"));
    }
    if image.page_map.is_none() && image.page_count != index.page_count {
        return Err(corrupt("null map does not cover image"));
    }
    Ok(())
}

/// Checks the stored checkpoint of an image.
pub fn check_checkpoint_length(checkpoint: &Checkpoint, metadata: &ObjectMetadata) -> (r: Result<
    (),
    RuntimeError,
>)
    ensures
        match r {
            Ok(()) => checkpoint.length == metadata.length,
            Err(e) => {
                &&& checkpoint.length != metadata.length
                &&& e@ == ErrorView::Corrupt("checkpoint length mismatch"@)
            },
        },
{
    if metadata.length != checkpoint.length {
        return Err(corrupt("checkpoint length mismatch"));
    }
    Ok(())
}

/// The bytes that open a fingerprint.
pub open spec fn fingerprint_domain() -> Seq<u8> {
    // "otmp.reader.authenticated-page.v1\0"
    seq![
        111u8, 116, 109, 112, 46, 114, 101, 97, 100, 101, 114, 46, 97, 117, 116, 104, 101, 110,
        116, 105, 99, 97, 116, 101, 100, 45, 112, 97, 103, 101, 46, 118, 49, 0,
    ]
}

/// The bytes between a generation and a revision in a fingerprint.
pub open spec fn fingerprint_middle() -> Seq<u8> {
    // "\0checkpoint-revision\0"
    seq![
        0u8, 99, 104, 101, 99, 107, 112, 111, 105, 110, 116, 45, 114, 101, 118, 105, 115, 105,
        111, 110, 0,
    ]
}

fn push_all(out: &mut Vec<u8>, bytes: &[u8])
    ensures
        final(out)@ == old(out)@ + bytes@,
{
    let ghost start = out@;
    let mut i: usize = 0;
    while i < bytes.len()
        invariant
            i <= bytes@.len(),
            out@ == start + bytes@.take(i as int),
        decreases bytes@.len() - i,
    {
        out.push(bytes[i]);
        i = i + 1;
        assert(out@ =~= start + bytes@.take(i as int));
    }
    assert(bytes@.take(i as int) =~= bytes@);
}

/// What tells the views of one image apart: the whole serialized generation,
/// and the revision of its checkpoint.
pub fn generation_fingerprint(generation: &[u8], revision: &[u8]) -> (fingerprint: Sha256)
    ensures
        fingerprint@ == sha256_of(
            fingerprint_domain() + generation@ + fingerprint_middle() + revision@,
        ),
{
    let domain: [u8; 34] = [
        111, 116, 109, 112, 46, 114, 101, 97, 100, 101, 114, 46, 97, 117, 116, 104, 101, 110, 116,
        105, 99, 97, 116, 101, 100, 45, 112, 97, 103, 101, 46, 118, 49, 0,
    ];
    let middle: [u8; 21] = [
        0, 99, 104, 101, 99, 107, 112, 111, 105, 110, 116, 45, 114, 101, 118, 105, 115, 105, 111,
        110, 0,
    ];
    assert(domain@ =~= fingerprint_domain());
    assert(middle@ =~= fingerprint_middle());
    let mut text: Vec<u8> = Vec::new();
    push_all(&mut text, domain.as_slice());
    push_all(&mut text, generation);
    push_all(&mut text, middle.as_slice());
    push_all(&mut text, revision);
    assert(text@ =~= fingerprint_domain() + generation@ + fingerprint_middle() + revision@);
    Sha256::digest(text.as_slice())
}

/// A view of an image: of all its pages, or of its checkpoint alone.
#[derive(Debug)]
pub struct AuthenticatedImage {
    pub page_count: u64,
    pub checkpoint: ObjectMetadata,
    pub fingerprint: Sha256,
    pub base_only: bool,
}

impl AuthenticatedImage {
    pub open spec fn wf(&self) -> bool {
        self.page_count <= u32::MAX
    }

    pub open spec fn spec_length(&self) -> int {
        if self.base_only {
            self.checkpoint.length as int
        } else {
            self.page_count * PAGE_BYTES
        }
    }

    /// The length of the view in bytes.
    pub fn length(&self) -> (length: u64)
        requires
            self.wf(),
        ensures
            length == self.spec_length(),
    {
        if self.base_only {
            self.checkpoint.length
        } else {
            self.page_count * PAGE_BYTES
        }
    }

    /// The same image, read from its checkpoint alone.
    pub fn checkpoint_view(&self) -> (view: Self)
        ensures
            view.base_only,
            view.page_count == self.page_count,
            view.checkpoint@ == self.checkpoint@,
            view.fingerprint == self.fingerprint,
    {
        AuthenticatedImage {
            page_count: self.page_count,
            checkpoint: self.checkpoint.clone(),
            fingerprint: self.fingerprint,
            base_only: true,
        }
    }

    pub open spec fn holds(&self, page: u64) -> bool {
        0 < page <= self.spec_length() / PAGE_BYTES as int
    }

    /// Checks that a page is in the view and that the output asks for no more.
    pub fn check_request(&self, page: u64, output: usize) -> (r: Result<(), RuntimeError>)
        requires
            self.wf(),
        ensures
            match r {
                Ok(()) => self.holds(page) && output <= PAGE_BYTES,
                Err(e) => {
                    &&& !self.holds(page) || output > PAGE_BYTES
                    &&& e@ == ErrorView::Corrupt("metadata page request outside image"@)
                },
            },
    {
        if page == 0 || page > self.length() / PAGE_BYTES || output as u64 > PAGE_BYTES {
            return Err(corrupt("metadata page request outside image"));
        }
        Ok(())
    }

    pub open spec fn header_ok(&self, data: Seq<u8>) -> bool {
        &&& data.subrange(0, 16) == sqlite_magic()
        &&& data[16] == 16 && data[17] == 0
        &&& be32(data, 28) == self.spec_length() / PAGE_BYTES as int
    }

    /// Checks the header of the first page against the view. Other pages have none.
    pub fn check_header(&self, page: u64, data: &[u8]) -> (r: Result<(), RuntimeError>)
        requires
            self.wf(),
            data@.len() == PAGE_BYTES,
        ensures
            match r {
                Ok(()) => page == 1 ==> self.header_ok(data@),
                Err(e) => {
                    &&& page == 1 && !self.header_ok(data@)
                    &&& e@ == ErrorView::Corrupt("logical SQLite header mismatch"@)
                },
            },
    {
        if page != 1 {
            return Ok(());
        }
        let magic: [u8; 16] = [
            83,
            81,
            76,
            105,
            116,
            101,
            32,
            102,
            111,
            114,
            109,
            97,
            116,
            32,
            51,
            0,
        ];
        assert(magic@ =~= sqlite_magic());
        let opening = copy_range(data, 0, 16);
        if !same_bytes(opening.as_slice(), magic.as_slice()) || data[16] != 16 || data[17] != 0
            || read_be32(data, 28) != self.length() / PAGE_BYTES {
            return Err(corrupt("logical SQLite header mismatch"));
        }
        Ok(())
    }
}

// ------------------------------------------------------------- mapped pages

/// Checks the entry that the page map has for a page.
pub fn check_mapped(entry: &PageMapEntry) -> (r: Result<(), RuntimeError>)
    ensures
        match r {
            Ok(()) => entry.raw_length == PAGE_BYTES,
            Err(e) => {
                &&& entry.raw_length != PAGE_BYTES
                &&& e@ == ErrorView::Corrupt("incorrect mapped page size"@)
            },
        },
{
    if entry.raw_length as u64 != PAGE_BYTES {
        return Err(corrupt("incorrect mapped page size"));
    }
    Ok(())
}

/// Where the index of a pack lies.
pub fn pack_index_range(page_size: u32, index_offset: u64, entries: u32) -> (r: Result<
    Range<u64>,
    RuntimeError,
>)
    ensures
        match r {
            Ok(range) => {
                &&& page_size == PAGE_BYTES
                &&& range.start == index_offset
                &&& range.end == index_offset + entries * 64
            },
            Err(e) => if page_size != PAGE_BYTES {
                e@ == ErrorView::Corrupt("pack page size mismatch"@)
            } else {
                &&& index_offset + entries * 64 > u64::MAX
                &&& e@ == ErrorView::Corrupt("pack index exceeds the address range"@)
            },
        },
{
    if page_size as u64 != PAGE_BYTES {
        return Err(corrupt("pack page size mismatch"));
    }
    let size: u64 = entries as u64 * 64;
    if index_offset > u64::MAX - size {
        return Err(corrupt("pack index exceeds the address range"));
    }
    Ok(Range { start: index_offset, end: index_offset + size })
}

/// The entry that a pack's index has for a page.
pub open spec fn listed_entry(entries: Seq<PackEntry>, page: u64) -> Option<PackEntry>
    decreases entries.len(),
{
    if entries.len() == 0 {
        None
    } else if entries[0].page_number == page {
        Some(entries[0])
    } else {
        listed_entry(entries.skip(1), page)
    }
}

fn find_listed(entries: &Vec<PackEntry>, page: u64) -> (found: Option<PackEntry>)
    ensures
        found == listed_entry(entries@, page),
{
    let mut i: usize = 0;
    assert(entries@.skip(0) =~= entries@);
    while i < entries.len()
        invariant
            i <= entries@.len(),
            listed_entry(entries@, page) == listed_entry(entries@.skip(i as int), page),
        decreases entries@.len() - i,
    {
        assert(entries@.skip(i as int)[0] == entries@[i as int]);
        assert(entries@.skip(i as int).skip(1) =~= entries@.skip(i + 1));
        if entries[i].page_number == page {
            return Some(entries[i]);
        }
        i = i + 1;
    }
    None
}

/// Checks a mapped page against the index of its pack, and says where the pack
/// stores it.
pub fn stored_range(entry: &PageMapEntry, index: &Vec<PackEntry>, page: u64) -> (r: Result<
    Range<u64>,
    RuntimeError,
>)
    ensures
        match r {
            Ok(range) => {
                &&& listed_entry(index@, page) matches Some(listed) && map_agrees(*entry, listed)
                &&& range.start == entry.offset
                &&& range.end == entry.offset + entry.stored_length
            },
            Err(e) => match listed_entry(index@, page) {
                None => e@ == ErrorView::Corrupt("mapped page absent from pack index"@),
                Some(listed) => if !map_agrees(*entry, listed) {
                    e@ == ErrorView::Corrupt("page map and pack index disagree"@)
                } else {
                    &&& entry.offset + entry.stored_length > u64::MAX
                    &&& e@ == ErrorView::Corrupt("stored page exceeds the address range"@)
                },
            },
        },
{
    let listed = match find_listed(index, page) {
        None => {
            return Err(corrupt("mapped page absent from pack index"));
        },
        Some(listed) => listed,
    };
    if listed.offset != entry.offset || listed.stored_length != entry.stored_length
        || listed.raw_length != entry.raw_length || listed.codec != entry.codec
        || listed.page_sha256 != entry.page_sha256 {
        return Err(corrupt("page map and pack index disagree"));
    }
    let size: u64 = entry.stored_length as u64;
    if entry.offset > u64::MAX - size {
        return Err(corrupt("stored page exceeds the address range"));
    }
    Ok(Range { start: entry.offset, end: entry.offset + size })
}

/// What the zstd frames in some bytes decompress to, if they are sound, for a
/// decompressor with this limit on the window.
pub uninterp spec fn zstd_windowed_frame(frame: Seq<u8>, window_log: u32) -> Option<Seq<u8>>;

/// Calls `zstd::bulk::Decompressor::decompress` with the window parameter set.
/// What the bytes decompress to is a function of the bytes and the window, named
/// `zstd_windowed_frame`. Where that fits the capacity, the call gives it; where
/// the bytes are not sound, it gives `None`. Left unsaid is what happens to
/// content beyond the capacity: the allocator may have given room for it. A fresh
/// decompressor takes every window logarithm from 10 to 30, so that nothing else
/// can fail.
#[verifier::external_body]
fn zstd_windowed(frame: &[u8], window_log: u32, capacity: usize) -> (r: Result<
    Option<Vec<u8>>,
    RuntimeError,
>)
    ensures
        10 <= window_log <= 30 ==> r is Ok,
        zstd_windowed_frame(frame@, window_log) matches Some(content) && content.len() <= capacity
            ==> !(r matches Ok(None)),
        r matches Ok(Some(bytes)) ==> zstd_windowed_frame(frame@, window_log) == Some(bytes@),
        r matches Err(e) ==> e@ is Io,
{
    let setup = |e: std::io::Error| RuntimeError::Io(e.to_string());
    let mut decoder = zstd::bulk::Decompressor::new().map_err(setup)?;
    decoder.set_parameter(zstd::zstd_safe::DParameter::WindowLogMax(window_log)).map_err(setup)?;
    Ok(decoder.decompress(frame, capacity).ok())
}

/// The page that stored bytes stand for, if they decode.
pub open spec fn decoded(codec: PageCodec, stored: Seq<u8>) -> Option<Seq<u8>> {
    match codec {
        PageCodec::Plain => Some(stored),
        PageCodec::Zstd => zstd_windowed_frame(stored, WINDOW_LOG),
    }
}

/// Whether a page is the one that the page map promises.
pub open spec fn promised(entry: PageMapEntry, page: Seq<u8>) -> bool {
    page.len() == PAGE_BYTES && sha256_of(page) == entry.page_sha256@
}

/// Checks a decoded page. `None` stands for bytes that do not decode.
pub fn check_decoded(entry: &PageMapEntry, page: Option<Vec<u8>>) -> (r: Result<
    Vec<u8>,
    RuntimeError,
>)
    ensures
        match r {
            Ok(out) => page matches Some(page) && out@ == page@ && promised(*entry, page@),
            Err(e) => match page {
                None => e@ == ErrorView::Corrupt("invalid or oversized compressed metadata page"@),
                Some(page) => {
                    &&& !promised(*entry, page@)
                    &&& e@ == ErrorView::Corrupt("metadata page hash or decoded length mismatch"@)
                },
            },
        },
{
    match page {
        None => Err(corrupt("invalid or oversized compressed metadata page")),
        Some(page) => {
            if page.len() as u64 != PAGE_BYTES || !entry.page_sha256.matches(page.as_slice()) {
                return Err(corrupt("metadata page hash or decoded length mismatch"));
            }
            Ok(page)
        },
    }
}

/// The page that a pack stores under an entry of the page map. Compressed content
/// that is larger than a page may show as bytes that do not decode.
pub fn mapped_page(entry: &PageMapEntry, stored: &[u8]) -> (r: Result<Vec<u8>, RuntimeError>)
    ensures
        match r {
            Ok(page) => decoded(entry.codec, stored@) == Some(page@) && promised(*entry, page@),
            Err(e) => match decoded(entry.codec, stored@) {
                None => e@ == ErrorView::Corrupt("invalid or oversized compressed metadata page"@),
                Some(page) => {
                    &&& !promised(*entry, page)
                    &&& e@ == ErrorView::Corrupt("metadata page hash or decoded length mismatch"@)
                        || (entry.codec is Zstd && page.len() > PAGE_BYTES && e@
                        == ErrorView::Corrupt("invalid or oversized compressed metadata page"@))
                },
            },
        },
{
    let page: Option<Vec<u8>> = match entry.codec {
        PageCodec::Plain => Some(copy_range(stored, 0, stored.len())),
        PageCodec::Zstd => match zstd_windowed(stored, WINDOW_LOG, PAGE_BYTES as usize) {
            Err(e) => {
                return Err(e);
            },
            Ok(page) => page,
        },
    };
    assert(stored@.subrange(0, stored@.len() as int) =~= stored@);
    check_decoded(entry, page)
}

// --------------------------------------------------------- checkpoint pages

/// The window of a checkpoint in which a page lies.
pub open spec fn window_of(page: u64, window: u64, length: u64) -> (int, int) {
    let start = (page - 1) * PAGE_BYTES / window as int * window;
    (
        start,
        if start + window <= length {
            start + window
        } else {
            length as int
        },
    )
}

/// Where to read a page of a checkpoint: the whole window around it.
pub fn checkpoint_window(page: u64, window: u64, length: u64) -> (range: Range<u64>)
    requires
        window > 0,
        0 < page <= length / PAGE_BYTES,
    ensures
        range.start == window_of(page, window, length).0,
        range.end == window_of(page, window, length).1,
        range.start <= (page - 1) * PAGE_BYTES < range.end,
        page * PAGE_BYTES <= range.end || range.end == range.start + window,
{
    let start: u64 = (page - 1) * PAGE_BYTES;
    let at: u64 = start / window;
    assert(at * window <= start && start < at * window + window) by (nonlinear_arith)
        requires
            at == start / window,
            window > 0,
    ;
    let from: u64 = at * window;
    let to: u64 = if length - from <= window {
        length
    } else {
        from + window
    };
    Range { start: from, end: to }
}

/// Takes a page out of the window that was read around it, and checks it.
pub fn checkpoint_page(page: u64, start: u64, bytes: &[u8], hash: &Sha256) -> (r: Result<
    Vec<u8>,
    RuntimeError,
>)
    requires
        page > 0,
        start <= (page - 1) * PAGE_BYTES <= u64::MAX,
    ensures
        ({
            let at = (page - 1) * PAGE_BYTES - start;
            match r {
                Ok(out) => {
                    &&& at + PAGE_BYTES <= bytes@.len()
                    &&& out@ == bytes@.subrange(at, at + PAGE_BYTES)
                    &&& sha256_of(out@) == hash@
                },
                Err(e) => if at + PAGE_BYTES > bytes@.len() {
                    e@ == ErrorView::Corrupt("short checkpoint window"@)
                } else {
                    &&& sha256_of(bytes@.subrange(at, at + PAGE_BYTES)) != hash@
                    &&& e@ == ErrorView::Corrupt("checkpoint page hash mismatch"@)
                },
            }
        }),
{
    let at: u64 = (page - 1) * PAGE_BYTES - start;
    let size: u64 = bytes.len() as u64;
    if size < PAGE_BYTES || at > size - PAGE_BYTES {
        return Err(corrupt("short checkpoint window"));
    }
    let from: usize = at as usize;
    let data = copy_range(bytes, from, from + PAGE_BYTES as usize);
    if !hash.matches(data.as_slice()) {
        return Err(corrupt("checkpoint page hash mismatch"));
    }
    Ok(data)
}

// ---------------------------------------------------- against whole images

/// The digest that a page is checked against when it is read alone: the one of
/// its entry in the page map, or the one of its place in the checkpoint.
pub open spec fn page_digest(checkpoint: Seq<u8>, entries: Seq<PageMapEntry>, page: u64) -> Seq<u8> {
    match entry_of(entries, page) {
        Some(entry) => entry.page_sha256@,
        None => sha256_of(page_at(checkpoint, PAGE_BYTES as int, page as int)),
    }
}

proof fn lemma_entry_found(entries: Seq<PageMapEntry>, page: u64)
    ensures
        match entry_of(entries, page) {
            Some(entry) => exists|i: int|
                0 <= i < entries.len() && #[trigger] entries[i] == entry && entry.page_number
                    == page,
            None => forall|i: int|
                0 <= i < entries.len() ==> (#[trigger] entries[i]).page_number != page,
        },
    decreases entries.len(),
{
    if entries.len() > 0 {
        if entries[0].page_number == page {
            assert(entries[0] == entries[0]);
        } else {
            let rest = entries.skip(1);
            lemma_entry_found(rest, page);
            match entry_of(rest, page) {
                Some(entry) => {
                    let i = choose|i: int|
                        0 <= i < rest.len() && #[trigger] rest[i] == entry && entry.page_number
                            == page;
                    assert(entries[i + 1] == entry);
                },
                None => {
                    assert forall|i: int| 0 <= i < entries.len() implies (
                    #[trigger] entries[i]).page_number != page by {
                        if i > 0 {
                            assert(rest[i - 1] == entries[i]);
                        }
                    }
                },
            }
        }
    }
}

/// A page that is read alone is checked against the digest of the same page in
/// the image that is assembled as a whole.
pub proof fn lemma_single_pages_match_the_image(
    image: Seq<u8>,
    checkpoint: Seq<u8>,
    entries: Seq<PageMapEntry>,
    page: u64,
)
    requires
        assembled(image, checkpoint, entries, PAGE_BYTES as int),
        0 < page,
        page * PAGE_BYTES <= image.len(),
        entry_of(entries, page) is None ==> page * PAGE_BYTES <= checkpoint.len(),
    ensures
        sha256_of(page_at(image, PAGE_BYTES as int, page as int)) == page_digest(
            checkpoint,
            entries,
            page,
        ),
{
    lemma_entry_found(entries, page);
    match entry_of(entries, page) {
        Some(entry) => {
            let i = choose|i: int|
                0 <= i < entries.len() && #[trigger] entries[i] == entry && entry.page_number
                    == page;
            assert(entries[i].page_number == page);
        },
        None => {
            let start = (page - 1) * 4096;
            let own = page_at(image, 4096, page as int);
            assert forall|j: int| 0 <= j < 4096 implies #[trigger] own[j] == page_at(
                checkpoint,
                4096,
                page as int,
            )[j] by {
                assert(own[j] == image[start + j]);
                assert(!mapped_byte(entries, 4096, start + j)) by {
                    if mapped_byte(entries, 4096, start + j) {
                        let i = choose|i: int|
                            0 <= i < entries.len() && ((#[trigger] entries[i]).page_number - 1)
                                * 4096 <= start + j < (entries[i].page_number - 1) * 4096 + 4096;
                        assert(entries[i].page_number == page);
                    }
                }
            }
            assert(own =~= page_at(checkpoint, 4096, page as int));
        },
    }
}

/// A mapped page that is read alone has the digest and the length of the same
/// page in the image that is assembled as a whole.
pub proof fn lemma_mapped_page_is_the_images(
    image: Seq<u8>,
    checkpoint: Seq<u8>,
    entries: Seq<PageMapEntry>,
    page: u64,
    entry: PageMapEntry,
    read: Seq<u8>,
)
    requires
        assembled(image, checkpoint, entries, PAGE_BYTES as int),
        0 < page,
        page * PAGE_BYTES <= image.len(),
        entry_of(entries, page) == Some(entry),
        promised(entry, read),
    ensures
        sha256_of(read) == sha256_of(page_at(image, PAGE_BYTES as int, page as int)),
        read.len() == page_at(image, PAGE_BYTES as int, page as int).len(),
{
    lemma_single_pages_match_the_image(image, checkpoint, entries, page);
}

/// An unmapped page that is read alone, from a window of the checkpoint, is the
/// same page of the image that is assembled as a whole.
pub proof fn lemma_checkpoint_page_is_the_images(
    image: Seq<u8>,
    checkpoint: Seq<u8>,
    entries: Seq<PageMapEntry>,
    page: u64,
    start: int,
    window: Seq<u8>,
    read: Seq<u8>,
)
    requires
        assembled(image, checkpoint, entries, PAGE_BYTES as int),
        0 < page,
        page * PAGE_BYTES <= image.len(),
        entry_of(entries, page) is None,
        0 <= start <= (page - 1) * PAGE_BYTES,
        start + window.len() <= checkpoint.len(),
        window == checkpoint.subrange(start, start + window.len()),
        page * PAGE_BYTES <= start + window.len(),
        read == window.subrange(
            (page - 1) * PAGE_BYTES - start,
            (page - 1) * PAGE_BYTES - start + PAGE_BYTES,
        ),
    ensures
        read == page_at(image, PAGE_BYTES as int, page as int),
{
    lemma_entry_found(entries, page);
    let from = (page - 1) * 4096;
    let own = page_at(image, 4096, page as int);
    assert forall|j: int| 0 <= j < 4096 implies #[trigger] own[j] == read[j] by {
        assert(own[j] == image[from + j]);
        if mapped_byte(entries, 4096, from + j) {
            let i = choose|i: int|
                0 <= i < entries.len() && ((#[trigger] entries[i]).page_number - 1) * 4096 <= from
                    + j < (entries[i].page_number - 1) * 4096 + 4096;
            assert(entries[i].page_number == page);
        }
    }
    assert(read =~= own);
}

} // verus!
