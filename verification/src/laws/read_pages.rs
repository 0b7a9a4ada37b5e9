//! Single pages and whole images: where a page is read from, which page is given out,
//! and which images are held to be the same.
use crate::documents::{DocumentCodec, Generation};
use crate::error::RuntimeError;
use crate::hash::{sha256_of, Sha256};
use crate::page_map::{PageCodec, PageMapEntry};
use crate::page_read::{
    checkpoint_page, checkpoint_window, listed_entry, mapped_page, stored_range, zstd_windowed_frame,
};
use crate::physical::PackEntry;
use crate::replay::{compare_logical_images, same_images, same_table, texts_of, TableRows};
use crate::selection::take_parent;
use std::ops::Range;
use vstd::prelude::*;

verus! {

// ------------------------------------------------------------ stored pages

/// The first entry of a pack's index for a page stands at a place.
pub open spec fn first_listed(index: Seq<PackEntry>, page: u64, at: int) -> bool {
    &&& 0 <= at < index.len()
    &&& index[at].page_number == page
    &&& forall|i: int| 0 <= i < at ==> (#[trigger] index[i]).page_number != page
}

/// The pack stores what the page map says.
pub open spec fn stores(listed: PackEntry, entry: PageMapEntry) -> bool {
    &&& listed.offset == entry.offset
    &&& listed.stored_length == entry.stored_length
    &&& listed.raw_length == entry.raw_length
    &&& listed.codec == entry.codec
    &&& listed.page_sha256 == entry.page_sha256
}

proof fn lemma_listed(index: Seq<PackEntry>, page: u64, at: int)
    requires
        first_listed(index, page, at),
    ensures
        listed_entry(index, page) == Some(index[at]),
    decreases index.len(),
{
    if at > 0 {
        let rest = index.skip(1);
        assert(index[0].page_number != page);
        assert forall|i: int| 0 <= i < at - 1 implies (#[trigger] rest[i]).page_number != page by {
            assert(rest[i] == index[i + 1]);
        }
        assert(rest[at - 1] == index[at]);
        lemma_listed(rest, page, at - 1);
    }
}

/// A page that the pack's index lists is read if and only if the index agrees with the
/// page map and the bytes end within the address range. They are as many bytes as are
/// stored, from the entry's offset on.
pub proof fn lemma_stored_page_is_found(
    entry: PageMapEntry,
    index: Vec<PackEntry>,
    page: u64,
    at: int,
    r: Result<Range<u64>, RuntimeError>,
)
    requires
        first_listed(index@, page, at),
        call_ensures(stored_range, (&entry, &index, page), r),
    ensures
        r is Ok <==> stores(index@[at], entry) && entry.offset + entry.stored_length <= u64::MAX,
        r matches Ok(range) ==> range.start == entry.offset && range.end - range.start
            == entry.stored_length,
{
    lemma_listed(index@, page, at);
}

/// A page that is given out has the size of a page and the digest that the page map
/// promises. A page that is stored as it is is given out as it is, if and only if it
/// has both. A compressed one is what its frame holds.
pub proof fn lemma_promised_page_is_given_out(
    entry: PageMapEntry,
    stored: &[u8],
    r: Result<Vec<u8>, RuntimeError>,
)
    requires
        call_ensures(mapped_page, (&entry, stored), r),
    ensures
        r matches Ok(page) ==> page@.len() == 4096 && sha256_of(page@) == entry.page_sha256@,
        entry.codec is Plain ==> (r is Ok <==> stored@.len() == 4096 && sha256_of(stored@)
            == entry.page_sha256@),
        r matches Ok(page) ==> match entry.codec {
            PageCodec::Plain => page@ == stored@,
            PageCodec::Zstd => zstd_windowed_frame(stored@, 12) == Some(page@),
        },
{
}

// ------------------------------------------------------------ checkpoint pages

/// A checkpoint is read in windows: each begins at a multiple of the window's size and
/// has that size, but for the last, which ends where the checkpoint does. The window
/// that is read holds the beginning of the page.
pub proof fn lemma_window_holds_the_page(page: u64, window: u64, length: u64, range: Range<u64>)
    requires
        window > 0,
        0 < page <= length / 4096,
        call_ensures(checkpoint_window, (page, window, length), range),
    ensures
        range.start as int % window as int == 0,
        range.start <= (page - 1) * 4096 < range.end <= length,
        range.end - range.start == window || (range.end - range.start < window && range.end
            == length),
{
    let k = (page - 1) * 4096 / window as int;
    vstd::arithmetic::div_mod::lemma_mod_multiples_basic(k, window as int);
    assert(k * window as int == range.start as int);
}

/// From a window that was read, the page's own bytes are given out, if and only if the
/// window holds all of them and they have the digest that is asked for.
pub proof fn lemma_page_of_a_window(
    page: u64,
    start: u64,
    bytes: &[u8],
    hash: Sha256,
    r: Result<Vec<u8>, RuntimeError>,
)
    requires
        page > 0,
        start <= (page - 1) * 4096 <= u64::MAX,
        call_ensures(checkpoint_page, (page, start, bytes, &hash), r),
    ensures
        r is Ok <==> page * 4096 <= start + bytes@.len() && sha256_of(
            bytes@.subrange((page - 1) * 4096 - start, page * 4096 - start),
        ) == hash@,
        r matches Ok(out) ==> out@.len() == 4096 && forall|i: int|
            0 <= i < 4096 ==> #[trigger] out@[i] == bytes@[(page - 1) * 4096 - start + i],
{
}

// ------------------------------------------------------------ parents

/// A parent that a retained generation is followed to is of the same table, is no newer,
/// and is not older than the version that is looked for. Where it is of the same
/// version it has the same commit and state, and otherwise it is said to be older.
pub proof fn lemma_parent_is_followed<C: DocumentCodec>(
    codec: C,
    generation: Generation,
    parent: Generation,
    wanted: u64,
    r: Result<bool, RuntimeError>,
)
    requires
        call_ensures(take_parent::<C>, (&codec, &generation, &parent, wanted), r),
    ensures
        r matches Ok(older) ==> {
            &&& parent.table_id == generation.table_id
            &&& wanted <= parent.table_version <= generation.table_version
            &&& !older ==> parent.table_version == generation.table_version
                && parent.semantic_commit@ == generation.semantic_commit@
                && parent.semantic_state_sha256 == generation.semantic_state_sha256
            &&& older ==> parent.table_version != generation.table_version
        },
{
}

// ------------------------------------------------------------ images

/// How often a row occurs.
pub open spec fn tally(rows: Seq<String>, row: Seq<char>) -> nat
    decreases rows.len(),
{
    if rows.len() == 0 {
        0
    } else {
        tally(rows.drop_last(), row) + if rows.last()@ == row {
            1nat
        } else {
            0nat
        }
    }
}

proof fn lemma_tally(rows: Seq<String>, row: Seq<char>)
    ensures
        texts_of(rows).to_multiset().count(row) == tally(rows, row),
    decreases rows.len(),
{
    broadcast use vstd::multiset::group_multiset_axioms;

    texts_of(rows).to_multiset_ensures();
    if rows.len() == 0 {
        assert(texts_of(rows) =~= Seq::<Seq<char>>::empty());
        assert(!texts_of(rows).contains(row));
    } else {
        let rest = rows.drop_last();
        lemma_tally(rest, row);
        texts_of(rest).to_multiset_ensures();
        assert(texts_of(rows) =~= texts_of(rest).push(rows.last()@));
        vstd::seq_lib::to_multiset_build(texts_of(rest), rows.last()@);
    }
}

/// The tables have the same name, and each row occurs in both equally often.
pub open spec fn as_often(a: TableRows, b: TableRows) -> bool {
    &&& a.name@ == b.name@
    &&& forall|row: Seq<char>| #[trigger] tally(a.rows@, row) == tally(b.rows@, row)
}

proof fn lemma_as_often(a: TableRows, b: TableRows)
    ensures
        same_table(a, b) <==> as_often(a, b),
{
    let x = texts_of(a.rows@).to_multiset();
    let y = texts_of(b.rows@).to_multiset();
    if same_table(a, b) {
        assert forall|row: Seq<char>| #[trigger]
            tally(a.rows@, row) == tally(b.rows@, row) by {
            lemma_tally(a.rows@, row);
            lemma_tally(b.rows@, row);
        }
    }
    if as_often(a, b) {
        assert forall|row: Seq<char>| x.count(row) == y.count(row) by {
            lemma_tally(a.rows@, row);
            lemma_tally(b.rows@, row);
            assert(tally(a.rows@, row) == tally(b.rows@, row));
        }
        assert(x =~= y);
    }
}

/// Two images are held to be the same if and only if they have the same tables one
/// after the other, each with the same rows, equally often, in whatever order.
pub proof fn lemma_images_are_compared(
    a: Vec<TableRows>,
    b: Vec<TableRows>,
    r: Result<(), RuntimeError>,
)
    requires
        call_ensures(compare_logical_images, (&a, &b), r),
    ensures
        r is Ok <==> a@.len() == b@.len() && forall|i: int|
            0 <= i < a@.len() ==> as_often(#[trigger] a@[i], b@[i]),
{
    assert forall|i: int| 0 <= i < a@.len() implies same_table(#[trigger] a@[i], b@[i])
        == as_often(a@[i], b@[i]) by {
        lemma_as_often(a@[i], b@[i]);
    }
    assert(r is Ok <==> same_images(a@, b@));
}

} // verus!
