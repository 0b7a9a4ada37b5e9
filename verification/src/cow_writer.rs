//! Copy-on-write images: a private overlay over a parent that never changes.
use crate::bytes::same_bytes;
use crate::error::{corrupt, ErrorView, RuntimeError};
use crate::physical::{pages_sorted, ChangedPage};
use std::collections::BTreeMap;
use vstd::prelude::*;

verus! {

pub const PAGE: usize = 4096;

/// Whether page `index` lies in `image` with all its bytes.
pub open spec fn has_page(image: Seq<u8>, index: int) -> bool {
    0 <= index && (index + 1) * 4096 <= image.len()
}

pub open spec fn page_of(image: Seq<u8>, index: int) -> Seq<u8> {
    image.subrange(index * 4096, (index + 1) * 4096)
}

/// An image that is read page by page.
pub trait PageSource {
    /// The image.
    spec fn image(&self) -> Seq<u8>;

    /// Whether no read of this source can fail.
    spec fn reliable(&self) -> bool;

    fn length(&self) -> (n: usize)
        ensures
            n == self.image().len(),
    ;

    /// The bytes of page `index`, counted from zero, or `None` where the image
    /// does not hold the whole page.
    fn parent_page(&self, index: usize) -> (r: Result<Option<Vec<u8>>, RuntimeError>)
        ensures
            r matches Ok(Some(page)) ==> has_page(self.image(), index as int) && page@ == page_of(
                self.image(),
                index as int,
            ),
            r matches Ok(None) ==> !has_page(self.image(), index as int),
            self.reliable() ==> r is Ok,
    ;
}

/// An image held in memory.
#[derive(Debug)]
pub struct ImageBytes {
    pub bytes: Vec<u8>,
}

impl PageSource for ImageBytes {
    open spec fn image(&self) -> Seq<u8> {
        self.bytes@
    }

    open spec fn reliable(&self) -> bool {
        true
    }

    fn length(&self) -> (n: usize) {
        self.bytes.len()
    }

    fn parent_page(&self, index: usize) -> (r: Result<Option<Vec<u8>>, RuntimeError>) {
        if index > self.bytes.len() / PAGE {
            return Ok(None);
        }
        let start: usize = index * PAGE;
        if start > self.bytes.len() || self.bytes.len() - start < PAGE {
            return Ok(None);
        }
        Ok(Some(crate::bytes::copy_range(self.bytes.as_slice(), start, start + PAGE)))
    }
}

/// Private changes over a parent image. Reads see the newest private page,
/// else the parent up to a limit, else zeros.
pub struct Overlay<S> {
    parent: S,
    length: usize,
    parent_limit: usize,
    pages: BTreeMap<usize, Vec<u8>>,
    failed: bool,
    failure: Option<RuntimeError>,
    fail_writes: bool,
}

/// What the byte at `pos` reads as.
pub open spec fn overlaid(
    parent: Seq<u8>,
    limit: int,
    pages: Map<usize, Vec<u8>>,
    pos: int,
) -> u8 {
    if pages.contains_key((pos / 4096) as usize) {
        pages[(pos / 4096) as usize]@[pos % 4096]
    } else if pos < limit {
        parent[pos]
    } else {
        0
    }
}

/// The first `len` bytes of `image`, with zeros after its end.
pub open spec fn resized(image: Seq<u8>, len: int) -> Seq<u8> {
    Seq::new(
        len as nat,
        |i: int|
            if i < image.len() {
                image[i]
            } else {
                0
            },
    )
}

/// `image` with page `index`, counted from zero, replaced, and zeros between
/// its former end and that page.
pub open spec fn with_page(image: Seq<u8>, index: int, page: Seq<u8>) -> Seq<u8> {
    Seq::new(
        if image.len() >= (index + 1) * 4096 {
            image.len()
        } else {
            ((index + 1) * 4096) as nat
        },
        |i: int|
            if i / 4096 == index {
                page[i % 4096]
            } else if i < image.len() {
                image[i]
            } else {
                0
            },
    )
}

impl<S: PageSource> Overlay<S> {
    pub closed spec fn source(&self) -> S {
        self.parent
    }

    /// The image as it now reads.
    pub closed spec fn image(&self) -> Seq<u8> {
        Seq::new(
            self.length as nat,
            |i: int| overlaid(self.parent.image(), self.parent_limit as int, self.pages@, i),
        )
    }

    /// Whether an operation failed, which no later operation undoes.
    pub closed spec fn failed(&self) -> bool {
        self.failed
    }

    /// The first failure to read the parent, until it is taken.
    pub closed spec fn failure(&self) -> Option<RuntimeError> {
        self.failure
    }

    pub closed spec fn fails_writes(&self) -> bool {
        self.fail_writes
    }

    /// Whether reading the byte at `pos` needs a parent page that the parent
    /// does not hold whole.
    pub closed spec fn missing(&self, pos: int) -> bool {
        &&& 0 <= pos < self.length
        &&& !self.pages@.contains_key((pos / 4096) as usize)
        &&& pos < self.parent_limit
        &&& !has_page(self.parent.image(), pos / 4096)
    }

    pub closed spec fn wf(&self) -> bool {
        &&& self.parent_limit <= self.length
        &&& self.parent_limit <= self.parent.image().len()
        &&& forall|k: usize| #[trigger]
            self.pages@.contains_key(k) ==> self.pages@[k]@.len() == 4096 && k * 4096 < self.length
        &&& forall|k: usize, j: int|
            self.pages@.contains_key(k) && 0 <= j < 4096 && k * 4096 + j >= self.length
                ==> #[trigger] self.pages@[k]@[j] == 0
    }

    /// The parent itself, with nothing changed yet.
    pub fn new(parent: S) -> (o: Self)
        ensures
            o.wf(),
            o.source() == parent,
            o.image() == parent.image(),
            !o.failed(),
            o.failure() is None,
            !o.fails_writes(),
            parent.image().len() % 4096 == 0 ==> forall|p: int| !o.missing(p),
    {
        let length: usize = parent.length();
        let o = Overlay {
            parent,
            length,
            parent_limit: length,
            pages: BTreeMap::new(),
            failed: false,
            failure: None,
            fail_writes: false,
        };
        assert(o.image() =~= parent.image());
        o
    }

    pub fn size(&self) -> (n: usize)
        ensures
            n == self.image().len(),
    {
        self.length
    }

    /// Makes every later write fail, or not.
    pub fn set_fail_writes(&mut self, fail: bool)
        requires
            old(self).wf(),
        ensures
            final(self).wf(),
            final(self).source() == old(self).source(),
            final(self).image() == old(self).image(),
            final(self).failed() == old(self).failed(),
            final(self).failure() == old(self).failure(),
            final(self).fails_writes() == fail,
            forall|p: int| final(self).missing(p) == old(self).missing(p),
    {
        self.fail_writes = fail;
    }

    /// Copies the part of one page from `pos` on, `chunk` bytes, into `out`.
    fn read_chunk(&self, pos: usize, chunk: usize, out: &mut Vec<u8>) -> (r: Result<
        (),
        RuntimeError,
    >)
        requires
            self.wf(),
            0 < chunk,
            pos + chunk <= self.length,
            pos % 4096 + chunk <= 4096,
        ensures
            match r {
                Ok(()) => {
                    &&& final(out)@ == old(out)@ + self.image().subrange(pos as int, pos + chunk)
                    &&& forall|p: int| pos <= p < pos + chunk ==> !self.missing(p)
                },
                Err(e) => self.source().reliable() ==> {
                    &&& e@ == ErrorView::Corrupt("missing parent page"@)
                    &&& self.missing(pos as int)
                },
            },
    {
        let index: usize = pos / PAGE;
        let within: usize = pos % PAGE;
        let mut page: Vec<u8> = Vec::new();
        let mut valid: usize = 0;
        match self.pages.get(&index) {
            Some(private) => {
                page = crate::bytes::copy_range(private.as_slice(), 0, PAGE);
                valid = chunk;
            },
            None => {
                if pos < self.parent_limit {
                    valid = if chunk < self.parent_limit - pos {
                        chunk
                    } else {
                        self.parent_limit - pos
                    };
                    match self.parent.parent_page(index) {
                        Err(e) => {
                            return Err(e);
                        },
                        Ok(None) => {
                            return Err(corrupt("missing parent page"));
                        },
                        Ok(Some(bytes)) => {
                            page = bytes;
                        },
                    }
                }
            },
        }
        let mut i: usize = 0;
        while i < chunk
            invariant
                i <= chunk,
                valid <= chunk,
                pos + chunk <= self.length,
                within == pos % 4096,
                index == pos / 4096,
                within + chunk <= 4096,
                valid > 0 ==> page@.len() == 4096,
                forall|j: int|
                    0 <= j < chunk ==> #[trigger] overlaid(
                        self.parent.image(),
                        self.parent_limit as int,
                        self.pages@,
                        pos + j,
                    ) == (if j < valid {
                        page@[within + j]
                    } else {
                        0
                    }),
                out@ == old(out)@ + self.image().subrange(pos as int, pos + i),
            decreases chunk - i,
        {
            assert(overlaid(
                self.parent.image(),
                self.parent_limit as int,
                self.pages@,
                pos + i,
            ) == self.image()[pos + i]);
            if i < valid {
                out.push(page[within + i]);
            } else {
                out.push(0);
            }
            i = i + 1;
            assert(out@ =~= old(out)@ + self.image().subrange(pos as int, pos + i));
        }
        Ok(())
    }

    /// `len` bytes from `offset` on, zeros after the end of the image, and how
    /// many of them lie in the image.
    pub fn read_at(&self, offset: usize, len: usize) -> (r: Result<(Vec<u8>, usize), RuntimeError>)
        requires
            self.wf(),
        ensures
            match r {
                Ok((bytes, count)) => {
                    let end = if offset + len <= self.image().len() {
                        offset + len
                    } else {
                        self.image().len() as int
                    };
                    &&& bytes@ == resized(self.image(), offset + len).subrange(
                        offset as int,
                        offset + len,
                    )
                    &&& count == if offset < end {
                        end - offset
                    } else {
                        0
                    }
                    &&& forall|p: int| offset <= p < offset + len ==> !self.missing(p)
                },
                Err(e) => self.source().reliable() ==> {
                    &&& e@ == ErrorView::Corrupt("missing parent page"@)
                    &&& exists|p: int| offset <= p < offset + len && self.missing(p)
                },
            },
    {
        let left: usize = if offset < self.length {
            self.length - offset
        } else {
            0
        };
        let count: usize = if len < left {
            len
        } else {
            left
        };
        let mut out: Vec<u8> = Vec::new();
        let mut copied: usize = 0;
        while copied < count
            invariant
                self.wf(),
                copied <= count <= len,
                count > 0 ==> offset + count <= self.length,
                out@.len() == copied,
                copied > 0 ==> out@ == self.image().subrange(offset as int, offset + copied),
                forall|p: int| offset <= p < offset + copied ==> !self.missing(p),
            decreases count - copied,
        {
            let pos: usize = offset + copied;
            let rest: usize = PAGE - pos % PAGE;
            let chunk: usize = if rest < count - copied {
                rest
            } else {
                count - copied
            };
            match self.read_chunk(pos, chunk, &mut out) {
                Err(e) => {
                    return Err(e);
                },
                Ok(()) => {},
            }
            copied = copied + chunk;
            assert(out@ =~= self.image().subrange(offset as int, offset + copied));
        }
        while out.len() < len
            invariant
                count <= out@.len() <= len,
                forall|i: int| 0 <= i < count ==> out@[i] == self.image()[offset + i],
                forall|i: int| count <= i < out@.len() ==> out@[i] == 0,
            decreases len - out@.len(),
        {
            out.push(0);
        }
        assert(out@ =~= resized(self.image(), offset + len).subrange(offset as int, offset + len));
        Ok((out, count))
    }

    /// The whole image.
    pub fn export(&self) -> (r: Result<Vec<u8>, RuntimeError>)
        requires
            self.wf(),
        ensures
            match r {
                Ok(bytes) => bytes@ == self.image() && forall|p: int| !self.missing(p),
                Err(e) => self.source().reliable() ==> {
                    &&& e@ == ErrorView::Corrupt("missing parent page"@)
                    &&& exists|p: int| self.missing(p)
                },
            },
    {
        match self.read_at(0, self.length) {
            Err(e) => Err(e),
            Ok((bytes, _)) => {
                assert(bytes@ =~= self.image());
                Ok(bytes)
            },
        }
    }

    fn remember(&mut self, error: RuntimeError)
        requires
            old(self).wf(),
        ensures
            final(self).wf(),
            final(self).source() == old(self).source(),
            final(self).image() == old(self).image(),
            final(self).failed() == old(self).failed(),
            final(self).failure() == (if old(self).failure() is None {
                Some(error)
            } else {
                old(self).failure()
            }),
            final(self).fails_writes() == old(self).fails_writes(),
            forall|p: int| final(self).missing(p) == old(self).missing(p),
    {
        if self.failure.is_none() {
            self.failure = Some(error);
        }
    }

    /// Reads `len` bytes of page `page`, counted from one, for the engine. A
    /// failure is kept, and no image can be frozen after it.
    pub fn read_page(&mut self, page: usize, len: usize) -> (r: Result<
        (Vec<u8>, usize),
        RuntimeError,
    >)
        requires
            old(self).wf(),
        ensures
            final(self).wf(),
            final(self).source() == old(self).source(),
            final(self).image() == old(self).image(),
            final(self).fails_writes() == old(self).fails_writes(),
            forall|p: int| final(self).missing(p) == old(self).missing(p),
            final(self).failed() == (old(self).failed() || r is Err),
            match r {
                Ok((bytes, count)) => {
                    let offset = (page - 1) * 4096;
                    let end = if offset + len <= old(self).image().len() {
                        offset + len
                    } else {
                        old(self).image().len() as int
                    };
                    &&& 1 <= page
                    &&& bytes@ == resized(old(self).image(), offset + len).subrange(
                        offset,
                        offset + len,
                    )
                    &&& count == if offset < end {
                        end - offset
                    } else {
                        0
                    }
                    &&& final(self).failure() == old(self).failure()
                },
                Err(e) => if page == 0 || (page - 1) * 4096 > usize::MAX {
                    &&& e@ == ErrorView::Turso("integer overflow"@)
                    &&& final(self).failure() == old(self).failure()
                } else {
                    &&& e@ == ErrorView::Turso("authenticated parent page failed"@)
                    &&& final(self).failure() is Some
                    &&& old(self).failure() is Some ==> final(self).failure() == old(
                        self,
                    ).failure()
                    &&& old(self).source().reliable() ==> exists|p: int|
                        (page - 1) * 4096 <= p < (page - 1) * 4096 + len && old(self).missing(p)
                },
            },
    {
        if page == 0 || page - 1 > usize::MAX / PAGE {
            self.failed = true;
            return Err(RuntimeError::Turso("integer overflow".to_owned()));
        }
        match self.read_at((page - 1) * PAGE, len) {
            Ok(x) => Ok(x),
            Err(e) => {
                self.remember(e);
                self.failed = true;
                Err(RuntimeError::Turso("authenticated parent page failed".to_owned()))
            },
        }
    }

    /// Replaces page `page`, counted from one. The image grows to hold it.
    pub fn write_page(&mut self, page: usize, bytes: Vec<u8>) -> (r: Result<(), RuntimeError>)
        requires
            old(self).wf(),
        ensures
            final(self).wf(),
            final(self).source() == old(self).source(),
            final(self).fails_writes() == old(self).fails_writes(),
            final(self).failure() == old(self).failure(),
            final(self).failed() == (old(self).failed() || r is Err),
            r is Ok ==> forall|p: int| final(self).missing(p) ==> old(self).missing(p),
            match r {
                Ok(()) => {
                    &&& !old(self).fails_writes()
                    &&& bytes@.len() == 4096
                    &&& 1 <= page
                    &&& page * 4096 <= usize::MAX
                    &&& final(self).image() == with_page(old(self).image(), page - 1, bytes@)
                },
                Err(e) => {
                    &&& final(self).image() == old(self).image()
                    &&& forall|p: int| final(self).missing(p) == old(self).missing(p)
                    &&& e@ == ErrorView::Turso(
                        if old(self).fails_writes() {
                            "injected checkpoint failure"@
                        } else if bytes@.len() != 4096 || page == 0 {
                            "expected 4 KiB page"@
                        } else {
                            "integer overflow"@
                        },
                    )
                    &&& old(self).fails_writes() || bytes@.len() != 4096 || page == 0 || page * 4096
                        > usize::MAX
                },
            },
    {
        if self.fail_writes {
            self.failed = true;
            return Err(RuntimeError::Turso("injected checkpoint failure".to_owned()));
        }
        if bytes.len() != PAGE || page == 0 {
            self.failed = true;
            return Err(RuntimeError::Turso("expected 4 KiB page".to_owned()));
        }
        if page > usize::MAX / PAGE {
            self.failed = true;
            return Err(RuntimeError::Turso("integer overflow".to_owned()));
        }
        let end: usize = page * PAGE;
        let ghost before = self.image();
        let ghost page_bytes = bytes@;
        self.pages.insert(page - 1, bytes);
        if self.length < end {
            self.length = end;
        }
        proof {
            assert forall|i: int| 0 <= i < self.length implies #[trigger] self.image()[i]
                == with_page(before, page - 1, page_bytes)[i] by {
                if i / 4096 != page - 1 && i >= before.len() {
                    if self.pages@.contains_key((i / 4096) as usize) {
                        let k = (i / 4096) as usize;
                        assert(old(self).pages@[k]@[i % 4096] == 0);
                    }
                }
            }
            assert(self.image() =~= with_page(before, page - 1, page_bytes));
        }
        Ok(())
    }

    /// Replaces consecutive pages from `first` on, stopping at the first that
    /// fails. Gives the number of bytes written.
    pub fn write_pages(&mut self, first: usize, page_size: usize, buffers: Vec<Vec<u8>>) -> (r:
        Result<usize, RuntimeError>)
        requires
            old(self).wf(),
        ensures
            final(self).wf(),
            final(self).source() == old(self).source(),
            final(self).fails_writes() == old(self).fails_writes(),
            final(self).failure() == old(self).failure(),
            final(self).failed() == (old(self).failed() || r is Err),
            match r {
                Ok(n) => {
                    &&& page_size == 4096
                    &&& n == buffers@.len() * 4096
                    &&& final(self).image() == with_pages(
                        old(self).image(),
                        first - 1,
                        contents(buffers@),
                    )
                    &&& (buffers@.len() > 0 ==> 1 <= first && !old(self).fails_writes())
                    &&& forall|i: int| 0 <= i < buffers@.len() ==> buffers@[i]@.len() == 4096
                    &&& forall|p: int| final(self).missing(p) ==> old(self).missing(p)
                },
                Err(e) => {
                    let all = contents(buffers@);
                    if page_size != 4096 {
                        &&& e@ == ErrorView::Turso("expected 4 KiB page"@)
                        &&& final(self).image() == old(self).image()
                    } else if buffers@.len() * 4096 > usize::MAX {
                        &&& e@ == ErrorView::Turso("integer overflow"@)
                        &&& final(self).image() == old(self).image()
                    } else {
                        exists|k: int|
                            {
                                &&& 0 <= k < buffers@.len()
                                &&& final(self).image() == with_pages(
                                    old(self).image(),
                                    first - 1,
                                    #[trigger] all.take(k),
                                )
                                &&& e@ == ErrorView::Turso(
                                    if first + k > usize::MAX {
                                        "integer overflow"@
                                    } else if old(self).fails_writes() {
                                        "injected checkpoint failure"@
                                    } else if all[k].len() != 4096 || first + k == 0 {
                                        "expected 4 KiB page"@
                                    } else {
                                        "integer overflow"@
                                    },
                                )
                                &&& old(self).fails_writes() || all[k].len() != 4096 || first + k
                                    == 0 || (first + k) * 4096 > usize::MAX
                            }
                    }
                },
            },
    {
        if page_size != PAGE {
            self.failed = true;
            return Err(RuntimeError::Turso("expected 4 KiB page".to_owned()));
        }
        if buffers.len() > usize::MAX / PAGE {
            self.failed = true;
            return Err(RuntimeError::Turso("integer overflow".to_owned()));
        }
        let count: usize = buffers.len() * PAGE;
        let ghost all = contents(buffers@);
        let mut i: usize = 0;
        while i < buffers.len()
            invariant
                self.wf(),
                i <= buffers@.len(),
                page_size == 4096,
                buffers@.len() * 4096 <= usize::MAX,
                self.source() == old(self).source(),
                self.fails_writes() == old(self).fails_writes(),
                self.failure() == old(self).failure(),
                self.failed() == old(self).failed(),
                all == contents(buffers@),
                self.image() == with_pages(old(self).image(), first - 1, all.take(i as int)),
                i > 0 ==> 1 <= first && !old(self).fails_writes(),
                forall|j: int| 0 <= j < i ==> buffers@[j]@.len() == 4096,
                forall|p: int| self.missing(p) ==> old(self).missing(p),
            decreases buffers@.len() - i,
        {
            match first.checked_add(i) {
                None => {
                    self.failed = true;
                    return Err(RuntimeError::Turso("integer overflow".to_owned()));
                },
                Some(page) => {
                    let copy = crate::bytes::copy_range(buffers[i].as_slice(), 0, buffers[i].len());
                    assert(copy@ =~= buffers@[i as int]@);
                    match self.write_page(page, copy) {
                        Err(e) => {
                            return Err(e);
                        },
                        Ok(()) => {},
                    }
                    assert(all.take(i + 1).drop_last() =~= all.take(i as int));
                },
            }
            i = i + 1;
        }
        assert(all.take(i as int) =~= all);
        Ok(count)
    }

    /// Cuts the image to `len` bytes, or extends it with zeros.
    pub fn truncate(&mut self, len: usize) -> (r: Result<(), RuntimeError>)
        requires
            old(self).wf(),
        ensures
            final(self).wf(),
            final(self).source() == old(self).source(),
            final(self).fails_writes() == old(self).fails_writes(),
            final(self).failed() == old(self).failed(),
            match r {
                Ok(()) => {
                    &&& final(self).image() == resized(old(self).image(), len as int)
                    &&& final(self).failure() == old(self).failure()
                    &&& forall|p: int| final(self).missing(p) ==> old(self).missing(p)
                },
                Err(e) => {
                    &&& e@ == ErrorView::Turso("authenticated parent page failed"@)
                    &&& final(self).image() == old(self).image()
                    &&& forall|p: int| final(self).missing(p) == old(self).missing(p)
                    &&& final(self).failure() is Some
                    &&& old(self).failure() is Some ==> final(self).failure() == old(
                        self,
                    ).failure()
                    &&& old(self).source().reliable() ==> exists|p: int| old(self).missing(p)
                },
            },
    {
        let ghost before = self.image();
        let ghost mut pages = self.pages@;
        if len < self.length {
            let kept: usize = len / PAGE + if len % PAGE != 0 {
                1usize
            } else {
                0usize
            };
            if len % PAGE != 0 {
                let start: usize = len / PAGE * PAGE;
                match self.read_at(start, len % PAGE) {
                    Err(e) => {
                        self.remember(e);
                        return Err(
                            RuntimeError::Turso("authenticated parent page failed".to_owned()),
                        );
                    },
                    Ok((head, _)) => {
                        let mut page = head;
                        while page.len() < PAGE
                            invariant
                                len % 4096 <= page@.len() <= 4096,
                                forall|i: int|
                                    0 <= i < len % 4096 ==> page@[i] == before[start + i],
                                forall|i: int| len % 4096 <= i < page@.len() ==> page@[i] == 0,
                            decreases 4096 - page@.len(),
                        {
                            page.push(0);
                        }
                        self.pages.insert(len / PAGE, page);
                    },
                }
            }
            proof {
                pages = self.pages@;
            }
            let ghost limit = self.parent_limit;
            let mut k: usize = kept;
            let top: usize = (self.length - 1) / PAGE;
            while k <= top
                invariant
                    kept <= k,
                    k <= top + 1 || kept == k,
                    top <= usize::MAX / 4096,
                    top == (self.length - 1) / 4096,
                    len < self.length,
                    self.length == old(self).length,
                    self.parent_limit == limit,
                    self.parent == old(self).parent,
                    self.failed == old(self).failed,
                    self.failure == old(self).failure,
                    self.fail_writes == old(self).fail_writes,
                    forall|n: usize| #[trigger]
                        self.pages@.contains_key(n) ==> pages.contains_key(n) && self.pages@[n]
                            == pages[n] && !(kept <= n < k),
                    forall|n: usize| #[trigger]
                        pages.contains_key(n) && !(kept <= n < k) ==> self.pages@.contains_key(n),
                decreases top + 1 - k,
            {
                self.pages.remove(&k);
                k = k + 1;
            }
            proof {
                assert forall|n: usize| #[trigger] self.pages@.contains_key(n) implies n < kept by {
                    assert(pages.contains_key(n));
                    assert(n * 4096 < old(self).length);
                }
            }
            if len < self.parent_limit {
                self.parent_limit = len;
            }
        }
        self.length = len;
        proof {
            assert forall|i: int| 0 <= i < len implies #[trigger] self.image()[i] == resized(
                before,
                len as int,
            )[i] by {
                let n = (i / 4096) as usize;
                if i >= before.len() {
                    if self.pages@.contains_key(n) {
                        assert(old(self).pages@[n]@[i % 4096] == 0);
                    }
                } else {
                    assert(before[i] == overlaid(
                        old(self).parent.image(),
                        old(self).parent_limit as int,
                        old(self).pages@,
                        i,
                    ));
                    if len < old(self).length && len % 4096 != 0 && n == len / 4096 {
                        assert(pages.contains_key(n));
                        assert(self.pages@[n]@[i % 4096] == before[i]);
                    } else {
                        assert(pages.contains_key(n) == old(self).pages@.contains_key(n));
                        assert(self.pages@.contains_key(n) == pages.contains_key(n));
                    }
                }
            }
            assert(self.image() =~= resized(before, len as int));
            assert forall|p: int| self.missing(p) implies old(self).missing(p) by {
                let n = (p / 4096) as usize;
                assert(!pages.contains_key(n) || self.pages@.contains_key(n));
            }
        }
        Ok(())
    }

    /// Gives the first failure to read the parent, if there was one.
    pub fn take_failure(&mut self) -> (r: Result<(), RuntimeError>)
        requires
            old(self).wf(),
        ensures
            final(self).wf(),
            final(self).source() == old(self).source(),
            final(self).image() == old(self).image(),
            final(self).failed() == old(self).failed(),
            final(self).fails_writes() == old(self).fails_writes(),
            forall|p: int| final(self).missing(p) == old(self).missing(p),
            final(self).failure() is None,
            match r {
                Ok(()) => old(self).failure() is None,
                Err(e) => old(self).failure() == Some(e),
            },
    {
        match self.failure.take() {
            None => Ok(()),
            Some(e) => Err(e),
        }
    }
}

/// What was cut off an image never comes back: after a cut to `cut` bytes and
/// an extension to `len`, everything past the cut reads as zero.
pub proof fn lemma_regrown_bytes_are_zero(image: Seq<u8>, cut: int, len: int)
    requires
        0 <= cut <= image.len(),
        cut <= len,
    ensures
        resized(resized(image, cut), len).take(cut) == image.take(cut),
        forall|i: int| cut <= i < len ==> #[trigger] resized(resized(image, cut), len)[i] == 0,
{
    assert(resized(resized(image, cut), len).take(cut) =~= image.take(cut));
}

/// A page reads back as it was last written, and no write touches another page.
pub proof fn lemma_written_page_reads_back(image: Seq<u8>, index: int, page: Seq<u8>, other: int)
    requires
        0 <= index,
        page.len() == 4096,
    ensures
        page_of(with_page(image, index, page), index) == page,
        other != index && has_page(image, other) ==> has_page(
            with_page(image, index, page),
            other,
        ) && page_of(with_page(image, index, page), other) == page_of(image, other),
{
    let after = with_page(image, index, page);
    assert(page_of(after, index) =~= page);
    if other != index && has_page(image, other) {
        assert(page_of(after, other) =~= page_of(image, other));
    }
}

/// Writing a page twice leaves what the second write wrote.
pub proof fn lemma_last_write_wins(image: Seq<u8>, index: int, first: Seq<u8>, second: Seq<u8>)
    requires
        0 <= index,
    ensures
        with_page(with_page(image, index, first), index, second) == with_page(image, index, second),
{
    assert(with_page(with_page(image, index, first), index, second) =~= with_page(
        image,
        index,
        second,
    ));
}

/// The bytes of each buffer.
pub open spec fn contents(buffers: Seq<Vec<u8>>) -> Seq<Seq<u8>> {
    Seq::new(buffers.len(), |i: int| buffers[i]@)
}

/// `image` with consecutive pages replaced from `index` on.
pub open spec fn with_pages(image: Seq<u8>, index: int, pages: Seq<Seq<u8>>) -> Seq<u8>
    decreases pages.len(),
{
    if pages.len() == 0 {
        image
    } else {
        with_page(
            with_pages(image, index, pages.drop_last()),
            index + pages.len() - 1,
            pages.last(),
        )
    }
}

/// The pages of an image that differ from its parent, by number counted from
/// one, and the parent itself.
pub struct FrozenImage<S> {
    parent: S,
    length: usize,
    changed: BTreeMap<u64, Vec<u8>>,
}

/// What a frozen image reads as.
pub open spec fn applied(parent: Seq<u8>, len: int, changed: Map<u64, Seq<u8>>) -> Seq<u8> {
    Seq::new(
        len as nat,
        |i: int|
            if changed.contains_key((i / 4096 + 1) as u64) {
                changed[(i / 4096 + 1) as u64][i % 4096]
            } else if i < parent.len() {
                parent[i]
            } else {
                0
            },
    )
}

/// The pages on which `image` differs from `parent`, a page that `parent` does
/// not hold whole counting as different.
pub open spec fn differing(parent: Seq<u8>, image: Seq<u8>) -> Map<u64, Seq<u8>> {
    Map::new(
        |n: u64|
            {
                &&& 1 <= n
                &&& n * 4096 <= image.len()
                &&& !(has_page(parent, n - 1) && page_of(parent, n - 1) == page_of(image, n - 1))
            },
        |n: u64| page_of(image, n - 1),
    )
}

/// The pages in a map by their bytes.
pub open spec fn page_bytes(pages: Map<u64, Vec<u8>>) -> Map<u64, Seq<u8>> {
    pages.map_values(|page: Vec<u8>| page@)
}

/// Replacing the differing pages of the parent gives the image back.
pub proof fn lemma_differing_pages_suffice(parent: Seq<u8>, image: Seq<u8>)
    requires
        image.len() % 4096 == 0,
        image.len() <= u64::MAX,
    ensures
        applied(parent, image.len() as int, differing(parent, image)) == image,
{
    let changed = differing(parent, image);
    assert forall|i: int| 0 <= i < image.len() implies #[trigger] applied(
        parent,
        image.len() as int,
        changed,
    )[i] == image[i] by {
        let n = (i / 4096 + 1) as u64;
        assert(n * 4096 <= image.len());
        if !changed.contains_key(n) {
            assert(page_of(parent, n - 1)[i % 4096] == page_of(image, n - 1)[i % 4096]);
        }
    }
    assert(applied(parent, image.len() as int, changed) =~= image);
}

impl<S: PageSource> Overlay<S> {
    /// Whether page `index` was touched: it is private, or it does not lie
    /// wholly below the parent limit.
    spec fn touched(&self, index: int) -> bool {
        self.pages@.contains_key(index as usize) || index >= self.parent_limit / 4096
    }

    /// Gives the differing pages, looking only at touched ones. An image that
    /// had a failure, or that does not end at a page boundary, is refused.
    pub fn freeze(self) -> (r: Result<FrozenImage<S>, RuntimeError>)
        requires
            self.wf(),
        ensures
            match r {
                Ok(frozen) => {
                    &&& self.failure() is None
                    &&& !self.failed()
                    &&& self.image().len() % 4096 == 0
                    &&& frozen.wf()
                    &&& frozen.source() == self.source()
                    &&& frozen.size() == self.image().len()
                    &&& frozen.changes() == differing(self.source().image(), self.image())
                    &&& frozen.image() == self.image()
                },
                Err(e) => {
                    ||| self.failure() == Some(e)
                    ||| {
                        &&& self.failure() is None
                        &&& self.failed()
                        &&& e@ == ErrorView::Turso("candidate storage failed before freeze"@)
                    }
                    ||| {
                        &&& self.failure() is None
                        &&& !self.failed()
                        &&& self.image().len() % 4096 != 0
                        &&& e@ == ErrorView::Turso("unaligned frozen image"@)
                    }
                    ||| {
                        &&& self.failure() is None
                        &&& !self.failed()
                        &&& self.image().len() % 4096 == 0
                        &&& self.source().reliable() ==> {
                            &&& e@ == ErrorView::Corrupt("missing parent page"@)
                            &&& exists|p: int| self.missing(p)
                        }
                    }
                },
            },
    {
        let overlay = self;
        if let Some(e) = overlay.failure {
            return Err(e);
        }
        if overlay.failed {
            return Err(RuntimeError::Turso("candidate storage failed before freeze".to_owned()));
        }
        if overlay.length % PAGE != 0 {
            return Err(RuntimeError::Turso("unaligned frozen image".to_owned()));
        }
        let count: usize = overlay.length / PAGE;
        let ghost parent = overlay.parent.image();
        let ghost image = overlay.image();
        let mut changed: BTreeMap<u64, Vec<u8>> = BTreeMap::new();
        let mut index: usize = 0;
        while index < count
            invariant
                overlay.wf(),
                overlay == self,
                overlay.failure is None,
                !overlay.failed,
                overlay.length % 4096 == 0,
                count == overlay.length / 4096,
                parent == overlay.parent.image(),
                image == overlay.image(),
                index <= count,
                forall|n: u64| #[trigger]
                    changed@.contains_key(n) <==> n <= index && differing(
                        parent,
                        image,
                    ).contains_key(n),
                forall|n: u64| #[trigger]
                    changed@.contains_key(n) ==> changed@[n]@ == page_of(image, n - 1),
            decreases count - index,
        {
            let ghost number = (index + 1) as u64;
            proof {
                assert(number * 4096 <= image.len());
            }
            if overlay.pages.contains_key(&index) || index >= overlay.parent_limit / PAGE {
                let bytes: Vec<u8> = match overlay.read_at(index * PAGE, PAGE) {
                    Err(e) => {
                        return Err(e);
                    },
                    Ok((bytes, _)) => bytes,
                };
                assert(bytes@ =~= page_of(image, index as int));
                let same: bool = match overlay.parent.parent_page(index) {
                    Err(e) => {
                        return Err(e);
                    },
                    Ok(None) => false,
                    Ok(Some(page)) => same_bytes(page.as_slice(), bytes.as_slice()),
                };
                if !same {
                    changed.insert(index as u64 + 1, bytes);
                }
            } else {
                assert(has_page(parent, index as int));
                assert forall|j: int| 0 <= j < 4096 implies #[trigger] page_of(
                    parent,
                    index as int,
                )[j] == page_of(image, index as int)[j] by {
                    assert(image[index * 4096 + j] == overlaid(
                        parent,
                        overlay.parent_limit as int,
                        overlay.pages@,
                        index * 4096 + j,
                    ));
                }
                assert(page_of(parent, index as int) =~= page_of(image, index as int));
            }
            index = index + 1;
        }
        proof {
            lemma_differing_pages_suffice(parent, image);
        }
        let frozen = FrozenImage { parent: overlay.parent, length: overlay.length, changed };
        proof {
            assert(frozen.changes() =~= differing(parent, image)) by {
                assert forall|n: u64| differing(parent, image).contains_key(n) implies #[trigger]
                    changed@.contains_key(n) by {
                    assert(n <= count);
                }
            }
        }
        Ok(frozen)
    }
}

pub open spec fn lists_page(pages: Seq<ChangedPage>, number: u64) -> bool {
    exists|k: int| 0 <= k < pages.len() && (#[trigger] pages[k]).number == number
}

/// The list holds each changed page and nothing else.
pub open spec fn lists_changes(pages: Seq<ChangedPage>, changes: Map<u64, Seq<u8>>) -> bool {
    &&& forall|i: int|
        0 <= i < pages.len() ==> {
            let page = #[trigger] pages[i];
            &&& changes.contains_key(page.number)
            &&& page.bytes@ == changes[page.number]
        }
    &&& forall|n: u64| #[trigger] changes.contains_key(n) ==> lists_page(pages, n)
}

impl<S: PageSource> FrozenImage<S> {
    pub closed spec fn source(&self) -> S {
        self.parent
    }

    pub closed spec fn size(&self) -> nat {
        self.length as nat
    }

    /// The changed pages, by number counted from one.
    pub closed spec fn changes(&self) -> Map<u64, Seq<u8>> {
        page_bytes(self.changed@)
    }

    pub open spec fn image(&self) -> Seq<u8> {
        applied(self.source().image(), self.size() as int, self.changes())
    }

    pub closed spec fn wf(&self) -> bool {
        &&& self.length % 4096 == 0
        &&& forall|n: u64| #[trigger]
            self.changed@.contains_key(n) ==> {
                &&& 1 <= n
                &&& n * 4096 <= self.length
                &&& self.changed@[n]@.len() == 4096
            }
        &&& forall|n: u64|
            1 <= n && n * 4096 <= self.length && !#[trigger] self.changed@.contains_key(n)
                ==> has_page(self.parent.image(), n - 1)
    }

    pub fn length(&self) -> (n: usize)
        ensures
            n == self.size(),
    {
        self.length
    }

    /// The changed page with this number, if it changed.
    pub fn changed_page(&self, number: u64) -> (page: Option<&Vec<u8>>)
        ensures
            match page {
                Some(bytes) => self.changes().contains_key(number) && bytes@
                    == self.changes()[number],
                None => !self.changes().contains_key(number),
            },
    {
        self.changed.get(&number)
    }

    /// The changed pages in the order of their numbers.
    pub fn changed_pages(&self) -> (pages: Vec<ChangedPage>)
        requires
            self.wf(),
        ensures
            pages_sorted(pages@),
            lists_changes(pages@, self.changes()),
    {
        let mut pages: Vec<ChangedPage> = Vec::new();
        let count: usize = self.length / PAGE;
        let mut index: usize = 0;
        while index < count
            invariant
                self.wf(),
                count == self.length / 4096,
                index <= count,
                pages_sorted(pages@),
                forall|i: int|
                    0 <= i < pages@.len() ==> {
                        let page = #[trigger] pages@[i];
                        &&& page.number <= index
                        &&& self.changes().contains_key(page.number)
                        &&& page.bytes@ == self.changes()[page.number]
                    },
                forall|n: u64| #[trigger]
                    self.changes().contains_key(n) && n <= index ==> lists_page(pages@, n),
            decreases count - index,
        {
            let number: u64 = index as u64 + 1;
            let ghost before = pages@;
            match self.changed.get(&number) {
                Some(bytes) => {
                    let copy: Vec<u8> = crate::bytes::copy_range(bytes.as_slice(), 0, PAGE);
                    assert(copy@ =~= bytes@);
                    pages.push(ChangedPage { number, bytes: copy });
                    assert(pages@[before.len() as int].number == number);
                },
                None => {},
            }
            index = index + 1;
            assert forall|n: u64| #[trigger]
                self.changes().contains_key(n) && n <= index implies lists_page(pages@, n) by {
                if n != number {
                    assert(lists_page(before, n));
                    let k = choose|k: int|
                        0 <= k < before.len() && (#[trigger] before[k]).number == n;
                    assert(pages@[k].number == n);
                }
            }
        }
        proof {
            assert forall|n: u64| #[trigger] self.changes().contains_key(n) implies lists_page(
                pages@,
                n,
            ) by {
                assert(self.changed@.contains_key(n));
                assert(n <= count);
            }
        }
        pages
    }

    /// The complete image.
    pub fn materialize(&self) -> (r: Result<Vec<u8>, RuntimeError>)
        requires
            self.wf(),
        ensures
            r matches Ok(bytes) ==> bytes@ == self.image(),
            self.source().reliable() ==> r is Ok,
    {
        let mut out: Vec<u8> = Vec::new();
        let count: usize = self.length / PAGE;
        let mut index: usize = 0;
        while index < count
            invariant
                self.wf(),
                count == self.length / 4096,
                index <= count,
                out@.len() == index * 4096,
                forall|i: int| 0 <= i < index * 4096 ==> out@[i] == #[trigger] self.image()[i],
            decreases count - index,
        {
            let number: u64 = index as u64 + 1;
            let page: Vec<u8> = match self.changed.get(&number) {
                Some(bytes) => crate::bytes::copy_range(bytes.as_slice(), 0, PAGE),
                None => match self.parent.parent_page(index) {
                    Err(e) => {
                        return Err(e);
                    },
                    Ok(Some(page)) => page,
                    Ok(None) => {
                        assert(has_page(self.parent.image(), index as int));
                        Vec::new()
                    },
                },
            };
            let mut page = page;
            assert(page@.len() == 4096);
            assert forall|j: int| 0 <= j < 4096 implies #[trigger] page@[j] == self.image()[index
                * 4096 + j] by {}
            let ghost before = out@;
            let ghost added = page@;
            out.append(&mut page);
            index = index + 1;
            assert forall|i: int| 0 <= i < index * 4096 implies out@[i]
                == #[trigger] self.image()[i] by {
                if i >= before.len() {
                    assert(out@[i] == added[i - before.len()]);
                }
            }
        }
        assert(out@ =~= self.image());
        Ok(out)
    }
}

} // verus!
