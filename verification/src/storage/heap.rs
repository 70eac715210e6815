//! Heap files: a table's `.DAT` file as a sequence of slotted pages.
//!
//! Page `n` lies at byte `n` times the page size. A row is addressed by its [`Rid`]. A heap file
//! holds the pages of the file and its free-space map; reading the files and writing them back is
//! left to the caller.

use vstd::prelude::*;
use vstd::string::StringExecFns;
use crate::bytes::{append_bytes, copy_bytes, copy_into, get_le, le_at, le_value};
use crate::error::{catalog_error, DbResult, Error, ErrorModel};
use crate::storage::fsm::{category, extended, file_view, first_map, first_page,
    law_category_is_monotone, law_search_is_first, map_error, saved_map, tree_fits, FreeSpaceMap,
    FsmModel};
use crate::storage::page::{can_insert, data_start, deleted, free_bytes, free_space_of, has_layout,
    inserted, is_fresh, law_delete_then_read, law_insert_then_read, lemma_free_bytes_bound,
    lemma_slot_count_bound, mismatch_text, page_id_in, page_id_of, page_wf, row_in, sealed,
    slot_count_in, verify_checksum_of, PageId, PageRead, PageWrite, SlotIndex, SlottedPage,
    CHECKSUM_END};
use crate::text::{char_range, chars_of, copy_str, decimal, digits10, same_str, string_of};

verus! {

/// The address of a row: its page, and its slot in the page.
#[derive(Debug, Clone, Copy, PartialEq, Eq, Hash, Structural)]
pub struct Rid {
    pub page_id: PageId,
    pub slot: SlotIndex,
}

/// A heap file: its pages, and a map of the free space in them.
pub struct HeapFile {
    pages: Vec<Vec<u8>>,
    page_size: usize,
    fsm: FreeSpaceMap,
}

/// How the pages of a heap file are read: from the file, or through a pool of so many frames.
pub enum Access {
    File,
    Pool(nat),
}

/// The contents of a heap file, and how they are read.
pub struct HeapModel {
    pub page_size: nat,
    pub pages: Seq<Seq<u8>>,
    pub fsm: FsmModel,
    pub via: Access,
}

/// The error of a pool that has no frame left for a page.
pub open spec fn pool_full() -> ErrorModel {
    ErrorModel::Catalog("buffer pool full: all frames are pinned"@)
}

/// What is asked of a page of a file: where it carries its checksum, it has the layout of a page.
pub open spec fn page_laid(page: Seq<u8>) -> bool {
    sealed(page) ==> page_wf(page)
}

/// Whether page `p` of a file, where it carries its checksum, has the layout of a page and the
/// number `p`.
pub open spec fn page_sound(page: Seq<u8>, p: int) -> bool {
    sealed(page) ==> page_wf(page) && page_id_in(page) == p
}

/// A page of zeros, which is what a file has where no page was written yet.
pub open spec fn zero_page(page_size: nat) -> Seq<u8> {
    Seq::new(page_size, |i: int| 0u8)
}

/// Whether the checksum tells a page that was never written from one that was.
pub open spec fn usable(page_size: nat) -> bool {
    !sealed(zero_page(page_size))
}

/// The pages of a file of `file.len()` bytes; what does not fill a page does not count.
pub open spec fn file_pages(file: Seq<u8>, page_size: nat) -> Seq<Seq<u8>> {
    if page_size == 0 {
        Seq::empty()
    } else {
        Seq::new(
            file.len() / page_size,
            |i: int| file.subrange(i * page_size, i * page_size + page_size),
        )
    }
}

/// Whether all pages of a file that carry their checksum have the layout of a page.
pub open spec fn pages_laid(pages: Seq<Seq<u8>>) -> bool {
    forall|p: int| 0 <= p < pages.len() ==> page_laid(#[trigger] pages[p])
}

/// Whether all pages of a file that carry their checksum have the layout of a page and their own
/// number.
pub open spec fn pages_sound(pages: Seq<Seq<u8>>) -> bool {
    forall|p: int| 0 <= p < pages.len() ==> page_sound(#[trigger] pages[p], p)
}

/// The message for a page that a file does not have.
pub open spec fn range_text(p: nat, n: nat) -> Seq<char> {
    "page "@ + digits10(p) + " out of range (file has "@ + digits10(n) + " pages)"@
}

/// The message for a row that a page does not have.
pub open spec fn no_row_text(rid: Rid) -> Seq<char> {
    "row not found at page="@ + digits10(rid.page_id as nat) + ", slot="@ + digits10(
        rid.slot as nat,
    )
}

/// Where a new row goes.
pub enum Place {
    /// Into an existing page.
    Page(int),
    /// Into a page at the end of the file.
    NewPage,
    /// A page that might have room cannot be read, and why.
    Fail(nat, ErrorModel),
}

impl HeapModel {
    /// The fewest bytes of a page that can be read: those of its header, or through a pool those up
    /// to the end of its checksum.
    pub open spec fn least_page(self) -> nat {
        if self.via is File {
            24
        } else {
            17
        }
    }

    /// Why page `p` cannot be read, if so. Through a pool without a frame no page can be.
    pub open spec fn page_error(self, p: nat) -> Option<ErrorModel> {
        if self.via == Access::Pool(0) {
            Some(pool_full())
        } else if p >= self.pages.len() {
            Some(ErrorModel::Corruption(range_text(p, self.pages.len())))
        } else if self.page_size < self.least_page() {
            Some(ErrorModel::Corruption("page too small for header"@))
        } else if !sealed(self.pages[p as int]) {
            Some(ErrorModel::Corruption(mismatch_text(self.pages[p as int])))
        } else {
            None
        }
    }

    /// Why the first page from `from` on that cannot be read cannot be read, if there is one.
    pub open spec fn scan_error(self, from: nat) -> Option<ErrorModel>
        decreases self.pages.len() - from,
    {
        if from >= self.pages.len() {
            None
        } else if self.page_error(from) is Some {
            self.page_error(from)
        } else {
            self.scan_error(from + 1)
        }
    }

    /// Where a row of `len` bytes goes, and the categories after the search: the pages from
    /// `from` on whose category is high enough are tried in order, and the category of each page
    /// without room is set right.
    pub open spec fn place(self, len: nat, from: int, cats: Seq<u8>) -> (Place, Seq<u8>)
        decreases cats.len() - from,
    {
        match first_page(cats, from, category(self.fsm.page_size, len)) {
            None => (Place::NewPage, cats),
            Some(p) => if !(from <= p < cats.len()) {
                (Place::NewPage, cats)
            } else {
                match self.page_error(p as nat) {
                    Some(e) => (Place::Fail(p as nat, e), cats),
                    None => if can_insert(self.pages[p], len) {
                        (Place::Page(p), cats)
                    } else {
                        self.place(
                            len,
                            p + 1,
                            cats.update(
                                p,
                                category(self.fsm.page_size, free_bytes(self.pages[p]) as nat),
                            ),
                        )
                    },
                }
            },
        }
    }

    /// The file with page `p` set to `t`, and the free space of `t` on the map. A file that is
    /// too short is filled up with pages of zeros.
    pub open spec fn with_page(self, p: nat, t: Seq<u8>) -> HeapModel {
        let blank = zero_page(self.page_size);
        let n = if p < self.pages.len() {
            self.pages.len()
        } else {
            p + 1
        };
        let cats = if p < self.pages.len() {
            self.fsm.cats
        } else {
            extended(self.fsm.cats, n, category(self.fsm.page_size, self.fsm.page_size))
        };
        HeapModel {
            page_size: self.page_size,
            pages: Seq::new(
                n,
                |i: int|
                    if i == p {
                        t
                    } else if i < self.pages.len() {
                        self.pages[i]
                    } else {
                        blank
                    },
            ),
            via: self.via,
            fsm: FsmModel {
                page_size: self.fsm.page_size,
                cats: if p < cats.len() {
                    cats.update(p as int, category(self.fsm.page_size, free_bytes(t) as nat))
                } else {
                    cats
                },
            },
        }
    }

    /// The file with other categories on its map.
    pub open spec fn with_cats(self, cats: Seq<u8>) -> HeapModel {
        HeapModel { fsm: FsmModel { page_size: self.fsm.page_size, cats }, ..self }
    }

    /// The row at `rid`, where its page can be read and has it.
    pub open spec fn row(self, rid: Rid) -> Option<Seq<u8>> {
        if self.page_error(rid.page_id as nat) is None {
            row_in(self.pages[rid.page_id as int], rid.slot as int)
        } else {
            None
        }
    }
}

/// Whether every page of a file can be read.
pub open spec fn readable(h: HeapModel) -> bool {
    forall|p: nat| p < h.pages.len() ==> #[trigger] h.page_error(p) is None
}

/// What writing page `t` makes of file `m`: file `m2`, or an error where the file would outgrow
/// the machine.
pub open spec fn written(m: HeapModel, t: Seq<u8>, m2: HeapModel, r: DbResult<()>) -> bool {
    match r {
        Ok(_) => file_fits(page_id_in(t) + 1) && m2 == m.with_page(page_id_in(t), t),
        Err(e) => {
            &&& !file_fits(page_id_in(t) + 1)
            &&& e@ == ErrorModel::Io("file too large"@)
            &&& m2 == m
        },
    }
}

/// Whether a row of `len` bytes has room in an empty page.
pub open spec fn fresh_room(page_size: nat, len: nat) -> bool {
    len + 28 <= page_size % 0x10000
}

/// Whether `t` is an empty page with number `n` to which `row` was added in `slot`.
pub open spec fn first_row(t: Seq<u8>, n: int, row: Seq<u8>, slot: SlotIndex) -> bool {
    exists|f: Seq<u8>|
        #![trigger is_fresh(f, n)]
        f.len() == t.len() && is_fresh(f, n) && inserted(f, row, t, Some(slot))
}

/// What inserting `row` makes of file `m`: file `m2`, and the address of the row. A page goes back
/// to the place that the number in it gives, which is its own in a file in order.
pub open spec fn row_inserted(m: HeapModel, row: Seq<u8>, m2: HeapModel, r: DbResult<Rid>) -> bool {
    let (place, cats) = m.place(row.len(), 0, m.fsm.cats);
    let n = m.pages.len();
    match place {
        Place::Fail(_, e) => r is Err && r->Err_0@ == e && m2 == m.with_cats(cats),
        Place::Page(p) => {
            let at = page_id_in(m.pages[p]);
            if !file_fits(at + 1) {
                &&& r is Err
                &&& r->Err_0@ == ErrorModel::Io("file too large"@)
                &&& m2 == m.with_cats(cats)
            } else {
                &&& r is Ok
                &&& r->Ok_0.page_id == p
                &&& inserted(m.pages[p], row, m2.pages[at as int], Some(r->Ok_0.slot))
                &&& m2 == m.with_cats(cats).with_page(at, m2.pages[at as int])
            }
        },
        Place::NewPage => if !fresh_room(m.page_size, row.len()) {
            &&& r is Err
            &&& r->Err_0@ == ErrorModel::Catalog("row too large for a single page"@)
            &&& m2 == m.with_cats(cats)
        } else if !file_fits(n + 1) {
            &&& r is Err
            &&& r->Err_0@ == ErrorModel::Io("file too large"@)
            &&& m2 == m.with_cats(cats)
        } else {
            &&& r is Ok
            &&& r->Ok_0.page_id == n
            &&& m2.pages[n as int].len() == m.page_size
            &&& first_row(m2.pages[n as int], n as int, row, r->Ok_0.slot)
            &&& m2 == m.with_cats(cats).with_page(n, m2.pages[n as int])
        },
    }
}

/// What deleting the row at `rid` makes of file `m`: file `m2`, and whether there was a row. The
/// page goes back to the place that the number in it gives, which is its own in a file in order.
pub open spec fn row_deleted(m: HeapModel, rid: Rid, m2: HeapModel, r: DbResult<bool>) -> bool {
    let p = rid.page_id as int;
    match m.page_error(rid.page_id as nat) {
        Some(e) => r is Err && r->Err_0@ == e && m2 == m,
        None => {
            let at = page_id_in(m.pages[p]);
            if row_in(m.pages[p], rid.slot as int) is None {
                r == Ok::<bool, Error>(false) && m2 == m
            } else if !file_fits(at + 1) {
                r is Err && r->Err_0@ == ErrorModel::Io("file too large"@) && m2 == m
            } else {
                &&& r == Ok::<bool, Error>(true)
                &&& deleted(m.pages[p], rid.slot as int, m2.pages[at as int], true)
                &&& m2 == m.with_page(at, m2.pages[at as int])
            }
        },
    }
}

/// The rows of page `p` in the slots below `n`, with their addresses.
pub open spec fn page_rows(page: Seq<u8>, p: int, n: int) -> Seq<(Rid, Seq<u8>)>
    decreases n,
{
    if n <= 0 {
        Seq::empty()
    } else {
        let rest = page_rows(page, p, n - 1);
        match row_in(page, n - 1) {
            Some(row) => rest.push((Rid { page_id: p as u64, slot: (n - 1) as u16 }, row)),
            None => rest,
        }
    }
}

/// The rows of the first `n` of some pages, with their addresses, in order.
pub open spec fn all_rows(pages: Seq<Seq<u8>>, n: int) -> Seq<(Rid, Seq<u8>)>
    decreases n,
{
    if n <= 0 {
        Seq::empty()
    } else {
        all_rows(pages, n - 1) + page_rows(pages[n - 1], n - 1, slot_count_in(pages[n - 1]) as int)
    }
}

/// The first `n` of some pages, one after the other.
pub open spec fn joined(pages: Seq<Seq<u8>>, n: int) -> Seq<u8>
    decreases n,
{
    if n <= 0 {
        Seq::empty()
    } else {
        joined(pages, n - 1) + pages[n - 1]
    }
}

/// The contents of a list of rows with their addresses.
pub open spec fn rid_rows(v: Seq<(Rid, Vec<u8>)>) -> Seq<(Rid, Seq<u8>)> {
    v.map_values(|x: (Rid, Vec<u8>)| (x.0, x.1@))
}

/// Whether a file of `n` pages fits the machine.
pub open spec fn file_fits(n: nat) -> bool {
    tree_fits(n)
}

/// Tells whether a file of `n` pages fits the machine.
pub fn file_fits_exec(n: u64) -> (r: bool)
    ensures
        r == file_fits(n as nat),
{
    n as u128 * 2 <= usize::MAX as u128 + 1
}

impl View for HeapFile {
    type V = HeapModel;

    closed spec fn view(&self) -> HeapModel {
        HeapModel {
            page_size: self.page_size as nat,
            pages: Seq::new(self.pages@.len(), |i: int| self.pages@[i]@),
            fsm: self.fsm@,
            via: Access::File,
        }
    }
}

impl HeapFile {
    /// All pages have the page size and, where they carry their checksum, the layout of a page,
    /// and the map is in order.
    pub closed spec fn wf(&self) -> bool {
        &&& self.fsm.wf()
        &&& pages_laid(self@.pages)
        &&& file_fits(self@.pages.len())
        &&& forall|p: int|
            0 <= p < self.pages@.len() ==> (#[trigger] self.pages@[p])@.len() == self.page_size
    }

    /// Whether the pages have `n` bytes.
    pub open spec fn page_size_is(&self, n: usize) -> bool {
        self@.page_size == n
    }

    /// What holds of the contents of a heap file.
    pub proof fn lemma_wf(&self)
        requires
            self.wf(),
        ensures
            self@.via is File,
            pages_laid(self@.pages),
            file_fits(self@.pages.len()),
            forall|p: int|
                0 <= p < self@.pages.len() ==> (#[trigger] self@.pages[p]).len() == self@.page_size,
    {
        assert forall|p: int| 0 <= p < self@.pages.len() implies (#[trigger] self@.pages[p]).len()
            == self@.page_size by {
            assert(self@.pages[p] == self.pages@[p]@);
        }
    }

    /// Opens a heap file from the bytes of its `.DAT` and `.FSM` files. A map that is missing
    /// takes every page to be empty; one that tracks too few pages is extended.
    pub fn open(file: &[u8], fsm_file: Option<&[u8]>, page_size: usize) -> (r: DbResult<Self>)
        requires
            pages_laid(file_pages(file@, page_size as nat)),
            file_fits(file_pages(file@, page_size as nat).len()),
            fsm_file is Some && fsm_file->0@.len() >= 8 ==> tree_fits(le_at(fsm_file->0@, 4, 4)),
        ensures
            ({
                let pages = file_pages(file@, page_size as nat);
                match r {
                    Ok(h) => {
                        &&& h.wf()
                        &&& h@.page_size == page_size
                        &&& h@.pages == pages
                        &&& h@.fsm == first_map(file_view(fsm_file), page_size as nat, pages.len())
                        &&& map_error(file_view(fsm_file)) is None
                    },
                    Err(e) => map_error(file_view(fsm_file)) == Some(e@),
                }
            }),
    {
        let pages: Vec<Vec<u8>> = cut_pages(file, page_size);
        let page_count: usize = pages.len();
        proof {
            assert(file_pages(file@, page_size as nat) =~= Seq::new(
                pages@.len(),
                |i: int| pages@[i]@,
            ));
        }
        let fsm: FreeSpaceMap = match FreeSpaceMap::load(fsm_file) {
            Err(e) => {
                return Err(e);
            }
            Ok(Some(loaded)) => {
                let mut loaded = loaded;
                if page_count > loaded.page_count() {
                    loaded.extend(page_count);
                }
                loaded
            }
            Ok(None) => FreeSpaceMap::new(page_count, page_size),
        };
        Ok(Self { pages, page_size, fsm })
    }

    /// Makes an empty heap file.
    pub fn create(page_size: usize) -> (r: DbResult<Self>)
        ensures
            r is Ok,
            r->Ok_0.wf(),
            r->Ok_0@.page_size == page_size,
            r->Ok_0@.pages == Seq::<Seq<u8>>::empty(),
            r->Ok_0@.fsm.cats == Seq::<u8>::empty(),
            r->Ok_0@.fsm.page_size == page_size,
    {
        let none: Vec<u8> = Vec::new();
        proof {
            let pages = file_pages(none@, page_size as nat);
            if page_size > 0 {
                assert(0int / (page_size as int) == 0) by (nonlinear_arith)
                    requires
                        page_size > 0,
                ;
            }
            assert(pages =~= Seq::<Seq<u8>>::empty());
        }
        let r = Self::open(none.as_slice(), None, page_size);
        proof {
            if r is Ok {
                assert(r->Ok_0@.fsm.cats =~= Seq::<u8>::empty());
            }
        }
        r
    }

    /// The bytes of a page.
    pub fn page_size(&self) -> (r: usize)
        ensures
            r == self@.page_size,
    {
        self.page_size
    }

    /// The number of pages.
    pub fn page_count(&self) -> (r: u64)
        ensures
            r == self@.pages.len(),
    {
        self.pages.len() as u64
    }

    /// The bytes of the `.DAT` file.
    pub fn file_bytes(&self) -> (r: Vec<u8>)
        ensures
            r@ == joined(self@.pages, self@.pages.len() as int),
    {
        let mut out: Vec<u8> = Vec::new();
        let n: usize = self.pages.len();
        let mut p: usize = 0;
        while p < n
            invariant
                p <= n,
                n == self.pages@.len(),
                out@ == joined(self@.pages, p as int),
            decreases n - p,
        {
            append_bytes(&mut out, self.pages[p].as_slice());
            p += 1;
        }
        out
    }

    fn range_error(&self, page_id: PageId) -> (e: Error)
        ensures
            e@ == ErrorModel::Corruption(range_text(page_id as nat, self@.pages.len())),
    {
        Error::Corruption(
            "page ".to_owned().concat(decimal(page_id).as_str()).concat(
                " out of range (file has ",
            ).concat(decimal(self.pages.len() as u64).as_str()).concat(" pages)"),
        )
    }

    /// Reads a page and checks it.
    pub fn read_page(&self, page_id: PageId) -> (r: DbResult<SlottedPage>)
        requires
            self.wf(),
        ensures
            match r {
                Ok(p) => {
                    &&& self@.page_error(page_id as nat) is None
                    &&& p.bytes() == self@.pages[page_id as int]
                },
                Err(e) => self@.page_error(page_id as nat) == Some(e@),
            },
    {
        if page_id >= self.page_count() {
            return Err(self.range_error(page_id));
        }
        let buf: Vec<u8> = copy_bytes(self.pages[page_id as usize].as_slice());
        assert(self@.pages[page_id as int] == buf@);
        SlottedPage::from_bytes(buf)
    }

    /// Writes a page at the place that its number gives it.
    pub fn write_page(&mut self, page: &SlottedPage) -> (r: DbResult<()>)
        requires
            old(self).wf(),
            page.bytes().len() == old(self)@.page_size,
            page_wf(page.bytes()),
        ensures
            final(self).wf(),
            written(old(self)@, page.bytes(), final(self)@, r),
    {
        self.write_page_buf(page.buf())
    }

    /// Reads a page into a buffer; checking it is left to the caller.
    pub fn read_page_into(&self, page_id: PageId, buf: &mut [u8]) -> (r: DbResult<()>)
        requires
            self.wf(),
            old(buf)@.len() == self@.page_size,
        ensures
            match r {
                Ok(_) => page_id < self@.pages.len() && final(buf)@ == self@.pages[page_id as int],
                Err(e) => {
                    &&& page_id >= self@.pages.len()
                    &&& e@ == ErrorModel::Corruption(
                        range_text(page_id as nat, self@.pages.len()),
                    )
                    &&& final(buf)@ == old(buf)@
                },
            },
    {
        if page_id >= self.page_count() {
            return Err(self.range_error(page_id));
        }
        copy_into(buf, 0, self.pages[page_id as usize].as_slice());
        assert(buf@ =~= self@.pages[page_id as int]);
        Ok(())
    }

    /// Writes the bytes of a page at the place that the number in its header gives it.
    pub fn write_page_buf(&mut self, buf: &[u8]) -> (r: DbResult<()>)
        requires
            old(self).wf(),
            buf@.len() == old(self)@.page_size,
            page_wf(buf@),
        ensures
            final(self).wf(),
            written(old(self)@, buf@, final(self)@, r),
    {
        let page_id: PageId = page_id_of(buf);
        if page_id == u64::MAX || !file_fits_exec(page_id + 1) {
            return Err(Error::Io("file too large".to_owned()));
        }
        let ghost blank = zero_page(self.page_size as nat);
        let p: usize = page_id as usize;
        let known: usize = self.pages.len();
        while self.pages.len() <= p
            invariant
                old(self).wf(),
                self.fsm == old(self).fsm,
                self.page_size == old(self).page_size == blank.len(),
                p == page_id_in(buf@),
                known == old(self).pages@.len(),
                known <= self.pages@.len(),
                known <= p ==> self.pages@.len() <= p + 1,
                known > p ==> self.pages@.len() == known,
                blank == zero_page(self.page_size as nat),
                forall|i: int| 0 <= i < known ==> self.pages@[i] == old(self).pages@[i],
                forall|i: int| known <= i < self.pages@.len() ==> (#[trigger] self.pages@[i])@
                    == blank,
            decreases p + 1 - self.pages@.len(),
        {
            let zeros: Vec<u8> = vec![0u8; self.page_size];
            assert(zeros@ =~= blank);
            self.pages.push(zeros);
        }
        let ghost filled = self.pages@;
        self.pages.set(p, copy_bytes(buf));
        if p >= known {
            self.fsm.extend(p + 1);
        }
        proof {
            lemma_free_bytes_bound(buf@);
        }
        self.fsm.update(p, free_space_of(buf));
        proof {
            let want = old(self)@.with_page(p as nat, buf@);
            assert(self@.pages =~= want.pages) by {
                assert forall|i: int| 0 <= i < want.pages.len() implies self@.pages[i]
                    == want.pages[i] by {
                    assert(self@.pages[i] == self.pages@[i]@);
                    if i != p {
                        assert(self.pages@[i] == filled[i]);
                        if i < known {
                            assert(old(self)@.pages[i] == old(self).pages@[i]@);
                        }
                    }
                }
            }
            assert(self@ == want);
            assert forall|i: int| 0 <= i < self@.pages.len() implies page_laid(
                #[trigger] self@.pages[i],
            ) by {
                if i == p {
                } else if i < known {
                    assert(page_laid(old(self)@.pages[i]));
                } else {
                    assert(self@.pages[i] == blank);
                    lemma_zero_page(self@.page_size);
                }
            }
            assert forall|i: int| 0 <= i < self.pages@.len() implies (
            #[trigger] self.pages@[i])@.len() == self.page_size by {
                if i != p && i >= known {
                    assert(filled[i]@ == blank);
                }
            }
        }
        Ok(())
    }

    /// Adds a row: to the first page that has room, as far as the map tells, else to a new page.
    pub fn insert_row(&mut self, row: &[u8]) -> (r: DbResult<Rid>)
        requires
            old(self).wf(),
            old(self)@.page_size >= 17 || !(old(self)@.place(
                row@.len(),
                0,
                old(self)@.fsm.cats,
            ).0 is NewPage),
        ensures
            final(self).wf(),
            row_inserted(old(self)@, row@, final(self)@, r),
    {
        let needed: usize = row.len();
        let mut from: usize = 0;
        let ghost m = self@;
        loop
            invariant
                self.wf(),
                old(self).wf(),
                m == old(self)@,
                m.page_size >= 17 || !(m.place(needed as nat, 0, m.fsm.cats).0 is NewPage),
                needed == row@.len(),
                self@ == m.with_cats(self@.fsm.cats),
                m.place(needed as nat, 0, m.fsm.cats) == m.place(
                    needed as nat,
                    from as int,
                    self@.fsm.cats,
                ),
            ensures
                self.wf(),
                self@ == m.with_cats(self@.fsm.cats),
                m.place(needed as nat, 0, m.fsm.cats) == (Place::NewPage, self@.fsm.cats),
            decreases self@.fsm.cats.len() - from,
        {
            let found: Option<usize> = self.fsm.first_with(from, self.fsm.bytes_to_cat(needed));
            proof {
                law_search_is_first(
                    self@.fsm.cats,
                    from as int,
                    category(m.fsm.page_size, needed as nat),
                );
            }
            let pid: usize = match found {
                Some(p) => p,
                None => {
                    break;
                }
            };
            let page_id: u64 = pid as u64;
            let mut page: SlottedPage = match self.read_page(page_id) {
                Ok(p) => p,
                Err(e) => {
                    return Err(e);
                }
            };
            let ghost s = page.bytes();
            proof {
                self.lemma_wf();
                assert(page_laid(self@.pages[pid as int]));
            }
            match page.insert_row(row) {
                Some(slot) => {
                    match self.write_page(&page) {
                        Ok(_) => {
                            return Ok(Rid { page_id, slot });
                        }
                        Err(e) => {
                            return Err(e);
                        }
                    }
                }
                None => {
                    proof {
                        lemma_free_bytes_bound(s);
                    }
                    let free: usize = page.free_space();
                    self.fsm.update(pid, free);
                    assert(self@ == m.with_cats(self@.fsm.cats));
                    from = pid + 1;
                }
            }
        }
        let new_pid: PageId = self.page_count();
        let mut page: SlottedPage = SlottedPage::new(new_pid, self.page_size);
        let ghost fresh = page.bytes();
        let slot: SlotIndex = match page.insert_row(row) {
            Some(s) => s,
            None => {
                proof {
                    lemma_fresh_room(fresh, needed as nat);
                }
                return Err(catalog_error("row too large for a single page"));
            }
        };
        proof {
            lemma_fresh_room(fresh, needed as nat);
        }
        match self.write_page(&page) {
            Ok(_) => Ok(Rid { page_id: new_pid, slot }),
            Err(e) => Err(e),
        }
    }

    /// Reads the row at `rid`.
    pub fn read_row(&self, rid: Rid) -> (r: DbResult<Vec<u8>>)
        requires
            self.wf(),
        ensures
            match r {
                Ok(row) => self@.row(rid) == Some(row@),
                Err(e) => {
                    &&& self@.row(rid) is None
                    &&& e@ == match self@.page_error(rid.page_id as nat) {
                        Some(pe) => pe,
                        None => ErrorModel::Corruption(no_row_text(rid)),
                    }
                },
            },
    {
        let page: SlottedPage = match self.read_page(rid.page_id) {
            Ok(p) => p,
            Err(e) => {
                return Err(e);
            }
        };
        proof {
            self.lemma_wf();
            assert(page_laid(self@.pages[rid.page_id as int]));
        }
        match page.read_row(rid.slot) {
            Some(b) => Ok(copy_bytes(b)),
            None => Err(no_row_error(rid)),
        }
    }

    /// Deletes the row at `rid`; `false` where there is none.
    pub fn delete_row(&mut self, rid: Rid) -> (r: DbResult<bool>)
        requires
            old(self).wf(),
        ensures
            final(self).wf(),
            row_deleted(old(self)@, rid, final(self)@, r),
    {
        let mut page: SlottedPage = match self.read_page(rid.page_id) {
            Ok(p) => p,
            Err(e) => {
                return Err(e);
            }
        };
        let ghost s = page.bytes();
        proof {
            self.lemma_wf();
            assert(page_laid(self@.pages[rid.page_id as int]));
        }
        let gone: bool = page.delete_row(rid.slot);
        if gone {
            match self.write_page(&page) {
                Ok(_) => {}
                Err(e) => {
                    return Err(e);
                }
            }
        }
        Ok(gone)
    }

    /// All rows of the file, with their addresses, in the order of pages and slots.
    pub fn scan(&self) -> (r: DbResult<Vec<(Rid, Vec<u8>)>>)
        requires
            self.wf(),
        ensures
            match r {
                Ok(rows) => {
                    &&& self@.scan_error(0) is None
                    &&& rid_rows(rows@) == all_rows(self@.pages, self@.pages.len() as int)
                },
                Err(e) => self@.scan_error(0) == Some(e@),
            },
    {
        let mut rows: Vec<(Rid, Vec<u8>)> = Vec::new();
        let n: u64 = self.page_count();
        let mut pid: u64 = 0;
        assert(rid_rows(rows@) =~= all_rows(self@.pages, 0));
        while pid < n
            invariant
                self.wf(),
                pid <= n,
                n == self@.pages.len(),
                self@.scan_error(0) == self@.scan_error(pid as nat),
                rid_rows(rows@) == all_rows(self@.pages, pid as int),
            decreases n - pid,
        {
            let page: SlottedPage = match self.read_page(pid) {
                Ok(p) => p,
                Err(e) => {
                    return Err(e);
                }
            };
            proof {
                self.lemma_wf();
                assert(page_laid(self@.pages[pid as int]));
            }
            push_page_rows(&page, pid, &mut rows);
            pid += 1;
        }
        Ok(rows)
    }

    /// The bytes of the `.FSM` file.
    pub fn save_fsm(&self) -> (r: Vec<u8>)
        requires
            self.wf(),
        ensures
            r@ == saved_map(self@.fsm),
    {
        self.fsm.save()
    }
}

/// Which rows an empty page has room for.
pub proof fn lemma_fresh_room(f: Seq<u8>, len: nat)
    requires
        is_fresh(f, page_id_in(f) as int),
    ensures
        can_insert(f, len) == fresh_room(f.len(), len),
{
}

/// The error for an address without a row.
pub fn no_row_error(rid: Rid) -> (e: Error)
    ensures
        e@ == ErrorModel::Corruption(no_row_text(rid)),
{
    Error::Corruption(
        "row not found at page=".to_owned().concat(decimal(rid.page_id).as_str()).concat(
            ", slot=",
        ).concat(decimal(rid.slot as u64).as_str()),
    )
}

/// Appends the rows of a page, with their addresses, to `rows`.
pub fn push_page_rows<P: PageRead>(page: &P, pid: u64, rows: &mut Vec<(Rid, Vec<u8>)>)
    requires
        page_wf(page.bytes()),
    ensures
        rid_rows(final(rows)@) == rid_rows(old(rows)@) + page_rows(
            page.bytes(),
            pid as int,
            slot_count_in(page.bytes()) as int,
        ),
{
    let n: u16 = page.slot_count();
    let mut slot: u16 = 0;
    assert(rid_rows(rows@) =~= rid_rows(rows@) + page_rows(page.bytes(), pid as int, 0));
    while slot < n
        invariant
            page_wf(page.bytes()),
            slot <= n,
            n == slot_count_in(page.bytes()),
            rid_rows(rows@) == rid_rows(old(rows)@) + page_rows(
                page.bytes(),
                pid as int,
                slot as int,
            ),
        decreases n - slot,
    {
        let ghost before = rows@;
        if let Some(data) = page.read_row(slot) {
            rows.push((Rid { page_id: pid, slot }, copy_bytes(data)));
            assert(rid_rows(rows@) =~= rid_rows(before).push((Rid { page_id: pid, slot }, data@)));
        }
        slot += 1;
        assert(rid_rows(rows@) =~= rid_rows(old(rows)@) + page_rows(
            page.bytes(),
            pid as int,
            slot as int,
        ));
    }
}

/// Cuts the bytes of a file into pages.
fn cut_pages(file: &[u8], page_size: usize) -> (r: Vec<Vec<u8>>)
    ensures
        r@.len() == file_pages(file@, page_size as nat).len(),
        forall|i: int|
            0 <= i < r@.len() ==> (#[trigger] r@[i])@ == file_pages(file@, page_size as nat)[i]
                && r@[i]@.len() == page_size,
{
    let mut pages: Vec<Vec<u8>> = Vec::new();
    if page_size == 0 {
        return pages;
    }
    let total: usize = file.len();
    let n: usize = total / page_size;
    let ghost ps = page_size as int;
    let mut off: usize = 0;
    let mut i: usize = 0;
    proof {
        assert(n * ps <= total) by (nonlinear_arith)
            requires
                n == total as int / ps,
                ps > 0,
        ;
    }
    while i < n
        invariant
            i <= n,
            ps == page_size > 0,
            total == file@.len(),
            n == total as int / ps,
            n * ps <= total,
            off == i * ps,
            pages@.len() == i,
            forall|k: int|
                0 <= k < i ==> (#[trigger] pages@[k])@ == file_pages(file@, page_size as nat)[k]
                    && pages@[k]@.len() == page_size,
        decreases n - i,
    {
        proof {
            assert((i + 1) * ps == i * ps + ps && (i + 1) * ps <= n * ps) by (nonlinear_arith)
                requires
                    i + 1 <= n,
                    ps > 0,
            ;
        }
        pages.push(copy_bytes(&file[off..off + page_size]));
        off += page_size;
        i += 1;
    }
    pages
}

impl HeapFile {
    /// Opens a heap file from bytes of which nothing is known: gives nothing where
    /// [`file_is_sound`] finds a page that it could not work with, or where the sizes do not fit
    /// the machine.
    pub fn open_checked(
        file: &[u8],
        fsm_file: Option<&[u8]>,
        page_size: usize,
    ) -> (r: Option<DbResult<Self>>)
        ensures
            match r {
                None => !opens(file@, fsm_file, page_size as nat),
                Some(Ok(h)) => {
                    &&& opens(file@, fsm_file, page_size as nat)
                    &&& h.wf()
                    &&& h@.page_size == page_size
                    &&& h@.pages == file_pages(file@, page_size as nat)
                    &&& h@.fsm == first_map(file_view(fsm_file), page_size as nat, h@.pages.len())
                    &&& map_error(file_view(fsm_file)) is None
                },
                Some(Err(e)) => {
                    &&& opens(file@, fsm_file, page_size as nat)
                    &&& map_error(file_view(fsm_file)) == Some(e@)
                },
            },
    {
        if page_size == 0 {
            return None;
        }
        if !file_fits_exec((file.len() / page_size) as u64) {
            return None;
        }
        if let Some(b) = fsm_file {
            if b.len() >= 8 {
                if !file_fits_exec(get_le(b, 4, 4)) {
                    return None;
                }
            }
        }
        if !file_is_sound(file, page_size) {
            return None;
        }
        Some(Self::open(file, fsm_file, page_size))
    }

    /// Whether every page that carries its checksum has its own number.
    pub fn is_numbered(&self) -> (r: bool)
        requires
            self.wf(),
        ensures
            r == pages_sound(self@.pages),
    {
        let n: usize = self.pages.len();
        let mut p: usize = 0;
        while p < n
            invariant
                p <= n,
                n == self.pages@.len(),
                self.wf(),
                forall|i: int| 0 <= i < p ==> page_sound(#[trigger] self@.pages[i], i),
            decreases n - p,
        {
            let page: &[u8] = self.pages[p].as_slice();
            assert(page@ == self@.pages[p as int]);
            assert(page_laid(self@.pages[p as int]));
            if self.page_size >= CHECKSUM_END && verify_checksum_of(page).is_ok() && page_id_of(
                page,
            ) != p as u64 {
                assert(!page_sound(self@.pages[p as int], p as int));
                return false;
            }
            p += 1;
        }
        true
    }
}

/// Whether [`HeapFile::open`] can be asked to open a file.
pub open spec fn opens(file: Seq<u8>, fsm_file: Option<&[u8]>, page_size: nat) -> bool {
    &&& page_size > 0
    &&& pages_laid(file_pages(file, page_size))
    &&& file_fits(file_pages(file, page_size).len())
    &&& fsm_file is Some && fsm_file->0@.len() >= 8 ==> tree_fits(le_at(fsm_file->0@, 4, 4))
}

/// Whether every page of a file that carries its checksum has the layout of a page, as
/// [`HeapFile::open`] asks.
pub fn file_is_sound(file: &[u8], page_size: usize) -> (r: bool)
    ensures
        r ==> pages_laid(file_pages(file@, page_size as nat)),
        !r ==> !pages_laid(file_pages(file@, page_size as nat)),
{
    let pages: Vec<Vec<u8>> = cut_pages(file, page_size);
    let ghost model = file_pages(file@, page_size as nat);
    let n: usize = pages.len();
    let mut p: usize = 0;
    while p < n
        invariant
            p <= n,
            n == pages@.len() == model.len(),
            model == file_pages(file@, page_size as nat),
            forall|i: int|
                0 <= i < n ==> (#[trigger] pages@[i])@ == model[i] && pages@[i]@.len()
                    == page_size,
            forall|i: int| 0 <= i < p ==> page_laid(#[trigger] model[i]),
        decreases n - p,
    {
        let page: &[u8] = pages[p].as_slice();
        assert(page@ == model[p as int]);
        if page_size >= CHECKSUM_END && verify_checksum_of(page).is_ok() {
            if !has_layout(page) {
                assert(!page_laid(model[p as int]));
                return false;
            }
        }
        p += 1;
    }
    true
}

/// Tells whether the checksum tells a page that was never written from one that was.
pub fn is_usable(page_size: usize) -> (r: bool)
    ensures
        r == usable(page_size as nat),
{
    if page_size < CHECKSUM_END {
        return true;
    }
    let zeros: Vec<u8> = vec![0u8; page_size];
    assert(zeros@ =~= zero_page(page_size as nat));
    verify_checksum_of(zeros.as_slice()).is_err()
}

/// A page of zeros has the layout of a page.
proof fn lemma_zero_page(page_size: nat)
    requires
        page_size >= 17,
    ensures
        page_wf(zero_page(page_size)),
{
    let z = zero_page(page_size);
    reveal_with_fuel(le_value, 3);
    assert(slot_count_in(z) == 0);
    assert(data_start(z) == 0);
}

/// The position of the last `c` in `s`, or -1.
pub open spec fn last_index(s: Seq<char>, c: char) -> int
    decreases s.len(),
{
    if s.len() == 0 {
        -1
    } else if s.last() == c {
        s.len() - 1
    } else {
        last_index(s.drop_last(), c)
    }
}

/// The name of the `.FSM` file beside the `.DAT` file `name`: `SCHEMA.TABLE.<fileid>.DAT` loses
/// its last two parts, any other name its extension.
pub open spec fn fsm_name(name: Seq<char>) -> Seq<char> {
    let d1 = last_index(name, '.');
    let d2 = if d1 >= 0 {
        last_index(name.subrange(0, d1), '.')
    } else {
        -1
    };
    let d3 = if d2 >= 0 {
        last_index(name.subrange(0, d2), '.')
    } else {
        -1
    };
    if d3 >= 0 && name.subrange(d1 + 1, name.len() as int) == "DAT"@ {
        name.subrange(0, d2) + ".FSM"@
    } else if d1 > 0 {
        name.subrange(0, d1) + ".FSM"@
    } else {
        name + ".FSM"@
    }
}

/// Where the file name starts in a path.
pub open spec fn name_start(path: Seq<char>) -> int {
    last_index(path, '/') + 1
}

/// The file name at the end of a path.
pub open spec fn name_of(path: Seq<char>) -> Seq<char> {
    path.subrange(name_start(path), path.len() as int)
}

/// The number of characters up to and with the last `c` among the first `n`.
fn find_last(cs: &[char], n: usize, c: char) -> (r: usize)
    requires
        n <= cs@.len(),
    ensures
        r == last_index(cs@.subrange(0, n as int), c) + 1,
        r <= n,
{
    let mut i: usize = n;
    while i > 0
        invariant
            i <= n <= cs@.len(),
            last_index(cs@.subrange(0, n as int), c) == last_index(cs@.subrange(0, i as int), c),
        decreases i,
    {
        if cs[i - 1] == c {
            return i;
        }
        assert(cs@.subrange(0, i as int).drop_last() =~= cs@.subrange(0, i - 1));
        i -= 1;
    }
    0
}

/// A path without the slashes, and the `.` behind a slash, at its end.
pub open spec fn without_trail(path: Seq<char>) -> Seq<char>
    decreases path.len(),
{
    let n = path.len() as int;
    if n > 1 && (path[n - 1] == '/' || path[n - 1] == '.' && path[n - 2] == '/') {
        without_trail(path.drop_last())
    } else {
        path
    }
}

/// Whether a path ends in a file name.
pub open spec fn names_file(path: Seq<char>) -> bool {
    let name = name_of(path);
    name.len() > 0 && name != seq!['.'] && name != seq!['.', '.']
}

/// The path of the `.FSM` file that belongs to a `.DAT` file; a path without a file name stays as
/// it is.
pub open spec fn fsm_path(path: Seq<char>) -> Seq<char> {
    let file = without_trail(path);
    if names_file(file) {
        file.subrange(0, name_start(file)) + fsm_name(name_of(file))
    } else {
        path
    }
}

/// The length of a path without the slashes, and the `.` behind a slash, at its end.
fn trail_start(cs: &[char]) -> (r: usize)
    ensures
        r <= cs@.len(),
        without_trail(cs@) == cs@.subrange(0, r as int),
{
    let mut n: usize = cs.len();
    assert(cs@.subrange(0, n as int) =~= cs@);
    while n > 1 && (cs[n - 1] == '/' || cs[n - 1] == '.' && cs[n - 2] == '/')
        invariant
            n <= cs@.len(),
            without_trail(cs@) == without_trail(cs@.subrange(0, n as int)),
        decreases n,
    {
        assert(cs@.subrange(0, n as int).drop_last() =~= cs@.subrange(0, n - 1));
        n -= 1;
    }
    n
}

/// The path of the `.FSM` file that belongs to a `.DAT` file.
pub fn fsm_path_for(dat_path: &str) -> (r: String)
    ensures
        r@ == fsm_path(dat_path@),
{
    let all: Vec<char> = chars_of(dat_path);
    let total: usize = trail_start(all.as_slice());
    let cs: Vec<char> = char_range(all.as_slice(), 0, total);
    assert(cs@.subrange(0, total as int) =~= cs@);
    let start: usize = find_last(cs.as_slice(), total, '/');
    let dir: Vec<char> = char_range(cs.as_slice(), 0, start);
    let name: Vec<char> = char_range(cs.as_slice(), start, total);
    let n: usize = name.len();
    if n == 0 || n == 1 && name[0] == '.' || n == 2 && name[0] == '.' && name[1] == '.' {
        assert(!names_file(cs@)) by {
            if n == 1 {
                assert(name@ =~= seq!['.']);
            } else if n == 2 {
                assert(name@ =~= seq!['.', '.']);
            }
        }
        return copy_str(dat_path);
    }
    assert(names_file(cs@)) by {
        assert(name@ == name_of(cs@));
        if name@ == seq!['.'] {
            assert(name@[0] == '.');
        }
        if name@ == seq!['.', '.'] {
            assert(name@[0] == '.' && name@[1] == '.');
        }
    }
    assert(name@.subrange(0, n as int) =~= name@);
    let e1: usize = find_last(name.as_slice(), n, '.');
    let e2: usize = if e1 > 0 { find_last(name.as_slice(), e1 - 1, '.') } else { 0 };
    let e3: usize = if e2 > 0 { find_last(name.as_slice(), e2 - 1, '.') } else { 0 };
    let tail: String = string_of(char_range(name.as_slice(), e1, n).as_slice());
    let keep: usize = if e3 > 0 && same_str(tail.as_str(), "DAT") {
        e2 - 1
    } else if e1 > 1 {
        e1 - 1
    } else {
        n
    };
    let stem: String = string_of(char_range(name.as_slice(), 0, keep).as_slice());
    let fsm: String = stem.concat(".FSM");
    proof {
        let d1 = e1 - 1;
        assert(d1 == last_index(name@, '.'));
        assert(tail@ == name@.subrange(d1 + 1, n as int));
        assert(fsm@ == fsm_name(name@));
    }
    let r: String = string_of(dir.as_slice()).concat(fsm.as_str());
    r
}

// ── Laws of a heap file ──

proof fn lemma_joined(pages: Seq<Seq<u8>>, ps: nat, n: int)
    requires
        0 <= n <= pages.len(),
        forall|i: int| 0 <= i < pages.len() ==> (#[trigger] pages[i]).len() == ps,
    ensures
        joined(pages, n).len() == n * ps,
        forall|i: int|
            0 <= i < n ==> joined(pages, n).subrange(i * ps, i * ps + ps) == #[trigger] pages[i],
    decreases n,
{
    if n > 0 {
        lemma_joined(pages, ps, n - 1);
        assert((n - 1) * ps + ps == n * ps) by (nonlinear_arith);
        let whole = joined(pages, n);
        let front = joined(pages, n - 1);
        assert forall|i: int| 0 <= i < n implies whole.subrange(i * ps, i * ps + ps)
            == #[trigger] pages[i] by {
            if i < n - 1 {
                assert(0 <= i * ps && i * ps + ps <= (n - 1) * ps) by (nonlinear_arith)
                    requires
                        0 <= i < n - 1,
                        0 <= ps,
                ;
                assert(front.subrange(i * ps, i * ps + ps) == pages[i]);
                assert(whole.subrange(i * ps, i * ps + ps) =~= front.subrange(
                    i * ps,
                    i * ps + ps,
                ));
            } else {
                assert(whole.subrange(i * ps, i * ps + ps) =~= pages[i]);
            }
        }
    } else {
        assert(0 * ps == 0) by (nonlinear_arith);
    }
}

/// A heap file that is written to its `.DAT` file and opened again has the same pages.
pub proof fn law_file_round_trip(pages: Seq<Seq<u8>>, page_size: nat)
    requires
        page_size > 0,
        forall|i: int| 0 <= i < pages.len() ==> (#[trigger] pages[i]).len() == page_size,
    ensures
        file_pages(joined(pages, pages.len() as int), page_size) == pages,
{
    let n = pages.len();
    let file = joined(pages, n as int);
    lemma_joined(pages, page_size, n as int);
    assert((n * page_size) / page_size == n) by (nonlinear_arith)
        requires
            page_size > 0,
    ;
    assert(file_pages(file, page_size) =~= pages);
}

/// A row that was inserted is read back from its address, which held no row before, and every
/// other address reads as it did.
pub proof fn law_heap_insert_then_read(m: HeapModel, row: Seq<u8>, m2: HeapModel, rid: Rid)
    requires
        pages_sound(m.pages),
        row_inserted(m, row, m2, Ok(rid)),
        m.via is File ==> m.page_size >= 24,
        m.via != Access::Pool(0),
    ensures
        m.row(rid) is None,
        m2.row(rid) == Some(row),
        forall|other: Rid| other != rid ==> #[trigger] m2.row(other) == m.row(other),
{
    let (place, cats) = m.place(row.len(), 0, m.fsm.cats);
    lemma_place(m, row.len(), 0, m.fsm.cats);
    let p = rid.page_id as int;
    let t = m2.pages[p];
    let f = if place is Page {
        m.pages[p]
    } else {
        choose|f: Seq<u8>|
            #![trigger is_fresh(f, p)]
            f.len() == t.len() && is_fresh(f, p) && inserted(f, row, t, Some(rid.slot))
    };
    if place is Page {
        assert(page_sound(m.pages[p], p));
    }
    law_insert_then_read(f, row, t, rid.slot);
    assert forall|other: Rid| other != rid implies #[trigger] m2.row(other) == m.row(other) by {
        if other.page_id == rid.page_id {
            assert(other.slot != rid.slot);
            assert(row_in(t, other.slot as int) == row_in(f, other.slot as int));
        }
    }
}

/// A page that is chosen for a row can be read and has room for it.
pub proof fn lemma_place(m: HeapModel, len: nat, from: int, cats: Seq<u8>)
    requires
        0 <= from,
    ensures
        match m.place(len, from, cats).0 {
            Place::Page(p) => {
                &&& 0 <= p < m.pages.len()
                &&& m.page_error(p as nat) is None
                &&& can_insert(m.pages[p], len)
            },
            _ => true,
        },
        m.place(len, from, cats).1.len() == cats.len(),
    decreases cats.len() - from,
{
    let target = category(m.fsm.page_size, len);
    law_search_is_first(cats, from, target);
    match first_page(cats, from, target) {
        None => {},
        Some(p) => {
            if m.page_error(p as nat) is None && !can_insert(m.pages[p], len) {
                lemma_place(
                    m,
                    len,
                    p + 1,
                    cats.update(p, category(m.fsm.page_size, free_bytes(m.pages[p]) as nat)),
                );
            }
        },
    }
}

/// Room is used: where the map has the category of each page right, all pages can be read, and a
/// page has room for a row, the row gets no page of its own.
pub proof fn law_room_is_used(m: HeapModel, len: nat, from: int, cats: Seq<u8>, p: int)
    requires
        0 <= from <= p < cats.len() <= m.pages.len(),
        readable(m),
        forall|q: int|
            from <= q < cats.len() ==> #[trigger] cats[q] == category(
                m.fsm.page_size,
                free_bytes(m.pages[q]) as nat,
            ),
        0 < len,
        can_insert(m.pages[p], len),
    ensures
        m.place(len, from, cats).0 is Page,
    decreases cats.len() - from,
{
    let target = category(m.fsm.page_size, len);
    law_search_is_first(cats, from, target);
    law_category_is_monotone(m.fsm.page_size, len, free_bytes(m.pages[p]) as nat);
    assert(cats[p] >= target);
    let q = first_page(cats, from, target)->0;
    assert(m.page_error(q as nat) is None);
    if !can_insert(m.pages[q], len) {
        law_room_is_used(
            m,
            len,
            q + 1,
            cats.update(q, category(m.fsm.page_size, free_bytes(m.pages[q]) as nat)),
            p,
        );
    }
}

/// A row that was deleted is not read any more, and every other address reads as it did.
pub proof fn law_heap_delete_then_read(m: HeapModel, rid: Rid, m2: HeapModel)
    requires
        pages_sound(m.pages),
        row_deleted(m, rid, m2, Ok(true)),
    ensures
        m.row(rid) is Some,
        m2.row(rid) is None,
        forall|other: Rid| other != rid ==> #[trigger] m2.row(other) == m.row(other),
{
    let p = rid.page_id as int;
    assert(page_sound(m.pages[p], p));
    law_delete_then_read(m.pages[p], rid.slot as int, m2.pages[p]);
}

/// A file whose pages can all be read always takes a row that an empty page has room for, as long
/// as the file can grow: no search ends without a place.
pub proof fn law_heap_insert_succeeds(m: HeapModel, row: Seq<u8>, m2: HeapModel, r: DbResult<Rid>)
    requires
        row_inserted(m, row, m2, r),
        pages_sound(m.pages),
        m.fsm.cats.len() <= m.pages.len(),
        readable(m),
        fresh_room(m.page_size, row.len()),
        file_fits(m.pages.len() + 1),
    ensures
        r is Ok,
{
    lemma_place_no_fail(m, row.len(), 0, m.fsm.cats);
    lemma_place(m, row.len(), 0, m.fsm.cats);
    if let Place::Page(p) = m.place(row.len(), 0, m.fsm.cats).0 {
        assert(page_sound(m.pages[p], p));
    }
}

/// The search for a page fails nowhere in a file whose pages can all be read.
pub proof fn lemma_place_no_fail(m: HeapModel, len: nat, from: int, cats: Seq<u8>)
    requires
        0 <= from,
        cats.len() <= m.pages.len(),
        readable(m),
    ensures
        !(m.place(len, from, cats).0 is Fail),
    decreases cats.len() - from,
{
    let target = category(m.fsm.page_size, len);
    law_search_is_first(cats, from, target);
    match first_page(cats, from, target) {
        None => {},
        Some(p) => {
            assert(m.page_error(p as nat) is None);
            if !can_insert(m.pages[p], len) {
                lemma_place_no_fail(
                    m,
                    len,
                    p + 1,
                    cats.update(p, category(m.fsm.page_size, free_bytes(m.pages[p]) as nat)),
                );
            }
        },
    }
}

proof fn lemma_page_rows(page: Seq<u8>, p: int, n: int, rid: Rid, row: Seq<u8>)
    requires
        0 <= n <= slot_count_in(page),
        n <= 0x10000,
        0 <= p <= u64::MAX,
    ensures
        page_rows(page, p, n).contains((rid, row)) <==> {
            &&& rid.page_id == p
            &&& rid.slot < n
            &&& row_in(page, rid.slot as int) == Some(row)
        },
    decreases n,
{
    if n > 0 {
        lemma_page_rows(page, p, n - 1, rid, row);
        let rest = page_rows(page, p, n - 1);
        let whole = page_rows(page, p, n);
        if let Some(last) = row_in(page, n - 1) {
            let item = (Rid { page_id: p as u64, slot: (n - 1) as u16 }, last);
            assert(whole == rest.push(item));
            assert(whole[rest.len() as int] == item);
            if rest.contains((rid, row)) {
                let i = choose|i: int| 0 <= i < rest.len() && rest[i] == (rid, row);
                assert(whole[i] == (rid, row));
            }
            if whole.contains((rid, row)) && (rid, row) != item {
                let i = choose|i: int| 0 <= i < whole.len() && whole[i] == (rid, row);
                assert(rest[i] == (rid, row));
            }
        }
    }
}

/// A scan lists exactly the rows that can be read: a row is listed with an address if and only if
/// it is the row at that address.
pub proof fn law_scan_lists_the_rows(pages: Seq<Seq<u8>>, n: int, rid: Rid, row: Seq<u8>)
    requires
        0 <= n <= pages.len(),
        n <= u64::MAX,
        forall|p: int| 0 <= p < pages.len() ==> (#[trigger] pages[p]).len() >= 17,
    ensures
        all_rows(pages, n).contains((rid, row)) <==> {
            &&& rid.page_id < n
            &&& row_in(pages[rid.page_id as int], rid.slot as int) == Some(row)
        },
    decreases n,
{
    if n > 0 {
        law_scan_lists_the_rows(pages, n - 1, rid, row);
        let page = pages[n - 1];
        lemma_slot_count_bound(page);
        lemma_page_rows(page, n - 1, slot_count_in(page) as int, rid, row);
        let a = all_rows(pages, n - 1);
        let b = page_rows(page, n - 1, slot_count_in(page) as int);
        let whole = a + b;
        if a.contains((rid, row)) {
            let i = choose|i: int| 0 <= i < a.len() && a[i] == (rid, row);
            assert(whole[i] == (rid, row));
        }
        if b.contains((rid, row)) {
            let i = choose|i: int| 0 <= i < b.len() && b[i] == (rid, row);
            assert(whole[a.len() + i] == (rid, row));
        }
        if whole.contains((rid, row)) {
            let i = choose|i: int| 0 <= i < whole.len() && whole[i] == (rid, row);
            if i < a.len() {
                assert(a[i] == (rid, row));
            } else {
                assert(b[i - a.len()] == (rid, row));
            }
        }
    }
}

proof fn lemma_page_addresses(page: Seq<u8>, p: int, n: int)
    requires
        0 <= n <= 0x10000,
        0 <= p <= u64::MAX,
    ensures
        forall|i: int|
            0 <= i < page_rows(page, p, n).len() ==> (#[trigger] page_rows(page, p, n)[i]).0.page_id
                == p && page_rows(page, p, n)[i].0.slot < n,
        forall|i: int, j: int|
            0 <= i < j < page_rows(page, p, n).len() ==> (#[trigger] page_rows(page, p, n)[i]).0
                != (#[trigger] page_rows(page, p, n)[j]).0,
    decreases n,
{
    if n > 0 {
        lemma_page_addresses(page, p, n - 1);
        let rest = page_rows(page, p, n - 1);
        let all = page_rows(page, p, n);
        assert forall|i: int| 0 <= i < all.len() implies (#[trigger] all[i]).0.page_id == p
            && all[i].0.slot < n && (i < rest.len() ==> all[i] == rest[i]) by {
            if i < rest.len() {
                assert(all[i] == rest[i]);
            }
        }
        assert forall|i: int, j: int| 0 <= i < j < all.len() implies (#[trigger] all[i]).0 != (
        #[trigger] all[j]).0 by {
            assert(all[i] == rest[i]);
            if j < rest.len() {
                assert(all[j] == rest[j]);
            }
        }
    }
}

/// A scan lists no address twice.
pub proof fn law_scan_addresses_differ(pages: Seq<Seq<u8>>, n: int)
    requires
        0 <= n <= pages.len(),
        n <= u64::MAX,
        forall|p: int| 0 <= p < pages.len() ==> (#[trigger] pages[p]).len() >= 17,
    ensures
        forall|i: int|
            0 <= i < all_rows(pages, n).len() ==> (#[trigger] all_rows(pages, n)[i]).0.page_id < n,
        forall|i: int, j: int|
            0 <= i < j < all_rows(pages, n).len() ==> (#[trigger] all_rows(pages, n)[i]).0 != (
            #[trigger] all_rows(pages, n)[j]).0,
    decreases n,
{
    if n > 0 {
        law_scan_addresses_differ(pages, n - 1);
        let page = pages[n - 1];
        lemma_slot_count_bound(page);
        let a = all_rows(pages, n - 1);
        let b = page_rows(page, n - 1, slot_count_in(page) as int);
        lemma_page_addresses(page, n - 1, slot_count_in(page) as int);
        let all = all_rows(pages, n);
        assert forall|i: int, j: int| 0 <= i < j < all.len() implies (#[trigger] all[i]).0 != (
        #[trigger] all[j]).0 by {
            if j >= a.len() {
                assert(all[j] == b[j - a.len()]);
                if i >= a.len() {
                    assert(all[i] == b[i - a.len()]);
                } else {
                    assert(all[i] == a[i]);
                }
            } else {
                assert(all[i] == a[i] && all[j] == a[j]);
            }
        }
    }
}

proof fn lemma_scan_ok(h: HeapModel, from: nat, p: nat)
    requires
        h.scan_error(from) is None,
        from <= p < h.pages.len(),
    ensures
        h.page_error(p) is None,
    decreases h.pages.len() - from,
{
    if from < p {
        lemma_scan_ok(h, from + 1, p);
    }
}

proof fn lemma_scan_none(h: HeapModel, from: nat)
    requires
        readable(h),
    ensures
        h.scan_error(from) is None,
    decreases h.pages.len() - from,
{
    if from < h.pages.len() {
        assert(h.page_error(from) is None);
        lemma_scan_none(h, from + 1);
    }
}

/// A file can be scanned if and only if every page of it can be read.
pub proof fn law_scan_reads_every_page(h: HeapModel)
    ensures
        h.scan_error(0) is None <==> readable(h),
{
    if readable(h) {
        lemma_scan_none(h, 0);
    }
    if h.scan_error(0) is None {
        assert forall|p: nat| p < h.pages.len() implies #[trigger] h.page_error(p) is None by {
            lemma_scan_ok(h, 0, p);
        }
    }
}

/// A scan of a file that can be read lists exactly its rows, each with its address and none twice.
pub proof fn law_scan_is_the_file(h: HeapModel)
    requires
        readable(h),
        h.pages.len() <= u64::MAX,
        forall|p: int| 0 <= p < h.pages.len() ==> (#[trigger] h.pages[p]).len() >= 17,
    ensures
        ({
            let raw = all_rows(h.pages, h.pages.len() as int);
            &&& forall|rid: Rid, row: Seq<u8>|
                #![trigger raw.contains((rid, row))]
                raw.contains((rid, row)) <==> h.row(rid) == Some(row)
            &&& forall|k: int|
                0 <= k < raw.len() ==> h.row((#[trigger] raw[k]).0) == Some(raw[k].1)
            &&& forall|i: int, j: int|
                0 <= i < j < raw.len() ==> (#[trigger] raw[i]).0 != (#[trigger] raw[j]).0
        }),
{
    let n = h.pages.len() as int;
    let raw = all_rows(h.pages, n);
    law_scan_addresses_differ(h.pages, n);
    assert forall|rid: Rid, row: Seq<u8>|
        #![trigger raw.contains((rid, row))]
        raw.contains((rid, row)) <==> h.row(rid) == Some(row) by {
        law_scan_lists_the_rows(h.pages, n, rid, row);
        if rid.page_id < n {
            assert(h.page_error(rid.page_id as nat) is None);
        }
    }
    assert forall|k: int| 0 <= k < raw.len() implies h.row((#[trigger] raw[k]).0) == Some(
        raw[k].1,
    ) by {
        assert(raw.contains((raw[k].0, raw[k].1)));
    }
}

} // verus!
