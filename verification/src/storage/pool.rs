//! The buffer pool: a fixed number of frames that all page access goes through.
//!
//! A pool allocates its frames once, in one region. A page that is asked for is pinned in a frame;
//! a pinned frame is not given to another page. Among the unpinned frames the one that was
//! released first is reused first, and a changed page is written to its file before its frame is
//! reused. A frame is latched by readers or by one writer, never by both.

use std::collections::{HashMap, VecDeque};
use vstd::prelude::*;
use vstd::string::StringExecFns;
use crate::error::{catalog_error, corruption, DbResult, Error, ErrorModel};
use crate::storage::heap::{file_fits, file_fits_exec, page_sound, range_text, usable, zero_page,
    HeapFile};
use crate::storage::page::{init_page_buf, is_fresh, mismatch_text, sealed, verify_checksum_of,
    PageId, PageMut, PageRead, PageRef};
use crate::text::{decimal, digits10};
use crate::storage::pool_model::{find_free, frame_sound, kept_of, lemma_dropped, lemma_evicted,
    lemma_fetched, lemma_fetched_mut, lemma_find_frame, lemma_find_free, lemma_flushed,
    lemma_frame_is, lemma_frame_none, lemma_grown, lemma_loaded, lemma_new_paged, lemma_spare_bytes,
    lemma_unpinned, lemma_with_bytes, no_file, not_in_pool, not_of_file, page_text, without,
    FileModel, PoolModel};

pub use crate::storage::pool_manager::BufferPoolManager;
pub use crate::storage::pool_model::{BufferPoolId, FileId, FrameMeta, LatchMode};

verus! {

/// A registered file.
pub struct FileEntry {
    heap: HeapFile,
    /// The number of pages, with those that were added and not written yet.
    page_count: u64,
}

impl View for FileEntry {
    type V = FileModel;

    closed spec fn view(&self) -> FileModel {
        FileModel { heap: self.heap@, page_count: self.page_count as nat }
    }
}

impl FileEntry {
    /// The heap file is in order.
    pub closed spec fn wf(&self) -> bool {
        self.heap.wf()
    }
}

/// A pool of page frames.
pub struct BufferPool {
    name: String,
    /// The frames, one after the other.
    pool_buf: Vec<u8>,
    /// What is known of each frame.
    frame_meta: Vec<FrameMeta>,
    page_size: usize,
    /// The frame of each page in the pool, by file and page.
    page_table: HashMap<u128, usize>,
    /// The unpinned frames, the one that was released first in front.
    lru: VecDeque<usize>,
    /// The files by number; a number is not used again.
    files: Vec<Option<FileEntry>>,
}

/// The bytes of frame `i` in the region of a pool.
pub open spec fn region(buf: Seq<u8>, page_size: int, i: int) -> Seq<u8> {
    buf.subrange(i * page_size, i * page_size + page_size)
}

/// The key of a page in the page table.
pub open spec fn page_key(f: FileId, p: PageId) -> u128 {
    (f as u128 * 0x1_0000_0000_0000_0000 + p as u128) as u128
}

fn key_of(f: FileId, p: PageId) -> (r: u128)
    ensures
        r == page_key(f, p),
{
    f as u128 * 0x1_0000_0000_0000_0000 + p as u128
}

proof fn lemma_key_injective(f: FileId, p: PageId, g: FileId, q: PageId)
    requires
        page_key(f, p) == page_key(g, q),
    ensures
        f == g,
        p == q,
{
}

/// Whether the page table has exactly the pages in the frames.
spec fn table_ok(table: Map<u128, usize>, frames: Seq<FrameMeta>) -> bool {
    &&& forall|k: u128| #[trigger]
        table.contains_key(k) ==> {
            let i = table[k] as int;
            &&& i < frames.len()
            &&& frames[i].in_use
            &&& page_key(frames[i].file_id, frames[i].page_id) == k
        }
    &&& forall|i: int|
        0 <= i < frames.len() && (#[trigger] frames[i]).in_use ==> {
            let k = page_key(frames[i].file_id, frames[i].page_id);
            table.contains_key(k) && table[k] == i
        }
}

/// Where frame `i` lies in the region.
proof fn lemma_region(page_size: int, n: int, i: int)
    requires
        0 <= i < n,
        0 <= page_size,
    ensures
        0 <= i * page_size,
        i * page_size + page_size <= n * page_size,
{
    assert(0 <= i * page_size && i * page_size + page_size <= n * page_size) by (nonlinear_arith)
        requires
            0 <= i < n,
            0 <= page_size,
    ;
}

/// Changing the bytes of frame `i` changes those of no other frame.
proof fn lemma_region_set(buf: Seq<u8>, page_size: int, n: int, i: int, b: Seq<u8>, buf2: Seq<u8>)
    requires
        0 <= i < n,
        0 <= page_size,
        buf.len() == n * page_size,
        b.len() == page_size,
        buf2 == buf.subrange(0, i * page_size) + b + buf.subrange(
            i * page_size + page_size,
            buf.len() as int,
        ),
    ensures
        buf2.len() == buf.len(),
        forall|j: int|
            0 <= j < n ==> #[trigger] region(buf2, page_size, j) == if j == i {
                b
            } else {
                region(buf, page_size, j)
            },
{
    lemma_region(page_size, n, i);
    assert forall|j: int| 0 <= j < n implies #[trigger] region(buf2, page_size, j) == (if j == i {
        b
    } else {
        region(buf, page_size, j)
    }) by {
        lemma_region(page_size, n, j);
        if j < i {
            assert(j * page_size + page_size <= i * page_size) by (nonlinear_arith)
                requires
                    j + 1 <= i,
                    0 <= page_size,
            ;
            assert(region(buf2, page_size, j) =~= region(buf, page_size, j));
        } else if j > i {
            assert(i * page_size + page_size <= j * page_size) by (nonlinear_arith)
                requires
                    i + 1 <= j,
                    0 <= page_size,
            ;
            assert(region(buf2, page_size, j) =~= region(buf, page_size, j));
        } else {
            assert(region(buf2, page_size, j) =~= b);
        }
    }
}

/// The region with the bytes of frame `i` set to `b`.
spec fn set_region(buf: Seq<u8>, page_size: int, i: int, b: Seq<u8>) -> Seq<u8> {
    buf.subrange(0, i * page_size) + b + buf.subrange(i * page_size + page_size, buf.len() as int)
}

proof fn lemma_set_region(buf: Seq<u8>, page_size: int, n: int, i: int)
    requires
        0 <= i < n,
        0 <= page_size,
        buf.len() == n * page_size,
    ensures
        forall|b: Seq<u8>|
            #![trigger set_region(buf, page_size, i, b)]
            b.len() == page_size ==> {
                let buf2 = set_region(buf, page_size, i, b);
                &&& buf2.len() == buf.len()
                &&& forall|j: int|
                    0 <= j < n ==> #[trigger] region(buf2, page_size, j) == if j == i {
                        b
                    } else {
                        region(buf, page_size, j)
                    }
            },
{
    assert forall|b: Seq<u8>|
        #![trigger set_region(buf, page_size, i, b)]
        b.len() == page_size implies {
        let buf2 = set_region(buf, page_size, i, b);
        &&& buf2.len() == buf.len()
        &&& forall|j: int|
            0 <= j < n ==> #[trigger] region(buf2, page_size, j) == if j == i {
                b
            } else {
                region(buf, page_size, j)
            }
    } by {
        lemma_region_set(buf, page_size, n, i, b, set_region(buf, page_size, i, b));
    }
}

/// [`lemma_with_bytes`] for whatever bytes a writer leaves.
proof fn lemma_with_any_bytes(m: PoolModel, i: int)
    requires
        m.inv(),
        0 <= i < m.frames.len(),
        m.frames[i].in_use,
        m.frames[i].dirty,
    ensures
        forall|b: Seq<u8>|
            b.len() == m.page_size && frame_sound(b, m.frames[i].page_id as int) ==> (
            #[trigger] m.with_bytes(i, b)).inv(),
{
    assert forall|b: Seq<u8>|
        b.len() == m.page_size && frame_sound(b, m.frames[i].page_id as int) implies (
    #[trigger] m.with_bytes(i, b)).inv() by {
        lemma_with_bytes(m, i, b);
    }
}

impl View for BufferPool {
    type V = PoolModel;

    closed spec fn view(&self) -> PoolModel {
        PoolModel {
            name: self.name@,
            page_size: self.page_size as nat,
            frames: self.frame_meta@,
            bytes: Seq::new(
                self.frame_meta@.len(),
                |i: int| region(self.pool_buf@, self.page_size as int, i),
            ),
            lru: self.lru@,
            files: Seq::new(
                self.files@.len(),
                |i: int|
                    match self.files@[i] {
                        Some(e) => Some(e@),
                        None => None,
                    },
            ),
        }
    }
}

impl BufferPool {
    /// The region has room for the frames, and the files are in order.
    closed spec fn base_ok(&self) -> bool {
        &&& self.pool_buf@.len() == self.frame_meta@.len() * self.page_size
        &&& self.pool_buf@.len() <= usize::MAX
        &&& self.frame_meta@.len() <= usize::MAX
        &&& forall|f: int|
            0 <= f < self.files@.len() && (#[trigger] self.files@[f]) is Some ==> {
                &&& self.files@[f]->0.wf()
                &&& self.files@[f]->0.heap.page_size_is(self.page_size)
            }
    }

    /// The pool is in order.
    pub closed spec fn wf(&self) -> bool {
        &&& self.base_ok()
        &&& table_ok(self.page_table@, self.frame_meta@)
        &&& self@.inv()
    }

    /// What holds of the contents of a pool.
    pub proof fn lemma_wf(&self)
        requires
            self.wf(),
        ensures
            self@.inv(),
            self@.frames.len() <= usize::MAX,
    {
    }

    /// A pool of `capacity` frames of `page_size` bytes. All memory is allocated here.
    pub fn new(name: &str, capacity: usize, page_size: usize) -> (r: Self)
        requires
            capacity * page_size <= usize::MAX,
        ensures
            r.wf(),
            r@.name == name@,
            r@.page_size == page_size,
            r@.frames == Seq::new(capacity as nat, |i: int| FrameMeta::spec_empty()),
            r@.bytes == Seq::new(capacity as nat, |i: int| zero_page(page_size as nat)),
            r@.lru == Seq::new(capacity as nat, |i: int| i as usize),
            r@.files == Seq::<Option<FileModel>>::empty(),
    {
        let pool_buf: Vec<u8> = vec![0u8; capacity * page_size];
        let mut frame_meta: Vec<FrameMeta> = Vec::new();
        let mut lru: VecDeque<usize> = VecDeque::new();
        let mut i: usize = 0;
        while i < capacity
            invariant
                i <= capacity,
                frame_meta@ == Seq::new(i as nat, |k: int| FrameMeta::spec_empty()),
                lru@ == Seq::new(i as nat, |k: int| k as usize),
            decreases capacity - i,
        {
            frame_meta.push(FrameMeta::empty());
            lru.push_back(i);
            i += 1;
            assert(frame_meta@ =~= Seq::new(i as nat, |k: int| FrameMeta::spec_empty()));
            assert(lru@ =~= Seq::new(i as nat, |k: int| k as usize));
        }
        let r = Self {
            name: name.to_owned(),
            pool_buf,
            frame_meta,
            page_size,
            page_table: HashMap::new(),
            lru,
            files: Vec::new(),
        };
        proof {
            assert forall|k: int| 0 <= k < capacity implies #[trigger] r@.bytes[k] == zero_page(
                page_size as nat,
            ) by {
                lemma_region(page_size as int, capacity as int, k);
                assert(r@.bytes[k] =~= zero_page(page_size as nat));
            }
            assert(r@.bytes =~= Seq::new(capacity as nat, |i: int| zero_page(page_size as nat)));
            assert(r@.files =~= Seq::<Option<FileModel>>::empty());
            assert forall|k: int| 0 <= k < r@.lru.len() implies (#[trigger] r@.lru[k])
                < r@.frames.len() && r@.frames[r@.lru[k] as int].pin_count == 0 by {}
            assert(r@.lru.no_duplicates());
            assert(r@.inv());
        }
        r
    }

    /// Takes a heap file into the pool and gives it a number. Its page size must be the pool's.
    pub fn register_file(&mut self, heap: HeapFile) -> (r: DbResult<FileId>)
        requires
            old(self).wf(),
            heap.wf(),
            old(self)@.files.len() < u32::MAX,
            old(self)@.takes(heap@),
        ensures
            final(self).wf(),
            if heap@.page_size != old(self)@.page_size {
                &&& r is Err
                &&& r->Err_0@ == ErrorModel::Catalog(
                    size_mismatch_text(old(self)@.page_size, heap@.page_size),
                )
                &&& final(self)@ == old(self)@
            } else {
                &&& r is Ok
                &&& r->Ok_0 == old(self)@.files.len()
                &&& final(self)@ == (PoolModel {
                    files: old(self)@.files.push(
                        Some(FileModel { heap: heap@, page_count: heap@.pages.len() }),
                    ),
                    ..old(self)@
                })
            },
    {
        let requested: usize = heap.page_size();
        if requested != self.page_size {
            let message: String = "page size mismatch: pool uses ".to_owned().concat(
                decimal(self.page_size as u64).as_str(),
            ).concat(" but file requests ").concat(decimal(requested as u64).as_str());
            return Err(Error::Catalog(message));
        }
        let fid: FileId = self.files.len() as u32;
        let page_count: u64 = heap.page_count();
        let ghost before = self@;
        proof {
            heap.lemma_wf();
        }
        let ghost entry_model = FileModel { heap: heap@, page_count: heap@.pages.len() };
        self.files.push(Some(FileEntry { heap, page_count }));
        proof {
            let want = PoolModel { files: before.files.push(Some(entry_model)), ..before };
            assert(self@.files =~= want.files);
            assert(self@.bytes =~= want.bytes);
            lemma_registered(before, entry_model);
        }
        Ok(fid)
    }

    /// The frame of a page, if it is in one.
    pub fn frame_of(&self, file_id: FileId, page_id: PageId) -> (r: Option<usize>)
        requires
            self.wf(),
        ensures
            match r {
                Some(i) => self@.resident(file_id, page_id) && i == self@.frame_of(
                    file_id,
                    page_id,
                ),
                None => !self@.resident(file_id, page_id),
            },
    {
        let key: u128 = key_of(file_id, page_id);
        match self.page_table.get(&key) {
            Some(i) => {
                proof {
                    let m = self.frame_meta@[*i as int];
                    lemma_key_injective(m.file_id, m.page_id, file_id, page_id);
                    lemma_frame_is(self@, -1, file_id, page_id, *i as int);
                }
                Some(*i)
            }
            None => {
                proof {
                    assert forall|j: int| 0 <= j < self@.frames.len() implies !(
                    #[trigger] self@.frames[j]).holds(file_id, page_id) by {}
                    lemma_frame_none(self@.frames, file_id, page_id);
                }
                None
            }
        }
    }

    /// Writes the page in a frame to its file, if it was changed.
    fn flush_frame(&mut self, idx: usize) -> (r: DbResult<()>)
        requires
            old(self).base_ok(),
            idx < old(self)@.frames.len(),
            old(self)@.frames[idx as int].dirty ==> {
                &&& old(self)@.frames[idx as int].in_use
                &&& old(self)@.frame_ok(idx as int)
                &&& old(self)@.file_ok(old(self)@.frames[idx as int].file_id as int)
            },
        ensures
            final(self).base_ok(),
            r is Ok,
            final(self)@ == old(self)@.flushed(idx as int),
            final(self).page_table == old(self).page_table,
    {
        let mut meta: FrameMeta = self.frame_meta[idx];
        if !meta.dirty {
            return Ok(());
        }
        if !meta.in_use {
            return Err(corruption("flush on empty frame"));
        }
        let ghost m = self@;
        let fid: usize = meta.file_id as usize;
        proof {
            lemma_region(self.page_size as int, self.frame_meta@.len() as int, idx as int);
            assert(m.files[fid as int] is Some);
            assert(m.bytes[idx as int] == region(
                self.pool_buf@,
                self.page_size as int,
                idx as int,
            ));
        }
        let off: usize = idx * self.page_size;
        let end: usize = off + self.page_size;
        match &mut self.files[fid] {
            Some(entry) => {
                match entry.heap.write_page_buf(&self.pool_buf[off..end]) {
                    Ok(_) => {}
                    Err(e) => {
                        return Err(e);
                    }
                }
            }
            None => {
                return Err(no_file_error(meta.file_id));
            }
        }
        meta.dirty = false;
        self.frame_meta.set(idx, meta);
        proof {
            let want = m.flushed(idx as int);
            assert(self@.files =~= want.files) by {
                assert forall|f: int| 0 <= f < want.files.len() implies self@.files[f]
                    == want.files[f] by {
                    if f != fid {
                        assert(self.files@[f] == old(self).files@[f]);
                    }
                }
            }
            assert(self@.frames =~= want.frames);
            assert(self@.bytes =~= want.bytes);
            assert(self@ == want);
        }
        Ok(())
    }

    /// Takes a frame for a page.
    fn evict_for_frame(&mut self) -> (r: DbResult<usize>)
        requires
            old(self).wf(),
        ensures
            final(self).wf(),
            final(self)@ == old(self)@.evicted().0,
            match r {
                Ok(i) => old(self)@.evicted().1 == Some(i as int),
                Err(e) => {
                    &&& old(self)@.evicted().1 is None
                    &&& e@ == ErrorModel::Catalog("buffer pool full: all frames are pinned"@)
                },
            },
    {
        let ghost m = self@;
        let n: usize = self.frame_meta.len();
        proof {
            lemma_evicted(m);
            lemma_find_free(m.frames, 0);
        }
        let mut i: usize = 0;
        while i < n && self.frame_meta[i].in_use
            invariant
                *self == *old(self),
                m == self@,
                n == self.frame_meta@.len(),
                i <= n,
                find_free(m.frames, 0) == find_free(m.frames, i as int),
            decreases n - i,
        {
            i += 1;
        }
        if i < n {
            lru_remove(&mut self.lru, i);
            assert(self@.bytes =~= m.bytes);
            assert(self@ == m.evicted().0);
            return Ok(i);
        }
        let victim: usize = match self.lru.pop_front() {
            Some(v) => v,
            None => {
                assert(self@ == m);
                return Err(catalog_error("buffer pool full: all frames are pinned"));
            }
        };
        let ghost m1 = self@;
        proof {
            assert(victim == m.lru[0]);
            assert(m1 == PoolModel { lru: m.lru.subrange(1, m.lru.len() as int), ..m });
            assert(m.frames[victim as int].in_use);
            assert(m.frame_ok(victim as int));
            assert(m.file_ok(m.frames[victim as int].file_id as int));
        }
        match self.flush_frame(victim) {
            Ok(_) => {}
            Err(e) => {
                return Err(e);
            }
        }
        let ghost m2 = self@;
        let mut meta: FrameMeta = self.frame_meta[victim];
        let ghost table = self.page_table@;
        let ghost frames = self.frame_meta@;
        let key: u128 = key_of(meta.file_id, meta.page_id);
        self.page_table.remove(&key);
        meta.in_use = false;
        meta.pin_count = 0;
        meta.dirty = false;
        meta.latch = LatchMode::Free;
        self.frame_meta.set(victim, meta);
        proof {
            assert(self@.frames =~= m.evicted().0.frames);
            assert(self@.bytes =~= m2.bytes);
            assert(self@ == m.evicted().0);
            assert forall|j: int| 0 <= j < frames.len() && #[trigger] frames[j].in_use implies {
                let k = page_key(frames[j].file_id, frames[j].page_id);
                table.contains_key(k) && table[k] == j
            } by {
                assert(m.frames[j].in_use);
            }
            assert forall|j: int|
                0 <= j < self.frame_meta@.len() && (#[trigger] self.frame_meta@[j]).in_use implies {
                let k = page_key(self.frame_meta@[j].file_id, self.frame_meta@[j].page_id);
                self.page_table@.contains_key(k) && self.page_table@[k] == j
            } by {
                assert(frames[j].in_use);
            }
        }
        Ok(victim)
    }

    /// Reads a page of a file into a free frame and checks it.
    fn read_into_frame(&mut self, idx: usize, file_id: FileId, page_id: PageId) -> (r: DbResult<()>)
        requires
            old(self).wf(),
            old(self)@.can_ask(file_id, page_id),
            idx < old(self)@.frames.len(),
            !old(self)@.frames[idx as int].in_use,
        ensures
            final(self).wf(),
            final(self).frame_meta == old(self).frame_meta,
            ({
                let m = old(self)@;
                let b = m.file(file_id).heap.pages[page_id as int];
                if !m.registered(file_id) {
                    r is Err && r->Err_0@ == no_file(file_id) && final(self)@ == m
                } else if page_id >= m.file(file_id).heap.pages.len() {
                    &&& r is Err
                    &&& r->Err_0@ == ErrorModel::Corruption(
                        range_text(page_id as nat, m.file(file_id).heap.pages.len()),
                    )
                    &&& final(self)@ == m
                } else {
                    &&& final(self)@ == m.with_bytes(idx as int, b)
                    &&& r is Ok <==> sealed(b)
                    &&& r is Err ==> r->Err_0@ == ErrorModel::Corruption(mismatch_text(b))
                }
            }),
    {
        let ghost m1 = self@;
        let fid: usize = file_id as usize;
        if fid >= self.files.len() || self.files[fid].is_none() {
            return Err(no_file_error(file_id));
        }
        proof {
            lemma_region(self.page_size as int, self.frame_meta@.len() as int, idx as int);
            assert(m1.files[fid as int] is Some);
            assert(m1.file_ok(fid as int));
        }
        let page_size: usize = self.page_size;
        let off: usize = idx * page_size;
        let ghost buf = self.pool_buf@;
        let ghost at = off as int;
        match &self.files[fid] {
            Some(entry) => {
                let (_head, rest) = self.pool_buf.as_mut_slice().split_at_mut(off);
                let (frame, _tail) = rest.split_at_mut(page_size);
                match entry.heap.read_page_into(page_id, frame) {
                    Ok(_) => {}
                    Err(e) => {
                        proof {
                            assert(self.pool_buf@ =~= buf);
                            assert(self@ == m1);
                        }
                        return Err(e);
                    }
                }
            }
            None => {
                return Err(no_file_error(file_id));
            }
        }
        let ghost b = m1.file(file_id).heap.pages[page_id as int];
        proof {
            assert(self.pool_buf@ =~= buf.subrange(0, at) + b + buf.subrange(
                at + page_size,
                buf.len() as int,
            ));
            lemma_region_set(
                buf,
                page_size as int,
                self.frame_meta@.len() as int,
                idx as int,
                b,
                self.pool_buf@,
            );
            assert(self@.bytes =~= m1.with_bytes(idx as int, b).bytes);
            assert(self@ == m1.with_bytes(idx as int, b));
            assert(region(self.pool_buf@, page_size as int, idx as int) == b);
            lemma_spare_bytes(m1, idx as int, b);
        }
        verify_checksum_of(&self.pool_buf[off..off + page_size])
    }

    /// Brings a page into a frame, if it is not in one.
    fn ensure_loaded(&mut self, file_id: FileId, page_id: PageId) -> (r: DbResult<usize>)
        requires
            old(self).wf(),
            old(self)@.can_ask(file_id, page_id),
        ensures
            final(self).base_ok(),
            table_ok(final(self).page_table@, final(self).frame_meta@),
            final(self)@ == old(self)@.loaded(file_id, page_id).0,
            match r {
                Ok(i) => old(self)@.loaded(file_id, page_id).1 == Ok::<int, ErrorModel>(i as int),
                Err(e) => old(self)@.loaded(file_id, page_id).1 == Err::<int, ErrorModel>(e@),
            },
    {
        let ghost m = self@;
        if let Some(i) = self.frame_of(file_id, page_id) {
            return Ok(i);
        }
        proof {
            lemma_evicted(m);
        }
        let idx: usize = match self.evict_for_frame() {
            Ok(i) => i,
            Err(e) => {
                return Err(e);
            }
        };
        let ghost m1 = self@;
        proof {
            lemma_find_frame(m.frames, file_id, page_id, 0);
            assert forall|j: int| 0 <= j < m1.frames.len() implies !(#[trigger] m1.frames[j]).holds(
                file_id,
                page_id,
            ) by {
                if j != idx {
                    assert(m1.frames[j] == m.frames[j]);
                }
            }
            lemma_frame_none(m1.frames, file_id, page_id);
        }
        match self.read_into_frame(idx, file_id, page_id) {
            Ok(_) => {}
            Err(e) => {
                return Err(e);
            }
        }
        let ghost table = self.page_table@;
        let ghost frames = self.frame_meta@;
        proof {
            lemma_table_insert(table, frames, m1, file_id, page_id, idx);
        }
        self.frame_meta.set(
            idx,
            FrameMeta {
                file_id,
                page_id,
                pin_count: 0,
                dirty: false,
                in_use: true,
                latch: LatchMode::Free,
            },
        );
        self.page_table.insert(key_of(file_id, page_id), idx);
        proof {
            assert(self@.bytes =~= m.loaded(file_id, page_id).0.bytes);
            assert(self@ == m.loaded(file_id, page_id).0);
        }
        Ok(idx)
    }

    /// Pins a page for a reader and gives its bytes.
    pub fn fetch_page<'a>(&'a mut self, file_id: FileId, page_id: PageId) -> (r: DbResult<
        PageRef<'a>,
    >)
        requires
            old(self).wf(),
            old(self)@.can_ask(file_id, page_id),
            old(self)@.resident(file_id, page_id) ==> old(self)@.frames[old(self)@.frame_of(
                file_id,
                page_id,
            )].pin_count < u32::MAX,
        ensures
            final(self).wf(),
            final(self)@ == old(self)@.fetched(file_id, page_id).0,
            match r {
                Ok(page) => {
                    &&& old(self)@.fetched(file_id, page_id).1 is Ok
                    &&& page.bytes() == final(self)@.bytes[old(self)@.fetched(
                        file_id,
                        page_id,
                    ).1->Ok_0]
                },
                Err(e) => old(self)@.fetched(file_id, page_id).1 == Err::<int, ErrorModel>(e@),
            },
    {
        let ghost m = self@;
        proof {
            lemma_loaded(m, file_id, page_id);
            lemma_fetched(m, file_id, page_id);
        }
        let idx: usize = match self.ensure_loaded(file_id, page_id) {
            Ok(i) => i,
            Err(e) => {
                return Err(e);
            }
        };
        let ghost m1 = self@;
        let mut meta: FrameMeta = self.frame_meta[idx];
        if meta.latch == LatchMode::Exclusive {
            return Err(
                Error::Catalog(
                    page_name(file_id, page_id).concat(" is exclusively latched for write"),
                ),
            );
        }
        meta.pin_count = meta.pin_count + 1;
        meta.latch = LatchMode::Shared;
        self.frame_meta.set(idx, meta);
        lru_remove(&mut self.lru, idx);
        proof {
            assert(self@.bytes =~= m1.bytes);
            assert(self@ == m.fetched(file_id, page_id).0);
            lemma_region(self.page_size as int, self.frame_meta@.len() as int, idx as int);
            assert(table_ok(self.page_table@, self.frame_meta@)) by {
                assert forall|j: int|
                    0 <= j < self.frame_meta@.len()
                        && (#[trigger] self.frame_meta@[j]).in_use implies {
                    let k = page_key(self.frame_meta@[j].file_id, self.frame_meta@[j].page_id);
                    self.page_table@.contains_key(k) && self.page_table@[k] == j
                } by {
                    assert(m1.frames[j].in_use);
                }
            }
        }
        let off: usize = idx * self.page_size;
        let end: usize = off + self.page_size;
        Ok(PageRef::new(&self.pool_buf[off..end]))
    }
}

/// What a change of the bytes of one frame makes of a pool.
proof fn lemma_view_set(p: BufferPool, i: int)
    requires
        p.base_ok(),
        0 <= i < p.frame_meta@.len(),
    ensures
        forall|q: BufferPool, b: Seq<u8>|
            #![trigger q@, set_region(p.pool_buf@, p.page_size as int, i, b)]
            b.len() == p.page_size && q == (BufferPool { pool_buf: q.pool_buf, ..p })
                && q.pool_buf@ == set_region(p.pool_buf@, p.page_size as int, i, b) ==> {
                &&& q@ == p@.with_bytes(i, b)
                &&& q.base_ok()
            },
{
    let ps = p.page_size as int;
    lemma_set_region(p.pool_buf@, ps, p.frame_meta@.len() as int, i);
    assert forall|q: BufferPool, b: Seq<u8>|
        #![trigger q@, set_region(p.pool_buf@, ps, i, b)]
        b.len() == p.page_size && q == (BufferPool { pool_buf: q.pool_buf, ..p }) && q.pool_buf@
            == set_region(p.pool_buf@, ps, i, b) implies q@ == p@.with_bytes(i, b)
        && q.base_ok() by {
        assert(q@.bytes =~= p@.with_bytes(i, b).bytes) by {
            assert forall|j: int| 0 <= j < q@.bytes.len() implies q@.bytes[j] == p@.with_bytes(
                i,
                b,
            ).bytes[j] by {
                assert(q@.bytes[j] == region(q.pool_buf@, ps, j));
            }
        }
        assert(q@.files =~= p@.files);
    }
}

impl BufferPool {
    /// Pins a page for a writer and gives its bytes. The page counts as changed.
    ///
    /// The bytes that the writer leaves must again be those of the page, with a right checksum:
    /// then the pool is in order.
    pub fn fetch_page_mut<'a>(&'a mut self, file_id: FileId, page_id: PageId) -> (r: DbResult<
        PageMut<'a>,
    >)
        requires
            old(self).wf(),
            old(self)@.can_ask(file_id, page_id),
        ensures
            match r {
                Ok(page) => {
                    let (m, i) = (
                        old(self)@.fetched_mut(file_id, page_id).0,
                        old(self)@.fetched_mut(file_id, page_id).1->Ok_0,
                    );
                    &&& old(self)@.fetched_mut(file_id, page_id).1 is Ok
                    &&& page.bytes() == m.bytes[i]
                    &&& final(page.buf)@.len() == m.page_size ==> {
                        &&& final(self)@ == m.with_bytes(i, final(page.buf)@)
                        &&& frame_sound(final(page.buf)@, page_id as int) ==> final(self).wf()
                    }
                },
                Err(e) => {
                    &&& old(self)@.fetched_mut(file_id, page_id).1 == Err::<int, ErrorModel>(e@)
                    &&& final(self)@ == old(self)@.fetched_mut(file_id, page_id).0
                    &&& final(self).wf()
                },
            },
    {
        let ghost m = self@;
        proof {
            lemma_loaded(m, file_id, page_id);
            lemma_fetched_mut(m, file_id, page_id);
        }
        let idx: usize = match self.ensure_loaded(file_id, page_id) {
            Ok(i) => i,
            Err(e) => {
                return Err(e);
            }
        };
        let ghost m1 = self@;
        let mut meta: FrameMeta = self.frame_meta[idx];
        if meta.pin_count > 0 {
            return Err(
                Error::Catalog(
                    page_name(file_id, page_id).concat(
                        " is already pinned — cannot acquire exclusive write latch",
                    ),
                ),
            );
        }
        meta.pin_count = 1;
        meta.latch = LatchMode::Exclusive;
        meta.dirty = true;
        self.frame_meta.set(idx, meta);
        lru_remove(&mut self.lru, idx);
        proof {
            assert(self@.bytes =~= m1.bytes);
            assert(self@ == m.fetched_mut(file_id, page_id).0);
            assert(table_ok(self.page_table@, self.frame_meta@)) by {
                assert forall|j: int|
                    0 <= j < self.frame_meta@.len()
                        && (#[trigger] self.frame_meta@[j]).in_use implies {
                    let k = page_key(self.frame_meta@[j].file_id, self.frame_meta@[j].page_id);
                    self.page_table@.contains_key(k) && self.page_table@[k] == j
                } by {
                    assert(m1.frames[j].in_use);
                }
            }
        }
        proof {
            lemma_with_any_bytes(self@, idx as int);
        }
        Ok(self.lend_frame(idx))
    }

    /// Adds a page to a file and pins it for a writer. The page is empty.
    ///
    /// As with [`BufferPool::fetch_page_mut`], the writer must leave the bytes of the page.
    pub fn new_page<'a>(&'a mut self, file_id: FileId) -> (r: DbResult<(PageId, PageMut<'a>)>)
        requires
            old(self).wf(),
            old(self)@.can_add(file_id),
        ensures
            match r {
                Ok((pid, page)) => {
                    let (m, i) = (
                        old(self)@.new_paged(file_id).0,
                        old(self)@.new_paged(file_id).1->Ok_0,
                    );
                    &&& old(self)@.new_paged(file_id).1 is Ok
                    &&& pid == old(self)@.file(file_id).page_count
                    &&& page.bytes().len() == old(self)@.page_size
                    &&& is_fresh(page.bytes(), pid as int)
                    &&& final(page.buf)@.len() == m.page_size ==> {
                        &&& final(self)@ == m.with_bytes(i, final(page.buf)@)
                        &&& frame_sound(final(page.buf)@, pid as int) ==> final(self).wf()
                    }
                },
                Err(e) => {
                    &&& old(self)@.new_paged(file_id).1 == Err::<int, ErrorModel>(e@)
                    &&& final(self)@ == old(self)@.new_paged(file_id).0
                    &&& final(self).wf()
                },
            },
    {
        let ghost m = self@;
        proof {
            lemma_new_any(m, file_id);
        }
        let fid: usize = file_id as usize;
        if fid >= self.files.len() {
            return Err(no_file_error(file_id));
        }
        let new_pid: PageId = match &mut self.files[fid] {
            Some(entry) => {
                proof {
                    assert(m.files[fid as int] is Some);
                    assert(m.file_ok(fid as int));
                }
                let pid: u64 = entry.page_count;
                if pid == u64::MAX || !file_fits_exec(pid + 1) {
                    assert(self@ == m) by {
                        assert(self@.files =~= m.files);
                    }
                    return Err(Error::Io("file too large".to_owned()));
                }
                entry.page_count = pid + 1;
                pid
            }
            None => {
                assert(self@ == m) by {
                    assert(self@.files =~= m.files);
                }
                return Err(no_file_error(file_id));
            }
        };
        let ghost m1 = m.grown(file_id);
        proof {
            lemma_grown(m, file_id);
            assert(self@.files =~= m1.files) by {
                assert forall|f: int| 0 <= f < m1.files.len() implies self@.files[f]
                    == m1.files[f] by {
                    if f != fid {
                        assert(self.files@[f] == old(self).files@[f]);
                    }
                }
            }
            assert(self@ == m1);
            lemma_evicted(m1);
        }
        let idx: usize = match self.evict_for_frame() {
            Ok(i) => i,
            Err(e) => {
                return Err(e);
            }
        };
        let ghost m2 = self@;
        proof {
            assert forall|j: int| 0 <= j < m2.frames.len() implies !(#[trigger] m2.frames[j]).holds(
                file_id,
                new_pid,
            ) by {
                if j != idx && m2.frames[j].holds(file_id, new_pid) {
                    assert(m2.frames[j] == m1.frames[j]);
                    assert(m.frames[j].in_use);
                    assert(m.frame_ok(j));
                }
            }
            lemma_frame_none(m2.frames, file_id, new_pid);
            lemma_table_insert(
                self.page_table@,
                self.frame_meta@,
                m2,
                file_id,
                new_pid,
                idx,
            );
        }
        self.frame_meta.set(
            idx,
            FrameMeta {
                file_id,
                page_id: new_pid,
                pin_count: 1,
                dirty: true,
                in_use: true,
                latch: LatchMode::Exclusive,
            },
        );
        self.page_table.insert(key_of(file_id, new_pid), idx);
        proof {
            assert(self@.bytes =~= m2.bytes);
            assert(self@ == m.new_paged(file_id).0);
        }
        let mut page: PageMut<'a> = self.lend_frame(idx);
        init_page_buf(page.buf, new_pid);
        Ok((new_pid, page))
    }

    /// Takes one pin off a page, which counts as changed where `dirty` says so. A page without
    /// pins may leave its frame.
    pub fn unpin(&mut self, file_id: FileId, page_id: PageId, dirty: bool) -> (r: DbResult<()>)
        requires
            old(self).wf(),
        ensures
            final(self).wf(),
            final(self)@ == old(self)@.unpinned(file_id, page_id, dirty).0,
            match r {
                Ok(_) => old(self)@.unpinned(file_id, page_id, dirty).1 is None,
                Err(e) => old(self)@.unpinned(file_id, page_id, dirty).1 == Some(e@),
            },
    {
        let ghost m = self@;
        proof {
            lemma_unpinned(m, file_id, page_id, dirty);
        }
        let idx: usize = match self.frame_of(file_id, page_id) {
            Some(i) => i,
            None => {
                return Err(not_in_pool_error(file_id, page_id));
            }
        };
        proof {
            lemma_find_frame(m.frames, file_id, page_id, 0);
        }
        let mut meta: FrameMeta = self.frame_meta[idx];
        if meta.pin_count == 0 {
            return Err(catalog_error("unpin called on unpinned frame"));
        }
        if dirty {
            meta.dirty = true;
        }
        meta.pin_count = meta.pin_count - 1;
        let last: bool = meta.pin_count == 0;
        if last {
            meta.latch = LatchMode::Free;
            self.lru.push_back(idx);
        }
        self.frame_meta.set(idx, meta);
        proof {
            let t = m.unpinned(file_id, page_id, dirty).0;
            assert(self@.bytes =~= t.bytes);
            assert(self@.frames =~= t.frames);
            assert(self@.lru =~= t.lru);
            assert(self@ == t);
            self.lemma_table_kept(*old(self));
        }
        Ok(())
    }

    /// A change of frames that keeps their pages keeps the table.
    proof fn lemma_table_kept(&self, before: Self)
        requires
            table_ok(before.page_table@, before.frame_meta@),
            self.page_table@ == before.page_table@,
            self.frame_meta@.len() == before.frame_meta@.len(),
            forall|j: int|
                0 <= j < self.frame_meta@.len() ==> {
                    &&& (#[trigger] self.frame_meta@[j]).in_use == before.frame_meta@[j].in_use
                    &&& self.frame_meta@[j].file_id == before.frame_meta@[j].file_id
                    &&& self.frame_meta@[j].page_id == before.frame_meta@[j].page_id
                },
        ensures
            table_ok(self.page_table@, self.frame_meta@),
    {
        assert forall|k: u128| #[trigger] self.page_table@.contains_key(k) implies {
            let i = self.page_table@[k] as int;
            &&& i < self.frame_meta@.len()
            &&& self.frame_meta@[i].in_use
            &&& page_key(self.frame_meta@[i].file_id, self.frame_meta@[i].page_id) == k
        } by {
            assert(before.page_table@.contains_key(k));
        }
        assert forall|j: int|
            0 <= j < self.frame_meta@.len() && (#[trigger] self.frame_meta@[j]).in_use implies {
            let k = page_key(self.frame_meta@[j].file_id, self.frame_meta@[j].page_id);
            self.page_table@.contains_key(k) && self.page_table@[k] == j
        } by {
            assert(before.frame_meta@[j].in_use);
        }
    }

    /// Writes a page to its file, if it was changed.
    pub fn flush_page(&mut self, file_id: FileId, page_id: PageId) -> (r: DbResult<()>)
        requires
            old(self).wf(),
        ensures
            final(self).wf(),
            if old(self)@.resident(file_id, page_id) {
                &&& r is Ok
                &&& final(self)@ == old(self)@.flushed(old(self)@.frame_of(file_id, page_id))
            } else {
                &&& r is Err
                &&& r->Err_0@ == not_in_pool(file_id, page_id)
                &&& final(self)@ == old(self)@
            },
    {
        match self.frame_of(file_id, page_id) {
            Some(idx) => self.flush_in_order(idx),
            None => Err(not_in_pool_error(file_id, page_id)),
        }
    }

    fn flush_in_order(&mut self, idx: usize) -> (r: DbResult<()>)
        requires
            old(self).wf(),
            idx < old(self)@.frames.len(),
        ensures
            final(self).wf(),
            r is Ok,
            final(self)@ == old(self)@.flushed(idx as int),
    {
        proof {
            let m = self@;
            lemma_flushed(m, idx as int, -1);
            if m.frames[idx as int].dirty {
                assert(m.frames[idx as int].in_use);
                assert(m.frame_ok(idx as int));
                assert(m.files[m.frames[idx as int].file_id as int] is Some);
            }
        }
        let r = self.flush_frame(idx);
        proof {
            self.lemma_table_kept(*old(self));
        }
        r
    }

    /// Writes all changed pages to their files.
    pub fn flush_all(&mut self) -> (r: DbResult<()>)
        requires
            old(self).wf(),
        ensures
            final(self).wf(),
            r is Ok,
            final(self)@ == old(self)@.flushed_to(old(self)@.frames.len() as int),
    {
        let n: usize = self.frame_meta.len();
        let ghost m = self@;
        let mut i: usize = 0;
        while i < n
            invariant
                self.wf(),
                m == old(self)@,
                n == m.frames.len() == self@.frames.len(),
                i <= n,
                self@ == m.flushed_to(i as int),
            decreases n - i,
        {
            match self.flush_in_order(i) {
                Ok(_) => {}
                Err(e) => {
                    return Err(e);
                }
            }
            i += 1;
        }
        Ok(())
    }

    /// The number of frames that hold a page.
    pub fn used_frames(&self) -> (r: usize)
        ensures
            r == self@.frames.filter(|m: FrameMeta| m.in_use).len(),
    {
        let n: usize = self.frame_meta.len();
        let mut i: usize = 0;
        let mut used: usize = 0;
        let ghost p = |m: FrameMeta| m.in_use;
        let ghost all = self.frame_meta@;
        proof {
            reveal(Seq::filter);
            assert(all.subrange(0, 0).filter(p).len() == 0);
        }
        while i < n
            invariant
                i <= n,
                n == all.len(),
                all == self.frame_meta@,
                p == (|m: FrameMeta| m.in_use),
                used <= i,
                used == all.subrange(0, i as int).filter(p).len(),
            decreases n - i,
        {
            proof {
                assert(all.subrange(0, i + 1).drop_last() =~= all.subrange(0, i as int));
                reveal(Seq::filter);
            }
            if self.frame_meta[i].in_use {
                used += 1;
            }
            i += 1;
        }
        assert(all.subrange(0, n as int) =~= all);
        used
    }

    /// The number of frames.
    pub fn capacity(&self) -> (r: usize)
        ensures
            r == self@.frames.len(),
    {
        self.frame_meta.len()
    }

    /// The size of a page.
    pub fn page_size(&self) -> (r: usize)
        ensures
            r == self@.page_size,
    {
        self.page_size
    }

    /// The name of the pool.
    pub fn name(&self) -> (r: &str)
        ensures
            r@ == self@.name,
    {
        self.name.as_str()
    }

    /// The number of bytes that the frames take.
    pub fn region_len(&self) -> (r: usize)
        requires
            self.wf(),
        ensures
            r == self@.frames.len() * self@.page_size,
    {
        self.pool_buf.len()
    }

    /// What is known of a frame.
    pub fn frame_meta(&self, idx: usize) -> (r: FrameMeta)
        requires
            idx < self@.frames.len(),
        ensures
            r == self@.frames[idx as int],
    {
        self.frame_meta[idx]
    }

    /// The number of pages of a file, with those that were not written yet.
    pub fn file_page_count(&self, file_id: FileId) -> (r: DbResult<u64>)
        ensures
            match r {
                Ok(n) => self@.registered(file_id) && n == self@.file(file_id).page_count,
                Err(e) => !self@.registered(file_id) && e@ == no_file(file_id),
            },
    {
        let fid: usize = file_id as usize;
        if fid >= self.files.len() {
            return Err(no_file_error(file_id));
        }
        match &self.files[fid] {
            Some(entry) => Ok(entry.page_count),
            None => Err(no_file_error(file_id)),
        }
    }

    /// The number of files that were ever registered.
    pub fn file_count(&self) -> (r: usize)
        ensures
            r == self@.files.len(),
    {
        self.files.len()
    }

    /// The heap file that was registered under a number.
    pub fn file_heap(&self, file_id: FileId) -> (r: Option<&HeapFile>)
        requires
            self.wf(),
        ensures
            match r {
                Some(h) => self@.registered(file_id) && h@ == self@.file(file_id).heap && h.wf(),
                None => !self@.registered(file_id),
            },
    {
        let fid: usize = file_id as usize;
        if fid >= self.files.len() {
            return None;
        }
        match &self.files[fid] {
            Some(entry) => Some(&entry.heap),
            None => None,
        }
    }

    /// Takes a file and its pages out of the pool. Changes that were not written are lost: the
    /// file is about to be deleted.
    pub fn evict_file(&mut self, file_id: FileId) -> (r: DbResult<()>)
        requires
            old(self).wf(),
        ensures
            final(self).wf(),
            r is Ok,
            final(self)@ == old(self)@.dropped(file_id),
    {
        let ghost m = self@;
        let ghost t = m.dropped(file_id);
        proof {
            lemma_dropped(m, file_id);
        }
        let n: usize = self.frame_meta.len();
        let old_lru: VecDeque<usize> = take_lru(&mut self.lru);
        let total: usize = old_lru.len();
        let mut k: usize = 0;
        let ghost keep = not_of_file(m.frames, file_id);
        while k < total
            invariant
                k <= total,
                total == old_lru@.len(),
                old_lru@ == m.lru,
                m.inv(),
                m == old(self)@,
                n == m.frames.len(),
                keep == not_of_file(m.frames, file_id),
                self.frame_meta@ == m.frames,
                self.lru@ == kept_of(m.lru.subrange(0, k as int), keep),
                *self == (BufferPool { lru: self.lru, ..*old(self) }),
            decreases total - k,
        {
            let i: usize = old_lru[k];
            assert(m.lru.subrange(0, k + 1).drop_last() =~= m.lru.subrange(0, k as int));
            assert(m.lru[k as int] < n);
            let meta: FrameMeta = self.frame_meta[i];
            if !(meta.in_use && meta.file_id == file_id) {
                self.lru.push_back(i);
            }
            k += 1;
        }
        assert(m.lru.subrange(0, total as int) =~= m.lru);
        let mut i: usize = 0;
        while i < n
            invariant
                i <= n,
                n == m.frames.len() == t.frames.len(),
                m.inv(),
                m == old(self)@,
                t == m.dropped(file_id),
                *self == (BufferPool {
                    lru: self.lru,
                    frame_meta: self.frame_meta,
                    page_table: self.page_table,
                    ..*old(self)
                }),
                self.lru@ == t.lru,
                self.frame_meta@.len() == n,
                forall|j: int|
                    0 <= j < n ==> #[trigger] self.frame_meta@[j] == if j < i {
                        t.frames[j]
                    } else {
                        m.frames[j]
                    },
                table_ok(self.page_table@, self.frame_meta@),
            decreases n - i,
        {
            let meta: FrameMeta = self.frame_meta[i];
            if meta.in_use && meta.file_id == file_id {
                let ghost frames = self.frame_meta@;
                let key: u128 = key_of(meta.file_id, meta.page_id);
                self.page_table.remove(&key);
                self.frame_meta.set(i, FrameMeta::empty());
                proof {
                    assert forall|j: int|
                        0 <= j < n && (#[trigger] self.frame_meta@[j]).in_use implies {
                        let k = page_key(self.frame_meta@[j].file_id, self.frame_meta@[j].page_id);
                        self.page_table@.contains_key(k) && self.page_table@[k] == j
                    } by {
                        assert(frames[j].in_use);
                    }
                }
            }
            i += 1;
        }
        let fid: usize = file_id as usize;
        if fid < self.files.len() {
            self.files.set(fid, None);
        }
        proof {
            assert(self@.frames =~= t.frames);
            assert(self@.bytes =~= t.bytes);
            assert(self@.files =~= t.files);
            assert(self@ == t);
        }
        Ok(())
    }

    /// The bytes of a frame, to be changed.
    fn lend_frame<'a>(&'a mut self, idx: usize) -> (page: PageMut<'a>)
        requires
            old(self).base_ok(),
            table_ok(old(self).page_table@, old(self).frame_meta@),
            idx < old(self)@.frames.len(),
        ensures
            page.bytes() == old(self)@.bytes[idx as int],
            final(page.buf)@.len() == old(self)@.page_size ==> final(self)@ == old(
                self,
            )@.with_bytes(idx as int, final(page.buf)@),
            final(page.buf)@.len() == old(self)@.page_size && old(self)@.with_bytes(
                idx as int,
                final(page.buf)@,
            ).inv() ==> final(self).wf(),
    {
        let ghost m = self@;
        proof {
            lemma_region(self.page_size as int, self.frame_meta@.len() as int, idx as int);
        }
        let page_size: usize = self.page_size;
        proof {
            lemma_view_set(*self, idx as int);
        }
        let frame: &mut [u8] = lend_region(&mut self.pool_buf, page_size, idx);
        PageMut::new(frame)
    }
}

/// The message for a file of another page size.
pub open spec fn size_mismatch_text(pool: nat, file: nat) -> Seq<char> {
    "page size mismatch: pool uses "@ + digits10(pool) + " but file requests "@ + digits10(file)
}

/// Registering a file keeps the invariant.
pub proof fn lemma_registered(m: PoolModel, e: FileModel)
    requires
        m.inv(),
        e.heap.page_size == m.page_size,
        e.page_count == e.heap.pages.len() <= u64::MAX,
        file_fits(e.page_count),
        usable(m.page_size),
        forall|p: int|
            0 <= p < e.heap.pages.len() ==> page_sound(#[trigger] e.heap.pages[p], p)
                && e.heap.pages[p].len() == m.page_size,
    ensures
        (PoolModel { files: m.files.push(Some(e)), ..m }).inv(),
{
    let t = PoolModel { files: m.files.push(Some(e)), ..m };
    assert forall|j: int| 0 <= j < t.frames.len() && #[trigger] t.frames[j].in_use implies
        t.frame_ok(j) by {
        assert(m.frame_ok(j));
    }
    assert forall|f: int|
        0 <= f < t.files.len() && (#[trigger] t.files[f]) is Some implies t.file_ok(f) by {
        if f < m.files.len() {
            assert(m.files[f] is Some);
            assert(m.file_ok(f));
        }
    }
}

/// Adding a page to the table that is not in it.
proof fn lemma_table_insert(
    table: Map<u128, usize>,
    frames: Seq<FrameMeta>,
    m: PoolModel,
    f: FileId,
    p: PageId,
    i: usize,
)
    requires
        table_ok(table, frames),
        frames == m.frames,
        i < frames.len(),
        !frames[i as int].in_use,
        !m.resident(f, p),
    ensures
        forall|meta: FrameMeta|
            meta.holds(f, p) ==> table_ok(
                table.insert(page_key(f, p), i),
                #[trigger] frames.update(i as int, meta),
            ),
{
    lemma_find_frame(frames, f, p, 0);
    assert forall|meta: FrameMeta| meta.holds(f, p) implies table_ok(
        table.insert(page_key(f, p), i),
        #[trigger] frames.update(i as int, meta),
    ) by {
        let t2 = table.insert(page_key(f, p), i);
        let f2 = frames.update(i as int, meta);
        assert forall|j: int| 0 <= j < f2.len() && (#[trigger] f2[j]).in_use implies {
            let k = page_key(f2[j].file_id, f2[j].page_id);
            t2.contains_key(k) && t2[k] == j
        } by {
            if j != i {
                assert(frames[j].in_use);
                if page_key(frames[j].file_id, frames[j].page_id) == page_key(f, p) {
                    lemma_key_injective(frames[j].file_id, frames[j].page_id, f, p);
                    assert(!frames[j].holds(f, p));
                }
            }
        }
    }
}

/// The bytes of frame `idx` in the region of a pool, to be changed.
fn lend_region<'a>(buf: &'a mut Vec<u8>, page_size: usize, idx: usize) -> (r: &'a mut [u8])
    requires
        idx * page_size + page_size <= old(buf)@.len() <= usize::MAX,
    ensures
        r@ == region(old(buf)@, page_size as int, idx as int),
        final(buf)@ == set_region(old(buf)@, page_size as int, idx as int, final(r)@),
{
    let (_head, rest) = buf.as_mut_slice().split_at_mut(idx * page_size);
    let (part, _tail) = rest.split_at_mut(page_size);
    part
}

/// [`lemma_new_paged`] for whatever bytes a writer leaves.
proof fn lemma_new_any(m: PoolModel, f: FileId)
    requires
        m.inv(),
        m.frames.len() <= usize::MAX,
    ensures
        m.new_paged(f).1 is Err ==> m.new_paged(f).0.inv(),
        m.new_paged(f).1 is Ok ==> forall|b: Seq<u8>|
            b.len() == m.page_size && frame_sound(b, m.file(f).page_count as int) ==> (
            #[trigger] m.new_paged(f).0.with_bytes(m.new_paged(f).1->Ok_0, b)).inv(),
{
    lemma_new_paged(m, f, Seq::empty());
    if m.new_paged(f).1 is Ok {
        assert forall|b: Seq<u8>|
            b.len() == m.page_size && frame_sound(b, m.file(f).page_count as int) implies (
        #[trigger] m.new_paged(f).0.with_bytes(m.new_paged(f).1->Ok_0, b)).inv() by {
            lemma_new_paged(m, f, b);
        }
    }
}

fn take_lru(lru: &mut VecDeque<usize>) -> (r: VecDeque<usize>)
    ensures
        r@ == old(lru)@,
        final(lru)@ == Seq::<usize>::empty(),
{
    let mut out: VecDeque<usize> = VecDeque::new();
    out.append(lru);
    assert(out@ =~= old(lru)@);
    out
}

fn not_in_pool_error(f: FileId, p: PageId) -> (e: Error)
    ensures
        e@ == not_in_pool(f, p),
{
    Error::Catalog(page_name(f, p).concat(" not in pool"))
}

fn no_file_error(f: FileId) -> (e: Error)
    ensures
        e@ == no_file(f),
{
    Error::Catalog(
        "file_id ".to_owned().concat(decimal(f as u64).as_str()).concat(" not registered"),
    )
}

fn page_name(f: FileId, p: PageId) -> (r: String)
    ensures
        r@ == page_text(f, p),
{
    "page (".to_owned().concat(decimal(f as u64).as_str()).concat(", ").concat(
        decimal(p).as_str(),
    ).concat(")")
}

/// Takes a frame off the list of unpinned frames.
fn lru_remove(lru: &mut VecDeque<usize>, x: usize)
    ensures
        final(lru)@ == without(old(lru)@, x),
{
    let n: usize = lru.len();
    let mut out: VecDeque<usize> = VecDeque::new();
    let mut i: usize = 0;
    while i < n
        invariant
            i <= n,
            n == lru@.len(),
            lru@ == old(lru)@,
            out@ == without(lru@.subrange(0, i as int), x),
        decreases n - i,
    {
        let y: usize = lru[i];
        assert(lru@.subrange(0, i + 1).drop_last() =~= lru@.subrange(0, i as int));
        if y != x {
            out.push_back(y);
        }
        i += 1;
    }
    assert(lru@.subrange(0, n as int) =~= lru@);
    *lru = out;
}

} // verus!
