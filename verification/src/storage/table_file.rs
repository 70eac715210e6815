//! The rows of one table, through a buffer pool.
//!
//! Every operation fetches the pages it needs, works on them and releases them, so that no page
//! stays pinned. The free-space map of the table says which pages to try for a new row.

use vstd::prelude::*;
use vstd::string::StringExecFns;
use crate::bytes::copy_bytes;
use crate::catalog::types::Catalog;
use crate::error::{catalog_error, DbResult, Error, ErrorModel};
use crate::storage::fsm::{category, law_search_is_first, FreeSpaceMap, FsmModel};
use crate::storage::heap::{all_rows, file_fits, first_row, fresh_room, law_heap_insert_then_read,
    lemma_fresh_room, lemma_place, no_row_error, no_row_text, page_rows, page_sound, pages_sound,
    pool_full, push_page_rows, range_text, readable, rid_rows, row_inserted, Access, HeapModel,
    Place, Rid};
use crate::storage::page::{can_update, delete_row_from, deleted, free_bytes, free_space_of,
    insert_row_into, inserted, is_fresh, law_delete_then_read, law_update_then_read,
    lemma_free_bytes_bound, mismatch_text, page_wf, row_in, sealed, slot_count_in, update_row_in,
    updated, PageId, PageRead, SlotIndex, UpdateResult};
use crate::storage::pool::BufferPool;
use crate::storage::pool_model::{frame_sound, lemma_evicted, lemma_fetched, lemma_fetched_mut,
    lemma_find_frame, lemma_frame_is, lemma_loaded, lemma_new_paged, lemma_unpinned,
    lemma_with_bytes, FileId, LatchMode, PoolModel};

verus! {

// ── Files as the pool shows them ──

/// The pages of file `f` as the pool shows them.
pub open spec fn file_log(m: PoolModel, f: FileId) -> Seq<Seq<u8>> {
    Seq::new(m.file(f).page_count, |p: int| shown_page(m, f, p as u64))
}

/// Page `p` of file `f` as the pool shows it; nothing where the page was counted and never written.
pub open spec fn shown_page(m: PoolModel, f: FileId, p: PageId) -> Seq<u8> {
    match m.page(f, p) {
        Some(b) => b,
        None => Seq::empty(),
    }
}

/// Whether the pool has all pages that file `f` counts.
pub open spec fn no_holes(m: PoolModel, f: FileId) -> bool {
    forall|p: u64| p < m.file(f).page_count ==> #[trigger] m.page(f, p) is Some
}

/// A pool between two operations: in order, and nothing pinned.
pub open spec fn at_rest(m: PoolModel) -> bool {
    &&& m.inv()
    &&& m.quiet()
    &&& m.frames.len() <= usize::MAX
}

/// A pool between two operations, with a frame to work in and pages with room for a checksum.
pub open spec fn framed(m: PoolModel) -> bool {
    at_rest(m) && 0 < m.frames.len() && m.page_size >= 17
}

/// Whether pool `m2` came out of pool `m` by work on file `f`: it is at rest, and the other files
/// are as they were.
pub open spec fn worked(m: PoolModel, f: FileId, m2: PoolModel) -> bool {
    &&& at_rest(m2)
    &&& m2.name == m.name
    &&& m2.page_size == m.page_size
    &&& m2.frames.len() == m.frames.len()
    &&& m2.files.len() == m.files.len()
    &&& forall|g: FileId| #[trigger] m2.registered(g) == m.registered(g)
    &&& forall|g: FileId|
        g != f && m.registered(g) ==> (#[trigger] m2.file(g)).page_count == m.file(g).page_count
    &&& forall|g: FileId, q: PageId|
        g != f && m.page(g, q) is Some ==> #[trigger] m2.page(g, q) == m.page(g, q)
    &&& m.frames.len() == 0 ==> forall|g: FileId|
        g != f && m.registered(g) ==> #[trigger] m2.file(g) == m.file(g)
}

/// Work on file `f` that sets page `p` to `t` and leaves the other pages alone.
pub open spec fn page_set(m: PoolModel, f: FileId, p: PageId, t: Seq<u8>, m2: PoolModel) -> bool {
    &&& worked(m, f, m2)
    &&& m2.file(f).page_count == m.file(f).page_count
    &&& m2.page(f, p) == Some(t)
    &&& forall|q: PageId|
        q != p && m.page(f, q) is Some ==> #[trigger] m2.page(f, q) == m.page(f, q)
}

/// Work on file `f` that leaves all pages alone.
pub open spec fn pages_kept(m: PoolModel, f: FileId, m2: PoolModel) -> bool {
    &&& worked(m, f, m2)
    &&& m2.file(f).page_count == m.file(f).page_count
    &&& forall|q: PageId| m.page(f, q) is Some ==> #[trigger] m2.page(f, q) == m.page(f, q)
}

/// The error of a page that cannot be fetched, which made pool `m2` of pool `m`: its checksum is
/// wrong, or the file does not have it. That message tells how many pages the file has on disk;
/// pages that were not written yet do not count.
pub open spec fn fetch_error(
    m: PoolModel,
    m2: PoolModel,
    f: FileId,
    p: PageId,
    e: ErrorModel,
) -> bool {
    if p < m.file(f).page_count {
        &&& !sealed(m.page(f, p)->0)
        &&& e == ErrorModel::Corruption(mismatch_text(m.page(f, p)->0))
    } else {
        &&& e == ErrorModel::Corruption(range_text(p as nat, m2.file(f).heap.pages.len()))
        &&& m2.file(f).heap.pages.len() <= m.file(f).page_count
    }
}

/// In a pool at rest a page can be fetched if and only if the file has it and its checksum is
/// right.
proof fn lemma_rest_load(m: PoolModel, f: FileId, p: PageId)
    requires
        framed(m),
        m.registered(f),
        no_holes(m, f),
    ensures
        match m.loaded(f, p).1 {
            Ok(i) => {
                &&& p < m.file(f).page_count
                &&& m.page(f, p) is Some
                &&& sealed(m.page(f, p)->0)
                &&& 0 <= i < m.frames.len()
                &&& m.loaded(f, p).0.frames[i].pin_count == 0
                &&& m.loaded(f, p).0.frames[i].latch == LatchMode::Free
            },
            Err(e) => fetch_error(m, m.loaded(f, p).0, f, p, e),
        },
{
    lemma_loaded(m, f, p);
    lemma_find_frame(m.frames, f, p, 0);
    assert(m.frames[0].pin_count == 0);
    let (t, r) = m.loaded(f, p);
    assert(m.files[f as int] is Some);
    assert(m.file_ok(f as int));
    if let Ok(i) = r {
        assert(t.registered(f));
        assert(p < t.file(f).page_count);
        assert(m.page(f, p) is Some);
        assert(t.frames[i].pin_count == 0);
        assert((t.frames[i].pin_count == 0) <==> (t.frames[i].latch == LatchMode::Free));
    } else {
        assert(!m.resident(f, p)) by {
            if m.resident(f, p) {
                assert(m.page(f, p) is Some);
            }
        }
        lemma_evicted(m);
        let (m1, slot) = m.evicted();
        assert(slot is Some);
        assert(m1.registered(f));
        assert(m1.files[f as int] is Some);
        assert(m1.file_ok(f as int));
        assert(m1.file(f).page_count == m.file(f).page_count);
        if p < m.file(f).page_count {
            assert(m.page(f, p) is Some);
            assert(m1.page(f, p) == m.page(f, p));
            assert(!m1.resident(f, p)) by {
                lemma_find_frame(m1.frames, f, p, 0);
                let j = m1.frame_of(f, p);
                if j < m1.frames.len() {
                    assert(j != slot->0);
                    assert(m1.frames[j] == m.frames[j]);
                    lemma_frame_is(m, -1, f, p, j);
                }
            }
        } else {
            let n = m1.file(f).heap.pages.len();
            assert(r->Err_0 == ErrorModel::Corruption(range_text(p as nat, n)));
            assert(n <= m.file(f).page_count);
        }
    }
}

/// A page that is fetched to be changed, changed, and released again.
proof fn lemma_write_cycle(m: PoolModel, f: FileId, p: PageId, b: Seq<u8>, dirty: bool)
    requires
        framed(m),
        m.registered(f),
        no_holes(m, f),
        m.fetched_mut(f, p).1 is Ok,
        b.len() == m.page_size,
        frame_sound(b, p as int),
    ensures
        ({
            let (t, r) = m.fetched_mut(f, p);
            let m1 = t.with_bytes(r->Ok_0, b);
            &&& m1.unpinned(f, p, dirty).1 is None
            &&& page_set(m, f, p, b, m1.unpinned(f, p, dirty).0)
        }),
{
    lemma_rest_load(m, f, p);
    lemma_fetched_mut(m, f, p);
    let (t, r) = m.fetched_mut(f, p);
    let i = r->Ok_0;
    let m1 = t.with_bytes(i, b);
    lemma_with_bytes(t, i, b);
    lemma_frame_is(m1, -1, f, p, i);
    lemma_unpinned(m1, f, p, dirty);
    let m2 = m1.unpinned(f, p, dirty).0;
    assert(t.page(f, p) is Some) by {
        assert(m.page(f, p) is Some);
        assert(t.page(f, p) == m.page(f, p));
    }
    assert(m1.page(f, p) == Some(b));
    assert(m2.page(f, p) == Some(b));
    lemma_quiet_again(m, t, m1, m2, i);
    assert forall|g: FileId, q: PageId|
        !(g == f && q == p) && m.page(g, q) is Some implies #[trigger] m2.page(g, q) == m.page(
        g,
        q,
    ) by {
        assert(t.page(g, q) == m.page(g, q));
        assert(m1.page(g, q) == t.page(g, q));
        assert(m2.page(g, q) == m1.page(g, q));
    }
    assert forall|g: FileId| #[trigger] m2.registered(g) == m.registered(g) by {
        assert(t.registered(g) == m.registered(g));
    }
    assert forall|g: FileId| m.registered(g) implies (#[trigger] m2.file(g)).page_count == m.file(
        g,
    ).page_count by {
        assert(t.file(g).page_count == m.file(g).page_count);
    }
    assert(m2.file(f).page_count == m.file(f).page_count);
}

/// With the one pin taken off, nothing is pinned.
proof fn lemma_quiet_again(m: PoolModel, t: PoolModel, m1: PoolModel, m2: PoolModel, i: int)
    requires
        m.quiet(),
        t.frames.len() == m.frames.len(),
        m1.frames == t.frames,
        m2.frames.len() == m.frames.len(),
        0 <= i < m.frames.len(),
        t.frames[i].pin_count == 1,
        forall|j: int|
            0 <= j < m.frames.len() && j != i ==> (#[trigger] t.frames[j]).pin_count
                == m.frames[j].pin_count,
        m2.frames[i].pin_count == m1.frames[i].pin_count - 1,
        forall|j: int|
            0 <= j < m.frames.len() && j != i ==> #[trigger] m2.frames[j] == m1.frames[j],
    ensures
        m2.quiet(),
{
    assert forall|j: int| 0 <= j < m2.frames.len() implies (#[trigger] m2.frames[j]).pin_count
        == 0 by {
        if j != i {
            assert(m2.frames[j] == m1.frames[j]);
            assert(t.frames[j].pin_count == m.frames[j].pin_count);
            assert(m.frames[j].pin_count == 0);
        }
    }
}

/// A page that is fetched to be read, and released again.
proof fn lemma_read_cycle(m: PoolModel, f: FileId, p: PageId)
    requires
        framed(m),
        m.registered(f),
        no_holes(m, f),
        m.fetched(f, p).1 is Ok,
    ensures
        ({
            let (t, r) = m.fetched(f, p);
            &&& t.unpinned(f, p, false).1 is None
            &&& pages_kept(m, f, t.unpinned(f, p, false).0)
        }),
{
    lemma_rest_load(m, f, p);
    lemma_loaded(m, f, p);
    lemma_fetched(m, f, p);
    let (t, r) = m.fetched(f, p);
    let i = r->Ok_0;
    lemma_frame_is(t, -1, f, p, i);
    lemma_unpinned(t, f, p, false);
    let m2 = t.unpinned(f, p, false).0;
    lemma_quiet_again(m, t, t, m2, i);
    assert forall|g: FileId, q: PageId| m.page(g, q) is Some implies #[trigger] m2.page(g, q)
        == m.page(g, q) by {
        assert(t.page(g, q) == m.page(g, q));
    }
    assert forall|g: FileId| #[trigger] m2.registered(g) == m.registered(g) by {
        assert(t.registered(g) == m.registered(g));
    }
    assert forall|g: FileId| m.registered(g) implies (#[trigger] m2.file(g)).page_count == m.file(
        g,
    ).page_count by {
        assert(t.file(g).page_count == m.file(g).page_count);
    }
    assert(m2.file(f).page_count == m.file(f).page_count);
}

/// A page that cannot be fetched leaves everything as it was.
proof fn lemma_failed_fetch(m: PoolModel, f: FileId, p: PageId)
    requires
        framed(m),
        m.registered(f),
        no_holes(m, f),
        m.loaded(f, p).1 is Err,
    ensures
        pages_kept(m, f, m.loaded(f, p).0),
{
    lemma_loaded(m, f, p);
    let t = m.loaded(f, p).0;
    assert forall|j: int| 0 <= j < t.frames.len() implies (#[trigger] t.frames[j]).pin_count
        == 0 by {
        assert(m.frames[j].pin_count == 0);
    }
    assert(t.file(f).page_count == m.file(f).page_count);
}

/// Work on file `f` that adds page `t` at its end.
pub open spec fn page_added(m: PoolModel, f: FileId, t: Seq<u8>, m2: PoolModel) -> bool {
    &&& worked(m, f, m2)
    &&& m2.file(f).page_count == m.file(f).page_count + 1
    &&& m2.page(f, m.file(f).page_count as u64) == Some(t)
    &&& forall|q: PageId| m.page(f, q) is Some ==> #[trigger] m2.page(f, q) == m.page(f, q)
}

/// A page that is added, filled, and released.
proof fn lemma_new_cycle(m: PoolModel, f: FileId, b: Seq<u8>)
    requires
        framed(m),
        m.registered(f),
        m.new_paged(f).1 is Ok,
        b.len() == m.page_size,
        frame_sound(b, m.file(f).page_count as int),
    ensures
        ({
            let (t, r) = m.new_paged(f);
            let pid = m.file(f).page_count as u64;
            let m1 = t.with_bytes(r->Ok_0, b);
            &&& m1.unpinned(f, pid, true).1 is None
            &&& page_added(m, f, b, m1.unpinned(f, pid, true).0)
        }),
{
    lemma_new_paged(m, f, b);
    let (t, r) = m.new_paged(f);
    let i = r->Ok_0;
    let pid = m.file(f).page_count as u64;
    let m1 = t.with_bytes(i, b);
    lemma_frame_is(m1, -1, f, pid, i);
    lemma_unpinned(m1, f, pid, true);
    let m2 = m1.unpinned(f, pid, true).0;
    lemma_quiet_again(m, t, m1, m2, i);
    assert forall|g: FileId, q: PageId| m.page(g, q) is Some implies #[trigger] m2.page(g, q)
        == m.page(g, q) by {
        assert(m1.page(g, q) == m.page(g, q));
    }
    assert(m2.page(f, pid) == m1.page(f, pid));
    assert forall|g: FileId| #[trigger] m2.registered(g) == m.registered(g) by {
        assert(t.registered(g) == m.registered(g));
    }
    assert forall|g: FileId| g != f && m.registered(g) implies (#[trigger] m2.file(g)).page_count
        == m.file(g).page_count by {
        assert(t.file(g).page_count == m.file(g).page_count);
    }
}

// ── Work on one page ──

/// Appends the rows of a page to `rows`.
fn scan_page(pool: &mut BufferPool, f: FileId, p: PageId, rows: &mut Vec<(Rid, Vec<u8>)>) -> (r:
    DbResult<()>)
    requires
        old(pool).wf(),
        framed(old(pool)@),
        old(pool)@.registered(f),
        no_holes(old(pool)@, f),
    ensures
        final(pool).wf(),
        pages_kept(old(pool)@, f, final(pool)@),
        match r {
            Ok(_) => {
                let s = old(pool)@.page(f, p)->0;
                &&& p < old(pool)@.file(f).page_count
                &&& sealed(s)
                &&& rid_rows(final(rows)@) == rid_rows(old(rows)@) + page_rows(
                    s,
                    p as int,
                    slot_count_in(s) as int,
                )
            },
            Err(e) => fetch_error(old(pool)@, final(pool)@, f, p, e@),
        },
{
    let ghost m = pool@;
    proof {
        lemma_rest_load(m, f, p);
        lemma_loaded(m, f, p);
        lemma_fetched(m, f, p);
        lemma_find_frame(m.frames, f, p, 0);
    }
    match pool.fetch_page(f, p) {
        Ok(page) => {
            proof {
                lemma_read_cycle(m, f, p);
            }
            push_page_rows(&page, p, rows);
        }
        Err(e) => {
            proof {
                lemma_failed_fetch(m, f, p);
            }
            return Err(e);
        }
    }
    pool.unpin(f, p, false)
}

/// The row in a slot of a page.
pub(crate) fn read_on_page(
    pool: &mut BufferPool,
    f: FileId,
    p: PageId,
    slot: SlotIndex,
) -> (r: DbResult<Option<Vec<u8>>>)
    requires
        old(pool).wf(),
        framed(old(pool)@),
        old(pool)@.registered(f),
        no_holes(old(pool)@, f),
    ensures
        final(pool).wf(),
        pages_kept(old(pool)@, f, final(pool)@),
        match r {
            Ok(found) => {
                let s = old(pool)@.page(f, p)->0;
                &&& p < old(pool)@.file(f).page_count
                &&& sealed(s)
                &&& match found {
                    Some(row) => row_in(s, slot as int) == Some(row@),
                    None => row_in(s, slot as int) is None,
                }
            },
            Err(e) => fetch_error(old(pool)@, final(pool)@, f, p, e@),
        },
{
    let ghost m = pool@;
    proof {
        lemma_rest_load(m, f, p);
        lemma_loaded(m, f, p);
        lemma_fetched(m, f, p);
        lemma_find_frame(m.frames, f, p, 0);
    }
    let found: Option<Vec<u8>> = match pool.fetch_page(f, p) {
        Ok(page) => {
            proof {
                lemma_read_cycle(m, f, p);
            }
            match page.read_row(slot) {
                Some(b) => Some(copy_bytes(b)),
                None => None,
            }
        }
        Err(e) => {
            proof {
                lemma_failed_fetch(m, f, p);
            }
            return Err(e);
        }
    };
    match pool.unpin(f, p, false) {
        Ok(_) => Ok(found),
        Err(e) => Err(e),
    }
}

/// Adds a row to a page; gives the slot, if there was room, and the free bytes after.
fn insert_on_page(pool: &mut BufferPool, f: FileId, p: PageId, row: &[u8]) -> (r: DbResult<
    (Option<SlotIndex>, usize),
>)
    requires
        old(pool).wf(),
        framed(old(pool)@),
        old(pool)@.registered(f),
        no_holes(old(pool)@, f),
    ensures
        final(pool).wf(),
        match r {
            Ok((slot, free)) => {
                let s = old(pool)@.page(f, p)->0;
                let t = final(pool)@.page(f, p)->0;
                &&& p < old(pool)@.file(f).page_count
                &&& sealed(s)
                &&& page_wf(s)
                &&& t.len() == s.len()
                &&& page_wf(t)
                &&& page_set(old(pool)@, f, p, t, final(pool)@)
                &&& inserted(s, row@, t, slot)
                &&& free == free_bytes(t)
            },
            Err(e) => {
                &&& pages_kept(old(pool)@, f, final(pool)@)
                &&& fetch_error(old(pool)@, final(pool)@, f, p, e@)
            },
        },
{
    let ghost m = pool@;
    proof {
        lemma_rest_load(m, f, p);
        lemma_loaded(m, f, p);
        lemma_fetched_mut(m, f, p);
    }
    let slot: Option<SlotIndex>;
    let free: usize;
    let ghost t: Seq<u8>;
    match pool.fetch_page_mut(f, p) {
        Ok(page) => {
            slot = insert_row_into(page.buf, row);
            free = free_space_of(page.buf);
            proof {
                t = page.buf@;
                lemma_write_cycle(m, f, p, t, slot is Some);
            }
        }
        Err(e) => {
            proof {
                lemma_failed_fetch(m, f, p);
            }
            return Err(e);
        }
    }
    match pool.unpin(f, p, slot.is_some()) {
        Ok(_) => Ok((slot, free)),
        Err(e) => Err(e),
    }
}

/// Deletes a row of a page; gives whether there was one, and the free bytes after.
fn delete_on_page(pool: &mut BufferPool, f: FileId, p: PageId, slot: SlotIndex) -> (r: DbResult<
    (bool, usize),
>)
    requires
        old(pool).wf(),
        framed(old(pool)@),
        old(pool)@.registered(f),
        no_holes(old(pool)@, f),
    ensures
        final(pool).wf(),
        match r {
            Ok((gone, free)) => {
                let s = old(pool)@.page(f, p)->0;
                let t = final(pool)@.page(f, p)->0;
                &&& p < old(pool)@.file(f).page_count
                &&& sealed(s)
                &&& page_wf(s)
                &&& t.len() == s.len()
                &&& page_wf(t)
                &&& page_set(old(pool)@, f, p, t, final(pool)@)
                &&& deleted(s, slot as int, t, gone)
                &&& free == free_bytes(t)
            },
            Err(e) => {
                &&& pages_kept(old(pool)@, f, final(pool)@)
                &&& fetch_error(old(pool)@, final(pool)@, f, p, e@)
            },
        },
{
    let ghost m = pool@;
    proof {
        lemma_rest_load(m, f, p);
        lemma_loaded(m, f, p);
        lemma_fetched_mut(m, f, p);
    }
    let gone: bool;
    let free: usize;
    match pool.fetch_page_mut(f, p) {
        Ok(page) => {
            gone = delete_row_from(page.buf, slot);
            free = free_space_of(page.buf);
            proof {
                lemma_write_cycle(m, f, p, page.buf@, gone);
            }
        }
        Err(e) => {
            proof {
                lemma_failed_fetch(m, f, p);
            }
            return Err(e);
        }
    }
    match pool.unpin(f, p, gone) {
        Ok(_) => Ok((gone, free)),
        Err(e) => Err(e),
    }
}

/// Replaces a row of a page in its slot; gives how that went, and the free bytes after.
fn update_on_page(
    pool: &mut BufferPool,
    f: FileId,
    p: PageId,
    slot: SlotIndex,
    row: &[u8],
) -> (r: DbResult<(UpdateResult, usize)>)
    requires
        old(pool).wf(),
        framed(old(pool)@),
        old(pool)@.registered(f),
        no_holes(old(pool)@, f),
    ensures
        final(pool).wf(),
        match r {
            Ok((how, free)) => {
                let s = old(pool)@.page(f, p)->0;
                let t = final(pool)@.page(f, p)->0;
                &&& p < old(pool)@.file(f).page_count
                &&& sealed(s)
                &&& page_wf(s)
                &&& t.len() == s.len()
                &&& page_wf(t)
                &&& page_set(old(pool)@, f, p, t, final(pool)@)
                &&& updated(s, slot as int, row@, t, how)
                &&& free == free_bytes(t)
            },
            Err(e) => {
                &&& pages_kept(old(pool)@, f, final(pool)@)
                &&& fetch_error(old(pool)@, final(pool)@, f, p, e@)
            },
        },
{
    let ghost m = pool@;
    proof {
        lemma_rest_load(m, f, p);
        lemma_loaded(m, f, p);
        lemma_fetched_mut(m, f, p);
    }
    let how: UpdateResult;
    let free: usize;
    match pool.fetch_page_mut(f, p) {
        Ok(page) => {
            how = update_row_in(page.buf, slot, row);
            free = free_space_of(page.buf);
            proof {
                lemma_write_cycle(m, f, p, page.buf@, how == UpdateResult::Updated);
            }
        }
        Err(e) => {
            proof {
                lemma_failed_fetch(m, f, p);
            }
            return Err(e);
        }
    }
    match pool.unpin(f, p, how == UpdateResult::Updated) {
        Ok(_) => Ok((how, free)),
        Err(e) => Err(e),
    }
}

/// Adds a page to a file and a row to the page; gives the page, the slot, if there was room, and
/// the free bytes after.
fn insert_on_new_page(pool: &mut BufferPool, f: FileId, row: &[u8]) -> (r: DbResult<
    (PageId, Option<SlotIndex>, usize),
>)
    requires
        old(pool).wf(),
        framed(old(pool)@),
        old(pool)@.registered(f),
        no_holes(old(pool)@, f),
    ensures
        final(pool).wf(),
        ({
            let n = old(pool)@.file(f).page_count;
            match r {
                Ok((pid, slot, free)) => {
                    let t = final(pool)@.page(f, pid)->0;
                    &&& file_fits(n + 1)
                    &&& pid == n
                    &&& t.len() == old(pool)@.page_size
                    &&& page_wf(t)
                    &&& page_added(old(pool)@, f, t, final(pool)@)
                    &&& free == free_bytes(t)
                    &&& match slot {
                        Some(i) => {
                            &&& fresh_room(old(pool)@.page_size, row@.len())
                            &&& first_row(t, n as int, row@, i)
                        },
                        None => {
                            &&& !fresh_room(old(pool)@.page_size, row@.len())
                            &&& is_fresh(t, n as int)
                        },
                    }
                },
                Err(e) => {
                    &&& !file_fits(n + 1)
                    &&& e@ == ErrorModel::Io("file too large"@)
                    &&& pages_kept(old(pool)@, f, final(pool)@)
                },
            }
        }),
{
    let ghost m = pool@;
    proof {
        lemma_new_paged(m, f, Seq::empty());
        assert(m.frames[0].pin_count == 0);
    }
    let pid: PageId;
    let slot: Option<SlotIndex>;
    let free: usize;
    match pool.new_page(f) {
        Ok((id, page)) => {
            pid = id;
            let ghost fresh = page.buf@;
            slot = insert_row_into(page.buf, row);
            free = free_space_of(page.buf);
            proof {
                lemma_fresh_room(fresh, row@.len());
                lemma_new_cycle(m, f, page.buf@);
            }
        }
        Err(e) => {
            return Err(e);
        }
    }
    match pool.unpin(f, pid, true) {
        Ok(_) => Ok((pid, slot, free)),
        Err(e) => Err(e),
    }
}

// ── Work on one table ──

/// A table: the pages of its file as the pool shows them, and its free-space map.
pub open spec fn heap_of(m: PoolModel, f: FileId, fsm: FsmModel) -> HeapModel {
    HeapModel {
        page_size: m.page_size,
        pages: file_log(m, f),
        fsm,
        via: Access::Pool(m.frames.len()),
    }
}

/// Pages that were left alone are as they were.
pub proof fn lemma_log_kept(m: PoolModel, f: FileId, m2: PoolModel)
    requires
        no_holes(m, f),
        pages_kept(m, f, m2),
        m.file(f).page_count <= u64::MAX,
    ensures
        file_log(m2, f) == file_log(m, f),
        no_holes(m2, f),
{
    assert forall|p: u64| p < m2.file(f).page_count implies #[trigger] m2.page(f, p) is Some by {
        assert(m.page(f, p) is Some);
    }
    assert forall|p: int| 0 <= p < m.file(f).page_count implies file_log(m2, f)[p] == file_log(
        m,
        f,
    )[p] by {
        assert(m.page(f, p as u64) is Some);
    }
    assert(file_log(m2, f) =~= file_log(m, f));
}

proof fn lemma_log_set(m: PoolModel, f: FileId, p: PageId, t: Seq<u8>, m2: PoolModel)
    requires
        no_holes(m, f),
        page_set(m, f, p, t, m2),
        p < m.file(f).page_count <= u64::MAX,
    ensures
        file_log(m2, f) == file_log(m, f).update(p as int, t),
        no_holes(m2, f),
{
    assert forall|q: u64| q < m2.file(f).page_count implies #[trigger] m2.page(f, q) is Some by {
        assert(m.page(f, q) is Some);
    }
    assert forall|q: int| 0 <= q < m.file(f).page_count && q != p implies file_log(m2, f)[q]
        == file_log(m, f)[q] by {
        assert(m.page(f, q as u64) is Some);
    }
    assert(file_log(m2, f) =~= file_log(m, f).update(p as int, t));
}

proof fn lemma_log_added(m: PoolModel, f: FileId, t: Seq<u8>, m2: PoolModel)
    requires
        no_holes(m, f),
        page_added(m, f, t, m2),
        m.file(f).page_count < u64::MAX,
    ensures
        file_log(m2, f) == file_log(m, f).push(t),
        no_holes(m2, f),
{
    let n = m.file(f).page_count;
    assert forall|q: u64| q < m2.file(f).page_count implies #[trigger] m2.page(f, q) is Some by {
        if q < n {
            assert(m.page(f, q) is Some);
        }
    }
    assert forall|q: int| 0 <= q < n implies file_log(m2, f)[q] == file_log(m, f)[q] by {
        assert(m.page(f, q as u64) is Some);
    }
    assert(file_log(m2, f) =~= file_log(m, f).push(t));
}

/// One piece of work after another.
proof fn lemma_worked_twice(m: PoolModel, f: FileId, m1: PoolModel, m2: PoolModel)
    requires
        worked(m, f, m1),
        worked(m1, f, m2),
    ensures
        worked(m, f, m2),
{
    assert forall|g: FileId| #[trigger] m2.registered(g) == m.registered(g) by {
        assert(m1.registered(g) == m.registered(g));
    }
    assert forall|g: FileId| g != f && m.registered(g) implies (#[trigger] m2.file(g)).page_count
        == m.file(g).page_count by {
        assert(m1.registered(g));
        assert(m1.file(g).page_count == m.file(g).page_count);
    }
    assert forall|g: FileId, q: PageId| g != f && m.page(g, q) is Some implies
        #[trigger] m2.page(g, q) == m.page(g, q) by {
        assert(m1.page(g, q) == m.page(g, q));
    }
}

/// No work at all.
pub proof fn lemma_worked_none(m: PoolModel, f: FileId)
    requires
        at_rest(m),
    ensures
        worked(m, f, m),
{
}

/// What is asked of a pool with a frame and a file for work on the file.
pub open spec fn ready(m: PoolModel, f: FileId) -> bool {
    &&& framed(m)
    &&& m.registered(f)
    &&& no_holes(m, f)
}

/// Whether `a` is error `b`, but that it may count fewer pages of a file: those on disk.
pub open spec fn error_like(a: ErrorModel, b: ErrorModel) -> bool {
    a == b || exists|p: nat, n: nat, k: nat|
        #![trigger range_text(p, n), range_text(p, k)]
        a == ErrorModel::Corruption(range_text(p, n)) && b == ErrorModel::Corruption(
            range_text(p, k),
        ) && n <= k
}

/// The error of a page that cannot be fetched is that of the table.
pub proof fn lemma_fetch_error(
    m: PoolModel,
    m2: PoolModel,
    f: FileId,
    p: PageId,
    e: ErrorModel,
    fsm: FsmModel,
)
    requires
        ready(m, f),
        fetch_error(m, m2, f, p, e),
    ensures
        heap_of(m, f, fsm).page_error(p as nat) is Some,
        error_like(e, heap_of(m, f, fsm).page_error(p as nat)->0),
{
    let h = heap_of(m, f, fsm);
    if p < m.file(f).page_count {
        assert(h.pages[p as int] == m.page(f, p)->0);
    } else {
        let n = m2.file(f).heap.pages.len();
        assert(e == ErrorModel::Corruption(range_text(p as nat, n)));
        assert(h.page_error(p as nat) == Some(
            ErrorModel::Corruption(range_text(p as nat, h.pages.len())),
        ));
    }
}

/// The page on which storing a row of `len` bytes fails because the file does not have it, if so.
pub open spec fn missing_page(h: HeapModel, len: nat) -> Option<nat> {
    match h.place(len, 0, h.fsm.cats).0 {
        Place::Fail(p, _) => if p >= h.pages.len() && h.via != Access::Pool(0) {
            Some(p)
        } else {
            None
        },
        _ => None,
    }
}

/// The page on which replacing the row at `rid` with one of `len` bytes fails because the file does
/// not have it, if so.
pub open spec fn missing_for_update(h: HeapModel, rid: Rid, len: nat) -> Option<nat> {
    if h.via == Access::Pool(0) {
        None
    } else if rid.page_id >= h.pages.len() {
        Some(rid.page_id as nat)
    } else if h.row(rid) is Some && !can_update(
        h.pages[rid.page_id as int],
        rid.slot as int,
        len,
    ) {
        missing_page(h, len)
    } else {
        None
    }
}

/// Whether an error says that a file does not have a page, and how many pages it has on disk.
pub open spec fn says_missing<T>(r: DbResult<T>, p: nat, on_disk: nat) -> bool {
    r is Err && r->Err_0@ == ErrorModel::Corruption(range_text(p, on_disk))
}

/// What inserting `row` makes of table `m`: table `m2`, and the address of the row.
pub open spec fn stored(m: HeapModel, row: Seq<u8>, m2: HeapModel, r: DbResult<Rid>) -> bool {
    let (place, cats) = m.place(row.len(), 0, m.fsm.cats);
    let n = m.pages.len();
    match place {
        Place::Fail(_, e) => r is Err && error_like(r->Err_0@, e) && m2 == m.with_cats(cats),
        Place::Page(p) => {
            &&& r is Ok
            &&& r->Ok_0.page_id == p
            &&& inserted(m.pages[p], row, m2.pages[p], Some(r->Ok_0.slot))
            &&& m2 == m.with_cats(cats).with_page(p as nat, m2.pages[p])
        },
        Place::NewPage => if !file_fits(n + 1) {
            &&& r is Err
            &&& r->Err_0@ == ErrorModel::Io("file too large"@)
            &&& m2 == m.with_cats(cats)
        } else if m.via == Access::Pool(0) {
            // The page that was counted for the row stays counted, and there is nothing in it.
            &&& r is Err
            &&& r->Err_0@ == pool_full()
            &&& m2 == (HeapModel { pages: m.pages.push(Seq::empty()), ..m.with_cats(cats) })
        } else if !fresh_room(m.page_size, row.len()) {
            // The page that was added for the row stays, empty and not on the map.
            &&& r is Err
            &&& r->Err_0@ == ErrorModel::Catalog("row too large for a single page"@)
            &&& m2 == (HeapModel {
                pages: m.pages.push(m2.pages[n as int]),
                ..m.with_cats(cats)
            })
            &&& is_fresh(m2.pages[n as int], n as int)
            &&& m2.pages[n as int].len() == m.page_size
        } else {
            &&& r is Ok
            &&& r->Ok_0.page_id == n
            &&& m2.pages[n as int].len() == m.page_size
            &&& first_row(m2.pages[n as int], n as int, row, r->Ok_0.slot)
            &&& m2 == m.with_cats(cats).with_page(n, m2.pages[n as int])
        },
    }
}

/// Adds a row to a table.
pub(crate) fn insert_into(
    pool: &mut BufferPool,
    fsm: &mut FreeSpaceMap,
    f: FileId,
    row: &[u8],
) -> (r: DbResult<Rid>)
    requires
        old(pool).wf(),
        ready(old(pool)@, f),
        old(fsm).wf(),
    ensures
        final(pool).wf(),
        final(fsm).wf(),
        worked(old(pool)@, f, final(pool)@),
        no_holes(final(pool)@, f),
        stored(
            heap_of(old(pool)@, f, old(fsm)@),
            row@,
            heap_of(final(pool)@, f, final(fsm)@),
            r,
        ),
        ({
            let p = missing_page(heap_of(old(pool)@, f, old(fsm)@), row@.len());
            p is Some ==> says_missing(r, p->0, final(pool)@.file(f).heap.pages.len())
        }),
{
    let needed: usize = row.len();
    let mut from: usize = 0;
    let ghost m = pool@;
    let ghost h = heap_of(m, f, fsm@);
    proof {
        assert(m.files[f as int] is Some);
        assert(m.file_ok(f as int));
        lemma_worked_none(m, f);
    }
    loop
        invariant
            pool.wf(),
            ready(m, f),
            m.file_ok(f as int),
            ready(pool@, f),
            fsm.wf(),
            m == old(pool)@,
            h == heap_of(m, f, old(fsm)@),
            worked(m, f, pool@),
            pool@.file(f).page_count == m.file(f).page_count,
            needed == row@.len(),
            heap_of(pool@, f, fsm@) == h.with_cats(fsm@.cats),
            h.place(needed as nat, 0, h.fsm.cats) == h.place(
                needed as nat,
                from as int,
                fsm@.cats,
            ),
        ensures
            pool.wf(),
            ready(pool@, f),
            fsm.wf(),
            worked(m, f, pool@),
            pool@.file(f).page_count == m.file(f).page_count,
            heap_of(pool@, f, fsm@) == h.with_cats(fsm@.cats),
            h.place(needed as nat, 0, h.fsm.cats) == (Place::NewPage, fsm@.cats),
        decreases fsm@.cats.len() - from,
    {
        let found: Option<usize> = fsm.first_with(from, fsm.bytes_to_cat(needed));
        proof {
            law_search_is_first(
                fsm@.cats,
                from as int,
                category(h.fsm.page_size, needed as nat),
            );
        }
        let pid: usize = match found {
            Some(p) => p,
            None => {
                break;
            }
        };
        let page_id: u64 = pid as u64;
        let ghost m1 = pool@;
        let ghost h1 = heap_of(m1, f, fsm@);
        let (slot, free) = match insert_on_page(pool, f, page_id, row) {
            Ok(x) => x,
            Err(e) => {
                proof {
                    lemma_fetch_error(m1, pool@, f, page_id, e@, fsm@);
                    lemma_log_kept(m1, f, pool@);
                    lemma_worked_twice(m, f, m1, pool@);
                    assert(h1.page_error(pid as nat) == h.page_error(pid as nat));
                }
                return Err(e);
            }
        };
        let ghost s = h1.pages[pid as int];
        let ghost t = pool@.page(f, page_id)->0;
        proof {
            lemma_log_set(m1, f, page_id, t, pool@);
            lemma_worked_twice(m, f, m1, pool@);
            lemma_free_bytes_bound(t);
            assert(s == m1.page(f, page_id)->0);
            assert(h.page_error(pid as nat) is None);
        }
        fsm.update(pid, free);
        match slot {
            Some(slot) => {
                proof {
                    let h2 = heap_of(pool@, f, fsm@);
                    assert(h2.pages[pid as int] == t);
                    let want = h1.with_page(pid as nat, t);
                    assert(h2.pages =~= want.pages);
                    assert(h2 == want);
                }
                return Ok(Rid { page_id, slot });
            }
            None => {
                proof {
                    assert(t == s);
                    assert(file_log(pool@, f) =~= file_log(m1, f));
                    assert(heap_of(pool@, f, fsm@) == h.with_cats(fsm@.cats));
                }
                from = pid + 1;
            }
        }
    }
    let ghost m1 = pool@;
    let ghost cats = fsm@.cats;
    let ghost h1 = heap_of(m1, f, fsm@);
    let (new_pid, slot, free) = match insert_on_new_page(pool, f, row) {
        Ok(x) => x,
        Err(e) => {
            proof {
                lemma_log_kept(m1, f, pool@);
                lemma_worked_twice(m, f, m1, pool@);
            }
            return Err(e);
        }
    };
    let ghost t = pool@.page(f, new_pid)->0;
    proof {
        lemma_log_added(m1, f, t, pool@);
        lemma_worked_twice(m, f, m1, pool@);
        lemma_free_bytes_bound(t);
        assert(file_log(pool@, f)[new_pid as int] == t);
    }
    match slot {
        Some(slot) => {
            fsm.extend(new_pid as usize + 1);
            fsm.update(new_pid as usize, free);
            proof {
                let h2 = heap_of(pool@, f, fsm@);
                let want = h1.with_page(new_pid as nat, t);
                assert(h2.pages =~= want.pages);
                assert(h2 == want);
            }
            Ok(Rid { page_id: new_pid, slot })
        }
        None => Err(catalog_error("row too large for a single page")),
    }
}

/// What deleting the row at `rid` makes of table `m`: table `m2`, and whether there was a row.
/// The free bytes of the page are set right on the map in any case.
pub open spec fn removed(m: HeapModel, rid: Rid, m2: HeapModel, r: DbResult<bool>) -> bool {
    let p = rid.page_id as int;
    match m.page_error(rid.page_id as nat) {
        Some(e) => r is Err && error_like(r->Err_0@, e) && m2 == m,
        None => {
            &&& r is Ok
            &&& deleted(m.pages[p], rid.slot as int, m2.pages[p], r->Ok_0)
            &&& m2 == m.with_page(p as nat, m2.pages[p])
        },
    }
}

/// Deletes a row of a table.
pub(crate) fn delete_from(
    pool: &mut BufferPool,
    fsm: &mut FreeSpaceMap,
    f: FileId,
    rid: Rid,
) -> (r: DbResult<bool>)
    requires
        old(pool).wf(),
        ready(old(pool)@, f),
        old(fsm).wf(),
    ensures
        final(pool).wf(),
        final(fsm).wf(),
        worked(old(pool)@, f, final(pool)@),
        no_holes(final(pool)@, f),
        removed(
            heap_of(old(pool)@, f, old(fsm)@),
            rid,
            heap_of(final(pool)@, f, final(fsm)@),
            r,
        ),
        rid.page_id >= old(pool)@.file(f).page_count ==> says_missing(
            r,
            rid.page_id as nat,
            final(pool)@.file(f).heap.pages.len(),
        ),
{
    let ghost m = pool@;
    let ghost h = heap_of(m, f, fsm@);
    proof {
        assert(m.files[f as int] is Some);
        assert(m.file_ok(f as int));
    }
    let (gone, free) = match delete_on_page(pool, f, rid.page_id, rid.slot) {
        Ok(x) => x,
        Err(e) => {
            proof {
                lemma_fetch_error(m, pool@, f, rid.page_id, e@, fsm@);
                lemma_log_kept(m, f, pool@);
            }
            return Err(e);
        }
    };
    let ghost t = pool@.page(f, rid.page_id)->0;
    proof {
        lemma_log_set(m, f, rid.page_id, t, pool@);
        lemma_free_bytes_bound(t);
        assert(h.pages[rid.page_id as int] == m.page(f, rid.page_id)->0);
    }
    fsm.update(rid.page_id as usize, free);
    proof {
        let h2 = heap_of(pool@, f, fsm@);
        assert(h2.pages[rid.page_id as int] == t);
        let want = h.with_page(rid.page_id as nat, t);
        assert(h2.pages =~= want.pages);
        assert(h2 == want);
    }
    Ok(gone)
}

/// A row that was stored is read back from its address, which held no row before, and every other
/// address reads as it did.
pub proof fn law_stored_row_is_read_back(m: HeapModel, row: Seq<u8>, m2: HeapModel, rid: Rid)
    requires
        heap_ok(m),
        stored(m, row, m2, Ok(rid)),
    ensures
        m.row(rid) is None,
        m2.row(rid) == Some(row),
        forall|other: Rid| other != rid ==> #[trigger] m2.row(other) == m.row(other),
{
    lemma_place(m, row.len(), 0, m.fsm.cats);
    if let Place::Page(p) = m.place(row.len(), 0, m.fsm.cats).0 {
        assert(page_sound(m.pages[p], p));
    }
    assert(row_inserted(m, row, m2, Ok(rid)));
    law_heap_insert_then_read(m, row, m2, rid);
}

/// A row that was removed is not read any more, and every other address reads as it did.
pub proof fn law_removed_row_is_gone(m: HeapModel, rid: Rid, m2: HeapModel, gone: bool)
    requires
        heap_ok(m),
        removed(m, rid, m2, Ok(gone)),
    ensures
        gone == (m.row(rid) is Some),
        m2.row(rid) is None,
        forall|other: Rid| other != rid ==> #[trigger] m2.row(other) == m.row(other),
{
    let p = rid.page_id as int;
    assert(page_sound(m.pages[p], p));
    if gone {
        law_delete_then_read(m.pages[p], rid.slot as int, m2.pages[p]);
    }
}

/// What setting the row at `rid` to `row` makes of table `m`: table `m2`, and the address of the
/// row. A row that its page has room for keeps its address; another one moves: it is stored
/// elsewhere, and then deleted where it was.
pub open spec fn replaced(
    m: HeapModel,
    rid: Rid,
    row: Seq<u8>,
    m2: HeapModel,
    r: DbResult<Rid>,
) -> bool {
    let p = rid.page_id as int;
    match m.page_error(rid.page_id as nat) {
        Some(e) => r is Err && error_like(r->Err_0@, e) && m2 == m,
        None => if row_in(m.pages[p], rid.slot as int) is None {
            &&& r is Err
            &&& r->Err_0@ == ErrorModel::Corruption(no_row_text(rid))
            &&& m2 == m
        } else if can_update(m.pages[p], rid.slot as int, row.len()) {
            &&& r is Ok
            &&& r->Ok_0 == rid
            &&& updated(m.pages[p], rid.slot as int, row, m2.pages[p], UpdateResult::Updated)
            &&& m2 == m.with_page(p as nat, m2.pages[p])
        } else {
            exists|m1: HeapModel, r1: DbResult<Rid>| #[trigger]
                stored(m, row, m1, r1) && moved(m1, rid, r1, m2, r)
        },
    }
}

/// The second half of moving a row: where it was stored, the old row is deleted.
pub open spec fn moved(
    m1: HeapModel,
    rid: Rid,
    r1: DbResult<Rid>,
    m2: HeapModel,
    r: DbResult<Rid>,
) -> bool {
    match r1 {
        Ok(new_rid) => r is Ok && r->Ok_0 == new_rid && removed(m1, rid, m2, Ok(true)),
        Err(e) => r is Err && r->Err_0@ == e@ && m2 == m1,
    }
}

/// Replaces a row of a table.
pub(crate) fn update_in(
    pool: &mut BufferPool,
    fsm: &mut FreeSpaceMap,
    f: FileId,
    rid: Rid,
    row: &[u8],
) -> (r: DbResult<Rid>)
    requires
        old(pool).wf(),
        ready(old(pool)@, f),
        old(fsm).wf(),
    ensures
        final(pool).wf(),
        final(fsm).wf(),
        worked(old(pool)@, f, final(pool)@),
        no_holes(final(pool)@, f),
        replaced(
            heap_of(old(pool)@, f, old(fsm)@),
            rid,
            row@,
            heap_of(final(pool)@, f, final(fsm)@),
            r,
        ),
        ({
            let p = missing_for_update(heap_of(old(pool)@, f, old(fsm)@), rid, row@.len());
            p is Some ==> says_missing(r, p->0, final(pool)@.file(f).heap.pages.len())
        }),
{
    let ghost m = pool@;
    let ghost h = heap_of(m, f, fsm@);
    let ghost p = rid.page_id as int;
    proof {
        assert(m.files[f as int] is Some);
        assert(m.file_ok(f as int));
        lemma_log_sound(m, f);
    }
    let (how, free) = match update_on_page(pool, f, rid.page_id, rid.slot, row) {
        Ok(x) => x,
        Err(e) => {
            proof {
                lemma_fetch_error(m, pool@, f, rid.page_id, e@, fsm@);
                lemma_log_kept(m, f, pool@);
            }
            return Err(e);
        }
    };
    let ghost s = h.pages[p];
    let ghost t = pool@.page(f, rid.page_id)->0;
    proof {
        lemma_log_set(m, f, rid.page_id, t, pool@);
        lemma_free_bytes_bound(t);
        assert(s == m.page(f, rid.page_id)->0);
        assert(h.page_error(p as nat) is None);
    }
    match how {
        UpdateResult::Updated => {
            fsm.update(rid.page_id as usize, free);
            proof {
                let h2 = heap_of(pool@, f, fsm@);
                assert(h2.pages[p] == t);
                let want = h.with_page(p as nat, t);
                assert(h2.pages =~= want.pages);
                assert(h2 == want);
            }
            Ok(rid)
        }
        UpdateResult::NotFound => {
            proof {
                assert(t == s);
                assert(file_log(pool@, f) =~= file_log(m, f));
            }
            Err(no_row_error(rid))
        }
        UpdateResult::NotEnoughSpace => {
            let ghost m1 = pool@;
            proof {
                assert(t == s);
                assert(file_log(m1, f) =~= file_log(m, f));
                assert(heap_of(m1, f, fsm@) == h);
            }
            let stored_at: DbResult<Rid> = insert_into(pool, fsm, f, row);
            let ghost m2 = pool@;
            let ghost h2 = heap_of(m2, f, fsm@);
            proof {
                lemma_worked_twice(m, f, m1, m2);
            }
            match stored_at {
                Ok(new_rid) => {
                    proof {
                        law_stored_row_is_read_back(h, row@, h2, new_rid);
                        assert(new_rid != rid);
                        assert(h2.row(rid) == h.row(rid));
                    }
                    let gone: DbResult<bool> = delete_from(pool, fsm, f, rid);
                    proof {
                        lemma_worked_twice(m, f, m2, pool@);
                        assert(stored(h, row@, h2, Ok(new_rid)));
                        assert(gone is Ok && gone->Ok_0);
                        assert(removed(h2, rid, heap_of(pool@, f, fsm@), Ok(true)));
                        assert(moved(
                            h2,
                            rid,
                            Ok(new_rid),
                            heap_of(pool@, f, fsm@),
                            Ok(new_rid),
                        ));
                    }
                    Ok(new_rid)
                }
                Err(e) => {
                    proof {
                        assert(stored(h, row@, h2, Err(e)));
                        assert(moved(h2, rid, Err(e), h2, Err(e)));
                    }
                    Err(e)
                }
            }
        }
    }
}

/// The pages that a pool shows of a file are sound.
pub proof fn lemma_log_sound(m: PoolModel, f: FileId)
    requires
        at_rest(m),
        m.registered(f),
        no_holes(m, f),
    ensures
        pages_sound(file_log(m, f)),
        forall|p: int|
            0 <= p < file_log(m, f).len() ==> (#[trigger] file_log(m, f)[p]).len() == m.page_size,
{
    assert(m.files[f as int] is Some);
    assert(m.file_ok(f as int));
    assert forall|p: int| 0 <= p < file_log(m, f).len() implies page_sound(
        #[trigger] file_log(m, f)[p],
        p,
    ) && file_log(m, f)[p].len() == m.page_size by {
        let q = p as u64;
        assert(m.page(f, q) is Some);
        lemma_find_frame(m.frames, f, q, 0);
        if m.resident(f, q) {
            let i = m.frame_of(f, q);
            assert(m.frames[i].in_use);
            assert(m.frame_ok(i));
            assert(m.bytes[i].len() == m.page_size);
        } else {
            assert(page_sound(m.file(f).heap.pages[p], p));
        }
    }
}

/// All rows of a table, with their addresses.
pub(crate) fn scan_file(pool: &mut BufferPool, f: FileId, fsm: Ghost<FsmModel>) -> (r: DbResult<
    Vec<(Rid, Vec<u8>)>,
>)
    requires
        old(pool).wf(),
        ready(old(pool)@, f),
    ensures
        final(pool).wf(),
        worked(old(pool)@, f, final(pool)@),
        no_holes(final(pool)@, f),
        file_log(final(pool)@, f) == file_log(old(pool)@, f),
        match r {
            Ok(rows) => {
                let h = heap_of(old(pool)@, f, fsm@);
                &&& h.scan_error(0) is None
                &&& rid_rows(rows@) == all_rows(h.pages, h.pages.len() as int)
            },
            Err(e) => heap_of(old(pool)@, f, fsm@).scan_error(0) == Some(e@),
        },
{
    let ghost m = pool@;
    let ghost h = heap_of(m, f, fsm@);
    let page_count: u64 = match pool.file_page_count(f) {
        Ok(n) => n,
        Err(e) => {
            return Err(e);
        }
    };
    proof {
        assert(m.files[f as int] is Some);
        assert(m.file_ok(f as int));
        lemma_worked_none(m, f);
    }
    let mut rows: Vec<(Rid, Vec<u8>)> = Vec::new();
    assert(rid_rows(rows@) =~= all_rows(h.pages, 0));
    let mut pid: u64 = 0;
    while pid < page_count
        invariant
            pool.wf(),
            ready(pool@, f),
            ready(m, f),
            m == old(pool)@,
            h == heap_of(m, f, fsm@),
            worked(m, f, pool@),
            file_log(pool@, f) == file_log(m, f),
            pool@.file(f).page_count == m.file(f).page_count == page_count,
            pid <= page_count,
            h.scan_error(0) == h.scan_error(pid as nat),
            rid_rows(rows@) == all_rows(h.pages, pid as int),
        decreases page_count - pid,
    {
        let ghost m1 = pool@;
        let scanned: DbResult<()> = scan_page(pool, f, pid, &mut rows);
        proof {
            lemma_log_kept(m1, f, pool@);
            lemma_worked_twice(m, f, m1, pool@);
            assert(file_log(m1, f)[pid as int] == m1.page(f, pid)->0);
        }
        match scanned {
            Ok(_) => {}
            Err(e) => {
                return Err(e);
            }
        }
        pid += 1;
    }
    Ok(rows)
}

// ── Laws of tables ──

/// Whether the pages of a table can be looked at: their pool has no frame, so that none is, or they
/// have room for a checksum.
pub open spec fn touchable(h: HeapModel) -> bool {
    h.via == Access::Pool(0) || h.page_size >= 17
}

/// Whether all pages of a table can be looked at.
pub open spec fn scannable(h: HeapModel) -> bool {
    h.pages.len() == 0 || touchable(h)
}

/// The pages of a table go through a pool, and where that has a frame they are sound and of one
/// size.
pub open spec fn heap_ok(h: HeapModel) -> bool {
    &&& h.via is Pool
    &&& file_fits(h.pages.len())
    &&& h.via != Access::Pool(0) ==> {
        &&& pages_sound(h.pages)
        &&& forall|p: int| 0 <= p < h.pages.len() ==> (#[trigger] h.pages[p]).len() == h.page_size
    }
}

/// Storing a row keeps a table sound, and readable where it was.
pub proof fn law_storing_keeps_the_table(m: HeapModel, row: Seq<u8>, m2: HeapModel, rid: Rid)
    requires
        heap_ok(m),
        stored(m, row, m2, Ok(rid)),
    ensures
        heap_ok(m2),
        readable(m) ==> readable(m2),
{
    let (place, cats) = m.place(row.len(), 0, m.fsm.cats);
    lemma_place(m, row.len(), 0, m.fsm.cats);
    let p = rid.page_id as int;
    let t = m2.pages[p];
    if place is NewPage {
        let f = choose|f: Seq<u8>|
            #![trigger is_fresh(f, p)]
            f.len() == t.len() && is_fresh(f, p) && inserted(f, row, t, Some(rid.slot));
        assert(inserted(f, row, t, Some(rid.slot)));
    } else {
        assert(page_sound(m.pages[p], p));
    }
    assert forall|q: int| 0 <= q < m2.pages.len() implies page_sound(
        #[trigger] m2.pages[q],
        q,
    ) && m2.pages[q].len() == m2.page_size by {
        if q != p {
            assert(m2.pages[q] == m.pages[q]);
        }
    }
    if readable(m) {
        assert forall|q: nat| q < m2.pages.len() implies #[trigger] m2.page_error(q) is None by {
            if q != p {
                assert(m.page_error(q) is None);
                assert(m2.pages[q as int] == m.pages[q as int]);
            }
        }
    }
}

/// Deleting a row keeps a table sound, and readable where it was.
pub proof fn law_removing_keeps_the_table(m: HeapModel, rid: Rid, m2: HeapModel, gone: bool)
    requires
        heap_ok(m),
        removed(m, rid, m2, Ok(gone)),
    ensures
        heap_ok(m2),
        readable(m) ==> readable(m2),
{
    let p = rid.page_id as int;
    assert(page_sound(m.pages[p], p));
    assert forall|q: int| 0 <= q < m2.pages.len() implies page_sound(
        #[trigger] m2.pages[q],
        q,
    ) && m2.pages[q].len() == m2.page_size by {
        if q != p {
            assert(m2.pages[q] == m.pages[q]);
        }
    }
    if readable(m) {
        assert forall|q: nat| q < m2.pages.len() implies #[trigger] m2.page_error(q) is None by {
            assert(m.page_error(q) is None);
            if q != p {
                assert(m2.pages[q as int] == m.pages[q as int]);
            }
        }
    }
}

/// A row that was replaced is read back from its new address, which is the old one or is on
/// another page and held no row before; where the address is new, there is none at the old one any
/// more; and every other address reads as it did. The table stays sound, and readable where it
/// was.
pub proof fn law_replaced_row_is_read_back(
    m: HeapModel,
    rid: Rid,
    row: Seq<u8>,
    m2: HeapModel,
    new_rid: Rid,
)
    requires
        heap_ok(m),
        replaced(m, rid, row, m2, Ok(new_rid)),
    ensures
        m.row(rid) is Some,
        m2.row(new_rid) == Some(row),
        new_rid != rid ==> {
            &&& new_rid.page_id != rid.page_id
            &&& m.row(new_rid) is None
            &&& m2.row(rid) is None
        },
        forall|other: Rid|
            other != rid && other != new_rid ==> #[trigger] m2.row(other) == m.row(other),
        heap_ok(m2),
        readable(m) ==> readable(m2),
{
    let p = rid.page_id as int;
    assert(page_sound(m.pages[p], p));
    if can_update(m.pages[p], rid.slot as int, row.len()) {
        law_update_then_read(m.pages[p], rid.slot as int, row, m2.pages[p]);
        assert forall|other: Rid| other != rid implies #[trigger] m2.row(other) == m.row(other) by {
            if other.page_id != rid.page_id && other.page_id < m.pages.len() {
                assert(m2.pages[other.page_id as int] == m.pages[other.page_id as int]);
            }
        }
        assert forall|q: int| 0 <= q < m2.pages.len() implies page_sound(
            #[trigger] m2.pages[q],
            q,
        ) && m2.pages[q].len() == m2.page_size by {
            if q != p {
                assert(m2.pages[q] == m.pages[q]);
            }
        }
        if readable(m) {
            assert forall|q: nat| q < m2.pages.len() implies #[trigger] m2.page_error(
                q,
            ) is None by {
                assert(m.page_error(q) is None);
                if q != p {
                    assert(m2.pages[q as int] == m.pages[q as int]);
                }
            }
        }
    } else {
        let (m1, r1) = choose|m1: HeapModel, r1: DbResult<Rid>| #[trigger]
            stored(m, row, m1, r1) && moved(m1, rid, r1, m2, Ok(new_rid));
        assert(stored(m, row, m1, r1) && moved(m1, rid, r1, m2, Ok(new_rid)));
        assert(r1 == Ok::<Rid, Error>(new_rid));
        lemma_place(m, row.len(), 0, m.fsm.cats);
        law_stored_row_is_read_back(m, row, m1, new_rid);
        law_storing_keeps_the_table(m, row, m1, new_rid);
        law_removed_row_is_gone(m1, rid, m2, true);
        law_removing_keeps_the_table(m1, rid, m2, true);
    }
}

} // verus!
