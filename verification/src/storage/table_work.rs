//! Work on a table through its pool, whether or not the pool has a frame.
//!
//! A pool without a frame can show no page: whatever needs one fails, and adding a row for which a
//! page would be made counts that page all the same.

use vstd::prelude::*;
use crate::error::{DbResult, Error, ErrorModel};
use crate::storage::fsm::{category, law_search_is_first, FreeSpaceMap, FsmModel};
use crate::storage::heap::{all_rows, file_fits, no_row_error, no_row_text, pool_full, rid_rows,
    Access, Place, Rid};
use crate::storage::page::PageId;
use crate::storage::pool::BufferPool;
use crate::storage::pool_model::{find_frame, find_free, lemma_grown, FileId, PoolModel};
use crate::storage::table_file::{at_rest, delete_from, file_log, heap_of, insert_into,
    lemma_fetch_error, lemma_log_kept, lemma_worked_none, missing_for_update, missing_page,
    no_holes, read_on_page, removed, replaced, says_missing, scan_file, stored, update_in, worked};

verus! {

/// What is asked of a pool and a file for work on the file.
pub open spec fn attached(m: PoolModel, f: FileId) -> bool {
    &&& at_rest(m)
    &&& m.registered(f)
    &&& m.frames.len() > 0 ==> no_holes(m, f)
}

/// What a pool without a frame makes of calls: no page can be fetched or added.
proof fn lemma_frameless(m: PoolModel, f: FileId, p: PageId)
    requires
        at_rest(m),
        m.frames.len() == 0,
        m.registered(f),
    ensures
        !m.resident(f, p),
        m.fetched(f, p) == (m, Err::<int, ErrorModel>(pool_full())),
        m.fetched_mut(f, p) == (m, Err::<int, ErrorModel>(pool_full())),
        m.new_paged(f) == if file_fits(m.file(f).page_count + 1) {
            (m.grown(f), Err::<int, ErrorModel>(pool_full()))
        } else {
            (m, Err::<int, ErrorModel>(ErrorModel::Io("file too large"@)))
        },
{
    assert(m.lru.len() == 0) by {
        if m.lru.len() > 0 {
            assert(m.lru[0] < m.frames.len());
        }
    }
    assert(find_frame(m.frames, f, p, 0) == 0);
    assert(find_free(m.frames, 0) == 0);
    assert(find_free(m.grown(f).frames, 0) == 0);
}

/// What counting one page more in a file of a pool without a frame makes of the file.
proof fn lemma_frameless_grown(m: PoolModel, f: FileId)
    requires
        at_rest(m),
        m.frames.len() == 0,
        m.registered(f),
        file_fits(m.file(f).page_count + 1),
    ensures
        worked(m, f, m.grown(f)),
        m.grown(f).registered(f),
        file_log(m.grown(f), f) == file_log(m, f).push(Seq::empty()),
        m.grown(f).file(f).heap == m.file(f).heap,
{
    let t = m.grown(f);
    lemma_grown(m, f);
    assert(m.files[f as int] is Some);
    assert(m.file_ok(f as int));
    let n = m.file(f).page_count;
    assert forall|g: FileId, q: PageId| #[trigger] t.page(g, q) == m.page(g, q) by {
        assert(find_frame(m.frames, g, q, 0) == 0);
    }
    assert(file_log(t, f) =~= file_log(m, f).push(Seq::empty())) by {
        assert forall|p: int| 0 <= p < n implies file_log(t, f)[p] == file_log(m, f)[p] by {
            assert(t.page(f, p as u64) == m.page(f, p as u64));
        }
        assert(find_frame(t.frames, f, n as u64, 0) == 0);
    }
}

/// All rows of a table, with their addresses.
pub(crate) fn scan_rows(pool: &mut BufferPool, f: FileId, fsm: Ghost<FsmModel>) -> (r: DbResult<
    Vec<(Rid, Vec<u8>)>,
>)
    requires
        old(pool).wf(),
        attached(old(pool)@, f),
        old(pool)@.file(f).page_count > 0 ==> old(pool)@.can_add(f),
    ensures
        final(pool).wf(),
        attached(final(pool)@, f),
        worked(old(pool)@, f, final(pool)@),
        file_log(final(pool)@, f) == file_log(old(pool)@, f),
        match r {
            Ok(rows) => {
                let h = heap_of(old(pool)@, f, fsm@);
                &&& h.scan_error(0) is None
                &&& rid_rows(rows@) == all_rows(h.pages, h.pages.len() as int)
            },
            Err(e) => heap_of(old(pool)@, f, fsm@).scan_error(0) == Some(e@),
        },
{
    let ghost m = pool@;
    proof {
        lemma_worked_none(m, f);
    }
    let page_count: u64 = match pool.file_page_count(f) {
        Ok(n) => n,
        Err(e) => {
            return Err(e);
        }
    };
    let rows: Vec<(Rid, Vec<u8>)> = Vec::new();
    if page_count > 0 {
        if pool.capacity() > 0 {
            return scan_file(pool, f, fsm);
        }
        proof {
            lemma_frameless(m, f, 0);
        }
        match pool.fetch_page(f, 0) {
            Ok(_) => {}
            Err(e) => {
                return Err(e);
            }
        }
    }
    assert(rid_rows(rows@) =~= all_rows(file_log(m, f), 0));
    Ok(rows)
}

/// The row at `rid` of a table.
pub(crate) fn find_row(pool: &mut BufferPool, f: FileId, rid: Rid, fsm: Ghost<FsmModel>) -> (r:
    DbResult<Vec<u8>>)
    requires
        old(pool).wf(),
        attached(old(pool)@, f),
        old(pool)@.can_add(f),
    ensures
        final(pool).wf(),
        attached(final(pool)@, f),
        worked(old(pool)@, f, final(pool)@),
        file_log(final(pool)@, f) == file_log(old(pool)@, f),
        ({
            let h = heap_of(old(pool)@, f, fsm@);
            match r {
                Ok(row) => h.row(rid) == Some(row@),
                Err(e) => {
                    &&& h.row(rid) is None
                    &&& if rid.page_id >= h.pages.len() && h.via != Access::Pool(0) {
                        says_missing(
                            r,
                            rid.page_id as nat,
                            final(pool)@.file(f).heap.pages.len(),
                        )
                    } else {
                        e@ == match h.page_error(rid.page_id as nat) {
                            Some(pe) => pe,
                            None => ErrorModel::Corruption(no_row_text(rid)),
                        }
                    }
                },
            }
        }),
{
    let ghost m = pool@;
    proof {
        assert(m.files[f as int] is Some);
        assert(m.file_ok(f as int));
        lemma_worked_none(m, f);
    }
    if pool.capacity() == 0 {
        proof {
            lemma_frameless(m, f, rid.page_id);
        }
        return match pool.fetch_page(f, rid.page_id) {
            Ok(_) => Err(no_row_error(rid)),
            Err(e) => Err(e),
        };
    }
    let found: DbResult<Option<Vec<u8>>> = read_on_page(pool, f, rid.page_id, rid.slot);
    proof {
        lemma_log_kept(m, f, pool@);
        if rid.page_id < m.file(f).page_count {
            assert(m.page(f, rid.page_id) is Some);
            assert(file_log(m, f)[rid.page_id as int] == m.page(f, rid.page_id)->0);
        }
    }
    match found {
        Ok(Some(row)) => Ok(row),
        Ok(None) => Err(no_row_error(rid)),
        Err(e) => {
            proof {
                lemma_fetch_error(m, pool@, f, rid.page_id, e@, fsm@);
            }
            Err(e)
        }
    }
}

/// Adds a row to a table.
pub(crate) fn add_row(
    pool: &mut BufferPool,
    fsm: &mut FreeSpaceMap,
    f: FileId,
    row: &[u8],
) -> (r: DbResult<Rid>)
    requires
        old(pool).wf(),
        attached(old(pool)@, f),
        old(pool)@.can_add(f),
        old(fsm).wf(),
    ensures
        final(pool).wf(),
        final(fsm).wf(),
        attached(final(pool)@, f),
        worked(old(pool)@, f, final(pool)@),
        stored(
            heap_of(old(pool)@, f, old(fsm)@),
            row@,
            heap_of(final(pool)@, f, final(fsm)@),
            r,
        ),
        ({
            let p = missing_page(heap_of(old(pool)@, f, old(fsm)@), row@.len());
            p is Some ==> says_missing(r, p->0, final(pool)@.file(f).heap.pages.len())
        }),
{
    let ghost m = pool@;
    let ghost h = heap_of(m, f, fsm@);
    if pool.capacity() > 0 {
        return insert_into(pool, fsm, f, row);
    }
    proof {
        assert(m.files[f as int] is Some);
        assert(m.file_ok(f as int));
        lemma_worked_none(m, f);
    }
    match fsm.first_with(0, fsm.bytes_to_cat(row.len())) {
        Some(p) => {
            proof {
                lemma_frameless(m, f, p as u64);
                law_search_is_first(fsm@.cats, 0, category(fsm@.page_size, row@.len()));
                assert(h.place(row@.len(), 0, h.fsm.cats) == (
                    Place::Fail(p as nat, pool_full()),
                    h.fsm.cats,
                ));
                assert(h.with_cats(h.fsm.cats) == h);
            }
            match pool.fetch_page_mut(f, p as u64) {
                // A pool without a frame lends none.
                Ok(_) => Err(Error::Io("no frame".to_owned())),
                Err(e) => Err(e),
            }
        }
        None => {
            proof {
                lemma_frameless(m, f, 0);
                assert(h.place(row@.len(), 0, h.fsm.cats) == (Place::NewPage, h.fsm.cats));
                assert(h.with_cats(h.fsm.cats) == h);
                if file_fits(m.file(f).page_count + 1) {
                    lemma_frameless_grown(m, f);
                }
            }
            match pool.new_page(f) {
                // A pool without a frame lends none.
                Ok(_) => Err(Error::Io("no frame".to_owned())),
                Err(e) => Err(e),
            }
        }
    }
}

/// Deletes a row of a table.
pub(crate) fn remove_row(
    pool: &mut BufferPool,
    fsm: &mut FreeSpaceMap,
    f: FileId,
    rid: Rid,
) -> (r: DbResult<bool>)
    requires
        old(pool).wf(),
        attached(old(pool)@, f),
        old(pool)@.can_add(f),
        old(fsm).wf(),
    ensures
        final(pool).wf(),
        final(fsm).wf(),
        attached(final(pool)@, f),
        worked(old(pool)@, f, final(pool)@),
        removed(
            heap_of(old(pool)@, f, old(fsm)@),
            rid,
            heap_of(final(pool)@, f, final(fsm)@),
            r,
        ),
        old(pool)@.frames.len() > 0 && rid.page_id >= old(pool)@.file(f).page_count
            ==> says_missing(r, rid.page_id as nat, final(pool)@.file(f).heap.pages.len()),
{
    let ghost m = pool@;
    if pool.capacity() > 0 {
        return delete_from(pool, fsm, f, rid);
    }
    proof {
        lemma_frameless(m, f, rid.page_id);
        lemma_worked_none(m, f);
    }
    match pool.fetch_page_mut(f, rid.page_id) {
        Ok(_) => Err(no_row_error(rid)),
        Err(e) => Err(e),
    }
}

/// Replaces a row of a table.
pub(crate) fn replace_row(
    pool: &mut BufferPool,
    fsm: &mut FreeSpaceMap,
    f: FileId,
    rid: Rid,
    row: &[u8],
) -> (r: DbResult<Rid>)
    requires
        old(pool).wf(),
        attached(old(pool)@, f),
        old(pool)@.can_add(f),
        old(fsm).wf(),
    ensures
        final(pool).wf(),
        final(fsm).wf(),
        attached(final(pool)@, f),
        worked(old(pool)@, f, final(pool)@),
        replaced(
            heap_of(old(pool)@, f, old(fsm)@),
            rid,
            row@,
            heap_of(final(pool)@, f, final(fsm)@),
            r,
        ),
        ({
            let p = missing_for_update(heap_of(old(pool)@, f, old(fsm)@), rid, row@.len());
            p is Some ==> says_missing(r, p->0, final(pool)@.file(f).heap.pages.len())
        }),
{
    let ghost m = pool@;
    if pool.capacity() > 0 {
        return update_in(pool, fsm, f, rid, row);
    }
    proof {
        lemma_frameless(m, f, rid.page_id);
        lemma_worked_none(m, f);
    }
    match pool.fetch_page_mut(f, rid.page_id) {
        Ok(_) => Err(no_row_error(rid)),
        Err(e) => Err(e),
    }
}

} // verus!
