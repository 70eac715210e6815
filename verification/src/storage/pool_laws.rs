//! What any run of calls of a buffer pool leaves alone.

use vstd::prelude::*;
use crate::storage::heap::{file_fits, HeapModel};
use crate::storage::page::PageId;
use crate::storage::pool::lemma_registered;
use crate::storage::pool_model::{frame_sound, lemma_dropped, lemma_evicted, lemma_fetched,
    lemma_fetched_mut, lemma_find_frame, lemma_flushed, lemma_flushed_to, lemma_grown,
    lemma_new_paged, lemma_unpinned, lemma_with_bytes, FileId, FileModel, FrameMeta, LatchMode,
    PoolModel};

verus! {

/// A call of a buffer pool. One that hands out a page to write has the bytes that were written.
pub enum PoolCall {
    Register(HeapModel),
    Fetch(FileId, PageId),
    Write(FileId, PageId, Seq<u8>),
    Add(FileId, Seq<u8>),
    Unpin(FileId, PageId, bool),
    FlushPage(FileId, PageId),
    FlushAll,
    Drop(FileId),
}

/// The pool after a call.
pub open spec fn called(m: PoolModel, c: PoolCall) -> PoolModel {
    match c {
        PoolCall::Register(h) => if h.page_size == m.page_size {
            PoolModel {
                files: m.files.push(Some(FileModel { heap: h, page_count: h.pages.len() })),
                ..m
            }
        } else {
            m
        },
        PoolCall::Fetch(f, p) => m.fetched(f, p).0,
        PoolCall::Write(f, p, b) => match m.fetched_mut(f, p) {
            (t, Ok(i)) => t.with_bytes(i, b),
            (t, Err(_)) => t,
        },
        PoolCall::Add(f, b) => match m.new_paged(f) {
            (t, Ok(i)) => t.with_bytes(i, b),
            (t, Err(_)) => t,
        },
        PoolCall::Unpin(f, p, dirty) => m.unpinned(f, p, dirty).0,
        PoolCall::FlushPage(f, p) => if m.resident(f, p) {
            m.flushed(m.frame_of(f, p))
        } else {
            m
        },
        PoolCall::FlushAll => m.flushed_to(m.frames.len() as int),
        PoolCall::Drop(f) => m.dropped(f),
    }
}

/// What a call asks of the pool and of what is handed to it.
pub open spec fn call_ok(m: PoolModel, c: PoolCall) -> bool {
    match c {
        PoolCall::Register(h) => {
            &&& m.takes(h)
            &&& file_fits(h.pages.len())
            &&& h.pages.len() <= u64::MAX
            &&& forall|p: int|
                0 <= p < h.pages.len() ==> (#[trigger] h.pages[p]).len() == h.page_size
        },
        PoolCall::Fetch(f, p) => m.resident(f, p) ==> m.frames[m.frame_of(f, p)].pin_count
            < u32::MAX,
        PoolCall::Write(f, p, b) => b.len() == m.page_size && frame_sound(b, p as int),
        PoolCall::Add(f, b) => b.len() == m.page_size && frame_sound(
            b,
            m.file(f).page_count as int,
        ),
        _ => true,
    }
}

/// Whether a call neither writes page `p` of file `f` nor drops the file.
pub open spec fn leaves_page(c: PoolCall, f: FileId, p: PageId) -> bool {
    match c {
        PoolCall::Write(g, q, _) => g != f || q != p,
        PoolCall::Drop(g) => g != f,
        _ => true,
    }
}

/// The pool after the first `n` of some calls.
pub open spec fn after_calls(m: PoolModel, calls: Seq<PoolCall>, n: int) -> PoolModel
    decreases n,
{
    if n <= 0 {
        m
    } else {
        called(after_calls(m, calls, n - 1), calls[n - 1])
    }
}

/// Whether each of the first `n` of some calls has what it asks, and leaves page `p` of file `f`
/// alone.
pub open spec fn calls_ok(
    m: PoolModel,
    calls: Seq<PoolCall>,
    n: int,
    f: FileId,
    p: PageId,
) -> bool {
    forall|i: int|
        0 <= i < n ==> call_ok(after_calls(m, calls, i), #[trigger] calls[i]) && leaves_page(
            calls[i],
            f,
            p,
        )
}

/// A call that leaves a page alone leaves what it shows alone.
proof fn lemma_called(m: PoolModel, c: PoolCall, f: FileId, p: PageId)
    requires
        m.inv(),
        m.frames.len() <= usize::MAX,
        m.page(f, p) is Some,
        call_ok(m, c),
        leaves_page(c, f, p),
    ensures
        called(m, c).inv(),
        called(m, c).frames.len() == m.frames.len(),
        called(m, c).page(f, p) == m.page(f, p),
{
    let t = called(m, c);
    match c {
        PoolCall::Register(h) => {
            if h.page_size == m.page_size {
                lemma_registered(m, FileModel { heap: h, page_count: h.pages.len() });
                assert(t.page(f, p) == m.page(f, p));
            }
        },
        PoolCall::Fetch(g, q) => {
            lemma_fetched(m, g, q);
            lemma_find_frame(m.frames, g, q, 0);
        },
        PoolCall::Write(g, q, b) => {
            lemma_fetched_mut(m, g, q);
            let (t1, r) = m.fetched_mut(g, q);
            if let Ok(i) = r {
                assert(t1.frames[i].holds(g, q));
                lemma_with_bytes(t1, i, b);
                assert(!t1.frames[i].holds(f, p));
            }
        },
        PoolCall::Add(g, b) => {
            lemma_new_paged(m, g, b);
        },
        PoolCall::Unpin(g, q, dirty) => {
            lemma_unpinned(m, g, q, dirty);
        },
        PoolCall::FlushPage(g, q) => {
            lemma_find_frame(m.frames, g, q, 0);
            if m.resident(g, q) {
                lemma_flushed(m, m.frame_of(g, q), -1);
            }
        },
        PoolCall::FlushAll => {
            lemma_flushed_to(m, m.frames.len() as int);
        },
        PoolCall::Drop(g) => {
            lemma_dropped(m, g);
        },
    }
}

/// A page shows the same after any run of calls that do not write it: neither loading and evicting
/// other pages, nor writing them, nor flushing, nor registering or dropping other files changes it.
pub proof fn law_other_calls_leave_the_page(
    m: PoolModel,
    calls: Seq<PoolCall>,
    n: int,
    f: FileId,
    p: PageId,
)
    requires
        m.inv(),
        m.frames.len() <= usize::MAX,
        m.page(f, p) is Some,
        0 <= n <= calls.len(),
        calls_ok(m, calls, n, f, p),
    ensures
        after_calls(m, calls, n).inv(),
        after_calls(m, calls, n).frames.len() == m.frames.len(),
        after_calls(m, calls, n).page(f, p) == m.page(f, p),
    decreases n,
{
    if n > 0 {
        law_other_calls_leave_the_page(m, calls, n - 1, f, p);
        assert(call_ok(after_calls(m, calls, n - 1), calls[n - 1]));
        lemma_called(after_calls(m, calls, n - 1), calls[n - 1], f, p);
    }
}

/// A page that was written through the pool is read back, whatever calls on other pages came
/// between: where it can be fetched, the frame holds the bytes that were written.
pub proof fn law_written_page_is_read_back(
    m: PoolModel,
    f: FileId,
    p: PageId,
    b: Seq<u8>,
    calls: Seq<PoolCall>,
)
    requires
        m.inv(),
        m.frames.len() <= usize::MAX,
        m.page(f, p) is Some,
        m.fetched_mut(f, p).1 is Ok,
        call_ok(m, PoolCall::Write(f, p, b)),
        calls_ok(called(m, PoolCall::Write(f, p, b)), calls, calls.len() as int, f, p),
    ensures
        ({
            let t = after_calls(
                called(m, PoolCall::Write(f, p, b)),
                calls,
                calls.len() as int,
            );
            let (t2, r) = t.fetched(f, p);
            &&& t.page(f, p) == Some(b)
            &&& r is Ok && call_ok(t, PoolCall::Fetch(f, p)) ==> t2.bytes[r->Ok_0] == b
        }),
{
    let w = called(m, PoolCall::Write(f, p, b));
    let (t1, r1) = m.fetched_mut(f, p);
    lemma_fetched_mut(m, f, p);
    assert(t1.frames[r1->Ok_0].holds(f, p));
    lemma_with_bytes(t1, r1->Ok_0, b);
    assert(w.page(f, p) == Some(b));
    law_other_calls_leave_the_page(w, calls, calls.len() as int, f, p);
    let t = after_calls(w, calls, calls.len() as int);
    lemma_fetched(t, f, p);
}

// ── Pins ──

/// A page that is fetched to read is in its frame, with one pin more than before, and shared.
/// Reading does not mark it as changed.
pub proof fn law_fetch_adds_a_pin(m: PoolModel, f: FileId, p: PageId)
    requires
        m.inv(),
        m.frames.len() <= usize::MAX,
        m.resident(f, p) ==> m.frames[m.frame_of(f, p)].pin_count < u32::MAX,
    ensures
        m.fetched(f, p) matches (t, Ok(i)) ==> {
            let before = m.frames[m.frame_of(f, p)];
            &&& t.frames[i].holds(f, p)
            &&& t.frames[i].latch == LatchMode::Shared
            &&& t.frames[i].pin_count == if m.resident(f, p) {
                before.pin_count + 1
            } else {
                1
            }
            &&& t.frames[i].dirty == (m.resident(f, p) && before.dirty)
        },
{
    lemma_fetched(m, f, p);
    lemma_find_frame(m.frames, f, p, 0);
    lemma_evicted(m);
}

/// A page that is fetched to write is in its frame, with its only pin, held alone, and marked as
/// changed.
pub proof fn law_writer_has_the_only_pin(m: PoolModel, f: FileId, p: PageId)
    requires
        m.inv(),
        m.frames.len() <= usize::MAX,
    ensures
        m.fetched_mut(f, p) matches (t, Ok(i)) ==> {
            &&& t.frames[i].holds(f, p)
            &&& t.frames[i].latch == LatchMode::Exclusive
            &&& t.frames[i].pin_count == 1
            &&& t.frames[i].dirty
            &&& m.resident(f, p) ==> m.frames[m.frame_of(f, p)].pin_count == 0
        },
{
    lemma_fetched_mut(m, f, p);
    lemma_find_frame(m.frames, f, p, 0);
}

/// Unpinning a page takes one pin off it: it is marked as changed where it was, or where the caller
/// says so; with the last pin it is free for all. Nothing else changes.
pub proof fn law_unpin_takes_one_pin_off(m: PoolModel, f: FileId, p: PageId, dirty: bool)
    requires
        m.inv(),
        m.resident(f, p),
        m.frames[m.frame_of(f, p)].pin_count > 0,
    ensures
        ({
            let i = m.frame_of(f, p);
            let (t, e) = m.unpinned(f, p, dirty);
            &&& e is None
            &&& t.frames[i].holds(f, p)
            &&& t.frames[i].pin_count == m.frames[i].pin_count - 1
            &&& t.frames[i].dirty == (m.frames[i].dirty || dirty)
            &&& t.frames[i].latch == if m.frames[i].pin_count == 1 {
                LatchMode::Free
            } else {
                m.frames[i].latch
            }
            &&& forall|k: int|
                0 <= k < m.frames.len() && k != i ==> #[trigger] t.frames[k] == m.frames[k]
            &&& t.bytes == m.bytes
            &&& t.files == m.files
        }),
{
    lemma_find_frame(m.frames, f, p, 0);
}

/// A file that is dropped is gone with its pages, and every page of another file shows what it
/// showed.
pub proof fn law_dropped_file_is_gone(m: PoolModel, f: FileId, p: PageId, g: FileId, q: PageId)
    requires
        m.inv(),
        m.frames.len() <= usize::MAX,
        g != f,
    ensures
        !m.dropped(f).registered(f),
        m.dropped(f).page(f, p) is None,
        m.dropped(f).registered(g) == m.registered(g),
        m.page(g, q) is Some ==> m.dropped(f).page(g, q) == m.page(g, q),
{
    let t = m.dropped(f);
    lemma_dropped(m, f);
    lemma_find_frame(t.frames, f, p, 0);
    if t.resident(f, p) {
        let i = t.frame_of(f, p);
        assert(t.frames[i].holds(f, p));
        assert(t.frames[i] == if m.frames[i].in_use && m.frames[i].file_id == f {
            FrameMeta::spec_empty()
        } else {
            m.frames[i]
        });
    }
}

/// A page that is added to a file comes behind all its pages, and the writer has its only pin.
pub proof fn law_added_page_is_the_last(m: PoolModel, f: FileId)
    requires
        m.inv(),
        m.frames.len() <= usize::MAX,
    ensures
        m.new_paged(f) matches (t, Ok(i)) ==> {
            &&& m.registered(f)
            &&& t.registered(f)
            &&& t.file(f).page_count == m.file(f).page_count + 1
            &&& t.frames[i].holds(f, m.file(f).page_count as u64)
            &&& t.frames[i].pin_count == 1
            &&& t.frames[i].latch == LatchMode::Exclusive
            &&& t.frames[i].dirty
        },
        !m.registered(f) ==> m.new_paged(f).1 is Err,
{
    if m.registered(f) && file_fits(m.file(f).page_count + 1) {
        let g = m.grown(f);
        lemma_grown(m, f);
        lemma_evicted(g);
    }
}

} // verus!
