use rqdb::storage::heap::HeapFile;
use rqdb::storage::page::{PageRead, PageWrite, SlottedPage};
use rqdb::storage::pool::{BufferPool, BufferPoolManager, FileId, LatchMode};

const PAGE_SIZE: usize = 256;

/// A file of some pages without rows.
fn file_of(n_pages: u64, page_size: usize) -> HeapFile {
    let mut heap = HeapFile::create(page_size).unwrap();
    for i in 0..n_pages {
        heap.write_page(&SlottedPage::new(i, page_size)).unwrap();
    }
    heap
}

/// Registers a file of some pages without rows.
fn setup_file(pool: &mut BufferPool, n_pages: u64) -> FileId {
    pool.register_file(file_of(n_pages, PAGE_SIZE)).unwrap()
}

#[test]
fn fetch_and_unpin() {
    let mut pool = BufferPool::new("TESTBP", 4, PAGE_SIZE);
    let fid = setup_file(&mut pool, 2);

    let page = pool.fetch_page(fid, 0).unwrap();
    assert_eq!(page.page_id(), 0);

    pool.unpin(fid, 0, false).unwrap();
}

#[test]
fn fetch_same_page_twice() {
    let mut pool = BufferPool::new("TESTBP", 4, PAGE_SIZE);
    let fid = setup_file(&mut pool, 1);

    let _p1 = pool.fetch_page(fid, 0).unwrap();
    pool.unpin(fid, 0, false).unwrap();

    // Second fetch should hit the pool (same frame).
    let _p2 = pool.fetch_page(fid, 0).unwrap();
    pool.unpin(fid, 0, false).unwrap();

    // Only 1 frame in use.
    assert_eq!(pool.used_frames(), 1);
}

#[test]
fn dirty_flag_preserved_across_unpin() {
    let mut pool = BufferPool::new("TESTBP", 4, PAGE_SIZE);
    let fid = setup_file(&mut pool, 1);

    let _page = pool.fetch_page(fid, 0).unwrap();
    pool.unpin(fid, 0, true).unwrap();

    // Frame should still be dirty.
    let idx = pool.frame_of(fid, 0).unwrap();
    assert!(pool.frame_meta(idx).dirty);
}

#[test]
fn flush_page_clears_dirty() {
    let mut pool = BufferPool::new("TESTBP", 4, PAGE_SIZE);
    let fid = setup_file(&mut pool, 1);

    let _page = pool.fetch_page(fid, 0).unwrap();
    pool.unpin(fid, 0, true).unwrap();
    pool.flush_page(fid, 0).unwrap();

    let idx = pool.frame_of(fid, 0).unwrap();
    assert!(!pool.frame_meta(idx).dirty);
}

#[test]
fn eviction_flushes_dirty_page() {
    // Pool with only 1 frame — fetching a second page forces eviction.
    let mut pool = BufferPool::new("TESTBP", 1, PAGE_SIZE);
    let fid = setup_file(&mut pool, 2);

    // Fetch page 0, mark dirty, unpin.
    {
        let mut page = pool.fetch_page_mut(fid, 0).unwrap();
        page.insert_row(b"dirty-data");
    }
    pool.unpin(fid, 0, true).unwrap();

    // Fetch page 1 — page 0 must be evicted and flushed.
    let _p1 = pool.fetch_page(fid, 1).unwrap();
    pool.unpin(fid, 1, false).unwrap();

    // Page 0 was evicted. Reload from disk and verify the written data.
    let _p0 = pool.fetch_page(fid, 0).unwrap();
    pool.unpin(fid, 0, false).unwrap();

    // Read through HeapFile to confirm disk persistence.
    let disk_page = pool.file_heap(fid).unwrap().read_page(0).unwrap();
    assert_eq!(disk_page.read_row(0).unwrap(), b"dirty-data");
}

#[test]
fn lru_evicts_oldest_unpinned() {
    let mut pool = BufferPool::new("TESTBP", 2, PAGE_SIZE);
    let fid = setup_file(&mut pool, 3);

    // Load pages 0 and 1.
    let _p0 = pool.fetch_page(fid, 0).unwrap();
    pool.unpin(fid, 0, false).unwrap();
    let _p1 = pool.fetch_page(fid, 1).unwrap();
    pool.unpin(fid, 1, false).unwrap();

    // Access page 0 again to make it more recent.
    let _p0 = pool.fetch_page(fid, 0).unwrap();
    pool.unpin(fid, 0, false).unwrap();

    // Fetch page 2 — page 1 (oldest) should be evicted, not page 0.
    let _p2 = pool.fetch_page(fid, 2).unwrap();
    pool.unpin(fid, 2, false).unwrap();

    assert!(pool.frame_of(fid, 0).is_some());
    assert!(pool.frame_of(fid, 1).is_none());
    assert!(pool.frame_of(fid, 2).is_some());
}

#[test]
fn all_pinned_returns_error() {
    let mut pool = BufferPool::new("TESTBP", 1, PAGE_SIZE);
    let fid = setup_file(&mut pool, 2);

    let _p0 = pool.fetch_page(fid, 0).unwrap();
    // Don't unpin — pool is full and all pinned.

    let err = pool.fetch_page(fid, 1).unwrap_err();
    assert!(err.to_string().contains("all frames are pinned"));

    pool.unpin(fid, 0, false).unwrap();
}

#[test]
fn new_page_creates_and_pins() {
    let mut pool = BufferPool::new("TESTBP", 4, PAGE_SIZE);
    let fid = setup_file(&mut pool, 0);

    let (pid, page) = pool.new_page(fid).unwrap();
    assert_eq!(pid, 0);
    assert_eq!(page.page_id(), 0);

    // Frame is dirty and pinned.
    let idx = pool.frame_of(fid, pid).unwrap();
    assert!(pool.frame_meta(idx).dirty);
    assert_eq!(pool.frame_meta(idx).pin_count, 1);

    pool.unpin(fid, pid, true).unwrap();
}

#[test]
fn flush_all_writes_all_dirty() {
    let mut pool = BufferPool::new("TESTBP", 4, PAGE_SIZE);
    let fid = setup_file(&mut pool, 2);

    // Mark both pages dirty.
    {
        let mut p0 = pool.fetch_page_mut(fid, 0).unwrap();
        p0.insert_row(b"d0");
    }
    pool.unpin(fid, 0, true).unwrap();
    {
        let mut p1 = pool.fetch_page_mut(fid, 1).unwrap();
        p1.insert_row(b"d1");
    }
    pool.unpin(fid, 1, true).unwrap();

    pool.flush_all().unwrap();

    // Both frames should be clean now.
    for idx in 0..pool.capacity() {
        if pool.frame_meta(idx).in_use {
            assert!(!pool.frame_meta(idx).dirty);
        }
    }
}

#[test]
fn multiple_files() {
    let mut pool = BufferPool::new("TESTBP", 8, PAGE_SIZE);
    let fid1 = setup_file(&mut pool, 2);
    let fid2 = setup_file(&mut pool, 2);

    let _p = pool.fetch_page(fid1, 0).unwrap();
    pool.unpin(fid1, 0, false).unwrap();

    let _p = pool.fetch_page(fid2, 1).unwrap();
    pool.unpin(fid2, 1, false).unwrap();

    assert!(pool.frame_of(fid1, 0).is_some());
    assert!(pool.frame_of(fid2, 1).is_some());
}

#[test]
fn unpin_twice_errors() {
    let mut pool = BufferPool::new("TESTBP", 4, PAGE_SIZE);
    let fid = setup_file(&mut pool, 1);

    let _p = pool.fetch_page(fid, 0).unwrap();
    pool.unpin(fid, 0, false).unwrap();

    // Second unpin should fail (pin_count already 0).
    let err = pool.unpin(fid, 0, false).unwrap_err();
    assert!(err.to_string().contains("unpinned"));
}

#[test]
fn fetch_mut_marks_dirty() {
    let mut pool = BufferPool::new("TESTBP", 4, PAGE_SIZE);
    let fid = setup_file(&mut pool, 1);

    let _page = pool.fetch_page_mut(fid, 0).unwrap();
    let idx = pool.frame_of(fid, 0).unwrap();
    assert!(pool.frame_meta(idx).dirty);
    pool.unpin(fid, 0, false).unwrap();
}

#[test]
fn page_size_mismatch_rejected() {
    let mut pool = BufferPool::new("TESTBP", 4, PAGE_SIZE);
    let err = pool.register_file(file_of(0, PAGE_SIZE * 2)).unwrap_err();
    assert!(err.to_string().contains("page size mismatch"));
}

#[test]
fn pre_allocated_capacity() {
    let pool = BufferPool::new("TESTBP", 16, PAGE_SIZE);
    // The entire region is allocated upfront.
    assert_eq!(pool.region_len(), 16 * PAGE_SIZE);
    assert_eq!(pool.capacity(), 16);
    assert_eq!(pool.page_size(), PAGE_SIZE);
    assert_eq!(pool.name(), "TESTBP");
}

#[test]
fn manager_create_multiple_pools() {
    let mut mgr = BufferPoolManager::new();
    mgr.create_pool(1, "RQDEFAULTBP", 64, PAGE_SIZE).unwrap();
    mgr.create_pool(2, "INDEXBP", 32, PAGE_SIZE).unwrap();
    mgr.create_pool(3, "LOBBP", 16, 8192).unwrap();

    assert_eq!(mgr.get(1).unwrap().name(), "RQDEFAULTBP");
    assert_eq!(mgr.get(2).unwrap().capacity(), 32);
    assert_eq!(mgr.get(3).unwrap().page_size(), 8192);

    let ids = mgr.pool_ids();
    assert_eq!(ids.len(), 3);
    assert_eq!(ids[0], (1, "RQDEFAULTBP"));
}

#[test]
fn manager_duplicate_pool_id_rejected() {
    let mut mgr = BufferPoolManager::new();
    mgr.create_pool(1, "BP1", 4, PAGE_SIZE).unwrap();
    let err = mgr.create_pool(1, "BP2", 4, PAGE_SIZE).unwrap_err();
    assert!(err.to_string().contains("already exists"));
}

#[test]
fn manager_register_file_routes_to_pool() {
    let mut mgr = BufferPoolManager::new();
    mgr.create_pool(1, "DATABP", 8, PAGE_SIZE).unwrap();
    mgr.create_pool(2, "INDEXBP", 8, PAGE_SIZE).unwrap();

    let fid1 = mgr.register_file(1, file_of(0, PAGE_SIZE)).unwrap();
    let fid2 = mgr.register_file(2, file_of(0, PAGE_SIZE)).unwrap();

    // Both get file_id 0 since they're in different pools.
    assert_eq!(fid1, 0);
    assert_eq!(fid2, 0);
}

#[test]
fn manager_flush_all_pools() {
    let mut mgr = BufferPoolManager::new();
    mgr.create_pool(1, "BP1", 4, PAGE_SIZE).unwrap();
    mgr.create_pool(2, "BP2", 4, PAGE_SIZE).unwrap();
    // flush_all should succeed even with empty pools.
    mgr.flush_all().unwrap();
}

// ── Latch enforcement tests ──

#[test]
fn exclusive_latch_blocks_shared_read() {
    let mut pool = BufferPool::new("TESTBP", 4, PAGE_SIZE);
    let fid = setup_file(&mut pool, 1);

    // Acquire exclusive write latch.
    let _page = pool.fetch_page_mut(fid, 0).unwrap();

    // Shared read on the same page must fail.
    let err = pool.fetch_page(fid, 0).unwrap_err();
    assert!(err.to_string().contains("exclusively latched"));

    pool.unpin(fid, 0, false).unwrap();
}

#[test]
fn shared_read_blocks_exclusive_write() {
    let mut pool = BufferPool::new("TESTBP", 4, PAGE_SIZE);
    let fid = setup_file(&mut pool, 1);

    // Acquire shared read latch.
    let _page = pool.fetch_page(fid, 0).unwrap();

    // Exclusive write on the same page must fail.
    let err = pool.fetch_page_mut(fid, 0).unwrap_err();
    assert!(err.to_string().contains("exclusive write latch"));

    pool.unpin(fid, 0, false).unwrap();
}

#[test]
fn shared_read_allows_multiple_readers() {
    let mut pool = BufferPool::new("TESTBP", 4, PAGE_SIZE);
    let fid = setup_file(&mut pool, 1);

    // Two shared readers on the same page should succeed.
    let _p1 = pool.fetch_page(fid, 0).unwrap();
    pool.unpin(fid, 0, false).unwrap();
    let _p2 = pool.fetch_page(fid, 0).unwrap();
    pool.unpin(fid, 0, false).unwrap();

    // Frame pin_count back to 0, latch cleared.
    let idx = pool.frame_of(fid, 0).unwrap();
    assert_eq!(pool.frame_meta(idx).latch, LatchMode::Free);
}

#[test]
fn latch_cleared_after_unpin() {
    let mut pool = BufferPool::new("TESTBP", 4, PAGE_SIZE);
    let fid = setup_file(&mut pool, 1);

    // Exclusive latch then unpin.
    let _page = pool.fetch_page_mut(fid, 0).unwrap();
    pool.unpin(fid, 0, false).unwrap();

    let idx = pool.frame_of(fid, 0).unwrap();
    assert_eq!(pool.frame_meta(idx).latch, LatchMode::Free);

    // Should now be able to acquire shared read.
    let _page = pool.fetch_page(fid, 0).unwrap();
    pool.unpin(fid, 0, false).unwrap();
}

#[test]
fn new_page_acquires_exclusive_latch() {
    let mut pool = BufferPool::new("TESTBP", 4, PAGE_SIZE);
    let fid = setup_file(&mut pool, 0);

    let (pid, _page) = pool.new_page(fid).unwrap();
    let idx = pool.frame_of(fid, pid).unwrap();
    assert_eq!(pool.frame_meta(idx).latch, LatchMode::Exclusive);

    pool.unpin(fid, pid, true).unwrap();
    assert_eq!(pool.frame_meta(idx).latch, LatchMode::Free);
}

// ── More on pinning, flushing and dropping ──

#[test]
fn fetch_shows_what_was_written() {
    let mut pool = BufferPool::new("TESTBP", 2, PAGE_SIZE);
    let fid = setup_file(&mut pool, 3);
    for p in 0..3u64 {
        {
            let mut page = pool.fetch_page_mut(fid, p).unwrap();
            page.insert_row(&[p as u8; 10]);
        }
        pool.unpin(fid, p, true).unwrap();
    }
    for p in 0..3u64 {
        assert_eq!(pool.fetch_page(fid, p).unwrap().read_row(0).unwrap(), &[p as u8; 10]);
        pool.unpin(fid, p, false).unwrap();
    }
}

#[test]
fn flush_all_reaches_the_file() {
    let mut pool = BufferPool::new("TESTBP", 4, PAGE_SIZE);
    let fid = setup_file(&mut pool, 1);
    {
        let mut page = pool.fetch_page_mut(fid, 0).unwrap();
        page.insert_row(b"kept");
    }
    pool.unpin(fid, 0, true).unwrap();
    assert_eq!(pool.file_heap(fid).unwrap().read_page(0).unwrap().slot_count(), 0);
    pool.flush_all().unwrap();
    let on_disk = pool.file_heap(fid).unwrap().read_page(0).unwrap();
    assert_eq!(on_disk.read_row(0).unwrap(), b"kept");
}

#[test]
fn pinned_page_is_not_evicted() {
    let mut pool = BufferPool::new("TESTBP", 2, PAGE_SIZE);
    let fid = setup_file(&mut pool, 3);
    pool.fetch_page(fid, 0).unwrap();
    pool.fetch_page(fid, 1).unwrap();
    pool.unpin(fid, 1, false).unwrap();
    pool.fetch_page(fid, 2).unwrap();
    assert!(pool.frame_of(fid, 0).is_some());
    assert!(pool.frame_of(fid, 1).is_none());
}

#[test]
fn page_of_unknown_file_is_refused() {
    let mut pool = BufferPool::new("TESTBP", 2, PAGE_SIZE);
    let err = pool.fetch_page(7, 0).unwrap_err();
    assert_eq!(err.to_string(), "catalog error: file_id 7 not registered");
    assert!(pool.file_page_count(7).is_err());
}

#[test]
fn evicted_file_leaves_the_pool() {
    let mut pool = BufferPool::new("TESTBP", 4, PAGE_SIZE);
    let kept = setup_file(&mut pool, 1);
    let gone = setup_file(&mut pool, 1);
    pool.fetch_page(kept, 0).unwrap();
    pool.unpin(kept, 0, false).unwrap();
    pool.fetch_page(gone, 0).unwrap();
    pool.unpin(gone, 0, true).unwrap();
    assert_eq!(pool.used_frames(), 2);
    pool.evict_file(gone).unwrap();
    assert_eq!(pool.used_frames(), 1);
    assert!(pool.fetch_page(gone, 0).is_err());
    assert!(pool.fetch_page(kept, 0).is_ok());
}

#[test]
fn unknown_pool_is_refused() {
    let mgr = BufferPoolManager::new();
    let err = mgr.get(9).err().unwrap();
    assert_eq!(err.to_string(), "catalog error: buffer pool id 9 not found");
}

#[test]
fn a_written_page_is_read_back_after_work_on_others() {
    let mut pool = BufferPool::new("TESTBP", 2, PAGE_SIZE);
    let fid = setup_file(&mut pool, 5);
    let other = setup_file(&mut pool, 3);
    pool.fetch_page_mut(fid, 1).unwrap().insert_row(b"written").unwrap();
    pool.unpin(fid, 1, true).unwrap();
    for p in [0, 2, 3, 4] {
        pool.fetch_page_mut(fid, p).unwrap().insert_row(b"elsewhere").unwrap();
        pool.unpin(fid, p, true).unwrap();
    }
    let (added, _) = pool.new_page(fid).unwrap();
    pool.unpin(fid, added, true).unwrap();
    pool.fetch_page(other, 1).unwrap();
    pool.unpin(other, 1, false).unwrap();
    pool.flush_all().unwrap();
    pool.evict_file(other).unwrap();
    let page = pool.fetch_page(fid, 1).unwrap();
    assert_eq!(page.read_row(0), Some(b"written".as_slice()));
}
