use rqdb::storage::fsm::FreeSpaceMap;

#[test]
fn empty_fsm_returns_none() {
    let fsm = FreeSpaceMap::new(0, 4096);
    assert_eq!(fsm.search(1), None);
}

#[test]
fn single_page_found() {
    let fsm = FreeSpaceMap::new(1, 4096);
    // Page 0 is optimistically full-free.
    assert_eq!(fsm.search(100), Some(0));
}

#[test]
fn search_skips_full_pages() {
    let mut fsm = FreeSpaceMap::new(4, 4096);
    // Mark pages 0, 1, 2 as full.
    fsm.update(0, 0);
    fsm.update(1, 0);
    fsm.update(2, 0);
    // Page 3 still has space.
    assert_eq!(fsm.search(100), Some(3));
}

#[test]
fn search_returns_none_when_all_full() {
    let mut fsm = FreeSpaceMap::new(4, 4096);
    for pid in 0..4 {
        fsm.update(pid, 0);
    }
    assert_eq!(fsm.search(100), None);
}

#[test]
fn update_propagates_to_root() {
    let mut fsm = FreeSpaceMap::new(4, 4096);
    for pid in 0..4 {
        fsm.update(pid, 0);
    }
    assert_eq!(fsm.tree[0], 0); // root is 0.

    fsm.update(2, 2048);
    assert!(fsm.tree[0] > 0); // root now reflects page 2.
    assert_eq!(fsm.search(100), Some(2));
}

#[test]
fn extend_grows_tree() {
    let mut fsm = FreeSpaceMap::new(2, 4096);
    fsm.update(0, 0);
    fsm.update(1, 0);
    assert_eq!(fsm.search(100), None);

    fsm.extend(5);
    assert_eq!(fsm.page_count(), 5);
    // New pages are optimistic — should find one.
    let found = fsm.search(100);
    assert!(found.is_some());
    let pid = found.unwrap();
    assert!(pid >= 2 && pid < 5);
}

#[test]
fn extend_within_existing_capacity() {
    let mut fsm = FreeSpaceMap::new(2, 256);
    assert_eq!(fsm.leaf_count, 2);
    // Extend but stay within leaf_count.
    fsm.update(0, 0);
    fsm.update(1, 0);
    // leaf_count is 2, so extending to 2 does nothing.
    fsm.extend(2);
    assert_eq!(fsm.page_count(), 2);
}

#[test]
fn category_encoding() {
    // 4096-byte pages: step = 16 bytes.
    let fsm = FreeSpaceMap::new(1, 4096);
    assert_eq!(fsm.bytes_to_cat(0), 0);
    assert_eq!(fsm.bytes_to_cat(16), 1);
    assert_eq!(fsm.bytes_to_cat(4096), 255);
    assert_eq!(fsm.bytes_to_cat(2048), 128);
}

#[test]
fn save_and_load_roundtrip() {
    let mut fsm = FreeSpaceMap::new(8, 4096);
    fsm.update(0, 0);
    fsm.update(3, 1024);
    fsm.update(7, 4000);
    let file = fsm.save();

    let loaded = FreeSpaceMap::load(Some(&file)).unwrap().unwrap();
    assert_eq!(loaded.page_count(), 8);
    assert_eq!(loaded.search(100), fsm.search(100));
    // Page 0 is full — should not be returned.
    assert_ne!(loaded.search(100), Some(0));
}

#[test]
fn load_nonexistent_returns_none() {
    let result = FreeSpaceMap::load(None).unwrap();
    assert!(result.is_none());
}

#[test]
fn prefers_left_child() {
    // When two pages have equal space, search should return the
    // lower page_id (left child preference).
    let fsm = FreeSpaceMap::new(4, 4096);
    // All pages are optimistic max — search should return page 0.
    assert_eq!(fsm.search(100), Some(0));
}

#[test]
fn saved_bytes_are_exact() {
    let mut fsm = FreeSpaceMap::new(3, 256);
    fsm.update(0, 0);
    fsm.update(1, 100);
    assert_eq!(fsm.save(), vec![0, 1, 0, 0, 3, 0, 0, 0, 0, 100, 255]);
}

#[test]
fn load_refuses_damaged_files() {
    assert!(FreeSpaceMap::load(Some(&[1, 2, 3])).unwrap().is_none());
    let err = FreeSpaceMap::load(Some(&[0, 0, 0, 0, 1, 0, 0, 0, 9])).err().unwrap();
    assert_eq!(err.to_string(), "data corruption: FSM file has page_size=0");
    let err = FreeSpaceMap::load(Some(&[0, 1, 0, 0, 2, 0, 0, 0, 9])).err().unwrap();
    assert_eq!(err.to_string(), "I/O error: failed to fill whole buffer");
}

#[test]
fn a_walk_goes_on_after_a_page() {
    let mut fsm = FreeSpaceMap::new(4, 256);
    fsm.update(1, 10);
    assert_eq!(fsm.first_with(1, fsm.bytes_to_cat(50)), Some(2));
    assert_eq!(fsm.first_with(1, fsm.bytes_to_cat(10)), Some(1));
    assert_eq!(fsm.first_with(4, fsm.bytes_to_cat(10)), None);
}

#[test]
fn update_of_untracked_page_is_passed_over() {
    let mut fsm = FreeSpaceMap::new(2, 256);
    let before = fsm.save();
    fsm.update(2, 0);
    assert_eq!(fsm.save(), before);
}

#[test]
fn a_page_that_is_found_has_the_bytes() {
    let mut fsm = FreeSpaceMap::new(1, 4096);
    fsm.update(0, 100);
    assert_eq!(fsm.search(101), None);
    assert_eq!(fsm.search(96), Some(0));
    fsm.update(0, 4095);
    assert_eq!(fsm.search(4096), Some(0));
    assert_eq!(fsm.search(usize::MAX), Some(0));
}

#[test]
fn a_loaded_map_answers_as_the_saved_one() {
    let mut fsm = FreeSpaceMap::new(5, 512);
    fsm.update(0, 10);
    fsm.update(1, 200);
    fsm.update(3, 0);
    let loaded = FreeSpaceMap::load(Some(&fsm.save())).unwrap().unwrap();
    for needed in 0..600 {
        assert_eq!(loaded.search(needed), fsm.search(needed));
        let cat = fsm.bytes_to_cat(needed);
        assert_eq!(loaded.first_with(2, cat), fsm.first_with(2, cat));
    }
}

#[test]
fn a_walk_from_a_page_on_finds_the_first_behind_it() {
    let mut fsm = FreeSpaceMap::new(37, 256);
    for p in 0..37 {
        fsm.update(p, (p * 53) % 256);
    }
    for from in 0..40 {
        for target in [0, 1, 40, 100, 200, 250, 255] {
            let want = (from..37).find(|p| fsm.bytes_to_cat((p * 53) % 256) >= target);
            assert_eq!(fsm.first_with(from, target), want, "from {from} target {target}");
        }
    }
}
