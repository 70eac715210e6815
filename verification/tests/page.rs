use rqdb::storage::page::{PageRead, PageWrite, SlottedPage, UpdateResult, PAGE_TYPE_DATA};

const TEST_PAGE_SIZE: usize = 256;

#[test]
fn new_page_has_correct_header() {
    let p = SlottedPage::new(42, TEST_PAGE_SIZE);
    assert_eq!(p.page_id(), 42);
    assert_eq!(p.page_type(), PAGE_TYPE_DATA);
    assert_eq!(p.slot_count(), 0);
    assert_eq!(p.page_size(), TEST_PAGE_SIZE);
    assert!(p.free_space() > 0);
}

#[test]
fn page_insert_and_read_row() {
    let mut p = SlottedPage::new(0, TEST_PAGE_SIZE);
    let data = b"hello world";
    let slot = p.insert_row(data).unwrap();
    assert_eq!(slot, 0);
    assert_eq!(p.slot_count(), 1);
    assert_eq!(p.read_row(slot), Some(data.as_slice()));
}

#[test]
fn page_insert_multiple_rows() {
    let mut p = SlottedPage::new(0, TEST_PAGE_SIZE);
    let s0 = p.insert_row(b"row-0").unwrap();
    let s1 = p.insert_row(b"row-1").unwrap();
    let s2 = p.insert_row(b"row-2").unwrap();
    assert_eq!(s0, 0);
    assert_eq!(s1, 1);
    assert_eq!(s2, 2);
    assert_eq!(p.read_row(s0), Some(b"row-0".as_slice()));
    assert_eq!(p.read_row(s1), Some(b"row-1".as_slice()));
    assert_eq!(p.read_row(s2), Some(b"row-2".as_slice()));
}

#[test]
fn delete_row_makes_it_unreadable() {
    let mut p = SlottedPage::new(0, TEST_PAGE_SIZE);
    let s = p.insert_row(b"gone").unwrap();
    assert!(p.delete_row(s));
    assert_eq!(p.read_row(s), None);
    // Double delete returns false.
    assert!(!p.delete_row(s));
}

#[test]
fn deleted_slot_is_reused() {
    let mut p = SlottedPage::new(0, TEST_PAGE_SIZE);
    let s0 = p.insert_row(b"aaa").unwrap();
    let _s1 = p.insert_row(b"bbb").unwrap();
    p.delete_row(s0);
    // Next insert should reuse slot 0.
    let s2 = p.insert_row(b"ccc").unwrap();
    assert_eq!(s2, 0);
    assert_eq!(p.read_row(s2), Some(b"ccc".as_slice()));
}

#[test]
fn overflow_returns_none() {
    let mut p = SlottedPage::new(0, TEST_PAGE_SIZE);
    // Try to insert a row that's too large for the page.
    let big = vec![0xFFu8; TEST_PAGE_SIZE];
    assert_eq!(p.insert_row(&big), None);
}

#[test]
fn fill_page_until_full() {
    let mut p = SlottedPage::new(0, TEST_PAGE_SIZE);
    let row = [0xABu8; 20];
    let mut count = 0;
    while p.insert_row(&row).is_some() {
        count += 1;
    }
    // Should have inserted some rows but not infinite.
    assert!(count > 0);
    assert!(count < TEST_PAGE_SIZE / 20);
}

#[test]
fn roundtrip_through_bytes() {
    let mut p = SlottedPage::new(7, TEST_PAGE_SIZE);
    p.insert_row(b"persist me").unwrap();
    let raw = p.into_bytes();
    let p2 = SlottedPage::from_bytes(raw).unwrap();
    assert_eq!(p2.page_id(), 7);
    assert_eq!(p2.read_row(0), Some(b"persist me".as_slice()));
}

#[test]
fn corrupted_checksum_is_detected() {
    let mut p = SlottedPage::new(0, TEST_PAGE_SIZE);
    p.insert_row(b"data").unwrap();
    let mut raw = p.into_bytes();
    // Flip a byte in the row data area.
    let last = raw.len() - 1;
    raw[last] ^= 0xFF;
    let err = SlottedPage::from_bytes(raw).unwrap_err();
    assert!(err.to_string().contains("checksum mismatch"));
}

#[test]
fn read_out_of_range_slot_returns_none() {
    let p = SlottedPage::new(0, TEST_PAGE_SIZE);
    assert_eq!(p.read_row(0), None);
    assert_eq!(p.read_row(99), None);
}

// ── update_row tests ──

#[test]
fn update_row_same_size() {
    let mut p = SlottedPage::new(0, TEST_PAGE_SIZE);
    let s = p.insert_row(b"hello").unwrap();
    assert_eq!(p.update_row(s, b"world"), UpdateResult::Updated);
    assert_eq!(p.read_row(s), Some(b"world".as_slice()));
}

#[test]
fn update_row_smaller() {
    let mut p = SlottedPage::new(0, TEST_PAGE_SIZE);
    let s = p.insert_row(b"long data here").unwrap();
    assert_eq!(p.update_row(s, b"short"), UpdateResult::Updated);
    assert_eq!(p.read_row(s), Some(b"short".as_slice()));
}

#[test]
fn update_row_larger_with_space() {
    let mut p = SlottedPage::new(0, TEST_PAGE_SIZE);
    let s = p.insert_row(b"tiny").unwrap();
    assert_eq!(
        p.update_row(s, b"a much longer replacement row"),
        UpdateResult::Updated
    );
    assert_eq!(
        p.read_row(s),
        Some(b"a much longer replacement row".as_slice())
    );
    // Slot index is preserved.
    assert_eq!(s, 0);
}

#[test]
fn update_row_not_enough_space() {
    let mut p = SlottedPage::new(0, TEST_PAGE_SIZE);
    let s = p.insert_row(b"small").unwrap();
    // Fill page nearly full.
    let big = vec![0xABu8; TEST_PAGE_SIZE / 2];
    let _ = p.insert_row(&big);
    let _ = p.insert_row(&big);
    // Try to update the small row to something huge.
    let huge = vec![0xFFu8; TEST_PAGE_SIZE];
    assert_eq!(p.update_row(s, &huge), UpdateResult::NotEnoughSpace);
    // Original row should still be intact (was tombstoned only if we entered case 2).
    // Actually with NotEnoughSpace in case 2 path, we return before tombstoning.
    // Let's verify the row is still readable.
    assert_eq!(p.read_row(s), Some(b"small".as_slice()));
}

#[test]
fn update_row_deleted_returns_not_found() {
    let mut p = SlottedPage::new(0, TEST_PAGE_SIZE);
    let s = p.insert_row(b"doomed").unwrap();
    p.delete_row(s);
    assert_eq!(p.update_row(s, b"nope"), UpdateResult::NotFound);
}

#[test]
fn update_row_out_of_range_returns_not_found() {
    let mut p = SlottedPage::new(0, TEST_PAGE_SIZE);
    assert_eq!(p.update_row(99, b"nope"), UpdateResult::NotFound);
}

#[test]
fn update_row_preserves_other_rows() {
    let mut p = SlottedPage::new(0, TEST_PAGE_SIZE);
    let s0 = p.insert_row(b"row-0").unwrap();
    let s1 = p.insert_row(b"row-1").unwrap();
    let s2 = p.insert_row(b"row-2").unwrap();
    // Update only row-1.
    assert_eq!(p.update_row(s1, b"UPDATED"), UpdateResult::Updated);
    assert_eq!(p.read_row(s0), Some(b"row-0".as_slice()));
    assert_eq!(p.read_row(s1), Some(b"UPDATED".as_slice()));
    assert_eq!(p.read_row(s2), Some(b"row-2".as_slice()));
}

// ── Bytes and laws ──

#[test]
fn new_page_bytes_are_exact() {
    let raw = SlottedPage::new(3, 64).into_bytes();
    // Number, type, data start, slot count, and the CRC-32 of all other bytes.
    assert_eq!(
        &raw[..24],
        &[3, 0, 0, 0, 0, 0, 0, 0, 1, 64, 0, 0, 0, 57, 231, 11, 190, 0, 0, 0, 0, 0, 0, 0]
    );
    assert!(raw[24..].iter().all(|&b| b == 0));
}

#[test]
fn first_row_goes_to_the_end_of_the_page() {
    let mut p = SlottedPage::new(0, 64);
    assert_eq!(p.free_space(), 64 - 24 - 4);
    assert_eq!(p.insert_row(b"abc"), Some(0));
    assert_eq!(&p.as_bytes()[61..], b"abc");
    // The slot: offset 61, length 3.
    assert_eq!(&p.as_bytes()[24..28], &[61, 0, 3, 0]);
    assert_eq!(p.free_space(), 64 - 24 - 4 - 4 - 3);
}

#[test]
fn row_that_just_fits_is_taken() {
    let mut p = SlottedPage::new(0, 64);
    let row = [7u8; 36];
    assert_eq!(p.insert_row(&row), Some(0));
    assert_eq!(p.free_space(), 0);
    assert_eq!(p.insert_row(b"x"), None);
    assert_eq!(p.read_row(0), Some(row.as_slice()));
}

#[test]
fn deleting_twice_changes_nothing_more() {
    let mut p = SlottedPage::new(0, TEST_PAGE_SIZE);
    let a = p.insert_row(b"first").unwrap();
    let b = p.insert_row(b"second").unwrap();
    assert!(p.delete_row(a));
    let before = p.as_bytes().to_vec();
    assert!(!p.delete_row(a));
    assert_eq!(p.as_bytes(), before.as_slice());
    assert_eq!(p.read_row(b), Some(b"second".as_slice()));
}

#[test]
fn lowest_deleted_slot_is_reused_first() {
    let mut p = SlottedPage::new(0, TEST_PAGE_SIZE);
    for row in [b"a", b"b", b"c"] {
        p.insert_row(row).unwrap();
    }
    assert!(p.delete_row(2));
    assert!(p.delete_row(0));
    assert_eq!(p.insert_row(b"d"), Some(0));
    assert_eq!(p.insert_row(b"e"), Some(2));
    assert_eq!(p.insert_row(b"f"), Some(3));
}

#[test]
fn refused_update_changes_nothing() {
    let mut p = SlottedPage::new(0, 64);
    let slot = p.insert_row(b"ab").unwrap();
    let before = p.as_bytes().to_vec();
    assert_eq!(p.update_row(slot, &[1u8; 60]), UpdateResult::NotEnoughSpace);
    assert_eq!(p.as_bytes(), before.as_slice());
}

#[test]
fn damaged_page_is_named_in_the_message() {
    let mut raw = SlottedPage::new(3, 64).into_bytes();
    raw[13] = 0;
    let err = SlottedPage::from_bytes(raw).unwrap_err();
    assert_eq!(
        err.to_string(),
        "data corruption: page 3 checksum mismatch: stored=0xbe0be700, computed=0xbe0be739"
    );
}

#[test]
fn deleting_leaves_the_bytes_of_the_row() {
    let mut p = SlottedPage::new(3, TEST_PAGE_SIZE);
    p.insert_row(b"first").unwrap();
    let slot = p.insert_row(b"second").unwrap();
    let before = p.as_bytes().to_vec();
    assert!(p.delete_row(slot));
    let after = p.as_bytes();
    let entry = 24 + 4 * slot as usize;
    for k in 0..TEST_PAGE_SIZE {
        if !(13..17).contains(&k) && !(entry..entry + 4).contains(&k) {
            assert_eq!(after[k], before[k], "byte {k}");
        }
    }
    assert_eq!(&after[entry..entry + 4], &[0, 0, 0, 0]);
    assert!(after.windows(6).any(|w| w == b"second"));
}
