use rqdb::storage::heap::{file_is_sound, fsm_path_for, is_usable, HeapFile, Rid};
use rqdb::storage::page::{PageRead, PageWrite, SlottedPage};

const TEST_PAGE_SIZE: usize = 256;

fn empty() -> HeapFile {
    HeapFile::open(&[], None, TEST_PAGE_SIZE).unwrap()
}

#[test]
fn create_empty_heap() {
    let hf = empty();
    assert_eq!(hf.page_count(), 0);
}

#[test]
fn heap_insert_and_read_row() {
    let mut hf = empty();

    let rid = hf.insert_row(b"hello heap").unwrap();
    assert_eq!(rid.page_id, 0);
    assert_eq!(rid.slot, 0);
    assert_eq!(hf.page_count(), 1);

    let data = hf.read_row(rid).unwrap();
    assert_eq!(data, b"hello heap");
}

#[test]
fn insert_multiple_rows_same_page() {
    let mut hf = empty();

    let r0 = hf.insert_row(b"row-0").unwrap();
    let r1 = hf.insert_row(b"row-1").unwrap();
    let r2 = hf.insert_row(b"row-2").unwrap();

    // All on page 0 (256 bytes is enough for 3 small rows).
    assert_eq!(r0.page_id, 0);
    assert_eq!(r1.page_id, 0);
    assert_eq!(r2.page_id, 0);
    assert_eq!(r0.slot, 0);
    assert_eq!(r1.slot, 1);
    assert_eq!(r2.slot, 2);

    assert_eq!(hf.read_row(r1).unwrap(), b"row-1");
}

#[test]
fn heap_rows_spill_to_new_page() {
    let mut hf = empty();

    // Fill rows until we spill past page 0.
    let row = [0xABu8; 40];
    let mut rids = Vec::new();
    for _ in 0..20 {
        rids.push(hf.insert_row(&row).unwrap());
    }

    assert!(hf.page_count() > 1, "should have spilled to a second page");
    // Every row is still readable.
    for rid in &rids {
        assert_eq!(hf.read_row(*rid).unwrap(), row);
    }
}

#[test]
fn delete_and_scan() {
    let mut hf = empty();

    let _r0 = hf.insert_row(b"keep").unwrap();
    let r1 = hf.insert_row(b"delete-me").unwrap();
    let _r2 = hf.insert_row(b"also-keep").unwrap();

    assert!(hf.delete_row(r1).unwrap());

    let rows = hf.scan().unwrap();
    let data: Vec<&[u8]> = rows.iter().map(|(_, d)| d.as_slice()).collect();
    assert_eq!(data, vec![b"keep".as_slice(), b"also-keep".as_slice()]);

    // The deleted row is gone.
    assert!(hf.read_row(r1).is_err());
}

#[test]
fn reopen_heap_persists_data() {
    let rid;
    let (file, map) = {
        let mut hf = empty();
        rid = hf.insert_row(b"persisted").unwrap();
        (hf.file_bytes(), hf.save_fsm())
    };
    // Reopen from the bytes of the files.
    assert!(file_is_sound(&file, TEST_PAGE_SIZE));
    let hf = HeapFile::open(&file, Some(&map), TEST_PAGE_SIZE).unwrap();
    assert_eq!(hf.page_count(), 1);
    assert_eq!(hf.read_row(rid).unwrap(), b"persisted");
}

#[test]
fn scan_empty_heap() {
    let hf = empty();
    let rows = hf.scan().unwrap();
    assert!(rows.is_empty());
}

#[test]
fn heap_row_too_large_for_page() {
    let mut hf = empty();
    let big = vec![0xFFu8; TEST_PAGE_SIZE]; // larger than usable space
    let err = hf.insert_row(&big).unwrap_err();
    assert!(err.to_string().contains("too large"));
}

// ── Files and laws ──

#[test]
fn file_names_of_maps() {
    assert_eq!(fsm_path_for("data/S.T.0.DAT"), "data/S.T.FSM");
    assert_eq!(fsm_path_for("S.T.0.DAT"), "S.T.FSM");
    assert_eq!(fsm_path_for("data/plain"), "data/plain.FSM");
    assert_eq!(fsm_path_for("data/one.bin"), "data/one.FSM");
    assert_eq!(fsm_path_for("data/S.T.0.DAT/"), "data/S.T.FSM");
    assert_eq!(fsm_path_for("data/one.bin//"), "data/one.FSM");
    assert_eq!(fsm_path_for("data/one.bin/."), "data/one.FSM");
    for bare in ["", "/", ".", "..", "data/..", "./"] {
        assert_eq!(fsm_path_for(bare), bare);
    }
}

#[test]
fn file_is_read_back_page_by_page() {
    let mut hf = empty();
    for i in 0..12u8 {
        hf.insert_row(&[i; 50]).unwrap();
    }
    let file = hf.file_bytes();
    assert_eq!(file.len() as u64, hf.page_count() * TEST_PAGE_SIZE as u64);
    let again = HeapFile::open(&file, None, TEST_PAGE_SIZE).unwrap();
    assert_eq!(again.scan().unwrap(), hf.scan().unwrap());
    // What does not fill a page does not count.
    let short = &file[..file.len() - 1];
    assert!(file_is_sound(short, TEST_PAGE_SIZE));
    let fewer = HeapFile::open(short, None, TEST_PAGE_SIZE).unwrap();
    assert_eq!(fewer.page_count(), hf.page_count() - 1);
}

#[test]
fn scan_lists_each_address_once_in_order() {
    let mut hf = empty();
    let mut rids = Vec::new();
    for i in 0..15u8 {
        rids.push(hf.insert_row(&[i; 40]).unwrap());
    }
    let listed: Vec<_> = hf.scan().unwrap().iter().map(|(rid, _)| *rid).collect();
    assert_eq!(listed, rids);
}

#[test]
fn page_out_of_range_is_refused() {
    let mut hf = empty();
    hf.insert_row(b"one").unwrap();
    let err = hf.read_page(5).unwrap_err();
    assert_eq!(err.to_string(), "data corruption: page 5 out of range (file has 1 pages)");
}

#[test]
fn missing_row_is_named() {
    let mut hf = empty();
    let rid = hf.insert_row(b"one").unwrap();
    assert!(hf.delete_row(rid).unwrap());
    assert!(!hf.delete_row(rid).unwrap());
    let err = hf.read_row(rid).unwrap_err();
    assert_eq!(err.to_string(), "data corruption: row not found at page=0, slot=0");
}

#[test]
fn deleted_space_is_found_again() {
    let mut hf = empty();
    let first = hf.insert_row(&[1; 150]).unwrap();
    hf.insert_row(&[2; 150]).unwrap();
    assert_eq!(hf.page_count(), 2);
    hf.delete_row(first).unwrap();
    // The bytes of a deleted row are not given back, so a row of that size needs another page.
    let again = hf.insert_row(&[3; 150]).unwrap();
    assert_eq!(hf.read_row(again).unwrap(), vec![3; 150]);
    // A small one goes to the slot that came free.
    let small = hf.insert_row(b"small").unwrap();
    assert_eq!(small, first);
}

#[test]
fn unsound_bytes_are_not_opened() {
    let mut hf = empty();
    hf.insert_row(b"one").unwrap();
    let mut file = hf.file_bytes();
    assert!(HeapFile::open_checked(&file, None, TEST_PAGE_SIZE).unwrap().is_ok());
    // A page that does not carry its checksum is no obstacle to opening.
    file[200] ^= 1;
    let damaged = HeapFile::open_checked(&file, None, TEST_PAGE_SIZE).unwrap().unwrap();
    assert!(damaged.scan().is_err());
}

#[test]
fn a_page_of_another_number_is_opened_and_read() {
    let mut page = SlottedPage::new(2, TEST_PAGE_SIZE);
    page.insert_row(b"astray").unwrap();
    let file = page.as_bytes().to_vec();
    let mut hf = HeapFile::open_checked(&file, None, TEST_PAGE_SIZE).unwrap().unwrap();
    assert!(!hf.is_numbered());
    let rid = Rid { page_id: 0, slot: 0 };
    assert_eq!(hf.read_row(rid).unwrap(), b"astray");
    // A change goes to the place that the page's number gives it.
    assert!(hf.delete_row(rid).unwrap());
    assert_eq!(hf.page_count(), 3);
    assert_eq!(hf.read_row(rid).unwrap(), b"astray");
    assert!(hf.read_page(1).is_err());
    assert!(hf.read_row(Rid { page_id: 2, slot: 0 }).is_err());
}

#[test]
fn files_in_order_are_numbered() {
    let mut hf = empty();
    for i in 0..12u8 {
        hf.insert_row(&[i; 50]).unwrap();
    }
    assert!(hf.is_numbered());
    assert!(is_usable(TEST_PAGE_SIZE));
    assert!(is_usable(4096));
}

#[test]
fn a_row_goes_to_a_page_that_has_just_enough_room() {
    let mut hf = HeapFile::create(4096).unwrap();
    let first = hf.insert_row(&[1; 3964]).unwrap();
    assert_eq!(hf.read_page(0).unwrap().free_space(), 100);
    let second = hf.insert_row(&[2; 100]).unwrap();
    assert_eq!((first.page_id, second.page_id, hf.page_count()), (0, 0, 1));
    // One byte more than a page has left needs another page.
    let mut hf = HeapFile::create(4096).unwrap();
    hf.insert_row(&[1; 3964]).unwrap();
    let second = hf.insert_row(&[2; 101]).unwrap();
    assert_eq!((second.page_id, hf.page_count()), (1, 2));
}

#[test]
fn a_page_without_room_for_its_header_is_not_read() {
    let mut hf = HeapFile::open_checked(&[0; 16], None, 16).unwrap().unwrap();
    assert_eq!(hf.page_count(), 1);
    let text = "data corruption: page too small for header";
    assert_eq!(hf.insert_row(b"x").unwrap_err().to_string(), text);
    assert_eq!(hf.read_row(Rid { page_id: 0, slot: 0 }).unwrap_err().to_string(), text);
    assert!(HeapFile::open_checked(&[0; 16], None, 0).is_none());
}
