use rqdb::storage::page::{PageRead, PageWrite, SlottedPage};
use rqdb::storage::tuple::{
    is_visible, prepend_header, read_header, set_xmax_on_page, strip_header, write_header, TxId,
    TUPLE_HEADER_SIZE,
};

#[test]
fn write_and_read_header() {
    let hdr = write_header(42, 0);
    let (xmin, xmax) = read_header(&hdr).unwrap();
    assert_eq!(xmin, 42);
    assert_eq!(xmax, 0);
}

#[test]
fn write_and_read_nonzero_xmax() {
    let hdr = write_header(10, 25);
    let (xmin, xmax) = read_header(&hdr).unwrap();
    assert_eq!(xmin, 10);
    assert_eq!(xmax, 25);
}

#[test]
fn read_header_too_short() {
    assert!(read_header(&[0u8; 15]).is_none());
    assert!(read_header(&[]).is_none());
}

#[test]
fn strip_header_returns_user_data() {
    let user_data = b"hello world";
    let tuple = prepend_header(1, user_data);
    assert_eq!(tuple.len(), TUPLE_HEADER_SIZE + user_data.len());

    let stripped = strip_header(&tuple).unwrap();
    assert_eq!(stripped, user_data);
}

#[test]
fn strip_header_too_short() {
    assert!(strip_header(&[0u8; 10]).is_none());
}

#[test]
fn prepend_header_sets_xmin_and_zero_xmax() {
    let tuple = prepend_header(99, b"data");
    let (xmin, xmax) = read_header(&tuple).unwrap();
    assert_eq!(xmin, 99);
    assert_eq!(xmax, 0);
}

#[test]
fn visibility_bootstrap_row() {
    let committed = |_: TxId| false;
    // xmin=0 (bootstrap) is always visible when xmax=0.
    assert!(is_visible(0, 0, 5, &committed));
}

#[test]
fn visibility_own_insert() {
    let committed = |_: TxId| false;
    // Our own insert (xmin == current_tx) is visible.
    assert!(is_visible(5, 0, 5, &committed));
}

#[test]
fn visibility_committed_insert() {
    let committed = |tx: TxId| tx == 3;
    // Committed insert, no delete.
    assert!(is_visible(3, 0, 5, &committed));
}

#[test]
fn visibility_uncommitted_insert() {
    let committed = |_: TxId| false;
    // Another transaction's uncommitted insert — not visible.
    assert!(!is_visible(7, 0, 5, &committed));
}

#[test]
fn visibility_deleted_by_committed_tx() {
    let committed = |tx: TxId| tx == 3 || tx == 4;
    // Created by tx 3 (committed), deleted by tx 4 (committed) — dead.
    assert!(!is_visible(3, 4, 5, &committed));
}

#[test]
fn visibility_deleted_by_aborted_tx() {
    let committed = |tx: TxId| tx == 3;
    // Created by tx 3 (committed), deleted by tx 6 (aborted) — still visible.
    assert!(is_visible(3, 6, 5, &committed));
}

#[test]
fn visibility_deleted_by_self() {
    let committed = |tx: TxId| tx == 3;
    // Created by tx 3, deleted by our own tx 5 — not visible to us.
    assert!(!is_visible(3, 5, 5, &committed));
}

#[test]
fn visibility_deleted_by_inflight_other() {
    let committed = |tx: TxId| tx == 3;
    // Created by tx 3, xmax=7 which is in-flight (not committed) — visible.
    assert!(is_visible(3, 7, 5, &committed));
}

#[test]
fn set_xmax_on_page_roundtrip() {
    let mut page = SlottedPage::new(0, 4096);
    let tuple = prepend_header(42, b"hello");
    let slot = page.insert_row(&tuple).unwrap();

    // xmax should be 0 initially.
    let raw = page.read_row(slot).unwrap();
    let (xmin, xmax) = read_header(raw).unwrap();
    assert_eq!(xmin, 42);
    assert_eq!(xmax, 0);

    // Set xmax to 99.
    assert!(set_xmax_on_page(page.buf_mut(), slot, 99));

    let raw = page.read_row(slot).unwrap();
    let (xmin, xmax) = read_header(raw).unwrap();
    assert_eq!(xmin, 42);
    assert_eq!(xmax, 99);
    assert_eq!(strip_header(raw).unwrap(), b"hello");
}

#[test]
fn set_xmax_on_page_out_of_range() {
    let mut page = SlottedPage::new(0, 4096);
    assert!(!set_xmax_on_page(page.buf_mut(), 0, 1));
}

#[test]
fn setting_xmax_changes_its_bytes_alone() {
    let mut p = SlottedPage::new(0, 256);
    p.insert_row(&prepend_header(7, b"other")).unwrap();
    let slot = p.insert_row(&prepend_header(7, b"data")).unwrap();
    let before = p.as_bytes().to_vec();
    let mut bytes = before.clone();
    assert!(set_xmax_on_page(&mut bytes, slot, 0x0102));
    let off = u16::from_le_bytes([before[24 + 4 * slot as usize], before[25 + 4 * slot as usize]]);
    let xmax = off as usize + 8;
    for k in 0..256 {
        if !(13..17).contains(&k) && !(xmax..xmax + 8).contains(&k) {
            assert_eq!(bytes[k], before[k], "byte {k}");
        }
    }
    assert_eq!(&bytes[xmax..xmax + 8], &[2, 1, 0, 0, 0, 0, 0, 0]);
}
