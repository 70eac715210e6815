use rqdb::catalog::cache::CatalogCache;
use rqdb::catalog::config::DbConfig;
use rqdb::catalog::types::{BufferPool, Catalog, Table, Tablespace};
use rqdb::storage::heap::{HeapFile, Rid};
use rqdb::storage::tablespace::{catalog_is_sound, TableFiles, TablespaceManager};

const PAGE_SIZE: usize = 256;

/// A manager with one pool and one table.
fn open_with(table: &str, heap: HeapFile, fsm: Option<Vec<u8>>) -> TablespaceManager {
    let catalog = Catalog {
        tablespaces: vec![Tablespace {
            tbspaceid: 1,
            tbspace: "TESTTBSP".to_string(),
            tbspacetype: "D".to_string(),
            datatype: "A".to_string(),
            pagesize: PAGE_SIZE as i32,
            state: "N".to_string(),
            bufferpoolid: 1,
        }],
        schemas: Vec::new(),
        tables: vec![Table {
            tableid: 1,
            name: table.to_string(),
            schemaname: "TEST".to_string(),
            tbspaceid: 1,
            colcount: 1,
        }],
        columns: Vec::new(),
        bufferpools: vec![BufferPool {
            bpid: 1,
            bpname: "TESTBP".to_string(),
            pagesize: PAGE_SIZE as i32,
            npages: 16,
        }],
    };
    let cache = CatalogCache::new(catalog, DbConfig::default());
    TablespaceManager::open(&cache, vec![TableFiles { heap, fsm }]).unwrap()
}

fn setup() -> TablespaceManager {
    open_with("TESTTABLE", HeapFile::create(PAGE_SIZE).unwrap(), None)
}

#[test]
fn scan_empty_table() {
    let mut tsm = setup();
    let rows = tsm.table_scan("TEST", "TESTTABLE").unwrap();
    assert!(rows.is_empty());
}

#[test]
fn insert_and_read() {
    let mut tsm = setup();
    let rid = tsm
        .insert_row("TEST", "TESTTABLE", b"hello world")
        .unwrap();
    assert_eq!(rid.page_id, 0);
    assert_eq!(rid.slot, 0);

    let data = tsm.read_row("TEST", "TESTTABLE", rid).unwrap();
    assert_eq!(data, b"hello world");
}

#[test]
fn insert_and_scan() {
    let mut tsm = setup();
    let r0 = tsm.insert_row("TEST", "TESTTABLE", b"row-0").unwrap();
    let r1 = tsm.insert_row("TEST", "TESTTABLE", b"row-1").unwrap();
    let r2 = tsm.insert_row("TEST", "TESTTABLE", b"row-2").unwrap();

    let rows = tsm.table_scan("TEST", "TESTTABLE").unwrap();
    assert_eq!(rows.len(), 3);
    assert_eq!(rows[0], (r0, b"row-0".to_vec()));
    assert_eq!(rows[1], (r1, b"row-1".to_vec()));
    assert_eq!(rows[2], (r2, b"row-2".to_vec()));
}

#[test]
fn delete_row_removes_from_scan() {
    let mut tsm = setup();
    let _r0 = tsm.insert_row("TEST", "TESTTABLE", b"keep").unwrap();
    let r1 = tsm
        .insert_row("TEST", "TESTTABLE", b"drop-me")
        .unwrap();
    let _r2 = tsm
        .insert_row("TEST", "TESTTABLE", b"also-keep")
        .unwrap();

    assert!(tsm.delete_row("TEST", "TESTTABLE", r1).unwrap());

    let rows = tsm.table_scan("TEST", "TESTTABLE").unwrap();
    let data: Vec<&[u8]> = rows.iter().map(|(_, d)| d.as_slice()).collect();
    assert_eq!(data, vec![b"keep".as_slice(), b"also-keep".as_slice()]);
}

#[test]
fn tablespace_rows_spill_to_new_page() {
    let mut tsm = setup();
    let row = [0xABu8; 40];
    let mut rids = Vec::new();
    for _ in 0..20 {
        rids.push(tsm.insert_row("TEST", "TESTTABLE", &row).unwrap());
    }

    let max_page = rids.iter().map(|r| r.page_id).max().unwrap();
    assert!(max_page > 0, "should have spilled to multiple pages");

    for rid in &rids {
        assert_eq!(tsm.read_row("TEST", "TESTTABLE", *rid).unwrap(), row);
    }
}

#[test]
fn flush_persists_data() {
    let rid;
    let image;
    {
        let mut tsm = open_with("PERSIST", HeapFile::create(PAGE_SIZE).unwrap(), None);
        rid = tsm
            .insert_row("TEST", "PERSIST", b"survive-restart")
            .unwrap();
        tsm.flush_all().unwrap();
        image = tsm.table_image("TEST", "PERSIST").unwrap();
    }

    // Reopen with a fresh manager and the bytes of the same files.
    {
        let heap = HeapFile::open(&image.dat, None, PAGE_SIZE).unwrap();
        let mut tsm = open_with("PERSIST", heap, Some(image.fsm));
        let data = tsm.read_row("TEST", "PERSIST", rid).unwrap();
        assert_eq!(data, b"survive-restart");
    }
}

#[test]
fn table_not_found() {
    let mut tsm = setup();
    let err = tsm.table_scan("BAD", "NOTABLE").unwrap_err();
    assert!(err.to_string().contains("not registered"));
}

#[test]
fn tablespace_row_too_large_for_page() {
    let mut tsm = setup();
    let big = vec![0xFFu8; PAGE_SIZE]; // exceeds usable space
    let err = tsm
        .insert_row("TEST", "TESTTABLE", &big)
        .unwrap_err();
    assert!(err.to_string().contains("too large"));
}

// ── Updates, drops and new tables ──

#[test]
fn update_in_place_keeps_the_address() {
    let mut tsm = setup();
    let rid = tsm.insert_row("TEST", "TESTTABLE", b"before").unwrap();
    let other = tsm.insert_row("TEST", "TESTTABLE", b"other").unwrap();
    assert_eq!(tsm.update_row("TEST", "TESTTABLE", rid, b"after!").unwrap(), rid);
    assert_eq!(tsm.read_row("TEST", "TESTTABLE", rid).unwrap(), b"after!");
    assert_eq!(tsm.read_row("TEST", "TESTTABLE", other).unwrap(), b"other");
}

#[test]
fn update_that_outgrows_its_page_moves_the_row() {
    let mut tsm = setup();
    let rid = tsm.insert_row("TEST", "TESTTABLE", &[1; 100]).unwrap();
    tsm.insert_row("TEST", "TESTTABLE", &[2; 100]).unwrap();
    let moved = tsm.update_row("TEST", "TESTTABLE", rid, &[3; 180]).unwrap();
    assert_ne!(moved.page_id, rid.page_id);
    assert_eq!(tsm.read_row("TEST", "TESTTABLE", moved).unwrap(), vec![3; 180]);
    assert!(tsm.read_row("TEST", "TESTTABLE", rid).is_err());
    assert_eq!(tsm.table_scan("TEST", "TESTTABLE").unwrap().len(), 2);
}

#[test]
fn update_of_missing_row_is_refused() {
    let mut tsm = setup();
    let rid = tsm.insert_row("TEST", "TESTTABLE", b"x").unwrap();
    tsm.delete_row("TEST", "TESTTABLE", rid).unwrap();
    let err = tsm.update_row("TEST", "TESTTABLE", rid, b"y").unwrap_err();
    assert_eq!(err.to_string(), "data corruption: row not found at page=0, slot=0");
}

#[test]
fn work_goes_on_after_a_refused_row() {
    // No page stays pinned, whatever happens.
    let mut tsm = setup();
    for _ in 0..40 {
        assert!(tsm.insert_row("TEST", "TESTTABLE", &[9; PAGE_SIZE]).is_err());
    }
    let rid = tsm.insert_row("TEST", "TESTTABLE", b"fits").unwrap();
    assert_eq!(tsm.read_row("TEST", "TESTTABLE", rid).unwrap(), b"fits");
}

#[test]
fn dropped_table_is_not_found() {
    let mut tsm = setup();
    tsm.insert_row("TEST", "TESTTABLE", b"x").unwrap();
    tsm.drop_table("TEST", "TESTTABLE").unwrap();
    assert!(!tsm.has_table("TEST", "TESTTABLE"));
    let err = tsm.drop_table("TEST", "TESTTABLE").unwrap_err();
    assert_eq!(
        err.to_string(),
        "catalog error: table TEST.TESTTABLE not registered in tablespace manager"
    );
}

#[test]
fn new_table_is_empty() {
    let mut tsm = setup();
    tsm.register_new_table("TEST", "FRESH", 1).unwrap();
    assert_eq!(tsm.table_count(), 2);
    assert!(tsm.table_scan("TEST", "FRESH").unwrap().is_empty());
    let err = tsm.register_new_table("TEST", "LOST", 7).unwrap_err();
    assert_eq!(err.to_string(), "catalog error: tablespace 7 not found for table TEST.LOST");
}

#[test]
fn many_rows_survive_reopening() {
    let mut tsm = setup();
    let mut rids = Vec::new();
    for i in 0..200u8 {
        rids.push(tsm.insert_row("TEST", "TESTTABLE", &[i; 30]).unwrap());
    }
    tsm.flush_all().unwrap();
    let image = tsm.table_image("TEST", "TESTTABLE").unwrap();
    let heap = HeapFile::open(&image.dat, None, PAGE_SIZE).unwrap();
    let mut again = open_with("TESTTABLE", heap, Some(image.fsm));
    for (i, rid) in rids.iter().enumerate() {
        assert_eq!(again.read_row("TEST", "TESTTABLE", *rid).unwrap(), vec![i as u8; 30]);
    }
}

#[test]
fn what_no_table_uses_is_no_obstacle() {
    let space = |id: i32, pagesize: i32, pool: i32| Tablespace {
        tbspaceid: id,
        tbspace: format!("SPACE{id}"),
        tbspacetype: "D".to_string(),
        datatype: "A".to_string(),
        pagesize,
        state: "N".to_string(),
        bufferpoolid: pool,
    };
    let pool = |id: i32, pagesize: i32, npages: i32| BufferPool {
        bpid: id,
        bpname: format!("POOL{id}"),
        pagesize,
        npages,
    };
    let catalog = Catalog {
        tablespaces: vec![space(1, 256, 9), space(2, 8, 3), space(3, 256, 77)],
        schemas: Vec::new(),
        tables: vec![Table {
            tableid: 1,
            name: "T".to_string(),
            schemaname: "TEST".to_string(),
            tbspaceid: 1,
            colcount: 1,
        }],
        columns: Vec::new(),
        bufferpools: vec![pool(9, 256, 4), pool(3, 8, 0)],
    };
    let cache = CatalogCache::new(catalog, DbConfig::default());
    assert!(catalog_is_sound(&cache));
    let heap = HeapFile::create(256).unwrap();
    let mut tsm = TablespaceManager::open(&cache, vec![TableFiles { heap, fsm: None }]).unwrap();
    assert_eq!(tsm.pool_manager().pool_ids(), vec![(3, "POOL3"), (9, "POOL9")]);
    assert_eq!(tsm.pool_manager().get(9).unwrap().file_count(), 1);
    assert_eq!(tsm.pool_manager().get(3).unwrap().capacity(), 0);
    tsm.insert_row("TEST", "T", b"row").unwrap();
    assert!(tsm.is_space_ready(1));
    assert!(tsm.is_space_ready(2));
    assert!(tsm.is_space_ready(3));
    let err = tsm.register_new_table("TEST", "U", 3).unwrap_err();
    assert_eq!(err.to_string(), "catalog error: buffer pool 77 not found");
    tsm.register_new_table("TEST", "V", 2).unwrap();
    assert!(tsm.is_touchable("TEST", "V"));
    let err = tsm.insert_row("TEST", "V", b"row").unwrap_err();
    assert_eq!(err.to_string(), "catalog error: buffer pool full: all frames are pinned");
}

#[test]
fn a_page_that_is_not_there_is_counted_on_disk() {
    let mut tsm = setup();
    let rid = tsm.insert_row("TEST", "TESTTABLE", b"row").unwrap();
    let err = tsm.read_row("TEST", "TESTTABLE", Rid { page_id: 7, slot: 0 }).unwrap_err();
    assert_eq!(err.to_string(), "data corruption: page 7 out of range (file has 0 pages)");
    tsm.flush_all().unwrap();
    let err = tsm.delete_row("TEST", "TESTTABLE", Rid { page_id: 7, slot: 0 }).unwrap_err();
    assert_eq!(err.to_string(), "data corruption: page 7 out of range (file has 1 pages)");
    assert_eq!(tsm.read_row("TEST", "TESTTABLE", rid).unwrap(), b"row");
}

#[test]
fn names_that_run_together_are_kept_apart() {
    let mut tsm = setup();
    tsm.register_new_table("A", "BC", 1).unwrap();
    tsm.register_new_table("AB", "C", 1).unwrap();
    tsm.insert_row("A", "BC", b"one").unwrap();
    assert_eq!(tsm.table_scan("A", "BC").unwrap().len(), 1);
    assert!(tsm.table_scan("AB", "C").unwrap().is_empty());
    assert!(!tsm.has_table("ABC", ""));
    tsm.drop_table("A", "BC").unwrap();
    assert!(!tsm.has_table("A", "BC"));
    assert!(tsm.has_table("AB", "C"));
    assert!(tsm.has_table("TEST", "TESTTABLE"));
}

#[test]
fn a_row_of_a_table_goes_to_a_page_that_has_just_enough_room() {
    let mut tsm = setup();
    // A page of 256 bytes has 228 for its first row.
    tsm.insert_row("TEST", "TESTTABLE", &[1; 125]).unwrap();
    let rid = tsm.insert_row("TEST", "TESTTABLE", &[2; 99]).unwrap();
    assert_eq!((rid.page_id, rid.slot), (0, 1));
}

/// A manager with one table, in a pool of some frames of some size.
fn open_in(pagesize: i32, npages: i32, heap: HeapFile) -> TablespaceManager {
    let catalog = Catalog {
        tablespaces: vec![Tablespace {
            tbspaceid: 1,
            tbspace: "S".to_string(),
            tbspacetype: "D".to_string(),
            datatype: "A".to_string(),
            pagesize,
            state: "N".to_string(),
            bufferpoolid: 1,
        }],
        schemas: Vec::new(),
        tables: vec![Table {
            tableid: 1,
            name: "T".to_string(),
            schemaname: "TEST".to_string(),
            tbspaceid: 1,
            colcount: 1,
        }],
        columns: Vec::new(),
        bufferpools: vec![BufferPool {
            bpid: 1,
            bpname: "P".to_string(),
            pagesize,
            npages,
        }],
    };
    let cache = CatalogCache::new(catalog, DbConfig::default());
    assert!(catalog_is_sound(&cache));
    TablespaceManager::open(&cache, vec![TableFiles { heap, fsm: None }]).unwrap()
}

#[test]
fn a_pool_without_a_frame_shows_no_page() {
    const FULL: &str = "catalog error: buffer pool full: all frames are pinned";
    let mut tsm = open_in(256, 0, HeapFile::create(256).unwrap());
    assert!(tsm.table_scan("TEST", "T").unwrap().is_empty());
    let rid = Rid { page_id: 0, slot: 0 };
    assert_eq!(tsm.read_row("TEST", "T", rid).unwrap_err().to_string(), FULL);
    assert_eq!(tsm.delete_row("TEST", "T", rid).unwrap_err().to_string(), FULL);
    assert_eq!(tsm.update_row("TEST", "T", rid, b"x").unwrap_err().to_string(), FULL);
    // The page that was counted for a row stays counted.
    assert_eq!(tsm.insert_row("TEST", "T", b"x").unwrap_err().to_string(), FULL);
    assert_eq!(tsm.table_scan("TEST", "T").unwrap_err().to_string(), FULL);
    tsm.flush_all().unwrap();
    assert!(tsm.table_image("TEST", "T").unwrap().dat.is_empty());

    let mut heap = HeapFile::create(256).unwrap();
    heap.insert_row(b"kept").unwrap();
    let mut tsm = open_in(256, 0, heap);
    assert_eq!(tsm.table_scan("TEST", "T").unwrap_err().to_string(), FULL);
    assert_eq!(tsm.insert_row("TEST", "T", b"x").unwrap_err().to_string(), FULL);
    assert_eq!(tsm.table_image("TEST", "T").unwrap().dat.len(), 256);
    tsm.drop_table("TEST", "T").unwrap();
    assert!(!tsm.has_table("TEST", "T"));
}

#[test]
fn a_page_without_room_for_a_slot_takes_no_row() {
    let mut tsm = open_in(20, 4, HeapFile::create(20).unwrap());
    let err = tsm.insert_row("TEST", "T", b"x").unwrap_err();
    assert_eq!(err.to_string(), "catalog error: row too large for a single page");
    assert!(tsm.table_scan("TEST", "T").unwrap().is_empty());
    let err = tsm.read_row("TEST", "T", Rid { page_id: 0, slot: 0 }).unwrap_err();
    assert_eq!(err.to_string(), "data corruption: row not found at page=0, slot=0");
    assert!(!tsm.delete_row("TEST", "T", Rid { page_id: 0, slot: 0 }).unwrap());
}

#[test]
fn a_table_whose_pages_cannot_be_looked_at_is_opened() {
    let mut tsm = open_in(16, 4, HeapFile::create(16).unwrap());
    assert!(tsm.has_table("TEST", "T"));
    assert!(tsm.is_scannable("TEST", "T"));
    assert!(!tsm.is_touchable("TEST", "T"));
    assert!(tsm.table_scan("TEST", "T").unwrap().is_empty());

    let heap = HeapFile::open_checked(&[7; 40], None, 16).unwrap().unwrap();
    let mut tsm = open_in(16, 4, heap);
    assert!(!tsm.is_scannable("TEST", "T"));
    assert!(!tsm.is_touchable("TEST", "T"));
    assert!(tsm.is_scannable("TEST", "U"));
    assert!(tsm.is_touchable("TEST", "U"));
    tsm.flush_all().unwrap();
    assert_eq!(tsm.table_image("TEST", "T").unwrap().dat, vec![7; 32]);
    tsm.drop_table("TEST", "T").unwrap();
    assert!(!tsm.has_table("TEST", "T"));

    let tsm = open_in(17, 4, HeapFile::create(17).unwrap());
    assert!(tsm.is_touchable("TEST", "T"));
}

#[test]
fn a_failed_call_releases_its_page() {
    let mut tsm = setup();
    let rid = tsm.insert_row("TEST", "TESTTABLE", b"row").unwrap();
    assert!(tsm.read_row("TEST", "TESTTABLE", Rid { page_id: 0, slot: 9 }).is_err());
    assert!(tsm.insert_row("TEST", "TESTTABLE", &[0; 300]).is_err());
    assert!(tsm.delete_row("TEST", "TESTTABLE", rid).unwrap());
    let rid = tsm.insert_row("TEST", "TESTTABLE", b"again").unwrap();
    assert_eq!(tsm.read_row("TEST", "TESTTABLE", rid).unwrap(), b"again");
}
