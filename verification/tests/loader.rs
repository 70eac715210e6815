use rqdb::catalog::bootstrap::{
    bootstrap, write_sysbufferpools, write_syscolumns, write_sysschemas, write_systables,
    write_systablespaces, DatFile,
};
use rqdb::catalog::config::DbConfig;
use rqdb::catalog::loader::{
    load_bufferpools, load_columns, load_schemas, load_tables, load_tablespaces, CatalogFile,
};
use rqdb::error::DbResult;

fn file(f: DatFile) -> CatalogFile {
    match f {
        DatFile::Text(s) => CatalogFile::Text(s),
        DatFile::Rows(h) => CatalogFile::Rows(h),
    }
}

fn text(f: DbResult<DatFile>) -> String {
    match f.unwrap() {
        DatFile::Text(s) => s,
        DatFile::Rows(_) => panic!("expected a text"),
    }
}

#[test]
fn text_files_are_exact() {
    assert_eq!(text(write_sysschemas(4096, true)), "NAME\nRQSYS\nPUBLIC\n");
    assert_eq!(
        text(write_systablespaces(4096, true)),
        "TBSPACEID\tTBSPACE\tTBSPACETYPE\tDATATYPE\tPAGESIZE\tSTATE\tBUFFERPOOLID\n\
         1\tSYSTBSP\tS\tA\t4096\tN\t1\n\
         2\tUSERTBSP\tD\tA\t4096\tN\t1\n\
         3\tTEMPTBSP\tD\tT\t4096\tN\t4\n"
    );
    assert_eq!(
        text(write_sysbufferpools(4096, true)),
        "BPID\tBPNAME\tPAGESIZE\tNPAGES\n\
         1\tRQDEFAULTBP\t4096\t128\n\
         2\tINDEXBP\t4096\t64\n\
         3\tLOBBP\t32768\t32\n\
         4\tTEMPBP\t4096\t64\n"
    );
}

#[test]
fn what_is_written_is_read_in_both_modes() {
    for text_mode in [false, true] {
        let spaces = load_tablespaces(&file(write_systablespaces(4096, text_mode).unwrap())).unwrap();
        let names: Vec<&str> = spaces.iter().map(|t| t.tbspace.as_str()).collect();
        assert_eq!(names, vec!["SYSTBSP", "USERTBSP", "TEMPTBSP"]);
        assert_eq!(spaces[2].bufferpoolid, 4);

        let schemas = load_schemas(&file(write_sysschemas(4096, text_mode).unwrap())).unwrap();
        assert_eq!(schemas.len(), 2);

        let tables = load_tables(&file(write_systables(4096, text_mode).unwrap())).unwrap();
        let counts: Vec<i16> = tables.iter().map(|t| t.colcount).collect();
        assert_eq!(counts, vec![7, 1, 5, 6, 4]);

        let columns = load_columns(&file(write_syscolumns(4096, text_mode).unwrap())).unwrap();
        assert_eq!(columns.len(), 23);
        assert!(columns.iter().all(|c| !c.nullable));
        for t in &tables {
            let n = columns.iter().filter(|c| c.tabname == t.name).count();
            assert_eq!(n, t.colcount as usize);
        }

        let pools = load_bufferpools(&file(write_sysbufferpools(4096, text_mode).unwrap())).unwrap();
        assert_eq!(pools[2].pagesize, 32768);
    }
}

#[test]
fn damaged_texts_are_refused() {
    let missing = CatalogFile::Text("NAME\nonly\tone\n".to_string());
    assert!(load_schemas(&missing).is_ok());
    let err = load_bufferpools(&CatalogFile::Text("HEAD\n1\tBP\n".to_string())).unwrap_err();
    assert_eq!(err.to_string(), "data corruption: missing column 2 in SYSBUFFERPOOLS");
    let err = load_bufferpools(&CatalogFile::Text("HEAD\nx\tBP\t1\t1\n".to_string())).unwrap_err();
    assert_eq!(err.to_string(), "data corruption: invalid digit found in string");
}

#[test]
fn empty_lines_are_passed_over() {
    let t = CatalogFile::Text("NAME\n\nA\n\nB\r\n".to_string());
    let names: Vec<String> = load_schemas(&t).unwrap().into_iter().map(|s| s.name).collect();
    assert_eq!(names, vec!["A", "B"]);
    assert!(load_schemas(&CatalogFile::Text(String::new())).unwrap().is_empty());
}

#[test]
fn small_pages_cannot_hold_the_catalog() {
    let mut config = DbConfig::default();
    config.page_size = 64;
    let err = bootstrap(&config).err().unwrap();
    assert_eq!(err.to_string(), "catalog error: row too large for a single page");
    config.page_size = 17;
    let err = bootstrap(&config).err().unwrap();
    assert_eq!(err.to_string(), "catalog error: row too large for a single page");
    config.text_mode = true;
    assert!(bootstrap(&config).is_ok());
    config.page_size = 1;
    assert!(bootstrap(&config).is_ok());
}

#[test]
fn the_catalog_describes_itself() {
    for text_mode in [false, true] {
        let tables = load_tables(&file(write_systables(4096, text_mode).unwrap())).unwrap();
        let columns = load_columns(&file(write_syscolumns(4096, text_mode).unwrap())).unwrap();
        for t in &tables {
            let mut places = Vec::new();
            let mut names = Vec::new();
            for c in columns.iter().filter(|c| c.tabname == t.name) {
                assert_eq!(c.schemaname, "RQSYS");
                assert!(!c.nullable);
                places.push(c.ordinal);
                names.push(c.name.clone());
            }
            places.sort();
            assert_eq!(places, (0..t.colcount).collect::<Vec<i16>>());
            names.sort();
            names.dedup();
            assert_eq!(names.len(), t.colcount as usize);
        }
        assert!(columns.iter().all(|c| tables.iter().any(|t| t.name == c.tabname)));
    }
}

#[test]
fn rows_on_one_page_are_read_in_the_order_of_the_text() {
    let names = |text_mode: bool| -> Vec<(String, String)> {
        let columns = load_columns(&file(write_syscolumns(4096, text_mode).unwrap())).unwrap();
        columns.into_iter().map(|c| (c.tabname, c.name)).collect()
    };
    assert_eq!(names(false), names(true));
    assert_eq!(names(false)[22], ("SYSBUFFERPOOLS".to_string(), "NPAGES".to_string()));
    let ids = |text_mode: bool| -> Vec<i32> {
        let spaces = write_systablespaces(4096, text_mode).unwrap();
        load_tablespaces(&file(spaces)).unwrap().iter().map(|t| t.tbspaceid).collect()
    };
    assert_eq!(ids(false), vec![1, 2, 3]);
    assert_eq!(ids(true), vec![1, 2, 3]);
}
