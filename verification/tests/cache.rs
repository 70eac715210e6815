use rqdb::catalog::cache::CatalogCache;
use rqdb::catalog::config::DbConfig;
use rqdb::catalog::types::{BufferPool, Catalog, Column, Schema, Table, Tablespace};

fn test_catalog() -> Catalog {
    Catalog {
        tablespaces: vec![
            Tablespace {
                tbspaceid: 1,
                tbspace: "SYSTBSP".into(),
                tbspacetype: "S".into(),
                datatype: "A".into(),
                pagesize: 4096,
                state: "N".into(),
                bufferpoolid: 1,
            },
            Tablespace {
                tbspaceid: 2,
                tbspace: "USERTBSP".into(),
                tbspacetype: "D".into(),
                datatype: "A".into(),
                pagesize: 4096,
                state: "N".into(),
                bufferpoolid: 1,
            },
        ],
        schemas: vec![Schema { name: "RQSYS".into() }],
        tables: vec![
            Table {
                tableid: 1,
                name: "SYSTABLESPACES".into(),
                schemaname: "RQSYS".into(),
                tbspaceid: 1,
                colcount: 7,
            },
            Table {
                tableid: 2,
                name: "SYSTABLES".into(),
                schemaname: "RQSYS".into(),
                tbspaceid: 1,
                colcount: 5,
            },
        ],
        columns: vec![
            Column {
                name: "TBSPACEID".into(),
                tabname: "SYSTABLESPACES".into(),
                schemaname: "RQSYS".into(),
                ordinal: 0,
                typename: "INTEGER".into(),
                nullable: false,
            },
            Column {
                name: "TBSPACE".into(),
                tabname: "SYSTABLESPACES".into(),
                schemaname: "RQSYS".into(),
                ordinal: 1,
                typename: "VARCHAR(128)".into(),
                nullable: false,
            },
            Column {
                name: "TBSPACETYPE".into(),
                tabname: "SYSTABLESPACES".into(),
                schemaname: "RQSYS".into(),
                ordinal: 2,
                typename: "CHAR(1)".into(),
                nullable: false,
            },
            Column {
                name: "DATATYPE".into(),
                tabname: "SYSTABLESPACES".into(),
                schemaname: "RQSYS".into(),
                ordinal: 3,
                typename: "CHAR(1)".into(),
                nullable: false,
            },
            Column {
                name: "PAGESIZE".into(),
                tabname: "SYSTABLESPACES".into(),
                schemaname: "RQSYS".into(),
                ordinal: 4,
                typename: "INTEGER".into(),
                nullable: false,
            },
            Column {
                name: "STATE".into(),
                tabname: "SYSTABLESPACES".into(),
                schemaname: "RQSYS".into(),
                ordinal: 5,
                typename: "CHAR(1)".into(),
                nullable: false,
            },
            Column {
                name: "BUFFERPOOLID".into(),
                tabname: "SYSTABLESPACES".into(),
                schemaname: "RQSYS".into(),
                ordinal: 6,
                typename: "INTEGER".into(),
                nullable: false,
            },
            Column {
                name: "TABLEID".into(),
                tabname: "SYSTABLES".into(),
                schemaname: "RQSYS".into(),
                ordinal: 0,
                typename: "INTEGER".into(),
                nullable: false,
            },
            Column {
                name: "NAME".into(),
                tabname: "SYSTABLES".into(),
                schemaname: "RQSYS".into(),
                ordinal: 1,
                typename: "VARCHAR(128)".into(),
                nullable: false,
            },
            Column {
                name: "SCHEMANAME".into(),
                tabname: "SYSTABLES".into(),
                schemaname: "RQSYS".into(),
                ordinal: 2,
                typename: "VARCHAR(128)".into(),
                nullable: false,
            },
            Column {
                name: "TBSPACEID".into(),
                tabname: "SYSTABLES".into(),
                schemaname: "RQSYS".into(),
                ordinal: 3,
                typename: "SMALLINT".into(),
                nullable: false,
            },
            Column {
                name: "COLCOUNT".into(),
                tabname: "SYSTABLES".into(),
                schemaname: "RQSYS".into(),
                ordinal: 4,
                typename: "SMALLINT".into(),
                nullable: false,
            },
        ],
        bufferpools: vec![
            BufferPool {
                bpid: 1,
                bpname: "RQDEFAULTBP".into(),
                pagesize: 4096,
                npages: 128,
            },
        ],
    }
}

#[test]
fn lookup_table_by_name() {
    let cache = CatalogCache::new(test_catalog(), DbConfig::default());
    let t = cache.get_table("RQSYS", "SYSTABLESPACES").unwrap();
    assert_eq!(t.name, "SYSTABLESPACES");
    assert_eq!(t.colcount, 7);
    assert!(cache.get_table("RQSYS", "NONEXISTENT").is_none());
}

#[test]
fn lookup_tablespace_by_id() {
    let cache = CatalogCache::new(test_catalog(), DbConfig::default());
    let ts = cache.get_tablespace_by_id(1).unwrap();
    assert_eq!(ts.tbspace, "SYSTBSP");
    let ts2 = cache.get_tablespace_by_id(2).unwrap();
    assert_eq!(ts2.tbspace, "USERTBSP");
    assert!(cache.get_tablespace_by_id(99).is_none());
}

#[test]
fn lookup_columns_sorted() {
    let cache = CatalogCache::new(test_catalog(), DbConfig::default());
    let cols = cache.get_columns("RQSYS", "SYSTABLESPACES").unwrap();
    assert_eq!(cols.len(), 7);
    assert_eq!(cols[0].name, "TBSPACEID");
    assert_eq!(cols[1].name, "TBSPACE");
    assert_eq!(cols[6].name, "BUFFERPOOLID");
    // Ordinals are in order.
    assert!(cols[0].ordinal < cols[1].ordinal);
}

#[test]
fn cached_table_data_matches() {
    let cache = CatalogCache::new(test_catalog(), DbConfig::default());
    let ct = cache.get_table_data("RQSYS", "SYSTABLESPACES").unwrap();
    assert_eq!(ct.column_names.len(), 7);
    assert_eq!(ct.rows.len(), 2);
    // O(1) column index works.
    assert_eq!(ct.column_index.get("TBSPACEID").unwrap(), 0);
    assert_eq!(ct.column_index.get("BUFFERPOOLID").unwrap(), 6);
}

#[test]
fn cached_table_not_found() {
    let cache = CatalogCache::new(test_catalog(), DbConfig::default());
    assert!(cache.get_table_data("RQSYS", "NONEXISTENT").is_none());
}

#[test]
fn schema_lookup() {
    let cache = CatalogCache::new(test_catalog(), DbConfig::default());
    assert!(cache.has_schema("RQSYS"));
    assert!(!cache.has_schema("BOGUS"));
}

// ── Changes ──

fn new_table(name: &str, id: i32) -> Table {
    Table {
        tableid: id,
        name: name.to_string(),
        schemaname: "PUBLIC".to_string(),
        tbspaceid: 2,
        colcount: 1,
    }
}

fn new_column(table: &str, name: &str, ordinal: i16) -> Column {
    Column {
        name: name.to_string(),
        tabname: table.to_string(),
        schemaname: "PUBLIC".to_string(),
        ordinal,
        typename: "INTEGER".to_string(),
        nullable: true,
    }
}

#[test]
fn registered_table_is_found_and_unregistered_one_is_not() {
    let mut cache = CatalogCache::new(test_catalog(), DbConfig::default());
    let id = cache.next_table_id();
    assert_eq!(id, 3);
    cache.register_table(new_table("T", id), vec![new_column("T", "X", 0)]);
    assert_eq!(cache.get_table("PUBLIC", "T").unwrap().tableid, 3);
    assert_eq!(cache.get_columns("PUBLIC", "T").unwrap().len(), 1);
    let (names, index) = cache.get_column_meta("PUBLIC", "T").unwrap();
    assert_eq!(names, &vec!["X".to_string()]);
    assert_eq!(index.get("X"), Some(0));
    assert_eq!(index.get("x"), None);
    // The tables of the catalog show it.
    assert_eq!(cache.get_table_data("RQSYS", "SYSTABLES").unwrap().rows.len(), 3);
    assert_eq!(cache.next_table_id(), 4);

    cache.unregister_table("PUBLIC", "T");
    assert!(cache.get_table("PUBLIC", "T").is_none());
    assert!(cache.get_columns("PUBLIC", "T").is_none());
    assert!(cache.get_column_meta("PUBLIC", "T").is_none());
    assert_eq!(cache.get_table_data("RQSYS", "SYSTABLES").unwrap().rows.len(), 2);
    assert_eq!(cache.get_table("RQSYS", "SYSTABLES").unwrap().colcount, 5);
}

#[test]
fn registered_schema_is_there() {
    let mut cache = CatalogCache::new(test_catalog(), DbConfig::default());
    assert!(!cache.has_schema("MINE"));
    cache.register_schema(Schema { name: "MINE".to_string() });
    assert!(cache.has_schema("MINE"));
    assert!(cache.has_schema("RQSYS"));
}

#[test]
fn columns_come_in_the_order_of_their_ordinals() {
    let mut catalog = test_catalog();
    catalog.columns = vec![
        new_column("T", "C", 2),
        new_column("U", "Z", 0),
        new_column("T", "A", 0),
        new_column("T", "B", 1),
    ];
    let cache = CatalogCache::new(catalog, DbConfig::default());
    let names: Vec<&str> =
        cache.get_columns("PUBLIC", "T").unwrap().iter().map(|c| c.name.as_str()).collect();
    assert_eq!(names, vec!["A", "B", "C"]);
}

#[test]
fn default_tablespace_is_found_by_name() {
    let cache = CatalogCache::new(test_catalog(), DbConfig::default());
    assert_eq!(cache.default_tablespace_id(), 2);
    let mut config = DbConfig::default();
    config.default_tablespace = "SYSTBSP".to_string();
    assert_eq!(CatalogCache::new(test_catalog(), config).default_tablespace_id(), 1);
    let mut config = DbConfig::default();
    config.default_tablespace = "NOWHERE".to_string();
    assert_eq!(CatalogCache::new(test_catalog(), config).default_tablespace_id(), 2);
}

#[test]
fn rows_of_the_catalog_are_exact() {
    let cache = CatalogCache::new(test_catalog(), DbConfig::default());
    let rows = &cache.get_table_data("RQSYS", "SYSTABLES").unwrap().rows;
    let shown: Vec<String> = rows[1].iter().map(|v| v.to_string()).collect();
    assert_eq!(shown, vec!["2", "SYSTABLES", "RQSYS", "1", "5"]);
}
