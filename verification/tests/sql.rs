use std::collections::HashMap;

use rqdb::catalog::bootstrap::{DatFile, NewDatabase};
use rqdb::catalog::cache::CatalogCache;
use rqdb::catalog::config::DbConfig;
use rqdb::catalog::loader::{load_catalog, CatalogFile, CatalogFiles};
use rqdb::catalog::row::MIN_COLUMN_BYTES;
use rqdb::catalog::types::{BufferPool, Catalog, Column, Table, Tablespace};
use rqdb::db::{dat_file_name, map_file_name, space_dir};
use rqdb::error::{DbResult, Error, SqlState};
use rqdb::sql::ast;
use rqdb::sql::executor::{execute, is_ok};
use rqdb::sql::parser::{is_parseable, parse as parse_text, parse_checked, parsed};
use rqdb::sql::types::{ResultSet, Value};
use rqdb::storage::heap::{file_is_sound, fsm_path_for, is_usable, HeapFile};
use rqdb::storage::page::PAGE_HEADER_SIZE;
use rqdb::storage::tablespace::{catalog_is_sound, TableFiles, TablespaceManager};
use rqdb::storage::tuple::TUPLE_HEADER_SIZE;
use sqlparser::ast as sql;

// ── A disk in memory ──

#[derive(Default)]
struct Disk(HashMap<String, Vec<u8>>);

impl Disk {
    fn put_dat(&mut self, table: &str, file: DatFile) {
        let path = format!("systbsp/{}", dat_file_name("RQSYS", table));
        match file {
            DatFile::Text(s) => {
                self.0.insert(path, s.into_bytes());
            }
            DatFile::Rows(h) => {
                self.0.insert(fsm_path_for(&path), h.save_fsm());
                self.0.insert(path, h.file_bytes());
            }
        }
    }

    fn put(&mut self, db: NewDatabase) {
        self.0.insert("admin/SQLDBCONF".to_string(), db.sqldbconf.into_bytes());
        self.put_dat("SYSTABLESPACES", db.systablespaces);
        self.put_dat("SYSSCHEMAS", db.sysschemas);
        self.put_dat("SYSTABLES", db.systables);
        self.put_dat("SYSCOLUMNS", db.syscolumns);
        self.put_dat("SYSBUFFERPOOLS", db.sysbufferpools);
    }

    fn has(&self, path: &str) -> bool {
        self.0.contains_key(path)
    }

    fn text(&self, path: &str) -> Option<String> {
        self.0.get(path).map(|b| String::from_utf8(b.clone()).unwrap())
    }

    fn config(&self) -> DbConfig {
        DbConfig::read(&self.text("admin/SQLDBCONF").unwrap()).unwrap()
    }

    fn catalog_file(&self, table: &str, config: &DbConfig) -> CatalogFile {
        let path = format!("systbsp/{}", dat_file_name(&config.sys_schema, table));
        if config.text_mode {
            return CatalogFile::Text(self.text(&path).unwrap());
        }
        let bytes = &self.0[&path];
        assert!(file_is_sound(bytes, config.page_size));
        let map = self.0.get(&fsm_path_for(&path)).map(|b| b.as_slice());
        CatalogFile::Rows(HeapFile::open(bytes, map, config.page_size).unwrap())
    }

    fn catalog_files(&self, config: &DbConfig) -> CatalogFiles {
        CatalogFiles {
            tablespaces: self.catalog_file("SYSTABLESPACES", config),
            schemas: self.catalog_file("SYSSCHEMAS", config),
            tables: self.catalog_file("SYSTABLES", config),
            columns: self.catalog_file("SYSCOLUMNS", config),
            bufferpools: self.catalog_file("SYSBUFFERPOOLS", config),
        }
    }

    fn table_files(&self, cache: &CatalogCache) -> Vec<TableFiles> {
        let mut out = Vec::new();
        for t in &cache.catalog().tables {
            let ts = cache.get_tablespace_by_id(t.tbspaceid as i32).unwrap();
            let dir = space_dir(&ts.tbspace);
            let dat = format!("{dir}/{}", dat_file_name(&t.schemaname, &t.name));
            let map = format!("{dir}/{}", map_file_name(&t.schemaname, &t.name));
            let bytes = self.0.get(&dat).cloned().unwrap_or_default();
            assert!(file_is_sound(&bytes, ts.pagesize as usize));
            let heap = HeapFile::open(&bytes, None, ts.pagesize as usize).unwrap();
            assert!(heap.is_numbered());
            assert!(is_usable(ts.pagesize as usize));
            out.push(TableFiles { heap, fsm: self.0.get(&map).cloned() });
        }
        out
    }

    /// Loads the catalog and opens the tables.
    fn load(&self) -> (CatalogCache, TablespaceManager) {
        let config = self.config();
        let catalog = load_catalog(&self.catalog_files(&config)).unwrap();
        let cache = CatalogCache::new(catalog, config);
        assert!(catalog_is_sound(&cache));
        let tsm = TablespaceManager::open(&cache, self.table_files(&cache)).unwrap();
        (cache, tsm)
    }

    /// Flushes, and writes the files of all tables.
    fn save(&mut self, cache: &CatalogCache, tsm: &mut TablespaceManager) {
        tsm.flush_all().unwrap();
        for t in &cache.catalog().tables {
            let ts = cache.get_tablespace_by_id(t.tbspaceid as i32).unwrap();
            let dir = space_dir(&ts.tbspace);
            let image = tsm.table_image(&t.schemaname, &t.name).unwrap();
            self.0.insert(format!("{dir}/{}", dat_file_name(&t.schemaname, &t.name)), image.dat);
            self.0.insert(format!("{dir}/{}", map_file_name(&t.schemaname, &t.name)), image.fsm);
        }
    }

    /// Opens the database `name` that is on this disk, if there is one.
    fn connect(&self, name: &str) -> DbResult<rqdb::db::DbState> {
        if !self.has("admin/SQLDBCONF") {
            // No file of it is read.
            let empty = || CatalogFile::Text("\n".to_string());
            let files = CatalogFiles {
                tablespaces: empty(),
                schemas: empty(),
                tables: empty(),
                columns: empty(),
                bufferpools: empty(),
            };
            return rqdb::open_database(name, &format!("/data/{name}"), None, &files, Vec::new());
        }
        let config = self.config();
        let files = self.catalog_files(&config);
        let cache = CatalogCache::new(load_catalog(&files).unwrap(), self.config());
        let conf = self.text("admin/SQLDBCONF");
        rqdb::open_database(
            name,
            &format!("/data/{name}"),
            conf.as_deref(),
            &files,
            self.table_files(&cache),
        )
    }

    /// Makes the database `name` on this disk.
    fn create(&mut self, name: &str) -> DbResult<()> {
        let present = self.has("admin/SQLDBCONF");
        let db = rqdb::create_database(name, &format!("/data/{name}"), present, false)?;
        self.put(db);
        Ok(())
    }
}

// ── Statements ──

fn parse(text: &str) -> DbResult<Vec<ast::Command>> {
    let stmts = parse_checked(text).unwrap()?;
    Ok(stmts.iter().map(to_command).collect())
}

fn to_name(n: &sql::ObjectName) -> ast::ObjectName {
    ast::ObjectName {
        parts: n.0.iter().map(|p| p.as_ident().unwrap().value.clone()).collect(),
        text: n.to_string(),
    }
}

fn to_expr(e: &sql::Expr) -> ast::Expr {
    let kind = match e {
        sql::Expr::Identifier(i) => ast::ExprKind::Identifier(i.value.clone()),
        sql::Expr::CompoundIdentifier(parts) => {
            ast::ExprKind::Compound(parts.iter().map(|i| i.value.clone()).collect())
        }
        sql::Expr::Value(v) => ast::ExprKind::Value(match &v.value {
            sql::Value::SingleQuotedString(s) => ast::Literal::Text(s.clone()),
            sql::Value::Number(n, _) => ast::Literal::Number(n.clone()),
            sql::Value::Null => ast::Literal::Null,
            _ => ast::Literal::Other,
        }),
        sql::Expr::UnaryOp { op: sql::UnaryOperator::Minus, expr } => {
            ast::ExprKind::Minus(Box::new(to_expr(expr)))
        }
        sql::Expr::BinaryOp { left, op, right } => {
            let op = match op {
                sql::BinaryOperator::And => ast::BinaryOp::And,
                sql::BinaryOperator::Or => ast::BinaryOp::Or,
                sql::BinaryOperator::Eq => ast::BinaryOp::Eq,
                sql::BinaryOperator::NotEq => ast::BinaryOp::NotEq,
                other => ast::BinaryOp::Other(other.to_string()),
            };
            ast::ExprKind::Binary(Box::new(to_expr(left)), op, Box::new(to_expr(right)))
        }
        _ => ast::ExprKind::Other,
    };
    ast::Expr { kind, text: e.to_string() }
}

fn to_table(t: &sql::TableWithJoins) -> ast::TableWithJoins {
    let relation = match &t.relation {
        sql::TableFactor::Table { name, .. } => ast::TableFactor::Table(to_name(name)),
        _ => ast::TableFactor::Other,
    };
    ast::TableWithJoins { relation, joins: t.joins.len() }
}

fn to_item(i: &sql::SelectItem) -> ast::SelectItem {
    match i {
        sql::SelectItem::Wildcard(_) => ast::SelectItem::Wildcard,
        sql::SelectItem::UnnamedExpr(e) => ast::SelectItem::Unnamed(to_expr(e)),
        other => ast::SelectItem::Other(other.to_string()),
    }
}

fn to_query(q: &sql::Query) -> ast::QueryBody {
    match q.body.as_ref() {
        sql::SetExpr::Select(s) => ast::QueryBody::Select(ast::Select {
            from: s.from.iter().map(to_table).collect(),
            projection: s.projection.iter().map(to_item).collect(),
            selection: s.selection.as_ref().map(to_expr),
        }),
        sql::SetExpr::Values(v) => ast::QueryBody::Values(
            v.rows.iter().map(|row| row.iter().map(to_expr).collect()).collect(),
        ),
        _ => ast::QueryBody::Other,
    }
}

fn to_length(len: &Option<sql::CharacterLength>) -> Option<ast::CharLength> {
    len.as_ref().map(|l| match l {
        sql::CharacterLength::IntegerLength { length, .. } => ast::CharLength::Integer(*length),
        sql::CharacterLength::Max => ast::CharLength::Max,
    })
}

fn to_type(t: &sql::DataType) -> ast::SqlType {
    match t {
        sql::DataType::SmallInt(_) => ast::SqlType::SmallInt,
        sql::DataType::Int(_) => ast::SqlType::Int,
        sql::DataType::Integer(_) => ast::SqlType::Integer,
        sql::DataType::BigInt(_) => ast::SqlType::BigInt,
        sql::DataType::Double(_) => ast::SqlType::Double,
        sql::DataType::DoublePrecision => ast::SqlType::DoublePrecision,
        sql::DataType::Varchar(len) => ast::SqlType::Varchar(to_length(len)),
        sql::DataType::Char(len) => ast::SqlType::Char(to_length(len)),
        sql::DataType::Character(len) => ast::SqlType::Character(to_length(len)),
        sql::DataType::Timestamp(_, _) => ast::SqlType::Timestamp,
        sql::DataType::Boolean => ast::SqlType::Boolean,
        other => ast::SqlType::Other(other.to_string()),
    }
}

fn to_option(o: &sql::ColumnOptionDef) -> ast::ColumnOption {
    match &o.option {
        sql::ColumnOption::NotNull => ast::ColumnOption::NotNull,
        _ => ast::ColumnOption::Other,
    }
}

fn to_column(c: &sql::ColumnDef) -> ast::ColumnSpec {
    ast::ColumnSpec {
        name: c.name.value.clone(),
        data_type: to_type(&c.data_type),
        options: c.options.iter().map(to_option).collect(),
    }
}

fn to_assignment(a: &sql::Assignment) -> ast::Assignment {
    let target = match &a.target {
        sql::AssignmentTarget::ColumnName(name) => ast::AssignmentTarget::Column(to_name(name)),
        sql::AssignmentTarget::Tuple(_) => ast::AssignmentTarget::Tuple,
    };
    ast::Assignment { target, value: to_expr(&a.value) }
}

fn to_command(s: &sql::Statement) -> ast::Command {
    match s {
        sql::Statement::Query(q) => ast::Command::Query(to_query(q)),
        sql::Statement::Insert(i) => ast::Command::Insert(ast::Insert {
            table: match &i.table {
                sql::TableObject::TableName(name) => ast::InsertTarget::Name(to_name(name)),
                _ => ast::InsertTarget::Function,
            },
            columns: i.columns.iter().map(|c| c.value.clone()).collect(),
            source: i.source.as_ref().map(|q| to_query(q)),
        }),
        sql::Statement::Delete(d) => {
            let from = match &d.from {
                sql::FromTable::WithFromKeyword(tables) => tables,
                sql::FromTable::WithoutKeyword(tables) => tables,
            };
            ast::Command::Delete(ast::Delete {
                from: from.iter().map(to_table).collect(),
                selection: d.selection.as_ref().map(to_expr),
            })
        }
        sql::Statement::Update { table, assignments, selection, .. } => {
            ast::Command::Update(ast::Update {
                table: to_table(table),
                assignments: assignments.iter().map(to_assignment).collect(),
                selection: selection.as_ref().map(to_expr),
            })
        }
        sql::Statement::CreateTable(c) => ast::Command::CreateTable(ast::CreateTable {
            name: to_name(&c.name),
            columns: c.columns.iter().map(to_column).collect(),
        }),
        sql::Statement::Drop { object_type: sql::ObjectType::Table, names, if_exists, .. } => {
            ast::Command::DropTable(ast::DropTable {
                names: names.iter().map(to_name).collect(),
                if_exists: *if_exists,
            })
        }
        other => ast::Command::Other(other.to_string()),
    }
}

// ── Statements on the catalog ──

fn test_fixture(_name: &str) -> (CatalogCache, TablespaceManager, Disk) {
    let mut disk = Disk::default();
    disk.create("TESTDB").unwrap();
    let (cache, tsm) = disk.load();
    (cache, tsm, disk)
}

#[test]
fn select_star_from_systablespaces() {
    let (mut cache, mut tsm, _dir) = test_fixture("sel_star");
    let stmts = parse("SELECT * FROM SYSTABLESPACES").unwrap();
    let rs = execute(&stmts[0], &mut cache, &mut tsm).unwrap();
    assert_eq!(rs.columns.len(), 7);
    assert_eq!(rs.rows.len(), 3); // 3 tablespaces bootstrapped
}

#[test]
fn select_specific_columns() {
    let (mut cache, mut tsm, _dir) = test_fixture("sel_cols");
    let stmts = parse("SELECT tbspace, tbspaceid FROM SYSTABLESPACES").unwrap();
    let rs = execute(&stmts[0], &mut cache, &mut tsm).unwrap();
    assert_eq!(rs.columns, vec!["TBSPACE", "TBSPACEID"]);
    assert_eq!(rs.rows.len(), 3);
}

#[test]
fn select_with_schema_prefix() {
    let (mut cache, mut tsm, _dir) = test_fixture("sel_schema");
    let stmts =
        parse("SELECT * FROM RQSYS.SYSTABLESPACES").unwrap();
    let rs = execute(&stmts[0], &mut cache, &mut tsm).unwrap();
    assert_eq!(rs.rows.len(), 3);
}

#[test]
fn select_with_where_eq() {
    let (mut cache, mut tsm, _dir) = test_fixture("sel_where");
    let stmts = parse(
        "SELECT tbspace FROM SYSTABLESPACES WHERE tbspaceid = 1",
    )
    .unwrap();
    let rs = execute(&stmts[0], &mut cache, &mut tsm).unwrap();
    assert_eq!(rs.rows.len(), 1);
    assert_eq!(rs.rows[0][0].to_string(), "SYSTBSP");
}

#[test]
fn select_with_where_no_match() {
    let (mut cache, mut tsm, _dir) = test_fixture("sel_nomatch");
    let stmts = parse(
        "SELECT tbspace FROM SYSTABLESPACES WHERE tbspaceid = 99",
    )
    .unwrap();
    let rs = execute(&stmts[0], &mut cache, &mut tsm).unwrap();
    assert_eq!(rs.rows.len(), 0);
}

#[test]
fn select_with_string_where() {
    let (mut cache, mut tsm, _dir) = test_fixture("sel_str");
    let stmts = parse(
        "SELECT * FROM SYSCOLUMNS WHERE tabname = 'SYSTABLESPACES'",
    )
    .unwrap();
    let rs = execute(&stmts[0], &mut cache, &mut tsm).unwrap();
    assert_eq!(rs.rows.len(), 7); // 7 columns in SYSTABLESPACES
}

#[test]
fn select_all_catalog_tables() {
    let (mut cache, mut tsm, _dir) = test_fixture("sel_all");

    // SYSTABLES: 5 tables
    let stmts = parse("SELECT * FROM SYSTABLES").unwrap();
    let rs = execute(&stmts[0], &mut cache, &mut tsm).unwrap();
    assert_eq!(rs.rows.len(), 5);

    // SYSSCHEMAS: 2 schemas (RQSYS + PUBLIC)
    let stmts = parse("SELECT * FROM SYSSCHEMAS").unwrap();
    let rs = execute(&stmts[0], &mut cache, &mut tsm).unwrap();
    assert_eq!(rs.rows.len(), 2);

    // SYSBUFFERPOOLS: 4 pools
    let stmts = parse("SELECT * FROM SYSBUFFERPOOLS").unwrap();
    let rs = execute(&stmts[0], &mut cache, &mut tsm).unwrap();
    assert_eq!(rs.rows.len(), 4);
}

// ── INSERT tests ──

#[test]
fn insert_and_select() {
    let (mut cache, mut tsm, _dir) = test_fixture("ins_sel");

    // Insert a new tablespace row.
    let stmts = parse(
        "INSERT INTO SYSTABLESPACES VALUES (10, 'NEWTBSP', 'D', 'A', 4096, 'N', 1)",
    )
    .unwrap();
    let rs = execute(&stmts[0], &mut cache, &mut tsm).unwrap();
    assert_eq!(rs.rows[0][0].to_string(), "1"); // 1 row inserted

    // Verify it's there via SELECT.
    let stmts = parse(
        "SELECT tbspace FROM SYSTABLESPACES WHERE tbspaceid = 10",
    )
    .unwrap();
    let rs = execute(&stmts[0], &mut cache, &mut tsm).unwrap();
    assert_eq!(rs.rows.len(), 1);
    assert_eq!(rs.rows[0][0].to_string(), "NEWTBSP");
}

#[test]
fn insert_with_column_list() {
    let (mut cache, mut tsm, _dir) = test_fixture("ins_cols");

    let stmts = parse(
        "INSERT INTO SYSSCHEMAS (NAME) VALUES ('USERSCH')",
    )
    .unwrap();
    let rs = execute(&stmts[0], &mut cache, &mut tsm).unwrap();
    assert_eq!(rs.rows[0][0].to_string(), "1");

    let stmts = parse("SELECT * FROM SYSSCHEMAS").unwrap();
    let rs = execute(&stmts[0], &mut cache, &mut tsm).unwrap();
    assert_eq!(rs.rows.len(), 3); // RQSYS + PUBLIC + USERSCH
}

#[test]
fn executor_insert_multiple_rows() {
    let (mut cache, mut tsm, _dir) = test_fixture("ins_multi");

    let stmts = parse(
        "INSERT INTO SYSSCHEMAS VALUES ('S1'), ('S2'), ('S3')",
    )
    .unwrap();
    let rs = execute(&stmts[0], &mut cache, &mut tsm).unwrap();
    assert_eq!(rs.rows[0][0].to_string(), "3");

    let stmts = parse("SELECT * FROM SYSSCHEMAS").unwrap();
    let rs = execute(&stmts[0], &mut cache, &mut tsm).unwrap();
    assert_eq!(rs.rows.len(), 5); // RQSYS + PUBLIC + S1 + S2 + S3
}

// ── DELETE tests ──

#[test]
fn delete_with_where() {
    let (mut cache, mut tsm, _dir) = test_fixture("del_where");

    // 3 tablespaces exist. Delete TEMPTBSP (id=3).
    let stmts = parse(
        "DELETE FROM SYSTABLESPACES WHERE tbspaceid = 3",
    )
    .unwrap();
    let rs = execute(&stmts[0], &mut cache, &mut tsm).unwrap();
    assert_eq!(rs.rows[0][0].to_string(), "1");

    let stmts = parse("SELECT * FROM SYSTABLESPACES").unwrap();
    let rs = execute(&stmts[0], &mut cache, &mut tsm).unwrap();
    assert_eq!(rs.rows.len(), 2); // SYSTBSP + USERTBSP remain
}

#[test]
fn delete_all() {
    let (mut cache, mut tsm, _dir) = test_fixture("del_all");

    let stmts = parse("DELETE FROM SYSSCHEMAS").unwrap();
    let rs = execute(&stmts[0], &mut cache, &mut tsm).unwrap();
    assert_eq!(rs.rows[0][0].to_string(), "2"); // RQSYS + PUBLIC deleted

    let stmts = parse("SELECT * FROM SYSSCHEMAS").unwrap();
    let rs = execute(&stmts[0], &mut cache, &mut tsm).unwrap();
    assert_eq!(rs.rows.len(), 0);
}

#[test]
fn delete_no_match() {
    let (mut cache, mut tsm, _dir) = test_fixture("del_nomatch");

    let stmts = parse(
        "DELETE FROM SYSTABLESPACES WHERE tbspaceid = 99",
    )
    .unwrap();
    let rs = execute(&stmts[0], &mut cache, &mut tsm).unwrap();
    assert_eq!(rs.rows[0][0].to_string(), "0");
}

#[test]
fn update_with_where() {
    let (mut cache, mut tsm, _dir) = test_fixture("upd_where");

    // SYSTBSP has tbspaceid=1. Update its tbspace name.
    let stmts = parse(
        "UPDATE SYSTABLESPACES SET tbspace = 'RENAMED' WHERE tbspaceid = 1",
    )
    .unwrap();
    let rs = execute(&stmts[0], &mut cache, &mut tsm).unwrap();
    assert_eq!(rs.rows[0][0].to_string(), "1"); // 1 row updated

    // Verify it was actually changed.
    let stmts = parse(
        "SELECT tbspace FROM SYSTABLESPACES WHERE tbspaceid = 1",
    )
    .unwrap();
    let rs = execute(&stmts[0], &mut cache, &mut tsm).unwrap();
    assert_eq!(rs.rows.len(), 1);
    assert_eq!(rs.rows[0][0].to_string(), "RENAMED");
}

#[test]
fn update_all_rows() {
    let (mut cache, mut tsm, _dir) = test_fixture("upd_all");

    // Update all tablespace states to 'Y'.
    let stmts = parse(
        "UPDATE SYSTABLESPACES SET state = 'Y'",
    )
    .unwrap();
    let rs = execute(&stmts[0], &mut cache, &mut tsm).unwrap();
    assert_eq!(rs.rows[0][0].to_string(), "3"); // 3 rows updated

    // Verify all rows have state = 'Y'.
    let stmts = parse(
        "SELECT state FROM SYSTABLESPACES WHERE state = 'Y'",
    )
    .unwrap();
    let rs = execute(&stmts[0], &mut cache, &mut tsm).unwrap();
    assert_eq!(rs.rows.len(), 3);
}

#[test]
fn update_no_match() {
    let (mut cache, mut tsm, _dir) = test_fixture("upd_nomatch");

    let stmts = parse(
        "UPDATE SYSTABLESPACES SET tbspace = 'X' WHERE tbspaceid = 99",
    )
    .unwrap();
    let rs = execute(&stmts[0], &mut cache, &mut tsm).unwrap();
    assert_eq!(rs.rows[0][0].to_string(), "0");
}

#[test]
fn update_multiple_columns() {
    let (mut cache, mut tsm, _dir) = test_fixture("upd_multi_col");

    let stmts = parse(
        "UPDATE SYSTABLESPACES SET tbspace = 'NEW', tbspacetype = 'S' WHERE tbspaceid = 2",
    )
    .unwrap();
    let rs = execute(&stmts[0], &mut cache, &mut tsm).unwrap();
    assert_eq!(rs.rows[0][0].to_string(), "1");

    let stmts = parse(
        "SELECT tbspace, tbspacetype FROM SYSTABLESPACES WHERE tbspaceid = 2",
    )
    .unwrap();
    let rs = execute(&stmts[0], &mut cache, &mut tsm).unwrap();
    assert_eq!(rs.rows.len(), 1);
    assert_eq!(rs.rows[0][0].to_string(), "NEW");
    assert_eq!(rs.rows[0][1].to_string(), "S");
}

#[test]
fn update_preserves_unmodified_rows() {
    let (mut cache, mut tsm, _dir) = test_fixture("upd_preserve");

    // Update only tbspaceid=1, verify others unchanged.
    let stmts = parse(
        "UPDATE SYSTABLESPACES SET tbspace = 'CHANGED' WHERE tbspaceid = 1",
    )
    .unwrap();
    execute(&stmts[0], &mut cache, &mut tsm).unwrap();

    // tbspaceid=2 should be unchanged.
    let stmts = parse(
        "SELECT tbspace FROM SYSTABLESPACES WHERE tbspaceid = 2",
    )
    .unwrap();
    let rs = execute(&stmts[0], &mut cache, &mut tsm).unwrap();
    assert_eq!(rs.rows.len(), 1);
    assert_eq!(rs.rows[0][0].to_string(), "USERTBSP");
}

#[test]
fn update_column_not_found() {
    let (mut cache, mut tsm, _dir) = test_fixture("upd_bad_col");
    let stmts = parse(
        "UPDATE SYSTABLESPACES SET bogus = 'X' WHERE tbspaceid = 1",
    )
    .unwrap();
    assert_sqlstate(
        execute(&stmts[0], &mut cache, &mut tsm),
        SqlState::ColumnNotFound,
    );
}

// ── Invalid SQL tests — verify SQLSTATE codes ──

fn assert_sqlstate(result: DbResult<ResultSet>, expected: SqlState) {
    match result {
        Err(Error::Sql { state, .. }) => assert_eq!(state, expected),
        Err(other) => panic!("expected SQLSTATE {expected:?}, got: {other:?}"),
        Ok(_) => panic!("expected error with SQLSTATE {expected:?}, got Ok"),
    }
}

#[test]
fn error_parse_invalid_syntax() {
    let err = parse("SELEC * FORM table");
    match err {
        Err(Error::Sql { state, .. }) => {
            assert_eq!(state, SqlState::ParseError);
        }
        other => panic!("expected parse error, got: {other:?}"),
    }
}

#[test]
fn error_table_not_found() {
    let (mut cache, mut tsm, _dir) = test_fixture("err_table");
    let stmts = parse("SELECT * FROM NONEXISTENT").unwrap();
    assert_sqlstate(execute(&stmts[0], &mut cache, &mut tsm), SqlState::TableNotFound);
}

#[test]
fn error_column_not_found() {
    let (mut cache, mut tsm, _dir) = test_fixture("err_col");
    let stmts =
        parse("SELECT bogus FROM SYSTABLESPACES").unwrap();
    assert_sqlstate(execute(&stmts[0], &mut cache, &mut tsm), SqlState::ColumnNotFound);
}

#[test]
fn error_column_not_found_in_where() {
    let (mut cache, mut tsm, _dir) = test_fixture("err_col_where");
    let stmts = parse(
        "SELECT * FROM SYSTABLESPACES WHERE bogus = 1",
    )
    .unwrap();
    assert_sqlstate(execute(&stmts[0], &mut cache, &mut tsm), SqlState::ColumnNotFound);
}

// ── CREATE TABLE tests ──

#[test]
fn create_table_basic() {
    let (mut cache, mut tsm, _dir) = test_fixture("ct_basic");
    let stmts = parse(
        "CREATE TABLE employees (id INTEGER NOT NULL, name VARCHAR(50), active CHAR(1))",
    ).unwrap();
    let rs = execute(&stmts[0], &mut cache, &mut tsm).unwrap();
    assert!(rs.rows[0][0].to_string().contains("CREATED"));

    // Table should be visible in SYSTABLES.
    let stmts = parse(
        "SELECT name, colcount FROM SYSTABLES WHERE name = 'EMPLOYEES'",
    ).unwrap();
    let rs = execute(&stmts[0], &mut cache, &mut tsm).unwrap();
    assert_eq!(rs.rows.len(), 1);
    assert_eq!(rs.rows[0][0].to_string(), "EMPLOYEES");
    assert_eq!(rs.rows[0][1].to_string(), "3");
}

#[test]
fn create_table_insert_and_select() {
    let (mut cache, mut tsm, _dir) = test_fixture("ct_ins_sel");
    let stmts = parse(
        "CREATE TABLE items (id INTEGER NOT NULL, label VARCHAR(30))",
    ).unwrap();
    execute(&stmts[0], &mut cache, &mut tsm).unwrap();

    // INSERT into the new table.
    let stmts = parse(
        "INSERT INTO items VALUES (1, 'Widget')",
    ).unwrap();
    let rs = execute(&stmts[0], &mut cache, &mut tsm).unwrap();
    assert_eq!(rs.rows[0][0].to_string(), "1");

    // SELECT from the new table.
    let stmts = parse("SELECT * FROM items").unwrap();
    let rs = execute(&stmts[0], &mut cache, &mut tsm).unwrap();
    assert_eq!(rs.columns, vec!["ID", "LABEL"]);
    assert_eq!(rs.rows.len(), 1);
    assert_eq!(rs.rows[0][0].to_string(), "1");
    assert_eq!(rs.rows[0][1].to_string(), "Widget");
}

#[test]
fn create_table_with_schema() {
    let (mut cache, mut tsm, _dir) = test_fixture("ct_schema");
    let stmts = parse(
        "CREATE TABLE myapp.users (uid INTEGER NOT NULL, email VARCHAR(100))",
    ).unwrap();
    let rs = execute(&stmts[0], &mut cache, &mut tsm).unwrap();
    assert!(rs.rows[0][0].to_string().contains("CREATED"));

    // New schema should appear in SYSSCHEMAS.
    let stmts = parse(
        "SELECT name FROM SYSSCHEMAS WHERE name = 'MYAPP'",
    ).unwrap();
    let rs = execute(&stmts[0], &mut cache, &mut tsm).unwrap();
    assert_eq!(rs.rows.len(), 1);

    // INSERT and SELECT through the schema-qualified name.
    let stmts = parse(
        "INSERT INTO myapp.users VALUES (42, 'alice@example.com')",
    ).unwrap();
    execute(&stmts[0], &mut cache, &mut tsm).unwrap();

    let stmts = parse("SELECT * FROM myapp.users").unwrap();
    let rs = execute(&stmts[0], &mut cache, &mut tsm).unwrap();
    assert_eq!(rs.rows.len(), 1);
    assert_eq!(rs.rows[0][0].to_string(), "42");
}

#[test]
fn create_table_duplicate_rejected() {
    let (mut cache, mut tsm, _dir) = test_fixture("ct_dup");
    let stmts = parse(
        "CREATE TABLE dup_test (x INTEGER)",
    ).unwrap();
    execute(&stmts[0], &mut cache, &mut tsm).unwrap();

    // Second CREATE TABLE with same name should fail.
    let stmts = parse(
        "CREATE TABLE dup_test (y VARCHAR(10))",
    ).unwrap();
    assert_sqlstate(
        execute(&stmts[0], &mut cache, &mut tsm),
        SqlState::TableAlreadyExists,
    );
}

#[test]
fn create_table_row_too_large() {
    let (mut cache, mut tsm, _dir) = test_fixture("ct_toobig");
    // Page size is 4096. Header=24, slot=4, tuple header=16 → max payload=4052.
    // VARCHAR(4000) → 8+4000=4008, plus an INTEGER → 8+4=12.
    // Total: 4020 bytes — fits. Add another VARCHAR(100) → 8+100=108
    // giving 4128 — exceeds 4052.
    let stmts = parse(
        "CREATE TABLE toobig (id INTEGER, data VARCHAR(4000), extra VARCHAR(100))",
    ).unwrap();
    assert_sqlstate(
        execute(&stmts[0], &mut cache, &mut tsm),
        SqlState::RowTooLarge,
    );
}

#[test]
fn create_table_row_just_fits() {
    let (mut cache, mut tsm, _dir) = test_fixture("ct_justfit");
    // max payload = 4052 (page 4096 − header 24 − slot 4 − tuple hdr 16).
    // INTEGER=12, VARCHAR(4032)=8+4032=4040 → 4052 exactly.
    let stmts = parse(
        "CREATE TABLE justfit (id INTEGER, data VARCHAR(4032))",
    ).unwrap();
    let rs = execute(&stmts[0], &mut cache, &mut tsm).unwrap();
    assert!(rs.rows[0][0].to_string().contains("CREATED"));
}

#[test]
fn create_table_duplicate_column_name() {
    let (mut cache, mut tsm, _dir) = test_fixture("ct_dup_col");
    let stmts = parse(
        "CREATE TABLE bad (id INTEGER, name VARCHAR(10), id SMALLINT)",
    ).unwrap();
    assert_sqlstate(
        execute(&stmts[0], &mut cache, &mut tsm),
        SqlState::DuplicateColumnName,
    );
}

#[test]
fn create_table_invalid_char_length_zero() {
    let (mut cache, mut tsm, _dir) = test_fixture("ct_len0");
    let stmts = parse(
        "CREATE TABLE bad (name CHAR(0))",
    ).unwrap();
    assert_sqlstate(
        execute(&stmts[0], &mut cache, &mut tsm),
        SqlState::InvalidColumnLength,
    );
}

#[test]
fn create_table_invalid_varchar_length_too_large() {
    let (mut cache, mut tsm, _dir) = test_fixture("ct_len_big");
    let stmts = parse(
        "CREATE TABLE bad (data VARCHAR(40000))",
    ).unwrap();
    assert_sqlstate(
        execute(&stmts[0], &mut cache, &mut tsm),
        SqlState::InvalidColumnLength,
    );
}

#[test]
fn create_table_too_many_columns() {
    let (mut cache, mut tsm, _dir) = test_fixture("ct_maxcol");
    // Page 4096: max_payload=4052 (4096−24−4−16), min 9 bytes/col → limit=450.
    // 451 CHAR(1) columns should exceed the dynamic limit.
    let cols: Vec<String> = (0..451).map(|i| format!("c{i} CHAR(1)")).collect();
    let sql = format!("CREATE TABLE huge ({})", cols.join(", "));
    let stmts = parse(&sql).unwrap();
    assert_sqlstate(
        execute(&stmts[0], &mut cache, &mut tsm),
        SqlState::TooManyColumns,
    );
}

#[test]
fn create_table_system_schema_rejected() {
    let (mut cache, mut tsm, _dir) = test_fixture("ct_rqsys");
    let stmts = parse(
        "CREATE TABLE RQSYS.forbidden (id INTEGER)",
    ).unwrap();
    assert_sqlstate(
        execute(&stmts[0], &mut cache, &mut tsm),
        SqlState::SystemSchemaViolation,
    );
}

#[test]
fn create_table_columns_in_syscolumns() {
    let (mut cache, mut tsm, _dir) = test_fixture("ct_cols");
    let stmts = parse(
        "CREATE TABLE parts (partno SMALLINT NOT NULL, descr VARCHAR(80), qty INTEGER)",
    ).unwrap();
    execute(&stmts[0], &mut cache, &mut tsm).unwrap();

    // SYSCOLUMNS should have 3 new rows for PARTS.
    let stmts = parse(
        "SELECT name, typename, nullable FROM SYSCOLUMNS WHERE tabname = 'PARTS'",
    ).unwrap();
    let rs = execute(&stmts[0], &mut cache, &mut tsm).unwrap();
    assert_eq!(rs.rows.len(), 3);
    // First column: PARTNO SMALLINT NOT NULL
    assert_eq!(rs.rows[0][0].to_string(), "PARTNO");
    assert_eq!(rs.rows[0][1].to_string(), "SMALLINT");
    assert_eq!(rs.rows[0][2].to_string(), "N"); // not nullable
}

#[test]
fn create_table_delete_and_update() {
    let (mut cache, mut tsm, _dir) = test_fixture("ct_del_upd");
    let stmts = parse(
        "CREATE TABLE kv (k INTEGER NOT NULL, v VARCHAR(20))",
    ).unwrap();
    execute(&stmts[0], &mut cache, &mut tsm).unwrap();

    // Insert two rows.
    for sql in [
        "INSERT INTO kv VALUES (1, 'alpha')",
        "INSERT INTO kv VALUES (2, 'beta')",
    ] {
        let stmts = parse(sql).unwrap();
        execute(&stmts[0], &mut cache, &mut tsm).unwrap();
    }

    // UPDATE one row.
    let stmts = parse("UPDATE kv SET v = 'gamma' WHERE k = 1").unwrap();
    let rs = execute(&stmts[0], &mut cache, &mut tsm).unwrap();
    assert_eq!(rs.rows[0][0].to_string(), "1");

    // DELETE one row.
    let stmts = parse("DELETE FROM kv WHERE k = 2").unwrap();
    let rs = execute(&stmts[0], &mut cache, &mut tsm).unwrap();
    assert_eq!(rs.rows[0][0].to_string(), "1");

    // Verify final state.
    let stmts = parse("SELECT * FROM kv").unwrap();
    let rs = execute(&stmts[0], &mut cache, &mut tsm).unwrap();
    assert_eq!(rs.rows.len(), 1);
    assert_eq!(rs.rows[0][1].to_string(), "gamma");
}

#[test]
fn error_empty_input() {
    let err = parse("");
    assert!(err.is_ok());
    assert!(err.unwrap().is_empty());
}

#[test]
fn error_insert_value_list_mismatch() {
    let (mut cache, mut tsm, _dir) = test_fixture("err_val_cnt");
    // SYSTABLESPACES has 7 columns but we provide only 2 values.
    let stmts = parse(
        "INSERT INTO SYSTABLESPACES VALUES (1, 'X')",
    )
    .unwrap();
    assert_sqlstate(
        execute(&stmts[0], &mut cache, &mut tsm),
        SqlState::InsertValueListMismatch,
    );
}

#[test]
fn error_not_null_violation() {
    let (mut cache, mut tsm, _dir) = test_fixture("err_null");
    // SYSSCHEMAS has 1 column (NAME VARCHAR). Insert NULL.
    let stmts = parse(
        "INSERT INTO SYSSCHEMAS VALUES (NULL)",
    )
    .unwrap();
    assert_sqlstate(
        execute(&stmts[0], &mut cache, &mut tsm),
        SqlState::NotNullViolation,
    );
}

#[test]
fn error_type_mismatch() {
    let (mut cache, mut tsm, _dir) = test_fixture("err_type");
    // SYSTABLESPACES first column is SMALLINT. Insert a string.
    let stmts = parse(
        "INSERT INTO SYSTABLESPACES VALUES ('not_a_number', 'X', 'D', 'A', 4096, 'N', 1)",
    )
    .unwrap();
    assert_sqlstate(
        execute(&stmts[0], &mut cache, &mut tsm),
        SqlState::AssignmentError,
    );
}

// ── DROP TABLE tests ──

#[test]
fn drop_table_basic() {
    let (mut cache, mut tsm, dir) = test_fixture("dt_basic");

    // Create and populate a table.
    for sql in [
        "CREATE TABLE things (id INTEGER NOT NULL, name VARCHAR(30))",
        "INSERT INTO things VALUES (1, 'alpha')",
        "INSERT INTO things VALUES (2, 'beta')",
    ] {
        let stmts = parse(sql).unwrap();
        execute(&stmts[0], &mut cache, &mut tsm).unwrap();
    }

    // Verify the table exists.
    let stmts = parse("SELECT * FROM things").unwrap();
    let rs = execute(&stmts[0], &mut cache, &mut tsm).unwrap();
    assert_eq!(rs.rows.len(), 2);

    // DROP TABLE.
    let stmts = parse("DROP TABLE things").unwrap();
    let rs = execute(&stmts[0], &mut cache, &mut tsm).unwrap();
    assert!(rs.rows[0][0].to_string().contains("DROPPED"));

    // Table should no longer be queryable.
    let stmts = parse("SELECT * FROM things").unwrap();
    assert_sqlstate(
        execute(&stmts[0], &mut cache, &mut tsm),
        SqlState::TableNotFound,
    );

    // Catalog should not list the table.
    let stmts = parse(
        "SELECT * FROM SYSTABLES WHERE name = 'THINGS'",
    ).unwrap();
    let rs = execute(&stmts[0], &mut cache, &mut tsm).unwrap();
    assert_eq!(rs.rows.len(), 0);

    // Columns should be gone from SYSCOLUMNS.
    let stmts = parse(
        "SELECT * FROM SYSCOLUMNS WHERE tabname = 'THINGS'",
    ).unwrap();
    let rs = execute(&stmts[0], &mut cache, &mut tsm).unwrap();
    assert_eq!(rs.rows.len(), 0);

    // Data files should be deleted.
    let mut dir = dir;
    dir.save(&cache, &mut tsm);
    assert!(tsm.table_image("PUBLIC", "THINGS").is_err());
    assert!(!dir.has("usertbsp/PUBLIC.THINGS.0.DAT"), ".DAT file should be deleted");
    assert!(!dir.has("usertbsp/PUBLIC.THINGS.0.FSM"), ".FSM file should be deleted");
}

#[test]
fn drop_table_not_found() {
    let (mut cache, mut tsm, _dir) = test_fixture("dt_notfound");
    let stmts = parse("DROP TABLE nonexistent").unwrap();
    assert_sqlstate(
        execute(&stmts[0], &mut cache, &mut tsm),
        SqlState::TableNotFound,
    );
}

#[test]
fn executor_drop_table_if_exists_no_error() {
    let (mut cache, mut tsm, _dir) = test_fixture("dt_ifexists");
    let stmts = parse("DROP TABLE IF EXISTS nonexistent").unwrap();
    let rs = execute(&stmts[0], &mut cache, &mut tsm).unwrap();
    assert!(rs.rows[0][0].to_string().contains("skipped"));
}

#[test]
fn drop_table_system_table_rejected() {
    let (mut cache, mut tsm, _dir) = test_fixture("dt_systable");
    let stmts = parse("DROP TABLE RQSYS.SYSTABLES").unwrap();
    assert_sqlstate(
        execute(&stmts[0], &mut cache, &mut tsm),
        SqlState::SystemSchemaViolation,
    );
}

#[test]
fn drop_table_then_recreate() {
    let (mut cache, mut tsm, _dir) = test_fixture("dt_recreate");

    // Create, drop, and recreate the same table.
    let stmts = parse(
        "CREATE TABLE temp (x INTEGER)",
    ).unwrap();
    execute(&stmts[0], &mut cache, &mut tsm).unwrap();

    let stmts = parse("DROP TABLE temp").unwrap();
    execute(&stmts[0], &mut cache, &mut tsm).unwrap();

    let stmts = parse(
        "CREATE TABLE temp (y VARCHAR(20))",
    ).unwrap();
    let rs = execute(&stmts[0], &mut cache, &mut tsm).unwrap();
    assert!(rs.rows[0][0].to_string().contains("CREATED"));

    // New table should have column Y, not X.
    let stmts = parse(
        "SELECT name FROM SYSCOLUMNS WHERE tabname = 'TEMP'",
    ).unwrap();
    let rs = execute(&stmts[0], &mut cache, &mut tsm).unwrap();
    assert_eq!(rs.rows.len(), 1);
    assert_eq!(rs.rows[0][0].to_string(), "Y");

    // Should be usable.
    let stmts = parse("INSERT INTO temp VALUES ('hello')").unwrap();
    execute(&stmts[0], &mut cache, &mut tsm).unwrap();

    let stmts = parse("SELECT * FROM temp").unwrap();
    let rs = execute(&stmts[0], &mut cache, &mut tsm).unwrap();
    assert_eq!(rs.rows.len(), 1);
    assert_eq!(rs.rows[0][0].to_string(), "hello");
}

#[test]
fn drop_table_with_schema() {
    let (mut cache, mut tsm, _dir) = test_fixture("dt_schema");

    let stmts = parse(
        "CREATE TABLE myns.data (val INTEGER)",
    ).unwrap();
    execute(&stmts[0], &mut cache, &mut tsm).unwrap();

    let stmts = parse("DROP TABLE myns.data").unwrap();
    let rs = execute(&stmts[0], &mut cache, &mut tsm).unwrap();
    assert!(rs.rows[0][0].to_string().contains("DROPPED"));

    let stmts = parse("SELECT * FROM myns.data").unwrap();
    assert_sqlstate(
        execute(&stmts[0], &mut cache, &mut tsm),
        SqlState::TableNotFound,
    );
}

// ── From a new database on ──

fn open_db(_name: &str) -> (CatalogCache, TablespaceManager, Disk) {
    test_fixture(_name)
}

/// Runs the first statement of a text.
fn run(text: &str, cache: &mut CatalogCache, tsm: &mut TablespaceManager) -> DbResult<ResultSet> {
    let stmts = parse(text)?;
    execute(&stmts[0], cache, tsm)
}

// ── Bootstrap & Catalog ──

#[test]
fn bootstrap_creates_sqldbconf_and_catalog() {
    let (cache, _tsm, _db) = open_db("boot_cat");

    // SQLDBCONF should exist
    assert!(_db.has("admin/SQLDBCONF"));

    // System tablespaces present (IDs start at 1)
    assert!(cache.get_tablespace_by_id(1).is_some()); // SYSTBSP
    assert!(cache.get_tablespace_by_id(2).is_some()); // USERTBSP
    assert!(cache.get_tablespace_by_id(3).is_some()); // TEMPTBSP

    // System schemas present
    assert!(cache.has_schema(&cache.config().sys_schema));
    assert!(cache.has_schema("PUBLIC"));

    // System tables present
    let sys = &cache.config().sys_schema;
    assert!(cache.get_table(sys, "SYSTABLESPACES").is_some());
    assert!(cache.get_table(sys, "SYSTABLES").is_some());
    assert!(cache.get_table(sys, "SYSCOLUMNS").is_some());
    assert!(cache.get_table(sys, "SYSSCHEMAS").is_some());
    assert!(cache.get_table(sys, "SYSBUFFERPOOLS").is_some());
}

#[test]
fn select_catalog_tables_after_bootstrap() {
    let (mut cache, mut tsm, _db) = open_db("sel_cat");

    let rs = run("SELECT * FROM SYSTABLES", &mut cache, &mut tsm).unwrap();
    // At least the 5 system tables
    assert!(rs.rows.len() >= 5, "expected >=5 catalog tables, got {}", rs.rows.len());
}

// ── DDL + DML workflow ──

#[test]
fn create_table_and_insert_select() {
    let (mut cache, mut tsm, _db) = open_db("ddl_dml");

    // CREATE TABLE
    run("CREATE TABLE t1 (id INTEGER NOT NULL, name VARCHAR(50))", &mut cache, &mut tsm).unwrap();

    // INSERT
    run("INSERT INTO t1 VALUES (1, 'Alice')", &mut cache, &mut tsm).unwrap();
    run("INSERT INTO t1 VALUES (2, 'Bob')", &mut cache, &mut tsm).unwrap();

    // SELECT *
    let rs = run("SELECT * FROM t1", &mut cache, &mut tsm).unwrap();
    assert_eq!(rs.rows.len(), 2);
    assert_eq!(rs.columns, vec!["ID", "NAME"]);
}

#[test]
fn create_table_insert_update_delete_select() {
    let (mut cache, mut tsm, _db) = open_db("crud");

    run("CREATE TABLE items (id INTEGER NOT NULL, qty INTEGER)", &mut cache, &mut tsm).unwrap();
    run("INSERT INTO items VALUES (1, 10)", &mut cache, &mut tsm).unwrap();
    run("INSERT INTO items VALUES (2, 20)", &mut cache, &mut tsm).unwrap();
    run("INSERT INTO items VALUES (3, 30)", &mut cache, &mut tsm).unwrap();

    // UPDATE
    run("UPDATE items SET qty = 99 WHERE id = 2", &mut cache, &mut tsm).unwrap();

    // DELETE
    run("DELETE FROM items WHERE id = 3", &mut cache, &mut tsm).unwrap();

    // Verify
    let rs = run("SELECT * FROM items", &mut cache, &mut tsm).unwrap();
    assert_eq!(rs.rows.len(), 2);

    // Row with id=2 should have qty=99
    let row2 = rs.rows.iter().find(|r| r[0] == Value::Integer(2)).unwrap();
    assert_eq!(row2[1], Value::Integer(99));
}

// ── Persistence across restart ──

#[test]
fn data_persists_across_restart() {
    let (mut cache, mut tsm, mut db) = open_db("persist");

    // Create table and insert data
    run("CREATE TABLE persist_t (id INTEGER NOT NULL, val VARCHAR(20))", &mut cache, &mut tsm).unwrap();
    run("INSERT INTO persist_t VALUES (1, 'hello')", &mut cache, &mut tsm).unwrap();
    run("INSERT INTO persist_t VALUES (2, 'world')", &mut cache, &mut tsm).unwrap();

    // Flush to disk
    db.save(&cache, &mut tsm);
    drop(tsm);
    drop(cache);

    // --- Restart: reload from disk ---
    let (mut cache2, mut tsm2) = db.load();

    // The user table should still exist in the catalog
    assert!(cache2.get_table("PUBLIC", "PERSIST_T").is_some());

    // Data should still be there
    let rs = run("SELECT * FROM persist_t", &mut cache2, &mut tsm2).unwrap();
    assert_eq!(rs.rows.len(), 2);
}

// ── Schema-qualified access ──

#[test]
fn schema_qualified_create_and_select() {
    let (mut cache, mut tsm, _db) = open_db("schema_q");

    // Create in a custom schema (auto-creates the schema)
    run("CREATE TABLE myschema.t1 (x INTEGER)", &mut cache, &mut tsm).unwrap();

    // Should be accessible schema-qualified
    let rs = run("SELECT * FROM myschema.t1", &mut cache, &mut tsm).unwrap();
    assert_eq!(rs.rows.len(), 0);
    assert_eq!(rs.columns, vec!["X"]);

    // System schema should be protected
    let err = run("CREATE TABLE RQSYS.bad (x INTEGER)", &mut cache, &mut tsm);
    assert!(err.is_err());
}

// ── Text mode configuration ──

#[test]
fn text_mode_bootstrap_and_load_catalog() {
    let mut db = Disk::default();
    let cfg = DbConfig {
        text_mode: true,
        ..DbConfig::default()
    };
    db.put(rqdb::catalog::bootstrap::bootstrap(&cfg).unwrap());
    let catalog = load_catalog(&db.catalog_files(&cfg)).unwrap();
    let cache = CatalogCache::new(catalog, cfg);

    // Text mode writes TSV files (for inspection); verify the catalog loaded.
    assert!(cache.get_tablespace_by_id(1).is_some()); // SYSTBSP
    assert!(cache.has_schema("PUBLIC"));
    assert!(cache.get_table(&cache.config().sys_schema, "SYSTABLES").is_some());
}

// ── Multi-row insert ──

#[test]
fn multi_row_insert() {
    let (mut cache, mut tsm, _db) = open_db("multi_ins");

    run("CREATE TABLE nums (n INTEGER NOT NULL)", &mut cache, &mut tsm).unwrap();
    run("INSERT INTO nums VALUES (1), (2), (3), (4), (5)", &mut cache, &mut tsm).unwrap();

    let rs = run("SELECT * FROM nums", &mut cache, &mut tsm).unwrap();
    assert_eq!(rs.rows.len(), 5);
}

// ── open_database / create_database helpers (connect-to flow) ──

#[test]
fn connect_to_existing_database() {
    let mut base = Disk::default();

    // Bootstrap a database
    let cfg = DbConfig::default();
    base.put(rqdb::catalog::bootstrap::bootstrap(&cfg).unwrap());

    // open_database should succeed
    let state = base.connect("TESTCONN");
    assert!(state.is_ok(), "expected Ok, got: {:?}", state.err());
    let mut state = state.unwrap();
    assert_eq!(state.name, "TESTCONN");

    // Should be able to query catalog tables
    let stmts = parse("SELECT * FROM SYSTABLES").unwrap();
    let rs = execute(&stmts[0], &mut state.cache, &mut state.tsm);
    assert!(rs.is_ok());
}

#[test]
fn connect_to_nonexistent_errors() {
    let base = Disk::default();

    let result = base.connect("NOSUCHDB");
    match result {
        Err(e) => {
            let msg = e.to_string();
            assert!(
                msg.contains("3D000"),
                "expected SQLSTATE 3D000 (DatabaseNotFound), got: {msg}"
            );
        }
        Ok(_) => panic!("expected error for nonexistent database"),
    }
}

#[test]
fn create_database_new() {
    let mut base = Disk::default();

    let result = base.create("FRESHDB");
    assert!(result.is_ok(), "expected Ok, got: {:?}", result.err());

    // SQLDBCONF should exist
    assert!(base.has("admin/SQLDBCONF"));
}

#[test]
fn create_database_already_exists_errors() {
    let mut base = Disk::default();

    // Create the database once
    base.create("DUPDB").unwrap();

    // Second create should fail with SQLSTATE 42P04
    let result = base.create("DUPDB");
    match result {
        Err(e) => {
            let msg = e.to_string();
            assert!(
                msg.contains("42P04"),
                "expected SQLSTATE 42P04 (DatabaseAlreadyExists), got: {msg}"
            );
        }
        Ok(_) => panic!("expected error for duplicate database"),
    }
}

// ── disconnect flow ──

#[test]
fn disconnect_flushes_and_persists_data() {
    let mut base = Disk::default();

    // Create a database, insert data, then disconnect (flush+drop) and reconnect.
    base.create("DISCDB").unwrap();
    let mut state = base.connect("DISCDB").unwrap();

    let stmts = parse(
        "CREATE TABLE disc_t (id INTEGER NOT NULL, val VARCHAR(20))"
    ).unwrap();
    execute(&stmts[0], &mut state.cache, &mut state.tsm).unwrap();

    let stmts = parse("INSERT INTO disc_t VALUES (1, 'before')").unwrap();
    execute(&stmts[0], &mut state.cache, &mut state.tsm).unwrap();

    // Simulate DISCONNECT: flush and drop
    base.save(&state.cache, &mut state.tsm);
    drop(state);

    // Reconnect — data should still be there
    let mut state2 = base.connect("DISCDB").unwrap();
    let stmts = parse("SELECT * FROM disc_t").unwrap();
    let rs = execute(&stmts[0], &mut state2.cache, &mut state2.tsm).unwrap();
    assert_eq!(rs.rows.len(), 1, "expected 1 row after disconnect+reconnect");
}

#[test]
fn disconnect_then_connect_different_db() {
    let mut disk1 = Disk::default();
    let mut disk2 = Disk::default();

    // Create two databases
    disk1.create("DB1").unwrap();
    let mut db1 = disk1.connect("DB1").unwrap();
    let stmts = parse("CREATE TABLE t1 (x INTEGER)").unwrap();
    execute(&stmts[0], &mut db1.cache, &mut db1.tsm).unwrap();
    disk1.save(&db1.cache, &mut db1.tsm);
    drop(db1);

    disk2.create("DB2").unwrap();
    let mut db2 = disk2.connect("DB2").unwrap();
    let stmts = parse("CREATE TABLE t2 (y INTEGER)").unwrap();
    execute(&stmts[0], &mut db2.cache, &mut db2.tsm).unwrap();
    disk2.save(&db2.cache, &mut db2.tsm);
    drop(db2);

    // Connect to DB1, verify its table
    let state = disk1.connect("DB1").unwrap();
    assert_eq!(state.name, "DB1");
    assert!(state.cache.get_table("PUBLIC", "T1").is_some());
    drop(state);

    // Connect to DB2, verify isolation
    let state2 = disk2.connect("DB2").unwrap();
    assert_eq!(state2.name, "DB2");
    assert!(state2.cache.get_table("PUBLIC", "T2").is_some());
    assert!(state2.cache.get_table("PUBLIC", "T1").is_none());
}

// ── SQLSTATE error codes — end-to-end validation ──

/// Assert that a SQL execution result is an error containing the given SQLSTATE code.
fn assert_sqlstate_integ(result: DbResult<ResultSet>, code: &str) {
    match result {
        Err(e) => {
            let msg = e.to_string();
            assert!(
                msg.contains(code),
                "expected SQLSTATE {code} in error, got: {msg}"
            );
        }
        Ok(_) => panic!("expected SQLSTATE {code} error, got Ok"),
    }
}

// 42S02 — TableNotFound

#[test]
fn sqlstate_table_not_found_select() {
    let (mut cache, mut tsm, _db) = open_db("integ_42s02_sel");
    assert_sqlstate_integ(
        run("SELECT * FROM ghost_table", &mut cache, &mut tsm),
        "42S02",
    );
}

#[test]
fn sqlstate_table_not_found_insert() {
    let (mut cache, mut tsm, _db) = open_db("integ_42s02_ins");
    assert_sqlstate_integ(
        run("INSERT INTO ghost_table VALUES (1)", &mut cache, &mut tsm),
        "42S02",
    );
}

#[test]
fn sqlstate_table_not_found_delete() {
    let (mut cache, mut tsm, _db) = open_db("integ_42s02_del");
    assert_sqlstate_integ(
        run("DELETE FROM ghost_table WHERE id = 1", &mut cache, &mut tsm),
        "42S02",
    );
}

#[test]
fn sqlstate_table_not_found_update() {
    let (mut cache, mut tsm, _db) = open_db("integ_42s02_upd");
    assert_sqlstate_integ(
        run("UPDATE ghost_table SET x = 1", &mut cache, &mut tsm),
        "42S02",
    );
}

#[test]
fn sqlstate_table_not_found_drop() {
    let (mut cache, mut tsm, _db) = open_db("integ_42s02_drop");
    assert_sqlstate_integ(
        run("DROP TABLE ghost_table", &mut cache, &mut tsm),
        "42S02",
    );
}

// 42S22 — ColumnNotFound

#[test]
fn sqlstate_column_not_found_in_select() {
    let (mut cache, mut tsm, _db) = open_db("integ_42s22_sel");
    run("CREATE TABLE t (id INTEGER, name VARCHAR(20))", &mut cache, &mut tsm).unwrap();
    assert_sqlstate_integ(
        run("SELECT bogus FROM t", &mut cache, &mut tsm),
        "42S22",
    );
}

#[test]
fn sqlstate_column_not_found_in_where() {
    let (mut cache, mut tsm, _db) = open_db("integ_42s22_whr");
    run("CREATE TABLE t (id INTEGER)", &mut cache, &mut tsm).unwrap();
    run("INSERT INTO t VALUES (1)", &mut cache, &mut tsm).unwrap();
    assert_sqlstate_integ(
        run("SELECT * FROM t WHERE ghost = 1", &mut cache, &mut tsm),
        "42S22",
    );
}

#[test]
fn sqlstate_column_not_found_in_update_set() {
    let (mut cache, mut tsm, _db) = open_db("integ_42s22_upd");
    run("CREATE TABLE t (id INTEGER)", &mut cache, &mut tsm).unwrap();
    run("INSERT INTO t VALUES (1)", &mut cache, &mut tsm).unwrap();
    assert_sqlstate_integ(
        run("UPDATE t SET ghost = 99 WHERE id = 1", &mut cache, &mut tsm),
        "42S22",
    );
}

// 42S01 — TableAlreadyExists

#[test]
fn sqlstate_table_already_exists() {
    let (mut cache, mut tsm, _db) = open_db("integ_42s01");
    run("CREATE TABLE dup (id INTEGER)", &mut cache, &mut tsm).unwrap();
    assert_sqlstate_integ(
        run("CREATE TABLE dup (x VARCHAR(10))", &mut cache, &mut tsm),
        "42S01",
    );
}

// 42711 — DuplicateColumnName

#[test]
fn sqlstate_duplicate_column_name() {
    let (mut cache, mut tsm, _db) = open_db("integ_42711");
    assert_sqlstate_integ(
        run("CREATE TABLE bad (id INTEGER, name VARCHAR(10), id SMALLINT)", &mut cache, &mut tsm),
        "42711",
    );
}

// 42611 — InvalidColumnLength

#[test]
fn sqlstate_invalid_column_length_zero() {
    let (mut cache, mut tsm, _db) = open_db("integ_42611_z");
    assert_sqlstate_integ(
        run("CREATE TABLE bad (name CHAR(0))", &mut cache, &mut tsm),
        "42611",
    );
}

#[test]
fn sqlstate_invalid_column_length_too_large() {
    let (mut cache, mut tsm, _db) = open_db("integ_42611_big");
    assert_sqlstate_integ(
        run("CREATE TABLE bad (data VARCHAR(40000))", &mut cache, &mut tsm),
        "42611",
    );
}

// 42508 — SystemSchemaViolation

#[test]
fn sqlstate_system_schema_create_rejected() {
    let (mut cache, mut tsm, _db) = open_db("integ_42508_cr");
    assert_sqlstate_integ(
        run("CREATE TABLE RQSYS.forbidden (id INTEGER)", &mut cache, &mut tsm),
        "42508",
    );
}

#[test]
fn sqlstate_system_schema_drop_rejected() {
    let (mut cache, mut tsm, _db) = open_db("integ_42508_dr");
    assert_sqlstate_integ(
        run("DROP TABLE RQSYS.SYSTABLES", &mut cache, &mut tsm),
        "42508",
    );
}

// 21S01 — InsertValueListMismatch

#[test]
fn sqlstate_insert_value_list_mismatch_too_few() {
    let (mut cache, mut tsm, _db) = open_db("integ_21s01_few");
    run("CREATE TABLE t (id INTEGER, name VARCHAR(20), qty INTEGER)", &mut cache, &mut tsm).unwrap();
    assert_sqlstate_integ(
        run("INSERT INTO t VALUES (1, 'x')", &mut cache, &mut tsm),
        "21S01",
    );
}

#[test]
fn sqlstate_insert_value_list_mismatch_too_many() {
    let (mut cache, mut tsm, _db) = open_db("integ_21s01_many");
    run("CREATE TABLE t (id INTEGER)", &mut cache, &mut tsm).unwrap();
    assert_sqlstate_integ(
        run("INSERT INTO t VALUES (1, 'extra', 99)", &mut cache, &mut tsm),
        "21S01",
    );
}

// 23502 — NotNullViolation

#[test]
fn sqlstate_not_null_violation() {
    let (mut cache, mut tsm, _db) = open_db("integ_23502");
    run("CREATE TABLE t (id INTEGER NOT NULL, name VARCHAR(20))", &mut cache, &mut tsm).unwrap();
    assert_sqlstate_integ(
        run("INSERT INTO t VALUES (NULL, 'Alice')", &mut cache, &mut tsm),
        "23502",
    );
}

// 22005 — AssignmentError (type mismatch)

#[test]
fn sqlstate_assignment_error_string_to_int() {
    let (mut cache, mut tsm, _db) = open_db("integ_22005");
    run("CREATE TABLE t (id INTEGER, name VARCHAR(20))", &mut cache, &mut tsm).unwrap();
    assert_sqlstate_integ(
        run("INSERT INTO t VALUES ('not_a_number', 'Alice')", &mut cache, &mut tsm),
        "22005",
    );
}

// 0A000 — FeatureNotSupported

#[test]
fn sqlstate_feature_not_supported_join() {
    let (mut cache, mut tsm, _db) = open_db("integ_0a000_join");
    run("CREATE TABLE a (id INTEGER)", &mut cache, &mut tsm).unwrap();
    run("CREATE TABLE b (id INTEGER)", &mut cache, &mut tsm).unwrap();
    assert_sqlstate_integ(
        run("SELECT * FROM a JOIN b ON a.id = b.id", &mut cache, &mut tsm),
        "0A000",
    );
}

#[test]
fn sqlstate_feature_not_supported_unsupported_stmt() {
    let (mut cache, mut tsm, _db) = open_db("integ_0a000_stmt");
    assert_sqlstate_integ(
        run("ALTER TABLE SYSTABLES ADD COLUMN x INTEGER", &mut cache, &mut tsm),
        "0A000",
    );
}

// 42000 — SyntaxError (semantic, not parse)

#[test]
fn sqlstate_syntax_error_no_from() {
    let (mut cache, mut tsm, _db) = open_db("integ_42000_nofrom");
    assert_sqlstate_integ(
        run("SELECT * FROM a, b", &mut cache, &mut tsm),
        "42000",
    );
}

// 22000 — DataException

#[test]
fn sqlstate_data_exception_unsupported_literal() {
    let (mut cache, mut tsm, _db) = open_db("integ_22000");
    run("CREATE TABLE t (id INTEGER)", &mut cache, &mut tsm).unwrap();
    assert_sqlstate_integ(
        run("INSERT INTO t VALUES (X'DEADBEEF')", &mut cache, &mut tsm),
        "22000",
    );
}

// DROP TABLE IF EXISTS — should NOT error

#[test]
fn integration_drop_table_if_exists_no_error() {
    let (mut cache, mut tsm, _db) = open_db("integ_dt_ifexists");
    let rs = run("DROP TABLE IF EXISTS nonexistent", &mut cache, &mut tsm).unwrap();
    assert!(rs.rows[0][0].to_string().contains("skipped"));
}

// DROP TABLE full lifecycle (integration)

#[test]
fn drop_table_end_to_end() {
    let (mut cache, mut tsm, _db) = open_db("integ_dt_e2e");

    run("CREATE TABLE dropme (id INTEGER NOT NULL, val VARCHAR(30))", &mut cache, &mut tsm).unwrap();
    run("INSERT INTO dropme VALUES (1, 'alpha')", &mut cache, &mut tsm).unwrap();
    run("INSERT INTO dropme VALUES (2, 'beta')", &mut cache, &mut tsm).unwrap();

    let rs = run("SELECT * FROM dropme", &mut cache, &mut tsm).unwrap();
    assert_eq!(rs.rows.len(), 2);

    run("DROP TABLE dropme", &mut cache, &mut tsm).unwrap();

    // Should not be queryable
    assert_sqlstate_integ(
        run("SELECT * FROM dropme", &mut cache, &mut tsm),
        "42S02",
    );

    // Should not appear in catalog
    let rs = run("SELECT * FROM SYSTABLES WHERE name = 'DROPME'", &mut cache, &mut tsm).unwrap();
    assert_eq!(rs.rows.len(), 0);

    let rs = run("SELECT * FROM SYSCOLUMNS WHERE tabname = 'DROPME'", &mut cache, &mut tsm).unwrap();
    assert_eq!(rs.rows.len(), 0);

    // Should be re-creatable
    run("CREATE TABLE dropme (x VARCHAR(10))", &mut cache, &mut tsm).unwrap();
    run("INSERT INTO dropme VALUES ('reborn')", &mut cache, &mut tsm).unwrap();
    let rs = run("SELECT * FROM dropme", &mut cache, &mut tsm).unwrap();
    assert_eq!(rs.rows.len(), 1);
    assert_eq!(rs.rows[0][0].to_string(), "reborn");
}

// ── Row size and column count limits (MVCC tuple header awareness) ──

const SLOT_ENTRY_SIZE: usize = 4; // u16 offset + u16 length

/// Compute the max user-data payload for a page, accounting for the 16-byte
/// MVCC tuple header.
fn max_user_payload(page_size: usize) -> usize {
    page_size - PAGE_HEADER_SIZE - SLOT_ENTRY_SIZE - TUPLE_HEADER_SIZE
}

#[test]
fn row_size_limit_rejects_oversized_table() {
    let (mut cache, mut tsm, _db) = open_db("integ_row_too_big");

    // Default page size is 4096.
    // max_user_payload = 4096 - 24 - 4 - 16 = 4052
    // INTEGER = 8 (prefix) + 4 (data) = 12
    // VARCHAR(4050) = 8 + 4050 = 4058
    // Total = 12 + 4058 = 4070 > 4052  →  should be rejected
    let err = run(
        "CREATE TABLE too_big (id INTEGER, data VARCHAR(4050))",
        &mut cache, &mut tsm,
    );
    assert!(err.is_err(), "expected RowTooLarge error");
    let msg = err.unwrap_err().to_string();
    assert!(
        msg.contains("54010"),
        "expected SQLSTATE 54010 (RowTooLarge), got: {msg}"
    );
}

#[test]
fn row_size_limit_accepts_boundary_table() {
    let (mut cache, mut tsm, _db) = open_db("integ_row_just_fit");

    // max_user_payload = 4052
    // INTEGER = 12,  VARCHAR(4032) = 8 + 4032 = 4040  →  total = 4052  (exact fit)
    run(
        "CREATE TABLE just_fit (id INTEGER, data VARCHAR(4032))",
        &mut cache, &mut tsm,
    ).expect("table at exact row-size boundary should be created");

    // Verify the table exists in catalog
    assert!(cache.get_table("PUBLIC", "JUST_FIT").is_some());
}

#[test]
fn row_size_limit_boundary_insert_succeeds() {
    let (mut cache, mut tsm, _db) = open_db("integ_row_bnd_ins");

    // Create a table at the row-size boundary
    run(
        "CREATE TABLE bnd (id INTEGER, data VARCHAR(4032))",
        &mut cache, &mut tsm,
    ).unwrap();

    // Insert a row with data shorter than the max — must succeed
    run(
        "INSERT INTO bnd VALUES (1, 'hello')",
        &mut cache, &mut tsm,
    ).expect("insert into boundary table should succeed");

    // Verify the row is readable
    let rs = run("SELECT * FROM bnd", &mut cache, &mut tsm).unwrap();
    assert_eq!(rs.rows.len(), 1);
    assert_eq!(rs.rows[0][0], Value::Integer(1));
}

#[test]
fn column_count_limit_rejects_excess() {
    let (mut cache, mut tsm, _db) = open_db("integ_col_excess");

    let max_cols = max_user_payload(4096) / MIN_COLUMN_BYTES; // 4052 / 9 = 450

    // One more than the limit should be rejected
    let over = max_cols + 1;
    let cols: Vec<String> = (0..over).map(|i| format!("c{i} CHAR(1)")).collect();
    let sql = format!("CREATE TABLE too_wide ({})", cols.join(", "));
    let err = run(&sql, &mut cache, &mut tsm);
    assert!(err.is_err(), "expected TooManyColumns error for {over} columns");
    let msg = err.unwrap_err().to_string();
    assert!(
        msg.contains("54011"),
        "expected SQLSTATE 54011 (TooManyColumns), got: {msg}"
    );
}

#[test]
fn column_count_limit_accepts_boundary() {
    let (mut cache, mut tsm, _db) = open_db("integ_col_bnd");

    let max_cols = max_user_payload(4096) / MIN_COLUMN_BYTES; // 450

    // Exactly at the limit should succeed
    let cols: Vec<String> = (0..max_cols).map(|i| format!("c{i} CHAR(1)")).collect();
    let sql = format!("CREATE TABLE wide_ok ({})", cols.join(", "));
    run(&sql, &mut cache, &mut tsm)
        .unwrap_or_else(|e| panic!("table with {max_cols} columns should be created: {e:?}"));

    assert!(cache.get_table("PUBLIC", "WIDE_OK").is_some());
}

#[test]
fn column_count_boundary_insert_and_select() {
    let (mut cache, mut tsm, _db) = open_db("integ_col_bnd_ins");

    let max_cols = max_user_payload(4096) / MIN_COLUMN_BYTES; // 450

    // Create a table at the column-count boundary
    let cols: Vec<String> = (0..max_cols).map(|i| format!("c{i} CHAR(1)")).collect();
    let sql = format!("CREATE TABLE wide ({})", cols.join(", "));
    run(&sql, &mut cache, &mut tsm).unwrap();

    // Insert a row with all columns set to 'A'
    let vals: Vec<&str> = (0..max_cols).map(|_| "'A'").collect();
    let sql = format!("INSERT INTO wide VALUES ({})", vals.join(", "));
    run(&sql, &mut cache, &mut tsm)
        .expect("insert into max-column table should succeed");

    // Read it back
    let rs = run("SELECT * FROM wide", &mut cache, &mut tsm).unwrap();
    assert_eq!(rs.rows.len(), 1);
    assert_eq!(rs.columns.len(), max_cols);
}

#[test]
fn row_size_off_by_one_above_boundary_rejected() {
    let (mut cache, mut tsm, _db) = open_db("integ_row_off1");

    // max_user_payload = 4052.  INTEGER(12) + VARCHAR(4033)(8+4033=4041) = 4053 > 4052
    let err = run(
        "CREATE TABLE off1 (id INTEGER, data VARCHAR(4033))",
        &mut cache, &mut tsm,
    );
    assert!(err.is_err(), "1 byte over the limit should be rejected");
    assert!(err.unwrap_err().to_string().contains("54010"));
}

#[test]
fn open_from_catalog() {
    let mut disk = Disk::default();
    disk.put(rqdb::catalog::bootstrap::bootstrap(&DbConfig::default()).unwrap());
    let (_cache, tsm) = disk.load();

    // All 5 RQSYS catalog tables are registered.
    assert_eq!(tsm.table_count(), 5);

    // All 4 buffer pools should be created.
    let pool_ids = tsm.pool_manager().pool_ids();
    assert_eq!(pool_ids.len(), 4);
}

// ── What statements make of tables ──

fn rows_of(rs: &ResultSet) -> Vec<Vec<String>> {
    rs.rows.iter().map(|r| r.iter().map(|v| v.to_string()).collect()).collect()
}

#[test]
fn select_shows_inserted_rows_in_the_types_of_the_columns() {
    let (mut cache, mut tsm, _db) = open_db("select_inserted");
    run("CREATE TABLE t (a SMALLINT, b INTEGER, c VARCHAR(10))", &mut cache, &mut tsm).unwrap();
    run("INSERT INTO t VALUES (1, 2, 'x')", &mut cache, &mut tsm).unwrap();
    let rs = run("INSERT INTO t (c, a, b) VALUES ('y', 3, 70000), ('z', -5, -1)", &mut cache, &mut tsm)
        .unwrap();
    assert_eq!(rs.columns, vec!["ROWS_INSERTED"]);
    assert_eq!(rs.rows, vec![vec![Value::Integer(2)]]);
    let rs = run("SELECT * FROM t", &mut cache, &mut tsm).unwrap();
    assert_eq!(rs.rows[1], vec![
        Value::SmallInt(3),
        Value::Integer(70000),
        Value::Str("y".to_string()),
    ]);
    assert_eq!(rs.rows.len(), 3);
}

#[test]
fn rows_before_a_refused_one_stay() {
    let (mut cache, mut tsm, _db) = open_db("rows_before");
    run("CREATE TABLE t (a SMALLINT)", &mut cache, &mut tsm).unwrap();
    let err = run("INSERT INTO t VALUES (1), (40000), (3)", &mut cache, &mut tsm).unwrap_err();
    assert_eq!(
        err.to_string(),
        "SQLSTATE 22003: value 40000 out of range for column A of type SMALLINT"
    );
    let rs = run("SELECT * FROM t", &mut cache, &mut tsm).unwrap();
    assert_eq!(rows_of(&rs), vec![vec!["1"]]);
}

#[test]
fn delete_leaves_exactly_the_rows_that_do_not_meet_the_condition() {
    let (mut cache, mut tsm, _db) = open_db("delete_leaves");
    run("CREATE TABLE t (a INTEGER, b INTEGER)", &mut cache, &mut tsm).unwrap();
    run("INSERT INTO t VALUES (1, 1), (2, 1), (3, 2), (1, 2)", &mut cache, &mut tsm).unwrap();
    let rs = run("DELETE FROM t WHERE a = 1 OR b = 2", &mut cache, &mut tsm).unwrap();
    assert_eq!(rs.columns, vec!["ROWS_DELETED"]);
    assert_eq!(rows_of(&rs), vec![vec!["3"]]);
    let rs = run("SELECT * FROM t", &mut cache, &mut tsm).unwrap();
    assert_eq!(rows_of(&rs), vec![vec!["2", "1"]]);
    // A refused statement deletes nothing.
    assert!(run("DELETE FROM t WHERE nope = 1", &mut cache, &mut tsm).is_err());
    assert_eq!(run("SELECT * FROM t", &mut cache, &mut tsm).unwrap().rows.len(), 1);
}

#[test]
fn assignments_are_computed_on_the_row_as_it_was() {
    let (mut cache, mut tsm, _db) = open_db("assignments");
    run("CREATE TABLE t (a INTEGER, b INTEGER)", &mut cache, &mut tsm).unwrap();
    run("INSERT INTO t VALUES (1, 10), (2, 20)", &mut cache, &mut tsm).unwrap();
    let rs = run("UPDATE t SET a = 7, b = a WHERE a = 1", &mut cache, &mut tsm).unwrap();
    assert_eq!(rs.columns, vec!["ROWS_UPDATED"]);
    assert_eq!(rows_of(&rs), vec![vec!["1"]]);
    let rs = run("SELECT * FROM t", &mut cache, &mut tsm).unwrap();
    assert_eq!(rows_of(&rs), vec![vec!["7", "1"], vec!["2", "20"]]);
    run("UPDATE t SET a = b, b = a WHERE a = 2", &mut cache, &mut tsm).unwrap();
    let rs = run("SELECT * FROM t", &mut cache, &mut tsm).unwrap();
    assert_eq!(rows_of(&rs), vec![vec!["7", "1"], vec!["20", "2"]]);
}

#[test]
fn rows_that_grow_are_moved_and_counted_once() {
    let (mut cache, mut tsm, _db) = open_db("rows_that_grow");
    run("CREATE TABLE t (a INTEGER, b VARCHAR(2000))", &mut cache, &mut tsm).unwrap();
    for i in 0..6 {
        run(&format!("INSERT INTO t VALUES ({i}, 'short')"), &mut cache, &mut tsm).unwrap();
    }
    let long = "x".repeat(1500);
    let rs = run(&format!("UPDATE t SET b = '{long}'"), &mut cache, &mut tsm).unwrap();
    assert_eq!(rows_of(&rs), vec![vec!["6"]]);
    let rs = run("SELECT * FROM t", &mut cache, &mut tsm).unwrap();
    assert_eq!(rs.rows.len(), 6);
    assert!(rs.rows.iter().all(|r| r[1] == Value::Str(long.clone())));
}

#[test]
fn created_table_is_listed_and_empty() {
    let (mut cache, mut tsm, _db) = open_db("created_listed");
    let rs = run("CREATE TABLE app.t (a INTEGER NOT NULL, b CHAR(3))", &mut cache, &mut tsm).unwrap();
    assert_eq!(rs.columns, vec!["STATUS"]);
    assert_eq!(rows_of(&rs), vec![vec!["TABLE APP.T CREATED"]]);
    assert!(run("SELECT * FROM app.t", &mut cache, &mut tsm).unwrap().rows.is_empty());
    let rs = run("SELECT tableid, tbspaceid, colcount FROM SYSTABLES WHERE name = 'T'", &mut cache, &mut tsm)
        .unwrap();
    assert_eq!(rows_of(&rs), vec![vec!["6", "2", "2"]]);
    let rs = run("SELECT name, ordinal, typename, nullable FROM SYSCOLUMNS WHERE tabname = 'T'", &mut cache, &mut tsm)
        .unwrap();
    assert_eq!(
        rows_of(&rs),
        vec![vec!["A", "0", "INTEGER", "N"], vec!["B", "1", "CHAR(3)", "Y"]]
    );
    let rs = run("SELECT * FROM SYSSCHEMAS WHERE name = 'APP'", &mut cache, &mut tsm).unwrap();
    assert_eq!(rs.rows.len(), 1);
    let err = run("CREATE TABLE app.t (x INTEGER)", &mut cache, &mut tsm).unwrap_err();
    assert_eq!(err.to_string(), "SQLSTATE 42S01: table APP.T already exists");
}

#[test]
fn messages_of_refused_tables_are_exact() {
    let (mut cache, mut tsm, _db) = open_db("refused_tables");
    let mut refusal = |sql: &str| run(sql, &mut cache, &mut tsm).unwrap_err().to_string();
    assert_eq!(
        refusal("CREATE TABLE t (a INTEGER, b VARCHAR(4033))"),
        "SQLSTATE 54010: maximum row size 4053 bytes exceeds page limit 4052 bytes (page size 4096)"
    );
    assert_eq!(
        refusal("CREATE TABLE t (a INTEGER, A INTEGER)"),
        "SQLSTATE 42711: duplicate column name: A"
    );
    assert_eq!(
        refusal("CREATE TABLE RQSYS.t (a INTEGER)"),
        "SQLSTATE 42508: cannot create user table in system schema RQSYS"
    );
    assert_eq!(
        refusal("DROP TABLE SYSTABLES"),
        "SQLSTATE 42508: cannot drop system table RQSYS.SYSTABLES"
    );
    assert_eq!(refusal("DROP TABLE a, b"), "SQLSTATE 0A000: DROP TABLE supports exactly one table at a time");
    assert_eq!(refusal("SELECT * FROM a.b.c"), "SQLSTATE 42000: invalid table reference: a.b.c");
    assert_eq!(refusal("INSERT INTO SYSSCHEMAS SELECT 1"), "SQLSTATE 0A000: only INSERT ... VALUES is supported");
    assert_eq!(refusal("VALUES (1)"), "SQLSTATE 0A000: only SELECT is supported");
    assert_eq!(refusal("SELECT * FROM (SELECT 1) AS x"), "SQLSTATE 0A000: unsupported FROM clause");
    assert_eq!(refusal("UPDATE SYSSCHEMAS SET (name) = ('x')"), "SQLSTATE 0A000: tuple assignment in UPDATE is not supported");
}

#[test]
fn dropping_tells_what_happened() {
    let (mut cache, mut tsm, _db) = open_db("dropping_tells");
    run("CREATE TABLE t (a INTEGER)", &mut cache, &mut tsm).unwrap();
    let rs = run("DROP TABLE t", &mut cache, &mut tsm).unwrap();
    assert_eq!(rows_of(&rs), vec![vec!["TABLE PUBLIC.T DROPPED"]]);
    let rs = run("DROP TABLE IF EXISTS t", &mut cache, &mut tsm).unwrap();
    assert_eq!(rows_of(&rs), vec![vec!["TABLE PUBLIC.T DOES NOT EXIST (skipped)"]]);
    assert!(!tsm.has_table("PUBLIC", "T"));
    assert!(tsm.has_table("RQSYS", "SYSTABLES"));
}

#[test]
fn default_schema_comes_before_the_system_schema() {
    let (mut cache, mut tsm, _db) = open_db("default_schema");
    run("CREATE TABLE systables (a INTEGER)", &mut cache, &mut tsm).unwrap();
    let rs = run("SELECT * FROM systables", &mut cache, &mut tsm).unwrap();
    assert_eq!(rs.columns, vec!["A"]);
    let rs = run("SELECT * FROM rqsys.systables", &mut cache, &mut tsm).unwrap();
    assert_eq!(rs.rows.len(), 6);
}

fn number(text: &str) -> ast::Expr {
    ast::Expr {
        kind: ast::ExprKind::Value(ast::Literal::Number(text.to_string())),
        text: text.to_string(),
    }
}

fn insert_of(value: ast::Expr) -> ast::Command {
    ast::Command::Insert(ast::Insert {
        table: ast::InsertTarget::Function,
        columns: Vec::new(),
        source: Some(ast::QueryBody::Values(vec![vec![value]])),
    })
}

#[test]
fn statements_are_checked_before_they_run() {
    let (cache, tsm, _db) = open_db("statements_checked");
    let ok = parse("INSERT INTO t VALUES (-1)").unwrap();
    assert!(is_ok(&ok[0], &cache, &tsm));
    let ok = parse("CREATE TABLE t (a INTEGER)").unwrap();
    assert!(is_ok(&ok[0], &cache, &tsm));
    // A number with a sign of its own is no obstacle, unless its negative is out of range.
    assert!(is_ok(&insert_of(number("-32768")), &cache, &tsm));
    let negated = |text: &str| ast::Expr {
        kind: ast::ExprKind::Minus(Box::new(number(text))),
        text: format!("-{text}"),
    };
    assert!(is_ok(&insert_of(negated("-32767")), &cache, &tsm));
    assert!(!is_ok(&insert_of(negated("-32768")), &cache, &tsm));
}

#[test]
fn statements_on_pages_without_room_are_told() {
    let catalog = Catalog {
        tablespaces: vec![Tablespace {
            tbspaceid: 1,
            tbspace: "S".to_string(),
            tbspacetype: "D".to_string(),
            datatype: "A".to_string(),
            pagesize: 16,
            state: "N".to_string(),
            bufferpoolid: 1,
        }],
        schemas: Vec::new(),
        tables: vec![Table {
            tableid: 1,
            name: "T".to_string(),
            schemaname: "TEST".to_string(),
            tbspaceid: 1,
            colcount: 1,
        }],
        columns: vec![Column {
            name: "A".to_string(),
            tabname: "T".to_string(),
            schemaname: "TEST".to_string(),
            ordinal: 0,
            typename: "INTEGER".to_string(),
            nullable: true,
        }],
        bufferpools: vec![BufferPool {
            bpid: 1,
            bpname: "P".to_string(),
            pagesize: 16,
            npages: 4,
        }],
    };
    let mut cache = CatalogCache::new(catalog, DbConfig::default());
    assert!(catalog_is_sound(&cache));
    let open = |bytes: &[u8]| {
        let heap = HeapFile::open_checked(bytes, None, 16).unwrap().unwrap();
        TablespaceManager::open(&cache, vec![TableFiles { heap, fsm: None }]).unwrap()
    };
    let ok = |text: &str, tsm: &TablespaceManager| {
        is_ok(&parse(text).unwrap()[0], &cache, tsm)
    };
    // Nothing is looked at in an empty table, until a row goes into it.
    let empty = open(&[]);
    assert!(ok("SELECT * FROM test.t", &empty));
    assert!(ok("DELETE FROM test.t", &empty));
    assert!(ok("UPDATE test.t SET a = 1", &empty));
    assert!(!ok("INSERT INTO test.t VALUES (1)", &empty));
    assert!(ok("INSERT INTO test.t VALUES (1, 2)", &empty));
    assert!(ok("INSERT INTO test.t (b) VALUES (1)", &empty));
    let full = open(&[0; 16]);
    assert!(!ok("SELECT * FROM test.t", &full));
    assert!(!ok("DELETE FROM test.t", &full));
    assert!(!ok("UPDATE test.t SET a = 1", &full));
    assert!(ok("UPDATE test.t SET b = 1", &full));
    assert!(ok("SELECT * FROM test.u", &full));
    assert!(ok("DROP TABLE test.t", &full));
    let mut tsm = open(&[]);
    let rs = execute(&parse("SELECT * FROM test.t").unwrap()[0], &mut cache, &mut tsm).unwrap();
    assert!(rs.rows.is_empty());
}

#[test]
fn texts_that_the_parser_cannot_take_are_told() {
    for text in [
        "FLUSH RELAY LOGS FOR CHANNEL",
        "flush local relay logs for channel",
        "GRANT SELECT ON t TO u GRANTED BY",
        "grant select on t to u granted /* nobody */ by",
        "REVOKE SELECT ON t FROM u GRANTED BY",
        "SELECT 1; REVOKE SELECT ON t FROM u GRANTED BY;",
        "GRANT SELECT ON t TO u GRANTED BY 7",
        "GRANT SELECT ON t TO u GRANTED BY a; GRANT SELECT ON t TO u GRANTED BY",
        "FLUSH RELAY LOGS FOR CHANNEL a .",
        "SELECT 'x'; GRANT SELECT ON t TO u GRANTED BY",
        "SELECT a -- note\n; GRANT SELECT ON t TO u GRANTED BY",
        "SELECT 8 //* 2; GRANT SELECT ON t TO u GRANTED BY -- */",
        "SELECT @--; GRANT SELECT ON t TO u GRANTED BY",
        "SELECT |/* 4; GRANT SELECT ON t TO u GRANTED BY",
    ] {
        assert!(!is_parseable(text));
        assert!(parse_checked(text).is_none());
    }
    for text in [
        "SELECT channel, granted FROM t",
        "INSERT INTO t VALUES ('flush', 'grant')",
        "INSERT INTO t VALUES ('GRANT x GRANTED BY')",
        "INSERT INTO t VALUES ('it''s REVOKE', 'GRANTED BY')",
        "SELECT a -- GRANT all GRANTED BY\nFROM t",
        "SELECT a /* FLUSH /* RELAY */ LOGS FOR CHANNEL */ FROM t",
        "SELECT \"REVOKE GRANTED BY\" FROM t",
        "GRANT SELECT ON t TO u GRANTED /* who */ BY -- whom\n admin",
        "GRANT SELECT ON t TO u",
        "GRANT SELECT ON t TO u GRANTED BY admin",
        "REVOKE SELECT ON t FROM u GRANTED BY the_admin ; SELECT 1",
        "flush relay logs for channel x1;",
        "FLUSH RELAY LOGS",
        "",
    ] {
        assert!(is_parseable(text));
        assert!(parse_checked(text).unwrap().is_ok());
    }
}

#[test]
fn statements_leave_the_pools_alone() {
    let (mut cache, mut tsm, _db) = open_db("pools_alone");
    let ids = |tsm: &TablespaceManager| -> Vec<(i32, String)> {
        tsm.pool_manager().pool_ids().iter().map(|(id, name)| (*id, name.to_string())).collect()
    };
    let want = vec![
        (1, "RQDEFAULTBP".to_string()),
        (2, "INDEXBP".to_string()),
        (3, "LOBBP".to_string()),
        (4, "TEMPBP".to_string()),
    ];
    assert_eq!(ids(&tsm), want);
    run("CREATE TABLE t (a INTEGER)", &mut cache, &mut tsm).unwrap();
    run("INSERT INTO t VALUES (1), (2)", &mut cache, &mut tsm).unwrap();
    run("UPDATE t SET a = 3 WHERE a = 1", &mut cache, &mut tsm).unwrap();
    run("DELETE FROM t", &mut cache, &mut tsm).unwrap();
    run("DROP TABLE t", &mut cache, &mut tsm).unwrap();
    assert_eq!(ids(&tsm), want);
    let pool = tsm.pool_manager().get(1).unwrap();
    assert_eq!((pool.capacity(), pool.page_size()), (128, 4096));
    let pool = tsm.pool_manager().get(3).unwrap();
    assert_eq!((pool.capacity(), pool.page_size()), (32, 32768));
}

#[test]
fn a_dropped_table_is_made_again_and_again() {
    let (mut cache, mut tsm, _db) = open_db("again_and_again");
    for round in 0..4 {
        run("CREATE TABLE t (a INTEGER, b VARCHAR(20))", &mut cache, &mut tsm).unwrap();
        assert!(run("SELECT * FROM t", &mut cache, &mut tsm).unwrap().rows.is_empty());
        run(&format!("INSERT INTO t VALUES ({round}, 'x')"), &mut cache, &mut tsm).unwrap();
        let rs = run("SELECT a FROM t", &mut cache, &mut tsm).unwrap();
        assert_eq!(rows_of(&rs), vec![vec![round.to_string()]]);
        run("DROP TABLE t", &mut cache, &mut tsm).unwrap();
        assert!(run("SELECT * FROM t", &mut cache, &mut tsm).is_err());
    }
}

#[test]
fn text_is_parsed_into_as_many_statements() {
    assert_eq!(parse_text("SELECT 1; SELECT 2;").unwrap().len(), 2);
    assert_eq!(parse_text("").unwrap().len(), 0);
    let err = parse_text("SELEC").unwrap_err();
    assert!(err.to_string().starts_with("SQLSTATE 42601: sql parser error: "));
    let refused = parsed::<u8>(Err("no".to_string())).unwrap_err();
    assert_eq!(refused.to_string(), "SQLSTATE 42601: no");
    assert_eq!(parsed::<u8>(Ok(3)).unwrap(), 3);
}

#[test]
fn databases_report_where_they_are() {
    let disk = Disk::default();
    let err = disk.connect("nosuch").err().unwrap();
    assert_eq!(
        err.to_string(),
        "SQLSTATE 3D000: database 'nosuch' not found at /data/nosuch. \
         Use CREATE DATABASE nosuch to create it."
    );
    let err = rqdb::create_database("here", "/data/here", true, false).err().unwrap();
    assert_eq!(
        err.to_string(),
        "SQLSTATE 42P04: database 'here' already exists at /data/here. \
         Use CONNECT TO here to connect."
    );
}

#[test]
fn files_have_their_names() {
    assert_eq!(dat_file_name("S", "T"), "S.T.0.DAT");
    assert_eq!(map_file_name("S", "T"), "S.T.0.FSM");
    assert_eq!(space_dir("USERTBSP"), "usertbsp");
}

#[test]
fn everything_survives_reopening() {
    let (mut cache, mut tsm, mut db) = open_db("survives");
    run("CREATE TABLE a (x INTEGER, y VARCHAR(100))", &mut cache, &mut tsm).unwrap();
    for i in 0..300 {
        run(&format!("INSERT INTO a VALUES ({i}, 'row {i}')"), &mut cache, &mut tsm).unwrap();
    }
    run("DELETE FROM a WHERE x = 17", &mut cache, &mut tsm).unwrap();
    run("UPDATE a SET y = 'changed' WHERE x = 18", &mut cache, &mut tsm).unwrap();
    let before = run("SELECT * FROM a", &mut cache, &mut tsm).unwrap();
    assert_eq!(before.rows.len(), 299);
    db.save(&cache, &mut tsm);
    let (mut cache2, mut tsm2) = db.load();
    let after = run("SELECT * FROM a", &mut cache2, &mut tsm2).unwrap();
    assert_eq!(after.rows, before.rows);
    assert_eq!(after.columns, before.columns);
}
