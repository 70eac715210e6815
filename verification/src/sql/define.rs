//! `CREATE TABLE` and `DROP TABLE`.

use vstd::prelude::*;
use vstd::string::StringExecFns;
use crate::catalog::bootstrap::{encode_row, row_bytes};
use crate::catalog::cache::{column_names, column_row, column_values, index_of, max_table_id,
    table_row, table_values, wrap16, wrap_i16, CacheModel, CatalogCache};
use crate::catalog::row::MIN_COLUMN_BYTES;
use crate::catalog::types::{columns_view, Column, ColumnDef, Schema, Table, TableDef};
use crate::error::{sql_error, DbResult, Error, ErrorModel, SqlState};
use crate::sql::ast::{ColumnOption, ColumnSpec, CreateTable, DropTable};
use crate::sql::change::{add_fails, addresses_in, adds, delete_run, lemma_address_added,
    lemma_rows_at, refused, remove_rows};
use crate::sql::eval::{deserialize_row, lemma_row_size_fits, map_data_type, max_row_size, row_size,
    row_values, type_text};
use crate::sql::query::{law_scan_is_the_table, named_table, resolve_table_name,
    resolve_with_search_path, scan_table, scanned, searched, table_not_found,
    table_not_found_error};
use crate::sql::types::{names_view, row_view, rows_view, ResultModel, ResultSet, TableName,
    TableRef, Value, ValueModel};
use crate::storage::heap::{rid_rows, Rid};
use crate::storage::page::PAGE_HEADER_SIZE;
use crate::storage::tablespace::{can_scan, can_touch, empty_heap, file_error, find_space, frames_of,
    lemma_touch_kept, no_space, no_table, pools_alike, scan_kept, space_ready, stores_kept,
    touch_kept, PoolInfo, SpaceInfo, TablespaceManager, TsmModel};
use crate::storage::tuple::TUPLE_HEADER_SIZE;
use crate::text::{decimal, decimal_wide, digits10, same_str, to_uppercase, uppercase};

verus! {

/// The bytes of a slot of a page.
pub const SLOT_SIZE: usize = 4;

/// What a statement gives that says how it went.
pub open spec fn status(text: Seq<char>) -> ResultModel {
    ResultModel { columns: seq!["STATUS"@], rows: seq![seq![ValueModel::Str(text)]] }
}

/// What is said of a table.
pub open spec fn table_said(t: TableName, what: Seq<char>) -> Seq<char> {
    "TABLE "@ + t.schema + "."@ + t.table + what
}

fn status_result(t: &TableRef, what: &str) -> (r: ResultSet)
    ensures
        r@ == status(table_said(t@, what@)),
{
    let text: String = "TABLE ".to_owned().concat(t.schema.as_str()).concat(".").concat(
        t.table.as_str(),
    ).concat(what);
    let ghost said = text@;
    let mut columns: Vec<String> = Vec::new();
    columns.push("STATUS".to_owned());
    let mut row: Vec<Value> = Vec::new();
    row.push(Value::Str(text));
    let ghost first = row;
    let mut rows: Vec<Vec<Value>> = Vec::new();
    rows.push(row);
    assert(names_view(columns@) =~= seq!["STATUS"@]);
    assert(row_view(first@) =~= seq![ValueModel::Str(said)]);
    assert(rows_view(rows@) =~= seq![row_view(first@)]);
    ResultSet { columns, rows }
}

// ── CREATE TABLE ──

/// The bytes of a page of a new table.
pub open spec fn new_page_size(c: CacheModel) -> int {
    match c.tablespace(c.default_tablespace() as i32) {
        Some(t) => t.pagesize as int,
        None => 4096,
    }
}

/// The most bytes of a row: what a page has left after its header, a slot and the header of the
/// row.
pub open spec fn max_payload(page_size: int) -> int {
    page_size - PAGE_HEADER_SIZE - SLOT_SIZE - TUPLE_HEADER_SIZE
}

/// Whether a column has the name of one of the columns before it.
pub open spec fn repeated_name(specs: Seq<ColumnSpec>, n: int) -> bool {
    exists|k: int| 0 <= k < n && uppercase((#[trigger] specs[k]).name@) == uppercase(specs[n].name@)
}

/// What the catalog lists for a new column.
pub open spec fn new_column(
    spec: ColumnSpec,
    t: TableName,
    n: int,
    typename: Seq<char>,
) -> ColumnDef {
    ColumnDef {
        name: uppercase(spec.name@),
        tabname: t.table,
        schemaname: t.schema,
        ordinal: wrap16(n),
        typename,
        nullable: !is_not_null(spec.options@),
    }
}

/// Whether the options of a new column say that it cannot be null.
pub open spec fn is_not_null(options: Seq<ColumnOption>) -> bool {
    exists|k: int| 0 <= k < options.len() && #[trigger] options[k] is NotNull
}

/// Tells whether the options of a new column say that it cannot be null.
fn has_not_null(options: &Vec<ColumnOption>) -> (r: bool)
    ensures
        r == is_not_null(options@),
{
    let n: usize = options.len();
    let mut i: usize = 0;
    while i < n
        invariant
            i <= n,
            n == options@.len(),
            forall|k: int| 0 <= k < i ==> !(#[trigger] options@[k] is NotNull),
        decreases n - i,
    {
        if matches!(options[i], ColumnOption::NotNull) {
            return true;
        }
        i += 1;
    }
    false
}

/// What the catalog lists for the first `n` new columns, or why it cannot.
pub open spec fn new_columns(specs: Seq<ColumnSpec>, t: TableName, n: int) -> Result<
    Seq<ColumnDef>,
    ErrorModel,
>
    decreases n,
{
    if n <= 0 {
        Ok(Seq::empty())
    } else {
        match new_columns(specs, t, n - 1) {
            Err(e) => Err(e),
            Ok(done) => if repeated_name(specs, n - 1) {
                Err(
                    ErrorModel::Sql(
                        SqlState::DuplicateColumnName,
                        "duplicate column name: "@ + uppercase(specs[n - 1].name@),
                    ),
                )
            } else {
                match type_text(specs[n - 1].data_type) {
                    Err(e) => Err(e),
                    Ok(typename) => Ok(
                        done.push(new_column(specs[n - 1], t, n - 1, typename)),
                    ),
                }
            },
        }
    }
}

/// The table that a `CREATE TABLE` makes and its columns, or why it is refused.
pub open spec fn create_plan(ct: CreateTable, c: CacheModel) -> Result<
    (TableName, Seq<ColumnDef>),
    ErrorModel,
> {
    let size = new_page_size(c);
    let payload = max_payload(size);
    let most = payload / MIN_COLUMN_BYTES as int;
    let n = ct.columns@.len() as int;
    match named_table(ct.name, c) {
        Err(e) => Err(e),
        Ok(t) => if ct.name.parts@.len() > 1 && t.schema == c.config.sys_schema {
            Err(
                ErrorModel::Sql(
                    SqlState::SystemSchemaViolation,
                    "cannot create user table in system schema "@ + c.config.sys_schema,
                ),
            )
        } else if c.table(t.schema, t.table) is Some {
            Err(
                ErrorModel::Sql(
                    SqlState::TableAlreadyExists,
                    "table "@ + t.schema + "."@ + t.table + " already exists"@,
                ),
            )
        } else if n == 0 {
            Err(
                ErrorModel::Sql(
                    SqlState::SyntaxError,
                    "CREATE TABLE requires at least one column"@,
                ),
            )
        } else if n > most {
            Err(
                ErrorModel::Sql(
                    SqlState::TooManyColumns,
                    "table exceeds maximum column count for "@ + digits10(size as nat)
                        + "-byte pages ("@ + digits10(n as nat) + " > "@ + digits10(most as nat)
                        + ")"@,
                ),
            )
        } else {
            match new_columns(ct.columns@, t, n) {
                Err(e) => Err(e),
                Ok(cols) => if row_size(cols, n) > payload {
                    Err(
                        ErrorModel::Sql(
                            SqlState::RowTooLarge,
                            "maximum row size "@ + digits10(row_size(cols, n))
                                + " bytes exceeds page limit "@ + digits10(payload as nat)
                                + " bytes (page size "@ + digits10(size as nat) + ")"@,
                        ),
                    )
                } else {
                    Ok((t, cols))
                },
            }
        },
    }
}

/// What the catalog lists for a new table.
pub open spec fn new_table(t: TableName, cols: Seq<ColumnDef>, c: CacheModel) -> TableDef {
    TableDef {
        tableid: (max_table_id(c.catalog.tables) + 1) as i32,
        name: t.table,
        schemaname: t.schema,
        tbspaceid: c.default_tablespace(),
        colcount: wrap16(cols.len() as int),
    }
}

/// A row for a table of the catalog.
pub struct CatalogRow {
    pub table: String,
    pub bytes: Vec<u8>,
}

/// A table of the catalog, and the bytes of a row for it.
pub type CatalogEntry = (Seq<char>, Seq<u8>);

/// The contents of some rows for tables of the catalog.
pub open spec fn entries(rows: Seq<CatalogRow>) -> Seq<CatalogEntry> {
    Seq::new(rows.len(), |i: int| (rows[i].table@, rows[i].bytes@))
}

/// The rows that the catalog gets for a new table, in this order: one for its schema where that
/// is new, one for the table, one for each column.
pub open spec fn new_entries(
    t: TableName,
    cols: Seq<ColumnDef>,
    c: CacheModel,
) -> Seq<CatalogEntry> {
    let schema = if c.catalog.schemas.contains(t.schema) {
        Seq::<CatalogEntry>::empty()
    } else {
        seq![("SYSSCHEMAS"@, row_bytes(seq![ValueModel::Str(t.schema)]))]
    };
    schema.push(("SYSTABLES"@, row_bytes(table_row(new_table(t, cols, c))))) + Seq::new(
        cols.len(),
        |i: int| ("SYSCOLUMNS"@, row_bytes(column_row(cols[i]))),
    )
}

/// A table of the catalog.
pub open spec fn system_table(c: CacheModel, table: Seq<char>) -> TableName {
    TableName { schema: c.config.sys_schema, table }
}

/// Whether a row was stored in a table of the catalog.
pub open spec fn entry_step(
    t: TsmModel,
    t2: TsmModel,
    sys: Seq<char>,
    entry: CatalogEntry,
) -> bool {
    exists|rid: Rid| #[trigger]
        adds(t, TableName { schema: sys, table: entry.0 }, entry.1, t2, Ok(rid))
}

/// Whether the tables went through `states` while the first of some rows were stored in the
/// catalog.
pub open spec fn entry_trace(
    states: Seq<TsmModel>,
    sys: Seq<char>,
    list: Seq<CatalogEntry>,
) -> bool {
    forall|i: int|
        0 <= i < states.len() - 1 ==> entry_step(
            #[trigger] states[i],
            states[i + 1],
            sys,
            list[i],
        )
}

/// Whether storing the first `n` of some rows in the catalog made `t2` of the tables `t`.
pub open spec fn entry_run(
    t: TsmModel,
    sys: Seq<char>,
    list: Seq<CatalogEntry>,
    n: int,
    t2: TsmModel,
) -> bool {
    exists|states: Seq<TsmModel>| #[trigger]
        entry_trace(states, sys, list) && states.len() == n + 1 && states[0] == t && states[n] == t2
}

/// Whether storing row `k` of some rows in the catalog, after those before it, failed and made
/// `t2` of the tables `t`.
pub open spec fn entry_fails(
    t: TsmModel,
    sys: Seq<char>,
    list: Seq<CatalogEntry>,
    k: int,
    t2: TsmModel,
    disk: Seq<nat>,
    e: Error,
) -> bool {
    exists|mid: TsmModel| #[trigger]
        entry_run(t, sys, list, k, mid) && add_fails(
            mid,
            TableName { schema: sys, table: list[k].0 },
            list[k].1,
            t2,
            disk,
            e,
        )
}

/// Why a table cannot get a file in a tablespace, if so.
pub open spec fn space_error(
    spaces: Seq<SpaceInfo>,
    pools: Seq<PoolInfo>,
    id: i32,
    t: TableName,
) -> Option<ErrorModel> {
    let k = find_space(spaces, id, 0);
    if k >= spaces.len() {
        Some(no_space(id as int, t.schema, t.table))
    } else {
        file_error(pools, spaces[k])
    }
}

/// The tables with a new and empty one, whose file is registered with the pool of its tablespace.
pub open spec fn with_new_table(t: TsmModel, name: TableName, id: i32) -> TsmModel {
    let space = t.spaces[find_space(t.spaces, id, 0)];
    t.with_table(
        name.schema,
        name.table,
        empty_heap(space.page_size as nat, frames_of(t.pools, space.pool_id)),
    ).with_file(space.pool_id)
}

/// The catalog with the schema of a new table.
pub open spec fn with_its_schema(c: CacheModel, t: TableName) -> CacheModel {
    if c.catalog.schemas.contains(t.schema) {
        c
    } else {
        c.with_schema(t.schema)
    }
}

/// What making a table gives, and what it makes of the catalog and the tables. First the rows go
/// into the tables of the catalog, one after the other; then the table gets its file; then the
/// cache lists it. What was done before an error stays.
pub open spec fn table_created(
    name: TableName,
    cols: Seq<ColumnDef>,
    c: CacheModel,
    t: TsmModel,
    c2: CacheModel,
    t2: TsmModel,
    disk: Seq<nat>,
    r: DbResult<ResultSet>,
) -> bool {
    let sys = c.config.sys_schema;
    let list = new_entries(name, cols, c);
    let id = c.default_tablespace() as i32;
    let known = c.catalog.schemas.contains(name.schema);
    match r {
        Ok(rs) => exists|mid: TsmModel| #[trigger]
            entry_run(t, sys, list, list.len() as int, mid) && {
                &&& space_error(t.spaces, t.pools, id, name) is None
                &&& t2 == with_new_table(mid, name, id)
                &&& c2 == with_its_schema(c, name).with_table(new_table(name, cols, c), cols)
                &&& rs@ == status(table_said(name, " CREATED"@))
            },
        Err(e) => {
            ||| exists|k: int| #[trigger]
                entry_fails(t, sys, list, k, t2, disk, e) && 0 <= k < list.len() && c2 == if k == 0
                    && !known {
                    c
                } else {
                    with_its_schema(c, name)
                }
            ||| {
                &&& entry_run(t, sys, list, list.len() as int, t2)
                &&& space_error(t.spaces, t.pools, id, name) == Some(e@)
                &&& c2 == with_its_schema(c, name)
            }
        },
    }
}

/// What a `CREATE TABLE` gives, and what it makes of the catalog and the tables; `disk` has the
/// number of pages of each table that are on disk after it.
pub open spec fn create_outcome(
    ct: CreateTable,
    c: CacheModel,
    t: TsmModel,
    c2: CacheModel,
    t2: TsmModel,
    disk: Seq<nat>,
    r: DbResult<ResultSet>,
) -> bool {
    match create_plan(ct, c) {
        Err(e) => refused(r, e, t, t2) && c2 == c,
        Ok((name, cols)) => table_created(name, cols, c, t, c2, t2, disk, r),
    }
}

proof fn lemma_new_columns_error(specs: Seq<ColumnSpec>, t: TableName, i: int, n: int)
    requires
        0 <= i <= n,
        new_columns(specs, t, i) is Err,
    ensures
        new_columns(specs, t, n) is Err,
        new_columns(specs, t, n)->Err_0 == new_columns(specs, t, i)->Err_0,
    decreases n - i,
{
    if i < n {
        lemma_new_columns_error(specs, t, i, n - 1);
    }
}

/// What the catalog lists for the columns of a new table.
fn make_columns(specs: &Vec<ColumnSpec>, t: &TableRef) -> (r: DbResult<Vec<Column>>)
    requires
        specs@.len() <= u32::MAX,
    ensures
        match r {
            Ok(cols) => {
                &&& new_columns(specs@, t@, specs@.len() as int) == Ok::<
                    Seq<ColumnDef>,
                    ErrorModel,
                >(columns_view(cols@))
                &&& cols@.len() == specs@.len()
            },
            Err(e) => new_columns(specs@, t@, specs@.len() as int) == Err::<
                Seq<ColumnDef>,
                ErrorModel,
            >(e@),
        },
{
    let n: usize = specs.len();
    let mut cols: Vec<Column> = Vec::new();
    let mut i: usize = 0;
    assert(columns_view(cols@) =~= Seq::<ColumnDef>::empty());
    while i < n
        invariant
            i <= n,
            n == specs@.len(),
            n <= u32::MAX,
            cols@.len() == i,
            forall|k: int| 0 <= k < i ==> (#[trigger] cols@[k]).name@ == uppercase(specs@[k].name@),
            new_columns(specs@, t@, i as int) == Ok::<Seq<ColumnDef>, ErrorModel>(
                columns_view(cols@),
            ),
        decreases n - i,
    {
        let ghost before = columns_view(cols@);
        let name: String = to_uppercase(specs[i].name.as_str());
        let mut k: usize = 0;
        while k < i
            invariant
                k <= i,
                i < n,
                n == specs@.len(),
                cols@.len() == i,
                name@ == uppercase(specs@[i as int].name@),
                forall|k: int|
                    0 <= k < i ==> (#[trigger] cols@[k]).name@ == uppercase(specs@[k].name@),
                forall|j: int| 0 <= j < k ==> uppercase((#[trigger] specs@[j]).name@) != name@,
                new_columns(specs@, t@, i as int) is Ok,
            decreases i - k,
        {
            assert(cols@[k as int].name@ == uppercase(specs@[k as int].name@));
            if same_str(cols[k].name.as_str(), name.as_str()) {
                proof {
                    assert(repeated_name(specs@, i as int));
                    lemma_new_columns_error(specs@, t@, i + 1, n as int);
                }
                return Err(
                    sql_error(
                        SqlState::DuplicateColumnName,
                        "duplicate column name: ".to_owned().concat(name.as_str()),
                    ),
                );
            }
            k += 1;
        }
        assert(!repeated_name(specs@, i as int));
        let typename: String = match map_data_type(&specs[i].data_type) {
            Ok(s) => s,
            Err(e) => {
                proof {
                    lemma_new_columns_error(specs@, t@, i + 1, n as int);
                }
                return Err(e);
            }
        };
        let col = Column {
            name,
            tabname: t.table.clone(),
            schemaname: t.schema.clone(),
            ordinal: wrap_i16(i as i64),
            typename,
            nullable: !has_not_null(&specs[i].options),
        };
        assert(col@ == new_column(specs@[i as int], t@, i as int, typename@));
        cols.push(col);
        assert(columns_view(cols@) =~= before.push(col@));
        i += 1;
    }
    Ok(cols)
}

/// The rows that the catalog gets for a new table.
fn make_entries(t: &TableRef, known: bool, table: &Table, columns: &Vec<Column>) -> (r: Vec<
    CatalogRow,
>)
    ensures
        ({
            let schema = if known {
                Seq::<CatalogEntry>::empty()
            } else {
                seq![("SYSSCHEMAS"@, row_bytes(seq![ValueModel::Str(t@.schema)]))]
            };
            let cols = columns_view(columns@);
            entries(r@) == schema.push(("SYSTABLES"@, row_bytes(table_row(table@)))) + Seq::new(
                cols.len(),
                |i: int| ("SYSCOLUMNS"@, row_bytes(column_row(cols[i]))),
            )
        }),
{
    let mut rows: Vec<CatalogRow> = Vec::new();
    let ghost cols = columns_view(columns@);
    let ghost schema = if known {
        Seq::<CatalogEntry>::empty()
    } else {
        seq![("SYSSCHEMAS"@, row_bytes(seq![ValueModel::Str(t@.schema)]))]
    };
    if !known {
        let mut row: Vec<Value> = Vec::new();
        row.push(Value::Str(t.schema.clone()));
        assert(row_view(row@) =~= seq![ValueModel::Str(t@.schema)]);
        rows.push(CatalogRow { table: "SYSSCHEMAS".to_owned(), bytes: encode_row(&row) });
    }
    assert(entries(rows@) =~= schema);
    rows.push(
        CatalogRow { table: "SYSTABLES".to_owned(), bytes: encode_row(&table_values(table)) },
    );
    let ghost head = schema.push(("SYSTABLES"@, row_bytes(table_row(table@))));
    assert(entries(rows@) =~= head);
    let n: usize = columns.len();
    let mut i: usize = 0;
    assert(entries(rows@) =~= head + Seq::new(
        0,
        |i: int| ("SYSCOLUMNS"@, row_bytes(column_row(cols[i]))),
    ));
    while i < n
        invariant
            i <= n,
            n == columns@.len(),
            cols == columns_view(columns@),
            entries(rows@) == head + Seq::new(
                i as nat,
                |i: int| ("SYSCOLUMNS"@, row_bytes(column_row(cols[i]))),
            ),
        decreases n - i,
    {
        let ghost before = entries(rows@);
        assert(cols[i as int] == columns@[i as int]@);
        rows.push(
            CatalogRow {
                table: "SYSCOLUMNS".to_owned(),
                bytes: encode_row(&column_values(&columns[i])),
            },
        );
        assert(entries(rows@) =~= before.push(
            ("SYSCOLUMNS"@, row_bytes(column_row(cols[i as int]))),
        ));
        assert(entries(rows@) =~= head + Seq::new(
            (i + 1) as nat,
            |i: int| ("SYSCOLUMNS"@, row_bytes(column_row(cols[i]))),
        ));
        i += 1;
    }
    rows
}

/// Stores some rows in the catalog, one after the other. Gives the number of rows that were
/// stored, and the error of the next one if it failed.
fn add_entries(tsm: &mut TablespaceManager, sys: &str, rows: &Vec<CatalogRow>) -> (r: (
    usize,
    Option<Error>,
))
    requires
        old(tsm).wf(),
        forall|k: int|
            0 <= k < rows@.len() ==> can_touch(old(tsm)@, sys@, (#[trigger] entries(rows@)[k]).0),
    ensures
        final(tsm).wf(),
        stores_kept(old(tsm)@, final(tsm)@),
        ({
            let list = entries(rows@);
            match r.1 {
                None => r.0 == rows@.len() && entry_run(
                    old(tsm)@,
                    sys@,
                    list,
                    rows@.len() as int,
                    final(tsm)@,
                ),
                Some(e) => r.0 < rows@.len() && entry_fails(
                    old(tsm)@,
                    sys@,
                    list,
                    r.0 as int,
                    final(tsm)@,
                    final(tsm).on_disk(),
                    e,
                ),
            }
        }),
{
    let ghost t = tsm@;
    let ghost list = entries(rows@);
    let n: usize = rows.len();
    let mut i: usize = 0;
    let ghost mut states: Seq<TsmModel> = seq![t];
    while i < n
        invariant
            i <= n,
            n == rows@.len(),
            tsm.wf(),
            touch_kept(t, tsm@),
            forall|k: int|
                0 <= k < rows@.len() ==> can_touch(t, sys@, (#[trigger] list[k]).0),
            stores_kept(t, tsm@),
            list == entries(rows@),
            t == old(tsm)@,
            states.len() == i + 1,
            states[0] == t,
            states[i as int] == tsm@,
            entry_trace(states, sys@, list),
        decreases n - i,
    {
        let ghost mid = tsm@;
        let ghost entry = list[i as int];
        let ghost name = TableName { schema: sys@, table: entry.0 };
        assert(entry_run(t, sys@, list, i as int, mid));
        let r: DbResult<Rid> = tsm.insert_row(
            sys,
            rows[i].table.as_str(),
            rows[i].bytes.as_slice(),
        );
        match r {
            Ok(rid) => {
                proof {
                    assert(adds(mid, name, entry.1, tsm@, Ok(rid)));
                    assert(entry_step(mid, tsm@, sys@, entry));
                    lemma_touch_kept(mid, sys@, entry.0, tsm@.heap(sys@, entry.0));
                    let longer = states.push(tsm@);
                    assert forall|k: int| 0 <= k < longer.len() - 1 implies entry_step(
                        #[trigger] longer[k],
                        longer[k + 1],
                        sys@,
                        list[k],
                    ) by {
                        if k < i {
                            assert(states[k] == longer[k]);
                            assert(states[k + 1] == longer[k + 1]);
                        }
                    }
                    states = longer;
                }
            }
            Err(e) => {
                assert(adds(mid, name, entry.1, tsm@, Err(e)));
                assert(add_fails(mid, name, entry.1, tsm@, tsm.on_disk(), e));
                assert(entry_fails(t, sys@, list, i as int, tsm@, tsm.on_disk(), e));
                return (i, Some(e));
            }
        }
        i += 1;
    }
    (n, None)
}

/// Checks a `CREATE TABLE`: the table that it makes and its columns, or why it is refused.
fn check_create(ct: &CreateTable, cache: &CatalogCache) -> (r: DbResult<(TableRef, Vec<Column>)>)
    requires
        cache.wf(),
        asks_page_limit(*ct, cache@) ==> max_payload(new_page_size(cache@)) >= 0,
    ensures
        match r {
            Ok((t, cols)) => {
                &&& create_plan(*ct, cache@) == Ok::<(TableName, Seq<ColumnDef>), ErrorModel>(
                    (t@, columns_view(cols@)),
                )
                &&& cols@.len() <= u32::MAX
            },
            Err(e) => create_plan(*ct, cache@) == Err::<(TableName, Seq<ColumnDef>), ErrorModel>(
                e@,
            ),
        },
{
    let t: TableRef = match resolve_table_name(&ct.name, cache) {
        Ok(t) => t,
        Err(e) => {
            return Err(e);
        }
    };
    let sys: &str = cache.config().sys_schema.as_str();
    if ct.name.parts.len() > 1 && same_str(t.schema.as_str(), sys) {
        return Err(
            sql_error(
                SqlState::SystemSchemaViolation,
                "cannot create user table in system schema ".to_owned().concat(sys),
            ),
        );
    }
    if cache.get_table(t.schema.as_str(), t.table.as_str()).is_some() {
        return Err(
            sql_error(
                SqlState::TableAlreadyExists,
                "table ".to_owned().concat(t.schema.as_str()).concat(".").concat(
                    t.table.as_str(),
                ).concat(" already exists"),
            ),
        );
    }
    let n: usize = ct.columns.len();
    if n == 0 {
        return Err(
            sql_error(
                SqlState::SyntaxError,
                "CREATE TABLE requires at least one column".to_owned(),
            ),
        );
    }
    let size: i64 = page_size_of_new(cache);
    let payload: i64 = size - PAGE_HEADER_SIZE as i64 - SLOT_SIZE as i64 - TUPLE_HEADER_SIZE as i64;
    let most: i64 = payload / MIN_COLUMN_BYTES as i64;
    if n as u64 > most as u64 {
        return Err(
            sql_error(
                SqlState::TooManyColumns,
                "table exceeds maximum column count for ".to_owned().concat(
                    decimal(size as u64).as_str(),
                ).concat("-byte pages (").concat(decimal(n as u64).as_str()).concat(
                    " > ",
                ).concat(decimal(most as u64).as_str()).concat(")"),
            ),
        );
    }
    let columns: Vec<Column> = match make_columns(&ct.columns, &t) {
        Ok(cols) => cols,
        Err(e) => {
            return Err(e);
        }
    };
    proof {
        lemma_row_size_fits(columns_view(columns@), columns@.len() as int);
    }
    let max_row: u128 = max_row_size(&columns);
    if max_row > payload as u128 {
        return Err(
            sql_error(
                SqlState::RowTooLarge,
                "maximum row size ".to_owned().concat(decimal_wide(max_row).as_str()).concat(
                    " bytes exceeds page limit ",
                ).concat(decimal(payload as u64).as_str()).concat(" bytes (page size ").concat(
                    decimal(size as u64).as_str(),
                ).concat(")"),
            ),
        );
    }
    Ok((t, columns))
}

/// Whether a `CREATE TABLE` gets as far as the size of a page: it names a table that can be made
/// and does not exist, and has a column.
pub open spec fn asks_page_limit(ct: CreateTable, c: CacheModel) -> bool {
    match named_table(ct.name, c) {
        Err(_) => false,
        Ok(t) => {
            &&& !(ct.name.parts@.len() > 1 && t.schema == c.config.sys_schema)
            &&& c.table(t.schema, t.table) is None
            &&& ct.columns@.len() > 0
        },
    }
}

/// Whether the pages of the catalog's tables that a new table goes to can be looked at.
pub open spec fn entries_ok(schema: Seq<char>, c: CacheModel, t: TsmModel) -> bool {
    let sys = c.config.sys_schema;
    &&& !c.catalog.schemas.contains(schema) ==> can_touch(t, sys, "SYSSCHEMAS"@)
    &&& can_touch(t, sys, "SYSTABLES"@)
    &&& can_touch(t, sys, "SYSCOLUMNS"@)
}

/// What a `CREATE TABLE` asks: where it gets as far as the size of a page, that a page has room for
/// the headers of a row; where it is not refused, that a number is left for the table, and that the
/// pages of the catalog and of the tablespace can be worked with.
pub open spec fn create_ok(ct: CreateTable, c: CacheModel, t: TsmModel) -> bool {
    &&& asks_page_limit(ct, c) ==> max_payload(new_page_size(c)) >= 0
    &&& create_plan(ct, c) is Ok ==> {
        &&& max_table_id(c.catalog.tables) < i32::MAX
        &&& space_ready(t, c.default_tablespace() as i32)
        &&& entries_ok(create_plan(ct, c)->Ok_0.0.schema, c, t)
    }
}

/// Tells whether a `CREATE TABLE` gets as far as the size of a page.
fn gets_to_page_limit(ct: &CreateTable, cache: &CatalogCache) -> (r: bool)
    requires
        cache.wf(),
    ensures
        r == asks_page_limit(*ct, cache@),
{
    match resolve_table_name(&ct.name, cache) {
        Ok(t) => {
            let sys: &str = cache.config().sys_schema.as_str();
            !(ct.name.parts.len() > 1 && same_str(t.schema.as_str(), sys)) && cache.get_table(
                t.schema.as_str(),
                t.table.as_str(),
            ).is_none() && ct.columns.len() > 0
        }
        Err(_) => false,
    }
}

/// The bytes of a page of a new table.
fn page_size_of_new(cache: &CatalogCache) -> (r: i64)
    requires
        cache.wf(),
    ensures
        r == new_page_size(cache@),
{
    match cache.get_tablespace_by_id(cache.default_tablespace_id() as i32) {
        Some(space) => space.pagesize as i64,
        None => 4096,
    }
}

/// Tells whether a `CREATE TABLE` has what it asks.
pub fn can_create(ct: &CreateTable, cache: &CatalogCache, tsm: &TablespaceManager) -> (r: bool)
    requires
        cache.wf(),
        tsm.wf(),
    ensures
        r == create_ok(*ct, cache@, tsm@),
{
    let headers: i64 = PAGE_HEADER_SIZE as i64 + SLOT_SIZE as i64 + TUPLE_HEADER_SIZE as i64;
    if gets_to_page_limit(ct, cache) && page_size_of_new(cache) < headers {
        return false;
    }
    match check_create(ct, cache) {
        Ok((t, _)) => {
            let sys: &str = cache.config().sys_schema.as_str();
            cache.has_table_id() && tsm.is_space_ready(cache.default_tablespace_id() as i32) && (
            cache.has_schema(t.schema.as_str()) || tsm.is_touchable(sys, "SYSSCHEMAS"))
                && tsm.is_touchable(sys, "SYSTABLES") && tsm.is_touchable(sys, "SYSCOLUMNS")
        }
        Err(_) => true,
    }
}

/// Runs a `CREATE TABLE`.
pub fn execute_create_table(
    ct: &CreateTable,
    cache: &mut CatalogCache,
    tsm: &mut TablespaceManager,
) -> (r: DbResult<ResultSet>)
    requires
        old(cache).wf(),
        old(tsm).wf(),
        create_ok(*ct, old(cache)@, old(tsm)@),
    ensures
        final(cache).wf(),
        final(tsm).wf(),
        final(tsm)@.spaces == old(tsm)@.spaces,
        pools_alike(final(tsm)@.pools, old(tsm)@.pools),
        create_outcome(
            *ct,
            old(cache)@,
            old(tsm)@,
            final(cache)@,
            final(tsm)@,
            final(tsm).on_disk(),
            r,
        ),
{
    let ghost c = cache@;
    let ghost t0 = tsm@;
    let (t, columns) = match check_create(ct, cache) {
        Ok(x) => x,
        Err(e) => {
            return Err(e);
        }
    };
    let ghost name = t@;
    let ghost cols = columns_view(columns@);
    let tbspaceid: i16 = cache.default_tablespace_id();
    let known: bool = cache.has_schema(t.schema.as_str());
    let table = Table {
        tableid: cache.next_table_id(),
        name: t.table.clone(),
        schemaname: t.schema.clone(),
        tbspaceid,
        colcount: wrap_i16(columns.len() as i64),
    };
    assert(table@ == new_table(name, cols, c));
    let sys: String = cache.config().sys_schema.clone();
    let rows: Vec<CatalogRow> = make_entries(&t, known, &table, &columns);
    let ghost list = new_entries(name, cols, c);
    assert(entries(rows@) == list);
    let (done, failed) = add_entries(tsm, sys.as_str(), &rows);
    let ghost mid = tsm@;
    if !known && done > 0 {
        cache.register_schema(Schema { name: t.schema.clone() });
    }
    match failed {
        Some(e) => {
            return Err(e);
        }
        None => {}
    }
    assert(entry_run(t0, sys@, list, list.len() as int, mid));
    assert(space_error(mid.spaces, mid.pools, tbspaceid as i32, name) == space_error(
        t0.spaces,
        t0.pools,
        tbspaceid as i32,
        name,
    ));
    match tsm.register_new_table(t.schema.as_str(), t.table.as_str(), tbspaceid as i32) {
        Ok(_) => {}
        Err(e) => {
            return Err(e);
        }
    }
    cache.register_table(table, columns);
    Ok(status_result(&t, " CREATED"))
}

// ── DROP TABLE ──

/// The column that names the table in a table of the catalog.
pub open spec fn name_column(catalog_table: Seq<char>) -> Seq<char> {
    if catalog_table == "SYSTABLES"@ {
        "NAME"@
    } else {
        "TABNAME"@
    }
}

/// The position of a column in a table of the catalog.
pub open spec fn catalog_column(
    names: Seq<Seq<char>>,
    column: Seq<char>,
    catalog_table: Seq<char>,
) -> Result<int, ErrorModel> {
    match index_of(names, column) {
        Some(i) => Ok(i),
        None => Err(
            ErrorModel::Sql(
                SqlState::ColumnNotFound,
                "column "@ + column + " not found in "@ + catalog_table,
            ),
        ),
    }
}

/// The addresses of those of the first `n` rows that show a schema and a table in two columns.
pub open spec fn naming_rids(
    raw: Seq<(Rid, Seq<u8>)>,
    cols: Seq<ColumnDef>,
    schema_at: int,
    name_at: int,
    target: TableName,
    n: int,
) -> Result<Seq<Rid>, ErrorModel>
    decreases n,
{
    if n <= 0 {
        Ok(Seq::empty())
    } else {
        match naming_rids(raw, cols, schema_at, name_at, target, n - 1) {
            Err(e) => Err(e),
            Ok(rids) => match row_values(raw[n - 1].1, cols) {
                Err(e) => Err(e),
                Ok(row) => if row[schema_at].text() == target.schema && row[name_at].text()
                    == target.table {
                    Ok(rids.push(raw[n - 1].0))
                } else {
                    Ok(rids)
                },
            },
        }
    }
}

proof fn lemma_naming_error(
    raw: Seq<(Rid, Seq<u8>)>,
    cols: Seq<ColumnDef>,
    schema_at: int,
    name_at: int,
    target: TableName,
    i: int,
    n: int,
)
    requires
        0 <= i <= n,
        naming_rids(raw, cols, schema_at, name_at, target, i) is Err,
    ensures
        naming_rids(raw, cols, schema_at, name_at, target, n) is Err,
        naming_rids(raw, cols, schema_at, name_at, target, n)->Err_0 == naming_rids(
            raw,
            cols,
            schema_at,
            name_at,
            target,
            i,
        )->Err_0,
    decreases n - i,
{
    if i < n {
        lemma_naming_error(raw, cols, schema_at, name_at, target, i, n - 1);
    }
}

/// The addresses of the rows of a table of the catalog that are about a table.
pub open spec fn rows_about(
    catalog_table: Seq<char>,
    target: TableName,
    c: CacheModel,
    t: TsmModel,
) -> Result<Seq<Rid>, ErrorModel> {
    let sys = c.config.sys_schema;
    match c.columns_for(sys, catalog_table) {
        None => Err(
            ErrorModel::Sql(
                SqlState::TableNotFound,
                "catalog table "@ + sys + "."@ + catalog_table + " not found"@,
            ),
        ),
        Some(cols) => match catalog_column(column_names(cols), "SCHEMANAME"@, catalog_table) {
            Err(e) => Err(e),
            Ok(schema_at) => match catalog_column(
                column_names(cols),
                name_column(catalog_table),
                catalog_table,
            ) {
                Err(e) => Err(e),
                Ok(name_at) => match scanned(t, system_table(c, catalog_table)) {
                    Err(e) => Err(e),
                    Ok(raw) => naming_rids(
                        raw,
                        cols,
                        schema_at,
                        name_at,
                        target,
                        raw.len() as int,
                    ),
                },
            },
        },
    }
}

/// What deleting the rows about a table from a table of the catalog gives, and what it makes of
/// the tables.
pub open spec fn about_deleted(
    catalog_table: Seq<char>,
    target: TableName,
    c: CacheModel,
    t: TsmModel,
    t2: TsmModel,
    r: DbResult<()>,
) -> bool {
    match rows_about(catalog_table, target, c, t) {
        Err(e) => refused(r, e, t, t2),
        Ok(rids) => r is Ok && delete_run(t, system_table(c, catalog_table), rids, t2),
    }
}

fn no_catalog_column(column: &str, catalog_table: &str) -> (e: Error)
    ensures
        e@ == ErrorModel::Sql(
            SqlState::ColumnNotFound,
            "column "@ + column@ + " not found in "@ + catalog_table@,
        ),
{
    sql_error(
        SqlState::ColumnNotFound,
        "column ".to_owned().concat(column).concat(" not found in ").concat(catalog_table),
    )
}

/// The addresses of the rows that show a schema and a table in two columns.
fn naming(
    raw: &Vec<(Rid, Vec<u8>)>,
    columns: &Vec<Column>,
    schema_at: usize,
    name_at: usize,
    target: &TableRef,
) -> (r: DbResult<Vec<Rid>>)
    requires
        schema_at < columns@.len(),
        name_at < columns@.len(),
        ({
            let rows = rid_rows(raw@);
            forall|i: int, j: int|
                0 <= i < j < rows.len() ==> (#[trigger] rows[i]).0 != (#[trigger] rows[j]).0
        }),
    ensures
        ({
            let want = naming_rids(
                rid_rows(raw@),
                columns_view(columns@),
                schema_at as int,
                name_at as int,
                target@,
                raw@.len() as int,
            );
            match r {
                Ok(rids) => {
                    &&& want == Ok::<Seq<Rid>, ErrorModel>(rids@)
                    &&& addresses_in(rids@, rid_rows(raw@), raw@.len() as int)
                },
                Err(e) => want == Err::<Seq<Rid>, ErrorModel>(e@),
            }
        }),
{
    let ghost rows = rid_rows(raw@);
    let ghost cols = columns_view(columns@);
    let ghost s = schema_at as int;
    let ghost m = name_at as int;
    let n: usize = raw.len();
    let mut rids: Vec<Rid> = Vec::new();
    let mut i: usize = 0;
    while i < n
        invariant
            i <= n,
            n == raw@.len(),
            schema_at < columns@.len(),
            name_at < columns@.len(),
            s == schema_at,
            m == name_at,
            rows == rid_rows(raw@),
            cols == columns_view(columns@),
            forall|i: int, j: int|
                0 <= i < j < rows.len() ==> (#[trigger] rows[i]).0 != (#[trigger] rows[j]).0,
            naming_rids(rows, cols, s, m, target@, i as int) == Ok::<Seq<Rid>, ErrorModel>(rids@),
            addresses_in(rids@, rows, i as int),
        decreases n - i,
    {
        assert(rows[i as int] == (raw@[i as int].0, raw@[i as int].1@));
        proof {
            lemma_address_added(rids@, rows, i as int);
        }
        match deserialize_row(raw[i].1.as_slice(), columns) {
            Ok(row) => {
                assert(row_view(row@)[s] == row@[s]@);
                assert(row_view(row@)[m] == row@[m]@);
                if same_str(row[schema_at].to_string().as_str(), target.schema.as_str())
                    && same_str(row[name_at].to_string().as_str(), target.table.as_str()) {
                    rids.push(raw[i].0);
                }
            }
            Err(e) => {
                proof {
                    lemma_naming_error(rows, cols, s, m, target@, i + 1, n as int);
                }
                return Err(e);
            }
        }
        i += 1;
    }
    Ok(rids)
}

/// Deletes the rows about a table from a table of the catalog.
pub fn delete_catalog_rows_for_table(
    catalog_table: &str,
    target: &TableRef,
    cache: &CatalogCache,
    tsm: &mut TablespaceManager,
) -> (r: DbResult<()>)
    requires
        cache.wf(),
        old(tsm).wf(),
        can_scan(old(tsm)@, cache@.config.sys_schema, catalog_table@),
    ensures
        final(tsm).wf(),
        stores_kept(old(tsm)@, final(tsm)@),
        scan_kept(old(tsm)@, final(tsm)@),
        about_deleted(catalog_table@, target@, cache@, old(tsm)@, final(tsm)@, r),
{
    let sys: &String = &cache.config().sys_schema;
    let (columns, index) = match (
        cache.get_columns(sys.as_str(), catalog_table),
        cache.get_column_meta(sys.as_str(), catalog_table),
    ) {
        (Some(columns), Some((_, index))) => (columns, index),
        _ => {
            return Err(
                sql_error(
                    SqlState::TableNotFound,
                    "catalog table ".to_owned().concat(sys.as_str()).concat(".").concat(
                        catalog_table,
                    ).concat(" not found"),
                ),
            );
        }
    };
    let ghost cols = columns_view(columns@);
    assert(index@ == column_names(cols));
    let schema_at: usize = match index.get("SCHEMANAME") {
        Some(i) => i,
        None => {
            return Err(no_catalog_column("SCHEMANAME", catalog_table));
        }
    };
    let name_column: &str = if same_str(catalog_table, "SYSTABLES") { "NAME" } else { "TABNAME" };
    let name_at: usize = match index.get(name_column) {
        Some(i) => i,
        None => {
            return Err(no_catalog_column(name_column, catalog_table));
        }
    };
    let table = TableRef { schema: sys.clone(), table: catalog_table.to_owned() };
    assert(table@ == system_table(cache@, catalog_table@));
    let raw: Vec<(Rid, Vec<u8>)> = match scan_table(tsm, &table) {
        Ok(v) => v,
        Err(e) => {
            return Err(e);
        }
    };
    proof {
        tsm.lemma_wf();
        law_scan_is_the_table(tsm@, table@);
    }
    let rids: Vec<Rid> = match naming(&raw, columns, schema_at, name_at, target) {
        Ok(v) => v,
        Err(e) => {
            return Err(e);
        }
    };
    proof {
        lemma_rows_at(tsm@, table@, rids@);
    }
    remove_rows(tsm, &table, &rids)
}

/// The table that a `DROP TABLE` drops, or the error with which it is refused.
pub open spec fn drop_target(d: DropTable, c: CacheModel) -> Result<TableName, ErrorModel> {
    if d.names@.len() != 1 {
        Err(
            ErrorModel::Sql(
                SqlState::FeatureNotSupported,
                "DROP TABLE supports exactly one table at a time"@,
            ),
        )
    } else {
        match named_table(d.names@[0], c) {
            Err(e) => Err(e),
            Ok(name) => {
                let t = searched(name, c);
                if t.schema == c.config.sys_schema {
                    Err(
                        ErrorModel::Sql(
                            SqlState::SystemSchemaViolation,
                            "cannot drop system table "@ + t.schema + "."@ + t.table,
                        ),
                    )
                } else if c.table(t.schema, t.table) is None && !d.if_exists {
                    Err(table_not_found(t))
                } else {
                    Ok(t)
                }
            },
        }
    }
}

/// What dropping a table gives, and what it makes of the catalog and the tables. First the rows
/// about the table leave the catalog; then the table goes; then the cache forgets it. What was
/// done before an error stays.
pub open spec fn table_dropped(
    name: TableName,
    c: CacheModel,
    t: TsmModel,
    c2: CacheModel,
    t2: TsmModel,
    r: DbResult<ResultSet>,
) -> bool {
    exists|t1: TsmModel, r1: DbResult<()>| #[trigger]
        about_deleted("SYSTABLES"@, name, c, t, t1, r1) && match r1 {
            Err(e) => refused(r, e@, t1, t2) && c2 == c,
            Ok(_) => columns_dropped(name, c, t1, c2, t2, r),
        }
}

/// The second part of dropping a table: from its columns on.
pub open spec fn columns_dropped(
    name: TableName,
    c: CacheModel,
    t: TsmModel,
    c2: CacheModel,
    t2: TsmModel,
    r: DbResult<ResultSet>,
) -> bool {
    exists|t1: TsmModel, r1: DbResult<()>| #[trigger]
        about_deleted("SYSCOLUMNS"@, name, c, t, t1, r1) && match r1 {
            Err(e) => refused(r, e@, t1, t2) && c2 == c,
            Ok(_) => if t1.has(name.schema, name.table) {
                &&& r is Ok
                &&& r->Ok_0@ == status(table_said(name, " DROPPED"@))
                &&& t2 == t1.without_table(name.schema, name.table)
                &&& c2 == c.without_table(name.schema, name.table)
            } else {
                refused(r, no_table(name.schema, name.table), t1, t2) && c2 == c
            },
        }
}

/// What a `DROP TABLE` gives, and what it makes of the catalog and the tables.
pub open spec fn drop_outcome(
    d: DropTable,
    c: CacheModel,
    t: TsmModel,
    c2: CacheModel,
    t2: TsmModel,
    r: DbResult<ResultSet>,
) -> bool {
    match drop_target(d, c) {
        Err(e) => refused(r, e, t, t2) && c2 == c,
        Ok(name) => if c.table(name.schema, name.table) is None {
            &&& r is Ok
            &&& r->Ok_0@ == status(table_said(name, " DOES NOT EXIST (skipped)"@))
            &&& t2 == t
            &&& c2 == c
        } else {
            table_dropped(name, c, t, c2, t2, r)
        },
    }
}

/// What a `DROP TABLE` asks: where it drops a table, that the tables of the catalog with the rows
/// about it can be scanned.
pub open spec fn drop_ok(d: DropTable, c: CacheModel, t: TsmModel) -> bool {
    drop_target(d, c) matches Ok(name) && c.table(name.schema, name.table) is Some ==> {
        &&& can_scan(t, c.config.sys_schema, "SYSTABLES"@)
        &&& can_scan(t, c.config.sys_schema, "SYSCOLUMNS"@)
    }
}

/// Tells whether a `DROP TABLE` has what it asks.
pub fn can_drop(drop: &DropTable, cache: &CatalogCache, tsm: &TablespaceManager) -> (r: bool)
    requires
        cache.wf(),
        tsm.wf(),
    ensures
        r == drop_ok(*drop, cache@, tsm@),
{
    if drop.names.len() != 1 {
        return true;
    }
    let sys: &str = cache.config().sys_schema.as_str();
    match resolve_table_name(&drop.names[0], cache) {
        Ok(name) => {
            let t: TableRef = resolve_with_search_path(name, cache);
            same_str(t.schema.as_str(), sys) || cache.get_table(
                t.schema.as_str(),
                t.table.as_str(),
            ).is_none() || (tsm.is_scannable(sys, "SYSTABLES") && tsm.is_scannable(
                sys,
                "SYSCOLUMNS",
            ))
        }
        Err(_) => true,
    }
}

/// Runs a `DROP TABLE`.
pub fn execute_drop_table(
    drop: &DropTable,
    cache: &mut CatalogCache,
    tsm: &mut TablespaceManager,
) -> (r: DbResult<ResultSet>)
    requires
        old(cache).wf(),
        old(tsm).wf(),
        drop_ok(*drop, old(cache)@, old(tsm)@),
    ensures
        final(cache).wf(),
        final(tsm).wf(),
        stores_kept(old(tsm)@, final(tsm)@),
        drop_outcome(*drop, old(cache)@, old(tsm)@, final(cache)@, final(tsm)@, r),
{
    if drop.names.len() != 1 {
        return Err(
            sql_error(
                SqlState::FeatureNotSupported,
                "DROP TABLE supports exactly one table at a time".to_owned(),
            ),
        );
    }
    let t: TableRef = match resolve_table_name(&drop.names[0], cache) {
        Ok(t) => resolve_with_search_path(t, cache),
        Err(e) => {
            return Err(e);
        }
    };
    if same_str(t.schema.as_str(), cache.config().sys_schema.as_str()) {
        return Err(
            sql_error(
                SqlState::SystemSchemaViolation,
                "cannot drop system table ".to_owned().concat(t.schema.as_str()).concat(
                    ".",
                ).concat(t.table.as_str()),
            ),
        );
    }
    if cache.get_table(t.schema.as_str(), t.table.as_str()).is_none() {
        if drop.if_exists {
            return Ok(status_result(&t, " DOES NOT EXIST (skipped)"));
        }
        return Err(table_not_found_error(&t));
    }
    let ghost c = cache@;
    let ghost name = t@;
    let ghost t0 = tsm@;
    let r1: DbResult<()> = delete_catalog_rows_for_table("SYSTABLES", &t, cache, tsm);
    let ghost t1 = tsm@;
    assert(about_deleted("SYSTABLES"@, name, c, t0, t1, r1));
    match r1 {
        Ok(_) => {}
        Err(e) => {
            assert(refused(Err::<ResultSet, Error>(e), e@, t1, tsm@));
            return Err(e);
        }
    }
    let r2: DbResult<()> = delete_catalog_rows_for_table("SYSCOLUMNS", &t, cache, tsm);
    let ghost t2 = tsm@;
    assert(about_deleted("SYSCOLUMNS"@, name, c, t1, t2, r2));
    match r2 {
        Ok(_) => {}
        Err(e) => {
            assert(columns_dropped(name, c, t1, c, tsm@, Err(e)));
            return Err(e);
        }
    }
    match tsm.drop_table(t.schema.as_str(), t.table.as_str()) {
        Ok(_) => {}
        Err(e) => {
            assert(columns_dropped(name, c, t1, c, tsm@, Err(e)));
            return Err(e);
        }
    }
    cache.unregister_table(t.schema.as_str(), t.table.as_str());
    let rs: ResultSet = status_result(&t, " DROPPED");
    assert(columns_dropped(name, c, t1, cache@, tsm@, Ok(rs)));
    Ok(rs)
}

} // verus!
