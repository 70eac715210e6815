//! What `CREATE TABLE` and `DROP TABLE` mean.

use vstd::prelude::*;
use vstd::utf8::encode_utf8;
use crate::catalog::bootstrap::{row_bytes, value_bytes, values_bytes};
use crate::catalog::cache::{column_names, column_row, index_of, law_registered_schema_is_there,
    lemma_index_of, max_table_id, table_row, tablespace_index, tablespace_named, CacheModel};
use crate::catalog::row::{field_bytes, flag_bytes};
use crate::catalog::types::{ColumnDef, TableDef, TablespaceDef};
use crate::error::{DbResult, ErrorModel, SqlState};
use crate::sql::ast::{ColumnOption, ColumnSpec, CreateTable, DropTable};
use crate::sql::change::{adds, refused};
use crate::sql::define::{about_deleted, columns_dropped, create_outcome, create_plan, drop_outcome,
    drop_target, entry_fails, entry_run, entry_step, entry_trace, naming_rids, new_columns,
    new_entries, new_page_size, new_table, repeated_name, rows_about, status, system_table,
    table_said, with_its_schema, with_new_table, CatalogEntry};
use crate::sql::eval::{base_type, fields_to, is_text_type, law_row_round_trip, row_size, row_values,
    stored_value, type_text};
use crate::sql::laws::{law_delete_takes_its_rows, lemma_adds, row_of};
use crate::sql::query::{law_scan_is_the_table, law_scan_needs_readable_pages, named_table, scanned,
    searched};
use crate::sql::type_laws::fails_with;
use crate::sql::types::{ResultSet, TableName, ValueModel};
use crate::storage::heap::Rid;
use crate::storage::tablespace::{empty_heap, find_space, frames_of, lemma_with_table,
    lemma_without_table, no_table, TsmModel};
use crate::text::uppercase;

verus! {

// ── CREATE TABLE ──

/// Whether two of the first `n` new columns have one name.
pub open spec fn names_clash(specs: Seq<ColumnSpec>, n: int) -> bool {
    exists|i: int, j: int|
        0 <= i < j < n && uppercase((#[trigger] specs[i]).name@) == uppercase(
            (#[trigger] specs[j]).name@,
        )
}

/// Whether options of a new column say `NOT NULL`.
pub open spec fn says_not_null(options: Seq<ColumnOption>) -> bool {
    exists|k: int| 0 <= k < options.len() && #[trigger] options[k] is NotNull
}

/// The columns of a new table are those that are declared, in their order: each under its name in
/// upper case, at its place, with the name of its declared type, and nullable unless it is declared
/// `NOT NULL`. They are refused if and only if a type is, or two of them have one name.
pub proof fn law_new_columns_are_as_declared(specs: Seq<ColumnSpec>, t: TableName, n: int)
    requires
        0 <= n <= specs.len(),
    ensures
        new_columns(specs, t, n) is Ok <==> !names_clash(specs, n) && forall|i: int|
            0 <= i < n ==> type_text((#[trigger] specs[i]).data_type) is Ok,
        new_columns(specs, t, n) matches Ok(cols) ==> cols.len() == n && forall|i: int|
            0 <= i < n ==> {
                &&& (#[trigger] cols[i]).name == uppercase(specs[i].name@)
                &&& cols[i].tabname == t.table
                &&& cols[i].schemaname == t.schema
                &&& i <= 0x7fff ==> cols[i].ordinal == i
                &&& type_text(specs[i].data_type) == Ok::<Seq<char>, ErrorModel>(cols[i].typename)
                &&& cols[i].nullable == !says_not_null(specs[i].options@)
            },
        new_columns(specs, t, n) is Err ==> fails_with(
            new_columns(specs, t, n),
            SqlState::DuplicateColumnName,
        ) || exists|i: int|
            0 <= i < n && type_text((#[trigger] specs[i]).data_type) is Err && new_columns(
                specs,
                t,
                n,
            )->Err_0 == type_text(specs[i].data_type)->Err_0,
    decreases n,
{
    if n > 0 {
        law_new_columns_are_as_declared(specs, t, n - 1);
        let before = new_columns(specs, t, n - 1);
        let now = new_columns(specs, t, n);
        if now is Ok {
            assert(type_text(specs[n - 1].data_type) is Ok);
            if names_clash(specs, n) {
                let (i, j) = choose|i: int, j: int|
                    0 <= i < j < n && uppercase((#[trigger] specs[i]).name@) == uppercase(
                        (#[trigger] specs[j]).name@,
                    );
                if j < n - 1 {
                    assert(names_clash(specs, n - 1));
                } else {
                    assert(repeated_name(specs, n - 1));
                }
            }
        } else if before is Err {
            if names_clash(specs, n - 1) {
                assert(names_clash(specs, n));
            } else {
                let i = choose|i: int|
                    0 <= i < n - 1 && type_text((#[trigger] specs[i]).data_type) is Err;
                assert(type_text(specs[i].data_type) is Err);
            }
        } else if repeated_name(specs, n - 1) {
            let k = choose|k: int|
                0 <= k < n - 1 && uppercase((#[trigger] specs[k]).name@) == uppercase(
                    specs[n - 1].name@,
                );
            assert(uppercase(specs[k].name@) == uppercase(specs[n - 1].name@));
            assert(names_clash(specs, n));
        } else {
            assert(type_text(specs[n - 1].data_type) is Err);
        }
    }
}

/// When a `CREATE TABLE` is refused, and what with. The first of these decides: its name must mean
/// a table; it must not name the schema of the system; the table must be new; it must have a
/// column, and no more than a page has room for at nine bytes each; its columns must be sound; and
/// its longest row must fit into a page of the new table, less 44 bytes for headers. A table that
/// is not refused gets the name and the columns that are declared.
pub proof fn law_create_is_refused(ct: CreateTable, c: CacheModel)
    ensures
        named_table(ct.name, c) matches Err(e) ==> create_plan(ct, c) == Err::<
            (TableName, Seq<ColumnDef>),
            ErrorModel,
        >(e),
        named_table(ct.name, c) matches Ok(t) ==> {
            let n = ct.columns@.len() as int;
            let room = new_page_size(c) - 44;
            let own = ct.name.parts@.len() > 1 && t.schema == c.config.sys_schema;
            let there = c.table(t.schema, t.table) is Some;
            let cols = new_columns(ct.columns@, t, n);
            &&& own ==> fails_with(create_plan(ct, c), SqlState::SystemSchemaViolation)
            &&& !own && there ==> fails_with(create_plan(ct, c), SqlState::TableAlreadyExists)
            &&& !own && !there && n == 0 ==> fails_with(create_plan(ct, c), SqlState::SyntaxError)
            &&& !own && !there && n > 0 && n > room / 9 ==> fails_with(
                create_plan(ct, c),
                SqlState::TooManyColumns,
            )
            &&& !own && !there && 0 < n <= room / 9 ==> {
                &&& cols matches Err(e) ==> create_plan(ct, c) == Err::<
                    (TableName, Seq<ColumnDef>),
                    ErrorModel,
                >(e)
                &&& cols matches Ok(all) ==> {
                    &&& row_size(all, n) > room ==> fails_with(
                        create_plan(ct, c),
                        SqlState::RowTooLarge,
                    )
                    &&& row_size(all, n) <= room ==> create_plan(ct, c) == Ok::<
                        (TableName, Seq<ColumnDef>),
                        ErrorModel,
                    >((t, all))
                }
            }
        },
{
}

/// New tables go to the tablespace that the configuration names for them, the first of that name,
/// and their pages have the size of its pages.
pub proof fn law_new_table_goes_to_the_default_tablespace(c: CacheModel, i: int)
    requires
        0 <= i < c.catalog.tablespaces.len(),
        c.catalog.tablespaces[i].tbspace == c.config.default_tablespace,
        forall|j: int|
            0 <= j < i ==> (#[trigger] c.catalog.tablespaces[j]).tbspace
                != c.config.default_tablespace,
        0 <= c.catalog.tablespaces[i].tbspaceid <= 0x7fff,
    ensures
        c.default_tablespace() == c.catalog.tablespaces[i].tbspaceid,
        (forall|j: int|
            i < j < c.catalog.tablespaces.len() ==> (#[trigger] c.catalog.tablespaces[j]).tbspaceid
                != c.catalog.tablespaces[i].tbspaceid) ==> new_page_size(c)
            == c.catalog.tablespaces[i].pagesize,
{
    let spaces = c.catalog.tablespaces;
    lemma_first_named(spaces, c.config.default_tablespace, 0, i);
    if forall|j: int|
        i < j < spaces.len() ==> (#[trigger] spaces[j]).tbspaceid != spaces[i].tbspaceid {
        lemma_space_is(spaces, i);
    }
}

proof fn lemma_first_named(
    spaces: Seq<TablespaceDef>,
    name: Seq<char>,
    from: int,
    i: int,
)
    requires
        0 <= from <= i < spaces.len(),
        spaces[i].tbspace == name,
        forall|j: int| 0 <= j < i ==> (#[trigger] spaces[j]).tbspace != name,
    ensures
        tablespace_named(spaces, name, from) == Some(i),
    decreases i - from,
{
    if from < i {
        assert(spaces[from].tbspace != name);
        lemma_first_named(spaces, name, from + 1, i);
    }
}

proof fn lemma_space_is(spaces: Seq<TablespaceDef>, i: int)
    requires
        0 <= i < spaces.len(),
        forall|j: int|
            i < j < spaces.len() ==> (#[trigger] spaces[j]).tbspaceid != spaces[i].tbspaceid,
    ensures
        tablespace_index(spaces, spaces[i].tbspaceid) == Some(i),
    decreases spaces.len(),
{
    if i < spaces.len() - 1 {
        let front = spaces.drop_last();
        assert(spaces[spaces.len() - 1].tbspaceid != spaces[i].tbspaceid);
        assert forall|j: int| i < j < front.len() implies (#[trigger] front[j]).tbspaceid
            != front[i].tbspaceid by {
            assert(spaces[j].tbspaceid != spaces[i].tbspaceid);
        }
        lemma_space_is(front, i);
    }
}

/// A new table gets the number after the greatest of all tables, so that no two have the same; its
/// name and schema are its own, and its number of columns is how many it has.
pub proof fn law_new_table_has_a_number_of_its_own(
    t: TableName,
    cols: Seq<ColumnDef>,
    c: CacheModel,
)
    requires
        max_table_id(c.catalog.tables) < 0x7fff_ffff,
    ensures
        new_table(t, cols, c).name == t.table,
        new_table(t, cols, c).schemaname == t.schema,
        new_table(t, cols, c).tbspaceid == c.default_tablespace(),
        cols.len() <= 0x7fff ==> new_table(t, cols, c).colcount == cols.len(),
        forall|i: int|
            0 <= i < c.catalog.tables.len() ==> (#[trigger] c.catalog.tables[i]).tableid
                < new_table(t, cols, c).tableid,
        c.catalog.tables.len() == 0 ==> new_table(t, cols, c).tableid == 1,
        c.catalog.tables.len() > 0 ==> exists|i: int|
            0 <= i < c.catalog.tables.len() && (#[trigger] c.catalog.tables[i]).tableid + 1
                == new_table(t, cols, c).tableid,
{
    lemma_max_id(c.catalog.tables);
}

proof fn lemma_max_id(tables: Seq<TableDef>)
    ensures
        forall|i: int|
            0 <= i < tables.len() ==> (#[trigger] tables[i]).tableid <= max_table_id(tables),
        tables.len() == 0 ==> max_table_id(tables) == 0,
        tables.len() > 0 ==> exists|i: int|
            0 <= i < tables.len() && (#[trigger] tables[i]).tableid == max_table_id(tables),
    decreases tables.len(),
{
    if tables.len() > 0 {
        let front = tables.drop_last();
        lemma_max_id(front);
        let last = tables.len() - 1;
        assert(tables[last].tableid == tables.last().tableid);
        assert forall|i: int| 0 <= i < tables.len() implies (#[trigger] tables[i]).tableid
            <= max_table_id(tables) by {
            if i < last {
                assert(front[i] == tables[i]);
            }
        }
        if tables.len() > 1 && max_table_id(tables) == max_table_id(front) {
            let i = choose|i: int|
                0 <= i < front.len() && (#[trigger] front[i]).tableid == max_table_id(front);
            assert(tables[i].tableid == max_table_id(tables));
        }
    }
}

/// What a `CREATE TABLE` and a `DROP TABLE` say of a table.
pub proof fn law_status_names_the_table(t: TableName, what: Seq<char>)
    ensures
        status(table_said(t, what)).columns == seq!["STATUS"@],
        status(table_said(t, what)).rows == seq![
            seq![ValueModel::Str("TABLE "@ + t.schema + "."@ + t.table + what)],
        ],
{
}

/// A value of a row of the catalog as a text or a number: a flag is `Y` or `N`.
pub open spec fn as_listed(v: ValueModel) -> ValueModel {
    match v {
        ValueModel::Bool(b) => ValueModel::Str(
            if b {
                "Y"@
            } else {
                "N"@
            },
        ),
        _ => v,
    }
}

/// Whether a column of the catalog has the type of a value.
pub open spec fn fits_column(v: ValueModel, col: ColumnDef) -> bool {
    let base = base_type(col.typename);
    match v {
        ValueModel::SmallInt(_) => base == "SMALLINT"@,
        ValueModel::Integer(_) => base == "INTEGER"@,
        ValueModel::Str(_) | ValueModel::Bool(_) => is_text_type(base),
        _ => false,
    }
}

/// A row that is stored in the catalog is read by a query as the values that were stored.
pub proof fn law_catalog_row_is_selected(row: Seq<ValueModel>, cols: Seq<ColumnDef>)
    requires
        row.len() == cols.len(),
        forall|i: int| 0 <= i < row.len() ==> fits_column(#[trigger] row[i], cols[i]),
        row_bytes(row).len() < 0x1_0000_0000_0000_0000,
    ensures
        row_values(row_bytes(row), cols) == Ok::<Seq<ValueModel>, ErrorModel>(
            Seq::new(row.len(), |i: int| as_listed(row[i])),
        ),
{
    let want = Seq::new(row.len(), |i: int| as_listed(row[i]));
    lemma_listed_bytes(row, want, cols, row.len() as int);
    law_row_round_trip(want, cols);
    let back = row_values(row_bytes(row), cols)->Ok_0;
    reveal_strlit("SMALLINT");
    reveal_strlit("INTEGER");
    reveal_strlit("CHAR");
    reveal_strlit("VARCHAR");
    assert("SMALLINT"@[0] == 'S' && "INTEGER"@[0] == 'I' && "CHAR"@[0] == 'C' && "VARCHAR"@[0]
        == 'V');
    assert forall|i: int| 0 <= i < row.len() implies back[i] == want[i] by {
        assert(fits_column(row[i], cols[i]));
    }
    assert(back =~= want);
}

proof fn lemma_listed_bytes(
    row: Seq<ValueModel>,
    want: Seq<ValueModel>,
    cols: Seq<ColumnDef>,
    n: int,
)
    requires
        0 <= n <= row.len() == cols.len(),
        want == Seq::new(row.len(), |i: int| as_listed(row[i])),
        forall|i: int| 0 <= i < row.len() ==> fits_column(#[trigger] row[i], cols[i]),
    ensures
        fields_to(want, cols, n) == Ok::<Seq<u8>, ErrorModel>(values_bytes(row, n)),
    decreases n,
{
    if n > 0 {
        lemma_listed_bytes(row, want, cols, n - 1);
        let v = row[n - 1];
        assert(fits_column(v, cols[n - 1]));
        reveal_strlit("SMALLINT");
        reveal_strlit("INTEGER");
        reveal_strlit("CHAR");
        reveal_strlit("VARCHAR");
        assert("SMALLINT"@[0] == 'S' && "INTEGER"@[0] == 'I');
        if let ValueModel::Bool(b) = v {
            reveal_strlit("Y");
            reveal_strlit("N");
            let text = if b {
                "Y"@
            } else {
                "N"@
            };
            assert(vstd::utf8::is_ascii_chars(text));
            vstd::utf8::is_ascii_chars_encode_utf8(text);
            assert(encode_utf8(text) =~= flag_bytes(b));
        }
        assert(value_bytes(v) == field_bytes(
            stored_value(want[n - 1], cols[n - 1])->Ok_0,
        ));
    }
}

/// The row of a table in `SYSTABLES` shows its number, name and schema, the number of its
/// tablespace and how many columns it has; the row of a column in `SYSCOLUMNS` its name, table and
/// schema, its place, the name of its type and whether it can be null.
pub proof fn law_catalog_rows_show_what_they_are_about(t: TableDef, c: ColumnDef)
    ensures
        table_row(t) == seq![
            ValueModel::Integer(t.tableid),
            ValueModel::Str(t.name),
            ValueModel::Str(t.schemaname),
            ValueModel::SmallInt(t.tbspaceid),
            ValueModel::SmallInt(t.colcount),
        ],
        column_row(c) == seq![
            ValueModel::Str(c.name),
            ValueModel::Str(c.tabname),
            ValueModel::Str(c.schemaname),
            ValueModel::SmallInt(c.ordinal),
            ValueModel::Str(c.typename),
            ValueModel::Bool(c.nullable),
        ],
{
}

/// The rows that a new table gets in the catalog: one in `SYSSCHEMAS` with its schema, where that
/// is new; then one in `SYSTABLES` with the table; then one in `SYSCOLUMNS` with each of its
/// columns, in their order; and no other.
pub proof fn law_catalog_lists_the_new_table(t: TableName, cols: Seq<ColumnDef>, c: CacheModel)
    ensures
        ({
            let list = new_entries(t, cols, c);
            let first: int = if c.catalog.schemas.contains(t.schema) {
                0
            } else {
                1
            };
            &&& list.len() == first + 1 + cols.len()
            &&& first == 1 ==> list[0] == ("SYSSCHEMAS"@, row_bytes(
                seq![ValueModel::Str(t.schema)],
            ))
            &&& list[first] == ("SYSTABLES"@, row_bytes(table_row(new_table(t, cols, c))))
            &&& forall|i: int|
                0 <= i < cols.len() ==> #[trigger] list[first + 1 + i] == ("SYSCOLUMNS"@, row_bytes(
                    column_row(cols[i]),
                ))
        }),
{
}

/// Whether every row of every table is where it was.
pub open spec fn rows_stay(t: TsmModel, t2: TsmModel) -> bool {
    forall|s: Seq<char>, n: Seq<char>, rid: Rid|
        #![trigger row_of(t2, TableName { schema: s, table: n }, rid)]
        t.has(s, n) && row_of(t, TableName { schema: s, table: n }, rid) is Some ==> t2.has(s, n)
            && row_of(t2, TableName { schema: s, table: n }, rid) == row_of(
            t,
            TableName { schema: s, table: n },
            rid,
        )
}

/// Whether all tables but those of the catalog that list tables are as they were.
pub open spec fn kept_outside(t: TsmModel, t2: TsmModel, sys: Seq<char>) -> bool {
    forall|s: Seq<char>, n: Seq<char>|
        #![trigger t2.has(s, n)]
        #![trigger t2.heap(s, n)]
        {
            &&& t2.has(s, n) == t.has(s, n)
            &&& !(s == sys && (n == "SYSSCHEMAS"@ || n == "SYSTABLES"@ || n == "SYSCOLUMNS"@))
                && t.has(s, n) ==> t2.heap(s, n) == t.heap(s, n)
        }
}

proof fn lemma_entries_keep(
    states: Seq<TsmModel>,
    sys: Seq<char>,
    list: Seq<CatalogEntry>,
    n: int,
)
    requires
        0 <= n <= list.len(),
        states.len() == n + 1,
        entry_trace(states, sys, list),
        states[0].inv(),
        forall|i: int|
            0 <= i < list.len() ==> (#[trigger] list[i]).0 == "SYSSCHEMAS"@ || list[i].0
                == "SYSTABLES"@ || list[i].0 == "SYSCOLUMNS"@,
    ensures
        states[n].inv(),
        rows_stay(states[0], states[n]),
        kept_outside(states[0], states[n], sys),
    decreases n,
{
    if n > 0 {
        let front = states.drop_last();
        assert forall|i: int| 0 <= i < front.len() - 1 implies entry_step(
            #[trigger] front[i],
            front[i + 1],
            sys,
            list[i],
        ) by {
            assert(states[i] == front[i] && states[i + 1] == front[i + 1]);
        }
        lemma_entries_keep(front, sys, list, n - 1);
        let (t, mid, t2) = (states[0], states[n - 1], states[n]);
        let added = list[n - 1];
        let name = TableName { schema: sys, table: added.0 };
        assert(entry_step(states[n - 1], states[n - 1 + 1], sys, added));
        let at = choose|at: Rid| #[trigger] adds(mid, name, added.1, t2, Ok(at));
        lemma_adds(mid, name, added.1, t2, at);
        assert forall|s: Seq<char>, m: Seq<char>, rid: Rid|
            #![trigger row_of(t2, TableName { schema: s, table: m }, rid)]
            t.has(s, m) && row_of(t, TableName { schema: s, table: m }, rid) is Some implies t2.has(
            s,
            m,
        ) && row_of(t2, TableName { schema: s, table: m }, rid) == row_of(
            t,
            TableName { schema: s, table: m },
            rid,
        ) by {
            let key = TableName { schema: s, table: m };
            assert(row_of(mid, key, rid) == row_of(t, key, rid));
            assert(t2.has(s, m) == mid.has(s, m));
            if s == sys && m == added.0 {
                assert(rid != at);
                assert(row_of(t2, name, rid) == row_of(mid, name, rid));
            } else {
                assert(t2.heap(s, m) == mid.heap(s, m));
            }
        }
        assert forall|s: Seq<char>, m: Seq<char>|
            #![trigger t2.has(s, m)]
            #![trigger t2.heap(s, m)]
            {
                &&& t2.has(s, m) == t.has(s, m)
                &&& !(s == sys && (m == "SYSSCHEMAS"@ || m == "SYSTABLES"@ || m == "SYSCOLUMNS"@))
                    && t.has(s, m) ==> t2.heap(s, m) == t.heap(s, m)
            } by {
            assert(t2.has(s, m) == mid.has(s, m));
            assert(mid.has(s, m) == t.has(s, m));
        }
    }
}

/// A `CREATE TABLE` takes no row from any table, and leaves every table but the new one and those
/// of the catalog as it was. The catalog lists every other table as before.
pub proof fn law_create_leaves_other_tables(
    ct: CreateTable,
    c: CacheModel,
    t: TsmModel,
    c2: CacheModel,
    t2: TsmModel,
    disk: Seq<nat>,
    r: DbResult<ResultSet>,
    name: TableName,
    cols: Seq<ColumnDef>,
)
    requires
        t.inv(),
        create_outcome(ct, c, t, c2, t2, disk, r),
        r is Ok,
        create_plan(ct, c) == Ok::<(TableName, Seq<ColumnDef>), ErrorModel>((name, cols)),
    ensures
        forall|s: Seq<char>, n: Seq<char>|
            s != name.schema || n != name.table ==> #[trigger] c2.table(s, n) == c.table(s, n)
                && c2.columns_for(s, n) == c.columns_for(s, n),
        forall|s: Seq<char>, n: Seq<char>|
            #![trigger t2.has(s, n)]
            #![trigger t2.heap(s, n)]
            (s != name.schema || n != name.table) ==> {
                &&& t2.has(s, n) == t.has(s, n)
                &&& !(s == c.config.sys_schema && (n == "SYSSCHEMAS"@ || n == "SYSTABLES"@ || n
                    == "SYSCOLUMNS"@)) && t.has(s, n) ==> t2.heap(s, n) == t.heap(s, n)
            },
        forall|s: Seq<char>, n: Seq<char>, rid: Rid|
            #![trigger row_of(t2, TableName { schema: s, table: n }, rid)]
            (s != name.schema || n != name.table) && t.has(s, n) && row_of(
                t,
                TableName { schema: s, table: n },
                rid,
            ) is Some ==> row_of(t2, TableName { schema: s, table: n }, rid) == row_of(
                t,
                TableName { schema: s, table: n },
                rid,
            ),
        r->Ok_0@ == status(table_said(name, " CREATED"@)),
{
    let sys = c.config.sys_schema;
    let list = new_entries(name, cols, c);
    let k = list.len() as int;
    let id = c.default_tablespace() as i32;
    let c1 = with_its_schema(c, name);
    crate::catalog::cache::law_registered_schema_is_there(c, name.schema);
    crate::catalog::cache::law_registered_table_is_found(c1, new_table(name, cols, c), cols);
    assert forall|s: Seq<char>, n: Seq<char>| s != name.schema || n != name.table implies
        #[trigger] c2.table(s, n) == c.table(s, n) && c2.columns_for(s, n) == c.columns_for(
        s,
        n,
    ) by {
        assert(c2.table(s, n) == c1.table(s, n));
    }
    let mid = choose|mid: TsmModel| #[trigger]
        entry_run(t, sys, list, k, mid) && t2 == with_new_table(mid, name, id);
    let states = choose|states: Seq<TsmModel>| #[trigger]
        entry_trace(states, sys, list) && states.len() == k + 1 && states[0] == t && states[k]
            == mid;
    lemma_entries_keep(states, sys, list, k);
    let space = mid.spaces[find_space(mid.spaces, id, 0)];
    let heap = empty_heap(space.page_size as nat, frames_of(mid.pools, space.pool_id));
    let bare = mid.with_table(name.schema, name.table, heap);
    lemma_with_table(mid, name.schema, name.table, heap);
    assert(t2.tables == bare.tables);
    assert forall|s: Seq<char>, n: Seq<char>|
        #![trigger t2.has(s, n)]
        #![trigger t2.heap(s, n)]
        (s != name.schema || n != name.table) implies {
        &&& t2.has(s, n) == t.has(s, n)
        &&& !(s == sys && (n == "SYSSCHEMAS"@ || n == "SYSTABLES"@ || n == "SYSCOLUMNS"@)) && t.has(
            s,
            n,
        ) ==> t2.heap(s, n) == t.heap(s, n)
    } by {
        assert(t2.has(s, n) == bare.has(s, n) && t2.heap(s, n) == bare.heap(s, n));
        assert(bare.has(s, n) == mid.has(s, n));
        assert(mid.has(s, n) == t.has(s, n));
    }
    assert forall|s: Seq<char>, n: Seq<char>, rid: Rid|
        #![trigger row_of(t2, TableName { schema: s, table: n }, rid)]
        (s != name.schema || n != name.table) && t.has(s, n) && row_of(
            t,
            TableName { schema: s, table: n },
            rid,
        ) is Some implies row_of(t2, TableName { schema: s, table: n }, rid) == row_of(
        t,
        TableName { schema: s, table: n },
        rid,
    ) by {
        assert(t2.has(s, n) == bare.has(s, n) && t2.heap(s, n) == bare.heap(s, n));
        assert(bare.has(s, n) == mid.has(s, n));
        assert(row_of(mid, TableName { schema: s, table: n }, rid) == row_of(
            t,
            TableName { schema: s, table: n },
            rid,
        ));
    }
}

/// A `CREATE TABLE` that fails while the catalog is written makes no table: every table is found as
/// before, with its columns. Its schema is there unless the first row of the catalog could not be
/// written.
pub proof fn law_failed_create_makes_no_table(
    ct: CreateTable,
    c: CacheModel,
    t: TsmModel,
    c2: CacheModel,
    t2: TsmModel,
    disk: Seq<nat>,
    r: DbResult<ResultSet>,
    name: TableName,
    cols: Seq<ColumnDef>,
)
    requires
        create_outcome(ct, c, t, c2, t2, disk, r),
        r is Err,
        create_plan(ct, c) == Ok::<(TableName, Seq<ColumnDef>), ErrorModel>((name, cols)),
    ensures
        c2.catalog.tables == c.catalog.tables,
        c2.catalog.columns == c.catalog.columns,
        c2.columns == c.columns,
        c2.config == c.config,
        c2.catalog.schemas.contains(name.schema) || entry_fails(
            t,
            c.config.sys_schema,
            new_entries(name, cols, c),
            0,
            t2,
            disk,
            r->Err_0,
        ),
{
    law_registered_schema_is_there(c, name.schema);
}

// ── DROP TABLE ──

/// The table that a `DROP TABLE` drops: the one that its name means, where it names exactly one,
/// that is no table of the system and is there. One that is not there is passed over with `IF
/// EXISTS`.
pub proof fn law_drop_names_its_table(d: DropTable, c: CacheModel)
    ensures
        d.names@.len() != 1 ==> fails_with(drop_target(d, c), SqlState::FeatureNotSupported),
        d.names@.len() == 1 ==> {
            &&& named_table(d.names@[0], c) matches Err(e) ==> drop_target(d, c) == Err::<
                TableName,
                ErrorModel,
            >(e)
            &&& named_table(d.names@[0], c) matches Ok(name) ==> {
                let t = searched(name, c);
                &&& t.schema == c.config.sys_schema ==> fails_with(
                    drop_target(d, c),
                    SqlState::SystemSchemaViolation,
                )
                &&& t.schema != c.config.sys_schema && (d.if_exists || c.table(
                    t.schema,
                    t.table,
                ) is Some) ==> drop_target(d, c) == Ok::<TableName, ErrorModel>(t)
                &&& t.schema != c.config.sys_schema && !d.if_exists && c.table(
                    t.schema,
                    t.table,
                ) is None ==> fails_with(drop_target(d, c), SqlState::TableNotFound)
            }
        },
{
}

/// A `DROP TABLE` that is refused, or whose table is not there, changes nothing.
pub proof fn law_refused_drop_changes_nothing(
    d: DropTable,
    c: CacheModel,
    t: TsmModel,
    c2: CacheModel,
    t2: TsmModel,
    r: DbResult<ResultSet>,
)
    requires
        drop_outcome(d, c, t, c2, t2, r),
    ensures
        drop_target(d, c) matches Err(e) ==> r is Err && r->Err_0@ == e && t2 == t && c2 == c,
        drop_target(d, c) matches Ok(name) ==> (c.table(name.schema, name.table) is None ==> r is Ok
            && r->Ok_0@ == status(table_said(name, " DOES NOT EXIST (skipped)"@)) && t2 == t && c2
            == c),
{
}

/// Where the columns with the schema and the name of a table are in a table of the catalog.
pub open spec fn shown_at(catalog_table: Seq<char>, cols: Seq<ColumnDef>) -> (int, int) {
    (
        index_of(column_names(cols), "SCHEMANAME"@)->0,
        index_of(
            column_names(cols),
            if catalog_table == "SYSTABLES"@ {
                "NAME"@
            } else {
                "TABNAME"@
            },
        )->0,
    )
}

proof fn lemma_only_named(
    raw: Seq<(Rid, Seq<u8>)>,
    cols: Seq<ColumnDef>,
    schema_at: int,
    name_at: int,
    target: TableName,
    n: int,
)
    requires
        0 <= n <= raw.len(),
        naming_rids(raw, cols, schema_at, name_at, target, n) is Ok,
    ensures
        forall|k: int| 0 <= k < n ==> row_values((#[trigger] raw[k]).1, cols) is Ok,
        forall|rid: Rid| #[trigger]
            naming_rids(raw, cols, schema_at, name_at, target, n)->Ok_0.contains(rid)
                ==> exists|k: int|
                0 <= k < n && (#[trigger] raw[k]).0 == rid && row_values(
                    raw[k].1,
                    cols,
                )->Ok_0[schema_at].text() == target.schema && row_values(
                    raw[k].1,
                    cols,
                )->Ok_0[name_at].text() == target.table,
        forall|k: int|
            0 <= k < n && row_values((#[trigger] raw[k]).1, cols)->Ok_0[schema_at].text()
                == target.schema && row_values(raw[k].1, cols)->Ok_0[name_at].text()
                == target.table ==> naming_rids(
                raw,
                cols,
                schema_at,
                name_at,
                target,
                n,
            )->Ok_0.contains(raw[k].0),
    decreases n,
{
    if n > 0 {
        lemma_only_named(raw, cols, schema_at, name_at, target, n - 1);
        let before = naming_rids(raw, cols, schema_at, name_at, target, n - 1)->Ok_0;
        let now = naming_rids(raw, cols, schema_at, name_at, target, n)->Ok_0;
        assert forall|rid: Rid| #[trigger] now.contains(rid) implies exists|k: int|
            0 <= k < n && (#[trigger] raw[k]).0 == rid && row_values(
                raw[k].1,
                cols,
            )->Ok_0[schema_at].text() == target.schema && row_values(
                raw[k].1,
                cols,
            )->Ok_0[name_at].text() == target.table by {
            let i = choose|i: int| 0 <= i < now.len() && now[i] == rid;
            if i < before.len() {
                assert(before[i] == rid);
                assert(before.contains(rid));
                let k = choose|k: int|
                    0 <= k < n - 1 && (#[trigger] raw[k]).0 == rid && row_values(
                        raw[k].1,
                        cols,
                    )->Ok_0[schema_at].text() == target.schema && row_values(
                        raw[k].1,
                        cols,
                    )->Ok_0[name_at].text() == target.table;
                assert(raw[k].0 == rid);
            } else {
                assert(raw[n - 1].0 == rid);
            }
        }
        assert forall|k: int|
            0 <= k < n && row_values((#[trigger] raw[k]).1, cols)->Ok_0[schema_at].text()
                == target.schema && row_values(raw[k].1, cols)->Ok_0[name_at].text()
                == target.table implies now.contains(raw[k].0) by {
            if k < n - 1 {
                let i = choose|i: int| 0 <= i < before.len() && before[i] == raw[k].0;
                assert(now[i] == raw[k].0);
            } else {
                assert(now[before.len() as int] == raw[k].0);
            }
        }
    }
}

/// Deleting the rows about a table from a table of the catalog takes exactly the rows that show
/// both its schema and its name: every other row stays, at its address, and none comes.
pub proof fn law_only_rows_about_the_table_go(
    catalog_table: Seq<char>,
    target: TableName,
    c: CacheModel,
    t: TsmModel,
    t2: TsmModel,
    r: DbResult<()>,
    cols: Seq<ColumnDef>,
)
    requires
        t.inv(),
        about_deleted(catalog_table, target, c, t, t2, r),
        r is Ok,
        c.columns_for(c.config.sys_schema, catalog_table) == Some(cols),
    ensures
        scanned(t, system_table(c, catalog_table)) is Ok,
        scanned(t2, system_table(c, catalog_table)) is Ok,
        forall|rid: Rid, row: Seq<u8>| #[trigger]
            scanned(t2, system_table(c, catalog_table))->Ok_0.contains((rid, row)) <==> {
                &&& scanned(t, system_table(c, catalog_table))->Ok_0.contains((rid, row))
                &&& !(row_values(row, cols)->Ok_0[shown_at(catalog_table, cols).0].text()
                    == target.schema && row_values(row, cols)->Ok_0[shown_at(
                    catalog_table,
                    cols,
                ).1].text() == target.table)
            },
        t2.inv(),
{
    let name = system_table(c, catalog_table);
    let (schema_at, name_at) = shown_at(catalog_table, cols);
    let rids = rows_about(catalog_table, target, c, t)->Ok_0;
    let raw = scanned(t, name)->Ok_0;
    law_delete_takes_its_rows(t, name, rids, t2);
    law_scan_is_the_table(t, name);
    law_scan_needs_readable_pages(t, name);
    assert(t2.has(name.schema, name.table) == t.has(name.schema, name.table));
    law_scan_needs_readable_pages(t2, name);
    law_scan_is_the_table(t2, name);
    lemma_only_named(raw, cols, schema_at, name_at, target, raw.len() as int);
    let raw2 = scanned(t2, name)->Ok_0;
    assert forall|rid: Rid, row: Seq<u8>| #[trigger] raw2.contains((rid, row)) <==> {
        &&& raw.contains((rid, row))
        &&& !(row_values(row, cols)->Ok_0[schema_at].text() == target.schema && row_values(
            row,
            cols,
        )->Ok_0[name_at].text() == target.table)
    } by {
        assert(raw2.contains((rid, row)) <==> row_of(t2, name, rid) == Some(row));
        assert(raw.contains((rid, row)) <==> row_of(t, name, rid) == Some(row));
        if rids.contains(rid) {
            let i = choose|i: int| 0 <= i < rids.len() && rids[i] == rid;
            assert(row_of(t2, name, rids[i]) is None);
            let k = choose|k: int|
                0 <= k < raw.len() && (#[trigger] raw[k]).0 == rid && row_values(
                    raw[k].1,
                    cols,
                )->Ok_0[schema_at].text() == target.schema && row_values(
                    raw[k].1,
                    cols,
                )->Ok_0[name_at].text() == target.table;
            assert(row_of(t, name, raw[k].0) == Some(raw[k].1));
        } else {
            assert(row_of(t2, name, rid) == row_of(t, name, rid));
            if raw.contains((rid, row)) {
                let k = choose|k: int| 0 <= k < raw.len() && raw[k] == (rid, row);
                assert(!rids.contains(raw[k].0));
            }
        }
    }
}

/// After a `DROP TABLE`, `SYSTABLES` and `SYSCOLUMNS` have exactly the rows that they had, at their
/// addresses, without those that show the schema and the name of the dropped table: a row leaves
/// only if it names that table. The catalog lists every other table as before.
pub proof fn law_drop_leaves_other_tables_listed(
    d: DropTable,
    c: CacheModel,
    t: TsmModel,
    c2: CacheModel,
    t2: TsmModel,
    r: DbResult<ResultSet>,
    name: TableName,
    catalog_table: Seq<char>,
    cols: Seq<ColumnDef>,
)
    requires
        t.inv(),
        drop_outcome(d, c, t, c2, t2, r),
        r is Ok,
        drop_target(d, c) == Ok::<TableName, ErrorModel>(name),
        c.table(name.schema, name.table) is Some,
        catalog_table == "SYSTABLES"@ || catalog_table == "SYSCOLUMNS"@,
        c.columns_for(c.config.sys_schema, catalog_table) == Some(cols),
    ensures
        scanned(t, system_table(c, catalog_table)) is Ok,
        scanned(t2, system_table(c, catalog_table)) is Ok,
        forall|rid: Rid, row: Seq<u8>| #[trigger]
            scanned(t2, system_table(c, catalog_table))->Ok_0.contains((rid, row)) <==> {
                &&& scanned(t, system_table(c, catalog_table))->Ok_0.contains((rid, row))
                &&& !(row_values(row, cols)->Ok_0[shown_at(catalog_table, cols).0].text()
                    == name.schema && row_values(row, cols)->Ok_0[shown_at(
                    catalog_table,
                    cols,
                ).1].text() == name.table)
            },
        forall|s: Seq<char>, n: Seq<char>|
            s != name.schema || n != name.table ==> #[trigger] c2.table(s, n) == c.table(s, n)
                && c2.columns_for(s, n) == c.columns_for(s, n),
        r->Ok_0@ == status(table_said(name, " DROPPED"@)),
{
    reveal_strlit("SYSTABLES");
    reveal_strlit("SYSCOLUMNS");
    let a = system_table(c, "SYSTABLES"@);
    let b = system_table(c, "SYSCOLUMNS"@);
    assert(a.table.len() != b.table.len());
    crate::catalog::cache::law_unregistered_table_is_gone(c, name.schema, name.table);
    let (t1, r1) = choose|t1: TsmModel, r1: DbResult<()>| #[trigger]
        about_deleted("SYSTABLES"@, name, c, t, t1, r1) && match r1 {
            Err(e) => refused(r, e@, t1, t2) && c2 == c,
            Ok(_) => columns_dropped(name, c, t1, c2, t2, r),
        };
    let (t3, r3) = choose|t3: TsmModel, r3: DbResult<()>| #[trigger]
        about_deleted("SYSCOLUMNS"@, name, c, t1, t3, r3) && match r3 {
            Err(e) => refused(r, e@, t3, t2) && c2 == c,
            Ok(_) => if t3.has(name.schema, name.table) {
                &&& r is Ok
                &&& r->Ok_0@ == status(table_said(name, " DROPPED"@))
                &&& t2 == t3.without_table(name.schema, name.table)
                &&& c2 == c.without_table(name.schema, name.table)
            } else {
                refused(r, no_table(name.schema, name.table), t3, t2) && c2 == c
            },
        };
    law_delete_takes_its_rows(t, a, rows_about("SYSTABLES"@, name, c, t)->Ok_0, t1);
    law_delete_takes_its_rows(t1, b, rows_about("SYSCOLUMNS"@, name, c, t1)->Ok_0, t3);
    lemma_without_table(t3, name.schema, name.table);
    assert(t1.has(b.schema, b.table) == t.has(b.schema, b.table));
    assert(t1.has(a.schema, a.table) == t.has(a.schema, a.table));
    assert(t3.has(a.schema, a.table) == t1.has(a.schema, a.table));
    assert(t3.has(b.schema, b.table) == t1.has(b.schema, b.table));
    assert(t2.has(a.schema, a.table) == t3.has(a.schema, a.table));
    assert(t2.has(b.schema, b.table) == t3.has(b.schema, b.table));
    if catalog_table == "SYSTABLES"@ {
        law_only_rows_about_the_table_go(catalog_table, name, c, t, t1, r1, cols);
        assert(t1.has(a.schema, a.table));
        assert(t3.heap(a.schema, a.table) == t1.heap(a.schema, a.table));
        assert(t2.heap(a.schema, a.table) == t3.heap(a.schema, a.table));
        assert(scanned(t2, a) == scanned(t1, a));
    } else {
        law_only_rows_about_the_table_go(catalog_table, name, c, t1, t3, r3, cols);
        assert(t1.has(b.schema, b.table));
        assert(t1.heap(b.schema, b.table) == t.heap(b.schema, b.table));
        assert(scanned(t, b) == scanned(t1, b));
        assert(t3.has(b.schema, b.table));
        assert(t2.heap(b.schema, b.table) == t3.heap(b.schema, b.table));
        assert(scanned(t2, b) == scanned(t3, b));
    }
}

/// A column of a table is where the name is last among the names of the columns.
pub proof fn law_name_is_found_at_its_place(names: Seq<Seq<char>>, i: int)
    requires
        0 <= i < names.len(),
        forall|j: int| i < j < names.len() ==> #[trigger] names[j] != names[i],
    ensures
        index_of(names, names[i]) == Some(i),
    decreases names.len(),
{
    lemma_index_of(names, names[i]);
    if names.last() != names[i] {
        let front = names.drop_last();
        assert forall|j: int| i < j < front.len() implies #[trigger] front[j] != front[i] by {
            assert(names[j] != names[i]);
        }
        law_name_is_found_at_its_place(front, i);
    }
}

} // verus!
