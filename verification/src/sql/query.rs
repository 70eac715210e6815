//! The table that a statement names, and `SELECT`.

use vstd::prelude::*;
use vstd::string::StringExecFns;
use crate::catalog::cache::{column_names, CacheModel, CatalogCache, ColumnIndex};
use crate::catalog::types::{columns_view, Column, ColumnDef};
use crate::error::{sql_error, DbResult, Error, ErrorModel, SqlState};
use crate::sql::ast::{Expr, ObjectName, QueryBody, SelectItem, TableFactor};
use crate::sql::eval::{deserialize_row, eval_where, list_columns, positions, resolve_select_list,
    row_values, where_value};
use crate::sql::types::{names_view, row_view, rows_view, ResultModel, ResultSet, TableName,
    TableRef, Value, ValueModel};
use crate::storage::heap::{all_rows, law_scan_is_the_file, law_scan_reads_every_page, readable,
    rid_rows, Rid};
use crate::storage::table_file::heap_ok;
use crate::storage::tablespace::{can_scan, lemma_find_table, no_table, TablespaceManager, TsmModel};
use crate::text::{same_str, uppercase};

verus! {

// ── Names of tables ──

/// The table that a name means: without a schema it is in the default one.
pub open spec fn named_table(name: ObjectName, c: CacheModel) -> Result<TableName, ErrorModel> {
    if name.parts@.len() == 1 {
        Ok(
            TableName {
                schema: uppercase(c.config.default_schema),
                table: uppercase(name.parts@[0]@),
            },
        )
    } else if name.parts@.len() == 2 {
        Ok(
            TableName {
                schema: uppercase(name.parts@[0]@),
                table: uppercase(name.parts@[1]@),
            },
        )
    } else {
        Err(
            ErrorModel::Sql(
                SqlState::SyntaxError,
                "invalid table reference: "@ + name.text@,
            ),
        )
    }
}

/// The table that is found for a name: one that is not in the default schema, where it was looked
/// for, may be in the schema of the system.
pub open spec fn searched(t: TableName, c: CacheModel) -> TableName {
    if c.table(t.schema, t.table) is None && t.schema == c.config.default_schema && c.table(
        c.config.sys_schema,
        t.table,
    ) is Some {
        TableName { schema: c.config.sys_schema, table: t.table }
    } else {
        t
    }
}

/// The table that a `FROM` clause names.
pub open spec fn factor_table(f: TableFactor, c: CacheModel) -> Result<TableName, ErrorModel> {
    match f {
        TableFactor::Table(name) => named_table(name, c),
        TableFactor::Other => Err(
            ErrorModel::Sql(SqlState::FeatureNotSupported, "unsupported FROM clause"@),
        ),
    }
}

/// The error for a table that the catalog does not list.
pub open spec fn table_not_found(t: TableName) -> ErrorModel {
    ErrorModel::Sql(
        SqlState::TableNotFound,
        "table "@ + t.schema + "."@ + t.table + " not found"@,
    )
}

/// The table that is found for a name, with its columns.
pub open spec fn found_table(t: Result<TableName, ErrorModel>, c: CacheModel) -> Result<
    (TableName, Seq<ColumnDef>),
    ErrorModel,
> {
    match t {
        Err(e) => Err(e),
        Ok(name) => {
            let name = searched(name, c);
            match c.columns_for(name.schema, name.table) {
                Some(cols) => Ok((name, cols)),
                None => Err(table_not_found(name)),
            }
        },
    }
}

/// The table that a name means.
pub fn resolve_table_name(name: &ObjectName, cache: &CatalogCache) -> (r: DbResult<TableRef>)
    ensures
        match r {
            Ok(t) => named_table(*name, cache@) == Ok::<TableName, ErrorModel>(t@),
            Err(e) => named_table(*name, cache@) == Err::<TableName, ErrorModel>(e@),
        },
{
    let default_schema: &str = cache.config().default_schema.as_str();
    let parts: &Vec<String> = &name.parts;
    if parts.len() == 1 {
        TableRef::resolve(None, parts[0].as_str(), default_schema)
    } else if parts.len() == 2 {
        TableRef::resolve(Some(parts[0].as_str()), parts[1].as_str(), default_schema)
    } else {
        Err(
            sql_error(
                SqlState::SyntaxError,
                "invalid table reference: ".to_owned().concat(name.text.as_str()),
            ),
        )
    }
}

/// The table that a `FROM` clause names.
pub fn resolve_table_factor(relation: &TableFactor, cache: &CatalogCache) -> (r: DbResult<TableRef>)
    ensures
        match r {
            Ok(t) => factor_table(*relation, cache@) == Ok::<TableName, ErrorModel>(t@),
            Err(e) => factor_table(*relation, cache@) == Err::<TableName, ErrorModel>(e@),
        },
{
    match relation {
        TableFactor::Table(name) => resolve_table_name(name, cache),
        TableFactor::Other => Err(
            sql_error(SqlState::FeatureNotSupported, "unsupported FROM clause".to_owned()),
        ),
    }
}

/// The table that is found for a name.
pub fn resolve_with_search_path(table_ref: TableRef, cache: &CatalogCache) -> (r: TableRef)
    requires
        cache.wf(),
    ensures
        r@ == searched(table_ref@, cache@),
{
    if cache.get_table(table_ref.schema.as_str(), table_ref.table.as_str()).is_some() {
        return table_ref;
    }
    let sys_schema: &String = &cache.config().sys_schema;
    if same_str(table_ref.schema.as_str(), cache.config().default_schema.as_str())
        && cache.get_table(sys_schema.as_str(), table_ref.table.as_str()).is_some() {
        return TableRef { schema: sys_schema.clone(), table: table_ref.table };
    }
    table_ref
}

/// The error for a table that the catalog does not list.
pub fn table_not_found_error(t: &TableRef) -> (e: Error)
    ensures
        e@ == table_not_found(t@),
{
    sql_error(
        SqlState::TableNotFound,
        "table ".to_owned().concat(t.schema.as_str()).concat(".").concat(
            t.table.as_str(),
        ).concat(" not found"),
    )
}

/// A table with what the catalog knows of its columns.
pub struct Found<'a> {
    pub table: TableRef,
    pub columns: &'a Vec<Column>,
    pub names: &'a Vec<String>,
    pub index: &'a ColumnIndex,
}

impl<'a> Found<'a> {
    /// The names and positions are those of the columns.
    pub open spec fn wf(&self) -> bool {
        &&& names_view(self.names@) == column_names(columns_view(self.columns@))
        &&& self.index@ == names_view(self.names@)
    }
}

/// The table that is found for a name, with its columns.
pub fn find_table<'a>(t: DbResult<TableRef>, cache: &'a CatalogCache) -> (r: DbResult<Found<'a>>)
    requires
        cache.wf(),
    ensures
        ({
            let want = found_table(
                match t {
                    Ok(n) => Ok(n@),
                    Err(e) => Err(e@),
                },
                cache@,
            );
            match r {
                Ok(f) => {
                    &&& f.wf()
                    &&& want == Ok::<(TableName, Seq<ColumnDef>), ErrorModel>(
                        (f.table@, columns_view(f.columns@)),
                    )
                },
                Err(e) => want == Err::<(TableName, Seq<ColumnDef>), ErrorModel>(e@),
            }
        }),
{
    let table: TableRef = match t {
        Ok(n) => resolve_with_search_path(n, cache),
        Err(e) => {
            return Err(e);
        }
    };
    match (
        cache.get_columns(table.schema.as_str(), table.table.as_str()),
        cache.get_column_meta(table.schema.as_str(), table.table.as_str()),
    ) {
        (Some(columns), Some((names, index))) => Ok(Found { table, columns, names, index }),
        _ => Err(table_not_found_error(&table)),
    }
}

// ── Rows of a table ──

/// The rows of a table with their addresses.
pub open spec fn scanned(t: TsmModel, name: TableName) -> Result<
    Seq<(Rid, Seq<u8>)>,
    ErrorModel,
> {
    if !t.has(name.schema, name.table) {
        Err(no_table(name.schema, name.table))
    } else {
        let h = t.heap(name.schema, name.table);
        match h.scan_error(0) {
            Some(e) => Err(e),
            None => Ok(all_rows(h.pages, h.pages.len() as int)),
        }
    }
}

/// The rows of a table with their addresses.
pub fn scan_table(tsm: &mut TablespaceManager, table: &TableRef) -> (r: DbResult<
    Vec<(Rid, Vec<u8>)>,
>)
    requires
        old(tsm).wf(),
        can_scan(old(tsm)@, table@.schema, table@.table),
    ensures
        final(tsm).wf(),
        final(tsm)@ == old(tsm)@,
        match r {
            Ok(rows) => scanned(old(tsm)@, table@) == Ok::<Seq<(Rid, Seq<u8>)>, ErrorModel>(
                rid_rows(rows@),
            ),
            Err(e) => scanned(old(tsm)@, table@) == Err::<Seq<(Rid, Seq<u8>)>, ErrorModel>(e@),
        },
{
    tsm.table_scan(table.schema.as_str(), table.table.as_str())
}

/// A table can be scanned if and only if every page of it can be read.
pub proof fn law_scan_needs_readable_pages(t: TsmModel, name: TableName)
    requires
        t.has(name.schema, name.table),
    ensures
        scanned(t, name) is Ok <==> readable(t.heap(name.schema, name.table)),
{
    law_scan_reads_every_page(t.heap(name.schema, name.table));
}

/// A scan lists exactly the rows of the table, each with its address and none twice.
pub proof fn law_scan_is_the_table(t: TsmModel, name: TableName)
    requires
        t.inv(),
        scanned(t, name) is Ok,
    ensures
        t.has(name.schema, name.table),
        ({
            let h = t.heap(name.schema, name.table);
            let raw = scanned(t, name)->Ok_0;
            &&& forall|rid: Rid, row: Seq<u8>|
                #![trigger raw.contains((rid, row))]
                raw.contains((rid, row)) <==> h.row(rid) == Some(row)
            &&& forall|k: int|
                0 <= k < raw.len() ==> h.row((#[trigger] raw[k]).0) == Some(raw[k].1)
            &&& forall|i: int, j: int|
                0 <= i < j < raw.len() ==> (#[trigger] raw[i]).0 != (#[trigger] raw[j]).0
        }),
{
    let h = t.heap(name.schema, name.table);
    lemma_find_table(t.tables, name.schema, name.table, 0);
    assert(heap_ok(h));
    law_scan_reads_every_page(h);
    law_scan_is_the_file(h);
}

/// The values of the first `n` rows.
pub open spec fn decoded(rows: Seq<(Rid, Seq<u8>)>, cols: Seq<ColumnDef>, n: int) -> Result<
    Seq<Seq<ValueModel>>,
    ErrorModel,
>
    decreases n,
{
    if n <= 0 {
        Ok(Seq::empty())
    } else {
        match decoded(rows, cols, n - 1) {
            Err(e) => Err(e),
            Ok(done) => match row_values(rows[n - 1].1, cols) {
                Err(e) => Err(e),
                Ok(row) => Ok(done.push(row)),
            },
        }
    }
}

proof fn lemma_decoded_error(rows: Seq<(Rid, Seq<u8>)>, cols: Seq<ColumnDef>, i: int, n: int)
    requires
        0 <= i <= n,
        decoded(rows, cols, i) is Err,
    ensures
        decoded(rows, cols, n) is Err,
        decoded(rows, cols, n)->Err_0 == decoded(rows, cols, i)->Err_0,
    decreases n - i,
{
    if i < n {
        lemma_decoded_error(rows, cols, i, n - 1);
    }
}

/// The values of some rows.
fn decode_rows(rows: &Vec<(Rid, Vec<u8>)>, columns: &Vec<Column>) -> (r: DbResult<Vec<Vec<Value>>>)
    ensures
        ({
            let want = decoded(
                rid_rows(rows@),
                columns_view(columns@),
                rows@.len() as int,
            );
            match r {
                Ok(out) => {
                    &&& want == Ok::<Seq<Seq<ValueModel>>, ErrorModel>(rows_view(out@))
                    &&& forall|i: int|
                        0 <= i < out@.len() ==> (#[trigger] out@[i])@.len() == columns@.len()
                },
                Err(e) => want == Err::<Seq<Seq<ValueModel>>, ErrorModel>(e@),
            }
        }),
{
    let ghost raw = rid_rows(rows@);
    let ghost cols = columns_view(columns@);
    let n: usize = rows.len();
    let mut out: Vec<Vec<Value>> = Vec::new();
    let mut i: usize = 0;
    assert(rows_view(out@) =~= Seq::<Seq<ValueModel>>::empty());
    while i < n
        invariant
            i <= n,
            n == rows@.len(),
            raw == rid_rows(rows@),
            cols == columns_view(columns@),
            decoded(raw, cols, i as int) == Ok::<Seq<Seq<ValueModel>>, ErrorModel>(
                rows_view(out@),
            ),
            forall|i: int| 0 <= i < out@.len() ==> (#[trigger] out@[i])@.len() == columns@.len(),
        decreases n - i,
    {
        let ghost before = rows_view(out@);
        assert(raw[i as int].1 == rows@[i as int].1@);
        match deserialize_row(rows[i].1.as_slice(), columns) {
            Ok(row) => {
                out.push(row);
                assert(rows_view(out@) =~= before.push(row_view(row@)));
            }
            Err(e) => {
                proof {
                    lemma_decoded_error(raw, cols, i + 1, n as int);
                }
                return Err(e);
            }
        }
        i += 1;
    }
    Ok(out)
}

// ── SELECT ──

/// Whether a row meets a condition; every row meets none.
pub open spec fn selected(
    selection: Option<Expr>,
    names: Seq<Seq<char>>,
    row: Seq<ValueModel>,
) -> Result<bool, ErrorModel> {
    match selection {
        Some(e) => where_value(e, names, row),
        None => Ok(true),
    }
}

/// Whether a row meets a condition.
pub fn row_selected(selection: &Option<Expr>, index: &ColumnIndex, row: &Vec<Value>) -> (r:
    DbResult<bool>)
    requires
        row@.len() == index@.len(),
    ensures
        match r {
            Ok(v) => selected(*selection, index@, row_view(row@)) == Ok::<bool, ErrorModel>(v),
            Err(x) => selected(*selection, index@, row_view(row@)) == Err::<bool, ErrorModel>(
                x@,
            ),
        },
{
    match selection {
        Some(e) => eval_where(e, index, row),
        None => Ok(true),
    }
}

/// Those of the first `n` rows that meet a condition.
pub open spec fn filtered(
    rows: Seq<Seq<ValueModel>>,
    selection: Option<Expr>,
    names: Seq<Seq<char>>,
    n: int,
) -> Result<Seq<Seq<ValueModel>>, ErrorModel>
    decreases n,
{
    if n <= 0 {
        Ok(Seq::empty())
    } else {
        match filtered(rows, selection, names, n - 1) {
            Err(e) => Err(e),
            Ok(done) => match selected(selection, names, rows[n - 1]) {
                Err(e) => Err(e),
                Ok(yes) => Ok(
                    if yes {
                        done.push(rows[n - 1])
                    } else {
                        done
                    },
                ),
            },
        }
    }
}

proof fn lemma_filtered_error(
    rows: Seq<Seq<ValueModel>>,
    selection: Option<Expr>,
    names: Seq<Seq<char>>,
    i: int,
    n: int,
)
    requires
        0 <= i <= n,
        filtered(rows, selection, names, i) is Err,
    ensures
        filtered(rows, selection, names, n) is Err,
        filtered(rows, selection, names, n)->Err_0 == filtered(
            rows,
            selection,
            names,
            i,
        )->Err_0,
    decreases n - i,
{
    if i < n {
        lemma_filtered_error(rows, selection, names, i, n - 1);
    }
}

/// Some columns of some rows.
pub open spec fn projected(rows: Seq<Seq<ValueModel>>, at: Seq<int>) -> Seq<Seq<ValueModel>> {
    Seq::new(rows.len(), |i: int| picked(rows[i], at))
}

/// Some columns of a row.
pub open spec fn picked(row: Seq<ValueModel>, at: Seq<int>) -> Seq<ValueModel> {
    Seq::new(at.len(), |j: int| row[at[j]])
}

/// What a query gives for some rows of a table.
pub open spec fn selection_of(
    raw: Seq<(Rid, Seq<u8>)>,
    cols: Seq<ColumnDef>,
    projection: Seq<SelectItem>,
    selection: Option<Expr>,
) -> Result<ResultModel, ErrorModel> {
    let names = column_names(cols);
    match decoded(raw, cols, raw.len() as int) {
        Err(e) => Err(e),
        Ok(rows) => match list_columns(projection, names, projection.len() as int) {
            Err(e) => Err(e),
            Ok((columns, at)) => match filtered(rows, selection, names, rows.len() as int) {
                Err(e) => Err(e),
                Ok(kept) => Ok(ResultModel { columns, rows: projected(kept, at) }),
            },
        },
    }
}

/// What a query gives.
pub open spec fn query_result(q: QueryBody, c: CacheModel, t: TsmModel) -> Result<
    ResultModel,
    ErrorModel,
> {
    match q {
        QueryBody::Select(s) => if s.from@.len() != 1 {
            Err(
                ErrorModel::Sql(
                    SqlState::SyntaxError,
                    "exactly one table in FROM clause is required"@,
                ),
            )
        } else if s.from@[0].joins > 0 {
            Err(ErrorModel::Sql(SqlState::FeatureNotSupported, "JOINs are not yet supported"@))
        } else {
            match found_table(factor_table(s.from@[0].relation, c), c) {
                Err(e) => Err(e),
                Ok((name, cols)) => match scanned(t, name) {
                    Err(e) => Err(e),
                    Ok(raw) => selection_of(raw, cols, s.projection@, s.selection),
                },
            }
        },
        _ => Err(ErrorModel::Sql(SqlState::FeatureNotSupported, "only SELECT is supported"@)),
    }
}

/// Those rows that meet a condition, with some columns each.
fn filter_rows(
    rows: &Vec<Vec<Value>>,
    selection: &Option<Expr>,
    index: &ColumnIndex,
    at: &Vec<usize>,
) -> (r: DbResult<Vec<Vec<Value>>>)
    requires
        forall|i: int| 0 <= i < rows@.len() ==> (#[trigger] rows@[i])@.len() == index@.len(),
        forall|k: int| 0 <= k < at@.len() ==> #[trigger] at@[k] < index@.len(),
    ensures
        ({
            let want = filtered(rows_view(rows@), *selection, index@, rows@.len() as int);
            match r {
                Ok(out) => {
                    &&& want is Ok
                    &&& rows_view(out@) == projected(want->Ok_0, positions(at@))
                },
                Err(e) => want == Err::<Seq<Seq<ValueModel>>, ErrorModel>(e@),
            }
        }),
{
    let ghost all = rows_view(rows@);
    let n: usize = rows.len();
    let mut out: Vec<Vec<Value>> = Vec::new();
    let mut i: usize = 0;
    assert(rows_view(out@) =~= projected(Seq::empty(), positions(at@)));
    while i < n
        invariant
            i <= n,
            n == rows@.len(),
            all == rows_view(rows@),
            forall|i: int| 0 <= i < rows@.len() ==> (#[trigger] rows@[i])@.len() == index@.len(),
            forall|k: int| 0 <= k < at@.len() ==> #[trigger] at@[k] < index@.len(),
            filtered(all, *selection, index@, i as int) is Ok,
            rows_view(out@) == projected(
                filtered(all, *selection, index@, i as int)->Ok_0,
                positions(at@),
            ),
        decreases n - i,
    {
        let row: &Vec<Value> = &rows[i];
        let ghost done = filtered(all, *selection, index@, i as int)->Ok_0;
        let ghost before = rows_view(out@);
        assert(all[i as int] == row_view(row@));
        match row_selected(selection, index, row) {
            Ok(yes) => {
                if yes {
                    let part: Vec<Value> = pick(row, at);
                    out.push(part);
                    assert(rows_view(out@) =~= before.push(row_view(part@)));
                    assert(projected(done.push(row_view(row@)), positions(at@)) =~= projected(
                        done,
                        positions(at@),
                    ).push(row_view(part@)));
                }
            }
            Err(e) => {
                proof {
                    lemma_filtered_error(all, *selection, index@, i + 1, n as int);
                }
                return Err(e);
            }
        }
        i += 1;
    }
    Ok(out)
}

/// Some columns of a row.
fn pick(row: &Vec<Value>, at: &Vec<usize>) -> (r: Vec<Value>)
    requires
        forall|k: int| 0 <= k < at@.len() ==> #[trigger] at@[k] < row@.len(),
    ensures
        row_view(r@) == picked(row_view(row@), positions(at@)),
{
    let n: usize = at.len();
    let mut out: Vec<Value> = Vec::new();
    let mut i: usize = 0;
    while i < n
        invariant
            i <= n,
            n == at@.len(),
            out@.len() == i,
            forall|k: int| 0 <= k < at@.len() ==> #[trigger] at@[k] < row@.len(),
            forall|k: int| 0 <= k < i ==> (#[trigger] out@[k])@ == row@[at@[k] as int]@,
        decreases n - i,
    {
        assert(at@[i as int] < row@.len());
        out.push(row[at[i]].copy());
        i += 1;
    }
    assert(row_view(out@) =~= picked(row_view(row@), positions(at@)));
    out
}

/// The table that a query scans, if it gets so far.
pub open spec fn query_scans(q: QueryBody, c: CacheModel) -> Option<TableName> {
    match q {
        QueryBody::Select(s) => if s.from@.len() == 1 && s.from@[0].joins == 0 {
            found_name(factor_table(s.from@[0].relation, c), c)
        } else {
            None
        },
        _ => None,
    }
}

/// The table that is found for a name, if one is.
pub open spec fn found_name(t: Result<TableName, ErrorModel>, c: CacheModel) -> Option<TableName> {
    match found_table(t, c) {
        Ok((name, _)) => Some(name),
        Err(_) => None,
    }
}

/// Whether a table that a statement scans can be scanned.
pub open spec fn may_scan(name: Option<TableName>, t: TsmModel) -> bool {
    name is Some ==> can_scan(t, name->0.schema, name->0.table)
}

/// Tells whether the table that a query scans can be scanned.
pub fn can_query(q: &QueryBody, cache: &CatalogCache, tsm: &TablespaceManager) -> (r: bool)
    requires
        cache.wf(),
        tsm.wf(),
    ensures
        r == may_scan(query_scans(*q, cache@), tsm@),
{
    match q {
        QueryBody::Select(s) => {
            if s.from.len() != 1 || s.from[0].joins > 0 {
                return true;
            }
            match find_table(resolve_table_factor(&s.from[0].relation, cache), cache) {
                Ok(f) => tsm.is_scannable(f.table.schema.as_str(), f.table.table.as_str()),
                Err(_) => true,
            }
        }
        _ => true,
    }
}

/// Runs a query.
pub fn execute_query(q: &QueryBody, cache: &CatalogCache, tsm: &mut TablespaceManager) -> (r:
    DbResult<ResultSet>)
    requires
        cache.wf(),
        old(tsm).wf(),
        may_scan(query_scans(*q, cache@), old(tsm)@),
    ensures
        final(tsm).wf(),
        final(tsm)@ == old(tsm)@,
        match r {
            Ok(rs) => query_result(*q, cache@, old(tsm)@) == Ok::<ResultModel, ErrorModel>(rs@),
            Err(e) => query_result(*q, cache@, old(tsm)@) == Err::<ResultModel, ErrorModel>(e@),
        },
{
    let s = match q {
        QueryBody::Select(s) => s,
        _ => {
            return Err(
                sql_error(SqlState::FeatureNotSupported, "only SELECT is supported".to_owned()),
            );
        }
    };
    if s.from.len() != 1 {
        return Err(
            sql_error(
                SqlState::SyntaxError,
                "exactly one table in FROM clause is required".to_owned(),
            ),
        );
    }
    if s.from[0].joins > 0 {
        return Err(
            sql_error(SqlState::FeatureNotSupported, "JOINs are not yet supported".to_owned()),
        );
    }
    let found: Found = match find_table(resolve_table_factor(&s.from[0].relation, cache), cache) {
        Ok(f) => f,
        Err(e) => {
            return Err(e);
        }
    };
    let raw: Vec<(Rid, Vec<u8>)> = match scan_table(tsm, &found.table) {
        Ok(v) => v,
        Err(e) => {
            return Err(e);
        }
    };
    let rows: Vec<Vec<Value>> = match decode_rows(&raw, found.columns) {
        Ok(v) => v,
        Err(e) => {
            return Err(e);
        }
    };
    let (columns, at) = match resolve_select_list(&s.projection, found.names, found.index) {
        Ok(v) => v,
        Err(e) => {
            return Err(e);
        }
    };
    match filter_rows(&rows, &s.selection, found.index, &at) {
        Ok(rows) => Ok(ResultSet { columns, rows }),
        Err(e) => Err(e),
    }
}

} // verus!
