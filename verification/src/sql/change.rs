//! `INSERT`, `DELETE` and `UPDATE`.

use vstd::prelude::*;
use vstd::string::StringExecFns;
use crate::catalog::cache::{column_names, CacheModel, CatalogCache, ColumnIndex};
use crate::catalog::types::{columns_view, Column, ColumnDef};
use crate::error::{sql_error, DbResult, Error, ErrorModel, SqlState};
use crate::sql::ast::{Assignment, AssignmentTarget, Delete, Expr, Insert, InsertTarget, QueryBody,
    Update};
use crate::sql::eval::{can_negate, column_at, deserialize_row, eval_expr, eval_literal, expr_ok,
    expr_value, find_column, literal_value, positions, row_fields, row_values, serialize_row};
use crate::sql::query::{factor_table, find_table, found_name, found_table, law_scan_is_the_table,
    may_scan, named_table, resolve_table_factor, resolve_table_name, row_selected, scan_table,
    scanned, selected, Found};
use crate::sql::types::{names_view, row_view, rows_view, ResultModel, ResultSet, TableName,
    TableRef, Value, ValueModel};
use crate::storage::heap::{rid_rows, Rid};
use crate::storage::table_file::{heap_ok, law_removed_row_is_gone, missing_for_update, missing_page,
    removed, replaced, says_missing, stored};
use crate::storage::tablespace::{can_touch, lemma_find_table, lemma_touch_kept, lemma_with_heap,
    no_table, scan_kept, stores_kept, TablespaceManager, TsmModel};
use crate::text::{decimal, digits10};

verus! {

// ── Counts ──

/// A number of rows as 32 bits hold it.
pub open spec fn wrap32(n: int) -> i32 {
    let m = n % 0x1_0000_0000;
    if m >= 0x8000_0000 {
        (m - 0x1_0000_0000) as i32
    } else {
        m as i32
    }
}

fn wrap_i32(n: usize) -> (r: i32)
    ensures
        r == wrap32(n as int),
{
    let m: i64 = (n as u64 % 0x1_0000_0000) as i64;
    if m >= 0x8000_0000 {
        (m - 0x1_0000_0000) as i32
    } else {
        m as i32
    }
}

/// What a statement gives that changed `n` rows.
pub open spec fn counted(label: Seq<char>, n: int) -> ResultModel {
    ResultModel { columns: seq![label], rows: seq![seq![ValueModel::Integer(wrap32(n))]] }
}

fn count_result(label: &str, n: usize) -> (r: ResultSet)
    ensures
        r@ == counted(label@, n as int),
{
    let mut columns: Vec<String> = Vec::new();
    columns.push(label.to_owned());
    let mut row: Vec<Value> = Vec::new();
    row.push(Value::Integer(wrap_i32(n)));
    let ghost first = row;
    let mut rows: Vec<Vec<Value>> = Vec::new();
    rows.push(row);
    assert(names_view(columns@) =~= seq![label@]);
    assert(row_view(first@) =~= seq![ValueModel::Integer(wrap32(n as int))]);
    assert(rows_view(rows@) =~= seq![row_view(first@)]);
    ResultSet { columns, rows }
}

// ── INSERT ──

/// The positions of the first `n` columns of a list.
pub open spec fn listed_at(list: Seq<String>, names: Seq<Seq<char>>, n: int) -> Result<
    Seq<int>,
    ErrorModel,
>
    decreases n,
{
    if n <= 0 {
        Ok(Seq::empty())
    } else {
        match listed_at(list, names, n - 1) {
            Err(e) => Err(e),
            Ok(at) => match column_at(list[n - 1]@, names) {
                Err(e) => Err(e),
                Ok(i) => Ok(at.push(i)),
            },
        }
    }
}

/// The positions that the values of an `INSERT` go to: those of the columns that it lists, or, if
/// it lists none, all in order.
pub open spec fn insert_order(list: Seq<String>, names: Seq<Seq<char>>) -> Result<
    Seq<int>,
    ErrorModel,
> {
    if list.len() == 0 {
        Ok(Seq::new(names.len(), |i: int| i))
    } else {
        listed_at(list, names, list.len() as int)
    }
}

proof fn lemma_listed_error(list: Seq<String>, names: Seq<Seq<char>>, i: int, n: int)
    requires
        0 <= i <= n,
        listed_at(list, names, i) is Err,
    ensures
        listed_at(list, names, n) is Err,
        listed_at(list, names, n)->Err_0 == listed_at(list, names, i)->Err_0,
    decreases n - i,
{
    if i < n {
        lemma_listed_error(list, names, i, n - 1);
    }
}

fn resolve_columns(list: &Vec<String>, index: &ColumnIndex, width: usize) -> (r: DbResult<
    Vec<usize>,
>)
    requires
        width == index@.len(),
    ensures
        match r {
            Ok(at) => {
                &&& insert_order(list@, index@) == Ok::<Seq<int>, ErrorModel>(positions(at@))
                &&& forall|k: int| 0 <= k < at@.len() ==> #[trigger] at@[k] < width
            },
            Err(e) => insert_order(list@, index@) == Err::<Seq<int>, ErrorModel>(e@),
        },
{
    let mut at: Vec<usize> = Vec::new();
    let mut i: usize = 0;
    if list.len() == 0 {
        while i < width
            invariant
                i <= width,
                at@.len() == i,
                forall|k: int| 0 <= k < i ==> #[trigger] at@[k] == k,
            decreases width - i,
        {
            at.push(i);
            i += 1;
        }
        assert(positions(at@) =~= Seq::new(index@.len(), |i: int| i));
        return Ok(at);
    }
    let n: usize = list.len();
    assert(positions(at@) =~= Seq::<int>::empty());
    while i < n
        invariant
            i <= n,
            n == list@.len(),
            n > 0,
            width == index@.len(),
            listed_at(list@, index@, i as int) == Ok::<Seq<int>, ErrorModel>(positions(at@)),
            forall|k: int| 0 <= k < at@.len() ==> #[trigger] at@[k] < width,
        decreases n - i,
    {
        let ghost before = positions(at@);
        match find_column(list[i].as_str(), index) {
            Ok(k) => {
                at.push(k);
                assert(positions(at@) =~= before.push(k as int));
            }
            Err(e) => {
                proof {
                    lemma_listed_error(list@, index@, i + 1, n as int);
                }
                return Err(e);
            }
        }
        i += 1;
    }
    Ok(at)
}

/// A row of `width` columns, with the first `k` values in their places and `NULL` elsewhere.
pub open spec fn assembled(exprs: Seq<Expr>, order: Seq<int>, width: nat, k: int) -> Result<
    Seq<ValueModel>,
    ErrorModel,
>
    decreases k,
{
    if k <= 0 {
        Ok(Seq::new(width, |i: int| ValueModel::Null))
    } else {
        match assembled(exprs, order, width, k - 1) {
            Err(e) => Err(e),
            Ok(row) => match literal_value(exprs[k - 1]) {
                Err(e) => Err(e),
                Ok(v) => Ok(row.update(order[k - 1], v)),
            },
        }
    }
}

/// The bytes of a row of an `INSERT`, or why it cannot be stored.
pub open spec fn prepared(exprs: Seq<Expr>, order: Seq<int>, cols: Seq<ColumnDef>) -> Result<
    Seq<u8>,
    ErrorModel,
> {
    if exprs.len() != order.len() {
        Err(
            ErrorModel::Sql(
                SqlState::InsertValueListMismatch,
                "expected "@ + digits10(order.len()) + " values, got "@ + digits10(exprs.len()),
            ),
        )
    } else {
        match assembled(exprs, order, cols.len(), order.len() as int) {
            Err(e) => Err(e),
            Ok(row) => row_fields(row, cols),
        }
    }
}

proof fn lemma_assembled_error(
    exprs: Seq<Expr>,
    order: Seq<int>,
    width: nat,
    i: int,
    n: int,
)
    requires
        0 <= i <= n,
        assembled(exprs, order, width, i) is Err,
    ensures
        assembled(exprs, order, width, n) is Err,
        assembled(exprs, order, width, n)->Err_0 == assembled(exprs, order, width, i)->Err_0,
    decreases n - i,
{
    if i < n {
        lemma_assembled_error(exprs, order, width, i, n - 1);
    }
}

/// Whether every number in some expressions is written without a sign.
pub open spec fn exprs_ok(exprs: Seq<Expr>) -> bool {
    forall|i: int| 0 <= i < exprs.len() ==> expr_ok(#[trigger] exprs[i])
}

/// The bytes of a row of an `INSERT`.
fn prepare(exprs: &Vec<Expr>, order: &Vec<usize>, columns: &Vec<Column>) -> (r: DbResult<Vec<u8>>)
    requires
        exprs_ok(exprs@),
        forall|k: int| 0 <= k < order@.len() ==> #[trigger] order@[k] < columns@.len(),
    ensures
        ({
            let want = prepared(exprs@, positions(order@), columns_view(columns@));
            match r {
                Ok(b) => want == Ok::<Seq<u8>, ErrorModel>(b@),
                Err(e) => want == Err::<Seq<u8>, ErrorModel>(e@),
            }
        }),
{
    let n: usize = order.len();
    if exprs.len() != n {
        return Err(
            sql_error(
                SqlState::InsertValueListMismatch,
                "expected ".to_owned().concat(decimal(n as u64).as_str()).concat(
                    " values, got ",
                ).concat(decimal(exprs.len() as u64).as_str()),
            ),
        );
    }
    let ghost cols = columns_view(columns@);
    let ghost at = positions(order@);
    let width: usize = columns.len();
    let mut row: Vec<Value> = Vec::new();
    let mut i: usize = 0;
    while i < width
        invariant
            i <= width,
            row@.len() == i,
            forall|k: int| 0 <= k < i ==> (#[trigger] row@[k])@ == ValueModel::Null,
        decreases width - i,
    {
        row.push(Value::Null);
        i += 1;
    }
    assert(row_view(row@) =~= Seq::new(width as nat, |i: int| ValueModel::Null));
    let mut k: usize = 0;
    while k < n
        invariant
            k <= n,
            n == order@.len() == exprs@.len(),
            at == positions(order@),
            width == columns@.len() == row@.len(),
            exprs_ok(exprs@),
            forall|k: int| 0 <= k < order@.len() ==> #[trigger] order@[k] < columns@.len(),
            cols == columns_view(columns@),
            assembled(exprs@, at, width as nat, k as int) == Ok::<Seq<ValueModel>, ErrorModel>(
                row_view(row@),
            ),
        decreases n - k,
    {
        let ghost before = row_view(row@);
        assert(expr_ok(exprs@[k as int]));
        match eval_literal(&exprs[k]) {
            Ok(v) => {
                let c: usize = order[k];
                assert(at[k as int] == c);
                row.set(c, v);
                assert(row_view(row@) =~= before.update(c as int, v@));
            }
            Err(e) => {
                proof {
                    lemma_assembled_error(exprs@, at, width as nat, k + 1, n as int);
                }
                return Err(e);
            }
        }
        k += 1;
    }
    serialize_row(&row, columns)
}

/// What inserting a row into a table makes of the tables.
pub open spec fn adds(
    t: TsmModel,
    name: TableName,
    row: Seq<u8>,
    t2: TsmModel,
    r: DbResult<Rid>,
) -> bool {
    if !t.has(name.schema, name.table) {
        r is Err && r->Err_0@ == no_table(name.schema, name.table) && t2 == t
    } else {
        let h2 = t2.heap(name.schema, name.table);
        &&& t2 == t.with_heap(name.schema, name.table, h2)
        &&& stored(t.heap(name.schema, name.table), row, h2, r)
    }
}

/// How adding a row to a table fails. Where the file does not have a page that the map tracks, the
/// message counts the pages of the file on disk; `disk` has their number for each table.
pub open spec fn add_fails(
    t: TsmModel,
    name: TableName,
    row: Seq<u8>,
    t2: TsmModel,
    disk: Seq<nat>,
    e: Error,
) -> bool {
    let p = missing_page(t.heap(name.schema, name.table), row.len());
    &&& adds(t, name, row, t2, Err(e))
    &&& t.has(name.schema, name.table) && p is Some ==> says_missing(
        Err::<Rid, Error>(e),
        p->0,
        disk[t.position(name.schema, name.table)],
    )
}

/// Whether storing a row of an `INSERT` made `t2` of the tables `t`.
pub open spec fn insert_step(
    t: TsmModel,
    t2: TsmModel,
    name: TableName,
    row: Result<Seq<u8>, ErrorModel>,
) -> bool {
    row is Ok && exists|rid: Rid| #[trigger] adds(t, name, row->Ok_0, t2, Ok(rid))
}

/// Whether the tables went through `states` while the first rows of an `INSERT` were stored.
pub open spec fn insert_trace(
    states: Seq<TsmModel>,
    name: TableName,
    rows: Seq<Vec<Expr>>,
    order: Seq<int>,
    cols: Seq<ColumnDef>,
) -> bool {
    forall|i: int|
        0 <= i < states.len() - 1 ==> insert_step(
            #[trigger] states[i],
            states[i + 1],
            name,
            prepared(rows[i]@, order, cols),
        )
}

/// Whether the first `n` rows of an `INSERT` made `t2` of the tables `t`.
pub open spec fn insert_run(
    t: TsmModel,
    name: TableName,
    rows: Seq<Vec<Expr>>,
    order: Seq<int>,
    cols: Seq<ColumnDef>,
    n: int,
    t2: TsmModel,
) -> bool {
    exists|states: Seq<TsmModel>| #[trigger]
        insert_trace(states, name, rows, order, cols) && states.len() == n + 1 && states[0] == t
            && states[n] == t2
}

/// What inserting some rows gives, and what it makes of the tables: the rows go in one after the
/// other up to the first that cannot be stored, and those before it stay.
pub open spec fn rows_inserted(
    t: TsmModel,
    name: TableName,
    rows: Seq<Vec<Expr>>,
    order: Seq<int>,
    cols: Seq<ColumnDef>,
    t2: TsmModel,
    disk: Seq<nat>,
    r: DbResult<ResultSet>,
) -> bool {
    match r {
        Ok(rs) => {
            &&& insert_run(t, name, rows, order, cols, rows.len() as int, t2)
            &&& rs@ == counted("ROWS_INSERTED"@, rows.len() as int)
        },
        Err(e) => exists|k: int, mid: TsmModel| #[trigger]
            insert_run(t, name, rows, order, cols, k, mid) && 0 <= k < rows.len()
                && insert_fails(mid, name, prepared(rows[k]@, order, cols), t2, disk, e),
    }
}

/// How a row of an `INSERT` fails.
pub open spec fn insert_fails(
    t: TsmModel,
    name: TableName,
    row: Result<Seq<u8>, ErrorModel>,
    t2: TsmModel,
    disk: Seq<nat>,
    e: Error,
) -> bool {
    match row {
        Err(x) => e@ == x && t2 == t,
        Ok(b) => add_fails(t, name, b, t2, disk, e),
    }
}

/// Whether a statement failed with an error and left the tables alone.
pub open spec fn refused<T>(
    r: DbResult<T>,
    e: ErrorModel,
    t: TsmModel,
    t2: TsmModel,
) -> bool {
    r is Err && r->Err_0@ == e && t2 == t
}

/// The table that an `INSERT` names.
pub open spec fn insert_table(i: Insert, c: CacheModel) -> Result<TableName, ErrorModel> {
    match i.table {
        InsertTarget::Name(name) => named_table(name, c),
        InsertTarget::Function => Err(
            ErrorModel::Sql(SqlState::FeatureNotSupported, "table functions not supported"@),
        ),
    }
}

/// What an `INSERT` gives, and what it makes of the tables; `disk` has the number of pages of each
/// table that are on disk after it.
pub open spec fn insert_outcome(
    i: Insert,
    c: CacheModel,
    t: TsmModel,
    t2: TsmModel,
    disk: Seq<nat>,
    r: DbResult<ResultSet>,
) -> bool {
    match found_table(insert_table(i, c), c) {
        Err(e) => refused(r, e, t, t2),
        Ok((name, cols)) => match insert_order(i.columns@, column_names(cols)) {
            Err(e) => refused(r, e, t, t2),
            Ok(order) => match i.source {
                None => refused(
                    r,
                    ErrorModel::Sql(SqlState::SyntaxError, "INSERT requires a VALUES clause"@),
                    t,
                    t2,
                ),
                Some(QueryBody::Values(rows)) => rows_inserted(
                    t,
                    name,
                    rows@,
                    order,
                    cols,
                    t2,
                    disk,
                    r,
                ),
                Some(_) => refused(
                    r,
                    ErrorModel::Sql(
                        SqlState::FeatureNotSupported,
                        "only INSERT ... VALUES is supported"@,
                    ),
                    t,
                    t2,
                ),
            },
        },
    }
}

/// Whether every number that a minus sign stands before in an `INSERT` has a negative of its type.
pub open spec fn negatives_ok(i: Insert) -> bool {
    match i.source {
        Some(QueryBody::Values(rows)) => forall|k: int|
            0 <= k < rows@.len() ==> exprs_ok((#[trigger] rows@[k])@),
        _ => true,
    }
}

/// The table that an `INSERT` adds its first row to, if it gets so far.
pub open spec fn insert_reaches(i: Insert, c: CacheModel) -> Option<TableName> {
    match (found_table(insert_table(i, c), c), i.source) {
        (Ok((name, cols)), Some(QueryBody::Values(rows))) => match insert_order(
            i.columns@,
            column_names(cols),
        ) {
            Ok(order) => if rows@.len() > 0 && prepared(rows@[0]@, order, cols) is Ok {
                Some(name)
            } else {
                None
            },
            Err(_) => None,
        },
        _ => None,
    }
}

/// What an `INSERT` asks: that every number that a minus sign stands before has a negative of its
/// type, and that the pages of a table that it adds a row to can be looked at.
pub open spec fn insert_ok(i: Insert, c: CacheModel, t: TsmModel) -> bool {
    &&& negatives_ok(i)
    &&& insert_reaches(i, c) matches Some(name) ==> can_touch(t, name.schema, name.table)
}

fn can_negate_all(exprs: &Vec<Expr>) -> (r: bool)
    ensures
        r == exprs_ok(exprs@),
{
    let n: usize = exprs.len();
    let mut i: usize = 0;
    while i < n
        invariant
            i <= n,
            n == exprs@.len(),
            forall|j: int| 0 <= j < i ==> expr_ok(#[trigger] exprs@[j]),
        decreases n - i,
    {
        if !can_negate(&exprs[i]) {
            assert(!expr_ok(exprs@[i as int]));
            return false;
        }
        i += 1;
    }
    true
}

/// Tells whether every number that a minus sign stands before in an `INSERT` has a negative of its
/// type.
fn can_negate_rows(insert: &Insert) -> (r: bool)
    ensures
        r == negatives_ok(*insert),
{
    match &insert.source {
        Some(QueryBody::Values(rows)) => {
            let n: usize = rows.len();
            let mut i: usize = 0;
            while i < n
                invariant
                    i <= n,
                    n == rows@.len(),
                    negatives_ok(*insert) == (forall|k: int|
                        0 <= k < rows@.len() ==> exprs_ok((#[trigger] rows@[k])@)),
                    forall|k: int| 0 <= k < i ==> exprs_ok((#[trigger] rows@[k])@),
                decreases n - i,
            {
                if !can_negate_all(&rows[i]) {
                    assert(!exprs_ok(rows@[i as int]@));
                    return false;
                }
                i += 1;
            }
            true
        }
        _ => true,
    }
}

/// Tells whether an `INSERT` has what it asks.
pub fn can_insert(insert: &Insert, cache: &CatalogCache, tsm: &TablespaceManager) -> (r: bool)
    requires
        cache.wf(),
        tsm.wf(),
    ensures
        r == insert_ok(*insert, cache@, tsm@),
{
    if !can_negate_rows(insert) {
        return false;
    }
    let rows: &Vec<Vec<Expr>> = match &insert.source {
        Some(QueryBody::Values(rows)) => rows,
        _ => {
            return true;
        }
    };
    let found: Found = match find_table(resolve_insert_table(insert, cache), cache) {
        Ok(f) => f,
        Err(_) => {
            return true;
        }
    };
    assert(found.index@.len() == found.columns@.len());
    match resolve_columns(&insert.columns, found.index, found.columns.len()) {
        Ok(order) => rows.len() == 0 || prepare(&rows[0], &order, found.columns).is_err()
            || tsm.is_touchable(found.table.schema.as_str(), found.table.table.as_str()),
        Err(_) => true,
    }
}

/// The table that an `INSERT` names.
fn resolve_insert_table(insert: &Insert, cache: &CatalogCache) -> (r: DbResult<TableRef>)
    ensures
        match r {
            Ok(t) => insert_table(*insert, cache@) == Ok::<TableName, ErrorModel>(t@),
            Err(e) => insert_table(*insert, cache@) == Err::<TableName, ErrorModel>(e@),
        },
{
    match &insert.table {
        InsertTarget::Name(name) => resolve_table_name(name, cache),
        InsertTarget::Function => Err(
            sql_error(SqlState::FeatureNotSupported, "table functions not supported".to_owned()),
        ),
    }
}

/// Inserts some rows, one after the other.
fn insert_rows(
    tsm: &mut TablespaceManager,
    found: &Found,
    order: &Vec<usize>,
    rows: &Vec<Vec<Expr>>,
) -> (r: DbResult<ResultSet>)
    requires
        old(tsm).wf(),
        rows@.len() > 0 && prepared(
            rows@[0]@,
            positions(order@),
            columns_view(found.columns@),
        ) is Ok ==> can_touch(old(tsm)@, found.table@.schema, found.table@.table),
        forall|k: int| 0 <= k < rows@.len() ==> exprs_ok((#[trigger] rows@[k])@),
        forall|k: int| 0 <= k < order@.len() ==> #[trigger] order@[k] < found.columns@.len(),
    ensures
        final(tsm).wf(),
        stores_kept(old(tsm)@, final(tsm)@),
        rows_inserted(
            old(tsm)@,
            found.table@,
            rows@,
            positions(order@),
            columns_view(found.columns@),
            final(tsm)@,
            final(tsm).on_disk(),
            r,
        ),
{
    let ghost t = tsm@;
    let ghost name = found.table@;
    let ghost at = positions(order@);
    let ghost cols = columns_view(found.columns@);
    let n: usize = rows.len();
    let mut i: usize = 0;
    let ghost mut states: Seq<TsmModel> = seq![t];
    while i < n
        invariant
            i <= n,
            n == rows@.len(),
            tsm.wf(),
            rows@.len() > 0 && prepared(rows@[0]@, at, cols) is Ok ==> can_touch(
                tsm@,
                name.schema,
                name.table,
            ),
            i > 0 ==> prepared(rows@[0]@, at, cols) is Ok,
            states.len() == i + 1,
            states[0] == t,
            states[i as int] == tsm@,
            stores_kept(t, tsm@),
            insert_trace(states, name, rows@, at, cols),
            name == found.table@,
            at == positions(order@),
            cols == columns_view(found.columns@),
            forall|k: int| 0 <= k < rows@.len() ==> exprs_ok((#[trigger] rows@[k])@),
            forall|k: int| 0 <= k < order@.len() ==> #[trigger] order@[k] < found.columns@.len(),
            t == old(tsm)@,
        decreases n - i,
    {
        let ghost mid = tsm@;
        assert(insert_run(t, name, rows@, at, cols, i as int, mid));
        let bytes: Vec<u8> = match prepare(&rows[i], order, found.columns) {
            Ok(b) => b,
            Err(e) => {
                assert(insert_fails(
                    mid,
                    name,
                    prepared(rows@[i as int]@, at, cols),
                    mid,
                    tsm.on_disk(),
                    e,
                ));
                return Err(e);
            }
        };
        match tsm.insert_row(
            found.table.schema.as_str(),
            found.table.table.as_str(),
            bytes.as_slice(),
        ) {
            Ok(rid) => {
                proof {
                    let row = prepared(rows@[i as int]@, at, cols);
                    lemma_touch_kept(
                        mid,
                        name.schema,
                        name.table,
                        tsm@.heap(name.schema, name.table),
                    );
                    assert(adds(mid, name, row->Ok_0, tsm@, Ok(rid)));
                    assert(insert_step(mid, tsm@, name, row));
                    let longer = states.push(tsm@);
                    assert forall|k: int| 0 <= k < longer.len() - 1 implies insert_step(
                        #[trigger] longer[k],
                        longer[k + 1],
                        name,
                        prepared(rows@[k]@, at, cols),
                    ) by {
                        if k < i {
                            assert(states[k] == longer[k]);
                            assert(states[k + 1] == longer[k + 1]);
                        }
                    }
                    states = longer;
                }
            }
            Err(e) => {
                assert(adds(mid, name, bytes@, tsm@, Err(e)));
                assert(add_fails(mid, name, bytes@, tsm@, tsm.on_disk(), e));
                assert(insert_fails(
                    mid,
                    name,
                    prepared(rows@[i as int]@, at, cols),
                    tsm@,
                    tsm.on_disk(),
                    e,
                ));
                return Err(e);
            }
        }
        i += 1;
    }
    Ok(count_result("ROWS_INSERTED", n))
}

/// Runs an `INSERT`.
pub fn execute_insert(insert: &Insert, cache: &CatalogCache, tsm: &mut TablespaceManager) -> (r:
    DbResult<ResultSet>)
    requires
        cache.wf(),
        old(tsm).wf(),
        insert_ok(*insert, cache@, old(tsm)@),
    ensures
        final(tsm).wf(),
        stores_kept(old(tsm)@, final(tsm)@),
        insert_outcome(*insert, cache@, old(tsm)@, final(tsm)@, final(tsm).on_disk(), r),
{
    let found: Found = match find_table(resolve_insert_table(insert, cache), cache) {
        Ok(f) => f,
        Err(e) => {
            return Err(e);
        }
    };
    assert(found.index@.len() == found.columns@.len());
    let order: Vec<usize> = match resolve_columns(
        &insert.columns,
        found.index,
        found.columns.len(),
    ) {
        Ok(v) => v,
        Err(e) => {
            return Err(e);
        }
    };
    match &insert.source {
        None => Err(
            sql_error(SqlState::SyntaxError, "INSERT requires a VALUES clause".to_owned()),
        ),
        Some(QueryBody::Values(rows)) => insert_rows(tsm, &found, &order, rows),
        Some(_) => Err(
            sql_error(
                SqlState::FeatureNotSupported,
                "only INSERT ... VALUES is supported".to_owned(),
            ),
        ),
    }
}

// ── DELETE ──

/// The values of a row, where it meets a condition.
pub open spec fn row_chosen(
    bytes: Seq<u8>,
    cols: Seq<ColumnDef>,
    selection: Option<Expr>,
) -> Result<Option<Seq<ValueModel>>, ErrorModel> {
    match row_values(bytes, cols) {
        Err(e) => Err(e),
        Ok(row) => match selected(selection, column_names(cols), row) {
            Err(e) => Err(e),
            Ok(yes) => Ok(
                if yes {
                    Some(row)
                } else {
                    None
                },
            ),
        },
    }
}

fn choose_row(bytes: &Vec<u8>, found: &Found, selection: &Option<Expr>) -> (r: DbResult<
    Option<Vec<Value>>,
>)
    requires
        found.wf(),
    ensures
        ({
            let want = row_chosen(bytes@, columns_view(found.columns@), *selection);
            match r {
                Ok(Some(row)) => {
                    &&& want == Ok::<Option<Seq<ValueModel>>, ErrorModel>(Some(row_view(row@)))
                    &&& row@.len() == found.columns@.len()
                },
                Ok(None) => want == Ok::<Option<Seq<ValueModel>>, ErrorModel>(None),
                Err(e) => want == Err::<Option<Seq<ValueModel>>, ErrorModel>(e@),
            }
        }),
{
    let row: Vec<Value> = match deserialize_row(bytes.as_slice(), found.columns) {
        Ok(row) => row,
        Err(e) => {
            return Err(e);
        }
    };
    match row_selected(selection, found.index, &row) {
        Ok(true) => Ok(Some(row)),
        Ok(false) => Ok(None),
        Err(e) => Err(e),
    }
}

/// The addresses of those of the first `n` rows that meet a condition.
pub open spec fn chosen_rids(
    raw: Seq<(Rid, Seq<u8>)>,
    cols: Seq<ColumnDef>,
    selection: Option<Expr>,
    n: int,
) -> Result<Seq<Rid>, ErrorModel>
    decreases n,
{
    if n <= 0 {
        Ok(Seq::empty())
    } else {
        match chosen_rids(raw, cols, selection, n - 1) {
            Err(e) => Err(e),
            Ok(rids) => match row_chosen(raw[n - 1].1, cols, selection) {
                Err(e) => Err(e),
                Ok(Some(_)) => Ok(rids.push(raw[n - 1].0)),
                Ok(None) => Ok(rids),
            },
        }
    }
}

proof fn lemma_chosen_error(
    raw: Seq<(Rid, Seq<u8>)>,
    cols: Seq<ColumnDef>,
    selection: Option<Expr>,
    i: int,
    n: int,
)
    requires
        0 <= i <= n,
        chosen_rids(raw, cols, selection, i) is Err,
    ensures
        chosen_rids(raw, cols, selection, n) is Err,
        chosen_rids(raw, cols, selection, n)->Err_0 == chosen_rids(raw, cols, selection, i)->Err_0,
    decreases n - i,
{
    if i < n {
        lemma_chosen_error(raw, cols, selection, i, n - 1);
    }
}

/// Whether each of some addresses is one of the first `n` of some rows, and none is there twice.
pub open spec fn addresses_in(rids: Seq<Rid>, raw: Seq<(Rid, Seq<u8>)>, n: int) -> bool {
    &&& forall|i: int|
        0 <= i < rids.len() ==> exists|k: int| 0 <= k < n && (#[trigger] raw[k]).0
            == #[trigger] rids[i]
    &&& rids.no_duplicates()
}

/// Adding the address of the next row keeps the addresses different.
pub proof fn lemma_address_added(rids: Seq<Rid>, raw: Seq<(Rid, Seq<u8>)>, n: int)
    requires
        0 <= n < raw.len(),
        addresses_in(rids, raw, n),
        forall|i: int, j: int|
            0 <= i < j < raw.len() ==> (#[trigger] raw[i]).0 != (#[trigger] raw[j]).0,
    ensures
        addresses_in(rids, raw, n + 1),
        addresses_in(rids.push(raw[n].0), raw, n + 1),
{
    let more = rids.push(raw[n].0);
    assert forall|i: int| 0 <= i < more.len() implies exists|k: int|
        0 <= k < n + 1 && (#[trigger] raw[k]).0 == #[trigger] more[i] by {
        if i < rids.len() {
            let k = choose|k: int| 0 <= k < n && (#[trigger] raw[k]).0 == rids[i];
            assert(raw[k].0 == more[i]);
        } else {
            assert(raw[n].0 == more[i]);
        }
    }
    assert forall|i: int| 0 <= i < rids.len() implies exists|k: int|
        0 <= k < n + 1 && (#[trigger] raw[k]).0 == #[trigger] rids[i] by {
        assert(more[i] == rids[i]);
    }
    assert forall|i: int, j: int| 0 <= i < more.len() && 0 <= j < more.len() && i != j implies
        more[i] != more[j] by {
        if i == rids.len() || j == rids.len() {
            let o = if i == rids.len() {
                j
            } else {
                i
            };
            let k = choose|k: int| 0 <= k < n && (#[trigger] raw[k]).0 == rids[o];
            assert(raw[k].0 != raw[n].0);
        }
    }
}

/// The addresses of the rows that meet a condition.
fn choose_rids(raw: &Vec<(Rid, Vec<u8>)>, found: &Found, selection: &Option<Expr>) -> (r: DbResult<
    Vec<Rid>,
>)
    requires
        found.wf(),
        ({
            let rows = rid_rows(raw@);
            forall|i: int, j: int|
                0 <= i < j < rows.len() ==> (#[trigger] rows[i]).0 != (#[trigger] rows[j]).0
        }),
    ensures
        ({
            let want = chosen_rids(
                rid_rows(raw@),
                columns_view(found.columns@),
                *selection,
                raw@.len() as int,
            );
            match r {
                Ok(rids) => {
                    &&& want == Ok::<Seq<Rid>, ErrorModel>(rids@)
                    &&& addresses_in(rids@, rid_rows(raw@), raw@.len() as int)
                },
                Err(e) => want == Err::<Seq<Rid>, ErrorModel>(e@),
            }
        }),
{
    let ghost rows = rid_rows(raw@);
    let ghost cols = columns_view(found.columns@);
    let n: usize = raw.len();
    let mut rids: Vec<Rid> = Vec::new();
    let mut i: usize = 0;
    while i < n
        invariant
            i <= n,
            n == raw@.len(),
            found.wf(),
            rows == rid_rows(raw@),
            cols == columns_view(found.columns@),
            forall|i: int, j: int|
                0 <= i < j < rows.len() ==> (#[trigger] rows[i]).0 != (#[trigger] rows[j]).0,
            chosen_rids(rows, cols, *selection, i as int) == Ok::<Seq<Rid>, ErrorModel>(rids@),
            addresses_in(rids@, rows, i as int),
        decreases n - i,
    {
        assert(rows[i as int] == (raw@[i as int].0, raw@[i as int].1@));
        proof {
            lemma_address_added(rids@, rows, i as int);
        }
        match choose_row(&raw[i].1, found, selection) {
            Ok(Some(_)) => {
                rids.push(raw[i].0);
            }
            Ok(None) => {}
            Err(e) => {
                proof {
                    lemma_chosen_error(rows, cols, *selection, i + 1, n as int);
                }
                return Err(e);
            }
        }
        i += 1;
    }
    Ok(rids)
}

/// What deleting a row of a table makes of the tables.
pub open spec fn removes(
    t: TsmModel,
    name: TableName,
    rid: Rid,
    t2: TsmModel,
    r: DbResult<bool>,
) -> bool {
    if !t.has(name.schema, name.table) {
        r is Err && r->Err_0@ == no_table(name.schema, name.table) && t2 == t
    } else {
        let h2 = t2.heap(name.schema, name.table);
        &&& t2 == t.with_heap(name.schema, name.table, h2)
        &&& removed(t.heap(name.schema, name.table), rid, h2, r)
    }
}

/// Whether the tables went through `states` while some rows were deleted.
pub open spec fn delete_trace(states: Seq<TsmModel>, name: TableName, rids: Seq<Rid>) -> bool {
    forall|i: int|
        0 <= i < states.len() - 1 ==> removes(
            #[trigger] states[i],
            name,
            rids[i],
            states[i + 1],
            Ok(true),
        )
}

/// Whether deleting the rows at some addresses, of which each has one, made `t2` of the tables
/// `t`.
pub open spec fn delete_run(
    t: TsmModel,
    name: TableName,
    rids: Seq<Rid>,
    t2: TsmModel,
) -> bool {
    exists|states: Seq<TsmModel>| #[trigger]
        delete_trace(states, name, rids) && states.len() == rids.len() + 1 && states[0] == t
            && states[rids.len() as int] == t2
}

/// The table of a `DELETE`, and the addresses of the rows that go.
pub open spec fn delete_plan(d: Delete, c: CacheModel, t: TsmModel) -> Result<
    (TableName, Seq<Rid>),
    ErrorModel,
> {
    if d.from@.len() != 1 {
        Err(
            ErrorModel::Sql(
                SqlState::SyntaxError,
                "exactly one table in DELETE FROM is required"@,
            ),
        )
    } else {
        match found_table(factor_table(d.from@[0].relation, c), c) {
            Err(e) => Err(e),
            Ok((name, cols)) => match scanned(t, name) {
                Err(e) => Err(e),
                Ok(raw) => match chosen_rids(raw, cols, d.selection, raw.len() as int) {
                    Err(e) => Err(e),
                    Ok(rids) => Ok((name, rids)),
                },
            },
        }
    }
}

/// What a `DELETE` gives, and what it makes of the tables: all rows that meet the condition go, or
/// the statement is refused and none does.
pub open spec fn delete_outcome(
    d: Delete,
    c: CacheModel,
    t: TsmModel,
    t2: TsmModel,
    r: DbResult<ResultSet>,
) -> bool {
    match delete_plan(d, c, t) {
        Err(e) => refused(r, e, t, t2),
        Ok((name, rids)) => {
            &&& r is Ok
            &&& r->Ok_0@ == counted("ROWS_DELETED"@, rids.len() as int)
            &&& delete_run(t, name, rids, t2)
        },
    }
}

/// Whether a table has a row at each of some addresses from `from` on.
pub open spec fn rows_at(t: TsmModel, name: TableName, rids: Seq<Rid>, from: int) -> bool {
    &&& t.has(name.schema, name.table)
    &&& forall|j: int|
        from <= j < rids.len() ==> t.heap(name.schema, name.table).row(#[trigger] rids[j]) is Some
}

/// What becomes of the other rows when one is deleted.
proof fn lemma_removes(t: TsmModel, name: TableName, rid: Rid, t2: TsmModel, r: DbResult<bool>)
    requires
        t.inv(),
        t.has(name.schema, name.table),
        t.heap(name.schema, name.table).row(rid) is Some,
        removes(t, name, rid, t2, r),
    ensures
        r is Ok && r->Ok_0,
        t2.has(name.schema, name.table),
        t2.heap(name.schema, name.table).row(rid) is None,
        forall|other: Rid|
            other != rid ==> #[trigger] t2.heap(name.schema, name.table).row(other) == t.heap(
                name.schema,
                name.table,
            ).row(other),
{
    let h = t.heap(name.schema, name.table);
    let h2 = t2.heap(name.schema, name.table);
    lemma_find_table(t.tables, name.schema, name.table, 0);
    assert(heap_ok(h));
    law_removed_row_is_gone(h, rid, h2, r->Ok_0);
    lemma_with_heap(t, name.schema, name.table, h2);
}

/// Deletes the rows at some addresses.
pub fn remove_rows(tsm: &mut TablespaceManager, table: &TableRef, rids: &Vec<Rid>) -> (r: DbResult<
    (),
>)
    requires
        old(tsm).wf(),
        rids@.no_duplicates(),
        rows_at(old(tsm)@, table@, rids@, 0),
    ensures
        final(tsm).wf(),
        r is Ok,
        stores_kept(old(tsm)@, final(tsm)@),
        scan_kept(old(tsm)@, final(tsm)@),
        delete_run(old(tsm)@, table@, rids@, final(tsm)@),
{
    let ghost t = tsm@;
    let ghost name = table@;
    let n: usize = rids.len();
    let mut i: usize = 0;
    let ghost mut states: Seq<TsmModel> = seq![t];
    while i < n
        invariant
            i <= n,
            n == rids@.len(),
            tsm.wf(),
            name == table@,
            t == old(tsm)@,
            rids@.no_duplicates(),
            rows_at(tsm@, name, rids@, i as int),
            states.len() == i + 1,
            states[0] == t,
            states[i as int] == tsm@,
            stores_kept(t, tsm@),
            scan_kept(t, tsm@),
            delete_trace(states, name, rids@),
        decreases n - i,
    {
        let ghost mid = tsm@;
        let ghost rid = rids@[i as int];
        proof {
            tsm.lemma_wf();
        }
        let r: DbResult<bool> = tsm.delete_row(
            table.schema.as_str(),
            table.table.as_str(),
            rids[i],
        );
        proof {
            assert(removes(mid, name, rid, tsm@, r));
            lemma_removes(mid, name, rid, tsm@, r);
            lemma_touch_kept(mid, name.schema, name.table, tsm@.heap(name.schema, name.table));
            assert(rows_at(tsm@, name, rids@, i + 1)) by {
                assert forall|j: int| i + 1 <= j < rids@.len() implies tsm@.heap(
                    name.schema,
                    name.table,
                ).row(#[trigger] rids@[j]) is Some by {
                    assert(rids@[j] != rid);
                    assert(mid.heap(name.schema, name.table).row(rids@[j]) is Some);
                }
            }
            let longer = states.push(tsm@);
            assert forall|k: int| 0 <= k < longer.len() - 1 implies removes(
                #[trigger] longer[k],
                name,
                rids@[k],
                longer[k + 1],
                Ok(true),
            ) by {
                if k < i {
                    assert(states[k] == longer[k]);
                    assert(states[k + 1] == longer[k + 1]);
                } else {
                    assert(r == Ok::<bool, Error>(true));
                }
            }
            states = longer;
        }
        match r {
            Ok(_) => {}
            Err(e) => {
                return Err(e);
            }
        }
        i += 1;
    }
    Ok(())
}

/// Rows that a scan listed are there.
pub proof fn lemma_rows_at(t: TsmModel, name: TableName, rids: Seq<Rid>)
    requires
        t.inv(),
        scanned(t, name) is Ok,
        addresses_in(rids, scanned(t, name)->Ok_0, scanned(t, name)->Ok_0.len() as int),
    ensures
        rows_at(t, name, rids, 0),
{
    law_scan_is_the_table(t, name);
    let raw = scanned(t, name)->Ok_0;
    assert forall|j: int| 0 <= j < rids.len() implies t.heap(name.schema, name.table).row(
        #[trigger] rids[j],
    ) is Some by {
        let k = choose|k: int| 0 <= k < raw.len() && (#[trigger] raw[k]).0 == rids[j];
        assert(t.heap(name.schema, name.table).row(raw[k].0) == Some(raw[k].1));
    }
}

/// The table that a `DELETE` scans, if it gets so far.
pub open spec fn delete_scans(d: Delete, c: CacheModel) -> Option<TableName> {
    if d.from@.len() == 1 {
        found_name(factor_table(d.from@[0].relation, c), c)
    } else {
        None
    }
}

/// Tells whether the table that a `DELETE` scans can be scanned.
pub fn can_delete(delete: &Delete, cache: &CatalogCache, tsm: &TablespaceManager) -> (r: bool)
    requires
        cache.wf(),
        tsm.wf(),
    ensures
        r == may_scan(delete_scans(*delete, cache@), tsm@),
{
    if delete.from.len() != 1 {
        return true;
    }
    match find_table(resolve_table_factor(&delete.from[0].relation, cache), cache) {
        Ok(f) => tsm.is_scannable(f.table.schema.as_str(), f.table.table.as_str()),
        Err(_) => true,
    }
}

/// Runs a `DELETE`.
pub fn execute_delete(delete: &Delete, cache: &CatalogCache, tsm: &mut TablespaceManager) -> (r:
    DbResult<ResultSet>)
    requires
        cache.wf(),
        old(tsm).wf(),
        may_scan(delete_scans(*delete, cache@), old(tsm)@),
    ensures
        final(tsm).wf(),
        stores_kept(old(tsm)@, final(tsm)@),
        delete_outcome(*delete, cache@, old(tsm)@, final(tsm)@, r),
{
    if delete.from.len() != 1 {
        return Err(
            sql_error(
                SqlState::SyntaxError,
                "exactly one table in DELETE FROM is required".to_owned(),
            ),
        );
    }
    let found: Found = match find_table(
        resolve_table_factor(&delete.from[0].relation, cache),
        cache,
    ) {
        Ok(f) => f,
        Err(e) => {
            return Err(e);
        }
    };
    let raw: Vec<(Rid, Vec<u8>)> = match scan_table(tsm, &found.table) {
        Ok(v) => v,
        Err(e) => {
            return Err(e);
        }
    };
    proof {
        tsm.lemma_wf();
        law_scan_is_the_table(tsm@, found.table@);
    }
    let rids: Vec<Rid> = match choose_rids(&raw, &found, &delete.selection) {
        Ok(v) => v,
        Err(e) => {
            return Err(e);
        }
    };
    proof {
        lemma_rows_at(tsm@, found.table@, rids@);
    }
    match remove_rows(tsm, &found.table, &rids) {
        Ok(_) => Ok(count_result("ROWS_DELETED", rids.len())),
        Err(e) => Err(e),
    }
}

// ── UPDATE ──

/// The position of the column that an assignment sets.
pub open spec fn assigned_column(a: Assignment, names: Seq<Seq<char>>) -> Result<int, ErrorModel> {
    match a.target {
        AssignmentTarget::Column(name) => if name.parts@.len() == 0 {
            Err(ErrorModel::Sql(SqlState::SyntaxError, "empty column name in SET"@))
        } else {
            column_at(name.parts@.last()@, names)
        },
        AssignmentTarget::Tuple => Err(
            ErrorModel::Sql(
                SqlState::FeatureNotSupported,
                "tuple assignment in UPDATE is not supported"@,
            ),
        ),
    }
}

/// The positions of the columns that the first `n` assignments set.
pub open spec fn assigned_columns(list: Seq<Assignment>, names: Seq<Seq<char>>, n: int) -> Result<
    Seq<int>,
    ErrorModel,
>
    decreases n,
{
    if n <= 0 {
        Ok(Seq::empty())
    } else {
        match assigned_columns(list, names, n - 1) {
            Err(e) => Err(e),
            Ok(at) => match assigned_column(list[n - 1], names) {
                Err(e) => Err(e),
                Ok(i) => Ok(at.push(i)),
            },
        }
    }
}

proof fn lemma_assigned_columns_error(
    list: Seq<Assignment>,
    names: Seq<Seq<char>>,
    i: int,
    n: int,
)
    requires
        0 <= i <= n,
        assigned_columns(list, names, i) is Err,
    ensures
        assigned_columns(list, names, n) is Err,
        assigned_columns(list, names, n)->Err_0 == assigned_columns(list, names, i)->Err_0,
    decreases n - i,
{
    if i < n {
        lemma_assigned_columns_error(list, names, i, n - 1);
    }
}

fn resolve_assignments(list: &Vec<Assignment>, index: &ColumnIndex) -> (r: DbResult<Vec<usize>>)
    ensures
        ({
            let want = assigned_columns(list@, index@, list@.len() as int);
            match r {
                Ok(at) => {
                    &&& want == Ok::<Seq<int>, ErrorModel>(positions(at@))
                    &&& at@.len() == list@.len()
                    &&& forall|k: int| 0 <= k < at@.len() ==> #[trigger] at@[k] < index@.len()
                },
                Err(e) => want == Err::<Seq<int>, ErrorModel>(e@),
            }
        }),
{
    let n: usize = list.len();
    let mut at: Vec<usize> = Vec::new();
    let mut i: usize = 0;
    assert(positions(at@) =~= Seq::<int>::empty());
    while i < n
        invariant
            i <= n,
            n == list@.len(),
            at@.len() == i,
            assigned_columns(list@, index@, i as int) == Ok::<Seq<int>, ErrorModel>(
                positions(at@),
            ),
            forall|k: int| 0 <= k < at@.len() ==> #[trigger] at@[k] < index@.len(),
        decreases n - i,
    {
        let ghost before = positions(at@);
        let found: DbResult<usize> = match &list[i].target {
            AssignmentTarget::Column(name) => {
                let parts: usize = name.parts.len();
                if parts == 0 {
                    Err(
                        sql_error(
                            SqlState::SyntaxError,
                            "empty column name in SET".to_owned(),
                        ),
                    )
                } else {
                    find_column(name.parts[parts - 1].as_str(), index)
                }
            }
            AssignmentTarget::Tuple => Err(
                sql_error(
                    SqlState::FeatureNotSupported,
                    "tuple assignment in UPDATE is not supported".to_owned(),
                ),
            ),
        };
        match found {
            Ok(k) => {
                at.push(k);
                assert(positions(at@) =~= before.push(k as int));
            }
            Err(e) => {
                proof {
                    lemma_assigned_columns_error(list@, index@, i + 1, n as int);
                }
                return Err(e);
            }
        }
        i += 1;
    }
    Ok(at)
}

/// A row after the first `k` assignments. Each value is computed on the row as it was.
pub open spec fn assigned(
    row: Seq<ValueModel>,
    list: Seq<Assignment>,
    at: Seq<int>,
    names: Seq<Seq<char>>,
    k: int,
) -> Result<Seq<ValueModel>, ErrorModel>
    decreases k,
{
    if k <= 0 {
        Ok(row)
    } else {
        match assigned(row, list, at, names, k - 1) {
            Err(e) => Err(e),
            Ok(now) => match expr_value(list[k - 1].value, names, row) {
                Err(e) => Err(e),
                Ok(v) => Ok(now.update(at[k - 1], v)),
            },
        }
    }
}

proof fn lemma_assigned_error(
    row: Seq<ValueModel>,
    list: Seq<Assignment>,
    at: Seq<int>,
    names: Seq<Seq<char>>,
    i: int,
    n: int,
)
    requires
        0 <= i <= n,
        assigned(row, list, at, names, i) is Err,
    ensures
        assigned(row, list, at, names, n) is Err,
        assigned(row, list, at, names, n)->Err_0 == assigned(row, list, at, names, i)->Err_0,
    decreases n - i,
{
    if i < n {
        lemma_assigned_error(row, list, at, names, i, n - 1);
    }
}

/// What the assignments make of a row: bytes, or an error.
pub open spec fn changed_row(
    row: Seq<ValueModel>,
    list: Seq<Assignment>,
    at: Seq<int>,
    cols: Seq<ColumnDef>,
) -> Result<Seq<u8>, ErrorModel> {
    match assigned(row, list, at, column_names(cols), list.len() as int) {
        Err(e) => Err(e),
        Ok(now) => row_fields(now, cols),
    }
}

/// The same values.
fn copy_row(row: &Vec<Value>) -> (r: Vec<Value>)
    ensures
        row_view(r@) == row_view(row@),
        r@.len() == row@.len(),
{
    let n: usize = row.len();
    let mut out: Vec<Value> = Vec::new();
    let mut i: usize = 0;
    while i < n
        invariant
            i <= n,
            n == row@.len(),
            out@.len() == i,
            forall|k: int| 0 <= k < i ==> (#[trigger] out@[k])@ == row@[k]@,
        decreases n - i,
    {
        out.push(row[i].copy());
        i += 1;
    }
    assert(row_view(out@) =~= row_view(row@));
    out
}

fn change_row(row: Vec<Value>, list: &Vec<Assignment>, at: &Vec<usize>, found: &Found) -> (r:
    DbResult<Vec<u8>>)
    requires
        found.wf(),
        row@.len() == found.columns@.len(),
        at@.len() == list@.len(),
        forall|k: int| 0 <= k < at@.len() ==> #[trigger] at@[k] < found.columns@.len(),
    ensures
        ({
            let want = changed_row(
                row_view(row@),
                list@,
                positions(at@),
                columns_view(found.columns@),
            );
            match r {
                Ok(b) => want == Ok::<Seq<u8>, ErrorModel>(b@),
                Err(e) => want == Err::<Seq<u8>, ErrorModel>(e@),
            }
        }),
{
    let ghost first = row_view(row@);
    let ghost places = positions(at@);
    let mut now: Vec<Value> = copy_row(&row);
    let n: usize = list.len();
    let mut k: usize = 0;
    while k < n
        invariant
            k <= n,
            n == list@.len() == at@.len(),
            found.wf(),
            first == row_view(row@),
            row@.len() == found.columns@.len(),
            places == positions(at@),
            now@.len() == found.columns@.len(),
            forall|k: int| 0 <= k < at@.len() ==> #[trigger] at@[k] < found.columns@.len(),
            assigned(first, list@, places, found.index@, k as int) == Ok::<
                Seq<ValueModel>,
                ErrorModel,
            >(row_view(now@)),
        decreases n - k,
    {
        let ghost before = row_view(now@);
        match eval_expr(&list[k].value, found.index, &row) {
            Ok(v) => {
                let c: usize = at[k];
                assert(places[k as int] == c);
                now.set(c, v);
                assert(row_view(now@) =~= before.update(c as int, v@));
            }
            Err(e) => {
                proof {
                    lemma_assigned_error(first, list@, places, found.index@, k + 1, n as int);
                }
                return Err(e);
            }
        }
        k += 1;
    }
    serialize_row(&now, found.columns)
}

/// The addresses of those of the first `n` rows that meet a condition, with what the assignments
/// make of each.
pub open spec fn changes_to(
    raw: Seq<(Rid, Seq<u8>)>,
    cols: Seq<ColumnDef>,
    selection: Option<Expr>,
    list: Seq<Assignment>,
    at: Seq<int>,
    n: int,
) -> Result<Seq<(Rid, Seq<u8>)>, ErrorModel>
    decreases n,
{
    if n <= 0 {
        Ok(Seq::empty())
    } else {
        match changes_to(raw, cols, selection, list, at, n - 1) {
            Err(e) => Err(e),
            Ok(done) => match row_chosen(raw[n - 1].1, cols, selection) {
                Err(e) => Err(e),
                Ok(None) => Ok(done),
                Ok(Some(row)) => match changed_row(row, list, at, cols) {
                    Err(e) => Err(e),
                    Ok(b) => Ok(done.push((raw[n - 1].0, b))),
                },
            },
        }
    }
}

proof fn lemma_changes_error(
    raw: Seq<(Rid, Seq<u8>)>,
    cols: Seq<ColumnDef>,
    selection: Option<Expr>,
    list: Seq<Assignment>,
    at: Seq<int>,
    i: int,
    n: int,
)
    requires
        0 <= i <= n,
        changes_to(raw, cols, selection, list, at, i) is Err,
    ensures
        changes_to(raw, cols, selection, list, at, n) is Err,
        changes_to(raw, cols, selection, list, at, n)->Err_0 == changes_to(
            raw,
            cols,
            selection,
            list,
            at,
            i,
        )->Err_0,
    decreases n - i,
{
    if i < n {
        lemma_changes_error(raw, cols, selection, list, at, i, n - 1);
    }
}

fn collect_changes(
    raw: &Vec<(Rid, Vec<u8>)>,
    found: &Found,
    selection: &Option<Expr>,
    list: &Vec<Assignment>,
    at: &Vec<usize>,
) -> (r: DbResult<Vec<(Rid, Vec<u8>)>>)
    requires
        found.wf(),
        at@.len() == list@.len(),
        forall|k: int| 0 <= k < at@.len() ==> #[trigger] at@[k] < found.columns@.len(),
    ensures
        ({
            let want = changes_to(
                rid_rows(raw@),
                columns_view(found.columns@),
                *selection,
                list@,
                positions(at@),
                raw@.len() as int,
            );
            match r {
                Ok(out) => want == Ok::<Seq<(Rid, Seq<u8>)>, ErrorModel>(rid_rows(out@)),
                Err(e) => want == Err::<Seq<(Rid, Seq<u8>)>, ErrorModel>(e@),
            }
        }),
{
    let ghost rows = rid_rows(raw@);
    let ghost cols = columns_view(found.columns@);
    let ghost places = positions(at@);
    let n: usize = raw.len();
    let mut out: Vec<(Rid, Vec<u8>)> = Vec::new();
    let mut i: usize = 0;
    assert(rid_rows(out@) =~= Seq::<(Rid, Seq<u8>)>::empty());
    while i < n
        invariant
            i <= n,
            n == raw@.len(),
            found.wf(),
            rows == rid_rows(raw@),
            cols == columns_view(found.columns@),
            places == positions(at@),
            at@.len() == list@.len(),
            forall|k: int| 0 <= k < at@.len() ==> #[trigger] at@[k] < found.columns@.len(),
            changes_to(rows, cols, *selection, list@, places, i as int) == Ok::<
                Seq<(Rid, Seq<u8>)>,
                ErrorModel,
            >(rid_rows(out@)),
        decreases n - i,
    {
        let ghost before = rid_rows(out@);
        assert(rows[i as int] == (raw@[i as int].0, raw@[i as int].1@));
        match choose_row(&raw[i].1, found, selection) {
            Ok(Some(row)) => match change_row(row, list, at, found) {
                Ok(b) => {
                    out.push((raw[i].0, b));
                    assert(rid_rows(out@) =~= before.push((raw@[i as int].0, b@)));
                }
                Err(e) => {
                    proof {
                        lemma_changes_error(
                            rows,
                            cols,
                            *selection,
                            list@,
                            places,
                            i + 1,
                            n as int,
                        );
                    }
                    return Err(e);
                }
            },
            Ok(None) => {}
            Err(e) => {
                proof {
                    lemma_changes_error(rows, cols, *selection, list@, places, i + 1, n as int);
                }
                return Err(e);
            }
        }
        i += 1;
    }
    Ok(out)
}

/// What replacing a row of a table makes of the tables.
pub open spec fn replaces(
    t: TsmModel,
    name: TableName,
    rid: Rid,
    row: Seq<u8>,
    t2: TsmModel,
    r: DbResult<Rid>,
) -> bool {
    if !t.has(name.schema, name.table) {
        r is Err && r->Err_0@ == no_table(name.schema, name.table) && t2 == t
    } else {
        let h2 = t2.heap(name.schema, name.table);
        &&& t2 == t.with_heap(name.schema, name.table, h2)
        &&& replaced(t.heap(name.schema, name.table), rid, row, h2, r)
    }
}

/// Whether replacing a row made `t2` of the tables `t`.
pub open spec fn update_step(
    t: TsmModel,
    t2: TsmModel,
    name: TableName,
    change: (Rid, Seq<u8>),
) -> bool {
    exists|rid: Rid| #[trigger] replaces(t, name, change.0, change.1, t2, Ok(rid))
}

/// Whether the tables went through `states` while the first of some rows were replaced.
pub open spec fn update_trace(
    states: Seq<TsmModel>,
    name: TableName,
    changes: Seq<(Rid, Seq<u8>)>,
) -> bool {
    forall|i: int|
        0 <= i < states.len() - 1 ==> update_step(
            #[trigger] states[i],
            states[i + 1],
            name,
            changes[i],
        )
}

/// Whether replacing the first `n` of some rows made `t2` of the tables `t`.
pub open spec fn update_run(
    t: TsmModel,
    name: TableName,
    changes: Seq<(Rid, Seq<u8>)>,
    n: int,
    t2: TsmModel,
) -> bool {
    exists|states: Seq<TsmModel>| #[trigger]
        update_trace(states, name, changes) && states.len() == n + 1 && states[0] == t && states[n]
            == t2
}

/// How replacing a row of a table fails. Where the file does not have a page, the message counts
/// the pages of the file on disk; `disk` has their number for each table.
pub open spec fn replace_fails(
    t: TsmModel,
    name: TableName,
    rid: Rid,
    row: Seq<u8>,
    t2: TsmModel,
    disk: Seq<nat>,
    e: Error,
) -> bool {
    let p = missing_for_update(t.heap(name.schema, name.table), rid, row.len());
    &&& replaces(t, name, rid, row, t2, Err(e))
    &&& t.has(name.schema, name.table) && p is Some ==> says_missing(
        Err::<Rid, Error>(e),
        p->0,
        disk[t.position(name.schema, name.table)],
    )
}

/// What replacing some rows gives, and what it makes of the tables: the rows are replaced one
/// after the other up to the first that cannot be, and those before it stay replaced.
pub open spec fn rows_updated(
    t: TsmModel,
    name: TableName,
    changes: Seq<(Rid, Seq<u8>)>,
    t2: TsmModel,
    disk: Seq<nat>,
    r: DbResult<ResultSet>,
) -> bool {
    match r {
        Ok(rs) => {
            &&& update_run(t, name, changes, changes.len() as int, t2)
            &&& rs@ == counted("ROWS_UPDATED"@, changes.len() as int)
        },
        Err(e) => exists|k: int, mid: TsmModel| #[trigger]
            update_run(t, name, changes, k, mid) && 0 <= k < changes.len() && replace_fails(
                mid,
                name,
                changes[k].0,
                changes[k].1,
                t2,
                disk,
                e,
            ),
    }
}

/// The table of an `UPDATE`, and what becomes of its rows.
pub open spec fn update_plan(u: Update, c: CacheModel, t: TsmModel) -> Result<
    (TableName, Seq<(Rid, Seq<u8>)>),
    ErrorModel,
> {
    match found_table(factor_table(u.table.relation, c), c) {
        Err(e) => Err(e),
        Ok((name, cols)) => match assigned_columns(
            u.assignments@,
            column_names(cols),
            u.assignments@.len() as int,
        ) {
            Err(e) => Err(e),
            Ok(at) => match scanned(t, name) {
                Err(e) => Err(e),
                Ok(raw) => match changes_to(
                    raw,
                    cols,
                    u.selection,
                    u.assignments@,
                    at,
                    raw.len() as int,
                ) {
                    Err(e) => Err(e),
                    Ok(changes) => Ok((name, changes)),
                },
            },
        },
    }
}

/// What an `UPDATE` gives, and what it makes of the tables; `disk` has the number of pages of each
/// table that are on disk after it.
pub open spec fn update_outcome(
    u: Update,
    c: CacheModel,
    t: TsmModel,
    t2: TsmModel,
    disk: Seq<nat>,
    r: DbResult<ResultSet>,
) -> bool {
    match update_plan(u, c, t) {
        Err(e) => refused(r, e, t, t2),
        Ok((name, changes)) => rows_updated(t, name, changes, t2, disk, r),
    }
}

/// Replaces some rows, one after the other.
fn replace_rows(
    tsm: &mut TablespaceManager,
    table: &TableRef,
    changes: &Vec<(Rid, Vec<u8>)>,
) -> (r: DbResult<ResultSet>)
    requires
        old(tsm).wf(),
        changes@.len() > 0 ==> can_touch(old(tsm)@, table@.schema, table@.table),
    ensures
        final(tsm).wf(),
        stores_kept(old(tsm)@, final(tsm)@),
        rows_updated(
            old(tsm)@,
            table@,
            rid_rows(changes@),
            final(tsm)@,
            final(tsm).on_disk(),
            r,
        ),
{
    let ghost t = tsm@;
    let ghost name = table@;
    let ghost all = rid_rows(changes@);
    let n: usize = changes.len();
    let mut i: usize = 0;
    let ghost mut states: Seq<TsmModel> = seq![t];
    while i < n
        invariant
            i <= n,
            n == changes@.len(),
            tsm.wf(),
            changes@.len() > 0 ==> can_touch(tsm@, name.schema, name.table),
            name == table@,
            all == rid_rows(changes@),
            t == old(tsm)@,
            states.len() == i + 1,
            states[0] == t,
            states[i as int] == tsm@,
            stores_kept(t, tsm@),
            update_trace(states, name, all),
        decreases n - i,
    {
        let ghost mid = tsm@;
        let ghost change = all[i as int];
        assert(change == (changes@[i as int].0, changes@[i as int].1@));
        assert(update_run(t, name, all, i as int, mid));
        match tsm.update_row(
            table.schema.as_str(),
            table.table.as_str(),
            changes[i].0,
            changes[i].1.as_slice(),
        ) {
            Ok(rid) => {
                proof {
                    assert(replaces(mid, name, change.0, change.1, tsm@, Ok(rid)));
                    assert(update_step(mid, tsm@, name, change));
                    lemma_touch_kept(
                        mid,
                        name.schema,
                        name.table,
                        tsm@.heap(name.schema, name.table),
                    );
                    let longer = states.push(tsm@);
                    assert forall|k: int| 0 <= k < longer.len() - 1 implies update_step(
                        #[trigger] longer[k],
                        longer[k + 1],
                        name,
                        all[k],
                    ) by {
                        if k < i {
                            assert(states[k] == longer[k]);
                            assert(states[k + 1] == longer[k + 1]);
                        }
                    }
                    states = longer;
                }
            }
            Err(e) => {
                assert(replaces(mid, name, change.0, change.1, tsm@, Err(e)));
                assert(replace_fails(
                    mid,
                    name,
                    change.0,
                    change.1,
                    tsm@,
                    tsm.on_disk(),
                    e,
                ));
                return Err(e);
            }
        }
        i += 1;
    }
    Ok(count_result("ROWS_UPDATED", n))
}

/// The table that an `UPDATE` scans, if it gets so far.
pub open spec fn update_scans(u: Update, c: CacheModel) -> Option<TableName> {
    match found_table(factor_table(u.table.relation, c), c) {
        Ok((name, cols)) => if assigned_columns(
            u.assignments@,
            column_names(cols),
            u.assignments@.len() as int,
        ) is Ok {
            Some(name)
        } else {
            None
        },
        Err(_) => None,
    }
}

/// Tells whether the table that an `UPDATE` scans can be scanned.
pub fn can_update(update: &Update, cache: &CatalogCache, tsm: &TablespaceManager) -> (r: bool)
    requires
        cache.wf(),
        tsm.wf(),
    ensures
        r == may_scan(update_scans(*update, cache@), tsm@),
{
    match find_table(resolve_table_factor(&update.table.relation, cache), cache) {
        Ok(f) => resolve_assignments(&update.assignments, f.index).is_err() || tsm.is_scannable(
            f.table.schema.as_str(),
            f.table.table.as_str(),
        ),
        Err(_) => true,
    }
}

/// Runs an `UPDATE`.
pub fn execute_update(update: &Update, cache: &CatalogCache, tsm: &mut TablespaceManager) -> (r:
    DbResult<ResultSet>)
    requires
        cache.wf(),
        old(tsm).wf(),
        may_scan(update_scans(*update, cache@), old(tsm)@),
    ensures
        final(tsm).wf(),
        stores_kept(old(tsm)@, final(tsm)@),
        update_outcome(*update, cache@, old(tsm)@, final(tsm)@, final(tsm).on_disk(), r),
{
    let found: Found = match find_table(
        resolve_table_factor(&update.table.relation, cache),
        cache,
    ) {
        Ok(f) => f,
        Err(e) => {
            return Err(e);
        }
    };
    assert(found.index@.len() == found.columns@.len());
    let at: Vec<usize> = match resolve_assignments(&update.assignments, found.index) {
        Ok(v) => v,
        Err(e) => {
            return Err(e);
        }
    };
    let raw: Vec<(Rid, Vec<u8>)> = match scan_table(tsm, &found.table) {
        Ok(v) => v,
        Err(e) => {
            return Err(e);
        }
    };
    let changes: Vec<(Rid, Vec<u8>)> = match collect_changes(
        &raw,
        &found,
        &update.selection,
        &update.assignments,
        &at,
    ) {
        Ok(v) => v,
        Err(e) => {
            return Err(e);
        }
    };
    replace_rows(tsm, &found.table, &changes)
}

} // verus!
