//! What names and `SELECT` mean.

use vstd::prelude::*;
use crate::catalog::cache::{column_names, CacheModel};
use crate::catalog::types::ColumnDef;
use crate::error::{ErrorModel, SqlState};
use crate::sql::ast::{Expr, ObjectName, QueryBody, Select, SelectItem, TableFactor};
use crate::sql::eval::{item_columns, list_columns, row_values, where_value};
use crate::sql::expr_laws::{law_column_is_found_by_name, names_column};
use crate::sql::laws::{law_condition_keeps_what_meets_it, lemma_decoded, shown_row};
use crate::sql::query::{decoded, factor_table, filtered, found_table, named_table, projected,
    query_result, scanned, searched, selected};
use crate::sql::type_laws::fails_with;
use crate::sql::types::{ResultModel, TableName, ValueModel};
use crate::storage::tablespace::TsmModel;
use crate::text::uppercase;

verus! {

// ── Names of tables ──

/// A table is meant by its name, in upper case, in the schema that stands before it, or else in the
/// default one. A name of no parts or of more than two is refused.
pub proof fn law_name_means_a_table(name: ObjectName, c: CacheModel)
    ensures
        name.parts@.len() == 1 ==> named_table(name, c) == Ok::<TableName, ErrorModel>(
            TableName {
                schema: uppercase(c.config.default_schema),
                table: uppercase(name.parts@[0]@),
            },
        ),
        name.parts@.len() == 2 ==> named_table(name, c) == Ok::<TableName, ErrorModel>(
            TableName {
                schema: uppercase(name.parts@[0]@),
                table: uppercase(name.parts@[1]@),
            },
        ),
        name.parts@.len() != 1 && name.parts@.len() != 2 ==> fails_with(
            named_table(name, c),
            SqlState::SyntaxError,
        ),
        factor_table(TableFactor::Table(name), c) == named_table(name, c),
        fails_with(factor_table(TableFactor::Other, c), SqlState::FeatureNotSupported),
{
}

/// A table that is there is found under its name. One that is not in the default schema is found in
/// the schema of the system, if it is there; no other table is looked for elsewhere. What is found
/// has the columns that the catalog lists; a name for which nothing is found is refused.
pub proof fn law_table_is_found_where_it_is(t: TableName, c: CacheModel)
    ensures
        c.table(t.schema, t.table) is Some ==> searched(t, c) == t,
        t.schema != c.config.default_schema ==> searched(t, c) == t,
        searched(t, c) != t ==> searched(t, c).schema == c.config.sys_schema && c.table(
            c.config.sys_schema,
            t.table,
        ) is Some,
        searched(t, c).table == t.table,
        c.table(t.schema, t.table) is None && t.schema == c.config.default_schema && c.table(
            c.config.sys_schema,
            t.table,
        ) is Some ==> searched(t, c).schema == c.config.sys_schema,
        found_table(Ok(t), c) matches Ok((name, cols)) ==> name == searched(t, c) && c.columns_for(
            name.schema,
            name.table,
        ) == Some(cols),
        found_table(Ok(t), c) is Err <==> c.columns_for(
            searched(t, c).schema,
            searched(t, c).table,
        ) is None,
        found_table(Ok(t), c) is Err ==> fails_with(found_table(Ok(t), c), SqlState::TableNotFound),
{
}

/// What is refused as a name is refused as a table.
pub proof fn law_refused_name_is_no_table(e: ErrorModel, c: CacheModel)
    ensures
        found_table(Err(e), c) == Err::<(TableName, Seq<ColumnDef>), ErrorModel>(e),
{
}

// ── The list of columns ──

/// Whether an item of a list is a column.
pub open spec fn item_names(item: SelectItem, name: Seq<char>) -> bool {
    match item {
        SelectItem::Unnamed(e) => names_column(e, name),
        _ => false,
    }
}

/// A list of columns selects as many columns as it lists, in its order, each under its name in
/// upper case and at the place where the table has it; a name that the table does not have is
/// refused.
pub proof fn law_list_selects_its_columns(
    items: Seq<SelectItem>,
    wanted: Seq<Seq<char>>,
    names: Seq<Seq<char>>,
    n: int,
)
    requires
        0 <= n <= items.len(),
        wanted.len() == items.len(),
        forall|i: int| 0 <= i < items.len() ==> item_names(items[i], #[trigger] wanted[i]),
    ensures
        list_columns(items, names, n) matches Ok((cols, at)) ==> {
            &&& cols.len() == n
            &&& at.len() == n
            &&& forall|j: int|
                0 <= j < n ==> {
                    &&& (#[trigger] cols[j]) == uppercase(wanted[j])
                    &&& 0 <= at[j] < names.len()
                    &&& names[at[j]] == cols[j]
                }
            &&& forall|j: int, k: int|
                0 <= j < n && at[j] < k < names.len() ==> #[trigger] names[k] != #[trigger] cols[j]
        },
        list_columns(items, names, n) is Ok <==> forall|j: int|
            0 <= j < n ==> names.contains(uppercase(#[trigger] wanted[j])),
        list_columns(items, names, n) is Err ==> fails_with(
            list_columns(items, names, n),
            SqlState::ColumnNotFound,
        ),
    decreases n,
{
    if n > 0 {
        law_list_selects_its_columns(items, wanted, names, n - 1);
        let w = wanted[n - 1];
        assert(item_names(items[n - 1], w));
        law_column_is_found_by_name(w, names);
        let done = list_columns(items, names, n - 1);
        let one = item_columns(items[n - 1], names);
        if done is Ok && one is Ok {
            let (cols, at) = list_columns(items, names, n)->Ok_0;
            assert(cols =~= done->Ok_0.0 + one->Ok_0.0);
            assert(at =~= done->Ok_0.1 + one->Ok_0.1);
            assert(one->Ok_0.0 =~= seq![uppercase(w)]);
            assert forall|j: int| 0 <= j < n implies {
                &&& (#[trigger] cols[j]) == uppercase(wanted[j])
                &&& 0 <= at[j] < names.len()
                &&& names[at[j]] == cols[j]
            } by {
                if j < n - 1 {
                    assert(cols[j] == done->Ok_0.0[j] && at[j] == done->Ok_0.1[j]);
                }
            }
            assert forall|j: int, k: int| 0 <= j < n && at[j] < k < names.len() implies
                #[trigger] names[k] != #[trigger] cols[j] by {
                if j < n - 1 {
                    assert(cols[j] == done->Ok_0.0[j] && at[j] == done->Ok_0.1[j]);
                }
            }
            assert forall|j: int| 0 <= j < n implies names.contains(
                uppercase(#[trigger] wanted[j]),
            ) by {}
        }
    }
}

/// A star adds all columns of the table in their order, under their names, to what stands before
/// it.
pub proof fn law_star_selects_all_columns(items: Seq<SelectItem>, names: Seq<Seq<char>>, n: int)
    requires
        0 < n <= items.len(),
        items[n - 1] is Wildcard,
        list_columns(items, names, n - 1) is Ok,
    ensures
        list_columns(items, names, n) is Ok,
        ({
            let (before, before_at) = list_columns(items, names, n - 1)->Ok_0;
            let (cols, at) = list_columns(items, names, n)->Ok_0;
            &&& cols == before + names
            &&& at.len() == before_at.len() + names.len()
            &&& at.subrange(0, before_at.len() as int) == before_at
            &&& forall|i: int| 0 <= i < names.len() ==> #[trigger] at[before_at.len() + i] == i
        }),
{
    let (before, before_at) = list_columns(items, names, n - 1)->Ok_0;
    let (cols, at) = list_columns(items, names, n)->Ok_0;
    assert(at.subrange(0, before_at.len() as int) =~= before_at);
}

/// What is neither a column nor a star cannot be selected.
pub proof fn law_other_items_are_refused(item: SelectItem, names: Seq<Seq<char>>)
    requires
        item is Other || (item is Unnamed && !(item->Unnamed_0.kind is Identifier)
            && !(item->Unnamed_0.kind is Compound)),
    ensures
        fails_with(item_columns(item, names), SqlState::FeatureNotSupported),
{
}

// ── Rows ──

/// Whether a condition holds of a row; none holds of every row.
pub open spec fn holds(
    selection: Option<Expr>,
    names: Seq<Seq<char>>,
    row: Seq<ValueModel>,
) -> bool {
    selection matches Some(e) ==> where_value(e, names, row) == Ok::<bool, ErrorModel>(true)
}

/// A `SELECT` shows exactly the rows of the table of which its condition holds, in the order of a
/// scan, and of each row the values of the columns that it lists, in the order of the list.
pub proof fn law_select_shows_the_rows_that_meet_its_condition(
    s: Select,
    c: CacheModel,
    t: TsmModel,
    name: TableName,
    cols: Seq<ColumnDef>,
    columns: Seq<Seq<char>>,
    at: Seq<int>,
)
    requires
        query_result(QueryBody::Select(s), c, t) is Ok,
        found_table(factor_table(s.from@[0].relation, c), c) == Ok::<
            (TableName, Seq<ColumnDef>),
            ErrorModel,
        >((name, cols)),
        list_columns(s.projection@, column_names(cols), s.projection@.len() as int) == Ok::<
            (Seq<Seq<char>>, Seq<int>),
            ErrorModel,
        >((columns, at)),
    ensures
        scanned(t, name) is Ok,
        ({
            let raw = scanned(t, name)->Ok_0;
            let rows = Seq::new(raw.len(), |k: int| shown_row(raw[k].1, cols));
            let kept = rows.filter(
                |row: Seq<ValueModel>| holds(s.selection, column_names(cols), row),
            );
            let shown = query_result(QueryBody::Select(s), c, t)->Ok_0;
            &&& shown.columns == columns
            &&& shown.rows.len() == kept.len()
            &&& forall|k: int, j: int|
                0 <= k < kept.len() && 0 <= j < at.len() ==> #[trigger] shown.rows[k][j]
                    == kept[k][at[j]]
            &&& forall|k: int| 0 <= k < kept.len() ==> (#[trigger] shown.rows[k]).len() == at.len()
        }),
{
    let raw = scanned(t, name)->Ok_0;
    let names = column_names(cols);
    let n = raw.len() as int;
    lemma_decoded(raw, cols, n);
    let rows = decoded(raw, cols, n)->Ok_0;
    law_condition_keeps_what_meets_it(rows, s.selection, names, rows.len() as int);
    let f = |row: Seq<ValueModel>| holds(s.selection, names, row);
    let g = |row: Seq<ValueModel>|
        selected(s.selection, names, row) == Ok::<bool, ErrorModel>(true);
    assert(rows.subrange(0, rows.len() as int) =~= rows);
    assert(rows =~= Seq::new(raw.len(), |k: int| shown_row(raw[k].1, cols)));
    assert forall|row: Seq<ValueModel>| #[trigger] f(row) == g(row) by {}
    assert(f =~= g);
    let kept = filtered(rows, s.selection, names, rows.len() as int)->Ok_0;
    assert(kept == rows.filter(f));
    assert(query_result(QueryBody::Select(s), c, t)->Ok_0 == ResultModel {
        columns,
        rows: projected(kept, at),
    });
}

/// When a `SELECT` is refused: it must name one table and join none to it; the table must be found
/// and its pages must be readable. Nothing else is a query.
pub proof fn law_select_is_refused(q: QueryBody, c: CacheModel, t: TsmModel)
    ensures
        !(q is Select) ==> fails_with(query_result(q, c, t), SqlState::FeatureNotSupported),
        q matches QueryBody::Select(s) ==> {
            &&& s.from@.len() != 1 ==> fails_with(query_result(q, c, t), SqlState::SyntaxError)
            &&& s.from@.len() == 1 && s.from@[0].joins > 0 ==> fails_with(
                query_result(q, c, t),
                SqlState::FeatureNotSupported,
            )
            &&& s.from@.len() == 1 && s.from@[0].joins == 0 ==> {
                &&& found_table(factor_table(s.from@[0].relation, c), c) matches Err(e)
                    ==> query_result(q, c, t) == Err::<ResultModel, ErrorModel>(e)
                &&& found_table(factor_table(s.from@[0].relation, c), c) matches Ok((name, _)) ==> (
                scanned(t, name) matches Err(e) ==> query_result(q, c, t) == Err::<
                    ResultModel,
                    ErrorModel,
                >(e))
            }
        },
{
}

/// When a `SELECT` succeeds: where its table can be scanned, it does if and only if every row can
/// be read, every column that it lists is there, and its condition can be evaluated on every row.
pub proof fn law_select_succeeds(
    s: Select,
    c: CacheModel,
    t: TsmModel,
    name: TableName,
    cols: Seq<ColumnDef>,
)
    requires
        s.from@.len() == 1,
        s.from@[0].joins == 0,
        found_table(factor_table(s.from@[0].relation, c), c) == Ok::<
            (TableName, Seq<ColumnDef>),
            ErrorModel,
        >((name, cols)),
        scanned(t, name) is Ok,
    ensures
        query_result(QueryBody::Select(s), c, t) is Ok <==> {
            let raw = scanned(t, name)->Ok_0;
            let names = column_names(cols);
            &&& forall|k: int| 0 <= k < raw.len() ==> row_values((#[trigger] raw[k]).1, cols) is Ok
            &&& list_columns(s.projection@, names, s.projection@.len() as int) is Ok
            &&& forall|k: int|
                0 <= k < raw.len() ==> can_judge(
                    s.selection,
                    names,
                    shown_row((#[trigger] raw[k]).1, cols),
                )
        },
{
    let raw = scanned(t, name)->Ok_0;
    let names = column_names(cols);
    lemma_decoded(raw, cols, raw.len() as int);
    let rows = decoded(raw, cols, raw.len() as int)->Ok_0;
    if decoded(raw, cols, raw.len() as int) is Ok {
        lemma_filtered_ok(rows, s.selection, names, rows.len() as int);
        if forall|k: int|
            0 <= k < raw.len() ==> can_judge(
                s.selection,
                names,
                shown_row((#[trigger] raw[k]).1, cols),
            ) {
            assert forall|k: int| 0 <= k < rows.len() implies can_judge(
                s.selection,
                names,
                #[trigger] rows[k],
            ) by {
                assert(rows[k] == shown_row(raw[k].1, cols));
            }
        }
        if forall|k: int|
            0 <= k < rows.len() ==> can_judge(s.selection, names, #[trigger] rows[k]) {
            assert forall|k: int| 0 <= k < raw.len() implies can_judge(
                s.selection,
                names,
                shown_row((#[trigger] raw[k]).1, cols),
            ) by {
                assert(rows[k] == shown_row(raw[k].1, cols));
            }
        }
    }
}

/// Whether it can be told if a row meets a condition.
pub open spec fn can_judge(
    selection: Option<Expr>,
    names: Seq<Seq<char>>,
    row: Seq<ValueModel>,
) -> bool {
    selection matches Some(e) ==> where_value(e, names, row) is Ok
}

proof fn lemma_filtered_ok(
    rows: Seq<Seq<ValueModel>>,
    selection: Option<Expr>,
    names: Seq<Seq<char>>,
    n: int,
)
    requires
        0 <= n <= rows.len(),
    ensures
        filtered(rows, selection, names, n) is Ok <==> forall|k: int|
            0 <= k < n ==> can_judge(selection, names, #[trigger] rows[k]),
    decreases n,
{
    if n > 0 {
        lemma_filtered_ok(rows, selection, names, n - 1);
        if filtered(rows, selection, names, n) is Err {
            if filtered(rows, selection, names, n - 1) is Ok {
                assert(!can_judge(selection, names, rows[n - 1]));
            } else {
                let k = choose|k: int|
                    0 <= k < n - 1 && !can_judge(selection, names, #[trigger] rows[k]);
                assert(!can_judge(selection, names, rows[k]));
            }
        }
    }
}

} // verus!
