//! What `INSERT`, `DELETE` and `UPDATE` mean.

use vstd::prelude::*;
use crate::catalog::cache::{column_names, CacheModel};
use crate::catalog::types::ColumnDef;
use crate::error::{DbResult, ErrorModel, SqlState};
use crate::sql::ast::{Assignment, AssignmentTarget, Delete, Expr, Insert, InsertTarget, QueryBody,
    Update};
use crate::sql::change::{assembled, assigned, assigned_column, assigned_columns, changed_row,
    changes_to, chosen_rids, counted, delete_outcome, delete_plan, insert_fails, insert_order,
    insert_outcome, insert_run, insert_step, insert_table, insert_trace, listed_at, prepared,
    row_chosen, rows_inserted, update_outcome, update_plan};
use crate::sql::eval::{equal_values, expr_value, fields_to, law_row_round_trip, literal_value,
    row_fields, row_values, stored_value};
use crate::sql::expr_laws::{is_number, law_column_is_found_by_name,
    law_number_literal_has_its_amount};
use crate::sql::query::{factor_table, found_table, named_table, scanned};
use crate::sql::select_laws::holds;
use crate::sql::type_laws::fails_with;
use crate::sql::types::{ResultSet, TableName, ValueModel};
use crate::storage::heap::Rid;
use crate::storage::tablespace::TsmModel;
use crate::text::{digits10, uppercase};

verus! {

// ── Counts ──

/// What a statement gives that changed `n` rows: one row with the number `n`, under the label.
pub proof fn law_count_is_given(label: Seq<char>, n: int)
    requires
        0 <= n <= 0x7fff_ffff,
    ensures
        counted(label, n).columns == seq![label],
        counted(label, n).rows.len() == 1,
        counted(label, n).rows[0].len() == 1,
        counted(label, n).rows[0][0] is Integer,
        counted(label, n).rows[0][0].number() == Some(n),
{
}

// ── INSERT ──

/// Where the values of an `INSERT` go: each to the column that is listed at its place, and without
/// a list to all columns in their order. A name that the table does not have is refused.
pub proof fn law_values_are_listed_by_column(list: Seq<String>, names: Seq<Seq<char>>)
    ensures
        list.len() == 0 ==> insert_order(list, names) is Ok && insert_order(
            list,
            names,
        )->Ok_0.len() == names.len() && forall|k: int|
            0 <= k < names.len() ==> #[trigger] insert_order(list, names)->Ok_0[k] == k,
        list.len() > 0 ==> {
            &&& insert_order(list, names) is Ok <==> forall|k: int|
                0 <= k < list.len() ==> names.contains(uppercase((#[trigger] list[k])@))
            &&& insert_order(list, names) is Err ==> fails_with(
                insert_order(list, names),
                SqlState::ColumnNotFound,
            )
            &&& insert_order(list, names) matches Ok(at) ==> {
                &&& at.len() == list.len()
                &&& forall|k: int|
                    0 <= k < list.len() ==> 0 <= (#[trigger] at[k]) < names.len() && names[at[k]]
                        == uppercase(list[k]@)
            }
        },
{
    lemma_listed(list, names, list.len() as int);
}

proof fn lemma_listed(list: Seq<String>, names: Seq<Seq<char>>, n: int)
    requires
        0 <= n <= list.len(),
    ensures
        listed_at(list, names, n) is Ok <==> forall|k: int|
            0 <= k < n ==> names.contains(uppercase((#[trigger] list[k])@)),
        listed_at(list, names, n) is Err ==> fails_with(
            listed_at(list, names, n),
            SqlState::ColumnNotFound,
        ),
        listed_at(list, names, n) matches Ok(at) ==> at.len() == n && forall|k: int|
            0 <= k < n ==> 0 <= (#[trigger] at[k]) < names.len() && names[at[k]] == uppercase(
                list[k]@,
            ),
    decreases n,
{
    if n > 0 {
        lemma_listed(list, names, n - 1);
        law_column_is_found_by_name(list[n - 1]@, names);
        if listed_at(list, names, n) is Err {
            if listed_at(list, names, n - 1) is Ok {
                assert(!names.contains(uppercase(list[n - 1]@)));
            } else {
                let k = choose|k: int|
                    0 <= k < n - 1 && !names.contains(uppercase((#[trigger] list[k])@));
                assert(!names.contains(uppercase(list[k]@)));
            }
        }
    }
}

/// Whether value `k` of an `INSERT` is the last that goes to its column.
pub open spec fn is_last(order: Seq<int>, k: int) -> bool {
    forall|j: int| k < j < order.len() ==> #[trigger] order[j] != order[k]
}

/// Whether place `k` is the last of its kind among the first `n`.
spec fn last_to(order: Seq<int>, k: int, n: int) -> bool {
    forall|j: int| k < j < n ==> #[trigger] order[j] != order[k]
}

/// Whether `i` is none of the first `n` places.
spec fn unused(order: Seq<int>, i: int, n: int) -> bool {
    forall|k: int| 0 <= k < n ==> #[trigger] order[k] != i
}

/// Each value of an `INSERT` goes to its column, the last one where a column is listed twice, and a
/// column for which there is no value gets `NULL`. A value that is refused refuses the row.
pub proof fn law_values_go_to_their_columns(
    exprs: Seq<Expr>,
    order: Seq<int>,
    width: nat,
)
    requires
        exprs.len() == order.len(),
        forall|k: int| 0 <= k < order.len() ==> 0 <= #[trigger] order[k] < width,
    ensures
        assembled(exprs, order, width, order.len() as int) is Ok <==> forall|k: int|
            0 <= k < exprs.len() ==> literal_value(#[trigger] exprs[k]) is Ok,
        assembled(exprs, order, width, order.len() as int) matches Ok(row) ==> {
            &&& row.len() == width
            &&& forall|k: int|
                0 <= k < order.len() && is_last(order, k) ==> row[#[trigger] order[k]]
                    == literal_value(exprs[k])->Ok_0
            &&& forall|i: int|
                0 <= i < width && !order.contains(i) ==> #[trigger] row[i] is Null
        },
{
    lemma_placed(exprs, order, width, order.len() as int);
    if assembled(exprs, order, width, order.len() as int) is Ok {
        let n = order.len() as int;
        let row = assembled(exprs, order, width, n)->Ok_0;
        assert forall|k: int| 0 <= k < n && is_last(order, k) implies row[#[trigger] order[k]]
            == literal_value(exprs[k])->Ok_0 by {
            assert(last_to(order, k, n));
        }
        assert forall|i: int| 0 <= i < width && !order.contains(i) implies #[trigger] row[i]
            is Null by {
            assert(unused(order, i, n));
        }
    }
}

proof fn lemma_placed(exprs: Seq<Expr>, order: Seq<int>, width: nat, n: int)
    requires
        0 <= n <= order.len() == exprs.len(),
        forall|k: int| 0 <= k < order.len() ==> 0 <= #[trigger] order[k] < width,
    ensures
        assembled(exprs, order, width, n) is Ok <==> forall|k: int|
            0 <= k < n ==> literal_value(#[trigger] exprs[k]) is Ok,
        assembled(exprs, order, width, n) matches Ok(row) ==> {
            &&& row.len() == width
            &&& forall|k: int|
                0 <= k < n && #[trigger] last_to(order, k, n) ==> row[order[k]] == literal_value(
                    exprs[k],
                )->Ok_0
            &&& forall|i: int| 0 <= i < width && #[trigger] unused(order, i, n) ==> row[i] is Null
        },
    decreases n,
{
    if n > 0 {
        lemma_placed(exprs, order, width, n - 1);
        if assembled(exprs, order, width, n) is Ok {
            let row = assembled(exprs, order, width, n)->Ok_0;
            let before = assembled(exprs, order, width, n - 1)->Ok_0;
            assert forall|k: int| 0 <= k < n && #[trigger] last_to(order, k, n) implies
                row[order[k]] == literal_value(exprs[k])->Ok_0 by {
                if k < n - 1 {
                    assert(order[n - 1] != order[k]);
                    assert(last_to(order, k, n - 1));
                }
            }
            assert forall|i: int| 0 <= i < width && #[trigger] unused(order, i, n) implies row[i]
                is Null by {
                assert(order[n - 1] != i);
                assert(unused(order, i, n - 1));
            }
        } else if assembled(exprs, order, width, n - 1) is Ok {
            assert(literal_value(exprs[n - 1]) is Err);
        } else {
            let k = choose|k: int| 0 <= k < n - 1 && literal_value(#[trigger] exprs[k]) is Err;
            assert(literal_value(exprs[k]) is Err);
        }
    }
}

/// A row of an `INSERT` must have as many values as columns are listed. One that can be stored has
/// a value for every column of the table, and is read back with each value, amount for amount and
/// text for text, in the column that it was given for.
pub proof fn law_inserted_row_has_its_values(
    exprs: Seq<Expr>,
    order: Seq<int>,
    cols: Seq<ColumnDef>,
)
    requires
        forall|k: int| 0 <= k < order.len() ==> 0 <= #[trigger] order[k] < cols.len(),
    ensures
        exprs.len() != order.len() ==> fails_with(
            prepared(exprs, order, cols),
            SqlState::InsertValueListMismatch,
        ),
        prepared(exprs, order, cols) matches Ok(bytes) ==> {
            &&& exprs.len() == order.len()
            &&& forall|i: int| 0 <= i < cols.len() ==> #[trigger] order.contains(i)
            &&& bytes.len() < 0x1_0000_0000_0000_0000 ==> {
                &&& row_values(bytes, cols) is Ok
                &&& row_values(bytes, cols)->Ok_0.len() == cols.len()
                &&& forall|k: int|
                    0 <= k < order.len() && is_last(order, k) ==> equal_values(
                        row_values(bytes, cols)->Ok_0[#[trigger] order[k]],
                        literal_value(exprs[k])->Ok_0,
                    )
            }
        },
{
    if prepared(exprs, order, cols) is Ok {
        let bytes = prepared(exprs, order, cols)->Ok_0;
        law_values_go_to_their_columns(exprs, order, cols.len());
        let row = assembled(exprs, order, cols.len(), order.len() as int)->Ok_0;
        assert forall|i: int| 0 <= i < cols.len() implies #[trigger] order.contains(i) by {
            lemma_field_ok(row, cols, i, cols.len() as int);
            if !order.contains(i) {
                assert(row[i] is Null);
            }
        }
        if bytes.len() < 0x1_0000_0000_0000_0000 {
            law_row_round_trip(row, cols);
            let back = row_values(bytes, cols)->Ok_0;
            assert forall|k: int| 0 <= k < order.len() && is_last(order, k) implies equal_values(
                back[#[trigger] order[k]],
                literal_value(exprs[k])->Ok_0,
            ) by {
                assert(equal_values(back[order[k]], row[order[k]]));
            }
        }
    }
}

/// What can be stored as a row can be stored value by value.
proof fn lemma_field_ok(row: Seq<ValueModel>, cols: Seq<ColumnDef>, i: int, n: int)
    requires
        0 <= i < n,
        fields_to(row, cols, n) is Ok,
    ensures
        stored_value(row[i], cols[i]) is Ok,
    decreases n,
{
    if i < n - 1 {
        lemma_field_ok(row, cols, i, n - 1);
    }
}

/// What an `INSERT` gives: the number of its rows, where it succeeds. It is refused, and changes
/// nothing, where its table is not found, lists a column that is not there, or has no `VALUES`.
pub proof fn law_insert_counts_its_rows(
    i: Insert,
    c: CacheModel,
    t: TsmModel,
    t2: TsmModel,
    disk: Seq<nat>,
    r: DbResult<ResultSet>,
)
    requires
        insert_outcome(i, c, t, t2, disk, r),
    ensures
        r is Ok ==> (i.source matches Some(QueryBody::Values(rows)) && r->Ok_0@ == counted(
            "ROWS_INSERTED"@,
            rows@.len() as int,
        )),
        !(i.source matches Some(QueryBody::Values(_))) ==> r is Err && t2 == t,
        insert_table(i, c) == (match i.table {
            InsertTarget::Name(name) => named_table(name, c),
            InsertTarget::Function => insert_table(i, c),
        }),
        i.table is Function ==> r is Err && t2 == t,
        found_table(insert_table(i, c), c) matches Err(e) ==> r is Err && r->Err_0@ == e && t2 == t,
        found_table(insert_table(i, c), c) matches Ok((_, cols)) ==> (insert_order(
            i.columns@,
            column_names(cols),
        ) matches Err(e) ==> r is Err && r->Err_0@ == e && t2 == t),
{
}

// ── Rows that meet a condition ──

/// A row is chosen, as it was read, if and only if the condition holds of it.
pub proof fn law_rows_are_chosen_by_their_condition(
    bytes: Seq<u8>,
    cols: Seq<ColumnDef>,
    selection: Option<Expr>,
)
    requires
        row_chosen(bytes, cols, selection) is Ok,
    ensures
        row_values(bytes, cols) is Ok,
        row_chosen(bytes, cols, selection)->Ok_0 == if holds(
            selection,
            column_names(cols),
            row_values(bytes, cols)->Ok_0,
        ) {
            Some(row_values(bytes, cols)->Ok_0)
        } else {
            None
        },
{
}

/// The rows that a `DELETE` takes are those that are chosen, in the order of the scan, each once.
pub proof fn law_delete_takes_the_chosen_rows(
    raw: Seq<(Rid, Seq<u8>)>,
    cols: Seq<ColumnDef>,
    selection: Option<Expr>,
    n: int,
)
    requires
        0 <= n <= raw.len(),
        chosen_rids(raw, cols, selection, n) is Ok,
    ensures
        chosen_rids(raw, cols, selection, n)->Ok_0 == raw.subrange(0, n).filter(
            |x: (Rid, Seq<u8>)| is_chosen(x.1, cols, selection),
        ).map_values(|x: (Rid, Seq<u8>)| x.0),
    decreases n,
{
    let f = |x: (Rid, Seq<u8>)| is_chosen(x.1, cols, selection);
    let first = |x: (Rid, Seq<u8>)| x.0;
    reveal(Seq::filter);
    if n > 0 {
        law_delete_takes_the_chosen_rows(raw, cols, selection, n - 1);
        assert(raw.subrange(0, n).drop_last() =~= raw.subrange(0, n - 1));
        assert(raw.subrange(0, n).last() == raw[n - 1]);
        let before = raw.subrange(0, n - 1).filter(f);
        law_rows_are_chosen_by_their_condition(raw[n - 1].1, cols, selection);
        if f(raw[n - 1]) {
            assert(before.push(raw[n - 1]).map_values(first) =~= before.map_values(first).push(
                raw[n - 1].0,
            ));
        }
    } else {
        assert(raw.subrange(0, 0).filter(f).map_values(first) =~= Seq::empty());
    }
}

/// Whether the condition holds of the values of a row.
pub open spec fn is_chosen(bytes: Seq<u8>, cols: Seq<ColumnDef>, selection: Option<Expr>) -> bool {
    row_values(bytes, cols) matches Ok(row) && holds(selection, column_names(cols), row)
}

/// What a `DELETE` gives: the number of the rows of which its condition holds. Where it is refused,
/// nothing changes.
pub proof fn law_delete_counts_its_rows(
    d: Delete,
    c: CacheModel,
    t: TsmModel,
    t2: TsmModel,
    r: DbResult<ResultSet>,
    name: TableName,
    cols: Seq<ColumnDef>,
)
    requires
        delete_outcome(d, c, t, t2, r),
    ensures
        r is Err ==> t2 == t,
        d.from@.len() != 1 ==> r is Err && r->Err_0@ is Sql && r->Err_0@->Sql_0
            == SqlState::SyntaxError,
        d.from@.len() == 1 && found_table(factor_table(d.from@[0].relation, c), c) == Ok::<
            (TableName, Seq<ColumnDef>),
            ErrorModel,
        >((name, cols)) && r is Ok ==> scanned(t, name) is Ok && r->Ok_0@ == counted(
            "ROWS_DELETED"@,
            scanned(t, name)->Ok_0.filter(
                |x: (Rid, Seq<u8>)| is_chosen(x.1, cols, d.selection),
            ).len() as int,
        ),
{
    if d.from@.len() == 1 && found_table(factor_table(d.from@[0].relation, c), c) == Ok::<
        (TableName, Seq<ColumnDef>),
        ErrorModel,
    >((name, cols)) && r is Ok {
        let raw = scanned(t, name)->Ok_0;
        law_delete_takes_the_chosen_rows(raw, cols, d.selection, raw.len() as int);
        assert(raw.subrange(0, raw.len() as int) =~= raw);
        assert(delete_plan(d, c, t)->Ok_0.1 == chosen_rids(
            raw,
            cols,
            d.selection,
            raw.len() as int,
        )->Ok_0);
    }
}

// ── UPDATE ──

/// An assignment sets the column that it names by the last part of the name. A name that the table
/// does not have is refused, and so is a list of names.
pub proof fn law_assignments_name_columns(
    list: Seq<Assignment>,
    names: Seq<Seq<char>>,
    n: int,
)
    requires
        0 <= n <= list.len(),
    ensures
        assigned_columns(list, names, n) is Ok <==> forall|k: int|
            0 <= k < n ==> #[trigger] can_assign(list[k], names),
        assigned_columns(list, names, n) matches Ok(at) ==> at.len() == n && forall|k: int|
            0 <= k < n ==> 0 <= (#[trigger] at[k]) < names.len() && names[at[k]] == uppercase(
                list[k].target->Column_0.parts@.last()@,
            ),
    decreases n,
{
    if n > 0 {
        law_assignments_name_columns(list, names, n - 1);
        let a = list[n - 1];
        if a.target is Column && a.target->Column_0.parts@.len() > 0 {
            law_column_is_found_by_name(a.target->Column_0.parts@.last()@, names);
        }
        assert(can_assign(a, names) == assigned_column(a, names) is Ok);
        if assigned_columns(list, names, n) is Err {
            if assigned_columns(list, names, n - 1) is Err {
                let k = choose|k: int| 0 <= k < n - 1 && !#[trigger] can_assign(list[k], names);
                assert(!can_assign(list[k], names));
            }
        }
    }
}

/// Whether an assignment names a column of the table.
pub open spec fn can_assign(a: Assignment, names: Seq<Seq<char>>) -> bool {
    match a.target {
        AssignmentTarget::Column(name) => name.parts@.len() > 0 && names.contains(
            uppercase(name.parts@.last()@),
        ),
        AssignmentTarget::Tuple => false,
    }
}

/// The assignments of an `UPDATE` give each column that they name the value of its expression over
/// the row as it was, the last one where a column is named twice, and leave every other column as
/// it was. An expression that is refused refuses the row.
pub proof fn law_assignments_change_their_columns(
    row: Seq<ValueModel>,
    list: Seq<Assignment>,
    at: Seq<int>,
    names: Seq<Seq<char>>,
)
    requires
        at.len() == list.len(),
        forall|k: int| 0 <= k < at.len() ==> 0 <= #[trigger] at[k] < row.len(),
    ensures
        assigned(row, list, at, names, list.len() as int) is Ok <==> forall|k: int|
            0 <= k < list.len() ==> expr_value((#[trigger] list[k]).value, names, row) is Ok,
        assigned(row, list, at, names, list.len() as int) matches Ok(now) ==> {
            &&& now.len() == row.len()
            &&& forall|k: int|
                0 <= k < at.len() && is_last(at, k) ==> now[#[trigger] at[k]] == expr_value(
                    list[k].value,
                    names,
                    row,
                )->Ok_0
            &&& forall|i: int|
                0 <= i < row.len() && !at.contains(i) ==> #[trigger] now[i] == row[i]
        },
{
    lemma_assigned(row, list, at, names, list.len() as int);
    if assigned(row, list, at, names, list.len() as int) is Ok {
        let n = list.len() as int;
        let now = assigned(row, list, at, names, n)->Ok_0;
        assert forall|k: int| 0 <= k < n && is_last(at, k) implies now[#[trigger] at[k]]
            == expr_value(list[k].value, names, row)->Ok_0 by {
            assert(last_to(at, k, n));
        }
        assert forall|i: int| 0 <= i < row.len() && !at.contains(i) implies #[trigger] now[i]
            == row[i] by {
            assert(unused(at, i, n));
        }
    }
}

proof fn lemma_assigned(
    row: Seq<ValueModel>,
    list: Seq<Assignment>,
    at: Seq<int>,
    names: Seq<Seq<char>>,
    n: int,
)
    requires
        0 <= n <= at.len() == list.len(),
        forall|k: int| 0 <= k < at.len() ==> 0 <= #[trigger] at[k] < row.len(),
    ensures
        assigned(row, list, at, names, n) is Ok <==> forall|k: int|
            0 <= k < n ==> expr_value((#[trigger] list[k]).value, names, row) is Ok,
        assigned(row, list, at, names, n) matches Ok(now) ==> {
            &&& now.len() == row.len()
            &&& forall|k: int|
                0 <= k < n && #[trigger] last_to(at, k, n) ==> now[at[k]] == expr_value(
                    list[k].value,
                    names,
                    row,
                )->Ok_0
            &&& forall|i: int|
                0 <= i < row.len() && #[trigger] unused(at, i, n) ==> now[i] == row[i]
        },
    decreases n,
{
    if n > 0 {
        lemma_assigned(row, list, at, names, n - 1);
        if assigned(row, list, at, names, n) is Ok {
            let now = assigned(row, list, at, names, n)->Ok_0;
            let before = assigned(row, list, at, names, n - 1)->Ok_0;
            assert forall|k: int| 0 <= k < n && #[trigger] last_to(at, k, n) implies now[at[k]]
                == expr_value(list[k].value, names, row)->Ok_0 by {
                if k < n - 1 {
                    assert(at[n - 1] != at[k]);
                    assert(last_to(at, k, n - 1));
                }
            }
            assert forall|i: int| 0 <= i < row.len() && #[trigger] unused(at, i, n) implies now[i]
                == row[i] by {
                assert(at[n - 1] != i);
                assert(unused(at, i, n - 1));
            }
        } else if assigned(row, list, at, names, n - 1) is Ok {
            assert(expr_value(list[n - 1].value, names, row) is Err);
        } else {
            let k = choose|k: int|
                0 <= k < n - 1 && expr_value((#[trigger] list[k]).value, names, row) is Err;
            assert(expr_value(list[k].value, names, row) is Err);
        }
    }
}

/// What an `UPDATE` makes of a row is read back with the value of its expression, amount for amount
/// and text for text, in each column that an assignment names, and with what was there in every
/// other column.
pub proof fn law_updated_row_has_its_values(
    row: Seq<ValueModel>,
    list: Seq<Assignment>,
    at: Seq<int>,
    cols: Seq<ColumnDef>,
)
    requires
        row.len() == cols.len(),
        at.len() == list.len(),
        forall|k: int| 0 <= k < at.len() ==> 0 <= #[trigger] at[k] < row.len(),
        changed_row(row, list, at, cols) is Ok,
        changed_row(row, list, at, cols)->Ok_0.len() < 0x1_0000_0000_0000_0000,
    ensures
        ({
            let back = row_values(changed_row(row, list, at, cols)->Ok_0, cols);
            &&& back is Ok
            &&& back->Ok_0.len() == cols.len()
            &&& forall|k: int|
                0 <= k < at.len() && is_last(at, k) ==> equal_values(
                    back->Ok_0[#[trigger] at[k]],
                    expr_value(list[k].value, column_names(cols), row)->Ok_0,
                )
            &&& forall|i: int|
                0 <= i < row.len() && !at.contains(i) ==> equal_values(
                    #[trigger] back->Ok_0[i],
                    row[i],
                )
        }),
{
    let names = column_names(cols);
    law_assignments_change_their_columns(row, list, at, names);
    let now = assigned(row, list, at, names, list.len() as int)->Ok_0;
    law_row_round_trip(now, cols);
    let back = row_values(row_fields(now, cols)->Ok_0, cols)->Ok_0;
    assert forall|k: int| 0 <= k < at.len() && is_last(at, k) implies equal_values(
        back[#[trigger] at[k]],
        expr_value(list[k].value, names, row)->Ok_0,
    ) by {
        assert(equal_values(back[at[k]], now[at[k]]));
    }
    assert forall|i: int| 0 <= i < row.len() && !at.contains(i) implies equal_values(
        #[trigger] back[i],
        row[i],
    ) by {
        assert(now[i] == row[i]);
        assert(equal_values(back[i], now[i]));
    }
}

/// `SET c = n` leaves the amount `n` in the column `c` of every row that it changes.
pub proof fn law_assigned_number_is_in_the_row(
    row: Seq<ValueModel>,
    list: Seq<Assignment>,
    at: Seq<int>,
    cols: Seq<ColumnDef>,
    k: int,
    n: nat,
)
    requires
        row.len() == cols.len(),
        at.len() == list.len(),
        forall|k: int| 0 <= k < at.len() ==> 0 <= #[trigger] at[k] < row.len(),
        changed_row(row, list, at, cols) is Ok,
        changed_row(row, list, at, cols)->Ok_0.len() < 0x1_0000_0000_0000_0000,
        0 <= k < at.len(),
        is_last(at, k),
        is_number(list[k].value, digits10(n)),
        n <= 0x7fff_ffff_ffff_ffff,
    ensures
        row_values(changed_row(row, list, at, cols)->Ok_0, cols) is Ok,
        row_values(changed_row(row, list, at, cols)->Ok_0, cols)->Ok_0[at[k]].number() == Some(
            n as int,
        ),
{
    law_updated_row_has_its_values(row, list, at, cols);
    law_number_literal_has_its_amount(list[k].value, n, column_names(cols), row);
}

proof fn lemma_changes_counted(
    raw: Seq<(Rid, Seq<u8>)>,
    cols: Seq<ColumnDef>,
    selection: Option<Expr>,
    list: Seq<Assignment>,
    at: Seq<int>,
    n: int,
)
    requires
        0 <= n <= raw.len(),
        changes_to(raw, cols, selection, list, at, n) is Ok,
    ensures
        changes_to(raw, cols, selection, list, at, n)->Ok_0.len() == raw.subrange(0, n).filter(
            |x: (Rid, Seq<u8>)| is_chosen(x.1, cols, selection),
        ).len(),
    decreases n,
{
    let f = |x: (Rid, Seq<u8>)| is_chosen(x.1, cols, selection);
    reveal(Seq::filter);
    if n > 0 {
        lemma_changes_counted(raw, cols, selection, list, at, n - 1);
        assert(raw.subrange(0, n).drop_last() =~= raw.subrange(0, n - 1));
        assert(raw.subrange(0, n).last() == raw[n - 1]);
        law_rows_are_chosen_by_their_condition(raw[n - 1].1, cols, selection);
    }
}

/// What an `UPDATE` gives: the number of the rows of which its condition holds. Where its table, a
/// column, its condition or a new value is refused, nothing changes.
pub proof fn law_update_counts_its_rows(
    u: Update,
    c: CacheModel,
    t: TsmModel,
    t2: TsmModel,
    disk: Seq<nat>,
    r: DbResult<ResultSet>,
    name: TableName,
    cols: Seq<ColumnDef>,
)
    requires
        update_outcome(u, c, t, t2, disk, r),
        found_table(factor_table(u.table.relation, c), c) == Ok::<
            (TableName, Seq<ColumnDef>),
            ErrorModel,
        >((name, cols)),
    ensures
        r is Ok ==> scanned(t, name) is Ok && r->Ok_0@ == counted(
            "ROWS_UPDATED"@,
            scanned(t, name)->Ok_0.filter(
                |x: (Rid, Seq<u8>)| is_chosen(x.1, cols, u.selection),
            ).len() as int,
        ),
        update_plan(u, c, t) matches Err(e) ==> r is Err && r->Err_0@ == e && t2 == t,
        !(forall|k: int|
            0 <= k < u.assignments@.len() ==> #[trigger] can_assign(
                u.assignments@[k],
                column_names(cols),
            )) ==> r is Err && t2 == t,
{
    law_assignments_name_columns(
        u.assignments@,
        column_names(cols),
        u.assignments@.len() as int,
    );
    if r is Ok {
        let raw = scanned(t, name)->Ok_0;
        let at = assigned_columns(
            u.assignments@,
            column_names(cols),
            u.assignments@.len() as int,
        )->Ok_0;
        lemma_changes_counted(raw, cols, u.selection, u.assignments@, at, raw.len() as int);
        assert(raw.subrange(0, raw.len() as int) =~= raw);
    }
}

// ── What is refused and what succeeds ──

/// An `INSERT` with a row that cannot be stored is refused, wherever in the list the row is; the
/// rows before it are as if they had been inserted alone.
pub proof fn law_insert_stops_at_a_bad_row(
    t: TsmModel,
    name: TableName,
    rows: Seq<Vec<Expr>>,
    order: Seq<int>,
    cols: Seq<ColumnDef>,
    t2: TsmModel,
    disk: Seq<nat>,
    r: DbResult<ResultSet>,
    bad: int,
)
    requires
        rows_inserted(t, name, rows, order, cols, t2, disk, r),
        0 <= bad < rows.len(),
        prepared(rows[bad]@, order, cols) is Err,
    ensures
        r is Err,
        exists|k: int, mid: TsmModel| #[trigger]
            insert_run(t, name, rows, order, cols, k, mid) && 0 <= k <= bad && insert_fails(
                mid,
                name,
                prepared(rows[k]@, order, cols),
                t2,
                disk,
                r->Err_0,
            ),
{
    if r is Ok {
        let n = rows.len() as int;
        let states = choose|states: Seq<TsmModel>| #[trigger]
            insert_trace(states, name, rows, order, cols) && states.len() == n + 1 && states[0] == t
                && states[n] == t2;
        assert(insert_step(
            states[bad],
            states[bad + 1],
            name,
            prepared(rows[bad]@, order, cols),
        ));
    } else {
        let (k, mid) = choose|k: int, mid: TsmModel| #[trigger]
            insert_run(t, name, rows, order, cols, k, mid) && 0 <= k < rows.len() && insert_fails(
                mid,
                name,
                prepared(rows[k]@, order, cols),
                t2,
                disk,
                r->Err_0,
            );
        if k > bad {
            let states = choose|states: Seq<TsmModel>| #[trigger]
                insert_trace(states, name, rows, order, cols) && states.len() == k + 1
                    && states[0] == t && states[k] == mid;
            assert(insert_step(
                states[bad],
                states[bad + 1],
                name,
                prepared(rows[bad]@, order, cols),
            ));
        }
        assert(insert_run(t, name, rows, order, cols, k, mid));
    }
}

proof fn lemma_all_judged(
    raw: Seq<(Rid, Seq<u8>)>,
    cols: Seq<ColumnDef>,
    selection: Option<Expr>,
    n: int,
)
    requires
        0 <= n <= raw.len(),
        forall|k: int| 0 <= k < n ==> row_chosen((#[trigger] raw[k]).1, cols, selection) is Ok,
    ensures
        chosen_rids(raw, cols, selection, n) is Ok,
    decreases n,
{
    if n > 0 {
        lemma_all_judged(raw, cols, selection, n - 1);
        assert(row_chosen(raw[n - 1].1, cols, selection) is Ok);
    }
}

/// A `DELETE` succeeds where its table is found, the rows can be read, and its condition can be
/// reckoned for each of them, however many it takes.
pub proof fn law_delete_succeeds(
    d: Delete,
    c: CacheModel,
    t: TsmModel,
    t2: TsmModel,
    r: DbResult<ResultSet>,
    name: TableName,
    cols: Seq<ColumnDef>,
)
    requires
        delete_outcome(d, c, t, t2, r),
        d.from@.len() == 1,
        found_table(factor_table(d.from@[0].relation, c), c) == Ok::<
            (TableName, Seq<ColumnDef>),
            ErrorModel,
        >((name, cols)),
        scanned(t, name) is Ok,
        forall|k: int|
            0 <= k < scanned(t, name)->Ok_0.len() ==> row_chosen(
                (#[trigger] scanned(t, name)->Ok_0[k]).1,
                cols,
                d.selection,
            ) is Ok,
    ensures
        r is Ok,
{
    let raw = scanned(t, name)->Ok_0;
    lemma_all_judged(raw, cols, d.selection, raw.len() as int);
}

/// Whether a row can be judged and, where it is chosen, be given its new values.
pub open spec fn can_change(
    bytes: Seq<u8>,
    cols: Seq<ColumnDef>,
    selection: Option<Expr>,
    list: Seq<Assignment>,
    at: Seq<int>,
) -> bool {
    match row_chosen(bytes, cols, selection) {
        Err(_) => false,
        Ok(None) => true,
        Ok(Some(row)) => changed_row(row, list, at, cols) is Ok,
    }
}

/// The changes of an `UPDATE` are planned where each row can be judged and each chosen row can have
/// its new values, however many those are; a row for which that fails is refused.
pub proof fn law_update_is_planned(
    raw: Seq<(Rid, Seq<u8>)>,
    cols: Seq<ColumnDef>,
    selection: Option<Expr>,
    list: Seq<Assignment>,
    at: Seq<int>,
    n: int,
)
    requires
        0 <= n <= raw.len(),
    ensures
        changes_to(raw, cols, selection, list, at, n) is Ok <==> forall|k: int|
            0 <= k < n ==> can_change((#[trigger] raw[k]).1, cols, selection, list, at),
    decreases n,
{
    if n > 0 {
        law_update_is_planned(raw, cols, selection, list, at, n - 1);
        if forall|k: int|
            0 <= k < n ==> can_change((#[trigger] raw[k]).1, cols, selection, list, at) {
            assert(can_change(raw[n - 1].1, cols, selection, list, at));
        }
        if changes_to(raw, cols, selection, list, at, n) is Ok {
            assert forall|k: int| 0 <= k < n implies can_change(
                (#[trigger] raw[k]).1,
                cols,
                selection,
                list,
                at,
            ) by {
                if k == n - 1 {
                    assert(can_change(raw[n - 1].1, cols, selection, list, at));
                }
            }
        }
    }
}

} // verus!
