//! What statements make of tables, seen from the rows.

use vstd::prelude::*;
use vstd::utf8::encode_utf8;
use crate::bytes::{lemma_le_bytes_len, lemma_pow256};
use crate::catalog::cache::{column_names, law_registered_schema_is_there,
    law_registered_table_is_found, law_unregistered_table_is_gone, lemma_index_of, CacheModel};
use crate::catalog::row::law_signed_round_trip;
use crate::catalog::types::ColumnDef;
use crate::error::{DbResult, ErrorModel, SqlState};
use crate::sql::ast::{ColumnSpec, CreateTable, Delete, DropTable, Expr, Insert, QueryBody,
    SelectItem, Update};
use crate::sql::change::{adds, assembled, assigned_columns, changed_row, changes_to, chosen_rids,
    delete_outcome, delete_plan, delete_run, delete_trace, insert_order, insert_outcome, insert_run,
    insert_step, insert_table, insert_trace, listed_at, prepared, refused, removes, replaces,
    row_chosen, update_outcome, update_plan, update_run, update_step, update_trace};
use crate::sql::define::{about_deleted, catalog_column, columns_dropped, create_outcome,
    create_plan, drop_outcome, drop_target, entry_run, entry_step, entry_trace, max_payload,
    name_column, naming_rids, new_columns, new_entries, new_page_size, new_table, rows_about,
    system_table, with_its_schema, with_new_table, CatalogEntry};
use crate::sql::eval::{as_stored, base_type, data_size, declared_length, fields_to, is_row_type,
    law_row_round_trip, lemma_values_to_len, list_columns, row_fields, row_size, row_values,
    stored_value};
use crate::sql::query::{decoded, factor_table, filtered, found_table, law_scan_is_the_table,
    law_scan_needs_readable_pages, picked, projected, query_result, scanned, searched, selected};
use crate::sql::types::{ResultModel, ResultSet, TableName, ValueModel};
use crate::storage::heap::{all_rows, fresh_room, page_sound, readable, HeapModel, Rid};
use crate::storage::page::is_live;
use crate::storage::table_file::{heap_ok, law_removed_row_is_gone, law_removing_keeps_the_table,
    law_replaced_row_is_read_back, law_stored_row_is_read_back, law_storing_keeps_the_table};
use crate::storage::tablespace::{empty_heap, find_space, frames_of, lemma_find_table,
    lemma_with_heap, lemma_with_table, lemma_without_table, no_table, stores_kept, TsmModel};
use crate::text::uppercase;

verus! {

/// The row at an address of a table.
pub open spec fn row_of(t: TsmModel, name: TableName, rid: Rid) -> Option<Seq<u8>> {
    t.heap(name.schema, name.table).row(rid)
}

/// Whether every page of a table can be read.
pub open spec fn table_readable(t: TsmModel, name: TableName) -> bool {
    readable(t.heap(name.schema, name.table))
}

/// Whether all tables but one are as they were, and the same tables are there.
pub open spec fn same_elsewhere(t: TsmModel, t2: TsmModel, name: TableName) -> bool {
    &&& stores_kept(t, t2)
    &&& forall|s: Seq<char>, n: Seq<char>|
        #![trigger t2.has(s, n)]
        #![trigger t2.heap(s, n)]
        {
            &&& t2.has(s, n) == t.has(s, n)
            &&& (s != name.schema || n != name.table) && t.has(s, n) ==> t2.heap(s, n) == t.heap(
                s,
                n,
            )
        }
}

/// Whether a table has some new rows at some addresses, and is otherwise as it was.
pub open spec fn rows_added(
    t: TsmModel,
    t2: TsmModel,
    name: TableName,
    rids: Seq<Rid>,
    rows: Seq<Seq<u8>>,
) -> bool {
    &&& rids.len() == rows.len()
    &&& rids.no_duplicates()
    &&& forall|i: int|
        0 <= i < rids.len() ==> row_of(t, name, #[trigger] rids[i]) is None && row_of(
            t2,
            name,
            rids[i],
        ) == Some(rows[i])
    &&& forall|other: Rid|
        !rids.contains(other) ==> #[trigger] row_of(t2, name, other) == row_of(t, name, other)
}

/// Setting the pages of a table to sound ones keeps the tables in order.
proof fn lemma_inv_kept(t: TsmModel, t2: TsmModel, name: TableName)
    requires
        t.inv(),
        t.has(name.schema, name.table),
        t2 == t.with_heap(name.schema, name.table, t2.heap(name.schema, name.table)),
        heap_ok(t2.heap(name.schema, name.table)),
    ensures
        t2.inv(),
        same_elsewhere(t, t2, name),
{
    let h2 = t2.heap(name.schema, name.table);
    lemma_find_table(t.tables, name.schema, name.table, 0);
    lemma_with_heap(t, name.schema, name.table, h2);
    let p = t.position(name.schema, name.table);
    assert forall|i: int, j: int|
        0 <= i < t2.tables.len() && 0 <= j < t2.tables.len() && i != j implies !((
    #[trigger] t2.tables[i]).schema == (#[trigger] t2.tables[j]).schema && t2.tables[i].table
        == t2.tables[j].table) by {
        assert(t.tables[i].schema == t2.tables[i].schema && t.tables[i].table
            == t2.tables[i].table);
        assert(t.tables[j].schema == t2.tables[j].schema && t.tables[j].table
            == t2.tables[j].table);
    }
    assert forall|i: int| 0 <= i < t2.tables.len() implies heap_ok(
        (#[trigger] t2.tables[i]).heap,
    ) by {
        if i != p {
            assert(t2.tables[i] == t.tables[i]);
        }
    }
}

proof fn lemma_heap_of(t: TsmModel, name: TableName)
    requires
        t.inv(),
        t.has(name.schema, name.table),
    ensures
        heap_ok(t.heap(name.schema, name.table)),
{
    lemma_find_table(t.tables, name.schema, name.table, 0);
}

// ── INSERT ──

/// The rows of an `INSERT` as bytes.
pub open spec fn prepared_rows(
    rows: Seq<Vec<Expr>>,
    order: Seq<int>,
    cols: Seq<ColumnDef>,
    n: int,
) -> Seq<Seq<u8>> {
    Seq::new(n as nat, |i: int| prepared(rows[i]@, order, cols)->Ok_0)
}

/// What storing one row makes of the tables.
pub proof fn lemma_adds(t: TsmModel, name: TableName, row: Seq<u8>, t2: TsmModel, rid: Rid)
    requires
        t.inv(),
        adds(t, name, row, t2, Ok(rid)),
    ensures
        t2.inv(),
        t.has(name.schema, name.table),
        same_elsewhere(t, t2, name),
        table_readable(t, name) ==> table_readable(t2, name),
        row_of(t, name, rid) is None,
        row_of(t2, name, rid) == Some(row),
        forall|other: Rid|
            other != rid ==> #[trigger] row_of(t2, name, other) == row_of(t, name, other),
{
    let h = t.heap(name.schema, name.table);
    let h2 = t2.heap(name.schema, name.table);
    lemma_heap_of(t, name);
    law_stored_row_is_read_back(h, row, h2, rid);
    law_storing_keeps_the_table(h, row, h2, rid);
    lemma_inv_kept(t, t2, name);
}

/// One more row after some others.
proof fn lemma_one_more(
    t: TsmModel,
    mid: TsmModel,
    t2: TsmModel,
    name: TableName,
    before: Seq<Rid>,
    rows: Seq<Seq<u8>>,
    rid: Rid,
    row: Seq<u8>,
)
    requires
        rows_added(t, mid, name, before, rows),
        row_of(mid, name, rid) is None,
        row_of(t2, name, rid) == Some(row),
        forall|other: Rid|
            other != rid ==> #[trigger] row_of(t2, name, other) == row_of(mid, name, other),
    ensures
        rows_added(t, t2, name, before.push(rid), rows.push(row)),
{
    let rids = before.push(rid);
    let all = rows.push(row);
    assert(!before.contains(rid)) by {
        if before.contains(rid) {
            let i = choose|i: int| 0 <= i < before.len() && before[i] == rid;
            assert(row_of(mid, name, before[i]) == Some(rows[i]));
        }
    }
    assert forall|i: int| 0 <= i < rids.len() implies row_of(t, name, #[trigger] rids[i]) is None
        && row_of(t2, name, rids[i]) == Some(all[i]) by {
        if i < before.len() {
            assert(rids[i] == before[i]);
            assert(before.contains(before[i]));
            assert(row_of(mid, name, before[i]) == Some(rows[i]));
        } else {
            assert(row_of(mid, name, rid) == row_of(t, name, rid));
        }
    }
    assert forall|other: Rid| !rids.contains(other) implies #[trigger] row_of(t2, name, other)
        == row_of(t, name, other) by {
        assert(rids[before.len() as int] == rid);
        assert(!before.contains(other)) by {
            if before.contains(other) {
                let i = choose|i: int| 0 <= i < before.len() && before[i] == other;
                assert(rids[i] == other);
            }
        }
        assert(row_of(mid, name, other) == row_of(t, name, other));
    }
}

proof fn lemma_elsewhere_chain(t: TsmModel, mid: TsmModel, t2: TsmModel, name: TableName)
    requires
        same_elsewhere(t, mid, name),
        same_elsewhere(mid, t2, name),
    ensures
        same_elsewhere(t, t2, name),
{
    assert forall|s: Seq<char>, n: Seq<char>|
        #![trigger t2.has(s, n)]
        #![trigger t2.heap(s, n)]
        {
            &&& t2.has(s, n) == t.has(s, n)
            &&& (s != name.schema || n != name.table) && t.has(s, n) ==> t2.heap(s, n) == t.heap(
                s,
                n,
            )
        } by {
        assert(mid.has(s, n) == t.has(s, n));
        assert(t2.has(s, n) == mid.has(s, n));
    }
}

spec fn store_step(t: TsmModel, t2: TsmModel, name: TableName, row: Seq<u8>) -> bool {
    exists|rid: Rid| #[trigger] adds(t, name, row, t2, Ok(rid))
}

/// Whether the tables went through `states` while some rows were stored.
spec fn store_trace(states: Seq<TsmModel>, name: TableName, rows: Seq<Seq<u8>>) -> bool {
    forall|i: int|
        0 <= i < states.len() - 1 ==> store_step(
            #[trigger] states[i],
            states[i + 1],
            name,
            rows[i],
        )
}

proof fn lemma_store_trace(
    states: Seq<TsmModel>,
    name: TableName,
    rows: Seq<Seq<u8>>,
    n: int,
) -> (rids: Seq<Rid>)
    requires
        0 <= n <= rows.len(),
        states.len() == n + 1,
        store_trace(states, name, rows),
        states[0].inv(),
    ensures
        rows_added(states[0], states[n], name, rids, rows.subrange(0, n)),
        states[n].inv(),
        same_elsewhere(states[0], states[n], name),
        table_readable(states[0], name) ==> table_readable(states[n], name),
    decreases n,
{
    if n == 0 {
        Seq::empty()
    } else {
        let front = states.drop_last();
        assert forall|i: int| 0 <= i < front.len() - 1 implies store_step(
            #[trigger] front[i],
            front[i + 1],
            name,
            rows[i],
        ) by {
            assert(states[i] == front[i] && states[i + 1] == front[i + 1]);
        }
        let before = lemma_store_trace(front, name, rows, n - 1);
        let t = states[0];
        let mid = states[n - 1];
        let t2 = states[n];
        let row = rows[n - 1];
        assert(store_step(states[n - 1], states[n - 1 + 1], name, row));
        let rid = choose|rid: Rid| #[trigger] adds(mid, name, row, t2, Ok(rid));
        lemma_adds(mid, name, row, t2, rid);
        lemma_one_more(t, mid, t2, name, before, rows.subrange(0, n - 1), rid, row);
        assert(rows.subrange(0, n) =~= rows.subrange(0, n - 1).push(row));
        lemma_elsewhere_chain(t, mid, t2, name);
        before.push(rid)
    }
}

/// An `INSERT` adds its rows, each at an address that held none, keeps all other rows of the
/// table at their addresses, and leaves the other tables alone.
pub proof fn law_insert_adds_its_rows(
    t: TsmModel,
    name: TableName,
    rows: Seq<Vec<Expr>>,
    order: Seq<int>,
    cols: Seq<ColumnDef>,
    n: int,
    t2: TsmModel,
)
    requires
        t.inv(),
        0 <= n <= rows.len(),
        insert_run(t, name, rows, order, cols, n, t2),
    ensures
        exists|rids: Seq<Rid>| #[trigger]
            rows_added(t, t2, name, rids, prepared_rows(rows, order, cols, n)),
        t2.inv(),
        same_elsewhere(t, t2, name),
        table_readable(t, name) ==> table_readable(t2, name),
{
    let states = choose|states: Seq<TsmModel>| #[trigger]
        insert_trace(states, name, rows, order, cols) && states.len() == n + 1 && states[0] == t
            && states[n] == t2;
    let bytes = prepared_rows(rows, order, cols, n);
    assert forall|i: int| 0 <= i < states.len() - 1 implies store_step(
        #[trigger] states[i],
        states[i + 1],
        name,
        bytes[i],
    ) by {
        assert(insert_step(states[i], states[i + 1], name, prepared(rows[i]@, order, cols)));
    }
    let rids = lemma_store_trace(states, name, bytes, n);
    assert(bytes.subrange(0, n) =~= bytes);
    assert(rows_added(t, t2, name, rids, bytes));
}

// ── DELETE ──

/// Whether a table has lost the rows at some addresses, and is otherwise as it was.
pub open spec fn rows_gone(
    t: TsmModel,
    t2: TsmModel,
    name: TableName,
    rids: Seq<Rid>,
) -> bool {
    &&& forall|i: int|
        0 <= i < rids.len() ==> row_of(t, name, #[trigger] rids[i]) is Some && row_of(
            t2,
            name,
            rids[i],
        ) is None
    &&& forall|other: Rid|
        !rids.contains(other) ==> #[trigger] row_of(t2, name, other) == row_of(t, name, other)
}

#[verifier::rlimit(60)]
proof fn lemma_delete_trace(states: Seq<TsmModel>, name: TableName, rids: Seq<Rid>, n: int)
    requires
        0 <= n <= rids.len(),
        states.len() == n + 1,
        delete_trace(states, name, rids),
        states[0].inv(),
    ensures
        rows_gone(states[0], states[n], name, rids.subrange(0, n)),
        states[n].inv(),
        same_elsewhere(states[0], states[n], name),
        table_readable(states[0], name) ==> table_readable(states[n], name),
    decreases n,
{
    let t = states[0];
    let t2 = states[n];
    if n > 0 {
        let front = states.drop_last();
        assert forall|i: int| 0 <= i < front.len() - 1 implies removes(
            #[trigger] front[i],
            name,
            rids[i],
            front[i + 1],
            Ok(true),
        ) by {
            assert(states[i] == front[i] && states[i + 1] == front[i + 1]);
        }
        lemma_delete_trace(front, name, rids, n - 1);
        let mid = states[n - 1];
        let rid = rids[n - 1];
        assert(removes(states[n - 1], name, rid, states[n - 1 + 1], Ok(true)));
        let h = mid.heap(name.schema, name.table);
        let h2 = t2.heap(name.schema, name.table);
        lemma_heap_of(mid, name);
        law_removed_row_is_gone(h, rid, h2, true);
        law_removing_keeps_the_table(h, rid, h2, true);
        lemma_inv_kept(mid, t2, name);
        assert(mid.has(name.schema, name.table));
        let before = rids.subrange(0, n - 1);
        let now = rids.subrange(0, n);
        assert(row_of(mid, name, rid) is Some);
        assert(!before.contains(rid)) by {
            if before.contains(rid) {
                let i = choose|i: int| 0 <= i < before.len() && before[i] == rid;
                assert(row_of(mid, name, before[i]) is None);
            }
        }
        assert forall|i: int| 0 <= i < now.len() implies row_of(t, name, #[trigger] now[i]) is Some
            && row_of(t2, name, now[i]) is None by {
            if i < n - 1 {
                assert(now[i] == before[i]);
                assert(before.contains(before[i]));
                assert(row_of(mid, name, before[i]) is None);
            } else {
                assert(row_of(mid, name, rid) == row_of(t, name, rid));
            }
        }
        assert forall|other: Rid| !now.contains(other) implies #[trigger] row_of(t2, name, other)
            == row_of(t, name, other) by {
            assert(now[n - 1] == rid);
            assert(!before.contains(other)) by {
                if before.contains(other) {
                    let i = choose|i: int| 0 <= i < before.len() && before[i] == other;
                    assert(now[i] == other);
                }
            }
            assert(row_of(mid, name, other) == row_of(t, name, other));
        }
    }
}

/// Deleting rows takes them away, keeps all other rows of the table at their addresses, and leaves
/// the other tables alone.
pub proof fn law_delete_takes_its_rows(
    t: TsmModel,
    name: TableName,
    rids: Seq<Rid>,
    t2: TsmModel,
)
    requires
        t.inv(),
        delete_run(t, name, rids, t2),
    ensures
        rows_gone(t, t2, name, rids),
        t2.inv(),
        same_elsewhere(t, t2, name),
        table_readable(t, name) ==> table_readable(t2, name),
{
    let n = rids.len() as int;
    let states = choose|states: Seq<TsmModel>| #[trigger]
        delete_trace(states, name, rids) && states.len() == n + 1 && states[0] == t && states[n]
            == t2;
    lemma_delete_trace(states, name, rids, n);
    assert(rids.subrange(0, n) =~= rids);
}

// ── UPDATE ──

/// Whether an address is that of one of the first `n` of some rows.
pub open spec fn listed(changes: Seq<(Rid, Seq<u8>)>, n: int, rid: Rid) -> bool {
    exists|i: int| 0 <= i < n && (#[trigger] changes[i]).0 == rid
}

/// Whether the first `n` of some rows of a table were replaced, are now at the addresses `news`,
/// and the table is otherwise as it was.
pub open spec fn rows_replaced(
    t: TsmModel,
    t2: TsmModel,
    name: TableName,
    changes: Seq<(Rid, Seq<u8>)>,
    news: Seq<Rid>,
    n: int,
) -> bool {
    &&& news.len() == n
    &&& news.no_duplicates()
    &&& forall|i: int|
        0 <= i < n ==> row_of(t2, name, #[trigger] news[i]) == Some(changes[i].1) && (listed(
            changes,
            n,
            news[i],
        ) || row_of(t, name, news[i]) is None)
    &&& forall|other: Rid|
        !news.contains(other) ==> #[trigger] row_of(t2, name, other) == if listed(
            changes,
            n,
            other,
        ) {
            None
        } else {
            row_of(t, name, other)
        }
}

/// Whether some rows with their addresses are rows of a table, none twice.
pub open spec fn changes_at(
    t: TsmModel,
    name: TableName,
    changes: Seq<(Rid, Seq<u8>)>,
) -> bool {
    &&& forall|i: int|
        0 <= i < changes.len() ==> row_of(t, name, (#[trigger] changes[i]).0) is Some
    &&& forall|i: int, j: int|
        0 <= i < j < changes.len() ==> (#[trigger] changes[i]).0 != (#[trigger] changes[j]).0
}

proof fn lemma_replaces(
    t: TsmModel,
    name: TableName,
    rid: Rid,
    row: Seq<u8>,
    t2: TsmModel,
    new_rid: Rid,
)
    requires
        t.inv(),
        replaces(t, name, rid, row, t2, Ok(new_rid)),
    ensures
        t2.inv(),
        t.has(name.schema, name.table),
        same_elsewhere(t, t2, name),
        table_readable(t, name) ==> table_readable(t2, name),
        row_of(t, name, rid) is Some,
        row_of(t2, name, new_rid) == Some(row),
        new_rid != rid ==> row_of(t, name, new_rid) is None && row_of(t2, name, rid) is None,
        forall|other: Rid|
            other != rid && other != new_rid ==> #[trigger] row_of(t2, name, other) == row_of(
                t,
                name,
                other,
            ),
{
    let h = t.heap(name.schema, name.table);
    let h2 = t2.heap(name.schema, name.table);
    lemma_heap_of(t, name);
    law_replaced_row_is_read_back(h, rid, row, h2, new_rid);
    lemma_inv_kept(t, t2, name);
}

/// One more replaced row after some others.
proof fn lemma_one_more_replaced(
    t: TsmModel,
    mid: TsmModel,
    t2: TsmModel,
    name: TableName,
    changes: Seq<(Rid, Seq<u8>)>,
    news: Seq<Rid>,
    n: int,
    new_rid: Rid,
)
    requires
        0 <= n < changes.len(),
        changes_at(t, name, changes),
        rows_replaced(t, mid, name, changes, news, n),
        forall|j: int, k: int|
            0 <= j < n && n <= k < changes.len() ==> #[trigger] news[j] != (
            #[trigger] changes[k]).0,
        row_of(t2, name, new_rid) == Some(changes[n].1),
        new_rid != changes[n].0 ==> row_of(mid, name, new_rid) is None && row_of(
            t2,
            name,
            changes[n].0,
        ) is None,
        forall|other: Rid|
            other != changes[n].0 && other != new_rid ==> #[trigger] row_of(t2, name, other)
                == row_of(mid, name, other),
    ensures
        rows_replaced(t, t2, name, changes, news.push(new_rid), n + 1),
        forall|j: int, k: int|
            0 <= j < n + 1 && n + 1 <= k < changes.len() ==> #[trigger] news.push(new_rid)[j] != (
            #[trigger] changes[k]).0,
{
    let rid = changes[n].0;
    let all = news.push(new_rid);
    // A row that has not been replaced yet is where it was.
    assert forall|k: int| n <= k < changes.len() implies row_of(
        mid,
        name,
        (#[trigger] changes[k]).0,
    ) is Some by {
        let r = changes[k].0;
        assert(!news.contains(r)) by {
            if news.contains(r) {
                let j = choose|j: int| 0 <= j < news.len() && news[j] == r;
                assert(news[j] != changes[k].0);
            }
        }
        assert(!listed(changes, n, r)) by {
            if listed(changes, n, r) {
                let i = choose|i: int| 0 <= i < n && (#[trigger] changes[i]).0 == r;
                assert(changes[i].0 != changes[k].0);
            }
        }
        assert(row_of(mid, name, r) == row_of(t, name, r));
    }
    assert(!news.contains(rid)) by {
        if news.contains(rid) {
            let j = choose|j: int| 0 <= j < news.len() && news[j] == rid;
            assert(news[j] != changes[n].0);
        }
    }
    assert(!news.contains(new_rid)) by {
        if news.contains(new_rid) {
            let j = choose|j: int| 0 <= j < news.len() && news[j] == new_rid;
            assert(row_of(mid, name, news[j]) == Some(changes[j].1));
        }
    }
    assert(listed(changes, n + 1, rid)) by {
        assert(changes[n].0 == rid);
    }
    assert forall|r: Rid| listed(changes, n, r) implies listed(changes, n + 1, r) by {
        let i = choose|i: int| 0 <= i < n && (#[trigger] changes[i]).0 == r;
        assert(changes[i].0 == r);
    }
    assert forall|r: Rid| listed(changes, n + 1, r) && r != rid implies listed(
        changes,
        n,
        r,
    ) by {
        let i = choose|i: int| 0 <= i < n + 1 && (#[trigger] changes[i]).0 == r;
        assert(changes[i].0 == r);
    }
    assert forall|i: int| 0 <= i < n + 1 implies row_of(t2, name, #[trigger] all[i]) == Some(
        changes[i].1,
    ) && (listed(changes, n + 1, all[i]) || row_of(t, name, all[i]) is None) by {
        if i < n {
            assert(all[i] == news[i]);
            assert(news.contains(news[i]));
            assert(row_of(mid, name, news[i]) == Some(changes[i].1));
        } else if new_rid != rid {
            assert(row_of(mid, name, new_rid) == if listed(changes, n, new_rid) {
                None
            } else {
                row_of(t, name, new_rid)
            });
        }
    }
    assert forall|other: Rid| !all.contains(other) implies #[trigger] row_of(t2, name, other)
        == if listed(changes, n + 1, other) {
        None
    } else {
        row_of(t, name, other)
    } by {
        assert(all[n] == new_rid);
        assert(!news.contains(other)) by {
            if news.contains(other) {
                let j = choose|j: int| 0 <= j < news.len() && news[j] == other;
                assert(all[j] == other);
            }
        }
        if other != rid {
            assert(row_of(t2, name, other) == row_of(mid, name, other));
        }
    }
    assert forall|j: int, k: int|
        0 <= j < n + 1 && n + 1 <= k < changes.len() implies #[trigger] all[j] != (
    #[trigger] changes[k]).0 by {
        if j < n {
            assert(all[j] == news[j]);
            assert(news[j] != changes[k].0);
        } else if new_rid == rid {
            assert(changes[n].0 != changes[k].0);
        }
    }
}

/// One more row replaced, after `n` others.
proof fn lemma_update_more(
    t: TsmModel,
    mid: TsmModel,
    t2: TsmModel,
    name: TableName,
    changes: Seq<(Rid, Seq<u8>)>,
    before: Seq<Rid>,
    n: int,
) -> (news: Seq<Rid>)
    requires
        0 <= n < changes.len(),
        changes_at(t, name, changes),
        rows_replaced(t, mid, name, changes, before, n),
        forall|j: int, k: int|
            0 <= j < n && n <= k < changes.len() ==> #[trigger] before[j] != (
            #[trigger] changes[k]).0,
        mid.inv(),
        same_elsewhere(t, mid, name),
        table_readable(t, name) ==> table_readable(mid, name),
        update_step(mid, t2, name, changes[n]),
    ensures
        rows_replaced(t, t2, name, changes, news, n + 1),
        forall|j: int, k: int|
            0 <= j < n + 1 && n + 1 <= k < changes.len() ==> #[trigger] news[j] != (
            #[trigger] changes[k]).0,
        t2.inv(),
        same_elsewhere(t, t2, name),
        table_readable(t, name) ==> table_readable(t2, name),
{
    let change = changes[n];
    let rid = choose|rid: Rid| #[trigger] replaces(mid, name, change.0, change.1, t2, Ok(rid));
    lemma_replaces(mid, name, change.0, change.1, t2, rid);
    lemma_one_more_replaced(t, mid, t2, name, changes, before, n, rid);
    lemma_elsewhere_chain(t, mid, t2, name);
    before.push(rid)
}

proof fn lemma_update_trace(
    states: Seq<TsmModel>,
    name: TableName,
    changes: Seq<(Rid, Seq<u8>)>,
    n: int,
) -> (news: Seq<Rid>)
    requires
        0 <= n <= changes.len(),
        states.len() == n + 1,
        update_trace(states, name, changes),
        states[0].inv(),
        changes_at(states[0], name, changes),
    ensures
        rows_replaced(states[0], states[n], name, changes, news, n),
        forall|j: int, k: int|
            0 <= j < n && n <= k < changes.len() ==> #[trigger] news[j] != (
            #[trigger] changes[k]).0,
        states[n].inv(),
        same_elsewhere(states[0], states[n], name),
        table_readable(states[0], name) ==> table_readable(states[n], name),
    decreases n,
{
    if n == 0 {
        Seq::empty()
    } else {
        let front = states.drop_last();
        assert forall|i: int| 0 <= i < front.len() - 1 implies update_step(
            #[trigger] front[i],
            front[i + 1],
            name,
            changes[i],
        ) by {
            assert(states[i] == front[i] && states[i + 1] == front[i + 1]);
        }
        let before = lemma_update_trace(front, name, changes, n - 1);
        assert(update_step(states[n - 1], states[n - 1 + 1], name, changes[n - 1]));
        lemma_update_more(states[0], states[n - 1], states[n], name, changes, before, n - 1)
    }
}

/// An `UPDATE` replaces its rows: each new row is in the table, at an address of its own; the old
/// rows are gone; all other rows of the table stay at their addresses; and the other tables are
/// left alone.
pub proof fn law_update_replaces_its_rows(
    t: TsmModel,
    name: TableName,
    changes: Seq<(Rid, Seq<u8>)>,
    n: int,
    t2: TsmModel,
)
    requires
        t.inv(),
        0 <= n <= changes.len(),
        changes_at(t, name, changes),
        update_run(t, name, changes, n, t2),
    ensures
        exists|news: Seq<Rid>| #[trigger] rows_replaced(t, t2, name, changes, news, n),
        t2.inv(),
        same_elsewhere(t, t2, name),
        table_readable(t, name) ==> table_readable(t2, name),
{
    let states = choose|states: Seq<TsmModel>| #[trigger]
        update_trace(states, name, changes) && states.len() == n + 1 && states[0] == t && states[n]
            == t2;
    let news = lemma_update_trace(states, name, changes, n);
    assert(rows_replaced(t, t2, name, changes, news, n));
}

// ── What a query shows of a table ──

/// Whether a query asks for all columns and all rows of a table.
pub open spec fn is_star(
    q: QueryBody,
    c: CacheModel,
    name: TableName,
    cols: Seq<ColumnDef>,
) -> bool {
    match q {
        QueryBody::Select(s) => {
            &&& s.from@.len() == 1
            &&& s.from@[0].joins == 0
            &&& found_table(factor_table(s.from@[0].relation, c), c) == Ok::<
                (TableName, Seq<ColumnDef>),
                ErrorModel,
            >((name, cols))
            &&& s.projection@ == seq![SelectItem::Wildcard]
            &&& s.selection is None
        },
        _ => false,
    }
}

/// The values of a row of a table.
pub open spec fn shown_row(bytes: Seq<u8>, cols: Seq<ColumnDef>) -> Seq<ValueModel> {
    row_values(bytes, cols)->Ok_0
}

/// All rows can be read if each can, and then they are shown in their order.
pub proof fn lemma_decoded(raw: Seq<(Rid, Seq<u8>)>, cols: Seq<ColumnDef>, n: int)
    requires
        0 <= n <= raw.len(),
    ensures
        decoded(raw, cols, n) is Ok <==> forall|k: int|
            0 <= k < n ==> row_values((#[trigger] raw[k]).1, cols) is Ok,
        decoded(raw, cols, n) is Ok ==> decoded(raw, cols, n)->Ok_0 == Seq::new(
            n as nat,
            |k: int| shown_row(raw[k].1, cols),
        ),
    decreases n,
{
    if n > 0 {
        lemma_decoded(raw, cols, n - 1);
        if decoded(raw, cols, n) is Ok {
            assert(decoded(raw, cols, n)->Ok_0 =~= Seq::new(
                n as nat,
                |k: int| shown_row(raw[k].1, cols),
            ));
        } else {
            assert(row_values(raw[n - 1].1, cols) is Err || decoded(raw, cols, n - 1) is Err);
        }
    } else {
        assert(decoded(raw, cols, n)->Ok_0 =~= Seq::new(
            n as nat,
            |k: int| shown_row(raw[k].1, cols),
        ));
    }
}

proof fn lemma_filtered_all(rows: Seq<Seq<ValueModel>>, names: Seq<Seq<char>>, n: int)
    requires
        0 <= n <= rows.len(),
    ensures
        filtered(rows, None, names, n) == Ok::<Seq<Seq<ValueModel>>, ErrorModel>(
            rows.subrange(0, n),
        ),
    decreases n,
{
    if n > 0 {
        lemma_filtered_all(rows, names, n - 1);
        assert(rows.subrange(0, n) =~= rows.subrange(0, n - 1).push(rows[n - 1]));
    } else {
        assert(rows.subrange(0, 0) =~= Seq::empty());
    }
}

/// A query for all columns and rows shows every row of the table, in the order of a scan, and
/// nothing else.
pub proof fn law_star_shows_every_row(
    q: QueryBody,
    c: CacheModel,
    t: TsmModel,
    name: TableName,
    cols: Seq<ColumnDef>,
)
    requires
        is_star(q, c, name, cols),
        scanned(t, name) is Ok,
    ensures
        ({
            let raw = scanned(t, name)->Ok_0;
            &&& query_result(q, c, t) is Ok <==> forall|k: int|
                0 <= k < raw.len() ==> row_values((#[trigger] raw[k]).1, cols) is Ok
            &&& query_result(q, c, t) is Ok ==> query_result(q, c, t)->Ok_0 == (ResultModel {
                columns: column_names(cols),
                rows: Seq::new(raw.len(), |k: int| shown_row(raw[k].1, cols)),
            })
        }),
{
    let s = q->Select_0;
    let raw = scanned(t, name)->Ok_0;
    let names = column_names(cols);
    let n = raw.len() as int;
    lemma_decoded(raw, cols, n);
    reveal_with_fuel(list_columns, 2);
    let at = Seq::new(names.len(), |i: int| i);
    assert(Seq::<Seq<char>>::empty() + names =~= names);
    assert(Seq::<int>::empty() + at =~= at);
    assert(list_columns(s.projection@, names, 1) == Ok::<(Seq<Seq<char>>, Seq<int>), ErrorModel>(
        (names, at),
    ));
    if decoded(raw, cols, n) is Ok {
        let rows = decoded(raw, cols, n)->Ok_0;
        lemma_filtered_all(rows, names, rows.len() as int);
        assert(rows.subrange(0, rows.len() as int) =~= rows);
        assert forall|k: int| 0 <= k < rows.len() implies picked(#[trigger] rows[k], at)
            == rows[k] by {
            assert(row_values(raw[k].1, cols) is Ok);
            lemma_values_to_len(raw[k].1, cols, cols.len() as int);
            assert(picked(rows[k], at) =~= rows[k]);
        }
        assert(projected(rows, at) =~= rows);
    }
}

proof fn lemma_list_len(items: Seq<SelectItem>, names: Seq<Seq<char>>, n: int)
    requires
        list_columns(items, names, n) is Ok,
    ensures
        list_columns(items, names, n)->Ok_0.0.len() == list_columns(items, names, n)->Ok_0.1.len(),
    decreases n,
{
    if n > 0 {
        lemma_list_len(items, names, n - 1);
    }
}

/// Every row that a query gives has a value for each of its columns, so that it can be shown.
pub proof fn law_query_rows_have_all_columns(q: QueryBody, c: CacheModel, t: TsmModel)
    requires
        query_result(q, c, t) is Ok,
    ensures
        forall|k: int|
            0 <= k < query_result(q, c, t)->Ok_0.rows.len() ==> (#[trigger] query_result(
                q,
                c,
                t,
            )->Ok_0.rows[k]).len() == query_result(q, c, t)->Ok_0.columns.len(),
{
    let s = q->Select_0;
    let (name, cols) = found_table(factor_table(s.from@[0].relation, c), c)->Ok_0;
    lemma_list_len(s.projection@, column_names(cols), s.projection@.len() as int);
}

// ── SELECT after INSERT ──

/// A row of a table has less than 64 KiB.
proof fn lemma_row_len(h: HeapModel, rid: Rid)
    requires
        heap_ok(h),
        h.row(rid) is Some,
    ensures
        h.row(rid)->0.len() <= 0xffff,
{
    let p = rid.page_id as int;
    assert(page_sound(h.pages[p], p));
    assert(is_live(h.pages[p], rid.slot as int));
}

/// The pairs of some addresses and rows.
spec fn pairs(rids: Seq<Rid>, rows: Seq<Seq<u8>>) -> Seq<(Rid, Seq<u8>)> {
    Seq::new(rids.len(), |i: int| (rids[i], rows[i]))
}

/// A scan after some rows were added lists what it listed before, and the new rows.
proof fn lemma_scan_added(
    t: TsmModel,
    t2: TsmModel,
    name: TableName,
    rids: Seq<Rid>,
    rows: Seq<Seq<u8>>,
)
    requires
        t.inv(),
        t2.inv(),
        scanned(t, name) is Ok,
        scanned(t2, name) is Ok,
        rows_added(t, t2, name, rids, rows),
    ensures
        ({
            let raw = scanned(t, name)->Ok_0;
            let raw2 = scanned(t2, name)->Ok_0;
            &&& forall|x: (Rid, Seq<u8>)| #[trigger]
                raw2.contains(x) <==> raw.contains(x) || pairs(rids, rows).contains(x)
            &&& raw2.len() == raw.len() + rows.len()
        }),
{
    let raw = scanned(t, name)->Ok_0;
    let raw2 = scanned(t2, name)->Ok_0;
    let more = pairs(rids, rows);
    law_scan_is_the_table(t, name);
    law_scan_is_the_table(t2, name);
    assert forall|x: (Rid, Seq<u8>)| #[trigger] raw2.contains(x) <==> raw.contains(x)
        || more.contains(x) by {
        let (rid, row) = x;
        assert(raw2.contains((rid, row)) <==> row_of(t2, name, rid) == Some(row));
        assert(raw.contains((rid, row)) <==> row_of(t, name, rid) == Some(row));
        if rids.contains(rid) {
            let i = choose|i: int| 0 <= i < rids.len() && rids[i] == rid;
            assert(row_of(t, name, rids[i]) is None);
            assert(more[i] == (rid, rows[i]));
            if more.contains(x) {
                let j = choose|j: int| 0 <= j < more.len() && more[j] == x;
                assert(rids[j] == rid);
                assert(i == j);
            }
        } else {
            if more.contains(x) {
                let j = choose|j: int| 0 <= j < more.len() && more[j] == x;
                assert(rids[j] == rid);
                assert(rids.contains(rid));
            }
        }
    }
    assert forall|i: int, j: int| 0 <= i < raw.len() && 0 <= j < raw.len() && i != j implies raw[i]
        != raw[j] by {
        if i < j {
            assert(raw[i].0 != raw[j].0);
        } else {
            assert(raw[j].0 != raw[i].0);
        }
    }
    assert forall|i: int, j: int|
        0 <= i < raw2.len() && 0 <= j < raw2.len() && i != j implies raw2[i] != raw2[j] by {
        if i < j {
            assert(raw2[i].0 != raw2[j].0);
        } else {
            assert(raw2[j].0 != raw2[i].0);
        }
    }
    assert forall|i: int, j: int|
        0 <= i < more.len() && 0 <= j < more.len() && i != j implies more[i] != more[j] by {
        assert(rids[i] != rids[j]);
    }
    raw.unique_seq_to_set();
    raw2.unique_seq_to_set();
    more.unique_seq_to_set();
    let a = raw.to_set();
    let b = more.to_set();
    assert(raw2.to_set() =~= a + b) by {
        assert forall|x: (Rid, Seq<u8>)| raw2.to_set().contains(x) <==> (a + b).contains(x) by {
            assert(raw2.contains(x) <==> raw.contains(x) || more.contains(x));
        }
    }
    assert(a.disjoint(b)) by {
        assert forall|x: (Rid, Seq<u8>)| !(a.contains(x) && b.contains(x)) by {
            if raw.contains(x) && more.contains(x) {
                let i = choose|i: int| 0 <= i < more.len() && more[i] == x;
                assert(row_of(t, name, rids[i]) is None);
                assert(raw.contains((x.0, x.1)));
            }
        }
    }
    vstd::set_lib::lemma_set_disjoint_lens(a, b);
}

/// The row that a row of an `INSERT` becomes in the table: each value in the type of its column.
pub open spec fn inserted_row(exprs: Seq<Expr>, order: Seq<int>, cols: Seq<ColumnDef>) -> Seq<
    ValueModel,
> {
    let row = assembled(exprs, order, cols.len(), order.len() as int)->Ok_0;
    Seq::new(cols.len(), |i: int| as_stored(row[i], cols[i]))
}

/// The positions that an `INSERT` lists are those of columns.
proof fn lemma_order(list: Seq<String>, names: Seq<Seq<char>>, n: int)
    requires
        n <= list.len(),
        listed_at(list, names, n) is Ok,
    ensures
        forall|k: int|
            0 <= k < listed_at(list, names, n)->Ok_0.len() ==> 0 <= #[trigger] listed_at(
                list,
                names,
                n,
            )->Ok_0[k] < names.len(),
    decreases n,
{
    if n > 0 {
        lemma_order(list, names, n - 1);
        lemma_index_of(names, uppercase(list[n - 1]@));
    }
}

proof fn lemma_assembled_len(exprs: Seq<Expr>, order: Seq<int>, width: nat, k: int)
    requires
        assembled(exprs, order, width, k) is Ok,
        k <= order.len(),
        forall|i: int| 0 <= i < order.len() ==> 0 <= #[trigger] order[i] < width,
    ensures
        assembled(exprs, order, width, k)->Ok_0.len() == width,
    decreases k,
{
    if k > 0 {
        lemma_assembled_len(exprs, order, width, k - 1);
    }
}

proof fn lemma_inserted_rows_are_selected(
    t: TsmModel,
    name: TableName,
    rows: Seq<Vec<Expr>>,
    order: Seq<int>,
    cols: Seq<ColumnDef>,
    t2: TsmModel,
    q: QueryBody,
    c: CacheModel,
)
    requires
        t.inv(),
        insert_run(t, name, rows, order, cols, rows.len() as int, t2),
        forall|i: int| 0 <= i < order.len() ==> 0 <= #[trigger] order[i] < cols.len(),
        is_star(q, c, name, cols),
        query_result(q, c, t) is Ok,
    ensures
        query_result(q, c, t2) is Ok,
        query_result(q, c, t2)->Ok_0.columns == query_result(q, c, t)->Ok_0.columns,
        query_result(q, c, t2)->Ok_0.rows.len() == query_result(q, c, t)->Ok_0.rows.len()
            + rows.len(),
        forall|row: Seq<ValueModel>|
            query_result(q, c, t)->Ok_0.rows.contains(row) ==> #[trigger] query_result(
                q,
                c,
                t2,
            )->Ok_0.rows.contains(row),
        forall|i: int|
            0 <= i < rows.len() ==> query_result(q, c, t2)->Ok_0.rows.contains(
                inserted_row((#[trigger] rows[i])@, order, cols),
            ),
{
    let n = rows.len() as int;
    let bytes = prepared_rows(rows, order, cols, n);
    law_insert_adds_its_rows(t, name, rows, order, cols, n, t2);
    let rids = choose|rids: Seq<Rid>| #[trigger] rows_added(t, t2, name, rids, bytes);
    law_scan_needs_readable_pages(t, name);
    assert(t2.has(name.schema, name.table) == t.has(name.schema, name.table));
    law_scan_needs_readable_pages(t2, name);
    lemma_heap_of(t2, name);
    lemma_scan_added(t, t2, name, rids, bytes);
    law_star_shows_every_row(q, c, t, name, cols);
    law_star_shows_every_row(q, c, t2, name, cols);
    let raw = scanned(t, name)->Ok_0;
    let raw2 = scanned(t2, name)->Ok_0;
    let more = pairs(rids, bytes);
    // Each inserted row is read back.
    assert forall|i: int| 0 <= i < n implies {
        &&& row_values(#[trigger] bytes[i], cols) is Ok
        &&& shown_row(bytes[i], cols) == inserted_row(rows[i]@, order, cols)
    } by {
        lemma_prepared_ok(t, name, rows, order, cols, n, t2, i);
        let row = assembled(rows[i]@, order, cols.len(), order.len() as int)->Ok_0;
        lemma_assembled_len(rows[i]@, order, cols.len(), order.len() as int);
        assert(row_of(t2, name, rids[i]) == Some(bytes[i]));
        lemma_row_len(t2.heap(name.schema, name.table), rids[i]);
        law_row_round_trip(row, cols);
    }
    assert forall|k: int| 0 <= k < raw2.len() implies row_values(
        (#[trigger] raw2[k]).1,
        cols,
    ) is Ok by {
        assert(raw2.contains(raw2[k]));
        if raw.contains(raw2[k]) {
            let j = choose|j: int| 0 <= j < raw.len() && raw[j] == raw2[k];
            assert(row_values(raw[j].1, cols) is Ok);
        } else {
            let j = choose|j: int| 0 <= j < more.len() && more[j] == raw2[k];
            assert(row_values(bytes[j], cols) is Ok);
        }
    }
    let shown = query_result(q, c, t)->Ok_0.rows;
    let shown2 = query_result(q, c, t2)->Ok_0.rows;
    assert forall|row: Seq<ValueModel>| shown.contains(row) implies #[trigger] shown2.contains(
        row,
    ) by {
        let k = choose|k: int| 0 <= k < shown.len() && shown[k] == row;
        assert(raw.contains(raw[k]));
        assert(raw2.contains(raw[k]));
        let j = choose|j: int| 0 <= j < raw2.len() && raw2[j] == raw[k];
        assert(shown2[j] == row);
    }
    assert forall|i: int| 0 <= i < rows.len() implies shown2.contains(
        inserted_row((#[trigger] rows[i])@, order, cols),
    ) by {
        assert(more[i] == (rids[i], bytes[i]));
        assert(more.contains(more[i]));
        assert(raw2.contains(more[i]));
        let j = choose|j: int| 0 <= j < raw2.len() && raw2[j] == more[i];
        assert(shown_row(bytes[i], cols) == inserted_row(rows[i]@, order, cols));
        assert(shown2[j] == inserted_row(rows[i]@, order, cols));
    }
}

proof fn lemma_prepared_ok(
    t: TsmModel,
    name: TableName,
    rows: Seq<Vec<Expr>>,
    order: Seq<int>,
    cols: Seq<ColumnDef>,
    n: int,
    t2: TsmModel,
    i: int,
)
    requires
        0 <= i < n,
        insert_run(t, name, rows, order, cols, n, t2),
    ensures
        prepared(rows[i]@, order, cols) is Ok,
{
    let states = choose|states: Seq<TsmModel>| #[trigger]
        insert_trace(states, name, rows, order, cols) && states.len() == n + 1 && states[0] == t
            && states[n] == t2;
    assert(insert_step(states[i], states[i + 1], name, prepared(rows[i]@, order, cols)));
}

/// After an `INSERT`, a query for all columns and rows succeeds if it did before, and shows all
/// rows that it showed before and each inserted row, with its values in the types of the columns;
/// these are as many rows more as were inserted.
pub proof fn law_inserted_rows_are_selected(
    i: Insert,
    c: CacheModel,
    t: TsmModel,
    t2: TsmModel,
    disk: Seq<nat>,
    r: DbResult<ResultSet>,
    rows: Vec<Vec<Expr>>,
    name: TableName,
    cols: Seq<ColumnDef>,
    q: QueryBody,
)
    requires
        t.inv(),
        insert_outcome(i, c, t, t2, disk, r),
        r is Ok,
        i.source == Some(QueryBody::Values(rows)),
        found_table(insert_table(i, c), c) == Ok::<(TableName, Seq<ColumnDef>), ErrorModel>(
            (name, cols),
        ),
        is_star(q, c, name, cols),
        query_result(q, c, t) is Ok,
    ensures
        query_result(q, c, t2) is Ok,
        query_result(q, c, t2)->Ok_0.columns == query_result(q, c, t)->Ok_0.columns,
        query_result(q, c, t2)->Ok_0.rows.len() == query_result(q, c, t)->Ok_0.rows.len()
            + rows@.len(),
        forall|row: Seq<ValueModel>|
            query_result(q, c, t)->Ok_0.rows.contains(row) ==> #[trigger] query_result(
                q,
                c,
                t2,
            )->Ok_0.rows.contains(row),
        forall|k: int|
            0 <= k < rows@.len() ==> query_result(q, c, t2)->Ok_0.rows.contains(
                inserted_row(
                    (#[trigger] rows@[k])@,
                    insert_order(i.columns@, column_names(cols))->Ok_0,
                    cols,
                ),
            ),
{
    let names = column_names(cols);
    let order = insert_order(i.columns@, names)->Ok_0;
    if i.columns@.len() > 0 {
        lemma_order(i.columns@, names, i.columns@.len() as int);
    }
    lemma_inserted_rows_are_selected(t, name, rows@, order, cols, t2, q, c);
}

// ── SELECT after DELETE ──

proof fn lemma_chosen(
    raw: Seq<(Rid, Seq<u8>)>,
    cols: Seq<ColumnDef>,
    selection: Option<Expr>,
    n: int,
)
    requires
        0 <= n <= raw.len(),
        chosen_rids(raw, cols, selection, n) is Ok,
    ensures
        forall|k: int| 0 <= k < n ==> row_chosen((#[trigger] raw[k]).1, cols, selection) is Ok,
        forall|k: int|
            0 <= k < n && row_chosen((#[trigger] raw[k]).1, cols, selection)->Ok_0 is Some
                ==> chosen_rids(raw, cols, selection, n)->Ok_0.contains(raw[k].0),
        forall|i: int|
            0 <= i < chosen_rids(raw, cols, selection, n)->Ok_0.len() ==> exists|k: int|
                0 <= k < n && (#[trigger] raw[k]).0 == #[trigger] chosen_rids(
                    raw,
                    cols,
                    selection,
                    n,
                )->Ok_0[i] && row_chosen(raw[k].1, cols, selection)->Ok_0 is Some,
    decreases n,
{
    if n > 0 {
        lemma_chosen(raw, cols, selection, n - 1);
        let before = chosen_rids(raw, cols, selection, n - 1)->Ok_0;
        let now = chosen_rids(raw, cols, selection, n)->Ok_0;
        let last = row_chosen(raw[n - 1].1, cols, selection);
        assert forall|k: int|
            0 <= k < n && row_chosen((#[trigger] raw[k]).1, cols, selection)->Ok_0 is Some implies
            now.contains(raw[k].0) by {
            if k < n - 1 {
                let i = choose|i: int| 0 <= i < before.len() && before[i] == raw[k].0;
                assert(now[i] == raw[k].0);
            } else {
                assert(now[before.len() as int] == raw[k].0);
            }
        }
        assert forall|i: int| 0 <= i < now.len() implies exists|k: int|
            0 <= k < n && (#[trigger] raw[k]).0 == #[trigger] now[i] && row_chosen(
                raw[k].1,
                cols,
                selection,
            )->Ok_0 is Some by {
            if i < before.len() {
                assert(now[i] == before[i]);
                let k = choose|k: int|
                    0 <= k < n - 1 && (#[trigger] raw[k]).0 == before[i] && row_chosen(
                        raw[k].1,
                        cols,
                        selection,
                    )->Ok_0 is Some;
                assert(raw[k].0 == now[i]);
            } else {
                assert(raw[n - 1].0 == now[i]);
            }
        }
    }
}

/// After a `DELETE`, the table has exactly those of its rows, at their addresses, that do not meet
/// the condition, and the other tables are as they were.
pub proof fn law_deleted_rows_are_gone(
    d: Delete,
    c: CacheModel,
    t: TsmModel,
    t2: TsmModel,
    r: DbResult<ResultSet>,
    name: TableName,
    cols: Seq<ColumnDef>,
)
    requires
        t.inv(),
        delete_outcome(d, c, t, t2, r),
        r is Ok,
        found_table(factor_table(d.from@[0].relation, c), c) == Ok::<
            (TableName, Seq<ColumnDef>),
            ErrorModel,
        >((name, cols)),
    ensures
        scanned(t, name) is Ok,
        scanned(t2, name) is Ok,
        forall|rid: Rid, row: Seq<u8>| #[trigger]
            scanned(t2, name)->Ok_0.contains((rid, row)) <==> {
                &&& scanned(t, name)->Ok_0.contains((rid, row))
                &&& row_chosen(row, cols, d.selection) == Ok::<
                    Option<Seq<ValueModel>>,
                    ErrorModel,
                >(None)
            },
        t2.inv(),
        same_elsewhere(t, t2, name),
{
    let raw = scanned(t, name)->Ok_0;
    let n = raw.len() as int;
    let rids = delete_plan(d, c, t)->Ok_0.1;
    law_delete_takes_its_rows(t, name, rids, t2);
    law_scan_is_the_table(t, name);
    law_scan_needs_readable_pages(t, name);
    assert(t2.has(name.schema, name.table) == t.has(name.schema, name.table));
    law_scan_needs_readable_pages(t2, name);
    law_scan_is_the_table(t2, name);
    let raw2 = scanned(t2, name)->Ok_0;
    lemma_chosen(raw, cols, d.selection, n);
    assert forall|rid: Rid, row: Seq<u8>| #[trigger] raw2.contains((rid, row)) <==> {
        &&& raw.contains((rid, row))
        &&& row_chosen(row, cols, d.selection) == Ok::<Option<Seq<ValueModel>>, ErrorModel>(None)
    } by {
        assert(raw2.contains((rid, row)) <==> row_of(t2, name, rid) == Some(row));
        assert(raw.contains((rid, row)) <==> row_of(t, name, rid) == Some(row));
        if rids.contains(rid) {
            let i = choose|i: int| 0 <= i < rids.len() && rids[i] == rid;
            assert(row_of(t2, name, rids[i]) is None);
            let k = choose|k: int|
                0 <= k < n && (#[trigger] raw[k]).0 == rids[i] && row_chosen(
                    raw[k].1,
                    cols,
                    d.selection,
                )->Ok_0 is Some;
            assert(row_of(t, name, raw[k].0) == Some(raw[k].1));
        } else {
            assert(row_of(t2, name, rid) == row_of(t, name, rid));
            if raw.contains((rid, row)) {
                let k = choose|k: int| 0 <= k < raw.len() && raw[k] == (rid, row);
                assert(row_chosen(raw[k].1, cols, d.selection) is Ok);
            }
        }
    }
}

// ── SELECT after UPDATE ──

/// Whether a row of a table, chosen by the condition of an `UPDATE`, becomes `b`.
pub open spec fn becomes(
    row: Seq<u8>,
    b: Seq<u8>,
    u: Update,
    at: Seq<int>,
    cols: Seq<ColumnDef>,
) -> bool {
    match row_chosen(row, cols, u.selection) {
        Ok(Some(v)) => changed_row(v, u.assignments@, at, cols) == Ok::<Seq<u8>, ErrorModel>(b),
        _ => false,
    }
}

/// Whether the condition of an `UPDATE` leaves a row out.
pub open spec fn left_out(row: Seq<u8>, u: Update, cols: Seq<ColumnDef>) -> bool {
    row_chosen(row, cols, u.selection) == Ok::<Option<Seq<ValueModel>>, ErrorModel>(None)
}

spec fn changes_of(
    raw: Seq<(Rid, Seq<u8>)>,
    cols: Seq<ColumnDef>,
    u: Update,
    at: Seq<int>,
    n: int,
) -> Result<Seq<(Rid, Seq<u8>)>, ErrorModel> {
    changes_to(raw, cols, u.selection, u.assignments@, at, n)
}

/// Where a change comes from.
spec fn comes_from(
    change: (Rid, Seq<u8>),
    raw: Seq<(Rid, Seq<u8>)>,
    cols: Seq<ColumnDef>,
    u: Update,
    at: Seq<int>,
    k: int,
) -> bool {
    raw[k].0 == change.0 && becomes(raw[k].1, change.1, u, at, cols)
}

/// Whether a change comes from one of the first `n` rows.
spec fn has_origin(
    change: (Rid, Seq<u8>),
    raw: Seq<(Rid, Seq<u8>)>,
    cols: Seq<ColumnDef>,
    u: Update,
    at: Seq<int>,
    n: int,
) -> bool {
    exists|k: int| 0 <= k < n && #[trigger] comes_from(change, raw, cols, u, at, k)
}

proof fn lemma_changes(
    raw: Seq<(Rid, Seq<u8>)>,
    cols: Seq<ColumnDef>,
    u: Update,
    at: Seq<int>,
    n: int,
)
    requires
        0 <= n <= raw.len(),
        changes_of(raw, cols, u, at, n) is Ok,
        forall|i: int, j: int|
            0 <= i < j < raw.len() ==> (#[trigger] raw[i]).0 != (#[trigger] raw[j]).0,
    ensures
        ({
            let changes = changes_of(raw, cols, u, at, n)->Ok_0;
            &&& forall|k: int|
                0 <= k < n ==> left_out((#[trigger] raw[k]).1, u, cols) != listed(
                    changes,
                    changes.len() as int,
                    raw[k].0,
                )
            &&& forall|i: int|
                0 <= i < changes.len() ==> has_origin(#[trigger] changes[i], raw, cols, u, at, n)
            &&& forall|i: int, j: int|
                0 <= i < j < changes.len() ==> (#[trigger] changes[i]).0 != (
                #[trigger] changes[j]).0
        }),
    decreases n,
{
    let changes = changes_of(raw, cols, u, at, n)->Ok_0;
    if n > 0 {
        lemma_changes(raw, cols, u, at, n - 1);
        let before = changes_of(raw, cols, u, at, n - 1)->Ok_0;
        let chosen = row_chosen(raw[n - 1].1, cols, u.selection)->Ok_0;
        assert forall|i: int| 0 <= i < before.len() implies (#[trigger] before[i]).0 != raw[n
            - 1].0 && changes[i] == before[i] by {
            assert(has_origin(before[i], raw, cols, u, at, n - 1));
            let k = choose|k: int|
                0 <= k < n - 1 && #[trigger] comes_from(before[i], raw, cols, u, at, k);
            assert(raw[k].0 != raw[n - 1].0);
        }
        assert forall|i: int| 0 <= i < changes.len() implies has_origin(
            #[trigger] changes[i],
            raw,
            cols,
            u,
            at,
            n,
        ) by {
            if i < before.len() {
                assert(changes[i] == before[i]);
                assert(has_origin(before[i], raw, cols, u, at, n - 1));
                let k = choose|k: int|
                    0 <= k < n - 1 && #[trigger] comes_from(before[i], raw, cols, u, at, k);
                assert(comes_from(changes[i], raw, cols, u, at, k));
            } else {
                assert(comes_from(changes[i], raw, cols, u, at, n - 1));
            }
        }
        assert forall|i: int, j: int| 0 <= i < j < changes.len() implies (#[trigger] changes[i]).0
            != (#[trigger] changes[j]).0 by {
            assert(changes[i] == before[i]);
            if j < before.len() {
                assert(changes[j] == before[j]);
            }
        }
        assert forall|k: int| 0 <= k < n implies left_out((#[trigger] raw[k]).1, u, cols)
            != listed(changes, changes.len() as int, raw[k].0) by {
            if k < n - 1 {
                if listed(before, before.len() as int, raw[k].0) {
                    let i = choose|i: int|
                        0 <= i < before.len() && (#[trigger] before[i]).0 == raw[k].0;
                    assert(changes[i].0 == raw[k].0);
                }
                if listed(changes, changes.len() as int, raw[k].0) {
                    let i = choose|i: int|
                        0 <= i < changes.len() && (#[trigger] changes[i]).0 == raw[k].0;
                    assert(raw[k].0 != raw[n - 1].0);
                    assert(before[i].0 == raw[k].0);
                }
            } else if chosen is Some {
                assert(changes[before.len() as int].0 == raw[k].0);
            } else if listed(changes, changes.len() as int, raw[k].0) {
                let i = choose|i: int|
                    0 <= i < changes.len() && (#[trigger] changes[i]).0 == raw[k].0;
                assert(before[i].0 != raw[n - 1].0);
            }
        }
    }
}

/// After an `UPDATE`, the rows that do not meet its condition are where they were, each row that
/// does is replaced by what the assignments make of it, and there is no other row; the other
/// tables are as they were.
pub proof fn law_updated_rows_are_replaced(
    u: Update,
    c: CacheModel,
    t: TsmModel,
    t2: TsmModel,
    disk: Seq<nat>,
    r: DbResult<ResultSet>,
    name: TableName,
    cols: Seq<ColumnDef>,
    at: Seq<int>,
)
    requires
        t.inv(),
        update_outcome(u, c, t, t2, disk, r),
        r is Ok,
        found_table(factor_table(u.table.relation, c), c) == Ok::<
            (TableName, Seq<ColumnDef>),
            ErrorModel,
        >((name, cols)),
        assigned_columns(u.assignments@, column_names(cols), u.assignments@.len() as int) == Ok::<
            Seq<int>,
            ErrorModel,
        >(at),
    ensures
        scanned(t, name) is Ok,
        scanned(t2, name) is Ok,
        forall|rid: Rid, row: Seq<u8>|
            scanned(t, name)->Ok_0.contains((rid, row)) && #[trigger] left_out(row, u, cols)
                ==> #[trigger] scanned(t2, name)->Ok_0.contains((rid, row)),
        forall|rid: Rid, row: Seq<u8>| #[trigger]
            scanned(t, name)->Ok_0.contains((rid, row)) && !left_out(row, u, cols)
                ==> exists|rid2: Rid, b: Seq<u8>| #[trigger]
                scanned(t2, name)->Ok_0.contains((rid2, b)) && becomes(row, b, u, at, cols),
        forall|rid2: Rid, b: Seq<u8>| #[trigger]
            scanned(t2, name)->Ok_0.contains((rid2, b)) ==> (scanned(t, name)->Ok_0.contains(
                (rid2, b),
            ) && left_out(b, u, cols)) || exists|rid: Rid, row: Seq<u8>| #[trigger]
                scanned(t, name)->Ok_0.contains((rid, row)) && becomes(row, b, u, at, cols),
        t2.inv(),
        same_elsewhere(t, t2, name),
{
    let raw = scanned(t, name)->Ok_0;
    let n = raw.len() as int;
    let changes = update_plan(u, c, t)->Ok_0.1;
    let m = changes.len() as int;
    law_scan_is_the_table(t, name);
    lemma_changes(raw, cols, u, at, n);
    assert(changes_at(t, name, changes)) by {
        assert forall|i: int| 0 <= i < changes.len() implies row_of(
            t,
            name,
            (#[trigger] changes[i]).0,
        ) is Some by {
            assert(has_origin(changes[i], raw, cols, u, at, n));
            let k = choose|k: int|
                0 <= k < n && #[trigger] comes_from(changes[i], raw, cols, u, at, k);
            assert(row_of(t, name, raw[k].0) == Some(raw[k].1));
        }
    }
    law_update_replaces_its_rows(t, name, changes, m, t2);
    let news = choose|news: Seq<Rid>| #[trigger] rows_replaced(t, t2, name, changes, news, m);
    law_scan_needs_readable_pages(t, name);
    assert(t2.has(name.schema, name.table) == t.has(name.schema, name.table));
    law_scan_needs_readable_pages(t2, name);
    law_scan_is_the_table(t2, name);
    let raw2 = scanned(t2, name)->Ok_0;
    assert forall|rid: Rid, row: Seq<u8>|
        raw.contains((rid, row)) && #[trigger] left_out(row, u, cols) implies
        #[trigger] raw2.contains((rid, row)) by {
        let k = choose|k: int| 0 <= k < raw.len() && raw[k] == (rid, row);
        assert(!listed(changes, m, raw[k].0));
        assert(row_of(t, name, rid) == Some(row));
        if news.contains(rid) {
            let i = choose|i: int| 0 <= i < news.len() && news[i] == rid;
            assert(listed(changes, m, news[i]) || row_of(t, name, news[i]) is None);
        }
        assert(row_of(t2, name, rid) == row_of(t, name, rid));
    }
    assert forall|rid: Rid, row: Seq<u8>| #[trigger] raw.contains((rid, row)) && !left_out(
        row,
        u,
        cols,
    ) implies exists|rid2: Rid, b: Seq<u8>| #[trigger] raw2.contains((rid2, b)) && becomes(
        row,
        b,
        u,
        at,
        cols,
    ) by {
        let k = choose|k: int| 0 <= k < raw.len() && raw[k] == (rid, row);
        assert(listed(changes, m, raw[k].0));
        let i = choose|i: int| 0 <= i < m && (#[trigger] changes[i]).0 == raw[k].0;
        assert(has_origin(changes[i], raw, cols, u, at, n));
        let j = choose|j: int| 0 <= j < n && #[trigger] comes_from(changes[i], raw, cols, u, at, j);
        assert(raw[j].0 == raw[k].0);
        assert(j == k) by {
            if j < k {
                assert(raw[j].0 != raw[k].0);
            } else if k < j {
                assert(raw[k].0 != raw[j].0);
            }
        }
        assert(row_of(t2, name, news[i]) == Some(changes[i].1));
        assert(raw2.contains((news[i], changes[i].1)));
    }
    assert forall|rid2: Rid, b: Seq<u8>| #[trigger] raw2.contains((rid2, b)) implies (raw.contains(
        (rid2, b),
    ) && left_out(b, u, cols)) || exists|rid: Rid, row: Seq<u8>| #[trigger]
        raw.contains((rid, row)) && becomes(row, b, u, at, cols) by {
        assert(row_of(t2, name, rid2) == Some(b));
        if news.contains(rid2) {
            let i = choose|i: int| 0 <= i < news.len() && news[i] == rid2;
            assert(row_of(t2, name, news[i]) == Some(changes[i].1));
            assert(has_origin(changes[i], raw, cols, u, at, n));
            let k = choose|k: int|
                0 <= k < n && #[trigger] comes_from(changes[i], raw, cols, u, at, k);
            assert(raw.contains((raw[k].0, raw[k].1)));
        } else {
            assert(row_of(t2, name, rid2) == row_of(t, name, rid2));
            assert(raw.contains((rid2, b)));
            let k = choose|k: int| 0 <= k < raw.len() && raw[k] == (rid2, b);
            assert(!listed(changes, m, raw[k].0));
        }
    }
}

// ── SELECT with a condition ──

/// A condition keeps exactly the rows that meet it, in their order.
pub proof fn law_condition_keeps_what_meets_it(
    rows: Seq<Seq<ValueModel>>,
    selection: Option<Expr>,
    names: Seq<Seq<char>>,
    n: int,
)
    requires
        0 <= n <= rows.len(),
        filtered(rows, selection, names, n) is Ok,
    ensures
        forall|k: int|
            0 <= k < n ==> (#[trigger] selected(selection, names, rows[k])) is Ok,
        filtered(rows, selection, names, n)->Ok_0 == rows.subrange(0, n).filter(
            |row: Seq<ValueModel>|
                selected(selection, names, row) == Ok::<bool, ErrorModel>(true),
        ),
    decreases n,
{
    let f = |row: Seq<ValueModel>|
        selected(selection, names, row) == Ok::<bool, ErrorModel>(true);
    reveal(Seq::filter);
    if n > 0 {
        law_condition_keeps_what_meets_it(rows, selection, names, n - 1);
        assert(rows.subrange(0, n).drop_last() =~= rows.subrange(0, n - 1));
        assert(rows.subrange(0, n).last() == rows[n - 1]);
        let kept = filtered(rows, selection, names, n - 1)->Ok_0;
        assert(filtered(rows, selection, names, n)->Ok_0 == if f(rows[n - 1]) {
            kept.push(rows[n - 1])
        } else {
            kept
        });
    } else {
        assert(rows.subrange(0, 0).filter(f) =~= Seq::empty());
    }
}

// ── CREATE TABLE ──

/// After a `CREATE TABLE`, the catalog lists the table with its columns, the table is there and
/// has no rows, and making it once more is refused because it exists.
pub proof fn law_created_table_is_empty(
    ct: CreateTable,
    c: CacheModel,
    t: TsmModel,
    c2: CacheModel,
    t2: TsmModel,
    disk: Seq<nat>,
    r: DbResult<ResultSet>,
    name: TableName,
    cols: Seq<ColumnDef>,
)
    requires
        create_outcome(ct, c, t, c2, t2, disk, r),
        r is Ok,
        create_plan(ct, c) == Ok::<(TableName, Seq<ColumnDef>), ErrorModel>((name, cols)),
    ensures
        c2.table(name.schema, name.table) == Some(new_table(name, cols, c)),
        c2.columns_for(name.schema, name.table) == Some(cols),
        searched(name, c2) == name,
        c2.catalog.schemas.contains(name.schema),
        scanned(t2, name) == Ok::<Seq<(Rid, Seq<u8>)>, ErrorModel>(Seq::empty()),
        create_plan(ct, c2) == Err::<(TableName, Seq<ColumnDef>), ErrorModel>(
            ErrorModel::Sql(
                SqlState::TableAlreadyExists,
                "table "@ + name.schema + "."@ + name.table + " already exists"@,
            ),
        ),
{
    let c1 = with_its_schema(c, name);
    law_registered_schema_is_there(c, name.schema);
    law_registered_table_is_found(c1, new_table(name, cols, c), cols);
    let list = new_entries(name, cols, c);
    let id = c.default_tablespace() as i32;
    let mid = choose|mid: TsmModel| #[trigger]
        entry_run(t, c.config.sys_schema, list, list.len() as int, mid) && t2 == with_new_table(
            mid,
            name,
            id,
        );
    let space = mid.spaces[find_space(mid.spaces, id, 0)];
    let heap = empty_heap(space.page_size as nat, frames_of(mid.pools, space.pool_id));
    lemma_with_table(mid, name.schema, name.table, heap);
    assert(readable(heap));
    law_scan_needs_readable_pages(t2, name);
    assert(all_rows(heap.pages, 0) == Seq::<(Rid, Seq<u8>)>::empty());
}

/// Whether the tables with some rows for the catalog stored have each of the first `n`.
pub open spec fn entries_there(
    t: TsmModel,
    sys: Seq<char>,
    list: Seq<CatalogEntry>,
    n: int,
) -> bool {
    forall|i: int| 0 <= i < n ==> entry_there(t, sys, #[trigger] list[i])
}

/// Whether a table of the catalog has a row.
pub open spec fn entry_there(t: TsmModel, sys: Seq<char>, entry: CatalogEntry) -> bool {
    exists|rid: Rid| #[trigger]
        row_of(t, TableName { schema: sys, table: entry.0 }, rid) == Some(entry.1)
}

proof fn lemma_entry_kept(
    t: TsmModel,
    sys: Seq<char>,
    entry: CatalogEntry,
    added: CatalogEntry,
    t2: TsmModel,
    rid: Rid,
)
    requires
        t.inv(),
        adds(t, TableName { schema: sys, table: added.0 }, added.1, t2, Ok(rid)),
        entry_there(t, sys, entry),
        t.has(sys, entry.0),
    ensures
        entry_there(t2, sys, entry),
{
    let name = TableName { schema: sys, table: entry.0 };
    let other = TableName { schema: sys, table: added.0 };
    lemma_adds(t, other, added.1, t2, rid);
    let at = choose|at: Rid| #[trigger] row_of(t, name, at) == Some(entry.1);
    if entry.0 == added.0 {
        assert(at != rid);
        assert(row_of(t2, other, at) == row_of(t, other, at));
        assert(row_of(t2, name, at) == Some(entry.1));
    } else {
        assert(t2.heap(sys, entry.0) == t.heap(sys, entry.0));
        assert(row_of(t2, name, at) == Some(entry.1));
    }
}

proof fn lemma_entry_more(
    mid: TsmModel,
    sys: Seq<char>,
    list: Seq<CatalogEntry>,
    n: int,
    t2: TsmModel,
    rid: Rid,
)
    requires
        0 < n <= list.len(),
        mid.inv(),
        adds(mid, TableName { schema: sys, table: list[n - 1].0 }, list[n - 1].1, t2, Ok(rid)),
        entries_there(mid, sys, list, n - 1),
        forall|i: int| 0 <= i < n - 1 ==> mid.has(sys, (#[trigger] list[i]).0),
    ensures
        t2.inv(),
        entries_there(t2, sys, list, n),
        forall|i: int| 0 <= i < n ==> t2.has(sys, (#[trigger] list[i]).0),
{
    let added = list[n - 1];
    let name = TableName { schema: sys, table: added.0 };
    lemma_adds(mid, name, added.1, t2, rid);
    assert forall|i: int| 0 <= i < n implies t2.has(sys, (#[trigger] list[i]).0) by {
        if i < n - 1 {
            assert(mid.has(sys, list[i].0));
        }
        assert(t2.has(sys, list[i].0) == mid.has(sys, list[i].0));
    }
    assert forall|i: int| 0 <= i < n implies entry_there(t2, sys, #[trigger] list[i]) by {
        if i < n - 1 {
            assert(entry_there(mid, sys, list[i]));
            assert(mid.has(sys, list[i].0));
            lemma_entry_kept(mid, sys, list[i], added, t2, rid);
        } else {
            assert(row_of(t2, name, rid) == Some(added.1));
        }
    }
}

proof fn lemma_entry_trace(states: Seq<TsmModel>, sys: Seq<char>, list: Seq<CatalogEntry>, n: int)
    requires
        0 <= n <= list.len(),
        states.len() == n + 1,
        entry_trace(states, sys, list),
        states[0].inv(),
    ensures
        states[n].inv(),
        entries_there(states[n], sys, list, n),
        forall|i: int| 0 <= i < n ==> states[n].has(sys, (#[trigger] list[i]).0),
    decreases n,
{
    if n > 0 {
        let front = states.drop_last();
        assert forall|i: int| 0 <= i < front.len() - 1 implies entry_step(
            #[trigger] front[i],
            front[i + 1],
            sys,
            list[i],
        ) by {
            assert(states[i] == front[i] && states[i + 1] == front[i + 1]);
        }
        lemma_entry_trace(front, sys, list, n - 1);
        let mid = states[n - 1];
        let t2 = states[n];
        let added = list[n - 1];
        let name = TableName { schema: sys, table: added.0 };
        assert(entry_step(states[n - 1], states[n - 1 + 1], sys, added));
        let rid = choose|rid: Rid| #[trigger] adds(mid, name, added.1, t2, Ok(rid));
        lemma_entry_more(mid, sys, list, n, t2, rid);
    }
}

/// After a `CREATE TABLE`, the tables of the catalog have the rows about the new table: one for
/// its schema where that is new, one for the table, one for each column.
pub proof fn law_created_table_is_in_the_catalog(
    ct: CreateTable,
    c: CacheModel,
    t: TsmModel,
    c2: CacheModel,
    t2: TsmModel,
    disk: Seq<nat>,
    r: DbResult<ResultSet>,
    name: TableName,
    cols: Seq<ColumnDef>,
)
    requires
        t.inv(),
        create_outcome(ct, c, t, c2, t2, disk, r),
        r is Ok,
        create_plan(ct, c) == Ok::<(TableName, Seq<ColumnDef>), ErrorModel>((name, cols)),
        name.schema == c.config.sys_schema ==> name.table != "SYSSCHEMAS"@ && name.table
            != "SYSTABLES"@ && name.table != "SYSCOLUMNS"@,
    ensures
        entries_there(
            t2,
            c.config.sys_schema,
            new_entries(name, cols, c),
            new_entries(name, cols, c).len() as int,
        ),
{
    let sys = c.config.sys_schema;
    let list = new_entries(name, cols, c);
    let n = list.len() as int;
    let id = c.default_tablespace() as i32;
    let mid = choose|mid: TsmModel| #[trigger]
        entry_run(t, sys, list, n, mid) && t2 == with_new_table(mid, name, id);
    let states = choose|states: Seq<TsmModel>| #[trigger]
        entry_trace(states, sys, list) && states.len() == n + 1 && states[0] == t && states[n]
            == mid;
    lemma_entry_trace(states, sys, list, n);
    let space = mid.spaces[find_space(mid.spaces, id, 0)];
    let heap = empty_heap(space.page_size as nat, frames_of(mid.pools, space.pool_id));
    let bare = mid.with_table(name.schema, name.table, heap);
    lemma_with_table(mid, name.schema, name.table, heap);
    assert(t2.tables == bare.tables);
    assert forall|i: int| 0 <= i < n implies entry_there(t2, sys, #[trigger] list[i]) by {
        let table = TableName { schema: sys, table: list[i].0 };
        assert(entry_there(mid, sys, list[i]));
        assert(mid.has(sys, list[i].0));
        let rid = choose|rid: Rid| #[trigger] row_of(mid, table, rid) == Some(list[i].1);
        assert(list[i].0 == "SYSSCHEMAS"@ || list[i].0 == "SYSTABLES"@ || list[i].0
            == "SYSCOLUMNS"@);
        assert(bare.has(sys, list[i].0) && bare.heap(sys, list[i].0) == mid.heap(
            sys,
            list[i].0,
        ));
        assert(t2.has(sys, list[i].0) && t2.heap(sys, list[i].0) == mid.heap(sys, list[i].0));
        assert(row_of(t2, table, rid) == Some(list[i].1));
    }
}

/// Whether each text of a row keeps to the length that its column declares, in bytes.
pub open spec fn texts_fit(row: Seq<ValueModel>, cols: Seq<ColumnDef>) -> bool {
    forall|i: int|
        0 <= i < row.len() && (#[trigger] row[i]) is Str ==> encode_utf8(row[i]->Str_0).len()
            <= declared_length(cols[i].typename)
}

proof fn lemma_row_size(row: Seq<ValueModel>, cols: Seq<ColumnDef>, n: int)
    requires
        0 <= n <= row.len() == cols.len(),
        fields_to(row, cols, n) is Ok,
        texts_fit(row, cols),
    ensures
        fields_to(row, cols, n)->Ok_0.len() <= row_size(cols, n),
    decreases n,
{
    if n > 0 {
        lemma_row_size(row, cols, n - 1);
        let v = row[n - 1];
        let col = cols[n - 1];
        let base = base_type(col.typename);
        let field = stored_value(v, col)->Ok_0;
        lemma_le_bytes_len(field.len(), 8);
        lemma_pow256();
        reveal_strlit("SMALLINT");
        reveal_strlit("INTEGER");
        reveal_strlit("BIGINT");
        reveal_strlit("DOUBLE");
        reveal_strlit("TIMESTAMP");
        reveal_strlit("CHAR");
        reveal_strlit("VARCHAR");
        if v is Str {
            assert(base[0] == 'C' || base[0] == 'V');
        } else if base == "SMALLINT"@ {
            law_signed_round_trip(v.number()->0, 2);
        } else {
            assert(base[0] == 'I');
            law_signed_round_trip(v.number()->0, 4);
        }
        assert(field.len() <= data_size(col.typename));
    }
}

/// A row whose texts keep to their declared lengths never takes more bytes than a row of its
/// columns is reckoned with, whatever the columns are.
pub proof fn law_row_keeps_to_its_size(row: Seq<ValueModel>, cols: Seq<ColumnDef>)
    requires
        row.len() == cols.len(),
        row_fields(row, cols) is Ok,
        texts_fit(row, cols),
    ensures
        row_fields(row, cols)->Ok_0.len() <= row_size(cols, cols.len() as int),
{
    lemma_row_size(row, cols, cols.len() as int);
}

/// A value that takes all the bytes of a column.
pub open spec fn widest_value(col: ColumnDef) -> ValueModel {
    let base = base_type(col.typename);
    if base == "SMALLINT"@ {
        ValueModel::SmallInt(0)
    } else if base == "INTEGER"@ {
        ValueModel::Integer(0)
    } else {
        ValueModel::Str(Seq::new(declared_length(col.typename), |i: int| 'a'))
    }
}

/// A row that takes all the bytes of its columns.
pub open spec fn widest_row(cols: Seq<ColumnDef>) -> Seq<ValueModel> {
    Seq::new(cols.len(), |i: int| widest_value(cols[i]))
}

proof fn lemma_widest(cols: Seq<ColumnDef>, n: int)
    requires
        0 <= n <= cols.len(),
        forall|i: int|
            0 <= i < cols.len() ==> is_row_type(base_type((#[trigger] cols[i]).typename)),
    ensures
        fields_to(widest_row(cols), cols, n) is Ok,
        fields_to(widest_row(cols), cols, n)->Ok_0.len() == row_size(cols, n),
    decreases n,
{
    if n > 0 {
        lemma_widest(cols, n - 1);
        let col = cols[n - 1];
        let base = base_type(col.typename);
        let v = widest_row(cols)[n - 1];
        assert(is_row_type(base));
        assert(v == widest_value(col));
        reveal_strlit("SMALLINT");
        reveal_strlit("INTEGER");
        reveal_strlit("BIGINT");
        reveal_strlit("DOUBLE");
        reveal_strlit("TIMESTAMP");
        reveal_strlit("CHAR");
        reveal_strlit("VARCHAR");
        lemma_pow256();
        if base == "SMALLINT"@ {
            law_signed_round_trip(0, 2);
        } else if base == "INTEGER"@ {
            assert(base != "SMALLINT"@);
            law_signed_round_trip(0, 4);
        } else {
            let text = Seq::new(declared_length(col.typename), |i: int| 'a');
            assert(vstd::utf8::is_ascii_chars(text));
            vstd::utf8::is_ascii_chars_encode_utf8(text);
            assert(base[0] == 'C' || base[0] == 'V');
        }
        let field = stored_value(v, col)->Ok_0;
        lemma_le_bytes_len(field.len(), 8);
        assert(field.len() == data_size(col.typename));
    }
}

/// The size that a row of some columns is reckoned with is attained: the widest row can be stored
/// and takes exactly that many bytes.
pub proof fn law_row_size_is_attained(cols: Seq<ColumnDef>)
    requires
        forall|i: int|
            0 <= i < cols.len() ==> is_row_type(base_type((#[trigger] cols[i]).typename)),
    ensures
        row_fields(widest_row(cols), cols) is Ok,
        row_fields(widest_row(cols), cols)->Ok_0.len() == row_size(cols, cols.len() as int),
{
    lemma_widest(cols, cols.len() as int);
}

proof fn lemma_row_size_adds(a: Seq<ColumnDef>, b: Seq<ColumnDef>, n: int)
    requires
        0 <= n <= b.len(),
    ensures
        row_size(a + b, a.len() + n) == row_size(a, a.len() as int) + row_size(b, n),
    decreases n,
{
    if n > 0 {
        lemma_row_size_adds(a, b, n - 1);
        assert((a + b)[a.len() + n - 1] == b[n - 1]);
    } else {
        lemma_row_size_of_front(a, b, a.len() as int);
    }
}

proof fn lemma_row_size_of_front(a: Seq<ColumnDef>, b: Seq<ColumnDef>, n: int)
    requires
        0 <= n <= a.len(),
    ensures
        row_size(a + b, n) == row_size(a, n),
    decreases n,
{
    if n > 0 {
        lemma_row_size_of_front(a, b, n - 1);
        assert((a + b)[n - 1] == a[n - 1]);
    }
}

/// The size that a row is reckoned with adds up: that of two lists of columns is the sum of both.
pub proof fn law_row_size_adds_up(a: Seq<ColumnDef>, b: Seq<ColumnDef>)
    ensures
        row_size(a + b, (a + b).len() as int) == row_size(a, a.len() as int) + row_size(
            b,
            b.len() as int,
        ),
{
    lemma_row_size_adds(a, b, b.len() as int);
}

/// A row whose texts keep to their declared lengths takes at most as many bytes as a row of the
/// table is reckoned with, so that a row of a table that could be made fits into a page.
pub proof fn law_rows_of_a_created_table_fit(
    ct: CreateTable,
    c: CacheModel,
    name: TableName,
    cols: Seq<ColumnDef>,
    row: Seq<ValueModel>,
)
    requires
        create_plan(ct, c) == Ok::<(TableName, Seq<ColumnDef>), ErrorModel>((name, cols)),
        row.len() == cols.len(),
        row_fields(row, cols) is Ok,
        texts_fit(row, cols),
    ensures
        row_fields(row, cols)->Ok_0.len() <= row_size(cols, cols.len() as int),
        row_fields(row, cols)->Ok_0.len() <= max_payload(new_page_size(c)),
        new_page_size(c) < 0x10000 ==> fresh_room(
            new_page_size(c) as nat,
            row_fields(row, cols)->Ok_0.len(),
        ),
{
    lemma_row_size(row, cols, cols.len() as int);
    lemma_new_columns_len(ct.columns@, name, ct.columns@.len() as int);
}

proof fn lemma_new_columns_len(specs: Seq<ColumnSpec>, t: TableName, n: int)
    requires
        0 <= n,
        new_columns(specs, t, n) is Ok,
    ensures
        new_columns(specs, t, n)->Ok_0.len() == n,
    decreases n,
{
    if n > 0 {
        lemma_new_columns_len(specs, t, n - 1);
    }
}

// ── DROP TABLE ──

/// After a `DROP TABLE`, neither the catalog nor the tables have the table any more, so that its
/// name is free; all other tables but the two of the catalog that listed it are as they were.
pub proof fn law_dropped_table_is_gone(
    d: DropTable,
    c: CacheModel,
    t: TsmModel,
    c2: CacheModel,
    t2: TsmModel,
    r: DbResult<ResultSet>,
    name: TableName,
)
    requires
        t.inv(),
        drop_outcome(d, c, t, c2, t2, r),
        r is Ok,
        drop_target(d, c) == Ok::<TableName, ErrorModel>(name),
        c.table(name.schema, name.table) is Some,
    ensures
        c2.table(name.schema, name.table) is None,
        c2.columns_for(name.schema, name.table) is None,
        !t2.has(name.schema, name.table),
        forall|s: Seq<char>, n: Seq<char>|
            #![trigger t2.has(s, n)]
            #![trigger t2.heap(s, n)]
            (s != name.schema || n != name.table) && !(s == c.config.sys_schema && (n
                == "SYSTABLES"@ || n == "SYSCOLUMNS"@)) ==> {
                &&& t2.has(s, n) == t.has(s, n)
                &&& t.has(s, n) ==> t2.heap(s, n) == t.heap(s, n)
            },
{
    law_unregistered_table_is_gone(c, name.schema, name.table);
    let (t1, r1) = choose|t1: TsmModel, r1: DbResult<()>| #[trigger]
        about_deleted("SYSTABLES"@, name, c, t, t1, r1) && match r1 {
            Err(e) => refused(r, e@, t1, t2) && c2 == c,
            Ok(_) => columns_dropped(name, c, t1, c2, t2, r),
        };
    assert(columns_dropped(name, c, t1, c2, t2, r));
    let a = system_table(c, "SYSTABLES"@);
    let b = system_table(c, "SYSCOLUMNS"@);
    law_delete_takes_its_rows(t, a, rows_about("SYSTABLES"@, name, c, t)->Ok_0, t1);
    let (t3, r3) = choose|t3: TsmModel, r3: DbResult<()>| #[trigger]
        about_deleted("SYSCOLUMNS"@, name, c, t1, t3, r3) && match r3 {
            Err(e) => refused(r, e@, t3, t2) && c2 == c,
            Ok(_) => if t3.has(name.schema, name.table) {
                &&& r is Ok
                &&& t2 == t3.without_table(name.schema, name.table)
                &&& c2 == c.without_table(name.schema, name.table)
            } else {
                refused(r, no_table(name.schema, name.table), t3, t2) && c2 == c
            },
        };
    law_delete_takes_its_rows(t1, b, rows_about("SYSCOLUMNS"@, name, c, t1)->Ok_0, t3);
    lemma_without_table(t3, name.schema, name.table);
    assert forall|s: Seq<char>, n: Seq<char>|
        #![trigger t2.has(s, n)]
        #![trigger t2.heap(s, n)]
        (s != name.schema || n != name.table) && !(s == c.config.sys_schema && (n == "SYSTABLES"@
            || n == "SYSCOLUMNS"@)) implies {
        &&& t2.has(s, n) == t.has(s, n)
        &&& t.has(s, n) ==> t2.heap(s, n) == t.heap(s, n)
    } by {
        assert(t1.has(s, n) == t.has(s, n));
        assert(t3.has(s, n) == t1.has(s, n));
    }
}

/// Whether a row of a table of the catalog shows a schema and a table in two columns.
pub open spec fn names_table(
    row: Seq<u8>,
    cols: Seq<ColumnDef>,
    schema_at: int,
    name_at: int,
    target: TableName,
) -> bool {
    let values = row_values(row, cols)->Ok_0;
    values[schema_at].text() == target.schema && values[name_at].text() == target.table
}

proof fn lemma_naming(
    raw: Seq<(Rid, Seq<u8>)>,
    cols: Seq<ColumnDef>,
    schema_at: int,
    name_at: int,
    target: TableName,
    n: int,
)
    requires
        0 <= n <= raw.len(),
        naming_rids(raw, cols, schema_at, name_at, target, n) is Ok,
    ensures
        forall|k: int|
            0 <= k < n && names_table(
                (#[trigger] raw[k]).1,
                cols,
                schema_at,
                name_at,
                target,
            ) ==> naming_rids(raw, cols, schema_at, name_at, target, n)->Ok_0.contains(raw[k].0),
    decreases n,
{
    if n > 0 {
        lemma_naming(raw, cols, schema_at, name_at, target, n - 1);
        let before = naming_rids(raw, cols, schema_at, name_at, target, n - 1)->Ok_0;
        let now = naming_rids(raw, cols, schema_at, name_at, target, n)->Ok_0;
        assert forall|k: int|
            0 <= k < n && names_table(
                (#[trigger] raw[k]).1,
                cols,
                schema_at,
                name_at,
                target,
            ) implies now.contains(raw[k].0) by {
            if k < n - 1 {
                let i = choose|i: int| 0 <= i < before.len() && before[i] == raw[k].0;
                assert(now[i] == raw[k].0);
            } else {
                assert(now[before.len() as int] == raw[k].0);
            }
        }
    }
}

/// Whether no row of a table of the catalog is about a table.
pub open spec fn not_listed(
    catalog_table: Seq<char>,
    target: TableName,
    c: CacheModel,
    t: TsmModel,
) -> bool {
    let cols = c.columns_for(c.config.sys_schema, catalog_table)->0;
    let names = column_names(cols);
    let schema_at = catalog_column(names, "SCHEMANAME"@, catalog_table)->Ok_0;
    let name_at = catalog_column(names, name_column(catalog_table), catalog_table)->Ok_0;
    &&& scanned(t, system_table(c, catalog_table)) is Ok
    &&& forall|rid: Rid, row: Seq<u8>| #[trigger]
        scanned(t, system_table(c, catalog_table))->Ok_0.contains((rid, row)) ==> !names_table(
            row,
            cols,
            schema_at,
            name_at,
            target,
        )
}

/// Deleting the rows about a table from a table of the catalog leaves none that is about it.
pub proof fn law_no_row_about_the_table_is_left(
    catalog_table: Seq<char>,
    target: TableName,
    c: CacheModel,
    t: TsmModel,
    t2: TsmModel,
    r: DbResult<()>,
)
    requires
        t.inv(),
        about_deleted(catalog_table, target, c, t, t2, r),
        r is Ok,
    ensures
        not_listed(catalog_table, target, c, t2),
        t2.inv(),
        same_elsewhere(t, t2, system_table(c, catalog_table)),
{
    let name = system_table(c, catalog_table);
    let cols = c.columns_for(c.config.sys_schema, catalog_table)->0;
    let names = column_names(cols);
    let schema_at = catalog_column(names, "SCHEMANAME"@, catalog_table)->Ok_0;
    let name_at = catalog_column(names, name_column(catalog_table), catalog_table)->Ok_0;
    let rids = rows_about(catalog_table, target, c, t)->Ok_0;
    let raw = scanned(t, name)->Ok_0;
    law_delete_takes_its_rows(t, name, rids, t2);
    law_scan_is_the_table(t, name);
    law_scan_needs_readable_pages(t, name);
    assert(t2.has(name.schema, name.table) == t.has(name.schema, name.table));
    law_scan_needs_readable_pages(t2, name);
    law_scan_is_the_table(t2, name);
    lemma_naming(raw, cols, schema_at, name_at, target, raw.len() as int);
    let raw2 = scanned(t2, name)->Ok_0;
    assert forall|rid: Rid, row: Seq<u8>| #[trigger] raw2.contains((rid, row)) implies !names_table(
        row,
        cols,
        schema_at,
        name_at,
        target,
    ) by {
        assert(row_of(t2, name, rid) == Some(row));
        if rids.contains(rid) {
            let i = choose|i: int| 0 <= i < rids.len() && rids[i] == rid;
            assert(row_of(t2, name, rids[i]) is None);
        }
        assert(row_of(t, name, rid) == Some(row));
        assert(raw.contains((rid, row)));
        let k = choose|k: int| 0 <= k < raw.len() && raw[k] == (rid, row);
        if names_table(raw[k].1, cols, schema_at, name_at, target) {
            assert(rids.contains(raw[k].0));
        }
    }
}

/// After a `DROP TABLE`, no row of the tables of the catalog is about the table any more.
pub proof fn law_dropped_table_is_not_listed(
    d: DropTable,
    c: CacheModel,
    t: TsmModel,
    c2: CacheModel,
    t2: TsmModel,
    r: DbResult<ResultSet>,
    name: TableName,
)
    requires
        t.inv(),
        drop_outcome(d, c, t, c2, t2, r),
        r is Ok,
        drop_target(d, c) == Ok::<TableName, ErrorModel>(name),
        c.table(name.schema, name.table) is Some,
    ensures
        not_listed("SYSTABLES"@, name, c, t2),
        not_listed("SYSCOLUMNS"@, name, c, t2),
{
    reveal_strlit("SYSTABLES");
    reveal_strlit("SYSCOLUMNS");
    let a = system_table(c, "SYSTABLES"@);
    let b = system_table(c, "SYSCOLUMNS"@);
    assert(a.table.len() != b.table.len());
    let (t1, r1) = choose|t1: TsmModel, r1: DbResult<()>| #[trigger]
        about_deleted("SYSTABLES"@, name, c, t, t1, r1) && match r1 {
            Err(e) => refused(r, e@, t1, t2) && c2 == c,
            Ok(_) => columns_dropped(name, c, t1, c2, t2, r),
        };
    law_no_row_about_the_table_is_left("SYSTABLES"@, name, c, t, t1, r1);
    let (t3, r3) = choose|t3: TsmModel, r3: DbResult<()>| #[trigger]
        about_deleted("SYSCOLUMNS"@, name, c, t1, t3, r3) && match r3 {
            Err(e) => refused(r, e@, t3, t2) && c2 == c,
            Ok(_) => if t3.has(name.schema, name.table) {
                &&& r is Ok
                &&& t2 == t3.without_table(name.schema, name.table)
                &&& c2 == c.without_table(name.schema, name.table)
            } else {
                refused(r, no_table(name.schema, name.table), t3, t2) && c2 == c
            },
        };
    law_no_row_about_the_table_is_left("SYSCOLUMNS"@, name, c, t1, t3, r3);
    lemma_without_table(t3, name.schema, name.table);
    assert(t1.has(a.schema, a.table));
    assert(t3.has(a.schema, a.table) == t1.has(a.schema, a.table));
    assert(t3.heap(a.schema, a.table) == t1.heap(a.schema, a.table));
    assert(t2.has(a.schema, a.table) == t3.has(a.schema, a.table));
    assert(t2.heap(a.schema, a.table) == t3.heap(a.schema, a.table));
    assert(scanned(t2, a) == scanned(t1, a));
    assert(t3.has(b.schema, b.table));
    assert(t2.has(b.schema, b.table) == t3.has(b.schema, b.table));
    assert(t2.heap(b.schema, b.table) == t3.heap(b.schema, b.table));
    assert(scanned(t2, b) == scanned(t3, b));
}

} // verus!
