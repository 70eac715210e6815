//! When a `CREATE TABLE` goes through, and that a dropped table can be made again.

use vstd::prelude::*;
use crate::catalog::cache::{law_unregistered_table_is_gone, CacheModel};
use crate::catalog::types::ColumnDef;
use crate::error::{DbResult, ErrorModel};
use crate::sql::ast::{CreateTable, DropTable};
use crate::sql::change::{add_fails, adds, delete_run, delete_trace, refused, removes};
use crate::sql::define::{about_deleted, columns_dropped, create_outcome, create_plan, drop_outcome,
    drop_target, entry_fails, entry_run, entry_step, entry_trace, new_entries, new_table,
    rows_about, space_error, system_table, with_its_schema, CatalogEntry};
use crate::sql::laws::{law_created_table_is_empty, law_delete_takes_its_rows};
use crate::sql::query::scanned;
use crate::sql::types::{ResultSet, TableName};
use crate::storage::fsm::{category, first_page};
use crate::storage::heap::{file_fits, fresh_room, lemma_place, lemma_place_no_fail, readable,
    Access, HeapModel, Rid};
use crate::storage::page::{can_insert, free_bytes};
use crate::storage::table_file::{heap_ok, law_removing_keeps_the_table, law_storing_keeps_the_table,
    removed, stored};
use crate::storage::tablespace::{lemma_with_heap, lemma_without_table, no_table, stores_kept,
    TsmModel};

verus! {

/// Whether a table takes `n` more rows that an empty page has room for: its pool has a frame, all
/// its pages can be read, its map tracks no others, and its file can grow by `n` pages.
pub open spec fn roomy(h: HeapModel, n: nat) -> bool {
    &&& heap_ok(h)
    &&& h.via != Access::Pool(0)
    &&& readable(h)
    &&& h.fsm.cats.len() <= h.pages.len()
    &&& file_fits(h.pages.len() + n)
}

/// Whether the tables of the catalog take some rows, each of which an empty page has room for, and
/// can grow by `n` pages.
pub open spec fn entries_fit(
    t: TsmModel,
    sys: Seq<char>,
    list: Seq<CatalogEntry>,
    n: nat,
) -> bool {
    forall|i: int|
        0 <= i < list.len() ==> {
            &&& t.has(sys, (#[trigger] list[i]).0)
            &&& roomy(t.heap(sys, list[i].0), n)
            &&& fresh_room(t.heap(sys, list[i].0).page_size, list[i].1.len())
        }
}

/// A row that an empty page has room for is stored in a table with room.
proof fn lemma_stored_roomy(h: HeapModel, row: Seq<u8>, h2: HeapModel, r: DbResult<Rid>, n: nat)
    requires
        roomy(h, n),
        n >= 1,
        fresh_room(h.page_size, row.len()),
        stored(h, row, h2, r),
    ensures
        r is Ok,
        roomy(h2, (n - 1) as nat),
        h2.page_size == h.page_size,
{
    lemma_place_no_fail(h, row.len(), 0, h.fsm.cats);
    lemma_place(h, row.len(), 0, h.fsm.cats);
    lemma_place_len(h, row.len(), 0, h.fsm.cats);
    law_storing_keeps_the_table(h, row, h2, r->Ok_0);
}

/// The search for a page keeps the number of categories.
proof fn lemma_place_len(h: HeapModel, len: nat, from: int, cats: Seq<u8>)
    requires
        0 <= from,
    ensures
        h.place(len, from, cats).1.len() == cats.len(),
    decreases cats.len() - from,
{
    match first_page(
        cats,
        from,
        category(h.fsm.page_size, len),
    ) {
        None => {},
        Some(p) => if from <= p < cats.len() && h.page_error(p as nat) is None
            && !can_insert(h.pages[p], len) {
            lemma_place_len(
                h,
                len,
                p + 1,
                cats.update(
                    p,
                    category(
                        h.fsm.page_size,
                        free_bytes(h.pages[p]) as nat,
                    ),
                ),
            );
        },
    }
}

/// A table from which a row was deleted has the room that it had.
proof fn lemma_removed_roomy(h: HeapModel, rid: Rid, h2: HeapModel, gone: bool, n: nat)
    requires
        roomy(h, n),
        removed(h, rid, h2, Ok(gone)),
    ensures
        roomy(h2, n),
        h2.page_size == h.page_size,
{
    law_removing_keeps_the_table(h, rid, h2, gone);
}

/// One row more in the catalog.
proof fn lemma_entry_fits(
    t: TsmModel,
    sys: Seq<char>,
    list: Seq<CatalogEntry>,
    k: int,
    t2: TsmModel,
    r: DbResult<Rid>,
    n: nat,
)
    requires
        entries_fit(t, sys, list, n),
        n >= 1,
        0 <= k < list.len(),
        adds(t, TableName { schema: sys, table: list[k].0 }, list[k].1, t2, r),
    ensures
        r is Ok,
        entries_fit(t2, sys, list, (n - 1) as nat),
{
    let h = t.heap(sys, list[k].0);
    let h2 = t2.heap(sys, list[k].0);
    assert(t.has(sys, list[k].0));
    lemma_stored_roomy(h, list[k].1, h2, r, n);
    lemma_with_heap(t, sys, list[k].0, h2);
    assert forall|i: int| 0 <= i < list.len() implies {
        &&& t2.has(sys, (#[trigger] list[i]).0)
        &&& roomy(t2.heap(sys, list[i].0), (n - 1) as nat)
        &&& fresh_room(t2.heap(sys, list[i].0).page_size, list[i].1.len())
    } by {
        assert(t.has(sys, list[i].0));
        assert(t2.has(sys, list[i].0));
        if list[i].0 != list[k].0 {
            assert(t2.heap(sys, list[i].0) == t.heap(sys, list[i].0));
        }
    }
}

proof fn lemma_entries_fit(
    states: Seq<TsmModel>,
    sys: Seq<char>,
    list: Seq<CatalogEntry>,
    m: int,
)
    requires
        0 <= m < states.len(),
        states.len() <= list.len() + 1,
        entry_trace(states, sys, list),
        entries_fit(states[0], sys, list, list.len()),
    ensures
        entries_fit(states[m], sys, list, (list.len() - m) as nat),
    decreases m,
{
    if m > 0 {
        lemma_entries_fit(states, sys, list, m - 1);
        assert(entry_step(states[m - 1], states[m - 1 + 1], sys, list[m - 1]));
        let name = TableName { schema: sys, table: list[m - 1].0 };
        let rid = choose|rid: Rid| #[trigger]
            adds(states[m - 1], name, list[m - 1].1, states[m], Ok(rid));
        lemma_entry_fits(
            states[m - 1],
            sys,
            list,
            m - 1,
            states[m],
            Ok(rid),
            (list.len() - (m - 1)) as nat,
        );
    }
}

/// A `CREATE TABLE` that is not refused goes through where the tables of the catalog take the rows
/// about the new table and its tablespace takes a file.
pub proof fn law_create_goes_through(
    ct: CreateTable,
    c: CacheModel,
    t: TsmModel,
    c2: CacheModel,
    t2: TsmModel,
    disk: Seq<nat>,
    r: DbResult<ResultSet>,
    name: TableName,
    cols: Seq<ColumnDef>,
)
    requires
        create_outcome(ct, c, t, c2, t2, disk, r),
        create_plan(ct, c) == Ok::<(TableName, Seq<ColumnDef>), ErrorModel>((name, cols)),
        entries_fit(
            t,
            c.config.sys_schema,
            new_entries(name, cols, c),
            new_entries(name, cols, c).len(),
        ),
        space_error(t.spaces, t.pools, c.default_tablespace() as i32, name) is None,
    ensures
        r is Ok,
{
    let sys = c.config.sys_schema;
    let list = new_entries(name, cols, c);
    if r is Err {
        let e = r->Err_0;
        let k = choose|k: int| #[trigger]
            entry_fails(t, sys, list, k, t2, disk, e) && 0 <= k < list.len();
        let mid = choose|mid: TsmModel| #[trigger]
            entry_run(t, sys, list, k, mid) && add_fails(
                mid,
                TableName { schema: sys, table: list[k].0 },
                list[k].1,
                t2,
                disk,
                e,
            );
        let states = choose|states: Seq<TsmModel>| #[trigger]
            entry_trace(states, sys, list) && states.len() == k + 1 && states[0] == t && states[k]
                == mid;
        lemma_entries_fit(states, sys, list, k);
        lemma_entry_fits(mid, sys, list, k, t2, Err(e), (list.len() - k) as nat);
    }
}

/// Deleting rows of a table leaves the room in all tables.
proof fn lemma_delete_roomy(
    states: Seq<TsmModel>,
    name: TableName,
    rids: Seq<Rid>,
    m: int,
    s: Seq<char>,
    table: Seq<char>,
    n: nat,
)
    requires
        0 <= m < states.len(),
        states.len() <= rids.len() + 1,
        delete_trace(states, name, rids),
        states[0].has(s, table),
        roomy(states[0].heap(s, table), n),
    ensures
        states[m].has(s, table),
        roomy(states[m].heap(s, table), n),
        states[m].heap(s, table).page_size == states[0].heap(s, table).page_size,
        stores_kept(states[0], states[m]),
    decreases m,
{
    if m > 0 {
        lemma_delete_roomy(states, name, rids, m - 1, s, table, n);
        let a = states[m - 1];
        let b = states[m - 1 + 1];
        assert(removes(a, name, rids[m - 1], b, Ok(true)));
        let h2 = b.heap(name.schema, name.table);
        lemma_with_heap(a, name.schema, name.table, h2);
        assert(b.has(s, table));
        if s == name.schema && table == name.table {
            lemma_removed_roomy(a.heap(s, table), rids[m - 1], h2, true, n);
        } else {
            assert(b.heap(s, table) == a.heap(s, table));
        }
    }
}

/// Deleting the rows about a table leaves the room in all tables.
proof fn lemma_about_deleted_roomy(
    catalog_table: Seq<char>,
    target: TableName,
    c: CacheModel,
    t: TsmModel,
    t2: TsmModel,
    s: Seq<char>,
    table: Seq<char>,
    n: nat,
)
    requires
        about_deleted(catalog_table, target, c, t, t2, Ok(())),
        t.has(s, table),
        roomy(t.heap(s, table), n),
    ensures
        t2.has(s, table),
        roomy(t2.heap(s, table), n),
        t2.heap(s, table).page_size == t.heap(s, table).page_size,
        stores_kept(t, t2),
{
    let name = system_table(c, catalog_table);
    let rids = rows_about(catalog_table, target, c, t)->Ok_0;
    assert(delete_run(t, name, rids, t2));
    let states = choose|states: Seq<TsmModel>| #[trigger]
        delete_trace(states, name, rids) && states.len() == rids.len() + 1 && states[0] == t
            && states[rids.len() as int] == t2;
    lemma_delete_roomy(states, name, rids, rids.len() as int, s, table, n);
}

/// A dropped table can be made again: where a `CREATE TABLE` of its name has nothing against it
/// but the table, and there was room for the rows about it and for a file before the `DROP TABLE`,
/// it goes through after it, and the table is there and empty.
pub proof fn law_dropped_table_can_be_made_again(
    d: DropTable,
    c: CacheModel,
    t: TsmModel,
    c2: CacheModel,
    t2: TsmModel,
    r: DbResult<ResultSet>,
    name: TableName,
    ct: CreateTable,
    cols: Seq<ColumnDef>,
    c3: CacheModel,
    t3: TsmModel,
    disk: Seq<nat>,
    r3: DbResult<ResultSet>,
)
    requires
        t.inv(),
        drop_outcome(d, c, t, c2, t2, r),
        r is Ok,
        drop_target(d, c) == Ok::<TableName, ErrorModel>(name),
        c.table(name.schema, name.table) is Some,
        create_plan(ct, c.without_table(name.schema, name.table)) == Ok::<
            (TableName, Seq<ColumnDef>),
            ErrorModel,
        >((name, cols)),
        ({
            let list = new_entries(name, cols, c.without_table(name.schema, name.table));
            entries_fit(t, c.config.sys_schema, list, list.len())
        }),
        space_error(t.spaces, t.pools, c.default_tablespace() as i32, name) is None,
        create_outcome(ct, c2, t2, c3, t3, disk, r3),
    ensures
        r3 is Ok,
        c3.table(name.schema, name.table) == Some(new_table(name, cols, c2)),
        c3.columns_for(name.schema, name.table) == Some(cols),
        scanned(t3, name) == Ok::<Seq<(Rid, Seq<u8>)>, ErrorModel>(Seq::empty()),
{
    let sys = c.config.sys_schema;
    let (t1, r1) = choose|t1: TsmModel, r1: DbResult<()>| #[trigger]
        about_deleted("SYSTABLES"@, name, c, t, t1, r1) && match r1 {
            Err(e) => refused(r, e@, t1, t2) && c2 == c,
            Ok(_) => columns_dropped(name, c, t1, c2, t2, r),
        };
    assert(r1 is Ok && columns_dropped(name, c, t1, c2, t2, r));
    let (t4, r4) = choose|t4: TsmModel, r4: DbResult<()>| #[trigger]
        about_deleted("SYSCOLUMNS"@, name, c, t1, t4, r4) && match r4 {
            Err(e) => refused(r, e@, t4, t2) && c2 == c,
            Ok(_) => if t4.has(name.schema, name.table) {
                &&& r is Ok
                &&& t2 == t4.without_table(name.schema, name.table)
                &&& c2 == c.without_table(name.schema, name.table)
            } else {
                refused(r, no_table(name.schema, name.table), t4, t2) && c2 == c
            },
        };
    assert(r4 is Ok);
    law_delete_takes_its_rows(
        t,
        system_table(c, "SYSTABLES"@),
        rows_about("SYSTABLES"@, name, c, t)->Ok_0,
        t1,
    );
    law_delete_takes_its_rows(
        t1,
        system_table(c, "SYSCOLUMNS"@),
        rows_about("SYSCOLUMNS"@, name, c, t1)->Ok_0,
        t4,
    );
    lemma_without_table(t4, name.schema, name.table);
    let list = new_entries(name, cols, c2);
    assert(list.len() > 0);
    assert forall|i: int| 0 <= i < list.len() implies {
        &&& t2.has(sys, (#[trigger] list[i]).0)
        &&& roomy(t2.heap(sys, list[i].0), list.len())
        &&& fresh_room(t2.heap(sys, list[i].0).page_size, list[i].1.len())
    } by {
        let table = list[i].0;
        assert(t.has(sys, table));
        lemma_about_deleted_roomy("SYSTABLES"@, name, c, t, t1, sys, table, list.len());
        lemma_about_deleted_roomy("SYSCOLUMNS"@, name, c, t1, t4, sys, table, list.len());
        assert(name.schema != sys);
        assert(t2.has(sys, table) == t4.has(sys, table));
        assert(t2.heap(sys, table) == t4.heap(sys, table));
    }
    assert(stores_kept(t, t1) && stores_kept(t1, t4) && stores_kept(t4, t2));
    assert(c2.config == c.config);
    assert(c2.default_tablespace() == c.default_tablespace());
    law_create_goes_through(ct, c2, t2, c3, t3, disk, r3, name, cols);
    law_created_table_is_empty(ct, c2, t2, c3, t3, disk, r3, name, cols);
}

/// After a `CREATE TABLE` and a `DROP TABLE` of the table, the same `CREATE TABLE` has nothing
/// against it.
pub proof fn law_create_is_planned_again(
    ct: CreateTable,
    c: CacheModel,
    name: TableName,
    cols: Seq<ColumnDef>,
)
    requires
        create_plan(ct, c) == Ok::<(TableName, Seq<ColumnDef>), ErrorModel>((name, cols)),
    ensures
        ({
            let made = with_its_schema(c, name).with_table(new_table(name, cols, c), cols);
            create_plan(ct, made.without_table(name.schema, name.table)) == Ok::<
                (TableName, Seq<ColumnDef>),
                ErrorModel,
            >((name, cols))
        }),
{
    let made = with_its_schema(c, name).with_table(new_table(name, cols, c), cols);
    let gone = made.without_table(name.schema, name.table);
    law_unregistered_table_is_gone(made, name.schema, name.table);
    assert(gone.config == c.config);
    assert(gone.catalog.tablespaces == c.catalog.tablespaces);
}

} // verus!
