//! The tablespace manager: the rows of all tables, through the buffer pools.
//!
//! Each table has a file in one of the pools and a free-space map of its own. Every operation
//! fetches the pages it needs, works on them and releases them, so that no page stays pinned.

use vstd::prelude::*;
use vstd::string::StringExecFns;
use crate::bytes::le_at;
use crate::catalog::cache::{key_string, key_texts, lemma_key_index, tablespace_index, CatalogCache,
    ColumnIndex, TableKey};
use crate::sql::types::names_view;
use crate::catalog::types::{BufferPoolDef, Catalog, CatalogDef, Table, TableDef, Tablespace,
    TablespaceDef};
use crate::error::{DbResult, Error, ErrorModel};
use crate::storage::fsm::{category, extended, first_map, law_save_then_load, map_error, saved_map,
    tree_fits, FreeSpaceMap, FsmModel};
use crate::storage::heap::{all_rows, file_pages, is_usable, joined, law_file_round_trip,
    no_row_text, pages_sound, rid_rows, usable, Access, HeapFile, HeapModel, Rid};
use crate::storage::table_work::{add_row, attached, find_row, remove_row, replace_row, scan_rows};
use crate::storage::page::{deleted, PageId, PageRead, CHECKSUM_END};
use crate::storage::pool::{size_mismatch_text, BufferPool};
use crate::storage::pool_manager::{find_pool, fresh_pool, has_pool, lemma_find_pool, lemma_pool_is,
    lemma_pools_below, lemma_with_pool, no_pool, pool_of, pools_below, pools_sorted, with_pool,
    BufferPoolManager};
use crate::storage::pool_model::{find_frame, law_flush_all_writes_everything, lemma_dropped,
    lemma_find_frame, lemma_flushed_to, lemma_frame_is, lemma_frame_none, BufferPoolId, FileId,
    FileModel, PoolModel};
use crate::text::{decimal, decimal_signed, int_text};
use crate::storage::table_file::{at_rest, file_log, heap_of, heap_ok, lemma_log_kept,
    lemma_log_sound, missing_for_update, missing_page, no_holes, removed, replaced, says_missing,
    scannable, stored, touchable, worked};

verus! {

/// A tablespace: the size of its pages and the pool that they go through.
#[derive(Debug, Clone, Copy, PartialEq, Eq, Structural)]
pub struct SpaceInfo {
    pub tbspaceid: i32,
    pub page_size: usize,
    pub pool_id: BufferPoolId,
}

/// The file of a table.
pub struct TableFileInfo {
    schema: String,
    table: String,
    pool_id: BufferPoolId,
    file_id: FileId,
    fsm: FreeSpaceMap,
}

/// The rows of all tables. Whoever reads or writes rows does it here.
pub struct TablespaceManager {
    pool_manager: BufferPoolManager,
    table_files: Vec<TableFileInfo>,
    spaces: Vec<SpaceInfo>,
    /// The positions in `table_files`.
    tables_at: ColumnIndex,
}

/// A table and its pages.
pub struct TableModel {
    pub schema: Seq<char>,
    pub table: Seq<char>,
    pub heap: HeapModel,
}

/// A buffer pool, apart from the pages in it: its number and name, the size of a page, the number
/// of frames, and how many files were registered with it.
pub struct PoolInfo {
    pub id: BufferPoolId,
    pub name: Seq<char>,
    pub page_size: nat,
    pub frames: nat,
    pub files: nat,
}

/// The tables, tablespaces and buffer pools of a manager.
pub struct TsmModel {
    pub tables: Seq<TableModel>,
    pub spaces: Seq<SpaceInfo>,
    pub pools: Seq<PoolInfo>,
}

/// A buffer pool, apart from the pages in it.
pub open spec fn pool_info(pool: (BufferPoolId, PoolModel)) -> PoolInfo {
    PoolInfo {
        id: pool.0,
        name: pool.1.name,
        page_size: pool.1.page_size,
        frames: pool.1.frames.len(),
        files: pool.1.files.len(),
    }
}

/// Some buffer pools, apart from the pages in them.
pub open spec fn pool_infos(pools: Seq<(BufferPoolId, PoolModel)>) -> Seq<PoolInfo> {
    Seq::new(pools.len(), |k: int| pool_info(pools[k]))
}

/// Where a pool is among some pools from `from` on, or their number.
pub open spec fn find_info(pools: Seq<PoolInfo>, id: BufferPoolId, from: int) -> int
    decreases pools.len() - from,
{
    if from >= pools.len() {
        pools.len() as int
    } else if pools[from].id == id {
        from
    } else {
        find_info(pools, id, from + 1)
    }
}

/// A pool is at the same place with its pages and without.
proof fn lemma_find_info(pools: Seq<(BufferPoolId, PoolModel)>, id: BufferPoolId, from: int)
    requires
        0 <= from <= pools.len(),
    ensures
        find_info(pool_infos(pools), id, from) == find_pool(pools, id, from),
    decreases pools.len() - from,
{
    if from < pools.len() {
        assert(pool_infos(pools)[from].id == pools[from].0);
        lemma_find_info(pools, id, from + 1);
    }
}

/// Where a table is among some tables from `from` on, or their number.
pub open spec fn find_table(
    tables: Seq<TableModel>,
    schema: Seq<char>,
    table: Seq<char>,
    from: int,
) -> int
    decreases tables.len() - from,
{
    if from >= tables.len() {
        tables.len() as int
    } else if tables[from].schema == schema && tables[from].table == table {
        from
    } else {
        find_table(tables, schema, table, from + 1)
    }
}

/// Where a tablespace is among some tablespaces from `from` on, or their number.
pub open spec fn find_space(spaces: Seq<SpaceInfo>, id: i32, from: int) -> int
    decreases spaces.len() - from,
{
    if from >= spaces.len() {
        spaces.len() as int
    } else if spaces[from].tbspaceid == id {
        from
    } else {
        find_space(spaces, id, from + 1)
    }
}

/// The error for a table that is not registered.
pub open spec fn no_table(schema: Seq<char>, table: Seq<char>) -> ErrorModel {
    ErrorModel::Catalog(
        "table "@ + schema + "."@ + table + " not registered in tablespace manager"@,
    )
}

impl TsmModel {
    /// Where a table is, or the number of tables.
    pub open spec fn position(self, schema: Seq<char>, table: Seq<char>) -> int {
        find_table(self.tables, schema, table, 0)
    }

    /// Whether a table is registered.
    pub open spec fn has(self, schema: Seq<char>, table: Seq<char>) -> bool {
        self.position(schema, table) < self.tables.len()
    }

    /// The pages of a table.
    pub open spec fn heap(self, schema: Seq<char>, table: Seq<char>) -> HeapModel {
        self.tables[self.position(schema, table)].heap
    }

    /// The manager with the pages of a table set.
    pub open spec fn with_heap(
        self,
        schema: Seq<char>,
        table: Seq<char>,
        heap: HeapModel,
    ) -> TsmModel {
        TsmModel {
            tables: self.tables.update(
                self.position(schema, table),
                TableModel { schema, table, heap },
            ),
            ..self
        }
    }

    /// What always holds: table names differ, and the pages of a table are sound and of one size.
    pub open spec fn inv(self) -> bool {
        &&& forall|i: int, j: int|
            0 <= i < self.tables.len() && 0 <= j < self.tables.len() && i != j ==> !((
            #[trigger] self.tables[i]).schema == (#[trigger] self.tables[j]).schema
                && self.tables[i].table == self.tables[j].table)
        &&& forall|i: int| 0 <= i < self.tables.len() ==> heap_ok((#[trigger] self.tables[i]).heap)
    }
}

/// What is found at the position of a table.
pub proof fn lemma_find_table(
    tables: Seq<TableModel>,
    schema: Seq<char>,
    table: Seq<char>,
    from: int,
)
    requires
        0 <= from <= tables.len(),
    ensures
        from <= find_table(tables, schema, table, from) <= tables.len(),
        find_table(tables, schema, table, from) < tables.len() ==> {
            let t = tables[find_table(tables, schema, table, from)];
            t.schema == schema && t.table == table
        },
        forall|j: int|
            from <= j < find_table(tables, schema, table, from) ==> !((
            #[trigger] tables[j]).schema == schema && tables[j].table == table),
    decreases tables.len() - from,
{
    if from < tables.len() && !(tables[from].schema == schema && tables[from].table == table) {
        lemma_find_table(tables, schema, table, from + 1);
    }
}

proof fn lemma_find_same(
    a: Seq<TableModel>,
    b: Seq<TableModel>,
    schema: Seq<char>,
    table: Seq<char>,
    from: int,
)
    requires
        a.len() == b.len(),
        0 <= from <= a.len(),
        forall|i: int|
            0 <= i < a.len() ==> (#[trigger] a[i]).schema == b[i].schema && a[i].table
                == b[i].table,
    ensures
        find_table(a, schema, table, from) == find_table(b, schema, table, from),
    decreases a.len() - from,
{
    if from < a.len() {
        assert(a[from].schema == b[from].schema);
        lemma_find_same(a, b, schema, table, from + 1);
    }
}

/// Setting the pages of a table sets them, and leaves all other tables alone.
pub proof fn lemma_with_heap(t: TsmModel, schema: Seq<char>, table: Seq<char>, heap: HeapModel)
    requires
        t.has(schema, table),
    ensures
        t.with_heap(schema, table, heap).has(schema, table),
        t.with_heap(schema, table, heap).heap(schema, table) == heap,
        forall|s: Seq<char>, n: Seq<char>|
            #![trigger t.with_heap(schema, table, heap).has(s, n)]
            #![trigger t.with_heap(schema, table, heap).heap(s, n)]
            {
                &&& t.with_heap(schema, table, heap).has(s, n) == t.has(s, n)
                &&& (s != schema || n != table) && t.has(s, n) ==> t.with_heap(
                    schema,
                    table,
                    heap,
                ).heap(s, n) == t.heap(s, n)
            },
{
    let t2 = t.with_heap(schema, table, heap);
    lemma_find_table(t.tables, schema, table, 0);
    assert forall|s: Seq<char>, n: Seq<char>|
        #![trigger t2.has(s, n)]
        #![trigger t2.heap(s, n)]
        {
            &&& t2.has(s, n) == t.has(s, n)
            &&& (s != schema || n != table) && t.has(s, n) ==> t2.heap(s, n) == t.heap(s, n)
        } by {
        lemma_find_same(t.tables, t2.tables, s, n, 0);
        lemma_find_table(t.tables, s, n, 0);
    }
    assert(t2.has(schema, table));
    lemma_find_same(t.tables, t2.tables, schema, table, 0);
}

proof fn lemma_find_pushed(tables: Seq<TableModel>, x: TableModel, from: int)
    requires
        0 <= from <= tables.len(),
        find_table(tables, x.schema, x.table, from) == tables.len(),
    ensures
        find_table(tables.push(x), x.schema, x.table, from) == tables.len(),
    decreases tables.len() - from,
{
    if from < tables.len() {
        assert(tables.push(x)[from] == tables[from]);
        lemma_find_table(tables, x.schema, x.table, from + 1);
        lemma_find_pushed(tables, x, from + 1);
    }
}

proof fn lemma_find_pushed_other(
    tables: Seq<TableModel>,
    x: TableModel,
    schema: Seq<char>,
    table: Seq<char>,
    from: int,
)
    requires
        0 <= from <= tables.len(),
        x.schema != schema || x.table != table,
    ensures
        find_table(tables, schema, table, from) < tables.len() ==> find_table(
            tables.push(x),
            schema,
            table,
            from,
        ) == find_table(tables, schema, table, from),
        find_table(tables, schema, table, from) == tables.len() ==> find_table(
            tables.push(x),
            schema,
            table,
            from,
        ) == tables.len() + 1,
    decreases tables.len() - from,
{
    if from < tables.len() {
        assert(tables.push(x)[from] == tables[from]);
        lemma_find_pushed_other(tables, x, schema, table, from + 1);
    } else {
        assert(tables.push(x)[from] == x);
        reveal_with_fuel(find_table, 3);
    }
}

/// A table that was put among the tables is there, and all other tables are as they were.
pub proof fn lemma_with_table(t: TsmModel, schema: Seq<char>, table: Seq<char>, heap: HeapModel)
    ensures
        t.with_table(schema, table, heap).has(schema, table),
        t.with_table(schema, table, heap).heap(schema, table) == heap,
        forall|s: Seq<char>, n: Seq<char>|
            #![trigger t.with_table(schema, table, heap).has(s, n)]
            #![trigger t.with_table(schema, table, heap).heap(s, n)]
            s != schema || n != table ==> {
                &&& t.with_table(schema, table, heap).has(s, n) == t.has(s, n)
                &&& t.has(s, n) ==> t.with_table(schema, table, heap).heap(s, n) == t.heap(s, n)
            },
{
    let t2 = t.with_table(schema, table, heap);
    lemma_find_table(t.tables, schema, table, 0);
    if t.has(schema, table) {
        lemma_with_heap(t, schema, table, heap);
    } else {
        let x = TableModel { schema, table, heap };
        lemma_find_pushed(t.tables, x, 0);
        assert forall|s: Seq<char>, n: Seq<char>|
            #![trigger t2.has(s, n)]
            #![trigger t2.heap(s, n)]
            s != schema || n != table implies {
            &&& t2.has(s, n) == t.has(s, n)
            &&& t.has(s, n) ==> t2.heap(s, n) == t.heap(s, n)
        } by {
            lemma_find_table(t.tables, s, n, 0);
            lemma_find_pushed_other(t.tables, x, s, n, 0);
        }
    }
}

/// Where a table is found does not depend on how the search is written: it is the one place with
/// its name.
proof fn lemma_find_unique(
    tables: Seq<TableModel>,
    schema: Seq<char>,
    table: Seq<char>,
    i: int,
)
    requires
        0 <= i < tables.len(),
        tables[i].schema == schema,
        tables[i].table == table,
        forall|a: int, b: int|
            0 <= a < tables.len() && 0 <= b < tables.len() && a != b ==> !((
            #[trigger] tables[a]).schema == (#[trigger] tables[b]).schema && tables[a].table
                == tables[b].table),
    ensures
        find_table(tables, schema, table, 0) == i,
{
    lemma_find_table(tables, schema, table, 0);
    let k = find_table(tables, schema, table, 0);
    if k < i {
        assert(tables[k].schema == tables[i].schema);
    }
}

/// A table that was taken away is gone, and all other tables are as they were.
pub proof fn lemma_without_table(t: TsmModel, schema: Seq<char>, table: Seq<char>)
    requires
        t.inv(),
        t.has(schema, table),
    ensures
        !t.without_table(schema, table).has(schema, table),
        forall|s: Seq<char>, n: Seq<char>|
            #![trigger t.without_table(schema, table).has(s, n)]
            #![trigger t.without_table(schema, table).heap(s, n)]
            s != schema || n != table ==> {
                &&& t.without_table(schema, table).has(s, n) == t.has(s, n)
                &&& t.has(s, n) ==> t.without_table(schema, table).heap(s, n) == t.heap(s, n)
            },
{
    let t2 = t.without_table(schema, table);
    let p = t.position(schema, table);
    lemma_find_table(t.tables, schema, table, 0);
    let b = t2.tables;
    assert forall|i: int| 0 <= i < b.len() implies #[trigger] b[i] == t.tables[if i < p {
        i
    } else {
        i + 1
    }] by {}
    assert forall|i: int, j: int| 0 <= i < b.len() && 0 <= j < b.len() && i != j implies !((
    #[trigger] b[i]).schema == (#[trigger] b[j]).schema && b[i].table == b[j].table) by {}
    lemma_find_table(b, schema, table, 0);
    let k = t2.position(schema, table);
    if k < b.len() {
        let o = if k < p {
            k
        } else {
            k + 1
        };
        assert(t.tables[o].schema == t.tables[p].schema);
        assert(false);
    }
    assert forall|s: Seq<char>, n: Seq<char>|
        #![trigger t2.has(s, n)]
        #![trigger t2.heap(s, n)]
        s != schema || n != table implies {
        &&& t2.has(s, n) == t.has(s, n)
        &&& t.has(s, n) ==> t2.heap(s, n) == t.heap(s, n)
    } by {
        lemma_find_table(t.tables, s, n, 0);
        lemma_find_table(b, s, n, 0);
        let q = t.position(s, n);
        let q2 = t2.position(s, n);
        if q < t.tables.len() {
            assert(q != p);
            let o = if q < p {
                q
            } else {
                q - 1
            };
            assert(b[o] == t.tables[q]);
            lemma_find_unique(b, s, n, o);
        } else if q2 < b.len() {
            let o = if q2 < p {
                q2
            } else {
                q2 + 1
            };
            assert(b[q2] == t.tables[o]);
            lemma_find_unique(t.tables, s, n, o);
        }
    }
}

spec fn table_model(
    pools: Seq<(BufferPoolId, PoolModel)>,
    info: TableFileInfo,
) -> TableModel {
    TableModel {
        schema: info.schema@,
        table: info.table@,
        heap: heap_of(pool_of(pools, info.pool_id), info.file_id, info.fsm@),
    }
}

impl View for TablespaceManager {
    type V = TsmModel;

    closed spec fn view(&self) -> TsmModel {
        TsmModel {
            tables: Seq::new(
                self.table_files@.len(),
                |i: int| table_model(self.pool_manager@, self.table_files@[i]),
            ),
            spaces: self.spaces@,
            pools: pool_infos(self.pool_manager@),
        }
    }
}

/// Whether a table has a file in order.
spec fn info_ok(pools: Seq<(BufferPoolId, PoolModel)>, info: TableFileInfo) -> bool {
    &&& has_pool(pools, info.pool_id)
    &&& attached(pool_of(pools, info.pool_id), info.file_id)
    &&& info.fsm.wf()
}

/// Whether a pool is in order and nothing is pinned.
pub open spec fn pool_rests(m: PoolModel) -> bool {
    m.inv() && m.quiet() && m.frames.len() <= usize::MAX
}

/// Whether all pools are in order and nothing is pinned.
pub open spec fn pools_rest(pools: Seq<(BufferPoolId, PoolModel)>) -> bool {
    forall|k: int| 0 <= k < pools.len() ==> pool_rests((#[trigger] pools[k]).1)
}

/// The names of the tables of some files.
spec fn file_keys(infos: Seq<TableFileInfo>) -> Seq<TableKey> {
    Seq::new(infos.len(), |i: int| (infos[i].schema@, infos[i].table@))
}

/// The positions of some files by the names of their tables.
fn index_files(infos: &Vec<TableFileInfo>) -> (r: ColumnIndex)
    ensures
        r@ == key_texts(file_keys(infos@)),
{
    let n: usize = infos.len();
    let ghost want = key_texts(file_keys(infos@));
    let mut keys: Vec<String> = Vec::new();
    let mut i: usize = 0;
    while i < n
        invariant
            i <= n,
            n == infos@.len() == want.len(),
            want == key_texts(file_keys(infos@)),
            keys@.len() == i,
            forall|k: int| 0 <= k < i ==> (#[trigger] keys@[k])@ == want[k],
        decreases n - i,
    {
        keys.push(key_string(infos[i].schema.as_str(), infos[i].table.as_str()));
        i += 1;
    }
    assert(names_view(keys@) =~= want);
    ColumnIndex::new(&keys)
}

/// Whether the tables have files of their own.
spec fn files_apart(infos: Seq<TableFileInfo>) -> bool {
    forall|i: int, j: int|
        0 <= i < infos.len() && 0 <= j < infos.len() && i != j ==> !((
        #[trigger] infos[i]).pool_id == (#[trigger] infos[j]).pool_id && infos[i].file_id
            == infos[j].file_id)
}

fn no_table_error(schema: &str, table: &str) -> (e: Error)
    ensures
        e@ == no_table(schema@, table@),
{
    Error::Catalog(
        "table ".to_owned().concat(schema).concat(".").concat(table).concat(
            " not registered in tablespace manager",
        ),
    )
}

/// What work on the file of table `i` makes of the manager.
proof fn lemma_table_worked(
    before: TablespaceManager,
    after: TablespaceManager,
    i: int,
    m2: PoolModel,
)
    requires
        before.wf(),
        0 <= i < before.table_files@.len(),
        after.spaces == before.spaces,
        after.tables_at == before.tables_at,
        after.table_files@.len() == before.table_files@.len(),
        forall|j: int|
            0 <= j < before.table_files@.len() && j != i ==> #[trigger] after.table_files@[j]
                == before.table_files@[j],
        ({
            let a = before.table_files@[i];
            let b = after.table_files@[i];
            let m = pool_of(before.pool_manager@, a.pool_id);
            &&& b.schema == a.schema
            &&& b.table == a.table
            &&& b.pool_id == a.pool_id
            &&& b.file_id == a.file_id
            &&& b.fsm.wf()
            &&& after.pool_manager.wf()
            &&& after.pool_manager@ == with_pool(before.pool_manager@, a.pool_id, m2)
            &&& worked(m, a.file_id, m2)
            &&& m2.frames.len() > 0 ==> no_holes(m2, a.file_id)
        }),
    ensures
        after.wf(),
        ({
            let a = before.table_files@[i];
            after@ == before@.with_heap(
                a.schema@,
                a.table@,
                heap_of(m2, a.file_id, after.table_files@[i].fsm@),
            )
        }),
        after@.tables[i].heap == heap_of(
            m2,
            before.table_files@[i].file_id,
            after.table_files@[i].fsm@,
        ),
        before@.position(
            before.table_files@[i].schema@,
            before.table_files@[i].table@,
        ) == i,
        after.disk(i) == m2.file(before.table_files@[i].file_id).heap.pages,
{
    let pools = before.pool_manager@;
    let pools2 = after.pool_manager@;
    let a = before.table_files@[i];
    let m = pool_of(pools, a.pool_id);
    before.pool_manager.lemma_wf();
    after.pool_manager.lemma_wf();
    lemma_find_pool(pools, a.pool_id, 0);
    lemma_with_pool(pools, a.pool_id, m2, a.pool_id);
    assert(info_ok(pools, a));
    assert(file_keys(after.table_files@) =~= file_keys(before.table_files@));
    // The position of the table.
    lemma_find_table(before@.tables, a.schema@, a.table@, 0);
    assert(before@.tables[i].schema == a.schema@ && before@.tables[i].table == a.table@);
    let k = before@.position(a.schema@, a.table@);
    if k != i {
        assert(before@.tables[k].schema == before@.tables[i].schema);
    }
    // The pools.
    assert forall|q: int| 0 <= q < pools2.len() implies pool_rests(
        (#[trigger] pools2[q]).1,
    ) by {
        if q != find_pool(pools, a.pool_id, 0) {
            assert(pools2[q] == pools[q]);
        }
    }
    // The tables.
    let want = before@.with_heap(
        a.schema@,
        a.table@,
        heap_of(m2, a.file_id, after.table_files@[i].fsm@),
    );
    assert forall|j: int| 0 <= j < after.table_files@.len() implies info_ok(
        pools2,
        #[trigger] after.table_files@[j],
    ) && after@.tables[j] == want.tables[j] by {
        let b = before.table_files@[j];
        assert(info_ok(pools, b));
        lemma_with_pool(pools, a.pool_id, m2, b.pool_id);
        if j == i {
            assert(m2.registered(a.file_id) == m.registered(a.file_id));
        } else if b.pool_id == a.pool_id {
            let g = b.file_id;
            assert(g != a.file_id);
            assert(m2.registered(g) == m.registered(g));
            assert(m2.file(g).page_count == m.file(g).page_count);
            if m.frames.len() == 0 {
                lemma_frameless_log(m, g, m2);
            } else {
                assert forall|p: u64| p < m2.file(g).page_count implies #[trigger] m2.page(
                    g,
                    p,
                ) is Some && m2.page(g, p) == m.page(g, p) by {
                    assert(m.page(g, p) is Some);
                }
                assert forall|p: int| 0 <= p < m.file(g).page_count implies file_log(m2, g)[p]
                    == file_log(m, g)[p] by {
                    assert(m.files[g as int] is Some);
                    assert(m.file_ok(g as int));
                    assert(m.page(g, p as u64) is Some);
                }
                assert(file_log(m2, g) =~= file_log(m, g));
            }
            assert(before@.tables[j] == table_model(pools, b));
        } else {
            assert(before@.tables[j] == table_model(pools, b));
        }
    }
    assert(after@.tables =~= want.tables);
    assert(after@.pools =~= before@.pools) by {
        assert forall|q: int| 0 <= q < pools2.len() implies pool_info(pools2[q]) == pool_info(
            pools[q],
        ) by {
            if q != find_pool(pools, a.pool_id, 0) {
                assert(pools2[q] == pools[q]);
            }
        }
    }
    assert forall|x: int, y: int|
        0 <= x < after@.tables.len() && 0 <= y < after@.tables.len() && x != y implies !((
    #[trigger] after@.tables[x]).schema == (#[trigger] after@.tables[y]).schema
        && after@.tables[x].table == after@.tables[y].table) by {
        assert(after@.tables[x].schema == before@.tables[x].schema);
        assert(after@.tables[y].schema == before@.tables[y].schema);
        assert(after@.tables[x].table == before@.tables[x].table);
        assert(after@.tables[y].table == before@.tables[y].table);
    }
}

impl TablespaceManager {
    /// The pools are at rest, and each table has a file of its own in one of them.
    pub closed spec fn wf(&self) -> bool {
        &&& self.pool_manager.wf()
        &&& pools_rest(self.pool_manager@)
        &&& files_apart(self.table_files@)
        &&& self.tables_at@ == key_texts(file_keys(self.table_files@))
        &&& forall|i: int|
            0 <= i < self.table_files@.len() ==> info_ok(
                self.pool_manager@,
                #[trigger] self.table_files@[i],
            )
        &&& forall|i: int, j: int|
            0 <= i < self@.tables.len() && 0 <= j < self@.tables.len() && i != j ==> !((
            #[trigger] self@.tables[i]).schema == (#[trigger] self@.tables[j]).schema
                && self@.tables[i].table == self@.tables[j].table)
    }

    /// What holds of the tables.
    pub proof fn lemma_wf(&self)
        requires
            self.wf(),
        ensures
            self@.inv(),
    {
        assert forall|i: int| 0 <= i < self@.tables.len() implies heap_ok(
            (#[trigger] self@.tables[i]).heap,
        ) by {
            let info = self.table_files@[i];
            assert(info_ok(self.pool_manager@, info));
            let m = pool_of(self.pool_manager@, info.pool_id);
            if m.frames.len() > 0 {
                lemma_log_sound(m, info.file_id);
            }
            assert(m.files[info.file_id as int] is Some);
            assert(m.file_ok(info.file_id as int));
        }
    }

    /// The pages of the file of table `i` on disk.
    pub closed spec fn disk(&self, i: int) -> Seq<Seq<u8>> {
        let info = self.table_files@[i];
        pool_of(self.pool_manager@, info.pool_id).file(info.file_id).heap.pages
    }

    /// How many pages of each table are on disk.
    pub open spec fn on_disk(&self) -> Seq<nat> {
        Seq::new(self@.tables.len(), |i: int| self.disk(i).len())
    }

    /// Where a table is, or the number of tables.
    fn position(&self, schema: &str, table: &str) -> (r: usize)
        requires
            self.wf(),
        ensures
            r == self@.position(schema@, table@),
    {
        let found: Option<usize> = self.tables_at.get(key_string(schema, table).as_str());
        proof {
            let keys = file_keys(self.table_files@);
            lemma_key_index(keys, (schema@, table@));
            lemma_find_table(self@.tables, schema@, table@, 0);
            let k = self@.position(schema@, table@);
            match found {
                Some(i) => {
                    assert(keys[i as int] == (schema@, table@));
                    assert(self@.tables[i as int] == table_model(
                        self.pool_manager@,
                        self.table_files@[i as int],
                    ));
                    lemma_find_unique(self@.tables, schema@, table@, i as int);
                },
                None => {
                    if k < self@.tables.len() {
                        assert(self@.tables[k] == table_model(
                            self.pool_manager@,
                            self.table_files@[k],
                        ));
                        assert(keys[k] == (schema@, table@));
                    }
                },
            }
        }
        match found {
            Some(i) => i,
            None => self.table_files.len(),
        }
    }

    /// Whether a table is registered.
    pub fn has_table(&self, schema: &str, table: &str) -> (r: bool)
        requires
            self.wf(),
        ensures
            r == self@.has(schema@, table@),
    {
        self.position(schema, table) < self.table_files.len()
    }

    /// The number of registered tables.
    pub fn table_count(&self) -> (r: usize)
        ensures
            r == self@.tables.len(),
    {
        self.table_files.len()
    }

    /// Tells whether the pages of a table can be looked at.
    pub fn is_touchable(&self, schema: &str, table: &str) -> (r: bool)
        requires
            self.wf(),
        ensures
            r == can_touch(self@, schema@, table@),
    {
        let i: usize = self.position(schema, table);
        if i >= self.table_files.len() {
            return true;
        }
        proof {
            assert(info_ok(self.pool_manager@, self.table_files@[i as int]));
            lemma_find_pool(self.pool_manager@, self.table_files@[i as int].pool_id, 0);
        }
        match self.pool_manager.get(self.table_files[i].pool_id) {
            Ok(pool) => pool.capacity() == 0 || pool.page_size() >= CHECKSUM_END,
            Err(_) => true,
        }
    }

    /// Tells whether all pages of a table can be looked at.
    pub fn is_scannable(&self, schema: &str, table: &str) -> (r: bool)
        requires
            self.wf(),
        ensures
            r == can_scan(self@, schema@, table@),
    {
        let i: usize = self.position(schema, table);
        if i >= self.table_files.len() {
            return true;
        }
        proof {
            assert(info_ok(self.pool_manager@, self.table_files@[i as int]));
            lemma_find_pool(self.pool_manager@, self.table_files@[i as int].pool_id, 0);
        }
        match self.pool_manager.get(self.table_files[i].pool_id) {
            Ok(pool) => match pool.file_page_count(self.table_files[i].file_id) {
                Ok(0) => true,
                _ => self.is_touchable(schema, table),
            },
            Err(_) => true,
        }
    }

    /// All rows of a table, with their addresses, in the order of pages and slots.
    pub fn table_scan(&mut self, schema: &str, table: &str) -> (r: DbResult<Vec<(Rid, Vec<u8>)>>)
        requires
            old(self).wf(),
            can_scan(old(self)@, schema@, table@),
        ensures
            final(self).wf(),
            final(self)@ == old(self)@,
            if !old(self)@.has(schema@, table@) {
                r is Err && r->Err_0@ == no_table(schema@, table@)
            } else {
                let h = old(self)@.heap(schema@, table@);
                match r {
                    Ok(rows) => {
                        &&& h.scan_error(0) is None
                        &&& rid_rows(rows@) == all_rows(h.pages, h.pages.len() as int)
                    },
                    Err(e) => h.scan_error(0) == Some(e@),
                }
            },
    {
        let i: usize = self.position(schema, table);
        if i >= self.table_files.len() {
            return Err(no_table_error(schema, table));
        }
        let ghost info = self.table_files@[i as int];
        let ghost before = *self;
        proof {
            assert(info_ok(self.pool_manager@, info));
            self.pool_manager.lemma_wf();
            lemma_find_pool(self.pool_manager@, info.pool_id, 0);
            lemma_find_table(self@.tables, schema@, table@, 0);
            assert(self@.tables[i as int] == table_model(self.pool_manager@, info));
        }
        let pool_id: BufferPoolId = self.table_files[i].pool_id;
        let file_id: FileId = self.table_files[i].file_id;
        let ghost fsm = info.fsm@;
        let ghost m2: PoolModel;
        let r: DbResult<Vec<(Rid, Vec<u8>)>> = match self.pool_manager.get_mut(pool_id) {
            Ok(pool) => {
                let r = scan_rows(pool, file_id, Ghost(fsm));
                proof {
                    m2 = pool@;
                }
                r
            }
            Err(e) => {
                return Err(e);
            }
        };
        proof {
            lemma_table_worked(before, *self, i as int, m2);
            assert(self@.tables =~= before@.tables);
        }
        r
    }

    /// Adds a row to a table.
    pub fn insert_row(&mut self, schema: &str, table: &str, row: &[u8]) -> (r: DbResult<Rid>)
        requires
            old(self).wf(),
            can_touch(old(self)@, schema@, table@),
        ensures
            final(self).wf(),
            if !old(self)@.has(schema@, table@) {
                &&& r is Err
                &&& r->Err_0@ == no_table(schema@, table@)
                &&& final(self)@ == old(self)@
            } else {
                let h2 = final(self)@.heap(schema@, table@);
                let p = missing_page(old(self)@.heap(schema@, table@), row@.len());
                &&& final(self)@ == old(self)@.with_heap(schema@, table@, h2)
                &&& stored(old(self)@.heap(schema@, table@), row@, h2, r)
                &&& p is Some ==> says_missing(
                    r,
                    p->0,
                    final(self).on_disk()[old(self)@.position(schema@, table@)],
                )
            },
    {
        let i: usize = self.position(schema, table);
        if i >= self.table_files.len() {
            return Err(no_table_error(schema, table));
        }
        let ghost info = self.table_files@[i as int];
        let ghost before = *self;
        proof {
            assert(info_ok(self.pool_manager@, info));
            lemma_find_table(self@.tables, schema@, table@, 0);
            assert(self@.tables[i as int] == table_model(self.pool_manager@, info));
        }
        let pool_id: BufferPoolId = self.table_files[i].pool_id;
        let file_id: FileId = self.table_files[i].file_id;
        let ghost m2: PoolModel;
        let r: DbResult<Rid> = match self.pool_manager.get_mut(pool_id) {
            Ok(pool) => {
                let r = add_row(pool, &mut self.table_files[i].fsm, file_id, row);
                proof {
                    m2 = pool@;
                }
                r
            }
            Err(e) => {
                return Err(e);
            }
        };
        proof {
            lemma_table_worked(before, *self, i as int, m2);
            lemma_heap_set(before@, *self, schema@, table@, i as int);
        }
        r
    }

    /// The row at `rid` of a table.
    pub fn read_row(&mut self, schema: &str, table: &str, rid: Rid) -> (r: DbResult<Vec<u8>>)
        requires
            old(self).wf(),
            can_touch(old(self)@, schema@, table@),
        ensures
            final(self).wf(),
            final(self)@ == old(self)@,
            if !old(self)@.has(schema@, table@) {
                r is Err && r->Err_0@ == no_table(schema@, table@)
            } else {
                let h = old(self)@.heap(schema@, table@);
                match r {
                    Ok(row) => h.row(rid) == Some(row@),
                    Err(e) => {
                        &&& h.row(rid) is None
                        &&& if rid.page_id >= h.pages.len() && h.via != Access::Pool(0) {
                            says_missing(
                                r,
                                rid.page_id as nat,
                                final(self).on_disk()[old(self)@.position(schema@, table@)],
                            )
                        } else {
                            e@ == match h.page_error(rid.page_id as nat) {
                                Some(pe) => pe,
                                None => ErrorModel::Corruption(no_row_text(rid)),
                            }
                        }
                    },
                }
            },
    {
        let i: usize = self.position(schema, table);
        if i >= self.table_files.len() {
            return Err(no_table_error(schema, table));
        }
        let ghost info = self.table_files@[i as int];
        let ghost before = *self;
        let ghost m = pool_of(self.pool_manager@, info.pool_id);
        proof {
            assert(info_ok(self.pool_manager@, info));
            lemma_find_table(self@.tables, schema@, table@, 0);
            assert(self@.tables[i as int] == table_model(self.pool_manager@, info));
            assert(m.files[info.file_id as int] is Some);
            assert(m.file_ok(info.file_id as int));
        }
        let pool_id: BufferPoolId = self.table_files[i].pool_id;
        let file_id: FileId = self.table_files[i].file_id;
        let ghost m2: PoolModel;
        let ghost fsm = info.fsm@;
        let r: DbResult<Vec<u8>> = match self.pool_manager.get_mut(pool_id) {
            Ok(pool) => {
                let r = find_row(pool, file_id, rid, Ghost(fsm));
                proof {
                    m2 = pool@;
                }
                r
            }
            Err(e) => {
                return Err(e);
            }
        };
        proof {
            lemma_table_worked(before, *self, i as int, m2);
            assert(self@.tables =~= before@.tables);
        }
        r
    }

    /// Deletes the row at `rid` of a table; `false` where there is none.
    pub fn delete_row(&mut self, schema: &str, table: &str, rid: Rid) -> (r: DbResult<bool>)
        requires
            old(self).wf(),
            can_touch(old(self)@, schema@, table@),
        ensures
            final(self).wf(),
            if !old(self)@.has(schema@, table@) {
                &&& r is Err
                &&& r->Err_0@ == no_table(schema@, table@)
                &&& final(self)@ == old(self)@
            } else {
                let h2 = final(self)@.heap(schema@, table@);
                &&& final(self)@ == old(self)@.with_heap(schema@, table@, h2)
                &&& removed(old(self)@.heap(schema@, table@), rid, h2, r)
                &&& rid.page_id >= old(self)@.heap(schema@, table@).pages.len() && old(self)@.heap(
                    schema@,
                    table@,
                ).via != Access::Pool(0) ==> says_missing(
                    r,
                    rid.page_id as nat,
                    final(self).on_disk()[old(self)@.position(schema@, table@)],
                )
            },
    {
        let i: usize = self.position(schema, table);
        if i >= self.table_files.len() {
            return Err(no_table_error(schema, table));
        }
        let ghost info = self.table_files@[i as int];
        let ghost before = *self;
        proof {
            assert(info_ok(self.pool_manager@, info));
            lemma_find_table(self@.tables, schema@, table@, 0);
            assert(self@.tables[i as int] == table_model(self.pool_manager@, info));
        }
        let pool_id: BufferPoolId = self.table_files[i].pool_id;
        let file_id: FileId = self.table_files[i].file_id;
        let ghost m2: PoolModel;
        let r: DbResult<bool> = match self.pool_manager.get_mut(pool_id) {
            Ok(pool) => {
                let r = remove_row(pool, &mut self.table_files[i].fsm, file_id, rid);
                proof {
                    m2 = pool@;
                }
                r
            }
            Err(e) => {
                return Err(e);
            }
        };
        proof {
            lemma_table_worked(before, *self, i as int, m2);
            lemma_heap_set(before@, *self, schema@, table@, i as int);
        }
        r
    }

    /// Sets the row at `rid` of a table, and gives its address, which is another one where the
    /// row had to move.
    pub fn update_row(&mut self, schema: &str, table: &str, rid: Rid, row: &[u8]) -> (r: DbResult<
        Rid,
    >)
        requires
            old(self).wf(),
            can_touch(old(self)@, schema@, table@),
        ensures
            final(self).wf(),
            if !old(self)@.has(schema@, table@) {
                &&& r is Err
                &&& r->Err_0@ == no_table(schema@, table@)
                &&& final(self)@ == old(self)@
            } else {
                let h2 = final(self)@.heap(schema@, table@);
                let p = missing_for_update(old(self)@.heap(schema@, table@), rid, row@.len());
                &&& final(self)@ == old(self)@.with_heap(schema@, table@, h2)
                &&& replaced(old(self)@.heap(schema@, table@), rid, row@, h2, r)
                &&& p is Some ==> says_missing(
                    r,
                    p->0,
                    final(self).on_disk()[old(self)@.position(schema@, table@)],
                )
            },
    {
        let i: usize = self.position(schema, table);
        if i >= self.table_files.len() {
            return Err(no_table_error(schema, table));
        }
        let ghost info = self.table_files@[i as int];
        let ghost before = *self;
        proof {
            assert(info_ok(self.pool_manager@, info));
            lemma_find_table(self@.tables, schema@, table@, 0);
            assert(self@.tables[i as int] == table_model(self.pool_manager@, info));
        }
        let pool_id: BufferPoolId = self.table_files[i].pool_id;
        let file_id: FileId = self.table_files[i].file_id;
        let ghost m2: PoolModel;
        let r: DbResult<Rid> = match self.pool_manager.get_mut(pool_id) {
            Ok(pool) => {
                let r = replace_row(pool, &mut self.table_files[i].fsm, file_id, rid, row);
                proof {
                    m2 = pool@;
                }
                r
            }
            Err(e) => {
                return Err(e);
            }
        };
        proof {
            lemma_table_worked(before, *self, i as int, m2);
            lemma_heap_set(before@, *self, schema@, table@, i as int);
        }
        r
    }
}

/// After work on a table, the table is found where it was.
proof fn lemma_heap_set(
    before: TsmModel,
    after: TablespaceManager,
    schema: Seq<char>,
    table: Seq<char>,
    i: int,
)
    requires
        0 <= i < before.tables.len(),
        before.position(schema, table) == i,
        after.wf(),
        after@ == before.with_heap(schema, table, after@.tables[i].heap),
    ensures
        after@.position(schema, table) == i,
        after@.heap(schema, table) == after@.tables[i].heap,
{
    lemma_find_table(before.tables, schema, table, 0);
    lemma_find_table(after@.tables, schema, table, 0);
    let k = after@.position(schema, table);
    assert(after@.tables[i].schema == schema && after@.tables[i].table == table);
    if k != i {
        assert(after@.tables[k].schema == after@.tables[i].schema);
    }
}

// ── Files of the tables ──

/// After everything was flushed a file on disk has exactly the pages that the pool shows.
proof fn lemma_flushed_file(m: PoolModel, f: FileId)
    requires
        attached(m, f),
        m.frames.len() > 0,
    ensures
        ({
            let t = m.flushed_to(m.frames.len() as int);
            &&& worked(m, f, t)
            &&& attached(t, f)
            &&& file_log(t, f) == file_log(m, f)
            &&& t.file(f).heap.pages == file_log(m, f)
        }),
{
    let n = m.frames.len() as int;
    let t = m.flushed_to(n);
    lemma_flushed_to(m, n);
    assert(m.files[f as int] is Some);
    assert(m.file_ok(f as int));
    assert(t.registered(f) == m.registered(f));
    assert(t.files[f as int] is Some);
    assert(t.file_ok(f as int));
    assert(t.file(f).page_count == m.file(f).page_count);
    assert forall|j: int| 0 <= j < t.frames.len() implies (#[trigger] t.frames[j]).pin_count
        == 0 by {
        assert(m.frames[j].pin_count == 0);
    }
    lemma_log_kept(m, f, t);
    assert forall|p: int| 0 <= p < m.file(f).page_count implies p < t.file(f).heap.pages.len()
        && t.file(f).heap.pages[p] == file_log(m, f)[p] by {
        let q = p as u64;
        assert(m.page(f, q) is Some);
        assert(t.page(f, q) == m.page(f, q));
        law_flush_all_writes_everything(m, f, q);
        lemma_find_frame(m.frames, f, q, 0);
        lemma_find_frame(t.frames, f, q, 0);
        if !m.resident(f, q) && t.resident(f, q) {
            let i = t.frame_of(f, q);
            assert(m.frames[i].holds(f, q));
            lemma_frame_is(m, -1, f, q, i);
        }
    }
    if m.file(f).page_count > 0 {
        let last = m.file(f).page_count - 1;
        assert(t.file(f).heap.pages[last] == file_log(m, f)[last]);
    }
    assert(t.file(f).heap.pages =~= file_log(m, f));
}

/// The bytes of the files of a table.
pub struct TableImage {
    /// The `.DAT` file.
    pub dat: Vec<u8>,
    /// The `.FSM` file.
    pub fsm: Vec<u8>,
}

/// An empty table, whose pages go through a pool of so many frames.
pub open spec fn empty_heap(page_size: nat, frames: nat) -> HeapModel {
    HeapModel {
        page_size,
        pages: Seq::empty(),
        fsm: FsmModel { page_size, cats: Seq::empty() },
        via: Access::Pool(frames),
    }
}

/// The error for a tablespace that does not exist.
pub open spec fn no_space(id: int, schema: Seq<char>, table: Seq<char>) -> ErrorModel {
    ErrorModel::Catalog(
        "tablespace "@ + int_text(id) + " not found for table "@ + schema + "."@ + table,
    )
}

impl TsmModel {
    /// The manager with a table put at the end, or in the place of one of the same name.
    pub open spec fn with_table(
        self,
        schema: Seq<char>,
        table: Seq<char>,
        heap: HeapModel,
    ) -> TsmModel {
        if self.has(schema, table) {
            self.with_heap(schema, table, heap)
        } else {
            TsmModel { tables: self.tables.push(TableModel { schema, table, heap }), ..self }
        }
    }

    /// The manager with one more file registered with a pool.
    pub open spec fn with_file(self, pool_id: BufferPoolId) -> TsmModel {
        let k = find_info(self.pools, pool_id, 0);
        TsmModel {
            pools: self.pools.update(
                k,
                PoolInfo { files: self.pools[k].files + 1, ..self.pools[k] },
            ),
            ..self
        }
    }

    /// The manager without a table.
    pub open spec fn without_table(self, schema: Seq<char>, table: Seq<char>) -> TsmModel {
        TsmModel { tables: self.tables.remove(self.position(schema, table)), ..self }
    }
}

impl TablespaceManager {
    /// Writes all changed pages to the files.
    pub fn flush_all(&mut self) -> (r: DbResult<()>)
        requires
            old(self).wf(),
        ensures
            final(self).wf(),
            r is Ok,
            final(self)@ == old(self)@,
            forall|i: int|
                0 <= i < final(self)@.tables.len() && final(self)@.tables[i].heap.via
                    != Access::Pool(0) ==> #[trigger] final(self).disk(i)
                    == final(self)@.tables[i].heap.pages,
    {
        let ghost before = *self;
        let r: DbResult<()> = self.pool_manager.flush_all();
        proof {
            let pools = before.pool_manager@;
            let pools2 = self.pool_manager@;
            before.pool_manager.lemma_wf();
            self.pool_manager.lemma_wf();
            assert forall|k: int| 0 <= k < pools2.len() implies pool_rests(
                (#[trigger] pools2[k]).1,
            ) && pool_infos(pools2)[k] == pool_infos(pools)[k] by {
                let m = pools[k].1;
                assert(pool_rests(m));
                lemma_flushed_to(m, m.frames.len() as int);
                let t = pools2[k].1;
                assert forall|j: int| 0 <= j < t.frames.len() implies (
                #[trigger] t.frames[j]).pin_count == 0 by {
                    assert(m.frames[j].pin_count == 0);
                }
            }
            assert forall|j: int| 0 <= j < self.table_files@.len() implies info_ok(
                pools2,
                #[trigger] self.table_files@[j],
            ) && self@.tables[j] == before@.tables[j] && (self@.tables[j].heap.via
                != Access::Pool(0) ==> self.disk(j) == self@.tables[j].heap.pages) by {
                let info = before.table_files@[j];
                assert(info_ok(pools, info));
                lemma_find_pool(pools, info.pool_id, 0);
                let k = find_pool(pools, info.pool_id, 0);
                assert(pools2[k].0 == info.pool_id);
                lemma_pool_is(pools2, info.pool_id, k);
                if pools[k].1.frames.len() > 0 {
                    lemma_flushed_file(pools[k].1, info.file_id);
                }
            }
            assert(self@.tables =~= before@.tables);
            assert(self@.pools =~= before@.pools);
        }
        r
    }

    /// The bytes of the files of a table. They are up to date after
    /// [`TablespaceManager::flush_all`].
    pub fn table_image(&self, schema: &str, table: &str) -> (r: DbResult<TableImage>)
        requires
            self.wf(),
        ensures
            match r {
                Ok(image) => {
                    let i = self@.position(schema@, table@);
                    let fsm = self@.heap(schema@, table@).fsm;
                    &&& self@.has(schema@, table@)
                    &&& image.dat@ == joined(self.disk(i), self.disk(i).len() as int)
                    &&& image.fsm@ == saved_map(fsm)
                },
                Err(e) => !self@.has(schema@, table@) && e@ == no_table(schema@, table@),
            },
    {
        let i: usize = self.position(schema, table);
        if i >= self.table_files.len() {
            return Err(no_table_error(schema, table));
        }
        let info: &TableFileInfo = &self.table_files[i];
        proof {
            assert(info_ok(self.pool_manager@, self.table_files@[i as int]));
            assert(self@.tables[i as int] == table_model(self.pool_manager@, *info));
        }
        let pool: &BufferPool = match self.pool_manager.get(info.pool_id) {
            Ok(p) => p,
            Err(e) => {
                return Err(e);
            }
        };
        match pool.file_heap(info.file_id) {
            Some(heap) => Ok(TableImage { dat: heap.file_bytes(), fsm: info.fsm.save() }),
            None => Err(no_table_error(schema, table)),
        }
    }

    /// The pools, for diagnostics. Between two calls no page is pinned: whatever comes of a call,
    /// it releases the pages that it fetched.
    pub fn pool_manager(&self) -> (r: &BufferPoolManager)
        requires
            self.wf(),
        ensures
            r.wf(),
            pool_infos(r@) == self@.pools,
            forall|k: int| 0 <= k < r@.len() ==> (#[trigger] r@[k]).1.quiet(),
    {
        assert(pools_rest(self.pool_manager@));
        &self.pool_manager
    }

    /// Takes a table out of the manager. Its pages leave the pool without being written: its files
    /// are to be deleted.
    pub fn drop_table(&mut self, schema: &str, table: &str) -> (r: DbResult<()>)
        requires
            old(self).wf(),
        ensures
            final(self).wf(),
            if old(self)@.has(schema@, table@) {
                r is Ok && final(self)@ == old(self)@.without_table(schema@, table@)
            } else {
                &&& r is Err
                &&& r->Err_0@ == no_table(schema@, table@)
                &&& final(self)@ == old(self)@
            },
    {
        let i: usize = self.position(schema, table);
        if i >= self.table_files.len() {
            return Err(no_table_error(schema, table));
        }
        let ghost before = *self;
        proof {
            assert(info_ok(self.pool_manager@, self.table_files@[i as int]));
        }
        let pool_id: BufferPoolId = self.table_files[i].pool_id;
        let file_id: FileId = self.table_files[i].file_id;
        match self.pool_manager.evict_file(pool_id, file_id) {
            Ok(_) => {}
            Err(e) => {
                return Err(e);
            }
        }
        let _gone: TableFileInfo = self.table_files.remove(i);
        self.tables_at = index_files(&self.table_files);
        proof {
            lemma_file_dropped(before, *self, i as int);
            let want = before@.without_table(schema@, table@);
            assert(self@.tables =~= want.tables);
            assert(self@.pools =~= want.pools);
        }
        Ok(())
    }

    /// Where a tablespace is, or the number of tablespaces.
    fn space_position(&self, id: i32) -> (r: usize)
        ensures
            r == find_space(self@.spaces, id, 0),
    {
        let n: usize = self.spaces.len();
        let mut i: usize = 0;
        while i < n
            invariant
                i <= n,
                n == self.spaces@.len(),
                find_space(self@.spaces, id, 0) == find_space(self@.spaces, id, i as int),
            decreases n - i,
        {
            if self.spaces[i].tbspaceid == id {
                return i;
            }
            i += 1;
        }
        n
    }

    /// Gives a new table an empty file in a tablespace.
    pub fn register_new_table(&mut self, schema: &str, table: &str, tbspaceid: i32) -> (r: DbResult<
        (),
    >)
        requires
            old(self).wf(),
            space_ready(old(self)@, tbspaceid),
        ensures
            final(self).wf(),
            pools_alike(final(self)@.pools, old(self)@.pools),
            ({
                let k = find_space(old(self)@.spaces, tbspaceid, 0);
                if k >= old(self)@.spaces.len() {
                    &&& r is Err
                    &&& r->Err_0@ == no_space(tbspaceid as int, schema@, table@)
                    &&& final(self)@ == old(self)@
                } else {
                    let space = old(self)@.spaces[k];
                    match file_error(old(self)@.pools, space) {
                        Some(e) => {
                            &&& r is Err
                            &&& r->Err_0@ == e
                            &&& final(self)@ == old(self)@
                        },
                        None => {
                            &&& r is Ok
                            &&& final(self)@ == old(self)@.with_table(
                                schema@,
                                table@,
                                empty_heap(
                                    space.page_size as nat,
                                    frames_of(old(self)@.pools, space.pool_id),
                                ),
                            ).with_file(space.pool_id)
                        },
                    }
                }
            }),
    {
        let k: usize = self.space_position(tbspaceid);
        if k >= self.spaces.len() {
            return Err(
                Error::Catalog(
                    "tablespace ".to_owned().concat(
                        decimal_signed(tbspaceid as i64).as_str(),
                    ).concat(" not found for table ").concat(schema).concat(".").concat(table),
                ),
            );
        }
        let space: SpaceInfo = self.spaces[k];
        let heap: HeapFile = match HeapFile::create(space.page_size) {
            Ok(h) => h,
            Err(e) => {
                return Err(e);
            }
        };
        let fsm: FreeSpaceMap = FreeSpaceMap::new(0, space.page_size);
        assert(fsm@.cats =~= Seq::<u8>::empty());
        proof {
            lemma_info_at(self@.pools, space.pool_id, 0);
        }
        self.add_table(schema, table, space.pool_id, heap, fsm)
    }

    /// Tells whether a tablespace has what a new file asks of it.
    pub fn is_space_ready(&self, tbspaceid: i32) -> (r: bool)
        requires
            self.wf(),
        ensures
            r == space_ready(self@, tbspaceid),
    {
        let k: usize = self.space_position(tbspaceid);
        if k >= self.spaces.len() {
            return true;
        }
        let space: SpaceInfo = self.spaces[k];
        if self.check_register(space.pool_id, space.page_size).is_err() {
            return true;
        }
        proof {
            lemma_find_info(self.pool_manager@, space.pool_id, 0);
            lemma_find_pool(self.pool_manager@, space.pool_id, 0);
        }
        match self.pool_manager.get(space.pool_id) {
            Ok(_) => is_usable(space.page_size),
            Err(_) => true,
        }
    }

    /// Registers the file of a table.
    fn add_table(
        &mut self,
        schema: &str,
        table: &str,
        pool_id: BufferPoolId,
        heap: HeapFile,
        fsm: FreeSpaceMap,
    ) -> (r: DbResult<()>)
        requires
            old(self).wf(),
            heap.wf(),
            fsm.wf(),
            register_error(old(self)@.pools, pool_id, heap@.page_size) is None ==> {
                &&& usable(heap@.page_size)
                &&& pages_sound(heap@.pages)
            },
        ensures
            final(self).wf(),
            match register_error(old(self)@.pools, pool_id, heap@.page_size) {
                Some(e) => r is Err && r->Err_0@ == e && final(self)@ == old(self)@,
                None => {
                    &&& r is Ok
                    &&& final(self)@ == old(self)@.with_table(
                        schema@,
                        table@,
                        (HeapModel {
                            page_size: heap@.page_size,
                            pages: heap@.pages,
                            fsm: fsm@,
                            via: Access::Pool(frames_of(old(self)@.pools, pool_id)),
                        }),
                    ).with_file(pool_id)
                },
            },
    {
        let ghost before = *self;
        let ghost h = heap@;
        let ghost pools = self.pool_manager@;
        proof {
            self.pool_manager.lemma_wf();
            lemma_find_pool(pools, pool_id, 0);
            lemma_find_info(pools, pool_id, 0);
        }
        match self.pool_manager.get(pool_id) {
            Ok(pool) => {
                if pool.file_count() >= u32::MAX as usize {
                    return Err(Error::Io("too many files".to_owned()));
                }
            }
            Err(e) => {
                return Err(e);
            }
        }
        proof {
            heap.lemma_wf();
        }
        let file_id: FileId = match self.pool_manager.register_file(pool_id, heap) {
            Ok(f) => f,
            Err(e) => {
                proof {
                    assert(self@.tables =~= before@.tables);
                    assert(self@.pools =~= before@.pools);
                    assert(self.table_files == before.table_files);
                }
                return Err(e);
            }
        };
        proof {
            lemma_file_added(before, *self, pool_id, h);
        }
        let info = TableFileInfo {
            schema: schema.to_owned(),
            table: table.to_owned(),
            pool_id,
            file_id,
            fsm,
        };
        let ghost info_view = info;
        let ghost mid = *self;
        let i: usize = self.position(schema, table);
        proof {
            lemma_find_table(before@.tables, schema@, table@, 0);
            assert(self@.tables =~= before@.tables);
        }
        if i < self.table_files.len() {
            self.table_files.set(i, info);
        } else {
            self.table_files.push(info);
        }
        self.tables_at = index_files(&self.table_files);
        proof {
            lemma_table_added(mid, *self, i as int, info_view);
            let want = before@.with_table(
                schema@,
                table@,
                HeapModel {
                    page_size: h.page_size,
                    pages: h.pages,
                    fsm: info_view.fsm@,
                    via: Access::Pool(frames_of(before@.pools, pool_id)),
                },
            ).with_file(pool_id);
            assert(self@.tables =~= want.tables);
            assert(self@.pools =~= want.pools);
        }
        Ok(())
    }
}

/// What taking the file of table `i` out of its pool, and the table off the list, makes of the
/// manager.
proof fn lemma_file_dropped(before: TablespaceManager, after: TablespaceManager, i: int)
    requires
        before.wf(),
        0 <= i < before.table_files@.len(),
        after.spaces == before.spaces,
        after.table_files@ == before.table_files@.remove(i),
        after.tables_at@ == key_texts(file_keys(after.table_files@)),
        after.pool_manager.wf(),
        ({
            let a = before.table_files@[i];
            let m = pool_of(before.pool_manager@, a.pool_id);
            after.pool_manager@ == with_pool(
                before.pool_manager@,
                a.pool_id,
                m.dropped(a.file_id),
            )
        }),
    ensures
        after.wf(),
        after@.pools == before@.pools,
        after@.tables.len() == before@.tables.len() - 1,
        forall|j: int|
            0 <= j < after@.tables.len() ==> #[trigger] after@.tables[j] == before@.tables[if j
                < i {
                j
            } else {
                j + 1
            }],
{
    let pools = before.pool_manager@;
    let pools2 = after.pool_manager@;
    let a = before.table_files@[i];
    let m = pool_of(pools, a.pool_id);
    let m2 = m.dropped(a.file_id);
    before.pool_manager.lemma_wf();
    after.pool_manager.lemma_wf();
    assert(info_ok(pools, a));
    lemma_find_pool(pools, a.pool_id, 0);
    lemma_with_pool(pools, a.pool_id, m2, a.pool_id);
    lemma_dropped(m, a.file_id);
    assert(m2.frames.len() == m.frames.len());
    assert(after@.pools =~= before@.pools) by {
        assert forall|q: int| 0 <= q < pools2.len() implies pool_info(pools2[q]) == pool_info(
            pools[q],
        ) by {
            if q != find_pool(pools, a.pool_id, 0) {
                assert(pools2[q] == pools[q]);
            }
        }
    }
    assert forall|q: int| 0 <= q < pools2.len() implies pool_rests(
        (#[trigger] pools2[q]).1,
    ) by {
        if q != find_pool(pools, a.pool_id, 0) {
            assert(pools2[q] == pools[q]);
        }
    }
    assert forall|j: int| 0 <= j < after.table_files@.len() implies info_ok(
        pools2,
        #[trigger] after.table_files@[j],
    ) && after@.tables[j] == before@.tables[if j < i {
        j
    } else {
        j + 1
    }] by {
        let k = if j < i {
            j
        } else {
            j + 1
        };
        let b = before.table_files@[k];
        assert(after.table_files@[j] == b);
        assert(info_ok(pools, b));
        assert(before@.tables[k] == table_model(pools, b));
        lemma_with_pool(pools, a.pool_id, m2, b.pool_id);
        if b.pool_id == a.pool_id {
            let g = b.file_id;
            assert(before.table_files@[i] == a);
            assert(g != a.file_id);
            assert(m2.registered(g) == m.registered(g));
            assert(m2.file(g) == m.file(g));
            if m.frames.len() == 0 {
                lemma_frameless_log(m, g, m2);
            } else {
                lemma_same_log(m, g, m2);
            }
        }
    }
    assert forall|x: int, y: int|
        0 <= x < after.table_files@.len() && 0 <= y < after.table_files@.len() && x != y implies !((
    #[trigger] after.table_files@[x]).pool_id == (#[trigger] after.table_files@[y]).pool_id
        && after.table_files@[x].file_id == after.table_files@[y].file_id) by {
        let kx = if x < i { x } else { x + 1 };
        let ky = if y < i { y } else { y + 1 };
        assert(after.table_files@[x] == before.table_files@[kx]);
        assert(after.table_files@[y] == before.table_files@[ky]);
    }
    assert forall|x: int, y: int|
        0 <= x < after@.tables.len() && 0 <= y < after@.tables.len() && x != y implies !((
    #[trigger] after@.tables[x]).schema == (#[trigger] after@.tables[y]).schema
        && after@.tables[x].table == after@.tables[y].table) by {
        let kx = if x < i { x } else { x + 1 };
        let ky = if y < i { y } else { y + 1 };
        assert(after.table_files@[x] == before.table_files@[kx]);
        assert(after.table_files@[y] == before.table_files@[ky]);
        assert(after@.tables[x] == before@.tables[kx]);
        assert(after@.tables[y] == before@.tables[ky]);
    }
    assert forall|j: int| 0 <= j < after@.tables.len() implies #[trigger] after@.tables[j]
        == before@.tables[if j < i {
        j
    } else {
        j + 1
    }] by {
        assert(info_ok(pools2, after.table_files@[j]));
    }
}

/// A file that is the same in two pools without a frame shows the same pages.
proof fn lemma_frameless_log(m: PoolModel, g: FileId, m2: PoolModel)
    requires
        m.frames.len() == 0,
        m2.frames.len() == 0,
        m.registered(g),
        m2.registered(g),
        m2.file(g) == m.file(g),
    ensures
        file_log(m2, g) == file_log(m, g),
{
    assert forall|p: int| 0 <= p < m.file(g).page_count implies file_log(m2, g)[p] == file_log(
        m,
        g,
    )[p] by {
        assert(find_frame(m.frames, g, p as u64, 0) == 0);
        assert(find_frame(m2.frames, g, p as u64, 0) == 0);
    }
    assert(file_log(m2, g) =~= file_log(m, g));
}

/// A file whose pages show the same in two pools.
proof fn lemma_same_log(m: PoolModel, g: FileId, m2: PoolModel)
    requires
        m.inv(),
        m.registered(g),
        no_holes(m, g),
        m2.file(g).page_count == m.file(g).page_count,
        forall|q: PageId| m.page(g, q) is Some ==> #[trigger] m2.page(g, q) == m.page(g, q),
    ensures
        file_log(m2, g) == file_log(m, g),
        no_holes(m2, g),
{
    assert(m.files[g as int] is Some);
    assert(m.file_ok(g as int));
    assert forall|p: u64| p < m2.file(g).page_count implies #[trigger] m2.page(g, p) is Some by {
        assert(m.page(g, p) is Some);
    }
    assert forall|p: int| 0 <= p < m.file(g).page_count implies file_log(m2, g)[p] == file_log(
        m,
        g,
    )[p] by {
        assert(m.page(g, p as u64) is Some);
    }
    assert(file_log(m2, g) =~= file_log(m, g));
}

/// What registering a file makes of the manager, before a table has it.
proof fn lemma_file_added(
    before: TablespaceManager,
    after: TablespaceManager,
    pool_id: BufferPoolId,
    h: HeapModel,
)
    requires
        before.wf(),
        after.spaces == before.spaces,
        after.table_files == before.table_files,
        after.tables_at == before.tables_at,
        after.pool_manager.wf(),
        has_pool(before.pool_manager@, pool_id),
        pool_of(before.pool_manager@, pool_id).files.len() < u32::MAX,
        h.page_size == pool_of(before.pool_manager@, pool_id).page_size,
        h.pages.len() <= u64::MAX,
        ({
            let m = pool_of(before.pool_manager@, pool_id);
            after.pool_manager@ == with_pool(
                before.pool_manager@,
                pool_id,
                PoolModel {
                    files: m.files.push(
                        Some(FileModel { heap: h, page_count: h.pages.len() }),
                    ),
                    ..m
                },
            )
        }),
    ensures
        after.wf(),
        after@.tables == before@.tables,
        after@.pools == before@.with_file(pool_id).pools,
        ({
            let f = pool_of(before.pool_manager@, pool_id).files.len() as u32;
            let m2 = pool_of(after.pool_manager@, pool_id);
            &&& has_pool(after.pool_manager@, pool_id)
            &&& attached(m2, f)
            &&& m2.frames.len() == frames_of(before@.pools, pool_id)
            &&& file_log(m2, f) == h.pages
            &&& m2.page_size == h.page_size
            &&& forall|j: int|
                0 <= j < after.table_files@.len() ==> !((
                #[trigger] after.table_files@[j]).pool_id == pool_id
                    && after.table_files@[j].file_id == f)
        }),
{
    let pools = before.pool_manager@;
    let pools2 = after.pool_manager@;
    let m = pool_of(pools, pool_id);
    let e = FileModel { heap: h, page_count: h.pages.len() };
    let m2 = PoolModel { files: m.files.push(Some(e)), ..m };
    let f = m.files.len() as u32;
    before.pool_manager.lemma_wf();
    after.pool_manager.lemma_wf();
    lemma_find_pool(pools, pool_id, 0);
    lemma_with_pool(pools, pool_id, m2, pool_id);
    let k0 = find_pool(pools, pool_id, 0);
    lemma_find_info(pools, pool_id, 0);
    assert(pool_rests(pools[k0].1));
    assert(pools2[k0].1 == m2);
    assert(after@.pools =~= before@.with_file(pool_id).pools) by {
        assert forall|q: int| 0 <= q < pools2.len() implies after@.pools[q] == before@.with_file(
            pool_id,
        ).pools[q] by {
            if q != k0 {
                assert(pools2[q] == pools[q]);
            }
        }
    }
    assert(m2.inv());
    assert(at_rest(m2)) by {
        assert forall|j: int| 0 <= j < m2.frames.len() implies (#[trigger] m2.frames[j]).pin_count
            == 0 by {
            assert(m.frames[j].pin_count == 0);
        }
    }
    assert forall|q: int| 0 <= q < pools2.len() implies pool_rests(
        (#[trigger] pools2[q]).1,
    ) by {
        if q != k0 {
            assert(pools2[q] == pools[q]);
        }
    }
    // The new file is in no frame.
    assert forall|p: u64| p < m2.file(f).page_count implies #[trigger] m2.page(f, p) == Some(
        h.pages[p as int],
    ) by {
        assert forall|j: int| 0 <= j < m2.frames.len() implies !(#[trigger] m2.frames[j]).holds(
            f,
            p,
        ) by {
            if m.frames[j].in_use {
                assert(m.frame_ok(j));
            }
        }
        lemma_frame_none(m2.frames, f, p);
    }
    assert(file_log(m2, f) =~= h.pages) by {
        assert forall|p: int| 0 <= p < h.pages.len() implies file_log(m2, f)[p] == h.pages[p] by {
            assert(m2.page(f, p as u64) == Some(h.pages[p]));
        }
    }
    assert forall|j: int| 0 <= j < after.table_files@.len() implies info_ok(
        pools2,
        #[trigger] after.table_files@[j],
    ) && after@.tables[j] == before@.tables[j] && !(after.table_files@[j].pool_id == pool_id
        && after.table_files@[j].file_id == f) by {
        let b = before.table_files@[j];
        assert(info_ok(pools, b));
        assert(before@.tables[j] == table_model(pools, b));
        lemma_with_pool(pools, pool_id, m2, b.pool_id);
        if b.pool_id == pool_id {
            let g = b.file_id;
            assert(m2.file(g) == m.file(g));
            assert(m2.registered(g));
            assert forall|q: PageId| m.page(g, q) is Some implies #[trigger] m2.page(g, q)
                == m.page(g, q) by {}
            if m.frames.len() == 0 {
                lemma_frameless_log(m, g, m2);
            } else {
                lemma_same_log(m, g, m2);
            }
        }
    }
    assert(after@.tables =~= before@.tables);
}

/// What giving a registered file to a table makes of the manager: the table is put at the end, or
/// in the place `i` of one of the same name.
proof fn lemma_table_added(
    before: TablespaceManager,
    after: TablespaceManager,
    i: int,
    info: TableFileInfo,
)
    requires
        before.wf(),
        after.spaces == before.spaces,
        after.pool_manager == before.pool_manager,
        after.tables_at@ == key_texts(file_keys(after.table_files@)),
        i == before@.position(info.schema@, info.table@),
        after.table_files@ == if i < before.table_files@.len() {
            before.table_files@.update(i, info)
        } else {
            before.table_files@.push(info)
        },
        info_ok(before.pool_manager@, info),
        forall|j: int|
            0 <= j < before.table_files@.len() ==> !((#[trigger] before.table_files@[j]).pool_id
                == info.pool_id && before.table_files@[j].file_id == info.file_id),
    ensures
        after.wf(),
        after@.tables == if i < before@.tables.len() {
            before@.tables.update(i, table_model(before.pool_manager@, info))
        } else {
            before@.tables.push(table_model(before.pool_manager@, info))
        },
{
    lemma_find_table(before@.tables, info.schema@, info.table@, 0);
    let pools = before.pool_manager@;
    let want = if i < before@.tables.len() {
        before@.tables.update(i, table_model(pools, info))
    } else {
        before@.tables.push(table_model(pools, info))
    };
    assert forall|j: int| 0 <= j < after.table_files@.len() implies info_ok(
        pools,
        #[trigger] after.table_files@[j],
    ) by {
        if j != i && j < before.table_files@.len() {
            assert(info_ok(pools, before.table_files@[j]));
        }
    }
    assert(after@.tables =~= want);
    assert forall|x: int, y: int|
        0 <= x < after.table_files@.len() && 0 <= y < after.table_files@.len() && x != y implies !((
    #[trigger] after.table_files@[x]).pool_id == (#[trigger] after.table_files@[y]).pool_id
        && after.table_files@[x].file_id == after.table_files@[y].file_id) by {
        if x != i && y != i {
            assert(after.table_files@[x] == before.table_files@[x]);
            assert(after.table_files@[y] == before.table_files@[y]);
        } else if x != i {
            assert(after.table_files@[x] == before.table_files@[x]);
        } else {
            assert(after.table_files@[y] == before.table_files@[y]);
        }
    }
    assert forall|x: int, y: int|
        0 <= x < after@.tables.len() && 0 <= y < after@.tables.len() && x != y implies !((
    #[trigger] after@.tables[x]).schema == (#[trigger] after@.tables[y]).schema
        && after@.tables[x].table == after@.tables[y].table) by {
        if x != i && y != i {
            assert(after@.tables[x] == before@.tables[x]);
            assert(after@.tables[y] == before@.tables[y]);
        } else if x != i {
            assert(after@.tables[x] == before@.tables[x]);
            if i < before@.tables.len() {
                assert(before@.tables[i].schema == info.schema@);
            }
        } else {
            assert(after@.tables[y] == before@.tables[y]);
            if i < before@.tables.len() {
                assert(before@.tables[i].schema == info.schema@);
            }
        }
    }
}

/// How many frames a pool has.
pub open spec fn frames_of(pools: Seq<PoolInfo>, pool_id: BufferPoolId) -> nat {
    pools[find_info(pools, pool_id, 0)].frames
}

/// Why a file of pages of `page_size` bytes cannot be registered with a pool, if so.
pub open spec fn register_error(
    pools: Seq<PoolInfo>,
    pool_id: BufferPoolId,
    page_size: nat,
) -> Option<ErrorModel> {
    let k = find_info(pools, pool_id, 0);
    if k >= pools.len() {
        Some(no_pool(pool_id))
    } else if pools[k].files >= u32::MAX {
        Some(ErrorModel::Io("too many files"@))
    } else if page_size != pools[k].page_size {
        Some(ErrorModel::Catalog(size_mismatch_text(pools[k].page_size, page_size)))
    } else {
        None
    }
}

/// Why a tablespace cannot take a new file, if so.
pub open spec fn file_error(pools: Seq<PoolInfo>, space: SpaceInfo) -> Option<ErrorModel> {
    register_error(pools, space.pool_id, space.page_size as nat)
}

/// Whether in a tablespace that takes a new file the checksum tells the pages that were written
/// from those that never were.
pub open spec fn space_ready(t: TsmModel, id: i32) -> bool {
    let k = find_space(t.spaces, id, 0);
    k < t.spaces.len() && file_error(t.pools, t.spaces[k]) is None ==> usable(
        t.spaces[k].page_size as nat,
    )
}

/// Whether the pages of a table can be looked at, if there is one of that name.
pub open spec fn can_touch(t: TsmModel, schema: Seq<char>, table: Seq<char>) -> bool {
    t.has(schema, table) ==> touchable(t.heap(schema, table))
}

/// Whether all pages of a table can be looked at, if there is one of that name.
pub open spec fn can_scan(t: TsmModel, schema: Seq<char>, table: Seq<char>) -> bool {
    t.has(schema, table) ==> scannable(t.heap(schema, table))
}

/// Whether the pages that could be looked at still can.
pub open spec fn touch_kept(t: TsmModel, t2: TsmModel) -> bool {
    forall|schema: Seq<char>, table: Seq<char>|
        can_touch(t, schema, table) ==> #[trigger] can_touch(t2, schema, table)
}

/// Whether the tables that could be scanned still can.
pub open spec fn scan_kept(t: TsmModel, t2: TsmModel) -> bool {
    forall|schema: Seq<char>, table: Seq<char>|
        can_scan(t, schema, table) ==> #[trigger] can_scan(t2, schema, table)
}

/// Setting the pages of a table to others of their size keeps what can be looked at.
pub proof fn lemma_touch_kept(t: TsmModel, schema: Seq<char>, table: Seq<char>, heap: HeapModel)
    requires
        t.has(schema, table),
        heap.page_size == t.heap(schema, table).page_size,
        heap.via == t.heap(schema, table).via,
    ensures
        touch_kept(t, t.with_heap(schema, table, heap)),
        heap.pages.len() == t.heap(schema, table).pages.len() ==> scan_kept(
            t,
            t.with_heap(schema, table, heap),
        ),
{
    let t2 = t.with_heap(schema, table, heap);
    lemma_with_heap(t, schema, table, heap);
    assert forall|s: Seq<char>, n: Seq<char>| can_touch(t, s, n) implies #[trigger] can_touch(
        t2,
        s,
        n,
    ) by {
        assert(t2.has(s, n) == t.has(s, n));
    }
    if heap.pages.len() == t.heap(schema, table).pages.len() {
        assert forall|s: Seq<char>, n: Seq<char>| can_scan(t, s, n) implies #[trigger] can_scan(
            t2,
            s,
            n,
        ) by {
            assert(t2.has(s, n) == t.has(s, n));
        }
    }
}

/// Whether the tablespaces and the pools are as they were.
pub open spec fn stores_kept(t: TsmModel, t2: TsmModel) -> bool {
    t2.spaces == t.spaces && t2.pools == t.pools
}

/// Whether two lists of pools have the same pools, however many files were registered with them.
pub open spec fn pools_alike(a: Seq<PoolInfo>, b: Seq<PoolInfo>) -> bool {
    &&& a.len() == b.len()
    &&& forall|k: int|
        0 <= k < a.len() ==> {
            &&& (#[trigger] a[k]).id == b[k].id
            &&& a[k].name == b[k].name
            &&& a[k].page_size == b[k].page_size
            &&& a[k].frames == b[k].frames
        }
}

// ── Opening the tables of a catalog ──

/// The files of a table.
pub struct TableFiles {
    /// The `.DAT` file.
    pub heap: HeapFile,
    /// The bytes of the `.FSM` file, if there is one.
    pub fsm: Option<Vec<u8>>,
}

/// The bytes of a `.FSM` file that may be missing.
pub open spec fn fsm_slice(fsm: Option<Vec<u8>>) -> Option<Seq<u8>> {
    match fsm {
        Some(v) => Some(v@),
        None => None,
    }
}

/// Where the pool of a number is among some pools from `from` on, or their number.
pub open spec fn find_pool_def(defs: Seq<BufferPoolDef>, id: i32, from: int) -> int
    decreases defs.len() - from,
{
    if from >= defs.len() {
        defs.len() as int
    } else if defs[from].bpid == id {
        from
    } else {
        find_pool_def(defs, id, from + 1)
    }
}

/// The first pool whose number was taken already among the first `n`, if there is one.
pub open spec fn doubled_pool(defs: Seq<BufferPoolDef>, n: int) -> Option<int>
    decreases n,
{
    if n <= 0 {
        None
    } else if doubled_pool(defs, n - 1) is Some {
        doubled_pool(defs, n - 1)
    } else if find_pool_def(defs, defs[n - 1].bpid, 0) < n - 1 {
        Some(n - 1)
    } else {
        None
    }
}

/// A size that the catalog holds as a signed number, as the machine takes it.
pub open spec fn size_of(n: i32) -> nat {
    if n >= 0 {
        n as nat
    } else {
        (usize::MAX + 1 + n) as nat
    }
}

/// A size that the catalog holds as a signed number, as the machine takes it.
fn to_size(n: i32) -> (r: usize)
    ensures
        r == size_of(n),
{
    if n >= 0 {
        n as usize
    } else {
        usize::MAX - (-(n + 1)) as usize
    }
}

/// Whether the machine can hold the frames of some buffer pools.
pub open spec fn pools_sound(defs: Seq<BufferPoolDef>) -> bool {
    forall|i: int|
        0 <= i < defs.len() ==> size_of((#[trigger] defs[i]).npages) * size_of(defs[i].pagesize)
            <= usize::MAX
}

/// Whether the pools are those of the first `n` definitions, without files.
spec fn pools_match(
    pools: Seq<(BufferPoolId, PoolModel)>,
    defs: Seq<BufferPoolDef>,
    n: int,
) -> bool {
    &&& forall|id: i32| #[trigger] has_pool(pools, id) <==> find_pool_def(defs, id, 0) < n
    &&& forall|k: int|
        0 <= k < pools.len() ==> pool_info(#[trigger] pools[k]) == pool_made(
            defs[find_pool_def(defs, pools[k].0, 0)],
            0,
        )
}

/// The pool of a definition, when some files were registered with it.
pub open spec fn pool_made(def: BufferPoolDef, files: nat) -> PoolInfo {
    PoolInfo {
        id: def.bpid,
        name: def.bpname,
        page_size: size_of(def.pagesize),
        frames: size_of(def.npages),
        files,
    }
}

/// Whether a table is in a tablespace whose pages go through a pool.
pub open spec fn goes_through(cat: CatalogDef, t: TableDef, id: BufferPoolId) -> bool {
    match tablespace_index(cat.tablespaces, t.tbspaceid as i32) {
        Some(k) => cat.tablespaces[k].bufferpoolid == id,
        None => false,
    }
}

/// How many of the first `n` tables have their pages go through a pool.
pub open spec fn files_through(cat: CatalogDef, id: BufferPoolId, n: int) -> nat
    decreases n,
{
    if n <= 0 {
        0
    } else if goes_through(cat, cat.tables[n - 1], id) {
        files_through(cat, id, n - 1) + 1
    } else {
        files_through(cat, id, n - 1)
    }
}

/// Whether the pools are those of a catalog after its first `n` tables were opened: one for each
/// definition, in the order of their numbers, with its name, page size and frames, and with a file
/// for each table whose pages go through it.
pub open spec fn pools_opened(cat: CatalogDef, pools: Seq<PoolInfo>, n: int) -> bool {
    &&& forall|j: int, k: int|
        0 <= j < k < pools.len() ==> (#[trigger] pools[j]).id < (#[trigger] pools[k]).id
    &&& forall|id: i32|
        #![trigger find_info(pools, id, 0)]
        #![trigger find_pool_def(cat.bufferpools, id, 0)]
        find_info(pools, id, 0) < pools.len() <==> find_pool_def(cat.bufferpools, id, 0)
            < cat.bufferpools.len()
    &&& forall|k: int|
        0 <= k < pools.len() ==> #[trigger] pools[k] == pool_made(
            cat.bufferpools[find_pool_def(cat.bufferpools, pools[k].id, 0)],
            files_through(cat, pools[k].id, n),
        )
}

proof fn lemma_files_through(cat: CatalogDef, id: BufferPoolId, n: int)
    requires
        0 <= n,
    ensures
        files_through(cat, id, n) <= n,
    decreases n,
{
    if n > 0 {
        lemma_files_through(cat, id, n - 1);
    }
}

/// What is found at the position of a buffer pool.
pub proof fn lemma_find_pool_def(defs: Seq<BufferPoolDef>, id: i32, from: int)
    requires
        0 <= from <= defs.len(),
    ensures
        from <= find_pool_def(defs, id, from) <= defs.len(),
        find_pool_def(defs, id, from) < defs.len() ==> defs[find_pool_def(defs, id, from)].bpid
            == id,
        forall|j: int|
            from <= j < find_pool_def(defs, id, from) ==> (#[trigger] defs[j]).bpid != id,
    decreases defs.len() - from,
{
    if from < defs.len() && defs[from].bpid != id {
        lemma_find_pool_def(defs, id, from + 1);
    }
}

/// Adding a pool in the order of the numbers.
proof fn lemma_pool_inserted(
    pools: Seq<(BufferPoolId, PoolModel)>,
    id: BufferPoolId,
    m: PoolModel,
    at: int,
    other: BufferPoolId,
)
    requires
        pools_sorted(pools),
        !has_pool(pools, id),
        0 <= at <= pools.len(),
        pools_sorted(pools.insert(at, (id, m))),
    ensures
        ({
            let p2 = pools.insert(at, (id, m));
            &&& has_pool(p2, other) == (other == id || has_pool(pools, other))
            &&& has_pool(p2, other) ==> pool_of(p2, other) == if other == id {
                m
            } else {
                pool_of(pools, other)
            }
        }),
{
    let p2 = pools.insert(at, (id, m));
    lemma_find_pool(pools, other, 0);
    lemma_find_pool(p2, other, 0);
    assert(p2[at] == (id, m));
    if other == id {
        lemma_pool_is(p2, id, at);
    } else if has_pool(pools, other) {
        let k = find_pool(pools, other, 0);
        let k2 = if k < at {
            k
        } else {
            k + 1
        };
        assert(p2[k2] == pools[k]);
        lemma_pool_is(p2, other, k2);
    } else if has_pool(p2, other) {
        let k2 = find_pool(p2, other, 0);
        let k = if k2 < at {
            k2
        } else {
            k2 - 1
        };
        assert(k2 != at);
        assert(pools[k] == p2[k2]);
    }
}

/// Makes the buffer pools of a catalog.
fn create_pools(defs: &Vec<crate::catalog::types::BufferPool>) -> (r: DbResult<BufferPoolManager>)
    requires
        pools_sound(Seq::new(defs@.len(), |i: int| defs@[i]@)),
    ensures
        ({
            let d = Seq::new(defs@.len(), |i: int| defs@[i]@);
            match r {
                Ok(m) => {
                    &&& doubled_pool(d, d.len() as int) is None
                    &&& m.wf()
                    &&& pools_rest(m@)
                    &&& pools_match(m@, d, d.len() as int)
                },
                Err(e) => {
                    &&& doubled_pool(d, d.len() as int) is Some
                    &&& e@ == ErrorModel::Catalog(
                        "buffer pool id "@ + int_text(
                            d[doubled_pool(d, d.len() as int)->0].bpid as int,
                        ) + " already exists"@,
                    )
                },
            }
        }),
{
    let ghost d = Seq::new(defs@.len(), |i: int| defs@[i]@);
    let n: usize = defs.len();
    let mut m: BufferPoolManager = BufferPoolManager::new();
    let mut i: usize = 0;
    proof {
        assert forall|id: i32| #[trigger] has_pool(m@, id) <==> find_pool_def(d, id, 0) < 0 by {
            lemma_find_pool_def(d, id, 0);
        }
    }
    while i < n
        invariant
            i <= n,
            n == defs@.len() == d.len(),
            d == Seq::new(defs@.len(), |i: int| defs@[i]@),
            pools_sound(d),
            m.wf(),
            pools_rest(m@),
            pools_match(m@, d, i as int),
            doubled_pool(d, i as int) is None,
        decreases n - i,
    {
        let def: &crate::catalog::types::BufferPool = &defs[i];
        let ghost before = m@;
        proof {
            assert(d[i as int] == def@);
            m.lemma_wf();
            lemma_find_pool_def(d, def.bpid, 0);
            assert(has_pool(before, def.bpid) <==> find_pool_def(d, def.bpid, 0) < i);
            assert(size_of(d[i as int].npages) * size_of(d[i as int].pagesize) <= usize::MAX);
        }
        let made: DbResult<()> = m.create_pool(
            def.bpid,
            def.bpname.as_str(),
            to_size(def.npages),
            to_size(def.pagesize),
        );
        match made {
            Ok(_) => {}
            Err(e) => {
                proof {
                    lemma_doubled(d, i + 1, n as int);
                }
                return Err(e);
            }
        }
        proof {
            m.lemma_wf();
            let pool = fresh_pool(def.bpname@, size_of(def.npages), size_of(def.pagesize));
            let at = pools_below(before, def.bpid, 0);
            lemma_pools_below(before, def.bpid, 0);
            let after = m@;
            assert(after == before.insert(at, (def.bpid, pool)));
            assert(after[at].1 == pool);
            assert forall|k: int| 0 <= k < after.len() implies pool_rests((#[trigger] after[k]).1)
                && pool_info(after[k]) == pool_made(d[find_pool_def(d, after[k].0, 0)], 0) by {
                if k < at {
                    assert(after[k] == before[k]);
                } else if k > at {
                    assert(after[k] == before[k - 1]);
                } else {
                    assert(after[k].1.inv());
                    assert(pool_info(after[k]) == pool_made(d[i as int], 0));
                }
            }
            assert forall|id: i32| #[trigger] has_pool(after, id) <==> find_pool_def(d, id, 0) < i
                + 1 by {
                lemma_pool_inserted(before, def.bpid, pool, at, id);
                lemma_find_pool_def(d, id, 0);
                assert(has_pool(before, id) <==> find_pool_def(d, id, 0) < i);
            }
        }
        i += 1;
    }
    Ok(m)
}

proof fn lemma_doubled(defs: Seq<BufferPoolDef>, i: int, n: int)
    requires
        0 <= i <= n,
        doubled_pool(defs, i) is Some,
    ensures
        doubled_pool(defs, n) == doubled_pool(defs, i),
    decreases n - i,
{
    if i < n {
        lemma_doubled(defs, i, n - 1);
    }
}

/// The tablespaces as the manager lists them: of two with the same number the later counts.
pub open spec fn spaces_of(tablespaces: Seq<TablespaceDef>) -> Seq<SpaceInfo> {
    Seq::new(
        tablespaces.len(),
        |i: int|
            {
                let t = tablespaces[tablespaces.len() - 1 - i];
                SpaceInfo {
                    tbspaceid: t.tbspaceid,
                    page_size: size_of(t.pagesize) as usize,
                    pool_id: t.bufferpoolid,
                }
            },
    )
}

/// The contents of the files of a table: the pages, and the bytes of the `.FSM` file. The map that
/// a heap file has of its own is not the table's, and counts for nothing here.
pub struct FilesModel {
    pub pages: Seq<Seq<u8>>,
    pub fsm: Option<Seq<u8>>,
}

/// What opening table `t` with its files adds to some tables.
pub open spec fn opened_table(
    cat: CatalogDef,
    t: TableDef,
    files: FilesModel,
    tables: Seq<TableModel>,
) -> Result<Seq<TableModel>, ErrorModel> {
    match tablespace_index(cat.tablespaces, t.tbspaceid as i32) {
        None => Err(no_space(t.tbspaceid as int, t.schemaname, t.name)),
        Some(k) => {
            let space = cat.tablespaces[k];
            let pool = find_pool_def(cat.bufferpools, space.bufferpoolid, 0);
            if pool >= cat.bufferpools.len() {
                Err(no_pool(space.bufferpoolid))
            } else if space.pagesize != cat.bufferpools[pool].pagesize {
                Err(
                    ErrorModel::Catalog(
                        size_mismatch_text(
                            size_of(cat.bufferpools[pool].pagesize),
                            size_of(space.pagesize),
                        ),
                    ),
                )
            } else if map_error(files.fsm) is Some {
                Err(map_error(files.fsm)->0)
            } else {
                let heap = HeapModel {
                    page_size: size_of(space.pagesize),
                    pages: files.pages,
                    fsm: first_map(files.fsm, size_of(space.pagesize), files.pages.len()),
                    via: Access::Pool(size_of(cat.bufferpools[pool].npages)),
                };
                Ok(
                    TsmModel { tables, spaces: Seq::empty(), pools: Seq::empty() }.with_table(
                        t.schemaname,
                        t.name,
                        heap,
                    ).tables,
                )
            }
        },
    }
}

/// The first `n` tables of a catalog with their files, or the first error.
pub open spec fn opened_tables(cat: CatalogDef, files: Seq<FilesModel>, n: int) -> Result<
    Seq<TableModel>,
    ErrorModel,
>
    decreases n,
{
    if n <= 0 {
        Ok(Seq::empty())
    } else {
        match opened_tables(cat, files, n - 1) {
            Err(e) => Err(e),
            Ok(tables) => opened_table(cat, cat.tables[n - 1], files[n - 1], tables),
        }
    }
}

/// The contents of the files of some tables.
pub open spec fn files_view(files: Seq<TableFiles>) -> Seq<FilesModel> {
    Seq::new(
        files.len(),
        |i: int| FilesModel { pages: files[i].heap@.pages, fsm: fsm_slice(files[i].fsm) },
    )
}

/// Whether the machine can hold the pools and the files of a catalog.
pub open spec fn catalog_sound(cat: CatalogDef) -> bool {
    pools_sound(cat.bufferpools) && cat.tables.len() < u32::MAX
}

/// Whether a table's files fit its tablespace: the pages have its size and their own numbers, and
/// one that was never written does not pass for a written one.
pub open spec fn files_sound(cat: CatalogDef, t: TableDef, files: TableFiles) -> bool {
    &&& files.heap.wf()
    &&& pages_sound(files.heap@.pages)
    &&& usable(files.heap@.page_size)
    &&& fsm_slice(files.fsm) is Some && fsm_slice(files.fsm)->0.len() >= 8 ==> tree_fits(
        le_at(fsm_slice(files.fsm)->0, 4, 4),
    )
    &&& match tablespace_index(cat.tablespaces, t.tbspaceid as i32) {
        Some(k) => files.heap@.page_size == size_of(cat.tablespaces[k].pagesize),
        None => true,
    }
}

/// A tablespace that is found is one of the tablespaces.
pub proof fn lemma_tablespace_index(spaces: Seq<TablespaceDef>, id: i32)
    ensures
        tablespace_index(spaces, id) is Some ==> 0 <= tablespace_index(spaces, id)->0
            < spaces.len(),
    decreases spaces.len(),
{
    if spaces.len() > 0 && spaces.last().tbspaceid != id {
        lemma_tablespace_index(spaces.drop_last(), id);
    }
}

proof fn lemma_opened_error(cat: CatalogDef, files: Seq<FilesModel>, i: int, n: int)
    requires
        0 <= i <= n,
        opened_tables(cat, files, i) is Err,
    ensures
        opened_tables(cat, files, n) == opened_tables(cat, files, i),
    decreases n - i,
{
    if i < n {
        lemma_opened_error(cat, files, i, n - 1);
    }
}

/// What opening the tables of a catalog with their files gives.
pub open spec fn opens(
    cat: CatalogDef,
    files: Seq<FilesModel>,
    r: DbResult<TablespaceManager>,
) -> bool {
    let d = doubled_pool(cat.bufferpools, cat.bufferpools.len() as int);
    let tables = opened_tables(cat, files, cat.tables.len() as int);
    match r {
        Ok(m) => {
            &&& d is None
            &&& m.wf()
            &&& tables == Ok::<Seq<TableModel>, ErrorModel>(m@.tables)
            &&& m@.spaces == spaces_of(cat.tablespaces)
            &&& pools_opened(cat, m@.pools, cat.tables.len() as int)
        },
        Err(e) => if d is Some {
            e@ == ErrorModel::Catalog(
                "buffer pool id "@ + int_text(cat.bufferpools[d->0].bpid as int)
                    + " already exists"@,
            )
        } else {
            tables == Err::<Seq<TableModel>, ErrorModel>(e@)
        },
    }
}

/// What is found at the position of a pool.
proof fn lemma_info_at(pools: Seq<PoolInfo>, id: BufferPoolId, from: int)
    requires
        0 <= from <= pools.len(),
    ensures
        from <= find_info(pools, id, from) <= pools.len(),
        find_info(pools, id, from) < pools.len() ==> pools[find_info(pools, id, from)].id == id,
        forall|j: int| from <= j < find_info(pools, id, from) ==> (#[trigger] pools[j]).id != id,
    decreases pools.len() - from,
{
    if from < pools.len() && pools[from].id != id {
        lemma_info_at(pools, id, from + 1);
    }
}

/// The pools of a catalog, before a table was opened.
proof fn lemma_pools_made(cat: CatalogDef, pools: Seq<(BufferPoolId, PoolModel)>)
    requires
        pools_sorted(pools),
        pools_match(pools, cat.bufferpools, cat.bufferpools.len() as int),
    ensures
        pools_opened(cat, pool_infos(pools), 0),
{
    let infos = pool_infos(pools);
    assert forall|j: int, k: int| 0 <= j < k < infos.len() implies (#[trigger] infos[j]).id < (
    #[trigger] infos[k]).id by {
        assert(pools[j].0 < pools[k].0);
    }
    assert forall|id: i32|
        #![trigger find_info(infos, id, 0)]
        #![trigger find_pool_def(cat.bufferpools, id, 0)]
        find_info(infos, id, 0) < infos.len() <==> find_pool_def(cat.bufferpools, id, 0)
            < cat.bufferpools.len() by {
        lemma_find_info(pools, id, 0);
        assert(has_pool(pools, id) <==> find_pool_def(cat.bufferpools, id, 0)
            < cat.bufferpools.len());
    }
    assert forall|k: int| 0 <= k < infos.len() implies #[trigger] infos[k] == pool_made(
        cat.bufferpools[find_pool_def(cat.bufferpools, infos[k].id, 0)],
        files_through(cat, infos[k].id, 0),
    ) by {
        assert(pool_info(pools[k]) == infos[k]);
    }
}

/// Registering the file of table `i` counts it in its pool, and nowhere else.
proof fn lemma_pools_counted(
    cat: CatalogDef,
    a: Seq<PoolInfo>,
    b: Seq<PoolInfo>,
    id: BufferPoolId,
    i: int,
)
    requires
        0 <= i < cat.tables.len(),
        pools_opened(cat, a, i),
        goes_through(cat, cat.tables[i], id),
        find_info(a, id, 0) < a.len(),
        b == a.update(
            find_info(a, id, 0),
            (PoolInfo {
                files: a[find_info(a, id, 0)].files + 1,
                ..a[find_info(a, id, 0)]
            }),
        ),
    ensures
        pools_opened(cat, b, i + 1),
{
    let at = find_info(a, id, 0);
    lemma_info_at(a, id, 0);
    assert forall|x: i32|
        #![trigger find_info(b, x, 0)]
        #![trigger find_pool_def(cat.bufferpools, x, 0)]
        find_info(b, x, 0) < b.len() <==> find_pool_def(cat.bufferpools, x, 0)
            < cat.bufferpools.len() by {
        lemma_info_at(a, x, 0);
        lemma_info_at(b, x, 0);
        let ka = find_info(a, x, 0);
        let kb = find_info(b, x, 0);
        if ka < a.len() {
            assert(b[ka].id == x);
        }
        if kb < b.len() {
            assert(a[kb].id == x);
        }
        assert(ka < a.len() <==> find_pool_def(cat.bufferpools, x, 0) < cat.bufferpools.len());
    }
    assert forall|j: int, k: int| 0 <= j < k < b.len() implies (#[trigger] b[j]).id < (
    #[trigger] b[k]).id by {
        assert(a[j].id < a[k].id);
    }
    assert forall|k: int| 0 <= k < b.len() implies #[trigger] b[k] == pool_made(
        cat.bufferpools[find_pool_def(cat.bufferpools, b[k].id, 0)],
        files_through(cat, b[k].id, i + 1),
    ) by {
        assert(a[k] == pool_made(
            cat.bufferpools[find_pool_def(cat.bufferpools, a[k].id, 0)],
            files_through(cat, a[k].id, i),
        ));
        if k != at && a[k].id == id {
            assert(k < at || at < k);
        }
    }
}

/// Tells whether the catalog of a cache can be opened.
pub fn catalog_is_sound(cache: &CatalogCache) -> (r: bool)
    requires
        cache.wf(),
    ensures
        r == catalog_sound(cache@.catalog),
{
    let catalog: &Catalog = cache.catalog();
    let ghost cat = cache@.catalog;
    let pools: &Vec<crate::catalog::types::BufferPool> = &catalog.bufferpools;
    let n: usize = pools.len();
    let mut i: usize = 0;
    while i < n
        invariant
            i <= n,
            n == pools@.len(),
            pools == catalog.bufferpools,
            catalog@ == cat,
            cat == cache@.catalog,
            forall|k: int|
                0 <= k < i ==> size_of((#[trigger] cat.bufferpools[k]).npages) * size_of(
                    cat.bufferpools[k].pagesize,
                ) <= usize::MAX,
        decreases n - i,
    {
        assert(cat.bufferpools[i as int] == pools@[i as int]@);
        let frames: usize = to_size(pools[i].npages);
        let page_size: usize = to_size(pools[i].pagesize);
        if !fits_together(frames, page_size) {
            assert(!pools_sound(cat.bufferpools)) by {
                assert(size_of(cat.bufferpools[i as int].npages) == frames);
            }
            return false;
        }
        i += 1;
    }
    (catalog.tables.len() as u64) < u32::MAX as u64
}

/// Whether a product fits the machine.
fn fits_together(a: usize, b: usize) -> (r: bool)
    ensures
        r == (a * b <= usize::MAX),
{
    assert(0 <= a * b <= usize::MAX * usize::MAX) by (nonlinear_arith)
        requires
            0 <= a <= usize::MAX,
            0 <= b <= usize::MAX,
    ;
    (a as u128) * (b as u128) <= usize::MAX as u128
}

impl TablespaceManager {
    /// Whether a file of pages of some size can be registered with a pool.
    fn check_register(&self, pool_id: BufferPoolId, page_size: usize) -> (r: DbResult<()>)
        requires
            self.wf(),
        ensures
            match r {
                Ok(_) => register_error(self@.pools, pool_id, page_size as nat) is None,
                Err(e) => register_error(self@.pools, pool_id, page_size as nat) == Some(e@),
            },
    {
        proof {
            lemma_find_info(self.pool_manager@, pool_id, 0);
            lemma_find_pool(self.pool_manager@, pool_id, 0);
        }
        match self.pool_manager.get(pool_id) {
            Ok(pool) => {
                if pool.file_count() >= u32::MAX as usize {
                    return Err(Error::Io("too many files".to_owned()));
                }
                if pool.page_size() != page_size {
                    let message: String = "page size mismatch: pool uses ".to_owned().concat(
                        decimal(pool.page_size() as u64).as_str(),
                    ).concat(" but file requests ").concat(decimal(page_size as u64).as_str());
                    return Err(Error::Catalog(message));
                }
                Ok(())
            }
            Err(e) => Err(e),
        }
    }

    /// Opens the tables of a catalog. `files` holds the files of each table, in the order of the
    /// tables.
    pub fn open(cache: &CatalogCache, files: Vec<TableFiles>) -> (r: DbResult<Self>)
        requires
            cache.wf(),
            catalog_sound(cache@.catalog),
            files@.len() == cache@.catalog.tables.len(),
            forall|i: int|
                0 <= i < files@.len() ==> files_sound(
                    cache@.catalog,
                    cache@.catalog.tables[i],
                    #[trigger] files@[i],
                ),
        ensures
            opens(cache@.catalog, files_view(files@), r),
    {
        let catalog: &Catalog = cache.catalog();
        let ghost cat = cache@.catalog;
        let ghost model = files_view(files@);
        let ghost given = files@;
        let pool_manager: BufferPoolManager = match create_pools(&catalog.bufferpools) {
            Ok(m) => m,
            Err(e) => {
                return Err(e);
            }
        };
        let ghost pools = pool_manager@;
        let m: usize = catalog.tablespaces.len();
        let mut spaces: Vec<SpaceInfo> = Vec::new();
        let mut k: usize = 0;
        while k < m
            invariant
                k <= m,
                m == catalog.tablespaces@.len() == cat.tablespaces.len(),
                catalog@ == cat,
                catalog_sound(cat),
                spaces@ == spaces_of(cat.tablespaces).subrange(0, k as int),
            decreases m - k,
        {
            let t: &Tablespace = &catalog.tablespaces[m - 1 - k];
            assert(cat.tablespaces[m - 1 - k] == t@);
            spaces.push(
                SpaceInfo {
                    tbspaceid: t.tbspaceid,
                    page_size: to_size(t.pagesize),
                    pool_id: t.bufferpoolid,
                },
            );
            k += 1;
            assert(spaces@ =~= spaces_of(cat.tablespaces).subrange(0, k as int));
        }
        assert(spaces_of(cat.tablespaces).subrange(0, m as int) =~= spaces_of(cat.tablespaces));
        let table_files: Vec<TableFileInfo> = Vec::new();
        let tables_at: ColumnIndex = index_files(&table_files);
        let mut tsm = TablespaceManager { pool_manager, table_files, spaces, tables_at };
        assert(tsm@.tables =~= Seq::<TableModel>::empty());
        proof {
            tsm.pool_manager.lemma_wf();
            lemma_pools_made(cat, pools);
        }
        let n: usize = files.len();
        let mut rest: Vec<TableFiles> = files;
        let mut i: usize = 0;
        while i < n
            invariant
                i <= n,
                n == given.len() == cat.tables.len(),
                cat == cache@.catalog,
                cache.wf(),
                catalog@ == cat,
                catalog_sound(cat),
                model == files_view(given),
                given == files@,
                doubled_pool(cat.bufferpools, cat.bufferpools.len() as int) is None,
                rest@ == given.subrange(i as int, n as int),
                forall|q: int|
                    0 <= q < given.len() ==> files_sound(cat, cat.tables[q], #[trigger] given[q]),
                tsm.wf(),
                tsm@.spaces == spaces_of(cat.tablespaces),
                pools_opened(cat, tsm@.pools, i as int),
                opened_tables(cat, model, i as int) == Ok::<Seq<TableModel>, ErrorModel>(
                    tsm@.tables,
                ),
            decreases n - i,
        {
            let table: &Table = &catalog.tables[i];
            let ghost t = cat.tables[i as int];
            assert(t == table@);
            let ghost before = tsm@;
            assert(rest@[0] == given[i as int]);
            let f: TableFiles = rest.remove(0);
            assert(rest@ =~= given.subrange(i + 1, n as int));
            assert(files_sound(cat, t, f));
            proof {
                lemma_tablespace_index(cat.tablespaces, t.tbspaceid as i32);
            }
            let space: &Tablespace = match cache.get_tablespace_by_id(table.tbspaceid as i32) {
                Some(ts) => ts,
                None => {
                    proof {
                        lemma_opened_error(cat, model, i + 1, n as int);
                    }
                    return Err(
                        Error::Catalog(
                            "tablespace ".to_owned().concat(
                                decimal_signed(table.tbspaceid as i64).as_str(),
                            ).concat(" not found for table ").concat(
                                table.schemaname.as_str(),
                            ).concat(".").concat(table.name.as_str()),
                        ),
                    );
                }
            };
            let page_size: usize = to_size(space.pagesize);
            let pool_id: BufferPoolId = space.bufferpoolid;
            proof {
                lemma_find_pool_def(cat.bufferpools, pool_id, 0);
                let k = find_info(tsm@.pools, pool_id, 0);
                lemma_info_at(tsm@.pools, pool_id, 0);
                assert(k < tsm@.pools.len() <==> find_pool_def(cat.bufferpools, pool_id, 0)
                    < cat.bufferpools.len());
                if k < tsm@.pools.len() {
                    lemma_files_through(cat, pool_id, i as int);
                    assert(tsm@.pools[k].files <= i);
                }
            }
            match tsm.check_register(pool_id, page_size) {
                Ok(_) => {}
                Err(e) => {
                    proof {
                        lemma_opened_error(cat, model, i + 1, n as int);
                    }
                    return Err(e);
                }
            }
            proof {
                f.heap.lemma_wf();
            }
            let file_pages: usize = f.heap.page_count() as usize;
            let loaded: DbResult<Option<FreeSpaceMap>> = match &f.fsm {
                Some(bytes) => FreeSpaceMap::load(Some(bytes.as_slice())),
                None => FreeSpaceMap::load(None),
            };
            let fsm: FreeSpaceMap = match loaded {
                Err(e) => {
                    proof {
                        lemma_opened_error(cat, model, i + 1, n as int);
                    }
                    return Err(e);
                }
                Ok(Some(map)) => {
                    let mut map = map;
                    if file_pages > map.page_count() {
                        map.extend(file_pages);
                    }
                    map
                }
                Ok(None) => FreeSpaceMap::new(file_pages, page_size),
            };
            let ghost hv = f.heap@;
            proof {
                let want = first_map(fsm_slice(f.fsm), page_size as nat, hv.pages.len());
                assert(fsm@.cats =~= want.cats);
                assert(fsm@ == want);
            }
            let added: DbResult<()> = tsm.add_table(
                table.schemaname.as_str(),
                table.name.as_str(),
                pool_id,
                f.heap,
                fsm,
            );
            match added {
                Ok(_) => {}
                Err(e) => {
                    return Err(e);
                }
            }
            proof {
                lemma_pools_counted(cat, before.pools, tsm@.pools, pool_id, i as int);
            }
            i += 1;
        }
        Ok(tsm)
    }
}

// ── Laws of files ──

/// Whether some tables hold one of a name.
pub open spec fn lists_table(tables: Seq<TableDef>, schema: Seq<char>, table: Seq<char>) -> bool {
    exists|i: int|
        0 <= i < tables.len() && (#[trigger] tables[i]).schemaname == schema && tables[i].name
            == table
}

/// A manager that was opened has exactly the tables of its catalog, and a buffer pool for exactly
/// each definition, under its number and name, in the order of the numbers.
pub proof fn law_opened_manager_has_its_tables_and_pools(
    cat: CatalogDef,
    files: Seq<FilesModel>,
    m: TablespaceManager,
)
    requires
        opens(cat, files, Ok(m)),
    ensures
        forall|schema: Seq<char>, table: Seq<char>| #[trigger]
            m@.has(schema, table) <==> lists_table(cat.tables, schema, table),
        forall|j: int, k: int|
            0 <= j < k < m@.pools.len() ==> (#[trigger] m@.pools[j]).id < (
            #[trigger] m@.pools[k]).id,
        forall|i: int|
            0 <= i < cat.bufferpools.len() ==> has_made(m@.pools, #[trigger] cat.bufferpools[i]),
        forall|k: int|
            0 <= k < m@.pools.len() ==> is_made(cat.bufferpools, #[trigger] m@.pools[k]),
{
    let pools = m@.pools;
    let defs = cat.bufferpools;
    assert forall|schema: Seq<char>, table: Seq<char>| #[trigger]
        m@.has(schema, table) <==> lists_table(cat.tables, schema, table) by {
        lemma_opened_names(cat, files, cat.tables.len() as int, schema, table);
        assert(cat.tables.subrange(0, cat.tables.len() as int) =~= cat.tables);
        lemma_find_table(m@.tables, schema, table, 0);
    }
    assert forall|i: int| 0 <= i < defs.len() implies has_made(pools, #[trigger] defs[i]) by {
        let id = defs[i].bpid;
        lemma_find_pool_def(defs, id, 0);
        let k = find_info(pools, id, 0);
        lemma_info_at(pools, id, 0);
        assert(find_pool_def(defs, id, 0) == i) by {
            let p = find_pool_def(defs, id, 0);
            if p < i {
                lemma_doubled_at(defs, p, i, defs.len() as int);
            } else if p > i {
                assert(defs[i].bpid != id);
            }
        }
        assert(k < pools.len());
        assert(pools[k] == pool_made(defs[i], files_through(cat, id, cat.tables.len() as int)));
    }
    assert forall|k: int| 0 <= k < pools.len() implies is_made(defs, #[trigger] pools[k]) by {
        let id = pools[k].id;
        lemma_info_at(pools, id, 0);
        lemma_find_pool_def(defs, id, 0);
        assert(find_info(pools, id, 0) < pools.len());
        let i = find_pool_def(defs, id, 0);
        assert(pools[k] == pool_made(defs[i], files_through(cat, id, cat.tables.len() as int)));
    }
}

/// Whether some pools hold that of a definition, however many files were registered with it.
pub open spec fn has_made(pools: Seq<PoolInfo>, def: BufferPoolDef) -> bool {
    exists|k: int|
        0 <= k < pools.len() && (#[trigger] pools[k]) == pool_made(def, pools[k].files)
}

/// Whether a pool is that of one of some definitions.
pub open spec fn is_made(defs: Seq<BufferPoolDef>, pool: PoolInfo) -> bool {
    exists|i: int| 0 <= i < defs.len() && pool == pool_made(#[trigger] defs[i], pool.files)
}

proof fn lemma_doubled_at(defs: Seq<BufferPoolDef>, p: int, i: int, n: int)
    requires
        0 <= p < i < n <= defs.len(),
        defs[p].bpid == defs[i].bpid,
    ensures
        doubled_pool(defs, n) is Some,
    decreases n,
{
    if n - 1 > i {
        lemma_doubled_at(defs, p, i, n - 1);
    } else {
        lemma_find_pool_def(defs, defs[i].bpid, 0);
        if find_pool_def(defs, defs[i].bpid, 0) > p {
            assert(defs[p].bpid != defs[i].bpid);
        }
    }
}

proof fn lemma_opened_names(
    cat: CatalogDef,
    files: Seq<FilesModel>,
    n: int,
    schema: Seq<char>,
    table: Seq<char>,
)
    requires
        0 <= n <= cat.tables.len(),
        opened_tables(cat, files, n) is Ok,
    ensures
        find_table(opened_tables(cat, files, n)->Ok_0, schema, table, 0) < opened_tables(
            cat,
            files,
            n,
        )->Ok_0.len() <==> lists_table(cat.tables.subrange(0, n), schema, table),
    decreases n,
{
    let front = cat.tables.subrange(0, n);
    if n > 0 {
        let t = cat.tables[n - 1];
        let before = opened_tables(cat, files, n - 1)->Ok_0;
        let after = opened_tables(cat, files, n)->Ok_0;
        lemma_opened_names(cat, files, n - 1, schema, table);
        let shorter = cat.tables.subrange(0, n - 1);
        let heap = HeapModel {
            page_size: size_of(
                cat.tablespaces[tablespace_index(
                    cat.tablespaces,
                    t.tbspaceid as i32,
                )->0].pagesize,
            ),
            pages: files[n - 1].pages,
            fsm: first_map(
                files[n - 1].fsm,
                size_of(
                    cat.tablespaces[tablespace_index(
                        cat.tablespaces,
                        t.tbspaceid as i32,
                    )->0].pagesize,
                ),
                files[n - 1].pages.len(),
            ),
            via: Access::Pool(
                size_of(
                    cat.bufferpools[find_pool_def(
                        cat.bufferpools,
                        cat.tablespaces[tablespace_index(
                            cat.tablespaces,
                            t.tbspaceid as i32,
                        )->0].bufferpoolid,
                        0,
                    )].npages,
                ),
            ),
        };
        let bare = TsmModel { tables: before, spaces: Seq::empty(), pools: Seq::empty() };
        lemma_with_table(bare, t.schemaname, t.name, heap);
        let made = bare.with_table(t.schemaname, t.name, heap);
        assert(after == made.tables);
        assert(made.has(schema, table) == (find_table(after, schema, table, 0) < after.len()));
        assert(bare.has(schema, table) == (find_table(before, schema, table, 0) < before.len()));
        if t.schemaname == schema && t.name == table {
            assert(front[n - 1] == t);
        } else {
            assert(made.has(schema, table) == bare.has(schema, table));
            if lists_table(shorter, schema, table) {
                let i = choose|i: int|
                    0 <= i < shorter.len() && (#[trigger] shorter[i]).schemaname == schema
                        && shorter[i].name == table;
                assert(front[i] == shorter[i]);
            }
            if lists_table(front, schema, table) {
                let i = choose|i: int|
                    0 <= i < front.len() && (#[trigger] front[i]).schemaname == schema
                        && front[i].name == table;
                assert(i < n - 1);
                assert(shorter[i] == front[i]);
            }
        }
    } else {
        assert(front.len() == 0);
    }
}

/// A table that is opened from the bytes of its files, as they are after all was written, has the
/// pages that it had, so that every row is at its address, and its map, which is extended where it
/// tracked too few pages.
pub proof fn law_reopened_table_is_the_same(h: HeapModel)
    requires
        heap_ok(h),
        0 < h.page_size,
        h.via != Access::Pool(0),
        0 < h.fsm.page_size < 0x1_0000_0000,
        h.fsm.cats.len() < 0x1_0000_0000,
    ensures
        ({
            let dat = joined(h.pages, h.pages.len() as int);
            let fsm = saved_map(h.fsm);
            let h2 = HeapModel {
                page_size: h.page_size,
                pages: file_pages(dat, h.page_size),
                fsm: first_map(Some(fsm), h.page_size, h.pages.len()),
                via: h.via,
            };
            &&& map_error(Some(fsm)) is None
            &&& h2.pages == h.pages
            &&& h2.fsm.page_size == h.fsm.page_size
            &&& h2.fsm.cats == extended(
                h.fsm.cats,
                h.pages.len(),
                category(h.fsm.page_size, h.fsm.page_size),
            )
            &&& h.pages.len() <= h.fsm.cats.len() ==> h2 == h
            &&& forall|rid: Rid| #[trigger] h2.row(rid) == h.row(rid)
        }),
{
    law_file_round_trip(h.pages, h.page_size);
    law_save_then_load(h.fsm);
}

} // verus!
