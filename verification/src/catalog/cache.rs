//! The catalog in memory.
//!
//! The cache holds the catalog for as long as a database is open: what it knows, the columns of
//! each table in order, and the rows of the catalog's own tables as values.

use std::collections::HashMap;
use vstd::hash_map::StringHashMap;
use vstd::map::*;
use vstd::prelude::*;
use vstd::string::StringExecFns;
use crate::catalog::config::{ConfigModel, DbConfig};
use crate::catalog::types::{columns_view, BufferPool, Catalog, CatalogDef, Column, ColumnDef,
    Schema, Table, TableDef, Tablespace, TablespaceDef};
use crate::sql::types::{names_view, row_view, rows_view, Value, ValueModel};
use crate::text::{chars_of, copy_str, decimal, digits10, is_digit, lemma_digits10, same_str};

verus! {

/// Where a name is last among some names.
pub open spec fn index_of(names: Seq<Seq<char>>, name: Seq<char>) -> Option<int>
    decreases names.len(),
{
    if names.len() == 0 {
        None
    } else if names.last() == name {
        Some(names.len() - 1)
    } else {
        index_of(names.drop_last(), name)
    }
}

/// What is found at a position, and that nothing is there where none is found.
pub proof fn lemma_index_of(names: Seq<Seq<char>>, name: Seq<char>)
    ensures
        match index_of(names, name) {
            Some(i) => 0 <= i < names.len() && names[i] == name,
            None => forall|i: int| 0 <= i < names.len() ==> names[i] != name,
        },
    decreases names.len(),
{
    if names.len() > 0 && names.last() != name {
        lemma_index_of(names.drop_last(), name);
        assert forall|i: int|
            0 <= i < names.len() && index_of(names, name) is None implies names[i] != name by {
            if i < names.len() - 1 {
                assert(names.drop_last()[i] == names[i]);
            }
        }
    }
}

/// The positions of names, found by hashing.
pub struct ColumnIndex {
    positions: StringHashMap<usize>,
    names: Ghost<Seq<Seq<char>>>,
}

impl View for ColumnIndex {
    type V = Seq<Seq<char>>;

    closed spec fn view(&self) -> Seq<Seq<char>> {
        self.names@
    }
}

/// Whether a map has the last position of each of some names, and of no other.
spec fn maps_names(positions: Map<Seq<char>, usize>, names: Seq<Seq<char>>) -> bool {
    forall|name: Seq<char>|
        #![trigger positions.contains_key(name)]
        #![trigger index_of(names, name)]
        match index_of(names, name) {
            Some(i) => positions.contains_key(name) && positions[name] == i && i < names.len(),
            None => !positions.contains_key(name),
        }
}

impl ColumnIndex {
    /// The map has the position of each name.
    #[verifier::type_invariant]
    spec fn inv(&self) -> bool {
        maps_names(self.positions@, self.names@)
    }

    /// The positions of `names`.
    pub fn new(names: &Vec<String>) -> (r: Self)
        ensures
            r@ == names_view(names@),
    {
        let ghost all = names_view(names@);
        let mut positions: StringHashMap<usize> = StringHashMap::new();
        let n: usize = names.len();
        let mut i: usize = 0;
        assert(all.subrange(0, 0) =~= Seq::<Seq<char>>::empty());
        while i < n
            invariant
                i <= n,
                n == names@.len() == all.len(),
                all == names_view(names@),
                maps_names(positions@, all.subrange(0, i as int)),
            decreases n - i,
        {
            let ghost before = positions@;
            positions.insert(names[i].clone(), i);
            proof {
                let longer = all.subrange(0, i + 1);
                assert(longer.drop_last() =~= all.subrange(0, i as int));
                assert(longer.last() == names@[i as int]@);
                assert forall|name: Seq<char>|
                    #![trigger positions@.contains_key(name)]
                    #![trigger index_of(longer, name)]
                    match index_of(longer, name) {
                        Some(k) => positions@.contains_key(name) && positions@[name] == k && k
                            < longer.len(),
                        None => !positions@.contains_key(name),
                    } by {
                    if name != names@[i as int]@ {
                        assert(index_of(longer, name) == index_of(
                            all.subrange(0, i as int),
                            name,
                        ));
                        assert(positions@.contains_key(name) == before.contains_key(name));
                    }
                }
            }
            i += 1;
        }
        assert(all.subrange(0, n as int) =~= all);
        Self { positions, names: Ghost(all) }
    }

    /// Where a name is; the last position counts.
    pub fn get(&self, name: &str) -> (r: Option<usize>)
        ensures
            (match r {
                Some(i) => Some(i as int),
                None => None::<int>,
            }) == index_of(self@, name@),
            r is Some ==> r->0 < self@.len(),
    {
        proof {
            use_type_invariant(self);
            assert(maps_names(self.positions@, self@));
            lemma_index_of(self@, name@);
        }
        match self.positions.get(name) {
            Some(i) => Some(*i),
            None => None,
        }
    }
}

/// A copy of some names.
pub fn copy_names(names: &Vec<String>) -> (r: Vec<String>)
    ensures
        names_view(r@) == names_view(names@),
        r@.len() == names@.len(),
{
    let n: usize = names.len();
    let mut out: Vec<String> = Vec::new();
    let mut i: usize = 0;
    while i < n
        invariant
            i <= n,
            n == names@.len(),
            out@.len() == i,
            forall|k: int| 0 <= k < i ==> (#[trigger] out@[k])@ == names@[k]@,
        decreases n - i,
    {
        out.push(names[i].clone());
        i += 1;
    }
    assert(names_view(out@) =~= names_view(names@));
    out
}

/// The rows of a table of the catalog, with the names of its columns.
pub struct CachedTable {
    /// The names of the columns, in order.
    pub column_names: Vec<String>,
    /// The positions of the names.
    pub column_index: ColumnIndex,
    /// The rows.
    pub rows: Vec<Vec<Value>>,
}

/// The contents of a [`CachedTable`].
pub struct CachedModel {
    pub names: Seq<Seq<char>>,
    pub rows: Seq<Seq<ValueModel>>,
}

impl View for CachedTable {
    type V = CachedModel;

    open spec fn view(&self) -> CachedModel {
        CachedModel { names: names_view(self.column_names@), rows: rows_view(self.rows@) }
    }
}

impl CachedTable {
    /// The index is that of the names.
    pub open spec fn wf(&self) -> bool {
        self.column_index@ == names_view(self.column_names@)
    }
}

/// The key of a table: its schema and its name.
pub type TableKey = (Seq<char>, Seq<char>);

/// The columns of a table.
pub struct TableColumns {
    schema: String,
    table: String,
    columns: Vec<Column>,
    names: Vec<String>,
    index: ColumnIndex,
}

/// The names of some columns.
pub open spec fn column_names(cols: Seq<ColumnDef>) -> Seq<Seq<char>> {
    Seq::new(cols.len(), |i: int| cols[i].name)
}

impl TableColumns {
    spec fn wf(&self) -> bool {
        &&& names_view(self.names@) == column_names(columns_view(self.columns@))
        &&& self.index@ == names_view(self.names@)
    }

    spec fn key(&self) -> TableKey {
        (self.schema@, self.table@)
    }
}

/// The cache. What is looked up for a statement is found by hashing.
pub struct CatalogCache {
    catalog: Catalog,
    config: DbConfig,
    by_table: Vec<TableColumns>,
    tables_data: Vec<(String, String, CachedTable)>,
    /// The positions in `by_table`.
    columns_at: ColumnIndex,
    /// The positions in `tables_data`.
    data_at: ColumnIndex,
    /// The positions of the tables of the catalog.
    tables_at: ColumnIndex,
    /// The positions of the tablespaces of the catalog.
    spaces_at: HashMap<i32, usize>,
}

/// A key as one text: the length of the schema's name, a colon, and the two names.
pub open spec fn key_text(key: TableKey) -> Seq<char> {
    digits10(key.0.len()) + seq![':'] + key.0 + key.1
}

/// Different keys have different texts.
proof fn lemma_key_text(a: TableKey, b: TableKey)
    requires
        key_text(a) == key_text(b),
    ensures
        a == b,
{
    let da = digits10(a.0.len());
    let db = digits10(b.0.len());
    let ta = key_text(a);
    let tb = key_text(b);
    lemma_digits10(a.0.len());
    lemma_digits10(b.0.len());
    let p = da.len() as int;
    let q = db.len() as int;
    assert(ta[p] == ':' && tb[q] == ':');
    if p < q {
        assert(tb[p] == db[p]);
        assert(is_digit(db[p]));
    } else if q < p {
        assert(ta[q] == da[q]);
        assert(is_digit(da[q]));
    }
    assert(da =~= ta.subrange(0, p) && db =~= tb.subrange(0, p));
    let n = a.0.len() as int;
    assert(a.0 =~= ta.subrange(p + 1, p + 1 + n));
    assert(b.0 =~= tb.subrange(p + 1, p + 1 + n));
    assert(a.1 =~= ta.subrange(p + 1 + n, ta.len() as int));
    assert(b.1 =~= tb.subrange(p + 1 + n, tb.len() as int));
}

/// A key as one text.
pub fn key_string(schema: &str, table: &str) -> (r: String)
    ensures
        r@ == key_text((schema@, table@)),
{
    let n: usize = chars_of(schema).len();
    let r: String = decimal(n as u64).concat(":").concat(schema).concat(table);
    proof {
        reveal_strlit(":");
        assert(r@ =~= key_text((schema@, table@)));
    }
    r
}

/// The texts of some keys.
pub open spec fn key_texts(keys: Seq<TableKey>) -> Seq<Seq<char>> {
    Seq::new(keys.len(), |i: int| key_text(keys[i]))
}

/// The position of a key among some keys is that of its text.
pub proof fn lemma_key_index(keys: Seq<TableKey>, key: TableKey)
    ensures
        match index_of(key_texts(keys), key_text(key)) {
            Some(i) => 0 <= i < keys.len() && keys[i] == key,
            None => !keys.contains(key),
        },
{
    lemma_index_of(key_texts(keys), key_text(key));
    match index_of(key_texts(keys), key_text(key)) {
        Some(i) => {
            lemma_key_text(keys[i], key);
        },
        None => {
            if keys.contains(key) {
                let i = choose|i: int| 0 <= i < keys.len() && keys[i] == key;
                assert(key_texts(keys)[i] == key_text(key));
            }
        },
    }
}

/// The keys of some tables with columns.
spec fn column_keys(v: Seq<TableColumns>) -> Seq<TableKey> {
    Seq::new(v.len(), |i: int| v[i].key())
}

/// The keys of some tables.
spec fn table_keys(tables: Seq<TableDef>) -> Seq<TableKey> {
    Seq::new(tables.len(), |i: int| (tables[i].schemaname, tables[i].name))
}

/// The keys of some rows of the catalog's tables.
spec fn data_keys(v: Seq<(String, String, CachedTable)>) -> Seq<TableKey> {
    Seq::new(v.len(), |i: int| data_key(v[i]))
}

/// Whether a map has the position of the tablespace of each number.
spec fn maps_spaces(positions: Map<i32, usize>, spaces: Seq<TablespaceDef>) -> bool {
    forall|id: i32|
        #![trigger positions.contains_key(id)]
        #![trigger tablespace_index(spaces, id)]
        match tablespace_index(spaces, id) {
            Some(i) => positions.contains_key(id) && positions[id] == i && 0 <= i < spaces.len(),
            None => !positions.contains_key(id),
        }
}

/// The contents of a cache.
pub struct CacheModel {
    pub catalog: CatalogDef,
    pub config: ConfigModel,
    /// The columns of each table.
    pub columns: Map<TableKey, Seq<ColumnDef>>,
    /// The rows of the catalog's own tables.
    pub data: Map<TableKey, CachedModel>,
}

// ── Lookups ──

/// Where a table is last among some tables.
pub open spec fn table_index(tables: Seq<TableDef>, schema: Seq<char>, name: Seq<char>) -> Option<
    int,
>
    decreases tables.len(),
{
    if tables.len() == 0 {
        None
    } else if tables.last().schemaname == schema && tables.last().name == name {
        Some(tables.len() - 1)
    } else {
        table_index(tables.drop_last(), schema, name)
    }
}

/// Where a tablespace is last among some tablespaces.
pub open spec fn tablespace_index(spaces: Seq<TablespaceDef>, id: i32) -> Option<int>
    decreases spaces.len(),
{
    if spaces.len() == 0 {
        None
    } else if spaces.last().tbspaceid == id {
        Some(spaces.len() - 1)
    } else {
        tablespace_index(spaces.drop_last(), id)
    }
}

/// Where a tablespace of some name is first among some tablespaces from `from` on.
pub open spec fn tablespace_named(
    spaces: Seq<TablespaceDef>,
    name: Seq<char>,
    from: int,
) -> Option<int>
    decreases spaces.len() - from,
{
    if from < 0 || from >= spaces.len() {
        None
    } else if spaces[from].tbspace == name {
        Some(from)
    } else {
        tablespace_named(spaces, name, from + 1)
    }
}

/// The low 16 bits of a number as a signed number.
pub open spec fn wrap16(n: int) -> i16 {
    let m = n % 0x10000;
    if m >= 0x8000 {
        (m - 0x10000) as i16
    } else {
        m as i16
    }
}

/// The greatest number of a table, or 0 where there is no table.
pub open spec fn max_table_id(tables: Seq<TableDef>) -> int
    decreases tables.len(),
{
    if tables.len() == 0 {
        0
    } else if tables.len() == 1 {
        tables[0].tableid as int
    } else {
        let rest = max_table_id(tables.drop_last());
        if tables.last().tableid > rest {
            tables.last().tableid as int
        } else {
            rest
        }
    }
}

// ── Columns of tables ──

/// The columns in the order of their ordinals, where `c` comes after those with the same ordinal.
pub open spec fn insert_column(sorted: Seq<ColumnDef>, c: ColumnDef) -> Seq<ColumnDef>
    decreases sorted.len(),
{
    if sorted.len() == 0 || sorted.last().ordinal <= c.ordinal {
        sorted.push(c)
    } else {
        insert_column(sorted.drop_last(), c).push(sorted.last())
    }
}

/// The columns among the first `n` that belong to a table, in the order of their ordinals.
pub open spec fn columns_of(cols: Seq<ColumnDef>, key: TableKey, n: int) -> Seq<ColumnDef>
    decreases n,
{
    if n <= 0 {
        Seq::empty()
    } else {
        let rest = columns_of(cols, key, n - 1);
        let c = cols[n - 1];
        if c.schemaname == key.0 && c.tabname == key.1 {
            insert_column(rest, c)
        } else {
            rest
        }
    }
}

/// The columns of each table that has any among the first `n`.
pub open spec fn grouped(cols: Seq<ColumnDef>, n: int) -> Map<TableKey, Seq<ColumnDef>> {
    Map::new(
        |key: TableKey| columns_of(cols, key, n).len() > 0,
        |key: TableKey| columns_of(cols, key, n),
    )
}

// ── Rows of the catalog's tables ──

/// A tablespace as a row.
pub open spec fn tablespace_row(t: TablespaceDef) -> Seq<ValueModel> {
    seq![
        ValueModel::Integer(t.tbspaceid),
        ValueModel::Str(t.tbspace),
        ValueModel::Str(t.tbspacetype),
        ValueModel::Str(t.datatype),
        ValueModel::Integer(t.pagesize),
        ValueModel::Str(t.state),
        ValueModel::Integer(t.bufferpoolid),
    ]
}

/// A table as a row.
pub open spec fn table_row(t: TableDef) -> Seq<ValueModel> {
    seq![
        ValueModel::Integer(t.tableid),
        ValueModel::Str(t.name),
        ValueModel::Str(t.schemaname),
        ValueModel::SmallInt(t.tbspaceid),
        ValueModel::SmallInt(t.colcount),
    ]
}

/// A column as a row.
pub open spec fn column_row(c: ColumnDef) -> Seq<ValueModel> {
    seq![
        ValueModel::Str(c.name),
        ValueModel::Str(c.tabname),
        ValueModel::Str(c.schemaname),
        ValueModel::SmallInt(c.ordinal),
        ValueModel::Str(c.typename),
        ValueModel::Bool(c.nullable),
    ]
}

/// The rows of a table of the catalog; there are none for another table.
pub open spec fn catalog_rows(c: CatalogDef, name: Seq<char>) -> Seq<Seq<ValueModel>> {
    if name == "SYSTABLESPACES"@ {
        Seq::new(c.tablespaces.len(), |i: int| tablespace_row(c.tablespaces[i]))
    } else if name == "SYSSCHEMAS"@ {
        Seq::new(c.schemas.len(), |i: int| seq![ValueModel::Str(c.schemas[i])])
    } else if name == "SYSTABLES"@ {
        Seq::new(c.tables.len(), |i: int| table_row(c.tables[i]))
    } else if name == "SYSCOLUMNS"@ {
        Seq::new(c.columns.len(), |i: int| column_row(c.columns[i]))
    } else if name == "SYSBUFFERPOOLS"@ {
        Seq::new(
            c.bufferpools.len(),
            |i: int|
                seq![
                    ValueModel::Integer(c.bufferpools[i].bpid),
                    ValueModel::Str(c.bufferpools[i].bpname),
                    ValueModel::Integer(c.bufferpools[i].pagesize),
                    ValueModel::Integer(c.bufferpools[i].npages),
                ],
        )
    } else {
        Seq::empty()
    }
}

/// The rows of a table of the catalog with the names of its columns.
pub open spec fn cached(c: CatalogDef, cols: Seq<ColumnDef>, name: Seq<char>) -> CachedModel {
    CachedModel { names: column_names(cols), rows: catalog_rows(c, name) }
}

/// Whether one of the first `n` tables has a key.
pub open spec fn lists_table(tables: Seq<TableDef>, key: TableKey, n: int) -> bool {
    exists|i: int|
        0 <= i < n && (#[trigger] tables[i]).schemaname == key.0 && tables[i].name == key.1
}

/// The rows of the tables of the system schema that are among the first `n` tables and have
/// columns.
pub open spec fn materialized(
    c: CatalogDef,
    sys: Seq<char>,
    columns: Map<TableKey, Seq<ColumnDef>>,
    n: int,
) -> Map<TableKey, CachedModel> {
    Map::new(
        |key: TableKey| key.0 == sys && lists_table(c.tables, key, n) && columns.contains_key(key),
        |key: TableKey| cached(c, columns[key], key.1),
    )
}

impl CacheModel {
    /// The table of a name.
    pub open spec fn table(self, schema: Seq<char>, name: Seq<char>) -> Option<TableDef> {
        match table_index(self.catalog.tables, schema, name) {
            Some(i) => Some(self.catalog.tables[i]),
            None => None,
        }
    }

    /// The tablespace of a number.
    pub open spec fn tablespace(self, id: i32) -> Option<TablespaceDef> {
        match tablespace_index(self.catalog.tablespaces, id) {
            Some(i) => Some(self.catalog.tablespaces[i]),
            None => None,
        }
    }

    /// The columns of a table.
    pub open spec fn columns_for(self, schema: Seq<char>, table: Seq<char>) -> Option<
        Seq<ColumnDef>,
    > {
        if self.columns.contains_key((schema, table)) {
            Some(self.columns[(schema, table)])
        } else {
            None
        }
    }

    /// The number of the tablespace of new tables: the configured one, or 2 where there is none of
    /// that name.
    pub open spec fn default_tablespace(self) -> i16 {
        match tablespace_named(self.catalog.tablespaces, self.config.default_tablespace, 0) {
            Some(i) => wrap16(self.catalog.tablespaces[i].tbspaceid as int),
            None => 2,
        }
    }

    /// The cache after the rows of a table of the catalog were made again.
    pub open spec fn rematerialized(self, name: Seq<char>) -> CacheModel {
        let key = (self.config.sys_schema, name);
        if self.columns.contains_key(key) {
            CacheModel {
                data: self.data.insert(key, cached(self.catalog, self.columns[key], name)),
                ..self
            }
        } else {
            self
        }
    }

    /// The cache with a new schema.
    pub open spec fn with_schema(self, name: Seq<char>) -> CacheModel {
        CacheModel {
            catalog: CatalogDef { schemas: self.catalog.schemas.push(name), ..self.catalog },
            ..self
        }.rematerialized("SYSSCHEMAS"@)
    }

    /// The cache with a new table.
    pub open spec fn with_table(self, table: TableDef, cols: Seq<ColumnDef>) -> CacheModel {
        CacheModel {
            catalog: CatalogDef {
                tables: self.catalog.tables.push(table),
                columns: self.catalog.columns + cols,
                ..self.catalog
            },
            columns: self.columns.insert((table.schemaname, table.name), cols),
            ..self
        }.rematerialized("SYSTABLES"@).rematerialized("SYSCOLUMNS"@)
    }

    /// The cache without a table.
    pub open spec fn without_table(self, schema: Seq<char>, name: Seq<char>) -> CacheModel {
        CacheModel {
            catalog: CatalogDef {
                tables: tables_without(self.catalog.tables, (schema, name)),
                columns: columns_without(self.catalog.columns, (schema, name)),
                ..self.catalog
            },
            columns: self.columns.remove((schema, name)),
            ..self
        }.rematerialized("SYSTABLES"@).rematerialized("SYSCOLUMNS"@)
    }
}

/// The tables that do not have a key.
pub open spec fn tables_without(tables: Seq<TableDef>, key: TableKey) -> Seq<TableDef>
    decreases tables.len(),
{
    if tables.len() == 0 {
        Seq::empty()
    } else {
        let rest = tables_without(tables.drop_last(), key);
        if tables.last().schemaname == key.0 && tables.last().name == key.1 {
            rest
        } else {
            rest.push(tables.last())
        }
    }
}

/// The columns that do not belong to a table.
pub open spec fn columns_without(cols: Seq<ColumnDef>, key: TableKey) -> Seq<ColumnDef>
    decreases cols.len(),
{
    if cols.len() == 0 {
        Seq::empty()
    } else {
        let rest = columns_without(cols.drop_last(), key);
        if cols.last().schemaname == key.0 && cols.last().tabname == key.1 {
            rest
        } else {
            rest.push(cols.last())
        }
    }
}

/// The contents of a new cache.
pub open spec fn built(catalog: CatalogDef, config: ConfigModel) -> CacheModel {
    let columns = grouped(catalog.columns, catalog.columns.len() as int);
    CacheModel {
        catalog,
        config,
        columns,
        data: materialized(catalog, config.sys_schema, columns, catalog.tables.len() as int),
    }
}

// ── The lists behind the cache ──

/// Where the columns of a table are, or the number of tables with columns.
spec fn find_columns(v: Seq<TableColumns>, key: TableKey, from: int) -> int
    decreases v.len() - from,
{
    if from >= v.len() {
        v.len() as int
    } else if v[from].key() == key {
        from
    } else {
        find_columns(v, key, from + 1)
    }
}

proof fn lemma_find_columns(v: Seq<TableColumns>, key: TableKey, from: int)
    requires
        0 <= from <= v.len(),
    ensures
        from <= find_columns(v, key, from) <= v.len(),
        find_columns(v, key, from) < v.len() ==> v[find_columns(v, key, from)].key() == key,
        forall|j: int|
            from <= j < find_columns(v, key, from) ==> (#[trigger] v[j]).key() != key,
    decreases v.len() - from,
{
    if from < v.len() && v[from].key() != key {
        lemma_find_columns(v, key, from + 1);
    }
}

/// Each table is listed once, with the names and positions of its columns.
spec fn columns_listed(v: Seq<TableColumns>) -> bool {
    &&& forall|i: int| 0 <= i < v.len() ==> (#[trigger] v[i]).wf()
    &&& forall|i: int, j: int|
        0 <= i < v.len() && 0 <= j < v.len() && i != j ==> (#[trigger] v[i]).key() != (
        #[trigger] v[j]).key()
}

/// The columns by table.
spec fn columns_map(v: Seq<TableColumns>) -> Map<TableKey, Seq<ColumnDef>> {
    Map::new(
        |key: TableKey| find_columns(v, key, 0) < v.len(),
        |key: TableKey| columns_view(v[find_columns(v, key, 0)].columns@),
    )
}

/// A table is found where it is listed.
proof fn lemma_columns_at(v: Seq<TableColumns>, i: int)
    requires
        0 <= i < v.len(),
        forall|a: int, b: int|
            0 <= a < v.len() && 0 <= b < v.len() && a != b ==> (#[trigger] v[a]).key() != (
            #[trigger] v[b]).key(),
    ensures
        find_columns(v, v[i].key(), 0) == i,
{
    lemma_find_columns(v, v[i].key(), 0);
    let k = find_columns(v, v[i].key(), 0);
    if k < i {
        assert(v[k].key() != v[i].key());
    }
}

/// Listing a table, or its columns anew, sets its columns.
proof fn lemma_columns_put(v: Seq<TableColumns>, e: TableColumns)
    requires
        columns_listed(v),
        e.wf(),
    ensures
        ({
            let i = find_columns(v, e.key(), 0);
            let v2 = if i < v.len() {
                v.update(i, e)
            } else {
                v.push(e)
            };
            &&& columns_listed(v2)
            &&& columns_map(v2) == columns_map(v).insert(e.key(), columns_view(e.columns@))
        }),
{
    let key = e.key();
    lemma_find_columns(v, key, 0);
    let i = find_columns(v, key, 0);
    let v2 = if i < v.len() {
        v.update(i, e)
    } else {
        v.push(e)
    };
    assert forall|a: int, b: int|
        0 <= a < v2.len() && 0 <= b < v2.len() && a != b implies (#[trigger] v2[a]).key() != (
    #[trigger] v2[b]).key() by {
        if a < v.len() && b < v.len() {
            assert(v[a].key() != v[b].key());
            assert(v2[a].key() == v[a].key());
            assert(v2[b].key() == v[b].key());
        } else if a < v.len() {
            assert(v[a].key() != key);
        } else {
            assert(v[b].key() != key);
        }
    }
    let want = columns_map(v).insert(key, columns_view(e.columns@));
    assert_maps_equal!(columns_map(v2), want, k => {
        lemma_find_columns(v, k, 0);
        lemma_find_columns(v2, k, 0);
        let a = find_columns(v, k, 0);
        if k == key {
            lemma_columns_at(v2, i);
            assert(v2[i].key() == key);
        } else if a < v.len() {
            assert(a != i);
            assert(v2[a] == v[a]);
            lemma_columns_at(v2, a);
        } else {
            let b = find_columns(v2, k, 0);
            if b < v2.len() {
                assert(v2[b].key() == k);
                assert(b != i);
                assert(v[b].key() == k);
            }
        }
    });
}

/// Taking a table off the list takes its columns away.
proof fn lemma_columns_removed(v: Seq<TableColumns>, key: TableKey)
    requires
        columns_listed(v),
    ensures
        ({
            let i = find_columns(v, key, 0);
            let v2 = if i < v.len() {
                v.remove(i)
            } else {
                v
            };
            &&& columns_listed(v2)
            &&& columns_map(v2) == columns_map(v).remove(key)
        }),
{
    lemma_find_columns(v, key, 0);
    let i = find_columns(v, key, 0);
    if i < v.len() {
        let v2 = v.remove(i);
        assert forall|a: int| 0 <= a < v2.len() implies #[trigger] v2[a] == v[if a < i {
            a
        } else {
            a + 1
        }] by {}
        assert forall|a: int, b: int|
            0 <= a < v2.len() && 0 <= b < v2.len() && a != b implies (#[trigger] v2[a]).key() != (
        #[trigger] v2[b]).key() by {
            let a1 = if a < i { a } else { a + 1 };
            let b1 = if b < i { b } else { b + 1 };
            assert(v[a1].key() != v[b1].key());
        }
        assert forall|a: int| 0 <= a < v2.len() implies (#[trigger] v2[a]).wf() by {
            let a1 = if a < i { a } else { a + 1 };
            assert(v[a1].wf());
        }
        let want = columns_map(v).remove(key);
        assert_maps_equal!(columns_map(v2), want, k => {
            lemma_find_columns(v, k, 0);
            lemma_find_columns(v2, k, 0);
            let a = find_columns(v, k, 0);
            let b = find_columns(v2, k, 0);
            if k == key {
                if b < v2.len() {
                    let b1 = if b < i { b } else { b + 1 };
                    assert(v[b1].key() == key && v[i].key() == key);
                }
            } else if a < v.len() {
                let a2 = if a < i { a } else { a - 1 };
                assert(v2[a2] == v[a]);
                lemma_columns_at(v2, a2);
            } else if b < v2.len() {
                let b1 = if b < i { b } else { b + 1 };
                assert(v[b1].key() == k);
            }
        });
    } else {
        assert(columns_map(v) =~= columns_map(v).remove(key));
    }
}

/// The key of an entry of the rows of the catalog's tables.
spec fn data_key(e: (String, String, CachedTable)) -> TableKey {
    (e.0@, e.1@)
}

/// Where the rows of a table are, or the number of entries.
spec fn find_data(v: Seq<(String, String, CachedTable)>, key: TableKey, from: int) -> int
    decreases v.len() - from,
{
    if from >= v.len() {
        v.len() as int
    } else if data_key(v[from]) == key {
        from
    } else {
        find_data(v, key, from + 1)
    }
}

proof fn lemma_find_data(v: Seq<(String, String, CachedTable)>, key: TableKey, from: int)
    requires
        0 <= from <= v.len(),
    ensures
        from <= find_data(v, key, from) <= v.len(),
        find_data(v, key, from) < v.len() ==> data_key(v[find_data(v, key, from)]) == key,
        forall|j: int| from <= j < find_data(v, key, from) ==> data_key(#[trigger] v[j]) != key,
    decreases v.len() - from,
{
    if from < v.len() && data_key(v[from]) != key {
        lemma_find_data(v, key, from + 1);
    }
}

/// The rows by table; the first entry of a table counts.
spec fn data_map(v: Seq<(String, String, CachedTable)>) -> Map<TableKey, CachedModel> {
    Map::new(
        |key: TableKey| find_data(v, key, 0) < v.len(),
        |key: TableKey| v[find_data(v, key, 0)].2@,
    )
}

/// Putting in the rows of a table, or its rows anew, sets its rows.
proof fn lemma_data_put(v: Seq<(String, String, CachedTable)>, e: (String, String, CachedTable))
    ensures
        ({
            let i = find_data(v, data_key(e), 0);
            let v2 = if i < v.len() {
                v.update(i, e)
            } else {
                v.push(e)
            };
            &&& data_map(v2) == data_map(v).insert(data_key(e), e.2@)
            &&& data_keys(v).no_duplicates() ==> data_keys(v2).no_duplicates()
        }),
{
    let key = data_key(e);
    lemma_find_data(v, key, 0);
    let i = find_data(v, key, 0);
    let v2 = if i < v.len() {
        v.update(i, e)
    } else {
        v.push(e)
    };
    if data_keys(v).no_duplicates() {
        let k1 = data_keys(v);
        let k2 = data_keys(v2);
        assert forall|a: int, b: int| 0 <= a < k2.len() && 0 <= b < k2.len() && a != b implies k2[a]
            != k2[b] by {
            if a < v.len() {
                assert(k2[a] == k1[a]);
            }
            if b < v.len() {
                assert(k2[b] == k1[b]);
            }
            if a == v.len() {
                assert(data_key(v[b]) != key);
            }
            if b == v.len() {
                assert(data_key(v[a]) != key);
            }
        }
    }
    let want = data_map(v).insert(key, e.2@);
    assert_maps_equal!(data_map(v2), want, k => {
        lemma_find_data(v, k, 0);
        lemma_find_data(v2, k, 0);
        let a = find_data(v, k, 0);
        let b = find_data(v2, k, 0);
        if k == key {
            assert(data_key(v2[i]) == key);
            if b < i {
                assert(v2[b] == v[b]);
            }
        } else if a < v.len() {
            assert(v2[a] == v[a]);
            if b < a {
                assert(data_key(v2[b]) == k);
                assert(b != i);
                assert(v2[b] == v[b]);
            }
        } else if b < v2.len() {
            assert(data_key(v2[b]) == k);
            assert(b != i);
            assert(v2[b] == v[b]);
        }
    });
}

// ── Building the cache ──

/// Inserting a column at the right place.
proof fn lemma_insert_column(s: Seq<ColumnDef>, c: ColumnDef, pos: int)
    requires
        0 <= pos <= s.len(),
        forall|i: int| pos <= i < s.len() ==> (#[trigger] s[i]).ordinal > c.ordinal,
        pos > 0 ==> s[pos - 1].ordinal <= c.ordinal,
    ensures
        insert_column(s, c) == s.insert(pos, c),
    decreases s.len(),
{
    if pos == s.len() {
        assert(s.insert(pos, c) =~= s.push(c));
    } else {
        let d = s.drop_last();
        lemma_insert_column(d, c, pos);
        assert(s.last().ordinal > c.ordinal);
        assert(d.insert(pos, c).push(s.last()) =~= s.insert(pos, c));
    }
}

fn insert_sorted(cols: &mut Vec<Column>, c: Column)
    ensures
        columns_view(final(cols)@) == insert_column(columns_view(old(cols)@), c@),
{
    let ghost before = columns_view(cols@);
    let mut pos: usize = cols.len();
    while pos > 0 && cols[pos - 1].ordinal > c.ordinal
        invariant
            pos <= cols@.len(),
            cols@ == old(cols)@,
            before == columns_view(cols@),
            forall|i: int| pos <= i < before.len() ==> (#[trigger] before[i]).ordinal > c@.ordinal,
        decreases pos,
    {
        assert(before[pos - 1] == cols@[pos - 1]@);
        pos -= 1;
    }
    proof {
        if pos > 0 {
            assert(before[pos - 1] == cols@[pos - 1]@);
        }
        lemma_insert_column(before, c@, pos as int);
    }
    let ghost cv = c@;
    cols.insert(pos, c);
    assert(columns_view(cols@) =~= before.insert(pos as int, cv));
}

fn names_of(cols: &Vec<Column>) -> (r: Vec<String>)
    ensures
        names_view(r@) == column_names(columns_view(cols@)),
{
    let n: usize = cols.len();
    let mut out: Vec<String> = Vec::new();
    let mut i: usize = 0;
    while i < n
        invariant
            i <= n,
            n == cols@.len(),
            out@.len() == i,
            forall|k: int| 0 <= k < i ==> (#[trigger] out@[k])@ == cols@[k].name@,
        decreases n - i,
    {
        out.push(cols[i].name.clone());
        i += 1;
    }
    assert(names_view(out@) =~= column_names(columns_view(cols@)));
    out
}

fn table_columns(schema: String, table: String, columns: Vec<Column>) -> (r: TableColumns)
    ensures
        r.wf(),
        r.key() == (schema@, table@),
        r.columns == columns,
{
    let names: Vec<String> = names_of(&columns);
    let index: ColumnIndex = ColumnIndex::new(&names);
    TableColumns { schema, table, columns, names, index }
}

fn find_entry(v: &Vec<TableColumns>, schema: &str, table: &str) -> (r: usize)
    ensures
        r == find_columns(v@, (schema@, table@), 0),
        r <= v@.len(),
{
    let n: usize = v.len();
    let mut i: usize = 0;
    while i < n
        invariant
            i <= n,
            n == v@.len(),
            find_columns(v@, (schema@, table@), 0) == find_columns(
                v@,
                (schema@, table@),
                i as int,
            ),
        decreases n - i,
    {
        if same_str(v[i].schema.as_str(), schema) && same_str(v[i].table.as_str(), table) {
            return i;
        }
        i += 1;
    }
    n
}

/// The positions of some tables with columns.
fn index_columns(v: &Vec<TableColumns>) -> (r: ColumnIndex)
    ensures
        r@ == key_texts(column_keys(v@)),
{
    let n: usize = v.len();
    let ghost want = key_texts(column_keys(v@));
    let mut keys: Vec<String> = Vec::new();
    let mut i: usize = 0;
    while i < n
        invariant
            i <= n,
            n == v@.len() == want.len(),
            want == key_texts(column_keys(v@)),
            keys@.len() == i,
            forall|k: int| 0 <= k < i ==> (#[trigger] keys@[k])@ == want[k],
        decreases n - i,
    {
        keys.push(key_string(v[i].schema.as_str(), v[i].table.as_str()));
        i += 1;
    }
    assert(names_view(keys@) =~= want);
    ColumnIndex::new(&keys)
}

/// The positions of some rows of the catalog's tables.
fn index_data(v: &Vec<(String, String, CachedTable)>) -> (r: ColumnIndex)
    ensures
        r@ == key_texts(data_keys(v@)),
{
    let n: usize = v.len();
    let ghost want = key_texts(data_keys(v@));
    let mut keys: Vec<String> = Vec::new();
    let mut i: usize = 0;
    while i < n
        invariant
            i <= n,
            n == v@.len() == want.len(),
            want == key_texts(data_keys(v@)),
            keys@.len() == i,
            forall|k: int| 0 <= k < i ==> (#[trigger] keys@[k])@ == want[k],
        decreases n - i,
    {
        keys.push(key_string(v[i].0.as_str(), v[i].1.as_str()));
        i += 1;
    }
    assert(names_view(keys@) =~= want);
    ColumnIndex::new(&keys)
}

/// The positions of some tables.
fn index_tables(tables: &Vec<Table>) -> (r: ColumnIndex)
    ensures
        r@ == key_texts(table_keys(Seq::new(tables@.len(), |i: int| tables@[i]@))),
{
    let n: usize = tables.len();
    let ghost all = Seq::new(tables@.len(), |i: int| tables@[i]@);
    let ghost want = key_texts(table_keys(all));
    let mut keys: Vec<String> = Vec::new();
    let mut i: usize = 0;
    while i < n
        invariant
            i <= n,
            n == tables@.len() == want.len() == all.len(),
            all == Seq::new(tables@.len(), |i: int| tables@[i]@),
            want == key_texts(table_keys(all)),
            keys@.len() == i,
            forall|k: int| 0 <= k < i ==> (#[trigger] keys@[k])@ == want[k],
        decreases n - i,
    {
        assert(all[i as int] == tables@[i as int]@);
        keys.push(key_string(tables[i].schemaname.as_str(), tables[i].name.as_str()));
        i += 1;
    }
    assert(names_view(keys@) =~= want);
    ColumnIndex::new(&keys)
}

/// The positions of some tablespaces.
fn index_spaces(spaces: &Vec<Tablespace>) -> (r: HashMap<i32, usize>)
    ensures
        maps_spaces(r@, Seq::new(spaces@.len(), |i: int| spaces@[i]@)),
{
    broadcast use vstd::std_specs::hash::group_hash_axioms;

    let n: usize = spaces.len();
    let ghost all = Seq::new(spaces@.len(), |i: int| spaces@[i]@);
    let mut positions: HashMap<i32, usize> = HashMap::new();
    let mut i: usize = 0;
    assert(all.subrange(0, 0) =~= Seq::<TablespaceDef>::empty());
    while i < n
        invariant
            i <= n,
            n == spaces@.len() == all.len(),
            all == Seq::new(spaces@.len(), |i: int| spaces@[i]@),
            maps_spaces(positions@, all.subrange(0, i as int)),
        decreases n - i,
    {
        let ghost before = positions@;
        positions.insert(spaces[i].tbspaceid, i);
        proof {
            let longer = all.subrange(0, i + 1);
            assert(longer.drop_last() =~= all.subrange(0, i as int));
            assert(longer.last() == spaces@[i as int]@);
            assert forall|id: i32|
                #![trigger positions@.contains_key(id)]
                #![trigger tablespace_index(longer, id)]
                match tablespace_index(longer, id) {
                    Some(k) => positions@.contains_key(id) && positions@[id] == k && 0 <= k
                        < longer.len(),
                    None => !positions@.contains_key(id),
                } by {
                if id != spaces@[i as int].tbspaceid {
                    assert(tablespace_index(longer, id) == tablespace_index(
                        all.subrange(0, i as int),
                        id,
                    ));
                    assert(positions@.contains_key(id) == before.contains_key(id));
                }
            }
        }
        i += 1;
    }
    assert(all.subrange(0, n as int) =~= all);
    positions
}

/// The columns by table, from all columns.
fn group_columns(cols: &Vec<Column>) -> (r: Vec<TableColumns>)
    ensures
        columns_listed(r@),
        columns_map(r@) == grouped(columns_view(cols@), cols@.len() as int),
{
    let n: usize = cols.len();
    let ghost all = columns_view(cols@);
    let mut out: Vec<TableColumns> = Vec::new();
    assert(columns_map(out@) =~= grouped(all, 0));
    let mut i: usize = 0;
    while i < n
        invariant
            i <= n,
            n == cols@.len(),
            all == columns_view(cols@),
            columns_listed(out@),
            columns_map(out@) == grouped(all, i as int),
        decreases n - i,
    {
        let c: &Column = &cols[i];
        let ghost key = (c.schemaname@, c.tabname@);
        let at: usize = find_entry(&out, c.schemaname.as_str(), c.tabname.as_str());
        let mut list: Vec<Column> = Vec::new();
        let ghost before = columns_map(out@);
        if at < out.len() {
            list = copy_columns(&out[at].columns);
        }
        proof {
            lemma_find_columns(out@, key, 0);
            assert(all[i as int] == c@);
            assert(columns_view(list@) =~= columns_of(all, key, i as int)) by {
                if at < out@.len() {
                    assert(before.contains_key(key));
                    assert(before[key] == columns_view(out@[at as int].columns@));
                    assert(grouped(all, i as int)[key] == columns_of(all, key, i as int));
                } else {
                    assert(!before.contains_key(key));
                    assert(!grouped(all, i as int).contains_key(key));
                }
            }
        }
        insert_sorted(&mut list, c.copy());
        let entry: TableColumns = table_columns(
            copy_str(c.schemaname.as_str()),
            copy_str(c.tabname.as_str()),
            list,
        );
        proof {
            lemma_columns_put(out@, entry);
            let next = grouped(all, i + 1);
            assert forall|k: TableKey|
                next.contains_key(k) == before.insert(key, columns_view(list@)).contains_key(k) && (
                next.contains_key(k) ==> next[k] == before.insert(key, columns_view(list@))[k]) by {
                if k == key {
                    lemma_insert_grows(columns_of(all, key, i as int), c@);
                } else {
                    assert(columns_of(all, k, i + 1) == columns_of(all, k, i as int));
                    assert(before.contains_key(k) == grouped(all, i as int).contains_key(k));
                }
            }
            assert(next =~= before.insert(key, columns_view(list@)));
        }
        if at < out.len() {
            out.set(at, entry);
        } else {
            out.push(entry);
        }
        i += 1;
    }
    out
}

proof fn lemma_insert_grows(s: Seq<ColumnDef>, c: ColumnDef)
    ensures
        insert_column(s, c).len() == s.len() + 1,
    decreases s.len(),
{
    if s.len() > 0 && s.last().ordinal > c.ordinal {
        lemma_insert_grows(s.drop_last(), c);
    }
}

/// A copy of some columns.
pub fn copy_columns(cols: &Vec<Column>) -> (r: Vec<Column>)
    ensures
        columns_view(r@) == columns_view(cols@),
        r@.len() == cols@.len(),
{
    let n: usize = cols.len();
    let mut out: Vec<Column> = Vec::new();
    let mut i: usize = 0;
    while i < n
        invariant
            i <= n,
            n == cols@.len(),
            out@.len() == i,
            forall|k: int| 0 <= k < i ==> (#[trigger] out@[k])@ == cols@[k]@,
        decreases n - i,
    {
        out.push(cols[i].copy());
        i += 1;
    }
    assert(columns_view(out@) =~= columns_view(cols@));
    out
}

fn tablespace_values(t: &Tablespace) -> (r: Vec<Value>)
    ensures
        row_view(r@) == tablespace_row(t@),
{
    let mut row: Vec<Value> = Vec::new();
    row.push(Value::Integer(t.tbspaceid));
    row.push(Value::Str(t.tbspace.clone()));
    row.push(Value::Str(t.tbspacetype.clone()));
    row.push(Value::Str(t.datatype.clone()));
    row.push(Value::Integer(t.pagesize));
    row.push(Value::Str(t.state.clone()));
    row.push(Value::Integer(t.bufferpoolid));
    assert(row_view(row@) =~= tablespace_row(t@));
    row
}

/// A table as a row.
pub fn table_values(t: &Table) -> (r: Vec<Value>)
    ensures
        row_view(r@) == table_row(t@),
{
    let mut row: Vec<Value> = Vec::new();
    row.push(Value::Integer(t.tableid));
    row.push(Value::Str(t.name.clone()));
    row.push(Value::Str(t.schemaname.clone()));
    row.push(Value::SmallInt(t.tbspaceid));
    row.push(Value::SmallInt(t.colcount));
    assert(row_view(row@) =~= table_row(t@));
    row
}

/// A column as a row.
pub fn column_values(c: &Column) -> (r: Vec<Value>)
    ensures
        row_view(r@) == column_row(c@),
{
    let mut row: Vec<Value> = Vec::new();
    row.push(Value::Str(c.name.clone()));
    row.push(Value::Str(c.tabname.clone()));
    row.push(Value::Str(c.schemaname.clone()));
    row.push(Value::SmallInt(c.ordinal));
    row.push(Value::Str(c.typename.clone()));
    row.push(Value::Bool(c.nullable));
    assert(row_view(row@) =~= column_row(c@));
    row
}

/// The rows of a table of the catalog.
fn catalog_values(c: &Catalog, name: &str) -> (r: Vec<Vec<Value>>)
    ensures
        rows_view(r@) == catalog_rows(c@, name@),
{
    let ghost want = catalog_rows(c@, name@);
    let mut out: Vec<Vec<Value>> = Vec::new();
    let mut i: usize = 0;
    if same_str(name, "SYSTABLESPACES") {
        while i < c.tablespaces.len()
            invariant
                i <= c.tablespaces@.len() == want.len(),
                forall|k: int|
                    0 <= k < want.len() ==> #[trigger] want[k] == tablespace_row(
                        c.tablespaces@[k]@,
                    ),
                out@.len() == i,
                forall|k: int| 0 <= k < i ==> row_view((#[trigger] out@[k])@) == want[k],
            decreases c.tablespaces@.len() - i,
        {
            out.push(tablespace_values(&c.tablespaces[i]));
            i += 1;
        }
    } else if same_str(name, "SYSSCHEMAS") {
        while i < c.schemas.len()
            invariant
                i <= c.schemas@.len() == want.len(),
                forall|k: int|
                    0 <= k < want.len() ==> #[trigger] want[k] == seq![
                        ValueModel::Str(c.schemas@[k]@),
                    ],
                out@.len() == i,
                forall|k: int| 0 <= k < i ==> row_view((#[trigger] out@[k])@) == want[k],
            decreases c.schemas@.len() - i,
        {
            let mut row: Vec<Value> = Vec::new();
            row.push(Value::Str(c.schemas[i].name.clone()));
            assert(row_view(row@) =~= want[i as int]);
            out.push(row);
            i += 1;
        }
    } else if same_str(name, "SYSTABLES") {
        while i < c.tables.len()
            invariant
                i <= c.tables@.len() == want.len(),
                forall|k: int|
                    0 <= k < want.len() ==> #[trigger] want[k] == table_row(c.tables@[k]@),
                out@.len() == i,
                forall|k: int| 0 <= k < i ==> row_view((#[trigger] out@[k])@) == want[k],
            decreases c.tables@.len() - i,
        {
            out.push(table_values(&c.tables[i]));
            i += 1;
        }
    } else if same_str(name, "SYSCOLUMNS") {
        while i < c.columns.len()
            invariant
                i <= c.columns@.len() == want.len(),
                forall|k: int|
                    0 <= k < want.len() ==> #[trigger] want[k] == column_row(c.columns@[k]@),
                out@.len() == i,
                forall|k: int| 0 <= k < i ==> row_view((#[trigger] out@[k])@) == want[k],
            decreases c.columns@.len() - i,
        {
            out.push(column_values(&c.columns[i]));
            i += 1;
        }
    } else if same_str(name, "SYSBUFFERPOOLS") {
        while i < c.bufferpools.len()
            invariant
                i <= c.bufferpools@.len() == want.len(),
                forall|k: int|
                    0 <= k < want.len() ==> #[trigger] want[k] == seq![
                        ValueModel::Integer(c.bufferpools@[k].bpid),
                        ValueModel::Str(c.bufferpools@[k].bpname@),
                        ValueModel::Integer(c.bufferpools@[k].pagesize),
                        ValueModel::Integer(c.bufferpools@[k].npages),
                    ],
                out@.len() == i,
                forall|k: int| 0 <= k < i ==> row_view((#[trigger] out@[k])@) == want[k],
            decreases c.bufferpools@.len() - i,
        {
            let b: &BufferPool = &c.bufferpools[i];
            let mut row: Vec<Value> = Vec::new();
            row.push(Value::Integer(b.bpid));
            row.push(Value::Str(b.bpname.clone()));
            row.push(Value::Integer(b.pagesize));
            row.push(Value::Integer(b.npages));
            assert(row_view(row@) =~= want[i as int]);
            out.push(row);
            i += 1;
        }
    }
    assert(rows_view(out@) =~= want);
    out
}

impl View for CatalogCache {
    type V = CacheModel;

    closed spec fn view(&self) -> CacheModel {
        CacheModel {
            catalog: self.catalog@,
            config: self.config@,
            columns: columns_map(self.by_table@),
            data: data_map(self.tables_data@),
        }
    }
}

/// The low 16 bits of a number as a signed number.
pub fn wrap_i16(n: i64) -> (r: i16)
    ensures
        r == wrap16(n as int),
{
    let m: i64 = if n >= 0 { n % 0x10000 } else { 0xffff - (-(n + 1)) % 0x10000 };
    if m >= 0x8000 {
        (m - 0x10000) as i16
    } else {
        m as i16
    }
}

impl CatalogCache {
    /// The lists are in order.
    pub closed spec fn wf(&self) -> bool {
        &&& columns_listed(self.by_table@)
        &&& forall|i: int|
            0 <= i < self.tables_data@.len() ==> (#[trigger] self.tables_data@[i]).2.wf()
        &&& data_keys(self.tables_data@).no_duplicates()
        &&& self.columns_at@ == key_texts(column_keys(self.by_table@))
        &&& self.data_at@ == key_texts(data_keys(self.tables_data@))
        &&& self.tables_at@ == key_texts(table_keys(self.catalog@.tables))
        &&& maps_spaces(self.spaces_at@, self.catalog@.tablespaces)
    }

    /// Where the columns of a table are, or the number of tables with columns.
    fn columns_position(&self, schema: &str, table: &str) -> (r: usize)
        requires
            columns_listed(self.by_table@),
            self.columns_at@ == key_texts(column_keys(self.by_table@)),
        ensures
            r == find_columns(self.by_table@, (schema@, table@), 0),
            r <= self.by_table@.len(),
    {
        let ghost key = (schema@, table@);
        let ghost v = self.by_table@;
        let found: Option<usize> = self.columns_at.get(key_string(schema, table).as_str());
        proof {
            lemma_key_index(column_keys(v), key);
            lemma_find_columns(v, key, 0);
            let k = find_columns(v, key, 0);
            match found {
                Some(i) => {
                    assert(v[i as int].key() == key);
                    lemma_columns_at(v, i as int);
                },
                None => {
                    if k < v.len() {
                        assert(column_keys(v)[k] == key);
                    }
                },
            }
        }
        match found {
            Some(i) => i,
            None => self.by_table.len(),
        }
    }

    /// Where the rows of a table of the catalog are, or the number of tables with rows.
    fn data_position(&self, schema: &str, table: &str) -> (r: usize)
        requires
            data_keys(self.tables_data@).no_duplicates(),
            self.data_at@ == key_texts(data_keys(self.tables_data@)),
        ensures
            r == find_data(self.tables_data@, (schema@, table@), 0),
            r <= self.tables_data@.len(),
    {
        let ghost key = (schema@, table@);
        let ghost v = self.tables_data@;
        let found: Option<usize> = self.data_at.get(key_string(schema, table).as_str());
        proof {
            lemma_key_index(data_keys(v), key);
            lemma_find_data(v, key, 0);
            let k = find_data(v, key, 0);
            match found {
                Some(i) => {
                    assert(data_keys(v)[i as int] == key);
                    if k < v.len() {
                        assert(data_keys(v)[k] == key);
                    }
                    assert(data_key(v[i as int]) == key);
                },
                None => {
                    if k < v.len() {
                        assert(data_keys(v)[k] == key);
                    }
                },
            }
        }
        match found {
            Some(i) => i,
            None => self.tables_data.len(),
        }
    }

    /// Builds the cache of a catalog.
    pub fn new(catalog: Catalog, config: DbConfig) -> (r: Self)
        ensures
            r.wf(),
            r@ == built(catalog@, config@),
    {
        let by_table: Vec<TableColumns> = group_columns(&catalog.columns);
        let columns_at: ColumnIndex = index_columns(&by_table);
        let tables_at: ColumnIndex = index_tables(&catalog.tables);
        let spaces_at: HashMap<i32, usize> = index_spaces(&catalog.tablespaces);
        let tables_data: Vec<(String, String, CachedTable)> = Vec::new();
        let data_at: ColumnIndex = index_data(&tables_data);
        proof {
            assert(catalog@.tables =~= Seq::new(
                catalog.tables@.len(),
                |i: int| catalog.tables@[i]@,
            ));
            assert(catalog@.tablespaces =~= Seq::new(
                catalog.tablespaces@.len(),
                |i: int| catalog.tablespaces@[i]@,
            ));
        }
        let mut cache = Self {
            catalog,
            config,
            by_table,
            tables_data,
            columns_at,
            data_at,
            tables_at,
            spaces_at,
        };
        let n: usize = cache.catalog.tables.len();
        let ghost c = catalog@;
        let ghost sys = config@.sys_schema;
        let ghost cols = columns_map(by_table@);
        let mut i: usize = 0;
        assert(data_map(cache.tables_data@) =~= materialized(c, sys, cols, 0));
        while i < n
            invariant
                i <= n,
                cache.wf(),
                cache.catalog@ == c,
                cache.config@ == config@,
                sys == config@.sys_schema,
                n == c.tables.len() == cache.catalog.tables@.len(),
                columns_map(cache.by_table@) == cols,
                data_map(cache.tables_data@) == materialized(c, sys, cols, i as int),
            decreases n - i,
        {
            let t: &Table = &cache.catalog.tables[i];
            let ghost key = (t.schemaname@, t.name@);
            assert(c.tables[i as int] == t@);
            let is_sys: bool = same_str(t.schemaname.as_str(), cache.config.sys_schema.as_str());
            let name: String = t.name.clone();
            let ghost before = data_map(cache.tables_data@);
            if is_sys {
                cache.rematerialize(name.as_str());
            }
            proof {
                let next = materialized(c, sys, cols, i + 1);
                assert_maps_equal!(data_map(cache.tables_data@), next, k => {
                    if lists_table(c.tables, k, i as int) {
                        let j = choose|j: int|
                            0 <= j < i && (#[trigger] c.tables[j]).schemaname == k.0
                                && c.tables[j].name == k.1;
                        assert(c.tables[j].schemaname == k.0);
                        assert(lists_table(c.tables, k, i + 1));
                    }
                    if lists_table(c.tables, k, i + 1) && !lists_table(c.tables, k, i as int) {
                        let j = choose|j: int|
                            0 <= j < i + 1 && (#[trigger] c.tables[j]).schemaname == k.0
                                && c.tables[j].name == k.1;
                        assert(j == i);
                    }
                    if k == key {
                        assert(c.tables[i as int].schemaname == k.0);
                        assert(lists_table(c.tables, k, i + 1));
                    }
                });
            }
            i += 1;
        }
        cache
    }

    /// Makes the rows of a table of the catalog again.
    fn rematerialize(&mut self, name: &str)
        requires
            old(self).wf(),
        ensures
            final(self).wf(),
            final(self)@ == old(self)@.rematerialized(name@),
            final(self).catalog == old(self).catalog,
            final(self).config == old(self).config,
            final(self).by_table == old(self).by_table,
            final(self).columns_at == old(self).columns_at,
            final(self).tables_at == old(self).tables_at,
            final(self).spaces_at == old(self).spaces_at,
    {
        let ghost key = (self.config.sys_schema@, name@);
        let at: usize = self.columns_position(self.config.sys_schema.as_str(), name);
        if at >= self.by_table.len() {
            return;
        }
        let names: Vec<String> = copy_names(&self.by_table[at].names);
        let index: ColumnIndex = ColumnIndex::new(&names);
        let rows: Vec<Vec<Value>> = catalog_values(&self.catalog, name);
        let entry = (
            self.config.sys_schema.clone(),
            copy_str(name),
            CachedTable { column_names: names, column_index: index, rows },
        );
        let ghost before = self.tables_data@;
        let k: usize = self.data_position(self.config.sys_schema.as_str(), name);
        proof {
            assert(self.by_table@[at as int].wf());
            lemma_data_put(before, entry);
            assert(data_key(entry) == key);
        }
        if k < self.tables_data.len() {
            self.tables_data.set(k, entry);
        } else {
            self.tables_data.push(entry);
        }
        self.data_at = index_data(&self.tables_data);
        assert(self@ == old(self)@.rematerialized(name@));
    }

    /// The table of a name.
    pub fn get_table(&self, schema: &str, name: &str) -> (r: Option<&Table>)
        requires
            self.wf(),
        ensures
            match r {
                Some(t) => self@.table(schema@, name@) == Some(t@),
                None => self@.table(schema@, name@) is None,
            },
    {
        let found: Option<usize> = self.tables_at.get(key_string(schema, name).as_str());
        proof {
            lemma_table_keys(self@.catalog.tables, schema@, name@);
            lemma_table_index(self@.catalog.tables, schema@, name@);
        }
        match found {
            Some(i) => {
                assert(self@.catalog.tables[i as int] == self.catalog.tables@[i as int]@);
                Some(&self.catalog.tables[i])
            }
            None => None,
        }
    }

    /// The configuration of the database.
    pub fn config(&self) -> (r: &DbConfig)
        ensures
            r@ == self@.config,
    {
        &self.config
    }

    /// The number of the tablespace of new tables.
    pub fn default_tablespace_id(&self) -> (r: i16)
        ensures
            r == self@.default_tablespace(),
    {
        let ghost all = self@.catalog.tablespaces;
        let n: usize = self.catalog.tablespaces.len();
        let mut i: usize = 0;
        while i < n
            invariant
                i <= n,
                n == self.catalog.tablespaces@.len() == all.len(),
                all == self@.catalog.tablespaces,
                tablespace_named(all, self@.config.default_tablespace, 0) == tablespace_named(
                    all,
                    self@.config.default_tablespace,
                    i as int,
                ),
            decreases n - i,
        {
            let t: &Tablespace = &self.catalog.tablespaces[i];
            assert(all[i as int] == t@);
            if same_str(t.tbspace.as_str(), self.config.default_tablespace.as_str()) {
                return wrap_i16(t.tbspaceid as i64);
            }
            i += 1;
        }
        2
    }

    /// The columns of a table, in the order of their ordinals.
    pub fn get_columns(&self, schema: &str, table: &str) -> (r: Option<&Vec<Column>>)
        requires
            self.wf(),
        ensures
            match r {
                Some(cols) => self@.columns_for(schema@, table@) == Some(columns_view(cols@)),
                None => self@.columns_for(schema@, table@) is None,
            },
    {
        let at: usize = self.columns_position(schema, table);
        if at < self.by_table.len() {
            Some(&self.by_table[at].columns)
        } else {
            None
        }
    }

    /// The tablespace of a number.
    pub fn get_tablespace_by_id(&self, id: i32) -> (r: Option<&Tablespace>)
        requires
            self.wf(),
        ensures
            match r {
                Some(t) => self@.tablespace(id) == Some(t@),
                None => self@.tablespace(id) is None,
            },
    {
        broadcast use vstd::std_specs::hash::group_hash_axioms;

        let ghost spaces = self@.catalog.tablespaces;
        assert(maps_spaces(self.spaces_at@, spaces));
        assert(tablespace_index(spaces, id) is Some <==> self.spaces_at@.contains_key(id));
        match self.spaces_at.get(&id) {
            Some(i) => {
                assert(spaces[*i as int] == self.catalog.tablespaces@[*i as int]@);
                Some(&self.catalog.tablespaces[*i])
            }
            None => None,
        }
    }

    /// The names of the columns of a table, and their positions.
    pub fn get_column_meta(&self, schema: &str, table: &str) -> (r: Option<
        (&Vec<String>, &ColumnIndex),
    >)
        requires
            self.wf(),
        ensures
            match r {
                Some((names, index)) => {
                    &&& self@.columns_for(schema@, table@) is Some
                    &&& names_view(names@) == column_names(
                        self@.columns_for(schema@, table@)->0,
                    )
                    &&& index@ == names_view(names@)
                },
                None => self@.columns_for(schema@, table@) is None,
            },
    {
        let at: usize = self.columns_position(schema, table);
        if at < self.by_table.len() {
            assert(self.by_table@[at as int].wf());
            Some((&self.by_table[at].names, &self.by_table[at].index))
        } else {
            None
        }
    }

    /// The rows of a table of the catalog.
    pub fn get_table_data(&self, schema: &str, table: &str) -> (r: Option<&CachedTable>)
        requires
            self.wf(),
        ensures
            match r {
                Some(t) => {
                    &&& self@.data.contains_key((schema@, table@))
                    &&& t@ == self@.data[(schema@, table@)]
                    &&& t.wf()
                },
                None => !self@.data.contains_key((schema@, table@)),
            },
    {
        let at: usize = self.data_position(schema, table);
        if at < self.tables_data.len() {
            Some(&self.tables_data[at].2)
        } else {
            None
        }
    }

    /// What the catalog knows.
    pub fn catalog(&self) -> (r: &Catalog)
        ensures
            r@ == self@.catalog,
    {
        &self.catalog
    }

    /// The greatest number of a table, or 0 where there is no table.
    fn greatest_table_id(&self) -> (r: i32)
        ensures
            r == max_table_id(self@.catalog.tables),
    {
        let ghost all = self@.catalog.tables;
        let n: usize = self.catalog.tables.len();
        if n == 0 {
            return 0;
        }
        let mut most: i32 = self.catalog.tables[0].tableid;
        let mut i: usize = 1;
        assert(all.subrange(0, 1)[0] == all[0]);
        while i < n
            invariant
                1 <= i <= n,
                n == self.catalog.tables@.len() == all.len(),
                all == self@.catalog.tables,
                most == max_table_id(all.subrange(0, i as int)),
            decreases n - i,
        {
            let id: i32 = self.catalog.tables[i].tableid;
            assert(all.subrange(0, i + 1).drop_last() =~= all.subrange(0, i as int));
            assert(all[i as int].tableid == id);
            if id > most {
                most = id;
            }
            i += 1;
        }
        assert(all.subrange(0, n as int) =~= all);
        most
    }

    /// Whether there is a number left for another table.
    pub fn has_table_id(&self) -> (r: bool)
        ensures
            r == (max_table_id(self@.catalog.tables) < i32::MAX),
    {
        self.greatest_table_id() < i32::MAX
    }

    /// The number that the next table gets.
    pub fn next_table_id(&self) -> (r: i32)
        requires
            max_table_id(self@.catalog.tables) < i32::MAX,
        ensures
            r == max_table_id(self@.catalog.tables) + 1,
    {
        self.greatest_table_id() + 1
    }

    /// Whether there is a schema of some name.
    pub fn has_schema(&self, name: &str) -> (r: bool)
        ensures
            r == self@.catalog.schemas.contains(name@),
    {
        let ghost all = self@.catalog.schemas;
        let n: usize = self.catalog.schemas.len();
        let mut i: usize = 0;
        while i < n
            invariant
                i <= n,
                n == self.catalog.schemas@.len() == all.len(),
                all == self@.catalog.schemas,
                forall|k: int| 0 <= k < i ==> all[k] != name@,
            decreases n - i,
        {
            assert(all[i as int] == self.catalog.schemas@[i as int]@);
            if same_str(self.catalog.schemas[i].name.as_str(), name) {
                return true;
            }
            i += 1;
        }
        false
    }

    /// Adds a schema.
    pub fn register_schema(&mut self, schema: Schema)
        requires
            old(self).wf(),
        ensures
            final(self).wf(),
            final(self)@ == old(self)@.with_schema(schema@),
    {
        let ghost before = self@;
        self.catalog.schemas.push(schema);
        proof {
            assert(self@.catalog.schemas =~= before.catalog.schemas.push(schema@));
        }
        self.rematerialize("SYSSCHEMAS");
    }

    /// Adds a table with its columns, which are in the order of their ordinals.
    pub fn register_table(&mut self, table: Table, columns: Vec<Column>)
        requires
            old(self).wf(),
        ensures
            final(self).wf(),
            final(self)@ == old(self)@.with_table(table@, columns_view(columns@)),
    {
        let ghost before = self@;
        let ghost cols = columns_view(columns@);
        let ghost tv = table@;
        let entry: TableColumns = table_columns(
            table.schemaname.clone(),
            table.name.clone(),
            copy_columns(&columns),
        );
        let at: usize = self.columns_position(table.schemaname.as_str(), table.name.as_str());
        proof {
            lemma_columns_put(self.by_table@, entry);
        }
        if at < self.by_table.len() {
            self.by_table.set(at, entry);
        } else {
            self.by_table.push(entry);
        }
        self.catalog.tables.push(table);
        let mut columns = columns;
        self.catalog.columns.append(&mut columns);
        proof {
            assert(self@.catalog.tables =~= before.catalog.tables.push(tv));
            assert(self@.catalog.columns =~= before.catalog.columns + cols);
            assert(self@.catalog.tablespaces =~= before.catalog.tablespaces);
        }
        self.columns_at = index_columns(&self.by_table);
        self.tables_at = index_tables(&self.catalog.tables);
        assert(self.catalog@.tables =~= Seq::new(
            self.catalog.tables@.len(),
            |i: int| self.catalog.tables@[i]@,
        ));
        self.rematerialize("SYSTABLES");
        self.rematerialize("SYSCOLUMNS");
    }

    /// Takes a table and its columns away.
    pub fn unregister_table(&mut self, schema: &str, name: &str)
        requires
            old(self).wf(),
        ensures
            final(self).wf(),
            final(self)@ == old(self)@.without_table(schema@, name@),
    {
        let ghost before = self@;
        let ghost key = (schema@, name@);
        let mut tables: Vec<Table> = Vec::new();
        let mut columns: Vec<Column> = Vec::new();
        let n: usize = self.catalog.tables.len();
        let ghost all = before.catalog.tables;
        let mut i: usize = 0;
        while i < n
            invariant
                i <= n,
                *self == *old(self),
                n == self.catalog.tables@.len() == all.len(),
                all == self@.catalog.tables,
                key == (schema@, name@),
                Seq::new(tables@.len(), |k: int| tables@[k]@) == tables_without(
                    all.subrange(0, i as int),
                    key,
                ),
            decreases n - i,
        {
            let t: &Table = &self.catalog.tables[i];
            let ghost so_far = Seq::new(tables@.len(), |k: int| tables@[k]@);
            assert(all.subrange(0, i + 1).drop_last() =~= all.subrange(0, i as int));
            assert(all[i as int] == t@);
            if !(same_str(t.schemaname.as_str(), schema) && same_str(t.name.as_str(), name)) {
                tables.push(
                    Table {
                        tableid: t.tableid,
                        name: t.name.clone(),
                        schemaname: t.schemaname.clone(),
                        tbspaceid: t.tbspaceid,
                        colcount: t.colcount,
                    },
                );
                assert(Seq::new(tables@.len(), |k: int| tables@[k]@) =~= so_far.push(t@));
            }
            i += 1;
        }
        assert(all.subrange(0, n as int) =~= all);
        let m: usize = self.catalog.columns.len();
        let ghost cols = before.catalog.columns;
        let mut j: usize = 0;
        while j < m
            invariant
                j <= m,
                *self == *old(self),
                m == self.catalog.columns@.len() == cols.len(),
                cols == self@.catalog.columns,
                key == (schema@, name@),
                columns_view(columns@) == columns_without(cols.subrange(0, j as int), key),
            decreases m - j,
        {
            let c: &Column = &self.catalog.columns[j];
            let ghost so_far = columns_view(columns@);
            assert(cols.subrange(0, j + 1).drop_last() =~= cols.subrange(0, j as int));
            assert(cols[j as int] == c@);
            if !(same_str(c.schemaname.as_str(), schema) && same_str(c.tabname.as_str(), name)) {
                columns.push(c.copy());
                assert(columns_view(columns@) =~= so_far.push(c@));
            }
            j += 1;
        }
        assert(cols.subrange(0, m as int) =~= cols);
        let at: usize = self.columns_position(schema, name);
        proof {
            lemma_columns_removed(self.by_table@, key);
        }
        if at < self.by_table.len() {
            let _gone: TableColumns = self.by_table.remove(at);
        }
        self.catalog.tables = tables;
        self.catalog.columns = columns;
        self.columns_at = index_columns(&self.by_table);
        self.tables_at = index_tables(&self.catalog.tables);
        assert(self.catalog@.tables =~= Seq::new(
            self.catalog.tables@.len(),
            |i: int| self.catalog.tables@[i]@,
        ));
        assert(self@.catalog.tablespaces =~= before.catalog.tablespaces);
        self.rematerialize("SYSTABLES");
        self.rematerialize("SYSCOLUMNS");
    }
}

// ── Laws of the cache ──

proof fn lemma_table_index(tables: Seq<TableDef>, schema: Seq<char>, name: Seq<char>)
    ensures
        match table_index(tables, schema, name) {
            Some(i) => {
                &&& 0 <= i < tables.len()
                &&& tables[i].schemaname == schema
                &&& tables[i].name == name
            },
            None => forall|i: int|
                0 <= i < tables.len() ==> !((#[trigger] tables[i]).schemaname == schema
                    && tables[i].name == name),
        },
    decreases tables.len(),
{
    if tables.len() > 0 && !(tables.last().schemaname == schema && tables.last().name == name) {
        lemma_table_index(tables.drop_last(), schema, name);
        if table_index(tables, schema, name) is None {
            assert forall|i: int| 0 <= i < tables.len() implies !((
            #[trigger] tables[i]).schemaname == schema && tables[i].name == name) by {
                if i < tables.len() - 1 {
                    assert(tables.drop_last()[i] == tables[i]);
                }
            }
        }
    }
}

/// Where a table is last among some tables is where its key is.
proof fn lemma_table_keys(tables: Seq<TableDef>, schema: Seq<char>, name: Seq<char>)
    ensures
        table_index(tables, schema, name) == index_of(
            key_texts(table_keys(tables)),
            key_text((schema, name)),
        ),
    decreases tables.len(),
{
    if tables.len() > 0 {
        let last = tables.last();
        let texts = key_texts(table_keys(tables));
        lemma_table_keys(tables.drop_last(), schema, name);
        assert(texts.drop_last() =~= key_texts(table_keys(tables.drop_last())));
        assert(texts.last() == key_text((last.schemaname, last.name)));
        if texts.last() == key_text((schema, name)) {
            lemma_key_text((last.schemaname, last.name), (schema, name));
        }
    }
}

spec fn table_among(tables: Seq<TableDef>, schema: Seq<char>, name: Seq<char>) -> Option<TableDef> {
    match table_index(tables, schema, name) {
        Some(i) => Some(tables[i]),
        None => None,
    }
}

proof fn lemma_table_pushed(
    tables: Seq<TableDef>,
    t: TableDef,
    schema: Seq<char>,
    name: Seq<char>,
)
    ensures
        table_among(tables.push(t), schema, name) == if t.schemaname == schema && t.name == name {
            Some(t)
        } else {
            table_among(tables, schema, name)
        },
{
    assert(tables.push(t).drop_last() =~= tables);
    lemma_table_index(tables, schema, name);
}

proof fn lemma_table_without(
    tables: Seq<TableDef>,
    key: TableKey,
    schema: Seq<char>,
    name: Seq<char>,
)
    ensures
        table_among(tables_without(tables, key), schema, name) == if key == (schema, name) {
            None
        } else {
            table_among(tables, schema, name)
        },
    decreases tables.len(),
{
    if tables.len() > 0 {
        let rest = tables_without(tables.drop_last(), key);
        lemma_table_without(tables.drop_last(), key, schema, name);
        lemma_table_index(tables.drop_last(), schema, name);
        lemma_table_pushed(rest, tables.last(), schema, name);
        lemma_table_pushed(tables.drop_last(), tables.last(), schema, name);
        assert(tables.drop_last().push(tables.last()) =~= tables);
    }
}

/// A table that was registered is found with its columns, and every other table as before.
pub proof fn law_registered_table_is_found(c: CacheModel, table: TableDef, cols: Seq<ColumnDef>)
    ensures
        c.with_table(table, cols).table(table.schemaname, table.name) == Some(table),
        c.with_table(table, cols).columns_for(table.schemaname, table.name) == Some(cols),
        forall|s: Seq<char>, n: Seq<char>|
            s != table.schemaname || n != table.name ==> #[trigger] c.with_table(table, cols).table(
                s,
                n,
            ) == c.table(s, n) && c.with_table(table, cols).columns_for(s, n) == c.columns_for(
                s,
                n,
            ),
        c.with_table(table, cols).config == c.config,
        c.with_table(table, cols).catalog.tablespaces == c.catalog.tablespaces,
        c.with_table(table, cols).catalog.schemas == c.catalog.schemas,
{
    let c2 = c.with_table(table, cols);
    lemma_table_pushed(c.catalog.tables, table, table.schemaname, table.name);
    assert forall|s: Seq<char>, n: Seq<char>|
        s != table.schemaname || n != table.name implies #[trigger] c2.table(s, n) == c.table(s, n)
        && c2.columns_for(s, n) == c.columns_for(s, n) by {
        lemma_table_pushed(c.catalog.tables, table, s, n);
    }
}

/// A table that was unregistered is not found any more, nor are its columns, and every other table
/// is as before.
pub proof fn law_unregistered_table_is_gone(c: CacheModel, schema: Seq<char>, name: Seq<char>)
    ensures
        c.without_table(schema, name).table(schema, name) is None,
        c.without_table(schema, name).columns_for(schema, name) is None,
        forall|s: Seq<char>, n: Seq<char>|
            s != schema || n != name ==> #[trigger] c.without_table(schema, name).table(s, n)
                == c.table(s, n) && c.without_table(schema, name).columns_for(s, n)
                == c.columns_for(s, n),
        c.without_table(schema, name).config == c.config,
        c.without_table(schema, name).catalog.tablespaces == c.catalog.tablespaces,
        c.without_table(schema, name).catalog.schemas == c.catalog.schemas,
{
    let c2 = c.without_table(schema, name);
    lemma_table_without(c.catalog.tables, (schema, name), schema, name);
    assert forall|s: Seq<char>, n: Seq<char>|
        s != schema || n != name implies #[trigger] c2.table(s, n) == c.table(s, n)
        && c2.columns_for(s, n) == c.columns_for(s, n) by {
        lemma_table_without(c.catalog.tables, (schema, name), s, n);
    }
}

/// A schema that was registered is there, next to all others, and no table changes.
pub proof fn law_registered_schema_is_there(c: CacheModel, schema: Seq<char>)
    ensures
        c.with_schema(schema).catalog.schemas == c.catalog.schemas.push(schema),
        c.with_schema(schema).catalog.schemas.contains(schema),
        c.with_schema(schema).catalog.tables == c.catalog.tables,
        c.with_schema(schema).columns == c.columns,
        c.with_schema(schema).config == c.config,
        c.with_schema(schema).catalog.tablespaces == c.catalog.tablespaces,
{
    let all = c.with_schema(schema).catalog.schemas;
    assert(all[c.catalog.schemas.len() as int] == schema);
}

/// Whether columns are in the order of their ordinals.
pub open spec fn by_ordinal(cols: Seq<ColumnDef>) -> bool {
    forall|i: int, j: int|
        0 <= i < j < cols.len() ==> (#[trigger] cols[i]).ordinal <= (#[trigger] cols[j]).ordinal
}

proof fn lemma_insert_sorted(sorted: Seq<ColumnDef>, c: ColumnDef)
    requires
        by_ordinal(sorted),
    ensures
        by_ordinal(insert_column(sorted, c)),
        insert_column(sorted, c).to_multiset() =~= sorted.to_multiset().insert(c),
        insert_column(sorted, c).len() == sorted.len() + 1,
        forall|k: int|
            0 <= k < insert_column(sorted, c).len() ==> (#[trigger] insert_column(
                sorted,
                c,
            )[k]).ordinal <= c.ordinal || sorted.len() > 0 && insert_column(sorted, c)[k].ordinal
                <= sorted.last().ordinal,
    decreases sorted.len(),
{
    broadcast use vstd::seq_lib::group_to_multiset_ensures;

    if sorted.len() > 0 && sorted.last().ordinal > c.ordinal {
        let front = sorted.drop_last();
        assert(by_ordinal(front));
        lemma_insert_sorted(front, c);
        let rest = insert_column(front, c);
        let all = rest.push(sorted.last());
        assert(front.push(sorted.last()) =~= sorted);
        assert forall|i: int, j: int| 0 <= i < j < all.len() implies (#[trigger] all[i]).ordinal
            <= (#[trigger] all[j]).ordinal by {
            if j < rest.len() {
                assert(all[i] == rest[i] && all[j] == rest[j]);
            } else {
                assert(all[i] == rest[i]);
                if front.len() > 0 {
                    assert(sorted[front.len() - 1].ordinal <= sorted.last().ordinal);
                }
            }
        }
        assert forall|k: int| 0 <= k < all.len() implies (#[trigger] all[k]).ordinal
            <= sorted.last().ordinal by {
            if k < rest.len() {
                assert(all[k] == rest[k]);
                if front.len() > 0 {
                    assert(sorted[front.len() - 1].ordinal <= sorted.last().ordinal);
                }
            }
        }
    }
}

/// The columns of a table are those that the catalog lists for it, in the order of their ordinals.
pub proof fn law_columns_are_in_order(cols: Seq<ColumnDef>, key: TableKey, n: int)
    requires
        0 <= n <= cols.len(),
    ensures
        by_ordinal(columns_of(cols, key, n)),
        columns_of(cols, key, n).to_multiset() == cols.subrange(0, n).to_multiset().filter(
            |c: ColumnDef| c.schemaname == key.0 && c.tabname == key.1,
        ),
    decreases n,
{
    broadcast use vstd::seq_lib::group_to_multiset_ensures;
    broadcast use vstd::multiset::group_multiset_axioms;

    let f = |c: ColumnDef| c.schemaname == key.0 && c.tabname == key.1;
    if n > 0 {
        law_columns_are_in_order(cols, key, n - 1);
        let rest = columns_of(cols, key, n - 1);
        let c = cols[n - 1];
        assert(cols.subrange(0, n) =~= cols.subrange(0, n - 1).push(c));
        let a = cols.subrange(0, n - 1).to_multiset();
        assert(cols.subrange(0, n).to_multiset() =~= a.insert(c));
        if f(c) {
            lemma_insert_sorted(rest, c);
            assert(a.insert(c).filter(f) =~= a.filter(f).insert(c));
        } else {
            assert(a.insert(c).filter(f) =~= a.filter(f));
        }
    } else {
        assert(columns_of(cols, key, n).to_multiset() =~= cols.subrange(0, n).to_multiset().filter(
            f,
        ));
    }
}

} // verus!
