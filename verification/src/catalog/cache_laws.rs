//! What the cache finds, and what the rows of the catalog's tables show.

use vstd::prelude::*;
use crate::catalog::cache::{built, catalog_rows, column_names, columns_of, columns_without,
    insert_column, lists_table, max_table_id, table_index, tables_without, tablespace_index,
    tablespace_named, wrap16, CacheModel, TableKey};
use crate::catalog::config::ConfigModel;
use crate::catalog::types::{CatalogDef, ColumnDef, TableDef, TablespaceDef};

verus! {

// ── Lookups ──

/// Whether a table has a key.
pub open spec fn has_key(t: TableDef, key: TableKey) -> bool {
    t.schemaname == key.0 && t.name == key.1
}

/// A table is found by its schema and its name: the last that has both. Nothing is found where no
/// table has both.
pub proof fn law_last_table_of_a_name_is_found(c: CacheModel, key: TableKey, i: int)
    ensures
        (forall|j: int|
            0 <= j < c.catalog.tables.len() ==> !has_key(#[trigger] c.catalog.tables[j], key))
            ==> c.table(key.0, key.1) is None,
        0 <= i < c.catalog.tables.len() && has_key(c.catalog.tables[i], key) && (forall|j: int|
            i < j < c.catalog.tables.len() ==> !has_key(#[trigger] c.catalog.tables[j], key))
            ==> c.table(key.0, key.1) == Some(c.catalog.tables[i]),
{
    lemma_table_at(c.catalog.tables, key, i);
}

proof fn lemma_table_at(tables: Seq<TableDef>, key: TableKey, i: int)
    ensures
        (forall|j: int| 0 <= j < tables.len() ==> !has_key(#[trigger] tables[j], key))
            ==> table_index(tables, key.0, key.1) is None,
        0 <= i < tables.len() && has_key(tables[i], key) && (forall|j: int|
            i < j < tables.len() ==> !has_key(#[trigger] tables[j], key)) ==> table_index(
            tables,
            key.0,
            key.1,
        ) == Some(i),
    decreases tables.len(),
{
    if tables.len() > 0 && !has_key(tables.last(), key) {
        let front = tables.drop_last();
        lemma_table_at(front, key, i);
        assert(forall|j: int| 0 <= j < front.len() ==> front[j] == #[trigger] tables[j]);
    }
}

/// A tablespace is found by its number: the last that has it. Nothing is found where none has it.
pub proof fn law_last_tablespace_of_a_number_is_found(c: CacheModel, id: i32, i: int)
    ensures
        (forall|j: int|
            0 <= j < c.catalog.tablespaces.len() ==> (#[trigger] c.catalog.tablespaces[j]).tbspaceid
                != id) ==> c.tablespace(id) is None,
        0 <= i < c.catalog.tablespaces.len() && c.catalog.tablespaces[i].tbspaceid == id && (
        forall|j: int|
            i < j < c.catalog.tablespaces.len() ==> (#[trigger] c.catalog.tablespaces[j]).tbspaceid
                != id) ==> c.tablespace(id) == Some(c.catalog.tablespaces[i]),
{
    lemma_space_at(c.catalog.tablespaces, id, i);
}

proof fn lemma_space_at(spaces: Seq<TablespaceDef>, id: i32, i: int)
    ensures
        (forall|j: int| 0 <= j < spaces.len() ==> (#[trigger] spaces[j]).tbspaceid != id)
            ==> tablespace_index(spaces, id) is None,
        0 <= i < spaces.len() && spaces[i].tbspaceid == id && (forall|j: int|
            i < j < spaces.len() ==> (#[trigger] spaces[j]).tbspaceid != id) ==> tablespace_index(
            spaces,
            id,
        ) == Some(i),
    decreases spaces.len(),
{
    if spaces.len() > 0 && spaces.last().tbspaceid != id {
        let front = spaces.drop_last();
        lemma_space_at(front, id, i);
        assert(forall|j: int| 0 <= j < front.len() ==> front[j] == #[trigger] spaces[j]);
    }
}

/// The greatest number of a table is that of a table, and none is greater.
pub proof fn law_greatest_number_is_that_of_a_table(tables: Seq<TableDef>)
    ensures
        tables.len() == 0 ==> max_table_id(tables) == 0,
        forall|i: int|
            0 <= i < tables.len() ==> (#[trigger] tables[i]).tableid <= max_table_id(tables),
        tables.len() > 0 ==> exists|i: int|
            0 <= i < tables.len() && (#[trigger] tables[i]).tableid == max_table_id(tables),
    decreases tables.len(),
{
    if tables.len() == 1 {
        assert(tables[0].tableid == max_table_id(tables));
    } else if tables.len() > 1 {
        let front = tables.drop_last();
        law_greatest_number_is_that_of_a_table(front);
        assert forall|i: int| 0 <= i < tables.len() implies (#[trigger] tables[i]).tableid
            <= max_table_id(tables) by {
            if i < front.len() {
                assert(front[i] == tables[i]);
            }
        }
        if tables.last().tableid > max_table_id(front) {
            assert(tables[tables.len() - 1].tableid == max_table_id(tables));
        } else {
            let i = choose|i: int|
                0 <= i < front.len() && (#[trigger] front[i]).tableid == max_table_id(front);
            assert(tables[i].tableid == max_table_id(tables));
        }
    }
}

/// The number of a tablespace is kept where it has 16 bits; of any other, the 16 low bits are kept.
pub proof fn law_low_bits_are_kept(n: int)
    ensures
        -0x8000 <= n <= 0x7fff ==> wrap16(n) == n,
        (wrap16(n) - n) % 0x10000 == 0,
{
}

// ── Columns ──

/// Whether a column belongs to a table.
pub open spec fn belongs_to(c: ColumnDef, key: TableKey) -> bool {
    c.schemaname == key.0 && c.tabname == key.1
}

proof fn lemma_pushed_filter<A>(s: Seq<A>, x: A, f: spec_fn(A) -> bool)
    ensures
        s.push(x).filter(f) == if f(x) {
            s.filter(f).push(x)
        } else {
            s.filter(f)
        },
{
    reveal(Seq::filter);
    assert(s.push(x).drop_last() =~= s);
}

proof fn lemma_inserted_at(sorted: Seq<ColumnDef>, c: ColumnDef, o: i16)
    ensures
        insert_column(sorted, c).filter(|d: ColumnDef| d.ordinal == o) == if c.ordinal == o {
            sorted.filter(|d: ColumnDef| d.ordinal == o).push(c)
        } else {
            sorted.filter(|d: ColumnDef| d.ordinal == o)
        },
    decreases sorted.len(),
{
    let f = |d: ColumnDef| d.ordinal == o;
    if sorted.len() == 0 || sorted.last().ordinal <= c.ordinal {
        lemma_pushed_filter(sorted, c, f);
    } else {
        let front = sorted.drop_last();
        lemma_inserted_at(front, c, o);
        lemma_pushed_filter(insert_column(front, c), sorted.last(), f);
        lemma_pushed_filter(front, sorted.last(), f);
        assert(front.push(sorted.last()) =~= sorted);
    }
}

/// Columns of a table with the same ordinal stay in the order in which the catalog lists them.
pub proof fn law_columns_of_one_ordinal_keep_their_order(
    cols: Seq<ColumnDef>,
    key: TableKey,
    n: int,
    o: i16,
)
    requires
        0 <= n <= cols.len(),
    ensures
        columns_of(cols, key, n).filter(|c: ColumnDef| c.ordinal == o) == cols.subrange(
            0,
            n,
        ).filter(|c: ColumnDef| belongs_to(c, key) && c.ordinal == o),
    decreases n,
{
    let f = |c: ColumnDef| c.ordinal == o;
    let g = |c: ColumnDef| belongs_to(c, key) && c.ordinal == o;
    reveal(Seq::filter);
    if n > 0 {
        law_columns_of_one_ordinal_keep_their_order(cols, key, n - 1, o);
        let rest = columns_of(cols, key, n - 1);
        let c = cols[n - 1];
        assert(cols.subrange(0, n) =~= cols.subrange(0, n - 1).push(c));
        lemma_pushed_filter(cols.subrange(0, n - 1), c, g);
        if belongs_to(c, key) {
            lemma_inserted_at(rest, c, o);
        }
    } else {
        assert(cols.subrange(0, 0).filter(g) =~= Seq::empty());
        assert(columns_of(cols, key, 0).filter(f) =~= Seq::empty());
    }
}

// ── New caches ──

proof fn lemma_some_columns(cols: Seq<ColumnDef>, key: TableKey, n: int)
    requires
        0 <= n <= cols.len(),
    ensures
        columns_of(cols, key, n).len() > 0 <==> exists|i: int|
            0 <= i < n && belongs_to(#[trigger] cols[i], key),
    decreases n,
{
    if n > 0 {
        lemma_some_columns(cols, key, n - 1);
        lemma_inserted_len(columns_of(cols, key, n - 1), cols[n - 1]);
        if belongs_to(cols[n - 1], key) {
            assert(belongs_to(cols[n - 1], key));
        }
    }
}

proof fn lemma_inserted_len(sorted: Seq<ColumnDef>, c: ColumnDef)
    ensures
        insert_column(sorted, c).len() == sorted.len() + 1,
    decreases sorted.len(),
{
    if sorted.len() > 0 && sorted.last().ordinal > c.ordinal {
        lemma_inserted_len(sorted.drop_last(), c);
    }
}

/// A new cache has the catalog and the configuration that it is made of. It knows the columns of
/// each table that the catalog lists a column of, which are all of them; and it shows the rows of
/// the tables of the system's schema that the catalog lists with columns, and of no other.
pub proof fn law_new_cache_has_its_catalog(
    cat: CatalogDef,
    config: ConfigModel,
    schema: Seq<char>,
    name: Seq<char>,
)
    ensures
        built(cat, config).catalog == cat,
        built(cat, config).config == config,
        ({
            let c = built(cat, config);
            let key = (schema, name);
            let listed = exists|i: int|
                0 <= i < cat.columns.len() && belongs_to(#[trigger] cat.columns[i], key);
            let known = exists|i: int|
                0 <= i < cat.tables.len() && has_key(#[trigger] cat.tables[i], key);
            &&& c.columns_for(schema, name) is Some <==> listed
            &&& listed ==> c.columns_for(schema, name) == Some(
                columns_of(cat.columns, key, cat.columns.len() as int),
            )
            &&& c.data.contains_key(key) <==> schema == config.sys_schema && listed && known
            &&& c.data.contains_key(key) ==> shows(c, name)
        }),
{
    let key = (schema, name);
    lemma_some_columns(cat.columns, key, cat.columns.len() as int);
    let c = built(cat, config);
    assert(lists_table(cat.tables, key, cat.tables.len() as int) <==> exists|i: int|
        0 <= i < cat.tables.len() && has_key(#[trigger] cat.tables[i], key)) by {
        if lists_table(cat.tables, key, cat.tables.len() as int) {
            let i = choose|i: int|
                0 <= i < cat.tables.len() && (#[trigger] cat.tables[i]).schemaname == key.0
                    && cat.tables[i].name == key.1;
            assert(has_key(cat.tables[i], key));
        }
        if exists|i: int| 0 <= i < cat.tables.len() && has_key(#[trigger] cat.tables[i], key) {
            let i = choose|i: int|
                0 <= i < cat.tables.len() && has_key(#[trigger] cat.tables[i], key);
            assert(cat.tables[i].schemaname == key.0 && cat.tables[i].name == key.1);
        }
    }
}

/// Without a tablespace of the configured name, new tables go to tablespace 2.
pub proof fn law_tables_without_a_place_go_to_the_second(c: CacheModel)
    requires
        forall|i: int|
            0 <= i < c.catalog.tablespaces.len() ==> (#[trigger] c.catalog.tablespaces[i]).tbspace
                != c.config.default_tablespace,
    ensures
        c.default_tablespace() == 2,
{
    lemma_none_named(c.catalog.tablespaces, c.config.default_tablespace, 0);
}

proof fn lemma_none_named(spaces: Seq<TablespaceDef>, name: Seq<char>, from: int)
    requires
        0 <= from <= spaces.len(),
        forall|i: int| 0 <= i < spaces.len() ==> (#[trigger] spaces[i]).tbspace != name,
    ensures
        tablespace_named(spaces, name, from) is None,
    decreases spaces.len() - from,
{
    if from < spaces.len() {
        lemma_none_named(spaces, name, from + 1);
    }
}

// ── Tables that come and go ──

/// What is left of the tables without one, and of the columns without those of one, is all others,
/// in their order.
pub proof fn law_all_others_are_left(tables: Seq<TableDef>, cols: Seq<ColumnDef>, key: TableKey)
    ensures
        tables_without(tables, key) == tables.filter(|t: TableDef| !has_key(t, key)),
        columns_without(cols, key) == cols.filter(|c: ColumnDef| !belongs_to(c, key)),
    decreases tables.len() + cols.len(),
{
    let f = |t: TableDef| !has_key(t, key);
    let g = |c: ColumnDef| !belongs_to(c, key);
    reveal(Seq::filter);
    if tables.len() > 0 {
        law_all_others_are_left(tables.drop_last(), cols, key);
    } else if cols.len() > 0 {
        law_all_others_are_left(tables, cols.drop_last(), key);
    } else {
        assert(tables.filter(f) =~= Seq::empty());
        assert(cols.filter(g) =~= Seq::empty());
    }
}

/// Whether a cache knows the columns of a table of the catalog.
pub open spec fn knows(c: CacheModel, name: Seq<char>) -> bool {
    c.columns.contains_key((c.config.sys_schema, name))
}

/// Whether the rows that a cache has of a table of the catalog are those of the catalog, under the
/// names of the columns.
pub open spec fn shows(c: CacheModel, name: Seq<char>) -> bool {
    let key = (c.config.sys_schema, name);
    &&& c.data.contains_key(key)
    &&& c.data[key].names == column_names(c.columns[key])
    &&& c.data[key].rows == catalog_rows(c.catalog, name)
}

/// A new table is listed after all others, and its columns after all others; the catalog's own
/// tables show them, and all else that the cache has of the catalog's tables is as it was.
pub proof fn law_new_table_is_shown(c: CacheModel, table: TableDef, cols: Seq<ColumnDef>)
    ensures
        ({
            let c2 = c.with_table(table, cols);
            let sys = c.config.sys_schema;
            &&& c2.catalog.tables == c.catalog.tables.push(table)
            &&& c2.catalog.columns == c.catalog.columns + cols
            &&& c2.catalog.tablespaces == c.catalog.tablespaces
            &&& c2.catalog.schemas == c.catalog.schemas
            &&& c2.catalog.bufferpools == c.catalog.bufferpools
            &&& knows(c2, "SYSTABLES"@) ==> shows(c2, "SYSTABLES"@)
            &&& knows(c2, "SYSCOLUMNS"@) ==> shows(c2, "SYSCOLUMNS"@)
            &&& forall|key: TableKey|
                key != (sys, "SYSTABLES"@) && key != (sys, "SYSCOLUMNS"@) ==> (
                #[trigger] c2.data.contains_key(key) == c.data.contains_key(key)) && (
                c.data.contains_key(key) ==> c2.data[key] == c.data[key])
        }),
{
    reveal_strlit("SYSTABLES");
    reveal_strlit("SYSCOLUMNS");
    assert("SYSTABLES"@.len() != "SYSCOLUMNS"@.len());
}

/// A table that is taken away leaves the others as they are; the catalog's own tables show those
/// that are left, and all else that the cache has of the catalog's tables is as it was.
pub proof fn law_old_table_is_not_shown(c: CacheModel, schema: Seq<char>, name: Seq<char>)
    ensures
        ({
            let c2 = c.without_table(schema, name);
            let sys = c.config.sys_schema;
            let key = (schema, name);
            &&& c2.catalog.tables == c.catalog.tables.filter(|t: TableDef| !has_key(t, key))
            &&& c2.catalog.columns == c.catalog.columns.filter(|d: ColumnDef| !belongs_to(d, key))
            &&& c2.catalog.tablespaces == c.catalog.tablespaces
            &&& c2.catalog.schemas == c.catalog.schemas
            &&& c2.catalog.bufferpools == c.catalog.bufferpools
            &&& knows(c2, "SYSTABLES"@) ==> shows(c2, "SYSTABLES"@)
            &&& knows(c2, "SYSCOLUMNS"@) ==> shows(c2, "SYSCOLUMNS"@)
            &&& forall|k: TableKey|
                k != (sys, "SYSTABLES"@) && k != (sys, "SYSCOLUMNS"@) ==> (
                #[trigger] c2.data.contains_key(k) == c.data.contains_key(k)) && (
                c.data.contains_key(k) ==> c2.data[k] == c.data[k])
        }),
{
    reveal_strlit("SYSTABLES");
    reveal_strlit("SYSCOLUMNS");
    assert("SYSTABLES"@.len() != "SYSCOLUMNS"@.len());
    law_all_others_are_left(c.catalog.tables, c.catalog.columns, (schema, name));
}

/// A new schema is shown by the catalog's own table, and all else that the cache has is as it was.
pub proof fn law_new_schema_is_shown(c: CacheModel, schema: Seq<char>)
    ensures
        ({
            let c2 = c.with_schema(schema);
            &&& c2.catalog.schemas == c.catalog.schemas.push(schema)
            &&& c2.catalog.tables == c.catalog.tables
            &&& c2.catalog.columns == c.catalog.columns
            &&& c2.catalog.tablespaces == c.catalog.tablespaces
            &&& c2.catalog.bufferpools == c.catalog.bufferpools
            &&& knows(c2, "SYSSCHEMAS"@) ==> shows(c2, "SYSSCHEMAS"@)
            &&& forall|key: TableKey|
                key != (c.config.sys_schema, "SYSSCHEMAS"@) ==> (
                #[trigger] c2.data.contains_key(key) == c.data.contains_key(key)) && (
                c.data.contains_key(key) ==> c2.data[key] == c.data[key])
        }),
{
}

} // verus!
