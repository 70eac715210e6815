//! How the parts of a new database fit together.

use vstd::prelude::*;
use crate::catalog::bootstrap::{syscolumns_rows, systables_rows};
use crate::catalog::cache::catalog_rows;
use crate::catalog::config::{config_of, lookup, ConfigModel};
use crate::catalog::config_laws::law_settings_mean_what_they_say;
use crate::catalog::laws::{column_place, column_table, listed_table, listed_width, new_bufferpools,
    new_schemas, new_tables, new_tablespaces};
use crate::catalog::loader::{bufferpool_kinds, column_kinds, has_kinds, schema_kinds, table_kinds,
    tablespace_kinds, FieldKind};
use crate::catalog::types::CatalogDef;
use crate::db::new_configuration;
use crate::error::ErrorModel;

verus! {

// ── Tables of the catalog ──

/// The kinds of the fields of the table in row `t` of `SYSTABLES`.
pub open spec fn kinds_of(t: int) -> Seq<FieldKind> {
    if t == 0 {
        tablespace_kinds()
    } else if t == 1 {
        schema_kinds()
    } else if t == 2 {
        table_kinds()
    } else if t == 3 {
        column_kinds()
    } else {
        bufferpool_kinds()
    }
}

proof fn lemma_names_differ()
    ensures
        systables_rows().len() == 5,
        forall|t: int, u: int|
            0 <= t < u < 5 ==> listed_table(#[trigger] systables_rows()[t]) != listed_table(
                #[trigger] systables_rows()[u],
            ),
{
    reveal_strlit("SYSTABLESPACES");
    reveal_strlit("SYSSCHEMAS");
    reveal_strlit("SYSTABLES");
    reveal_strlit("SYSCOLUMNS");
    reveal_strlit("SYSBUFFERPOOLS");
    let rows = systables_rows();
    assert(listed_table(rows[0]) == "SYSTABLESPACES"@);
    assert(listed_table(rows[1]) == "SYSSCHEMAS"@);
    assert(listed_table(rows[2]) == "SYSTABLES"@);
    assert(listed_table(rows[3]) == "SYSCOLUMNS"@);
    assert(listed_table(rows[4]) == "SYSBUFFERPOOLS"@);
    assert("SYSTABLESPACES"@[3] != "SYSBUFFERPOOLS"@[3]);
    assert("SYSSCHEMAS"@[3] != "SYSCOLUMNS"@[3]);
}

/// The columns of the catalog's tables are listed with the types of what is stored in them: numbers
/// of 32 and of 16 bits, flags of one letter, and texts.
pub proof fn law_catalog_columns_have_their_types(c: int, t: int)
    requires
        0 <= c < syscolumns_rows().len(),
        0 <= t < systables_rows().len(),
        column_table(syscolumns_rows()[c]) == listed_table(systables_rows()[t]),
    ensures
        kinds_of(t).len() == listed_width(systables_rows()[t]),
        ({
            let listed = syscolumns_rows()[c][4]->Str_0;
            let kind = kinds_of(t)[column_place(syscolumns_rows()[c])];
            &&& listed == "INTEGER"@ <==> kind is Int
            &&& listed == "SMALLINT"@ <==> kind is Small
            &&& kind is Flag ==> listed == "CHAR(1)"@
        }),
{
    reveal_strlit("INTEGER");
    reveal_strlit("SMALLINT");
    reveal_strlit("CHAR(1)");
    reveal_strlit("VARCHAR(20)");
    reveal_strlit("VARCHAR(128)");
    assert("CHAR(1)"@[0] != "INTEGER"@[0]);
    assert("SMALLINT"@.len() == 8 && "INTEGER"@.len() == 7 && "CHAR(1)"@.len() == 7);
    assert("VARCHAR(20)"@.len() == 11 && "VARCHAR(128)"@.len() == 12);
    lemma_names_differ();
    let rows = syscolumns_rows();
    let of = if c < 7 {
        0int
    } else if c < 8 {
        1
    } else if c < 13 {
        2
    } else if c < 19 {
        3
    } else {
        4
    };
    assert(column_table(rows[c]) == listed_table(systables_rows()[of]));
    if t < of {
        assert(listed_table(systables_rows()[t]) != listed_table(systables_rows()[of]));
    } else if of < t {
        assert(listed_table(systables_rows()[of]) != listed_table(systables_rows()[t]));
    }
}

/// The rows that the cache shows of a table of the catalog have a value for each of its columns, of
/// the kind that is stored.
pub proof fn law_catalog_rows_have_their_kinds(cat: CatalogDef, t: int, i: int)
    requires
        0 <= t < systables_rows().len(),
        0 <= i < catalog_rows(cat, listed_table(systables_rows()[t])).len(),
    ensures
        ({
            let row = catalog_rows(cat, listed_table(systables_rows()[t]))[i];
            &&& row.len() == listed_width(systables_rows()[t])
            &&& has_kinds(row, kinds_of(t))
        }),
{
    lemma_names_differ();
    let rows = systables_rows();
    assert(listed_table(rows[0]) == "SYSTABLESPACES"@);
    assert(listed_table(rows[1]) == "SYSSCHEMAS"@);
    assert(listed_table(rows[2]) == "SYSTABLES"@);
    assert(listed_table(rows[3]) == "SYSCOLUMNS"@);
    assert(listed_table(rows[4]) == "SYSBUFFERPOOLS"@);
}

// ── Tablespaces, pools and the configuration ──

/// Each tablespace of a new database goes through a pool of the database with pages of its size,
/// and each of its tables is in one of the tablespaces.
pub proof fn law_new_tablespaces_go_through_pools(page_size: i32, i: int, t: int)
    requires
        0 <= i < new_tablespaces(page_size).len(),
        0 <= t < new_tables().len(),
    ensures
        exists|p: int|
            0 <= p < new_bufferpools(page_size).len() && (#[trigger] new_bufferpools(
                page_size,
            )[p]).bpid == new_tablespaces(page_size)[i].bufferpoolid && new_bufferpools(
                page_size,
            )[p].pagesize == new_tablespaces(page_size)[i].pagesize,
        new_tablespaces(page_size)[i].pagesize == page_size,
        exists|k: int|
            0 <= k < new_tablespaces(page_size).len() && (#[trigger] new_tablespaces(
                page_size,
            )[k]).tbspaceid == new_tables()[t].tbspaceid,
{
    let pools = new_bufferpools(page_size);
    let spaces = new_tablespaces(page_size);
    assert(pools[0].bpid == 1 && pools[0].pagesize == page_size);
    assert(pools[3].bpid == 4 && pools[3].pagesize == page_size);
    assert(spaces[0].tbspaceid == 1);
    assert(new_tables()[t].tbspaceid == 1);
}

/// Whether some settings have none but the version.
pub open spec fn sets_nothing(kv: Seq<(Seq<char>, Seq<char>)>) -> bool {
    forall|key: Seq<char>| key != "FORMAT_VERSION"@ ==> #[trigger] lookup(kv, key) is None
}

/// The places that the configuration of a new database names are there: the tablespace of new
/// tables, which is number 2, the schema of new tables, and the schema of the catalog's tables.
/// Without any setting but the version, a configuration is that of a new database.
pub proof fn law_new_configuration_fits(
    page_size: i32,
    text_mode: bool,
    t: int,
    kv: Seq<(Seq<char>, Seq<char>)>,
)
    requires
        0 <= t < new_tables().len(),
    ensures
        exists|i: int|
            0 <= i < new_tablespaces(page_size).len() && (#[trigger] new_tablespaces(
                page_size,
            )[i]).tbspace == new_configuration(text_mode).default_tablespace && new_tablespaces(
                page_size,
            )[i].tbspaceid == 2,
        new_schemas().contains(new_configuration(text_mode).default_schema),
        new_schemas().contains(new_configuration(text_mode).sys_schema),
        new_tables()[t].schemaname == new_configuration(text_mode).sys_schema,
        new_configuration(text_mode).text_mode == text_mode,
        sets_nothing(kv) && config_of(kv) is Ok ==> config_of(kv) == Ok::<ConfigModel, ErrorModel>(
            new_configuration(false),
        ),
{
    law_settings_mean_what_they_say(kv);
    let spaces = new_tablespaces(page_size);
    assert(spaces[1].tbspaceid == 2 && spaces[1].tbspace == "USERTBSP"@);
    reveal_strlit("FORMAT_VERSION");
    reveal_strlit("PAGESIZE");
    reveal_strlit("DIAGLEVEL");
    reveal_strlit("TEXT_MODE");
    reveal_strlit("DFT_SCHEMA");
    reveal_strlit("DFT_TBSP");
    reveal_strlit("SYS_SCHEMA");
    reveal_strlit("NEXT_TXID");
    let n = "FORMAT_VERSION"@.len();
    assert("PAGESIZE"@.len() != n && "DIAGLEVEL"@.len() != n && "TEXT_MODE"@.len() != n);
    assert("DFT_SCHEMA"@.len() != n && "DFT_TBSP"@.len() != n && "SYS_SCHEMA"@.len() != n);
    assert("NEXT_TXID"@.len() != n);
    assert(new_schemas()[0] == "RQSYS"@);
    assert(new_schemas()[1] == "PUBLIC"@);
    assert(new_tables()[t].schemaname == "RQSYS"@);
}

} // verus!
