//! Databases: where their files are, opening one, making one.
//!
//! A database is a directory. `admin/SQLDBCONF` is its configuration, `systbsp` has the tables of
//! the catalog, and each tablespace has a directory with the files of its tables.

use vstd::prelude::*;
use vstd::string::StringExecFns;
use crate::catalog::bootstrap::{bootstrap, bootstrapped, NewDatabase};
use crate::catalog::cache::{built, tablespace_index, CatalogCache};
use crate::catalog::config::{config_in, ConfigModel, DbConfig};
use crate::catalog::loader::{load_catalog, CatalogFiles};
use crate::catalog::laws::{is_new_catalog, new_bufferpools, new_tables, new_tablespaces,
    same_items};
use crate::catalog::types::{BufferPoolDef, CatalogDef, TablespaceDef};
use crate::error::{sql_error, DbResult, ErrorModel, SqlState};
use crate::storage::fsm::map_error;
use crate::storage::tablespace::{catalog_sound, doubled_pool, files_sound, files_view,
    find_pool_def, lemma_find_pool_def, opened_tables, opens, size_of, FilesModel, TableFiles,
    TablespaceManager};
use crate::text::{lowercase, to_lowercase, to_uppercase, uppercase};

verus! {

// ── Names of files ──

/// The name of the file with the rows of a table.
pub open spec fn dat_name(schema: Seq<char>, table: Seq<char>) -> Seq<char> {
    schema + "."@ + table + ".0.DAT"@
}

/// The name of the file with the free-space map of a table.
pub open spec fn map_name(schema: Seq<char>, table: Seq<char>) -> Seq<char> {
    schema + "."@ + table + ".0.FSM"@
}

/// The name of the file with the rows of a table.
pub fn dat_file_name(schema: &str, table: &str) -> (r: String)
    ensures
        r@ == dat_name(schema@, table@),
{
    schema.to_owned().concat(".").concat(table).concat(".0.DAT")
}

/// The name of the file with the free-space map of a table.
pub fn map_file_name(schema: &str, table: &str) -> (r: String)
    ensures
        r@ == map_name(schema@, table@),
{
    schema.to_owned().concat(".").concat(table).concat(".0.FSM")
}

/// The directory of a tablespace: its name in lower case.
pub fn space_dir(tbspace: &str) -> (r: String)
    ensures
        r@ == lowercase(tbspace@),
{
    to_lowercase(tbspace)
}

// ── Opening and making databases ──

/// A database that is open.
pub struct DbState {
    pub name: String,
    pub cache: CatalogCache,
    pub tsm: TablespaceManager,
}

/// The error for a database that does not exist.
pub open spec fn database_not_found(name: Seq<char>, place: Seq<char>) -> ErrorModel {
    ErrorModel::Sql(
        SqlState::DatabaseNotFound,
        "database '"@ + name + "' not found at "@ + place + ". Use CREATE DATABASE "@ + name
            + " to create it."@,
    )
}

/// The error for a database that exists already.
pub open spec fn database_exists(name: Seq<char>, place: Seq<char>) -> ErrorModel {
    ErrorModel::Sql(
        SqlState::DatabaseAlreadyExists,
        "database '"@ + name + "' already exists at "@ + place + ". Use CONNECT TO "@ + name
            + " to connect."@,
    )
}

/// The configuration of a database that is at some place, where its configuration file has the
/// text `conf`.
pub open spec fn configuration(
    name: Seq<char>,
    place: Seq<char>,
    conf: Option<Seq<char>>,
) -> Result<ConfigModel, ErrorModel> {
    match conf {
        None => Err(database_not_found(name, place)),
        Some(text) => config_in(text),
    }
}

/// Reads the configuration of a database.
pub fn read_configuration(name: &str, place: &str, conf: Option<&str>) -> (r: DbResult<DbConfig>)
    ensures
        ({
            let text = match conf {
                Some(s) => Some(s@),
                None => None,
            };
            match r {
                Ok(c) => configuration(name@, place@, text) == Ok::<ConfigModel, ErrorModel>(c@),
                Err(e) => configuration(name@, place@, text) == Err::<ConfigModel, ErrorModel>(
                    e@,
                ),
            }
        }),
{
    match conf {
        None => Err(
            sql_error(
                SqlState::DatabaseNotFound,
                "database '".to_owned().concat(name).concat("' not found at ").concat(
                    place,
                ).concat(". Use CREATE DATABASE ").concat(name).concat(" to create it."),
            ),
        ),
        Some(text) => DbConfig::read(text),
    }
}

/// Reads the catalog of a database.
pub fn read_catalog(config: DbConfig, files: &CatalogFiles) -> (r: DbResult<CatalogCache>)
    requires
        files.wf(),
    ensures
        match r {
            Ok(cache) => {
                &&& cache.wf()
                &&& files.catalog() is Ok
                &&& cache@ == built(files.catalog()->Ok_0, config@)
            },
            Err(e) => files.catalog() == Err::<CatalogDef, ErrorModel>(e@),
        },
{
    match load_catalog(files) {
        Ok(catalog) => Ok(CatalogCache::new(catalog, config)),
        Err(e) => Err(e),
    }
}

/// Opens a database. `conf` is the text of its configuration file, where there is one, `files` are
/// the files of its catalog, and `tables` those of its tables, in the order of the catalog.
pub fn open_database(
    name: &str,
    place: &str,
    conf: Option<&str>,
    files: &CatalogFiles,
    tables: Vec<TableFiles>,
) -> (r: DbResult<DbState>)
    requires
        files.wf(),
        files.catalog() is Ok ==> {
            let cat = files.catalog()->Ok_0;
            &&& catalog_sound(cat)
            &&& tables@.len() == cat.tables.len()
            &&& forall|i: int|
                0 <= i < tables@.len() ==> files_sound(cat, cat.tables[i], #[trigger] tables@[i])
        },
    ensures
        ({
            let text = match conf {
                Some(s) => Some(s@),
                None => None,
            };
            match configuration(name@, place@, text) {
                Err(e) => r is Err && r->Err_0@ == e,
                Ok(config) => match files.catalog() {
                    Err(e) => r is Err && r->Err_0@ == e,
                    Ok(cat) => match r {
                        Ok(db) => {
                            &&& db.name@ == uppercase(name@)
                            &&& db.cache.wf()
                            &&& db.cache@ == built(cat, config)
                            &&& opens(cat, files_view(tables@), Ok(db.tsm))
                        },
                        Err(e) => opens(cat, files_view(tables@), Err(e)),
                    },
                },
            }
        }),
{
    let config: DbConfig = match read_configuration(name, place, conf) {
        Ok(c) => c,
        Err(e) => {
            return Err(e);
        }
    };
    let cache: CatalogCache = match read_catalog(config, files) {
        Ok(c) => c,
        Err(e) => {
            return Err(e);
        }
    };
    match TablespaceManager::open(&cache, tables) {
        Ok(tsm) => Ok(DbState { name: to_uppercase(name), cache, tsm }),
        Err(e) => Err(e),
    }
}

/// Makes the files of a new database, unless there is one at that place.
pub fn create_database(name: &str, place: &str, present: bool, text_mode: bool) -> (r: DbResult<
    NewDatabase,
>)
    ensures
        if present {
            r is Err && r->Err_0@ == database_exists(name@, place@)
        } else {
            bootstrapped(new_configuration(text_mode), r)
        },
{
    if present {
        return Err(
            sql_error(
                SqlState::DatabaseAlreadyExists,
                "database '".to_owned().concat(name).concat("' already exists at ").concat(
                    place,
                ).concat(". Use CONNECT TO ").concat(name).concat(" to connect."),
            ),
        );
    }
    let mut config: DbConfig = DbConfig::default();
    config.text_mode = text_mode;
    bootstrap(&config)
}

/// The configuration of a new database.
pub open spec fn new_configuration(text_mode: bool) -> ConfigModel {
    ConfigModel {
        format_version: 2,
        page_size: 4096,
        diag_level: "INFO"@,
        text_mode,
        default_schema: "PUBLIC"@,
        default_tablespace: "USERTBSP"@,
        sys_schema: "RQSYS"@,
        next_txid: 1,
    }
}

// ── Laws of databases ──

proof fn lemma_same_distinct<T>(a: Seq<T>, b: Seq<T>)
    requires
        same_items(a, b),
        b.no_duplicates(),
    ensures
        a.no_duplicates(),
{
    b.unique_seq_to_set();
    assert(a.to_set() =~= b.to_set()) by {
        assert forall|x: T| a.to_set().contains(x) <==> b.to_set().contains(x) by {
            assert(a.contains(x) <==> b.contains(x));
        }
    }
    a.lemma_no_dup_set_cardinality();
}

proof fn lemma_no_doubled_pool(defs: Seq<BufferPoolDef>, n: int)
    requires
        0 <= n <= defs.len(),
        forall|i: int, j: int|
            0 <= i < j < defs.len() ==> (#[trigger] defs[i]).bpid != (#[trigger] defs[j]).bpid,
    ensures
        doubled_pool(defs, n) is None,
    decreases n,
{
    if n > 0 {
        lemma_no_doubled_pool(defs, n - 1);
        lemma_find_pool_def(defs, defs[n - 1].bpid, 0);
        let k = find_pool_def(defs, defs[n - 1].bpid, 0);
        if k < n - 1 {
            assert(defs[k].bpid != defs[n - 1].bpid);
        }
    }
}

proof fn lemma_tablespace_found(spaces: Seq<TablespaceDef>, id: i32, k: int)
    requires
        0 <= k < spaces.len(),
        spaces[k].tbspaceid == id,
    ensures
        tablespace_index(spaces, id) is Some,
        0 <= tablespace_index(spaces, id)->0 < spaces.len(),
        spaces[tablespace_index(spaces, id)->0].tbspaceid == id,
    decreases spaces.len(),
{
    if spaces.last().tbspaceid != id {
        assert(spaces.drop_last()[k] == spaces[k]);
        lemma_tablespace_found(spaces.drop_last(), id, k);
    }
}

proof fn lemma_tables_open(cat: CatalogDef, files: Seq<FilesModel>, page_size: i32, n: int)
    requires
        is_new_catalog(cat, page_size),
        0 <= n <= cat.tables.len() == files.len(),
        forall|i: int| 0 <= i < files.len() ==> map_error((#[trigger] files[i]).fsm) is None,
    ensures
        opened_tables(cat, files, n) is Ok,
    decreases n,
{
    if n > 0 {
        lemma_tables_open(cat, files, page_size, n - 1);
        let t = cat.tables[n - 1];
        // The table is in tablespace 1.
        assert(cat.tables.contains(t));
        let i = choose|i: int| 0 <= i < new_tables().len() && new_tables()[i] == t;
        assert(t.tbspaceid == 1);
        // Tablespace 1 goes through pool 1.
        let spaces = new_tablespaces(page_size);
        assert(spaces[0].tbspaceid == 1);
        assert(spaces.contains(spaces[0]));
        assert(cat.tablespaces.contains(spaces[0]));
        let k = choose|k: int|
            0 <= k < cat.tablespaces.len() && cat.tablespaces[k] == spaces[0];
        lemma_tablespace_found(cat.tablespaces, 1, k);
        let space = cat.tablespaces[tablespace_index(cat.tablespaces, 1)->0];
        assert(cat.tablespaces.contains(space));
        let j = choose|j: int| 0 <= j < spaces.len() && spaces[j] == space;
        assert(j == 0);
        assert(space.bufferpoolid == 1 && space.pagesize == page_size);
        // Pool 1 has pages of the same size.
        let pools = new_bufferpools(page_size);
        assert(pools[0].bpid == 1 && pools[0].pagesize == page_size);
        assert(pools.contains(pools[0]));
        assert(cat.bufferpools.contains(pools[0]));
        let p = choose|p: int| 0 <= p < cat.bufferpools.len() && cat.bufferpools[p] == pools[0];
        lemma_find_pool_def(cat.bufferpools, 1, 0);
        let q = find_pool_def(cat.bufferpools, 1, 0);
        assert(q <= p);
        assert(cat.bufferpools.contains(cat.bufferpools[q]));
        let m = choose|m: int| 0 <= m < pools.len() && pools[m] == cat.bufferpools[q];
        assert(m == 0);
        assert(map_error(files[n - 1].fsm) is None);
    }
}

/// A new database can be opened: its catalog is sound, its pools have different numbers, and each
/// of its tables has a tablespace and a pool with pages of its size.
pub proof fn law_new_database_opens(cat: CatalogDef, files: Seq<FilesModel>, page_size: i32)
    requires
        is_new_catalog(cat, page_size),
        0 < page_size,
        page_size * 8 <= i32::MAX,
        page_size * 256 <= usize::MAX,
        files.len() == cat.tables.len(),
        forall|i: int| 0 <= i < files.len() ==> map_error((#[trigger] files[i]).fsm) is None,
    ensures
        catalog_sound(cat),
        doubled_pool(cat.bufferpools, cat.bufferpools.len() as int) is None,
        opened_tables(cat, files, cat.tables.len() as int) is Ok,
        cat.tables.len() == 5,
{
    let pools = new_bufferpools(page_size);
    let spaces = new_tablespaces(page_size);
    assert forall|i: int| 0 <= i < cat.bufferpools.len() implies {
        &&& (#[trigger] cat.bufferpools[i]).npages >= 1
        &&& size_of(cat.bufferpools[i].npages) * size_of(cat.bufferpools[i].pagesize) <= usize::MAX
    } by {
        assert(cat.bufferpools.contains(cat.bufferpools[i]));
        let k = choose|k: int| 0 <= k < pools.len() && pools[k] == cat.bufferpools[i];
        assert(pools.len() == 4);
        if k == 2 {
            assert(size_of(cat.bufferpools[i].npages) == 32);
            assert(size_of(cat.bufferpools[i].pagesize) == page_size * 8);
            assert(32 * (page_size * 8) == page_size * 256);
        } else {
            assert(cat.bufferpools[i].npages <= 128);
            assert(cat.bufferpools[i].pagesize == page_size);
            let a = cat.bufferpools[i].npages as int;
            let b = page_size as int;
            assert(size_of(cat.bufferpools[i].npages) == a);
            assert(size_of(cat.bufferpools[i].pagesize) == b);
            assert(a * b <= 128 * b) by (nonlinear_arith)
                requires
                    a <= 128,
                    b >= 0,
            ;
        }
    }
    assert forall|i: int, j: int| 0 <= i < j < pools.len() implies (#[trigger] pools[i]).bpid != (
    #[trigger] pools[j]).bpid by {
        assert(pools[i].bpid == i + 1 && pools[j].bpid == j + 1);
    }
    assert(pools.no_duplicates());
    lemma_same_distinct(cat.bufferpools, pools);
    let defs = cat.bufferpools;
    assert forall|i: int, j: int| 0 <= i < j < defs.len() implies (#[trigger] defs[i]).bpid != (
    #[trigger] defs[j]).bpid by {
        assert(defs.contains(defs[i]) && defs.contains(defs[j]));
        let a = choose|a: int| 0 <= a < pools.len() && pools[a] == defs[i];
        let b = choose|b: int| 0 <= b < pools.len() && pools[b] == defs[j];
        if a < b {
            assert(pools[a].bpid != pools[b].bpid);
        } else if b < a {
            assert(pools[b].bpid != pools[a].bpid);
        }
    }
    lemma_no_doubled_pool(defs, defs.len() as int);
    lemma_tables_open(cat, files, page_size, cat.tables.len() as int);
}

/// The files of a table are named by its schema, a point, its name, and what they hold; those of
/// its rows and of its map have different names.
pub proof fn law_files_are_named_by_their_table(schema: Seq<char>, table: Seq<char>)
    ensures
        ({
            let stem = schema + seq!['.'] + table;
            let n = stem.len() as int;
            &&& dat_name(schema, table).subrange(0, n) == stem
            &&& map_name(schema, table).subrange(0, n) == stem
            &&& dat_name(schema, table).subrange(n, dat_name(schema, table).len() as int)
                == ".0.DAT"@
            &&& map_name(schema, table).subrange(n, map_name(schema, table).len() as int)
                == ".0.FSM"@
            &&& dat_name(schema, table) != map_name(schema, table)
        }),
{
    reveal_strlit(".");
    reveal_strlit(".0.DAT");
    reveal_strlit(".0.FSM");
    let stem = schema + seq!['.'] + table;
    let n = stem.len() as int;
    let d = dat_name(schema, table);
    let m = map_name(schema, table);
    assert("."@ =~= seq!['.']);
    assert(d.subrange(0, n) =~= stem && m.subrange(0, n) =~= stem);
    assert(d.subrange(n, d.len() as int) =~= ".0.DAT"@);
    assert(m.subrange(n, m.len() as int) =~= ".0.FSM"@);
    assert(d[n + 3] == 'D' && m[n + 3] == 'F');
}

/// Tables whose schemas have no point in their names have files of different names.
pub proof fn law_files_of_different_tables_differ(
    a: (Seq<char>, Seq<char>),
    b: (Seq<char>, Seq<char>),
)
    requires
        a != b,
        !a.0.contains('.'),
        !b.0.contains('.'),
    ensures
        dat_name(a.0, a.1) != dat_name(b.0, b.1),
        map_name(a.0, a.1) != map_name(b.0, b.1),
{
    law_files_are_named_by_their_table(a.0, a.1);
    law_files_are_named_by_their_table(b.0, b.1);
    let x = a.0 + seq!['.'] + a.1;
    let y = b.0 + seq!['.'] + b.1;
    reveal_strlit(".0.DAT");
    reveal_strlit(".0.FSM");
    if x == y {
        let p = a.0.len() as int;
        let q = b.0.len() as int;
        assert(x[p] == '.' && y[q] == '.');
        if p < q {
            assert(b.0[p] == y[p]);
        } else if q < p {
            assert(a.0[q] == x[q]);
        }
        assert(p == q);
        assert(a.0 =~= x.subrange(0, p) && b.0 =~= y.subrange(0, p));
        assert(a.1 =~= x.subrange(p + 1, x.len() as int));
        assert(b.1 =~= y.subrange(p + 1, y.len() as int));
    }
}

/// A database without a configuration file does not exist, and one with it has the configuration of
/// its text.
pub proof fn law_database_is_where_its_configuration_is(
    name: Seq<char>,
    place: Seq<char>,
    text: Seq<char>,
)
    ensures
        configuration(name, place, None) matches Err(e) && e matches ErrorModel::Sql(state, _)
            && state == SqlState::DatabaseNotFound,
        configuration(name, place, Some(text)) == config_in(text),
{
}

} // verus!
