//! Runs statements.

use vstd::prelude::*;
use vstd::string::StringExecFns;
use crate::catalog::cache::{CacheModel, CatalogCache};
use crate::error::{sql_error, DbResult, ErrorModel, SqlState};
use crate::sql::ast::Command;
use crate::sql::change::{can_delete, can_insert, can_update, delete_outcome, delete_scans,
    execute_delete, execute_insert, execute_update, insert_ok, insert_outcome, refused,
    update_outcome, update_scans};
use crate::sql::define::{can_create, can_drop, create_ok, create_outcome, drop_ok, drop_outcome,
    execute_create_table, execute_drop_table};
use crate::sql::query::{can_query, execute_query, may_scan, query_result, query_scans};
use crate::sql::types::{ResultModel, ResultSet};
use crate::storage::tablespace::{pools_alike, TablespaceManager, TsmModel};

verus! {

/// What a statement asks: that the pages that it looks at have room for a checksum; an `INSERT`,
/// that the numbers with a minus sign have a negative; a `CREATE TABLE`, that there is room for the
/// table that it makes.
pub open spec fn command_ok(s: Command, c: CacheModel, t: TsmModel) -> bool {
    match s {
        Command::Query(q) => may_scan(query_scans(q, c), t),
        Command::Insert(i) => insert_ok(i, c, t),
        Command::Delete(d) => may_scan(delete_scans(d, c), t),
        Command::Update(u) => may_scan(update_scans(u, c), t),
        Command::CreateTable(ct) => create_ok(ct, c, t),
        Command::DropTable(d) => drop_ok(d, c, t),
        Command::Other(_) => true,
    }
}

/// What a statement gives, and what it makes of the catalog and the tables; `disk` has the number
/// of pages of each table that are on disk after it.
pub open spec fn outcome(
    s: Command,
    c: CacheModel,
    t: TsmModel,
    c2: CacheModel,
    t2: TsmModel,
    disk: Seq<nat>,
    r: DbResult<ResultSet>,
) -> bool {
    match s {
        Command::Query(q) => {
            &&& c2 == c
            &&& t2 == t
            &&& match r {
                Ok(rs) => query_result(q, c, t) == Ok::<ResultModel, ErrorModel>(rs@),
                Err(e) => query_result(q, c, t) == Err::<ResultModel, ErrorModel>(e@),
            }
        },
        Command::Insert(i) => insert_outcome(i, c, t, t2, disk, r) && c2 == c,
        Command::Delete(d) => delete_outcome(d, c, t, t2, r) && c2 == c,
        Command::Update(u) => update_outcome(u, c, t, t2, disk, r) && c2 == c,
        Command::CreateTable(ct) => create_outcome(ct, c, t, c2, t2, disk, r),
        Command::DropTable(d) => drop_outcome(d, c, t, c2, t2, r),
        Command::Other(text) => {
            &&& refused(
                r,
                ErrorModel::Sql(
                    SqlState::FeatureNotSupported,
                    "unsupported statement: "@ + text@,
                ),
                t,
                t2,
            )
            &&& c2 == c
        },
    }
}

/// Tells whether a statement has what it asks.
pub fn is_ok(command: &Command, cache: &CatalogCache, tsm: &TablespaceManager) -> (r: bool)
    requires
        cache.wf(),
        tsm.wf(),
    ensures
        r == command_ok(*command, cache@, tsm@),
{
    match command {
        Command::Query(q) => can_query(q, cache, tsm),
        Command::Insert(i) => can_insert(i, cache, tsm),
        Command::Delete(d) => can_delete(d, cache, tsm),
        Command::Update(u) => can_update(u, cache, tsm),
        Command::CreateTable(ct) => can_create(ct, cache, tsm),
        Command::DropTable(d) => can_drop(d, cache, tsm),
        Command::Other(_) => true,
    }
}

/// Runs a statement.
pub fn execute(stmt: &Command, cache: &mut CatalogCache, tsm: &mut TablespaceManager) -> (r:
    DbResult<ResultSet>)
    requires
        old(cache).wf(),
        old(tsm).wf(),
        command_ok(*stmt, old(cache)@, old(tsm)@),
    ensures
        final(cache).wf(),
        final(tsm).wf(),
        final(tsm)@.spaces == old(tsm)@.spaces,
        pools_alike(final(tsm)@.pools, old(tsm)@.pools),
        outcome(
            *stmt,
            old(cache)@,
            old(tsm)@,
            final(cache)@,
            final(tsm)@,
            final(tsm).on_disk(),
            r,
        ),
{
    match stmt {
        Command::Query(q) => execute_query(q, cache, tsm),
        Command::Insert(i) => execute_insert(i, cache, tsm),
        Command::Delete(d) => execute_delete(d, cache, tsm),
        Command::Update(u) => execute_update(u, cache, tsm),
        Command::CreateTable(ct) => execute_create_table(ct, cache, tsm),
        Command::DropTable(d) => execute_drop_table(d, cache, tsm),
        Command::Other(text) => Err(
            sql_error(
                SqlState::FeatureNotSupported,
                "unsupported statement: ".to_owned().concat(text.as_str()),
            ),
        ),
    }
}

} // verus!
