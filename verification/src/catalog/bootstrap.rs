//! The catalog of a new database.
//!
//! A new database has five tables, those of the catalog itself, which list themselves.

use vstd::prelude::*;
use vstd::string::StringExecFns;
use vstd::utf8::encode_utf8;
use crate::catalog::config::{config_lines, ended_lines, ConfigModel, DbConfig};
use crate::catalog::row::{field_bytes, flag_bytes, law_field_round_trip, law_signed_round_trip,
    law_values_round_trip, signed_bytes, RowWriter};
use crate::catalog::loader::{field_value, field_values, has_kinds, is_kind, FieldKind};
use crate::catalog::SYSTEM_SCHEMA;
use crate::error::{DbResult, ErrorModel};
use crate::sql::types::{row_view, rows_view, Value, ValueModel};
use crate::storage::heap_order::{fits_one_page, holds_in_order, law_rows_are_scanned_in_order,
    lemma_front_fits, lemma_next_in_order, on_first_page};
use crate::storage::heap::{all_rows, file_fits, fresh_room, law_heap_insert_then_read, lemma_place,
    lemma_place_no_fail, page_sound, pages_sound, readable, row_inserted, HeapFile, HeapModel, Rid};
use crate::bytes::lemma_pow256;

verus! {

// ── Rows as they are stored ──

/// A value as a field.
pub open spec fn value_bytes(v: ValueModel) -> Seq<u8> {
    match v {
        ValueModel::SmallInt(n) => field_bytes(signed_bytes(n as int, 2)),
        ValueModel::Integer(n) => field_bytes(signed_bytes(n as int, 4)),
        ValueModel::Str(s) => field_bytes(encode_utf8(s)),
        ValueModel::Bool(b) => field_bytes(flag_bytes(b)),
        _ => Seq::empty(),
    }
}

/// The first `n` values of a row as fields.
pub open spec fn values_bytes(row: Seq<ValueModel>, n: int) -> Seq<u8>
    decreases n,
{
    if n <= 0 {
        Seq::empty()
    } else {
        values_bytes(row, n - 1) + value_bytes(row[n - 1])
    }
}

/// A row as bytes.
pub open spec fn row_bytes(row: Seq<ValueModel>) -> Seq<u8> {
    values_bytes(row, row.len() as int)
}

/// The first `n` values of a row as they are shown, with tabs between them.
pub open spec fn tabbed(row: Seq<ValueModel>, n: int) -> Seq<char>
    decreases n,
{
    if n <= 0 {
        Seq::empty()
    } else if n == 1 {
        row[0].text()
    } else {
        tabbed(row, n - 1).push('\t') + row[n - 1].text()
    }
}

/// The first `n` rows, a line each.
pub open spec fn tabbed_lines(rows: Seq<Seq<ValueModel>>, n: int) -> Seq<char>
    decreases n,
{
    if n <= 0 {
        Seq::empty()
    } else {
        tabbed_lines(rows, n - 1) + tabbed(rows[n - 1], rows[n - 1].len() as int).push('\n')
    }
}

/// A row as bytes.
pub fn encode_row(row: &Vec<Value>) -> (r: Vec<u8>)
    ensures
        r@ == row_bytes(row_view(row@)),
{
    let n: usize = row.len();
    let ghost model = row_view(row@);
    let mut w: RowWriter = RowWriter::new();
    let mut i: usize = 0;
    while i < n
        invariant
            i <= n,
            n == row@.len() == model.len(),
            model == row_view(row@),
            w@ == values_bytes(model, i as int),
        decreases n - i,
    {
        assert(model[i as int] == row@[i as int]@);
        match &row[i] {
            Value::SmallInt(v) => w.write_i16(*v),
            Value::Integer(v) => w.write_i32(*v),
            Value::Str(s) => w.write_string(s.as_str()),
            Value::Bool(b) => w.write_bool(*b),
            Value::BigInt(_) => {
                assert(w@ + Seq::<u8>::empty() =~= w@);
            }
            Value::Null => {
                assert(w@ + Seq::<u8>::empty() =~= w@);
            }
        }
        i += 1;
    }
    w.finish()
}

fn tabbed_row(row: &Vec<Value>) -> (r: String)
    ensures
        r@ == tabbed(row_view(row@), row@.len() as int),
{
    let n: usize = row.len();
    let ghost model = row_view(row@);
    let mut out: String = String::new();
    let mut i: usize = 0;
    while i < n
        invariant
            i <= n,
            n == row@.len() == model.len(),
            model == row_view(row@),
            out@ == tabbed(model, i as int),
        decreases n - i,
    {
        assert(model[i as int] == row@[i as int]@);
        if i > 0 {
            out.push('\t');
        }
        out.append(row[i].to_string().as_str());
        i += 1;
        assert(out@ =~= tabbed(model, i as int));
    }
    out
}

// ── Files of rows ──

/// Whether a file holds exactly some rows: row `i` is at address `rids[i]`, and there is no row
/// elsewhere.
pub open spec fn holds_rows(h: HeapModel, rids: Seq<Rid>, rows: Seq<Seq<u8>>) -> bool {
    &&& rids.len() == rows.len()
    &&& rids.no_duplicates()
    &&& forall|i: int| 0 <= i < rids.len() ==> h.row(#[trigger] rids[i]) == Some(rows[i])
    &&& forall|rid: Rid| #[trigger] h.row(rid) is Some ==> rids.contains(rid)
}

/// Whether a file holds exactly some rows, wherever they are.
pub open spec fn holds_exactly(h: HeapModel, rows: Seq<Seq<u8>>) -> bool {
    exists|rids: Seq<Rid>| holds_rows(h, rids, rows)
}

/// Whether a scan of a file gives some rows in order, where they fit one page. (A row that is
/// shorter than those before it may find room on an earlier page of a file of several.)
pub open spec fn kept_in_order(h: HeapModel, rows: Seq<Seq<u8>>) -> bool {
    fits_one_page(h.page_size, rows) ==> all_rows(h.pages, h.pages.len() as int) == on_first_page(
        rows,
    )
}

/// Whether each of some rows fits an empty page.
pub open spec fn rows_fit(page_size: nat, rows: Seq<Seq<u8>>) -> bool {
    forall|i: int| 0 <= i < rows.len() ==> fresh_room(page_size, (#[trigger] rows[i]).len())
}

/// Whether a file can be read throughout and its map tracks its pages.
spec fn healthy(h: HeapModel) -> bool {
    &&& h.via is File
    &&& h.page_size >= 24
    &&& pages_sound(h.pages)
    &&& h.fsm.cats.len() == h.pages.len()
    &&& readable(h)
}

/// The bytes of some rows.
pub open spec fn bytes_view(rows: Seq<Vec<u8>>) -> Seq<Seq<u8>> {
    Seq::new(rows.len(), |i: int| rows[i]@)
}

/// A row more in a file.
proof fn lemma_row_added(
    h: HeapModel,
    row: Seq<u8>,
    h2: HeapModel,
    r: DbResult<Rid>,
    rids: Seq<Rid>,
    rows: Seq<Seq<u8>>,
)
    requires
        healthy(h),
        row_inserted(h, row, h2, r),
        holds_rows(h, rids, rows),
        file_fits(h.pages.len() + 1),
    ensures
        r is Ok <==> fresh_room(h.page_size, row.len()) || h.place(
            row.len(),
            0,
            h.fsm.cats,
        ).0 is Page,
        r is Err ==> r->Err_0@ == ErrorModel::Catalog("row too large for a single page"@),
        r is Ok ==> {
            &&& holds_rows(h2, rids.push(r->Ok_0), rows.push(row))
            &&& healthy(h2)
            &&& h2.page_size == h.page_size
            &&& h2.pages.len() <= h.pages.len() + 1
        },
{
    lemma_place_no_fail(h, row.len(), 0, h.fsm.cats);
    lemma_place(h, row.len(), 0, h.fsm.cats);
    if r is Ok {
        let rid = r->Ok_0;
        law_heap_insert_then_read(h, row, h2, rid);
        assert(!rids.contains(rid)) by {
            if rids.contains(rid) {
                let k = choose|k: int| 0 <= k < rids.len() && rids[k] == rid;
                assert(h.row(rids[k]) == Some(rows[k]));
            }
        }
        let rids2 = rids.push(rid);
        let rows2 = rows.push(row);
        assert forall|i: int| 0 <= i < rids2.len() implies h2.row(#[trigger] rids2[i]) == Some(
            rows2[i],
        ) by {
            if i < rids.len() {
                assert(rids[i] != rid) by {
                    assert(rids.contains(rids[i]));
                }
                assert(h.row(rids[i]) == Some(rows[i]));
            }
        }
        assert forall|other: Rid| #[trigger] h2.row(other) is Some implies rids2.contains(
            other,
        ) by {
            if other == rid {
                assert(rids2[rids.len() as int] == rid);
            } else {
                assert(h.row(other) is Some);
                let k = choose|k: int| 0 <= k < rids.len() && rids[k] == other;
                assert(rids2[k] == other);
            }
        }
        assert(rids2.no_duplicates()) by {
            assert forall|a: int, b: int|
                0 <= a < rids2.len() && 0 <= b < rids2.len() && a != b implies rids2[a]
                != rids2[b] by {
                if a < rids.len() {
                    assert(rids.contains(rids[a]));
                }
                if b < rids.len() {
                    assert(rids.contains(rids[b]));
                }
            }
        }
        let p = rid.page_id as int;
        let n = h.pages.len() as int;
        assert forall|q: int| 0 <= q < h2.pages.len() implies page_sound(
            #[trigger] h2.pages[q],
            q,
        ) by {
            if q != p {
                assert(page_sound(h.pages[q], q));
            } else if p < n {
                assert(page_sound(h.pages[p], p));
            }
        }
        assert forall|q: nat| q < h2.pages.len() implies #[trigger] h2.page_error(q) is None by {
            if q != p {
                assert(h.page_error(q) is None);
            }
        }
    }
}

/// Puts rows into a new heap file.
fn fill_heap(page_size: usize, rows: &Vec<Vec<u8>>) -> (r: DbResult<HeapFile>)
    requires
        page_size >= 17,
        file_fits(rows@.len()),
    ensures
        match r {
            Ok(h) => {
                &&& h.wf()
                &&& h@.page_size == page_size
                &&& pages_sound(h@.pages)
                &&& readable(h@)
                &&& holds_exactly(h@, bytes_view(rows@))
                &&& kept_in_order(h@, bytes_view(rows@))
            },
            Err(e) => {
                &&& !rows_fit(page_size as nat, bytes_view(rows@))
                &&& e@ == ErrorModel::Catalog("row too large for a single page"@)
            },
        },
{
    let mut heap: HeapFile = match HeapFile::create(page_size) {
        Ok(h) => h,
        Err(e) => {
            return Err(e);
        }
    };
    let n: usize = rows.len();
    let ghost all = bytes_view(rows@);
    proof {
        heap.lemma_wf();
    }
    let ghost mut rids: Seq<Rid> = Seq::empty();
    let mut i: usize = 0;
    assert(all.subrange(0, 0) =~= Seq::<Seq<u8>>::empty());
    while i < n
        invariant
            i <= n,
            n == rows@.len() == all.len(),
            all == bytes_view(rows@),
            file_fits(n as nat),
            heap.wf(),
            heap@.page_size == page_size >= 17,
            heap@.fsm.cats.len() == heap@.pages.len() <= i,
            page_size >= 24 ==> healthy(heap@),
            page_size < 24 ==> i == 0,
            fits_one_page(page_size as nat, all) ==> holds_in_order(
                heap@,
                all.subrange(0, i as int),
            ),
            holds_rows(heap@, rids, all.subrange(0, i as int)),
        decreases n - i,
    {
        let ghost h = heap@;
        assert(all[i as int] == rows@[i as int]@);
        let added: DbResult<Rid> = heap.insert_row(rows[i].as_slice());
        proof {
            if page_size >= 24 {
                lemma_row_added(
                    h,
                    all[i as int],
                    heap@,
                    added,
                    rids,
                    all.subrange(0, i as int),
                );
            }
            assert(all.subrange(0, i as int).push(all[i as int]) =~= all.subrange(0, i + 1));
        }
        match added {
            Ok(rid) => {
                proof {
                    if fits_one_page(page_size as nat, all) {
                        lemma_front_fits(page_size as nat, all, i + 1);
                        lemma_next_in_order(
                            h,
                            all.subrange(0, i as int),
                            all[i as int],
                            heap@,
                            rid,
                        );
                    }
                    rids = rids.push(rid);
                }
            }
            Err(e) => {
                assert(!fresh_room(page_size as nat, all[i as int].len()));
                return Err(e);
            }
        }
        i += 1;
    }
    proof {
        assert(all.subrange(0, n as int) =~= all);
        assert(holds_rows(heap@, rids, all));
        if fits_one_page(page_size as nat, all) {
            law_rows_are_scanned_in_order(heap@, all);
        }
    }
    Ok(heap)
}

/// The file of a table of a new catalog.
pub enum DatFile {
    /// A text, in text mode.
    Text(String),
    /// A heap file of rows.
    Rows(HeapFile),
}

/// Whether `file` is the file of a table with some rows: a text of the names of its columns and
/// its rows, or a heap file that holds exactly its rows, in order where they fit one page.
pub open spec fn dat_file(
    header: Seq<char>,
    rows: Seq<Seq<ValueModel>>,
    text_mode: bool,
    page_size: nat,
    r: DbResult<DatFile>,
) -> bool {
    let stored = stored_rows(rows);
    if text_mode {
        &&& r is Ok
        &&& r->Ok_0 is Text
        &&& r->Ok_0->Text_0@ == header.push('\n') + tabbed_lines(rows, rows.len() as int)
    } else {
        match r {
            Ok(DatFile::Rows(h)) => {
                &&& h.wf()
                &&& h@.page_size == page_size
                &&& pages_sound(h@.pages)
                &&& readable(h@)
                &&& holds_exactly(h@, stored)
                &&& kept_in_order(h@, stored)
            },
            Ok(DatFile::Text(_)) => false,
            Err(e) => {
                &&& !rows_fit(page_size, stored)
                &&& e@ == ErrorModel::Catalog("row too large for a single page"@)
            },
        }
    }
}

/// Makes the file of a table.
fn write_dat(header: &str, rows: &Vec<Vec<Value>>, text_mode: bool, page_size: usize) -> (r:
    DbResult<DatFile>)
    requires
        !text_mode ==> page_size >= 17,
        file_fits(rows@.len()),
    ensures
        dat_file(header@, rows_view(rows@), text_mode, page_size as nat, r),
{
    let n: usize = rows.len();
    let ghost model = rows_view(rows@);
    if text_mode {
        let mut content: String = header.to_owned();
        content.push('\n');
        let ghost head = content@;
        assert(head + tabbed_lines(model, 0) =~= head);
        let mut i: usize = 0;
        while i < n
            invariant
                i <= n,
                n == rows@.len() == model.len(),
                model == rows_view(rows@),
                content@ == head + tabbed_lines(model, i as int),
            decreases n - i,
        {
            assert(model[i as int] == row_view(rows@[i as int]@));
            content.append(tabbed_row(&rows[i]).as_str());
            content.push('\n');
            i += 1;
            assert(content@ =~= head + tabbed_lines(model, i as int));
        }
        return Ok(DatFile::Text(content));
    }
    let mut stored: Vec<Vec<u8>> = Vec::new();
    let mut i: usize = 0;
    while i < n
        invariant
            i <= n,
            n == rows@.len() == model.len(),
            model == rows_view(rows@),
            stored@.len() == i,
            forall|k: int| 0 <= k < i ==> (#[trigger] stored@[k])@ == row_bytes(model[k]),
        decreases n - i,
    {
        assert(model[i as int] == row_view(rows@[i as int]@));
        stored.push(encode_row(&rows[i]));
        i += 1;
    }
    proof {
        assert(bytes_view(stored@) =~= Seq::new(model.len(), |k: int| row_bytes(model[k])));
    }
    match fill_heap(page_size, &stored) {
        Ok(h) => Ok(DatFile::Rows(h)),
        Err(e) => Err(e),
    }
}

// ── The tables of a new catalog ──

/// A row of `SYSTABLESPACES`.
pub open spec fn tablespace_entry(
    id: i32,
    name: Seq<char>,
    kind: Seq<char>,
    data: Seq<char>,
    page_size: i32,
    pool: i32,
) -> Seq<ValueModel> {
    seq![
        ValueModel::Integer(id),
        ValueModel::Str(name),
        ValueModel::Str(kind),
        ValueModel::Str(data),
        ValueModel::Integer(page_size),
        ValueModel::Str("N"@),
        ValueModel::Integer(pool),
    ]
}

/// The rows of `SYSTABLESPACES`.
pub open spec fn systablespaces_rows(page_size: i32) -> Seq<Seq<ValueModel>> {
    seq![
        tablespace_entry(1, "SYSTBSP"@, "S"@, "A"@, page_size, 1),
        tablespace_entry(2, "USERTBSP"@, "D"@, "A"@, page_size, 1),
        tablespace_entry(3, "TEMPTBSP"@, "D"@, "T"@, page_size, 4),
    ]
}

/// The rows of `SYSSCHEMAS`.
pub open spec fn sysschemas_rows() -> Seq<Seq<ValueModel>> {
    seq![seq![ValueModel::Str(SYSTEM_SCHEMA@)], seq![ValueModel::Str("PUBLIC"@)]]
}

/// A row of `SYSTABLES`.
pub open spec fn table_entry(id: i32, name: Seq<char>, columns: i16) -> Seq<ValueModel> {
    seq![
        ValueModel::Integer(id),
        ValueModel::Str(name),
        ValueModel::Str(SYSTEM_SCHEMA@),
        ValueModel::SmallInt(1),
        ValueModel::SmallInt(columns),
    ]
}

/// The rows of `SYSTABLES`.
pub open spec fn systables_rows() -> Seq<Seq<ValueModel>> {
    seq![
        table_entry(1, "SYSTABLESPACES"@, 7),
        table_entry(2, "SYSSCHEMAS"@, 1),
        table_entry(3, "SYSTABLES"@, 5),
        table_entry(4, "SYSCOLUMNS"@, 6),
        table_entry(5, "SYSBUFFERPOOLS"@, 4),
    ]
}

/// A row of `SYSCOLUMNS`.
pub open spec fn column_entry(
    name: Seq<char>,
    table: Seq<char>,
    ordinal: i16,
    sql_type: Seq<char>,
) -> Seq<ValueModel> {
    seq![
        ValueModel::Str(name),
        ValueModel::Str(table),
        ValueModel::Str(SYSTEM_SCHEMA@),
        ValueModel::SmallInt(ordinal),
        ValueModel::Str(sql_type),
        ValueModel::Bool(false),
    ]
}

/// The rows of `SYSCOLUMNS`.
pub open spec fn syscolumns_rows() -> Seq<Seq<ValueModel>> {
    seq![
        column_entry("TBSPACEID"@, "SYSTABLESPACES"@, 0, "INTEGER"@),
        column_entry("TBSPACE"@, "SYSTABLESPACES"@, 1, "VARCHAR(128)"@),
        column_entry("TBSPACETYPE"@, "SYSTABLESPACES"@, 2, "CHAR(1)"@),
        column_entry("DATATYPE"@, "SYSTABLESPACES"@, 3, "CHAR(1)"@),
        column_entry("PAGESIZE"@, "SYSTABLESPACES"@, 4, "INTEGER"@),
        column_entry("STATE"@, "SYSTABLESPACES"@, 5, "CHAR(1)"@),
        column_entry("BUFFERPOOLID"@, "SYSTABLESPACES"@, 6, "INTEGER"@),
        column_entry("NAME"@, "SYSSCHEMAS"@, 0, "VARCHAR(128)"@),
        column_entry("TABLEID"@, "SYSTABLES"@, 0, "INTEGER"@),
        column_entry("NAME"@, "SYSTABLES"@, 1, "VARCHAR(128)"@),
        column_entry("SCHEMANAME"@, "SYSTABLES"@, 2, "VARCHAR(128)"@),
        column_entry("TBSPACEID"@, "SYSTABLES"@, 3, "SMALLINT"@),
        column_entry("COLCOUNT"@, "SYSTABLES"@, 4, "SMALLINT"@),
        column_entry("NAME"@, "SYSCOLUMNS"@, 0, "VARCHAR(128)"@),
        column_entry("TABNAME"@, "SYSCOLUMNS"@, 1, "VARCHAR(128)"@),
        column_entry("SCHEMANAME"@, "SYSCOLUMNS"@, 2, "VARCHAR(128)"@),
        column_entry("ORDINAL"@, "SYSCOLUMNS"@, 3, "SMALLINT"@),
        column_entry("TYPENAME"@, "SYSCOLUMNS"@, 4, "VARCHAR(20)"@),
        column_entry("NULLABLE"@, "SYSCOLUMNS"@, 5, "CHAR(1)"@),
        column_entry("BPID"@, "SYSBUFFERPOOLS"@, 0, "INTEGER"@),
        column_entry("BPNAME"@, "SYSBUFFERPOOLS"@, 1, "VARCHAR(128)"@),
        column_entry("PAGESIZE"@, "SYSBUFFERPOOLS"@, 2, "INTEGER"@),
        column_entry("NPAGES"@, "SYSBUFFERPOOLS"@, 3, "INTEGER"@),
    ]
}

/// A row of `SYSBUFFERPOOLS`.
pub open spec fn bufferpool_entry(id: i32, name: Seq<char>, page_size: int, pages: i32) -> Seq<
    ValueModel,
> {
    seq![
        ValueModel::Integer(id),
        ValueModel::Str(name),
        ValueModel::Integer(page_size as i32),
        ValueModel::Integer(pages),
    ]
}

/// The rows of `SYSBUFFERPOOLS`.
pub open spec fn sysbufferpools_rows(page_size: i32) -> Seq<Seq<ValueModel>> {
    seq![
        bufferpool_entry(1, "RQDEFAULTBP"@, page_size as int, 128),
        bufferpool_entry(2, "INDEXBP"@, page_size as int, 64),
        bufferpool_entry(3, "LOBBP"@, page_size * 8, 32),
        bufferpool_entry(4, "TEMPBP"@, page_size as int, 64),
    ]
}

fn text(s: &str) -> (r: Value)
    ensures
        r@ == ValueModel::Str(s@),
{
    Value::Str(s.to_owned())
}

fn system_tablespace(
    id: i32,
    name: &str,
    kind: &str,
    data: &str,
    page_size: i32,
    pool: i32,
) -> (r: Vec<Value>)
    ensures
        row_view(r@) == tablespace_entry(id, name@, kind@, data@, page_size, pool),
{
    let mut row: Vec<Value> = Vec::new();
    row.push(Value::Integer(id));
    row.push(text(name));
    row.push(text(kind));
    row.push(text(data));
    row.push(Value::Integer(page_size));
    row.push(text("N"));
    row.push(Value::Integer(pool));
    assert(row_view(row@) =~= tablespace_entry(id, name@, kind@, data@, page_size, pool));
    row
}

fn system_table(id: i32, name: &str, columns: i16) -> (r: Vec<Value>)
    ensures
        row_view(r@) == table_entry(id, name@, columns),
{
    let mut row: Vec<Value> = Vec::new();
    row.push(Value::Integer(id));
    row.push(text(name));
    row.push(text(SYSTEM_SCHEMA));
    row.push(Value::SmallInt(1));
    row.push(Value::SmallInt(columns));
    assert(row_view(row@) =~= table_entry(id, name@, columns));
    row
}

fn system_column(name: &str, table: &str, ordinal: i16, sql_type: &str) -> (r: Vec<Value>)
    ensures
        row_view(r@) == column_entry(name@, table@, ordinal, sql_type@),
{
    let mut row: Vec<Value> = Vec::new();
    row.push(text(name));
    row.push(text(table));
    row.push(text(SYSTEM_SCHEMA));
    row.push(Value::SmallInt(ordinal));
    row.push(text(sql_type));
    row.push(Value::Bool(false));
    assert(row_view(row@) =~= column_entry(name@, table@, ordinal, sql_type@));
    row
}

fn system_pool(id: i32, name: &str, page_size: i32, pages: i32) -> (r: Vec<Value>)
    ensures
        row_view(r@) == bufferpool_entry(id, name@, page_size as int, pages),
{
    let mut row: Vec<Value> = Vec::new();
    row.push(Value::Integer(id));
    row.push(text(name));
    row.push(Value::Integer(page_size));
    row.push(Value::Integer(pages));
    assert(row_view(row@) =~= bufferpool_entry(id, name@, page_size as int, pages));
    row
}

/// The names of the columns of `SYSTABLESPACES`.
pub open spec fn systablespaces_header() -> Seq<char> {
    "TBSPACEID\tTBSPACE\tTBSPACETYPE\tDATATYPE\tPAGESIZE\tSTATE\tBUFFERPOOLID"@
}

/// Makes the file of `SYSTABLESPACES`.
pub fn write_systablespaces(page_size: usize, text_mode: bool) -> (r: DbResult<DatFile>)
    requires
        !text_mode ==> 17 <= page_size,
        page_size <= i32::MAX,
    ensures
        dat_file(
            systablespaces_header(),
            systablespaces_rows(page_size as i32),
            text_mode,
            page_size as nat,
            r,
        ),
{
    let ps: i32 = page_size as i32;
    let mut rows: Vec<Vec<Value>> = Vec::new();
    rows.push(system_tablespace(1, "SYSTBSP", "S", "A", ps, 1));
    rows.push(system_tablespace(2, "USERTBSP", "D", "A", ps, 1));
    rows.push(system_tablespace(3, "TEMPTBSP", "D", "T", ps, 4));
    assert(rows_view(rows@) =~= systablespaces_rows(ps));
    write_dat(
        "TBSPACEID\tTBSPACE\tTBSPACETYPE\tDATATYPE\tPAGESIZE\tSTATE\tBUFFERPOOLID",
        &rows,
        text_mode,
        page_size,
    )
}

/// Makes the file of `SYSSCHEMAS`.
pub fn write_sysschemas(page_size: usize, text_mode: bool) -> (r: DbResult<DatFile>)
    requires
        !text_mode ==> 17 <= page_size,
    ensures
        dat_file("NAME"@, sysschemas_rows(), text_mode, page_size as nat, r),
{
    let mut rows: Vec<Vec<Value>> = Vec::new();
    let mut first: Vec<Value> = Vec::new();
    first.push(text(SYSTEM_SCHEMA));
    assert(row_view(first@) =~= seq![ValueModel::Str(SYSTEM_SCHEMA@)]);
    rows.push(first);
    let mut second: Vec<Value> = Vec::new();
    second.push(text("PUBLIC"));
    assert(row_view(second@) =~= seq![ValueModel::Str("PUBLIC"@)]);
    rows.push(second);
    assert(rows_view(rows@) =~= sysschemas_rows());
    write_dat("NAME", &rows, text_mode, page_size)
}

/// Makes the file of `SYSTABLES`.
pub fn write_systables(page_size: usize, text_mode: bool) -> (r: DbResult<DatFile>)
    requires
        !text_mode ==> 17 <= page_size,
    ensures
        dat_file(
            "TABLEID\tNAME\tSCHEMANAME\tTBSPACEID\tCOLCOUNT"@,
            systables_rows(),
            text_mode,
            page_size as nat,
            r,
        ),
{
    let mut rows: Vec<Vec<Value>> = Vec::new();
    rows.push(system_table(1, "SYSTABLESPACES", 7));
    rows.push(system_table(2, "SYSSCHEMAS", 1));
    rows.push(system_table(3, "SYSTABLES", 5));
    rows.push(system_table(4, "SYSCOLUMNS", 6));
    rows.push(system_table(5, "SYSBUFFERPOOLS", 4));
    assert(rows_view(rows@) =~= systables_rows());
    write_dat(
        "TABLEID\tNAME\tSCHEMANAME\tTBSPACEID\tCOLCOUNT",
        &rows,
        text_mode,
        page_size,
    )
}

/// Makes the file of `SYSCOLUMNS`.
pub fn write_syscolumns(page_size: usize, text_mode: bool) -> (r: DbResult<DatFile>)
    requires
        !text_mode ==> 17 <= page_size,
    ensures
        dat_file(
            "NAME\tTABNAME\tSCHEMANAME\tORDINAL\tTYPENAME\tNULLABLE"@,
            syscolumns_rows(),
            text_mode,
            page_size as nat,
            r,
        ),
{
    let mut rows: Vec<Vec<Value>> = Vec::new();
    rows.push(system_column("TBSPACEID", "SYSTABLESPACES", 0, "INTEGER"));
    rows.push(system_column("TBSPACE", "SYSTABLESPACES", 1, "VARCHAR(128)"));
    rows.push(system_column("TBSPACETYPE", "SYSTABLESPACES", 2, "CHAR(1)"));
    rows.push(system_column("DATATYPE", "SYSTABLESPACES", 3, "CHAR(1)"));
    rows.push(system_column("PAGESIZE", "SYSTABLESPACES", 4, "INTEGER"));
    rows.push(system_column("STATE", "SYSTABLESPACES", 5, "CHAR(1)"));
    rows.push(system_column("BUFFERPOOLID", "SYSTABLESPACES", 6, "INTEGER"));
    rows.push(system_column("NAME", "SYSSCHEMAS", 0, "VARCHAR(128)"));
    rows.push(system_column("TABLEID", "SYSTABLES", 0, "INTEGER"));
    rows.push(system_column("NAME", "SYSTABLES", 1, "VARCHAR(128)"));
    rows.push(system_column("SCHEMANAME", "SYSTABLES", 2, "VARCHAR(128)"));
    rows.push(system_column("TBSPACEID", "SYSTABLES", 3, "SMALLINT"));
    rows.push(system_column("COLCOUNT", "SYSTABLES", 4, "SMALLINT"));
    rows.push(system_column("NAME", "SYSCOLUMNS", 0, "VARCHAR(128)"));
    rows.push(system_column("TABNAME", "SYSCOLUMNS", 1, "VARCHAR(128)"));
    rows.push(system_column("SCHEMANAME", "SYSCOLUMNS", 2, "VARCHAR(128)"));
    rows.push(system_column("ORDINAL", "SYSCOLUMNS", 3, "SMALLINT"));
    rows.push(system_column("TYPENAME", "SYSCOLUMNS", 4, "VARCHAR(20)"));
    rows.push(system_column("NULLABLE", "SYSCOLUMNS", 5, "CHAR(1)"));
    rows.push(system_column("BPID", "SYSBUFFERPOOLS", 0, "INTEGER"));
    rows.push(system_column("BPNAME", "SYSBUFFERPOOLS", 1, "VARCHAR(128)"));
    rows.push(system_column("PAGESIZE", "SYSBUFFERPOOLS", 2, "INTEGER"));
    rows.push(system_column("NPAGES", "SYSBUFFERPOOLS", 3, "INTEGER"));
    assert(rows_view(rows@) =~= syscolumns_rows());
    write_dat(
        "NAME\tTABNAME\tSCHEMANAME\tORDINAL\tTYPENAME\tNULLABLE",
        &rows,
        text_mode,
        page_size,
    )
}

/// Makes the file of `SYSBUFFERPOOLS`.
pub fn write_sysbufferpools(page_size: usize, text_mode: bool) -> (r: DbResult<DatFile>)
    requires
        !text_mode ==> 17 <= page_size,
        page_size * 8 <= i32::MAX,
    ensures
        dat_file(
            "BPID\tBPNAME\tPAGESIZE\tNPAGES"@,
            sysbufferpools_rows(page_size as i32),
            text_mode,
            page_size as nat,
            r,
        ),
{
    let ps: i32 = page_size as i32;
    let mut rows: Vec<Vec<Value>> = Vec::new();
    rows.push(system_pool(1, "RQDEFAULTBP", ps, 128));
    rows.push(system_pool(2, "INDEXBP", ps, 64));
    rows.push(system_pool(3, "LOBBP", ps * 8, 32));
    rows.push(system_pool(4, "TEMPBP", ps, 64));
    assert(rows_view(rows@) =~= sysbufferpools_rows(ps));
    write_dat("BPID\tBPNAME\tPAGESIZE\tNPAGES", &rows, text_mode, page_size)
}

/// The files of a new database.
pub struct NewDatabase {
    /// The configuration file.
    pub sqldbconf: String,
    pub systablespaces: DatFile,
    pub sysschemas: DatFile,
    pub systables: DatFile,
    pub syscolumns: DatFile,
    pub sysbufferpools: DatFile,
}

/// Whether `f` is the file of a table with some rows.
pub open spec fn is_dat_file(
    f: DatFile,
    header: Seq<char>,
    rows: Seq<Seq<ValueModel>>,
    text_mode: bool,
    page_size: nat,
) -> bool {
    dat_file(header, rows, text_mode, page_size, Ok(f))
}

/// Whether a page holds each row of a new catalog.
pub open spec fn catalog_fits(page_size: nat) -> bool {
    &&& rows_fit(page_size, stored_rows(systablespaces_rows(page_size as i32)))
    &&& rows_fit(page_size, stored_rows(sysschemas_rows()))
    &&& rows_fit(page_size, stored_rows(systables_rows()))
    &&& rows_fit(page_size, stored_rows(syscolumns_rows()))
    &&& rows_fit(page_size, stored_rows(sysbufferpools_rows(page_size as i32)))
}

/// Rows as bytes.
pub open spec fn stored_rows(rows: Seq<Seq<ValueModel>>) -> Seq<Seq<u8>> {
    Seq::new(rows.len(), |i: int| row_bytes(rows[i]))
}

/// Whether `db` are the files of a new database: the configuration, and the tables of the catalog
/// with the rows about themselves, the tablespaces and the buffer pools.
pub open spec fn is_new_database(config: ConfigModel, db: NewDatabase) -> bool {
    let ps = config.page_size as nat;
    let text = config.text_mode;
    &&& db.sqldbconf@ == ended_lines(config_lines(config), 26)
    &&& is_dat_file(
        db.systablespaces,
        systablespaces_header(),
        systablespaces_rows(ps as i32),
        text,
        ps,
    )
    &&& is_dat_file(db.sysschemas, "NAME"@, sysschemas_rows(), text, ps)
    &&& is_dat_file(
        db.systables,
        "TABLEID\tNAME\tSCHEMANAME\tTBSPACEID\tCOLCOUNT"@,
        systables_rows(),
        text,
        ps,
    )
    &&& is_dat_file(
        db.syscolumns,
        "NAME\tTABNAME\tSCHEMANAME\tORDINAL\tTYPENAME\tNULLABLE"@,
        syscolumns_rows(),
        text,
        ps,
    )
    &&& is_dat_file(
        db.sysbufferpools,
        "BPID\tBPNAME\tPAGESIZE\tNPAGES"@,
        sysbufferpools_rows(ps as i32),
        text,
        ps,
    )
}

/// What making the files of a new database gives.
pub open spec fn bootstrapped(config: ConfigModel, r: DbResult<NewDatabase>) -> bool {
    match r {
        Ok(db) => is_new_database(config, db),
        Err(e) => {
            &&& !config.text_mode
            &&& !catalog_fits(config.page_size as nat)
            &&& e@ == ErrorModel::Catalog("row too large for a single page"@)
        },
    }
}

/// Makes the files of a new database.
pub fn bootstrap(config: &DbConfig) -> (r: DbResult<NewDatabase>)
    requires
        !config.text_mode ==> 17 <= config.page_size,
        config.page_size * 8 <= i32::MAX,
    ensures
        bootstrapped(config@, r),
{
    let ps: usize = config.page_size;
    let text_mode: bool = config.text_mode;
    let sqldbconf: String = config.write();
    let systablespaces: DatFile = match write_systablespaces(ps, text_mode) {
        Ok(f) => f,
        Err(e) => {
            return Err(e);
        }
    };
    let sysschemas: DatFile = match write_sysschemas(ps, text_mode) {
        Ok(f) => f,
        Err(e) => {
            return Err(e);
        }
    };
    let systables: DatFile = match write_systables(ps, text_mode) {
        Ok(f) => f,
        Err(e) => {
            return Err(e);
        }
    };
    let syscolumns: DatFile = match write_syscolumns(ps, text_mode) {
        Ok(f) => f,
        Err(e) => {
            return Err(e);
        }
    };
    let sysbufferpools: DatFile = match write_sysbufferpools(ps, text_mode) {
        Ok(f) => f,
        Err(e) => {
            return Err(e);
        }
    };
    Ok(
        NewDatabase {
            sqldbconf,
            systablespaces,
            sysschemas,
            systables,
            syscolumns,
            sysbufferpools,
        },
    )
}

// ── Laws of stored rows ──

/// A row of short values that was stored is read back, field by field.
pub proof fn law_stored_row_is_read(row: Seq<ValueModel>, kinds: Seq<FieldKind>, n: int)
    requires
        has_kinds(row, kinds),
        0 <= n <= row.len(),
        forall|i: int|
            0 <= i < row.len() && (#[trigger] row[i]) is Str ==> encode_utf8(row[i]->Str_0).len()
                < 0x1_0000_0000_0000_0000,
    ensures
        field_values(row_bytes(row), kinds, n) == (
            Ok::<Seq<ValueModel>, ErrorModel>(row.subrange(0, n)),
            values_bytes(row, n).len() as int,
        ),
    decreases n,
{
    let data = row_bytes(row);
    if n == 0 {
        assert(row.subrange(0, 0) =~= Seq::<ValueModel>::empty());
    } else {
        law_stored_row_is_read(row, kinds, n - 1);
        let front = values_bytes(row, n - 1);
        let v = row[n - 1];
        assert(is_kind(v, kinds[n - 1]));
        let b = match v {
            ValueModel::SmallInt(k) => signed_bytes(k as int, 2),
            ValueModel::Integer(k) => signed_bytes(k as int, 4),
            ValueModel::Str(s) => encode_utf8(s),
            ValueModel::Bool(f) => flag_bytes(f),
            _ => Seq::empty(),
        };
        let rest = lemma_values_split(row, n);
        assert(data == front + field_bytes(b) + rest);
        lemma_pow256();
        if v is SmallInt {
            law_signed_round_trip(v->SmallInt_0 as int, 2);
        }
        if v is Integer {
            law_signed_round_trip(v->Integer_0 as int, 4);
        }
        law_field_round_trip(front, b, rest);
        law_values_round_trip(
            if v is SmallInt { v->SmallInt_0 } else { 0 },
            if v is Integer { v->Integer_0 } else { 0 },
            if v is Str { v->Str_0 } else { Seq::empty() },
            if v is Bool { v->Bool_0 } else { false },
        );
        assert(field_value(b, kinds[n - 1]) == Ok::<ValueModel, ErrorModel>(v));
        assert(row.subrange(0, n - 1).push(v) =~= row.subrange(0, n));
    }
}

/// The fields after the first `n`.
proof fn lemma_values_split(row: Seq<ValueModel>, n: int) -> (rest: Seq<u8>)
    requires
        0 <= n <= row.len(),
    ensures
        row_bytes(row) == values_bytes(row, n) + rest,
    decreases row.len() - n,
{
    if n == row.len() {
        assert(row_bytes(row) =~= values_bytes(row, n) + Seq::<u8>::empty());
        Seq::empty()
    } else {
        let later = lemma_values_split(row, n + 1);
        let rest = value_bytes(row[n]) + later;
        assert(values_bytes(row, n + 1) + later =~= values_bytes(row, n) + rest);
        rest
    }
}

} // verus!
