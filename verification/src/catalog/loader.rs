//! Reading the catalog from its files.
//!
//! Each table of the catalog is in a file of its own: a heap file of rows, or, in text mode, a
//! text with a line of column names and a line of tab-separated values for each row.

use vstd::prelude::*;
use vstd::string::StringExecFns;
use crate::catalog::row::{bool_field, field_at, i16_field, i32_field, string_field, RowReader};
use crate::catalog::types::{columns_view, BufferPool, BufferPoolDef, Catalog, CatalogDef, Column,
    ColumnDef, Schema, Table, TableDef, Tablespace, TablespaceDef};
use crate::error::{DbResult, Error, ErrorModel};
use crate::sql::types::{row_view, rows_view, Value, ValueModel};
use crate::storage::heap::{all_rows, rid_rows, HeapFile, HeapModel, Rid};
use crate::text::{char_range, chars_of, decimal, digits10, line_seq, lines, parse_signed,
    parsed_signed, same_str, split, split_parts, string_of};

verus! {

/// What a field of a catalog table holds.
#[derive(Debug, Clone, Copy, PartialEq, Eq, Structural)]
pub enum FieldKind {
    Small,
    Int,
    Text,
    Flag,
}

/// The name of the message with which `str::parse::<i16>` refuses a text.
pub uninterp spec fn i16_error_text(s: Seq<char>) -> Seq<char>;

/// The message with which `str::parse::<i16>` refuses a text. It depends on the text alone; which
/// message it is where several things are wrong is not spelled out.
#[verifier::external_body]
fn i16_error(s: &str) -> (r: String)
    ensures
        r@ == i16_error_text(s@),
{
    match s.parse::<i16>() {
        Ok(_) => String::new(),
        Err(e) => e.to_string(),
    }
}

/// The name of the message with which `str::parse::<i32>` refuses a text.
pub uninterp spec fn i32_error_text(s: Seq<char>) -> Seq<char>;

/// The message with which `str::parse::<i32>` refuses a text. It depends on the text alone; which
/// message it is where several things are wrong is not spelled out.
#[verifier::external_body]
fn i32_error(s: &str) -> (r: String)
    ensures
        r@ == i32_error_text(s@),
{
    match s.parse::<i32>() {
        Ok(_) => String::new(),
        Err(e) => e.to_string(),
    }
}

/// A number of 16 bits in a text.
pub open spec fn text_i16(s: Seq<char>) -> Result<i16, ErrorModel> {
    match parsed_signed(s, i16::MIN as int, i16::MAX as int) {
        Some(v) => Ok(v as i16),
        None => Err(ErrorModel::Corruption(i16_error_text(s))),
    }
}

/// A number of 32 bits in a text.
pub open spec fn text_i32(s: Seq<char>) -> Result<i32, ErrorModel> {
    match parsed_signed(s, i32::MIN as int, i32::MAX as int) {
        Some(v) => Ok(v as i32),
        None => Err(ErrorModel::Corruption(i32_error_text(s))),
    }
}

/// Reads a number of 16 bits.
pub fn parse_i16(val: &str) -> (r: DbResult<i16>)
    ensures
        match r {
            Ok(v) => text_i16(val@) == Ok::<i16, ErrorModel>(v),
            Err(e) => text_i16(val@) == Err::<i16, ErrorModel>(e@),
        },
{
    match parse_signed(val, i16::MIN as i64, i16::MAX as i64) {
        Some(v) => Ok(v as i16),
        None => Err(Error::Corruption(i16_error(val))),
    }
}

/// Reads a number of 32 bits.
pub fn parse_i32(val: &str) -> (r: DbResult<i32>)
    ensures
        match r {
            Ok(v) => text_i32(val@) == Ok::<i32, ErrorModel>(v),
            Err(e) => text_i32(val@) == Err::<i32, ErrorModel>(e@),
        },
{
    match parse_signed(val, i32::MIN as i64, i32::MAX as i64) {
        Some(v) => Ok(v as i32),
        None => Err(Error::Corruption(i32_error(val))),
    }
}

// ── Fields of a row ──

/// A field of bytes as a value.
pub open spec fn field_value(b: Seq<u8>, kind: FieldKind) -> Result<ValueModel, ErrorModel> {
    match kind {
        FieldKind::Small => match i16_field(b) {
            Ok(v) => Ok(ValueModel::SmallInt(v)),
            Err(e) => Err(e),
        },
        FieldKind::Int => match i32_field(b) {
            Ok(v) => Ok(ValueModel::Integer(v)),
            Err(e) => Err(e),
        },
        FieldKind::Text => match string_field(b) {
            Ok(v) => Ok(ValueModel::Str(v)),
            Err(e) => Err(e),
        },
        FieldKind::Flag => match bool_field(b) {
            Ok(v) => Ok(ValueModel::Bool(v)),
            Err(e) => Err(e),
        },
    }
}

/// The values of the first `n` fields of a row, and the position after them, or the error of the
/// first field that has one.
pub open spec fn field_values(data: Seq<u8>, kinds: Seq<FieldKind>, n: int) -> (
    Result<Seq<ValueModel>, ErrorModel>,
    int,
)
    decreases n,
{
    if n <= 0 {
        (Ok(Seq::empty()), 0)
    } else {
        match field_values(data, kinds, n - 1) {
            (Err(e), pos) => (Err(e), pos),
            (Ok(vals), pos) => match field_at(data, pos) {
                (Err(e), next) => (Err(e), next),
                (Ok(b), next) => match field_value(b, kinds[n - 1]) {
                    Err(e) => (Err(e), next),
                    Ok(v) => (Ok(vals.push(v)), next),
                },
            },
        }
    }
}

/// Reads the fields of a row.
pub fn read_fields(data: &[u8], kinds: &Vec<FieldKind>) -> (r: DbResult<Vec<Value>>)
    ensures
        ({
            let want = field_values(data@, kinds@, kinds@.len() as int).0;
            match r {
                Ok(vals) => want == Ok::<Seq<ValueModel>, ErrorModel>(row_view(vals@)),
                Err(e) => want == Err::<Seq<ValueModel>, ErrorModel>(e@),
            }
        }),
{
    let n: usize = kinds.len();
    let mut reader: RowReader<'_> = RowReader::new(data);
    let mut vals: Vec<Value> = Vec::new();
    assert(row_view(vals@) =~= Seq::<ValueModel>::empty());
    let mut i: usize = 0;
    while i < n
        invariant
            i <= n,
            n == kinds@.len(),
            reader.wf(),
            reader.bytes() == data@,
            field_values(data@, kinds@, i as int) == (
                Ok::<Seq<ValueModel>, ErrorModel>(row_view(vals@)),
                reader.at(),
            ),
        decreases n - i,
    {
        let ghost before = row_view(vals@);
        let next: DbResult<Value> = match kinds[i] {
            FieldKind::Small => match reader.read_i16() {
                Ok(v) => Ok(Value::SmallInt(v)),
                Err(e) => Err(e),
            },
            FieldKind::Int => match reader.read_i32() {
                Ok(v) => Ok(Value::Integer(v)),
                Err(e) => Err(e),
            },
            FieldKind::Text => match reader.read_string() {
                Ok(v) => Ok(Value::Str(v)),
                Err(e) => Err(e),
            },
            FieldKind::Flag => match reader.read_bool() {
                Ok(v) => Ok(Value::Bool(v)),
                Err(e) => Err(e),
            },
        };
        match next {
            Ok(v) => {
                let ghost vv = v@;
                vals.push(v);
                assert(row_view(vals@) =~= before.push(vv));
            }
            Err(e) => {
                proof {
                    lemma_field_error(data@, kinds@, i + 1, n as int);
                }
                return Err(e);
            }
        }
        i += 1;
    }
    Ok(vals)
}

/// An error stays.
proof fn lemma_field_error(data: Seq<u8>, kinds: Seq<FieldKind>, i: int, n: int)
    requires
        0 <= i <= n,
        field_values(data, kinds, i).0 is Err,
    ensures
        field_values(data, kinds, n) == field_values(data, kinds, i),
    decreases n - i,
{
    if i < n {
        lemma_field_error(data, kinds, i, n - 1);
    }
}

/// A column of a line of text.
pub open spec fn text_col(row: Seq<Seq<char>>, idx: nat, table: Seq<char>) -> Result<
    Seq<char>,
    ErrorModel,
> {
    if idx < row.len() {
        Ok(row[idx as int])
    } else {
        Err(
            ErrorModel::Corruption(
                "missing column "@ + digits10(idx) + " in "@ + table,
            ),
        )
    }
}

/// A text as a value; any text but `Y` is a flag that is not set.
pub open spec fn text_value(s: Seq<char>, kind: FieldKind) -> Result<ValueModel, ErrorModel> {
    match kind {
        FieldKind::Small => match text_i16(s) {
            Ok(v) => Ok(ValueModel::SmallInt(v)),
            Err(e) => Err(e),
        },
        FieldKind::Int => match text_i32(s) {
            Ok(v) => Ok(ValueModel::Integer(v)),
            Err(e) => Err(e),
        },
        FieldKind::Text => Ok(ValueModel::Str(s)),
        FieldKind::Flag => Ok(ValueModel::Bool(s == "Y"@)),
    }
}

/// The values of the first `n` columns of a line, or the first error.
pub open spec fn text_values(
    row: Seq<Seq<char>>,
    kinds: Seq<FieldKind>,
    table: Seq<char>,
    n: int,
) -> Result<Seq<ValueModel>, ErrorModel>
    decreases n,
{
    if n <= 0 {
        Ok(Seq::empty())
    } else {
        match text_values(row, kinds, table, n - 1) {
            Err(e) => Err(e),
            Ok(vals) => match text_col(row, (n - 1) as nat, table) {
                Err(e) => Err(e),
                Ok(s) => match text_value(s, kinds[n - 1]) {
                    Err(e) => Err(e),
                    Ok(v) => Ok(vals.push(v)),
                },
            },
        }
    }
}

/// The contents of some texts.
pub open spec fn parts_view(v: Seq<Vec<char>>) -> Seq<Seq<char>> {
    v.map_values(|x: Vec<char>| x@)
}

/// A column of a line of text.
pub fn col(row: &Vec<Vec<char>>, idx: usize, table: &str) -> (r: DbResult<String>)
    ensures
        match r {
            Ok(s) => text_col(parts_view(row@), idx as nat, table@) == Ok::<
                Seq<char>,
                ErrorModel,
            >(s@),
            Err(e) => text_col(parts_view(row@), idx as nat, table@) == Err::<
                Seq<char>,
                ErrorModel,
            >(e@),
        },
{
    if idx < row.len() {
        assert(parts_view(row@)[idx as int] == row@[idx as int]@);
        Ok(string_of(row[idx].as_slice()))
    } else {
        Err(
            Error::Corruption(
                "missing column ".to_owned().concat(decimal(idx as u64).as_str()).concat(
                    " in ",
                ).concat(table),
            ),
        )
    }
}

/// Reads the columns of a line of text.
fn read_line_values(row: &Vec<Vec<char>>, kinds: &Vec<FieldKind>, table: &str) -> (r: DbResult<
    Vec<Value>,
>)
    ensures
        ({
            let want = text_values(parts_view(row@), kinds@, table@, kinds@.len() as int);
            match r {
                Ok(vals) => want == Ok::<Seq<ValueModel>, ErrorModel>(row_view(vals@)),
                Err(e) => want == Err::<Seq<ValueModel>, ErrorModel>(e@),
            }
        }),
{
    let n: usize = kinds.len();
    let ghost parts = parts_view(row@);
    let mut vals: Vec<Value> = Vec::new();
    assert(row_view(vals@) =~= Seq::<ValueModel>::empty());
    let mut i: usize = 0;
    while i < n
        invariant
            i <= n,
            n == kinds@.len(),
            parts == parts_view(row@),
            text_values(parts, kinds@, table@, i as int) == Ok::<Seq<ValueModel>, ErrorModel>(
                row_view(vals@),
            ),
        decreases n - i,
    {
        let ghost before = row_view(vals@);
        let next: DbResult<Value> = match col(row, i, table) {
            Err(e) => Err(e),
            Ok(s) => match kinds[i] {
                FieldKind::Small => match parse_i16(s.as_str()) {
                    Ok(v) => Ok(Value::SmallInt(v)),
                    Err(e) => Err(e),
                },
                FieldKind::Int => match parse_i32(s.as_str()) {
                    Ok(v) => Ok(Value::Integer(v)),
                    Err(e) => Err(e),
                },
                FieldKind::Text => Ok(Value::Str(s)),
                FieldKind::Flag => Ok(Value::Bool(same_str(s.as_str(), "Y"))),
            },
        };
        match next {
            Ok(v) => {
                let ghost vv = v@;
                vals.push(v);
                assert(row_view(vals@) =~= before.push(vv));
            }
            Err(e) => {
                proof {
                    lemma_text_error(parts, kinds@, table@, i + 1, n as int);
                }
                return Err(e);
            }
        }
        i += 1;
    }
    Ok(vals)
}

/// An error stays.
proof fn lemma_text_error(
    row: Seq<Seq<char>>,
    kinds: Seq<FieldKind>,
    table: Seq<char>,
    i: int,
    n: int,
)
    requires
        0 <= i <= n,
        text_values(row, kinds, table, i) is Err,
    ensures
        text_values(row, kinds, table, n) == text_values(row, kinds, table, i),
    decreases n - i,
{
    if i < n {
        lemma_text_error(row, kinds, table, i, n - 1);
    }
}

// ── Files of the catalog ──

/// The file of a table of the catalog.
pub enum CatalogFile {
    /// A heap file of rows.
    Rows(HeapFile),
    /// A text, in text mode.
    Text(String),
}

/// The contents of a [`CatalogFile`].
pub enum FileContent {
    Rows(HeapModel),
    Text(Seq<char>),
}

impl View for CatalogFile {
    type V = FileContent;

    open spec fn view(&self) -> FileContent {
        match self {
            CatalogFile::Rows(h) => FileContent::Rows(h@),
            CatalogFile::Text(s) => FileContent::Text(s@),
        }
    }
}

impl CatalogFile {
    /// A heap file is in order.
    pub open spec fn wf(&self) -> bool {
        match self {
            CatalogFile::Rows(h) => h.wf(),
            CatalogFile::Text(_) => true,
        }
    }
}

/// The lines of a text after the first that are not empty.
pub open spec fn data_lines(ls: Seq<Seq<char>>, n: int) -> Seq<Seq<char>>
    decreases n,
{
    if n <= 1 {
        Seq::empty()
    } else {
        let rest = data_lines(ls, n - 1);
        if ls[n - 1].len() == 0 {
            rest
        } else {
            rest.push(ls[n - 1])
        }
    }
}

/// The values of the first `n` of some rows, or the first error.
pub open spec fn rows_values(rows: Seq<(Rid, Seq<u8>)>, kinds: Seq<FieldKind>, n: int) -> Result<
    Seq<Seq<ValueModel>>,
    ErrorModel,
>
    decreases n,
{
    if n <= 0 {
        Ok(Seq::empty())
    } else {
        match rows_values(rows, kinds, n - 1) {
            Err(e) => Err(e),
            Ok(out) => match field_values(rows[n - 1].1, kinds, kinds.len() as int).0 {
                Err(e) => Err(e),
                Ok(vals) => Ok(out.push(vals)),
            },
        }
    }
}

/// The values of the first `n` of some lines, or the first error.
pub open spec fn lines_values(
    ls: Seq<Seq<char>>,
    kinds: Seq<FieldKind>,
    table: Seq<char>,
    n: int,
) -> Result<Seq<Seq<ValueModel>>, ErrorModel>
    decreases n,
{
    if n <= 0 {
        Ok(Seq::empty())
    } else {
        match lines_values(ls, kinds, table, n - 1) {
            Err(e) => Err(e),
            Ok(out) => match text_values(
                split_parts(ls[n - 1], '\t'),
                kinds,
                table,
                kinds.len() as int,
            ) {
                Err(e) => Err(e),
                Ok(vals) => Ok(out.push(vals)),
            },
        }
    }
}

/// The rows of a table of the catalog, or the first thing that is wrong with its file.
pub open spec fn file_values(file: FileContent, kinds: Seq<FieldKind>, table: Seq<char>) -> Result<
    Seq<Seq<ValueModel>>,
    ErrorModel,
> {
    match file {
        FileContent::Rows(h) => match h.scan_error(0) {
            Some(e) => Err(e),
            None => {
                let rows = all_rows(h.pages, h.pages.len() as int);
                rows_values(rows, kinds, rows.len() as int)
            },
        },
        FileContent::Text(t) => {
            let ls = line_seq(t);
            let data = data_lines(ls, ls.len() as int);
            lines_values(data, kinds, table, data.len() as int)
        },
    }
}

/// The rows of a heap file, without their addresses.
pub fn read_binary_rows(heap: &HeapFile) -> (r: DbResult<Vec<(Rid, Vec<u8>)>>)
    requires
        heap.wf(),
    ensures
        match r {
            Ok(rows) => {
                &&& heap@.scan_error(0) is None
                &&& rid_rows(rows@) == all_rows(heap@.pages, heap@.pages.len() as int)
            },
            Err(e) => heap@.scan_error(0) == Some(e@),
        },
{
    heap.scan()
}

/// The lines of a text after the first that are not empty.
pub fn read_text_rows(content: &str) -> (r: Vec<Vec<char>>)
    ensures
        ({
            let ls = line_seq(content@);
            parts_view(r@) == data_lines(ls, ls.len() as int)
        }),
{
    let cs: Vec<char> = chars_of(content);
    let all: Vec<Vec<char>> = lines(cs.as_slice());
    let ghost ls = line_seq(content@);
    let n: usize = all.len();
    proof {
        assert forall|k: int| 0 <= k < n implies ls[k] == (#[trigger] all@[k])@ by {
            assert(all@.map_values(|v: Vec<char>| v@)[k] == all@[k]@);
        }
    }
    let mut out: Vec<Vec<char>> = Vec::new();
    assert(parts_view(out@) =~= Seq::<Seq<char>>::empty());
    if n == 0 {
        return out;
    }
    let mut i: usize = 1;
    while i < n
        invariant
            1 <= i <= n,
            n == all@.len() == ls.len(),
            forall|k: int| 0 <= k < n ==> ls[k] == (#[trigger] all@[k])@,
            parts_view(out@) == data_lines(ls, i as int),
        decreases n - i,
    {
        let line: &Vec<char> = &all[i];
        assert(ls[i as int] == line@);
        if line.len() > 0 {
            let ghost before = parts_view(out@);
            let copy: Vec<char> = char_range(line.as_slice(), 0, line.len());
            assert(copy@ =~= line@);
            out.push(copy);
            assert(parts_view(out@) =~= before.push(line@));
        }
        i += 1;
    }
    out
}

/// The rows of a table of the catalog.
fn read_file(file: &CatalogFile, kinds: &Vec<FieldKind>, table: &str) -> (r: DbResult<
    Vec<Vec<Value>>,
>)
    requires
        file.wf(),
    ensures
        match r {
            Ok(rows) => file_values(file@, kinds@, table@) == Ok::<
                Seq<Seq<ValueModel>>,
                ErrorModel,
            >(rows_view(rows@)),
            Err(e) => file_values(file@, kinds@, table@) == Err::<
                Seq<Seq<ValueModel>>,
                ErrorModel,
            >(e@),
        },
{
    let mut out: Vec<Vec<Value>> = Vec::new();
    assert(rows_view(out@) =~= Seq::<Seq<ValueModel>>::empty());
    match file {
        CatalogFile::Rows(heap) => {
            let rows: Vec<(Rid, Vec<u8>)> = match read_binary_rows(heap) {
                Ok(rows) => rows,
                Err(e) => {
                    return Err(e);
                }
            };
            let ghost model = all_rows(heap@.pages, heap@.pages.len() as int);
            let n: usize = rows.len();
            let mut i: usize = 0;
            while i < n
                invariant
                    i <= n,
                    n == rows@.len() == model.len(),
                    rid_rows(rows@) == model,
                    file@ == FileContent::Rows(heap@),
                    heap@.scan_error(0) is None,
                    model == all_rows(heap@.pages, heap@.pages.len() as int),
                    rows_values(model, kinds@, i as int) == Ok::<
                        Seq<Seq<ValueModel>>,
                        ErrorModel,
                    >(rows_view(out@)),
                decreases n - i,
            {
                let ghost before = rows_view(out@);
                assert(model[i as int] == rid_rows(rows@)[i as int]);
                assert(model[i as int].1 == rows@[i as int].1@);
                match read_fields(rows[i].1.as_slice(), kinds) {
                    Ok(vals) => {
                        let ghost vv = row_view(vals@);
                        out.push(vals);
                        assert(rows_view(out@) =~= before.push(vv));
                    }
                    Err(e) => {
                        proof {
                            lemma_rows_error(model, kinds@, i + 1, n as int);
                        }
                        return Err(e);
                    }
                }
                i += 1;
            }
        }
        CatalogFile::Text(content) => {
            let data: Vec<Vec<char>> = read_text_rows(content.as_str());
            let ghost model = parts_view(data@);
            let n: usize = data.len();
            let mut i: usize = 0;
            while i < n
                invariant
                    i <= n,
                    n == data@.len() == model.len(),
                    model == parts_view(data@),
                    file@ == FileContent::Text(content@),
                    model == data_lines(line_seq(content@), line_seq(content@).len() as int),
                    lines_values(model, kinds@, table@, i as int) == Ok::<
                        Seq<Seq<ValueModel>>,
                        ErrorModel,
                    >(rows_view(out@)),
                decreases n - i,
            {
                let ghost before = rows_view(out@);
                assert(model[i as int] == data@[i as int]@);
                let parts: Vec<Vec<char>> = split(data[i].as_slice(), '\t');
                match read_line_values(&parts, kinds, table) {
                    Ok(vals) => {
                        let ghost vv = row_view(vals@);
                        out.push(vals);
                        assert(rows_view(out@) =~= before.push(vv));
                    }
                    Err(e) => {
                        proof {
                            lemma_lines_error(model, kinds@, table@, i + 1, n as int);
                        }
                        return Err(e);
                    }
                }
                i += 1;
            }
        }
    }
    Ok(out)
}

proof fn lemma_rows_error(rows: Seq<(Rid, Seq<u8>)>, kinds: Seq<FieldKind>, i: int, n: int)
    requires
        0 <= i <= n,
        rows_values(rows, kinds, i) is Err,
    ensures
        rows_values(rows, kinds, n) == rows_values(rows, kinds, i),
    decreases n - i,
{
    if i < n {
        lemma_rows_error(rows, kinds, i, n - 1);
    }
}

proof fn lemma_lines_error(
    ls: Seq<Seq<char>>,
    kinds: Seq<FieldKind>,
    table: Seq<char>,
    i: int,
    n: int,
)
    requires
        0 <= i <= n,
        lines_values(ls, kinds, table, i) is Err,
    ensures
        lines_values(ls, kinds, table, n) == lines_values(ls, kinds, table, i),
    decreases n - i,
{
    if i < n {
        lemma_lines_error(ls, kinds, table, i, n - 1);
    }
}

// ── The tables of the catalog ──

/// Whether a value is of a kind.
pub open spec fn is_kind(v: ValueModel, kind: FieldKind) -> bool {
    match kind {
        FieldKind::Small => v is SmallInt,
        FieldKind::Int => v is Integer,
        FieldKind::Text => v is Str,
        FieldKind::Flag => v is Bool,
    }
}

/// Whether a row has values of some kinds.
pub open spec fn has_kinds(row: Seq<ValueModel>, kinds: Seq<FieldKind>) -> bool {
    &&& row.len() == kinds.len()
    &&& forall|i: int| 0 <= i < row.len() ==> is_kind(#[trigger] row[i], kinds[i])
}

proof fn lemma_field_kinds(data: Seq<u8>, kinds: Seq<FieldKind>, n: int)
    requires
        0 <= n <= kinds.len(),
        field_values(data, kinds, n).0 is Ok,
    ensures
        has_kinds(field_values(data, kinds, n).0->Ok_0, kinds.subrange(0, n)),
    decreases n,
{
    if n > 0 {
        lemma_field_kinds(data, kinds, n - 1);
        let vals = field_values(data, kinds, n).0->Ok_0;
        let rest = field_values(data, kinds, n - 1).0->Ok_0;
        assert forall|i: int| 0 <= i < vals.len() implies is_kind(
            #[trigger] vals[i],
            kinds.subrange(0, n)[i],
        ) by {
            if i < n - 1 {
                assert(is_kind(rest[i], kinds.subrange(0, n - 1)[i]));
            }
        }
    }
}

proof fn lemma_text_kinds(
    row: Seq<Seq<char>>,
    kinds: Seq<FieldKind>,
    table: Seq<char>,
    n: int,
)
    requires
        0 <= n <= kinds.len(),
        text_values(row, kinds, table, n) is Ok,
    ensures
        has_kinds(text_values(row, kinds, table, n)->Ok_0, kinds.subrange(0, n)),
    decreases n,
{
    if n > 0 {
        lemma_text_kinds(row, kinds, table, n - 1);
        let vals = text_values(row, kinds, table, n)->Ok_0;
        let rest = text_values(row, kinds, table, n - 1)->Ok_0;
        assert forall|i: int| 0 <= i < vals.len() implies is_kind(
            #[trigger] vals[i],
            kinds.subrange(0, n)[i],
        ) by {
            if i < n - 1 {
                assert(is_kind(rest[i], kinds.subrange(0, n - 1)[i]));
            }
        }
    }
}

proof fn lemma_rows_kinds(rows: Seq<(Rid, Seq<u8>)>, kinds: Seq<FieldKind>, n: int)
    requires
        rows_values(rows, kinds, n) is Ok,
    ensures
        forall|k: int|
            0 <= k < rows_values(rows, kinds, n)->Ok_0.len() ==> has_kinds(
                #[trigger] rows_values(rows, kinds, n)->Ok_0[k],
                kinds,
            ),
    decreases n,
{
    if n > 0 {
        lemma_rows_kinds(rows, kinds, n - 1);
        lemma_field_kinds(rows[n - 1].1, kinds, kinds.len() as int);
        assert(kinds.subrange(0, kinds.len() as int) =~= kinds);
    }
}

proof fn lemma_lines_kinds(
    ls: Seq<Seq<char>>,
    kinds: Seq<FieldKind>,
    table: Seq<char>,
    n: int,
)
    requires
        lines_values(ls, kinds, table, n) is Ok,
    ensures
        forall|k: int|
            0 <= k < lines_values(ls, kinds, table, n)->Ok_0.len() ==> has_kinds(
                #[trigger] lines_values(ls, kinds, table, n)->Ok_0[k],
                kinds,
            ),
    decreases n,
{
    if n > 0 {
        lemma_lines_kinds(ls, kinds, table, n - 1);
        lemma_text_kinds(split_parts(ls[n - 1], '\t'), kinds, table, kinds.len() as int);
        assert(kinds.subrange(0, kinds.len() as int) =~= kinds);
    }
}

/// The rows of a file have values of the kinds that were asked for.
pub proof fn lemma_file_kinds(file: FileContent, kinds: Seq<FieldKind>, table: Seq<char>)
    requires
        file_values(file, kinds, table) is Ok,
    ensures
        forall|k: int|
            0 <= k < file_values(file, kinds, table)->Ok_0.len() ==> has_kinds(
                #[trigger] file_values(file, kinds, table)->Ok_0[k],
                kinds,
            ),
{
    match file {
        FileContent::Rows(h) => {
            let rows = all_rows(h.pages, h.pages.len() as int);
            lemma_rows_kinds(rows, kinds, rows.len() as int);
        },
        FileContent::Text(t) => {
            let ls = line_seq(t);
            let data = data_lines(ls, ls.len() as int);
            lemma_lines_kinds(data, kinds, table, data.len() as int);
        },
    }
}

/// The fields of `SYSTABLESPACES`.
pub open spec fn tablespace_kinds() -> Seq<FieldKind> {
    seq![
        FieldKind::Int,
        FieldKind::Text,
        FieldKind::Text,
        FieldKind::Text,
        FieldKind::Int,
        FieldKind::Text,
        FieldKind::Int,
    ]
}

/// The fields of `SYSSCHEMAS`.
pub open spec fn schema_kinds() -> Seq<FieldKind> {
    seq![FieldKind::Text]
}

/// The fields of `SYSTABLES`.
pub open spec fn table_kinds() -> Seq<FieldKind> {
    seq![
        FieldKind::Int,
        FieldKind::Text,
        FieldKind::Text,
        FieldKind::Small,
        FieldKind::Small,
    ]
}

/// The fields of `SYSCOLUMNS`.
pub open spec fn column_kinds() -> Seq<FieldKind> {
    seq![
        FieldKind::Text,
        FieldKind::Text,
        FieldKind::Text,
        FieldKind::Small,
        FieldKind::Text,
        FieldKind::Flag,
    ]
}

/// The fields of `SYSBUFFERPOOLS`.
pub open spec fn bufferpool_kinds() -> Seq<FieldKind> {
    seq![FieldKind::Int, FieldKind::Text, FieldKind::Int, FieldKind::Int]
}

/// A row of `SYSTABLESPACES`.
pub open spec fn tablespace_def(row: Seq<ValueModel>) -> TablespaceDef {
    TablespaceDef {
        tbspaceid: row[0]->Integer_0,
        tbspace: row[1]->Str_0,
        tbspacetype: row[2]->Str_0,
        datatype: row[3]->Str_0,
        pagesize: row[4]->Integer_0,
        state: row[5]->Str_0,
        bufferpoolid: row[6]->Integer_0,
    }
}

/// A row of `SYSTABLES`.
pub open spec fn table_def(row: Seq<ValueModel>) -> TableDef {
    TableDef {
        tableid: row[0]->Integer_0,
        name: row[1]->Str_0,
        schemaname: row[2]->Str_0,
        tbspaceid: row[3]->SmallInt_0,
        colcount: row[4]->SmallInt_0,
    }
}

/// A row of `SYSCOLUMNS`.
pub open spec fn column_def(row: Seq<ValueModel>) -> ColumnDef {
    ColumnDef {
        name: row[0]->Str_0,
        tabname: row[1]->Str_0,
        schemaname: row[2]->Str_0,
        ordinal: row[3]->SmallInt_0,
        typename: row[4]->Str_0,
        nullable: row[5]->Bool_0,
    }
}

/// A row of `SYSBUFFERPOOLS`.
pub open spec fn bufferpool_def(row: Seq<ValueModel>) -> BufferPoolDef {
    BufferPoolDef {
        bpid: row[0]->Integer_0,
        bpname: row[1]->Str_0,
        pagesize: row[2]->Integer_0,
        npages: row[3]->Integer_0,
    }
}

fn take_int(v: &Value) -> (r: i32)
    requires
        v@ is Integer,
    ensures
        r == v@->Integer_0,
{
    match v {
        Value::Integer(n) => *n,
        _ => 0,
    }
}

fn take_small(v: &Value) -> (r: i16)
    requires
        v@ is SmallInt,
    ensures
        r == v@->SmallInt_0,
{
    match v {
        Value::SmallInt(n) => *n,
        _ => 0,
    }
}

fn take_text(v: &Value) -> (r: String)
    requires
        v@ is Str,
    ensures
        r@ == v@->Str_0,
{
    match v {
        Value::Str(s) => s.clone(),
        _ => String::new(),
    }
}

fn take_flag(v: &Value) -> (r: bool)
    requires
        v@ is Bool,
    ensures
        r == v@->Bool_0,
{
    match v {
        Value::Bool(b) => *b,
        _ => false,
    }
}

/// The tablespaces in a file.
pub open spec fn tablespaces_in(file: FileContent) -> Result<Seq<TablespaceDef>, ErrorModel> {
    match file_values(file, tablespace_kinds(), "SYSTABLESPACES"@) {
        Ok(rows) => Ok(Seq::new(rows.len(), |i: int| tablespace_def(rows[i]))),
        Err(e) => Err(e),
    }
}

/// The schemas in a file.
pub open spec fn schemas_in(file: FileContent) -> Result<Seq<Seq<char>>, ErrorModel> {
    match file_values(file, schema_kinds(), "SYSSCHEMAS"@) {
        Ok(rows) => Ok(Seq::new(rows.len(), |i: int| rows[i][0]->Str_0)),
        Err(e) => Err(e),
    }
}

/// The tables in a file.
pub open spec fn tables_in(file: FileContent) -> Result<Seq<TableDef>, ErrorModel> {
    match file_values(file, table_kinds(), "SYSTABLES"@) {
        Ok(rows) => Ok(Seq::new(rows.len(), |i: int| table_def(rows[i]))),
        Err(e) => Err(e),
    }
}

/// The columns in a file.
pub open spec fn columns_in(file: FileContent) -> Result<Seq<ColumnDef>, ErrorModel> {
    match file_values(file, column_kinds(), "SYSCOLUMNS"@) {
        Ok(rows) => Ok(Seq::new(rows.len(), |i: int| column_def(rows[i]))),
        Err(e) => Err(e),
    }
}

/// The buffer pools in a file.
pub open spec fn bufferpools_in(file: FileContent) -> Result<Seq<BufferPoolDef>, ErrorModel> {
    match file_values(file, bufferpool_kinds(), "SYSBUFFERPOOLS"@) {
        Ok(rows) => Ok(Seq::new(rows.len(), |i: int| bufferpool_def(rows[i]))),
        Err(e) => Err(e),
    }
}

/// Reads the tablespaces.
pub fn load_tablespaces(file: &CatalogFile) -> (r: DbResult<Vec<Tablespace>>)
    requires
        file.wf(),
    ensures
        match r {
            Ok(v) => tablespaces_in(file@) == Ok::<Seq<TablespaceDef>, ErrorModel>(
                Seq::new(v@.len(), |i: int| v@[i]@),
            ),
            Err(e) => tablespaces_in(file@) == Err::<Seq<TablespaceDef>, ErrorModel>(e@),
        },
{
    let kinds: Vec<FieldKind> = vec![
        FieldKind::Int,
        FieldKind::Text,
        FieldKind::Text,
        FieldKind::Text,
        FieldKind::Int,
        FieldKind::Text,
        FieldKind::Int,
    ];
    assert(kinds@ =~= tablespace_kinds());
    let rows: Vec<Vec<Value>> = match read_file(file, &kinds, "SYSTABLESPACES") {
        Ok(rows) => rows,
        Err(e) => {
            return Err(e);
        }
    };
    let ghost model = rows_view(rows@);
    proof {
        lemma_file_kinds(file@, kinds@, "SYSTABLESPACES"@);
    }
    let n: usize = rows.len();
    let mut out: Vec<Tablespace> = Vec::new();
    let mut i: usize = 0;
    while i < n
        invariant
            i <= n,
            n == rows@.len() == model.len(),
            model == rows_view(rows@),
            forall|k: int| 0 <= k < n ==> has_kinds(#[trigger] model[k], tablespace_kinds()),
            out@.len() == i,
            forall|k: int| 0 <= k < i ==> (#[trigger] out@[k])@ == tablespace_def(model[k]),
        decreases n - i,
    {
        let row: &Vec<Value> = &rows[i];
        proof {
            let m = model[i as int];
            assert(m == row_view(row@));
            assert(has_kinds(m, tablespace_kinds()));
            assert(is_kind(m[0], FieldKind::Int) && is_kind(m[1], FieldKind::Text) && is_kind(
                m[2],
                FieldKind::Text,
            ) && is_kind(m[3], FieldKind::Text) && is_kind(m[4], FieldKind::Int) && is_kind(
                m[5],
                FieldKind::Text,
            ) && is_kind(m[6], FieldKind::Int));
        }
        out.push(
            Tablespace {
                tbspaceid: take_int(&row[0]),
                tbspace: take_text(&row[1]),
                tbspacetype: take_text(&row[2]),
                datatype: take_text(&row[3]),
                pagesize: take_int(&row[4]),
                state: take_text(&row[5]),
                bufferpoolid: take_int(&row[6]),
            },
        );
        i += 1;
    }
    assert(Seq::new(out@.len(), |i: int| out@[i]@) =~= Seq::new(
        model.len(),
        |i: int| tablespace_def(model[i]),
    ));
    Ok(out)
}

/// Reads the schemas.
pub fn load_schemas(file: &CatalogFile) -> (r: DbResult<Vec<Schema>>)
    requires
        file.wf(),
    ensures
        match r {
            Ok(v) => schemas_in(file@) == Ok::<Seq<Seq<char>>, ErrorModel>(
                Seq::new(v@.len(), |i: int| v@[i]@),
            ),
            Err(e) => schemas_in(file@) == Err::<Seq<Seq<char>>, ErrorModel>(e@),
        },
{
    let kinds: Vec<FieldKind> = vec![FieldKind::Text];
    assert(kinds@ =~= schema_kinds());
    let rows: Vec<Vec<Value>> = match read_file(file, &kinds, "SYSSCHEMAS") {
        Ok(rows) => rows,
        Err(e) => {
            return Err(e);
        }
    };
    let ghost model = rows_view(rows@);
    proof {
        lemma_file_kinds(file@, kinds@, "SYSSCHEMAS"@);
    }
    let n: usize = rows.len();
    let mut out: Vec<Schema> = Vec::new();
    let mut i: usize = 0;
    while i < n
        invariant
            i <= n,
            n == rows@.len() == model.len(),
            model == rows_view(rows@),
            forall|k: int| 0 <= k < n ==> has_kinds(#[trigger] model[k], schema_kinds()),
            out@.len() == i,
            forall|k: int| 0 <= k < i ==> (#[trigger] out@[k])@ == model[k][0]->Str_0,
        decreases n - i,
    {
        let row: &Vec<Value> = &rows[i];
        proof {
            let m = model[i as int];
            assert(m == row_view(row@));
            assert(is_kind(m[0], FieldKind::Text));
        }
        out.push(Schema { name: take_text(&row[0]) });
        i += 1;
    }
    assert(Seq::new(out@.len(), |i: int| out@[i]@) =~= Seq::new(
        model.len(),
        |i: int| model[i][0]->Str_0,
    ));
    Ok(out)
}

/// Reads the tables.
pub fn load_tables(file: &CatalogFile) -> (r: DbResult<Vec<Table>>)
    requires
        file.wf(),
    ensures
        match r {
            Ok(v) => tables_in(file@) == Ok::<Seq<TableDef>, ErrorModel>(
                Seq::new(v@.len(), |i: int| v@[i]@),
            ),
            Err(e) => tables_in(file@) == Err::<Seq<TableDef>, ErrorModel>(e@),
        },
{
    let kinds: Vec<FieldKind> = vec![
        FieldKind::Int,
        FieldKind::Text,
        FieldKind::Text,
        FieldKind::Small,
        FieldKind::Small,
    ];
    assert(kinds@ =~= table_kinds());
    let rows: Vec<Vec<Value>> = match read_file(file, &kinds, "SYSTABLES") {
        Ok(rows) => rows,
        Err(e) => {
            return Err(e);
        }
    };
    let ghost model = rows_view(rows@);
    proof {
        lemma_file_kinds(file@, kinds@, "SYSTABLES"@);
    }
    let n: usize = rows.len();
    let mut out: Vec<Table> = Vec::new();
    let mut i: usize = 0;
    while i < n
        invariant
            i <= n,
            n == rows@.len() == model.len(),
            model == rows_view(rows@),
            forall|k: int| 0 <= k < n ==> has_kinds(#[trigger] model[k], table_kinds()),
            out@.len() == i,
            forall|k: int| 0 <= k < i ==> (#[trigger] out@[k])@ == table_def(model[k]),
        decreases n - i,
    {
        let row: &Vec<Value> = &rows[i];
        proof {
            let m = model[i as int];
            assert(m == row_view(row@));
            assert(is_kind(m[0], FieldKind::Int) && is_kind(m[1], FieldKind::Text) && is_kind(
                m[2],
                FieldKind::Text,
            ) && is_kind(m[3], FieldKind::Small) && is_kind(m[4], FieldKind::Small));
        }
        out.push(
            Table {
                tableid: take_int(&row[0]),
                name: take_text(&row[1]),
                schemaname: take_text(&row[2]),
                tbspaceid: take_small(&row[3]),
                colcount: take_small(&row[4]),
            },
        );
        i += 1;
    }
    assert(Seq::new(out@.len(), |i: int| out@[i]@) =~= Seq::new(
        model.len(),
        |i: int| table_def(model[i]),
    ));
    Ok(out)
}

/// Reads the columns.
pub fn load_columns(file: &CatalogFile) -> (r: DbResult<Vec<Column>>)
    requires
        file.wf(),
    ensures
        match r {
            Ok(v) => columns_in(file@) == Ok::<Seq<ColumnDef>, ErrorModel>(columns_view(v@)),
            Err(e) => columns_in(file@) == Err::<Seq<ColumnDef>, ErrorModel>(e@),
        },
{
    let kinds: Vec<FieldKind> = vec![
        FieldKind::Text,
        FieldKind::Text,
        FieldKind::Text,
        FieldKind::Small,
        FieldKind::Text,
        FieldKind::Flag,
    ];
    assert(kinds@ =~= column_kinds());
    let rows: Vec<Vec<Value>> = match read_file(file, &kinds, "SYSCOLUMNS") {
        Ok(rows) => rows,
        Err(e) => {
            return Err(e);
        }
    };
    let ghost model = rows_view(rows@);
    proof {
        lemma_file_kinds(file@, kinds@, "SYSCOLUMNS"@);
    }
    let n: usize = rows.len();
    let mut out: Vec<Column> = Vec::new();
    let mut i: usize = 0;
    while i < n
        invariant
            i <= n,
            n == rows@.len() == model.len(),
            model == rows_view(rows@),
            forall|k: int| 0 <= k < n ==> has_kinds(#[trigger] model[k], column_kinds()),
            out@.len() == i,
            forall|k: int| 0 <= k < i ==> (#[trigger] out@[k])@ == column_def(model[k]),
        decreases n - i,
    {
        let row: &Vec<Value> = &rows[i];
        proof {
            let m = model[i as int];
            assert(m == row_view(row@));
            assert(is_kind(m[0], FieldKind::Text) && is_kind(m[1], FieldKind::Text) && is_kind(
                m[2],
                FieldKind::Text,
            ) && is_kind(m[3], FieldKind::Small) && is_kind(m[4], FieldKind::Text) && is_kind(
                m[5],
                FieldKind::Flag,
            ));
        }
        out.push(
            Column {
                name: take_text(&row[0]),
                tabname: take_text(&row[1]),
                schemaname: take_text(&row[2]),
                ordinal: take_small(&row[3]),
                typename: take_text(&row[4]),
                nullable: take_flag(&row[5]),
            },
        );
        i += 1;
    }
    assert(columns_view(out@) =~= Seq::new(model.len(), |i: int| column_def(model[i])));
    Ok(out)
}

/// Reads the buffer pools.
pub fn load_bufferpools(file: &CatalogFile) -> (r: DbResult<Vec<BufferPool>>)
    requires
        file.wf(),
    ensures
        match r {
            Ok(v) => bufferpools_in(file@) == Ok::<Seq<BufferPoolDef>, ErrorModel>(
                Seq::new(v@.len(), |i: int| v@[i]@),
            ),
            Err(e) => bufferpools_in(file@) == Err::<Seq<BufferPoolDef>, ErrorModel>(e@),
        },
{
    let kinds: Vec<FieldKind> = vec![
        FieldKind::Int,
        FieldKind::Text,
        FieldKind::Int,
        FieldKind::Int,
    ];
    assert(kinds@ =~= bufferpool_kinds());
    let rows: Vec<Vec<Value>> = match read_file(file, &kinds, "SYSBUFFERPOOLS") {
        Ok(rows) => rows,
        Err(e) => {
            return Err(e);
        }
    };
    let ghost model = rows_view(rows@);
    proof {
        lemma_file_kinds(file@, kinds@, "SYSBUFFERPOOLS"@);
    }
    let n: usize = rows.len();
    let mut out: Vec<BufferPool> = Vec::new();
    let mut i: usize = 0;
    while i < n
        invariant
            i <= n,
            n == rows@.len() == model.len(),
            model == rows_view(rows@),
            forall|k: int| 0 <= k < n ==> has_kinds(#[trigger] model[k], bufferpool_kinds()),
            out@.len() == i,
            forall|k: int| 0 <= k < i ==> (#[trigger] out@[k])@ == bufferpool_def(model[k]),
        decreases n - i,
    {
        let row: &Vec<Value> = &rows[i];
        proof {
            let m = model[i as int];
            assert(m == row_view(row@));
            assert(is_kind(m[0], FieldKind::Int) && is_kind(m[1], FieldKind::Text) && is_kind(
                m[2],
                FieldKind::Int,
            ) && is_kind(m[3], FieldKind::Int));
        }
        out.push(
            BufferPool {
                bpid: take_int(&row[0]),
                bpname: take_text(&row[1]),
                pagesize: take_int(&row[2]),
                npages: take_int(&row[3]),
            },
        );
        i += 1;
    }
    assert(Seq::new(out@.len(), |i: int| out@[i]@) =~= Seq::new(
        model.len(),
        |i: int| bufferpool_def(model[i]),
    ));
    Ok(out)
}

/// The files of the catalog.
pub struct CatalogFiles {
    pub tablespaces: CatalogFile,
    pub schemas: CatalogFile,
    pub tables: CatalogFile,
    pub columns: CatalogFile,
    pub bufferpools: CatalogFile,
}

impl CatalogFiles {
    pub open spec fn wf(&self) -> bool {
        &&& self.tablespaces.wf()
        &&& self.schemas.wf()
        &&& self.tables.wf()
        &&& self.columns.wf()
        &&& self.bufferpools.wf()
    }

    /// The catalog in the files, or the first thing that is wrong with them.
    pub open spec fn catalog(&self) -> Result<CatalogDef, ErrorModel> {
        catalog_in(
            self.tablespaces@,
            self.schemas@,
            self.tables@,
            self.columns@,
            self.bufferpools@,
        )
    }
}

/// The catalog in some files, or the first thing that is wrong with them.
pub open spec fn catalog_in(
    tablespaces: FileContent,
    schemas: FileContent,
    tables: FileContent,
    columns: FileContent,
    bufferpools: FileContent,
) -> Result<CatalogDef, ErrorModel> {
    match tablespaces_in(tablespaces) {
        Err(e) => Err(e),
        Ok(tablespaces) => match schemas_in(schemas) {
            Err(e) => Err(e),
            Ok(schemas) => match tables_in(tables) {
                Err(e) => Err(e),
                Ok(tables) => match columns_in(columns) {
                    Err(e) => Err(e),
                    Ok(columns) => match bufferpools_in(bufferpools) {
                        Err(e) => Err(e),
                        Ok(bufferpools) => Ok(
                            CatalogDef { tablespaces, schemas, tables, columns, bufferpools },
                        ),
                    },
                },
            },
        },
    }
}

/// Reads the catalog.
pub fn load_catalog(files: &CatalogFiles) -> (r: DbResult<Catalog>)
    requires
        files.wf(),
    ensures
        match r {
            Ok(c) => files.catalog() == Ok::<CatalogDef, ErrorModel>(c@),
            Err(e) => files.catalog() == Err::<CatalogDef, ErrorModel>(e@),
        },
{
    let tablespaces: Vec<Tablespace> = match load_tablespaces(&files.tablespaces) {
        Ok(v) => v,
        Err(e) => {
            return Err(e);
        }
    };
    let schemas: Vec<Schema> = match load_schemas(&files.schemas) {
        Ok(v) => v,
        Err(e) => {
            return Err(e);
        }
    };
    let tables: Vec<Table> = match load_tables(&files.tables) {
        Ok(v) => v,
        Err(e) => {
            return Err(e);
        }
    };
    let columns: Vec<Column> = match load_columns(&files.columns) {
        Ok(v) => v,
        Err(e) => {
            return Err(e);
        }
    };
    let bufferpools: Vec<BufferPool> = match load_bufferpools(&files.bufferpools) {
        Ok(v) => v,
        Err(e) => {
            return Err(e);
        }
    };
    Ok(Catalog { tablespaces, schemas, tables, columns, bufferpools })
}

} // verus!
