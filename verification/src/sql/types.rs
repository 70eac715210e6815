//! Values, result sets and table names.

use vstd::prelude::*;
use vstd::string::StringExecFns;
use vstd::utf8::encode_utf8;
use crate::error::DbResult;
use crate::text::{chars_of, decimal, decimal_signed, digits10, int_text, to_uppercase, uppercase};

verus! {

/// A value in a row.
#[derive(Debug, Clone, PartialEq)]
pub enum Value {
    SmallInt(i16),
    Integer(i32),
    BigInt(i64),
    Str(String),
    Bool(bool),
    Null,
}

/// The contents of a [`Value`].
pub enum ValueModel {
    SmallInt(i16),
    Integer(i32),
    BigInt(i64),
    Str(Seq<char>),
    Bool(bool),
    Null,
}

impl View for Value {
    type V = ValueModel;

    open spec fn view(&self) -> ValueModel {
        match self {
            Value::SmallInt(v) => ValueModel::SmallInt(*v),
            Value::Integer(v) => ValueModel::Integer(*v),
            Value::BigInt(v) => ValueModel::BigInt(*v),
            Value::Str(v) => ValueModel::Str(v@),
            Value::Bool(v) => ValueModel::Bool(*v),
            Value::Null => ValueModel::Null,
        }
    }
}

impl ValueModel {
    /// The value as it is shown.
    pub open spec fn text(self) -> Seq<char> {
        match self {
            ValueModel::SmallInt(v) => int_text(v as int),
            ValueModel::Integer(v) => int_text(v as int),
            ValueModel::BigInt(v) => int_text(v as int),
            ValueModel::Str(v) => v,
            ValueModel::Bool(v) => if v {
                "Y"@
            } else {
                "N"@
            },
            ValueModel::Null => "NULL"@,
        }
    }

    /// The number that a value is, if it is one.
    pub open spec fn number(self) -> Option<int> {
        match self {
            ValueModel::SmallInt(v) => Some(v as int),
            ValueModel::Integer(v) => Some(v as int),
            ValueModel::BigInt(v) => Some(v as int),
            _ => None,
        }
    }
}

impl Value {
    /// The value as it is shown.
    pub fn to_string(&self) -> (r: String)
        ensures
            r@ == self@.text(),
    {
        match self {
            Value::SmallInt(v) => decimal_signed(*v as i64),
            Value::Integer(v) => decimal_signed(*v as i64),
            Value::BigInt(v) => decimal_signed(*v),
            Value::Str(v) => v.clone(),
            Value::Bool(v) => {
                if *v {
                    "Y".to_owned()
                } else {
                    "N".to_owned()
                }
            }
            Value::Null => "NULL".to_owned(),
        }
    }

    /// A copy of the value.
    pub fn copy(&self) -> (r: Self)
        ensures
            r@ == self@,
    {
        match self {
            Value::SmallInt(v) => Value::SmallInt(*v),
            Value::Integer(v) => Value::Integer(*v),
            Value::BigInt(v) => Value::BigInt(*v),
            Value::Str(v) => Value::Str(v.clone()),
            Value::Bool(v) => Value::Bool(*v),
            Value::Null => Value::Null,
        }
    }
}

/// The contents of a row.
pub open spec fn row_view(row: Seq<Value>) -> Seq<ValueModel> {
    Seq::new(row.len(), |i: int| row[i]@)
}

/// The rows that a statement gives, under the names of their columns.
#[derive(Debug)]
pub struct ResultSet {
    pub columns: Vec<String>,
    pub rows: Vec<Vec<Value>>,
}

/// The contents of a [`ResultSet`].
pub struct ResultModel {
    pub columns: Seq<Seq<char>>,
    pub rows: Seq<Seq<ValueModel>>,
}

/// The contents of some names.
pub open spec fn names_view(v: Seq<String>) -> Seq<Seq<char>> {
    Seq::new(v.len(), |i: int| v[i]@)
}

/// The contents of some rows.
pub open spec fn rows_view(v: Seq<Vec<Value>>) -> Seq<Seq<ValueModel>> {
    Seq::new(v.len(), |i: int| row_view(v[i]@))
}

impl View for ResultSet {
    type V = ResultModel;

    open spec fn view(&self) -> ResultModel {
        ResultModel { columns: names_view(self.columns@), rows: rows_view(self.rows@) }
    }
}

/// The larger of two lengths.
pub open spec fn longer(a: nat, b: nat) -> nat {
    if a < b {
        b
    } else {
        a
    }
}

/// The width of column `i` over the first `n` rows, in bytes: that of the longest of its name and
/// its values.
pub open spec fn width(m: ResultModel, i: int, n: int) -> nat
    decreases n,
{
    if n <= 0 {
        encode_utf8(m.columns[i]).len()
    } else {
        let rest = width(m, i, n - 1);
        if i < m.rows[n - 1].len() {
            longer(rest, encode_utf8(m.rows[n - 1][i].text()).len())
        } else {
            rest
        }
    }
}

/// `n` times `c`.
pub open spec fn repeated(c: char, n: int) -> Seq<char> {
    Seq::new(
        if n > 0 {
            n as nat
        } else {
            0
        },
        |i: int| c,
    )
}

/// The first `n` texts, with two spaces between them.
pub open spec fn spaced(parts: Seq<Seq<char>>, n: int) -> Seq<char>
    decreases n,
{
    if n <= 0 {
        Seq::empty()
    } else if n == 1 {
        parts[0]
    } else {
        spaced(parts, n - 1) + "  "@ + parts[n - 1]
    }
}

/// The names of the columns, filled up with spaces to the widths of the columns.
pub open spec fn header_parts(m: ResultModel) -> Seq<Seq<char>> {
    Seq::new(
        m.columns.len(),
        |i: int|
            m.columns[i] + repeated(
                ' ',
                width(m, i, m.rows.len() as int) - m.columns[i].len(),
            ),
    )
}

/// A rule under each column.
pub open spec fn rule_parts(m: ResultModel) -> Seq<Seq<char>> {
    Seq::new(m.columns.len(), |i: int| repeated('-', width(m, i, m.rows.len() as int) as int))
}

/// The values of a row as they are shown.
pub open spec fn row_parts(row: Seq<ValueModel>) -> Seq<Seq<char>> {
    Seq::new(row.len(), |i: int| row[i].text())
}

/// The first `n` rows, a line each.
pub open spec fn row_lines(m: ResultModel, n: int) -> Seq<char>
    decreases n,
{
    if n <= 0 {
        Seq::empty()
    } else {
        row_lines(m, n - 1) + spaced(
            row_parts(m.rows[n - 1]),
            m.rows[n - 1].len() as int,
        ).push('\n')
    }
}

/// A result set as it is shown: the names of the columns, a rule, the rows, and their number.
pub open spec fn shown(m: ResultModel) -> Seq<char> {
    if m.columns.len() == 0 {
        "(empty result set)"@
    } else {
        let n = m.columns.len() as int;
        spaced(header_parts(m), n).push('\n') + spaced(rule_parts(m), n).push('\n') + row_lines(
            m,
            m.rows.len() as int,
        ) + "\n("@ + digits10(m.rows.len()) + " row"@ + (if m.rows.len() == 1 {
            ""@
        } else {
            "s"@
        }) + ")"@
    }
}

/// Appends `n` times `c` to `out`.
fn push_repeated(out: &mut String, c: char, n: usize)
    ensures
        final(out)@ == old(out)@ + repeated(c, n as int),
{
    let mut i: usize = 0;
    assert(out@ =~= out@ + repeated(c, 0));
    while i < n
        invariant
            i <= n,
            out@ == old(out)@ + repeated(c, i as int),
        decreases n - i,
    {
        out.push(c);
        i += 1;
        assert(out@ =~= old(out)@ + repeated(c, i as int));
    }
}

/// The number of characters of a text.
fn char_count(s: &str) -> (r: usize)
    ensures
        r == s@.len(),
{
    chars_of(s).len()
}

impl ResultSet {
    /// The widths of the columns.
    fn widths(&self) -> (r: Vec<usize>)
        requires
            forall|k: int|
                0 <= k < self.rows@.len() ==> (#[trigger] self.rows@[k])@.len()
                    <= self.columns@.len(),
        ensures
            r@.len() == self.columns@.len(),
            forall|i: int|
                0 <= i < r@.len() ==> #[trigger] r@[i] == width(
                    self@,
                    i,
                    self.rows@.len() as int,
                ),
    {
        let n: usize = self.columns.len();
        let mut w: Vec<usize> = Vec::new();
        let mut i: usize = 0;
        while i < n
            invariant
                i <= n,
                n == self.columns@.len(),
                w@.len() == i,
                forall|j: int| 0 <= j < i ==> #[trigger] w@[j] == width(self@, j, 0),
            decreases n - i,
        {
            let bytes: &[u8] = self.columns[i].as_str().as_bytes();
            w.push(bytes.len());
            assert(self@.columns[i as int] == self.columns@[i as int]@);
            i += 1;
        }
        let rows: usize = self.rows.len();
        let mut k: usize = 0;
        while k < rows
            invariant
                k <= rows,
                rows == self.rows@.len(),
                n == self.columns@.len() == w@.len(),
                forall|q: int|
                    0 <= q < self.rows@.len() ==> (#[trigger] self.rows@[q])@.len()
                        <= self.columns@.len(),
                forall|j: int| 0 <= j < n ==> #[trigger] w@[j] == width(self@, j, k as int),
            decreases rows - k,
        {
            let row: &Vec<Value> = &self.rows[k];
            let m: usize = row.len();
            assert(self@.rows[k as int] == row_view(self.rows@[k as int]@));
            let mut i: usize = 0;
            while i < m
                invariant
                    i <= m <= n,
                    k < rows,
                    rows == self.rows@.len(),
                    row@ == self.rows@[k as int]@,
                    m == row@.len(),
                    self@.rows[k as int] == row_view(row@),
                    n == self.columns@.len() == w@.len(),
                    forall|j: int|
                        0 <= j < n ==> #[trigger] w@[j] == if j < i {
                            width(self@, j, k + 1)
                        } else {
                            width(self@, j, k as int)
                        },
                decreases m - i,
            {
                let text: String = row[i].to_string();
                let len: usize = text.as_str().as_bytes().len();
                assert(self@.rows[k as int][i as int] == row@[i as int]@);
                if len > w[i] {
                    w.set(i, len);
                }
                i += 1;
            }
            k += 1;
        }
        w
    }

    /// The result set as a table.
    pub fn display(&self) -> (r: String)
        requires
            forall|k: int|
                0 <= k < self.rows@.len() ==> (#[trigger] self.rows@[k])@.len()
                    <= self.columns@.len(),
        ensures
            r@ == shown(self@),
    {
        let n: usize = self.columns.len();
        if n == 0 {
            return "(empty result set)".to_owned();
        }
        let w: Vec<usize> = self.widths();
        let mut out: String = String::new();
        let ghost heads = header_parts(self@);
        let ghost rules = rule_parts(self@);
        let mut i: usize = 0;
        while i < n
            invariant
                i <= n,
                n == self.columns@.len() == w@.len() == heads.len(),
                heads == header_parts(self@),
                forall|j: int|
                    0 <= j < n ==> #[trigger] w@[j] == width(self@, j, self.rows@.len() as int),
                out@ == spaced(heads, i as int),
            decreases n - i,
        {
            if i > 0 {
                out.append("  ");
            }
            let ghost before = out@;
            let name: &str = self.columns[i].as_str();
            out.append(name);
            let len: usize = char_count(name);
            let pad: usize = if w[i] > len { w[i] - len } else { 0 };
            push_repeated(&mut out, ' ', pad);
            proof {
                assert(heads[i as int] == name@ + repeated(' ', w@[i as int] - len));
                assert(repeated(' ', w@[i as int] - len) =~= repeated(' ', pad as int));
                assert(out@ =~= before + heads[i as int]);
            }
            i += 1;
            assert(out@ =~= spaced(heads, i as int));
        }
        out.push('\n');
        let ghost head = out@;
        assert(head + spaced(rules, 0) =~= head);
        let mut i: usize = 0;
        while i < n
            invariant
                i <= n,
                n == w@.len() == rules.len(),
                n == self.columns@.len(),
                rules == rule_parts(self@),
                forall|j: int|
                    0 <= j < n ==> #[trigger] w@[j] == width(self@, j, self.rows@.len() as int),
                out@ == head + spaced(rules, i as int),
            decreases n - i,
        {
            if i > 0 {
                out.append("  ");
            }
            push_repeated(&mut out, '-', w[i]);
            i += 1;
            assert(out@ =~= head + spaced(rules, i as int));
        }
        out.push('\n');
        let ghost top = out@;
        let rows: usize = self.rows.len();
        let mut k: usize = 0;
        assert(top + row_lines(self@, 0) =~= top);
        while k < rows
            invariant
                k <= rows,
                rows == self.rows@.len(),
                out@ == top + row_lines(self@, k as int),
            decreases rows - k,
        {
            let row: &Vec<Value> = &self.rows[k];
            let m: usize = row.len();
            assert(self@.rows[k as int] == row_view(self.rows@[k as int]@));
            let ghost before = out@;
            let ghost parts = row_parts(row_view(row@));
            let mut i: usize = 0;
            assert(before + spaced(parts, 0) =~= before);
            while i < m
                invariant
                    i <= m,
                    m == row@.len() == parts.len(),
                    parts == row_parts(row_view(row@)),
                    out@ == before + spaced(parts, i as int),
                decreases m - i,
            {
                if i > 0 {
                    out.append("  ");
                }
                out.append(row[i].to_string().as_str());
                i += 1;
                assert(out@ =~= before + spaced(parts, i as int));
            }
            out.push('\n');
            k += 1;
            assert(out@ =~= top + row_lines(self@, k as int));
        }
        let ghost body = out@;
        out.append("\n(");
        out.append(decimal(rows as u64).as_str());
        out.append(" row");
        out.append(if rows == 1 { "" } else { "s" });
        out.append(")");
        assert(out@ =~= shown(self@));
        out
    }
}

/// The name of a table with its schema.
#[derive(Debug, Clone)]
pub struct TableRef {
    pub schema: String,
    pub table: String,
}

/// The contents of a [`TableRef`].
pub struct TableName {
    pub schema: Seq<char>,
    pub table: Seq<char>,
}

impl View for TableRef {
    type V = TableName;

    open spec fn view(&self) -> TableName {
        TableName { schema: self.schema@, table: self.table@ }
    }
}

impl TableRef {
    /// The table that is meant by a name, in upper case; without a schema it is in the default
    /// one.
    pub fn resolve(schema: Option<&str>, table: &str, default_schema: &str) -> (r: DbResult<Self>)
        ensures
            r is Ok,
            r->Ok_0@ == (TableName {
                schema: uppercase(
                    match schema {
                        Some(s) => s@,
                        None => default_schema@,
                    },
                ),
                table: uppercase(table@),
            }),
    {
        let schema: String = match schema {
            Some(s) => to_uppercase(s),
            None => to_uppercase(default_schema),
        };
        Ok(Self { schema, table: to_uppercase(table) })
    }
}

} // verus!
