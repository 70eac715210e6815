//! Values of expressions, and rows as bytes.

use vstd::prelude::*;
use vstd::string::StringExecFns;
use vstd::utf8::encode_utf8;
use crate::catalog::cache::{index_of, ColumnIndex};
use crate::catalog::row::{field_at, field_bytes, i16_field, i32_field, law_field_round_trip,
    law_values_round_trip, signed_bytes, string_field, RowReader, RowWriter, LENGTH_PREFIX_SIZE};
use crate::catalog::types::{columns_view, Column, ColumnDef, MAX_CHAR_LENGTH, MIN_CHAR_LENGTH};
use crate::error::{sql_error, DbResult, ErrorModel, SqlState};
use crate::sql::ast::{BinaryOp, CharLength, Expr, ExprKind, Literal, SelectItem, SqlType};
use crate::sql::types::{names_view, row_view, Value, ValueModel};
use crate::text::{chars_of, decimal, digits10, lemma_digits10, lemma_parse_decimal,
    lemma_split_tail, parse_signed, parse_unsigned, parsed_signed, parsed_unsigned, same_str, split,
    split_parts, string_of, to_uppercase, uppercase};

verus! {

// ── Literals ──

/// The value of a number: of the narrowest type that holds it.
pub open spec fn number_value(s: Seq<char>) -> Result<ValueModel, ErrorModel> {
    match parsed_signed(s, i64::MIN as int, i64::MAX as int) {
        Some(v) => if i16::MIN <= v <= i16::MAX {
            Ok(ValueModel::SmallInt(v as i16))
        } else if i32::MIN <= v <= i32::MAX {
            Ok(ValueModel::Integer(v as i32))
        } else {
            Ok(ValueModel::BigInt(v as i64))
        },
        None => Err(ErrorModel::Sql(SqlState::DataException, "unsupported number: "@ + s)),
    }
}

fn eval_number(n: &String) -> (r: DbResult<Value>)
    ensures
        match r {
            Ok(v) => number_value(n@) == Ok::<ValueModel, ErrorModel>(v@),
            Err(e) => number_value(n@) == Err::<ValueModel, ErrorModel>(e@),
        },
{
    match parse_signed(n.as_str(), i64::MIN, i64::MAX) {
        Some(v) => {
            if i16::MIN as i64 <= v && v <= i16::MAX as i64 {
                Ok(Value::SmallInt(v as i16))
            } else if i32::MIN as i64 <= v && v <= i32::MAX as i64 {
                Ok(Value::Integer(v as i32))
            } else {
                Ok(Value::BigInt(v))
            }
        }
        None => Err(
            sql_error(
                SqlState::DataException,
                "unsupported number: ".to_owned().concat(n.as_str()),
            ),
        ),
    }
}

/// The negative of a number.
pub open spec fn negated(v: ValueModel) -> Result<ValueModel, ErrorModel> {
    match v {
        ValueModel::SmallInt(n) => Ok(ValueModel::SmallInt((-n) as i16)),
        ValueModel::Integer(n) => Ok(ValueModel::Integer((-n) as i32)),
        ValueModel::BigInt(n) => Ok(ValueModel::BigInt((-n) as i64)),
        _ => Err(
            ErrorModel::Sql(SqlState::DataException, "cannot negate non-numeric value"@),
        ),
    }
}

/// The value of a literal, as it may stand in `VALUES`.
pub open spec fn literal_value(e: Expr) -> Result<ValueModel, ErrorModel>
    decreases e,
{
    match e.kind {
        ExprKind::Value(Literal::Text(s)) => Ok(ValueModel::Str(s@)),
        ExprKind::Value(Literal::Number(n)) => number_value(n@),
        ExprKind::Value(Literal::Null) => Ok(ValueModel::Null),
        ExprKind::Value(Literal::Other) => Err(
            ErrorModel::Sql(SqlState::DataException, "unsupported literal: "@ + e.text@),
        ),
        ExprKind::Minus(inner) => match literal_value(*inner) {
            Ok(v) => negated(v),
            Err(x) => Err(x),
        },
        _ => Err(
            ErrorModel::Sql(
                SqlState::FeatureNotSupported,
                "expression not allowed in VALUES: "@ + e.text@,
            ),
        ),
    }
}

/// A number is above the least number of its type.
pub open spec fn negatable(v: ValueModel) -> bool {
    match v {
        ValueModel::SmallInt(n) => n > i16::MIN,
        ValueModel::Integer(n) => n > i32::MIN,
        ValueModel::BigInt(n) => n > i64::MIN,
        _ => true,
    }
}

/// Whether every number that a minus sign stands before in a literal has a negative of its type.
pub open spec fn expr_ok(e: Expr) -> bool
    decreases e,
{
    match e.kind {
        ExprKind::Minus(inner) => {
            &&& expr_ok(*inner)
            &&& literal_value(*inner) is Ok ==> negatable(literal_value(*inner)->Ok_0)
        },
        _ => true,
    }
}

/// Tells whether every number that a minus sign stands before in a literal has a negative of its
/// type.
pub fn can_negate(e: &Expr) -> (r: bool)
    ensures
        r == expr_ok(*e),
    decreases e,
{
    match &e.kind {
        ExprKind::Minus(inner) => can_negate(inner) && match eval_literal(inner) {
            Ok(Value::SmallInt(n)) => n > i16::MIN,
            Ok(Value::Integer(n)) => n > i32::MIN,
            Ok(Value::BigInt(n)) => n > i64::MIN,
            _ => true,
        },
        _ => true,
    }
}

/// The value of a literal.
pub fn eval_literal(e: &Expr) -> (r: DbResult<Value>)
    requires
        expr_ok(*e),
    ensures
        match r {
            Ok(v) => literal_value(*e) == Ok::<ValueModel, ErrorModel>(v@),
            Err(x) => literal_value(*e) == Err::<ValueModel, ErrorModel>(x@),
        },
    decreases e,
{
    match &e.kind {
        ExprKind::Value(Literal::Text(s)) => Ok(Value::Str(s.clone())),
        ExprKind::Value(Literal::Number(n)) => eval_number(n),
        ExprKind::Value(Literal::Null) => Ok(Value::Null),
        ExprKind::Value(Literal::Other) => Err(
            sql_error(
                SqlState::DataException,
                "unsupported literal: ".to_owned().concat(e.text.as_str()),
            ),
        ),
        ExprKind::Minus(inner) => {
            let v: Value = match eval_literal(inner) {
                Ok(v) => v,
                Err(x) => {
                    return Err(x);
                }
            };
            match v {
                Value::SmallInt(n) => Ok(Value::SmallInt(-n)),
                Value::Integer(n) => Ok(Value::Integer(-n)),
                Value::BigInt(n) => Ok(Value::BigInt(-n)),
                _ => Err(
                    sql_error(
                        SqlState::DataException,
                        "cannot negate non-numeric value".to_owned(),
                    ),
                ),
            }
        }
        _ => Err(
            sql_error(
                SqlState::FeatureNotSupported,
                "expression not allowed in VALUES: ".to_owned().concat(e.text.as_str()),
            ),
        ),
    }
}

// ── Expressions over a row ──

/// The error for a column that a table does not have.
pub open spec fn no_column(name: Seq<char>) -> ErrorModel {
    ErrorModel::Sql(SqlState::ColumnNotFound, "column "@ + name + " not found"@)
}

/// The position of a column, in upper case, among the columns of a table.
pub open spec fn column_at(name: Seq<char>, names: Seq<Seq<char>>) -> Result<int, ErrorModel> {
    match index_of(names, uppercase(name)) {
        Some(i) => Ok(i),
        None => Err(no_column(uppercase(name))),
    }
}

/// The position of the column that the last part of a name names.
pub open spec fn last_column_at(parts: Seq<String>, names: Seq<Seq<char>>) -> Result<
    int,
    ErrorModel,
> {
    if parts.len() == 0 {
        Err(ErrorModel::Sql(SqlState::SyntaxError, "empty identifier"@))
    } else {
        column_at(parts.last()@, names)
    }
}

/// The value of an expression over a row.
pub open spec fn expr_value(e: Expr, names: Seq<Seq<char>>, row: Seq<ValueModel>) -> Result<
    ValueModel,
    ErrorModel,
> {
    match e.kind {
        ExprKind::Identifier(name) => match column_at(name@, names) {
            Ok(i) => Ok(row[i]),
            Err(x) => Err(x),
        },
        ExprKind::Compound(parts) => match last_column_at(parts@, names) {
            Ok(i) => Ok(row[i]),
            Err(x) => Err(x),
        },
        ExprKind::Value(Literal::Text(s)) => Ok(ValueModel::Str(s@)),
        ExprKind::Value(Literal::Number(n)) => number_value(n@),
        ExprKind::Value(_) => Err(
            ErrorModel::Sql(SqlState::DataException, "unsupported literal: "@ + e.text@),
        ),
        _ => Err(
            ErrorModel::Sql(
                SqlState::FeatureNotSupported,
                "unsupported expression: "@ + e.text@,
            ),
        ),
    }
}

/// Whether two values are equal: numbers by their amount, whatever their types, texts and flags by
/// what they are. `NULL` equals nothing.
pub open spec fn equal_values(a: ValueModel, b: ValueModel) -> bool {
    match (a, b) {
        (ValueModel::Str(x), ValueModel::Str(y)) => x == y,
        (ValueModel::Bool(x), ValueModel::Bool(y)) => x == y,
        _ => a.number() is Some && a.number() == b.number(),
    }
}

/// Whether a condition holds of a row.
pub open spec fn where_value(e: Expr, names: Seq<Seq<char>>, row: Seq<ValueModel>) -> Result<
    bool,
    ErrorModel,
>
    decreases e,
{
    match e.kind {
        ExprKind::Binary(left, op, right) => match op {
            BinaryOp::And => match where_value(*left, names, row) {
                Ok(true) => where_value(*right, names, row),
                Ok(false) => Ok(false),
                Err(x) => Err(x),
            },
            BinaryOp::Or => match where_value(*left, names, row) {
                Ok(true) => Ok(true),
                Ok(false) => where_value(*right, names, row),
                Err(x) => Err(x),
            },
            BinaryOp::Eq | BinaryOp::NotEq => match expr_value(*left, names, row) {
                Err(x) => Err(x),
                Ok(l) => match expr_value(*right, names, row) {
                    Err(x) => Err(x),
                    Ok(r) => Ok(equal_values(l, r) == (op is Eq)),
                },
            },
            BinaryOp::Other(text) => Err(
                ErrorModel::Sql(
                    SqlState::FeatureNotSupported,
                    "unsupported operator: "@ + text@,
                ),
            ),
        },
        _ => Err(
            ErrorModel::Sql(
                SqlState::FeatureNotSupported,
                "unsupported WHERE expression: "@ + e.text@,
            ),
        ),
    }
}

/// The position of a column among the columns of a table.
pub fn find_column(name: &str, index: &ColumnIndex) -> (r: DbResult<usize>)
    ensures
        match r {
            Ok(i) => column_at(name@, index@) == Ok::<int, ErrorModel>(i as int) && i
                < index@.len(),
            Err(e) => column_at(name@, index@) == Err::<int, ErrorModel>(e@),
        },
{
    let upper: String = to_uppercase(name);
    match index.get(upper.as_str()) {
        Some(i) => Ok(i),
        None => Err(
            sql_error(
                SqlState::ColumnNotFound,
                "column ".to_owned().concat(upper.as_str()).concat(" not found"),
            ),
        ),
    }
}

fn find_last_column(parts: &Vec<String>, index: &ColumnIndex) -> (r: DbResult<usize>)
    ensures
        match r {
            Ok(i) => last_column_at(parts@, index@) == Ok::<int, ErrorModel>(i as int) && i
                < index@.len(),
            Err(e) => last_column_at(parts@, index@) == Err::<int, ErrorModel>(e@),
        },
{
    let n: usize = parts.len();
    if n == 0 {
        return Err(sql_error(SqlState::SyntaxError, "empty identifier".to_owned()));
    }
    find_column(parts[n - 1].as_str(), index)
}

/// The value of an expression over a row.
pub fn eval_expr(e: &Expr, index: &ColumnIndex, row: &Vec<Value>) -> (r: DbResult<Value>)
    requires
        row@.len() == index@.len(),
    ensures
        match r {
            Ok(v) => expr_value(*e, index@, row_view(row@)) == Ok::<ValueModel, ErrorModel>(v@),
            Err(x) => expr_value(*e, index@, row_view(row@)) == Err::<ValueModel, ErrorModel>(x@),
        },
{
    match &e.kind {
        ExprKind::Identifier(name) => match find_column(name.as_str(), index) {
            Ok(i) => Ok(row[i].copy()),
            Err(x) => Err(x),
        },
        ExprKind::Compound(parts) => match find_last_column(parts, index) {
            Ok(i) => Ok(row[i].copy()),
            Err(x) => Err(x),
        },
        ExprKind::Value(Literal::Text(s)) => Ok(Value::Str(s.clone())),
        ExprKind::Value(Literal::Number(n)) => eval_number(n),
        ExprKind::Value(_) => Err(
            sql_error(
                SqlState::DataException,
                "unsupported literal: ".to_owned().concat(e.text.as_str()),
            ),
        ),
        _ => Err(
            sql_error(
                SqlState::FeatureNotSupported,
                "unsupported expression: ".to_owned().concat(e.text.as_str()),
            ),
        ),
    }
}

fn number_of_value(v: &Value) -> (r: Option<i64>)
    ensures
        (match r {
            Some(n) => Some(n as int),
            None => None::<int>,
        }) == v@.number(),
{
    match v {
        Value::SmallInt(n) => Some(*n as i64),
        Value::Integer(n) => Some(*n as i64),
        Value::BigInt(n) => Some(*n),
        _ => None,
    }
}

/// Whether two values are equal.
pub fn values_eq(a: &Value, b: &Value) -> (r: bool)
    ensures
        r == equal_values(a@, b@),
{
    match (a, b) {
        (Value::Str(x), Value::Str(y)) => same_str(x.as_str(), y.as_str()),
        (Value::Bool(x), Value::Bool(y)) => *x == *y,
        _ => match (number_of_value(a), number_of_value(b)) {
            (Some(x), Some(y)) => x == y,
            _ => false,
        },
    }
}

/// Whether a condition holds of a row.
pub fn eval_where(e: &Expr, index: &ColumnIndex, row: &Vec<Value>) -> (r: DbResult<bool>)
    requires
        row@.len() == index@.len(),
    ensures
        match r {
            Ok(v) => where_value(*e, index@, row_view(row@)) == Ok::<bool, ErrorModel>(v),
            Err(x) => where_value(*e, index@, row_view(row@)) == Err::<bool, ErrorModel>(x@),
        },
    decreases e,
{
    match &e.kind {
        ExprKind::Binary(left, op, right) => match op {
            BinaryOp::And => match eval_where(left, index, row) {
                Ok(true) => eval_where(right, index, row),
                Ok(false) => Ok(false),
                Err(x) => Err(x),
            },
            BinaryOp::Or => match eval_where(left, index, row) {
                Ok(true) => Ok(true),
                Ok(false) => eval_where(right, index, row),
                Err(x) => Err(x),
            },
            BinaryOp::Eq => match eval_expr(left, index, row) {
                Err(x) => Err(x),
                Ok(l) => match eval_expr(right, index, row) {
                    Err(x) => Err(x),
                    Ok(r) => Ok(values_eq(&l, &r)),
                },
            },
            BinaryOp::NotEq => match eval_expr(left, index, row) {
                Err(x) => Err(x),
                Ok(l) => match eval_expr(right, index, row) {
                    Err(x) => Err(x),
                    Ok(r) => Ok(!values_eq(&l, &r)),
                },
            },
            BinaryOp::Other(text) => Err(
                sql_error(
                    SqlState::FeatureNotSupported,
                    "unsupported operator: ".to_owned().concat(text.as_str()),
                ),
            ),
        },
        _ => Err(
            sql_error(
                SqlState::FeatureNotSupported,
                "unsupported WHERE expression: ".to_owned().concat(e.text.as_str()),
            ),
        ),
    }
}

// ── Types of columns ──

/// The name of a type, without its length.
pub open spec fn base_type(t: Seq<char>) -> Seq<char> {
    split_parts(t, '(')[0]
}

/// A text without the closing brackets at its end.
pub open spec fn without_brackets(s: Seq<char>) -> Seq<char>
    decreases s.len(),
{
    if s.len() > 0 && s.last() == ')' {
        without_brackets(s.drop_last())
    } else {
        s
    }
}

/// The length that a type gives in brackets; 1 where it gives none.
pub open spec fn declared_length(t: Seq<char>) -> nat {
    let parts = split_parts(t, '(');
    if parts.len() < 2 {
        1
    } else {
        match parsed_unsigned(without_brackets(parts[1]), usize::MAX as nat) {
            Some(n) => n,
            None => 1,
        }
    }
}

/// The most bytes that a value of a type takes, without its length.
pub open spec fn data_size(t: Seq<char>) -> nat {
    let base = base_type(t);
    if base == "SMALLINT"@ {
        2
    } else if base == "INTEGER"@ {
        4
    } else if base == "BIGINT"@ || base == "DOUBLE"@ {
        8
    } else if base == "TIMESTAMP"@ {
        33
    } else if base == "CHAR"@ || base == "VARCHAR"@ {
        declared_length(t)
    } else {
        255
    }
}

/// The most bytes that the first `n` fields of a row take.
pub open spec fn row_size(cols: Seq<ColumnDef>, n: int) -> nat
    decreases n,
{
    if n <= 0 {
        0
    } else {
        row_size(cols, n - 1) + LENGTH_PREFIX_SIZE as nat + data_size(cols[n - 1].typename)
    }
}

/// The name and the declared length of a type.
fn type_parts(t: &str) -> (r: (String, Option<Vec<char>>))
    ensures
        r.0@ == base_type(t@),
        match r.1 {
            Some(p) => split_parts(t@, '(').len() >= 2 && p@ == split_parts(t@, '(')[1],
            None => split_parts(t@, '(').len() < 2,
        },
{
    let cs: Vec<char> = chars_of(t);
    let mut parts: Vec<Vec<char>> = split(cs.as_slice(), '(');
    let ghost all = parts@.map_values(|v: Vec<char>| v@);
    assert(all[0] == parts@[0]@);
    let base: String = string_of(parts[0].as_slice());
    if parts.len() >= 2 {
        assert(all[1] == parts@[1]@);
        let second: Vec<char> = parts.remove(1);
        (base, Some(second))
    } else {
        (base, None)
    }
}

fn type_base(t: &str) -> (r: String)
    ensures
        r@ == base_type(t@),
{
    type_parts(t).0
}

fn length_of(part: Vec<char>) -> (r: usize)
    ensures
        r == match parsed_unsigned(without_brackets(part@), usize::MAX as nat) {
            Some(n) => n,
            None => 1,
        },
{
    let mut cs: Vec<char> = part;
    while cs.len() > 0 && cs[cs.len() - 1] == ')'
        invariant
            without_brackets(cs@) == without_brackets(part@),
        ensures
            cs@ == without_brackets(part@),
        decreases cs@.len(),
    {
        let _bracket: Option<char> = cs.pop();
    }
    match parse_unsigned(string_of(cs.as_slice()).as_str(), usize::MAX as u64) {
        Some(n) => n as usize,
        None => 1,
    }
}

/// More columns never take fewer bytes.
proof fn lemma_row_size_grows(cols: Seq<ColumnDef>, i: int, n: int)
    requires
        0 <= i <= n,
    ensures
        row_size(cols, i) <= row_size(cols, n),
    decreases n - i,
{
    if i < n {
        lemma_row_size_grows(cols, i, n - 1);
    }
}

/// The machine can count the bytes of a row of any number of columns that it can hold, but for the
/// last few.
pub proof fn lemma_row_size_fits(cols: Seq<ColumnDef>, n: int)
    requires
        0 <= n <= 0xffff_ffff_ffff_ff00,
    ensures
        row_size(cols, n) <= n * 0x1_0000_0000_0000_0007,
        row_size(cols, n) <= u128::MAX,
    decreases n,
{
    if n > 0 {
        lemma_row_size_fits(cols, n - 1);
        assert(data_size(cols[n - 1].typename) <= 0xffff_ffff_ffff_ffff);
        assert((n - 1) * 0x1_0000_0000_0000_0007 + 0x1_0000_0000_0000_0007 == n
            * 0x1_0000_0000_0000_0007) by (nonlinear_arith);
    }
    assert(n * 0x1_0000_0000_0000_0007 <= 0xffff_ffff_ffff_ff00 * 0x1_0000_0000_0000_0007)
        by (nonlinear_arith)
        requires
            n <= 0xffff_ffff_ffff_ff00,
    ;
}

/// The most bytes that a row of a table with some columns takes: for each field its length and its
/// value, which for a `CHAR` or `VARCHAR` is as long as declared.
pub fn max_row_size(columns: &Vec<Column>) -> (r: u128)
    requires
        row_size(columns_view(columns@), columns@.len() as int) <= u128::MAX,
    ensures
        r == row_size(columns_view(columns@), columns@.len() as int),
{
    let n: usize = columns.len();
    let ghost cols = columns_view(columns@);
    let mut total: u128 = 0;
    let mut i: usize = 0;
    while i < n
        invariant
            i <= n,
            n == columns@.len(),
            cols == columns_view(columns@),
            total == row_size(cols, i as int),
            row_size(cols, n as int) <= u128::MAX,
        decreases n - i,
    {
        let t: &str = columns[i].typename.as_str();
        assert(cols[i as int].typename == t@);
        let (base, length) = type_parts(t);
        let base: &str = base.as_str();
        let size: usize = if same_str(base, "SMALLINT") {
            2
        } else if same_str(base, "INTEGER") {
            4
        } else if same_str(base, "BIGINT") || same_str(base, "DOUBLE") {
            8
        } else if same_str(base, "TIMESTAMP") {
            33
        } else if same_str(base, "CHAR") || same_str(base, "VARCHAR") {
            match length {
                Some(part) => length_of(part),
                None => 1,
            }
        } else {
            255
        };
        assert(size == data_size(t@));
        proof {
            lemma_row_size_grows(cols, i + 1, n as int);
        }
        total = total + LENGTH_PREFIX_SIZE as u128 + size as u128;
        i += 1;
    }
    total
}

/// Why a length does not do for a `CHAR` or `VARCHAR`.
pub open spec fn length_error(length: nat, kind: Seq<char>) -> ErrorModel {
    ErrorModel::Sql(
        SqlState::InvalidColumnLength,
        "invalid length "@ + digits10(length) + " for "@ + kind + " (must be "@ + digits10(
            MIN_CHAR_LENGTH as nat,
        ) + ".."@ + digits10(MAX_CHAR_LENGTH as nat) + ")"@,
    )
}

/// Tells whether a length does for a `CHAR` or `VARCHAR`.
pub fn validate_char_length(length: u64, kind: &str) -> (r: DbResult<()>)
    ensures
        match r {
            Ok(_) => MIN_CHAR_LENGTH <= length <= MAX_CHAR_LENGTH,
            Err(e) => {
                &&& !(MIN_CHAR_LENGTH <= length <= MAX_CHAR_LENGTH)
                &&& e@ == length_error(length as nat, kind@)
            },
        },
{
    if length < MIN_CHAR_LENGTH || length > MAX_CHAR_LENGTH {
        return Err(
            sql_error(
                SqlState::InvalidColumnLength,
                "invalid length ".to_owned().concat(decimal(length).as_str()).concat(
                    " for ",
                ).concat(kind).concat(" (must be ").concat(
                    decimal(MIN_CHAR_LENGTH).as_str(),
                ).concat("..").concat(decimal(MAX_CHAR_LENGTH).as_str()).concat(")"),
            ),
        );
    }
    Ok(())
}

/// The name of a type with a length.
pub open spec fn sized_type(kind: Seq<char>, length: nat) -> Seq<char> {
    kind + "("@ + digits10(length) + ")"@
}

/// The name of a type of texts: with the length that is written, or with a default one.
pub open spec fn text_type(kind: Seq<char>, length: Option<CharLength>, default: nat) -> Result<
    Seq<char>,
    ErrorModel,
> {
    match length {
        Some(CharLength::Integer(n)) => if MIN_CHAR_LENGTH <= n <= MAX_CHAR_LENGTH {
            Ok(sized_type(kind, n as nat))
        } else {
            Err(length_error(n as nat, kind))
        },
        _ => Ok(sized_type(kind, default)),
    }
}

/// The name under which the catalog lists a type.
pub open spec fn type_text(t: SqlType) -> Result<Seq<char>, ErrorModel> {
    match t {
        SqlType::SmallInt => Ok("SMALLINT"@),
        SqlType::Int | SqlType::Integer => Ok("INTEGER"@),
        SqlType::BigInt => Ok("BIGINT"@),
        SqlType::Double | SqlType::DoublePrecision => Ok("DOUBLE"@),
        SqlType::Varchar(length) => text_type("VARCHAR"@, length, 255),
        SqlType::Char(length) | SqlType::Character(length) => text_type("CHAR"@, length, 1),
        SqlType::Timestamp => Ok("TIMESTAMP"@),
        SqlType::Boolean => Ok("CHAR(1)"@),
        SqlType::Other(text) => Err(
            ErrorModel::Sql(SqlState::FeatureNotSupported, "unsupported data type: "@ + text@),
        ),
    }
}

fn sized(kind: &str, length: u64) -> (r: DbResult<String>)
    ensures
        match r {
            Ok(s) => {
                &&& MIN_CHAR_LENGTH <= length <= MAX_CHAR_LENGTH
                &&& s@ == sized_type(kind@, length as nat)
            },
            Err(e) => {
                &&& !(MIN_CHAR_LENGTH <= length <= MAX_CHAR_LENGTH)
                &&& e@ == length_error(length as nat, kind@)
            },
        },
{
    match validate_char_length(length, kind) {
        Ok(_) => Ok(kind.to_owned().concat("(").concat(decimal(length).as_str()).concat(")")),
        Err(e) => Err(e),
    }
}

/// The name of a type of texts.
fn map_text_type(kind: &str, length: &Option<CharLength>, default: u64) -> (r: DbResult<String>)
    ensures
        match r {
            Ok(s) => text_type(kind@, *length, default as nat) == Ok::<Seq<char>, ErrorModel>(s@),
            Err(e) => text_type(kind@, *length, default as nat) == Err::<Seq<char>, ErrorModel>(
                e@,
            ),
        },
{
    match length {
        Some(CharLength::Integer(n)) => sized(kind, *n),
        _ => Ok(kind.to_owned().concat("(").concat(decimal(default).as_str()).concat(")")),
    }
}

/// The name under which the catalog lists a type.
pub fn map_data_type(t: &SqlType) -> (r: DbResult<String>)
    ensures
        match r {
            Ok(s) => type_text(*t) == Ok::<Seq<char>, ErrorModel>(s@),
            Err(e) => type_text(*t) == Err::<Seq<char>, ErrorModel>(e@),
        },
{
    match t {
        SqlType::SmallInt => Ok("SMALLINT".to_owned()),
        SqlType::Int | SqlType::Integer => Ok("INTEGER".to_owned()),
        SqlType::BigInt => Ok("BIGINT".to_owned()),
        SqlType::Double | SqlType::DoublePrecision => Ok("DOUBLE".to_owned()),
        SqlType::Varchar(length) => map_text_type("VARCHAR", length, 255),
        SqlType::Char(length) | SqlType::Character(length) => map_text_type("CHAR", length, 1),
        SqlType::Timestamp => Ok("TIMESTAMP".to_owned()),
        SqlType::Boolean => Ok("CHAR(1)".to_owned()),
        SqlType::Other(text) => Err(
            sql_error(
                SqlState::FeatureNotSupported,
                "unsupported data type: ".to_owned().concat(text.as_str()),
            ),
        ),
    }
}

// ── Rows as bytes ──

/// Whether values of a type are texts.
pub open spec fn is_text_type(base: Seq<char>) -> bool {
    base == "CHAR"@ || base == "VARCHAR"@
}

/// The value of a field of a column.
pub open spec fn read_value(field: Seq<u8>, base: Seq<char>) -> Result<ValueModel, ErrorModel> {
    if base == "SMALLINT"@ {
        match i16_field(field) {
            Ok(v) => Ok(ValueModel::SmallInt(v)),
            Err(e) => Err(e),
        }
    } else if base == "INTEGER"@ {
        match i32_field(field) {
            Ok(v) => Ok(ValueModel::Integer(v)),
            Err(e) => Err(e),
        }
    } else {
        match string_field(field) {
            Ok(v) => Ok(ValueModel::Str(v)),
            Err(e) => Err(e),
        }
    }
}

/// Whether rows can have columns of a type.
pub open spec fn is_row_type(base: Seq<char>) -> bool {
    base == "SMALLINT"@ || base == "INTEGER"@ || is_text_type(base)
}

/// The value at `pos` in a row, and where the next one starts.
pub open spec fn value_at(data: Seq<u8>, col: ColumnDef, pos: int) -> Result<
    (ValueModel, int),
    ErrorModel,
> {
    let base = base_type(col.typename);
    if !is_row_type(base) {
        Err(ErrorModel::Sql(SqlState::FeatureNotSupported, "unsupported column type: "@ + base))
    } else {
        match field_at(data, pos).0 {
            Ok(field) => match read_value(field, base) {
                Ok(v) => Ok((v, field_at(data, pos).1)),
                Err(e) => Err(e),
            },
            Err(e) => Err(e),
        }
    }
}

/// The first `n` values of a row, and where they end.
pub open spec fn values_to(data: Seq<u8>, cols: Seq<ColumnDef>, n: int) -> Result<
    (Seq<ValueModel>, int),
    ErrorModel,
>
    decreases n,
{
    if n <= 0 {
        Ok((Seq::empty(), 0))
    } else {
        match values_to(data, cols, n - 1) {
            Err(e) => Err(e),
            Ok((row, pos)) => match value_at(data, cols[n - 1], pos) {
                Err(e) => Err(e),
                Ok((v, end)) => Ok((row.push(v), end)),
            },
        }
    }
}

/// The values of a row.
pub open spec fn row_values(data: Seq<u8>, cols: Seq<ColumnDef>) -> Result<
    Seq<ValueModel>,
    ErrorModel,
> {
    match values_to(data, cols, cols.len() as int) {
        Ok((row, _)) => Ok(row),
        Err(e) => Err(e),
    }
}

/// The error of some first columns is the error of the row.
proof fn lemma_values_to_error(data: Seq<u8>, cols: Seq<ColumnDef>, i: int, n: int)
    requires
        0 <= i <= n,
        values_to(data, cols, i) is Err,
    ensures
        values_to(data, cols, n) is Err,
        values_to(data, cols, n)->Err_0 == values_to(data, cols, i)->Err_0,
    decreases n - i,
{
    if i < n {
        lemma_values_to_error(data, cols, i, n - 1);
    }
}

/// The first `n` values of a row are `n`.
pub proof fn lemma_values_to_len(data: Seq<u8>, cols: Seq<ColumnDef>, n: int)
    requires
        0 <= n,
        values_to(data, cols, n) is Ok,
    ensures
        values_to(data, cols, n)->Ok_0.0.len() == n,
    decreases n,
{
    if n > 0 {
        lemma_values_to_len(data, cols, n - 1);
    }
}

/// Reads the next value of a row.
fn read_one(reader: &mut RowReader, col: &Column) -> (r: DbResult<Value>)
    requires
        old(reader).wf(),
    ensures
        final(reader).wf(),
        final(reader).bytes() == old(reader).bytes(),
        match r {
            Ok(v) => value_at(old(reader).bytes(), col@, old(reader).at()) == Ok::<
                (ValueModel, int),
                ErrorModel,
            >((v@, final(reader).at())),
            Err(e) => value_at(old(reader).bytes(), col@, old(reader).at()) == Err::<
                (ValueModel, int),
                ErrorModel,
            >(e@),
        },
{
    let base: String = type_base(col.typename.as_str());
    if same_str(base.as_str(), "SMALLINT") {
        match reader.read_i16() {
            Ok(v) => Ok(Value::SmallInt(v)),
            Err(e) => Err(e),
        }
    } else if same_str(base.as_str(), "INTEGER") {
        match reader.read_i32() {
            Ok(v) => Ok(Value::Integer(v)),
            Err(e) => Err(e),
        }
    } else if same_str(base.as_str(), "CHAR") || same_str(base.as_str(), "VARCHAR") {
        match reader.read_string() {
            Ok(v) => Ok(Value::Str(v)),
            Err(e) => Err(e),
        }
    } else {
        Err(
            sql_error(
                SqlState::FeatureNotSupported,
                "unsupported column type: ".to_owned().concat(base.as_str()),
            ),
        )
    }
}

/// The values of a row, by the types of the columns.
pub fn deserialize_row(bytes: &[u8], columns: &Vec<Column>) -> (r: DbResult<Vec<Value>>)
    ensures
        match r {
            Ok(row) => {
                &&& row_values(bytes@, columns_view(columns@)) == Ok::<
                    Seq<ValueModel>,
                    ErrorModel,
                >(row_view(row@))
                &&& row@.len() == columns@.len()
            },
            Err(e) => row_values(bytes@, columns_view(columns@)) == Err::<
                Seq<ValueModel>,
                ErrorModel,
            >(e@),
        },
{
    let mut reader: RowReader = RowReader::new(bytes);
    let ghost cols = columns_view(columns@);
    let n: usize = columns.len();
    let mut out: Vec<Value> = Vec::new();
    let mut i: usize = 0;
    assert(row_view(out@) =~= Seq::<ValueModel>::empty());
    while i < n
        invariant
            i <= n,
            n == columns@.len(),
            cols == columns_view(columns@),
            reader.wf(),
            reader.bytes() == bytes@,
            out@.len() == i,
            values_to(bytes@, cols, i as int) == Ok::<(Seq<ValueModel>, int), ErrorModel>(
                (row_view(out@), reader.at()),
            ),
        decreases n - i,
    {
        let ghost before = row_view(out@);
        assert(cols[i as int] == columns@[i as int]@);
        match read_one(&mut reader, &columns[i]) {
            Ok(v) => {
                out.push(v);
                assert(row_view(out@) =~= before.push(v@));
            }
            Err(e) => {
                proof {
                    lemma_values_to_error(bytes@, cols, i + 1, n as int);
                }
                return Err(e);
            }
        }
        i += 1;
    }
    Ok(out)
}

/// The field that holds a value in a column, or why the column cannot hold it.
pub open spec fn stored_value(v: ValueModel, col: ColumnDef) -> Result<Seq<u8>, ErrorModel> {
    let base = base_type(col.typename);
    if v is Null {
        Err(
            ErrorModel::Sql(
                SqlState::NotNullViolation,
                "NULL not allowed for column "@ + col.name,
            ),
        )
    } else if v is Str && is_text_type(base) {
        Ok(encode_utf8(v->Str_0))
    } else if v.number() is Some && base == "SMALLINT"@ {
        if i16::MIN <= v.number()->0 <= i16::MAX {
            Ok(signed_bytes(v.number()->0, 2))
        } else {
            Err(out_of_range(v, col))
        }
    } else if v.number() is Some && base == "INTEGER"@ {
        if i32::MIN <= v.number()->0 <= i32::MAX {
            Ok(signed_bytes(v.number()->0, 4))
        } else {
            Err(out_of_range(v, col))
        }
    } else {
        Err(
            ErrorModel::Sql(
                SqlState::AssignmentError,
                "type mismatch for column "@ + col.name + ": cannot store "@ + v.text() + " as "@
                    + col.typename,
            ),
        )
    }
}

/// The error for a number that a column is too narrow for.
pub open spec fn out_of_range(v: ValueModel, col: ColumnDef) -> ErrorModel {
    ErrorModel::Sql(
        SqlState::NumericValueOutOfRange,
        "value "@ + v.text() + " out of range for column "@ + col.name + " of type "@
            + col.typename,
    )
}

/// The first `n` fields of a row.
pub open spec fn fields_to(row: Seq<ValueModel>, cols: Seq<ColumnDef>, n: int) -> Result<
    Seq<u8>,
    ErrorModel,
>
    decreases n,
{
    if n <= 0 {
        Ok(Seq::empty())
    } else {
        match fields_to(row, cols, n - 1) {
            Err(e) => Err(e),
            Ok(done) => match stored_value(row[n - 1], cols[n - 1]) {
                Err(e) => Err(e),
                Ok(field) => Ok(done + field_bytes(field)),
            },
        }
    }
}

/// A row as bytes.
pub open spec fn row_fields(row: Seq<ValueModel>, cols: Seq<ColumnDef>) -> Result<
    Seq<u8>,
    ErrorModel,
> {
    fields_to(
        row,
        cols,
        if row.len() <= cols.len() {
            row.len() as int
        } else {
            cols.len() as int
        },
    )
}

proof fn lemma_fields_to_error(row: Seq<ValueModel>, cols: Seq<ColumnDef>, i: int, n: int)
    requires
        0 <= i <= n,
        fields_to(row, cols, i) is Err,
    ensures
        fields_to(row, cols, n) is Err,
        fields_to(row, cols, n)->Err_0 == fields_to(row, cols, i)->Err_0,
    decreases n - i,
{
    if i < n {
        lemma_fields_to_error(row, cols, i, n - 1);
    }
}

/// Writes a value as the next field.
fn write_one(writer: &mut RowWriter, v: &Value, col: &Column) -> (r: DbResult<()>)
    ensures
        match r {
            Ok(_) => {
                &&& stored_value(v@, col@) is Ok
                &&& final(writer)@ == old(writer)@ + field_bytes(stored_value(v@, col@)->Ok_0)
            },
            Err(e) => stored_value(v@, col@) == Err::<Seq<u8>, ErrorModel>(e@),
        },
{
    let base: String = type_base(col.typename.as_str());
    let text: bool = same_str(base.as_str(), "CHAR") || same_str(base.as_str(), "VARCHAR");
    let small: bool = same_str(base.as_str(), "SMALLINT");
    let wide: bool = same_str(base.as_str(), "INTEGER");
    proof {
        reveal_strlit("CHAR");
        reveal_strlit("VARCHAR");
        reveal_strlit("SMALLINT");
        reveal_strlit("INTEGER");
    }
    match v {
        Value::Null => {
            return Err(
                sql_error(
                    SqlState::NotNullViolation,
                    "NULL not allowed for column ".to_owned().concat(col.name.as_str()),
                ),
            );
        }
        Value::Str(s) => {
            if text {
                writer.write_string(s.as_str());
                return Ok(());
            }
        }
        _ => {}
    }
    match number_of_value(v) {
        Some(n) => {
            if small {
                if i16::MIN as i64 <= n && n <= i16::MAX as i64 {
                    writer.write_i16(n as i16);
                    return Ok(());
                }
            } else if wide {
                if i32::MIN as i64 <= n && n <= i32::MAX as i64 {
                    writer.write_i32(n as i32);
                    return Ok(());
                }
            }
            if small || wide {
                return Err(
                    sql_error(
                        SqlState::NumericValueOutOfRange,
                        "value ".to_owned().concat(v.to_string().as_str()).concat(
                            " out of range for column ",
                        ).concat(col.name.as_str()).concat(" of type ").concat(
                            col.typename.as_str(),
                        ),
                    ),
                );
            }
        }
        None => {}
    }
    Err(
        sql_error(
            SqlState::AssignmentError,
            "type mismatch for column ".to_owned().concat(col.name.as_str()).concat(
                ": cannot store ",
            ).concat(v.to_string().as_str()).concat(" as ").concat(col.typename.as_str()),
        ),
    )
}

/// A row as bytes, by the types of the columns.
pub fn serialize_row(values: &Vec<Value>, columns: &Vec<Column>) -> (r: DbResult<Vec<u8>>)
    ensures
        match r {
            Ok(b) => row_fields(row_view(values@), columns_view(columns@)) == Ok::<
                Seq<u8>,
                ErrorModel,
            >(b@),
            Err(e) => row_fields(row_view(values@), columns_view(columns@)) == Err::<
                Seq<u8>,
                ErrorModel,
            >(e@),
        },
{
    let mut writer: RowWriter = RowWriter::new();
    let ghost row = row_view(values@);
    let ghost cols = columns_view(columns@);
    let n: usize = if values.len() <= columns.len() { values.len() } else { columns.len() };
    let mut i: usize = 0;
    while i < n
        invariant
            i <= n,
            n <= values@.len(),
            n <= columns@.len(),
            n == values@.len() || n == columns@.len(),
            row == row_view(values@),
            cols == columns_view(columns@),
            fields_to(row, cols, i as int) == Ok::<Seq<u8>, ErrorModel>(writer@),
        decreases n - i,
    {
        assert(row[i as int] == values@[i as int]@);
        assert(cols[i as int] == columns@[i as int]@);
        match write_one(&mut writer, &values[i], &columns[i]) {
            Ok(_) => {}
            Err(e) => {
                proof {
                    lemma_fields_to_error(row, cols, i + 1, n as int);
                }
                return Err(e);
            }
        }
        i += 1;
    }
    Ok(writer.finish())
}

// ── The list of a query ──

/// The names and positions that an item of a `SELECT` list selects.
pub open spec fn item_columns(item: SelectItem, names: Seq<Seq<char>>) -> Result<
    (Seq<Seq<char>>, Seq<int>),
    ErrorModel,
> {
    match item {
        SelectItem::Wildcard => Ok((names, Seq::new(names.len(), |i: int| i))),
        SelectItem::Unnamed(e) => match e.kind {
            ExprKind::Identifier(name) => match column_at(name@, names) {
                Ok(i) => Ok((seq![uppercase(name@)], seq![i])),
                Err(x) => Err(x),
            },
            ExprKind::Compound(parts) => match last_column_at(parts@, names) {
                Ok(i) => Ok((seq![uppercase(parts@.last()@)], seq![i])),
                Err(x) => Err(x),
            },
            _ => Err(
                ErrorModel::Sql(
                    SqlState::FeatureNotSupported,
                    "unsupported SELECT item: "@ + e.text@,
                ),
            ),
        },
        SelectItem::Other(text) => Err(
            ErrorModel::Sql(
                SqlState::FeatureNotSupported,
                "unsupported SELECT item: "@ + text@,
            ),
        ),
    }
}

/// The names and positions that the first `n` items of a `SELECT` list select.
pub open spec fn list_columns(items: Seq<SelectItem>, names: Seq<Seq<char>>, n: int) -> Result<
    (Seq<Seq<char>>, Seq<int>),
    ErrorModel,
>
    decreases n,
{
    if n <= 0 {
        Ok((Seq::empty(), Seq::empty()))
    } else {
        match list_columns(items, names, n - 1) {
            Err(e) => Err(e),
            Ok((cols, at)) => match item_columns(items[n - 1], names) {
                Err(e) => Err(e),
                Ok((more, more_at)) => Ok((cols + more, at + more_at)),
            },
        }
    }
}

proof fn lemma_list_columns_error(
    items: Seq<SelectItem>,
    names: Seq<Seq<char>>,
    i: int,
    n: int,
)
    requires
        0 <= i <= n,
        list_columns(items, names, i) is Err,
    ensures
        list_columns(items, names, n) is Err,
        list_columns(items, names, n)->Err_0 == list_columns(items, names, i)->Err_0,
    decreases n - i,
{
    if i < n {
        lemma_list_columns_error(items, names, i, n - 1);
    }
}

/// Numbers as positions.
pub open spec fn positions(v: Seq<usize>) -> Seq<int> {
    Seq::new(v.len(), |i: int| v[i] as int)
}

/// Adds what an item selects to some names and positions.
fn push_item(
    item: &SelectItem,
    all: &Vec<String>,
    index: &ColumnIndex,
    names: &mut Vec<String>,
    at: &mut Vec<usize>,
) -> (r: DbResult<()>)
    requires
        index@ == names_view(all@),
        forall|k: int| 0 <= k < old(at)@.len() ==> #[trigger] old(at)@[k] < all@.len(),
    ensures
        match r {
            Ok(_) => {
                &&& item_columns(*item, index@) is Ok
                &&& names_view(final(names)@) == names_view(old(names)@) + item_columns(
                    *item,
                    index@,
                )->Ok_0.0
                &&& positions(final(at)@) == positions(old(at)@) + item_columns(
                    *item,
                    index@,
                )->Ok_0.1
                &&& forall|k: int|
                    0 <= k < final(at)@.len() ==> #[trigger] final(at)@[k] < all@.len()
            },
            Err(e) => item_columns(*item, index@) == Err::<
                (Seq<Seq<char>>, Seq<int>),
                ErrorModel,
            >(e@),
        },
{
    let ghost names0 = names_view(names@);
    let ghost at0 = positions(at@);
    match item {
        SelectItem::Wildcard => {
            let n: usize = all.len();
            let mut i: usize = 0;
            assert(names_view(names@) =~= names0 + index@.subrange(0, 0));
            assert(positions(at@) =~= at0 + Seq::new(0, |k: int| k));
            while i < n
                invariant
                    i <= n,
                    n == all@.len(),
                    index@ == names_view(all@),
                    names_view(names@) == names0 + index@.subrange(0, i as int),
                    positions(at@) == at0 + Seq::new(i as nat, |k: int| k),
                    forall|k: int| 0 <= k < at@.len() ==> #[trigger] at@[k] < all@.len(),
                decreases n - i,
            {
                let ghost names1 = names_view(names@);
                let ghost at1 = positions(at@);
                names.push(all[i].clone());
                at.push(i);
                proof {
                    assert(names_view(names@) =~= names1.push(all@[i as int]@));
                    assert(positions(at@) =~= at1.push(i as int));
                    assert(names_view(names@) =~= names0 + index@.subrange(0, i + 1));
                    assert(positions(at@) =~= at0 + Seq::new((i + 1) as nat, |k: int| k));
                }
                i += 1;
            }
            proof {
                assert(index@.subrange(0, n as int) =~= index@);
                assert(Seq::new(n as nat, |k: int| k) =~= item_columns(*item, index@)->Ok_0.1);
            }
            Ok(())
        }
        SelectItem::Unnamed(e) => match &e.kind {
            ExprKind::Identifier(name) => match find_column(name.as_str(), index) {
                Ok(i) => {
                    names.push(to_uppercase(name.as_str()));
                    at.push(i);
                    proof {
                        assert(names_view(names@) =~= names0 + seq![uppercase(name@)]);
                        assert(positions(at@) =~= at0 + seq![i as int]);
                    }
                    Ok(())
                }
                Err(x) => Err(x),
            },
            ExprKind::Compound(parts) => match find_last_column(parts, index) {
                Ok(i) => {
                    let last: usize = parts.len() - 1;
                    names.push(to_uppercase(parts[last].as_str()));
                    at.push(i);
                    proof {
                        assert(names_view(names@) =~= names0 + seq![uppercase(parts@.last()@)]);
                        assert(positions(at@) =~= at0 + seq![i as int]);
                    }
                    Ok(())
                }
                Err(x) => Err(x),
            },
            _ => Err(
                sql_error(
                    SqlState::FeatureNotSupported,
                    "unsupported SELECT item: ".to_owned().concat(e.text.as_str()),
                ),
            ),
        },
        SelectItem::Other(text) => Err(
            sql_error(
                SqlState::FeatureNotSupported,
                "unsupported SELECT item: ".to_owned().concat(text.as_str()),
            ),
        ),
    }
}

/// The names and positions of the columns that a `SELECT` list selects.
pub fn resolve_select_list(
    projection: &Vec<SelectItem>,
    all: &Vec<String>,
    index: &ColumnIndex,
) -> (r: DbResult<(Vec<String>, Vec<usize>)>)
    requires
        index@ == names_view(all@),
    ensures
        match r {
            Ok((names, at)) => {
                &&& list_columns(projection@, index@, projection@.len() as int) == Ok::<
                    (Seq<Seq<char>>, Seq<int>),
                    ErrorModel,
                >((names_view(names@), positions(at@)))
                &&& forall|k: int| 0 <= k < at@.len() ==> #[trigger] at@[k] < all@.len()
            },
            Err(e) => list_columns(projection@, index@, projection@.len() as int) == Err::<
                (Seq<Seq<char>>, Seq<int>),
                ErrorModel,
            >(e@),
        },
{
    let n: usize = projection.len();
    let mut names: Vec<String> = Vec::new();
    let mut at: Vec<usize> = Vec::new();
    let mut i: usize = 0;
    assert(names_view(names@) =~= Seq::<Seq<char>>::empty());
    assert(positions(at@) =~= Seq::<int>::empty());
    while i < n
        invariant
            i <= n,
            n == projection@.len(),
            index@ == names_view(all@),
            list_columns(projection@, index@, i as int) == Ok::<
                (Seq<Seq<char>>, Seq<int>),
                ErrorModel,
            >((names_view(names@), positions(at@))),
            forall|k: int| 0 <= k < at@.len() ==> #[trigger] at@[k] < all@.len(),
        decreases n - i,
    {
        match push_item(&projection[i], all, index, &mut names, &mut at) {
            Ok(_) => {}
            Err(e) => {
                proof {
                    lemma_list_columns_error(projection@, index@, i + 1, n as int);
                }
                return Err(e);
            }
        }
        i += 1;
    }
    Ok((names, at))
}

// ── Laws of values and rows ──

/// A value as it comes back from a column: a number has the type of the column.
pub open spec fn as_stored(v: ValueModel, col: ColumnDef) -> ValueModel {
    let base = base_type(col.typename);
    if base == "SMALLINT"@ {
        ValueModel::SmallInt(v.number()->0 as i16)
    } else if base == "INTEGER"@ {
        ValueModel::Integer(v.number()->0 as i32)
    } else {
        v
    }
}

/// A value that a column can hold is read back from the field that holds it, in the type of the
/// column, and equals what was stored.
pub proof fn law_value_round_trip(v: ValueModel, col: ColumnDef)
    requires
        stored_value(v, col) is Ok,
    ensures
        is_row_type(base_type(col.typename)),
        read_value(stored_value(v, col)->Ok_0, base_type(col.typename)) == Ok::<
            ValueModel,
            ErrorModel,
        >(as_stored(v, col)),
        equal_values(as_stored(v, col), v),
{
    reveal_strlit("CHAR");
    reveal_strlit("VARCHAR");
    reveal_strlit("SMALLINT");
    reveal_strlit("INTEGER");
    let base = base_type(col.typename);
    if v is Str {
        law_values_round_trip(0, 0, v->Str_0, true);
        if base == "CHAR"@ {
            assert(base[0] == 'C');
        } else {
            assert(base[0] == 'V');
        }
        assert("SMALLINT"@[0] == 'S');
        assert("INTEGER"@[0] == 'I');
    } else if base == "SMALLINT"@ {
        law_values_round_trip(v.number()->0 as i16, 0, Seq::empty(), true);
    } else {
        assert(base[0] == 'I');
        assert("SMALLINT"@[0] == 'S');
        law_values_round_trip(0, v.number()->0 as i32, Seq::empty(), true);
    }
}

proof fn lemma_row_round_trip(
    row: Seq<ValueModel>,
    cols: Seq<ColumnDef>,
    n: int,
    rest: Seq<u8>,
)
    requires
        0 <= n <= row.len() == cols.len(),
        fields_to(row, cols, n) is Ok,
        fields_to(row, cols, n)->Ok_0.len() < 0x1_0000_0000_0000_0000,
    ensures
        values_to(fields_to(row, cols, n)->Ok_0 + rest, cols, n) == Ok::<
            (Seq<ValueModel>, int),
            ErrorModel,
        >(
            (
                Seq::new(n as nat, |i: int| as_stored(row[i], cols[i])),
                fields_to(row, cols, n)->Ok_0.len() as int,
            ),
        ),
    decreases n,
{
    let want = Seq::new(n as nat, |i: int| as_stored(row[i], cols[i]));
    if n == 0 {
        assert(want =~= Seq::empty());
    } else {
        let front = fields_to(row, cols, n - 1)->Ok_0;
        let field = stored_value(row[n - 1], cols[n - 1])->Ok_0;
        let all = fields_to(row, cols, n)->Ok_0;
        assert(all == front + field_bytes(field));
        assert(field_bytes(field).len() >= field.len());
        lemma_row_round_trip(row, cols, n - 1, field_bytes(field) + rest);
        assert(front + (field_bytes(field) + rest) =~= all + rest);
        law_field_round_trip(front, field, rest);
        assert(front + field_bytes(field) + rest =~= all + rest);
        law_value_round_trip(row[n - 1], cols[n - 1]);
        let before = Seq::new((n - 1) as nat, |i: int| as_stored(row[i], cols[i]));
        assert(want =~= before.push(as_stored(row[n - 1], cols[n - 1])));
    }
}

/// A row that was made into bytes is read back from them: each value in the type of its column,
/// and equal to what was stored.
pub proof fn law_row_round_trip(row: Seq<ValueModel>, cols: Seq<ColumnDef>)
    requires
        row.len() == cols.len(),
        row_fields(row, cols) is Ok,
        row_fields(row, cols)->Ok_0.len() < 0x1_0000_0000_0000_0000,
    ensures
        row_values(row_fields(row, cols)->Ok_0, cols) is Ok,
        row_values(row_fields(row, cols)->Ok_0, cols)->Ok_0 == Seq::new(
            row.len(),
            |i: int| as_stored(row[i], cols[i]),
        ),
        forall|i: int|
            0 <= i < row.len() ==> equal_values(
                #[trigger] row_values(row_fields(row, cols)->Ok_0, cols)->Ok_0[i],
                row[i],
            ),
{
    let b = row_fields(row, cols)->Ok_0;
    lemma_row_round_trip(row, cols, cols.len() as int, Seq::empty());
    assert(b + Seq::<u8>::empty() =~= b);
    assert forall|i: int| 0 <= i < row.len() implies equal_values(
        #[trigger] row_values(b, cols)->Ok_0[i],
        row[i],
    ) by {
        lemma_fields_ok(row, cols, i, cols.len() as int);
        law_value_round_trip(row[i], cols[i]);
    }
}

proof fn lemma_fields_ok(row: Seq<ValueModel>, cols: Seq<ColumnDef>, i: int, n: int)
    requires
        0 <= i < n,
        fields_to(row, cols, n) is Ok,
    ensures
        stored_value(row[i], cols[i]) is Ok,
    decreases n,
{
    if i < n - 1 {
        lemma_fields_ok(row, cols, i, n - 1);
    }
}

/// Equality of values is symmetric.
pub proof fn law_equality_is_symmetric(a: ValueModel, b: ValueModel)
    ensures
        equal_values(a, b) == equal_values(b, a),
{
}

/// Equality of values is transitive.
pub proof fn law_equality_is_transitive(a: ValueModel, b: ValueModel, c: ValueModel)
    requires
        equal_values(a, b),
        equal_values(b, c),
    ensures
        equal_values(a, c),
{
}

/// A value equals itself, but for `NULL`, which equals nothing.
pub proof fn law_null_equals_nothing(a: ValueModel, b: ValueModel)
    ensures
        equal_values(a, a) == !(a is Null),
        a is Null ==> !equal_values(a, b) && !equal_values(b, a),
{
}

/// `!=` holds of a row where `=` does not, and is refused where `=` is.
pub proof fn law_inequality_is_the_opposite(
    left: Expr,
    right: Expr,
    eq: Expr,
    ne: Expr,
    names: Seq<Seq<char>>,
    row: Seq<ValueModel>,
)
    requires
        eq.kind == ExprKind::Binary(Box::new(left), BinaryOp::Eq, Box::new(right)),
        ne.kind == ExprKind::Binary(Box::new(left), BinaryOp::NotEq, Box::new(right)),
    ensures
        where_value(eq, names, row) is Ok == where_value(ne, names, row) is Ok,
        where_value(eq, names, row) is Ok ==> where_value(eq, names, row)->Ok_0
            == !where_value(ne, names, row)->Ok_0,
        where_value(eq, names, row) is Err ==> where_value(eq, names, row)
            == where_value(ne, names, row),
{
}

/// A `CHAR` or `VARCHAR` column counts with the length that it was declared with, and its type
/// keeps its name.
pub proof fn law_declared_length_counts(kind: Seq<char>, length: nat)
    requires
        is_text_type(kind),
        MIN_CHAR_LENGTH <= length <= MAX_CHAR_LENGTH,
    ensures
        base_type(sized_type(kind, length)) == kind,
        data_size(sized_type(kind, length)) == length,
{
    reveal_strlit("CHAR");
    reveal_strlit("VARCHAR");
    reveal_strlit("SMALLINT");
    reveal_strlit("INTEGER");
    reveal_strlit("BIGINT");
    reveal_strlit("DOUBLE");
    reveal_strlit("TIMESTAMP");
    reveal_strlit("(");
    reveal_strlit(")");
    let t = sized_type(kind, length);
    let digits = digits10(length);
    lemma_digits10(length);
    let front = kind + "("@;
    let tail = digits + ")"@;
    let none = Seq::<char>::empty();
    assert(forall|k: int| 0 <= k < kind.len() ==> kind[k] != '(');
    lemma_split_tail(none, kind, '(');
    assert(none + kind =~= kind);
    assert(split_parts(none, '(') =~= seq![none]);
    assert(split_parts(kind, '(') =~= seq![kind]);
    assert(front.drop_last() =~= kind);
    assert(front.last() == '(');
    assert(split_parts(front, '(') =~= seq![kind, none]);
    lemma_split_tail(front, tail, '(');
    assert(front + tail =~= t);
    assert(none + tail =~= tail);
    assert(split_parts(t, '(') =~= seq![kind, tail]);
    assert(tail.drop_last() =~= digits);
    assert(tail.last() == ')');
    assert(digits.last() != ')');
    reveal_with_fuel(without_brackets, 3);
    assert(without_brackets(tail) == digits);
    lemma_parse_decimal(length, usize::MAX as nat);
    assert(kind[0] == 'C' || kind[0] == 'V');
}

} // verus!
