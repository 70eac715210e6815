use rqdb::catalog::cache::ColumnIndex;
use rqdb::catalog::types::Column;
use rqdb::error::{DbResult, Error, SqlState};
use rqdb::sql::ast::{BinaryOp, CharLength, Expr, ExprKind, Literal, SelectItem, SqlType};
use rqdb::sql::eval::{
    deserialize_row, eval_expr, eval_literal, eval_where, map_data_type, max_row_size,
    resolve_select_list, serialize_row, validate_char_length, values_eq,
};
use rqdb::sql::types::Value;

fn column(name: &str, typename: &str) -> Column {
    Column {
        name: name.to_string(),
        tabname: "T".to_string(),
        schemaname: "PUBLIC".to_string(),
        ordinal: 0,
        typename: typename.to_string(),
        nullable: true,
    }
}

fn expr(kind: ExprKind, text: &str) -> Expr {
    Expr { kind, text: text.to_string() }
}

fn number(n: &str) -> Expr {
    expr(ExprKind::Value(Literal::Number(n.to_string())), n)
}

fn text(s: &str) -> Expr {
    expr(ExprKind::Value(Literal::Text(s.to_string())), &format!("'{s}'"))
}

fn name(s: &str) -> Expr {
    expr(ExprKind::Identifier(s.to_string()), s)
}

fn binary(left: Expr, op: BinaryOp, right: Expr) -> Expr {
    expr(ExprKind::Binary(Box::new(left), op, Box::new(right)), "a condition")
}

fn minus(e: Expr) -> Expr {
    let shown = format!("-{}", e.text);
    expr(ExprKind::Minus(Box::new(e)), &shown)
}

fn index(names: &[&str]) -> ColumnIndex {
    ColumnIndex::new(&names.iter().map(|s| s.to_string()).collect())
}

fn refused<T>(r: DbResult<T>, state: SqlState, message: &str) {
    match r {
        Err(Error::Sql { state: s, message: m }) => {
            assert_eq!(s, state);
            assert_eq!(m, message);
        }
        Err(other) => panic!("expected {message}, got {other:?}"),
        Ok(_) => panic!("expected {message}, got a result"),
    }
}

// ── Literals ──

#[test]
fn numbers_get_the_narrowest_type() {
    assert_eq!(eval_literal(&number("32767")).unwrap(), Value::SmallInt(32767));
    assert_eq!(eval_literal(&number("32768")).unwrap(), Value::Integer(32768));
    assert_eq!(eval_literal(&number("2147483648")).unwrap(), Value::BigInt(2147483648));
    refused(
        eval_literal(&number("9223372036854775808")),
        SqlState::DataException,
        "unsupported number: 9223372036854775808",
    );
    refused(eval_literal(&number("1.5")), SqlState::DataException, "unsupported number: 1.5");
}

#[test]
fn numbers_are_negated_in_their_type() {
    assert_eq!(eval_literal(&minus(number("5"))).unwrap(), Value::SmallInt(-5));
    assert_eq!(eval_literal(&minus(minus(number("40000")))).unwrap(), Value::Integer(40000));
    refused(
        eval_literal(&minus(text("x"))),
        SqlState::DataException,
        "cannot negate non-numeric value",
    );
}

#[test]
fn only_literals_stand_in_values() {
    assert_eq!(eval_literal(&text("x")).unwrap(), Value::Str("x".to_string()));
    let null = expr(ExprKind::Value(Literal::Null), "NULL");
    assert_eq!(eval_literal(&null).unwrap(), Value::Null);
    let other = expr(ExprKind::Value(Literal::Other), "true");
    refused(eval_literal(&other), SqlState::DataException, "unsupported literal: true");
    refused(
        eval_literal(&name("a")),
        SqlState::FeatureNotSupported,
        "expression not allowed in VALUES: a",
    );
}

// ── Expressions ──

#[test]
fn columns_are_found_in_any_case() {
    let i = index(&["ID", "NAME"]);
    let row = vec![Value::Integer(7), Value::Str("x".to_string())];
    assert_eq!(eval_expr(&name("name"), &i, &row).unwrap(), Value::Str("x".to_string()));
    let compound = expr(
        ExprKind::Compound(vec!["t".to_string(), "Id".to_string()]),
        "t.Id",
    );
    assert_eq!(eval_expr(&compound, &i, &row).unwrap(), Value::Integer(7));
    refused(
        eval_expr(&name("nope"), &i, &row),
        SqlState::ColumnNotFound,
        "column NOPE not found",
    );
    let empty = expr(ExprKind::Compound(Vec::new()), "");
    refused(eval_expr(&empty, &i, &row), SqlState::SyntaxError, "empty identifier");
    refused(
        eval_expr(&expr(ExprKind::Value(Literal::Null), "NULL"), &i, &row),
        SqlState::DataException,
        "unsupported literal: NULL",
    );
    refused(
        eval_expr(&minus(number("1")), &i, &row),
        SqlState::FeatureNotSupported,
        "unsupported expression: -1",
    );
}

#[test]
fn equality_is_by_amount() {
    assert!(values_eq(&Value::SmallInt(3), &Value::BigInt(3)));
    assert!(values_eq(&Value::BigInt(3), &Value::SmallInt(3)));
    assert!(values_eq(&Value::Integer(-1), &Value::BigInt(-1)));
    assert!(!values_eq(&Value::Integer(1), &Value::Str("1".to_string())));
    assert!(values_eq(&Value::Bool(true), &Value::Bool(true)));
    assert!(!values_eq(&Value::Null, &Value::Null));
}

#[test]
fn conditions_are_combined() {
    let i = index(&["A", "B"]);
    let row = vec![Value::Integer(1), Value::Integer(2)];
    let a1 = || binary(name("a"), BinaryOp::Eq, number("1"));
    let b9 = || binary(name("b"), BinaryOp::Eq, number("9"));
    let bad = || binary(name("c"), BinaryOp::Eq, number("1"));
    assert!(eval_where(&binary(a1(), BinaryOp::Or, b9()), &i, &row).unwrap());
    assert!(!eval_where(&binary(a1(), BinaryOp::And, b9()), &i, &row).unwrap());
    assert!(eval_where(&binary(name("b"), BinaryOp::NotEq, number("9")), &i, &row).unwrap());
    // The right side is not looked at where the left side decides.
    assert!(eval_where(&binary(a1(), BinaryOp::Or, bad()), &i, &row).unwrap());
    assert!(!eval_where(&binary(b9(), BinaryOp::And, bad()), &i, &row).unwrap());
    refused(
        eval_where(&binary(a1(), BinaryOp::And, bad()), &i, &row),
        SqlState::ColumnNotFound,
        "column C not found",
    );
    refused(
        eval_where(&binary(name("a"), BinaryOp::Other("<".to_string()), number("1")), &i, &row),
        SqlState::FeatureNotSupported,
        "unsupported operator: <",
    );
    refused(
        eval_where(&name("a"), &i, &row),
        SqlState::FeatureNotSupported,
        "unsupported WHERE expression: a",
    );
}

// ── Types ──

#[test]
fn row_sizes_are_exact() {
    let columns = vec![
        column("A", "SMALLINT"),
        column("B", "INTEGER"),
        column("C", "BIGINT"),
        column("D", "DOUBLE"),
        column("E", "TIMESTAMP"),
        column("F", "CHAR(5)"),
        column("G", "VARCHAR(100)"),
        column("H", "VARCHAR"),
        column("I", "BLOB"),
    ];
    assert_eq!(max_row_size(&columns), 9 * 8 + 2 + 4 + 8 + 8 + 33 + 5 + 100 + 1 + 255);
    assert_eq!(max_row_size(&Vec::new()), 0);
}

#[test]
fn lengths_have_bounds() {
    assert!(validate_char_length(1, "CHAR").is_ok());
    assert!(validate_char_length(32672, "CHAR").is_ok());
    refused(
        validate_char_length(0, "CHAR"),
        SqlState::InvalidColumnLength,
        "invalid length 0 for CHAR (must be 1..32672)",
    );
    refused(
        map_data_type(&SqlType::Varchar(Some(CharLength::Integer(32673)))),
        SqlState::InvalidColumnLength,
        "invalid length 32673 for VARCHAR (must be 1..32672)",
    );
}

#[test]
fn types_have_their_names() {
    assert_eq!(map_data_type(&SqlType::Varchar(Some(CharLength::Integer(50)))).unwrap(), "VARCHAR(50)");
    assert_eq!(map_data_type(&SqlType::Varchar(None)).unwrap(), "VARCHAR(255)");
    assert_eq!(map_data_type(&SqlType::Varchar(Some(CharLength::Max))).unwrap(), "VARCHAR(255)");
    assert_eq!(map_data_type(&SqlType::Int).unwrap(), "INTEGER");
    assert_eq!(map_data_type(&SqlType::DoublePrecision).unwrap(), "DOUBLE");
    assert_eq!(
        map_data_type(&SqlType::Character(Some(CharLength::Integer(3)))).unwrap(),
        "CHAR(3)"
    );
    assert_eq!(map_data_type(&SqlType::Char(None)).unwrap(), "CHAR(1)");
    assert_eq!(map_data_type(&SqlType::Boolean).unwrap(), "CHAR(1)");
    assert_eq!(map_data_type(&SqlType::Timestamp).unwrap(), "TIMESTAMP");
    refused(
        map_data_type(&SqlType::Other("BLOB".to_string())),
        SqlState::FeatureNotSupported,
        "unsupported data type: BLOB",
    );
}

// ── Rows ──

#[test]
fn row_round_trip_gives_the_types_of_the_columns() {
    let columns = vec![column("A", "SMALLINT"), column("B", "INTEGER"), column("C", "VARCHAR(9)")];
    let row = vec![Value::BigInt(-3), Value::SmallInt(4), Value::Str("grün".to_string())];
    let bytes = serialize_row(&row, &columns).unwrap();
    assert_eq!(bytes.len(), 8 + 2 + 8 + 4 + 8 + 5);
    assert_eq!(
        deserialize_row(&bytes, &columns).unwrap(),
        vec![Value::SmallInt(-3), Value::Integer(4), Value::Str("grün".to_string())]
    );
}

#[test]
fn values_that_a_column_cannot_hold_are_refused() {
    let small = vec![column("A", "SMALLINT")];
    assert!(serialize_row(&vec![Value::Integer(32767)], &small).is_ok());
    refused(
        serialize_row(&vec![Value::Integer(32768)], &small),
        SqlState::NumericValueOutOfRange,
        "value 32768 out of range for column A of type SMALLINT",
    );
    refused(
        serialize_row(&vec![Value::BigInt(2147483648)], &vec![column("B", "INTEGER")]),
        SqlState::NumericValueOutOfRange,
        "value 2147483648 out of range for column B of type INTEGER",
    );
    refused(
        serialize_row(&vec![Value::Null], &small),
        SqlState::NotNullViolation,
        "NULL not allowed for column A",
    );
    refused(
        serialize_row(&vec![Value::Str("x".to_string())], &small),
        SqlState::AssignmentError,
        "type mismatch for column A: cannot store x as SMALLINT",
    );
    refused(
        serialize_row(&vec![Value::Integer(5)], &vec![column("C", "VARCHAR(9)")]),
        SqlState::AssignmentError,
        "type mismatch for column C: cannot store 5 as VARCHAR(9)",
    );
}

#[test]
fn rows_of_other_types_cannot_be_read() {
    refused(
        deserialize_row(&[], &vec![column("A", "BIGINT")]),
        SqlState::FeatureNotSupported,
        "unsupported column type: BIGINT",
    );
    let err = deserialize_row(&[1], &vec![column("A", "INTEGER")]).unwrap_err();
    assert_eq!(err.to_string(), "data corruption: unexpected end of row");
}

// ── The list of a query ──

#[test]
fn select_lists_are_resolved() {
    let all = vec!["A".to_string(), "B".to_string()];
    let i = ColumnIndex::new(&all);
    let list = vec![SelectItem::Unnamed(name("b")), SelectItem::Wildcard];
    let (names, at) = resolve_select_list(&list, &all, &i).unwrap();
    assert_eq!(names, vec!["B", "A", "B"]);
    assert_eq!(at, vec![1, 0, 1]);
    refused(
        resolve_select_list(&vec![SelectItem::Unnamed(number("1"))], &all, &i),
        SqlState::FeatureNotSupported,
        "unsupported SELECT item: 1",
    );
    refused(
        resolve_select_list(&vec![SelectItem::Other("a AS x".to_string())], &all, &i),
        SqlState::FeatureNotSupported,
        "unsupported SELECT item: a AS x",
    );
}

#[test]
fn row_sizes_add_up_and_are_attained() {
    let columns = vec![column("A", "INTEGER"), column("B", "VARCHAR(4032)")];
    assert_eq!(max_row_size(&columns), 4052);
    let one = max_row_size(&vec![column("A", "INTEGER")]);
    let other = max_row_size(&vec![column("B", "VARCHAR(4032)")]);
    assert_eq!(one + other, 4052);
    let row = vec![Value::Integer(0), Value::Str("a".repeat(4032))];
    assert_eq!(serialize_row(&row, &columns).unwrap().len(), 4052);
    let row = vec![Value::Integer(0), Value::Str("a".repeat(4000))];
    assert!(serialize_row(&row, &columns).unwrap().len() < 4052);
}
