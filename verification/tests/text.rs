use rqdb::catalog::loader::{parse_i16, parse_i32};
use rqdb::error::SqlState;
use rqdb::sql::types::{ResultSet, TableRef, Value};
use rqdb::text::{decimal_signed, hex8, parse_signed, parse_unsigned, to_lowercase, to_uppercase};

#[test]
fn letters_change_case() {
    assert_eq!(to_uppercase("abc_9Z"), "ABC_9Z");
    assert_eq!(to_lowercase("UserTBSP"), "usertbsp");
    // Beyond ASCII a letter may become several.
    assert_eq!(to_uppercase("straße"), "STRASSE");
    assert_eq!(to_lowercase("ÄÖ"), "äö");
}

#[test]
fn numbers_as_texts() {
    assert_eq!(decimal_signed(i64::MIN), "-9223372036854775808");
    assert_eq!(decimal_signed(0), "0");
    assert_eq!(hex8(0xbeef), "0x0000beef");
}

#[test]
fn texts_as_numbers() {
    assert_eq!(parse_unsigned("+7", 9), Some(7));
    assert_eq!(parse_unsigned("10", 9), None);
    assert_eq!(parse_unsigned("", 9), None);
    assert_eq!(parse_unsigned("+", 9), None);
    assert_eq!(parse_unsigned("-0", 9), None);
    assert_eq!(parse_signed("-32768", -32768, 32767), Some(-32768));
    assert_eq!(parse_signed("-32769", -32768, 32767), None);
    assert_eq!(parse_signed("00012", -32768, 32767), Some(12));
    assert_eq!(parse_signed("12x", -32768, 32767), None);
    assert_eq!(parse_signed("99999999999999999999", i64::MIN, i64::MAX), None);
}

#[test]
fn number_errors_say_what_is_wrong() {
    assert_eq!(parse_i16("32767").unwrap(), 32767);
    assert_eq!(
        parse_i16("32768").unwrap_err().to_string(),
        "data corruption: number too large to fit in target type"
    );
    assert_eq!(
        parse_i32("").unwrap_err().to_string(),
        "data corruption: cannot parse integer from empty string"
    );
    assert_eq!(
        parse_i32("1,5").unwrap_err().to_string(),
        "data corruption: invalid digit found in string"
    );
}

#[test]
fn states_have_their_codes() {
    assert_eq!(SqlState::GroupingError.code(), "42803");
    assert_eq!(SqlState::InvalidSqlStatement.code(), "26000");
    assert_eq!(SqlState::NumericValueOutOfRange.to_string(), "22003");
}

#[test]
fn values_are_shown() {
    assert_eq!(Value::SmallInt(-5).to_string(), "-5");
    assert_eq!(Value::BigInt(i64::MAX).to_string(), "9223372036854775807");
    assert_eq!(Value::Str("a b".to_string()).to_string(), "a b");
    assert_eq!(Value::Bool(true).to_string(), "Y");
    assert_eq!(Value::Bool(false).to_string(), "N");
    assert_eq!(Value::Null.to_string(), "NULL");
}

#[test]
fn results_are_shown_as_tables() {
    let empty = ResultSet { columns: Vec::new(), rows: Vec::new() };
    assert_eq!(empty.display(), "(empty result set)");

    let one = ResultSet {
        columns: vec!["ID".to_string(), "NAME".to_string()],
        rows: vec![vec![Value::Integer(1000), Value::Str("x".to_string())]],
    };
    assert_eq!(one.display(), "ID    NAME\n----  ----\n1000  x\n\n(1 row)");

    let two = ResultSet {
        columns: vec!["N".to_string()],
        rows: vec![vec![Value::Integer(1)], vec![Value::Null]],
    };
    assert_eq!(two.display(), "N   \n----\n1\nNULL\n\n(2 rows)");
}

#[test]
fn table_names_are_upper_case() {
    let t = TableRef::resolve(None, "items", "public").unwrap();
    assert_eq!((t.schema.as_str(), t.table.as_str()), ("PUBLIC", "ITEMS"));
    let t = TableRef::resolve(Some("My"), "Items", "public").unwrap();
    assert_eq!((t.schema.as_str(), t.table.as_str()), ("MY", "ITEMS"));
}
