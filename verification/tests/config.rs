use rqdb::catalog::config::{DbConfig, DEFAULT_PAGE_SIZE, FORMAT_VERSION};

#[test]
fn roundtrip_default_config() {
    let cfg = DbConfig::default();
    let loaded = DbConfig::read(&cfg.write()).unwrap();
    assert_eq!(loaded.page_size, DEFAULT_PAGE_SIZE);
    assert_eq!(loaded.diag_level, "INFO");
    assert!(!loaded.text_mode);
    assert_eq!(loaded.default_schema, "PUBLIC");
    assert_eq!(loaded.default_tablespace, "USERTBSP");
}

#[test]
fn reject_bad_page_size() {
    let text = format!("FORMAT_VERSION = {FORMAT_VERSION}\nPAGESIZE = 1000\n");
    let err = DbConfig::read(&text).unwrap_err();
    assert!(err.to_string().contains("power of two"));
}

#[test]
fn reject_bad_diaglevel() {
    let text = format!("FORMAT_VERSION = {FORMAT_VERSION}\nDIAGLEVEL = VERBOSE\n");
    let err = DbConfig::read(&text).unwrap_err();
    assert!(err.to_string().contains("invalid DIAGLEVEL"));
}

#[test]
fn reject_old_format_version() {
    let err = DbConfig::read("FORMAT_VERSION = 1\n").unwrap_err();
    assert!(err.to_string().contains("incompatible database format"));
}

#[test]
fn roundtrip_next_txid() {
    let mut cfg = DbConfig::default();
    cfg.next_txid = 42;
    let loaded = DbConfig::read(&cfg.write()).unwrap();
    assert_eq!(loaded.next_txid, 42);
    assert_eq!(loaded.format_version, FORMAT_VERSION);
}

fn refusal(text: &str) -> String {
    DbConfig::read(&format!("FORMAT_VERSION = {FORMAT_VERSION}\n{text}")).unwrap_err().to_string()
}

#[test]
fn missing_settings_have_defaults() {
    let c = DbConfig::read(&format!("FORMAT_VERSION = {FORMAT_VERSION}\n")).unwrap();
    assert_eq!(c.page_size, 4096);
    assert_eq!(c.diag_level, "INFO");
    assert_eq!(c.sys_schema, "RQSYS");
    assert_eq!(c.next_txid, 1);
}

#[test]
fn comments_and_spaces_are_passed_over() {
    let c = DbConfig::read("-- a comment\n\n  FORMAT_VERSION=2  \r\n PAGESIZE = 8192\n").unwrap();
    assert_eq!(c.page_size, 8192);
}

#[test]
fn later_settings_win() {
    let c = DbConfig::read("FORMAT_VERSION = 2\nPAGESIZE = 4096\nPAGESIZE = 16384\n").unwrap();
    assert_eq!(c.page_size, 16384);
}

#[test]
fn every_setting_survives_a_round_trip() {
    let mut c = DbConfig::default();
    c.page_size = 32768;
    c.diag_level = "DEBUG".to_string();
    c.text_mode = true;
    c.default_schema = "MYSCHEMA".to_string();
    c.default_tablespace = "OTHER".to_string();
    c.sys_schema = "SYS".to_string();
    c.next_txid = u64::MAX;
    let again = DbConfig::read(&c.write()).unwrap();
    assert_eq!(again.page_size, 32768);
    assert_eq!(again.diag_level, "DEBUG");
    assert!(again.text_mode);
    assert_eq!(again.default_schema, "MYSCHEMA");
    assert_eq!(again.default_tablespace, "OTHER");
    assert_eq!(again.sys_schema, "SYS");
    assert_eq!(again.next_txid, u64::MAX);
}

#[test]
fn wrong_settings_are_refused() {
    assert!(refusal("PAGESIZE\n").contains("SQLDBCONF line 2: expected KEY = VALUE, got: PAGESIZE"));
    assert!(refusal("PAGESIZE = many\n").contains("PAGESIZE"));
    assert!(refusal("TEXT_MODE = perhaps\n").contains("TEXT_MODE"));
    assert!(refusal("NEXT_TXID = -1\n").contains("NEXT_TXID"));
    let err = DbConfig::read("FORMAT_VERSION = 3\n").unwrap_err();
    assert!(err.to_string().contains("incompatible database format version 3"));
    assert!(err.to_string().contains("a newer"));
}
