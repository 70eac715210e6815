use rqdb::shell::{parse_args, read_input, Input};

fn args(list: &[&str]) -> Vec<String> {
    list.iter().map(|s| s.to_string()).collect()
}

#[test]
fn no_arguments_give_the_defaults() {
    let o = parse_args(&args(&["prog"])).unwrap();
    assert_eq!(o.data_dir, "./TESTDB");
    assert!(!o.text_mode);
}

#[test]
fn arguments_are_read_in_order() {
    let o = parse_args(&args(&["prog", "--data-dir", "a", "--text-mode", "--data-dir", "b"])).unwrap();
    assert_eq!(o.data_dir, "b");
    assert!(o.text_mode);
    let o = parse_args(&args(&["prog", "--data-dir", "--text-mode"])).unwrap();
    assert_eq!(o.data_dir, "--text-mode");
    assert!(!o.text_mode);
}

#[test]
fn wrong_arguments_are_refused() {
    assert_eq!(parse_args(&args(&["prog", "--data-dir"])).unwrap_err(), "--data-dir requires a value");
    assert_eq!(parse_args(&args(&["prog", "-x"])).unwrap_err(), "unknown argument: -x");
}

#[test]
fn lines_are_told_apart() {
    assert!(matches!(read_input("  \t\n"), Input::Nothing));
    assert!(matches!(read_input(" \\q\n"), Input::Quit));
    assert!(matches!(read_input("QUIT\n"), Input::Quit));
    assert!(matches!(read_input("Exit"), Input::Quit));
    match read_input("  SELECT 1 ; \n") {
        Input::Sql(s) => assert_eq!(s, "SELECT 1 ;"),
        other => panic!("expected SQL, got {other:?}"),
    }
    assert!(matches!(read_input("quit now"), Input::Sql(_)));
}
