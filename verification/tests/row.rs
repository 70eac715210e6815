use rqdb::catalog::row::{RowReader, RowWriter};

#[test]
fn roundtrip_fields() {
    let mut w = RowWriter::new();
    w.write_i16(42);
    w.write_string("HELLO");
    w.write_bool(true);
    w.write_i32(-1);
    let data = w.finish();

    let mut r = RowReader::new(&data);
    assert_eq!(r.read_i16().unwrap(), 42);
    assert_eq!(r.read_string().unwrap(), "HELLO");
    assert_eq!(r.read_bool().unwrap(), true);
    assert_eq!(r.read_i32().unwrap(), -1);
}

#[test]
fn bytes_of_fields_are_exact() {
    let mut w = RowWriter::new();
    w.write_i16(-2);
    w.write_string("é");
    w.write_bool(false);
    assert_eq!(
        w.finish(),
        vec![
            2, 0, 0, 0, 0, 0, 0, 0, 0xfe, 0xff, // a SMALLINT
            2, 0, 0, 0, 0, 0, 0, 0, 0xc3, 0xa9, // a text
            1, 0, 0, 0, 0, 0, 0, 0, b'N', // a flag
        ]
    );
}

#[test]
fn extreme_numbers_round_trip() {
    let mut w = RowWriter::new();
    for v in [i16::MIN, -1, 0, i16::MAX] {
        w.write_i16(v);
    }
    for v in [i32::MIN, -1, 0, i32::MAX] {
        w.write_i32(v);
    }
    let data = w.finish();
    let mut r = RowReader::new(&data);
    for v in [i16::MIN, -1, 0, i16::MAX] {
        assert_eq!(r.read_i16().unwrap(), v);
    }
    for v in [i32::MIN, -1, 0, i32::MAX] {
        assert_eq!(r.read_i32().unwrap(), v);
    }
}

#[test]
fn damaged_fields_are_refused() {
    let mut r = RowReader::new(&[1, 0, 0]);
    assert_eq!(r.read_i16().unwrap_err().to_string(), "data corruption: unexpected end of row");

    let mut r = RowReader::new(&[9, 0, 0, 0, 0, 0, 0, 0, 1]);
    assert_eq!(
        r.read_string().unwrap_err().to_string(),
        "data corruption: field exceeds row boundary"
    );

    // A length that would overflow.
    let mut r = RowReader::new(&[0xff; 8]);
    assert_eq!(
        r.read_field().unwrap_err().to_string(),
        "data corruption: field exceeds row boundary"
    );

    let mut w = RowWriter::new();
    w.write_field(&[1, 2, 3]);
    w.write_field(&[0xff]);
    let data = w.finish();
    let mut r = RowReader::new(&data);
    assert_eq!(r.read_i32().unwrap_err().to_string(), "data corruption: invalid INTEGER");
    assert!(r.read_string().unwrap_err().to_string().starts_with("data corruption: invalid UTF-8: "));
    let mut r = RowReader::new(&data);
    assert_eq!(r.read_i16().unwrap_err().to_string(), "data corruption: invalid SMALLINT");
    assert_eq!(r.read_bool().unwrap_err().to_string(), "data corruption: expected Y/N flag");
}
