use balrs::csv_input::{ports_from_csv, uris_from_csv};

#[test]
fn ports_are_read_after_the_header() {
    let data = b"port\n3000\n3001\n3002\n";
    assert_eq!(ports_from_csv(data), Some(vec![3000, 3001, 3002]));
}

#[test]
fn ports_take_the_first_field_of_each_record() {
    let data = b"port,name\n4000,a\n4001,b";
    assert_eq!(ports_from_csv(data), Some(vec![4000, 4001]));
}

#[test]
fn a_header_alone_gives_no_ports() {
    assert_eq!(ports_from_csv(b"port\n"), Some(vec![]));
    assert_eq!(ports_from_csv(b""), Some(vec![]));
}

#[test]
fn empty_lines_are_skipped() {
    let data = b"port\n\n5000\n\n5001\n";
    assert_eq!(ports_from_csv(data), Some(vec![5000, 5001]));
}

#[test]
fn an_invalid_port_refuses_the_list() {
    assert_eq!(ports_from_csv(b"port\n3000\n70000\n"), None);
    assert_eq!(ports_from_csv(b"port\nabc\n"), None);
    assert_eq!(ports_from_csv(b"port\n 3000\n"), None);
}

#[test]
fn a_record_of_another_length_refuses_the_list() {
    assert_eq!(ports_from_csv(b"port\n3000,extra\n"), None);
}

#[test]
fn non_utf8_records_refuse_the_list() {
    assert_eq!(ports_from_csv(b"port\n30\xff0\n"), None);
}

#[test]
fn uris_are_kept_as_written() {
    let data = b"uri\nhttp://127.0.0.1:5000\nhttp://localhost:5001/path\n";
    assert_eq!(
        uris_from_csv(data),
        Some(vec!["http://127.0.0.1:5000".to_string(), "http://localhost:5001/path".to_string()])
    );
}

#[test]
fn an_invalid_uri_refuses_the_list() {
    assert_eq!(uris_from_csv(b"uri\nhttp://127.0.0.1:5000\nhttp://[bad\n"), None);
}

#[test]
fn quoted_fields_are_unquoted() {
    assert_eq!(ports_from_csv(b"port\n\"6000\"\n"), Some(vec![6000]));
}
