use memkv::text_protocol::{DataRequest, IncrRequest, Request, Response};

fn parse(input: &str, eof: bool) -> Option<(Request, usize)> {
    Request::parse(input.as_bytes(), eof)
}

fn keys_of(r: &Request) -> (Vec<String>, bool) {
    match r {
        Request::Get { keys, cas } => (
            keys.iter().map(|k| String::from_utf8(k.clone()).unwrap()).collect(),
            *cas,
        ),
        _ => panic!("not a get"),
    }
}

fn written(r: Response) -> String {
    let mut out = Vec::new();
    r.write(&mut out);
    String::from_utf8(out).unwrap()
}

#[test]
fn get_splits_keys_on_whitespace() {
    let (r, n) = parse("get a  bb\tccc\r\n", false).unwrap();
    assert_eq!(n, 15);
    assert_eq!(keys_of(&r), (vec!["a".to_string(), "bb".to_string(), "ccc".to_string()], false));
}

#[test]
fn gets_sets_cas() {
    let (r, _) = parse("gets k1 k2\r\n", false).unwrap();
    assert_eq!(keys_of(&r), (vec!["k1".to_string(), "k2".to_string()], true));
}

#[test]
fn get_without_keys() {
    let (r, n) = parse("get\r\n", false).unwrap();
    assert_eq!(n, 5);
    assert_eq!(keys_of(&r), (Vec::<String>::new(), false));
}

#[test]
fn incomplete_line_waits() {
    assert!(parse("get k", false).is_none());
    assert!(parse("", false).is_none());
}

#[test]
fn last_line_at_end_of_stream() {
    let (r, n) = parse("get k", true).unwrap();
    assert_eq!(n, 5);
    assert_eq!(keys_of(&r), (vec!["k".to_string()], false));
}

#[test]
fn empty_stream_at_end_is_closed() {
    assert!(matches!(parse("", true), Some((Request::Closed, 0))));
}

#[test]
fn blank_line_is_error() {
    assert!(matches!(parse("  \r\n", false), Some((Request::Error, 4))));
}

#[test]
fn unknown_command_is_error() {
    assert!(matches!(parse("hihi", true), Some((Request::Error, 4))));
}

#[test]
fn set_reads_its_value() {
    let (r, n) = parse("set k 5 60 3\r\nabc\r\nget k\r\n", false).unwrap();
    assert_eq!(n, 19);
    match r {
        Request::SetValue(DataRequest { key, flags, exptime, value }) => {
            assert_eq!(key, b"k".to_vec());
            assert_eq!(flags, 5);
            assert_eq!(exptime, 60);
            assert_eq!(value, b"abc".to_vec());
        }
        _ => panic!("not a set"),
    }
}

#[test]
fn storage_commands_by_verb() {
    assert!(matches!(parse("add k 0 0 1\r\nx\r\n", false), Some((Request::Add(_), 16))));
    assert!(matches!(parse("replace k 0 0 1\r\nx\r\n", false), Some((Request::Replace(_), 20))));
    assert!(matches!(parse("append k 0 0 1\r\nx\r\n", false), Some((Request::Append(_), 19))));
    assert!(matches!(parse("prepend k 0 0 1\r\nx\r\n", false), Some((Request::Prepend(_), 20))));
}

#[test]
fn value_with_wrong_terminator_is_error_and_consumed() {
    assert!(matches!(parse("set k 0 0 1\r\nxyz\r\n", false), Some((Request::Error, 16))));
}

#[test]
fn value_waits_for_its_bytes() {
    assert!(parse("set k 0 0 4\r\nab", false).is_none());
    assert!(matches!(parse("set k 0 0 4\r\nab", true), Some((Request::Error, 15))));
}

#[test]
fn bad_numbers_are_errors_without_consuming_the_value() {
    assert!(matches!(parse("set k x 0 1\r\nv\r\n", false), Some((Request::Error, 13))));
    assert!(matches!(parse("set k 65536 0 1\r\nv\r\n", false), Some((Request::Error, 17))));
    assert!(matches!(parse("set k -1 0 1\r\nv\r\n", false), Some((Request::Error, 14))));
}

#[test]
fn wrong_arity_is_error() {
    assert!(matches!(parse("set k 0 0\r\n", false), Some((Request::Error, 11))));
    assert!(matches!(parse("quit now\r\n", false), Some((Request::Error, 10))));
    assert!(matches!(parse("delete\r\n", false), Some((Request::Error, 8))));
}

#[test]
fn cas_reads_token_and_value() {
    let (r, n) = parse("cas k 1 2 2 77\r\nhi\r\n", false).unwrap();
    assert_eq!(n, 20);
    match r {
        Request::Cas { data, cas } => {
            assert_eq!(cas, 77);
            assert_eq!(data.value, b"hi".to_vec());
            assert_eq!(data.flags, 1);
        }
        _ => panic!("not a cas"),
    }
}

#[test]
fn delete_touch_incr_decr() {
    match parse("delete k noreply\r\n", false).unwrap().0 {
        Request::Delete { key, noreply } => {
            assert_eq!(key, b"k".to_vec());
            assert!(noreply);
        }
        _ => panic!("not a delete"),
    }
    assert!(matches!(parse("delete k later\r\n", false), Some((Request::Error, _))));
    match parse("touch k 30\r\n", false).unwrap().0 {
        Request::Touch { exptime, noreply, .. } => {
            assert_eq!(exptime, 30);
            assert!(!noreply);
        }
        _ => panic!("not a touch"),
    }
    match parse("incr k 7 noreply\r\n", false).unwrap().0 {
        Request::Incr(IncrRequest { value, noreply, .. }) => {
            assert_eq!(value, 7);
            assert!(noreply);
        }
        _ => panic!("not an incr"),
    }
    assert!(matches!(parse("decr k 1\r\n", false), Some((Request::Decr(_), 10))));
    assert!(matches!(parse("incr k x\r\n", false), Some((Request::Error, 10))));
}

#[test]
fn stats_and_slabs_keep_the_line() {
    match parse("stats items\r\n", false).unwrap().0 {
        Request::Stats(line) => assert_eq!(line, b"stats items\r\n".to_vec()),
        _ => panic!("not stats"),
    }
    match parse("slabs reassign 1 2\r\n", false).unwrap().0 {
        Request::Slabs(line) => assert_eq!(line, b"slabs reassign 1 2\r\n".to_vec()),
        _ => panic!("not slabs"),
    }
}

#[test]
fn bare_commands() {
    assert!(matches!(parse("flush_all\r\n", false), Some((Request::FlushAll, 11))));
    assert!(matches!(parse("version\r\n", false), Some((Request::Version, 9))));
    assert!(matches!(parse("quit\r\n", false), Some((Request::Quit, 6))));
}

#[test]
fn responses_serialize() {
    assert_eq!(
        written(Response::KeyValue { key: b"key".to_vec(), flags: 12, value: b"hello".to_vec(), cas: None }),
        "VALUE key 12 5\r\nhello\r\n"
    );
    assert_eq!(
        written(Response::KeyValue { key: b"k".to_vec(), flags: 0, value: vec![], cas: Some(18446744073709551615) }),
        "VALUE k 0 0 18446744073709551615\r\n\r\n"
    );
    assert_eq!(written(Response::End), "END\r\n");
    assert_eq!(written(Response::Error), "ERROR\r\n");
    assert_eq!(written(Response::ClientError(b"bad".to_vec())), "CLIENT_ERROR bad\r\n");
    assert_eq!(written(Response::ServerError(b"oops".to_vec())), "SERVER_ERROR oops\r\n");
    assert_eq!(written(Response::NotFound), "NOT_FOUND\r\n");
    assert_eq!(written(Response::Deleted), "DELETED\r\n");
    assert_eq!(written(Response::Touched), "TOUCHED\r\n");
    assert_eq!(written(Response::NoReply), "");
    assert_eq!(written(Response::Okay), "OK\r\n");
    assert_eq!(
        written(Response::Stats(vec![
            (b"pid".to_vec(), b"42".to_vec()),
            (b"uptime".to_vec(), b"7".to_vec())
        ])),
        "STAT pid 42\r\nSTAT uptime 7\r\n"
    );
}
