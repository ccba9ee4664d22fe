use std::cell::RefCell;

use memkv::binary_protocol::{
    decode_response, PWrite, Request, RequestHeader, ResponseHeader, REQUEST_MAGIC,
    RESPONSE_MAGIC,
};
use memkv::kvstore::KvStore;
use memkv::opcodes;
use memkv::response_status;
use memkv::server::{detect_protocol, handle_connection, protocol_name, serve, Protocol};

/// A store with one pair, {"k": "v"}.
struct DummyKvStore {}

impl KvStore for DummyKvStore {
    fn get(&self, key: &[u8]) -> Option<Vec<u8>> {
        if key == "k".as_bytes() {
            Some("v".as_bytes().to_vec())
        } else {
            None
        }
    }
}

fn text_reply(input: &str) -> String {
    String::from_utf8(serve(&DummyKvStore {}, input.as_bytes())).unwrap()
}

fn binary_request(opcode: u8, key: &[u8]) -> Vec<u8> {
    let mut out: Vec<u8> = Vec::new();
    out.write_request(&Request {
        header: RequestHeader {
            magic: REQUEST_MAGIC,
            opcode,
            key_length: key.len() as u16,
            extras_length: 0,
            data_type: 0x00,
            reserved: 0,
            total_body_length: key.len() as u32,
            opaque: 0,
            cas: 0,
        },
        extras: vec![],
        key: key.to_vec(),
        value: vec![],
    });
    out
}

#[test]
fn test_handle_client_nonsense() {
    assert_eq!("ERROR\r\n", text_reply("hihi"));
}

#[test]
fn test_text_key_present() {
    assert_eq!("VALUE k 0 1\r\nv\r\nEND\r\n", text_reply("get k"));
}

#[test]
fn test_text_key_absent() {
    assert_eq!("END\r\n", text_reply("get _"));
}

#[test]
fn test_text_not_implemented() {
    assert_eq!(
        "SERVER_ERROR Read-only; method not implemented\r\n",
        text_reply("set k 0 60 1\r\n_\r\n")
    );
}

#[test]
fn text_gets_reports_zero_cas() {
    assert_eq!("VALUE k 0 1 0\r\nv\r\nEND\r\n", text_reply("gets k\r\n"));
}

#[test]
fn text_multi_get_skips_misses_in_order() {
    assert_eq!(
        "VALUE k 0 1\r\nv\r\nVALUE k 0 1\r\nv\r\nEND\r\n",
        text_reply("get k _ k\r\n")
    );
}

#[test]
fn text_quit_stops_the_connection() {
    assert_eq!("END\r\n", text_reply("get _\r\nquit\r\nget k\r\n"));
}

#[test]
fn text_pipelined_requests_answered_in_order() {
    assert_eq!(
        "END\r\nERROR\r\nSERVER_ERROR Read-only; method not implemented\r\n",
        text_reply("get _\r\nbogus\r\ndelete k\r\n")
    );
}

#[test]
fn text_get_without_keys_ends_at_once() {
    assert_eq!("END\r\n", text_reply("get\r\n"));
}

#[test]
fn empty_connection_gets_nothing() {
    assert_eq!("", text_reply(""));
}

#[test]
fn test_binary_key_present() {
    let reply = serve(&DummyKvStore {}, &binary_request(opcodes::GET, b"k"));
    let (resp, n) = decode_response(&reply).unwrap();
    assert_eq!(n, reply.len());
    assert_eq!(
        resp.header,
        ResponseHeader {
            magic: RESPONSE_MAGIC,
            opcode: opcodes::GET,
            key_length: 0,
            extras_length: 4,
            data_type: 0x00,
            status: response_status::NO_ERROR,
            total_body_length: 5,
            opaque: 0,
            cas: 0,
        }
    );
    assert_eq!(resp.extras, vec![0, 0, 0, 0]);
    assert_eq!(resp.key, Vec::<u8>::new());
    assert_eq!(resp.value, b"v".to_vec());
}

#[test]
fn test_binary_key_absent() {
    let reply = serve(&DummyKvStore {}, &binary_request(opcodes::GET, b"_"));
    let (resp, n) = decode_response(&reply).unwrap();
    assert_eq!(n, reply.len());
    assert_eq!(resp.header.status, response_status::KEY_NOT_FOUND);
    assert_eq!(resp.header.opcode, opcodes::GET);
    assert_eq!(resp.header.total_body_length, 0);
    assert_eq!(resp.header.extras_length, 0);
    assert_eq!(resp.header.key_length, 0);
    assert!(resp.extras.is_empty() && resp.key.is_empty() && resp.value.is_empty());
}

#[test]
fn test_binary_not_implemented() {
    let reply = serve(&DummyKvStore {}, &binary_request(0xff, b""));
    let (resp, n) = decode_response(&reply).unwrap();
    assert_eq!(n, reply.len());
    assert_eq!(resp.header.opcode, 0xff);
    assert_eq!(resp.header.status, response_status::NOT_SUPPORTED);
    assert_eq!(resp.header.total_body_length, 0);
    assert!(resp.extras.is_empty() && resp.key.is_empty() && resp.value.is_empty());
}

#[test]
fn binary_getk_includes_the_key() {
    let reply = serve(&DummyKvStore {}, &binary_request(opcodes::GETK, b"k"));
    let (resp, _) = decode_response(&reply).unwrap();
    assert_eq!(resp.header.key_length, 1);
    assert_eq!(resp.header.total_body_length, 6);
    assert_eq!(resp.key, b"k".to_vec());
    assert_eq!(resp.value, b"v".to_vec());
}

#[test]
fn binary_quiet_miss_sends_nothing() {
    assert!(serve(&DummyKvStore {}, &binary_request(opcodes::GETQ, b"_")).is_empty());
    assert!(serve(&DummyKvStore {}, &binary_request(opcodes::GETKQ, b"_")).is_empty());
}

#[test]
fn binary_getk_miss_is_not_found() {
    let reply = serve(&DummyKvStore {}, &binary_request(opcodes::GETK, b"_"));
    let (resp, _) = decode_response(&reply).unwrap();
    assert_eq!(resp.header.status, response_status::KEY_NOT_FOUND);
}

#[test]
fn binary_version_and_noop() {
    let mut input = binary_request(opcodes::VERSION, b"");
    input.extend(binary_request(opcodes::NO_OP, b""));
    let reply = serve(&DummyKvStore {}, &input);
    let (version, n) = decode_response(&reply).unwrap();
    assert_eq!(version.header.status, response_status::NO_ERROR);
    assert_eq!(version.value, b"0.0.0".to_vec());
    assert_eq!(version.header.total_body_length, 5);
    let (noop, m) = decode_response(&reply[n..]).unwrap();
    assert_eq!(noop.header.opcode, opcodes::NO_OP);
    assert_eq!(noop.header.total_body_length, 0);
    assert_eq!(n + m, reply.len());
}

#[test]
fn binary_quit_stops_the_connection() {
    let mut input = binary_request(opcodes::QUIT, b"");
    input.extend(binary_request(opcodes::GET, b"k"));
    assert!(serve(&DummyKvStore {}, &input).is_empty());
}

#[test]
fn binary_opaque_and_cas_are_echoed() {
    let mut input: Vec<u8> = Vec::new();
    input.write_request(&Request {
        header: RequestHeader {
            magic: REQUEST_MAGIC,
            opcode: opcodes::GET,
            key_length: 1,
            extras_length: 0,
            data_type: 0,
            reserved: 0,
            total_body_length: 1,
            opaque: 0xdead_beef,
            cas: 0x0102_0304_0506_0708,
        },
        extras: vec![],
        key: b"k".to_vec(),
        value: vec![],
    });
    let reply = serve(&DummyKvStore {}, &input);
    let (resp, _) = decode_response(&reply).unwrap();
    assert_eq!(resp.header.opaque, 0xdead_beef);
    assert_eq!(resp.header.cas, 0x0102_0304_0506_0708);
}

#[test]
fn binary_malformed_header_drops_the_connection() {
    let mut input = binary_request(opcodes::GET, b"k");
    // The body is shorter than the key.
    input[11] = 0;
    let mut out = Vec::new();
    let (consumed, done) =
        handle_connection(&DummyKvStore {}, Protocol::Binary, &input, false, &mut out);
    assert_eq!((consumed, done), (0, true));
    assert!(out.is_empty());
}

#[test]
fn incomplete_requests_wait_for_more_input() {
    let input = binary_request(opcodes::GET, b"k");
    let mut out = Vec::new();
    let r = handle_connection(&DummyKvStore {}, Protocol::Binary, &input[..10], false, &mut out);
    assert_eq!(r, (0, false));
    let r = handle_connection(&DummyKvStore {}, Protocol::Text, b"get k", false, &mut out);
    assert_eq!(r, (0, false));
    assert!(out.is_empty());
    let r = handle_connection(&DummyKvStore {}, Protocol::Text, b"get k\r\nget", false, &mut out);
    assert_eq!(r, (7, false));
    assert_eq!(out, b"VALUE k 0 1\r\nv\r\nEND\r\n".to_vec());
}

#[test]
fn protocol_detection_by_first_byte() {
    assert_eq!(detect_protocol(0x80), Protocol::Binary);
    assert_eq!(detect_protocol(b'g'), Protocol::Text);
    assert_eq!(detect_protocol(0x81), Protocol::Text);
    assert_eq!(protocol_name(Protocol::Binary), "memcached_binary");
    assert_eq!(protocol_name(Protocol::Text), "memcached_text");
}

/// A store that records every key it is asked for.
struct Recording {
    seen: RefCell<Vec<Vec<u8>>>,
}

impl KvStore for Recording {
    fn get(&self, key: &[u8]) -> Option<Vec<u8>> {
        self.seen.borrow_mut().push(key.to_vec());
        None
    }
}

#[test]
fn writes_never_reach_the_store() {
    let store = Recording { seen: RefCell::new(Vec::new()) };
    let input = "set a 0 0 1\r\nx\r\ndelete b\r\nincr c 1\r\ntouch d 5\r\nget e f\r\nflush_all\r\n";
    serve(&store, input.as_bytes());
    assert_eq!(*store.seen.borrow(), vec![b"e".to_vec(), b"f".to_vec()]);
    let store = Recording { seen: RefCell::new(Vec::new()) };
    let mut input = binary_request(opcodes::SET, b"a");
    input.extend(binary_request(opcodes::DELETE, b"b"));
    input.extend(binary_request(opcodes::GETQ, b"c"));
    serve(&store, &input);
    assert_eq!(*store.seen.borrow(), vec![b"c".to_vec()]);
}
