use memkv::binary_protocol::{
    decode_request, ARequest, AResponse, ByteReader, PRead, PWrite, Request, RequestHeader,
    Response, ResponseHeader, REQUEST_MAGIC, RESPONSE_MAGIC,
};
use memkv::error::Error;
use memkv::opcodes;
use memkv::response_status;

fn sample_request() -> ARequest {
    ARequest {
        header: RequestHeader {
            magic: REQUEST_MAGIC,
            opcode: opcodes::SET,
            key_length: 3,
            extras_length: 2,
            data_type: 0,
            reserved: 0x0102,
            total_body_length: 9,
            opaque: 0x0a0b0c0d,
            cas: 0x1122334455667788,
        },
        extras: vec![0xe1, 0xe2],
        key: b"key".to_vec(),
        value: b"vals".to_vec(),
    }
}

#[test]
fn request_bytes_are_big_endian() {
    let mut out: Vec<u8> = Vec::new();
    out.write_request(&sample_request());
    assert_eq!(
        out,
        vec![
            0x80, 0x01, 0x00, 0x03, 0x02, 0x00, 0x01, 0x02, 0x00, 0x00, 0x00, 0x09, 0x0a, 0x0b,
            0x0c, 0x0d, 0x11, 0x22, 0x33, 0x44, 0x55, 0x66, 0x77, 0x88, 0xe1, 0xe2, b'k', b'e',
            b'y', b'v', b'a', b'l', b's'
        ]
    );
}

#[test]
fn request_round_trip() {
    let mut out: Vec<u8> = Vec::new();
    out.write_request(&sample_request());
    out.extend_from_slice(b"tail");
    let mut reader = ByteReader::new(out);
    let back = reader.read_request().unwrap();
    assert_eq!(back, sample_request());
    assert_eq!(reader.remaining(), b"tail");
}

#[test]
fn response_round_trip() {
    let resp = AResponse {
        header: ResponseHeader {
            magic: RESPONSE_MAGIC,
            opcode: opcodes::GETK,
            key_length: 1,
            extras_length: 4,
            data_type: 0,
            status: 0x0083,
            total_body_length: 7,
            opaque: 0xffff_fffe,
            cas: 1,
        },
        extras: vec![1, 2, 3, 4],
        key: b"k".to_vec(),
        value: b"vv".to_vec(),
    };
    let mut out: Vec<u8> = Vec::new();
    out.write_response(&resp);
    assert_eq!(&out[6..8], &[0x00, 0x83]);
    let mut reader = ByteReader::new(out);
    assert_eq!(reader.read_response().unwrap(), resp);
    assert!(reader.remaining().is_empty());
}

#[test]
fn headers_alone() {
    let mut out: Vec<u8> = Vec::new();
    out.write_request_header(&sample_request().header);
    assert_eq!(out.len(), 24);
    let mut reader = ByteReader::new(out);
    assert_eq!(reader.read_request_header().unwrap(), sample_request().header);
    assert_eq!(reader.read_request_header(), Err(Error::Incomplete));
    let mut out: Vec<u8> = Vec::new();
    let header = Response::make_error(&sample_request(), 5).header;
    out.write_response_header(&header);
    let mut reader = ByteReader::new(out);
    assert_eq!(reader.read_response_header().unwrap(), header);
}

#[test]
fn short_input_is_incomplete_and_consumes_nothing() {
    let mut out: Vec<u8> = Vec::new();
    out.write_request(&sample_request());
    out.pop();
    assert_eq!(decode_request(&out).unwrap_err(), Error::Incomplete);
    assert_eq!(decode_request(&out[..23]).unwrap_err(), Error::Incomplete);
    let mut reader = ByteReader::new(out.clone());
    assert_eq!(reader.read_request(), Err(Error::Incomplete));
    assert_eq!(reader.remaining(), &out[..]);
}

#[test]
fn lengths_that_underflow_are_malformed() {
    let mut out: Vec<u8> = Vec::new();
    let mut r = sample_request();
    r.header.total_body_length = 4;
    out.write_request(&r);
    assert_eq!(decode_request(&out).unwrap_err(), Error::Malformed);
}

#[test]
fn make_echoes_the_request() {
    let req: Request = sample_request();
    let resp = Response::make(&req, &[0, 0, 0, 0], true, b"data");
    assert_eq!(
        resp.header,
        ResponseHeader {
            magic: RESPONSE_MAGIC,
            opcode: opcodes::SET,
            key_length: 3,
            extras_length: 4,
            data_type: 0,
            status: response_status::NO_ERROR,
            total_body_length: 11,
            opaque: 0x0a0b0c0d,
            cas: 0x1122334455667788,
        }
    );
    assert_eq!(resp.key, b"key".to_vec());
    let resp = Response::make(&req, &[], false, b"");
    assert_eq!(resp.header.key_length, 0);
    assert_eq!(resp.header.total_body_length, 0);
    assert!(resp.key.is_empty());
}

#[test]
fn make_error_has_empty_body() {
    let resp = Response::make_error(&sample_request(), response_status::KEY_NOT_FOUND);
    assert_eq!(resp.header.status, 1);
    assert_eq!(resp.header.opcode, opcodes::SET);
    assert_eq!(resp.header.opaque, 0x0a0b0c0d);
    assert_eq!(resp.header.cas, 0x1122334455667788);
    assert_eq!(resp.header.total_body_length, 0);
    assert!(resp.extras.is_empty() && resp.key.is_empty() && resp.value.is_empty());
}
