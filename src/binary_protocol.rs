//! The memcached binary protocol: a 24-byte big-endian header, then the
//! extras, the key and the value.
use vstd::prelude::*;
use vstd::slice::slice_subrange;
use vstd::slice::slice_to_vec;

use byteorder::{BigEndian, ByteOrder};

use crate::error::Error;

verus! {

pub const REQUEST_MAGIC: u8 = 0x80;
pub const RESPONSE_MAGIC: u8 = 0x81;
pub const RAW_BYTES: u8 = 0x00;
pub const HEADER_LEN: usize = 24;

pub open spec fn pow256(k: nat) -> nat
    decreases k,
{
    if k == 0 {
        1
    } else {
        256 * pow256((k - 1) as nat)
    }
}

/// `n` in `k` bytes, most significant first.
pub open spec fn be_bytes(n: nat, k: nat) -> Seq<u8>
    decreases k,
{
    if k == 0 {
        Seq::empty()
    } else {
        be_bytes(n / 256, (k - 1) as nat).push((n % 256) as u8)
    }
}

/// The number that bytes denote, most significant first.
pub open spec fn be_value(s: Seq<u8>) -> nat
    decreases s.len(),
{
    if s.len() == 0 {
        0
    } else {
        be_value(s.drop_last()) * 256 + s.last() as nat
    }
}

proof fn lemma_be_len(n: nat, k: nat)
    ensures
        be_bytes(n, k).len() == k,
    decreases k,
{
    if k > 0 {
        lemma_be_len(n / 256, (k - 1) as nat);
    }
}

proof fn lemma_be_round_trip(n: nat, k: nat)
    requires
        n < pow256(k),
    ensures
        be_bytes(n, k).len() == k,
        be_value(be_bytes(n, k)) == n,
    decreases k,
{
    lemma_be_len(n, k);
    if k > 0 {
        let p = pow256((k - 1) as nat);
        assert(n / 256 < p) by (nonlinear_arith)
            requires
                n < 256 * p,
        ;
        lemma_be_round_trip(n / 256, (k - 1) as nat);
        let s = be_bytes(n, k);
        assert(s.drop_last() =~= be_bytes(n / 256, (k - 1) as nat));
    }
}

proof fn lemma_pow256_widths()
    ensures
        pow256(2) == 0x1_0000,
        pow256(4) == 0x1_0000_0000,
        pow256(8) == 0x1_0000_0000_0000_0000,
{
    assert(pow256(0) == 1);
    assert(pow256(1) == 0x100);
    assert(pow256(2) == 0x1_0000);
    assert(pow256(3) == 0x100_0000);
    assert(pow256(4) == 0x1_0000_0000);
    assert(pow256(5) == 0x100_0000_0000);
    assert(pow256(6) == 0x1_0000_0000_0000);
    assert(pow256(7) == 0x100_0000_0000_0000);
    assert(pow256(8) == 0x1_0000_0000_0000_0000);
}

/// Relies on byteorder's `BigEndian::read_u16`: the first two bytes, most
/// significant first (it panics on fewer than two).
#[verifier::external_body]
fn read_be_u16(b: &[u8]) -> (r: u16)
    requires
        b@.len() >= 2,
    ensures
        r as nat == be_value(b@.take(2)),
{
    BigEndian::read_u16(b)
}

/// Relies on byteorder's `BigEndian::read_u32`: the first four bytes, most
/// significant first (it panics on fewer than four).
#[verifier::external_body]
fn read_be_u32(b: &[u8]) -> (r: u32)
    requires
        b@.len() >= 4,
    ensures
        r as nat == be_value(b@.take(4)),
{
    BigEndian::read_u32(b)
}

/// Relies on byteorder's `BigEndian::read_u64`: the first eight bytes, most
/// significant first (it panics on fewer than eight).
#[verifier::external_body]
fn read_be_u64(b: &[u8]) -> (r: u64)
    requires
        b@.len() >= 8,
    ensures
        r as nat == be_value(b@.take(8)),
{
    BigEndian::read_u64(b)
}

/// Relies on byteorder's `BigEndian::write_u16`: `n` in two bytes, most
/// significant first.
#[verifier::external_body]
fn push_be_u16(out: &mut Vec<u8>, n: u16)
    ensures
        final(out)@ == old(out)@ + be_bytes(n as nat, 2),
{
    let mut b = [0u8; 2];
    BigEndian::write_u16(&mut b, n);
    out.extend_from_slice(&b);
}

/// Relies on byteorder's `BigEndian::write_u32`: `n` in four bytes, most
/// significant first.
#[verifier::external_body]
fn push_be_u32(out: &mut Vec<u8>, n: u32)
    ensures
        final(out)@ == old(out)@ + be_bytes(n as nat, 4),
{
    let mut b = [0u8; 4];
    BigEndian::write_u32(&mut b, n);
    out.extend_from_slice(&b);
}

/// Relies on byteorder's `BigEndian::write_u64`: `n` in eight bytes, most
/// significant first.
#[verifier::external_body]
fn push_be_u64(out: &mut Vec<u8>, n: u64)
    ensures
        final(out)@ == old(out)@ + be_bytes(n as nat, 8),
{
    let mut b = [0u8; 8];
    BigEndian::write_u64(&mut b, n);
    out.extend_from_slice(&b);
}

/// A binary request header.
#[derive(Debug, Clone, Copy, PartialEq, Eq, Structural)]
pub struct RequestHeader {
    pub magic: u8,
    pub opcode: u8,
    pub key_length: u16,
    pub extras_length: u8,
    pub data_type: u8,
    pub reserved: u16,
    pub total_body_length: u32,
    pub opaque: u32,
    pub cas: u64,
}

/// A binary request: the value's length is what the body leaves over.
#[derive(Debug, PartialEq, Eq)]
pub struct ARequest {
    pub header: RequestHeader,
    pub extras: Vec<u8>,
    pub key: Vec<u8>,
    pub value: Vec<u8>,
}

pub type Request = ARequest;

/// A binary response header; the request's reserved field carries the status.
#[derive(Debug, Clone, Copy, PartialEq, Eq, Structural)]
pub struct ResponseHeader {
    pub magic: u8,
    pub opcode: u8,
    pub key_length: u16,
    pub extras_length: u8,
    pub data_type: u8,
    pub status: u16,
    pub total_body_length: u32,
    pub opaque: u32,
    pub cas: u64,
}

/// A binary response.
#[derive(Debug, PartialEq, Eq)]
pub struct AResponse {
    pub header: ResponseHeader,
    pub extras: Vec<u8>,
    pub key: Vec<u8>,
    pub value: Vec<u8>,
}

pub type Response = AResponse;

pub struct ARequestView {
    pub header: RequestHeader,
    pub extras: Seq<u8>,
    pub key: Seq<u8>,
    pub value: Seq<u8>,
}

pub struct AResponseView {
    pub header: ResponseHeader,
    pub extras: Seq<u8>,
    pub key: Seq<u8>,
    pub value: Seq<u8>,
}

impl View for ARequest {
    type V = ARequestView;

    open spec fn view(&self) -> ARequestView {
        ARequestView {
            header: self.header,
            extras: self.extras@,
            key: self.key@,
            value: self.value@,
        }
    }
}

impl View for AResponse {
    type V = AResponseView;

    open spec fn view(&self) -> AResponseView {
        AResponseView {
            header: self.header,
            extras: self.extras@,
            key: self.key@,
            value: self.value@,
        }
    }
}

/// The header's lengths agree with the parts: the body is the extras, the
/// key and the value, in that order.
pub open spec fn request_consistent(r: ARequestView) -> bool {
    &&& r.header.extras_length as nat == r.extras.len()
    &&& r.header.key_length as nat == r.key.len()
    &&& r.header.total_body_length as nat == r.extras.len() + r.key.len() + r.value.len()
}

pub open spec fn response_consistent(r: AResponseView) -> bool {
    &&& r.header.extras_length as nat == r.extras.len()
    &&& r.header.key_length as nat == r.key.len()
    &&& r.header.total_body_length as nat == r.extras.len() + r.key.len() + r.value.len()
}

pub open spec fn request_header_bytes(h: RequestHeader) -> Seq<u8> {
    seq![h.magic, h.opcode] + be_bytes(h.key_length as nat, 2) + seq![h.extras_length, h.data_type]
        + be_bytes(h.reserved as nat, 2) + be_bytes(h.total_body_length as nat, 4) + be_bytes(
        h.opaque as nat,
        4,
    ) + be_bytes(h.cas as nat, 8)
}

pub open spec fn response_header_bytes(h: ResponseHeader) -> Seq<u8> {
    seq![h.magic, h.opcode] + be_bytes(h.key_length as nat, 2) + seq![h.extras_length, h.data_type]
        + be_bytes(h.status as nat, 2) + be_bytes(h.total_body_length as nat, 4) + be_bytes(
        h.opaque as nat,
        4,
    ) + be_bytes(h.cas as nat, 8)
}

/// The bytes of a request on the wire.
pub open spec fn request_bytes(r: ARequestView) -> Seq<u8> {
    request_header_bytes(r.header) + r.extras + r.key + r.value
}

/// The bytes of a response on the wire.
pub open spec fn response_bytes(r: AResponseView) -> Seq<u8> {
    response_header_bytes(r.header) + r.extras + r.key + r.value
}

/// The request header in the first 24 bytes of `b`.
pub open spec fn request_header_of(b: Seq<u8>) -> RequestHeader {
    RequestHeader {
        magic: b[0],
        opcode: b[1],
        key_length: be_value(b.subrange(2, 4)) as u16,
        extras_length: b[4],
        data_type: b[5],
        reserved: be_value(b.subrange(6, 8)) as u16,
        total_body_length: be_value(b.subrange(8, 12)) as u32,
        opaque: be_value(b.subrange(12, 16)) as u32,
        cas: be_value(b.subrange(16, 24)) as u64,
    }
}

/// The response header in the first 24 bytes of `b`.
pub open spec fn response_header_of(b: Seq<u8>) -> ResponseHeader {
    ResponseHeader {
        magic: b[0],
        opcode: b[1],
        key_length: be_value(b.subrange(2, 4)) as u16,
        extras_length: b[4],
        data_type: b[5],
        status: be_value(b.subrange(6, 8)) as u16,
        total_body_length: be_value(b.subrange(8, 12)) as u32,
        opaque: be_value(b.subrange(12, 16)) as u32,
        cas: be_value(b.subrange(16, 24)) as u64,
    }
}

/// Reading a request from the front of `b`: the request and the number of
/// bytes it takes; `Incomplete` where `b` ends first, `Malformed` where the
/// extras and key would not fit in the body.
pub open spec fn decode_request_spec(b: Seq<u8>) -> Result<(ARequestView, nat), Error> {
    if b.len() < 24 {
        Err(Error::Incomplete)
    } else {
        let h = request_header_of(b);
        let e = h.extras_length as int;
        let k = h.key_length as int;
        let t = h.total_body_length as int;
        if t < e + k {
            Err(Error::Malformed)
        } else if b.len() < 24 + t {
            Err(Error::Incomplete)
        } else {
            Ok(
                (
                    ARequestView {
                        header: h,
                        extras: b.subrange(24, 24 + e),
                        key: b.subrange(24 + e, 24 + e + k),
                        value: b.subrange(24 + e + k, 24 + t),
                    },
                    (24 + t) as nat,
                ),
            )
        }
    }
}

/// Reading a response from the front of `b`, as for a request.
pub open spec fn decode_response_spec(b: Seq<u8>) -> Result<(AResponseView, nat), Error> {
    if b.len() < 24 {
        Err(Error::Incomplete)
    } else {
        let h = response_header_of(b);
        let e = h.extras_length as int;
        let k = h.key_length as int;
        let t = h.total_body_length as int;
        if t < e + k {
            Err(Error::Malformed)
        } else if b.len() < 24 + t {
            Err(Error::Incomplete)
        } else {
            Ok(
                (
                    AResponseView {
                        header: h,
                        extras: b.subrange(24, 24 + e),
                        key: b.subrange(24 + e, 24 + e + k),
                        value: b.subrange(24 + e + k, 24 + t),
                    },
                    (24 + t) as nat,
                ),
            )
        }
    }
}


fn decode_request_header(b: &[u8]) -> (h: RequestHeader)
    requires
        b@.len() >= 24,
    ensures
        h == request_header_of(b@),
{
    let key_length = read_be_u16(slice_subrange(b, 2, 4));
    let reserved = read_be_u16(slice_subrange(b, 6, 8));
    let total_body_length = read_be_u32(slice_subrange(b, 8, 12));
    let opaque = read_be_u32(slice_subrange(b, 12, 16));
    let cas = read_be_u64(slice_subrange(b, 16, 24));
    assert(b@.subrange(2, 4).take(2) =~= b@.subrange(2, 4));
    assert(b@.subrange(6, 8).take(2) =~= b@.subrange(6, 8));
    assert(b@.subrange(8, 12).take(4) =~= b@.subrange(8, 12));
    assert(b@.subrange(12, 16).take(4) =~= b@.subrange(12, 16));
    assert(b@.subrange(16, 24).take(8) =~= b@.subrange(16, 24));
    RequestHeader {
        magic: b[0],
        opcode: b[1],
        key_length,
        extras_length: b[4],
        data_type: b[5],
        reserved,
        total_body_length,
        opaque,
        cas,
    }
}

fn decode_response_header(b: &[u8]) -> (h: ResponseHeader)
    requires
        b@.len() >= 24,
    ensures
        h == response_header_of(b@),
{
    let key_length = read_be_u16(slice_subrange(b, 2, 4));
    let status = read_be_u16(slice_subrange(b, 6, 8));
    let total_body_length = read_be_u32(slice_subrange(b, 8, 12));
    let opaque = read_be_u32(slice_subrange(b, 12, 16));
    let cas = read_be_u64(slice_subrange(b, 16, 24));
    assert(b@.subrange(2, 4).take(2) =~= b@.subrange(2, 4));
    assert(b@.subrange(6, 8).take(2) =~= b@.subrange(6, 8));
    assert(b@.subrange(8, 12).take(4) =~= b@.subrange(8, 12));
    assert(b@.subrange(12, 16).take(4) =~= b@.subrange(12, 16));
    assert(b@.subrange(16, 24).take(8) =~= b@.subrange(16, 24));
    ResponseHeader {
        magic: b[0],
        opcode: b[1],
        key_length,
        extras_length: b[4],
        data_type: b[5],
        status,
        total_body_length,
        opaque,
        cas,
    }
}

/// The parts of a body of `t` bytes at `buf[24..]`: extras of `e` bytes,
/// then a key of `k` bytes, then the value.
fn split_body(buf: &[u8], e: usize, k: usize, t: usize) -> (r: (Vec<u8>, Vec<u8>, Vec<u8>))
    requires
        e + k <= t,
        24 + t <= buf@.len(),
    ensures
        r.0@ == buf@.subrange(24, 24 + e),
        r.1@ == buf@.subrange(24 + e, 24 + e + k),
        r.2@ == buf@.subrange(24 + e + k, 24 + t),
{
    let len = buf.len();
    assert(len == buf@.len());
    let extras = slice_to_vec(slice_subrange(buf, 24, 24 + e));
    let key = slice_to_vec(slice_subrange(buf, 24 + e, 24 + e + k));
    let value = slice_to_vec(slice_subrange(buf, 24 + e + k, 24 + t));
    (extras, key, value)
}

/// Reads the request at the front of `buf`, returning it with the number of
/// bytes it takes.
pub fn decode_request(buf: &[u8]) -> (r: Result<(ARequest, usize), Error>)
    ensures
        match decode_request_spec(buf@) {
            Ok((v, n)) => r matches Ok((q, m)) && q@ == v && m == n,
            Err(e) => r == Err::<(ARequest, usize), Error>(e),
        },
{
    if buf.len() < HEADER_LEN {
        return Err(Error::Incomplete);
    }
    let header = decode_request_header(buf);
    let e = header.extras_length as usize;
    let k = header.key_length as usize;
    let t = header.total_body_length as usize;
    if t < e + k {
        return Err(Error::Malformed);
    }
    if buf.len() - HEADER_LEN < t {
        return Err(Error::Incomplete);
    }
    let (extras, key, value) = split_body(buf, e, k, t);
    Ok((ARequest { header, extras, key, value }, HEADER_LEN + t))
}

/// Reads the response at the front of `buf`, returning it with the number of
/// bytes it takes.
pub fn decode_response(buf: &[u8]) -> (r: Result<(AResponse, usize), Error>)
    ensures
        match decode_response_spec(buf@) {
            Ok((v, n)) => r matches Ok((q, m)) && q@ == v && m == n,
            Err(e) => r == Err::<(AResponse, usize), Error>(e),
        },
{
    if buf.len() < HEADER_LEN {
        return Err(Error::Incomplete);
    }
    let header = decode_response_header(buf);
    let e = header.extras_length as usize;
    let k = header.key_length as usize;
    let t = header.total_body_length as usize;
    if t < e + k {
        return Err(Error::Malformed);
    }
    if buf.len() - HEADER_LEN < t {
        return Err(Error::Incomplete);
    }
    let (extras, key, value) = split_body(buf, e, k, t);
    Ok((AResponse { header, extras, key, value }, HEADER_LEN + t))
}

fn push_bytes(out: &mut Vec<u8>, s: &[u8])
    ensures
        final(out)@ == old(out)@ + s@,
{
    out.extend_from_slice(s);
    assert(out@ =~= old(out)@ + s@);
}


/// Writing messages to a byte sink whose contents are its view.
pub trait PWrite: View<V = Seq<u8>> {
    fn write_request_header(&mut self, header: &RequestHeader)
        ensures
            final(self)@ == old(self)@ + request_header_bytes(*header),
    ;

    fn write_request(&mut self, request: &ARequest)
        ensures
            final(self)@ == old(self)@ + request_bytes(request@),
    ;

    fn write_response_header(&mut self, header: &ResponseHeader)
        ensures
            final(self)@ == old(self)@ + response_header_bytes(*header),
    ;

    fn write_response(&mut self, response: &AResponse)
        ensures
            final(self)@ == old(self)@ + response_bytes(response@),
    ;
}

impl PWrite for Vec<u8> {
    fn write_request_header(&mut self, header: &RequestHeader) {
        self.push(header.magic);
        self.push(header.opcode);
        push_be_u16(self, header.key_length);
        self.push(header.extras_length);
        self.push(header.data_type);
        push_be_u16(self, header.reserved);
        push_be_u32(self, header.total_body_length);
        push_be_u32(self, header.opaque);
        push_be_u64(self, header.cas);
        assert(self@ =~= old(self)@ + request_header_bytes(*header));
    }

    fn write_request(&mut self, request: &ARequest) {
        self.write_request_header(&request.header);
        push_bytes(self, request.extras.as_slice());
        push_bytes(self, request.key.as_slice());
        push_bytes(self, request.value.as_slice());
        assert(self@ =~= old(self)@ + request_bytes(request@));
    }

    fn write_response_header(&mut self, header: &ResponseHeader) {
        self.push(header.magic);
        self.push(header.opcode);
        push_be_u16(self, header.key_length);
        self.push(header.extras_length);
        self.push(header.data_type);
        push_be_u16(self, header.status);
        push_be_u32(self, header.total_body_length);
        push_be_u32(self, header.opaque);
        push_be_u64(self, header.cas);
        assert(self@ =~= old(self)@ + response_header_bytes(*header));
    }

    fn write_response(&mut self, response: &AResponse) {
        self.write_response_header(&response.header);
        push_bytes(self, response.extras.as_slice());
        push_bytes(self, response.key.as_slice());
        push_bytes(self, response.value.as_slice());
        assert(self@ =~= old(self)@ + response_bytes(response@));
    }
}


/// Reading messages from a byte source whose unread bytes are its view. A
/// read that fails consumes nothing.
pub trait PRead: View<V = Seq<u8>> {
    fn read_request_header(&mut self) -> (r: Result<RequestHeader, Error>)
        ensures
            old(self)@.len() >= 24 ==> r == Ok::<RequestHeader, Error>(request_header_of(old(self)@))
                && final(self)@ == old(self)@.skip(24),
            old(self)@.len() < 24 ==> r == Err::<RequestHeader, Error>(Error::Incomplete)
                && final(self)@ == old(self)@,
    ;

    fn read_request(&mut self) -> (r: Result<ARequest, Error>)
        ensures
            match decode_request_spec(old(self)@) {
                Ok((v, n)) => r matches Ok(q) && q@ == v && final(self)@ == old(self)@.skip(
                    n as int,
                ),
                Err(e) => r == Err::<ARequest, Error>(e) && final(self)@ == old(self)@,
            },
    ;

    fn read_response_header(&mut self) -> (r: Result<ResponseHeader, Error>)
        ensures
            old(self)@.len() >= 24 ==> r == Ok::<ResponseHeader, Error>(response_header_of(old(self)@))
                && final(self)@ == old(self)@.skip(24),
            old(self)@.len() < 24 ==> r == Err::<ResponseHeader, Error>(Error::Incomplete)
                && final(self)@ == old(self)@,
    ;

    fn read_response(&mut self) -> (r: Result<AResponse, Error>)
        ensures
            match decode_response_spec(old(self)@) {
                Ok((v, n)) => r matches Ok(q) && q@ == v && final(self)@ == old(self)@.skip(
                    n as int,
                ),
                Err(e) => r == Err::<AResponse, Error>(e) && final(self)@ == old(self)@,
            },
    ;
}

/// Bytes received and not yet read.
pub struct ByteReader {
    bytes: Vec<u8>,
    pos: usize,
}

impl View for ByteReader {
    type V = Seq<u8>;

    closed spec fn view(&self) -> Seq<u8> {
        self.bytes@.skip(self.pos as int)
    }
}

impl ByteReader {
    #[verifier::type_invariant]
    spec fn inv(&self) -> bool {
        self.pos <= self.bytes@.len()
    }

    pub fn new(bytes: Vec<u8>) -> (r: ByteReader)
        ensures
            r@ == bytes@,
    {
        let r = ByteReader { bytes, pos: 0 };
        assert(r.bytes@.skip(0) =~= r.bytes@);
        r
    }

    /// The unread bytes.
    pub fn remaining(&self) -> (r: &[u8])
        ensures
            r@ == self@,
    {
        proof {
            use_type_invariant(self);
        }
        slice_subrange(self.bytes.as_slice(), self.pos, self.bytes.len())
    }

    fn advance(&mut self, n: usize)
        requires
            n <= old(self)@.len(),
        ensures
            final(self)@ == old(self)@.skip(n as int),
    {
        proof {
            use_type_invariant(&*self);
        }
        assert(n <= self.bytes.len() - self.pos);
        self.pos = self.pos + n;
        assert(self.bytes@.skip(self.pos as int) =~= old(self).bytes@.skip(old(self).pos as int).skip(
            n as int,
        ));
    }
}

impl PRead for ByteReader {
    fn read_request_header(&mut self) -> (r: Result<RequestHeader, Error>) {
        let rest = self.remaining();
        if rest.len() < HEADER_LEN {
            return Err(Error::Incomplete);
        }
        let h = decode_request_header(rest);
        self.advance(HEADER_LEN);
        Ok(h)
    }

    fn read_request(&mut self) -> (r: Result<ARequest, Error>) {
        let rest = self.remaining();
        match decode_request(rest) {
            Ok((q, n)) => {
                self.advance(n);
                Ok(q)
            },
            Err(e) => Err(e),
        }
    }

    fn read_response_header(&mut self) -> (r: Result<ResponseHeader, Error>) {
        let rest = self.remaining();
        if rest.len() < HEADER_LEN {
            return Err(Error::Incomplete);
        }
        let h = decode_response_header(rest);
        self.advance(HEADER_LEN);
        Ok(h)
    }

    fn read_response(&mut self) -> (r: Result<AResponse, Error>) {
        let rest = self.remaining();
        match decode_response(rest) {
            Ok((q, n)) => {
                self.advance(n);
                Ok(q)
            },
            Err(e) => Err(e),
        }
    }
}


proof fn lemma_fields_round_trip(a: u16, b: u16, t: u32, o: u32, c: u64)
    ensures
        be_bytes(a as nat, 2).len() == 2,
        be_bytes(b as nat, 2).len() == 2,
        be_bytes(t as nat, 4).len() == 4,
        be_bytes(o as nat, 4).len() == 4,
        be_bytes(c as nat, 8).len() == 8,
        be_value(be_bytes(a as nat, 2)) == a,
        be_value(be_bytes(b as nat, 2)) == b,
        be_value(be_bytes(t as nat, 4)) == t,
        be_value(be_bytes(o as nat, 4)) == o,
        be_value(be_bytes(c as nat, 8)) == c,
{
    lemma_pow256_widths();
    lemma_be_round_trip(a as nat, 2);
    lemma_be_round_trip(b as nat, 2);
    lemma_be_round_trip(t as nat, 4);
    lemma_be_round_trip(o as nat, 4);
    lemma_be_round_trip(c as nat, 8);
}

proof fn lemma_request_header_round_trip(h: RequestHeader, rest: Seq<u8>)
    ensures
        request_header_bytes(h).len() == 24,
        request_header_of(request_header_bytes(h) + rest) == h,
{
    lemma_fields_round_trip(h.key_length, h.reserved, h.total_body_length, h.opaque, h.cas);
    let b = request_header_bytes(h) + rest;
    assert(b.subrange(2, 4) =~= be_bytes(h.key_length as nat, 2));
    assert(b.subrange(6, 8) =~= be_bytes(h.reserved as nat, 2));
    assert(b.subrange(8, 12) =~= be_bytes(h.total_body_length as nat, 4));
    assert(b.subrange(12, 16) =~= be_bytes(h.opaque as nat, 4));
    assert(b.subrange(16, 24) =~= be_bytes(h.cas as nat, 8));
}

proof fn lemma_response_header_round_trip(h: ResponseHeader, rest: Seq<u8>)
    ensures
        response_header_bytes(h).len() == 24,
        response_header_of(response_header_bytes(h) + rest) == h,
{
    lemma_fields_round_trip(h.key_length, h.status, h.total_body_length, h.opaque, h.cas);
    let b = response_header_bytes(h) + rest;
    assert(b.subrange(2, 4) =~= be_bytes(h.key_length as nat, 2));
    assert(b.subrange(6, 8) =~= be_bytes(h.status as nat, 2));
    assert(b.subrange(8, 12) =~= be_bytes(h.total_body_length as nat, 4));
    assert(b.subrange(12, 16) =~= be_bytes(h.opaque as nat, 4));
    assert(b.subrange(16, 24) =~= be_bytes(h.cas as nat, 8));
}

/// Reading back a written request gives the same request, bit for bit,
/// whenever its header's lengths agree with its parts; the bytes that follow
/// are left unread.
pub proof fn lemma_request_round_trip(r: ARequestView, rest: Seq<u8>)
    requires
        request_consistent(r),
    ensures
        decode_request_spec(request_bytes(r) + rest) == Ok::<(ARequestView, nat), Error>(
            (r, request_bytes(r).len()),
        ),
{
    let body = r.extras + r.key + r.value + rest;
    let b = request_bytes(r) + rest;
    assert(b =~= request_header_bytes(r.header) + body);
    lemma_request_header_round_trip(r.header, body);
    let e = r.extras.len() as int;
    let k = r.key.len() as int;
    let t = r.header.total_body_length as int;
    assert(b.subrange(24, 24 + e) =~= r.extras);
    assert(b.subrange(24 + e, 24 + e + k) =~= r.key);
    assert(b.subrange(24 + e + k, 24 + t) =~= r.value);
}

/// Reading back a written response gives the same response, bit for bit,
/// whenever its header's lengths agree with its parts.
pub proof fn lemma_response_round_trip(r: AResponseView, rest: Seq<u8>)
    requires
        response_consistent(r),
    ensures
        decode_response_spec(response_bytes(r) + rest) == Ok::<(AResponseView, nat), Error>(
            (r, response_bytes(r).len()),
        ),
{
    let body = r.extras + r.key + r.value + rest;
    let b = response_bytes(r) + rest;
    assert(b =~= response_header_bytes(r.header) + body);
    lemma_response_header_round_trip(r.header, body);
    let e = r.extras.len() as int;
    let k = r.key.len() as int;
    let t = r.header.total_body_length as int;
    assert(b.subrange(24, 24 + e) =~= r.extras);
    assert(b.subrange(24 + e, 24 + e + k) =~= r.key);
    assert(b.subrange(24 + e + k, 24 + t) =~= r.value);
}


/// The response that carries `extras`, the request's key where
/// `include_key`, and `value`, with status `NO_ERROR`; the request's opcode,
/// opaque and cas are echoed.
pub open spec fn make_spec(request: ARequestView, extras: Seq<u8>, include_key: bool, value: Seq<
    u8,
>) -> AResponseView {
    let key = if include_key {
        request.key
    } else {
        Seq::empty()
    };
    AResponseView {
        header: ResponseHeader {
            magic: RESPONSE_MAGIC,
            opcode: request.header.opcode,
            key_length: key.len() as u16,
            extras_length: extras.len() as u8,
            data_type: RAW_BYTES,
            status: 0,
            total_body_length: (extras.len() + key.len() + value.len()) as u32,
            opaque: request.header.opaque,
            cas: request.header.cas,
        },
        extras,
        key,
        value,
    }
}

/// The response with status `status` and an empty body; the request's
/// opcode, opaque and cas are echoed.
pub open spec fn error_spec(request: ARequestView, status: u16) -> AResponseView {
    AResponseView {
        header: ResponseHeader {
            magic: RESPONSE_MAGIC,
            opcode: request.header.opcode,
            key_length: 0,
            extras_length: 0,
            data_type: RAW_BYTES,
            status,
            total_body_length: 0,
            opaque: request.header.opaque,
            cas: request.header.cas,
        },
        extras: Seq::empty(),
        key: Seq::empty(),
        value: Seq::empty(),
    }
}

/// The parts of a reply fit the header's fields.
pub open spec fn reply_fits(request: ARequestView, extras_len: nat, include_key: bool, value_len: nat) -> bool {
    &&& extras_len <= u8::MAX
    &&& request.key.len() <= u16::MAX
    &&& extras_len + (if include_key {
        request.key.len()
    } else {
        0
    }) + value_len <= u32::MAX
}

impl Response {
    /// Constructs a key/value response.
    pub fn make(request: &Request, extras: &[u8], include_key: bool, value: &[u8]) -> (r: Response)
        requires
            reply_fits(request@, extras@.len(), include_key, value@.len()),
        ensures
            r@ == make_spec(request@, extras@, include_key, value@),
            r.header.opaque == request.header.opaque,
            r.header.cas == request.header.cas,
            r.header.opcode == request.header.opcode,
            response_consistent(r@),
    {
        let key: Vec<u8> = if include_key {
            slice_to_vec(request.key.as_slice())
        } else {
            Vec::new()
        };
        let len = extras.len() + key.len() + value.len();
        let r = AResponse {
            header: ResponseHeader {
                magic: RESPONSE_MAGIC,
                opcode: request.header.opcode,
                key_length: key.len() as u16,
                extras_length: extras.len() as u8,
                data_type: RAW_BYTES,
                status: 0,
                total_body_length: len as u32,
                opaque: request.header.opaque,
                cas: request.header.cas,
            },
            extras: slice_to_vec(extras),
            key,
            value: slice_to_vec(value),
        };
        assert(r@.key =~= make_spec(request@, extras@, include_key, value@).key);
        r
    }

    /// Constructs an error response.
    pub fn make_error(request: &Request, status_code: u16) -> (r: Response)
        ensures
            r@ == error_spec(request@, status_code),
            r.header.opaque == request.header.opaque,
            r.header.cas == request.header.cas,
            r.header.opcode == request.header.opcode,
            response_consistent(r@),
    {
        let r = AResponse {
            header: ResponseHeader {
                magic: RESPONSE_MAGIC,
                opcode: request.header.opcode,
                key_length: 0,
                extras_length: 0,
                data_type: RAW_BYTES,
                status: status_code,
                total_body_length: 0,
                opaque: request.header.opaque,
                cas: request.header.cas,
            },
            extras: Vec::new(),
            key: Vec::new(),
            value: Vec::new(),
        };
        assert(r@.extras =~= Seq::<u8>::empty());
        r
    }
}

} // verus!
