//! Per-connection protocol detection and dispatch.
use vstd::prelude::*;

use crate::binary_protocol::{decode_request_spec, ARequestView, REQUEST_MAGIC};
use crate::binary_server::{self, binary_session, binary_session_keys, is_get_opcode};
use crate::error::Error;
use crate::kvstore::{answered_by, KvStore};
use crate::opcodes;
use crate::text_protocol::{parse_spec, RequestView};
use crate::text_server::{self, text_session, text_session_keys};

verus! {

/// The wire protocol of a connection.
#[derive(Debug, Clone, Copy, PartialEq, Eq, Structural)]
pub enum Protocol {
    Text,
    Binary,
}

/// The protocol that a connection's first byte announces: the binary
/// request magic, or else text.
pub open spec fn protocol_of(first: u8) -> Protocol {
    if first == REQUEST_MAGIC {
        Protocol::Binary
    } else {
        Protocol::Text
    }
}

pub fn detect_protocol(first: u8) -> (p: Protocol)
    ensures
        p == protocol_of(first),
{
    if first == REQUEST_MAGIC {
        Protocol::Binary
    } else {
        Protocol::Text
    }
}

/// The name under which connections of this protocol are logged.
pub fn protocol_name(p: Protocol) -> (r: &'static str)
    ensures
        p == Protocol::Text ==> r@ == "memcached_text"@,
        p == Protocol::Binary ==> r@ == "memcached_binary"@,
{
    match p {
        Protocol::Text => "memcached_text",
        Protocol::Binary => "memcached_binary",
    }
}

/// The session of a connection speaking `p`.
pub open spec fn session(p: Protocol, buf: Seq<u8>, eof: bool, answers: Seq<Option<Seq<u8>>>) -> (
    Seq<u8>,
    nat,
    bool,
) {
    match p {
        Protocol::Text => text_session(buf, eof, answers),
        Protocol::Binary => binary_session(buf, eof, answers),
    }
}

/// The keys that a connection speaking `p` looks up, in order.
pub open spec fn session_keys(p: Protocol, buf: Seq<u8>, eof: bool) -> Seq<Seq<u8>> {
    match p {
        Protocol::Text => text_session_keys(buf, eof),
        Protocol::Binary => binary_session_keys(buf, eof),
    }
}

/// Serves the complete requests at the front of `input` with the handler of
/// `protocol`, appending the replies to `out`; returns the number of bytes
/// consumed and whether the connection is over. The input is the connection's
/// byte stream from its first byte on.
pub fn handle_connection<KV: KvStore>(
    kvstore: &KV,
    protocol: Protocol,
    input: &[u8],
    eof: bool,
    out: &mut Vec<u8>,
) -> (r: (usize, bool))
    ensures
        exists|answers: Seq<Option<Seq<u8>>>|
            answered_by(kvstore, session_keys(protocol, input@, eof), answers) && session(
                protocol,
                input@,
                eof,
                answers,
            ) == (final(out)@.skip(old(out)@.len() as int), r.0 as nat, r.1),
        final(out)@.take(old(out)@.len() as int) == old(out)@,
        r.0 <= input@.len(),
{
    let ghost prev = out@;
    match protocol {
        Protocol::Text => {
            let r = text_server::handle_client(kvstore, input, eof, out);
            proof {
                let a = choose|a: Seq<Option<Seq<u8>>>|
                    answered_by(kvstore, text_session_keys(input@, eof), a) && text_session(
                        input@,
                        eof,
                        a,
                    ) == (out@.skip(prev.len() as int), r.0 as nat, r.1);
                assert(answered_by(kvstore, session_keys(protocol, input@, eof), a));
                assert(session(protocol, input@, eof, a) == (
                    out@.skip(prev.len() as int),
                    r.0 as nat,
                    r.1,
                ));
            }
            r
        },
        Protocol::Binary => {
            let r = binary_server::handle_client(kvstore, input, eof, out);
            proof {
                let a = choose|a: Seq<Option<Seq<u8>>>|
                    answered_by(kvstore, binary_session_keys(input@, eof), a) && binary_session(
                        input@,
                        eof,
                        a,
                    ) == (out@.skip(prev.len() as int), r.0 as nat, r.1);
                assert(answered_by(kvstore, session_keys(protocol, input@, eof), a));
                assert(session(protocol, input@, eof, a) == (
                    out@.skip(prev.len() as int),
                    r.0 as nat,
                    r.1,
                ));
            }
            r
        },
    }
}

/// Serves a connection whose whole byte stream, up to the peer's close, is
/// `input`: its first byte picks the protocol, and the reply is what that
/// protocol's session sends for some answers of the store. An empty stream
/// gets no reply. The store is asked for exactly the session's keys, in
/// order.
pub fn serve<KV: KvStore>(kvstore: &KV, input: &[u8]) -> (r: Vec<u8>)
    ensures
        input@.len() == 0 ==> r@ == Seq::<u8>::empty(),
        input@.len() > 0 ==> exists|answers: Seq<Option<Seq<u8>>>|
            answered_by(kvstore, session_keys(protocol_of(input@[0]), input@, true), answers)
                && session(protocol_of(input@[0]), input@, true, answers).0 == r@,
{
    let mut out: Vec<u8> = Vec::new();
    if input.len() == 0 {
        return out;
    }
    let protocol = detect_protocol(input[0]);
    let _ = handle_connection(kvstore, protocol, input, true, &mut out);
    assert(out@.skip(0) =~= out@);
    out
}

/// The server only reads, and reads only what gets ask for: of the requests
/// at the front of a stream, a text request adds the keys of a `get` or
/// `gets` to the keys the session looks up and nothing otherwise, and a
/// binary request adds its own key for the get family and nothing otherwise.
/// The handlers' contracts tie each lookup they make to these keys, in order.
pub proof fn lemma_read_only(
    buf: Seq<u8>,
    eof: bool,
    t: RequestView,
    n: nat,
    b: ARequestView,
    m: nat,
)
    ensures
        parse_spec(buf, eof) == Some((t, n)) && !(t is Closed) && !(t is Quit) ==> {
            &&& !(t is Get) ==> text_session_keys(buf, eof) == text_session_keys(
                buf.skip(n as int),
                eof,
            )
            &&& t is Get ==> text_session_keys(buf, eof) == t->Get_keys + text_session_keys(
                buf.skip(n as int),
                eof,
            )
        },
        decode_request_spec(buf) == Ok::<(ARequestView, nat), Error>((b, m)) && b.header.opcode
            != opcodes::QUIT ==> {
            &&& !is_get_opcode(b.header.opcode) ==> binary_session_keys(buf, eof)
                == binary_session_keys(buf.skip(m as int), eof)
            &&& is_get_opcode(b.header.opcode) ==> binary_session_keys(buf, eof) == seq![b.key]
                + binary_session_keys(buf.skip(m as int), eof)
        },
{
    if parse_spec(buf, eof) == Some((t, n)) && !(t is Closed) && !(t is Quit) {
        assert(0 < n <= buf.len());
        if !(t is Get) {
            assert(Seq::<Seq<u8>>::empty() + text_session_keys(buf.skip(n as int), eof)
                =~= text_session_keys(buf.skip(n as int), eof));
        }
    }
    if decode_request_spec(buf) == Ok::<(ARequestView, nat), Error>((b, m)) && b.header.opcode
        != opcodes::QUIT {
        if !is_get_opcode(b.header.opcode) {
            assert(Seq::<Seq<u8>>::empty() + binary_session_keys(buf.skip(m as int), eof)
                =~= binary_session_keys(buf.skip(m as int), eof));
        }
    }
}

} // verus!
