//! The binary-protocol request loop.
use vstd::prelude::*;
use vstd::slice::slice_subrange;
use vstd::string::StringSliceAdditionalSpecFns;

use crate::binary_protocol::{
    decode_request, decode_request_spec, error_spec, make_spec, reply_fits, response_bytes,
    response_consistent, ARequestView, AResponseView, PWrite, Request, Response, RAW_BYTES,
    RESPONSE_MAGIC,
};
use crate::error::Error;
use crate::kvstore::{answer_view, answered_by, lemma_answered_concat, KvStore};
use crate::opcodes;
use crate::response_status;

verus! {

pub open spec fn is_get_opcode(op: u8) -> bool {
    op == opcodes::GET || op == opcodes::GETQ || op == opcodes::GETK || op == opcodes::GETKQ
}

/// The keys that serving `req` looks up: its own key for the get family,
/// else none.
pub open spec fn lookup_keys(req: ARequestView) -> Seq<Seq<u8>> {
    if is_get_opcode(req.header.opcode) {
        seq![req.key]
    } else {
        Seq::empty()
    }
}

/// How many lookups serving `req` makes.
pub open spec fn lookup_count(req: ARequestView) -> nat {
    lookup_keys(req).len()
}

/// The flags field of a value response: four zero bytes.
pub open spec fn flags_extras() -> Seq<u8> {
    seq![0u8, 0u8, 0u8, 0u8]
}

/// The response to `req`, or `None` where nothing is sent, the store having
/// answered `answer` to the lookup of a get. A value response that could not
/// state its length in the header is refused with `VALUE_TOO_LARGE`.
pub open spec fn binary_reply(req: ARequestView, answer: Option<Seq<u8>>) -> Option<AResponseView> {
    let op = req.header.opcode;
    if is_get_opcode(op) {
        let include_key = op == opcodes::GETK || op == opcodes::GETKQ;
        match answer {
            Some(v) => if reply_fits(req, 4, include_key, v.len()) {
                Some(make_spec(req, flags_extras(), include_key, v))
            } else {
                Some(error_spec(req, response_status::VALUE_TOO_LARGE))
            },
            None => if op == opcodes::GET || op == opcodes::GETK {
                Some(error_spec(req, response_status::KEY_NOT_FOUND))
            } else {
                None
            },
        }
    } else if op == opcodes::NO_OP {
        Some(make_spec(req, Seq::empty(), false, Seq::empty()))
    } else if op == opcodes::VERSION {
        Some(make_spec(req, Seq::empty(), false, "0.0.0".spec_bytes()))
    } else {
        Some(error_spec(req, response_status::NOT_SUPPORTED))
    }
}

pub open spec fn reply_bytes(r: Option<AResponseView>) -> Seq<u8> {
    match r {
        Some(resp) => response_bytes(resp),
        None => Seq::empty(),
    }
}

/// Serving the requests at the front of `buf` in turn, the store answering
/// the lookups with `answers` in order: the bytes sent, the bytes consumed,
/// and whether the connection is over (`QUIT`, a malformed header, or the
/// end of the stream).
pub open spec fn binary_session(buf: Seq<u8>, eof: bool, answers: Seq<Option<Seq<u8>>>) -> (
    Seq<u8>,
    nat,
    bool,
)
    decreases buf.len(),
{
    match decode_request_spec(buf) {
        Err(Error::Incomplete) => (Seq::empty(), 0, eof),
        Err(Error::Malformed) => (Seq::empty(), 0, true),
        Ok((req, n)) => {
            if req.header.opcode == opcodes::QUIT {
                (Seq::empty(), n, true)
            } else if n == 0 || n > buf.len() {
                (Seq::empty(), 0, false)
            } else {
                let k = lookup_count(req);
                let answer = if k == 1 {
                    answers[0]
                } else {
                    None
                };
                let next = binary_session(buf.skip(n as int), eof, answers.skip(k as int));
                (reply_bytes(binary_reply(req, answer)) + next.0, n + next.1, next.2)
            }
        },
    }
}

/// The keys that serving the requests at the front of `buf` looks up, in
/// order: the key of each request of the get family.
pub open spec fn binary_session_keys(buf: Seq<u8>, eof: bool) -> Seq<Seq<u8>>
    decreases buf.len(),
{
    match decode_request_spec(buf) {
        Err(_) => Seq::empty(),
        Ok((req, n)) => {
            if req.header.opcode == opcodes::QUIT || n == 0 || n > buf.len() {
                Seq::empty()
            } else {
                lookup_keys(req) + binary_session_keys(buf.skip(n as int), eof)
            }
        },
    }
}

pub open spec fn step_answer(step: Seq<Option<Seq<u8>>>) -> Option<Seq<u8>> {
    if step.len() == 1 {
        step[0]
    } else {
        None
    }
}

proof fn lemma_session_step(
    buf: Seq<u8>,
    eof: bool,
    req: ARequestView,
    n: nat,
    step: Seq<Option<Seq<u8>>>,
    fut: Seq<Option<Seq<u8>>>,
)
    requires
        decode_request_spec(buf) == Ok::<(ARequestView, nat), Error>((req, n)),
        req.header.opcode != opcodes::QUIT,
        0 < n <= buf.len(),
        step.len() == lookup_count(req),
    ensures
        ({
            let next = binary_session(buf.skip(n as int), eof, fut);
            binary_session(buf, eof, step + fut) == (
                reply_bytes(binary_reply(req, step_answer(step))) + next.0,
                n + next.1,
                next.2,
            )
        }),
{
    let k = step.len();
    assert((step + fut).skip(k as int) =~= fut);
    if k == 1 {
        assert((step + fut)[0] == step[0]);
    }
}

/// Replies to one request other than `QUIT`; returns what the store
/// answered.
fn respond<KV: KvStore>(kvstore: &KV, request: &Request, out: &mut Vec<u8>) -> (step: Ghost<
    Seq<Option<Seq<u8>>>,
>)
    requires
        request@.key.len() <= u16::MAX,
    ensures
        answered_by(kvstore, lookup_keys(request@), step@),
        final(out)@ == old(out)@ + reply_bytes(binary_reply(request@, step_answer(step@))),
{
    let opcode = request.header.opcode;
    if opcode == opcodes::GET || opcode == opcodes::GETQ || opcode == opcodes::GETK || opcode
        == opcodes::GETKQ {
        let include_key = opcode == opcodes::GETK || opcode == opcodes::GETKQ;
        let return_not_found = opcode == opcodes::GET || opcode == opcodes::GETK;
        let answer = kvstore.get(request.key.as_slice());
        let ghost step = seq![answer_view(answer)];
        match answer {
            Some(data) => {
                let key_len: usize = if include_key {
                    request.key.len()
                } else {
                    0
                };
                if data.len() <= u32::MAX as usize - 4 - key_len {
                    let extras: [u8; 4] = [0u8; 4];
                    assert(extras@ =~= flags_extras());
                    out.write_response(&Response::make(request, &extras, include_key, data.as_slice()));
                } else {
                    out.write_response(
                        &Response::make_error(request, response_status::VALUE_TOO_LARGE),
                    );
                }
            },
            None => {
                if return_not_found {
                    out.write_response(
                        &Response::make_error(request, response_status::KEY_NOT_FOUND),
                    );
                } else {
                    assert(out@ =~= old(out)@ + Seq::<u8>::empty());
                }
            },
        }
        Ghost(step)
    } else {
        if opcode == opcodes::NO_OP {
            let empty: [u8; 0] = [];
            assert(empty@ =~= Seq::<u8>::empty());
            out.write_response(&Response::make(request, &empty, false, &empty));
        } else if opcode == opcodes::VERSION {
            let empty: [u8; 0] = [];
            assert(empty@ =~= Seq::<u8>::empty());
            proof {
                reveal_strlit("0.0.0");
                vstd::string::is_ascii_spec_bytes("0.0.0");
                assert("0.0.0".spec_bytes().len() == 5);
            }
            out.write_response(&Response::make(request, &empty, false, "0.0.0".as_bytes()));
        } else {
            out.write_response(&Response::make_error(request, response_status::NOT_SUPPORTED));
        }
        Ghost(Seq::empty())
    }
}


/// Every response sent in reply to a request echoes the request's opaque,
/// cas and opcode, carries the response magic and raw data type, and states
/// a body length equal to its extras, key and value together.
pub proof fn lemma_reply_echoes(req: ARequestView, answer: Option<Seq<u8>>)
    requires
        req.key.len() <= u16::MAX,
    ensures
        binary_reply(req, answer) matches Some(resp) ==> {
            &&& resp.header.opaque == req.header.opaque
            &&& resp.header.cas == req.header.cas
            &&& resp.header.opcode == req.header.opcode
            &&& resp.header.magic == RESPONSE_MAGIC
            &&& resp.header.data_type == RAW_BYTES
            &&& response_consistent(resp)
        },
{
    reveal_strlit("0.0.0");
    vstd::string::is_ascii_spec_bytes("0.0.0");
    assert("0.0.0".spec_bytes().len() == 5);
}

/// The requests of a session that got a response, each with the response
/// sent for it, in order.
pub open spec fn binary_exchanges(buf: Seq<u8>, eof: bool, answers: Seq<Option<Seq<u8>>>) -> Seq<
    (ARequestView, AResponseView),
>
    decreases buf.len(),
{
    match decode_request_spec(buf) {
        Err(_) => Seq::empty(),
        Ok((req, n)) => {
            if req.header.opcode == opcodes::QUIT || n == 0 || n > buf.len() {
                Seq::empty()
            } else {
                let k = lookup_count(req);
                let answer = if k == 1 {
                    answers[0]
                } else {
                    None
                };
                let sent = match binary_reply(req, answer) {
                    Some(resp) => seq![(req, resp)],
                    None => Seq::empty(),
                };
                sent + binary_exchanges(buf.skip(n as int), eof, answers.skip(k as int))
            }
        },
    }
}

/// The bytes of the responses of `x`, in order.
pub open spec fn exchange_bytes(x: Seq<(ARequestView, AResponseView)>) -> Seq<u8>
    decreases x.len(),
{
    if x.len() == 0 {
        Seq::empty()
    } else {
        response_bytes(x[0].1) + exchange_bytes(x.drop_first())
    }
}

/// A session sends exactly the responses of its exchanges, in order, and
/// every response sent in reply to a request echoes that request's opaque,
/// cas and opcode, carries the response magic and raw data type, and states
/// a body length equal to its extras, key and value together.
pub proof fn lemma_session_echoes(buf: Seq<u8>, eof: bool, answers: Seq<Option<Seq<u8>>>)
    ensures
        binary_session(buf, eof, answers).0 == exchange_bytes(binary_exchanges(buf, eof, answers)),
        forall|i: int|
            0 <= i < binary_exchanges(buf, eof, answers).len() ==> {
                let (req, resp) = #[trigger] binary_exchanges(buf, eof, answers)[i];
                &&& resp.header.opaque == req.header.opaque
                &&& resp.header.cas == req.header.cas
                &&& resp.header.opcode == req.header.opcode
                &&& resp.header.magic == RESPONSE_MAGIC
                &&& resp.header.data_type == RAW_BYTES
                &&& response_consistent(resp)
            },
    decreases buf.len(),
{
    match decode_request_spec(buf) {
        Err(_) => {},
        Ok((req, n)) => {
            if req.header.opcode == opcodes::QUIT || n == 0 || n > buf.len() {
            } else {
                let k = lookup_count(req);
                let answer = if k == 1 {
                    answers[0]
                } else {
                    None
                };
                let rest = buf.skip(n as int);
                let fut = answers.skip(k as int);
                lemma_session_echoes(rest, eof, fut);
                lemma_reply_echoes(req, answer);
                let tail = binary_exchanges(rest, eof, fut);
                let x = binary_exchanges(buf, eof, answers);
                match binary_reply(req, answer) {
                    Some(resp) => {
                        assert(x == seq![(req, resp)] + tail);
                        assert(x.drop_first() =~= tail);
                        assert(x[0] == (req, resp));
                        assert forall|i: int| 0 < i < x.len() implies #[trigger] x[i] == tail[i - 1] by {}
                    },
                    None => {
                        assert(x =~= tail);
                        assert(reply_bytes(binary_reply(req, answer)) + binary_session(rest, eof, fut).0
                            =~= binary_session(rest, eof, fut).0);
                    },
                }
            }
        },
    }
}

proof fn lemma_keys_step(buf: Seq<u8>, eof: bool, req: ARequestView, n: nat)
    requires
        decode_request_spec(buf) == Ok::<(ARequestView, nat), Error>((req, n)),
        req.header.opcode != opcodes::QUIT,
        0 < n <= buf.len(),
    ensures
        binary_session_keys(buf, eof) == lookup_keys(req) + binary_session_keys(buf.skip(n as int), eof),
{
}

/// Carries the session invariant of the loop of `handle_client` over one
/// request `rv` of `n` bytes at `p0`, answered with `step`, whose reply
/// followed the output `delta`.
proof fn lemma_advance(
    input: Seq<u8>,
    eof: bool,
    a0: Seq<Option<Seq<u8>>>,
    step: Seq<Option<Seq<u8>>>,
    p0: int,
    n: nat,
    next: int,
    rv: ARequestView,
    delta: Seq<u8>,
)
    requires
        0 <= p0,
        next == p0 + n,
        0 < n,
        next <= input.len(),
        decode_request_spec(input.skip(p0)) == Ok::<(ARequestView, nat), Error>((rv, n)),
        rv.header.opcode != opcodes::QUIT,
        step.len() == lookup_count(rv),
        forall|fut: Seq<Option<Seq<u8>>>|
            #![trigger binary_session(input.skip(p0), eof, fut)]
            ({
                let s = binary_session(input.skip(p0), eof, fut);
                binary_session(input, eof, a0 + fut) == (delta + s.0, (p0 + s.1) as nat, s.2)
            }),
    ensures
        forall|fut: Seq<Option<Seq<u8>>>|
            #![trigger binary_session(input.skip(next), eof, fut)]
            ({
                let s = binary_session(input.skip(next), eof, fut);
                binary_session(input, eof, (a0 + step) + fut) == (
                    (delta + reply_bytes(binary_reply(rv, step_answer(step)))) + s.0,
                    (next + s.1) as nat,
                    s.2,
                )
            }),
{
    let reply = reply_bytes(binary_reply(rv, step_answer(step)));
    assert forall|fut: Seq<Option<Seq<u8>>>|
        #![trigger binary_session(input.skip(next), eof, fut)]
        ({
            let s = binary_session(input.skip(next), eof, fut);
            binary_session(input, eof, (a0 + step) + fut) == (
                (delta + reply) + s.0,
                (next + s.1) as nat,
                s.2,
            )
        }) by {
        assert(input.skip(p0).skip(n as int) =~= input.skip(next));
        lemma_session_step(input.skip(p0), eof, rv, n, step, fut);
        assert((a0 + step) + fut =~= a0 + (step + fut));
        // Instantiates the invariant of the step start at `step + fut`.
        let s0 = binary_session(input.skip(p0), eof, step + fut);
        let s = binary_session(input.skip(next), eof, fut);
        assert((delta + reply) + s.0 =~= delta + (reply + s.0));
    }
}

/// Serves every complete request at the front of `input`, appending the
/// responses to `out`: the get family looks the key up (the quiet variants
/// send nothing on a miss), `NO_OP` and `VERSION` are answered, `QUIT` ends
/// the connection, and every other opcode gets `NOT_SUPPORTED`. A malformed
/// header, or the end of the stream, ends the connection too. Returns the
/// number of bytes consumed and whether the connection is over. The store is
/// asked for exactly the keys of `binary_session_keys`, in order, and the
/// output is the session's for what it answered.
#[verifier::rlimit(60)]
pub fn handle_client<KV: KvStore>(kvstore: &KV, input: &[u8], eof: bool, out: &mut Vec<u8>) -> (r: (
    usize,
    bool,
))
    ensures
        exists|answers: Seq<Option<Seq<u8>>>|
            answered_by(kvstore, binary_session_keys(input@, eof), answers) && binary_session(
                input@,
                eof,
                answers,
            ) == (final(out)@.skip(old(out)@.len() as int), r.0 as nat, r.1),
        final(out)@.take(old(out)@.len() as int) == old(out)@,
        r.0 <= input@.len(),
{
    let ghost start = out@.len();
    let ghost mut ans: Seq<Option<Seq<u8>>> = Seq::empty();
    let ghost mut ks: Seq<Seq<u8>> = Seq::empty();
    let mut pos: usize = 0;
    let mut done = false;
    let mut end: usize = 0;
    proof {
        assert(input@.skip(0) =~= input@);
        assert(out@.skip(start as int) =~= Seq::<u8>::empty());
        assert(out@.take(start as int) =~= out@);
        assert(ks + binary_session_keys(input@.skip(0), eof) =~= binary_session_keys(input@, eof));
        assert forall|fut: Seq<Option<Seq<u8>>>|
            #![trigger binary_session(input@.skip(0), eof, fut)]
            ({
                let s = binary_session(input@.skip(0), eof, fut);
                binary_session(input@, eof, ans + fut) == (
                    out@.skip(start as int) + s.0,
                    (0 + s.1) as nat,
                    s.2,
                )
            }) by {
            assert(ans + fut =~= fut);
            let s = binary_session(input@.skip(0), eof, fut);
            assert(out@.skip(start as int) + s.0 =~= s.0);
        }
    }
    loop
        invariant_except_break
            !done,
        invariant
            pos <= input@.len(),
            start == old(out)@.len(),
            out@.take(start as int) == old(out)@,
            start <= out@.len(),
            answered_by(kvstore, ks, ans),
            binary_session_keys(input@, eof) == ks + binary_session_keys(input@.skip(pos as int), eof),
            forall|fut: Seq<Option<Seq<u8>>>|
                #![trigger binary_session(input@.skip(pos as int), eof, fut)]
                ({
                    let s = binary_session(input@.skip(pos as int), eof, fut);
                    binary_session(input@, eof, ans + fut) == (
                        out@.skip(start as int) + s.0,
                        (pos + s.1) as nat,
                        s.2,
                    )
                }),
        ensures
            pos <= end <= input@.len(),
            binary_session_keys(input@.skip(pos as int), eof) == Seq::<Seq<u8>>::empty(),
            forall|fut: Seq<Option<Seq<u8>>>|
                #![trigger binary_session(input@.skip(pos as int), eof, fut)]
                binary_session(input@.skip(pos as int), eof, fut) == (
                    Seq::<u8>::empty(),
                    (end - pos) as nat,
                    done,
                ),
        decreases input@.len() - pos,
    {
        let rest = slice_subrange(input, pos, input.len());
        assert(rest@ =~= input@.skip(pos as int));
        match decode_request(rest) {
            Err(e) => {
                end = pos;
                done = match e {
                    Error::Incomplete => eof,
                    Error::Malformed => true,
                };
                assert forall|fut: Seq<Option<Seq<u8>>>|
                    #![trigger binary_session(input@.skip(pos as int), eof, fut)]
                    binary_session(input@.skip(pos as int), eof, fut) == (
                        Seq::<u8>::empty(),
                        (end - pos) as nat,
                        done,
                    ) by {}
                break;
            },
            Ok((request, n)) => {
                if request.header.opcode == opcodes::QUIT {
                    done = true;
                    end = pos + n;
                    assert forall|fut: Seq<Option<Seq<u8>>>|
                        #![trigger binary_session(input@.skip(pos as int), eof, fut)]
                        binary_session(input@.skip(pos as int), eof, fut) == (
                            Seq::<u8>::empty(),
                            (end - pos) as nat,
                            done,
                        ) by {}
                    break;
                }
                let ghost rv = request@;
                let ghost before = out@;
                let step = respond(kvstore, &request, out);
                let ghost p0 = pos;
                proof {
                    let reply = reply_bytes(binary_reply(rv, step_answer(step@)));
                    assert(out@.skip(start as int) =~= before.skip(start as int) + reply);
                    assert(out@.take(start as int) =~= before.take(start as int));
                    lemma_keys_step(input@.skip(p0 as int), eof, rv, n as nat);
                    assert(input@.skip(p0 as int).skip(n as int) =~= input@.skip(p0 + n));
                    assert(ks + (lookup_keys(rv) + binary_session_keys(input@.skip(p0 + n), eof))
                        =~= (ks + lookup_keys(rv)) + binary_session_keys(input@.skip(p0 + n), eof));
                    lemma_answered_concat(kvstore, ks, ans, lookup_keys(rv), step@);
                    lemma_advance(
                        input@,
                        eof,
                        ans,
                        step@,
                        p0 as int,
                        n as nat,
                        p0 + n,
                        rv,
                        before.skip(start as int),
                    );
                    ans = ans + step@;
                    ks = ks + lookup_keys(rv);
                }
                pos = pos + n;
            },
        }
    }
    proof {
        let e: Seq<Option<Seq<u8>>> = Seq::empty();
        assert(ans + e =~= ans);
        assert(ks + Seq::<Seq<u8>>::empty() =~= ks);
        let s = binary_session(input@.skip(pos as int), eof, e);
        assert(out@.skip(start as int) + Seq::<u8>::empty() =~= out@.skip(start as int));
        assert(binary_session(input@, eof, ans) == (out@.skip(start as int), end as nat, done));
    }
    (end, done)
}

} // verus!
