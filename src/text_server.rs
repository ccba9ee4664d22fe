//! The text-protocol request loop.
use vstd::prelude::*;
use vstd::slice::slice_subrange;
use vstd::slice::slice_to_vec;
use vstd::string::StringSliceAdditionalSpecFns;

use crate::kvstore::{answer_view, answered_by, lemma_answered_concat, KvStore};
use crate::text_protocol::{
    crlf, parse_spec, value_bytes, Request, RequestView, Response, byte_seqs,
};

verus! {

/// The keys that serving `req` looks up, in order.
pub open spec fn lookup_keys(req: RequestView) -> Seq<Seq<u8>> {
    match req {
        RequestView::Get { keys, cas: _ } => keys,
        _ => Seq::empty(),
    }
}

/// The value lines of a `get`, one for each key found, in the order of the
/// keys; `answers[i]` is what the store returned for `keys[i]`.
pub open spec fn get_lines(keys: Seq<Seq<u8>>, cas: bool, answers: Seq<Option<Seq<u8>>>) -> Seq<u8>
    decreases keys.len(),
{
    if keys.len() == 0 {
        Seq::empty()
    } else {
        get_lines(keys.drop_last(), cas, answers.drop_last()) + match answers.last() {
            Some(v) => value_bytes(
                keys.last(),
                0,
                v,
                if cas {
                    Some(0u64)
                } else {
                    None
                },
            ),
            None => Seq::empty(),
        }
    }
}

pub open spec fn read_only_error() -> Seq<u8> {
    "SERVER_ERROR ".spec_bytes() + "Read-only; method not implemented".spec_bytes() + crlf()
}

/// What the server sends in reply to `req`, given the store's answers for
/// `lookup_keys(req)`.
pub open spec fn reply_spec(req: RequestView, answers: Seq<Option<Seq<u8>>>) -> Seq<u8> {
    match req {
        RequestView::Get { keys, cas } => get_lines(keys, cas, answers) + "END\r\n".spec_bytes(),
        RequestView::Error => "ERROR\r\n".spec_bytes(),
        RequestView::Quit => Seq::empty(),
        RequestView::Closed => Seq::empty(),
        _ => read_only_error(),
    }
}

/// Serving the requests at the front of `buf` in turn, the store answering
/// the lookups with `answers` in order: the bytes sent, the bytes consumed,
/// and whether the connection is over (`quit`, or the peer closed it).
pub open spec fn text_session(buf: Seq<u8>, eof: bool, answers: Seq<Option<Seq<u8>>>) -> (
    Seq<u8>,
    nat,
    bool,
)
    decreases buf.len(),
{
    match parse_spec(buf, eof) {
        None => (Seq::empty(), 0, false),
        Some((req, n)) => {
            if req is Closed {
                (Seq::empty(), 0, true)
            } else if req is Quit {
                (Seq::empty(), n, true)
            } else if n == 0 || n > buf.len() {
                (Seq::empty(), 0, false)
            } else {
                let k = lookup_keys(req).len();
                let next = text_session(buf.skip(n as int), eof, answers.skip(k as int));
                (reply_spec(req, answers.take(k as int)) + next.0, n + next.1, next.2)
            }
        },
    }
}

/// The keys that serving the requests at the front of `buf` looks up, in
/// the order of the requests and of their keys.
pub open spec fn text_session_keys(buf: Seq<u8>, eof: bool) -> Seq<Seq<u8>>
    decreases buf.len(),
{
    match parse_spec(buf, eof) {
        None => Seq::empty(),
        Some((req, n)) => {
            if req is Closed || req is Quit || n == 0 || n > buf.len() {
                Seq::empty()
            } else {
                lookup_keys(req) + text_session_keys(buf.skip(n as int), eof)
            }
        },
    }
}

proof fn lemma_session_step(
    buf: Seq<u8>,
    eof: bool,
    req: RequestView,
    n: nat,
    step: Seq<Option<Seq<u8>>>,
    fut: Seq<Option<Seq<u8>>>,
)
    requires
        parse_spec(buf, eof) == Some((req, n)),
        !(req is Closed),
        !(req is Quit),
        0 < n <= buf.len(),
        step.len() == lookup_keys(req).len(),
    ensures
        ({
            let next = text_session(buf.skip(n as int), eof, fut);
            text_session(buf, eof, step + fut) == (reply_spec(req, step) + next.0, n + next.1, next.2)
        }),
{
    let k = step.len();
    assert((step + fut).take(k as int) =~= step);
    assert((step + fut).skip(k as int) =~= fut);
}

/// Replies to one request that does not end the connection, looking up the
/// keys of a `get` in order; returns what the store answered.
fn respond<KV: KvStore>(kvstore: &KV, req: Request, out: &mut Vec<u8>) -> (step: Ghost<
    Seq<Option<Seq<u8>>>,
>)
    ensures
        answered_by(kvstore, lookup_keys(req@), step@),
        final(out)@ == old(out)@ + reply_spec(req@, step@),
{
    let ghost rv = req@;
    let ghost mut step: Seq<Option<Seq<u8>>> = Seq::empty();
    match req {
        Request::Get { keys, cas } => {
            let mut i: usize = 0;
            assert(out@.skip(old(out)@.len() as int) =~= Seq::<u8>::empty());
            while i < keys.len()
                invariant
                    0 <= i <= keys.len(),
                    step.len() == i,
                    forall|j: int|
                        0 <= j < i ==> kvstore.answers(#[trigger] byte_seqs(keys@)[j], step[j]),
                    out@.len() >= old(out)@.len(),
                    out@.take(old(out)@.len() as int) == old(out)@,
                    out@.skip(old(out)@.len() as int) == get_lines(
                        byte_seqs(keys@).take(i as int),
                        cas,
                        step,
                    ),
                decreases keys.len() - i,
            {
                let ghost prev = out@;
                let ghost prev_step = step;
                let answer = kvstore.get(keys[i].as_slice());
                proof {
                    step = step.push(answer_view(answer));
                    assert(byte_seqs(keys@)[i as int] == keys@[i as int]@);
                }
                match answer {
                    Some(value) => {
                        let resp = Response::KeyValue {
                            key: slice_to_vec(keys[i].as_slice()),
                            flags: 0,
                            value,
                            cas: if cas {
                                Some(0)
                            } else {
                                None
                            },
                        };
                        resp.write(out);
                    },
                    None => {},
                }
                let ghost ks = byte_seqs(keys@);
                assert(ks.take(i + 1).drop_last() =~= ks.take(i as int));
                assert(ks.take(i + 1).last() == keys@[i as int]@);
                assert(step.drop_last() =~= prev_step);
                assert(get_lines(ks.take(i + 1), cas, step) == get_lines(ks.take(i as int), cas, prev_step)
                    + out@.skip(prev.len() as int));
                assert(out@.skip(old(out)@.len() as int) =~= prev.skip(old(out)@.len() as int)
                    + out@.skip(prev.len() as int));
                assert(out@.take(old(out)@.len() as int) =~= old(out)@);
                i = i + 1;
            }
            assert(byte_seqs(keys@).take(i as int) =~= byte_seqs(keys@));
            let ghost mid = out@;
            Response::End.write(out);
            assert(out@ =~= old(out)@ + reply_spec(rv, step)) by {
                assert(mid =~= old(out)@ + mid.skip(old(out)@.len() as int));
            }
        },
        Request::Error => {
            Response::Error.write(out);
        },
        Request::Quit => {},
        Request::Closed => {},
        _ => {
            let msg = slice_to_vec("Read-only; method not implemented".as_bytes());
            Response::ServerError(msg).write(out);
            assert(out@ =~= old(out)@ + reply_spec(rv, step));
        },
    }
    Ghost(step)
}

/// Where no request can be served at the front of `buf`, the session sends
/// nothing and looks nothing up; it is over after a `quit` or at the end of
/// the stream.
proof fn lemma_session_stop(buf: Seq<u8>, eof: bool, r: Option<(RequestView, nat)>)
    requires
        r == parse_spec(buf, eof),
        r matches Some((req, n)) ==> req is Closed || req is Quit,
    ensures
        text_session_keys(buf, eof) == Seq::<Seq<u8>>::empty(),
        forall|fut: Seq<Option<Seq<u8>>>|
            #![trigger text_session(buf, eof, fut)]
            text_session(buf, eof, fut) == (match r {
                None => (Seq::<u8>::empty(), 0nat, false),
                Some((req, n)) => if req is Closed {
                    (Seq::<u8>::empty(), 0nat, true)
                } else {
                    (Seq::<u8>::empty(), n, true)
                },
            }),
{
}

proof fn lemma_keys_step(buf: Seq<u8>, eof: bool, req: RequestView, n: nat)
    requires
        parse_spec(buf, eof) == Some((req, n)),
        !(req is Closed),
        !(req is Quit),
        0 < n <= buf.len(),
    ensures
        text_session_keys(buf, eof) == lookup_keys(req) + text_session_keys(buf.skip(n as int), eof),
{
}

/// Carries the session invariant of the loop of `handle_client` over one
/// request `rv` of `n` bytes at `p0`, answered with `step`, whose reply
/// followed the output `delta`.
#[verifier::rlimit(60)]
proof fn lemma_advance(
    input: Seq<u8>,
    eof: bool,
    a0: Seq<Option<Seq<u8>>>,
    step: Seq<Option<Seq<u8>>>,
    p0: int,
    n: nat,
    next: int,
    rv: RequestView,
    delta: Seq<u8>,
)
    requires
        0 <= p0,
        next == p0 + n,
        0 < n,
        next <= input.len(),
        parse_spec(input.skip(p0), eof) == Some((rv, n)),
        !(rv is Closed),
        !(rv is Quit),
        step.len() == lookup_keys(rv).len(),
        forall|fut: Seq<Option<Seq<u8>>>|
            #![trigger text_session(input.skip(p0), eof, fut)]
            ({
                let s = text_session(input.skip(p0), eof, fut);
                text_session(input, eof, a0 + fut) == (delta + s.0, (p0 + s.1) as nat, s.2)
            }),
    ensures
        forall|fut: Seq<Option<Seq<u8>>>|
            #![trigger text_session(input.skip(next), eof, fut)]
            ({
                let s = text_session(input.skip(next), eof, fut);
                text_session(input, eof, (a0 + step) + fut) == (
                    (delta + reply_spec(rv, step)) + s.0,
                    (next + s.1) as nat,
                    s.2,
                )
            }),
{
    assert forall|fut: Seq<Option<Seq<u8>>>|
        #![trigger text_session(input.skip(next), eof, fut)]
        ({
            let s = text_session(input.skip(next), eof, fut);
            text_session(input, eof, (a0 + step) + fut) == (
                (delta + reply_spec(rv, step)) + s.0,
                (next + s.1) as nat,
                s.2,
            )
        }) by {
        assert(input.skip(p0).skip(n as int) =~= input.skip(next));
        lemma_session_step(input.skip(p0), eof, rv, n, step, fut);
        assert((a0 + step) + fut =~= a0 + (step + fut));
        // Instantiates the invariant of the step start at `step + fut`.
        let s0 = text_session(input.skip(p0), eof, step + fut);
        let s = text_session(input.skip(next), eof, fut);
        assert((delta + reply_spec(rv, step)) + s.0 =~= delta + (reply_spec(rv, step) + s.0));
    }
}

/// Serves every complete request at the front of `input`, appending the
/// replies to `out`: each `get` or `gets` looks its keys up in order and
/// sends a value line for each one found, then `END`; a malformed command
/// gets `ERROR`; every other command is refused as read-only. Stops at
/// `quit`, at the end of the stream, or where a request is still incomplete.
/// Returns the number of bytes consumed and whether the connection is over.
/// The store is asked for exactly the keys of `text_session_keys`, in order,
/// and the output is the session's for what it answered.
#[verifier::rlimit(60)]
pub fn handle_client<KV: KvStore>(kvstore: &KV, input: &[u8], eof: bool, out: &mut Vec<u8>) -> (r: (
    usize,
    bool,
))
    ensures
        exists|answers: Seq<Option<Seq<u8>>>|
            answered_by(kvstore, text_session_keys(input@, eof), answers) && text_session(
                input@,
                eof,
                answers,
            ) == (final(out)@.skip(old(out)@.len() as int), r.0 as nat, r.1),
        final(out)@.take(old(out)@.len() as int) == old(out)@,
        r.0 <= input@.len(),
{
    let ghost start = out@.len();
    let ghost mut ans: Seq<Option<Seq<u8>>> = Seq::empty();
    let ghost mut ks: Seq<Seq<u8>> = Seq::empty();
    let mut pos: usize = 0;
    let mut done = false;
    let mut end: usize = 0;
    proof {
        assert(input@.skip(0) =~= input@);
        assert(out@.skip(start as int) =~= Seq::<u8>::empty());
        assert(out@.take(start as int) =~= out@);
        assert(ks + text_session_keys(input@.skip(0), eof) =~= text_session_keys(input@, eof));
        assert forall|fut: Seq<Option<Seq<u8>>>|
            #![trigger text_session(input@.skip(0), eof, fut)]
            ({
                let s = text_session(input@.skip(0), eof, fut);
                text_session(input@, eof, ans + fut) == (
                    out@.skip(start as int) + s.0,
                    (0 + s.1) as nat,
                    s.2,
                )
            }) by {
            assert(ans + fut =~= fut);
            let s = text_session(input@.skip(0), eof, fut);
            assert(out@.skip(start as int) + s.0 =~= s.0);
        }
    }
    loop
        invariant_except_break
            !done,
        invariant
            pos <= input@.len(),
            start == old(out)@.len(),
            out@.take(start as int) == old(out)@,
            start <= out@.len(),
            answered_by(kvstore, ks, ans),
            text_session_keys(input@, eof) == ks + text_session_keys(input@.skip(pos as int), eof),
            forall|fut: Seq<Option<Seq<u8>>>|
                #![trigger text_session(input@.skip(pos as int), eof, fut)]
                ({
                    let s = text_session(input@.skip(pos as int), eof, fut);
                    text_session(input@, eof, ans + fut) == (
                        out@.skip(start as int) + s.0,
                        (pos + s.1) as nat,
                        s.2,
                    )
                }),
        ensures
            pos <= end <= input@.len(),
            text_session_keys(input@.skip(pos as int), eof) == Seq::<Seq<u8>>::empty(),
            forall|fut: Seq<Option<Seq<u8>>>|
                #![trigger text_session(input@.skip(pos as int), eof, fut)]
                text_session(input@.skip(pos as int), eof, fut) == (
                    Seq::<u8>::empty(),
                    (end - pos) as nat,
                    done,
                ),
        decreases input@.len() - pos,
    {
        let rest = slice_subrange(input, pos, input.len());
        assert(rest@ =~= input@.skip(pos as int));
        let parsed = Request::parse(rest, eof);
        match parsed {
            None => {
                end = pos;
                proof {
                    lemma_session_stop(input@.skip(pos as int), eof, None);
                }
                break;
            },
            Some((req, n)) => {
                if matches!(req, Request::Quit | Request::Closed) {
                    done = true;
                    end = pos + n;
                    proof {
                        lemma_session_stop(input@.skip(pos as int), eof, Some((req@, n as nat)));
                    }
                    break;
                }
                let ghost rv = req@;
                let ghost before = out@;
                let step = respond(kvstore, req, out);
                let ghost p0 = pos;
                proof {
                    assert(out@.skip(start as int) =~= before.skip(start as int) + reply_spec(
                        rv,
                        step@,
                    ));
                    assert(out@.take(start as int) =~= before.take(start as int));
                    lemma_keys_step(input@.skip(p0 as int), eof, rv, n as nat);
                    assert(input@.skip(p0 as int).skip(n as int) =~= input@.skip(p0 + n));
                    assert(ks + (lookup_keys(rv) + text_session_keys(input@.skip(p0 + n), eof))
                        =~= (ks + lookup_keys(rv)) + text_session_keys(input@.skip(p0 + n), eof));
                    lemma_answered_concat(kvstore, ks, ans, lookup_keys(rv), step@);
                    lemma_advance(
                        input@,
                        eof,
                        ans,
                        step@,
                        p0 as int,
                        n as nat,
                        p0 + n,
                        rv,
                        before.skip(start as int),
                    );
                    ans = ans + step@;
                    ks = ks + lookup_keys(rv);
                }
                pos = pos + n;
            },
        }
    }
    proof {
        let e: Seq<Option<Seq<u8>>> = Seq::empty();
        assert(ans + e =~= ans);
        assert(ks + Seq::<Seq<u8>>::empty() =~= ks);
        let s = text_session(input@.skip(pos as int), eof, e);
        assert(out@.skip(start as int) + Seq::<u8>::empty() =~= out@.skip(start as int));
        assert(text_session(input@, eof, ans) == (out@.skip(start as int), end as nat, done));
    }
    (end, done)
}

} // verus!
