//! The memcached text protocol: requests framed by lines over a byte stream,
//! and the line-oriented responses.
use vstd::prelude::*;
use vstd::slice::slice_to_vec;
use vstd::slice::slice_subrange;
use vstd::string::StringSliceAdditionalSpecFns;

use crate::decimal::{bounded_value, decimal, parse_decimal, push_decimal};

verus! {

/// The bytes that separate the words of a command line.
pub open spec fn is_space(b: u8) -> bool {
    b == 32 || (9 <= b && b <= 13)
}

fn is_space_byte(b: u8) -> (r: bool)
    ensures
        r == is_space(b),
{
    b == 32u8 || (9u8 <= b && b <= 13u8)
}

/// The words of `s` after the partial word `cur`, split at runs of spaces.
pub open spec fn split_words(s: Seq<u8>, cur: Seq<u8>) -> Seq<Seq<u8>>
    decreases s.len(),
{
    if s.len() == 0 {
        if cur.len() == 0 {
            Seq::empty()
        } else {
            seq![cur]
        }
    } else if is_space(s[0]) {
        if cur.len() == 0 {
            split_words(s.drop_first(), cur)
        } else {
            seq![cur] + split_words(s.drop_first(), Seq::empty())
        }
    } else {
        split_words(s.drop_first(), cur.push(s[0]))
    }
}

/// The words of a command line.
pub open spec fn tokens(s: Seq<u8>) -> Seq<Seq<u8>> {
    split_words(s, Seq::empty())
}

pub open spec fn byte_seqs(v: Seq<Vec<u8>>) -> Seq<Seq<u8>> {
    v.map_values(|x: Vec<u8>| x@)
}

fn split_tokens(line: &[u8]) -> (r: Vec<Vec<u8>>)
    ensures
        byte_seqs(r@) == tokens(line@),
{
    let mut out: Vec<Vec<u8>> = Vec::new();
    let mut cur: Vec<u8> = Vec::new();
    let mut i: usize = 0;
    assert(line@.skip(0) =~= line@);
    assert(byte_seqs(out@) =~= Seq::<Seq<u8>>::empty());
    while i < line.len()
        invariant
            0 <= i <= line.len(),
            byte_seqs(out@) + split_words(line@.skip(i as int), cur@) == tokens(line@),
        decreases line.len() - i,
    {
        let b = line[i];
        let ghost rest = line@.skip(i as int);
        assert(rest.drop_first() =~= line@.skip(i + 1));
        assert(rest[0] == b);
        if is_space_byte(b) {
            if cur.len() > 0 {
                let ghost old_out = out@;
                let ghost word = cur@;
                out.push(cur);
                cur = Vec::new();
                assert(byte_seqs(out@) =~= byte_seqs(old_out) + seq![word]);
                assert(byte_seqs(out@) + split_words(line@.skip(i + 1), cur@) =~= byte_seqs(old_out)
                    + (seq![word] + split_words(line@.skip(i + 1), Seq::empty())));
            }
        } else {
            cur.push(b);
        }
        i = i + 1;
    }
    assert(line@.skip(i as int) =~= Seq::<u8>::empty());
    if cur.len() > 0 {
        let ghost old_out = out@;
        let ghost word = cur@;
        out.push(cur);
        assert(byte_seqs(out@) =~= byte_seqs(old_out) + seq![word]);
    } else {
        assert(byte_seqs(out@) + Seq::<Seq<u8>>::empty() =~= byte_seqs(out@));
    }
    out
}

/// `i` is the position of the first line feed in `s`.
pub open spec fn newline_at(s: Seq<u8>, i: int) -> bool {
    0 <= i < s.len() && s[i] == 10 && forall|k: int| 0 <= k < i ==> s[k] != 10
}

/// The length of the command line at the front of `buf`, its line feed
/// included. At the end of the stream a last line needs no line feed.
pub open spec fn line_len(buf: Seq<u8>, eof: bool) -> Option<nat> {
    if exists|i: int| newline_at(buf, i) {
        Some((choose|i: int| newline_at(buf, i)) as nat + 1)
    } else if eof && buf.len() > 0 {
        Some(buf.len())
    } else {
        None
    }
}

fn find_line(buf: &[u8], eof: bool) -> (r: Option<usize>)
    ensures
        r matches Some(n) ==> line_len(buf@, eof) == Some(n as nat),
        r is None ==> line_len(buf@, eof) is None,
{
    let mut i: usize = 0;
    while i < buf.len()
        invariant
            0 <= i <= buf.len(),
            forall|k: int| 0 <= k < i ==> buf@[k] != 10,
        decreases buf.len() - i,
    {
        if buf[i] == 10u8 {
            assert(newline_at(buf@, i as int));
            proof {
                let j = choose|j: int| newline_at(buf@, j);
                assert(newline_at(buf@, j));
                if j < i {
                    assert(buf@[j] != 10);
                }
                if j > i {
                    assert(buf@[i as int] != 10);
                }
            }
            return Some(i + 1);
        }
        i = i + 1;
    }
    assert(!exists|j: int| newline_at(buf@, j)) by {
        if exists|j: int| newline_at(buf@, j) {
            let j = choose|j: int| newline_at(buf@, j);
            assert(buf@[j] != 10);
        }
    }
    if eof && buf.len() > 0 {
        Some(buf.len())
    } else {
        None
    }
}


/// Arguments shared by the commands that store a value.
pub struct DataRequest {
    pub key: Vec<u8>,
    pub flags: u16,
    pub exptime: u64,
    pub value: Vec<u8>,
}

/// Arguments of `incr` and `decr`.
pub struct IncrRequest {
    pub key: Vec<u8>,
    pub value: u64,
    pub noreply: bool,
}

/// A text-protocol request, as framed from the byte stream.
#[allow(inconsistent_fields)]
pub enum Request {
    Get { keys: Vec<Vec<u8>>, cas: bool },
    SetValue(DataRequest),
    Add(DataRequest),
    Replace(DataRequest),
    Append(DataRequest),
    Prepend(DataRequest),
    Cas { data: DataRequest, cas: u64 },
    Delete { key: Vec<u8>, noreply: bool },
    Incr(IncrRequest),
    Decr(IncrRequest),
    Touch { key: Vec<u8>, exptime: u64, noreply: bool },
    Stats(Vec<u8>),
    FlushAll,
    Version,
    Quit,
    Slabs(Vec<u8>),
    /// A malformed command; the connection goes on.
    Error,
    /// The peer closed the stream.
    Closed,
}

pub struct DataRequestView {
    pub key: Seq<u8>,
    pub flags: u16,
    pub exptime: u64,
    pub value: Seq<u8>,
}

pub struct IncrRequestView {
    pub key: Seq<u8>,
    pub value: u64,
    pub noreply: bool,
}

/// The mathematical model of a [`Request`]: byte strings as sequences.
#[allow(inconsistent_fields)]
pub enum RequestView {
    Get { keys: Seq<Seq<u8>>, cas: bool },
    SetValue(DataRequestView),
    Add(DataRequestView),
    Replace(DataRequestView),
    Append(DataRequestView),
    Prepend(DataRequestView),
    Cas { data: DataRequestView, cas: u64 },
    Delete { key: Seq<u8>, noreply: bool },
    Incr(IncrRequestView),
    Decr(IncrRequestView),
    Touch { key: Seq<u8>, exptime: u64, noreply: bool },
    Stats(Seq<u8>),
    FlushAll,
    Version,
    Quit,
    Slabs(Seq<u8>),
    Error,
    Closed,
}

impl View for DataRequest {
    type V = DataRequestView;

    open spec fn view(&self) -> DataRequestView {
        DataRequestView {
            key: self.key@,
            flags: self.flags,
            exptime: self.exptime,
            value: self.value@,
        }
    }
}

impl View for IncrRequest {
    type V = IncrRequestView;

    open spec fn view(&self) -> IncrRequestView {
        IncrRequestView { key: self.key@, value: self.value, noreply: self.noreply }
    }
}

impl View for Request {
    type V = RequestView;

    open spec fn view(&self) -> RequestView {
        match self {
            Request::Get { keys, cas } => RequestView::Get { keys: byte_seqs(keys@), cas: *cas },
            Request::SetValue(d) => RequestView::SetValue(d@),
            Request::Add(d) => RequestView::Add(d@),
            Request::Replace(d) => RequestView::Replace(d@),
            Request::Append(d) => RequestView::Append(d@),
            Request::Prepend(d) => RequestView::Prepend(d@),
            Request::Cas { data, cas } => RequestView::Cas { data: data@, cas: *cas },
            Request::Delete { key, noreply } => RequestView::Delete { key: key@, noreply: *noreply },
            Request::Incr(i) => RequestView::Incr(i@),
            Request::Decr(i) => RequestView::Decr(i@),
            Request::Touch { key, exptime, noreply } => RequestView::Touch {
                key: key@,
                exptime: *exptime,
                noreply: *noreply,
            },
            Request::Stats(l) => RequestView::Stats(l@),
            Request::FlushAll => RequestView::FlushAll,
            Request::Version => RequestView::Version,
            Request::Quit => RequestView::Quit,
            Request::Slabs(l) => RequestView::Slabs(l@),
            Request::Error => RequestView::Error,
            Request::Closed => RequestView::Closed,
        }
    }
}

pub open spec fn crlf() -> Seq<u8> {
    seq![13u8, 10u8]
}

/// Reading a value of `len` bytes and its `\r\n` from `rest`: the value
/// (`None` where the terminator is wrong or the stream ends first) and the
/// number of bytes consumed; `None` while more input is needed.
pub open spec fn body_spec(rest: Seq<u8>, len: nat, eof: bool) -> Option<(Option<Seq<u8>>, nat)> {
    if len + 2 <= rest.len() {
        let value = if rest.subrange(len as int, len + 2 as int) == crlf() {
            Some(rest.take(len as int))
        } else {
            None
        };
        Some((value, len + 2))
    } else if eof {
        Some((None, rest.len()))
    } else {
        None
    }
}

/// The arguments of a storage command with words `toks`, its value read from
/// `rest`. A bad number gives `None` at once, with nothing consumed.
pub open spec fn data_spec(toks: Seq<Seq<u8>>, rest: Seq<u8>, eof: bool) -> Option<
    (Option<DataRequestView>, nat),
> {
    let flags = bounded_value(toks[2], u16::MAX as nat);
    let exptime = bounded_value(toks[3], u64::MAX as nat);
    let len = bounded_value(toks[4], usize::MAX as nat);
    if flags is Some && exptime is Some && len is Some {
        match body_spec(rest, len->0, eof) {
            None => None,
            Some((Some(value), m)) => Some(
                (
                    Some(
                        DataRequestView {
                            key: toks[1],
                            flags: flags->0 as u16,
                            exptime: exptime->0 as u64,
                            value,
                        },
                    ),
                    m,
                ),
            ),
            Some((None, m)) => Some((None, m)),
        }
    } else {
        Some((None, 0))
    }
}

/// A storage command: its five words, then its value. Any other number of
/// words gives `None` at once, with nothing consumed.
pub open spec fn data_request_spec(toks: Seq<Seq<u8>>, rest: Seq<u8>, eof: bool) -> Option<
    (Option<DataRequestView>, nat),
> {
    if toks.len() != 5 {
        Some((None, 0))
    } else {
        data_spec(toks, rest, eof)
    }
}

pub open spec fn is_storage_verb(verb: Seq<u8>) -> bool {
    verb == "set".spec_bytes() || verb == "add".spec_bytes() || verb == "replace".spec_bytes()
        || verb == "append".spec_bytes() || verb == "prepend".spec_bytes()
}

pub open spec fn storage_request(verb: Seq<u8>, d: DataRequestView) -> RequestView {
    if verb == "set".spec_bytes() {
        RequestView::SetValue(d)
    } else if verb == "add".spec_bytes() {
        RequestView::Add(d)
    } else if verb == "replace".spec_bytes() {
        RequestView::Replace(d)
    } else if verb == "append".spec_bytes() {
        RequestView::Append(d)
    } else {
        RequestView::Prepend(d)
    }
}

/// An optional trailing word at index `i` must be `noreply`.
pub open spec fn noreply_ok(toks: Seq<Seq<u8>>, i: int) -> bool {
    toks.len() <= i || toks[i] == "noreply".spec_bytes()
}

/// The request that the command line `line`, with words `toks`, denotes, and
/// how many bytes of `rest` its value takes.
pub open spec fn command_spec(toks: Seq<Seq<u8>>, line: Seq<u8>, rest: Seq<u8>, eof: bool) -> Option<
    (RequestView, nat),
> {
    let n = toks.len();
    if n == 0 {
        Some((RequestView::Error, 0))
    } else {
        let verb = toks[0];
        if verb == "get".spec_bytes() {
            Some((RequestView::Get { keys: toks.drop_first(), cas: false }, 0))
        } else if verb == "gets".spec_bytes() {
            Some((RequestView::Get { keys: toks.drop_first(), cas: true }, 0))
        } else if is_storage_verb(verb) {
            match data_request_spec(toks, rest, eof) {
                None => None,
                Some((Some(d), m)) => Some((storage_request(verb, d), m)),
                Some((None, m)) => Some((RequestView::Error, m)),
            }
        } else if verb == "cas".spec_bytes() && n == 6 {
            match bounded_value(toks[5], u64::MAX as nat) {
                None => Some((RequestView::Error, 0)),
                Some(cas) => match data_spec(toks, rest, eof) {
                    None => None,
                    Some((Some(d), m)) => Some((RequestView::Cas { data: d, cas: cas as u64 }, m)),
                    Some((None, m)) => Some((RequestView::Error, m)),
                },
            }
        } else if verb == "touch".spec_bytes() && (n == 3 || n == 4) {
            match bounded_value(toks[2], u64::MAX as nat) {
                Some(e) if noreply_ok(toks, 3) => Some(
                    (RequestView::Touch { key: toks[1], exptime: e as u64, noreply: n == 4 }, 0),
                ),
                _ => Some((RequestView::Error, 0)),
            }
        } else if verb == "delete".spec_bytes() && (n == 2 || n == 3) {
            if noreply_ok(toks, 2) {
                Some((RequestView::Delete { key: toks[1], noreply: n == 3 }, 0))
            } else {
                Some((RequestView::Error, 0))
            }
        } else if (verb == "incr".spec_bytes() || verb == "decr".spec_bytes()) && (n == 3 || n
            == 4) {
            match bounded_value(toks[2], u64::MAX as nat) {
                Some(v) if noreply_ok(toks, 3) => {
                    let i = IncrRequestView { key: toks[1], value: v as u64, noreply: n == 4 };
                    if verb == "incr".spec_bytes() {
                        Some((RequestView::Incr(i), 0))
                    } else {
                        Some((RequestView::Decr(i), 0))
                    }
                },
                _ => Some((RequestView::Error, 0)),
            }
        } else if verb == "slabs".spec_bytes() {
            Some((RequestView::Slabs(line), 0))
        } else if verb == "stats".spec_bytes() {
            Some((RequestView::Stats(line), 0))
        } else if verb == "flush_all".spec_bytes() && n == 1 {
            Some((RequestView::FlushAll, 0))
        } else if verb == "version".spec_bytes() && n == 1 {
            Some((RequestView::Version, 0))
        } else if verb == "quit".spec_bytes() && n == 1 {
            Some((RequestView::Quit, 0))
        } else {
            Some((RequestView::Error, 0))
        }
    }
}

/// The request at the front of `buf` and the number of bytes it takes;
/// `None` while more input is needed. `eof` says that no byte follows `buf`.
pub open spec fn parse_spec(buf: Seq<u8>, eof: bool) -> Option<(RequestView, nat)> {
    if buf.len() == 0 {
        if eof {
            Some((RequestView::Closed, 0))
        } else {
            None
        }
    } else {
        match line_len(buf, eof) {
            None => None,
            Some(n) => match command_spec(
                tokens(buf.take(n as int)),
                buf.take(n as int),
                buf.skip(n as int),
                eof,
            ) {
                None => None,
                Some((r, m)) => Some((r, n + m)),
            },
        }
    }
}

pub open spec fn parsed_view(r: Option<(Request, usize)>) -> Option<(RequestView, nat)> {
    match r {
        Some((q, n)) => Some((q@, n as nat)),
        None => None,
    }
}

pub open spec fn data_view(d: Option<DataRequest>) -> Option<DataRequestView> {
    match d {
        Some(x) => Some(x@),
        None => None,
    }
}

pub open spec fn bytes_view(v: Option<Vec<u8>>) -> Option<Seq<u8>> {
    match v {
        Some(x) => Some(x@),
        None => None,
    }
}

fn bytes_eq(a: &[u8], b: &[u8]) -> (r: bool)
    ensures
        r == (a@ == b@),
{
    if a.len() != b.len() {
        return false;
    }
    let mut i: usize = 0;
    while i < a.len()
        invariant
            a.len() == b.len(),
            0 <= i <= a.len(),
            forall|k: int| 0 <= k < i ==> a@[k] == b@[k],
        decreases a.len() - i,
    {
        if a[i] != b[i] {
            return false;
        }
        i = i + 1;
    }
    assert(a@ =~= b@);
    true
}

fn is_word(tok: &Vec<u8>, w: &str) -> (r: bool)
    ensures
        r == (tok@ == w.spec_bytes()),
{
    bytes_eq(tok.as_slice(), w.as_bytes())
}

fn read_body(rest: &[u8], len: usize, eof: bool) -> (r: Option<(Option<Vec<u8>>, usize)>)
    ensures
        r matches Some((v, m)) ==> body_spec(rest@, len as nat, eof) == Some((bytes_view(v), m as nat)),
        r is None ==> body_spec(rest@, len as nat, eof) is None,
        r matches Some((_, m)) ==> m <= rest@.len(),
{
    if len <= rest.len() && rest.len() - len >= 2 {
        let ok = rest[len] == 13u8 && rest[len + 1] == 10u8;
        assert(ok == (rest@.subrange(len as int, len + 2) == crlf())) by {
            if rest@.subrange(len as int, len + 2) == crlf() {
                assert(rest@.subrange(len as int, len + 2)[0] == rest@[len as int]);
                assert(rest@.subrange(len as int, len + 2)[1] == rest@[len + 1]);
            }
            if ok {
                assert(rest@.subrange(len as int, len + 2) =~= crlf());
            }
        }
        if ok {
            let value = slice_to_vec(slice_subrange(rest, 0, len));
            assert(value@ =~= rest@.take(len as int));
            Some((Some(value), len + 2))
        } else {
            Some((None, len + 2))
        }
    } else if eof {
        Some((None, rest.len()))
    } else {
        None
    }
}

fn read_data(toks: &Vec<Vec<u8>>, rest: &[u8], eof: bool) -> (r: Option<
    (Option<DataRequest>, usize),
>)
    requires
        toks.len() >= 5,
    ensures
        r matches Some((d, m)) ==> data_spec(byte_seqs(toks@), rest@, eof) == Some(
            (data_view(d), m as nat),
        ),
        r is None ==> data_spec(byte_seqs(toks@), rest@, eof) is None,
        r matches Some((_, m)) ==> m <= rest@.len(),
{
    let ghost ts = byte_seqs(toks@);
    assert(ts[2] == toks@[2]@ && ts[3] == toks@[3]@ && ts[4] == toks@[4]@ && ts[1] == toks@[1]@);
    let flags = parse_decimal(toks[2].as_slice(), 65535);
    let exptime = parse_decimal(toks[3].as_slice(), u64::MAX);
    let length = parse_decimal(toks[4].as_slice(), usize::MAX as u64);
    match (flags, exptime, length) {
        (Some(flags), Some(exptime), Some(length)) => {
            match read_body(rest, length as usize, eof) {
                None => None,
                Some((Some(value), m)) => {
                    let key = slice_to_vec(toks[1].as_slice());
                    Some((Some(DataRequest { key, flags: flags as u16, exptime, value }), m))
                },
                Some((None, m)) => Some((None, m)),
            }
        },
        _ => Some((None, 0)),
    }
}


fn read_data_request(toks: &Vec<Vec<u8>>, rest: &[u8], eof: bool) -> (r: Option<
    (Option<DataRequest>, usize),
>)
    ensures
        r matches Some((d, m)) ==> data_request_spec(byte_seqs(toks@), rest@, eof) == Some(
            (data_view(d), m as nat),
        ),
        r is None ==> data_request_spec(byte_seqs(toks@), rest@, eof) is None,
        r matches Some((_, m)) ==> m <= rest@.len(),
{
    if toks.len() != 5 {
        return Some((None, 0));
    }
    read_data(toks, rest, eof)
}

fn get_keys(toks: &Vec<Vec<u8>>) -> (r: Vec<Vec<u8>>)
    requires
        toks.len() >= 1,
    ensures
        byte_seqs(r@) == byte_seqs(toks@).drop_first(),
{
    let mut keys: Vec<Vec<u8>> = Vec::new();
    let mut i: usize = 1;
    while i < toks.len()
        invariant
            1 <= i <= toks.len(),
            byte_seqs(keys@) =~= byte_seqs(toks@).subrange(1, i as int),
        decreases toks.len() - i,
    {
        let ghost before = keys@;
        keys.push(slice_to_vec(toks[i].as_slice()));
        assert(byte_seqs(keys@) =~= byte_seqs(before).push(toks@[i as int]@));
        i = i + 1;
    }
    keys
}

fn read_cas(toks: &Vec<Vec<u8>>, rest: &[u8], eof: bool) -> (r: Option<(Request, usize)>)
    requires
        toks.len() == 6,
    ensures
        parsed_view(r) == (match bounded_value(byte_seqs(toks@)[5], u64::MAX as nat) {
            None => Some((RequestView::Error, 0nat)),
            Some(cas) => match data_spec(byte_seqs(toks@), rest@, eof) {
                None => None,
                Some((Some(d), m)) => Some((RequestView::Cas { data: d, cas: cas as u64 }, m)),
                Some((None, m)) => Some((RequestView::Error, m)),
            },
        }),
        r matches Some((_, m)) ==> m <= rest@.len(),
{
    assert(byte_seqs(toks@)[5] == toks@[5]@);
    match parse_decimal(toks[5].as_slice(), u64::MAX) {
        None => Some((Request::Error, 0)),
        Some(cas) => match read_data(toks, rest, eof) {
            None => None,
            Some((Some(data), m)) => Some((Request::Cas { data, cas }, m)),
            Some((None, m)) => Some((Request::Error, m)),
        },
    }
}

fn noreply_at(toks: &Vec<Vec<u8>>, i: usize) -> (r: bool)
    ensures
        r == noreply_ok(byte_seqs(toks@), i as int),
{
    if toks.len() <= i {
        true
    } else {
        assert(byte_seqs(toks@)[i as int] == toks@[i as int]@);
        is_word(&toks[i], "noreply")
    }
}

fn parse_touch(toks: &Vec<Vec<u8>>) -> (r: Request)
    requires
        toks.len() == 3 || toks.len() == 4,
    ensures
        r@ == (match bounded_value(byte_seqs(toks@)[2], u64::MAX as nat) {
            Some(e) if noreply_ok(byte_seqs(toks@), 3) => RequestView::Touch {
                key: byte_seqs(toks@)[1],
                exptime: e as u64,
                noreply: toks.len() == 4,
            },
            _ => RequestView::Error,
        }),
{
    assert(byte_seqs(toks@)[2] == toks@[2]@ && byte_seqs(toks@)[1] == toks@[1]@);
    match parse_decimal(toks[2].as_slice(), u64::MAX) {
        Some(exptime) => {
            if noreply_at(toks, 3) {
                Request::Touch {
                    key: slice_to_vec(toks[1].as_slice()),
                    exptime,
                    noreply: toks.len() == 4,
                }
            } else {
                Request::Error
            }
        },
        None => Request::Error,
    }
}

fn parse_incr(toks: &Vec<Vec<u8>>) -> (r: Option<IncrRequest>)
    requires
        toks.len() == 3 || toks.len() == 4,
    ensures
        (match bounded_value(byte_seqs(toks@)[2], u64::MAX as nat) {
            Some(v) if noreply_ok(byte_seqs(toks@), 3) => r matches Some(i) && i@
                == IncrRequestView {
                key: byte_seqs(toks@)[1],
                value: v as u64,
                noreply: toks.len() == 4,
            },
            _ => r is None,
        }),
{
    assert(byte_seqs(toks@)[2] == toks@[2]@ && byte_seqs(toks@)[1] == toks@[1]@);
    match parse_decimal(toks[2].as_slice(), u64::MAX) {
        Some(value) => {
            if noreply_at(toks, 3) {
                Some(
                    IncrRequest {
                        key: slice_to_vec(toks[1].as_slice()),
                        value,
                        noreply: toks.len() == 4,
                    },
                )
            } else {
                None
            }
        },
        None => None,
    }
}

fn storage_verb(verb: &Vec<u8>) -> (r: bool)
    ensures
        r == is_storage_verb(verb@),
{
    is_word(verb, "set") || is_word(verb, "add") || is_word(verb, "replace") || is_word(
        verb,
        "append",
    ) || is_word(verb, "prepend")
}

fn storage_command(verb: &Vec<u8>, d: DataRequest) -> (r: Request)
    ensures
        r@ == storage_request(verb@, d@),
{
    if is_word(verb, "set") {
        Request::SetValue(d)
    } else if is_word(verb, "add") {
        Request::Add(d)
    } else if is_word(verb, "replace") {
        Request::Replace(d)
    } else if is_word(verb, "append") {
        Request::Append(d)
    } else {
        Request::Prepend(d)
    }
}

impl Request {
    /// Frames the request at the front of `buf`: returns it with the number
    /// of bytes it takes, or `None` while more input is needed. `eof` says
    /// that the peer will send nothing after `buf`.
    pub fn parse(buf: &[u8], eof: bool) -> (r: Option<(Request, usize)>)
        ensures
            parsed_view(r) == parse_spec(buf@, eof),
            r matches Some((_, n)) ==> n <= buf@.len(),
            r matches Some((_, n)) ==> n > 0 || buf@.len() == 0,
    {
        if buf.len() == 0 {
            return if eof {
                Some((Request::Closed, 0))
            } else {
                None
            };
        }
        let n = match find_line(buf, eof) {
            None => {
                return None;
            },
            Some(n) => n,
        };
        proof {
            if exists|i: int| newline_at(buf@, i) {
                let i = choose|i: int| newline_at(buf@, i);
                assert(newline_at(buf@, i));
            }
        }
        let line = slice_subrange(buf, 0, n);
        let rest = slice_subrange(buf, n, buf.len());
        assert(line@ =~= buf@.take(n as int));
        assert(rest@ =~= buf@.skip(n as int));
        let toks = split_tokens(line);
        let ghost ts = byte_seqs(toks@);
        if toks.len() == 0 {
            return Some((Request::Error, n));
        }
        let verb = &toks[0];
        assert(ts[0] == verb@);
        assert(toks.len() > 1 ==> ts[1] == toks@[1]@);
        let count = toks.len();
        let (req, m): (Request, usize) = if is_word(verb, "get") {
            (Request::Get { keys: get_keys(&toks), cas: false }, 0)
        } else if is_word(verb, "gets") {
            (Request::Get { keys: get_keys(&toks), cas: true }, 0)
        } else if storage_verb(verb) {
            match read_data_request(&toks, rest, eof) {
                None => {
                    return None;
                },
                Some((Some(d), m)) => (storage_command(verb, d), m),
                Some((None, m)) => (Request::Error, m),
            }
        } else if is_word(verb, "cas") && count == 6 {
            match read_cas(&toks, rest, eof) {
                None => {
                    return None;
                },
                Some((q, m)) => (q, m),
            }
        } else if is_word(verb, "touch") && (count == 3 || count == 4) {
            (parse_touch(&toks), 0)
        } else if is_word(verb, "delete") && (count == 2 || count == 3) {
            if noreply_at(&toks, 2) {
                (Request::Delete { key: slice_to_vec(toks[1].as_slice()), noreply: count == 3 }, 0)
            } else {
                (Request::Error, 0)
            }
        } else if (is_word(verb, "incr") || is_word(verb, "decr")) && (count == 3 || count == 4) {
            match parse_incr(&toks) {
                Some(i) => if is_word(verb, "incr") {
                    (Request::Incr(i), 0)
                } else {
                    (Request::Decr(i), 0)
                },
                None => (Request::Error, 0),
            }
        } else if is_word(verb, "slabs") {
            (Request::Slabs(slice_to_vec(line)), 0)
        } else if is_word(verb, "stats") {
            (Request::Stats(slice_to_vec(line)), 0)
        } else if is_word(verb, "flush_all") && count == 1 {
            (Request::FlushAll, 0)
        } else if is_word(verb, "version") && count == 1 {
            (Request::Version, 0)
        } else if is_word(verb, "quit") && count == 1 {
            (Request::Quit, 0)
        } else {
            (Request::Error, 0)
        };
        Some((req, n + m))
    }
}


/// A text-protocol response.
pub enum Response {
    KeyValue { key: Vec<u8>, flags: u16, value: Vec<u8>, cas: Option<u64> },
    End,
    Error,
    ClientError(Vec<u8>),
    ServerError(Vec<u8>),
    NotFound,
    Deleted,
    Touched,
    NoReply,
    Okay,
    Stats(Vec<(Vec<u8>, Vec<u8>)>),
}

/// `VALUE <key> <flags> <bytes>[ <cas>]\r\n<value>\r\n`.
pub open spec fn value_bytes(key: Seq<u8>, flags: u16, value: Seq<u8>, cas: Option<u64>) -> Seq<
    u8,
> {
    "VALUE ".spec_bytes() + key + seq![32u8] + decimal(flags as nat) + seq![32u8] + decimal(
        value.len(),
    ) + match cas {
        Some(c) => seq![32u8] + decimal(c as nat),
        None => Seq::empty(),
    } + crlf() + value + crlf()
}

/// One `STAT <name> <value>\r\n` line per pair, in order.
pub open spec fn stats_bytes(s: Seq<(Vec<u8>, Vec<u8>)>) -> Seq<u8>
    decreases s.len(),
{
    if s.len() == 0 {
        Seq::empty()
    } else {
        stats_bytes(s.drop_last()) + "STAT ".spec_bytes() + s.last().0@ + seq![32u8] + s.last().1@
            + crlf()
    }
}

impl Response {
    /// The bytes that this response puts on the wire.
    pub open spec fn encoding(&self) -> Seq<u8> {
        match self {
            Response::KeyValue { key, flags, value, cas } => value_bytes(key@, *flags, value@, *cas),
            Response::End => "END\r\n".spec_bytes(),
            Response::Error => "ERROR\r\n".spec_bytes(),
            Response::ClientError(m) => "CLIENT_ERROR ".spec_bytes() + m@ + crlf(),
            Response::ServerError(m) => "SERVER_ERROR ".spec_bytes() + m@ + crlf(),
            Response::NotFound => "NOT_FOUND\r\n".spec_bytes(),
            Response::Deleted => "DELETED\r\n".spec_bytes(),
            Response::Touched => "TOUCHED\r\n".spec_bytes(),
            Response::NoReply => Seq::empty(),
            Response::Okay => "OK\r\n".spec_bytes(),
            Response::Stats(s) => stats_bytes(s@),
        }
    }

    /// Appends the response to `out`.
    pub fn write(&self, out: &mut Vec<u8>)
        ensures
            final(out)@ == old(out)@ + self.encoding(),
    {
        match self {
            Response::KeyValue { key, flags, value, cas } => write_value(out, key, *flags, value, *cas),
            Response::End => push_lit(out, "END\r\n"),
            Response::Error => push_lit(out, "ERROR\r\n"),
            Response::ClientError(m) => {
                push_lit(out, "CLIENT_ERROR ");
                push_bytes(out, m.as_slice());
                push_crlf(out);
                assert(final(out)@ =~= old(out)@ + self.encoding());
            },
            Response::ServerError(m) => {
                push_lit(out, "SERVER_ERROR ");
                push_bytes(out, m.as_slice());
                push_crlf(out);
                assert(final(out)@ =~= old(out)@ + self.encoding());
            },
            Response::NotFound => push_lit(out, "NOT_FOUND\r\n"),
            Response::Deleted => push_lit(out, "DELETED\r\n"),
            Response::Touched => push_lit(out, "TOUCHED\r\n"),
            Response::NoReply => {
                assert(final(out)@ =~= old(out)@ + self.encoding());
            },
            Response::Okay => push_lit(out, "OK\r\n"),
            Response::Stats(s) => write_stats(out, s),
        }
    }
}

fn write_value(out: &mut Vec<u8>, key: &Vec<u8>, flags: u16, value: &Vec<u8>, cas: Option<u64>)
    ensures
        final(out)@ == old(out)@ + value_bytes(key@, flags, value@, cas),
{
    push_lit(out, "VALUE ");
    push_bytes(out, key.as_slice());
    out.push(32u8);
    push_decimal(out, flags as u64);
    out.push(32u8);
    push_decimal(out, value.len() as u64);
    match cas {
        Some(c) => {
            out.push(32u8);
            push_decimal(out, c);
        },
        None => {},
    }
    push_crlf(out);
    push_bytes(out, value.as_slice());
    push_crlf(out);
    assert(final(out)@ =~= old(out)@ + value_bytes(key@, flags, value@, cas));
}

fn write_stats(out: &mut Vec<u8>, s: &Vec<(Vec<u8>, Vec<u8>)>)
    ensures
        final(out)@ == old(out)@ + stats_bytes(s@),
{
    let mut i: usize = 0;
    assert(s@.take(0) =~= Seq::<(Vec<u8>, Vec<u8>)>::empty());
    assert(out@ =~= old(out)@ + stats_bytes(s@.take(0)));
    while i < s.len()
        invariant
            0 <= i <= s.len(),
            out@ == old(out)@ + stats_bytes(s@.take(i as int)),
        decreases s.len() - i,
    {
        push_lit(out, "STAT ");
        push_bytes(out, s[i].0.as_slice());
        out.push(32u8);
        push_bytes(out, s[i].1.as_slice());
        push_crlf(out);
        assert(s@.take(i + 1).drop_last() =~= s@.take(i as int));
        assert(out@ =~= old(out)@ + stats_bytes(s@.take(i + 1)));
        i = i + 1;
    }
    assert(s@.take(i as int) =~= s@);
}
pub fn push_lit(out: &mut Vec<u8>, s: &str)
    ensures
        final(out)@ == old(out)@ + s.spec_bytes(),
{
    push_bytes(out, s.as_bytes());
}

pub fn push_bytes(out: &mut Vec<u8>, s: &[u8])
    ensures
        final(out)@ == old(out)@ + s@,
{
    out.extend_from_slice(s);
    assert(out@ =~= old(out)@ + s@);
}

pub fn push_crlf(out: &mut Vec<u8>)
    ensures
        final(out)@ == old(out)@ + crlf(),
{
    out.push(13u8);
    out.push(10u8);
    assert(out@ =~= old(out)@ + crlf());
}


/// The keys, each after one space.
pub open spec fn spaced(keys: Seq<Seq<u8>>) -> Seq<u8>
    decreases keys.len(),
{
    if keys.len() == 0 {
        Seq::empty()
    } else {
        seq![32u8] + keys[0] + spaced(keys.drop_first())
    }
}

/// A key that the text protocol can carry: not empty, and free of spaces.
pub open spec fn is_text_key(k: Seq<u8>) -> bool {
    k.len() > 0 && forall|i: int| 0 <= i < k.len() ==> !is_space(#[trigger] k[i])
}

proof fn lemma_split_word(w: Seq<u8>, rest: Seq<u8>, cur: Seq<u8>)
    requires
        forall|i: int| 0 <= i < w.len() ==> !is_space(#[trigger] w[i]),
    ensures
        split_words(w + rest, cur) == split_words(rest, cur + w),
    decreases w.len(),
{
    if w.len() == 0 {
        assert(w + rest =~= rest);
        assert(cur + w =~= cur);
    } else {
        let s = w + rest;
        assert(s[0] == w[0]);
        assert(s.drop_first() =~= w.drop_first() + rest);
        lemma_split_word(w.drop_first(), rest, cur.push(w[0]));
        assert(cur.push(w[0]) + w.drop_first() =~= cur + w);
    }
}

proof fn lemma_split_spaced(keys: Seq<Seq<u8>>, cur: Seq<u8>)
    requires
        cur.len() > 0,
        forall|i: int| 0 <= i < keys.len() ==> is_text_key(#[trigger] keys[i]),
    ensures
        split_words(spaced(keys) + crlf(), cur) == seq![cur] + keys,
    decreases keys.len(),
{
    if keys.len() == 0 {
        assert(spaced(keys) + crlf() =~= crlf());
        assert(crlf().drop_first() =~= seq![10u8]);
        assert(seq![10u8].drop_first() =~= Seq::<u8>::empty());
        assert(split_words(seq![10u8], Seq::empty()) == split_words(Seq::<u8>::empty(), Seq::empty()));
        assert(seq![cur] + keys =~= seq![cur]);
        assert(seq![cur] + Seq::<Seq<u8>>::empty() =~= seq![cur]);
    } else {
        let k = keys[0];
        let tail = spaced(keys.drop_first()) + crlf();
        let s = spaced(keys) + crlf();
        assert(s =~= seq![32u8] + (k + tail));
        assert(s.drop_first() =~= k + tail);
        assert(is_text_key(k));
        lemma_split_word(k, tail, Seq::empty());
        assert(Seq::<u8>::empty() + k =~= k);
        assert forall|i: int| 0 <= i < keys.drop_first().len() implies is_text_key(
            #[trigger] keys.drop_first()[i],
        ) by {
            assert(keys.drop_first()[i] == keys[i + 1]);
        }
        lemma_split_spaced(keys.drop_first(), k);
        assert(seq![cur] + (seq![k] + keys.drop_first()) =~= seq![cur] + keys);
    }
}

proof fn lemma_spaced_no_newline(keys: Seq<Seq<u8>>)
    requires
        forall|i: int| 0 <= i < keys.len() ==> is_text_key(#[trigger] keys[i]),
    ensures
        forall|i: int| 0 <= i < spaced(keys).len() ==> #[trigger] spaced(keys)[i] != 10,
    decreases keys.len(),
{
    if keys.len() > 0 {
        let k = keys[0];
        assert(is_text_key(k));
        assert forall|i: int| 0 <= i < keys.drop_first().len() implies is_text_key(
            #[trigger] keys.drop_first()[i],
        ) by {
            assert(keys.drop_first()[i] == keys[i + 1]);
        }
        lemma_spaced_no_newline(keys.drop_first());
        let t = spaced(keys.drop_first());
        assert forall|i: int| 0 <= i < spaced(keys).len() implies #[trigger] spaced(keys)[i] != 10 by {
            if i == 0 {
            } else if i < 1 + k.len() {
                assert(spaced(keys)[i] == k[i - 1]);
            } else {
                assert(spaced(keys)[i] == t[i - 1 - k.len()]);
            }
        }
    }
}

/// Parsing `get k1 … kn\r\n` yields a `Get` of exactly those keys, in order,
/// with `cas` false, for any number of keys; `gets` likewise with `cas` true.
/// The line is consumed whole, whatever follows it.
pub proof fn lemma_get_tokenization(keys: Seq<Seq<u8>>, cas: bool, rest: Seq<u8>, eof: bool)
    requires
        forall|i: int| 0 <= i < keys.len() ==> is_text_key(#[trigger] keys[i]),
    ensures
        ({
            let verb = if cas {
                "gets".spec_bytes()
            } else {
                "get".spec_bytes()
            };
            let line = verb + spaced(keys) + crlf();
            parse_spec(line + rest, eof) == Some((RequestView::Get { keys, cas }, line.len()))
        }),
{
    reveal_strlit("get");
    reveal_strlit("gets");
    vstd::string::is_ascii_spec_bytes("get");
    vstd::string::is_ascii_spec_bytes("gets");
    let verb = if cas {
        "gets".spec_bytes()
    } else {
        "get".spec_bytes()
    };
    assert("get".spec_bytes() =~= seq![103u8, 101u8, 116u8]);
    assert("gets".spec_bytes() =~= seq![103u8, 101u8, 116u8, 115u8]);
    let line = verb + spaced(keys) + crlf();
    let buf = line + rest;
    let last = line.len() - 1;
    lemma_spaced_no_newline(keys);
    assert(buf[last] == 10);
    assert forall|k: int| 0 <= k < last implies buf[k] != 10 by {
        if k < verb.len() {
        } else if k < verb.len() + spaced(keys).len() {
            assert(buf[k] == spaced(keys)[k - verb.len()]);
        } else {
            assert(buf[k] == 13);
        }
    }
    assert(newline_at(buf, last));
    let j = choose|j: int| newline_at(buf, j);
    assert(newline_at(buf, j));
    if j < last {
        assert(buf[j] != 10);
    }
    if j > last {
        assert(buf[last] != 10);
    }
    assert(line_len(buf, eof) == Some(line.len()));
    assert(buf.take(line.len() as int) =~= line);
    assert(buf.skip(line.len() as int) =~= rest);
    assert(line =~= verb + (spaced(keys) + crlf()));
    lemma_split_word(verb, spaced(keys) + crlf(), Seq::empty());
    assert(Seq::<u8>::empty() + verb =~= verb);
    lemma_split_spaced(keys, verb);
    let toks = tokens(line);
    assert(toks == seq![verb] + keys);
    assert(toks[0] == verb);
    assert(toks.drop_first() =~= keys);
}

} // verus!
