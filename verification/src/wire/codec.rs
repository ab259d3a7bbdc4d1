//! Messages from a client to the server.

use vstd::prelude::*;
use vstd::string::*;

use crate::be;
use crate::be::{copy_range, get_u16, get_u32};
use crate::text;
use crate::text::{decimal_text, text_lossy};

verus! {

/// A message from a client, after startup.
#[derive(Debug, Clone, PartialEq)]
pub enum FrontendMessage {
    Query(String),
    Parse { name: String, query: String, param_types: Vec<i32> },
    Bind {
        portal: String,
        stmt: String,
        params: Vec<Option<Vec<u8>>>,
        param_formats: Vec<i16>,
        result_formats: Vec<i16>,
    },
    Describe { kind: u8, name: String },
    Execute { portal: String, max_rows: i32 },
    Close { kind: u8, name: String },
    Sync,
    Flush,
    Terminate,
    CancelRequest,
    CopyData(Vec<u8>),
    CopyDone,
    CopyFail(String),
    /// Passwords and SASL responses alike; what it is depends on where the
    /// handshake stands.
    PasswordData(Vec<u8>),
}

pub enum FrontendView {
    Query(Seq<char>),
    Parse { name: Seq<char>, query: Seq<char>, param_types: Seq<i32> },
    Bind {
        portal: Seq<char>,
        stmt: Seq<char>,
        params: Seq<Option<Seq<u8>>>,
        param_formats: Seq<i16>,
        result_formats: Seq<i16>,
    },
    Describe { kind: u8, name: Seq<char> },
    Execute { portal: Seq<char>, max_rows: i32 },
    Close { kind: u8, name: Seq<char> },
    Sync,
    Flush,
    Terminate,
    CancelRequest,
    CopyData(Seq<u8>),
    CopyDone,
    CopyFail(Seq<char>),
    PasswordData(Seq<u8>),
}

pub open spec fn param_views(ps: Seq<Option<Vec<u8>>>) -> Seq<Option<Seq<u8>>> {
    ps.map_values(
        |p: Option<Vec<u8>>|
            match p {
                Some(v) => Some(v@),
                None => None,
            },
    )
}

impl View for FrontendMessage {
    type V = FrontendView;

    open spec fn view(&self) -> FrontendView {
        match self {
            FrontendMessage::Query(q) => FrontendView::Query(q@),
            FrontendMessage::Parse { name, query, param_types } => FrontendView::Parse {
                name: name@,
                query: query@,
                param_types: param_types@,
            },
            FrontendMessage::Bind { portal, stmt, params, param_formats, result_formats } =>
                FrontendView::Bind {
                portal: portal@,
                stmt: stmt@,
                params: param_views(params@),
                param_formats: param_formats@,
                result_formats: result_formats@,
            },
            FrontendMessage::Describe { kind, name } => FrontendView::Describe {
                kind: *kind,
                name: name@,
            },
            FrontendMessage::Execute { portal, max_rows } => FrontendView::Execute {
                portal: portal@,
                max_rows: *max_rows,
            },
            FrontendMessage::Close { kind, name } => FrontendView::Close {
                kind: *kind,
                name: name@,
            },
            FrontendMessage::Sync => FrontendView::Sync,
            FrontendMessage::Flush => FrontendView::Flush,
            FrontendMessage::Terminate => FrontendView::Terminate,
            FrontendMessage::CancelRequest => FrontendView::CancelRequest,
            FrontendMessage::CopyData(d) => FrontendView::CopyData(d@),
            FrontendMessage::CopyDone => FrontendView::CopyDone,
            FrontendMessage::CopyFail(m) => FrontendView::CopyFail(m@),
            FrontendMessage::PasswordData(d) => FrontendView::PasswordData(d@),
        }
    }
}

/// What a client sends before the first message.
#[derive(Debug, Clone, PartialEq)]
pub struct StartupParams {
    pub protocol_version: i32,
    pub params: Vec<(String, String)>,
}

/// Why a connection cannot go on.
#[derive(Debug, Clone, Copy, PartialEq, Eq, Structural)]
pub enum CodecError {
    /// The length of the startup message is below 8 or above 65535.
    InvalidStartupLength { len: i32 },
    /// Requests to cancel are not served.
    CancelNotSupported,
    /// The length of a message is too short to hold itself.
    InvalidLength { len: i32, tag: u8 },
    /// A count in a message is negative, or more than the message holds.
    InvalidCount { tag: u8 },
}

impl CodecError {
    /// What is wrong, in words.
    pub open spec fn text(&self) -> Seq<char> {
        match self {
            CodecError::InvalidStartupLength { len } => "invalid startup message length: "@ + text::decimal(((*len) as usize) as nat),
            CodecError::CancelNotSupported => "cancel request not supported"@,
            CodecError::InvalidLength { len, tag } => "invalid message length "@ + text::decimal(((*len) as usize) as nat) + " for tag "@ + text::decimal(*tag as nat),
            CodecError::InvalidCount { tag } => "invalid count in message of tag "@ + text::decimal(*tag as nat),
        }
    }

    /// What is wrong, in words.
    pub fn message(&self) -> (m: String)
        ensures
            m@ == self.text(),
    {
        match self {
            CodecError::InvalidStartupLength { len } => {
                let mut m = "invalid startup message length: ".to_owned();
                m.append(decimal_text(((*len) as usize) as u64).as_str());
                m
            },
            CodecError::CancelNotSupported => "cancel request not supported".to_owned(),
            CodecError::InvalidLength { len, tag } => {
                let mut m = "invalid message length ".to_owned();
                m.append(decimal_text(((*len) as usize) as u64).as_str());
                m.append(" for tag ");
                m.append(decimal_text(*tag as u64).as_str());
                m
            },
            CodecError::InvalidCount { tag } => {
                let mut m = "invalid count in message of tag ".to_owned();
                m.append(decimal_text(*tag as u64).as_str());
                m
            },
        }
    }
}

/// Where the first zero byte from `pos` on stands, or where the data end.
pub open spec fn zero_from(data: Seq<u8>, pos: int) -> int
    decreases data.len() - pos,
{
    if pos < 0 || pos >= data.len() || data[pos] == 0 {
        pos
    } else {
        zero_from(data, pos + 1)
    }
}

/// The text at `pos`, up to a zero byte or the end.
pub open spec fn cstr_at(data: Seq<u8>, pos: int) -> Seq<char> {
    text::lossy(data.subrange(pos, zero_from(data, pos)))
}

/// What follows the text at `pos`.
pub open spec fn after_cstr(data: Seq<u8>, pos: int) -> int {
    let end = zero_from(data, pos);
    if end + 1 < data.len() {
        end + 1
    } else {
        data.len() as int
    }
}

pub proof fn lemma_zero_from(data: Seq<u8>, pos: int)
    requires
        0 <= pos <= data.len(),
    ensures
        pos <= zero_from(data, pos) <= data.len(),
        pos <= after_cstr(data, pos) <= data.len(),
    decreases data.len() - pos,
{
    if pos < data.len() && data[pos] != 0 {
        lemma_zero_from(data, pos + 1);
    }
}

/// Reads a text, and says what follows it.
fn read_cstr(data: &[u8], pos: usize) -> (r: (String, usize))
    requires
        pos <= data@.len(),
    ensures
        r.0@ == cstr_at(data@, pos as int),
        r.1 == after_cstr(data@, pos as int),
        pos <= r.1 <= data@.len(),
{
    proof {
        lemma_zero_from(data@, pos as int);
    }
    let mut end: usize = pos;
    while end < data.len() && data[end] != 0
        invariant
            pos <= end <= data@.len(),
            zero_from(data@, pos as int) == zero_from(data@, end as int),
        decreases data@.len() - end,
    {
        end += 1;
    }
    let bytes = copy_range(data, pos, end);
    let s = text_lossy(bytes.as_slice());
    let next: usize = if end < data.len() {
        end + 1
    } else {
        data.len()
    };
    (s, next)
}

/// A number of two bytes at `pos`, or 0 where the data end before it.
pub open spec fn short_at(data: Seq<u8>, pos: int) -> (i16, int) {
    if pos + 2 <= data.len() {
        (be::u16_at(data, pos) as i16, pos + 2)
    } else {
        (0, pos)
    }
}

fn read_short(data: &[u8], pos: usize) -> (r: (i16, usize))
    requires
        pos <= data@.len(),
    ensures
        (r.0, r.1 as int) == short_at(data@, pos as int),
        pos <= r.1 <= data@.len(),
{
    if data.len() - pos >= 2 {
        (get_u16(data, pos) as i16, pos + 2)
    } else {
        (0, pos)
    }
}

/// `n` numbers of two bytes from `pos` on, 0 for those behind the end.
pub open spec fn shorts_at(data: Seq<u8>, pos: int, n: nat) -> (Seq<i16>, int)
    decreases n,
{
    if n == 0 {
        (Seq::empty(), pos)
    } else {
        let (head, p) = shorts_at(data, pos, (n - 1) as nat);
        let (x, q) = short_at(data, p);
        (head.push(x), q)
    }
}

fn read_shorts(data: &[u8], pos: usize, n: usize) -> (r: (Vec<i16>, usize))
    requires
        pos <= data@.len(),
    ensures
        (r.0@, r.1 as int) == shorts_at(data@, pos as int, n as nat),
        pos <= r.1 <= data@.len(),
{
    let mut out: Vec<i16> = Vec::new();
    let mut p: usize = pos;
    let mut i: usize = 0;
    assert(out@ =~= Seq::<i16>::empty());
    while i < n
        invariant
            pos <= p <= data@.len(),
            i <= n,
            (out@, p as int) == shorts_at(data@, pos as int, i as nat),
        decreases n - i,
    {
        let (x, q) = read_short(data, p);
        out.push(x);
        p = q;
        i += 1;
        assert(shorts_at(data@, pos as int, i as nat) == (out@, p as int));
    }
    (out, p)
}

/// A parameter at `pos`: a length and that many bytes, or as many as there
/// are; null for a negative or missing length.
pub open spec fn param_at(data: Seq<u8>, pos: int) -> (Option<Seq<u8>>, int) {
    if pos + 4 > data.len() {
        (None, pos)
    } else {
        let len = be::u32_at(data, pos) as i32;
        if len < 0 {
            (None, pos + 4)
        } else if pos + 4 + len <= data.len() {
            (Some(data.subrange(pos + 4, pos + 4 + len)), pos + 4 + len)
        } else {
            (Some(data.skip(pos + 4)), data.len() as int)
        }
    }
}

pub open spec fn params_at(data: Seq<u8>, pos: int, n: nat) -> (Seq<Option<Seq<u8>>>, int)
    decreases n,
{
    if n == 0 {
        (Seq::empty(), pos)
    } else {
        let (head, p) = params_at(data, pos, (n - 1) as nat);
        let (x, q) = param_at(data, p);
        (head.push(x), q)
    }
}

fn read_param(data: &[u8], pos: usize) -> (r: (Option<Vec<u8>>, usize))
    requires
        pos <= data@.len(),
    ensures
        (
            match r.0 {
                Some(v) => Some(v@),
                None => None,
            },
            r.1 as int,
        ) == param_at(data@, pos as int),
        pos <= r.1 <= data@.len(),
{
    if data.len() - pos < 4 {
        return (None, pos);
    }
    let len: i32 = get_u32(data, pos) as i32;
    if len < 0 {
        return (None, pos + 4);
    }
    let from: usize = pos + 4;
    let to: usize = if len as usize <= data.len() - from {
        from + len as usize
    } else {
        data.len()
    };
    let bytes = copy_range(data, from, to);
    proof {
        if to == data@.len() {
            assert(bytes@ =~= data@.skip(from as int));
        }
    }
    (Some(bytes), to)
}

fn read_params(data: &[u8], pos: usize, n: usize) -> (r: (Vec<Option<Vec<u8>>>, usize))
    requires
        pos <= data@.len(),
    ensures
        (param_views(r.0@), r.1 as int) == params_at(data@, pos as int, n as nat),
        pos <= r.1 <= data@.len(),
{
    let mut out: Vec<Option<Vec<u8>>> = Vec::new();
    let mut p: usize = pos;
    let mut i: usize = 0;
    assert(param_views(out@) =~= Seq::<Option<Seq<u8>>>::empty());
    while i < n
        invariant
            pos <= p <= data@.len(),
            i <= n,
            (param_views(out@), p as int) == params_at(data@, pos as int, i as nat),
        decreases n - i,
    {
        let ghost before = out@;
        let (x, q) = read_param(data, p);
        out.push(x);
        p = q;
        i += 1;
        assert(param_views(out@) =~= param_views(before).push(param_views(out@).last()));
        assert(params_at(data@, pos as int, i as nat) == (param_views(out@), p as int));
    }
    (out, p)
}

/// `n` numbers of four bytes from `pos` on.
pub open spec fn ints_at(data: Seq<u8>, pos: int, n: nat) -> Seq<i32> {
    Seq::new(n, |i: int| be::u32_at(data, pos + 4 * i) as i32)
}

/// The message of a letter and a body.
pub open spec fn message_in(tag: u8, data: Seq<u8>) -> Result<FrontendView, CodecError> {
    if tag == 81 {
        Ok(FrontendView::Query(cstr_at(data, 0)))
    } else if tag == 80 {
        let p = after_cstr(data, 0);
        let q = after_cstr(data, p);
        let (n, r) = short_at(data, q);
        if n < 0 || r + 4 * n > data.len() {
            Err(CodecError::InvalidCount { tag })
        } else {
            Ok(
                FrontendView::Parse {
                    name: cstr_at(data, 0),
                    query: cstr_at(data, p),
                    param_types: ints_at(data, r, n as nat),
                },
            )
        }
    } else if tag == 66 {
        bind_in(data)
    } else if tag == 68 || tag == 67 {
        let kind = if data.len() > 0 {
            data[0]
        } else {
            83
        };
        let name = cstr_at(
            data,
            if data.len() > 0 {
                1
            } else {
                0
            },
        );
        Ok(
            if tag == 68 {
                FrontendView::Describe { kind, name }
            } else {
                FrontendView::Close { kind, name }
            },
        )
    } else if tag == 69 {
        let p = after_cstr(data, 0);
        Ok(
            FrontendView::Execute {
                portal: cstr_at(data, 0),
                max_rows: if p + 4 <= data.len() {
                    be::u32_at(data, p) as i32
                } else {
                    0
                },
            },
        )
    } else if tag == 72 {
        Ok(FrontendView::Flush)
    } else if tag == 88 {
        Ok(FrontendView::Terminate)
    } else if tag == 100 {
        Ok(FrontendView::CopyData(data))
    } else if tag == 99 {
        Ok(FrontendView::CopyDone)
    } else if tag == 102 {
        Ok(FrontendView::CopyFail(cstr_at(data, 0)))
    } else if tag == 112 {
        Ok(FrontendView::PasswordData(data))
    } else {
        Ok(FrontendView::Sync)
    }
}

/// The body of a message that binds parameters.
pub open spec fn bind_in(data: Seq<u8>) -> Result<FrontendView, CodecError> {
    let p = after_cstr(data, 0);
    let q = after_cstr(data, p);
    let (nf, r) = short_at(data, q);
    if nf < 0 {
        Err(CodecError::InvalidCount { tag: 66 })
    } else {
        let (param_formats, s) = shorts_at(data, r, nf as nat);
        let (np, t) = short_at(data, s);
        if np < 0 {
            Err(CodecError::InvalidCount { tag: 66 })
        } else {
            let (params, u) = params_at(data, t, np as nat);
            let (nr, v) = short_at(data, u);
            if nr < 0 {
                Err(CodecError::InvalidCount { tag: 66 })
            } else {
                Ok(
                    FrontendView::Bind {
                        portal: cstr_at(data, 0),
                        stmt: cstr_at(data, p),
                        params,
                        param_formats,
                        result_formats: shorts_at(data, v, nr as nat).0,
                    },
                )
            }
        }
    }
}

fn read_bind(data: &[u8]) -> (r: Result<FrontendMessage, CodecError>)
    ensures
        match r {
            Ok(m) => bind_in(data@) == Ok::<FrontendView, CodecError>(m@),
            Err(e) => bind_in(data@) == Err::<FrontendView, CodecError>(e),
        },
{
    let (portal, p) = read_cstr(data, 0);
    let (stmt, q) = read_cstr(data, p);
    let (nf, r) = read_short(data, q);
    if nf < 0 {
        return Err(CodecError::InvalidCount { tag: 66 });
    }
    let (param_formats, s) = read_shorts(data, r, nf as usize);
    let (np, t) = read_short(data, s);
    if np < 0 {
        return Err(CodecError::InvalidCount { tag: 66 });
    }
    let (params, u) = read_params(data, t, np as usize);
    let (nr, v) = read_short(data, u);
    if nr < 0 {
        return Err(CodecError::InvalidCount { tag: 66 });
    }
    let (result_formats, _end) = read_shorts(data, v, nr as usize);
    Ok(FrontendMessage::Bind { portal, stmt, params, param_formats, result_formats })
}

fn read_parse(data: &[u8]) -> (r: Result<FrontendMessage, CodecError>)
    ensures
        match r {
            Ok(m) => message_in(80, data@) == Ok::<FrontendView, CodecError>(m@),
            Err(e) => message_in(80, data@) == Err::<FrontendView, CodecError>(e),
        },
{
    let (name, p) = read_cstr(data, 0);
    let (query, q) = read_cstr(data, p);
    let (n, r) = read_short(data, q);
    if n < 0 || (n as usize) * 4 > data.len() - r {
        return Err(CodecError::InvalidCount { tag: 80 });
    }
    let count: usize = n as usize;
    let mut param_types: Vec<i32> = Vec::new();
    let mut i: usize = 0;
    while i < count
        invariant
            i <= count <= 32767,
            count * 4 <= data@.len() - r,
            r <= data@.len(),
            data.len() == data@.len(),
            param_types@ == ints_at(data@, r as int, i as nat),
        decreases count - i,
    {
        param_types.push(get_u32(data, r + i * 4) as i32);
        i += 1;
        assert(param_types@ =~= ints_at(data@, r as int, i as nat));
    }
    Ok(FrontendMessage::Parse { name, query, param_types })
}

/// Reads the message of a letter and a body. An unknown letter reads as a
/// sync.
pub fn parse_body(tag: u8, data: &[u8]) -> (r: Result<FrontendMessage, CodecError>)
    ensures
        match r {
            Ok(m) => message_in(tag, data@) == Ok::<FrontendView, CodecError>(m@),
            Err(e) => message_in(tag, data@) == Err::<FrontendView, CodecError>(e),
        },
{
    if tag == 81 {
        let (q, _end) = read_cstr(data, 0);
        Ok(FrontendMessage::Query(q))
    } else if tag == 80 {
        read_parse(data)
    } else if tag == 66 {
        read_bind(data)
    } else if tag == 68 || tag == 67 {
        let kind: u8 = if data.len() > 0 {
            data[0]
        } else {
            83
        };
        let from: usize = if data.len() > 0 {
            1
        } else {
            0
        };
        let (name, _end) = read_cstr(data, from);
        Ok(
            if tag == 68 {
                FrontendMessage::Describe { kind, name }
            } else {
                FrontendMessage::Close { kind, name }
            },
        )
    } else if tag == 69 {
        let (portal, p) = read_cstr(data, 0);
        let max_rows: i32 = if data.len() - p >= 4 {
            get_u32(data, p) as i32
        } else {
            0
        };
        Ok(FrontendMessage::Execute { portal, max_rows })
    } else if tag == 72 {
        Ok(FrontendMessage::Flush)
    } else if tag == 88 {
        Ok(FrontendMessage::Terminate)
    } else if tag == 100 || tag == 112 {
        let body = copy_range(data, 0, data.len());
        assert(body@ =~= data@);
        Ok(
            if tag == 100 {
                FrontendMessage::CopyData(body)
            } else {
                FrontendMessage::PasswordData(body)
            },
        )
    } else if tag == 99 {
        Ok(FrontendMessage::CopyDone)
    } else if tag == 102 {
        let (m, _end) = read_cstr(data, 0);
        Ok(FrontendMessage::CopyFail(m))
    } else {
        Ok(FrontendMessage::Sync)
    }
}

/// What a buffer of received bytes gives.
#[derive(Debug, PartialEq)]
pub enum MessageStep {
    /// The buffer must hold this many bytes before it can be read.
    NeedMore(usize),
    /// A message, and how many bytes it took.
    Ready(FrontendMessage, usize),
}

/// What a buffer gives: the message at its front, the number of bytes that it
/// must hold for one, or the reason why there is none. No buffer is as long as
/// a negative length asks.
pub open spec fn next_message(buf: Seq<u8>) -> Result<
    Result<(FrontendView, int), int>,
    CodecError,
> {
    if buf.len() < 5 {
        Ok(Err(5))
    } else {
        let len = be::u32_at(buf, 1) as i32;
        if len < 0 {
            Ok(Err(usize::MAX as int))
        } else if len < 4 {
            Err(CodecError::InvalidLength { len, tag: buf[0] })
        } else if buf.len() < 1 + len {
            Ok(Err(1 + len))
        } else {
            match message_in(buf[0], buf.subrange(5, 1 + len)) {
                Ok(m) => Ok(Ok((m, 1 + len))),
                Err(e) => Err(e),
            }
        }
    }
}

/// Reads the next message from the front of a buffer.
pub fn read_message(buf: &[u8]) -> (r: Result<MessageStep, CodecError>)
    ensures
        match next_message(buf@) {
            Err(e) => r == Err::<MessageStep, CodecError>(e),
            Ok(Err(n)) => r matches Ok(MessageStep::NeedMore(x)) && x == n,
            Ok(Ok((m, used))) => r matches Ok(MessageStep::Ready(msg, k)) && msg@ == m && k == used,
        },
{
    if buf.len() < 5 {
        return Ok(MessageStep::NeedMore(5));
    }
    let tag: u8 = buf[0];
    let len: i32 = get_u32(buf, 1) as i32;
    if len < 0 {
        return Ok(MessageStep::NeedMore(usize::MAX));
    }
    if len < 4 {
        return Err(CodecError::InvalidLength { len, tag });
    }
    let total: usize = 1 + len as usize;
    if buf.len() < total {
        return Ok(MessageStep::NeedMore(total));
    }
    let body = copy_range(buf, 5, total);
    match parse_body(tag, body.as_slice()) {
        Ok(m) => Ok(MessageStep::Ready(m, total)),
        Err(e) => Err(e),
    }
}

/// What a buffer of bytes received at startup gives.
#[derive(Debug, PartialEq)]
pub enum StartupStep {
    /// The buffer must hold this many bytes before it can be read.
    NeedMore(usize),
    /// A request for encryption, to be declined, and how many bytes it took.
    SslRequest(usize),
    /// The parameters, and how many bytes they took.
    Ready(StartupParams, usize),
}

pub const SSL_REQUEST: i32 = 80877103;

pub const CANCEL_REQUEST: i32 = 80877102;

/// The pairs of texts from `pos` on, up to an empty first text or the end.
pub open spec fn pairs_at(data: Seq<u8>, pos: int) -> Seq<(Seq<char>, Seq<char>)>
    decreases data.len() - pos,
    when 0 <= pos <= data.len()
    via pairs_shrink
{
    if pos >= data.len() {
        Seq::empty()
    } else {
        let key = cstr_at(data, pos);
        let p = after_cstr(data, pos);
        if key.len() == 0 {
            Seq::empty()
        } else {
            seq![(key, cstr_at(data, p))] + pairs_at(data, after_cstr(data, p))
        }
    }
}

#[via_fn]
proof fn pairs_shrink(data: Seq<u8>, pos: int) {
    if pos < data.len() {
        lemma_zero_from(data, pos);
        lemma_zero_from(data, after_cstr(data, pos));
    }
}

pub open spec fn pair_texts(ps: Seq<(String, String)>) -> Seq<(Seq<char>, Seq<char>)> {
    ps.map_values(|p: (String, String)| (p.0@, p.1@))
}

fn read_pairs(data: &[u8], from: usize) -> (ps: Vec<(String, String)>)
    requires
        from <= data@.len(),
    ensures
        pair_texts(ps@) == pairs_at(data@, from as int),
{
    let mut ps: Vec<(String, String)> = Vec::new();
    let mut pos: usize = from;
    assert(pair_texts(ps@) + pairs_at(data@, from as int) =~= pairs_at(data@, from as int));
    while pos < data.len()
        invariant
            from <= pos <= data@.len(),
            pair_texts(ps@) + pairs_at(data@, pos as int) == pairs_at(data@, from as int),
        decreases data@.len() - pos,
    {
        let ghost before = ps@;
        let (key, p) = read_cstr(data, pos);
        proof {
            lemma_zero_from(data@, pos as int);
        }
        if key.as_str().unicode_len() == 0 {
            assert(pairs_at(data@, pos as int) =~= Seq::<(Seq<char>, Seq<char>)>::empty());
            assert(pair_texts(ps@) + pairs_at(data@, pos as int) =~= pair_texts(ps@));
            return ps;
        }
        let (value, q) = read_cstr(data, p);
        proof {
            let head = seq![(key@, value@)];
            assert(pair_texts(before) + (head + pairs_at(data@, q as int)) =~= (pair_texts(before)
                + head) + pairs_at(data@, q as int));
            assert(pair_texts(before.push((key, value))) =~= pair_texts(before) + head);
        }
        ps.push((key, value));
        pos = q;
    }
    assert(pair_texts(ps@) + pairs_at(data@, pos as int) =~= pair_texts(ps@));
    ps
}

/// Reads what a client sends first.
pub fn read_startup(buf: &[u8]) -> (r: Result<StartupStep, CodecError>)
    ensures
        ({
            let len = be::u32_at(buf@, 0) as i32;
            let version = be::u32_at(buf@, 4) as i32;
            if buf@.len() < 4 {
                r == Ok::<StartupStep, CodecError>(StartupStep::NeedMore(4))
            } else if len < 8 || len > 65535 {
                r == Err::<StartupStep, CodecError>(CodecError::InvalidStartupLength { len })
            } else if buf@.len() < len {
                r == Ok::<StartupStep, CodecError>(StartupStep::NeedMore(len as usize))
            } else if version == SSL_REQUEST {
                r == Ok::<StartupStep, CodecError>(StartupStep::SslRequest(len as usize))
            } else if version == CANCEL_REQUEST {
                r == Err::<StartupStep, CodecError>(CodecError::CancelNotSupported)
            } else {
                r matches Ok(StartupStep::Ready(s, used)) && used == len && s.protocol_version
                    == version && pair_texts(s.params@) == pairs_at(buf@.take(len as int), 8)
            }
        }),
{
    if buf.len() < 4 {
        return Ok(StartupStep::NeedMore(4));
    }
    let len: i32 = get_u32(buf, 0) as i32;
    if len < 8 || len > 65535 {
        return Err(CodecError::InvalidStartupLength { len });
    }
    let total: usize = len as usize;
    if buf.len() < total {
        return Ok(StartupStep::NeedMore(total));
    }
    let version: i32 = get_u32(buf, 4) as i32;
    if version == SSL_REQUEST {
        return Ok(StartupStep::SslRequest(total));
    }
    if version == CANCEL_REQUEST {
        return Err(CodecError::CancelNotSupported);
    }
    let data = copy_range(buf, 0, total);
    assert(data@ =~= buf@.take(len as int));
    let params = read_pairs(data.as_slice(), 8);
    Ok(StartupStep::Ready(StartupParams { protocol_version: version, params }, total))
}

/// A text and a zero byte are read back, whatever follows.
pub proof fn law_texts_are_read_back(head: Seq<u8>, s: Seq<char>, tail: Seq<u8>)
    requires
        forall|i: int|
            0 <= i < vstd::utf8::encode_utf8(s).len() ==> vstd::utf8::encode_utf8(s)[i] != 0,
    ensures
        ({
            let data = head + vstd::utf8::encode_utf8(s).push(0) + tail;
            &&& cstr_at(data, head.len() as int) == s
            &&& after_cstr(data, head.len() as int) == head.len() + vstd::utf8::encode_utf8(s).len()
                + 1
        }),
{
    let bytes = vstd::utf8::encode_utf8(s);
    let data = head + bytes.push(0) + tail;
    let end = head.len() + bytes.len();
    text::lemma_lossy_of_text(s);
    assert(data[end as int] == 0);
    lemma_zero_is(data, head.len() as int, end as int);
    assert(data.subrange(head.len() as int, end as int) =~= bytes);
}

proof fn lemma_zero_is(data: Seq<u8>, pos: int, end: int)
    requires
        0 <= pos <= end < data.len(),
        data[end] == 0,
        forall|i: int| pos <= i < end ==> data[i] != 0,
    ensures
        zero_from(data, pos) == end,
    decreases end - pos,
{
    if pos < end {
        lemma_zero_is(data, pos + 1, end);
    }
}

/// A text and the zero byte behind it.
pub open spec fn cstr_bytes(s: Seq<char>) -> Seq<u8> {
    vstd::utf8::encode_utf8(s).push(0)
}

/// Numbers of two bytes, one behind the other.
pub open spec fn shorts_bytes(xs: Seq<i16>) -> Seq<u8>
    decreases xs.len(),
{
    if xs.len() == 0 {
        Seq::empty()
    } else {
        shorts_bytes(xs.drop_last()) + be::be16(xs.last() as u16)
    }
}

/// Numbers of four bytes, one behind the other.
pub open spec fn ints_bytes(xs: Seq<i32>) -> Seq<u8>
    decreases xs.len(),
{
    if xs.len() == 0 {
        Seq::empty()
    } else {
        ints_bytes(xs.drop_last()) + be::be32(xs.last() as u32)
    }
}

/// A parameter: its length and its bytes, or four bytes of ones for null.
pub open spec fn param_bytes(p: Option<Seq<u8>>) -> Seq<u8> {
    match p {
        Some(v) => be::be32(v.len() as u32) + v,
        None => be::be32(u32::MAX),
    }
}

/// Parameters, one behind the other.
pub open spec fn params_bytes(ps: Seq<Option<Seq<u8>>>) -> Seq<u8>
    decreases ps.len(),
{
    if ps.len() == 0 {
        Seq::empty()
    } else {
        params_bytes(ps.drop_last()) + param_bytes(ps.last())
    }
}

pub proof fn lemma_cstr_stands(data: Seq<u8>, pos: int, s: Seq<char>)
    requires
        be::stands(data, pos, cstr_bytes(s)),
        !vstd::utf8::encode_utf8(s).contains(0),
    ensures
        cstr_at(data, pos) == s,
        after_cstr(data, pos) == pos + cstr_bytes(s).len(),
{
    let bytes = vstd::utf8::encode_utf8(s);
    let part = data.subrange(pos, pos + cstr_bytes(s).len());
    let end = pos + bytes.len();
    text::lemma_lossy_of_text(s);
    assert(data[end] == part[bytes.len() as int]);
    assert forall|i: int| pos <= i < end implies data[i] != 0 by {
        assert(data[i] == part[i - pos]);
        assert(bytes.contains(bytes[i - pos]));
    }
    lemma_zero_is(data, pos, end);
    assert(data.subrange(pos, end) =~= bytes);
}

pub proof fn lemma_short_bits(x: i16)
    ensures
        (x as u16) as i16 == x,
{
    assert((x as u16) as i16 == x) by (bit_vector);
}

pub proof fn lemma_int_bits(x: i32)
    ensures
        (x as u32) as i32 == x,
{
    assert((x as u32) as i32 == x) by (bit_vector);
}

pub proof fn lemma_short_stands(data: Seq<u8>, pos: int, x: i16)
    requires
        be::stands(data, pos, be::be16(x as u16)),
    ensures
        short_at(data, pos) == (x, pos + 2),
{
    be::lemma_be16(x as u16);
    lemma_short_bits(x);
}

proof fn lemma_shorts_stand(data: Seq<u8>, pos: int, xs: Seq<i16>)
    requires
        be::stands(data, pos, shorts_bytes(xs)),
    ensures
        shorts_at(data, pos, xs.len()) == (xs, pos + shorts_bytes(xs).len()),
    decreases xs.len(),
{
    if xs.len() > 0 {
        let head = shorts_bytes(xs.drop_last());
        be::lemma_stands_split(data, pos, head, be::be16(xs.last() as u16));
        lemma_shorts_stand(data, pos, xs.drop_last());
        lemma_short_stands(data, pos + head.len(), xs.last());
        be::lemma_be16(xs.last() as u16);
        assert(xs.drop_last().push(xs.last()) =~= xs);
    } else {
        assert(xs =~= Seq::<i16>::empty());
    }
}

pub proof fn lemma_ints_stand(data: Seq<u8>, pos: int, xs: Seq<i32>)
    requires
        be::stands(data, pos, ints_bytes(xs)),
    ensures
        ints_at(data, pos, xs.len()) == xs,
        ints_bytes(xs).len() == 4 * xs.len(),
    decreases xs.len(),
{
    if xs.len() > 0 {
        let head = ints_bytes(xs.drop_last());
        be::lemma_stands_split(data, pos, head, be::be32(xs.last() as u32));
        lemma_ints_stand(data, pos, xs.drop_last());
        be::lemma_be32(xs.last() as u32);
        lemma_int_bits(xs.last());
        let all = ints_at(data, pos, xs.len());
        assert forall|i: int| 0 <= i < xs.len() implies all[i] == xs[i] by {
            if i < xs.len() - 1 {
                assert(ints_at(data, pos, (xs.len() - 1) as nat)[i] == xs.drop_last()[i]);
            }
        }
    }
    assert(ints_at(data, pos, xs.len()) =~= xs);
}

pub proof fn lemma_params_stand(data: Seq<u8>, pos: int, ps: Seq<Option<Seq<u8>>>)
    requires
        be::stands(data, pos, params_bytes(ps)),
        forall|i: int|
            0 <= i < ps.len() ==> ((#[trigger] ps[i]) matches Some(v) ==> v.len() <= i32::MAX),
    ensures
        params_at(data, pos, ps.len()) == (ps, pos + params_bytes(ps).len()),
    decreases ps.len(),
{
    if ps.len() > 0 {
        let fewer = ps.drop_last();
        let head = params_bytes(fewer);
        let last = ps.last();
        assert(ps[ps.len() - 1] == last);
        assert forall|i: int| 0 <= i < fewer.len() implies ((#[trigger] fewer[i]) matches Some(v)
            ==> v.len() <= i32::MAX) by {
            assert(fewer[i] == ps[i]);
        }
        be::lemma_stands_split(data, pos, head, param_bytes(last));
        lemma_params_stand(data, pos, fewer);
        let at = pos + head.len();
        match last {
            Some(v) => {
                be::lemma_stands_prefixed(data, at, v);
                be::lemma_be32(v.len() as u32);
                assert(be::u32_at(data, at) as i32 == v.len());
            },
            None => {
                be::lemma_be32(u32::MAX);
                be::lemma_u32_at(data, at, u32::MAX);
                assert((u32::MAX as i32) == -1i32) by (bit_vector);
            },
        }
        assert(fewer.push(last) =~= ps);
    } else {
        assert(ps =~= Seq::<Option<Seq<u8>>>::empty());
    }
}

/// A message to prepare a statement gives its name, then the statement, then the
/// types of its parameters.
pub proof fn law_parse_is_read_back(name: Seq<char>, query: Seq<char>, types: Seq<i32>)
    requires
        !vstd::utf8::encode_utf8(name).contains(0),
        !vstd::utf8::encode_utf8(query).contains(0),
        types.len() <= 32767,
    ensures
        message_in(
            80,
            vstd::utf8::encode_utf8(name) + seq![0u8] + vstd::utf8::encode_utf8(query) + seq![0u8]
                + be::be16(types.len() as u16) + ints_bytes(types),
        ) == Ok::<FrontendView, CodecError>(
            FrontendView::Parse { name, query, param_types: types },
        ),
{
    let a = cstr_bytes(name);
    let b = cstr_bytes(query);
    let c = be::be16(types.len() as u16);
    let d = ints_bytes(types);
    let data = vstd::utf8::encode_utf8(name) + seq![0u8] + vstd::utf8::encode_utf8(query)
        + seq![0u8] + c + d;
    assert(data =~= a + b + c + d);
    let none = Seq::<u8>::empty();
    assert(data =~= none + a + (b + c + d));
    be::lemma_stands_between(none, a, b + c + d);
    assert(data =~= a + b + (c + d));
    be::lemma_stands_between(a, b, c + d);
    be::lemma_stands_between(a + b, c, d);
    assert(data =~= a + b + c + d + none);
    be::lemma_stands_between(a + b + c, d, none);
    lemma_cstr_stands(data, 0, name);
    lemma_cstr_stands(data, a.len() as int, query);
    be::lemma_be16(types.len() as u16);
    assert(types.len() as i16 as u16 == types.len() as u16);
    lemma_short_stands(data, (a + b).len() as int, types.len() as i16);
    lemma_ints_stand(data, (a + b + c).len() as int, types);
}

/// A message to bind a statement gives the portal, the statement, the formats of
/// the parameters, the parameters and the formats of the results, in that order.
pub proof fn law_bind_is_read_back(
    portal: Seq<char>,
    stmt: Seq<char>,
    formats: Seq<i16>,
    params: Seq<Option<Seq<u8>>>,
    results: Seq<i16>,
)
    requires
        !vstd::utf8::encode_utf8(portal).contains(0),
        !vstd::utf8::encode_utf8(stmt).contains(0),
        formats.len() <= 32767,
        params.len() <= 32767,
        results.len() <= 32767,
        forall|i: int|
            0 <= i < params.len() ==> ((#[trigger] params[i]) matches Some(v) ==> v.len()
                <= i32::MAX),
    ensures
        message_in(
            66,
            cstr_bytes(portal) + cstr_bytes(stmt) + be::be16(formats.len() as u16) + shorts_bytes(
                formats,
            ) + be::be16(params.len() as u16) + params_bytes(params) + be::be16(
                results.len() as u16,
            ) + shorts_bytes(results),
        ) == Ok::<FrontendView, CodecError>(
            FrontendView::Bind {
                portal,
                stmt,
                params,
                param_formats: formats,
                result_formats: results,
            },
        ),
{
    let p1 = cstr_bytes(portal);
    let p2 = p1 + cstr_bytes(stmt);
    let p3 = p2 + be::be16(formats.len() as u16);
    let p4 = p3 + shorts_bytes(formats);
    let p5 = p4 + be::be16(params.len() as u16);
    let p6 = p5 + params_bytes(params);
    let p7 = p6 + be::be16(results.len() as u16);
    let data = p7 + shorts_bytes(results);
    assert(be::stands(data, 0, p7)) by {
        assert(data.subrange(0, p7.len() as int) =~= p7);
    }
    assert(be::stands(data, p7.len() as int, shorts_bytes(results))) by {
        assert(data.subrange(p7.len() as int, data.len() as int) =~= shorts_bytes(results));
    }
    be::lemma_stands_split(data, 0, p6, be::be16(results.len() as u16));
    be::lemma_stands_split(data, 0, p5, params_bytes(params));
    be::lemma_stands_split(data, 0, p4, be::be16(params.len() as u16));
    be::lemma_stands_split(data, 0, p3, shorts_bytes(formats));
    be::lemma_stands_split(data, 0, p2, be::be16(formats.len() as u16));
    be::lemma_stands_split(data, 0, p1, cstr_bytes(stmt));
    lemma_cstr_stands(data, 0, portal);
    lemma_cstr_stands(data, p1.len() as int, stmt);
    be::lemma_be16(formats.len() as u16);
    be::lemma_be16(params.len() as u16);
    be::lemma_be16(results.len() as u16);
    assert(formats.len() as i16 as u16 == formats.len() as u16);
    assert(params.len() as i16 as u16 == params.len() as u16);
    assert(results.len() as i16 as u16 == results.len() as u16);
    lemma_short_stands(data, p2.len() as int, formats.len() as i16);
    lemma_shorts_stand(data, p3.len() as int, formats);
    lemma_short_stands(data, p4.len() as int, params.len() as i16);
    lemma_params_stand(data, p5.len() as int, params);
    lemma_short_stands(data, p6.len() as int, results.len() as i16);
    lemma_shorts_stand(data, p7.len() as int, results);
}

/// The other messages with a body are read back too: each letter gives its own
/// message, with the text, the kind or the number that stands in the body.
pub proof fn law_small_messages_are_read_back(name: Seq<char>, kind: u8, rows: i32, body: Seq<u8>)
    requires
        !vstd::utf8::encode_utf8(name).contains(0),
    ensures
        message_in(81, cstr_bytes(name)) == Ok::<FrontendView, CodecError>(
            FrontendView::Query(name),
        ),
        message_in(102, cstr_bytes(name)) == Ok::<FrontendView, CodecError>(
            FrontendView::CopyFail(name),
        ),
        message_in(68, seq![kind] + cstr_bytes(name)) == Ok::<FrontendView, CodecError>(
            FrontendView::Describe { kind, name },
        ),
        message_in(67, seq![kind] + cstr_bytes(name)) == Ok::<FrontendView, CodecError>(
            FrontendView::Close { kind, name },
        ),
        message_in(69, cstr_bytes(name) + be::be32(rows as u32)) == Ok::<FrontendView, CodecError>(
            FrontendView::Execute { portal: name, max_rows: rows },
        ),
        message_in(100, body) == Ok::<FrontendView, CodecError>(FrontendView::CopyData(body)),
        message_in(112, body) == Ok::<FrontendView, CodecError>(FrontendView::PasswordData(body)),
        message_in(99, body) == Ok::<FrontendView, CodecError>(FrontendView::CopyDone),
        message_in(72, body) == Ok::<FrontendView, CodecError>(FrontendView::Flush),
        message_in(83, body) == Ok::<FrontendView, CodecError>(FrontendView::Sync),
        message_in(88, body) == Ok::<FrontendView, CodecError>(FrontendView::Terminate),
{
    let none = Seq::<u8>::empty();
    let c = cstr_bytes(name);
    assert(none + c + none =~= c);
    be::lemma_stands_between(none, c, none);
    lemma_cstr_stands(c, 0, name);
    let d = seq![kind] + c;
    assert(d + none =~= d);
    be::lemma_stands_between(seq![kind], c, none);
    lemma_cstr_stands(d, 1, name);
    let n = be::be32(rows as u32);
    let e = c + n;
    be::lemma_be32(rows as u32);
    assert(none + c + n =~= e);
    be::lemma_stands_between(none, c, n);
    lemma_cstr_stands(e, 0, name);
    assert(e + none =~= e);
    be::lemma_stands_between(c, n, none);
    be::lemma_u32_at(e, c.len() as int, rows as u32);
    lemma_int_bits(rows);
}

/// A message is read from its letter, its length and its body, whatever follows,
/// and takes just these bytes; of a part of it more is asked for.
pub proof fn law_message_is_read_whole(tag: u8, body: Seq<u8>, rest: Seq<u8>, k: int)
    requires
        body.len() + 4 <= i32::MAX,
        0 <= k < 5 + body.len(),
    ensures
        next_message(seq![tag] + be::be32((4 + body.len()) as u32) + body + rest) == (
        match message_in(tag, body) {
            Ok(m) => Ok(Ok((m, (5 + body.len()) as int))),
            Err(e) => Err::<Result<(FrontendView, int), int>, CodecError>(e),
        }),
        next_message((seq![tag] + be::be32((4 + body.len()) as u32) + body).take(k)) == Ok::<
            Result<(FrontendView, int), int>,
            CodecError,
        >(
            Err(
                if k < 5 {
                    5int
                } else {
                    (5 + body.len()) as int
                },
            ),
        ),
{
    let n = (4 + body.len()) as u32;
    let head = seq![tag] + be::be32(n);
    be::lemma_be32(n);
    let whole = head + body;
    let buf = whole + rest;
    assert(buf.subrange(1, 5) =~= be::be32(n));
    be::lemma_u32_at(buf, 1, n);
    assert(buf.subrange(5, (5 + body.len()) as int) =~= body);
    assert(buf[0] == tag);
    assert(n as i32 == 4 + body.len());
    let part = whole.take(k);
    if k >= 5 {
        assert(part.subrange(1, 5) =~= be::be32(n));
        be::lemma_u32_at(part, 1, n);
        assert(part[0] == tag);
    }
}

/// Pairs of texts, each with a zero byte behind it, and a zero byte at the end.
pub open spec fn pairs_bytes(ps: Seq<(Seq<char>, Seq<char>)>) -> Seq<u8>
    decreases ps.len(),
{
    if ps.len() == 0 {
        seq![0u8]
    } else {
        cstr_bytes(ps[0].0) + cstr_bytes(ps[0].1) + pairs_bytes(ps.drop_first())
    }
}

proof fn lemma_pairs_stand(data: Seq<u8>, pos: int, ps: Seq<(Seq<char>, Seq<char>)>)
    requires
        be::stands(data, pos, pairs_bytes(ps)),
        forall|i: int|
            #![trigger ps[i]]
            0 <= i < ps.len() ==> ps[i].0.len() > 0 && !vstd::utf8::encode_utf8(ps[i].0).contains(0)
                && !vstd::utf8::encode_utf8(ps[i].1).contains(0),
    ensures
        pairs_at(data, pos) == ps,
    decreases ps.len(),
{
    let part = data.subrange(pos, pos + pairs_bytes(ps).len());
    if ps.len() == 0 {
        assert(data[pos] == part[0]);
        assert(zero_from(data, pos) == pos);
        assert(data.subrange(pos, pos) =~= Seq::<u8>::empty());
        text::lemma_lossy_of_text(Seq::<char>::empty());
        assert(vstd::utf8::encode_utf8(Seq::<char>::empty()) =~= Seq::<u8>::empty());
        assert(pairs_at(data, pos) =~= ps);
    } else {
        let (key, value) = ps[0];
        let rest = ps.drop_first();
        assert forall|i: int|
            #![trigger rest[i]]
            0 <= i < rest.len() implies rest[i].0.len() > 0 && !vstd::utf8::encode_utf8(
            rest[i].0,
        ).contains(0) && !vstd::utf8::encode_utf8(rest[i].1).contains(0) by {
            assert(rest[i] == ps[i + 1]);
        }
        let a = cstr_bytes(key);
        let b = cstr_bytes(value);
        be::lemma_stands_split(data, pos, a + b, pairs_bytes(rest));
        be::lemma_stands_split(data, pos, a, b);
        lemma_cstr_stands(data, pos, key);
        lemma_cstr_stands(data, pos + a.len(), value);
        lemma_pairs_stand(data, pos + a.len() + b.len(), rest);
        assert(seq![(key, value)] + rest =~= ps);
    }
}

/// What a client sends first is read back: the version of the protocol, and the
/// pairs of texts in order.
pub proof fn law_startup_is_read_back(
    buf: &[u8],
    version: i32,
    ps: Seq<(Seq<char>, Seq<char>)>,
    rest: Seq<u8>,
    r: Result<StartupStep, CodecError>,
)
    requires
        call_ensures(read_startup, (buf,), r),
        buf@ == be::be32((8 + pairs_bytes(ps).len()) as u32) + be::be32(version as u32)
            + pairs_bytes(ps) + rest,
        8 + pairs_bytes(ps).len() <= 65535,
        version != 80877103,
        version != 80877102,
        forall|i: int|
            #![trigger ps[i]]
            0 <= i < ps.len() ==> ps[i].0.len() > 0 && !vstd::utf8::encode_utf8(ps[i].0).contains(0)
                && !vstd::utf8::encode_utf8(ps[i].1).contains(0),
    ensures
        r matches Ok(StartupStep::Ready(s, used)) && used == 8 + pairs_bytes(ps).len()
            && s.protocol_version == version && pair_texts(s.params@) == ps,
{
    let n = (8 + pairs_bytes(ps).len()) as u32;
    be::lemma_be32(n);
    be::lemma_be32(version as u32);
    lemma_int_bits(version);
    assert(buf@.subrange(0, 4) =~= be::be32(n));
    be::lemma_u32_at(buf@, 0, n);
    assert(buf@.subrange(4, 8) =~= be::be32(version as u32));
    be::lemma_u32_at(buf@, 4, version as u32);
    let whole = buf@.take(n as int);
    assert(whole.subrange(8, n as int) =~= pairs_bytes(ps));
    lemma_pairs_stand(whole, 8, ps);
}

/// The first message of a client is waited for until it is whole; one that asks for
/// encryption or for the end of another query is told apart by its number.
pub proof fn law_first_message_is_waited_for(
    buf: &[u8],
    len: i32,
    version: i32,
    rest: Seq<u8>,
    r: Result<StartupStep, CodecError>,
)
    requires
        call_ensures(read_startup, (buf,), r),
        buf@ == be::be32(len as u32) + be::be32(version as u32) + rest,
    ensures
        len < 8 || len > 65535 ==> (r matches Err(CodecError::InvalidStartupLength { len: n }) && n
            == len),
        8 <= len <= 65535 && rest.len() + 8 < len ==> (r matches Ok(StartupStep::NeedMore(n)) && n
            == len),
        8 <= len <= 65535 && rest.len() + 8 >= len && version == 80877103 ==> (
        r matches Ok(StartupStep::SslRequest(n)) && n == len),
        8 <= len <= 65535 && rest.len() + 8 >= len && version == 80877102 ==> r matches Err(
            CodecError::CancelNotSupported,
        ),
{
    be::lemma_be32(len as u32);
    be::lemma_be32(version as u32);
    lemma_int_bits(len);
    lemma_int_bits(version);
    assert(buf@.subrange(0, 4) =~= be::be32(len as u32));
    be::lemma_u32_at(buf@, 0, len as u32);
    assert(buf@.subrange(4, 8) =~= be::be32(version as u32));
    be::lemma_u32_at(buf@, 4, version as u32);
}

} // verus!
