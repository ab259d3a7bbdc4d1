//! One connection: what it keeps of each open call, and what it does with each
//! frame. Header lists are packed and unpacked by the caller.

use vstd::prelude::*;
use vstd::string::*;

use super::http2;
use super::http2::{
    data_payload, headers_block_fragment, parse_settings, Frame, Http2Error, FLAG_ACK,
    FLAG_END_HEADERS, FLAG_END_STREAM, FRAME_CONTINUATION, FRAME_DATA, FRAME_HEADERS, FRAME_PING,
    FRAME_RST_STREAM, FRAME_SETTINGS, FRAME_WINDOW_UPDATE, SETTINGS_INITIAL_WINDOW_SIZE,
};
use super::proto;
use super::service;
use super::service::{
    encode_grpc_message, DispatchResult, DEFAULT_INITIAL_WINDOW, GRPC_OK, GRPC_UNAUTHENTICATED,
};
use crate::be;
use crate::be::{get_u32, put_bytes, put_u32};
use crate::database::rowmap::copy_bytes;
use crate::flux::FluxRecord;
use crate::graph_index;
use crate::text;
use crate::text::{chars_of, decimal_text, same_text};
use crate::wire::codec;

verus! {

pub type HeaderView = Seq<(Seq<char>, Seq<char>)>;

/// What the caller is to do.
#[derive(Debug, Clone, PartialEq)]
pub enum Action {
    /// Send a frame.
    Send { frame_type: u8, flags: u8, stream_id: u32, payload: Vec<u8> },
    /// Pack a header list and send it in a HEADERS frame.
    SendHeaders { stream_id: u32, flags: u8, headers: Vec<(String, String)> },
    /// Unpack a header block and hand the list back.
    Unpack { stream_id: u32, block: Vec<u8> },
    /// Authenticate and serve a call, and hand the outcome back.
    Serve { stream_id: u32, path: String, body: Vec<u8>, authorization: Option<String> },
}

pub enum ActionView {
    Send { frame_type: u8, flags: u8, stream_id: u32, payload: Seq<u8> },
    SendHeaders { stream_id: u32, flags: u8, headers: HeaderView },
    Unpack { stream_id: u32, block: Seq<u8> },
    Serve { stream_id: u32, path: Seq<char>, body: Seq<u8>, authorization: Option<Seq<char>> },
}

impl View for Action {
    type V = ActionView;

    open spec fn view(&self) -> ActionView {
        match self {
            Action::Send { frame_type, flags, stream_id, payload } => ActionView::Send {
                frame_type: *frame_type,
                flags: *flags,
                stream_id: *stream_id,
                payload: payload@,
            },
            Action::SendHeaders { stream_id, flags, headers } => ActionView::SendHeaders {
                stream_id: *stream_id,
                flags: *flags,
                headers: codec::pair_texts(headers@),
            },
            Action::Unpack { stream_id, block } => ActionView::Unpack {
                stream_id: *stream_id,
                block: block@,
            },
            Action::Serve { stream_id, path, body, authorization } => ActionView::Serve {
                stream_id: *stream_id,
                path: path@,
                body: body@,
                authorization: graph_index::opt_text(*authorization),
            },
        }
    }
}

pub open spec fn action_views(acts: Seq<Action>) -> Seq<ActionView> {
    acts.map_values(|a: Action| a@)
}

/// An open call.
pub struct Stream {
    pub id: u32,
    pub path: Option<String>,
    pub headers: Vec<(String, String)>,
    pub body: Vec<u8>,
    pub req_ended: bool,
    pub send_window: i64,
    pub outbound: Vec<Vec<u8>>,
    pub pending_trailers: Option<(u8, String)>,
    pub subscribed_topic: Option<String>,
}

pub struct StreamView {
    pub id: u32,
    pub path: Option<Seq<char>>,
    pub headers: HeaderView,
    pub body: Seq<u8>,
    pub req_ended: bool,
    pub send_window: i64,
    pub outbound: Seq<Seq<u8>>,
    pub pending_trailers: Option<(u8, Seq<char>)>,
    pub subscribed_topic: Option<Seq<char>>,
}

pub open spec fn trailer_view(t: Option<(u8, String)>) -> Option<(u8, Seq<char>)> {
    match t {
        Some((s, m)) => Some((s, m@)),
        None => None,
    }
}

impl View for Stream {
    type V = StreamView;

    open spec fn view(&self) -> StreamView {
        StreamView {
            id: self.id,
            path: graph_index::opt_text(self.path),
            headers: codec::pair_texts(self.headers@),
            body: self.body@,
            req_ended: self.req_ended,
            send_window: self.send_window,
            outbound: be::contents(self.outbound@),
            pending_trailers: trailer_view(self.pending_trailers),
            subscribed_topic: graph_index::opt_text(self.subscribed_topic),
        }
    }
}

pub open spec fn stream_views(ss: Seq<Stream>) -> Seq<StreamView> {
    ss.map_values(|s: Stream| s@)
}

/// A call as it opens.
pub open spec fn new_stream(id: u32) -> StreamView {
    StreamView {
        id,
        path: None,
        headers: Seq::empty(),
        body: Seq::empty(),
        req_ended: false,
        send_window: DEFAULT_INITIAL_WINDOW as i64,
        outbound: Seq::empty(),
        pending_trailers: None,
        subscribed_topic: None,
    }
}

impl Stream {
    /// A stream that was just opened.
    pub fn new(id: u32) -> (s: Stream)
        ensures
            s@ == new_stream(id),
    {
        let s = Stream {
            id,
            path: None,
            headers: Vec::new(),
            body: Vec::new(),
            req_ended: false,
            send_window: DEFAULT_INITIAL_WINDOW as i64,
            outbound: Vec::new(),
            pending_trailers: None,
            subscribed_topic: None,
        };
        assert(s@.headers =~= new_stream(id).headers);
        assert(s@.body =~= new_stream(id).body);
        assert(s@.outbound =~= new_stream(id).outbound);
        s
    }
}

/// The state of a connection.
pub struct ConnView {
    pub acked: bool,
    pub pending: Option<Seq<u8>>,
    pub window: i64,
    pub initial: u32,
    pub streams: Seq<StreamView>,
}

/// The position of a call.
pub open spec fn find_in(streams: Seq<StreamView>, id: u32) -> Option<int>
    decreases streams.len(),
{
    if streams.len() == 0 {
        None
    } else {
        match find_in(streams.drop_last(), id) {
            Some(i) => Some(i),
            None => if streams.last().id == id {
                Some(streams.len() - 1)
            } else {
                None
            },
        }
    }
}

pub proof fn lemma_find(streams: Seq<StreamView>, id: u32)
    ensures
        match find_in(streams, id) {
            Some(i) => 0 <= i < streams.len() && streams[i].id == id && forall|j: int|
                0 <= j < i ==> (#[trigger] streams[j]).id != id,
            None => forall|j: int| 0 <= j < streams.len() ==> (#[trigger] streams[j]).id != id,
        },
    decreases streams.len(),
{
    if streams.len() > 0 {
        lemma_find(streams.drop_last(), id);
        assert forall|j: int| 0 <= j < streams.len() - 1 implies streams[j]
            == streams.drop_last()[j] by {}
    }
}

/// A number within the range of windows: beyond it, the end of the range.
pub open spec fn clamp(n: int) -> i64 {
    if n > i64::MAX {
        i64::MAX
    } else if n < i64::MIN {
        i64::MIN
    } else {
        n as i64
    }
}

fn grow(window: i64, delta: i64) -> (r: i64)
    ensures
        r == clamp(window + delta),
{
    let sum: i128 = window as i128 + delta as i128;
    if sum > 9223372036854775807 {
        i64::MAX
    } else if sum < -9223372036854775808 {
        i64::MIN
    } else {
        sum as i64
    }
}

/// Whether a window lets a message of `len` bytes through.
fn fits(len: usize, window: i64) -> (r: bool)
    ensures
        r == (len <= window),
{
    window >= 0 && len as u128 <= window as u128
}

/// Sends the messages of a call, in order, as far as both windows reach.
pub open spec fn drained(window: i64, s: StreamView) -> (i64, StreamView, Seq<ActionView>)
    decreases s.outbound.len(),
{
    if s.outbound.len() > 0 && s.outbound[0].len() <= window && s.outbound[0].len()
        <= s.send_window {
        let m = s.outbound[0];
        let (w, t, acts) = drained(
            (window - m.len()) as i64,
            StreamView {
                outbound: s.outbound.drop_first(),
                send_window: (s.send_window - m.len()) as i64,
                ..s
            },
        );
        (
            w,
            t,
            seq![
                ActionView::Send { frame_type: FRAME_DATA, flags: 0, stream_id: s.id, payload: m },
            ] + acts,
        )
    } else {
        (window, s, Seq::empty())
    }
}

/// The header list at the end of a call.
pub open spec fn trailers(status: u8, msg: Seq<char>) -> HeaderView {
    seq![("grpc-status"@, text::decimal(status as nat)), ("grpc-message"@, msg)]
}

/// Sends what can be sent of a call, and its end once nothing is left.
pub open spec fn flushed(c: ConnView, id: u32) -> (ConnView, Seq<ActionView>) {
    match find_in(c.streams, id) {
        None => (c, Seq::empty()),
        Some(i) => {
            let (w, t, acts) = drained(c.window, c.streams[i]);
            match t.pending_trailers {
                Some((status, msg)) if t.outbound.len() == 0 => (
                    ConnView {
                        window: w,
                        streams: if t.subscribed_topic is Some {
                            c.streams.update(i, StreamView { pending_trailers: None, ..t })
                        } else {
                            c.streams.remove(i)
                        },
                        ..c
                    },
                    acts.push(
                        ActionView::SendHeaders {
                            stream_id: id,
                            flags: FLAG_END_HEADERS | FLAG_END_STREAM,
                            headers: trailers(status, msg),
                        },
                    ),
                ),
                _ => (ConnView { window: w, streams: c.streams.update(i, t), ..c }, acts),
            }
        },
    }
}

/// Sends what can be sent of several calls, one after the other.
pub open spec fn all_flushed(c: ConnView, ids: Seq<u32>) -> (ConnView, Seq<ActionView>)
    decreases ids.len(),
{
    if ids.len() == 0 {
        (c, Seq::empty())
    } else {
        let (b, acts) = all_flushed(c, ids.drop_last());
        let (d, more) = flushed(b, ids.last());
        (d, acts + more)
    }
}

/// The numbers of the open calls.
pub open spec fn ids_of(streams: Seq<StreamView>) -> Seq<u32> {
    streams.map_values(|s: StreamView| s.id)
}

/// Windows after settings: a new first size changes every open call's window
/// by the difference.
pub open spec fn resized(c: ConnView, entries: Seq<(u16, u32)>) -> ConnView
    decreases entries.len(),
{
    if entries.len() == 0 {
        c
    } else {
        let b = resized(c, entries.drop_last());
        let (id, val) = entries.last();
        if id == SETTINGS_INITIAL_WINDOW_SIZE {
            ConnView {
                initial: val,
                streams: b.streams.map_values(
                    |s: StreamView|
                        StreamView { send_window: clamp(s.send_window + (val - b.initial)), ..s },
                ),
                ..b
            }
        } else {
            b
        }
    }
}

/// The entries of a SETTINGS payload.
pub open spec fn settings_of(payload: Seq<u8>) -> Seq<(u16, u32)> {
    Seq::new(payload.len() / 6, |i: int| http2::setting_at(payload, i))
}

/// The credit that a WINDOW_UPDATE gives.
pub open spec fn credit_of(payload: Seq<u8>) -> u32 {
    if payload.len() >= 4 {
        be::u32_at(payload, payload.len() - 4)
    } else {
        0
    }
}

/// The value of the first header of a name, capitals or not.
pub open spec fn header_of(headers: HeaderView, name: Seq<char>) -> Option<Seq<char>>
    decreases headers.len(),
{
    if headers.len() == 0 {
        None
    } else {
        match header_of(headers.drop_last(), name) {
            Some(v) => Some(v),
            None => if headers.last().0.map_values(|c: char| text::ascii_lower(c)) == name {
                Some(headers.last().1)
            } else {
                None
            },
        }
    }
}

/// The value of the first header of exactly a name.
pub open spec fn exact_header(headers: HeaderView, name: Seq<char>) -> Option<Seq<char>>
    decreases headers.len(),
{
    if headers.len() == 0 {
        None
    } else {
        match exact_header(headers.drop_last(), name) {
            Some(v) => Some(v),
            None => if headers.last().0 == name {
                Some(headers.last().1)
            } else {
                None
            },
        }
    }
}

/// What a frame does to a connection.
pub open spec fn on_frame_of(c: ConnView, f: Frame) -> Result<
    (ConnView, Seq<ActionView>),
    Http2Error,
> {
    if f.frame_type == FRAME_SETTINGS {
        if http2::has_flag(f.flags, FLAG_ACK) {
            Ok((ConnView { acked: true, ..c }, Seq::empty()))
        } else if f.payload@.len() % 6 != 0 {
            Err(Http2Error::SettingsLength)
        } else {
            Ok(
                (
                    resized(c, settings_of(f.payload@)),
                    seq![
                        ActionView::Send {
                            frame_type: FRAME_SETTINGS,
                            flags: FLAG_ACK,
                            stream_id: 0,
                            payload: Seq::empty(),
                        },
                    ],
                ),
            )
        }
    } else if f.frame_type == FRAME_PING {
        Ok(
            (
                c,
                seq![
                    ActionView::Send {
                        frame_type: FRAME_PING,
                        flags: FLAG_ACK,
                        stream_id: 0,
                        payload: f.payload@,
                    },
                ],
            ),
        )
    } else if f.frame_type == FRAME_WINDOW_UPDATE {
        let credit = credit_of(f.payload@);
        if f.stream_id == 0 {
            Ok(
                all_flushed(ConnView { window: clamp(c.window + credit), ..c }, ids_of(c.streams)),
            )
        } else {
            Ok(flushed(credited(c, f.stream_id, credit), f.stream_id))
        }
    } else if f.frame_type == FRAME_HEADERS {
        match http2::headers_fragment(f.flags, f.payload@) {
            Err(e) => Err(e),
            Ok(frag) => Ok(gathered(c, f, frag)),
        }
    } else if f.frame_type == FRAME_CONTINUATION {
        match http2::headers_fragment(f.flags, f.payload@) {
            Err(e) => Err(e),
            Ok(frag) => Ok(gathered(c, f, frag)),
        }
    } else if f.frame_type == FRAME_DATA {
        match http2::data_fragment(f.flags, f.payload@) {
            Err(e) => Err(e),
            Ok(data) => Ok(received(c, f, data)),
        }
    } else if f.frame_type == FRAME_RST_STREAM {
        Ok((without_stream(c, f.stream_id), Seq::empty()))
    } else {
        Ok((c, Seq::empty()))
    }
}

/// More credit for a call.
pub open spec fn credited(c: ConnView, id: u32, credit: u32) -> ConnView {
    match find_in(c.streams, id) {
        Some(i) => ConnView {
            streams: c.streams.update(
                i,
                StreamView {
                    send_window: clamp(c.streams[i].send_window + credit),
                    ..c.streams[i]
                },
            ),
            ..c
        },
        None => c,
    }
}

/// A connection without a call.
pub open spec fn without_stream(c: ConnView, id: u32) -> ConnView {
    match find_in(c.streams, id) {
        Some(i) => ConnView { streams: c.streams.remove(i), ..c },
        None => c,
    }
}

/// More of a header block; it is unpacked once it is whole.
pub open spec fn gathered(c: ConnView, f: Frame, frag: Seq<u8>) -> (ConnView, Seq<ActionView>) {
    let block = (match c.pending {
        Some(p) => p,
        None => Seq::empty(),
    }) + frag;
    if http2::has_flag(f.flags, FLAG_END_HEADERS) {
        (
            ConnView { pending: None, ..c },
            seq![ActionView::Unpack { stream_id: f.stream_id, block }],
        )
    } else {
        (ConnView { pending: Some(block), ..c }, Seq::empty())
    }
}

/// More of the body of a request: the bytes are credited back, and the request
/// is served once it is whole.
pub open spec fn received(c: ConnView, f: Frame, data: Seq<u8>) -> (ConnView, Seq<ActionView>) {
    let credit = ActionView::Send {
        frame_type: FRAME_WINDOW_UPDATE,
        flags: 0,
        stream_id: f.stream_id,
        payload: be::be32(data.len() as u32),
    };
    match find_in(c.streams, f.stream_id) {
        None => (c, seq![credit]),
        Some(i) => {
            let s = c.streams[i];
            let body = s.body + data;
            if http2::has_flag(f.flags, FLAG_END_STREAM) {
                (
                    ConnView {
                        streams: c.streams.update(
                            i,
                            StreamView { body: Seq::empty(), req_ended: true, ..s },
                        ),
                        ..c
                    },
                    seq![
                        credit,
                        ActionView::Serve {
                            stream_id: f.stream_id,
                            path: match s.path {
                                Some(p) => p,
                                None => Seq::empty(),
                            },
                            body,
                            authorization: header_of(s.headers, "authorization"@),
                        },
                    ],
                )
            } else {
                (
                    ConnView { streams: c.streams.update(i, StreamView { body, ..s }), ..c },
                    seq![credit],
                )
            }
        },
    }
}

/// What an unpacked header list does: the call opens, or starts afresh.
pub open spec fn opened(c: ConnView, id: u32, headers: HeaderView) -> ConnView {
    let fill = |s: StreamView|
        StreamView {
            path: exact_header(headers, ":path"@),
            headers,
            send_window: c.initial as i64,
            ..s
        };
    match find_in(c.streams, id) {
        Some(i) => ConnView { streams: c.streams.update(i, fill(c.streams[i])), ..c },
        None => ConnView { streams: c.streams.push(fill(new_stream(id))), ..c },
    }
}

/// The header list at the start of an answer.
pub open spec fn answer_head() -> HeaderView {
    seq![(":status"@, "200"@), ("content-type"@, "application/grpc"@)]
}

/// The header list of an answer that is an error.
pub open spec fn error_head(status: u8, msg: Seq<char>) -> HeaderView {
    seq![
        (":status"@, "200"@),
        ("content-type"@, "application/grpc"@),
        ("grpc-status"@, text::decimal(status as nat)),
        ("grpc-message"@, msg),
    ]
}

/// What became of a request.
#[derive(Debug, Clone, PartialEq)]
pub enum Answer {
    /// The client could not be authenticated, for the reason given.
    Unauthorized(String),
    Served(DispatchResult),
}

/// An error ends a call.
pub open spec fn failed(c: ConnView, id: u32, status: u8, msg: Seq<char>) -> (
    ConnView,
    Seq<ActionView>,
) {
    (
        without_stream(c, id),
        seq![
            ActionView::SendHeaders {
                stream_id: id,
                flags: FLAG_END_HEADERS | FLAG_END_STREAM,
                headers: error_head(status, msg),
            },
        ],
    )
}

/// What the outcome of a request does to a connection.
pub open spec fn answered(c: ConnView, id: u32, a: Answer) -> (ConnView, Seq<ActionView>) {
    let head = ActionView::SendHeaders {
        stream_id: id,
        flags: FLAG_END_HEADERS,
        headers: answer_head(),
    };
    match a {
        Answer::Unauthorized(e) => failed(c, id, GRPC_UNAUTHENTICATED, "unauthorized: "@ + e@),
        Answer::Served(DispatchResult::Error(status, msg)) => failed(c, id, status, msg@),
        Answer::Served(DispatchResult::Unary(msg)) => {
            let b = match find_in(c.streams, id) {
                Some(i) => ConnView {
                    streams: c.streams.update(
                        i,
                        StreamView {
                            outbound: c.streams[i].outbound.push(service::enveloped(msg@)),
                            pending_trailers: Some((GRPC_OK, Seq::empty())),
                            ..c.streams[i]
                        },
                    ),
                    ..c
                },
                None => c,
            };
            let (d, acts) = flushed(b, id);
            (d, seq![head] + acts)
        },
        Answer::Served(DispatchResult::Subscribe(topic)) => (
            match find_in(c.streams, id) {
                Some(i) => ConnView {
                    streams: c.streams.update(
                        i,
                        StreamView { subscribed_topic: Some(topic@), ..c.streams[i] },
                    ),
                    ..c
                },
                None => c,
            },
            seq![head],
        ),
    }
}

/// A message for a call, sent as far as the windows reach.
pub open spec fn delivered(c: ConnView, id: u32, msg: Seq<u8>) -> (ConnView, Seq<ActionView>) {
    let b = match find_in(c.streams, id) {
        Some(i) => ConnView {
            streams: c.streams.update(
                i,
                StreamView { outbound: c.streams[i].outbound.push(msg), ..c.streams[i] },
            ),
            ..c
        },
        None => c,
    };
    flushed(b, id)
}

/// A message for several calls, one after the other.
pub open spec fn fanned(c: ConnView, ids: Seq<u32>, msg: Seq<u8>) -> (ConnView, Seq<ActionView>)
    decreases ids.len(),
{
    if ids.len() == 0 {
        (c, Seq::empty())
    } else {
        let (b, acts) = fanned(c, ids.drop_last(), msg);
        let (d, more) = delivered(b, ids.last(), msg);
        (d, acts + more)
    }
}

/// The calls that get the records of a topic.
pub open spec fn subscribers(streams: Seq<StreamView>, topic: Seq<char>) -> Seq<u32>
    decreases streams.len(),
{
    if streams.len() == 0 {
        Seq::empty()
    } else if streams.last().subscribed_topic == Some(topic) {
        subscribers(streams.drop_last(), topic).push(streams.last().id)
    } else {
        subscribers(streams.drop_last(), topic)
    }
}

/// A connection.
pub struct Conn {
    peer_settings_acked: bool,
    pending_headers: Option<Vec<u8>>,
    conn_send_window: i64,
    peer_initial_window: u32,
    streams: Vec<Stream>,
}

impl View for Conn {
    type V = ConnView;

    closed spec fn view(&self) -> ConnView {
        ConnView {
            acked: self.peer_settings_acked,
            pending: match self.pending_headers {
                Some(p) => Some(p@),
                None => None,
            },
            window: self.conn_send_window,
            initial: self.peer_initial_window,
            streams: stream_views(self.streams@),
        }
    }
}

/// A header list of texts.
fn header(name: &str, value: &str) -> (h: (String, String))
    ensures
        h.0@ == name@,
        h.1@ == value@,
{
    (name.to_owned(), value.to_owned())
}

fn trailer_list(status: u8, msg: &str) -> (h: Vec<(String, String)>)
    ensures
        codec::pair_texts(h@) == trailers(status, msg@),
{
    let mut h: Vec<(String, String)> = Vec::new();
    let number = decimal_text(status as u64);
    h.push(header("grpc-status", number.as_str()));
    h.push(header("grpc-message", msg));
    assert(codec::pair_texts(h@) =~= trailers(status, msg@));
    h
}

fn head_list() -> (h: Vec<(String, String)>)
    ensures
        codec::pair_texts(h@) == answer_head(),
{
    let mut h: Vec<(String, String)> = Vec::new();
    h.push(header(":status", "200"));
    h.push(header("content-type", "application/grpc"));
    assert(codec::pair_texts(h@) =~= answer_head());
    h
}

fn error_list(status: u8, msg: &str) -> (h: Vec<(String, String)>)
    ensures
        codec::pair_texts(h@) == error_head(status, msg@),
{
    let mut h: Vec<(String, String)> = Vec::new();
    let number = decimal_text(status as u64);
    h.push(header(":status", "200"));
    h.push(header("content-type", "application/grpc"));
    h.push(header("grpc-status", number.as_str()));
    h.push(header("grpc-message", msg));
    assert(codec::pair_texts(h@) =~= error_head(status, msg@));
    h
}

/// A small letter for a capital one.
fn lower(c: char) -> (r: char)
    ensures
        r == text::ascii_lower(c),
{
    if 'A' <= c && c <= 'Z' {
        let n: u8 = c as u32 as u8;
        (n + 32) as char
    } else {
        c
    }
}

/// Whether a name is `want`, capitals or not.
fn same_name(name: &str, want: &str) -> (r: bool)
    ensures
        r == (name@.map_values(|c: char| text::ascii_lower(c)) == want@),
{
    let ghost mapped = name@.map_values(|c: char| text::ascii_lower(c));
    let a = chars_of(name);
    let b = chars_of(want);
    if a.len() != b.len() {
        return false;
    }
    let mut i: usize = 0;
    while i < a.len()
        invariant
            a@ == name@,
            b@ == want@,
            a@.len() == b@.len(),
            i <= a@.len(),
            mapped == name@.map_values(|c: char| text::ascii_lower(c)),
            forall|k: int| 0 <= k < i ==> mapped[k] == b@[k],
        decreases a@.len() - i,
    {
        if lower(a[i]) != b[i] {
            assert(mapped[i as int] != want@[i as int]);
            return false;
        }
        i += 1;
    }
    assert(mapped =~= want@);
    true
}

fn find_header(headers: &Vec<(String, String)>, name: &str, exact: bool) -> (r: Option<String>)
    ensures
        graph_index::opt_text(r) == (if exact {
            exact_header(codec::pair_texts(headers@), name@)
        } else {
            header_of(codec::pair_texts(headers@), name@)
        }),
{
    let ghost all = codec::pair_texts(headers@);
    let mut found: Option<String> = None;
    let mut i: usize = 0;
    assert(all.take(0) =~= Seq::<(Seq<char>, Seq<char>)>::empty());
    while i < headers.len()
        invariant
            all == codec::pair_texts(headers@),
            i <= headers@.len(),
            graph_index::opt_text(found) == (if exact {
                exact_header(all.take(i as int), name@)
            } else {
                header_of(all.take(i as int), name@)
            }),
        decreases headers@.len() - i,
    {
        proof {
            assert(all.take(i + 1).drop_last() =~= all.take(i as int));
            assert(all.take(i + 1).last() == (headers@[i as int].0@, headers@[i as int].1@));
        }
        if found.is_none() {
            let hit = if exact {
                same_text(headers[i].0.as_str(), name)
            } else {
                same_name(headers[i].0.as_str(), name)
            };
            if hit {
                found = Some(headers[i].1.clone());
            }
        }
        i += 1;
    }
    assert(all.take(headers@.len() as int) =~= all);
    found
}

impl Conn {
    /// A connection as it opens.
    pub fn new() -> (c: Conn)
        ensures
            c@ == (ConnView {
                acked: false,
                pending: None,
                window: DEFAULT_INITIAL_WINDOW as i64,
                initial: DEFAULT_INITIAL_WINDOW,
                streams: Seq::empty(),
            }),
    {
        let c = Conn {
            peer_settings_acked: false,
            pending_headers: None,
            conn_send_window: DEFAULT_INITIAL_WINDOW as i64,
            peer_initial_window: DEFAULT_INITIAL_WINDOW,
            streams: Vec::new(),
        };
        assert(c@.streams =~= Seq::<StreamView>::empty());
        c
    }

    /// The frame with which the server opens: its first window.
    pub fn handshake(&self) -> (a: Action)
        ensures
            a@ == (ActionView::Send {
                frame_type: FRAME_SETTINGS,
                flags: 0,
                stream_id: 0,
                payload: http2::settings_bytes(
                    seq![(SETTINGS_INITIAL_WINDOW_SIZE, DEFAULT_INITIAL_WINDOW)],
                ),
            }),
    {
        let mut entries: Vec<(u16, u32)> = Vec::new();
        entries.push((SETTINGS_INITIAL_WINDOW_SIZE, DEFAULT_INITIAL_WINDOW));
        assert(entries@ =~= seq![(SETTINGS_INITIAL_WINDOW_SIZE, DEFAULT_INITIAL_WINDOW)]);
        let payload = http2::encode_settings(entries.as_slice());
        Action::Send { frame_type: FRAME_SETTINGS, flags: 0, stream_id: 0, payload }
    }

    fn find(&self, id: u32) -> (r: Option<usize>)
        ensures
            match r {
                Some(i) => find_in(self@.streams, id) == Some(i as int) && i < self@.streams.len(),
                None => find_in(self@.streams, id) is None,
            },
    {
        proof {
            lemma_find(self@.streams, id);
        }
        let mut i: usize = 0;
        while i < self.streams.len()
            invariant
                i <= self.streams@.len(),
                forall|j: int| 0 <= j < i ==> (#[trigger] self@.streams[j]).id != id,
            decreases self.streams@.len() - i,
        {
            assert(self@.streams[i as int].id == self.streams@[i as int].id);
            if self.streams[i].id == id {
                proof {
                    lemma_find(self@.streams, id);
                }
                return Some(i);
            }
            i += 1;
        }
        proof {
            lemma_find(self@.streams, id);
        }
        None
    }

    /// Sends what can be sent of a call, and its end once nothing is left.
    pub fn flush_stream(&mut self, stream_id: u32) -> (acts: Vec<Action>)
        ensures
            (final(self)@, action_views(acts@)) == flushed(old(self)@, stream_id),
    {
        let ghost c = self@;
        let mut acts: Vec<Action> = Vec::new();
        assert(action_views(acts@) =~= Seq::<ActionView>::empty());
        match self.find(stream_id) {
            None => acts,
            Some(i) => {
                proof {
                    lemma_find(c.streams, stream_id);
                }
                let mut s = self.streams.remove(i);
                let ghost rest = self.streams@;
                let ghost s0 = s@;
                let ghost w0 = self.conn_send_window;
                assert(s0 == c.streams[i as int]);
                assert(stream_views(rest) =~= c.streams.remove(i as int));
                assert(action_views(acts@) + drained(w0, s0).2 =~= drained(w0, s0).2);
                while s.outbound.len() > 0 && fits(s.outbound[0].len(), self.conn_send_window)
                    && fits(s.outbound[0].len(), s.send_window)
                    invariant
                        self.streams@ == rest,
                        self.peer_settings_acked == old(self).peer_settings_acked,
                        self.pending_headers == old(self).pending_headers,
                        self.peer_initial_window == old(self).peer_initial_window,
                        s0.id == stream_id,
                        s@.id == s0.id,
                        drained(w0, s0).0 == drained(self.conn_send_window, s@).0,
                        drained(w0, s0).1 == drained(self.conn_send_window, s@).1,
                        drained(w0, s0).2 == action_views(acts@) + drained(
                            self.conn_send_window,
                            s@,
                        ).2,
                    decreases s.outbound@.len(),
                {
                    let ghost before = s@;
                    let ghost w = self.conn_send_window;
                    let ghost sent = acts@;
                    let ghost ob = s.outbound@;
                    let m = s.outbound.remove(0);
                    let len: i64 = m.len() as i64;
                    self.conn_send_window = self.conn_send_window - len;
                    s.send_window = s.send_window - len;
                    proof {
                        assert(before.outbound[0] == ob[0]@);
                        assert(s@.outbound =~= before.outbound.drop_first());
                        assert(s@ == StreamView {
                            outbound: before.outbound.drop_first(),
                            send_window: (before.send_window - m@.len()) as i64,
                            ..before
                        });
                    }
                    acts.push(
                        Action::Send { frame_type: FRAME_DATA, flags: 0, stream_id, payload: m },
                    );
                    proof {
                        let one = acts@.last()@;
                        let tail = drained(self.conn_send_window, s@).2;
                        assert(action_views(acts@) =~= action_views(sent).push(one));
                        assert(drained(w, before).2 == seq![one] + tail);
                        assert(action_views(sent) + (seq![one] + tail) =~= action_views(acts@)
                            + tail);
                    }
                }
                proof {
                    let last = drained(self.conn_send_window, s@);
                    assert(s@.outbound.len() > 0 ==> s@.outbound[0] == s.outbound@[0]@);
                    assert(last == (self.conn_send_window, s@, Seq::<ActionView>::empty()));
                    assert(action_views(acts@) + Seq::<ActionView>::empty() =~= action_views(
                        acts@,
                    ));
                }
                let ghost drained_acts = acts@;
                if s.outbound.len() == 0 {
                    let mut taken: Option<(u8, String)> = None;
                    std::mem::swap(&mut taken, &mut s.pending_trailers);
                    match taken {
                        Some((status, msg)) => {
                            acts.push(
                                Action::SendHeaders {
                                    stream_id,
                                    flags: FLAG_END_HEADERS | FLAG_END_STREAM,
                                    headers: trailer_list(status, msg.as_str()),
                                },
                            );
                            assert(action_views(acts@) =~= action_views(drained_acts).push(
                                acts@.last()@,
                            ));
                            if s.subscribed_topic.is_some() {
                                self.streams.insert(i, s);
                                assert(self@.streams =~= c.streams.update(i as int, s@));
                            } else {
                                assert(self@.streams =~= c.streams.remove(i as int));
                            }
                            return acts;
                        },
                        None => {},
                    }
                }
                self.streams.insert(i, s);
                assert(self@.streams =~= c.streams.update(i as int, s@));
                acts
            },
        }
    }

    /// Takes settings in, and acknowledges them.
    fn on_settings(&mut self, frame: &Frame) -> (r: Result<Vec<Action>, Http2Error>)
        requires
            frame.frame_type == FRAME_SETTINGS,
        ensures
            outcome(old(self)@, *frame, r, final(self)@),
    {
        let ghost c = self@;
        let mut acts: Vec<Action> = Vec::new();
        assert(action_views(acts@) =~= Seq::<ActionView>::empty());
        if frame.flag(FLAG_ACK) {
            self.peer_settings_acked = true;
            return Ok(acts);
        }
        let entries = match parse_settings(frame.payload.as_slice()) {
            Ok(e) => e,
            Err(e) => {
                return Err(e);
            },
        };
        assert(entries@ =~= settings_of(frame.payload@));
        let mut k: usize = 0;
        assert(entries@.take(0) =~= Seq::<(u16, u32)>::empty());
        while k < entries.len()
            invariant
                k <= entries@.len(),
                self@ == resized(c, entries@.take(k as int)),
            decreases entries@.len() - k,
        {
            assert(entries@.take(k + 1).drop_last() =~= entries@.take(k as int));
            let ghost b = self@;
            let (id, val) = entries[k];
            if id == SETTINGS_INITIAL_WINDOW_SIZE {
                let delta: i64 = val as i64 - self.peer_initial_window as i64;
                let ghost initial = self.peer_initial_window;
                let mut i: usize = 0;
                while i < self.streams.len()
                    invariant
                        i <= self.streams@.len(),
                        self.streams@.len() == b.streams.len(),
                        self.peer_initial_window == initial,
                        b.initial == initial,
                        delta == val - initial,
                        self@.acked == b.acked,
                        self@.pending == b.pending,
                        self@.window == b.window,
                        forall|j: int|
                            0 <= j < i ==> (#[trigger] self.streams@[j])@ == (StreamView {
                                send_window: clamp(b.streams[j].send_window + delta),
                                ..b.streams[j]
                            }),
                        forall|j: int|
                            i <= j < b.streams.len() ==> (#[trigger] self.streams@[j])@
                                == b.streams[j],
                    decreases self.streams@.len() - i,
                {
                    let ghost now = self.streams@;
                    assert(now[i as int]@ == b.streams[i as int]);
                    let w: i64 = grow(self.streams[i].send_window, delta);
                    self.streams[i].send_window = w;
                    proof {
                        assert(self.streams@[i as int]@ == StreamView {
                            send_window: clamp(b.streams[i as int].send_window + delta),
                            ..b.streams[i as int]
                        });
                        assert forall|j: int| 0 <= j < now.len() && j != i implies (
                        #[trigger] self.streams@[j]) == now[j] by {}
                    }
                    i += 1;
                }
                self.peer_initial_window = val;
                assert(self@.streams =~= b.streams.map_values(
                    |s: StreamView|
                        StreamView { send_window: clamp(s.send_window + (val - b.initial)), ..s },
                ));
            }
            k += 1;
        }
        assert(entries@.take(entries@.len() as int) =~= entries@);
        let none: Vec<u8> = Vec::new();
        assert(none@ =~= Seq::<u8>::empty());
        acts.push(
            Action::Send { frame_type: FRAME_SETTINGS, flags: FLAG_ACK, stream_id: 0, payload: none },
        );
        assert(action_views(acts@) =~= seq![acts@.last()@]);
        Ok(acts)
    }

    /// Answers a ping with its own payload.
    fn on_ping(&mut self, frame: &Frame) -> (r: Result<Vec<Action>, Http2Error>)
        requires
            frame.frame_type == FRAME_PING,
        ensures
            outcome(old(self)@, *frame, r, final(self)@),
    {
        let mut acts: Vec<Action> = Vec::new();
        acts.push(
            Action::Send {
                frame_type: FRAME_PING,
                flags: FLAG_ACK,
                stream_id: 0,
                payload: copy_bytes(frame.payload.as_slice()),
            },
        );
        assert(action_views(acts@) =~= seq![acts@.last()@]);
        Ok(acts)
    }

    /// Sends what can be sent of every call.
    fn flush_all(&mut self) -> (acts: Vec<Action>)
        ensures
            (final(self)@, action_views(acts@)) == all_flushed(
                old(self)@,
                ids_of(old(self)@.streams),
            ),
    {
        let ghost c = self@;
        let mut ids: Vec<u32> = Vec::new();
        let mut i: usize = 0;
        while i < self.streams.len()
            invariant
                *self == *old(self),
                c == self@,
                i <= self.streams@.len(),
                ids@ == ids_of(c.streams).take(i as int),
            decreases self.streams@.len() - i,
        {
            assert(c.streams[i as int] == self.streams@[i as int]@);
            ids.push(self.streams[i].id);
            i += 1;
            assert(ids@ =~= ids_of(c.streams).take(i as int));
        }
        assert(ids@ =~= ids_of(c.streams));
        let mut acts: Vec<Action> = Vec::new();
        let mut k: usize = 0;
        assert(ids@.take(0) =~= Seq::<u32>::empty());
        assert(action_views(acts@) =~= Seq::<ActionView>::empty());
        while k < ids.len()
            invariant
                k <= ids@.len(),
                (self@, action_views(acts@)) == all_flushed(c, ids@.take(k as int)),
            decreases ids@.len() - k,
        {
            assert(ids@.take(k + 1).drop_last() =~= ids@.take(k as int));
            let ghost before = acts@;
            let mut more = self.flush_stream(ids[k]);
            let ghost m0 = more@;
            acts.append(&mut more);
            assert(action_views(acts@) =~= action_views(before) + action_views(m0));
            k += 1;
        }
        assert(ids@.take(ids@.len() as int) =~= ids@);
        acts
    }

    /// Takes credit in, and sends what it lets through: of one call, or of every
    /// call where the credit is for the whole connection.
    fn on_window_update(&mut self, frame: &Frame) -> (r: Result<Vec<Action>, Http2Error>)
        requires
            frame.frame_type == FRAME_WINDOW_UPDATE,
        ensures
            outcome(old(self)@, *frame, r, final(self)@),
    {
        let ghost c = self@;
        let n: usize = frame.payload.len();
        let credit: u32 = if n >= 4 {
            get_u32(frame.payload.as_slice(), n - 4)
        } else {
            0
        };
        if frame.stream_id == 0 {
            self.conn_send_window = grow(self.conn_send_window, credit as i64);
            return Ok(self.flush_all());
        }
        match self.find(frame.stream_id) {
            Some(i) => {
                let w: i64 = grow(self.streams[i].send_window, credit as i64);
                self.streams[i].send_window = w;
                assert(self@.streams =~= credited(c, frame.stream_id, credit).streams);
            },
            None => {},
        }
        assert(self@ == credited(c, frame.stream_id, credit));
        Ok(self.flush_stream(frame.stream_id))
    }

    /// Takes more of a header block in.
    fn on_headers(&mut self, frame: &Frame) -> (r: Result<Vec<Action>, Http2Error>)
        requires
            frame.frame_type == FRAME_HEADERS || frame.frame_type == FRAME_CONTINUATION,
        ensures
            outcome(old(self)@, *frame, r, final(self)@),
    {
        let ghost c = self@;
        let frag = match headers_block_fragment(frame) {
            Ok(f) => f,
            Err(e) => {
                return Err(e);
            },
        };
        let mut taken: Option<Vec<u8>> = None;
        std::mem::swap(&mut taken, &mut self.pending_headers);
        let mut block: Vec<u8> = match taken {
            Some(p) => p,
            None => Vec::new(),
        };
        let ghost before = block@;
        put_bytes(&mut block, frag.as_slice());
        proof {
            let p = match c.pending {
                Some(p) => p,
                None => Seq::empty(),
            };
            assert(before =~= p);
        }
        let mut acts: Vec<Action> = Vec::new();
        assert(action_views(acts@) =~= Seq::<ActionView>::empty());
        if frame.flag(FLAG_END_HEADERS) {
            acts.push(Action::Unpack { stream_id: frame.stream_id, block });
            assert(action_views(acts@) =~= seq![acts@.last()@]);
        } else {
            self.pending_headers = Some(block);
        }
        Ok(acts)
    }

    /// Takes more of the body of a request in.
    fn on_data(&mut self, frame: &Frame) -> (r: Result<Vec<Action>, Http2Error>)
        requires
            frame.frame_type == FRAME_DATA,
        ensures
            outcome(old(self)@, *frame, r, final(self)@),
    {
        let ghost c = self@;
        let data = match data_payload(frame) {
            Ok(d) => d,
            Err(e) => {
                return Err(e);
            },
        };
        let mut acts: Vec<Action> = Vec::new();
        let mut payload: Vec<u8> = Vec::new();
        put_u32(&mut payload, data.len() as u32);
        assert(payload@ =~= be::be32(data@.len() as u32));
        acts.push(
            Action::Send {
                frame_type: FRAME_WINDOW_UPDATE,
                flags: 0,
                stream_id: frame.stream_id,
                payload,
            },
        );
        let ghost credit = acts@.last()@;
        assert(action_views(acts@) =~= seq![credit]);
        match self.find(frame.stream_id) {
            None => Ok(acts),
            Some(i) => {
                let mut s = self.streams.remove(i);
                let ghost s0 = s@;
                assert(s0 == c.streams[i as int]);
                put_bytes(&mut s.body, data.as_slice());
                assert(s@ == StreamView { body: s0.body + data@, ..s0 });
                if frame.flag(FLAG_END_STREAM) {
                    s.req_ended = true;
                    let mut body: Vec<u8> = Vec::new();
                    std::mem::swap(&mut body, &mut s.body);
                    let path: String = match &s.path {
                        Some(p) => p.clone(),
                        None => String::new(),
                    };
                    let authorization = find_header(&s.headers, "authorization", false);
                    proof {
                        assert(s@.body =~= Seq::<u8>::empty());
                        assert(s@ == StreamView { body: Seq::empty(), req_ended: true, ..s0 });
                        assert(s0.path is None ==> path@ =~= Seq::<char>::empty());
                    }
                    acts.push(
                        Action::Serve { stream_id: frame.stream_id, path, body, authorization },
                    );
                    assert(action_views(acts@) =~= seq![credit, acts@.last()@]);
                    assert(acts@.last()@ == ActionView::Serve {
                        stream_id: frame.stream_id,
                        path: match s0.path {
                            Some(p) => p,
                            None => Seq::empty(),
                        },
                        body: s0.body + data@,
                        authorization: header_of(s0.headers, "authorization"@),
                    });
                }
                self.streams.insert(i, s);
                assert(self@.streams =~= c.streams.update(i as int, s@));
                assert(self@ == received(c, *frame, data@).0);
                assert(action_views(acts@) =~= received(c, *frame, data@).1);
                Ok(acts)
            },
        }
    }

    /// Drops a call.
    fn drop_stream(&mut self, id: u32)
        ensures
            final(self)@ == without_stream(old(self)@, id),
    {
        let ghost c = self@;
        match self.find(id) {
            Some(i) => {
                let _gone = self.streams.remove(i);
                assert(self@.streams =~= c.streams.remove(i as int));
            },
            None => {},
        }
    }

    /// Takes a frame in.
    pub fn on_frame(&mut self, frame: &Frame) -> (r: Result<Vec<Action>, Http2Error>)
        ensures
            outcome(old(self)@, *frame, r, final(self)@),
    {
        let t: u8 = frame.frame_type;
        if t == FRAME_SETTINGS {
            return self.on_settings(frame);
        }
        if t == FRAME_PING {
            return self.on_ping(frame);
        }
        if t == FRAME_WINDOW_UPDATE {
            return self.on_window_update(frame);
        }
        if t == FRAME_HEADERS || t == FRAME_CONTINUATION {
            return self.on_headers(frame);
        }
        if t == FRAME_DATA {
            return self.on_data(frame);
        }
        let acts: Vec<Action> = Vec::new();
        assert(action_views(acts@) =~= Seq::<ActionView>::empty());
        if t == FRAME_RST_STREAM {
            self.drop_stream(frame.stream_id);
        }
        Ok(acts)
    }

    /// Takes an unpacked header list in.
    pub fn finish_headers(&mut self, stream_id: u32, headers: Vec<(String, String)>)
        ensures
            final(self)@ == opened(old(self)@, stream_id, codec::pair_texts(headers@)),
    {
        let ghost c = self@;
        let path = find_header(&headers, ":path", true);
        match self.find(stream_id) {
            Some(i) => {
                let mut s = self.streams.remove(i);
                s.path = path;
                s.headers = headers;
                s.send_window = self.peer_initial_window as i64;
                self.streams.insert(i, s);
                assert(self@.streams =~= c.streams.update(i as int, s@));
            },
            None => {
                let mut s = Stream::new(stream_id);
                s.path = path;
                s.headers = headers;
                s.send_window = self.peer_initial_window as i64;
                self.streams.push(s);
                assert(self@.streams =~= c.streams.push(s@));
            },
        }
    }

    /// Answers a request.
    pub fn answer(&mut self, stream_id: u32, a: Answer) -> (acts: Vec<Action>)
        ensures
            (final(self)@, action_views(acts@)) == answered(old(self)@, stream_id, a),
    {
        let ghost c = self@;
        let mut acts: Vec<Action> = Vec::new();
        match a {
            Answer::Unauthorized(e) => {
                let mut m = "unauthorized: ".to_owned();
                m.append(e.as_str());
                acts.push(
                    Action::SendHeaders {
                        stream_id,
                        flags: FLAG_END_HEADERS | FLAG_END_STREAM,
                        headers: error_list(GRPC_UNAUTHENTICATED, m.as_str()),
                    },
                );
                self.drop_stream(stream_id);
                assert(action_views(acts@) =~= seq![acts@.last()@]);
                acts
            },
            Answer::Served(DispatchResult::Error(status, msg)) => {
                acts.push(
                    Action::SendHeaders {
                        stream_id,
                        flags: FLAG_END_HEADERS | FLAG_END_STREAM,
                        headers: error_list(status, msg.as_str()),
                    },
                );
                self.drop_stream(stream_id);
                assert(action_views(acts@) =~= seq![acts@.last()@]);
                acts
            },
            Answer::Served(DispatchResult::Unary(msg)) => {
                acts.push(
                    Action::SendHeaders { stream_id, flags: FLAG_END_HEADERS, headers: head_list() },
                );
                let ghost head = acts@.last()@;
                assert(action_views(acts@) =~= seq![head]);
                match self.find(stream_id) {
                    Some(i) => {
                        let mut s = self.streams.remove(i);
                        let ghost s0 = s@;
                        s.outbound.push(encode_grpc_message(msg.as_slice()));
                        s.pending_trailers = Some((GRPC_OK, String::new()));
                        proof {
                            assert(s@.outbound =~= s0.outbound.push(service::enveloped(msg@)));
                            assert(s.pending_trailers->Some_0.1@ =~= Seq::<char>::empty());
                        }
                        self.streams.insert(i, s);
                        assert(self@.streams =~= c.streams.update(i as int, s@));
                    },
                    None => {},
                }
                let mut more = self.flush_stream(stream_id);
                let ghost m0 = more@;
                acts.append(&mut more);
                assert(action_views(acts@) =~= seq![head] + action_views(m0));
                acts
            },
            Answer::Served(DispatchResult::Subscribe(topic)) => {
                acts.push(
                    Action::SendHeaders { stream_id, flags: FLAG_END_HEADERS, headers: head_list() },
                );
                assert(action_views(acts@) =~= seq![acts@.last()@]);
                match self.find(stream_id) {
                    Some(i) => {
                        let mut s = self.streams.remove(i);
                        s.subscribed_topic = Some(topic);
                        self.streams.insert(i, s);
                        assert(self@.streams =~= c.streams.update(i as int, s@));
                    },
                    None => {},
                }
                acts
            },
        }
    }

    /// Sends a message to a call, as far as the windows reach.
    fn deliver(&mut self, id: u32, msg: &[u8]) -> (acts: Vec<Action>)
        ensures
            (final(self)@, action_views(acts@)) == delivered(old(self)@, id, msg@),
    {
        let ghost c = self@;
        match self.find(id) {
            Some(i) => {
                let mut s = self.streams.remove(i);
                let ghost s0 = s@;
                s.outbound.push(copy_bytes(msg));
                assert(s@.outbound =~= s0.outbound.push(msg@));
                self.streams.insert(i, s);
                assert(self@.streams =~= c.streams.update(i as int, s@));
            },
            None => {},
        }
        self.flush_stream(id)
    }

    /// Sends a record that was just published to every call that subscribed to
    /// its topic.
    pub fn on_flux_event(&mut self, topic: &str, record: &FluxRecord) -> (acts: Vec<Action>)
        ensures
            (final(self)@, action_views(acts@)) == fanned(
                old(self)@,
                subscribers(old(self)@.streams, topic@),
                service::enveloped(proto::record_bytes(service::record_view(topic@, record@))),
            ),
    {
        let ghost c = self@;
        let rec = service::record_of(topic, record);
        let msg = encode_grpc_message(rec.encode().as_slice());
        let mut ids: Vec<u32> = Vec::new();
        let mut i: usize = 0;
        assert(c.streams.take(0) =~= Seq::<StreamView>::empty());
        while i < self.streams.len()
            invariant
                *self == *old(self),
                c == self@,
                i <= self.streams@.len(),
                ids@ == subscribers(c.streams.take(i as int), topic@),
            decreases self.streams@.len() - i,
        {
            proof {
                assert(c.streams.take(i + 1).drop_last() =~= c.streams.take(i as int));
                assert(c.streams.take(i + 1).last() == self.streams@[i as int]@);
            }
            let hit = match &self.streams[i].subscribed_topic {
                Some(t) => same_text(t.as_str(), topic),
                None => false,
            };
            if hit {
                ids.push(self.streams[i].id);
            }
            i += 1;
        }
        assert(c.streams.take(c.streams.len() as int) =~= c.streams);
        let mut acts: Vec<Action> = Vec::new();
        let mut k: usize = 0;
        assert(ids@.take(0) =~= Seq::<u32>::empty());
        assert(action_views(acts@) =~= Seq::<ActionView>::empty());
        while k < ids.len()
            invariant
                k <= ids@.len(),
                (self@, action_views(acts@)) == fanned(c, ids@.take(k as int), msg@),
            decreases ids@.len() - k,
        {
            assert(ids@.take(k + 1).drop_last() =~= ids@.take(k as int));
            let ghost before = acts@;
            let mut more = self.deliver(ids[k], msg.as_slice());
            let ghost m0 = more@;
            acts.append(&mut more);
            assert(action_views(acts@) =~= action_views(before) + action_views(m0));
            k += 1;
        }
        assert(ids@.take(ids@.len() as int) =~= ids@);
        acts
    }
}

/// Whether a frame came to what it should.
pub open spec fn outcome(
    before: ConnView,
    f: Frame,
    r: Result<Vec<Action>, Http2Error>,
    after: ConnView,
) -> bool {
    match on_frame_of(before, f) {
        Ok((c, acts)) => after == c && (r matches Ok(a) && action_views(a@) == acts),
        Err(e) => after == before && r == Err::<Vec<Action>, Http2Error>(e),
    }
}

/// The bytes of message data among some actions.
pub open spec fn data_sent(acts: Seq<ActionView>) -> nat
    decreases acts.len(),
{
    if acts.len() == 0 {
        0
    } else {
        data_sent(acts.drop_first()) + (match acts[0] {
            ActionView::Send { frame_type, payload, .. } if frame_type == FRAME_DATA => payload.len(),
            _ => 0,
        })
    }
}

/// Flow control is kept: what is sent of a call is taken from both windows,
/// and neither of them ever falls below zero by it.
pub proof fn law_flow_control_is_kept(window: i64, s: StreamView)
    ensures
        ({
            let (w, t, acts) = drained(window, s);
            &&& w == window - data_sent(acts)
            &&& t.send_window == s.send_window - data_sent(acts)
            &&& data_sent(acts) > 0 ==> w >= 0 && t.send_window >= 0
        }),
    decreases s.outbound.len(),
{
    let (w, t, acts) = drained(window, s);
    if s.outbound.len() > 0 && s.outbound[0].len() <= window && s.outbound[0].len()
        <= s.send_window {
        let m = s.outbound[0];
        let s1 = StreamView {
            outbound: s.outbound.drop_first(),
            send_window: (s.send_window - m.len()) as i64,
            ..s
        };
        law_flow_control_is_kept((window - m.len()) as i64, s1);
        let tail = drained((window - m.len()) as i64, s1).2;
        assert(acts.drop_first() =~= tail);
    }
}

/// Whether a call has nothing to send that both windows let through.
pub open spec fn settled(window: i64, s: StreamView) -> bool {
    s.outbound.len() > 0 ==> s.outbound[0].len() > window || s.outbound[0].len() > s.send_window
}

/// What is left of a call is held back by a window, never forgotten.
pub proof fn law_only_what_is_blocked_is_left(window: i64, s: StreamView)
    ensures
        settled(drained(window, s).0, drained(window, s).1),
        drained(window, s).0 <= window,
        drained(window, s).1.id == s.id,
    decreases s.outbound.len(),
{
    if s.outbound.len() > 0 && s.outbound[0].len() <= window && s.outbound[0].len()
        <= s.send_window {
        let m = s.outbound[0];
        law_only_what_is_blocked_is_left(
            (window - m.len()) as i64,
            StreamView {
                outbound: s.outbound.drop_first(),
                send_window: (s.send_window - m.len()) as i64,
                ..s
            },
        );
    }
}

/// Whether no two calls have one number.
pub open spec fn ids_differ(streams: Seq<StreamView>) -> bool {
    forall|i: int, j: int|
        0 <= i < j < streams.len() ==> (#[trigger] streams[i]).id != (#[trigger] streams[j]).id
}

spec fn has_stream(c: ConnView, s: StreamView) -> bool {
    exists|k: int| 0 <= k < c.streams.len() && c.streams[k] == s
}

proof fn lemma_flushed(c: ConnView, id: u32)
    requires
        ids_differ(c.streams),
    ensures
        ({
            let d = flushed(c, id).0;
            &&& ids_differ(d.streams)
            &&& d.window <= c.window
            &&& forall|j: int|
                0 <= j < d.streams.len() ==> if (#[trigger] d.streams[j]).id == id {
                    settled(d.window, d.streams[j])
                } else {
                    has_stream(c, d.streams[j])
                }
        }),
{
    lemma_find(c.streams, id);
    let d = flushed(c, id).0;
    match find_in(c.streams, id) {
        None => {
            assert forall|j: int| 0 <= j < d.streams.len() implies (#[trigger] d.streams[j]).id
                != id && has_stream(c, d.streams[j]) by {
                assert(c.streams[j] == d.streams[j]);
            }
        },
        Some(i) => {
            let (w, t, acts) = drained(c.window, c.streams[i]);
            law_only_what_is_blocked_is_left(c.window, c.streams[i]);
            let gone = t.pending_trailers is Some && t.outbound.len() == 0
                && t.subscribed_topic is None;
            assert forall|j: int| 0 <= j < d.streams.len() implies if (#[trigger] d.streams[j]).id
                == id {
                settled(d.window, d.streams[j])
            } else {
                has_stream(c, d.streams[j])
            } by {
                if gone {
                    let k = if j < i {
                        j
                    } else {
                        j + 1
                    };
                    assert(d.streams[j] == c.streams[k]);
                    if k < i {
                        assert(c.streams[k].id != c.streams[i].id);
                    } else {
                        assert(c.streams[i].id != c.streams[k].id);
                    }
                } else if j != i {
                    assert(d.streams[j] == c.streams[j]);
                    if j < i {
                        assert(c.streams[j].id != c.streams[i].id);
                    } else {
                        assert(c.streams[i].id != c.streams[j].id);
                    }
                }
            }
            assert forall|a: int, b: int| 0 <= a < b < d.streams.len() implies (
            #[trigger] d.streams[a]).id != (#[trigger] d.streams[b]).id by {
                let x = if gone && a >= i {
                    a + 1
                } else {
                    a
                };
                let y = if gone && b >= i {
                    b + 1
                } else {
                    b
                };
                assert(d.streams[a].id == c.streams[x].id);
                assert(d.streams[b].id == c.streams[y].id);
            }
        },
    }
}

proof fn lemma_all_flushed(c: ConnView, ids: Seq<u32>)
    requires
        ids_differ(c.streams),
    ensures
        ({
            let d = all_flushed(c, ids).0;
            &&& ids_differ(d.streams)
            &&& forall|j: int|
                0 <= j < d.streams.len() ==> if ids.contains((#[trigger] d.streams[j]).id) {
                    settled(d.window, d.streams[j])
                } else {
                    has_stream(c, d.streams[j])
                }
        }),
    decreases ids.len(),
{
    let d = all_flushed(c, ids).0;
    if ids.len() == 0 {
        assert forall|j: int| 0 <= j < d.streams.len() implies !ids.contains(
            (#[trigger] d.streams[j]).id,
        ) && has_stream(c, d.streams[j]) by {
            assert(c.streams[j] == d.streams[j]);
        }
    } else {
        let head = ids.drop_last();
        let b = all_flushed(c, head).0;
        assert(d == flushed(b, ids.last()).0);
        lemma_all_flushed(c, head);
        lemma_flushed(b, ids.last());
        lemma_flushed_step(c, b, d, ids);
    }
}

proof fn lemma_flushed_step(c: ConnView, b: ConnView, d: ConnView, ids: Seq<u32>)
    requires
        ids.len() > 0,
        d.window <= b.window,
        forall|j: int|
            0 <= j < b.streams.len() ==> if ids.drop_last().contains((#[trigger] b.streams[j]).id) {
                settled(b.window, b.streams[j])
            } else {
                has_stream(c, b.streams[j])
            },
        forall|j: int|
            0 <= j < d.streams.len() ==> if (#[trigger] d.streams[j]).id == ids.last() {
                settled(d.window, d.streams[j])
            } else {
                has_stream(b, d.streams[j])
            },
    ensures
        forall|j: int|
            0 <= j < d.streams.len() ==> if ids.contains((#[trigger] d.streams[j]).id) {
                settled(d.window, d.streams[j])
            } else {
                has_stream(c, d.streams[j])
            },
{
    let head = ids.drop_last();
    assert forall|j: int| 0 <= j < d.streams.len() implies if ids.contains(
        (#[trigger] d.streams[j]).id,
    ) {
        settled(d.window, d.streams[j])
    } else {
        has_stream(c, d.streams[j])
    } by {
        let s = d.streams[j];
        if s.id == ids.last() {
            assert(ids[ids.len() - 1] == s.id);
        } else {
            let k = choose|k: int| 0 <= k < b.streams.len() && b.streams[k] == s;
            assert(b.streams[k] == s);
            if ids.contains(s.id) {
                let x = choose|x: int| 0 <= x < ids.len() && ids[x] == s.id;
                assert(head[x] == s.id);
            }
            if head.contains(s.id) {
                let x = choose|x: int| 0 <= x < head.len() && head[x] == s.id;
                assert(ids[x] == s.id);
            }
        }
    }
}

/// Credit for the whole connection leaves no call waiting that it could have
/// served.
pub proof fn law_connection_credit_reaches_every_call(c: ConnView, f: Frame)
    requires
        ids_differ(c.streams),
        f.frame_type == FRAME_WINDOW_UPDATE,
        f.stream_id == 0,
    ensures
        on_frame_of(c, f) matches Ok((d, _)) && forall|j: int|
            0 <= j < d.streams.len() ==> settled(d.window, #[trigger] d.streams[j]),
{
    let b = ConnView { window: clamp(c.window + credit_of(f.payload@)), ..c };
    let ids = ids_of(c.streams);
    lemma_all_flushed(b, ids);
    let d = all_flushed(b, ids).0;
    assert forall|j: int| 0 <= j < d.streams.len() implies settled(
        d.window,
        #[trigger] d.streams[j],
    ) by {
        if !ids.contains(d.streams[j].id) {
            let k = choose|k: int| 0 <= k < b.streams.len() && b.streams[k] == d.streams[j];
            assert(ids[k] == d.streams[j].id);
        }
    }
}

/// Messages of a call are sent in the order in which they were queued, each
/// once: those sent and those left are what was queued.
pub proof fn law_messages_keep_their_order(window: i64, s: StreamView)
    ensures
        ({
            let (w, t, acts) = drained(window, s);
            &&& acts.len() + t.outbound.len() == s.outbound.len()
            &&& t.outbound == s.outbound.skip(acts.len() as int)
            &&& forall|i: int|
                0 <= i < acts.len() ==> #[trigger] acts[i] == (ActionView::Send {
                    frame_type: FRAME_DATA,
                    flags: 0,
                    stream_id: s.id,
                    payload: s.outbound[i],
                })
        }),
    decreases s.outbound.len(),
{
    let (w, t, acts) = drained(window, s);
    if s.outbound.len() > 0 && s.outbound[0].len() <= window && s.outbound[0].len()
        <= s.send_window {
        let m = s.outbound[0];
        let s1 = StreamView {
            outbound: s.outbound.drop_first(),
            send_window: (s.send_window - m.len()) as i64,
            ..s
        };
        law_messages_keep_their_order((window - m.len()) as i64, s1);
        let tail = drained((window - m.len()) as i64, s1).2;
        assert(t.outbound =~= s.outbound.skip(acts.len() as int));
        assert forall|i: int| 0 <= i < acts.len() implies #[trigger] acts[i] == (ActionView::Send {
            frame_type: FRAME_DATA,
            flags: 0,
            stream_id: s.id,
            payload: s.outbound[i],
        }) by {
            if i > 0 {
                assert(acts[i] == tail[i - 1]);
                assert(s1.outbound[i - 1] == s.outbound[i]);
            }
        }
    } else {
        assert(s.outbound.skip(0) =~= s.outbound);
    }
}

/// What several frames do to a connection, one after the other.
pub open spec fn after_frames(c: ConnView, fs: Seq<Frame>) -> Result<
    (ConnView, Seq<ActionView>),
    Http2Error,
>
    decreases fs.len(),
{
    if fs.len() == 0 {
        Ok((c, Seq::empty()))
    } else {
        match after_frames(c, fs.drop_last()) {
            Err(e) => Err(e),
            Ok((b, acts)) => match on_frame_of(b, fs.last()) {
                Err(e) => Err(e),
                Ok((d, more)) => Ok((d, acts + more)),
            },
        }
    }
}

/// The data that frames carry on one stream, in the order of their arrival.
pub open spec fn data_on(fs: Seq<Frame>, id: u32) -> Seq<u8>
    decreases fs.len(),
{
    if fs.len() == 0 {
        Seq::empty()
    } else if fs.last().stream_id == id {
        data_on(fs.drop_last(), id) + http2::data_fragment(fs.last().flags, fs.last().payload@)->Ok_0
    } else {
        data_on(fs.drop_last(), id)
    }
}

/// Whether an action hands the request of a stream over to be served.
pub open spec fn serves(a: ActionView, id: u32) -> bool {
    a matches ActionView::Serve { stream_id, .. } && stream_id == id
}

proof fn lemma_find_same(a: Seq<StreamView>, b: Seq<StreamView>, id: u32)
    requires
        a.len() == b.len(),
        forall|i: int| 0 <= i < a.len() ==> (#[trigger] a[i]).id == b[i].id,
    ensures
        find_in(a, id) == find_in(b, id),
    decreases a.len(),
{
    if a.len() > 0 {
        assert(a[a.len() - 1].id == b[b.len() - 1].id);
        assert forall|i: int| 0 <= i < a.drop_last().len() implies (#[trigger] a.drop_last()[i]).id
            == b.drop_last()[i].id by {
            assert(a[i].id == b[i].id);
        }
        lemma_find_same(a.drop_last(), b.drop_last(), id);
    }
}

proof fn lemma_data_frames(c: ConnView, fs: Seq<Frame>, id: u32, i: int)
    requires
        find_in(c.streams, id) == Some(i),
        forall|k: int|
            0 <= k < fs.len() ==> (#[trigger] fs[k]).frame_type == 0 && http2::data_fragment(
                fs[k].flags,
                fs[k].payload@,
            ) is Ok && (fs[k].stream_id == id ==> fs[k].flags & 1 == 0),
    ensures
        after_frames(c, fs) matches Ok((d, acts)) && find_in(d.streams, id) == Some(i)
            && d.streams[i] == (StreamView {
            body: c.streams[i].body + data_on(fs, id),
            ..c.streams[i]
        }) && forall|a: int| 0 <= a < acts.len() ==> !serves(#[trigger] acts[a], id),
    decreases fs.len(),
{
    lemma_find(c.streams, id);
    if fs.len() == 0 {
        assert(c.streams[i].body + data_on(fs, id) =~= c.streams[i].body);
    } else {
        let head = fs.drop_last();
        let f = fs.last();
        assert(fs[fs.len() - 1] == f);
        assert forall|k: int| 0 <= k < head.len() implies (#[trigger] head[k]).frame_type == 0
            && http2::data_fragment(head[k].flags, head[k].payload@) is Ok && (head[k].stream_id
            == id ==> head[k].flags & 1 == 0) by {
            assert(fs[k] == head[k]);
        }
        lemma_data_frames(c, head, id, i);
        let (b, acts) = after_frames(c, head)->Ok_0;
        let data = http2::data_fragment(f.flags, f.payload@)->Ok_0;
        let (d, more) = received(b, f, data);
        lemma_find(b.streams, id);
        lemma_find(b.streams, f.stream_id);
        assert(after_frames(c, fs) == Ok::<(ConnView, Seq<ActionView>), Http2Error>(
            (d, acts + more),
        ));
        if find_in(b.streams, f.stream_id) is Some {
            let x = find_in(b.streams, f.stream_id)->0;
            assert forall|k: int| 0 <= k < d.streams.len() implies (#[trigger] d.streams[k]).id
                == b.streams[k].id by {}
            lemma_find_same(d.streams, b.streams, id);
            if f.stream_id == id {
                assert(x == i);
                assert(b.streams[i].body + data =~= c.streams[i].body + data_on(fs, id));
            } else {
                assert(x != i);
            }
        }
        let all = acts + more;
        assert forall|a: int| 0 <= a < all.len() implies !serves(#[trigger] all[a], id) by {
            if a < acts.len() {
                assert(all[a] == acts[a]);
            } else {
                assert(all[a] == more[a - acts.len()]);
            }
        }
    }
}

/// A request is served once, with the last of its data: its body is what the
/// frames of its stream carried, in the order of their arrival, whatever came for
/// other streams between them.
pub proof fn law_body_is_all_that_arrived(c: ConnView, fs: Seq<Frame>, id: u32, i: int)
    requires
        fs.len() > 0,
        0 <= i < c.streams.len(),
        c.streams[i].id == id,
        forall|j: int| 0 <= j < i ==> (#[trigger] c.streams[j]).id != id,
        forall|k: int|
            0 <= k < fs.len() ==> (#[trigger] fs[k]).frame_type == 0 && http2::data_fragment(
                fs[k].flags,
                fs[k].payload@,
            ) is Ok,
        forall|k: int|
            0 <= k < fs.len() - 1 && (#[trigger] fs[k]).stream_id == id ==> fs[k].flags & 1 == 0,
        fs.last().stream_id == id,
        fs.last().flags & 1 != 0,
    ensures
        after_frames(c, fs) matches Ok((d, acts)) && acts.len() > 0 && acts.last()
            == (ActionView::Serve {
            stream_id: id,
            path: match c.streams[i].path {
                Some(p) => p,
                None => Seq::empty(),
            },
            body: c.streams[i].body + data_on(fs, id),
            authorization: header_of(c.streams[i].headers, "authorization"@),
        }) && (forall|a: int| 0 <= a < acts.len() - 1 ==> !serves(#[trigger] acts[a], id))
            && d.streams[i].body.len() == 0 && d.streams[i].req_ended,
{
    lemma_find(c.streams, id);
    assert(find_in(c.streams, id) == Some(i));
    let head = fs.drop_last();
    let f = fs.last();
    assert(fs[fs.len() - 1] == f);
    assert forall|k: int| 0 <= k < head.len() implies (#[trigger] head[k]).frame_type == 0
        && http2::data_fragment(head[k].flags, head[k].payload@) is Ok && (head[k].stream_id == id
        ==> head[k].flags & 1 == 0) by {
        assert(fs[k] == head[k]);
    }
    lemma_data_frames(c, head, id, i);
    let (b, acts) = after_frames(c, head)->Ok_0;
    let data = http2::data_fragment(f.flags, f.payload@)->Ok_0;
    let (d, more) = received(b, f, data);
    lemma_find(b.streams, id);
    let all = acts + more;
    assert(after_frames(c, fs) == Ok::<(ConnView, Seq<ActionView>), Http2Error>((d, all)));
    assert(b.streams[i].body + data =~= c.streams[i].body + data_on(fs, id));
    assert(all.last() == more[1]);
    assert forall|a: int| 0 <= a < all.len() - 1 implies !serves(#[trigger] all[a], id) by {
        if a < acts.len() {
            assert(all[a] == acts[a]);
        } else {
            assert(all[a] == more[0]);
        }
    }
}

/// The header blocks that frames carry, one behind the other.
pub open spec fn blocks_of(fs: Seq<Frame>) -> Seq<u8>
    decreases fs.len(),
{
    if fs.len() == 0 {
        Seq::empty()
    } else {
        blocks_of(fs.drop_last()) + http2::headers_fragment(
            fs.last().flags,
            fs.last().payload@,
        )->Ok_0
    }
}

proof fn lemma_header_frames(c: ConnView, fs: Seq<Frame>)
    requires
        c.pending is None,
        forall|k: int|
            0 <= k < fs.len() ==> ((#[trigger] fs[k]).frame_type == 1 || fs[k].frame_type == 9)
                && http2::headers_fragment(fs[k].flags, fs[k].payload@) is Ok && fs[k].flags & 4
                == 0,
    ensures
        after_frames(c, fs) == Ok::<(ConnView, Seq<ActionView>), Http2Error>(
            (
                ConnView {
                    pending: if fs.len() == 0 {
                        None
                    } else {
                        Some(blocks_of(fs))
                    },
                    ..c
                },
                Seq::empty(),
            ),
        ),
    decreases fs.len(),
{
    if fs.len() > 0 {
        let head = fs.drop_last();
        assert(fs[fs.len() - 1] == fs.last());
        assert forall|k: int| 0 <= k < head.len() implies ((#[trigger] head[k]).frame_type == 1
            || head[k].frame_type == 9) && http2::headers_fragment(
            head[k].flags,
            head[k].payload@,
        ) is Ok && head[k].flags & 4 == 0 by {
            assert(fs[k] == head[k]);
        }
        lemma_header_frames(c, head);
        let frag = http2::headers_fragment(fs.last().flags, fs.last().payload@)->Ok_0;
        assert(Seq::<u8>::empty() + frag =~= blocks_of(head) + frag || head.len() > 0);
        assert(Seq::<ActionView>::empty() + Seq::<ActionView>::empty()
            =~= Seq::<ActionView>::empty());
    }
}

/// A header list is unpacked once its last frame is there, from the blocks of all
/// its frames in the order of their arrival, for the stream of the last one.
pub proof fn law_header_block_is_all_that_arrived(c: ConnView, fs: Seq<Frame>)
    requires
        c.pending is None,
        fs.len() > 0,
        forall|k: int|
            0 <= k < fs.len() ==> ((#[trigger] fs[k]).frame_type == 1 || fs[k].frame_type == 9)
                && http2::headers_fragment(fs[k].flags, fs[k].payload@) is Ok,
        forall|k: int| 0 <= k < fs.len() - 1 ==> (#[trigger] fs[k]).flags & 4 == 0,
        fs.last().flags & 4 != 0,
    ensures
        after_frames(c, fs) == Ok::<(ConnView, Seq<ActionView>), Http2Error>(
            (c, seq![ActionView::Unpack { stream_id: fs.last().stream_id, block: blocks_of(fs) }]),
        ),
{
    let head = fs.drop_last();
    assert(fs[fs.len() - 1] == fs.last());
    assert forall|k: int| 0 <= k < head.len() implies ((#[trigger] head[k]).frame_type == 1
        || head[k].frame_type == 9) && http2::headers_fragment(
        head[k].flags,
        head[k].payload@,
    ) is Ok && head[k].flags & 4 == 0 by {
        assert(fs[k] == head[k]);
    }
    lemma_header_frames(c, head);
    let frag = http2::headers_fragment(fs.last().flags, fs.last().payload@)->Ok_0;
    assert(Seq::<u8>::empty() + frag =~= blocks_of(head) + frag || head.len() > 0);
    let unpack = seq![
        ActionView::Unpack { stream_id: fs.last().stream_id, block: blocks_of(fs) },
    ];
    assert(Seq::<ActionView>::empty() + unpack =~= unpack);
}

/// A header is the first of its name: `header_of` does not mind capitals in the
/// list, `exact_header` does.
pub proof fn law_first_header_counts(headers: HeaderView, name: Seq<char>)
    ensures
        match header_of(headers, name) {
            Some(v) => exists|i: int|
                0 <= i < headers.len() && (#[trigger] headers[i]).1 == v && headers[i].0.map_values(
                    |c: char| text::ascii_lower(c),
                ) == name && forall|j: int|
                    0 <= j < i ==> (#[trigger] headers[j]).0.map_values(
                        |c: char| text::ascii_lower(c),
                    ) != name,
            None => forall|j: int|
                0 <= j < headers.len() ==> (#[trigger] headers[j]).0.map_values(
                    |c: char| text::ascii_lower(c),
                ) != name,
        },
        match exact_header(headers, name) {
            Some(v) => exists|i: int|
                0 <= i < headers.len() && (#[trigger] headers[i]).1 == v && headers[i].0 == name
                    && forall|j: int| 0 <= j < i ==> (#[trigger] headers[j]).0 != name,
            None => forall|j: int| 0 <= j < headers.len() ==> (#[trigger] headers[j]).0 != name,
        },
    decreases headers.len(),
{
    if headers.len() > 0 {
        let head = headers.drop_last();
        let n = headers.len() - 1;
        law_first_header_counts(head, name);
        assert(headers[n] == headers.last());
        assert forall|j: int| 0 <= j < n implies #[trigger] headers[j] == head[j] by {}
        match header_of(head, name) {
            Some(v) => {
                let i = choose|i: int|
                    0 <= i < head.len() && (#[trigger] head[i]).1 == v && head[i].0.map_values(
                        |c: char| text::ascii_lower(c),
                    ) == name && forall|j: int|
                        0 <= j < i ==> (#[trigger] head[j]).0.map_values(
                            |c: char| text::ascii_lower(c),
                        ) != name;
                assert(headers[i] == head[i]);
            },
            None => {},
        }
        match exact_header(head, name) {
            Some(v) => {
                let i = choose|i: int|
                    0 <= i < head.len() && (#[trigger] head[i]).1 == v && head[i].0 == name
                        && forall|j: int| 0 <= j < i ==> (#[trigger] head[j]).0 != name;
                assert(headers[i] == head[i]);
            },
            None => {},
        }
    }
}

/// A header list opens its call, with the path and the headers of the list, the
/// window that the client gives to new calls and an empty body, and leaves the
/// other calls alone.
pub proof fn law_headers_open_the_call(c: ConnView, id: u32, headers: HeaderView)
    requires
        forall|j: int| 0 <= j < c.streams.len() ==> (#[trigger] c.streams[j]).id != id,
    ensures
        ({
            let d = opened(c, id, headers);
            let s = d.streams[c.streams.len() as int];
            &&& d.streams.len() == c.streams.len() + 1
            &&& d.streams.drop_last() == c.streams
            &&& s.id == id
            &&& s.path == exact_header(headers, ":path"@)
            &&& s.headers == headers
            &&& s.send_window == c.initial
            &&& s.body.len() == 0
            &&& s.outbound.len() == 0
            &&& s.subscribed_topic is None
            &&& s.pending_trailers is None
            &&& !s.req_ended
            &&& d.window == c.window
            &&& d.initial == c.initial
            &&& d.pending == c.pending
        }),
{
    lemma_find(c.streams, id);
    assert(opened(c, id, headers).streams.drop_last() =~= c.streams);
}

/// An answer of one message, where nothing waits and both windows let it through,
/// is a head, the message in its envelope and an end that says that all went
/// well; the call is over then.
pub proof fn law_answer_is_head_message_and_end(c: ConnView, id: u32, i: int, msg: Vec<u8>)
    requires
        0 <= i < c.streams.len(),
        c.streams[i].id == id,
        forall|j: int| 0 <= j < i ==> (#[trigger] c.streams[j]).id != id,
        c.streams[i].outbound.len() == 0,
        c.streams[i].subscribed_topic is None,
        service::enveloped(msg@).len() <= c.window,
        service::enveloped(msg@).len() <= c.streams[i].send_window,
    ensures
        answered(c, id, Answer::Served(DispatchResult::Unary(msg))).1 == seq![
            ActionView::SendHeaders {
                stream_id: id,
                flags: 4,
                headers: seq![(":status"@, "200"@), ("content-type"@, "application/grpc"@)],
            },
            ActionView::Send {
                frame_type: 0,
                flags: 0,
                stream_id: id,
                payload: service::enveloped(msg@),
            },
            ActionView::SendHeaders {
                stream_id: id,
                flags: 5,
                headers: seq![
                    ("grpc-status"@, text::decimal(0)),
                    ("grpc-message"@, Seq::<char>::empty()),
                ],
            },
        ],
        answered(c, id, Answer::Served(DispatchResult::Unary(msg))).0.streams == c.streams.remove(i),
        answered(c, id, Answer::Served(DispatchResult::Unary(msg))).0.window == c.window
            - service::enveloped(msg@).len(),
{
    lemma_find(c.streams, id);
    assert(find_in(c.streams, id) == Some(i));
    let m = service::enveloped(msg@);
    let s = StreamView {
        outbound: c.streams[i].outbound.push(m),
        pending_trailers: Some((GRPC_OK, Seq::empty())),
        ..c.streams[i]
    };
    let b = ConnView { streams: c.streams.update(i, s), ..c };
    assert forall|k: int| 0 <= k < b.streams.len() implies (#[trigger] b.streams[k]).id
        == c.streams[k].id by {}
    lemma_find_same(b.streams, c.streams, id);
    assert(s.outbound.drop_first() =~= Seq::<Seq<u8>>::empty());
    reveal_with_fuel(drained, 3);
    assert(4u8 | 1u8 == 5u8) by (bit_vector);
    let out = answered(c, id, Answer::Served(DispatchResult::Unary(msg)));
    assert(out.0.streams =~= c.streams.remove(i));
    assert(out.1 =~= seq![
        ActionView::SendHeaders { stream_id: id, flags: 4, headers: answer_head() },
        ActionView::Send { frame_type: 0, flags: 0, stream_id: id, payload: m },
        ActionView::SendHeaders { stream_id: id, flags: 5, headers: trailers(0, Seq::empty()) },
    ]);
}

/// An answer that is an error is one header list that ends the call, with the
/// status and the reason.
pub proof fn law_error_ends_the_call(c: ConnView, id: u32, i: int, status: u8, msg: String)
    requires
        0 <= i < c.streams.len(),
        c.streams[i].id == id,
        forall|j: int| 0 <= j < i ==> (#[trigger] c.streams[j]).id != id,
    ensures
        answered(c, id, Answer::Served(DispatchResult::Error(status, msg))) == (
            ConnView { streams: c.streams.remove(i), ..c },
            seq![
                ActionView::SendHeaders {
                    stream_id: id,
                    flags: 5,
                    headers: seq![
                        (":status"@, "200"@),
                        ("content-type"@, "application/grpc"@),
                        ("grpc-status"@, text::decimal(status as nat)),
                        ("grpc-message"@, msg@),
                    ],
                },
            ],
        ),
        answered(c, id, Answer::Unauthorized(msg)) == (
            ConnView { streams: c.streams.remove(i), ..c },
            seq![
                ActionView::SendHeaders {
                    stream_id: id,
                    flags: 5,
                    headers: seq![
                        (":status"@, "200"@),
                        ("content-type"@, "application/grpc"@),
                        ("grpc-status"@, text::decimal(16)),
                        ("grpc-message"@, "unauthorized: "@ + msg@),
                    ],
                },
            ],
        ),
{
    lemma_find(c.streams, id);
    assert(4u8 | 1u8 == 5u8) by (bit_vector);
}

/// The calls that get a record are those that subscribed to its topic.
pub proof fn law_record_goes_to_the_subscribers(
    streams: Seq<StreamView>,
    topic: Seq<char>,
    id: u32,
)
    ensures
        subscribers(streams, topic).contains(id) <==> exists|i: int|
            0 <= i < streams.len() && (#[trigger] streams[i]).id == id
                && streams[i].subscribed_topic == Some(topic),
        subscribers(streams, topic).len() <= streams.len(),
    decreases streams.len(),
{
    if streams.len() > 0 {
        let head = streams.drop_last();
        let n = streams.len() - 1;
        let before = subscribers(head, topic);
        let all = subscribers(streams, topic);
        law_record_goes_to_the_subscribers(head, topic, id);
        assert(streams[n] == streams.last());
        if before.contains(id) {
            let k = choose|k: int| 0 <= k < before.len() && before[k] == id;
            assert(all[k] == id);
            let i = choose|i: int|
                0 <= i < head.len() && (#[trigger] head[i]).id == id && head[i].subscribed_topic
                    == Some(topic);
            assert(streams[i] == head[i]);
        }
        if all.contains(id) {
            let k = choose|k: int| 0 <= k < all.len() && all[k] == id;
            if k < before.len() {
                assert(before[k] == id);
            }
        }
        if exists|i: int|
            0 <= i < streams.len() && (#[trigger] streams[i]).id == id
                && streams[i].subscribed_topic == Some(topic) {
            let i = choose|i: int|
                0 <= i < streams.len() && (#[trigger] streams[i]).id == id
                    && streams[i].subscribed_topic == Some(topic);
            if i < n {
                assert(head[i] == streams[i]);
            } else {
                assert(all[before.len() as int] == id);
            }
        }
    }
}

/// A message for a call is sent behind all that waits for it: what is sent and
/// what is left waiting are what waited and then the message, and no other call's
/// messages change.
pub proof fn law_message_is_sent_or_kept(c: ConnView, id: u32, i: int, msg: Seq<u8>)
    requires
        0 <= i < c.streams.len(),
        c.streams[i].id == id,
        forall|j: int| 0 <= j < i ==> (#[trigger] c.streams[j]).id != id,
        c.streams[i].pending_trailers is None,
    ensures
        ({
            let (d, acts) = delivered(c, id, msg);
            let queue = c.streams[i].outbound.push(msg);
            &&& acts.len() <= queue.len()
            &&& d.streams.len() == c.streams.len()
            &&& d.streams[i].outbound == queue.skip(acts.len() as int)
            &&& forall|k: int|
                0 <= k < acts.len() ==> #[trigger] acts[k] == (ActionView::Send {
                    frame_type: 0,
                    flags: 0,
                    stream_id: id,
                    payload: queue[k],
                })
            &&& forall|j: int|
                0 <= j < c.streams.len() && j != i ==> #[trigger] d.streams[j] == c.streams[j]
        }),
{
    lemma_find(c.streams, id);
    assert(find_in(c.streams, id) == Some(i));
    let s = StreamView { outbound: c.streams[i].outbound.push(msg), ..c.streams[i] };
    let b = ConnView { streams: c.streams.update(i, s), ..c };
    assert forall|k: int| 0 <= k < b.streams.len() implies (#[trigger] b.streams[k]).id
        == c.streams[k].id by {}
    lemma_find_same(b.streams, c.streams, id);
    law_messages_keep_their_order(c.window, s);
    lemma_drained_keeps(c.window, s);
}

proof fn lemma_drained_keeps(window: i64, s: StreamView)
    ensures
        drained(window, s).1.pending_trailers == s.pending_trailers,
        drained(window, s).1.subscribed_topic == s.subscribed_topic,
        drained(window, s).1.body == s.body,
        drained(window, s).1.path == s.path,
    decreases s.outbound.len(),
{
    if s.outbound.len() > 0 && s.outbound[0].len() <= window && s.outbound[0].len()
        <= s.send_window {
        let m = s.outbound[0];
        lemma_drained_keeps(
            (window - m.len()) as i64,
            StreamView {
                outbound: s.outbound.drop_first(),
                send_window: (s.send_window - m.len()) as i64,
                ..s
            },
        );
    }
}

/// A ping comes back with the same bytes, settings are acknowledged, and neither
/// touches a call's queue. A reset forgets the call that it names and no other.
pub proof fn law_control_frames_are_answered(c: ConnView, f: Frame)
    ensures
        f.frame_type == 6 ==> on_frame_of(c, f) == Ok::<(ConnView, Seq<ActionView>), Http2Error>(
            (
                c,
                seq![
                    ActionView::Send {
                        frame_type: 6,
                        flags: 1,
                        stream_id: 0,
                        payload: f.payload@,
                    },
                ],
            ),
        ),
        f.frame_type == 4 && f.flags & 1 == 0 && f.payload@.len() % 6 == 0 ==> (on_frame_of(c, f)
            matches Ok((d, acts)) && acts == seq![
            ActionView::Send {
                frame_type: 4,
                flags: 1,
                stream_id: 0,
                payload: Seq::<u8>::empty(),
            },
        ] && d.window == c.window && d.streams.len() == c.streams.len()),
        f.frame_type == 3 ==> (on_frame_of(c, f) matches Ok((d, acts)) && acts.len() == 0 && match
            find_in(c.streams, f.stream_id) {
            Some(i) => d == (ConnView { streams: c.streams.remove(i), ..c }),
            None => d == c,
        }),
{
    if f.frame_type == 4 && f.payload@.len() % 6 == 0 {
        lemma_resized(c, settings_of(f.payload@));
    }
}

proof fn lemma_resized(c: ConnView, entries: Seq<(u16, u32)>)
    ensures
        resized(c, entries).window == c.window,
        resized(c, entries).streams.len() == c.streams.len(),
    decreases entries.len(),
{
    if entries.len() > 0 {
        lemma_resized(c, entries.drop_last());
    }
}

/// A new first window moves the window of every open call by the difference, and
/// changes nothing else of it; settings of other kinds change nothing.
pub proof fn law_new_first_window_moves_every_call(c: ConnView, id: u16, val: u32, i: int)
    requires
        0 <= i < c.streams.len(),
        i64::MIN <= c.streams[i].send_window + (val - c.initial) <= i64::MAX,
    ensures
        id == 4 ==> resized(c, seq![(id, val)]).initial == val && resized(
            c,
            seq![(id, val)],
        ).streams[i] == (StreamView {
            send_window: (c.streams[i].send_window + (val - c.initial)) as i64,
            ..c.streams[i]
        }),
        id != 4 ==> resized(c, seq![(id, val)]) == c,
{
    reveal_with_fuel(resized, 2);
    assert(seq![(id, val)].drop_last() =~= Seq::<(u16, u32)>::empty());
}

/// The bytes of every data frame are given back to the sender as credit on its
/// stream.
pub proof fn law_data_is_credited(c: ConnView, f: Frame, data: Seq<u8>)
    requires
        data.len() <= u32::MAX,
    ensures
        received(c, f, data).1.len() >= 1,
        received(c, f, data).1[0] matches ActionView::Send { frame_type, flags, stream_id, payload }
            && frame_type == 8 && flags == 0 && stream_id == f.stream_id && payload.len() == 4
            && be::u32_at(payload, 0) == data.len(),
{
    let n = data.len() as u32;
    let p = be::be32(n);
    be::lemma_be32(n);
    assert(p.subrange(0, 4) =~= p);
    be::lemma_u32_at(p, 0, n);
}

/// A record is sent to one subscriber after the other, to each as if it were the
/// only one.
pub proof fn law_subscribers_are_served_in_turn(
    c: ConnView,
    a: Seq<u32>,
    b: Seq<u32>,
    id: u32,
    msg: Seq<u8>,
)
    ensures
        fanned(c, seq![id], msg) == delivered(c, id, msg),
        fanned(c, Seq::empty(), msg) == (c, Seq::<ActionView>::empty()),
        fanned(c, a + b, msg) == (
            fanned(fanned(c, a, msg).0, b, msg).0,
            fanned(c, a, msg).1 + fanned(fanned(c, a, msg).0, b, msg).1,
        ),
    decreases b.len(),
{
    let one = seq![id];
    assert(one.drop_last() =~= Seq::<u32>::empty());
    assert(fanned(c, one.drop_last(), msg) == (c, Seq::<ActionView>::empty()));
    assert(fanned(c, one, msg).1 =~= delivered(c, id, msg).1);
    let first = fanned(c, a, msg);
    if b.len() == 0 {
        assert(a + b =~= a);
        assert(first.1 + Seq::<ActionView>::empty() =~= first.1);
    } else {
        law_subscribers_are_served_in_turn(c, a, b.drop_last(), id, msg);
        assert((a + b).drop_last() =~= a + b.drop_last());
        assert(fanned(c, a + b, msg).1 =~= first.1 + fanned(first.0, b, msg).1);
    }
}

/// Credit for a call opens its window by so much, and the window of no other call.
pub proof fn law_credit_opens_the_window(c: ConnView, id: u32, credit: u32, i: int, j: int)
    requires
        find_in(c.streams, id) == Some(i),
        0 <= i < c.streams.len(),
        0 <= j < c.streams.len(),
        j != i,
        c.streams[i].send_window + credit <= i64::MAX,
    ensures
        credit_of(be::be32(credit)) == credit,
        credited(c, id, credit).streams[i].send_window == c.streams[i].send_window + credit,
        credited(c, id, credit).streams[i].outbound == c.streams[i].outbound,
        credited(c, id, credit).streams[j] == c.streams[j],
        credited(c, id, credit).window == c.window,
{
    let p = be::be32(credit);
    be::lemma_be32(credit);
    assert(p.subrange(0, 4) =~= p);
    be::lemma_u32_at(p, 0, credit);
}

} // verus!
