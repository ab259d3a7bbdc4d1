//! Messages from the server to a client.

use vstd::prelude::*;
use vstd::string::*;
use vstd::utf8::*;

use super::codec;
use crate::be;
use crate::be::{copy_range, put_bytes, put_u16, put_u32, put_u64};
use crate::database::rows;
use crate::database::rows::decode_i64;
use crate::text;

verus! {

pub const OID_BOOL: i32 = 16;

pub const OID_BYTEA: i32 = 17;

pub const OID_INT8: i32 = 20;

pub const OID_INT2: i32 = 21;

pub const OID_INT4: i32 = 23;

pub const OID_TEXT: i32 = 25;

pub const OID_FLOAT4: i32 = 700;

pub const OID_FLOAT8: i32 = 701;

/// Where a session stands between statements.
#[derive(Debug, Clone, Copy, PartialEq, Eq, Structural)]
pub enum TransactionStatus {
    Idle,
    InTransaction,
    Failed,
}

/// The description of a column of a result.
#[derive(Debug, Clone, PartialEq)]
pub struct FieldDescription {
    pub name: String,
    pub table_oid: i32,
    pub col_attr: i16,
    pub type_oid: i32,
    pub type_size: i16,
    pub type_modifier: i32,
    pub format: i16,
}

impl FieldDescription {
    /// A column of a name and a type, everything else left open.
    pub fn simple(name: &str, type_oid: i32) -> (f: FieldDescription)
        ensures
            f.name@ == name@,
            f.table_oid == 0,
            f.col_attr == 0,
            f.type_oid == type_oid,
            f.type_size == -1,
            f.type_modifier == -1,
            f.format == 0,
    {
        FieldDescription {
            name: name.to_owned(),
            table_oid: 0,
            col_attr: 0,
            type_oid,
            type_size: -1,
            type_modifier: -1,
            format: 0,
        }
    }
}

/// An error as a client gets it.
#[derive(Debug, Clone, PartialEq)]
pub struct ErrorInfo {
    pub severity: String,
    pub code: String,
    pub message: String,
}

impl ErrorInfo {
    /// An error that leaves the connection open.
    pub fn new(code: &str, message: &str) -> (e: ErrorInfo)
        ensures
            e.severity@ == "ERROR"@,
            e.code@ == code@,
            e.message@ == message@,
    {
        ErrorInfo {
            severity: "ERROR".to_owned(),
            code: code.to_owned(),
            message: message.to_owned(),
        }
    }

    /// An error that ends the connection.
    pub fn fatal(code: &str, message: &str) -> (e: ErrorInfo)
        ensures
            e.severity@ == "FATAL"@,
            e.code@ == code@,
            e.message@ == message@,
    {
        ErrorInfo {
            severity: "FATAL".to_owned(),
            code: code.to_owned(),
            message: message.to_owned(),
        }
    }
}

/// A message from the server to a client.
#[derive(Debug, Clone, PartialEq)]
pub enum BackendMessage {
    AuthenticationOk,
    AuthenticationSASL(Vec<String>),
    AuthenticationSASLContinue(Vec<u8>),
    AuthenticationSASLFinal(Vec<u8>),
    ParameterStatus { name: String, value: String },
    BackendKeyData { pid: i32, secret: i32 },
    ReadyForQuery(TransactionStatus),
    RowDescription(Vec<FieldDescription>),
    DataRow(Vec<Option<Vec<u8>>>),
    CommandComplete(String),
    ErrorResponse(ErrorInfo),
    NoticeResponse(String),
    EmptyQueryResponse,
    ParseComplete,
    BindComplete,
    CloseComplete,
    NoData,
    PortalSuspended,
    ParameterDescription(Vec<i32>),
    NotificationResponse { pid: i32, channel: String, payload: String },
    CopyInResponse { columns: i16 },
    CopyOutResponse { columns: i16 },
    CopyData(Vec<u8>),
    CopyDone,
}

/// A text and a zero byte.
pub open spec fn cstr(s: Seq<char>) -> Seq<u8> {
    encode_utf8(s).push(0)
}

/// A signed number in four bytes.
pub open spec fn int4(n: i32) -> Seq<u8> {
    be::be32(n as u32)
}

/// A signed number in two bytes.
pub open spec fn int2(n: i16) -> Seq<u8> {
    be::be16(n as u16)
}

/// Texts, each with a zero byte, one behind the other.
pub open spec fn cstrs(list: Seq<String>) -> Seq<u8>
    decreases list.len(),
{
    if list.len() == 0 {
        Seq::empty()
    } else {
        cstrs(list.drop_last()) + cstr(list.last()@)
    }
}

/// The description of one column.
pub open spec fn field_bytes(f: FieldDescription) -> Seq<u8> {
    cstr(f.name@) + int4(f.table_oid) + int2(f.col_attr) + int4(f.type_oid) + int2(f.type_size)
        + int4(f.type_modifier) + int2(f.format)
}

pub open spec fn fields_bytes(fs: Seq<FieldDescription>) -> Seq<u8>
    decreases fs.len(),
{
    if fs.len() == 0 {
        Seq::empty()
    } else {
        fields_bytes(fs.drop_last()) + field_bytes(fs.last())
    }
}

/// A cell of a row: its length and its bytes, or the length -1 for null.
pub open spec fn cell_bytes(c: Option<Vec<u8>>) -> Seq<u8> {
    match c {
        Some(v) => be::be32(v@.len() as u32) + v@,
        None => int4((-1int) as i32),
    }
}

pub open spec fn cells_bytes(cs: Seq<Option<Vec<u8>>>) -> Seq<u8>
    decreases cs.len(),
{
    if cs.len() == 0 {
        Seq::empty()
    } else {
        cells_bytes(cs.drop_last()) + cell_bytes(cs.last())
    }
}

pub open spec fn int4s(ns: Seq<i32>) -> Seq<u8>
    decreases ns.len(),
{
    if ns.len() == 0 {
        Seq::empty()
    } else {
        int4s(ns.drop_last()) + int4(ns.last())
    }
}

/// The format of `n` columns of a copy, all of them text.
pub open spec fn text_formats(n: int) -> Seq<u8>
    decreases n,
{
    if n <= 0 {
        Seq::empty()
    } else {
        text_formats(n - 1) + int2(0)
    }
}

/// The byte that says where a session stands.
pub open spec fn status_byte(s: TransactionStatus) -> u8 {
    match s {
        TransactionStatus::Idle => 73,
        TransactionStatus::InTransaction => 84,
        TransactionStatus::Failed => 69,
    }
}

impl BackendMessage {
    /// The letter of the message.
    pub open spec fn tag(&self) -> u8 {
        match self {
            BackendMessage::AuthenticationOk => 82,
            BackendMessage::AuthenticationSASL(_) => 82,
            BackendMessage::AuthenticationSASLContinue(_) => 82,
            BackendMessage::AuthenticationSASLFinal(_) => 82,
            BackendMessage::ParameterStatus { .. } => 83,
            BackendMessage::BackendKeyData { .. } => 75,
            BackendMessage::ReadyForQuery(_) => 90,
            BackendMessage::RowDescription(_) => 84,
            BackendMessage::DataRow(_) => 68,
            BackendMessage::CommandComplete(_) => 67,
            BackendMessage::ErrorResponse(_) => 69,
            BackendMessage::NoticeResponse(_) => 78,
            BackendMessage::EmptyQueryResponse => 73,
            BackendMessage::ParseComplete => 49,
            BackendMessage::BindComplete => 50,
            BackendMessage::CloseComplete => 51,
            BackendMessage::NoData => 110,
            BackendMessage::PortalSuspended => 115,
            BackendMessage::ParameterDescription(_) => 116,
            BackendMessage::NotificationResponse { .. } => 65,
            BackendMessage::CopyInResponse { .. } => 71,
            BackendMessage::CopyOutResponse { .. } => 72,
            BackendMessage::CopyData(_) => 100,
            BackendMessage::CopyDone => 99,
        }
    }

    /// What stands behind letter and length.
    pub open spec fn body(&self) -> Seq<u8> {
        match self {
            BackendMessage::AuthenticationOk => int4(0),
            BackendMessage::AuthenticationSASL(ms) => (int4(10) + cstrs(ms@)).push(0),
            BackendMessage::AuthenticationSASLContinue(d) => int4(11) + d@,
            BackendMessage::AuthenticationSASLFinal(d) => int4(12) + d@,
            BackendMessage::ParameterStatus { name, value } => cstr(name@) + cstr(value@),
            BackendMessage::BackendKeyData { pid, secret } => int4(*pid) + int4(*secret),
            BackendMessage::ReadyForQuery(s) => seq![status_byte(*s)],
            BackendMessage::RowDescription(fs) => be::be16(fs@.len() as u16) + fields_bytes(fs@),
            BackendMessage::DataRow(cs) => be::be16(cs@.len() as u16) + cells_bytes(cs@),
            BackendMessage::CommandComplete(t) => cstr(t@),
            BackendMessage::ErrorResponse(e) => (seq![83u8] + cstr(e.severity@) + seq![86u8] + cstr(
                e.severity@,
            ) + seq![67u8] + cstr(e.code@) + seq![77u8] + cstr(e.message@)).push(0),
            BackendMessage::NoticeResponse(m) => (seq![77u8] + cstr(m@)).push(0),
            BackendMessage::EmptyQueryResponse => Seq::empty(),
            BackendMessage::ParseComplete => Seq::empty(),
            BackendMessage::BindComplete => Seq::empty(),
            BackendMessage::CloseComplete => Seq::empty(),
            BackendMessage::NoData => Seq::empty(),
            BackendMessage::PortalSuspended => Seq::empty(),
            BackendMessage::ParameterDescription(ts) => be::be16(ts@.len() as u16) + int4s(ts@),
            BackendMessage::NotificationResponse { pid, channel, payload } => int4(*pid) + cstr(
                channel@,
            ) + cstr(payload@),
            BackendMessage::CopyInResponse { columns } => seq![0u8] + int2(*columns)
                + text_formats(*columns as int),
            BackendMessage::CopyOutResponse { columns } => seq![0u8] + int2(*columns)
                + text_formats(*columns as int),
            BackendMessage::CopyData(d) => d@,
            BackendMessage::CopyDone => Seq::empty(),
        }
    }

    /// The message on the wire: its letter, the length of the rest with the
    /// length itself, and the body.
    pub open spec fn wire(&self) -> Seq<u8> {
        seq![self.tag()] + be::be32((self.body().len() + 4) as u32) + self.body()
    }
}

fn put_cstr(out: &mut Vec<u8>, s: &str)
    ensures
        final(out)@ == old(out)@ + cstr(s@),
{
    put_bytes(out, s.as_bytes());
    out.push(0);
    assert(out@ =~= old(out)@ + cstr(s@));
}

fn put_int4(out: &mut Vec<u8>, n: i32)
    ensures
        final(out)@ == old(out)@ + int4(n),
{
    put_u32(out, n as u32);
}

fn put_int2(out: &mut Vec<u8>, n: i16)
    ensures
        final(out)@ == old(out)@ + int2(n),
{
    put_u16(out, n as u16);
}

fn put_cstrs(out: &mut Vec<u8>, list: &Vec<String>)
    ensures
        final(out)@ == old(out)@ + cstrs(list@),
{
    let mut i: usize = 0;
    assert(list@.take(0) =~= Seq::<String>::empty());
    assert(out@ + cstrs(list@.take(0)) =~= out@);
    while i < list.len()
        invariant
            i <= list@.len(),
            out@ == old(out)@ + cstrs(list@.take(i as int)),
        decreases list@.len() - i,
    {
        assert(list@.take(i + 1).drop_last() =~= list@.take(i as int));
        put_cstr(out, list[i].as_str());
        assert(out@ =~= old(out)@ + cstrs(list@.take(i + 1)));
        i += 1;
    }
    assert(list@.take(list@.len() as int) =~= list@);
}

fn put_field(out: &mut Vec<u8>, f: &FieldDescription)
    ensures
        final(out)@ == old(out)@ + field_bytes(*f),
{
    put_cstr(out, f.name.as_str());
    put_int4(out, f.table_oid);
    put_int2(out, f.col_attr);
    put_int4(out, f.type_oid);
    put_int2(out, f.type_size);
    put_int4(out, f.type_modifier);
    put_int2(out, f.format);
    assert(out@ =~= old(out)@ + field_bytes(*f));
}

fn put_fields(out: &mut Vec<u8>, list: &Vec<FieldDescription>)
    ensures
        final(out)@ == old(out)@ + fields_bytes(list@),
{
    let mut i: usize = 0;
    assert(list@.take(0) =~= Seq::<FieldDescription>::empty());
    assert(out@ + fields_bytes(list@.take(0)) =~= out@);
    while i < list.len()
        invariant
            i <= list@.len(),
            out@ == old(out)@ + fields_bytes(list@.take(i as int)),
        decreases list@.len() - i,
    {
        assert(list@.take(i + 1).drop_last() =~= list@.take(i as int));
        put_field(out, &list[i]);
        assert(out@ =~= old(out)@ + fields_bytes(list@.take(i + 1)));
        i += 1;
    }
    assert(list@.take(list@.len() as int) =~= list@);
}

fn put_cells(out: &mut Vec<u8>, list: &Vec<Option<Vec<u8>>>)
    ensures
        final(out)@ == old(out)@ + cells_bytes(list@),
{
    let mut i: usize = 0;
    assert(list@.take(0) =~= Seq::<Option<Vec<u8>>>::empty());
    assert(out@ + cells_bytes(list@.take(0)) =~= out@);
    while i < list.len()
        invariant
            i <= list@.len(),
            out@ == old(out)@ + cells_bytes(list@.take(i as int)),
        decreases list@.len() - i,
    {
        assert(list@.take(i + 1).drop_last() =~= list@.take(i as int));
        match &list[i] {
            Some(v) => {
                put_u32(out, v.len() as u32);
                put_bytes(out, v.as_slice());
            },
            None => {
                put_int4(out, -1);
            },
        }
        assert(out@ =~= old(out)@ + cells_bytes(list@.take(i + 1)));
        i += 1;
    }
    assert(list@.take(list@.len() as int) =~= list@);
}

fn put_int4s(out: &mut Vec<u8>, list: &Vec<i32>)
    ensures
        final(out)@ == old(out)@ + int4s(list@),
{
    let mut i: usize = 0;
    assert(list@.take(0) =~= Seq::<i32>::empty());
    assert(out@ + int4s(list@.take(0)) =~= out@);
    while i < list.len()
        invariant
            i <= list@.len(),
            out@ == old(out)@ + int4s(list@.take(i as int)),
        decreases list@.len() - i,
    {
        assert(list@.take(i + 1).drop_last() =~= list@.take(i as int));
        put_int4(out, list[i]);
        assert(out@ =~= old(out)@ + int4s(list@.take(i + 1)));
        i += 1;
    }
    assert(list@.take(list@.len() as int) =~= list@);
}

fn put_copy_formats(out: &mut Vec<u8>, columns: i16)
    ensures
        final(out)@ == old(out)@ + (seq![0u8] + int2(columns) + text_formats(columns as int)),
{
    out.push(0);
    put_int2(out, columns);
    let ghost head = out@;
    assert(head =~= old(out)@ + (seq![0u8] + int2(columns)));
    let mut i: i16 = 0;
    assert(head + text_formats(0) =~= head);
    while i < columns
        invariant
            0 <= i,
            i <= columns || columns < 0,
            columns < 0 ==> i == 0,
            out@ == head + text_formats(i as int),
        decreases columns - i,
    {
        put_int2(out, 0);
        i += 1;
        assert(out@ =~= head + text_formats(i as int));
    }
    assert(text_formats(i as int) =~= text_formats(columns as int));
    assert(out@ =~= old(out)@ + (seq![0u8] + int2(columns) + text_formats(columns as int)));
}

/// The letter of a message.
fn tag_of(msg: &BackendMessage) -> (t: u8)
    ensures
        t == msg.tag(),
{
    match msg {
        BackendMessage::AuthenticationOk
        | BackendMessage::AuthenticationSASL(_)
        | BackendMessage::AuthenticationSASLContinue(_)
        | BackendMessage::AuthenticationSASLFinal(_) => 82,
        BackendMessage::ParameterStatus { .. } => 83,
        BackendMessage::BackendKeyData { .. } => 75,
        BackendMessage::ReadyForQuery(_) => 90,
        BackendMessage::RowDescription(_) => 84,
        BackendMessage::DataRow(_) => 68,
        BackendMessage::CommandComplete(_) => 67,
        BackendMessage::ErrorResponse(_) => 69,
        BackendMessage::NoticeResponse(_) => 78,
        BackendMessage::EmptyQueryResponse => 73,
        BackendMessage::ParseComplete => 49,
        BackendMessage::BindComplete => 50,
        BackendMessage::CloseComplete => 51,
        BackendMessage::NoData => 110,
        BackendMessage::PortalSuspended => 115,
        BackendMessage::ParameterDescription(_) => 116,
        BackendMessage::NotificationResponse { .. } => 65,
        BackendMessage::CopyInResponse { .. } => 71,
        BackendMessage::CopyOutResponse { .. } => 72,
        BackendMessage::CopyData(_) => 100,
        BackendMessage::CopyDone => 99,
    }
}

/// The body of an error.
fn put_error(out: &mut Vec<u8>, e: &ErrorInfo)
    ensures
        final(out)@ == old(out)@ + BackendMessage::ErrorResponse(*e).body(),
{
    out.push(83);
    put_cstr(out, e.severity.as_str());
    out.push(86);
    put_cstr(out, e.severity.as_str());
    out.push(67);
    put_cstr(out, e.code.as_str());
    out.push(77);
    put_cstr(out, e.message.as_str());
    out.push(0);
    assert(out@ =~= old(out)@ + BackendMessage::ErrorResponse(*e).body());
}

/// The body of a message.
#[verifier::rlimit(30)]
fn body_bytes(msg: &BackendMessage) -> (out: Vec<u8>)
    ensures
        out@ == msg.body(),
{
    let mut out: Vec<u8> = Vec::new();
    match msg {
        BackendMessage::AuthenticationOk => {
            put_int4(&mut out, 0);
        },
        BackendMessage::AuthenticationSASL(ms) => {
            put_int4(&mut out, 10);
            put_cstrs(&mut out, ms);
            out.push(0);
        },
        BackendMessage::AuthenticationSASLContinue(d) => {
            put_int4(&mut out, 11);
            put_bytes(&mut out, d.as_slice());
        },
        BackendMessage::AuthenticationSASLFinal(d) => {
            put_int4(&mut out, 12);
            put_bytes(&mut out, d.as_slice());
        },
        BackendMessage::ParameterStatus { name, value } => {
            put_cstr(&mut out, name.as_str());
            put_cstr(&mut out, value.as_str());
        },
        BackendMessage::BackendKeyData { pid, secret } => {
            put_int4(&mut out, *pid);
            put_int4(&mut out, *secret);
        },
        BackendMessage::ReadyForQuery(s) => {
            out.push(
                match s {
                    TransactionStatus::Idle => 73,
                    TransactionStatus::InTransaction => 84,
                    TransactionStatus::Failed => 69,
                },
            );
        },
        BackendMessage::RowDescription(fs) => {
            put_u16(&mut out, fs.len() as u16);
            put_fields(&mut out, fs);
        },
        BackendMessage::DataRow(cs) => {
            put_u16(&mut out, cs.len() as u16);
            put_cells(&mut out, cs);
        },
        BackendMessage::CommandComplete(t) => {
            put_cstr(&mut out, t.as_str());
        },
        BackendMessage::ErrorResponse(e) => {
            put_error(&mut out, e);
        },
        BackendMessage::NoticeResponse(m) => {
            out.push(77);
            put_cstr(&mut out, m.as_str());
            out.push(0);
        },
        BackendMessage::ParameterDescription(ts) => {
            put_u16(&mut out, ts.len() as u16);
            put_int4s(&mut out, ts);
        },
        BackendMessage::NotificationResponse { pid, channel, payload } => {
            put_int4(&mut out, *pid);
            put_cstr(&mut out, channel.as_str());
            put_cstr(&mut out, payload.as_str());
        },
        BackendMessage::CopyInResponse { columns } => {
            put_copy_formats(&mut out, *columns);
        },
        BackendMessage::CopyOutResponse { columns } => {
            put_copy_formats(&mut out, *columns);
        },
        BackendMessage::CopyData(d) => {
            put_bytes(&mut out, d.as_slice());
        },
        _ => {},
    }
    assert(out@ =~= msg.body());
    out
}

/// Adds a message to a buffer.
pub fn encode(msg: &BackendMessage, buf: &mut Vec<u8>)
    ensures
        final(buf)@ == old(buf)@ + msg.wire(),
{
    let body = body_bytes(msg);
    buf.push(tag_of(msg));
    put_u32(buf, (body.len() as u128 + 4) as u32);
    put_bytes(buf, body.as_slice());
    assert(buf@ =~= old(buf)@ + msg.wire());
}

/// The length that a message declares is that of all but its letter.
pub proof fn law_declared_length_matches(msg: BackendMessage)
    requires
        msg.body().len() + 4 <= u32::MAX,
    ensures
        msg.wire()[0] == msg.tag(),
        be::u32_at(msg.wire(), 1) == msg.wire().len() - 1,
        msg.wire().skip(5) == msg.body(),
{
    let n = (msg.body().len() + 4) as u32;
    be::lemma_be32(n);
    assert(msg.wire().subrange(1, 5) =~= be::be32(n));
    assert(msg.wire().skip(5) =~= msg.body());
}

/// Whether values of a type can be sent in binary form.
pub fn supports_binary(type_oid: i32) -> (r: bool)
    ensures
        r == (type_oid == OID_INT8 || type_oid == OID_INT4 || type_oid == OID_INT2 || type_oid
            == OID_FLOAT8 || type_oid == OID_FLOAT4 || type_oid == OID_BOOL || type_oid == OID_TEXT
            || type_oid == OID_BYTEA),
{
    type_oid == OID_INT8 || type_oid == OID_INT4 || type_oid == OID_INT2 || type_oid == OID_FLOAT8
        || type_oid == OID_FLOAT4 || type_oid == OID_BOOL || type_oid == OID_TEXT || type_oid
        == OID_BYTEA
}

/// The value of a hexadecimal digit.
pub open spec fn hex_value(c: u8) -> Option<u8> {
    if 48 <= c <= 57 {
        Some((c - 48) as u8)
    } else if 97 <= c <= 102 {
        Some((c - 87) as u8)
    } else if 65 <= c <= 70 {
        Some((c - 55) as u8)
    } else {
        None
    }
}

/// The bytes that pairs of hexadecimal digits stand for.
pub open spec fn hex_bytes(s: Seq<u8>) -> Option<Seq<u8>>
    decreases s.len(),
{
    if s.len() == 0 {
        Some(Seq::empty())
    } else if s.len() == 1 {
        None
    } else {
        match (
            hex_bytes(s.take(s.len() - 2)),
            hex_value(s[s.len() - 2]),
            hex_value(s[s.len() - 1]),
        ) {
            (Some(head), Some(hi), Some(lo)) => Some(head.push((hi * 16 + lo) as u8)),
            _ => None,
        }
    }
}

/// A cell in binary form. `float` is the bit pattern of the cell read as a
/// number of the width of its type, where it could be read.
pub open spec fn binary_of(cell: Seq<u8>, type_oid: i32, float: Option<u64>) -> Option<Seq<u8>> {
    if type_oid == OID_INT8 {
        match rows::i64_in(cell) {
            Some(n) => Some(be::be64(n as u64)),
            None => None,
        }
    } else if type_oid == OID_INT4 {
        match rows::i64_in(cell) {
            Some(n) if i32::MIN <= n <= i32::MAX => Some(int4(n as i32)),
            _ => None,
        }
    } else if type_oid == OID_INT2 {
        match rows::i64_in(cell) {
            Some(n) if i16::MIN <= n <= i16::MAX => Some(int2(n as i16)),
            _ => None,
        }
    } else if type_oid == OID_FLOAT8 {
        match float {
            Some(bits) => Some(be::be64(bits)),
            None => None,
        }
    } else if type_oid == OID_FLOAT4 {
        match float {
            Some(bits) if bits <= u32::MAX => Some(be::be32(bits as u32)),
            _ => None,
        }
    } else if type_oid == OID_BOOL {
        if cell == seq![116u8] {
            Some(seq![1u8])
        } else if cell == seq![102u8] {
            Some(seq![0u8])
        } else {
            None
        }
    } else if type_oid == OID_BYTEA {
        if cell.len() >= 2 && cell[0] == 92 && cell[1] == 120 {
            hex_bytes(cell.skip(2))
        } else {
            None
        }
    } else if type_oid == OID_TEXT {
        Some(cell)
    } else {
        None
    }
}

fn hex_digit(c: u8) -> (r: Option<u8>)
    ensures
        r == hex_value(c),
        r matches Some(v) ==> v < 16,
{
    if 48 <= c && c <= 57 {
        Some(c - 48)
    } else if 97 <= c && c <= 102 {
        Some(c - 87)
    } else if 65 <= c && c <= 70 {
        Some(c - 55)
    } else {
        None
    }
}

/// A failure in the front part of a string of digits is one of the whole.
proof fn lemma_hex_prefix(s: Seq<u8>, n: int)
    requires
        0 <= n <= s.len(),
        (s.len() - n) % 2 == 0,
        hex_bytes(s.take(n)) is None,
    ensures
        hex_bytes(s) is None,
    decreases s.len(),
{
    if n < s.len() {
        let shorter = s.take(s.len() - 2);
        assert(shorter.take(n) =~= s.take(n));
        lemma_hex_prefix(shorter, n);
    } else {
        assert(s.take(n) =~= s);
    }
}

/// Reads pairs of hexadecimal digits.
fn read_hex(s: &[u8]) -> (r: Option<Vec<u8>>)
    ensures
        match r {
            Some(v) => hex_bytes(s@) == Some(v@),
            None => hex_bytes(s@) is None,
        },
{
    if s.len() % 2 != 0 {
        proof {
            lemma_hex_odd(s@);
        }
        return None;
    }
    let mut out: Vec<u8> = Vec::new();
    let mut i: usize = 0;
    assert(s@.take(0) =~= Seq::<u8>::empty());
    while i < s.len()
        invariant
            i <= s@.len(),
            i % 2 == 0,
            s@.len() % 2 == 0,
            hex_bytes(s@.take(i as int)) == Some(out@),
        decreases s@.len() - i,
    {
        let ghost next = s@.take(i + 2);
        assert(next.take(i as int) =~= s@.take(i as int));
        assert(next[i as int] == s@[i as int] && next[i + 1] == s@[i + 1]);
        match (hex_digit(s[i]), hex_digit(s[i + 1])) {
            (Some(hi), Some(lo)) => {
                out.push(hi * 16 + lo);
            },
            _ => {
                proof {
                    assert(hex_bytes(next) is None);
                    lemma_hex_prefix(s@, i + 2);
                }
                return None;
            },
        }
        i += 2;
    }
    assert(s@.take(s@.len() as int) =~= s@);
    Some(out)
}

proof fn lemma_hex_odd(s: Seq<u8>)
    requires
        s.len() % 2 != 0,
    ensures
        hex_bytes(s) is None,
    decreases s.len(),
{
    if s.len() > 1 {
        lemma_hex_odd(s.take(s.len() - 2));
    }
}

/// Turns a cell from text into binary form; nothing where the text does not
/// fit its type, or the type has no binary form.
pub fn text_cell_to_binary(cell: &[u8], type_oid: i32, float: Option<u64>) -> (r: Option<Vec<u8>>)
    ensures
        match r {
            Some(v) => binary_of(cell@, type_oid, float) == Some(v@),
            None => binary_of(cell@, type_oid, float) is None,
        },
{
    let mut out: Vec<u8> = Vec::new();
    assert(out@ =~= Seq::<u8>::empty());
    if type_oid == OID_INT8 {
        match decode_i64(cell) {
            Some(n) => {
                put_u64(&mut out, n as u64);
                assert(out@ =~= be::be64(n as u64));
                Some(out)
            },
            None => None,
        }
    } else if type_oid == OID_INT4 {
        match decode_i64(cell) {
            Some(n) => {
                if n < -2147483648 || n > 2147483647 {
                    return None;
                }
                put_int4(&mut out, n as i32);
                assert(out@ =~= int4(n as i32));
                Some(out)
            },
            None => None,
        }
    } else if type_oid == OID_INT2 {
        match decode_i64(cell) {
            Some(n) => {
                if n < -32768 || n > 32767 {
                    return None;
                }
                put_int2(&mut out, n as i16);
                assert(out@ =~= int2(n as i16));
                Some(out)
            },
            None => None,
        }
    } else if type_oid == OID_FLOAT8 {
        match float {
            Some(bits) => {
                put_u64(&mut out, bits);
                assert(out@ =~= be::be64(bits));
                Some(out)
            },
            None => None,
        }
    } else if type_oid == OID_FLOAT4 {
        match float {
            Some(bits) => {
                if bits > 4294967295 {
                    return None;
                }
                put_u32(&mut out, bits as u32);
                assert(out@ =~= be::be32(bits as u32));
                Some(out)
            },
            None => None,
        }
    } else if type_oid == OID_BOOL {
        if cell.len() == 1 && cell[0] == 116 {
            assert(cell@ =~= seq![116u8]);
            out.push(1);
            assert(out@ =~= seq![1u8]);
            Some(out)
        } else if cell.len() == 1 && cell[0] == 102 {
            assert(cell@ =~= seq![102u8]);
            assert(seq![102u8][0] != seq![116u8][0]);
            out.push(0);
            assert(out@ =~= seq![0u8]);
            Some(out)
        } else {
            assert(seq![102u8][0] == 102u8 && seq![116u8][0] == 116u8);
            None
        }
    } else if type_oid == OID_BYTEA {
        if cell.len() >= 2 && cell[0] == 92 && cell[1] == 120 {
            let digits = copy_range(cell, 2, cell.len());
            assert(digits@ =~= cell@.skip(2));
            read_hex(digits.as_slice())
        } else {
            None
        }
    } else if type_oid == OID_TEXT {
        put_bytes(&mut out, cell);
        assert(out@ =~= cell@);
        Some(out)
    } else {
        None
    }
}

/// The cells of a row, as values.
pub open spec fn cell_values(cs: Seq<Option<Vec<u8>>>) -> Seq<Option<Seq<u8>>> {
    codec::param_views(cs)
}

proof fn lemma_cells_are_params(cs: Seq<Option<Vec<u8>>>)
    ensures
        cells_bytes(cs) == codec::params_bytes(cell_values(cs)),
    decreases cs.len(),
{
    if cs.len() > 0 {
        lemma_cells_are_params(cs.drop_last());
        assert(cell_values(cs).drop_last() =~= cell_values(cs.drop_last()));
        assert((((-1int) as i32) as u32) == u32::MAX) by {
            assert((-1i32) as u32 == 0xffff_ffffu32) by (bit_vector);
        }
    }
}

/// A row is read back cell by cell: how many cells it has, and then each, null
/// cells as null.
pub proof fn law_row_is_read_back(cs: Vec<Option<Vec<u8>>>)
    requires
        cs@.len() <= 32767,
        forall|i: int|
            0 <= i < cs@.len() ==> ((#[trigger] cs@[i]) matches Some(v) ==> v@.len() <= i32::MAX),
    ensures
        ({
            let m = BackendMessage::DataRow(cs);
            &&& m.tag() == 68
            &&& codec::short_at(m.body(), 0) == (cs@.len() as i16, 2int)
            &&& codec::params_at(m.body(), 2, cs@.len()) == (
                cell_values(cs@),
                m.body().len() as int,
            )
        }),
{
    let n = be::be16(cs@.len() as u16);
    let c = cells_bytes(cs@);
    let b = BackendMessage::DataRow(cs).body();
    let none = Seq::<u8>::empty();
    let ps = cell_values(cs@);
    lemma_cells_are_params(cs@);
    be::lemma_be16(cs@.len() as u16);
    assert(none + n + c =~= b);
    be::lemma_stands_between(none, n, c);
    assert(cs@.len() as i16 as u16 == cs@.len() as u16);
    codec::lemma_short_stands(b, 0, cs@.len() as i16);
    assert(n + c + none =~= b);
    be::lemma_stands_between(n, c, none);
    assert forall|i: int| 0 <= i < ps.len() implies ((#[trigger] ps[i]) matches Some(v) ==> v.len()
        <= i32::MAX) by {
        assert(cs@[i] matches Some(v) ==> v@.len() <= i32::MAX);
    }
    codec::lemma_params_stand(b, 2, ps);
}

/// The description of a column gives its name, and behind it the table, the place
/// in the table, the type, its size, its modifier and the format.
pub proof fn law_column_is_described_in_order(f: FieldDescription)
    requires
        !encode_utf8(f.name@).contains(0),
    ensures
        ({
            let b = field_bytes(f);
            let n = codec::after_cstr(b, 0);
            &&& codec::cstr_at(b, 0) == f.name@
            &&& n == encode_utf8(f.name@).len() + 1
            &&& be::u32_at(b, n) as i32 == f.table_oid
            &&& be::u16_at(b, n + 4) as i16 == f.col_attr
            &&& be::u32_at(b, n + 6) as i32 == f.type_oid
            &&& be::u16_at(b, n + 10) as i16 == f.type_size
            &&& be::u32_at(b, n + 12) as i32 == f.type_modifier
            &&& be::u16_at(b, n + 16) as i16 == f.format
            &&& b.len() == n + 18
        }),
{
    let b = field_bytes(f);
    let c = cstr(f.name@);
    let n = c.len() as int;
    be::lemma_be32(f.table_oid as u32);
    be::lemma_be16(f.col_attr as u16);
    be::lemma_be32(f.type_oid as u32);
    be::lemma_be16(f.type_size as u16);
    be::lemma_be32(f.type_modifier as u32);
    be::lemma_be16(f.format as u16);
    assert(b.subrange(0, n) =~= c);
    codec::lemma_cstr_stands(b, 0, f.name@);
    assert(b.subrange(n, n + 4) =~= int4(f.table_oid));
    assert(b.subrange(n + 4, n + 6) =~= int2(f.col_attr));
    assert(b.subrange(n + 6, n + 10) =~= int4(f.type_oid));
    assert(b.subrange(n + 10, n + 12) =~= int2(f.type_size));
    assert(b.subrange(n + 12, n + 16) =~= int4(f.type_modifier));
    assert(b.subrange(n + 16, n + 18) =~= int2(f.format));
    codec::lemma_int_bits(f.table_oid);
    codec::lemma_int_bits(f.type_oid);
    codec::lemma_int_bits(f.type_modifier);
    codec::lemma_short_bits(f.col_attr);
    codec::lemma_short_bits(f.type_size);
    codec::lemma_short_bits(f.format);
}

/// The descriptions of columns follow each other in order, behind their number.
pub proof fn law_columns_are_described_one_by_one(fs: Vec<FieldDescription>, f: FieldDescription)
    requires
        fs@.len() <= 32767,
    ensures
        BackendMessage::RowDescription(fs).tag() == 84,
        codec::short_at(BackendMessage::RowDescription(fs).body(), 0).0 == fs@.len(),
        BackendMessage::RowDescription(fs).body().skip(2) == fields_bytes(fs@),
        fields_bytes(fs@.push(f)) == fields_bytes(fs@) + field_bytes(f),
        fields_bytes(Seq::empty()).len() == 0,
{
    let n = be::be16(fs@.len() as u16);
    let b = BackendMessage::RowDescription(fs).body();
    let none = Seq::<u8>::empty();
    be::lemma_be16(fs@.len() as u16);
    assert(none + n + fields_bytes(fs@) =~= b);
    be::lemma_stands_between(none, n, fields_bytes(fs@));
    assert(fs@.len() as i16 as u16 == fs@.len() as u16);
    codec::lemma_short_stands(b, 0, fs@.len() as i16);
    assert(b.skip(2) =~= fields_bytes(fs@));
    assert(fs@.push(f).drop_last() =~= fs@);
}

/// An error is told by its severity, its code and its message, each behind its
/// letter; a zero byte ends them.
pub proof fn law_error_is_told_in_full(e: ErrorInfo)
    requires
        !encode_utf8(e.severity@).contains(0),
        !encode_utf8(e.code@).contains(0),
        !encode_utf8(e.message@).contains(0),
    ensures
        ({
            let m = BackendMessage::ErrorResponse(e);
            let b = m.body();
            let p = codec::after_cstr(b, 1);
            let q = codec::after_cstr(b, p + 1);
            let r = codec::after_cstr(b, q + 1);
            let s = codec::after_cstr(b, r + 1);
            &&& m.tag() == 69
            &&& b[0] == 83 && codec::cstr_at(b, 1) == e.severity@
            &&& b[p] == 86 && codec::cstr_at(b, p + 1) == e.severity@
            &&& b[q] == 67 && codec::cstr_at(b, q + 1) == e.code@
            &&& b[r] == 77 && codec::cstr_at(b, r + 1) == e.message@
            &&& s == b.len() - 1 && b[s] == 0
        }),
{
    let b = BackendMessage::ErrorResponse(e).body();
    let sev = cstr(e.severity@);
    let code = cstr(e.code@);
    let msg = cstr(e.message@);
    let p = 1 + sev.len() as int;
    let q = p + 1 + sev.len();
    let r = q + 1 + code.len();
    let s = r + 1 + msg.len();
    assert(b.subrange(1, 1 + sev.len() as int) =~= sev);
    codec::lemma_cstr_stands(b, 1, e.severity@);
    assert(b.subrange(p + 1, p + 1 + sev.len() as int) =~= sev);
    codec::lemma_cstr_stands(b, p + 1, e.severity@);
    assert(b.subrange(q + 1, q + 1 + code.len() as int) =~= code);
    codec::lemma_cstr_stands(b, q + 1, e.code@);
    assert(b.subrange(r + 1, r + 1 + msg.len() as int) =~= msg);
    codec::lemma_cstr_stands(b, r + 1, e.message@);
}

/// Answers of a text or two give them back, each with a zero byte behind it.
pub proof fn law_texts_of_answers_are_read_back(
    name: String,
    value: String,
    pid: i32,
)
    requires
        !encode_utf8(name@).contains(0),
        !encode_utf8(value@).contains(0),
    ensures
        ({
            let status = BackendMessage::ParameterStatus { name, value };
            let told = BackendMessage::NotificationResponse { pid, channel: name, payload: value };
            let done = BackendMessage::CommandComplete(name);
            let p = codec::after_cstr(status.body(), 0);
            let q = codec::after_cstr(told.body(), 4);
            &&& status.tag() == 83 && codec::cstr_at(status.body(), 0) == name@ && codec::cstr_at(
                status.body(),
                p,
            ) == value@
            &&& told.tag() == 65 && be::u32_at(told.body(), 0) as i32 == pid && codec::cstr_at(
                told.body(),
                4,
            ) == name@ && codec::cstr_at(told.body(), q) == value@
            &&& done.tag() == 67 && codec::cstr_at(done.body(), 0) == name@
        }),
{
    let a = cstr(name@);
    let b = cstr(value@);
    let none = Seq::<u8>::empty();
    let s = a + b;
    assert(none + a + b =~= s);
    be::lemma_stands_between(none, a, b);
    codec::lemma_cstr_stands(s, 0, name@);
    assert(a + b + none =~= s);
    be::lemma_stands_between(a, b, none);
    codec::lemma_cstr_stands(s, a.len() as int, value@);
    assert(none + a + none =~= a);
    be::lemma_stands_between(none, a, none);
    codec::lemma_cstr_stands(a, 0, name@);
    let t = int4(pid) + a + b;
    be::lemma_be32(pid as u32);
    codec::lemma_int_bits(pid);
    assert(t.subrange(0, 4) =~= int4(pid));
    be::lemma_u32_at(t, 0, pid as u32);
    be::lemma_stands_between(int4(pid), a, b);
    codec::lemma_cstr_stands(t, 4, name@);
    assert(int4(pid) + a + b + none =~= t);
    be::lemma_stands_between(int4(pid) + a, b, none);
    codec::lemma_cstr_stands(t, 4 + a.len() as int, value@);
}

/// That the server waits for the next query is told in six bytes, with where the
/// transaction stands; answers without a body are their letter and a length.
pub proof fn law_short_answers_have_their_bytes(s: TransactionStatus)
    ensures
        BackendMessage::ReadyForQuery(s).wire() == seq![
            90u8,
            0,
            0,
            0,
            5,
            match s {
                TransactionStatus::Idle => 73u8,
                TransactionStatus::InTransaction => 84u8,
                TransactionStatus::Failed => 69u8,
            },
        ],
        BackendMessage::AuthenticationOk.wire() == seq![82u8, 0, 0, 0, 8, 0, 0, 0, 0],
        BackendMessage::ParseComplete.wire() == seq![49u8, 0, 0, 0, 4],
        BackendMessage::BindComplete.wire() == seq![50u8, 0, 0, 0, 4],
        BackendMessage::CloseComplete.wire() == seq![51u8, 0, 0, 0, 4],
        BackendMessage::NoData.wire() == seq![110u8, 0, 0, 0, 4],
        BackendMessage::EmptyQueryResponse.wire() == seq![73u8, 0, 0, 0, 4],
        BackendMessage::PortalSuspended.wire() == seq![115u8, 0, 0, 0, 4],
        BackendMessage::CopyDone.wire() == seq![99u8, 0, 0, 0, 4],
{
    reveal(be::be32);
    assert(be::be32(4) =~= seq![0u8, 0, 0, 4]);
    assert(be::be32(5) =~= seq![0u8, 0, 0, 5]);
    assert(be::be32(8) =~= seq![0u8, 0, 0, 8]);
    assert(be::be32(0) =~= seq![0u8, 0, 0, 0]);
    assert(0i32 as u32 == 0u32);
    let a = BackendMessage::ReadyForQuery(s);
    assert(a.body().len() == 1);
    assert(a.wire() =~= seq![90u8, 0, 0, 0, 5, status_byte(s)]);
    let b = BackendMessage::AuthenticationOk;
    assert(b.body().len() == 4);
    assert(b.wire() =~= seq![82u8, 0, 0, 0, 8, 0, 0, 0, 0]);
    assert(BackendMessage::ParseComplete.wire() =~= seq![49u8, 0, 0, 0, 4]);
    assert(BackendMessage::BindComplete.wire() =~= seq![50u8, 0, 0, 0, 4]);
    assert(BackendMessage::CloseComplete.wire() =~= seq![51u8, 0, 0, 0, 4]);
    assert(BackendMessage::NoData.wire() =~= seq![110u8, 0, 0, 0, 4]);
    assert(BackendMessage::EmptyQueryResponse.wire() =~= seq![73u8, 0, 0, 0, 4]);
    assert(BackendMessage::PortalSuspended.wire() =~= seq![115u8, 0, 0, 0, 4]);
    assert(BackendMessage::CopyDone.wire() =~= seq![99u8, 0, 0, 0, 4]);
}

/// A login is carried on and ended with the bytes of the mechanism, and the key to
/// cancel queries with is told by two numbers.
pub proof fn law_login_answers_carry_their_bytes(d: Vec<u8>, pid: i32, secret: i32)
    ensures
        ({
            let next = BackendMessage::AuthenticationSASLContinue(d);
            let last = BackendMessage::AuthenticationSASLFinal(d);
            let key = BackendMessage::BackendKeyData { pid, secret };
            let copy = BackendMessage::CopyData(d);
            &&& next.tag() == 82 && be::u32_at(next.body(), 0) == 11 && next.body().skip(4) == d@
            &&& last.tag() == 82 && be::u32_at(last.body(), 0) == 12 && last.body().skip(4) == d@
            &&& key.tag() == 75 && be::u32_at(key.body(), 0) as i32 == pid && be::u32_at(
                key.body(),
                4,
            ) as i32 == secret && key.body().len() == 8
            &&& copy.tag() == 100 && copy.body() == d@
        }),
{
    let next = BackendMessage::AuthenticationSASLContinue(d).body();
    let last = BackendMessage::AuthenticationSASLFinal(d).body();
    let key = BackendMessage::BackendKeyData { pid, secret }.body();
    assert(11i32 as u32 == 11u32);
    assert(12i32 as u32 == 12u32);
    be::lemma_be32(11);
    be::lemma_be32(12);
    be::lemma_be32(pid as u32);
    be::lemma_be32(secret as u32);
    codec::lemma_int_bits(pid);
    codec::lemma_int_bits(secret);
    assert(next.subrange(0, 4) =~= be::be32(11));
    assert(next.skip(4) =~= d@);
    assert(last.subrange(0, 4) =~= be::be32(12));
    assert(last.skip(4) =~= d@);
    assert(key.subrange(0, 4) =~= int4(pid));
    assert(key.subrange(4, 8) =~= int4(secret));
}

/// A number in text is sent in binary form as itself, where the type can hold it.
pub proof fn law_number_is_sent_as_itself(n: i64)
    ensures
        ({
            let cell = encode_utf8(text::signed(n as int));
            &&& binary_of(cell, 20, None) matches Some(b) && b.len() == 8 && be::u64_at(b, 0) as i64
                == n
            &&& i32::MIN <= n <= i32::MAX ==> (binary_of(cell, 23, None) matches Some(b) && b.len()
                == 4 && be::u32_at(b, 0) as i32 == n)
            &&& !(i32::MIN <= n <= i32::MAX) ==> binary_of(cell, 23, None) is None
            &&& i16::MIN <= n <= i16::MAX ==> (binary_of(cell, 21, None) matches Some(b) && b.len()
                == 2 && be::u16_at(b, 0) as i16 == n)
            &&& !(i16::MIN <= n <= i16::MAX) ==> binary_of(cell, 21, None) is None
        }),
{
    rows::law_number_is_read_back(n);
    be::lemma_be64(n as u64);
    be::lemma_signed_bits(n);
    assert(be::be64(n as u64).subrange(0, 8) =~= be::be64(n as u64));
    if i32::MIN <= n <= i32::MAX {
        be::lemma_be32((n as i32) as u32);
        codec::lemma_int_bits(n as i32);
        assert(int4(n as i32).subrange(0, 4) =~= int4(n as i32));
    }
    if i16::MIN <= n <= i16::MAX {
        be::lemma_be16((n as i16) as u16);
        codec::lemma_short_bits(n as i16);
        assert(int2(n as i16).subrange(0, 2) =~= int2(n as i16));
    }
}

/// The small hexadecimal digit of a number.
pub open spec fn hex_letter(d: int) -> u8 {
    if d < 10 {
        (48 + d) as u8
    } else {
        (87 + d) as u8
    }
}

/// Bytes in hexadecimal digits, two for each.
pub open spec fn hex_text(v: Seq<u8>) -> Seq<u8>
    decreases v.len(),
{
    if v.len() == 0 {
        Seq::empty()
    } else {
        hex_text(v.drop_last()).push(hex_letter(v.last() as int / 16)).push(
            hex_letter(v.last() as int % 16),
        )
    }
}

proof fn lemma_hex_text(v: Seq<u8>)
    ensures
        hex_bytes(hex_text(v)) == Some(v),
        hex_text(v).len() == 2 * v.len(),
    decreases v.len(),
{
    if v.len() == 0 {
        assert(v =~= Seq::<u8>::empty());
    } else {
        let s = hex_text(v);
        lemma_hex_text(v.drop_last());
        assert(s.take(s.len() - 2) =~= hex_text(v.drop_last()));
        let hi = v.last() as int / 16;
        let lo = v.last() as int % 16;
        assert(hex_value(hex_letter(hi)) == Some(hi as u8));
        assert(hex_value(hex_letter(lo)) == Some(lo as u8));
        assert((hi * 16 + lo) as u8 == v.last());
        assert(v.drop_last().push(v.last()) =~= v);
    }
}

/// Bytes in text, truth values and texts are sent in binary form as what they
/// stand for.
pub proof fn law_bytes_and_truth_are_sent_as_themselves(v: Seq<u8>)
    ensures
        binary_of(seq![92u8, 120u8] + hex_text(v), 17, None) == Some(v),
        binary_of(seq![116u8], 16, None) == Some(seq![1u8]),
        binary_of(seq![102u8], 16, None) == Some(seq![0u8]),
        binary_of(v, 25, None) == Some(v),
        v.len() > 1 ==> binary_of(v, 16, None) is None,
{
    lemma_hex_text(v);
    let s = seq![92u8, 120u8] + hex_text(v);
    assert(s.skip(2) =~= hex_text(v));
    let t = seq![116u8];
    let f = seq![102u8];
    assert(t[0] != f[0]);
}

} // verus!
