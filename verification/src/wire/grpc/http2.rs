//! HTTP/2 frames, as far as the service needs them.

use vstd::prelude::*;
use vstd::string::*;

use crate::be;
use crate::be::{copy_range, get_u16, get_u32, put_bytes, put_u16, put_u32, same_bytes};

verus! {

/// The bytes with which a client opens a connection.
pub open spec fn preface() -> Seq<u8> {
    seq![
        80, 82, 73, 32, 42, 32, 72, 84, 84, 80, 47, 50, 46, 48, 13, 10, 13, 10, 83, 77, 13, 10, 13, 10
    ]
}

pub const FRAME_DATA: u8 = 0x0;

pub const FRAME_HEADERS: u8 = 0x1;

pub const FRAME_PRIORITY: u8 = 0x2;

pub const FRAME_RST_STREAM: u8 = 0x3;

pub const FRAME_SETTINGS: u8 = 0x4;

pub const FRAME_PUSH_PROMISE: u8 = 0x5;

pub const FRAME_PING: u8 = 0x6;

pub const FRAME_GOAWAY: u8 = 0x7;

pub const FRAME_WINDOW_UPDATE: u8 = 0x8;

pub const FRAME_CONTINUATION: u8 = 0x9;

pub const FLAG_END_STREAM: u8 = 0x1;

/// On SETTINGS and PING: the same bit as [`FLAG_END_STREAM`].
pub const FLAG_ACK: u8 = 0x1;

pub const FLAG_END_HEADERS: u8 = 0x4;

pub const FLAG_PADDED: u8 = 0x8;

pub const FLAG_PRIORITY: u8 = 0x20;

pub const SETTINGS_INITIAL_WINDOW_SIZE: u16 = 0x4;

pub const ERR_NO_ERROR: u32 = 0x0;

pub const ERR_PROTOCOL_ERROR: u32 = 0x1;

pub const ERR_FLOW_CONTROL_ERROR: u32 = 0x3;

/// Why bytes are no frame, or a frame is none of its kind.
#[derive(Debug, Clone, Copy, PartialEq, Eq, Structural)]
pub enum Http2Error {
    /// The payload ends early.
    UnexpectedEof,
    /// The payload's length does not fit in 24 bits.
    FrameTooLarge,
    /// The connection does not open with the preface.
    InvalidPreface,
    /// A SETTINGS payload is no sequence of six-byte entries.
    SettingsLength,
    /// A padded HEADERS frame has no pad length.
    HeadersPadMissing,
    /// The priority field of a HEADERS frame is cut off.
    HeadersPriorityTruncated,
    /// The padding of a HEADERS frame is longer than its payload.
    HeadersPadding,
    /// A padded DATA frame has no pad length.
    DataPadMissing,
    /// The padding of a DATA frame is longer than its payload.
    DataPadding,
}

impl Http2Error {
    /// What is wrong, in words.
    pub open spec fn text(&self) -> Seq<char> {
        match self {
            Http2Error::UnexpectedEof => "unexpected end of file"@,
            Http2Error::FrameTooLarge => "http2: frame payload exceeds 24-bit length"@,
            Http2Error::InvalidPreface => "http2: invalid connection preface"@,
            Http2Error::SettingsLength => "http2: SETTINGS payload not a multiple of 6"@,
            Http2Error::HeadersPadMissing => "http2: padded HEADERS missing pad length"@,
            Http2Error::HeadersPriorityTruncated => "http2: HEADERS priority field truncated"@,
            Http2Error::HeadersPadding => "http2: HEADERS padding exceeds payload"@,
            Http2Error::DataPadMissing => "http2: padded DATA missing pad length"@,
            Http2Error::DataPadding => "http2: DATA padding exceeds payload"@,
        }
    }

    /// What is wrong, in words.
    pub fn message(&self) -> (m: String)
        ensures
            m@ == self.text(),
    {
        match self {
            Http2Error::UnexpectedEof => "unexpected end of file".to_owned(),
            Http2Error::FrameTooLarge => "http2: frame payload exceeds 24-bit length".to_owned(),
            Http2Error::InvalidPreface => "http2: invalid connection preface".to_owned(),
            Http2Error::SettingsLength => "http2: SETTINGS payload not a multiple of 6".to_owned(),
            Http2Error::HeadersPadMissing => "http2: padded HEADERS missing pad length".to_owned(),
            Http2Error::HeadersPriorityTruncated => "http2: HEADERS priority field truncated".to_owned(),
            Http2Error::HeadersPadding => "http2: HEADERS padding exceeds payload".to_owned(),
            Http2Error::DataPadMissing => "http2: padded DATA missing pad length".to_owned(),
            Http2Error::DataPadding => "http2: DATA padding exceeds payload".to_owned(),
        }
    }
}

/// A frame: the fields of its header and its raw payload.
#[derive(Debug, Clone)]
pub struct Frame {
    pub frame_type: u8,
    pub flags: u8,
    pub stream_id: u32,
    pub payload: Vec<u8>,
}

/// Whether `flags` holds `flag`.
pub open spec fn has_flag(flags: u8, flag: u8) -> bool {
    flags & flag != 0
}

impl Frame {
    /// Whether a flag is set.
    pub fn flag(&self, flag: u8) -> (r: bool)
        ensures
            r == has_flag(self.flags, flag),
    {
        self.flags & flag != 0
    }
}

/// The length that the first three bytes of a frame announce.
pub open spec fn payload_len(s: Seq<u8>) -> int {
    s[0] * 65536 + s[1] * 256 + s[2]
}

/// The bytes of a frame.
pub open spec fn frame_bytes(frame_type: u8, flags: u8, stream_id: u32, payload: Seq<u8>) -> Seq<
    u8,
> {
    seq![
        (payload.len() / 65536) as u8,
        ((payload.len() / 256) % 256) as u8,
        (payload.len() % 256) as u8,
        frame_type,
        flags,
    ] + (be::be32(stream_id & 0x7fff_ffff) + payload)
}

/// Reads the frame at the start of `data`, which is all that is left of the
/// connection, and the number of bytes it takes. `Ok(None)` says that no whole
/// frame header is left. The top bit of the stream id is reserved and dropped.
pub fn read_frame(data: &[u8]) -> (r: Result<Option<(Frame, usize)>, Http2Error>)
    ensures
        match r {
            Ok(None) => data@.len() < 9,
            Ok(Some((f, n))) => {
                &&& 9 <= data@.len()
                &&& n == 9 + payload_len(data@)
                &&& n <= data@.len()
                &&& f.frame_type == data@[3]
                &&& f.flags == data@[4]
                &&& f.stream_id == be::u32_at(data@, 5) & 0x7fff_ffff
                &&& f.payload@ == data@.subrange(9, n as int)
            },
            Err(e) => 9 <= data@.len() && data@.len() < 9 + payload_len(data@) && e
                == Http2Error::UnexpectedEof,
        },
{
    if data.len() < 9 {
        return Ok(None);
    }
    let len: usize = (data[0] as usize) * 65536 + (data[1] as usize) * 256 + data[2] as usize;
    if data.len() - 9 < len {
        return Err(Http2Error::UnexpectedEof);
    }
    let frame = Frame {
        frame_type: data[3],
        flags: data[4],
        stream_id: get_u32(data, 5) & 0x7fff_ffff,
        payload: copy_range(data, 9, 9 + len),
    };
    Ok(Some((frame, 9 + len)))
}

/// The number of payload bytes that a frame header announces.
pub fn announced_len(header: &[u8]) -> (n: usize)
    requires
        header@.len() >= 3,
    ensures
        n == payload_len(header@),
{
    (header[0] as usize) * 65536 + (header[1] as usize) * 256 + header[2] as usize
}

/// Appends a frame.
pub fn write_frame(
    out: &mut Vec<u8>,
    frame_type: u8,
    flags: u8,
    stream_id: u32,
    payload: &[u8],
) -> (r: Result<(), Http2Error>)
    ensures
        match r {
            Ok(_) => payload@.len() <= 0xff_ffff && final(out)@ == old(out)@ + frame_bytes(
                frame_type,
                flags,
                stream_id,
                payload@,
            ),
            Err(e) => payload@.len() > 0xff_ffff && e == Http2Error::FrameTooLarge && final(out)@
                == old(out)@,
        },
{
    let len: usize = payload.len();
    if len > 0xff_ffff {
        return Err(Http2Error::FrameTooLarge);
    }
    out.push((len / 65536) as u8);
    out.push(((len / 256) % 256) as u8);
    out.push((len % 256) as u8);
    out.push(frame_type);
    out.push(flags);
    put_u32(out, stream_id & 0x7fff_ffff);
    put_bytes(out, payload);
    proof {
        assert(out@ =~= old(out)@ + frame_bytes(frame_type, flags, stream_id, payload@));
    }
    Ok(())
}

/// Checks the first 24 bytes of a connection.
pub fn read_preface(data: &[u8]) -> (r: Result<(), Http2Error>)
    ensures
        match r {
            Ok(_) => data@.len() >= 24 && data@.take(24) == preface(),
            Err(Http2Error::UnexpectedEof) => data@.len() < 24,
            Err(e) => e == Http2Error::InvalidPreface && data@.len() >= 24 && data@.take(24)
                != preface(),
        },
{
    if data.len() < 24 {
        return Err(Http2Error::UnexpectedEof);
    }
    let wanted: [u8; 24] = [
        80, 82, 73, 32, 42, 32, 72, 84, 84, 80, 47, 50, 46, 48, 13, 10, 13, 10, 83, 77, 13, 10, 13, 10
    ];
    let first = vstd::slice::slice_subrange(data, 0, 24);
    proof {
        assert(first@ =~= data@.take(24));
        assert(wanted@ =~= preface());
    }
    if same_bytes(first, wanted.as_slice()) {
        Ok(())
    } else {
        Err(Http2Error::InvalidPreface)
    }
}

/// The bytes of SETTINGS entries.
pub open spec fn settings_bytes(entries: Seq<(u16, u32)>) -> Seq<u8>
    decreases entries.len(),
{
    if entries.len() == 0 {
        Seq::empty()
    } else {
        settings_bytes(entries.drop_last()) + (be::be16(entries.last().0) + be::be32(
            entries.last().1,
        ))
    }
}

/// The entry that starts at byte `6 * i`.
pub open spec fn setting_at(payload: Seq<u8>, i: int) -> (u16, u32) {
    (be::u16_at(payload, 6 * i), be::u32_at(payload, 6 * i + 2))
}

/// Parses a SETTINGS payload into its entries.
pub fn parse_settings(payload: &[u8]) -> (r: Result<Vec<(u16, u32)>, Http2Error>)
    ensures
        match r {
            Ok(entries) => {
                &&& payload@.len() == 6 * entries@.len()
                &&& forall|i: int|
                    0 <= i < entries@.len() ==> #[trigger] entries@[i] == setting_at(payload@, i)
            },
            Err(e) => payload@.len() % 6 != 0 && e == Http2Error::SettingsLength,
        },
{
    if payload.len() % 6 != 0 {
        return Err(Http2Error::SettingsLength);
    }
    let count: usize = payload.len() / 6;
    let mut out: Vec<(u16, u32)> = Vec::new();
    let mut i: usize = 0;
    while i < count
        invariant
            i <= count,
            payload@.len() == 6 * count,
            out@.len() == i,
            forall|k: int| 0 <= k < i ==> #[trigger] out@[k] == setting_at(payload@, k),
        decreases count - i,
    {
        assert(payload.len() == payload@.len());
        let at: usize = 6 * i;
        out.push((get_u16(payload, at), get_u32(payload, at + 2)));
        i += 1;
    }
    Ok(out)
}

/// Encodes SETTINGS entries.
pub fn encode_settings(entries: &[(u16, u32)]) -> (out: Vec<u8>)
    ensures
        out@ == settings_bytes(entries@),
{
    let mut out: Vec<u8> = Vec::new();
    let mut i: usize = 0;
    assert(entries@.take(0) =~= Seq::empty());
    while i < entries.len()
        invariant
            i <= entries@.len(),
            out@ == settings_bytes(entries@.take(i as int)),
        decreases entries@.len() - i,
    {
        put_u16(&mut out, entries[i].0);
        put_u32(&mut out, entries[i].1);
        proof {
            assert(entries@.take(i + 1).drop_last() =~= entries@.take(i as int));
            assert(out@ =~= settings_bytes(entries@.take(i + 1)));
        }
        i += 1;
    }
    assert(entries@.take(i as int) =~= entries@);
    out
}

/// The part of a HEADERS payload from `start` on.
pub open spec fn headers_start(flags: u8) -> int {
    (if has_flag(flags, FLAG_PADDED) {
        1int
    } else {
        0
    }) + (if has_flag(flags, FLAG_PRIORITY) {
        5int
    } else {
        0
    })
}

/// The number of padding bytes of a payload.
pub open spec fn pad_len(flags: u8, payload: Seq<u8>) -> int {
    if has_flag(flags, FLAG_PADDED) {
        payload[0] as int
    } else {
        0
    }
}

/// What is left of a HEADERS payload without pad length, priority field and
/// padding.
pub open spec fn headers_fragment(flags: u8, payload: Seq<u8>) -> Result<Seq<u8>, Http2Error> {
    let start = headers_start(flags);
    if has_flag(flags, FLAG_PADDED) && payload.len() == 0 {
        Err(Http2Error::HeadersPadMissing)
    } else if has_flag(flags, FLAG_PRIORITY) && payload.len() < start {
        Err(Http2Error::HeadersPriorityTruncated)
    } else if payload.len() - start < pad_len(flags, payload) {
        Err(Http2Error::HeadersPadding)
    } else {
        Ok(payload.subrange(start, payload.len() - pad_len(flags, payload)))
    }
}

/// What is left of a DATA payload without pad length and padding.
pub open spec fn data_fragment(flags: u8, payload: Seq<u8>) -> Result<Seq<u8>, Http2Error> {
    if !has_flag(flags, FLAG_PADDED) {
        Ok(payload)
    } else if payload.len() == 0 {
        Err(Http2Error::DataPadMissing)
    } else if payload.len() - 1 < payload[0] {
        Err(Http2Error::DataPadding)
    } else {
        Ok(payload.subrange(1, payload.len() - payload[0]))
    }
}

/// Strips padding and priority from a HEADERS frame.
pub fn headers_block_fragment(frame: &Frame) -> (r: Result<Vec<u8>, Http2Error>)
    ensures
        match r {
            Ok(v) => headers_fragment(frame.flags, frame.payload@) == Ok::<Seq<u8>, Http2Error>(
                v@,
            ),
            Err(e) => headers_fragment(frame.flags, frame.payload@) == Err::<
                Seq<u8>,
                Http2Error,
            >(e),
        },
{
    let len: usize = frame.payload.len();
    let mut start: usize = 0;
    let mut pad: usize = 0;
    if frame.flag(FLAG_PADDED) {
        if len == 0 {
            return Err(Http2Error::HeadersPadMissing);
        }
        pad = frame.payload[0] as usize;
        start = 1;
    }
    if frame.flag(FLAG_PRIORITY) {
        if len - start < 5 {
            return Err(Http2Error::HeadersPriorityTruncated);
        }
        start = start + 5;
    }
    if len - start < pad {
        return Err(Http2Error::HeadersPadding);
    }
    Ok(copy_range(frame.payload.as_slice(), start, len - pad))
}

/// Strips padding from a DATA frame.
pub fn data_payload(frame: &Frame) -> (r: Result<Vec<u8>, Http2Error>)
    ensures
        match r {
            Ok(v) => data_fragment(frame.flags, frame.payload@) == Ok::<Seq<u8>, Http2Error>(v@),
            Err(e) => data_fragment(frame.flags, frame.payload@) == Err::<Seq<u8>, Http2Error>(e),
        },
{
    let len: usize = frame.payload.len();
    if !frame.flag(FLAG_PADDED) {
        let all = copy_range(frame.payload.as_slice(), 0, len);
        assert(all@ =~= frame.payload@);
        return Ok(all);
    }
    if len == 0 {
        return Err(Http2Error::DataPadMissing);
    }
    let pad: usize = frame.payload[0] as usize;
    if len - 1 < pad {
        return Err(Http2Error::DataPadding);
    }
    Ok(copy_range(frame.payload.as_slice(), 1, len - pad))
}

/// A frame that was written is read back; its stream id loses the reserved bit.
pub proof fn law_frame_round_trips(
    frame_type: u8,
    flags: u8,
    stream_id: u32,
    payload: Seq<u8>,
    rest: Seq<u8>,
)
    requires
        payload.len() <= 0xff_ffff,
    ensures
        ({
            let s = frame_bytes(frame_type, flags, stream_id, payload) + rest;
            &&& payload_len(s) == payload.len()
            &&& s[3] == frame_type
            &&& s[4] == flags
            &&& be::u32_at(s, 5) & 0x7fff_ffff == stream_id & 0x7fff_ffff
            &&& s.subrange(9, 9 + payload_len(s)) == payload
        }),
{
    let s = frame_bytes(frame_type, flags, stream_id, payload) + rest;
    let id = stream_id & 0x7fff_ffff;
    be::lemma_be32(id);
    assert(s.subrange(5, 9) =~= be::be32(id));
    assert((stream_id & 0x7fff_ffff) & 0x7fff_ffff == stream_id & 0x7fff_ffff) by (bit_vector);
    assert(s.subrange(9, 9 + payload.len() as int) =~= payload);
}

proof fn lemma_settings_len(entries: Seq<(u16, u32)>)
    ensures
        settings_bytes(entries).len() == 6 * entries.len(),
    decreases entries.len(),
{
    if entries.len() > 0 {
        be::lemma_be16(entries.last().0);
        be::lemma_be32(entries.last().1);
        lemma_settings_len(entries.drop_last());
    }
}

/// SETTINGS entries that were encoded are parsed back.
pub proof fn law_settings_round_trip(entries: Seq<(u16, u32)>)
    ensures
        settings_bytes(entries).len() == 6 * entries.len(),
        forall|i: int|
            0 <= i < entries.len() ==> setting_at(settings_bytes(entries), i)
                == #[trigger] entries[i],
    decreases entries.len(),
{
    lemma_settings_len(entries);
    if entries.len() > 0 {
        let rest = entries.drop_last();
        let last = entries.last();
        let s = settings_bytes(entries);
        let head = settings_bytes(rest);
        be::lemma_be16(last.0);
        be::lemma_be32(last.1);
        law_settings_round_trip(rest);
        assert forall|i: int| 0 <= i < entries.len() implies setting_at(s, i)
            == #[trigger] entries[i] by {
            if i < rest.len() {
                assert(rest[i] == entries[i]);
                assert(s.subrange(6 * i, 6 * i + 2) =~= head.subrange(6 * i, 6 * i + 2));
                assert(s.subrange(6 * i + 2, 6 * i + 6) =~= head.subrange(6 * i + 2, 6 * i + 6));
            } else {
                assert(s.subrange(6 * i, 6 * i + 2) =~= be::be16(last.0));
                assert(s.subrange(6 * i + 2, 6 * i + 6) =~= be::be32(last.1));
            }
        }
    }
}

/// The data of a frame are its payload, or what stands between the length of its
/// padding and the padding.
pub proof fn law_padding_is_taken_off(flags: u8, data: Seq<u8>, pad: Seq<u8>)
    requires
        pad.len() <= 255,
    ensures
        flags & 8 == 0 ==> data_fragment(flags, data) == Ok::<Seq<u8>, Http2Error>(data),
        flags & 8 != 0 ==> data_fragment(flags, seq![pad.len() as u8] + data + pad) == Ok::<
            Seq<u8>,
            Http2Error,
        >(data),
        flags & 8 != 0 ==> data_fragment(flags, Seq::empty()) is Err,
        flags & 8 != 0 && data.len() < 255 ==> data_fragment(
            flags,
            seq![(data.len() + 1) as u8] + data,
        ) is Err,
{
    let padded = seq![pad.len() as u8] + data + pad;
    assert(padded.subrange(1, padded.len() - pad.len()) =~= data);
}

/// The header block of a frame is its payload without the length of the padding,
/// the five bytes of the priority and the padding, as far as they are there.
pub proof fn law_priority_and_padding_are_taken_off(
    flags: u8,
    priority: Seq<u8>,
    block: Seq<u8>,
    pad: Seq<u8>,
)
    requires
        pad.len() <= 255,
        priority.len() == 5,
    ensures
        headers_fragment(
            flags,
            (if flags & 8 != 0 {
                seq![pad.len() as u8]
            } else {
                Seq::empty()
            }) + (if flags & 32 != 0 {
                priority
            } else {
                Seq::empty()
            }) + block + (if flags & 8 != 0 {
                pad
            } else {
                Seq::empty()
            }),
        ) == Ok::<Seq<u8>, Http2Error>(block),
{
    let a: Seq<u8> = if flags & 8 != 0 {
        seq![pad.len() as u8]
    } else {
        Seq::empty()
    };
    let b: Seq<u8> = if flags & 32 != 0 {
        priority
    } else {
        Seq::empty()
    };
    let c: Seq<u8> = if flags & 8 != 0 {
        pad
    } else {
        Seq::empty()
    };
    let payload = a + b + block + c;
    let start = headers_start(flags);
    assert(start == a.len() + b.len());
    assert(payload.subrange(start, payload.len() - pad_len(flags, payload)) =~= block);
}

/// A frame begins with the length of its payload in three bytes, its type, its flags
/// and the number of its stream in four; the payload follows. A setting is a number
/// in two bytes and a value in four.
pub proof fn law_bytes_of_a_frame_have_their_places(
    frame_type: u8,
    flags: u8,
    stream_id: u32,
    payload: Seq<u8>,
    entries: Seq<(u16, u32)>,
    i: int,
)
    requires
        payload.len() <= 0xff_ffff,
        stream_id <= 0x7fff_ffff,
        0 <= i < entries.len(),
    ensures
        ({
            let s = frame_bytes(frame_type, flags, stream_id, payload);
            &&& s.len() == 9 + payload.len()
            &&& s[0] * 65536 + s[1] * 256 + s[2] == payload.len()
            &&& s[3] == frame_type
            &&& s[4] == flags
            &&& be::u32_at(s, 5) == stream_id
            &&& s.skip(9) == payload
        }),
        be::u16_at(settings_bytes(entries), 6 * i) == entries[i].0,
        be::u32_at(settings_bytes(entries), 6 * i + 2) == entries[i].1,
{
    let s = frame_bytes(frame_type, flags, stream_id, payload);
    assert(stream_id & 0x7fff_ffff == stream_id) by (bit_vector)
        requires
            stream_id <= 0x7fff_ffff,
    ;
    be::lemma_be32(stream_id);
    assert(s.subrange(5, 9) =~= be::be32(stream_id));
    be::lemma_u32_at(s, 5, stream_id);
    assert(s.skip(9) =~= payload);
    law_settings_round_trip(entries);
    assert(setting_at(settings_bytes(entries), i) == entries[i]);
}

} // verus!
