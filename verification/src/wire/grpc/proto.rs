//! The protobuf messages of the service.
//!
//! A message is a sequence of fields: a key (field number and wire type as a
//! varint) and a value. Varints and length-delimited values are read, fixed
//! values and groups are skipped. Scalars that are zero and byte strings that
//! are empty are not written. Of a field that occurs more than once the last
//! occurrence counts.

use vstd::prelude::*;
use vstd::string::*;
use vstd::utf8::*;

use crate::be::{copy_range, put_bytes};
use crate::text;
use crate::text::{decimal_text, text_lossy};

verus! {

/// How the value of a field is laid out.
#[derive(Debug, Clone, Copy, PartialEq, Eq, Structural)]
pub enum WireType {
    Varint,
    Len,
    Fixed64,
    Fixed32,
    StartGroup,
    EndGroup,
}

/// Why bytes are no message.
#[derive(Debug, Clone, Copy, PartialEq, Eq, Structural)]
pub enum ProtoError {
    TruncatedVarint,
    VarintTooLong,
    LengthExceedsBuffer,
    TruncatedFixed64,
    TruncatedFixed32,
    UnmatchedGroup,
    UnsupportedWireType { wire: u64 },
}

impl ProtoError {
    /// What is wrong, in words.
    pub open spec fn text(&self) -> Seq<char> {
        match self {
            ProtoError::TruncatedVarint => "protobuf: truncated varint"@,
            ProtoError::VarintTooLong => "protobuf: varint too long"@,
            ProtoError::LengthExceedsBuffer => "protobuf: length-delimited field exceeds buffer"@,
            ProtoError::TruncatedFixed64 => "protobuf: truncated fixed64"@,
            ProtoError::TruncatedFixed32 => "protobuf: truncated fixed32"@,
            ProtoError::UnmatchedGroup => "protobuf: unmatched end of a group"@,
            ProtoError::UnsupportedWireType { wire } => "unsupported protobuf wire type "@
                + text::decimal(*wire as nat),
        }
    }

    /// What is wrong, in words.
    pub fn message(&self) -> (m: String)
        ensures
            m@ == self.text(),
    {
        match self {
            ProtoError::TruncatedVarint => "protobuf: truncated varint".to_owned(),
            ProtoError::VarintTooLong => "protobuf: varint too long".to_owned(),
            ProtoError::LengthExceedsBuffer =>
                "protobuf: length-delimited field exceeds buffer".to_owned(),
            ProtoError::TruncatedFixed64 => "protobuf: truncated fixed64".to_owned(),
            ProtoError::TruncatedFixed32 => "protobuf: truncated fixed32".to_owned(),
            ProtoError::UnmatchedGroup => "protobuf: unmatched end of a group".to_owned(),
            ProtoError::UnsupportedWireType { wire } => {
                let mut m = "unsupported protobuf wire type ".to_owned();
                m.append(decimal_text(*wire).as_str());
                m
            },
        }
    }
}

/// The wire type that a number stands for.
pub open spec fn wire_type_of(v: u64) -> Result<WireType, ProtoError> {
    if v == 0 {
        Ok(WireType::Varint)
    } else if v == 1 {
        Ok(WireType::Fixed64)
    } else if v == 2 {
        Ok(WireType::Len)
    } else if v == 3 {
        Ok(WireType::StartGroup)
    } else if v == 4 {
        Ok(WireType::EndGroup)
    } else if v == 5 {
        Ok(WireType::Fixed32)
    } else {
        Err(ProtoError::UnsupportedWireType { wire: v })
    }
}

impl WireType {
    /// The wire type of a number.
    pub fn from_u64(v: u64) -> (r: Result<WireType, ProtoError>)
        ensures
            r == wire_type_of(v),
    {
        match v {
            0 => Ok(WireType::Varint),
            1 => Ok(WireType::Fixed64),
            2 => Ok(WireType::Len),
            3 => Ok(WireType::StartGroup),
            4 => Ok(WireType::EndGroup),
            5 => Ok(WireType::Fixed32),
            other => Err(ProtoError::UnsupportedWireType { wire: other }),
        }
    }
}

/// The bytes of a varint: seven bits each, the lowest first, the top bit set
/// on all but the last.
pub open spec fn varint(v: u64) -> Seq<u8>
    decreases v,
{
    if v < 128 {
        seq![v as u8]
    } else {
        seq![(v % 128 + 128) as u8] + varint(v / 128)
    }
}

/// The key of a field.
pub open spec fn tag(field: u32, wire: u64) -> Seq<u8> {
    varint((field * 8 + wire) as u64)
}

/// A varint field: nothing if the value is zero.
pub open spec fn varint_field(field: u32, v: u64) -> Seq<u8> {
    if v == 0 {
        Seq::empty()
    } else {
        tag(field, 0) + varint(v)
    }
}

/// A length-delimited field: nothing if the value is empty.
pub open spec fn len_field(field: u32, data: Seq<u8>) -> Seq<u8> {
    if data.len() == 0 {
        Seq::empty()
    } else {
        element(field, data)
    }
}

/// An element of a repeated length-delimited field: written though it is empty.
pub open spec fn element(field: u32, data: Seq<u8>) -> Seq<u8> {
    tag(field, 2) + (varint(data.len() as u64) + data)
}

/// What a varint read from `s` gives, with `acc` read already and `shift`
/// bits of it: the number and what follows it.
pub open spec fn varint_of(s: Seq<u8>, shift: u32, acc: u64) -> Result<(u64, Seq<u8>), ProtoError>
    decreases s.len(),
{
    if s.len() == 0 {
        Err(ProtoError::TruncatedVarint)
    } else if shift >= 64 {
        Err(ProtoError::VarintTooLong)
    } else {
        let next = acc | (((s[0] & 0x7f) as u64) << (shift as u64));
        if s[0] & 0x80 == 0 {
            Ok((next, s.skip(1)))
        } else {
            varint_of(s.skip(1), (shift + 7) as u32, next)
        }
    }
}

/// The length-delimited value at the start of `s` and what follows it.
pub open spec fn len_of(s: Seq<u8>) -> Result<(Seq<u8>, Seq<u8>), ProtoError> {
    match varint_of(s, 0, 0) {
        Err(e) => Err(e),
        Ok((n, rest)) => if n > rest.len() {
            Err(ProtoError::LengthExceedsBuffer)
        } else {
            Ok((rest.take(n as int), rest.skip(n as int)))
        },
    }
}

/// The key at the start of `s` and what follows it.
pub open spec fn tag_of(s: Seq<u8>) -> Result<(u32, WireType, Seq<u8>), ProtoError> {
    match varint_of(s, 0, 0) {
        Err(e) => Err(e),
        Ok((key, rest)) => match wire_type_of(key & 0x7) {
            Err(e) => Err(e),
            Ok(wire) => Ok(((key >> 3) as u32, wire, rest)),
        },
    }
}

/// The value of a field. Fixed values and groups are skipped.
pub enum FieldValue {
    Varint(u64),
    Len(Seq<u8>),
    Skipped,
}

/// The value of a field that is no group, at the start of `s`, and what
/// follows it.
pub open spec fn plain_of(s: Seq<u8>, wire: WireType) -> Result<(FieldValue, Seq<u8>), ProtoError> {
    match wire {
        WireType::Varint => match varint_of(s, 0, 0) {
            Err(e) => Err(e),
            Ok((v, rest)) => Ok((FieldValue::Varint(v), rest)),
        },
        WireType::Len => match len_of(s) {
            Err(e) => Err(e),
            Ok((data, rest)) => Ok((FieldValue::Len(data), rest)),
        },
        WireType::Fixed64 => if s.len() < 8 {
            Err(ProtoError::TruncatedFixed64)
        } else {
            Ok((FieldValue::Skipped, s.skip(8)))
        },
        WireType::Fixed32 => if s.len() < 4 {
            Err(ProtoError::TruncatedFixed32)
        } else {
            Ok((FieldValue::Skipped, s.skip(4)))
        },
        WireType::StartGroup => Err(ProtoError::UnmatchedGroup),
        WireType::EndGroup => Err(ProtoError::UnmatchedGroup),
    }
}

/// What follows the group whose fields start with `s`, with `inner` more groups
/// open inside it: fields are passed over until the end of each was met.
pub open spec fn after_group(s: Seq<u8>, inner: nat) -> Result<Seq<u8>, ProtoError>
    decreases s.len(),
{
    match tag_of(s) {
        Err(e) => Err(e),
        Ok((_, wire, rest)) => {
            proof {
                lemma_tag_shrinks(s);
                lemma_plain_shrinks(rest, wire);
            }
            match wire {
                WireType::StartGroup => after_group(rest, inner + 1),
                WireType::EndGroup => if inner == 0 {
                    Ok(rest)
                } else {
                    after_group(rest, (inner - 1) as nat)
                },
                _ => match plain_of(rest, wire) {
                    Err(e) => Err(e),
                    Ok((_, tail)) => after_group(tail, inner),
                },
            }
        },
    }
}

/// The value of the given wire type at the start of `s` and what follows it.
pub open spec fn value_of(s: Seq<u8>, wire: WireType) -> Result<(FieldValue, Seq<u8>), ProtoError> {
    match wire {
        WireType::StartGroup => match after_group(s, 0) {
            Err(e) => Err(e),
            Ok(rest) => Ok((FieldValue::Skipped, rest)),
        },
        _ => plain_of(s, wire),
    }
}

/// The fields of a message, in order, or the first error on the way.
pub open spec fn fields_of(s: Seq<u8>) -> Result<Seq<(u32, FieldValue)>, ProtoError>
    decreases s.len(),
{
    if s.len() == 0 {
        Ok(Seq::empty())
    } else {
        match tag_of(s) {
            Err(e) => Err(e),
            Ok((field, wire, rest)) => match value_of(rest, wire) {
                Err(e) => Err(e),
                Ok((value, tail)) => {
                    proof {
                        lemma_field_shrinks(s);
                    }
                    match fields_of(tail) {
                        Err(e) => Err(e),
                        Ok(more) => Ok(seq![(field, value)] + more),
                    }
                },
            },
        }
    }
}

proof fn lemma_varint_shrinks(s: Seq<u8>, shift: u32, acc: u64)
    ensures
        varint_of(s, shift, acc) matches Ok((_, rest)) ==> rest.len() < s.len(),
    decreases s.len(),
{
    if s.len() > 0 && shift < 64 {
        let next = acc | (((s[0] & 0x7f) as u64) << (shift as u64));
        lemma_varint_shrinks(s.skip(1), (shift + 7) as u32, next);
    }
}

/// A key takes at least one byte.
pub proof fn lemma_tag_shrinks(s: Seq<u8>)
    ensures
        tag_of(s) matches Ok((_, _, rest)) ==> rest.len() < s.len(),
{
    lemma_varint_shrinks(s, 0, 0);
}

/// A value that is no group takes at least one byte.
pub proof fn lemma_plain_shrinks(s: Seq<u8>, wire: WireType)
    ensures
        plain_of(s, wire) matches Ok((_, rest)) ==> rest.len() < s.len(),
{
    lemma_varint_shrinks(s, 0, 0);
}

proof fn lemma_group_shrinks(s: Seq<u8>, inner: nat)
    ensures
        after_group(s, inner) matches Ok(rest) ==> rest.len() < s.len(),
    decreases s.len(),
{
    if let Ok((_, wire, rest)) = tag_of(s) {
        lemma_tag_shrinks(s);
        lemma_plain_shrinks(rest, wire);
        match wire {
            WireType::StartGroup => lemma_group_shrinks(rest, inner + 1),
            WireType::EndGroup => if inner > 0 {
                lemma_group_shrinks(rest, (inner - 1) as nat);
            },
            _ => if let Ok((_, tail)) = plain_of(rest, wire) {
                lemma_group_shrinks(tail, inner);
            },
        }
    }
}

/// A field takes at least one byte.
pub proof fn lemma_field_shrinks(s: Seq<u8>)
    ensures
        tag_of(s) matches Ok((_, wire, rest)) ==> rest.len() < s.len() && (value_of(
            rest,
            wire,
        ) matches Ok((_, tail)) ==> tail.len() < s.len()),
{
    lemma_tag_shrinks(s);
    if let Ok((_, wire, rest)) = tag_of(s) {
        lemma_plain_shrinks(rest, wire);
        lemma_group_shrinks(rest, 0);
    }
}

/// The last length-delimited value of a field; empty if there is none.
pub open spec fn last_len(fs: Seq<(u32, FieldValue)>, field: u32) -> Seq<u8>
    decreases fs.len(),
{
    if fs.len() == 0 {
        Seq::empty()
    } else if fs.last().0 == field && fs.last().1 is Len {
        fs.last().1->Len_0
    } else {
        last_len(fs.drop_last(), field)
    }
}

/// The last length-delimited value of a field, as text.
pub open spec fn last_text(fs: Seq<(u32, FieldValue)>, field: u32) -> Seq<char> {
    text::lossy(last_len(fs, field))
}

/// The last varint value of a field; zero if there is none.
pub open spec fn last_varint(fs: Seq<(u32, FieldValue)>, field: u32) -> u64
    decreases fs.len(),
{
    if fs.len() == 0 {
        0
    } else if fs.last().0 == field && fs.last().1 is Varint {
        fs.last().1->Varint_0
    } else {
        last_varint(fs.drop_last(), field)
    }
}

proof fn lemma_low_bits(v: u64)
    ensures
        v & 0x7f == v % 128,
        v >> 7 == v / 128,
        ((v & 0x7f) as u8) & 0x80 == 0,
        ((v & 0x7f) as u8) | 0x80 == (v % 128 + 128) as u8,
{
    assert(v & 0x7f == v % 128) by (bit_vector);
    assert(v >> 7 == v / 128) by (bit_vector);
    assert(((v & 0x7f) as u8) & 0x80 == 0) by (bit_vector);
    assert(((v & 0x7f) as u8) | 0x80 == (v % 128 + 128) as u8) by (bit_vector);
}

/// Appends a varint.
pub fn write_varint(out: &mut Vec<u8>, v: u64)
    ensures
        final(out)@ == old(out)@ + varint(v),
{
    let mut left: u64 = v;
    while left >= 128
        invariant
            old(out)@ + varint(v) == out@ + varint(left),
        decreases left,
    {
        proof {
            lemma_low_bits(left);
        }
        let ghost before = out@;
        let byte: u8 = ((left & 0x7f) as u8) | 0x80;
        out.push(byte);
        proof {
            assert(before + varint(left) =~= out@ + varint(left / 128));
        }
        left = left >> 7;
    }
    out.push(left as u8);
    proof {
        assert(out@ =~= old(out)@ + varint(v));
    }
}

fn write_tag(out: &mut Vec<u8>, field: u32, wire: u64)
    requires
        wire < 8,
    ensures
        final(out)@ == old(out)@ + tag(field, wire),
{
    write_varint(out, field as u64 * 8 + wire)
}

/// Appends a varint field.
pub fn write_varint_field(out: &mut Vec<u8>, field: u32, v: u64)
    ensures
        final(out)@ == old(out)@ + varint_field(field, v),
{
    if v == 0 {
        assert(out@ =~= old(out)@ + varint_field(field, v));
        return;
    }
    write_tag(out, field, 0);
    write_varint(out, v);
    proof {
        assert(out@ =~= old(out)@ + varint_field(field, v));
    }
}

/// Appends a length-delimited field.
pub fn write_len_field(out: &mut Vec<u8>, field: u32, data: &[u8])
    ensures
        final(out)@ == old(out)@ + len_field(field, data@),
{
    if data.len() == 0 {
        assert(out@ =~= old(out)@ + len_field(field, data@));
        return;
    }
    write_element(out, field, data);
}

/// Writes an element of a repeated length-delimited field.
pub fn write_element(out: &mut Vec<u8>, field: u32, data: &[u8])
    ensures
        final(out)@ == old(out)@ + element(field, data@),
{
    let ghost before = out@;
    write_tag(out, field, 2);
    write_varint(out, data.len() as u64);
    put_bytes(out, data);
    assert(out@ =~= before + element(field, data@));
}

/// A cursor over a message.
pub struct Reader<'a> {
    buf: &'a [u8],
    pos: usize,
}

impl<'a> Reader<'a> {
    /// What has not been read yet.
    pub closed spec fn rest(&self) -> Seq<u8> {
        self.buf@.skip(self.pos as int)
    }

    #[verifier::type_invariant]
    spec fn inside(self) -> bool {
        self.pos <= self.buf@.len()
    }

    /// A reader at the start of a message.
    pub fn new(buf: &'a [u8]) -> (r: Reader<'a>)
        ensures
            r.rest() == buf@,
    {
        assert(buf@.skip(0) =~= buf@);
        Reader { buf, pos: 0 }
    }

    /// Whether everything was read.
    pub fn eof(&self) -> (r: bool)
        ensures
            r == (self.rest().len() == 0),
    {
        proof {
            use_type_invariant(self);
        }
        self.pos >= self.buf.len()
    }

    /// Reads a varint. After an error the cursor is somewhere in the message.
    pub fn read_varint(&mut self) -> (r: Result<u64, ProtoError>)
        ensures
            match r {
                Ok(v) => varint_of(old(self).rest(), 0, 0) == Ok::<(u64, Seq<u8>), ProtoError>(
                    (v, final(self).rest()),
                ),
                Err(e) => varint_of(old(self).rest(), 0, 0) == Err::<(u64, Seq<u8>), ProtoError>(
                    e,
                ),
            },
    {
        let mut acc: u64 = 0;
        let mut shift: u32 = 0;
        proof {
            use_type_invariant(&*self);
        }
        let mut pos: usize = self.pos;
        loop
            invariant
                pos <= self.buf@.len(),
                self == old(self),
                shift <= 70,
                varint_of(self.rest(), 0, 0) == varint_of(self.buf@.skip(pos as int), shift, acc),
            decreases self.buf@.len() - pos,
        {
            if pos >= self.buf.len() {
                return Err(ProtoError::TruncatedVarint);
            }
            let byte: u8 = self.buf[pos];
            if shift >= 64 {
                return Err(ProtoError::VarintTooLong);
            }
            proof {
                assert(self.buf@.skip(pos as int).skip(1) =~= self.buf@.skip(pos + 1));
            }
            acc = acc | (((byte & 0x7f) as u64) << (shift as u64));
            pos = pos + 1;
            if byte & 0x80 == 0 {
                self.pos = pos;
                return Ok(acc);
            }
            shift = shift + 7;
        }
    }

    /// Reads a length-delimited value.
    pub fn read_len_slice(&mut self) -> (r: Result<&'a [u8], ProtoError>)
        ensures
            match r {
                Ok(data) => len_of(old(self).rest()) == Ok::<(Seq<u8>, Seq<u8>), ProtoError>(
                    (data@, final(self).rest()),
                ),
                Err(e) => len_of(old(self).rest()) == Err::<(Seq<u8>, Seq<u8>), ProtoError>(e),
            },
    {
        let len: u64 = match self.read_varint() {
            Ok(n) => n,
            Err(e) => return Err(e),
        };
        proof {
            use_type_invariant(&*self);
        }
        if len > (self.buf.len() - self.pos) as u64 {
            return Err(ProtoError::LengthExceedsBuffer);
        }
        let ghost before = self.rest();
        let start: usize = self.pos;
        let end: usize = start + len as usize;
        let data = vstd::slice::slice_subrange(self.buf, start, end);
        self.pos = end;
        proof {
            assert(data@ =~= before.take(len as int));
            assert(self.rest() =~= before.skip(len as int));
        }
        Ok(data)
    }

    /// Reads the key of the next field; nothing at the end of the message.
    pub fn next_tag(&mut self) -> (r: Result<Option<(u32, WireType)>, ProtoError>)
        ensures
            match r {
                Ok(None) => old(self).rest().len() == 0 && final(self).rest() == old(self).rest(),
                Ok(Some((field, wire))) => old(self).rest().len() > 0 && tag_of(old(self).rest())
                    == Ok::<(u32, WireType, Seq<u8>), ProtoError>(
                    (field, wire, final(self).rest()),
                ),
                Err(e) => old(self).rest().len() > 0 && tag_of(old(self).rest()) == Err::<
                    (u32, WireType, Seq<u8>),
                    ProtoError,
                >(e),
            },
    {
        if self.eof() {
            return Ok(None);
        }
        let key: u64 = match self.read_varint() {
            Ok(k) => k,
            Err(e) => return Err(e),
        };
        let field: u32 = (key >> 3) as u32;
        match WireType::from_u64(key & 0x7) {
            Ok(wire) => Ok(Some((field, wire))),
            Err(e) => Err(e),
        }
    }

    /// Consumes the value of a field of the given wire type: of a group,
    /// everything up to its end.
    pub fn skip(&mut self, wire: &WireType) -> (r: Result<(), ProtoError>)
        ensures
            match r {
                Ok(_) => value_of(old(self).rest(), *wire) matches Ok((_, rest)) && rest
                    == final(self).rest(),
                Err(e) => value_of(old(self).rest(), *wire) == Err::<
                    (FieldValue, Seq<u8>),
                    ProtoError,
                >(e),
            },
    {
        match wire {
            WireType::StartGroup => self.skip_group(),
            _ => self.skip_plain(wire),
        }
    }

    fn skip_group(&mut self) -> (r: Result<(), ProtoError>)
        ensures
            match r {
                Ok(_) => after_group(old(self).rest(), 0) == Ok::<Seq<u8>, ProtoError>(
                    final(self).rest(),
                ),
                Err(e) => after_group(old(self).rest(), 0) == Err::<Seq<u8>, ProtoError>(e),
            },
    {
        let mut inner: usize = 0;
        proof {
            use_type_invariant(&*self);
            assert(self.buf@.len() == self.buf.len());
        }
        loop
            invariant
                after_group(old(self).rest(), 0) == after_group(self.rest(), inner as nat),
                inner + self.rest().len() <= usize::MAX,
            decreases self.rest().len(),
        {
            proof {
                lemma_tag_shrinks(self.rest());
            }
            let wire = match self.next_tag() {
                Ok(Some((_, wire))) => wire,
                Ok(None) => return Err(ProtoError::TruncatedVarint),
                Err(e) => return Err(e),
            };
            match wire {
                WireType::StartGroup => {
                    inner = inner + 1;
                },
                WireType::EndGroup => {
                    if inner == 0 {
                        return Ok(());
                    }
                    inner = inner - 1;
                },
                plain => {
                    proof {
                        lemma_plain_shrinks(self.rest(), plain);
                    }
                    match self.skip_plain(&plain) {
                        Ok(_) => {},
                        Err(e) => return Err(e),
                    }
                },
            }
        }
    }

    fn skip_plain(&mut self, wire: &WireType) -> (r: Result<(), ProtoError>)
        ensures
            match r {
                Ok(_) => plain_of(old(self).rest(), *wire) matches Ok((_, rest)) && rest
                    == final(self).rest(),
                Err(e) => plain_of(old(self).rest(), *wire) == Err::<
                    (FieldValue, Seq<u8>),
                    ProtoError,
                >(e),
            },
    {
        proof {
            use_type_invariant(&*self);
        }
        match wire {
            WireType::Varint => match self.read_varint() {
                Ok(_) => Ok(()),
                Err(e) => Err(e),
            },
            WireType::Len => match self.read_len_slice() {
                Ok(_) => Ok(()),
                Err(e) => Err(e),
            },
            WireType::Fixed64 => {
                if self.buf.len() - self.pos < 8 {
                    return Err(ProtoError::TruncatedFixed64);
                }
                let ghost before = self.rest();
                let next: usize = self.pos + 8;
                self.pos = next;
                assert(self.rest() =~= before.skip(8));
                Ok(())
            },
            WireType::Fixed32 => {
                if self.buf.len() - self.pos < 4 {
                    return Err(ProtoError::TruncatedFixed32);
                }
                let ghost before = self.rest();
                let next: usize = self.pos + 4;
                self.pos = next;
                assert(self.rest() =~= before.skip(4));
                Ok(())
            },
            WireType::StartGroup => Err(ProtoError::UnmatchedGroup),
            WireType::EndGroup => Err(ProtoError::UnmatchedGroup),
        }
    }
}

enum Payload {
    Varint(u64),
    Len(Vec<u8>),
    Skipped,
}

spec fn value_view(v: Payload) -> FieldValue {
    match v {
        Payload::Varint(n) => FieldValue::Varint(n),
        Payload::Len(data) => FieldValue::Len(data@),
        Payload::Skipped => FieldValue::Skipped,
    }
}

spec fn field_views(fs: Seq<(u32, Payload)>) -> Seq<(u32, FieldValue)> {
    fs.map_values(|f: (u32, Payload)| (f.0, value_view(f.1)))
}

/// Reads every field of a message.
fn read_message(buf: &[u8]) -> (r: Result<Vec<(u32, Payload)>, ProtoError>)
    ensures
        match r {
            Ok(fs) => fields_of(buf@) == Ok::<Seq<(u32, FieldValue)>, ProtoError>(
                field_views(fs@),
            ),
            Err(e) => fields_of(buf@) == Err::<Seq<(u32, FieldValue)>, ProtoError>(e),
        },
{
    let mut reader = Reader::new(buf);
    let mut fs: Vec<(u32, Payload)> = Vec::new();
    proof {
        assert(field_views(fs@) =~= Seq::empty());
    }
    loop
        invariant
            fields_of(buf@) == (match fields_of(reader.rest()) {
                Err(e) => Err::<Seq<(u32, FieldValue)>, ProtoError>(e),
                Ok(more) => Ok(field_views(fs@) + more),
            }),
        decreases reader.rest().len(),
    {
        let ghost before = reader.rest();
        proof {
            lemma_field_shrinks(before);
        }
        let (field, wire) = match reader.next_tag() {
            Ok(Some(t)) => t,
            Ok(None) => {
                proof {
                    assert(field_views(fs@) + Seq::empty() =~= field_views(fs@));
                }
                return Ok(fs);
            },
            Err(e) => return Err(e),
        };
        let value = match wire {
            WireType::Varint => match reader.read_varint() {
                Ok(v) => Payload::Varint(v),
                Err(e) => return Err(e),
            },
            WireType::Len => match reader.read_len_slice() {
                Ok(data) => Payload::Len(vstd::slice::slice_to_vec(data)),
                Err(e) => return Err(e),
            },
            other => match reader.skip(&other) {
                Ok(_) => Payload::Skipped,
                Err(e) => return Err(e),
            },
        };
        let ghost head = fs@;
        let ghost item = (field, value_view(value));
        fs.push((field, value));
        proof {
            assert(field_views(fs@) =~= field_views(head).push(item));
            if let Ok(more) = fields_of(reader.rest()) {
                assert(field_views(head) + (seq![item] + more) =~= field_views(fs@) + more);
            }
        }
    }
}

/// The last length-delimited value of a field.
fn find_len(fs: &Vec<(u32, Payload)>, field: u32) -> (data: Vec<u8>)
    ensures
        data@ == last_len(field_views(fs@), field),
{
    let ghost all = field_views(fs@);
    let mut i: usize = fs.len();
    assert(all.take(i as int) =~= all);
    while i > 0
        invariant
            i <= fs@.len(),
            all == field_views(fs@),
            last_len(all, field) == last_len(all.take(i as int), field),
        decreases i,
    {
        proof {
            assert(all.take(i as int).last() == all[i - 1]);
            assert(all.take(i as int).drop_last() =~= all.take(i - 1));
        }
        i -= 1;
        if fs[i].0 == field {
            if let Payload::Len(data) = &fs[i].1 {
                let copy = copy_range(data.as_slice(), 0, data.len());
                assert(copy@ =~= data@);
                return copy;
            }
        }
    }
    Vec::new()
}

/// The last varint value of a field.
fn find_varint(fs: &Vec<(u32, Payload)>, field: u32) -> (v: u64)
    ensures
        v == last_varint(field_views(fs@), field),
{
    let ghost all = field_views(fs@);
    let mut i: usize = fs.len();
    assert(all.take(i as int) =~= all);
    while i > 0
        invariant
            i <= fs@.len(),
            all == field_views(fs@),
            last_varint(all, field) == last_varint(all.take(i as int), field),
        decreases i,
    {
        proof {
            assert(all.take(i as int).last() == all[i - 1]);
            assert(all.take(i as int).drop_last() =~= all.take(i - 1));
        }
        i -= 1;
        if fs[i].0 == field {
            if let Payload::Varint(v) = &fs[i].1 {
                return *v;
            }
        }
    }
    0
}

fn find_text(fs: &Vec<(u32, Payload)>, field: u32) -> (s: String)
    ensures
        s@ == last_text(field_views(fs@), field),
{
    text_lossy(find_len(fs, field).as_slice())
}

/// Asks for the records of a topic as they come.
#[derive(Debug, Clone, PartialEq)]
pub struct SubscribeRequest {
    pub topic: String,
}

impl Default for SubscribeRequest {
    fn default() -> (m: SubscribeRequest)
        ensures
            m.topic@.len() == 0,
    {
        SubscribeRequest { topic: String::new() }
    }
}

impl SubscribeRequest {
    pub fn decode(buf: &[u8]) -> (r: Result<SubscribeRequest, ProtoError>)
        ensures
            match r {
                Ok(m) => fields_of(buf@) matches Ok(fs) && m.topic@ == last_text(fs, 1),
                Err(e) => fields_of(buf@) == Err::<Seq<(u32, FieldValue)>, ProtoError>(e),
            },
    {
        match read_message(buf) {
            Ok(fs) => Ok(SubscribeRequest { topic: find_text(&fs, 1) }),
            Err(e) => Err(e),
        }
    }
}

/// A record of a topic.
#[derive(Debug, Clone, PartialEq)]
pub struct Record {
    pub offset: u64,
    pub key: Vec<u8>,
    pub value: Vec<u8>,
    pub timestamp_ms: i64,
    pub topic: String,
}

/// What a [`Record`] says.
pub struct RecordView {
    pub offset: u64,
    pub key: Seq<u8>,
    pub value: Seq<u8>,
    pub timestamp_ms: i64,
    pub topic: Seq<char>,
}

impl View for Record {
    type V = RecordView;

    open spec fn view(&self) -> RecordView {
        RecordView {
            offset: self.offset,
            key: self.key@,
            value: self.value@,
            timestamp_ms: self.timestamp_ms,
            topic: self.topic@,
        }
    }
}

/// The bytes of a record.
pub open spec fn record_bytes(r: RecordView) -> Seq<u8> {
    varint_field(1, r.offset) + (len_field(2, r.key) + (len_field(3, r.value) + (varint_field(
        4,
        r.timestamp_ms as u64,
    ) + len_field(5, encode_utf8(r.topic)))))
}

impl Default for Record {
    fn default() -> (m: Record)
        ensures
            m.offset == 0,
            m.key@.len() == 0,
            m.value@.len() == 0,
            m.timestamp_ms == 0,
            m.topic@.len() == 0,
    {
        Record {
            offset: 0,
            key: Vec::new(),
            value: Vec::new(),
            timestamp_ms: 0,
            topic: String::new(),
        }
    }
}

impl Record {
    pub fn encode(&self) -> (out: Vec<u8>)
        ensures
            out@ == record_bytes(self@),
    {
        let mut out: Vec<u8> = Vec::new();
        write_varint_field(&mut out, 1, self.offset);
        write_len_field(&mut out, 2, self.key.as_slice());
        write_len_field(&mut out, 3, self.value.as_slice());
        write_varint_field(&mut out, 4, self.timestamp_ms as u64);
        write_len_field(&mut out, 5, self.topic.as_str().as_bytes());
        proof {
            assert(out@ =~= record_bytes(self@));
        }
        out
    }
}

/// Asks to add a record to a topic.
#[derive(Debug, Clone, PartialEq)]
pub struct PublishRequest {
    pub topic: String,
    pub key: Vec<u8>,
    pub value: Vec<u8>,
    pub has_partition: bool,
    pub partition: u32,
}

impl Default for PublishRequest {
    fn default() -> (m: PublishRequest)
        ensures
            m.topic@.len() == 0,
            m.key@.len() == 0,
            m.value@.len() == 0,
            !m.has_partition,
            m.partition == 0,
    {
        PublishRequest {
            topic: String::new(),
            key: Vec::new(),
            value: Vec::new(),
            has_partition: false,
            partition: 0,
        }
    }
}

impl PublishRequest {
    pub fn decode(buf: &[u8]) -> (r: Result<PublishRequest, ProtoError>)
        ensures
            match r {
                Ok(m) => fields_of(buf@) matches Ok(fs) && m.topic@ == last_text(fs, 1) && m.key@
                    == last_len(fs, 2) && m.value@ == last_len(fs, 3) && m.has_partition == (
                last_varint(fs, 4) != 0) && m.partition == last_varint(fs, 5) as u32,
                Err(e) => fields_of(buf@) == Err::<Seq<(u32, FieldValue)>, ProtoError>(e),
            },
    {
        match read_message(buf) {
            Ok(fs) => Ok(
                PublishRequest {
                    topic: find_text(&fs, 1),
                    key: find_len(&fs, 2),
                    value: find_len(&fs, 3),
                    has_partition: find_varint(&fs, 4) != 0,
                    partition: find_varint(&fs, 5) as u32,
                },
            ),
            Err(e) => Err(e),
        }
    }
}

/// Where a record was added.
#[derive(Debug, Clone, PartialEq)]
pub struct PublishResponse {
    pub partition: u32,
    pub offset: u64,
}

impl Default for PublishResponse {
    fn default() -> (m: PublishResponse)
        ensures
            m.partition == 0,
            m.offset == 0,
    {
        PublishResponse { partition: 0, offset: 0 }
    }
}

impl PublishResponse {
    pub fn encode(&self) -> (out: Vec<u8>)
        ensures
            out@ == varint_field(1, self.partition as u64) + varint_field(2, self.offset),
    {
        let mut out: Vec<u8> = Vec::new();
        write_varint_field(&mut out, 1, self.partition as u64);
        write_varint_field(&mut out, 2, self.offset);
        proof {
            assert(out@ =~= varint_field(1, self.partition as u64) + varint_field(2, self.offset));
        }
        out
    }
}

/// Asks for records on behalf of a group.
#[derive(Debug, Clone, PartialEq)]
pub struct PollRequest {
    pub topic: String,
    pub partition: u32,
    pub group: String,
    pub max: u32,
}

impl Default for PollRequest {
    fn default() -> (m: PollRequest)
        ensures
            m.topic@.len() == 0,
            m.partition == 0,
            m.group@.len() == 0,
            m.max == 0,
    {
        PollRequest { topic: String::new(), partition: 0, group: String::new(), max: 0 }
    }
}

impl PollRequest {
    pub fn decode(buf: &[u8]) -> (r: Result<PollRequest, ProtoError>)
        ensures
            match r {
                Ok(m) => fields_of(buf@) matches Ok(fs) && m.topic@ == last_text(fs, 1)
                    && m.partition == last_varint(fs, 2) as u32 && m.group@ == last_text(fs, 3)
                    && m.max == last_varint(fs, 4) as u32,
                Err(e) => fields_of(buf@) == Err::<Seq<(u32, FieldValue)>, ProtoError>(e),
            },
    {
        match read_message(buf) {
            Ok(fs) => Ok(
                PollRequest {
                    topic: find_text(&fs, 1),
                    partition: find_varint(&fs, 2) as u32,
                    group: find_text(&fs, 3),
                    max: find_varint(&fs, 4) as u32,
                },
            ),
            Err(e) => Err(e),
        }
    }
}

/// The records that a group has not seen.
#[derive(Debug, Clone, PartialEq)]
pub struct PollResponse {
    pub records: Vec<Record>,
}

/// The bytes of several records, each an embedded message in field 1.
pub open spec fn records_bytes(rs: Seq<Record>) -> Seq<u8>
    decreases rs.len(),
{
    if rs.len() == 0 {
        Seq::empty()
    } else {
        records_bytes(rs.drop_last()) + element(1, record_bytes(rs.last()@))
    }
}

impl Default for PollResponse {
    fn default() -> (m: PollResponse)
        ensures
            m.records@.len() == 0,
    {
        PollResponse { records: Vec::new() }
    }
}

impl PollResponse {
    pub fn encode(&self) -> (out: Vec<u8>)
        ensures
            out@ == records_bytes(self.records@),
    {
        let mut out: Vec<u8> = Vec::new();
        let mut i: usize = 0;
        let ghost all = self.records@;
        assert(all.take(0) =~= Seq::empty());
        while i < self.records.len()
            invariant
                i <= self.records@.len(),
                all == self.records@,
                out@ == records_bytes(all.take(i as int)),
            decreases self.records@.len() - i,
        {
            write_element(&mut out, 1, self.records[i].encode().as_slice());
            proof {
                assert(all.take(i + 1).drop_last() =~= all.take(i as int));
            }
            i += 1;
        }
        assert(all.take(i as int) =~= all);
        out
    }
}

/// Asks for a new topic.
#[derive(Debug, Clone, PartialEq)]
pub struct CreateTopicRequest {
    pub name: String,
}

impl Default for CreateTopicRequest {
    fn default() -> (m: CreateTopicRequest)
        ensures
            m.name@.len() == 0,
    {
        CreateTopicRequest { name: String::new() }
    }
}

impl CreateTopicRequest {
    pub fn decode(buf: &[u8]) -> (r: Result<CreateTopicRequest, ProtoError>)
        ensures
            match r {
                Ok(m) => fields_of(buf@) matches Ok(fs) && m.name@ == last_text(fs, 1),
                Err(e) => fields_of(buf@) == Err::<Seq<(u32, FieldValue)>, ProtoError>(e),
            },
    {
        match read_message(buf) {
            Ok(fs) => Ok(CreateTopicRequest { name: find_text(&fs, 1) }),
            Err(e) => Err(e),
        }
    }
}

/// A topic was created.
#[derive(Debug, Clone, PartialEq)]
pub struct CreateTopicResponse {}

impl Default for CreateTopicResponse {
    fn default() -> CreateTopicResponse {
        CreateTopicResponse {  }
    }
}

impl CreateTopicResponse {
    pub fn encode(&self) -> (out: Vec<u8>)
        ensures
            out@.len() == 0,
    {
        Vec::new()
    }
}

/// The low bits of `v`.
pub open spec fn low(v: u64, bits: u32) -> u64 {
    if bits >= 64 {
        v
    } else {
        v & !(0xffff_ffff_ffff_ffffu64 << (bits as u64))
    }
}

proof fn lemma_low_step(v: u64, shift: u32)
    requires
        shift < 64,
    ensures
        low(v, shift) | (((v >> (shift as u64)) & 0x7f) << (shift as u64)) == low(
            v,
            (shift + 7) as u32,
        ),
        shift + 7 < 64 ==> (v >> (shift as u64)) / 128 == v >> ((shift + 7) as u64),
        shift + 7 >= 64 ==> (v >> (shift as u64)) / 128 == 0,
        (v >> (shift as u64)) < 128 ==> low(v, (shift + 7) as u32) == v,
{
    let s = shift as u64;
    let t = (shift + 7) as u64;
    if shift + 7 < 64 {
        assert((v & !(0xffff_ffff_ffff_ffffu64 << s)) | (((v >> s) & 0x7f) << s) == (v & !(
        0xffff_ffff_ffff_ffffu64 << t))) by (bit_vector)
            requires
                s < 57,
                t == s + 7,
        ;
        assert((v >> s) / 128 == v >> t) by (bit_vector)
            requires
                s < 57,
                t == s + 7,
        ;
        assert((v >> s) < 128 ==> (v & !(0xffff_ffff_ffff_ffffu64 << t)) == v) by (bit_vector)
            requires
                s < 57,
                t == s + 7,
        ;
    } else {
        assert((v & !(0xffff_ffff_ffff_ffffu64 << s)) | (((v >> s) & 0x7f) << s) == v)
            by (bit_vector)
            requires
                57 <= s < 64,
        ;
        assert((v >> s) / 128 == 0) by (bit_vector)
            requires
                57 <= s < 64,
        ;
    }
}

proof fn lemma_group_bytes(v: u64)
    ensures
        (((v % 128 + 128) as u8) & 0x7f) as u64 == v & 0x7f,
        ((v % 128 + 128) as u8) & 0x80 != 0,
        v < 128 ==> ((v as u8) & 0x7f) as u64 == v & 0x7f && (v as u8) & 0x80 == 0,
{
    assert((((v % 128 + 128) as u8) & 0x7f) as u64 == v & 0x7f) by (bit_vector);
    assert(((v % 128 + 128) as u8) & 0x80 != 0) by (bit_vector);
    assert(v < 128 ==> ((v as u8) & 0x7f) as u64 == v & 0x7f && (v as u8) & 0x80 == 0)
        by (bit_vector);
}

proof fn lemma_varint_tail(v: u64, shift: u32, rest: Seq<u8>)
    requires
        shift < 64,
    ensures
        varint_of(varint(v >> (shift as u64)) + rest, shift, low(v, shift)) == Ok::<
            (u64, Seq<u8>),
            ProtoError,
        >((v, rest)),
    decreases 64 - shift,
{
    let left = v >> (shift as u64);
    let s = varint(left) + rest;
    lemma_low_step(v, shift);
    lemma_group_bytes(left);
    if left < 128 {
        assert(s.skip(1) =~= rest);
    } else {
        assert(s[0] == (left % 128 + 128) as u8);
        assert(s.skip(1) =~= varint(left / 128) + rest);
        lemma_varint_tail(v, (shift + 7) as u32, rest);
    }
}

/// Reading a varint that was written gives the number back, and leaves what
/// follows it.
pub proof fn law_varint_round_trips(v: u64, rest: Seq<u8>)
    ensures
        varint_of(varint(v) + rest, 0, 0) == Ok::<(u64, Seq<u8>), ProtoError>((v, rest)),
{
    assert(v >> 0 == v) by (bit_vector);
    assert(v & !(0xffff_ffff_ffff_ffffu64 << 0) == 0) by (bit_vector);
    lemma_varint_tail(v, 0, rest);
}

proof fn lemma_tag_round_trips(field: u32, wire: u64, rest: Seq<u8>)
    requires
        wire < 6,
    ensures
        tag_of(tag(field, wire) + rest) == (match wire_type_of(wire) {
            Ok(w) => Ok((field, w, rest)),
            Err(e) => Err::<(u32, WireType, Seq<u8>), ProtoError>(e),
        }),
{
    let key = (field * 8 + wire) as u64;
    law_varint_round_trips(key, rest);
    assert(key & 0x7 == wire && (key >> 3) as u32 == field) by (bit_vector)
        requires
            key == field * 8 + wire,
            wire < 8,
    ;
}

/// A varint field that was written is read first, then what follows it.
pub proof fn law_varint_field_is_read_back(field: u32, v: u64, rest: Seq<u8>)
    ensures
        v == 0 ==> fields_of(varint_field(field, v) + rest) == fields_of(rest),
        v != 0 ==> fields_of(varint_field(field, v) + rest) == (match fields_of(rest) {
            Ok(more) => Ok(seq![(field, FieldValue::Varint(v))] + more),
            Err(e) => Err(e),
        }),
{
    if v == 0 {
        assert(varint_field(field, v) + rest =~= rest);
    } else {
        let s = varint_field(field, v) + rest;
        assert(s =~= tag(field, 0) + (varint(v) + rest));
        lemma_tag_round_trips(field, 0, varint(v) + rest);
        law_varint_round_trips(v, rest);
        assert(s.len() > 0);
    }
}

/// An element of a repeated field that was written is read first, then what
/// follows it.
pub proof fn law_element_is_read_back(field: u32, data: Seq<u8>, rest: Seq<u8>)
    requires
        data.len() <= u64::MAX,
    ensures
        fields_of(element(field, data) + rest) == (match fields_of(rest) {
            Ok(more) => Ok(seq![(field, FieldValue::Len(data))] + more),
            Err(e) => Err(e),
        }),
{
    let s = element(field, data) + rest;
    let tail = varint(data.len() as u64) + (data + rest);
    assert(s =~= tag(field, 2) + tail);
    lemma_tag_round_trips(field, 2, tail);
    law_varint_round_trips(data.len() as u64, data + rest);
    assert((data + rest).take(data.len() as int) =~= data);
    assert((data + rest).skip(data.len() as int) =~= rest);
    assert(s.len() > 0);
}

/// A length-delimited field that was written is read first, then what follows
/// it.
pub proof fn law_len_field_is_read_back(field: u32, data: Seq<u8>, rest: Seq<u8>)
    requires
        data.len() <= u64::MAX,
    ensures
        data.len() == 0 ==> fields_of(len_field(field, data) + rest) == fields_of(rest),
        data.len() > 0 ==> fields_of(len_field(field, data) + rest) == (match fields_of(rest) {
            Ok(more) => Ok(seq![(field, FieldValue::Len(data))] + more),
            Err(e) => Err(e),
        }),
{
    if data.len() == 0 {
        assert(len_field(field, data) + rest =~= rest);
    } else {
        law_element_is_read_back(field, data, rest);
    }
}

proof fn lemma_varint_append(s: Seq<u8>, x: Seq<u8>, shift: u32, acc: u64)
    ensures
        varint_of(s, shift, acc) matches Ok((v, rest)) ==> varint_of(s + x, shift, acc) == Ok::<
            (u64, Seq<u8>),
            ProtoError,
        >((v, rest + x)),
    decreases s.len(),
{
    if s.len() > 0 && shift < 64 {
        let next = acc | (((s[0] & 0x7f) as u64) << (shift as u64));
        assert((s + x)[0] == s[0]);
        assert((s + x).skip(1) =~= s.skip(1) + x);
        lemma_varint_append(s.skip(1), x, (shift + 7) as u32, next);
    }
}

proof fn lemma_tag_append(s: Seq<u8>, x: Seq<u8>)
    ensures
        tag_of(s) matches Ok((field, wire, rest)) ==> tag_of(s + x) == Ok::<
            (u32, WireType, Seq<u8>),
            ProtoError,
        >((field, wire, rest + x)),
{
    lemma_varint_append(s, x, 0, 0);
}

proof fn lemma_plain_append(s: Seq<u8>, x: Seq<u8>, wire: WireType)
    ensures
        plain_of(s, wire) matches Ok((v, rest)) ==> plain_of(s + x, wire) == Ok::<
            (FieldValue, Seq<u8>),
            ProtoError,
        >((v, rest + x)),
{
    lemma_varint_append(s, x, 0, 0);
    if let Ok((n, rest)) = varint_of(s, 0, 0) {
        if n <= rest.len() {
            assert((rest + x).take(n as int) =~= rest.take(n as int));
            assert((rest + x).skip(n as int) =~= rest.skip(n as int) + x);
        }
    }
    if s.len() >= 4 {
        assert((s + x).skip(4) =~= s.skip(4) + x);
    }
    if s.len() >= 8 {
        assert((s + x).skip(8) =~= s.skip(8) + x);
    }
}

proof fn lemma_group_append(s: Seq<u8>, x: Seq<u8>, inner: nat)
    ensures
        after_group(s, inner) matches Ok(rest) ==> after_group(s + x, inner) == Ok::<
            Seq<u8>,
            ProtoError,
        >(rest + x),
    decreases s.len(),
{
    if let Ok((_, wire, rest)) = tag_of(s) {
        lemma_tag_append(s, x);
        lemma_tag_shrinks(s);
        lemma_plain_append(rest, x, wire);
        lemma_plain_shrinks(rest, wire);
        match wire {
            WireType::StartGroup => lemma_group_append(rest, x, inner + 1),
            WireType::EndGroup => if inner > 0 {
                lemma_group_append(rest, x, (inner - 1) as nat);
            },
            _ => if let Ok((_, tail)) = plain_of(rest, wire) {
                lemma_group_append(tail, x, inner);
            },
        }
    }
}

/// A message that is followed by another is read field by field, then the
/// other.
pub proof fn law_messages_are_read_one_after_the_other(s: Seq<u8>, more: Seq<u8>)
    ensures
        fields_of(s) matches Ok(fs) ==> fields_of(s + more) == (match fields_of(more) {
            Ok(ms) => Ok(fs + ms),
            Err(e) => Err(e),
        }),
    decreases s.len(),
{
    if s.len() == 0 {
        assert(s + more =~= more);
        if let Ok(ms) = fields_of(more) {
            assert(Seq::<(u32, FieldValue)>::empty() + ms =~= ms);
        }
    } else if fields_of(s) is Ok {
        let (field, wire, rest) = tag_of(s)->Ok_0;
        let (value, tail) = value_of(rest, wire)->Ok_0;
        lemma_tag_append(s, more);
        lemma_plain_append(rest, more, wire);
        lemma_group_append(rest, more, 0);
        lemma_field_shrinks(s);
        law_messages_are_read_one_after_the_other(tail, more);
        if let Ok(ms) = fields_of(more) {
            let fs = fields_of(tail)->Ok_0;
            assert(seq![(field, value)] + (fs + ms) =~= (seq![(field, value)] + fs) + ms);
        }
    }
}

/// A response holds as many elements as records, in their order, each the bytes
/// of its record.
pub proof fn law_each_record_is_an_element(rs: Seq<Record>)
    requires
        forall|i: int| 0 <= i < rs.len() ==> record_bytes((#[trigger] rs[i])@).len() <= u64::MAX,
    ensures
        fields_of(records_bytes(rs)) matches Ok(fs) && fs.len() == rs.len() && forall|i: int|
            0 <= i < rs.len() ==> #[trigger] fs[i] == (1u32, FieldValue::Len(record_bytes(rs[i]@))),
    decreases rs.len(),
{
    if rs.len() > 0 {
        let head = rs.drop_last();
        let last = element(1, record_bytes(rs.last()@));
        let none = Seq::<u8>::empty();
        assert forall|i: int| 0 <= i < head.len() implies record_bytes((#[trigger] head[i])@).len()
            <= u64::MAX by {
            assert(head[i] == rs[i]);
        }
        law_each_record_is_an_element(head);
        assert(rs.last() == rs[rs.len() - 1]);
        assert(last + none =~= last);
        law_element_is_read_back(1, record_bytes(rs.last()@), none);
        law_messages_are_read_one_after_the_other(records_bytes(head), last);
        let hs = fields_of(records_bytes(head))->Ok_0;
        let fs = fields_of(records_bytes(rs))->Ok_0;
        assert forall|i: int| 0 <= i < rs.len() implies #[trigger] fs[i] == (
            1u32,
            FieldValue::Len(record_bytes(rs[i]@)),
        ) by {
            if i < head.len() {
                assert(fs[i] == hs[i]);
                assert(head[i] == rs[i]);
            }
        }
    }
}

/// Whether no field of `fs` has the number `field`.
pub open spec fn lacks(fs: Seq<(u32, FieldValue)>, field: u32) -> bool {
    forall|i: int| 0 <= i < fs.len() ==> (#[trigger] fs[i]).0 != field
}

proof fn lemma_last_of_append(a: Seq<(u32, FieldValue)>, b: Seq<(u32, FieldValue)>, field: u32)
    requires
        lacks(b, field),
    ensures
        last_len(a + b, field) == last_len(a, field),
        last_varint(a + b, field) == last_varint(a, field),
    decreases b.len(),
{
    if b.len() == 0 {
        assert(a + b =~= a);
    } else {
        assert((a + b).drop_last() =~= a + b.drop_last());
        assert((a + b).last() == b[b.len() - 1]);
        assert forall|i: int| 0 <= i < b.drop_last().len() implies (
        #[trigger] b.drop_last()[i]).0 != field by {
            assert(b.drop_last()[i] == b[i]);
        }
        lemma_last_of_append(a, b.drop_last(), field);
    }
}

proof fn lemma_last_is_kept(
    a: Seq<(u32, FieldValue)>,
    u: Seq<(u32, FieldValue)>,
    b: Seq<(u32, FieldValue)>,
    field: u32,
)
    requires
        lacks(u, field),
    ensures
        last_len(a + (u + b), field) == last_len(a + b, field),
        last_varint(a + (u + b), field) == last_varint(a + b, field),
    decreases b.len(),
{
    if b.len() == 0 {
        assert(u + b =~= u);
        assert(a + b =~= a);
        lemma_last_of_append(a, u, field);
    } else {
        assert((a + (u + b)).drop_last() =~= a + (u + b.drop_last()));
        assert((a + b).drop_last() =~= a + b.drop_last());
        assert((a + (u + b)).last() == b.last() && (a + b).last() == b.last());
        lemma_last_is_kept(a, u, b.drop_last(), field);
    }
}

/// Fields that a reader does not ask for change nothing of what it reads,
/// wherever in a message they stand.
pub proof fn law_unknown_fields_are_skipped(
    before: Seq<u8>,
    unknown: Seq<u8>,
    after: Seq<u8>,
    field: u32,
)
    requires
        fields_of(before) is Ok,
        fields_of(unknown) is Ok,
        fields_of(after) is Ok,
        lacks(fields_of(unknown)->Ok_0, field),
    ensures
        fields_of(before + (unknown + after)) is Ok,
        fields_of(before + after) is Ok,
        last_len(fields_of(before + (unknown + after))->Ok_0, field) == last_len(
            fields_of(before + after)->Ok_0,
            field,
        ),
        last_varint(fields_of(before + (unknown + after))->Ok_0, field) == last_varint(
            fields_of(before + after)->Ok_0,
            field,
        ),
        last_text(fields_of(before + (unknown + after))->Ok_0, field) == last_text(
            fields_of(before + after)->Ok_0,
            field,
        ),
{
    law_messages_are_read_one_after_the_other(unknown, after);
    law_messages_are_read_one_after_the_other(before, unknown + after);
    law_messages_are_read_one_after_the_other(before, after);
    lemma_last_is_kept(
        fields_of(before)->Ok_0,
        fields_of(unknown)->Ok_0,
        fields_of(after)->Ok_0,
        field,
    );
}

proof fn lemma_group_in_group(s: Seq<u8>, inner: nat, outer: nat, x: Seq<u8>)
    ensures
        after_group(s, inner) matches Ok(rest) ==> after_group(s + x, inner + outer + 1)
            == after_group(rest + x, outer),
    decreases s.len(),
{
    if let Ok((_, wire, rest)) = tag_of(s) {
        lemma_tag_append(s, x);
        lemma_tag_shrinks(s);
        lemma_plain_append(rest, x, wire);
        lemma_plain_shrinks(rest, wire);
        match wire {
            WireType::StartGroup => lemma_group_in_group(rest, inner + 1, outer, x),
            WireType::EndGroup => if inner > 0 {
                lemma_group_in_group(rest, (inner - 1) as nat, outer, x);
            },
            _ => if let Ok((_, tail)) = plain_of(rest, wire) {
                lemma_group_in_group(tail, inner, outer, x);
            },
        }
    }
}

proof fn lemma_group_passes_over(body: Seq<u8>, x: Seq<u8>)
    requires
        fields_of(body) is Ok,
    ensures
        after_group(body + x, 0) == after_group(x, 0),
    decreases body.len(),
{
    if body.len() == 0 {
        assert(body + x =~= x);
    } else {
        let (_, wire, rest) = tag_of(body)->Ok_0;
        let (_, tail) = value_of(rest, wire)->Ok_0;
        lemma_tag_append(body, x);
        lemma_plain_append(rest, x, wire);
        lemma_group_in_group(rest, 0, 0, x);
        lemma_field_shrinks(body);
        lemma_group_passes_over(tail, x);
    }
}

/// A group is skipped as a whole, whatever message stands in it.
pub proof fn law_group_is_skipped(field: u32, body: Seq<u8>, rest: Seq<u8>)
    requires
        fields_of(body) is Ok,
    ensures
        fields_of(tag(field, 3) + (body + (tag(field, 4) + rest))) == (match fields_of(rest) {
            Ok(more) => Ok(seq![(field, FieldValue::Skipped)] + more),
            Err(e) => Err(e),
        }),
{
    let end = tag(field, 4) + rest;
    lemma_tag_round_trips(field, 3, body + end);
    lemma_tag_round_trips(field, 4, rest);
    lemma_group_passes_over(body, end);
    assert((tag(field, 3) + (body + end)).len() > 0);
}

proof fn lemma_last_of_prepend(fs: Seq<(u32, FieldValue)>, f: (u32, FieldValue), field: u32)
    ensures
        f.0 != field ==> last_len(seq![f] + fs, field) == last_len(fs, field),
        f.0 != field ==> last_varint(seq![f] + fs, field) == last_varint(fs, field),
        fs.len() == 0 && f.0 == field && f.1 is Len ==> last_len(seq![f] + fs, field)
            == f.1->Len_0,
        fs.len() == 0 && f.0 == field && f.1 is Varint ==> last_varint(seq![f] + fs, field)
            == f.1->Varint_0,
        (forall|i: int| 0 <= i < fs.len() ==> (#[trigger] fs[i]).0 != field) && f.0 == field
            && f.1 is Len ==> last_len(seq![f] + fs, field) == f.1->Len_0,
        (forall|i: int| 0 <= i < fs.len() ==> (#[trigger] fs[i]).0 != field) && f.0 == field
            && f.1 is Varint ==> last_varint(seq![f] + fs, field) == f.1->Varint_0,
    decreases fs.len(),
{
    let all = seq![f] + fs;
    if fs.len() == 0 {
        assert(all =~= seq![f]);
        assert(all.drop_last() =~= fs);
    } else {
        assert(all.drop_last() =~= seq![f] + fs.drop_last());
        assert(all.last() == fs.last());
        if forall|i: int| 0 <= i < fs.len() ==> (#[trigger] fs[i]).0 != field {
            assert(fs.last() == fs[fs.len() - 1]);
            assert forall|i: int| 0 <= i < fs.drop_last().len() implies (
            #[trigger] fs.drop_last()[i]).0 != field by {
                assert(fs.drop_last()[i] == fs[i]);
            }
        }
        lemma_last_of_prepend(fs.drop_last(), f, field);
    }
}

/// Whether `fs` holds only fields numbered from `from` on.
pub open spec fn numbered_from(fs: Seq<(u32, FieldValue)>, from: u32) -> bool {
    forall|i: int| 0 <= i < fs.len() ==> (#[trigger] fs[i]).0 >= from
}

/// Reading a record's fields gives the record back.
pub proof fn law_record_is_read_back(r: RecordView)
    requires
        r.key.len() <= u64::MAX,
        r.value.len() <= u64::MAX,
        encode_utf8(r.topic).len() <= u64::MAX,
    ensures
        fields_of(record_bytes(r)) matches Ok(fs) && last_varint(fs, 1) == r.offset && last_len(
            fs,
            2,
        ) == r.key && last_len(fs, 3) == r.value && last_varint(fs, 4) as i64 == r.timestamp_ms
            && last_text(fs, 5) == r.topic,
{
    let t = encode_utf8(r.topic);
    let ts = r.timestamp_ms as u64;
    let i = r.timestamp_ms;
    assert((i as u64) as i64 == i) by (bit_vector);
    text::lemma_lossy_of_text(r.topic);
    let none = Seq::<u8>::empty();
    let b5 = len_field(5, t);
    let b4 = varint_field(4, ts) + b5;
    let b3 = len_field(3, r.value) + b4;
    let b2 = len_field(2, r.key) + b3;
    assert(b5 + none =~= b5);
    law_len_field_is_read_back(5, t, none);
    let f5 = fields_of(b5)->Ok_0;
    assert(numbered_from(f5, 5));
    law_varint_field_is_read_back(4, ts, b5);
    let f4 = fields_of(b4)->Ok_0;
    assert(numbered_from(f4, 4));
    law_len_field_is_read_back(3, r.value, b4);
    let f3 = fields_of(b3)->Ok_0;
    assert(numbered_from(f3, 3));
    law_len_field_is_read_back(2, r.key, b3);
    let f2 = fields_of(b2)->Ok_0;
    assert(numbered_from(f2, 2));
    law_varint_field_is_read_back(1, r.offset, b2);
    lemma_absent(f5, 1, 5);
    lemma_absent(f5, 2, 5);
    lemma_absent(f5, 3, 5);
    lemma_absent(f5, 4, 5);
    lemma_absent(f4, 3, 4);
    lemma_absent(f3, 2, 3);
    lemma_absent(f2, 1, 2);
    let v5 = (5u32, FieldValue::Len(t));
    let v4 = (4u32, FieldValue::Varint(ts));
    let v3 = (3u32, FieldValue::Len(r.value));
    let v2 = (2u32, FieldValue::Len(r.key));
    let v1 = (1u32, FieldValue::Varint(r.offset));
    lemma_last_of_prepend(Seq::empty(), v5, 5);
    assert(last_len(f5, 5) =~= t);
    lemma_last_of_prepend(f5, v4, 4);
    lemma_last_of_prepend(f5, v4, 5);
    assert(last_varint(f4, 4) == ts && last_len(f4, 5) == t);
    lemma_last_of_prepend(f4, v3, 3);
    lemma_last_of_prepend(f4, v3, 4);
    lemma_last_of_prepend(f4, v3, 5);
    assert(last_len(f3, 3) =~= r.value && last_varint(f3, 4) == ts && last_len(f3, 5) == t);
    lemma_last_of_prepend(f3, v2, 2);
    lemma_last_of_prepend(f3, v2, 3);
    lemma_last_of_prepend(f3, v2, 4);
    lemma_last_of_prepend(f3, v2, 5);
    assert(last_len(f2, 2) =~= r.key && last_len(f2, 3) == r.value);
    lemma_last_of_prepend(f2, v1, 1);
    lemma_last_of_prepend(f2, v1, 2);
    lemma_last_of_prepend(f2, v1, 3);
    lemma_last_of_prepend(f2, v1, 4);
    lemma_last_of_prepend(f2, v1, 5);
}

proof fn lemma_absent(fs: Seq<(u32, FieldValue)>, field: u32, from: u32)
    requires
        numbered_from(fs, from),
        field < from,
    ensures
        last_len(fs, field) == Seq::<u8>::empty(),
        last_varint(fs, field) == 0,
    decreases fs.len(),
{
    if fs.len() > 0 {
        assert(fs.last() == fs[fs.len() - 1]);
        assert forall|i: int| 0 <= i < fs.drop_last().len() implies (
        #[trigger] fs.drop_last()[i]).0 >= from by {
            assert(fs.drop_last()[i] == fs[i]);
        }
        lemma_absent(fs.drop_last(), field, from);
    }
}

/// A field of bytes in front of fields with higher numbers is read with them.
pub proof fn lemma_front_len(field: u32, data: Seq<u8>, rest: Seq<u8>)
    requires
        data.len() <= u64::MAX,
        field < u32::MAX,
        fields_of(rest) is Ok,
        numbered_from(fields_of(rest)->Ok_0, (field + 1) as u32),
    ensures
        fields_of(len_field(field, data) + rest) matches Ok(fs) && numbered_from(fs, field)
            && last_len(fs, field) == data && forall|g: u32|
            g > field ==> #[trigger] last_len(fs, g) == last_len(fields_of(rest)->Ok_0, g),
        fields_of(len_field(field, data) + rest) matches Ok(fs) && forall|g: u32|
            g > field ==> #[trigger] last_varint(fs, g) == last_varint(fields_of(rest)->Ok_0, g),
{
    let fr = fields_of(rest)->Ok_0;
    law_len_field_is_read_back(field, data, rest);
    let fs = fields_of(len_field(field, data) + rest)->Ok_0;
    lemma_absent(fr, field, (field + 1) as u32);
    if data.len() > 0 {
        let f = (field, FieldValue::Len(data));
        assert(fs == seq![f] + fr);
        assert forall|i: int| 0 <= i < fr.len() implies (#[trigger] fr[i]).0 != field by {}
        lemma_last_of_prepend(fr, f, field);
        assert forall|g: u32| g > field implies #[trigger] last_len(fs, g) == last_len(fr, g) by {
            lemma_last_of_prepend(fr, f, g);
        }
        assert forall|g: u32| g > field implies #[trigger] last_varint(fs, g) == last_varint(
            fr,
            g,
        ) by {
            lemma_last_of_prepend(fr, f, g);
        }
    } else {
        assert(data =~= Seq::<u8>::empty());
    }
}

/// A number in front of fields with higher numbers is read with them.
pub proof fn lemma_front_varint(field: u32, v: u64, rest: Seq<u8>)
    requires
        field < u32::MAX,
        fields_of(rest) is Ok,
        numbered_from(fields_of(rest)->Ok_0, (field + 1) as u32),
    ensures
        fields_of(varint_field(field, v) + rest) matches Ok(fs) && numbered_from(fs, field)
            && last_varint(fs, field) == v && forall|g: u32|
            g > field ==> #[trigger] last_len(fs, g) == last_len(fields_of(rest)->Ok_0, g),
        fields_of(varint_field(field, v) + rest) matches Ok(fs) && forall|g: u32|
            g > field ==> #[trigger] last_varint(fs, g) == last_varint(fields_of(rest)->Ok_0, g),
{
    let fr = fields_of(rest)->Ok_0;
    law_varint_field_is_read_back(field, v, rest);
    let fs = fields_of(varint_field(field, v) + rest)->Ok_0;
    lemma_absent(fr, field, (field + 1) as u32);
    if v != 0 {
        let f = (field, FieldValue::Varint(v));
        assert(fs == seq![f] + fr);
        assert forall|i: int| 0 <= i < fr.len() implies (#[trigger] fr[i]).0 != field by {}
        lemma_last_of_prepend(fr, f, field);
        assert forall|g: u32| g > field implies #[trigger] last_len(fs, g) == last_len(fr, g) by {
            lemma_last_of_prepend(fr, f, g);
        }
        assert forall|g: u32| g > field implies #[trigger] last_varint(fs, g) == last_varint(
            fr,
            g,
        ) by {
            lemma_last_of_prepend(fr, f, g);
        }
    }
}

/// The bytes of a publish: topic, key and value, and the partition where one is
/// named.
pub open spec fn publish_bytes(
    topic: Seq<char>,
    key: Seq<u8>,
    value: Seq<u8>,
    partition: Option<u32>,
) -> Seq<u8> {
    len_field(1, encode_utf8(topic)) + (len_field(2, key) + (len_field(3, value) + (varint_field(
        4,
        if partition is Some {
            1
        } else {
            0
        },
    ) + varint_field(
        5,
        match partition {
            Some(p) => p as u64,
            None => 0,
        },
    ))))
}

/// A publish is read back: its topic, its key, its value and its partition.
pub proof fn law_publish_is_read_back(
    topic: Seq<char>,
    key: Seq<u8>,
    value: Seq<u8>,
    partition: Option<u32>,
)
    requires
        encode_utf8(topic).len() <= u64::MAX,
        key.len() <= u64::MAX,
        value.len() <= u64::MAX,
    ensures
        fields_of(publish_bytes(topic, key, value, partition)) matches Ok(fs) && last_text(fs, 1)
            == topic && last_len(fs, 2) == key && last_len(fs, 3) == value && (last_varint(fs, 4)
            != 0 <==> partition is Some) && (partition matches Some(p) ==> last_varint(fs, 5) == p),
{
    let none = Seq::<u8>::empty();
    let has: u64 = if partition is Some {
        1
    } else {
        0
    };
    let p: u64 = match partition {
        Some(p) => p as u64,
        None => 0,
    };
    text::lemma_lossy_of_text(topic);
    assert(fields_of(none) == Ok::<Seq<(u32, FieldValue)>, ProtoError>(Seq::empty()));
    let b5 = varint_field(5, p);
    assert(b5 + none =~= b5);
    lemma_front_varint(5, p, none);
    let b4 = varint_field(4, has) + b5;
    lemma_front_varint(4, has, b5);
    let b3 = len_field(3, value) + b4;
    lemma_front_len(3, value, b4);
    let b2 = len_field(2, key) + b3;
    lemma_front_len(2, key, b3);
    lemma_front_len(1, encode_utf8(topic), b2);
}

/// The bytes of a poll: topic, partition, group and how many records at most.
pub open spec fn poll_bytes(topic: Seq<char>, partition: u32, group: Seq<char>, max: u32) -> Seq<u8> {
    len_field(1, encode_utf8(topic)) + (varint_field(2, partition as u64) + (len_field(
        3,
        encode_utf8(group),
    ) + varint_field(4, max as u64)))
}

/// A poll is read back: its topic, its partition, its group and its limit.
pub proof fn law_poll_is_read_back(topic: Seq<char>, partition: u32, group: Seq<char>, max: u32)
    requires
        encode_utf8(topic).len() <= u64::MAX,
        encode_utf8(group).len() <= u64::MAX,
    ensures
        fields_of(poll_bytes(topic, partition, group, max)) matches Ok(fs) && last_text(fs, 1)
            == topic && last_varint(fs, 2) == partition && last_text(fs, 3) == group && last_varint(
            fs,
            4,
        ) == max,
{
    let none = Seq::<u8>::empty();
    text::lemma_lossy_of_text(topic);
    text::lemma_lossy_of_text(group);
    assert(fields_of(none) == Ok::<Seq<(u32, FieldValue)>, ProtoError>(Seq::empty()));
    let b4 = varint_field(4, max as u64);
    assert(b4 + none =~= b4);
    lemma_front_varint(4, max as u64, none);
    let b3 = len_field(3, encode_utf8(group)) + b4;
    lemma_front_len(3, encode_utf8(group), b4);
    let b2 = varint_field(2, partition as u64) + b3;
    lemma_front_varint(2, partition as u64, b3);
    lemma_front_len(1, encode_utf8(topic), b2);
}

/// The answer to a publish is read back: partition and offset. A message of one
/// text is read back too.
pub proof fn law_short_messages_are_read_back(partition: u32, offset: u64, name: Seq<char>)
    requires
        encode_utf8(name).len() <= u64::MAX,
    ensures
        fields_of(varint_field(1, partition as u64) + varint_field(2, offset)) matches Ok(fs)
            && last_varint(fs, 1) == partition && last_varint(fs, 2) == offset,
        fields_of(len_field(1, encode_utf8(name))) matches Ok(fs) && last_text(fs, 1) == name,
{
    let none = Seq::<u8>::empty();
    text::lemma_lossy_of_text(name);
    assert(fields_of(none) == Ok::<Seq<(u32, FieldValue)>, ProtoError>(Seq::empty()));
    let b2 = varint_field(2, offset);
    assert(b2 + none =~= b2);
    lemma_front_varint(2, offset, none);
    lemma_front_varint(1, partition as u64, b2);
    let b1 = len_field(1, encode_utf8(name));
    assert(b1 + none =~= b1);
    lemma_front_len(1, encode_utf8(name), none);
}

/// What the bytes of a number stand for: seven bits in each, the lowest first.
pub open spec fn sevens(s: Seq<u8>) -> nat
    decreases s.len(),
{
    if s.len() == 0 {
        0
    } else {
        (s[0] % 128) as nat + 128 * sevens(s.drop_first())
    }
}

/// A number is written in bytes of seven bits, the lowest first, each but the last
/// marked by its top bit. A tag is the number of its field and its kind in one
/// number.
pub proof fn law_numbers_are_written_in_sevens(v: u64, field: u32, wire: u64)
    requires
        wire < 8,
    ensures
        sevens(varint(v)) == v,
        varint(v).len() > 0,
        varint(v).last() < 128,
        forall|i: int| 0 <= i < varint(v).len() - 1 ==> #[trigger] varint(v)[i] >= 128,
        sevens(tag(field, wire)) == field * 8 + wire,
    decreases v,
{
    lemma_sevens(v);
    lemma_sevens((field * 8 + wire) as u64);
}

proof fn lemma_sevens(v: u64)
    ensures
        sevens(varint(v)) == v,
        varint(v).len() > 0,
        varint(v).last() < 128,
        forall|i: int| 0 <= i < varint(v).len() - 1 ==> #[trigger] varint(v)[i] >= 128,
    decreases v,
{
    let s = varint(v);
    if v < 128 {
        assert(s.drop_first() =~= Seq::<u8>::empty());
        assert(sevens(s.drop_first()) == 0);
    } else {
        lemma_sevens(v / 128);
        assert(s.drop_first() =~= varint(v / 128));
        assert forall|i: int| 0 <= i < s.len() - 1 implies #[trigger] s[i] >= 128 by {
            if i > 0 {
                assert(s[i] == varint(v / 128)[i - 1]);
            }
        }
        assert(s.last() == varint(v / 128).last());
    }
}

} // verus!
