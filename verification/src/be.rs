//! Big-endian integers and slices of byte buffers.

use vstd::prelude::*;

verus! {

/// The two big-endian bytes of `x`.
#[verifier::opaque]
pub open spec fn be16(x: u16) -> Seq<u8> {
    seq![(x / 256) as u8, (x % 256) as u8]
}

/// The four big-endian bytes of `x`.
#[verifier::opaque]
pub open spec fn be32(x: u32) -> Seq<u8> {
    seq![
        (x / 16777216) as u8,
        ((x / 65536) % 256) as u8,
        ((x / 256) % 256) as u8,
        (x % 256) as u8,
    ]
}

/// The eight big-endian bytes of `x`.
#[verifier::opaque]
pub open spec fn be64(x: u64) -> Seq<u8> {
    be32((x / 4294967296) as u32) + be32((x % 4294967296) as u32)
}

/// The number that two big-endian bytes stand for.
#[verifier::opaque]
pub open spec fn un16(s: Seq<u8>) -> u16 {
    (s[0] * 256 + s[1]) as u16
}

/// The number that four big-endian bytes stand for.
#[verifier::opaque]
pub open spec fn un32(s: Seq<u8>) -> u32 {
    (s[0] * 16777216 + s[1] * 65536 + s[2] * 256 + s[3]) as u32
}

/// The number that eight big-endian bytes stand for.
#[verifier::opaque]
pub open spec fn un64(s: Seq<u8>) -> u64 {
    (un32(s.subrange(0, 4)) * 4294967296 + un32(s.subrange(4, 8))) as u64
}

/// The number whose bytes start at `pos`.
pub open spec fn u16_at(s: Seq<u8>, pos: int) -> u16 {
    un16(s.subrange(pos, pos + 2))
}

/// The number whose bytes start at `pos`.
pub open spec fn u32_at(s: Seq<u8>, pos: int) -> u32 {
    un32(s.subrange(pos, pos + 4))
}

/// The number whose bytes start at `pos`.
pub open spec fn u64_at(s: Seq<u8>, pos: int) -> u64 {
    un64(s.subrange(pos, pos + 8))
}

/// Decoding what was encoded gives the number back.
pub broadcast proof fn lemma_be16(x: u16)
    ensures
        (#[trigger] be16(x)).len() == 2,
        un16(be16(x)) == x,
{
    reveal(be16);
    reveal(un16);
}

/// Decoding what was encoded gives the number back.
pub broadcast proof fn lemma_be32(x: u32)
    ensures
        (#[trigger] be32(x)).len() == 4,
        un32(be32(x)) == x,
{
    reveal(be32);
    reveal(un32);
}

/// Decoding what was encoded gives the number back.
pub broadcast proof fn lemma_be64(x: u64)
    ensures
        (#[trigger] be64(x)).len() == 8,
        un64(be64(x)) == x,
{
    reveal(be64);
    reveal(un64);
    let hi = (x / 4294967296) as u32;
    let lo = (x % 4294967296) as u32;
    lemma_be32(hi);
    lemma_be32(lo);
    assert(be64(x).subrange(0, 4) =~= be32(hi));
    assert(be64(x).subrange(4, 8) =~= be32(lo));
}

/// Appends the big-endian bytes of `x`.
pub fn put_u16(out: &mut Vec<u8>, x: u16)
    ensures
        final(out)@ == old(out)@ + be16(x),
{
    out.push((x / 256) as u8);
    out.push((x % 256) as u8);
    proof {
        reveal(be16);
        assert(out@ =~= old(out)@ + be16(x));
    }
}

/// Appends the big-endian bytes of `x`.
pub fn put_u32(out: &mut Vec<u8>, x: u32)
    ensures
        final(out)@ == old(out)@ + be32(x),
{
    out.push((x / 16777216) as u8);
    out.push(((x / 65536) % 256) as u8);
    out.push(((x / 256) % 256) as u8);
    out.push((x % 256) as u8);
    proof {
        reveal(be32);
        assert(out@ =~= old(out)@ + be32(x));
    }
}

/// Appends the big-endian bytes of `x`.
pub fn put_u64(out: &mut Vec<u8>, x: u64)
    ensures
        final(out)@ == old(out)@ + be64(x),
{
    put_u32(out, (x / 4294967296) as u32);
    put_u32(out, (x % 4294967296) as u32);
    proof {
        reveal(be64);
        assert(out@ =~= old(out)@ + be64(x));
    }
}

/// Appends a copy of `data`.
pub fn put_bytes(out: &mut Vec<u8>, data: &[u8])
    ensures
        final(out)@ == old(out)@ + data@,
{
    out.extend_from_slice(data);
    proof {
        assert(out@ =~= old(out)@ + data@);
    }
}

/// A length and the bytes it announces.
pub open spec fn prefixed(data: Seq<u8>) -> Seq<u8> {
    be32(data.len() as u32) + data
}

/// Appends a length and the bytes it announces.
pub fn put_prefixed(out: &mut Vec<u8>, data: &[u8])
    ensures
        final(out)@ == old(out)@ + prefixed(data@),
{
    put_u32(out, data.len() as u32);
    put_bytes(out, data);
    proof {
        assert(out@ =~= old(out)@ + prefixed(data@));
    }
}

/// Where the bytes of `x` stand, `x` is read.
pub proof fn lemma_u32_at(s: Seq<u8>, pos: int, x: u32)
    requires
        0 <= pos,
        pos + 4 <= s.len(),
        s.subrange(pos, pos + 4) == be32(x),
    ensures
        u32_at(s, pos) == x,
{
    lemma_be32(x);
}

/// Where the bytes of `x` stand, `x` is read.
pub proof fn lemma_u64_at(s: Seq<u8>, pos: int, x: u64)
    requires
        0 <= pos,
        pos + 8 <= s.len(),
        s.subrange(pos, pos + 8) == be64(x),
    ensures
        u64_at(s, pos) == x,
{
    lemma_be64(x);
}

/// Whether `part` stands in `s` from `pos` on.
pub open spec fn stands(s: Seq<u8>, pos: int, part: Seq<u8>) -> bool {
    &&& 0 <= pos
    &&& pos + part.len() <= s.len()
    &&& s.subrange(pos, pos + part.len()) == part
}

/// The two halves of what stands somewhere stand behind one another.
pub proof fn lemma_stands_split(s: Seq<u8>, pos: int, a: Seq<u8>, b: Seq<u8>)
    requires
        stands(s, pos, a + b),
    ensures
        stands(s, pos, a),
        stands(s, pos + a.len(), b),
{
    let whole = s.subrange(pos, pos + a.len() + b.len());
    assert(s.subrange(pos, pos + a.len()) =~= whole.subrange(0, a.len() as int));
    assert(whole.subrange(0, a.len() as int) =~= a);
    assert(s.subrange(pos + a.len(), pos + a.len() + b.len()) =~= whole.subrange(
        a.len() as int,
        (a.len() + b.len()) as int,
    ));
    assert(whole.subrange(a.len() as int, (a.len() + b.len()) as int) =~= b);
}

/// Where a length-prefixed field stands, its length and its bytes are read.
pub proof fn lemma_stands_prefixed(s: Seq<u8>, pos: int, data: Seq<u8>)
    requires
        stands(s, pos, prefixed(data)),
        data.len() <= u32::MAX,
    ensures
        u32_at(s, pos) == data.len(),
        pos + 4 + data.len() <= s.len(),
        s.subrange(pos + 4, pos + 4 + data.len()) == data,
{
    lemma_be32(data.len() as u32);
    lemma_stands_split(s, pos, be32(data.len() as u32), data);
}

/// Reads the number whose bytes start at `pos`.
pub fn get_u16(data: &[u8], pos: usize) -> (x: u16)
    requires
        pos + 2 <= data@.len(),
    ensures
        x == u16_at(data@, pos as int),
{
    proof {
        reveal(un16);
    }
    (data[pos] as u16) * 256 + data[pos + 1] as u16
}

/// Reads the number whose bytes start at `pos`.
pub fn get_u32(data: &[u8], pos: usize) -> (x: u32)
    requires
        pos + 4 <= data@.len(),
    ensures
        x == u32_at(data@, pos as int),
{
    proof {
        reveal(un32);
    }
    (data[pos] as u32) * 16777216 + (data[pos + 1] as u32) * 65536 + (data[pos + 2] as u32) * 256
        + data[pos + 3] as u32
}

/// Reads the number whose bytes start at `pos`.
pub fn get_u64(data: &[u8], pos: usize) -> (x: u64)
    requires
        pos + 8 <= data@.len(),
    ensures
        x == u64_at(data@, pos as int),
{
    assert(data.len() == data@.len());
    let hi: u32 = get_u32(data, pos);
    let lo: u32 = get_u32(data, pos + 4);
    proof {
        reveal(un64);
        let s = data@.subrange(pos as int, pos + 8);
        assert(s.subrange(0, 4) =~= data@.subrange(pos as int, pos + 4));
        assert(s.subrange(4, 8) =~= data@.subrange(pos + 4, pos + 8));
    }
    (hi as u64) * 4294967296 + lo as u64
}

/// Copies `data[from..to]`.
pub fn copy_range(data: &[u8], from: usize, to: usize) -> (out: Vec<u8>)
    requires
        from <= to <= data@.len(),
    ensures
        out@ == data@.subrange(from as int, to as int),
{
    vstd::slice::slice_to_vec(vstd::slice::slice_subrange(data, from, to))
}

/// Whether the two buffers hold the same bytes.
pub fn same_bytes(a: &[u8], b: &[u8]) -> (same: bool)
    ensures
        same == (a@ == b@),
{
    if a.len() != b.len() {
        return false;
    }
    let mut i: usize = 0;
    while i < a.len()
        invariant
            i <= a@.len(),
            a@.len() == b@.len(),
            forall|k: int| 0 <= k < i ==> a@[k] == b@[k],
        decreases a@.len() - i,
    {
        if a[i] != b[i] {
            return false;
        }
        i += 1;
    }
    proof {
        assert(a@ =~= b@);
    }
    true
}

/// The end of the length-prefixed field at `pos`, if the buffer reaches it.
pub open spec fn field_end(buf: Seq<u8>, pos: int) -> Option<int> {
    if pos + 4 > buf.len() {
        None
    } else if pos + 4 + u32_at(buf, pos) > buf.len() {
        None
    } else {
        Some(pos + 4 + u32_at(buf, pos))
    }
}

/// Finds the end of the length-prefixed field at `pos`.
pub fn field_range(buf: &[u8], pos: usize) -> (r: Option<usize>)
    requires
        pos <= buf@.len(),
    ensures
        match r {
            Some(end) => field_end(buf@, pos as int) == Some(end as int) && pos + 4 <= end
                <= buf@.len(),
            None => field_end(buf@, pos as int) is None,
        },
{
    if buf.len() - pos < 4 {
        return None;
    }
    let len: u32 = get_u32(buf, pos);
    if ((buf.len() - pos - 4) as u64) < len as u64 {
        return None;
    }
    Some(pos + 4 + len as usize)
}

/// A field that is there in a prefix of the buffer is there in the buffer.
pub proof fn lemma_field_of_prefix(buf: Seq<u8>, m: int, pos: int)
    requires
        0 <= pos,
        0 <= m <= buf.len(),
    ensures
        field_end(buf.subrange(0, m), pos) == (match field_end(buf, pos) {
            Some(e) => if e <= m {
                Some(e)
            } else {
                None
            },
            None => None,
        }),
{
    if pos + 4 <= m {
        assert(buf.subrange(0, m).subrange(pos, pos + 4) =~= buf.subrange(pos, pos + 4));
    }
}

/// The bytes of several byte strings.
pub open spec fn contents(vs: Seq<Vec<u8>>) -> Seq<Seq<u8>> {
    vs.map_values(|v: Vec<u8>| v@)
}

/// Several length-prefixed fields, one behind the other.
pub open spec fn fields(fs: Seq<Seq<u8>>) -> Seq<u8>
    decreases fs.len(),
{
    if fs.len() == 0 {
        Seq::empty()
    } else {
        fields(fs.drop_last()) + prefixed(fs.last())
    }
}

/// The `count` fields from `pos` on and the position behind them; nothing
/// where the buffer ends inside one of them.
pub open spec fn fields_at(buf: Seq<u8>, pos: int, count: nat) -> Option<(Seq<Seq<u8>>, int)>
    decreases count,
{
    if count == 0 {
        Some((Seq::empty(), pos))
    } else {
        match fields_at(buf, pos, (count - 1) as nat) {
            None => None,
            Some((fs, mid)) => match field_end(buf, mid) {
                None => None,
                Some(end) => Some((fs.push(buf.subrange(mid + 4, end)), end)),
            },
        }
    }
}

/// Fields lie inside the buffer.
pub proof fn lemma_fields_advance(buf: Seq<u8>, pos: int, count: nat)
    requires
        0 <= pos <= buf.len(),
    ensures
        fields_at(buf, pos, count) matches Some((fs, end)) ==> pos <= end <= buf.len()
            && fs.len() == count,
    decreases count,
{
    if count > 0 {
        lemma_fields_advance(buf, pos, (count - 1) as nat);
    }
}

proof fn lemma_fields_none(buf: Seq<u8>, pos: int, few: nat, many: nat)
    requires
        few <= many,
        fields_at(buf, pos, few) is None,
    ensures
        fields_at(buf, pos, many) is None,
    decreases many - few,
{
    if few < many {
        lemma_fields_none(buf, pos, few + 1, many);
    }
}

/// Fields stay where they are when bytes are added behind them.
pub proof fn lemma_fields_grow(buf: Seq<u8>, more: Seq<u8>, pos: int, count: nat)
    requires
        0 <= pos <= buf.len(),
        fields_at(buf, pos, count) is Some,
    ensures
        fields_at(buf + more, pos, count) == fields_at(buf, pos, count),
    decreases count,
{
    if count > 0 {
        lemma_fields_grow(buf, more, pos, (count - 1) as nat);
        lemma_fields_advance(buf, pos, (count - 1) as nat);
        if let Some((fs, mid)) = fields_at(buf, pos, (count - 1) as nat) {
            let whole = buf + more;
            lemma_field_of_prefix(whole, buf.len() as int, mid);
            assert(whole.subrange(0, buf.len() as int) =~= buf);
            if let Some(end) = field_end(buf, mid) {
                assert(whole.subrange(mid + 4, end) =~= buf.subrange(mid + 4, end));
            }
        }
    }
}

/// Fields that were written are read.
pub proof fn lemma_fields_stand(buf: Seq<u8>, pos: int, fs: Seq<Seq<u8>>)
    requires
        stands(buf, pos, fields(fs)),
        forall|i: int| 0 <= i < fs.len() ==> (#[trigger] fs[i]).len() <= u32::MAX,
    ensures
        fields_at(buf, pos, fs.len()) == Some((fs, pos + fields(fs).len())),
    decreases fs.len(),
{
    if fs.len() == 0 {
        assert(fs =~= Seq::empty());
    } else {
        let rest = fs.drop_last();
        let last = fs[fs.len() - 1];
        lemma_be32(last.len() as u32);
        lemma_stands_split(buf, pos, fields(rest), prefixed(last));
        assert forall|i: int| 0 <= i < rest.len() implies (#[trigger] rest[i]).len()
            <= u32::MAX by {
            assert(rest[i] == fs[i]);
        }
        lemma_fields_stand(buf, pos, rest);
        lemma_stands_prefixed(buf, pos + fields(rest).len(), last);
        assert(rest.push(last) =~= fs);
    }
}

/// Reads `count` fields from `pos` on.
pub fn read_fields(buf: &[u8], pos: usize, count: u32) -> (r: Option<(Vec<Vec<u8>>, usize)>)
    requires
        pos <= buf@.len(),
    ensures
        match r {
            Some((fs, end)) => fields_at(buf@, pos as int, count as nat) == Some(
                (contents(fs@), end as int),
            ) && pos <= end <= buf@.len(),
            None => fields_at(buf@, pos as int, count as nat) is None,
        },
{
    let mut fs: Vec<Vec<u8>> = Vec::new();
    let mut cursor: usize = pos;
    let mut i: u32 = 0;
    proof {
        assert(contents(fs@) =~= Seq::empty());
    }
    while i < count
        invariant
            i <= count,
            pos <= cursor <= buf@.len(),
            fields_at(buf@, pos as int, i as nat) == Some((contents(fs@), cursor as int)),
        decreases count - i,
    {
        match field_range(buf, cursor) {
            Some(end) => {
                let ghost before = fs@;
                let field = copy_range(buf, cursor + 4, end);
                fs.push(field);
                cursor = end;
                proof {
                    assert(contents(fs@) =~= contents(before).push(field@));
                }
            },
            None => {
                proof {
                    lemma_fields_none(buf@, pos as int, (i + 1) as nat, count as nat);
                }
                return None;
            },
        }
        i += 1;
    }
    Some((fs, cursor))
}

/// Appends several fields.
pub fn put_fields(out: &mut Vec<u8>, fs: &Vec<Vec<u8>>)
    ensures
        final(out)@ == old(out)@ + fields(contents(fs@)),
{
    let ghost all = contents(fs@);
    let mut i: usize = 0;
    proof {
        assert(all.take(0) =~= Seq::empty());
        assert(out@ =~= old(out)@ + fields(all.take(0)));
    }
    while i < fs.len()
        invariant
            i <= fs@.len(),
            all == contents(fs@),
            out@ == old(out)@ + fields(all.take(i as int)),
        decreases fs@.len() - i,
    {
        put_prefixed(out, fs[i].as_slice());
        proof {
            assert(all.take(i + 1).drop_last() =~= all.take(i as int));
            assert(all.take(i + 1).last() == fs@[i as int]@);
            assert(out@ =~= old(out)@ + fields(all.take(i + 1)));
        }
        i += 1;
    }
    assert(all.take(i as int) =~= all);
}

/// Signed numbers keep their value through their unsigned bits.
pub proof fn lemma_signed_bits(x: i64)
    ensures
        (x as u64) as i64 == x,
        x == -1 ==> x as u64 == u64::MAX,
{
    assert((x as u64) as i64 == x) by (bit_vector);
    assert(x == -1 ==> x as u64 == 0xffff_ffff_ffff_ffffu64) by (bit_vector);
}

/// The eight bytes of `x`, the lowest first.
pub open spec fn le64(x: u64) -> Seq<u8> {
    be64(x).reverse()
}

/// Makes the eight bytes of `x`, the lowest first.
pub fn le64_bytes(x: u64) -> (out: Vec<u8>)
    ensures
        out@ == le64(x),
{
    let mut forward: Vec<u8> = Vec::new();
    put_u64(&mut forward, x);
    let mut out: Vec<u8> = Vec::new();
    proof {
        lemma_be64(x);
        assert(forward@ =~= be64(x));
    }
    let mut i: usize = 0;
    while i < 8
        invariant
            i <= 8,
            forward@ == be64(x),
            forward@.len() == 8,
            out@.len() == i,
            forall|k: int| 0 <= k < i ==> #[trigger] out@[k] == forward@[7 - k],
        decreases 8 - i,
    {
        out.push(forward[7 - i]);
        i += 1;
    }
    assert(out@ =~= le64(x));
    out
}

/// The first byte of a number counts most, and each byte 256 times the next.
pub proof fn law_first_byte_counts_most(a: u16, b: u32, c: u64)
    ensures
        be16(a).len() == 2 && be16(a)[0] * 0x100 + be16(a)[1] == a,
        be32(b).len() == 4 && be32(b)[0] * 0x100_0000 + be32(b)[1] * 0x1_0000 + be32(b)[2] * 0x100
            + be32(b)[3] == b,
        be64(c).len() == 8 && be64(c).subrange(0, 4) == be32((c / 0x1_0000_0000) as u32)
            && be64(c).subrange(4, 8) == be32((c % 0x1_0000_0000) as u32),
{
    reveal(be16);
    reveal(be32);
    reveal(be64);
    lemma_be32((c / 0x1_0000_0000) as u32);
    lemma_be32((c % 0x1_0000_0000) as u32);
    assert(be64(c).subrange(0, 4) =~= be32((c / 0x1_0000_0000) as u32));
    assert(be64(c).subrange(4, 8) =~= be32((c % 0x1_0000_0000) as u32));
}

/// A number is read from its own bytes, wherever they stand: the first byte
/// counts most.
pub proof fn law_number_is_read_from_its_place(s: Seq<u8>, pos: int)
    requires
        0 <= pos,
    ensures
        pos + 2 <= s.len() ==> u16_at(s, pos) == s[pos] * 0x100 + s[pos + 1],
        pos + 4 <= s.len() ==> u32_at(s, pos) == s[pos] * 0x100_0000 + s[pos + 1] * 0x1_0000 + s[pos
            + 2] * 0x100 + s[pos + 3],
        pos + 8 <= s.len() ==> u64_at(s, pos) == u32_at(s, pos) * 0x1_0000_0000 + u32_at(s, pos + 4),
{
    reveal(un16);
    reveal(un32);
    reveal(un64);
    if pos + 8 <= s.len() {
        assert(s.subrange(pos, pos + 8).subrange(0, 4) =~= s.subrange(pos, pos + 4));
        assert(s.subrange(pos, pos + 8).subrange(4, 8) =~= s.subrange(pos + 4, pos + 8));
    }
}

/// A field is its length in four bytes, and then itself.
pub proof fn law_field_is_its_length_and_itself(data: Seq<u8>)
    requires
        data.len() <= u32::MAX,
    ensures
        prefixed(data).len() == 4 + data.len(),
        u32_at(prefixed(data), 0) == data.len(),
        prefixed(data).skip(4) == data,
{
    lemma_be32(data.len() as u32);
    assert(prefixed(data).subrange(0, 4) =~= be32(data.len() as u32));
    assert(prefixed(data).skip(4) =~= data);
}

/// A part of a sequence stands where it was put.
pub proof fn lemma_stands_between(head: Seq<u8>, part: Seq<u8>, tail: Seq<u8>)
    ensures
        stands(head + part + tail, head.len() as int, part),
{
    let s = head + part + tail;
    assert(s.subrange(head.len() as int, (head.len() + part.len()) as int) =~= part);
}

} // verus!
