//! Append-only record logs: each record behind its four-byte length.
//!
//! A log may end in the middle of a length, which is ignored; a record that is
//! announced must be there in full.

use vstd::prelude::*;

use crate::be;
use crate::be::{copy_range, get_u32, put_prefixed};

verus! {

/// A log ends inside a record.
#[derive(Debug, Clone, Copy, PartialEq, Eq, Structural)]
pub struct CutOff;

/// The records of a log from `pos` on.
pub open spec fn records_in(log: Seq<u8>, pos: int) -> Result<Seq<Seq<u8>>, CutOff>
    decreases log.len() - pos,
{
    if pos < 0 || pos + 4 > log.len() {
        Ok(Seq::empty())
    } else if pos + 4 + be::u32_at(log, pos) > log.len() {
        Err(CutOff)
    } else {
        let end = pos + 4 + be::u32_at(log, pos);
        match records_in(log, end) {
            Err(e) => Err(e),
            Ok(more) => Ok(seq![log.subrange(pos + 4, end)] + more),
        }
    }
}

/// Appends a record to a log.
pub fn append_record(log: &mut Vec<u8>, record: &[u8])
    ensures
        final(log)@ == old(log)@ + be::prefixed(record@),
{
    put_prefixed(log, record)
}

/// Splits a log, or the part of one from `pos` on, into its records.
pub fn split_records(log: &[u8], pos: usize) -> (r: Result<Vec<Vec<u8>>, CutOff>)
    requires
        pos <= log@.len(),
    ensures
        match r {
            Ok(rs) => records_in(log@, pos as int) == Ok::<Seq<Seq<u8>>, CutOff>(
                be::contents(rs@),
            ),
            Err(e) => records_in(log@, pos as int) == Err::<Seq<Seq<u8>>, CutOff>(e),
        },
{
    let mut out: Vec<Vec<u8>> = Vec::new();
    let mut cursor: usize = pos;
    assert(be::contents(out@) =~= Seq::empty());
    while log.len() - cursor >= 4
        invariant
            pos <= cursor <= log@.len(),
            records_in(log@, pos as int) == (match records_in(log@, cursor as int) {
                Err(e) => Err::<Seq<Seq<u8>>, CutOff>(e),
                Ok(more) => Ok(be::contents(out@) + more),
            }),
        decreases log@.len() - cursor,
    {
        let len: u32 = get_u32(log, cursor);
        if ((log.len() - cursor - 4) as u64) < len as u64 {
            return Err(CutOff);
        }
        let end: usize = cursor + 4 + len as usize;
        let record = copy_range(log, cursor + 4, end);
        let ghost before = out@;
        out.push(record);
        proof {
            assert(be::contents(out@) =~= be::contents(before).push(record@));
            if let Ok(more) = records_in(log@, end as int) {
                assert(be::contents(before) + (seq![record@] + more) =~= be::contents(out@)
                    + more);
            }
        }
        cursor = end;
    }
    proof {
        assert(be::contents(out@) + Seq::empty() =~= be::contents(out@));
    }
    Ok(out)
}

/// What was appended to a log is read back, record for record, from wherever
/// the log starts.
pub proof fn law_log_gives_back_its_records(head: Seq<u8>, records: Seq<Seq<u8>>)
    requires
        forall|i: int| 0 <= i < records.len() ==> (#[trigger] records[i]).len() <= u32::MAX,
    ensures
        records_in(head + be::fields(records), head.len() as int) == Ok::<Seq<Seq<u8>>, CutOff>(
            records,
        ),
{
    let log = head + be::fields(records);
    assert(log.subrange(head.len() as int, log.len() as int) =~= be::fields(records));
    be::lemma_fields_stand(log, head.len() as int, records);
    lemma_fields_are_records(log, head.len() as int, records.len(), 0);
    assert(records.skip(0) =~= records);
}

proof fn lemma_fields_are_records(log: Seq<u8>, pos: int, count: nat, done: nat)
    requires
        0 <= pos <= log.len(),
        done <= count,
        be::fields_at(log, pos, count) matches Some((_, end)) && end == log.len(),
    ensures
        ({
            let fs = be::fields_at(log, pos, count)->Some_0.0;
            let mid = be::fields_at(log, pos, done)->Some_0.1;
            &&& be::fields_at(log, pos, done) is Some
            &&& fs.len() == count
            &&& records_in(log, mid) == Ok::<Seq<Seq<u8>>, CutOff>(fs.skip(done as int))
        }),
    decreases count - done,
{
    be::lemma_fields_advance(log, pos, count);
    lemma_fewer_fields(log, pos, done, count);
    let fs = be::fields_at(log, pos, count)->Some_0.0;
    be::lemma_fields_advance(log, pos, done);
    let mid = be::fields_at(log, pos, done)->Some_0.1;
    if done == count {
        assert(fs.skip(done as int) =~= Seq::empty());
    } else {
        lemma_fewer_fields(log, pos, done + 1, count);
        lemma_fields_are_records(log, pos, count, done + 1);
        let next = be::fields_at(log, pos, done + 1)->Some_0.1;
        let head = be::fields_at(log, pos, done + 1)->Some_0.0;
        assert(head[done as int] == log.subrange(mid + 4, next));
        assert(head[done as int] == fs[done as int]);
        assert(fs.skip(done as int) =~= seq![log.subrange(mid + 4, next)] + fs.skip(done as int + 1));
    }
}

proof fn lemma_fewer_fields(log: Seq<u8>, pos: int, few: nat, many: nat)
    requires
        0 <= pos <= log.len(),
        few <= many,
        be::fields_at(log, pos, many) is Some,
    ensures
        be::fields_at(log, pos, few) is Some,
        be::fields_at(log, pos, few)->Some_0.0 == be::fields_at(log, pos, many)->Some_0.0.take(few as int),
    decreases many - few,
{
    be::lemma_fields_advance(log, pos, many);
    let fs = be::fields_at(log, pos, many)->Some_0.0;
    if few == many {
        assert(fs.take(few as int) =~= fs);
    } else {
        let less = be::fields_at(log, pos, (many - 1) as nat);
        be::lemma_fields_advance(log, pos, (many - 1) as nat);
        lemma_fewer_fields(log, pos, few, (many - 1) as nat);
        assert(fs.take(few as int) =~= less->Some_0.0.take(few as int));
    }
}

/// A log that ends inside a record is told to be cut off; fewer bytes than a
/// length takes are passed over.
pub proof fn law_cut_off_record_is_told(
    head: Seq<u8>,
    records: Seq<Seq<u8>>,
    last: Seq<u8>,
    k: int,
)
    requires
        forall|i: int| 0 <= i < records.len() ==> (#[trigger] records[i]).len() <= u32::MAX,
        last.len() <= u32::MAX,
        0 <= k < 4 + last.len(),
    ensures
        records_in(
            head + be::fields(records) + be::prefixed(last).take(k),
            head.len() as int,
        ) == (if k < 4 {
            Ok::<Seq<Seq<u8>>, CutOff>(records)
        } else {
            Err(CutOff)
        }),
    decreases records.len(),
{
    let tail = be::prefixed(last).take(k);
    let log = head + be::fields(records) + tail;
    be::lemma_be32(last.len() as u32);
    if records.len() == 0 {
        assert(log =~= head + tail);
        if k >= 4 {
            assert(log.subrange(head.len() as int, (head.len() + 4) as int) =~= be::be32(last.len() as u32));
        }
        assert(records =~= Seq::<Seq<u8>>::empty());
    } else {
        let first = records[0];
        let rest = records.drop_first();
        assert forall|i: int| 0 <= i < rest.len() implies (#[trigger] rest[i]).len()
            <= u32::MAX by {
            assert(rest[i] == records[i + 1]);
        }
        assert(first.len() <= u32::MAX);
        let now = head + be::prefixed(first);
        law_cut_off_record_is_told(now, rest, last, k);
        lemma_fields_first(records);
        assert(now + be::fields(rest) + tail =~= log);
        be::lemma_be32(first.len() as u32);
        assert(log.subrange(head.len() as int, (head.len() + 4) as int) =~= be::be32(first.len() as u32));
        assert(log.subrange(
            (head.len() + 4) as int,
            (head.len() + 4 + first.len()) as int,
        ) =~= first);
        assert(seq![first] + rest =~= records);
    }
}

proof fn lemma_fields_first(fs: Seq<Seq<u8>>)
    requires
        fs.len() > 0,
    ensures
        be::fields(fs) == be::prefixed(fs[0]) + be::fields(fs.drop_first()),
    decreases fs.len(),
{
    if fs.len() == 1 {
        reveal_with_fuel(be::fields, 2);
        assert(be::fields(fs) =~= be::prefixed(fs[0]) + be::fields(fs.drop_first()));
    } else {
        lemma_fields_first(fs.drop_last());
        assert(fs.drop_last().drop_first() =~= fs.drop_first().drop_last());
        assert(be::fields(fs) =~= be::prefixed(fs[0]) + be::fields(fs.drop_first()));
    }
}

} // verus!
