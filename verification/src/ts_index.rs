//! An index of rows by time, in buckets of equal length.

use vstd::prelude::*;
use vstd::string::*;
use vstd::utf8::*;

use crate::be;
use crate::be::{copy_range, get_u16, get_u64, put_bytes, put_u16, put_u64};
use crate::framed;
use crate::framed::split_records;
use crate::text;
use crate::text::text_strict;

verus! {

/// The length of a bucket, and for how long raw rows are kept.
#[derive(Debug, Clone, Copy, PartialEq, Eq, Structural)]
pub struct TimeBucketPolicy {
    pub granularity_ms: i64,
    /// Buckets that end at least this long before the newest row keep their
    /// count only; nothing is dropped without it.
    pub retention_ms: Option<i64>,
}

/// One indexed row. The value is the bit pattern of a double.
#[derive(Debug, Clone, PartialEq)]
pub struct TsEntry {
    pub row_key: Vec<u8>,
    pub ts: i64,
    pub value: u64,
}

/// An indexed row as a mathematical value.
pub struct EntryView {
    pub row_key: Seq<u8>,
    pub ts: i64,
    pub value: u64,
}

impl View for TsEntry {
    type V = EntryView;

    open spec fn view(&self) -> EntryView {
        EntryView { row_key: self.row_key@, ts: self.ts, value: self.value }
    }
}

impl TsEntry {
    fn duplicate(&self) -> (r: TsEntry)
        ensures
            r@ == self@,
    {
        let row_key = copy_range(self.row_key.as_slice(), 0, self.row_key.len());
        assert(row_key@ =~= self.row_key@);
        TsEntry { row_key, ts: self.ts, value: self.value }
    }
}

/// What a bucket still holds of its rows.
#[derive(Debug, PartialEq)]
pub enum BucketState {
    /// Rows in the order in which they came.
    Open(Vec<TsEntry>),
    /// Rows in the order of their times.
    Sealed(Vec<TsEntry>),
    /// No rows.
    Downsampled,
}

pub enum StateView {
    Open(Seq<EntryView>),
    Sealed(Seq<EntryView>),
    Downsampled,
}

/// The rows of one stretch of time, with how many there have been.
#[derive(Debug, PartialEq)]
pub struct Bucket {
    pub start: i64,
    pub count: u64,
    pub state: BucketState,
}

pub struct BucketView {
    pub start: i64,
    pub count: u64,
    pub state: StateView,
}

pub open spec fn entry_views(es: Seq<TsEntry>) -> Seq<EntryView> {
    es.map_values(|e: TsEntry| e@)
}

impl View for BucketState {
    type V = StateView;

    open spec fn view(&self) -> StateView {
        match self {
            BucketState::Open(es) => StateView::Open(entry_views(es@)),
            BucketState::Sealed(es) => StateView::Sealed(entry_views(es@)),
            BucketState::Downsampled => StateView::Downsampled,
        }
    }
}

impl View for Bucket {
    type V = BucketView;

    open spec fn view(&self) -> BucketView {
        BucketView { start: self.start, count: self.count, state: self.state@ }
    }
}

pub open spec fn bucket_views(bs: Seq<Bucket>) -> Seq<BucketView> {
    bs.map_values(|b: Bucket| b@)
}

/// Where the bucket of a time starts.
pub open spec fn start_of(ts: int, granularity: int) -> int {
    (ts / granularity) * granularity
}

/// Whether the bucket of a time lies within the range of times.
pub open spec fn representable(ts: i64, granularity: i64) -> bool {
    &&& granularity != 0
    &&& i64::MIN <= start_of(ts as int, granularity as int)
    &&& i64::MIN <= start_of(ts as int, granularity as int) + granularity <= i64::MAX
}

/// A bucket starts no later than its times, and less than its length before
/// them.
pub proof fn lemma_start(ts: int, granularity: int)
    requires
        granularity != 0,
    ensures
        start_of(ts, granularity) <= ts,
        ts - start_of(ts, granularity) < (if granularity > 0 {
            granularity
        } else {
            -granularity
        }),
{
    vstd::arithmetic::div_mod::lemma_fundamental_div_mod(ts, granularity);
    vstd::arithmetic::mul::lemma_mul_is_commutative(ts / granularity, granularity);
    assert(0 <= ts % granularity);
    assert(ts % granularity < (if granularity > 0 {
        granularity
    } else {
        -granularity
    })) by (nonlinear_arith)
        requires
            granularity != 0,
    ;
}

/// Division does not enlarge, except that of the smallest number by -1.
proof fn lemma_quotient_fits(ts: int, granularity: int)
    requires
        i64::MIN <= ts <= i64::MAX,
        granularity != 0,
        !(ts == i64::MIN && granularity == -1),
    ensures
        i64::MIN <= ts / granularity <= i64::MAX,
{
    lemma_start(ts, granularity);
    let q = ts / granularity;
    let r = ts - q * granularity;
    assert(i64::MIN <= q <= i64::MAX) by (nonlinear_arith)
        requires
            ts == q * granularity + r,
            0 <= r,
            granularity > 0 ==> r < granularity,
            granularity < 0 ==> r < -granularity,
            granularity != 0,
            i64::MIN <= ts <= i64::MAX,
            !(ts == i64::MIN && granularity == -1),
    ;
}

/// Later times have later buckets.
pub proof fn lemma_start_monotonic(a: int, b: int, granularity: int)
    requires
        granularity != 0,
        a <= b,
    ensures
        start_of(a, granularity) <= start_of(b, granularity),
{
    let x = start_of(a, granularity);
    let y = start_of(b, granularity);
    lemma_start(a, granularity);
    lemma_start(b, granularity);
    if y < x {
        // Starts are whole multiples of the length apart.
        let p = a / granularity;
        let q = b / granularity;
        assert(p * granularity - q * granularity == (p - q) * granularity) by (nonlinear_arith);
        assert(x - y == (p - q) * granularity);
        assert(x - y >= (if granularity > 0 {
            granularity
        } else {
            -granularity
        })) by (nonlinear_arith)
            requires
                x - y == (p - q) * granularity,
                x - y > 0,
                granularity != 0,
        ;
        assert(false);
    }
}

/// Where the bucket of a time starts.
pub fn bucket_start(ts: i64, granularity_ms: i64) -> (start: i64)
    requires
        granularity_ms != 0,
        !(ts == i64::MIN && granularity_ms == -1),
        i64::MIN <= start_of(ts as int, granularity_ms as int),
    ensures
        start == start_of(ts as int, granularity_ms as int),
{
    proof {
        lemma_start(ts as int, granularity_ms as int);
        lemma_quotient_fits(ts as int, granularity_ms as int);
    }
    match ts.checked_div_euclid(granularity_ms) {
        Some(q) => q * granularity_ms,
        None => ts,
    }
}

/// Where the bucket of a time starts, outside the range of times too.
fn start_wide(ts: i64, granularity_ms: i64) -> (start: i128)
    requires
        granularity_ms != 0,
    ensures
        start == start_of(ts as int, granularity_ms as int),
        ts - 9223372036854775808 <= start <= ts,
{
    proof {
        lemma_start(ts as int, granularity_ms as int);
        if !(ts == i64::MIN && granularity_ms == -1) {
            lemma_quotient_fits(ts as int, granularity_ms as int);
        } else {
            let q = ts as int / granularity_ms as int;
            assert(q * granularity_ms == -q) by (nonlinear_arith)
                requires
                    granularity_ms == -1,
            ;
        }
    }
    match (ts as i128).checked_div_euclid(granularity_ms as i128) {
        Some(q) => q * granularity_ms as i128,
        None => 0,
    }
}

/// `sorted` with `e` behind the last row that is not later.
pub open spec fn placed(sorted: Seq<EntryView>, e: EntryView) -> Seq<EntryView>
    decreases sorted.len(),
{
    if sorted.len() == 0 || sorted.last().ts <= e.ts {
        sorted.push(e)
    } else {
        placed(sorted.drop_last(), e).push(sorted.last())
    }
}

/// Rows in the order of their times, those of one time in the order in which
/// they stand.
pub open spec fn by_time(es: Seq<EntryView>) -> Seq<EntryView>
    decreases es.len(),
{
    if es.len() == 0 {
        es
    } else {
        placed(by_time(es.drop_last()), es.last())
    }
}

/// Whether rows stand in the order of their times.
pub open spec fn ascending(es: Seq<EntryView>) -> bool {
    forall|i: int, j: int| 0 <= i <= j < es.len() ==> es[i].ts <= es[j].ts
}

proof fn lemma_placed(sorted: Seq<EntryView>, e: EntryView)
    requires
        ascending(sorted),
    ensures
        ascending(placed(sorted, e)),
        placed(sorted, e).to_multiset() == sorted.to_multiset().insert(e),
        placed(sorted, e).len() == sorted.len() + 1,
        forall|i: int|
            0 <= i < placed(sorted, e).len() ==> (#[trigger] placed(sorted, e)[i]) == e
                || sorted.contains(placed(sorted, e)[i]),
    decreases sorted.len(),
{
    broadcast use vstd::seq_lib::group_to_multiset_ensures;

    if sorted.len() == 0 || sorted.last().ts <= e.ts {
        assert forall|i: int| 0 <= i < sorted.push(e).len() implies (#[trigger] sorted.push(e)[i])
            == e || sorted.contains(sorted.push(e)[i]) by {
            if i < sorted.len() {
                assert(sorted[i] == sorted.push(e)[i]);
            }
        }
    } else {
        let head = sorted.drop_last();
        lemma_placed(head, e);
        assert(sorted =~= head.push(sorted.last()));
        let p = placed(head, e);
        assert forall|i: int| 0 <= i < p.len() implies (#[trigger] p[i]).ts <= sorted.last().ts by {
            if p[i] != e {
                let k = choose|k: int| 0 <= k < head.len() && head[k] == p[i];
                assert(sorted[k] == p[i]);
            }
        }
        assert forall|i: int| 0 <= i < p.push(sorted.last()).len() implies (
        #[trigger] p.push(sorted.last())[i]) == e || sorted.contains(
            p.push(sorted.last())[i],
        ) by {
            if i < p.len() {
                if p[i] != e {
                    let k = choose|k: int| 0 <= k < head.len() && head[k] == p[i];
                    assert(sorted[k] == p[i]);
                }
            } else {
                assert(sorted[sorted.len() - 1] == sorted.last());
            }
        }
        assert(sorted.to_multiset() =~= head.to_multiset().insert(sorted.last()));
        assert(p.push(sorted.last()).to_multiset() =~= sorted.to_multiset().insert(e));
    }
}

/// Sealing a bucket keeps its rows, puts them in the order of their times and
/// loses none.
pub proof fn law_sealing_sorts_the_rows(es: Seq<EntryView>)
    ensures
        ascending(by_time(es)),
        by_time(es).to_multiset() == es.to_multiset(),
        by_time(es).len() == es.len(),
    decreases es.len(),
{
    broadcast use vstd::seq_lib::group_to_multiset_ensures;

    if es.len() > 0 {
        law_sealing_sorts_the_rows(es.drop_last());
        lemma_placed(by_time(es.drop_last()), es.last());
        assert(es =~= es.drop_last().push(es.last()));
    }
}

/// A bucket with one more row. A bucket that was sealed opens again with the
/// rows that it has, one that was emptied with the new row alone.
pub open spec fn with_entry(b: BucketView, e: EntryView) -> BucketView {
    BucketView {
        start: b.start,
        count: (b.count + 1) as u64,
        state: match b.state {
            StateView::Open(es) => StateView::Open(es.push(e)),
            StateView::Sealed(es) => StateView::Open(es.push(e)),
            StateView::Downsampled => StateView::Open(seq![e]),
        },
    }
}

pub open spec fn new_bucket(start: i64, e: EntryView) -> BucketView {
    BucketView { start, count: 1, state: StateView::Open(seq![e]) }
}

/// The buckets once `e` is in the one that starts at `start`.
pub open spec fn entered(bs: Seq<BucketView>, start: i64, e: EntryView) -> Seq<BucketView>
    decreases bs.len(),
{
    if bs.len() == 0 {
        seq![new_bucket(start, e)]
    } else if bs.last().start == start {
        bs.update(bs.len() - 1, with_entry(bs.last(), e))
    } else if bs.last().start < start {
        bs.push(new_bucket(start, e))
    } else {
        entered(bs.drop_last(), start, e).push(bs.last())
    }
}

/// An open bucket is sealed unless it starts at `newest_start`.
pub open spec fn sealed(b: BucketView, newest_start: int) -> BucketView {
    match b.state {
        StateView::Open(es) if b.start != newest_start => BucketView {
            state: StateView::Sealed(by_time(es)),
            ..b
        },
        _ => b,
    }
}

/// A bucket that ends no later than `cutoff` keeps its count only.
pub open spec fn trimmed(b: BucketView, granularity: int, cutoff: int) -> BucketView {
    if b.start + granularity <= cutoff {
        BucketView { state: StateView::Downsampled, ..b }
    } else {
        b
    }
}

pub open spec fn all_sealed(bs: Seq<BucketView>, newest_start: int) -> Seq<BucketView> {
    bs.map_values(|b: BucketView| sealed(b, newest_start))
}

pub open spec fn all_trimmed(bs: Seq<BucketView>, granularity: int, cutoff: int) -> Seq<
    BucketView,
> {
    bs.map_values(|b: BucketView| trimmed(b, granularity, cutoff))
}

/// An index of rows by time.
pub struct TsView {
    pub policy: TimeBucketPolicy,
    pub value_column: Seq<char>,
    pub buckets: Seq<BucketView>,
    pub newest: i64,
}

/// The later of two times.
pub open spec fn later(a: i64, b: i64) -> i64 {
    if b > a {
        b
    } else {
        a
    }
}

/// The index once a row is in it: every bucket but that of the newest time is
/// sealed, and with `retain` old buckets lose their rows.
pub open spec fn applied(v: TsView, e: EntryView, retain: bool) -> TsView {
    let g = v.policy.granularity_ms as int;
    let newest = later(v.newest, e.ts);
    let bs = all_sealed(
        entered(v.buckets, start_of(e.ts as int, g) as i64, e),
        start_of(newest as int, g),
    );
    TsView {
        buckets: match v.policy.retention_ms {
            Some(r) if retain => all_trimmed(bs, g, newest - r),
            _ => bs,
        },
        newest,
        ..v
    }
}

/// The rows that a bucket still holds.
pub open spec fn held(b: BucketView) -> Seq<EntryView> {
    match b.state {
        StateView::Open(es) => es,
        StateView::Sealed(es) => es,
        StateView::Downsampled => Seq::empty(),
    }
}

pub open spec fn within(e: EntryView, t0: i64, t1: i64) -> bool {
    t0 <= e.ts <= t1
}

/// The keys of the rows of a time within `t0..=t1`.
pub open spec fn hits(es: Seq<EntryView>, t0: i64, t1: i64) -> Seq<Seq<u8>>
    decreases es.len(),
{
    if es.len() == 0 {
        Seq::empty()
    } else if within(es.last(), t0, t1) {
        hits(es.drop_last(), t0, t1).push(es.last().row_key)
    } else {
        hits(es.drop_last(), t0, t1)
    }
}

/// Whether a bucket is looked at for `t0..=t1`.
pub open spec fn covered(b: BucketView, lo: int, t1: i64) -> bool {
    lo <= b.start <= t1
}

/// The keys of the rows within `t0..=t1`, bucket by bucket.
pub open spec fn range_of(bs: Seq<BucketView>, lo: int, t0: i64, t1: i64) -> Seq<Seq<u8>>
    decreases bs.len(),
{
    if bs.len() == 0 {
        Seq::empty()
    } else {
        range_of(bs.drop_last(), lo, t0, t1) + (if covered(bs.last(), lo, t1) {
            hits(held(bs.last()), t0, t1)
        } else {
            Seq::empty()
        })
    }
}

/// Start and row count of the buckets from `lo` to `t1`.
pub open spec fn counts_of(bs: Seq<BucketView>, lo: int, t1: i64) -> Seq<(i64, u64)>
    decreases bs.len(),
{
    if bs.len() == 0 {
        Seq::empty()
    } else if covered(bs.last(), lo, t1) {
        counts_of(bs.drop_last(), lo, t1).push((bs.last().start, bs.last().count))
    } else {
        counts_of(bs.drop_last(), lo, t1)
    }
}

/// Whether every row of a bucket belongs there.
pub open spec fn homed(b: BucketView, granularity: int) -> bool {
    &&& forall|k: int|
        0 <= k < held(b).len() ==> b.start == start_of(
            (#[trigger] held(b)[k]).ts as int,
            granularity,
        )
    &&& i64::MIN <= b.start + granularity <= i64::MAX
}

/// Whether buckets stand in the order of their starts, with every row in the
/// bucket of its time.
pub open spec fn tidy(bs: Seq<BucketView>, granularity: int) -> bool {
    &&& forall|i: int, j: int|
        0 <= i < j < bs.len() ==> (#[trigger] bs[i]).start < (#[trigger] bs[j]).start
    &&& forall|i: int| 0 <= i < bs.len() ==> homed(#[trigger] bs[i], granularity)
}

pub open spec fn in_order(v: TsView) -> bool {
    &&& v.buckets.len() > 0 ==> v.policy.granularity_ms != 0
    &&& tidy(v.buckets, v.policy.granularity_ms as int)
}

/// A range query finds every row that is still held and whose time is within
/// the range.
pub proof fn law_range_finds_every_held_row(v: TsView, i: int, k: int, t0: i64, t1: i64)
    requires
        in_order(v),
        0 <= i < v.buckets.len(),
        0 <= k < held(v.buckets[i]).len(),
        within(held(v.buckets[i])[k], t0, t1),
    ensures
        range_of(
            v.buckets,
            start_of(t0 as int, v.policy.granularity_ms as int),
            t0,
            t1,
        ).contains(held(v.buckets[i])[k].row_key),
{
    let g = v.policy.granularity_ms as int;
    let e = held(v.buckets[i])[k];
    assert(homed(v.buckets[i], g));
    lemma_start(e.ts as int, g);
    lemma_start_monotonic(t0 as int, e.ts as int, g);
    lemma_range_contains(v.buckets, start_of(t0 as int, g), i, k, t0, t1);
}

proof fn lemma_range_contains(bs: Seq<BucketView>, lo: int, i: int, k: int, t0: i64, t1: i64)
    requires
        0 <= i < bs.len(),
        covered(bs[i], lo, t1),
        0 <= k < held(bs[i]).len(),
        within(held(bs[i])[k], t0, t1),
    ensures
        range_of(bs, lo, t0, t1).contains(held(bs[i])[k].row_key),
    decreases bs.len(),
{
    let key = held(bs[i])[k].row_key;
    let head = range_of(bs.drop_last(), lo, t0, t1);
    let tail = if covered(bs.last(), lo, t1) {
        hits(held(bs.last()), t0, t1)
    } else {
        Seq::empty()
    };
    if i < bs.len() - 1 {
        lemma_range_contains(bs.drop_last(), lo, i, k, t0, t1);
        let x = choose|x: int| 0 <= x < head.len() && head[x] == key;
        assert((head + tail)[x] == key);
    } else {
        lemma_hits_contain(held(bs[i]), k, t0, t1);
        let x = choose|x: int| 0 <= x < tail.len() && tail[x] == key;
        assert((head + tail)[head.len() + x] == key);
    }
}

proof fn lemma_hits_contain(es: Seq<EntryView>, k: int, t0: i64, t1: i64)
    requires
        0 <= k < es.len(),
        within(es[k], t0, t1),
    ensures
        hits(es, t0, t1).contains(es[k].row_key),
    decreases es.len(),
{
    let head = hits(es.drop_last(), t0, t1);
    if k < es.len() - 1 {
        lemma_hits_contain(es.drop_last(), k, t0, t1);
        let x = choose|x: int| 0 <= x < head.len() && head[x] == es[k].row_key;
        assert(hits(es, t0, t1)[x] == es[k].row_key);
    } else {
        assert(hits(es, t0, t1)[head.len() as int] == es[k].row_key);
    }
}

/// Dropping old rows keeps every bucket and its count.
pub proof fn law_retention_keeps_the_counts(bs: Seq<BucketView>, g: int, cutoff: int, lo: int, t1: i64)
    ensures
        counts_of(all_trimmed(bs, g, cutoff), lo, t1) == counts_of(bs, lo, t1),
    decreases bs.len(),
{
    if bs.len() > 0 {
        law_retention_keeps_the_counts(bs.drop_last(), g, cutoff, lo, t1);
        assert(all_trimmed(bs, g, cutoff).drop_last() =~= all_trimmed(bs.drop_last(), g, cutoff));
    }
}

/// Entering a row keeps the buckets tidy.
proof fn lemma_entered(bs: Seq<BucketView>, start: i64, e: EntryView, g: int)
    requires
        tidy(bs, g),
        start == start_of(e.ts as int, g),
        i64::MIN <= start + g <= i64::MAX,
    ensures
        tidy(entered(bs, start, e), g),
        forall|i: int|
            0 <= i < entered(bs, start, e).len() ==> (#[trigger] entered(bs, start, e)[i]).start
                == start || exists|j: int|
                0 <= j < bs.len() && (#[trigger] bs[j]).start == entered(bs, start, e)[i].start,
    decreases bs.len(),
{
    let r = entered(bs, start, e);
    if bs.len() == 0 {
    } else if bs.last().start == start {
        let b = bs.last();
        assert(homed(b, g));
        assert forall|k: int| 0 <= k < held(with_entry(b, e)).len() implies b.start == start_of(
            (#[trigger] held(with_entry(b, e))[k]).ts as int,
            g,
        ) by {
            if k < held(with_entry(b, e)).len() - 1 {
                assert(held(with_entry(b, e))[k] == held(b)[k]);
            }
        }
        assert forall|i: int| 0 <= i < r.len() implies (#[trigger] r[i]).start == start
            || exists|j: int| 0 <= j < bs.len() && (#[trigger] bs[j]).start == r[i].start by {
            assert(bs[i].start == r[i].start);
        }
    } else if bs.last().start < start {
        assert forall|i: int, j: int| 0 <= i < j < r.len() implies (#[trigger] r[i]).start < (
        #[trigger] r[j]).start by {
            assert(r[i] == bs[i]);
            if i < bs.len() - 1 {
                assert(bs[i].start < bs[bs.len() - 1].start);
            }
        }
        assert forall|i: int| 0 <= i < r.len() implies (#[trigger] r[i]).start == start
            || exists|j: int| 0 <= j < bs.len() && (#[trigger] bs[j]).start == r[i].start by {
            if i < bs.len() {
                assert(bs[i].start == r[i].start);
            }
        }
    } else {
        let head = bs.drop_last();
        assert(tidy(head, g)) by {
            assert forall|i: int, j: int| 0 <= i < j < head.len() implies (
            #[trigger] head[i]).start < (#[trigger] head[j]).start by {
                assert(bs[i].start < bs[j].start);
            }
            assert forall|i: int| 0 <= i < head.len() implies homed(#[trigger] head[i], g) by {
                assert(homed(bs[i], g));
            }
        }
        lemma_entered(head, start, e, g);
        let p = entered(head, start, e);
        assert forall|i: int, j: int| 0 <= i < j < r.len() implies (#[trigger] r[i]).start < (
        #[trigger] r[j]).start by {
            assert(r[i] == p[i]);
            if j < p.len() {
                assert(r[j] == p[j]);
            } else if p[i].start != start {
                let x = choose|x: int|
                    0 <= x < head.len() && (#[trigger] head[x]).start == p[i].start;
                assert(bs[x].start < bs[bs.len() - 1].start);
            }
        }
        assert forall|i: int| 0 <= i < r.len() implies homed(#[trigger] r[i], g) by {
            if i < p.len() {
                assert(r[i] == p[i]);
            } else {
                assert(homed(bs[bs.len() - 1], g));
            }
        }
        assert forall|i: int| 0 <= i < r.len() implies (#[trigger] r[i]).start == start
            || exists|j: int| 0 <= j < bs.len() && (#[trigger] bs[j]).start == r[i].start by {
            if i < p.len() {
                assert(r[i] == p[i]);
                if p[i].start != start {
                    let x = choose|x: int|
                        0 <= x < head.len() && (#[trigger] head[x]).start == p[i].start;
                    assert(bs[x].start == r[i].start);
                }
            } else {
                assert(bs[bs.len() - 1].start == r[i].start);
            }
        }
    }
}

/// Sorting makes no rows up.
proof fn lemma_by_time_members(es: Seq<EntryView>)
    ensures
        forall|i: int| 0 <= i < by_time(es).len() ==> es.contains(#[trigger] by_time(es)[i]),
    decreases es.len(),
{
    if es.len() > 0 {
        let head = es.drop_last();
        lemma_by_time_members(head);
        law_sealing_sorts_the_rows(head);
        lemma_placed(by_time(head), es.last());
        assert forall|i: int| 0 <= i < by_time(es).len() implies es.contains(
            #[trigger] by_time(es)[i],
        ) by {
            let x = by_time(es)[i];
            if x == es.last() {
                assert(es[es.len() - 1] == x);
            } else {
                let k = choose|k: int| 0 <= k < by_time(head).len() && by_time(head)[k] == x;
                assert(head.contains(by_time(head)[k]));
                let m = choose|m: int| 0 <= m < head.len() && head[m] == x;
                assert(es[m] == x);
            }
        }
    }
}

proof fn lemma_sealed_tidy(bs: Seq<BucketView>, newest_start: int, g: int)
    requires
        tidy(bs, g),
    ensures
        tidy(all_sealed(bs, newest_start), g),
{
    let r = all_sealed(bs, newest_start);
    assert forall|i: int, j: int| 0 <= i < j < r.len() implies (#[trigger] r[i]).start < (
    #[trigger] r[j]).start by {
        assert(bs[i].start < bs[j].start);
    }
    assert forall|i: int| 0 <= i < r.len() implies homed(#[trigger] r[i], g) by {
        assert(homed(bs[i], g));
        match bs[i].state {
            StateView::Open(es) => {
                lemma_by_time_members(es);
                assert forall|k: int| 0 <= k < held(r[i]).len() implies r[i].start == start_of(
                    (#[trigger] held(r[i])[k]).ts as int,
                    g,
                ) by {
                    if r[i].state is Sealed {
                        assert(es.contains(by_time(es)[k]));
                        let m = choose|m: int| 0 <= m < es.len() && es[m] == by_time(es)[k];
                        assert(held(bs[i])[m] == es[m]);
                    }
                }
            },
            _ => {},
        }
    }
}

proof fn lemma_trimmed_tidy(bs: Seq<BucketView>, cutoff: int, g: int)
    requires
        tidy(bs, g),
    ensures
        tidy(all_trimmed(bs, g, cutoff), g),
{
    let r = all_trimmed(bs, g, cutoff);
    assert forall|i: int, j: int| 0 <= i < j < r.len() implies (#[trigger] r[i]).start < (
    #[trigger] r[j]).start by {
        assert(bs[i].start < bs[j].start);
    }
    assert forall|i: int| 0 <= i < r.len() implies homed(#[trigger] r[i], g) by {
        assert(homed(bs[i], g));
    }
}

/// Adding a row keeps the buckets in order of time, and every row in the
/// bucket of its time.
pub proof fn law_index_stays_in_order(v: TsView, e: EntryView, retain: bool)
    requires
        in_order(v),
        representable(e.ts, v.policy.granularity_ms),
    ensures
        in_order(applied(v, e, retain)),
{
    let g = v.policy.granularity_ms as int;
    let start = start_of(e.ts as int, g) as i64;
    lemma_start(e.ts as int, g);
    lemma_entered(v.buckets, start, e, g);
    let newest = later(v.newest, e.ts);
    let bs = entered(v.buckets, start, e);
    lemma_sealed_tidy(bs, start_of(newest as int, g), g);
    match v.policy.retention_ms {
        Some(r) => {
            lemma_trimmed_tidy(all_sealed(bs, start_of(newest as int, g)), newest - r, g);
        },
        None => {},
    }
}

/// Whether a bucket holds a row.
pub open spec fn in_bucket(bs: Seq<BucketView>, start: i64, x: EntryView) -> bool {
    exists|j: int| 0 <= j < bs.len() && (#[trigger] bs[j]).start == start && held(bs[j]).contains(x)
}

/// Whether the bucket that starts at `start` loses its rows when `e` is added.
pub open spec fn expires(v: TsView, e: EntryView, retain: bool, start: int) -> bool {
    match v.policy.retention_ms {
        Some(r) => retain && start + v.policy.granularity_ms <= later(v.newest, e.ts) - r,
        None => false,
    }
}

proof fn lemma_entered_holds(bs: Seq<BucketView>, start: i64, e: EntryView)
    ensures
        in_bucket(entered(bs, start, e), start, e),
        forall|s: i64, x: EntryView| #[trigger]
            in_bucket(bs, s, x) ==> in_bucket(entered(bs, start, e), s, x),
    decreases bs.len(),
{
    let r = entered(bs, start, e);
    let n = bs.len() as int;
    if n > 0 && bs.last().start > start {
        let head = bs.drop_last();
        let p = entered(head, start, e);
        lemma_entered_holds(head, start, e);
        assert forall|s: i64, x: EntryView| in_bucket(p, s, x) implies in_bucket(r, s, x) by {
            let j = choose|j: int|
                0 <= j < p.len() && (#[trigger] p[j]).start == s && held(p[j]).contains(x);
            assert(r[j] == p[j]);
        }
        assert forall|s: i64, x: EntryView| #[trigger] in_bucket(bs, s, x) implies in_bucket(
            r,
            s,
            x,
        ) by {
            let j = choose|j: int|
                0 <= j < n && (#[trigger] bs[j]).start == s && held(bs[j]).contains(x);
            if j < n - 1 {
                assert(head[j] == bs[j]);
                assert(in_bucket(head, s, x));
            } else {
                assert(r[p.len() as int] == bs[j]);
            }
        }
    } else {
        let last = r[r.len() - 1];
        assert(last.start == start);
        assert(held(last)[held(last).len() - 1] == e);
        assert forall|s: i64, x: EntryView| #[trigger] in_bucket(bs, s, x) implies in_bucket(
            r,
            s,
            x,
        ) by {
            let j = choose|j: int|
                0 <= j < n && (#[trigger] bs[j]).start == s && held(bs[j]).contains(x);
            let k = choose|k: int| 0 <= k < held(bs[j]).len() && held(bs[j])[k] == x;
            assert(r[j].start == s);
            assert(held(r[j])[k] == x);
        }
    }
}

proof fn lemma_by_time_keeps(es: Seq<EntryView>, x: EntryView)
    requires
        es.contains(x),
    ensures
        by_time(es).contains(x),
{
    broadcast use vstd::seq_lib::group_to_multiset_ensures;

    law_sealing_sorts_the_rows(es);
    assert(es.to_multiset().count(x) > 0);
    assert(by_time(es).to_multiset().count(x) > 0);
}

/// Adding a row loses none: the row itself, and every row that a bucket held,
/// is held afterwards, unless its bucket is past the time for which rows are
/// kept.
pub proof fn law_rows_stay(v: TsView, e: EntryView, retain: bool, start: i64, x: EntryView)
    requires
        representable(e.ts, v.policy.granularity_ms),
        !expires(v, e, retain, start as int),
        in_bucket(v.buckets, start, x) || (x == e && start == start_of(
            e.ts as int,
            v.policy.granularity_ms as int,
        )),
    ensures
        in_bucket(applied(v, e, retain).buckets, start, x),
{
    let g = v.policy.granularity_ms as int;
    lemma_start(e.ts as int, g);
    let own = start_of(e.ts as int, g) as i64;
    let newest = start_of(later(v.newest, e.ts) as int, g);
    let bs = entered(v.buckets, own, e);
    lemma_entered_holds(v.buckets, own, e);
    assert(in_bucket(bs, start, x));
    let j = choose|j: int|
        0 <= j < bs.len() && (#[trigger] bs[j]).start == start && held(bs[j]).contains(x);
    let tight = all_sealed(bs, newest);
    match bs[j].state {
        StateView::Open(es) => {
            lemma_by_time_keeps(es, x);
        },
        _ => {},
    }
    assert(tight[j].start == start && held(tight[j]).contains(x));
    let after = applied(v, e, retain).buckets;
    assert(after[j].start == start && held(after[j]).contains(x));
}

/// Where a row goes among sorted ones.
proof fn lemma_placed_at(sorted: Seq<EntryView>, e: EntryView, p: int)
    requires
        0 <= p <= sorted.len(),
        p == 0 || sorted[p - 1].ts <= e.ts,
        forall|i: int| p <= i < sorted.len() ==> sorted[i].ts > e.ts,
    ensures
        placed(sorted, e) == sorted.insert(p, e),
    decreases sorted.len(),
{
    if p == sorted.len() {
        assert(sorted.insert(p, e) =~= sorted.push(e));
    } else {
        lemma_placed_at(sorted.drop_last(), e, p);
        assert(sorted.insert(p, e) =~= sorted.drop_last().insert(p, e).push(sorted.last()));
    }
}

/// Puts a row behind the last one that is not later.
fn place(sorted: &mut Vec<TsEntry>, e: TsEntry)
    ensures
        entry_views(final(sorted)@) == placed(entry_views(old(sorted)@), e@),
{
    let ghost all = entry_views(sorted@);
    let mut p: usize = sorted.len();
    while p > 0 && sorted[p - 1].ts > e.ts
        invariant
            p <= sorted@.len(),
            all == entry_views(sorted@),
            forall|i: int| p <= i < sorted@.len() ==> all[i].ts > e.ts,
        decreases p,
    {
        p -= 1;
    }
    proof {
        assert(p > 0 ==> all[p - 1].ts <= e.ts);
        lemma_placed_at(all, e@, p as int);
    }
    sorted.insert(p, e);
    assert(entry_views(sorted@) =~= all.insert(p as int, e@));
}

/// The rows in the order of their times.
fn sort_by_time(es: &Vec<TsEntry>) -> (sorted: Vec<TsEntry>)
    ensures
        entry_views(sorted@) == by_time(entry_views(es@)),
{
    let ghost all = entry_views(es@);
    let mut sorted: Vec<TsEntry> = Vec::new();
    let mut i: usize = 0;
    assert(all.take(0) =~= Seq::<EntryView>::empty());
    assert(entry_views(sorted@) =~= by_time(all.take(0)));
    while i < es.len()
        invariant
            i <= es@.len(),
            all == entry_views(es@),
            entry_views(sorted@) == by_time(all.take(i as int)),
        decreases es@.len() - i,
    {
        assert(all.take(i + 1).drop_last() =~= all.take(i as int));
        let e = es[i].duplicate();
        place(&mut sorted, e);
        i += 1;
    }
    assert(all.take(es@.len() as int) =~= all);
    sorted
}

/// Where a row is entered among the buckets.
proof fn lemma_entered_at(bs: Seq<BucketView>, start: i64, e: EntryView, p: int)
    requires
        0 <= p <= bs.len(),
        p == 0 || bs[p - 1].start <= start,
        forall|i: int| p <= i < bs.len() ==> bs[i].start > start,
    ensures
        entered(bs, start, e) == (if p > 0 && bs[p - 1].start == start {
            bs.update(p - 1, with_entry(bs[p - 1], e))
        } else {
            bs.insert(p, new_bucket(start, e))
        }),
    decreases bs.len(),
{
    let r = if p > 0 && bs[p - 1].start == start {
        bs.update(p - 1, with_entry(bs[p - 1], e))
    } else {
        bs.insert(p, new_bucket(start, e))
    };
    if p == bs.len() {
        assert(entered(bs, start, e) =~= r);
    } else {
        lemma_entered_at(bs.drop_last(), start, e, p);
        assert(r =~= entered(bs.drop_last(), start, e).push(bs.last()));
    }
}

/// Why an index file cannot be opened.
#[derive(Debug, Clone, Copy, PartialEq, Eq, Structural)]
pub enum TimeError {
    /// The file ends inside its header or inside a record.
    CutOff,
    /// The column name is not UTF-8.
    NotText,
}

/// The header of an index file.
pub open spec fn header_bytes(policy: TimeBucketPolicy, column: Seq<char>) -> Seq<u8> {
    let retention: i64 = match policy.retention_ms {
        Some(r) => r,
        None => (-1int) as i64,
    };
    be::be64(policy.granularity_ms as u64) + (be::be64(retention as u64) + (be::be16(
        encode_utf8(column).len() as u16,
    ) + encode_utf8(column)))
}

/// The header of a file, and where it ends.
pub open spec fn header_in(file: Seq<u8>) -> Result<
    (TimeBucketPolicy, Seq<char>, int),
    TimeError,
> {
    if file.len() < 18 || file.len() < 18 + be::u16_at(file, 16) {
        Err(TimeError::CutOff)
    } else {
        let end = 18 + be::u16_at(file, 16);
        let retention = be::u64_at(file, 8) as i64;
        let name = file.subrange(18, end);
        if !valid_utf8(name) {
            Err(TimeError::NotText)
        } else {
            Ok(
                (
                    TimeBucketPolicy {
                        granularity_ms: be::u64_at(file, 0) as i64,
                        retention_ms: if retention < 0 {
                            None
                        } else {
                            Some(retention)
                        },
                    },
                    decode_utf8(name),
                    end,
                ),
            )
        }
    }
}

/// An index of rows by time. Each bucket counts its rows; aggregates of their
/// values are kept by the caller, by bucket.
pub struct TimeIndex {
    policy: TimeBucketPolicy,
    value_column: String,
    buckets: Vec<Bucket>,
    newest_ts: i64,
}

impl View for TimeIndex {
    type V = TsView;

    closed spec fn view(&self) -> TsView {
        TsView {
            policy: self.policy,
            value_column: self.value_column@,
            buckets: bucket_views(self.buckets@),
            newest: self.newest_ts,
        }
    }
}

impl TimeIndex {
    pub open spec fn wf(&self) -> bool {
        in_order(self@)
    }

    /// Whether a row of this time can be added: its bucket lies within the
    /// range of times, and its count is not at its limit.
    pub open spec fn accepts(&self, ts: i64, retain: bool) -> bool {
        &&& self@.buckets.len() < usize::MAX
        &&& accepts(self@, ts, retain)
    }

    /// An empty index.
    pub fn create(policy: TimeBucketPolicy, value_column: &str) -> (index: TimeIndex)
        ensures
            index.wf(),
            index@ == (TsView {
                policy,
                value_column: value_column@,
                buckets: Seq::empty(),
                newest: i64::MIN,
            }),
    {
        let index = TimeIndex {
            policy,
            value_column: value_column.to_owned(),
            buckets: Vec::new(),
            newest_ts: i64::MIN,
        };
        assert(index@.buckets =~= Seq::<BucketView>::empty());
        index
    }

    /// Reads an index file: an empty index with the settings of the header,
    /// and the encoded records to replay into it.
    pub fn open(file: &[u8]) -> (r: Result<(TimeIndex, Vec<Vec<u8>>), TimeError>)
        ensures
            match header_in(file@) {
                Err(e) => r == Err::<(TimeIndex, Vec<Vec<u8>>), TimeError>(e),
                Ok((policy, column, end)) => match framed::records_in(file@, end) {
                    Err(_) => r == Err::<(TimeIndex, Vec<Vec<u8>>), TimeError>(TimeError::CutOff),
                    Ok(records) => (r matches Ok((index, rs)) && index.wf() && index@ == (TsView {
                        policy,
                        value_column: column,
                        buckets: Seq::empty(),
                        newest: i64::MIN,
                    }) && be::contents(rs@) == records),
                },
            },
    {
        if file.len() < 18 {
            return Err(TimeError::CutOff);
        }
        let col_len: u16 = get_u16(file, 16);
        if file.len() - 18 < col_len as usize {
            return Err(TimeError::CutOff);
        }
        let end: usize = 18 + col_len as usize;
        let granularity_ms: i64 = get_u64(file, 0) as i64;
        let retention: i64 = get_u64(file, 8) as i64;
        let column = match text_strict(copy_range(file, 18, end)) {
            Some(c) => c,
            None => {
                return Err(TimeError::NotText);
            },
        };
        let policy = TimeBucketPolicy {
            granularity_ms,
            retention_ms: if retention < 0 {
                None
            } else {
                Some(retention)
            },
        };
        match split_records(file, end) {
            Ok(rs) => Ok((TimeIndex::create(policy, column.as_str()), rs)),
            Err(_) => Err(TimeError::CutOff),
        }
    }

    /// The header under which the index is stored.
    pub fn write_header(&self) -> (out: Vec<u8>)
        ensures
            out@ == header_bytes(self@.policy, self@.value_column),
    {
        let mut out: Vec<u8> = Vec::new();
        put_u64(&mut out, self.policy.granularity_ms as u64);
        let retention: i64 = match self.policy.retention_ms {
            Some(r) => r,
            None => -1,
        };
        put_u64(&mut out, retention as u64);
        let name = self.value_column.as_str().as_bytes();
        put_u16(&mut out, name.len() as u16);
        put_bytes(&mut out, name);
        assert(out@ =~= header_bytes(self@.policy, self@.value_column));
        out
    }

    /// How times are grouped and how long they are kept.
    pub fn policy(&self) -> (p: TimeBucketPolicy)
        ensures
            p == self@.policy,
    {
        self.policy
    }

    /// The column that holds the values.
    pub fn value_column(&self) -> (c: &str)
        ensures
            c@ == self@.value_column,
    {
        self.value_column.as_str()
    }

    /// Whether a row of this time can be added.
    pub fn can_accept(&self, ts: i64, retain: bool) -> (r: bool)
        requires
            self.wf(),
        ensures
            r == self.accepts(ts, retain),
    {
        let g: i64 = self.policy.granularity_ms;
        if g == 0 {
            return false;
        }
        let newest: i64 = if ts > self.newest_ts {
            ts
        } else {
            self.newest_ts
        };
        let lowest: i128 = -9223372036854775808;
        let highest: i128 = 9223372036854775807;
        let start: i128 = start_wide(ts, g);
        let end: i128 = start + g as i128;
        if start < lowest || end < lowest || end > highest {
            return false;
        }
        if g == -1 && (ts == i64::MIN || newest == i64::MIN) {
            return false;
        }
        if start_wide(newest, g) < lowest {
            return false;
        }
        match self.policy.retention_ms {
            Some(r) => {
                let cutoff: i128 = newest as i128 - r as i128;
                if retain && (cutoff < lowest || cutoff > highest) {
                    return false;
                }
            },
            None => {},
        }
        if self.buckets.len() == usize::MAX {
            return false;
        }
        let mut i: usize = 0;
        while i < self.buckets.len()
            invariant
                i <= self.buckets@.len(),
                g == self@.policy.granularity_ms,
                start == start_of(ts as int, g as int),
                forall|k: int|
                    0 <= k < i && (#[trigger] self@.buckets[k]).start == start
                        ==> self@.buckets[k].count < u64::MAX,
            decreases self.buckets@.len() - i,
        {
            assert(self@.buckets[i as int] == self.buckets@[i as int]@);
            if self.buckets[i].start as i128 == start && self.buckets[i].count == u64::MAX {
                return false;
            }
            i += 1;
        }
        true
    }

    /// Puts a row into its bucket.
    fn enter(&mut self, start: i64, entry: TsEntry)
        requires
            old(self).wf(),
            old(self)@.buckets.len() < usize::MAX,
            forall|i: int|
                0 <= i < old(self)@.buckets.len() && (#[trigger] old(self)@.buckets[i]).start
                    == start ==> old(self)@.buckets[i].count < u64::MAX,
        ensures
            final(self)@ == (TsView {
                buckets: entered(old(self)@.buckets, start, entry@),
                ..old(self)@
            }),
    {
        let ghost all = self@.buckets;
        let ghost e = entry@;
        let mut p: usize = self.buckets.len();
        while p > 0 && self.buckets[p - 1].start > start
            invariant
                p <= self.buckets@.len(),
                all == bucket_views(self.buckets@),
                forall|i: int| p <= i < self.buckets@.len() ==> all[i].start > start,
            decreases p,
        {
            p -= 1;
        }
        proof {
            assert(p > 0 ==> all[p - 1].start <= start);
            lemma_entered_at(all, start, e, p as int);
        }
        if p > 0 && self.buckets[p - 1].start == start {
            assert(all[p - 1].count < u64::MAX);
            let Bucket { start: s, count, state } = self.buckets.remove(p - 1);
            let next = match state {
                BucketState::Open(mut es) => {
                    let ghost before = es@;
                    es.push(entry);
                    assert(entry_views(es@) =~= entry_views(before).push(e));
                    BucketState::Open(es)
                },
                BucketState::Sealed(mut es) => {
                    let ghost before = es@;
                    es.push(entry);
                    assert(entry_views(es@) =~= entry_views(before).push(e));
                    BucketState::Open(es)
                },
                BucketState::Downsampled => {
                    let mut es: Vec<TsEntry> = Vec::new();
                    es.push(entry);
                    assert(entry_views(es@) =~= seq![e]);
                    BucketState::Open(es)
                },
            };
            let b = Bucket { start: s, count: count + 1, state: next };
            assert(b@ == with_entry(all[p - 1], e));
            self.buckets.insert(p - 1, b);
            assert(self@.buckets =~= all.update(p - 1, with_entry(all[p - 1], e)));
        } else {
            let mut es: Vec<TsEntry> = Vec::new();
            es.push(entry);
            assert(entry_views(es@) =~= seq![e]);
            let b = Bucket { start, count: 1, state: BucketState::Open(es) };
            assert(b@ == new_bucket(start, e));
            self.buckets.insert(p, b);
            assert(self@.buckets =~= all.insert(p as int, new_bucket(start, e)));
        }
    }

    /// Seals every open bucket but the newest.
    fn seal_non_newest_buckets(&mut self, newest_start: i64)
        ensures
            final(self)@ == (TsView {
                buckets: all_sealed(old(self)@.buckets, newest_start as int),
                ..old(self)@
            }),
    {
        let ghost all = self@.buckets;
        let mut i: usize = 0;
        while i < self.buckets.len()
            invariant
                i <= self.buckets@.len(),
                self.policy == old(self).policy,
                self.value_column == old(self).value_column,
                self.newest_ts == old(self).newest_ts,
                all == old(self)@.buckets,
                self.buckets@.len() == all.len(),
                forall|k: int|
                    0 <= k < i ==> (#[trigger] self.buckets@[k])@ == sealed(
                        all[k],
                        newest_start as int,
                    ),
                forall|k: int| i <= k < all.len() ==> (#[trigger] self.buckets@[k])@ == all[k],
            decreases self.buckets@.len() - i,
        {
            let ghost before = self.buckets@;
            assert(before[i as int]@ == all[i as int]);
            if self.buckets[i].start != newest_start {
                let sorted: Option<Vec<TsEntry>> = match &self.buckets[i].state {
                    BucketState::Open(es) => Some(sort_by_time(es)),
                    _ => None,
                };
                match sorted {
                    Some(es) => {
                        let start = self.buckets[i].start;
                        let count = self.buckets[i].count;
                        self.buckets[i] = Bucket { start, count, state: BucketState::Sealed(es) };
                    },
                    None => {},
                }
            }
            assert(self.buckets@[i as int]@ == sealed(all[i as int], newest_start as int));
            assert forall|k: int| 0 <= k < all.len() && k != i implies #[trigger] self.buckets@[k]
                == before[k] by {}
            i += 1;
        }
        assert(self@.buckets =~= all_sealed(all, newest_start as int));
    }

    /// Drops the rows of every bucket that ends by `cutoff`.
    fn apply_retention(&mut self, cutoff: i64)
        requires
            forall|i: int|
                0 <= i < old(self)@.buckets.len() ==> i64::MIN <= (
                #[trigger] old(self)@.buckets[i]).start + old(self)@.policy.granularity_ms
                    <= i64::MAX,
        ensures
            final(self)@ == (TsView {
                buckets: all_trimmed(
                    old(self)@.buckets,
                    old(self)@.policy.granularity_ms as int,
                    cutoff as int,
                ),
                ..old(self)@
            }),
    {
        let ghost all = self@.buckets;
        let ghost g = self.policy.granularity_ms as int;
        let mut i: usize = 0;
        while i < self.buckets.len()
            invariant
                i <= self.buckets@.len(),
                self.policy == old(self).policy,
                self.value_column == old(self).value_column,
                self.newest_ts == old(self).newest_ts,
                g == self.policy.granularity_ms as int,
                all == old(self)@.buckets,
                self.buckets@.len() == all.len(),
                forall|k: int|
                    0 <= k < all.len() ==> i64::MIN <= (#[trigger] all[k]).start + g <= i64::MAX,
                forall|k: int|
                    0 <= k < i ==> (#[trigger] self.buckets@[k])@ == trimmed(
                        all[k],
                        g,
                        cutoff as int,
                    ),
                forall|k: int| i <= k < all.len() ==> (#[trigger] self.buckets@[k])@ == all[k],
            decreases self.buckets@.len() - i,
        {
            let ghost before = self.buckets@;
            assert(before[i as int]@ == all[i as int]);
            let start: i64 = self.buckets[i].start;
            let end: i64 = start + self.policy.granularity_ms;
            if end <= cutoff {
                let count = self.buckets[i].count;
                self.buckets[i] = Bucket { start, count, state: BucketState::Downsampled };
            }
            assert(self.buckets@[i as int]@ == trimmed(all[i as int], g, cutoff as int));
            assert forall|k: int| 0 <= k < all.len() && k != i implies #[trigger] self.buckets@[k]
                == before[k] by {}
            i += 1;
        }
        assert(self@.buckets =~= all_trimmed(all, g, cutoff as int));
    }

    /// Adds a row to the index in memory.
    pub fn apply_insert(&mut self, entry: TsEntry, apply_retention: bool)
        requires
            old(self).wf(),
            old(self).accepts(entry.ts, apply_retention),
        ensures
            final(self).wf(),
            final(self)@ == applied(old(self)@, entry@, apply_retention),
    {
        let ghost v = self@;
        let ghost e = entry@;
        let g: i64 = self.policy.granularity_ms;
        let ts: i64 = entry.ts;
        proof {
            law_index_stays_in_order(v, e, apply_retention);
            lemma_start(ts as int, g as int);
            lemma_start(later(v.newest, ts) as int, g as int);
        }
        let start: i64 = bucket_start(ts, g);
        self.enter(start, entry);
        let ghost bs = self@.buckets;
        if ts > self.newest_ts {
            self.newest_ts = ts;
        }
        let newest_start: i64 = bucket_start(self.newest_ts, g);
        assert(self@ == TsView { buckets: bs, newest: later(v.newest, ts), ..v });
        self.seal_non_newest_buckets(newest_start);
        if apply_retention {
            match self.policy.retention_ms {
                Some(r) => {
                    let cutoff: i64 = self.newest_ts - r;
                    proof {
                        lemma_entered(v.buckets, start, e, g as int);
                        lemma_sealed_tidy(bs, newest_start as int, g as int);
                        assert forall|i: int| 0 <= i < self@.buckets.len() implies i64::MIN <= (
                        #[trigger] self@.buckets[i]).start + g <= i64::MAX by {
                            assert(homed(self@.buckets[i], g as int));
                        }
                    }
                    self.apply_retention(cutoff);
                },
                None => {},
            }
        }
    }

    /// Indexes one row: a time and the bits of a value.
    pub fn insert(&mut self, row_key: &[u8], ts: i64, value: u64)
        requires
            old(self).wf(),
            old(self).accepts(ts, true),
        ensures
            final(self).wf(),
            final(self)@ == applied(
                old(self)@,
                EntryView { row_key: row_key@, ts, value },
                true,
            ),
    {
        let key = copy_range(row_key, 0, row_key.len());
        assert(key@ =~= row_key@);
        self.apply_insert(TsEntry { row_key: key, ts, value }, true)
    }

    /// The keys of the rows of a time within `t0..=t1`.
    pub fn query_range(&self, t0: i64, t1: i64) -> (r: Vec<Vec<u8>>)
        requires
            self.wf(),
            self@.policy.granularity_ms != 0,
            !(t0 == i64::MIN && self@.policy.granularity_ms == -1),
            i64::MIN <= start_of(t0 as int, self@.policy.granularity_ms as int),
        ensures
            be::contents(r@) == range_of(
                self@.buckets,
                start_of(t0 as int, self@.policy.granularity_ms as int),
                t0,
                t1,
            ),
    {
        let lo: i64 = bucket_start(t0, self.policy.granularity_ms);
        let ghost all = self@.buckets;
        let mut out: Vec<Vec<u8>> = Vec::new();
        let mut i: usize = 0;
        assert(all.take(0) =~= Seq::<BucketView>::empty());
        assert(be::contents(out@) =~= Seq::<Seq<u8>>::empty());
        while i < self.buckets.len()
            invariant
                i <= self.buckets@.len(),
                all == bucket_views(self.buckets@),
                be::contents(out@) == range_of(all.take(i as int), lo as int, t0, t1),
            decreases self.buckets@.len() - i,
        {
            let b = &self.buckets[i];
            proof {
                assert(all.take(i + 1).drop_last() =~= all.take(i as int));
                assert(all.take(i + 1).last() == b@);
            }
            if lo <= b.start && b.start <= t1 {
                match &b.state {
                    BucketState::Open(es) => {
                        push_hits(es, t0, t1, &mut out);
                    },
                    BucketState::Sealed(es) => {
                        push_hits(es, t0, t1, &mut out);
                    },
                    BucketState::Downsampled => {
                        assert(be::contents(out@) =~= be::contents(out@) + hits(
                            held(b@),
                            t0,
                            t1,
                        ));
                    },
                }
            } else {
                assert(be::contents(out@) + Seq::<Seq<u8>>::empty() =~= be::contents(out@));
            }
            i += 1;
        }
        assert(all.take(self.buckets@.len() as int) =~= all);
        out
    }

    /// Start and row count of each bucket from that of `t0` up to `t1`.
    pub fn query_rollups(&self, t0: i64, t1: i64) -> (r: Vec<(i64, u64)>)
        requires
            self.wf(),
            self@.policy.granularity_ms != 0,
            !(t0 == i64::MIN && self@.policy.granularity_ms == -1),
            i64::MIN <= start_of(t0 as int, self@.policy.granularity_ms as int),
        ensures
            r@ == counts_of(
                self@.buckets,
                start_of(t0 as int, self@.policy.granularity_ms as int),
                t1,
            ),
    {
        let lo: i64 = bucket_start(t0, self.policy.granularity_ms);
        let ghost all = self@.buckets;
        let mut out: Vec<(i64, u64)> = Vec::new();
        let mut i: usize = 0;
        assert(all.take(0) =~= Seq::<BucketView>::empty());
        while i < self.buckets.len()
            invariant
                i <= self.buckets@.len(),
                all == bucket_views(self.buckets@),
                out@ == counts_of(all.take(i as int), lo as int, t1),
            decreases self.buckets@.len() - i,
        {
            let b = &self.buckets[i];
            proof {
                assert(all.take(i + 1).drop_last() =~= all.take(i as int));
                assert(all.take(i + 1).last() == b@);
            }
            if lo <= b.start && b.start <= t1 {
                out.push((b.start, b.count));
            }
            i += 1;
        }
        assert(all.take(self.buckets@.len() as int) =~= all);
        out
    }
}

/// Whether a row of this time can be added, where old rows are dropped then with
/// `retain`.
pub open spec fn accepts(v: TsView, ts: i64, retain: bool) -> bool {
    let newest = later(v.newest, ts);
    let g = v.policy.granularity_ms;
    &&& representable(ts, g)
    &&& !(ts == i64::MIN && g == -1)
    &&& !(newest == i64::MIN && g == -1)
    &&& i64::MIN <= start_of(newest as int, g as int)
    &&& match v.policy.retention_ms {
        Some(r) => retain ==> i64::MIN <= newest - r <= i64::MAX,
        None => true,
    }
    &&& forall|i: int|
        0 <= i < v.buckets.len() && (#[trigger] v.buckets[i]).start == start_of(ts as int, g as int)
            ==> v.buckets[i].count < u64::MAX
}

/// Adds the keys of the rows within `t0..=t1`.
fn push_hits(es: &Vec<TsEntry>, t0: i64, t1: i64, out: &mut Vec<Vec<u8>>)
    ensures
        be::contents(final(out)@) == be::contents(old(out)@) + hits(entry_views(es@), t0, t1),
{
    let ghost all = entry_views(es@);
    let ghost before = be::contents(out@);
    let mut i: usize = 0;
    assert(all.take(0) =~= Seq::<EntryView>::empty());
    assert(before + hits(all.take(0), t0, t1) =~= before);
    while i < es.len()
        invariant
            i <= es@.len(),
            all == entry_views(es@),
            be::contents(out@) == before + hits(all.take(i as int), t0, t1),
        decreases es@.len() - i,
    {
        assert(all.take(i + 1).drop_last() =~= all.take(i as int));
        let ghost now = out@;
        if es[i].ts >= t0 && es[i].ts <= t1 {
            let key = copy_range(es[i].row_key.as_slice(), 0, es[i].row_key.len());
            assert(key@ =~= es@[i as int].row_key@);
            out.push(key);
            assert(be::contents(out@) =~= be::contents(now).push(key@));
            assert(before + hits(all.take(i + 1), t0, t1) =~= (before + hits(
                all.take(i as int),
                t0,
                t1,
            )).push(key@));
        }
        i += 1;
    }
    assert(all.take(es@.len() as int) =~= all);
}

/// A stored header is read back as it was written, whatever records follow.
pub proof fn law_header_round_trips(policy: TimeBucketPolicy, column: Seq<char>, records: Seq<u8>)
    requires
        encode_utf8(column).len() <= u16::MAX,
        policy.retention_ms matches Some(r) ==> r >= 0,
    ensures
        header_in(header_bytes(policy, column) + records) == Ok::<
            (TimeBucketPolicy, Seq<char>, int),
            TimeError,
        >((policy, column, header_bytes(policy, column).len() as int)),
{
    let retention: i64 = match policy.retention_ms {
        Some(r) => r,
        None => (-1int) as i64,
    };
    let file = header_bytes(policy, column) + records;
    let name = encode_utf8(column);
    text::lemma_lossy_of_text(column);
    be::lemma_be64(policy.granularity_ms as u64);
    be::lemma_be64(retention as u64);
    be::lemma_be16(name.len() as u16);
    be::lemma_signed_bits(policy.granularity_ms);
    be::lemma_signed_bits(retention);
    assert(file.subrange(0, 8) =~= be::be64(policy.granularity_ms as u64));
    assert(file.subrange(8, 16) =~= be::be64(retention as u64));
    assert(file.subrange(16, 18) =~= be::be16(name.len() as u16));
    assert(file.subrange(18, 18 + name.len() as int) =~= name);
}

proof fn lemma_hit(es: Seq<EntryView>, t0: i64, t1: i64, row: Seq<u8>)
    ensures
        hits(es, t0, t1).contains(row) <==> exists|k: int|
            0 <= k < es.len() && (#[trigger] es[k]).row_key == row && t0 <= es[k].ts && es[k].ts
                <= t1,
    decreases es.len(),
{
    if es.len() > 0 {
        let head = es.drop_last();
        let n = es.len() - 1;
        lemma_hit(head, t0, t1, row);
        let before = hits(head, t0, t1);
        let all = hits(es, t0, t1);
        assert(es[n] == es.last());
        if before.contains(row) {
            let k = choose|k: int| 0 <= k < before.len() && before[k] == row;
            assert(all[k] == row);
            let i = choose|k: int|
                0 <= k < head.len() && (#[trigger] head[k]).row_key == row && t0 <= head[k].ts
                    && head[k].ts <= t1;
            assert(es[i] == head[i]);
        }
        if all.contains(row) {
            let k = choose|k: int| 0 <= k < all.len() && all[k] == row;
            if k < before.len() {
                assert(before[k] == row);
            }
        }
        if exists|k: int|
            0 <= k < es.len() && (#[trigger] es[k]).row_key == row && t0 <= es[k].ts && es[k].ts
                <= t1 {
            let k = choose|k: int|
                0 <= k < es.len() && (#[trigger] es[k]).row_key == row && t0 <= es[k].ts && es[k].ts
                    <= t1;
            if k < n {
                assert(head[k] == es[k]);
            } else {
                assert(all[before.len() as int] == row);
            }
        }
    }
}

proof fn lemma_in_range(bs: Seq<BucketView>, lo: int, t0: i64, t1: i64, row: Seq<u8>)
    ensures
        range_of(bs, lo, t0, t1).contains(row) ==> exists|i: int, k: int|
            0 <= i < bs.len() && 0 <= k < held(bs[i]).len() && (#[trigger] held(bs[i])[k]).row_key
                == row && t0 <= held(bs[i])[k].ts && held(bs[i])[k].ts <= t1,
    decreases bs.len(),
{
    if bs.len() > 0 && range_of(bs, lo, t0, t1).contains(row) {
        let head = bs.drop_last();
        let n = bs.len() - 1;
        lemma_in_range(head, lo, t0, t1, row);
        let a = range_of(head, lo, t0, t1);
        let all = range_of(bs, lo, t0, t1);
        let k = choose|k: int| 0 <= k < all.len() && all[k] == row;
        assert(bs[n] == bs.last());
        if k < a.len() {
            assert(a[k] == row);
            let (i, j) = choose|i: int, j: int|
                0 <= i < head.len() && 0 <= j < held(head[i]).len() && (
                #[trigger] held(head[i])[j]).row_key == row && t0 <= held(head[i])[j].ts && held(
                    head[i],
                )[j].ts <= t1;
            assert(bs[i] == head[i]);
            assert(held(bs[i])[j].row_key == row);
        } else {
            let es = held(bs[n]);
            assert(hits(es, t0, t1)[k - a.len()] == row);
            lemma_hit(es, t0, t1, row);
            let j = choose|j: int|
                0 <= j < es.len() && (#[trigger] es[j]).row_key == row && t0 <= es[j].ts && es[j].ts
                    <= t1;
            assert(held(bs[n])[j].row_key == row);
        }
    }
}

/// A search in a span of time gives the rows that the index holds with a time from
/// its start to its end, and no other.
pub proof fn law_range_gives_the_rows_in_the_span(
    index: TimeIndex,
    t0: i64,
    t1: i64,
    r: Vec<Vec<u8>>,
    row: Seq<u8>,
)
    requires
        index.wf(),
        index@.policy.granularity_ms != 0,
        call_ensures(TimeIndex::query_range, (&index, t0, t1), r),
    ensures
        be::contents(r@).contains(row) <==> exists|i: int, k: int|
            0 <= i < index@.buckets.len() && 0 <= k < held(index@.buckets[i]).len() && (
            #[trigger] held(index@.buckets[i])[k]).row_key == row && t0 <= held(
                index@.buckets[i],
            )[k].ts && held(index@.buckets[i])[k].ts <= t1,
{
    let v = index@;
    let lo = start_of(t0 as int, v.policy.granularity_ms as int);
    lemma_in_range(v.buckets, lo, t0, t1, row);
    if exists|i: int, k: int|
        0 <= i < v.buckets.len() && 0 <= k < held(v.buckets[i]).len() && (#[trigger] held(
            v.buckets[i],
        )[k]).row_key == row && t0 <= held(v.buckets[i])[k].ts && held(v.buckets[i])[k].ts <= t1 {
        let (i, k) = choose|i: int, k: int|
            0 <= i < v.buckets.len() && 0 <= k < held(v.buckets[i]).len() && (#[trigger] held(
                v.buckets[i],
            )[k]).row_key == row && t0 <= held(v.buckets[i])[k].ts && held(v.buckets[i])[k].ts
                <= t1;
        law_range_finds_every_held_row(v, i, k, t0, t1);
    }
}

/// A bucket starts at a whole multiple of its length, at or before its times and
/// less than its length before them.
pub proof fn law_bucket_starts_at_a_multiple(ts: int, granularity: int)
    requires
        granularity > 0,
    ensures
        start_of(ts, granularity) <= ts < start_of(ts, granularity) + granularity,
        start_of(ts, granularity) % granularity == 0,
{
    lemma_start(ts, granularity);
    vstd::arithmetic::div_mod::lemma_mod_multiples_basic(ts / granularity, granularity);
}

/// The bucket of a start, if there is one.
pub open spec fn count_at(bs: Seq<BucketView>, start: i64) -> nat
    decreases bs.len(),
{
    if bs.len() == 0 {
        0
    } else if bs.last().start == start {
        bs.last().count as nat
    } else {
        count_at(bs.drop_last(), start)
    }
}

proof fn lemma_count_entered(bs: Seq<BucketView>, start: i64, e: EntryView, other: i64)
    requires
        forall|i: int, j: int|
            0 <= i < j < bs.len() ==> (#[trigger] bs[i]).start < (#[trigger] bs[j]).start,
        forall|i: int|
            0 <= i < bs.len() && (#[trigger] bs[i]).start == start ==> bs[i].count < u64::MAX,
    ensures
        count_at(entered(bs, start, e), other) == count_at(bs, other) + (if other == start {
            1nat
        } else {
            0nat
        }),
    decreases bs.len(),
{
    let now = entered(bs, start, e);
    if bs.len() == 0 {
        assert(now.drop_last() =~= bs);
        assert(count_at(now.drop_last(), other) == 0);
    } else {
        let head = bs.drop_last();
        let n = bs.len() - 1;
        assert(bs[n] == bs.last());
        if bs.last().start == start {
            assert(now.drop_last() =~= head);
        } else if bs.last().start < start {
            assert(now.drop_last() =~= bs);
            lemma_absent(bs, start);
        } else {
            assert forall|i: int, j: int| 0 <= i < j < head.len() implies (#[trigger] head[i]).start
                < (#[trigger] head[j]).start by {
                assert(bs[i].start < bs[j].start);
            }
            assert forall|i: int|
                0 <= i < head.len() && (#[trigger] head[i]).start == start implies head[i].count
                < u64::MAX by {
                assert(bs[i] == head[i]);
            }
            lemma_count_entered(head, start, e, other);
            assert(now.drop_last() =~= entered(head, start, e));
        }
    }
}

proof fn lemma_absent(bs: Seq<BucketView>, start: i64)
    requires
        bs.len() > 0,
        bs.last().start < start,
        forall|i: int, j: int|
            0 <= i < j < bs.len() ==> (#[trigger] bs[i]).start < (#[trigger] bs[j]).start,
    ensures
        count_at(bs, start) == 0,
    decreases bs.len(),
{
    let head = bs.drop_last();
    if head.len() > 0 {
        assert(bs[head.len() - 1].start < bs[bs.len() - 1].start);
        assert forall|i: int, j: int| 0 <= i < j < head.len() implies (#[trigger] head[i]).start < (
        #[trigger] head[j]).start by {
            assert(bs[i].start < bs[j].start);
        }
        lemma_absent(head, start);
    }
    assert(count_at(head, start) == 0);
}

proof fn lemma_count_mapped(a: Seq<BucketView>, b: Seq<BucketView>, start: i64)
    requires
        a.len() == b.len(),
        forall|i: int|
            0 <= i < a.len() ==> (#[trigger] a[i]).start == b[i].start && a[i].count == b[i].count,
    ensures
        count_at(a, start) == count_at(b, start),
    decreases a.len(),
{
    if a.len() > 0 {
        assert(a[a.len() - 1].start == b[b.len() - 1].start);
        assert forall|i: int| 0 <= i < a.drop_last().len() implies (
        #[trigger] a.drop_last()[i]).start == b.drop_last()[i].start && a.drop_last()[i].count
            == b.drop_last()[i].count by {
            assert(a[i].start == b[i].start);
        }
        lemma_count_mapped(a.drop_last(), b.drop_last(), start);
    }
}

/// A row counts once, in the bucket of its time and in no other, also when its
/// bucket is sealed or dropped.
pub proof fn law_row_counts_once_in_its_bucket(v: TsView, e: EntryView, retain: bool, other: i64)
    requires
        in_order(v),
        accepts(v, e.ts, retain),
    ensures
        count_at(applied(v, e, retain).buckets, other) == count_at(v.buckets, other) + (if other
            == start_of(e.ts as int, v.policy.granularity_ms as int) {
            1nat
        } else {
            0nat
        }),
{
    let g = v.policy.granularity_ms as int;
    let start = start_of(e.ts as int, g) as i64;
    lemma_start(e.ts as int, g);
    let now = entered(v.buckets, start, e);
    lemma_count_entered(v.buckets, start, e, other);
    lemma_count_mapped(applied(v, e, retain).buckets, now, other);
}

/// The counts of buckets in a span are those of the buckets that start in it, each
/// with its start.
pub proof fn law_counts_name_their_buckets(bs: Seq<BucketView>, lo: int, t1: i64, start: i64, n: u64)
    ensures
        counts_of(bs, lo, t1).contains((start, n)) <==> exists|i: int|
            0 <= i < bs.len() && (#[trigger] bs[i]).start == start && bs[i].count == n && lo
                <= start && start <= t1,
    decreases bs.len(),
{
    if bs.len() > 0 {
        let head = bs.drop_last();
        let m = bs.len() - 1;
        let x = (start, n);
        law_counts_name_their_buckets(head, lo, t1, start, n);
        let before = counts_of(head, lo, t1);
        let all = counts_of(bs, lo, t1);
        assert(bs[m] == bs.last());
        assert forall|i: int| 0 <= i < m implies #[trigger] bs[i] == head[i] by {}
        if before.contains(x) {
            let k = choose|k: int| 0 <= k < before.len() && before[k] == x;
            assert(all[k] == x);
            let i = choose|i: int|
                0 <= i < head.len() && (#[trigger] head[i]).start == start && head[i].count == n
                    && lo <= start && start <= t1;
            assert(bs[i] == head[i]);
        }
        if all.contains(x) {
            let k = choose|k: int| 0 <= k < all.len() && all[k] == x;
            if k < before.len() {
                assert(before[k] == x);
            }
        }
        if bs.last().start == start && bs.last().count == n && lo <= start && start <= t1 {
            assert(all[before.len() as int] == x);
        }
    }
}

/// Where a time is kept for a while only, the rows of a bucket that ended so long
/// before the newest time are gone.
pub proof fn law_old_rows_are_gone(v: TsView, e: EntryView, r: i64, i: int)
    requires
        v.policy.retention_ms == Some(r),
        0 <= i < applied(v, e, true).buckets.len(),
    ensures
        ({
            let b = applied(v, e, true).buckets[i];
            let newest = if v.newest < e.ts {
                e.ts
            } else {
                v.newest
            };
            b.start + v.policy.granularity_ms <= newest - r ==> held(b).len() == 0
        }),
{
}

/// The header of an index holds the width of a bucket and the time that rows are
/// kept, in eight bytes each, less than zero where there is no such time, and then
/// the name of the column behind its length in two bytes.
pub proof fn law_bytes_of_a_header_have_their_places(policy: TimeBucketPolicy, column: Seq<char>)
    requires
        encode_utf8(column).len() <= u16::MAX,
    ensures
        ({
            let b = header_bytes(policy, column);
            &&& b.len() == 18 + encode_utf8(column).len()
            &&& be::u64_at(b, 0) == policy.granularity_ms as u64
            &&& policy.retention_ms matches Some(r) ==> be::u64_at(b, 8) == r as u64
            &&& policy.retention_ms is None ==> be::u64_at(b, 8) == u64::MAX
            &&& be::u16_at(b, 16) == encode_utf8(column).len()
            &&& b.skip(18) == encode_utf8(column)
        }),
{
    let b = header_bytes(policy, column);
    let retention: i64 = match policy.retention_ms {
        Some(r) => r,
        None => (-1int) as i64,
    };
    let n = encode_utf8(column).len() as u16;
    be::lemma_be64(policy.granularity_ms as u64);
    be::lemma_be64(retention as u64);
    be::lemma_be16(n);
    assert(b.subrange(0, 8) =~= be::be64(policy.granularity_ms as u64));
    assert(b.subrange(8, 16) =~= be::be64(retention as u64));
    assert(b.subrange(16, 18) =~= be::be16(n));
    be::lemma_u64_at(b, 0, policy.granularity_ms as u64);
    be::lemma_u64_at(b, 8, retention as u64);
    assert(b.skip(18) =~= encode_utf8(column));
    assert((-1i64) as u64 == u64::MAX) by (bit_vector);
}

} // verus!
