//! Whether a batch of distances is computed on a graphics device, and how it is
//! laid out there.

use vstd::prelude::*;
use vstd::string::*;
use vstd::utf8::*;

use crate::database::rows;
use crate::ranking;
use crate::ranking::sort_by_rank;
use crate::text;
use crate::text::{decimal_text, eq_ignore_case, same_text};

verus! {

/// The name of the setting that switches the device off.
pub const DISABLE_ENV: &'static str = "TPT_DISABLE_GPU_VECTOR";

/// The name of the setting that bounds a batch.
pub const MAX_PAIRS_ENV: &'static str = "TPT_GPU_VECTOR_MAX";

/// How many pairs a batch has at most, where nothing else is set.
pub const DEFAULT_MAX_PAIRS: u64 = 256000000;

/// How many groups of work a dispatch has at most in one direction.
pub const MAX_DISPATCH_DIM: u32 = 65535;

/// Whether the device is switched off: the setting is there, not empty, not `0`
/// and not `false`.
pub fn gpu_disabled(setting: Option<&str>) -> (r: bool)
    ensures
        r == (match setting {
            Some(v) => !(v@.len() == 0 || v@ == "0"@ || text::same_but_case(v@, "false"@)),
            None => false,
        }),
{
    match setting {
        Some(v) => !(v.unicode_len() == 0 || same_text(v, "0") || eq_ignore_case(v, "false")),
        None => false,
    }
}

/// A whole number without a sign, or behind a plus.
pub open spec fn u64_in(s: Seq<u8>) -> Option<u64> {
    let digits = if s.len() > 0 && s[0] == 43 {
        s.skip(1)
    } else {
        s
    };
    if digits.len() > 0 && rows::all_digits(digits) && rows::digits_value(digits) <= u64::MAX {
        Some(rows::digits_value(digits) as u64)
    } else {
        None
    }
}

fn parse_u64(s: &[u8]) -> (r: Option<u64>)
    ensures
        r == u64_in(s@),
{
    let from: usize = if s.len() > 0 && s[0] == 43 {
        1
    } else {
        0
    };
    let ghost digits = s@.skip(from as int);
    proof {
        assert(s@.skip(0) =~= s@);
        assert(digits.take(0) =~= Seq::<u8>::empty());
    }
    if from == s.len() {
        return None;
    }
    let mut n: u128 = 0;
    let mut i: usize = from;
    while i < s.len()
        invariant
            from <= i <= s@.len(),
            digits == s@.skip(from as int),
            u64_in(s@) == (if digits.len() > 0 && rows::all_digits(digits)
                && rows::digits_value(digits) <= u64::MAX {
                Some(rows::digits_value(digits) as u64)
            } else {
                None
            }),
            forall|k: int| 0 <= k < i - from ==> 48 <= #[trigger] digits[k] <= 57,
            n == rows::digits_value(digits.take(i - from)),
            n <= u64::MAX,
        decreases s@.len() - i,
    {
        let d: u8 = s[i];
        assert(digits[i - from] == d);
        if d < 48 || d > 57 {
            return None;
        }
        proof {
            assert(digits.take(i - from + 1).drop_last() =~= digits.take(i - from));
            assert(digits.take(i - from + 1).last() == d);
            rows::lemma_digits_grow(digits, i - from + 1);
        }
        n = n * 10 + (d - 48) as u128;
        if n > u64::MAX as u128 {
            return None;
        }
        i += 1;
    }
    assert(digits.take(digits.len() as int) =~= digits);
    Some(n as u64)
}

/// How many pairs a batch has at most: what is set, where it is a number.
pub fn max_pairs(setting: Option<&str>) -> (n: u64)
    ensures
        n == (match setting {
            Some(v) => match u64_in(encode_utf8(v@)) {
                Some(n) => n,
                None => DEFAULT_MAX_PAIRS,
            },
            None => DEFAULT_MAX_PAIRS,
        }),
{
    match setting {
        Some(v) => match parse_u64(v.as_bytes()) {
            Some(n) => n,
            None => DEFAULT_MAX_PAIRS,
        },
        None => DEFAULT_MAX_PAIRS,
    }
}

/// What kind of device was found.
#[derive(Debug, Clone, Copy, PartialEq, Eq, Structural)]
pub enum Adapter {
    Missing,
    /// One that only imitates a graphics device.
    Software,
    Device,
}

/// Whether the device is used: it is not switched off, a real one was found,
/// and it did not fail before.
pub fn gpu_available(disabled: bool, adapter: Adapter, poisoned: bool) -> (r: bool)
    ensures
        r == (!disabled && adapter == Adapter::Device && !poisoned),
{
    !disabled && adapter == Adapter::Device && !poisoned
}

/// How distances are measured.
#[derive(Debug, Clone, Copy, PartialEq, Eq, Structural)]
pub enum Metric {
    L2,
    Cosine,
}

/// The layout of a batch on the device.
#[derive(Debug, Clone, Copy, PartialEq, Eq, Structural)]
pub struct Dispatch {
    pub num_queries: u32,
    pub num_base: u32,
    pub dim: u32,
    /// 0 for Euclidean distances, 1 for cosine distances.
    pub metric: u32,
    pub groups_x: u32,
    pub groups_y: u32,
    /// How many distances come back.
    pub pairs: u64,
}

/// Why a batch is not computed on the device.
#[derive(Debug, Clone, Copy, PartialEq, Eq, Structural)]
pub enum GpuError {
    Disabled,
    Unavailable,
    NoDimension,
    NotMultiple { dim: usize, queries: usize, base: usize },
    Overflow,
    TooLarge { pairs: u64, cap: u64 },
    Dispatch { x: u32, y: u32 },
}

impl GpuError {
    pub open spec fn text(self) -> Seq<char> {
        match self {
            GpuError::Disabled => "GPU vector similarity disabled via "@ + DISABLE_ENV@,
            GpuError::Unavailable => "GPU unavailable for vector similarity"@,
            GpuError::NoDimension => "vectors must be non-empty"@,
            GpuError::NotMultiple { dim, queries, base } =>
                "vector count is not a multiple of dim "@ + text::decimal(dim as nat)
                    + " (queries len "@ + text::decimal(queries as nat) + ", base len "@
                    + text::decimal(base as nat) + ")"@,
            GpuError::Overflow => "GPU vector similarity pair count overflowed"@,
            GpuError::TooLarge { pairs, cap } => "GPU vector batch too large ("@ + text::decimal(
                pairs as nat,
            ) + " pairs > "@ + text::decimal(cap as nat) + " cap)"@,
            GpuError::Dispatch { x, y } => "GPU vector batch dispatch dimension overflow ("@
                + text::decimal(x as nat) + " x "@ + text::decimal(y as nat)
                + " workgroups); fall back to CPU"@,
        }
    }

    /// What is wrong, in words.
    pub fn message(self) -> (m: String)
        ensures
            m@ == self.text(),
    {
        match self {
            GpuError::Disabled => {
                let mut m = "GPU vector similarity disabled via ".to_owned();
                m.append(DISABLE_ENV);
                m
            },
            GpuError::Unavailable => "GPU unavailable for vector similarity".to_owned(),
            GpuError::NoDimension => "vectors must be non-empty".to_owned(),
            GpuError::NotMultiple { dim, queries, base } => {
                let mut m = "vector count is not a multiple of dim ".to_owned();
                m.append(decimal_text(dim as u64).as_str());
                m.append(" (queries len ");
                m.append(decimal_text(queries as u64).as_str());
                m.append(", base len ");
                m.append(decimal_text(base as u64).as_str());
                m.append(")");
                m
            },
            GpuError::Overflow => "GPU vector similarity pair count overflowed".to_owned(),
            GpuError::TooLarge { pairs, cap } => {
                let mut m = "GPU vector batch too large (".to_owned();
                m.append(decimal_text(pairs).as_str());
                m.append(" pairs > ");
                m.append(decimal_text(cap).as_str());
                m.append(" cap)");
                m
            },
            GpuError::Dispatch { x, y } => {
                let mut m = "GPU vector batch dispatch dimension overflow (".to_owned();
                m.append(decimal_text(x as u64).as_str());
                m.append(" x ");
                m.append(decimal_text(y as u64).as_str());
                m.append(" workgroups); fall back to CPU");
                m
            },
        }
    }
}

/// How many groups of eight hold `n`, as the device counts them.
pub open spec fn groups(n: int) -> u32 {
    ((n + 7) / 8) as u32
}

/// The layout of a batch, or why it is not computed on the device. A batch
/// without vectors has none, and an empty result.
pub open spec fn plan_of(
    disabled: bool,
    available: bool,
    queries: int,
    base: int,
    dim: int,
    metric: Metric,
    cap: int,
) -> Result<Option<Dispatch>, GpuError> {
    if disabled {
        Err(GpuError::Disabled)
    } else if !available {
        Err(GpuError::Unavailable)
    } else if dim == 0 {
        Err(GpuError::NoDimension)
    } else if queries == 0 || base == 0 {
        Ok(None)
    } else if queries % dim != 0 || base % dim != 0 {
        Err(
            GpuError::NotMultiple {
                dim: dim as usize,
                queries: queries as usize,
                base: base as usize,
            },
        )
    } else {
        let nq = queries / dim;
        let nb = base / dim;
        if nq * nb > u64::MAX {
            Err(GpuError::Overflow)
        } else if nq * nb > cap {
            Err(GpuError::TooLarge { pairs: (nq * nb) as u64, cap: cap as u64 })
        } else if groups(nq) == 0 || groups(nb) == 0 || groups(nq) > MAX_DISPATCH_DIM || groups(nb)
            > MAX_DISPATCH_DIM {
            Err(GpuError::Dispatch { x: groups(nq), y: groups(nb) })
        } else {
            Ok(
                Some(
                    Dispatch {
                        num_queries: nq as u32,
                        num_base: nb as u32,
                        dim: dim as u32,
                        metric: match metric {
                            Metric::L2 => 0,
                            Metric::Cosine => 1,
                        },
                        groups_x: groups(nq),
                        groups_y: groups(nb),
                        pairs: (nq * nb) as u64,
                    },
                ),
            )
        }
    }
}

/// Lays a batch out: `queries` and `base` are how many numbers the two lists of
/// vectors hold.
pub fn plan(
    disabled: bool,
    available: bool,
    queries: usize,
    base: usize,
    dim: usize,
    metric: Metric,
    cap: u64,
) -> (r: Result<Option<Dispatch>, GpuError>)
    ensures
        r == plan_of(
            disabled,
            available,
            queries as int,
            base as int,
            dim as int,
            metric,
            cap as int,
        ),
{
    if disabled {
        return Err(GpuError::Disabled);
    }
    if !available {
        return Err(GpuError::Unavailable);
    }
    if dim == 0 {
        return Err(GpuError::NoDimension);
    }
    if queries == 0 || base == 0 {
        return Ok(None);
    }
    if queries % dim != 0 || base % dim != 0 {
        return Err(GpuError::NotMultiple { dim, queries, base });
    }
    let nq: u64 = (queries / dim) as u64;
    let nb: u64 = (base / dim) as u64;
    let pairs: u64 = match nq.checked_mul(nb) {
        Some(n) => n,
        None => return Err(GpuError::Overflow),
    };
    if pairs > cap {
        return Err(GpuError::TooLarge { pairs, cap });
    }
    let x: u32 = #[verifier::truncate] (((nq as u128 + 7) / 8) as u32);
    let y: u32 = #[verifier::truncate] (((nb as u128 + 7) / 8) as u32);
    if x == 0 || y == 0 || x > MAX_DISPATCH_DIM || y > MAX_DISPATCH_DIM {
        return Err(GpuError::Dispatch { x, y });
    }
    Ok(
        Some(
            Dispatch {
                num_queries: #[verifier::truncate] (nq as u32),
                num_base: #[verifier::truncate] (nb as u32),
                dim: #[verifier::truncate] (dim as u32),
                metric: match metric {
                    Metric::L2 => 0,
                    Metric::Cosine => 1,
                },
                groups_x: x,
                groups_y: y,
                pairs,
            },
        ),
    )
}

/// Where every pair of a batch is given a place, at most eight times eight to a
/// group, the groups cover them all.
pub proof fn law_groups_cover_the_batch(n: int)
    requires
        0 < n,
        (n + 7) / 8 <= MAX_DISPATCH_DIM,
    ensures
        groups(n) * 8 >= n,
        (groups(n) - 1) * 8 < n,
{
}

/// The numbers below `n`.
pub open spec fn upto(n: nat) -> Seq<usize> {
    Seq::new(n, |i: int| i as usize)
}

/// The places of the `k` smallest distances, the smallest first; of equal ones
/// the earlier first.
pub open spec fn nearest_of(distances: Seq<u32>, k: nat) -> Seq<usize> {
    let sorted = ranking::by_rank(upto(distances.len()), distances);
    if sorted.len() > k {
        sorted.take(k as int)
    } else {
        sorted
    }
}

/// Picks the places of the `k` smallest distances.
pub fn nearest(distances: &Vec<u32>, k: usize) -> (r: Vec<usize>)
    ensures
        r@ == nearest_of(distances@, k as nat),
{
    let mut all: Vec<usize> = Vec::new();
    let mut i: usize = 0;
    while i < distances.len()
        invariant
            i <= distances@.len(),
            all@.len() == i,
            forall|j: int| 0 <= j < i ==> #[trigger] all@[j] == j,
        decreases distances@.len() - i,
    {
        all.push(i);
        i += 1;
    }
    assert(all@ =~= upto(distances@.len()));
    let mut r = sort_by_rank(&all, distances);
    if r.len() > k {
        r.truncate(k);
    }
    assert(r@ =~= nearest_of(distances@, k as nat));
    r
}

/// What is picked are places.
pub proof fn lemma_nearest_in_range(distances: Seq<u32>, k: nat)
    requires
        distances.len() <= usize::MAX,
    ensures
        forall|i: int|
            0 <= i < nearest_of(distances, k).len() ==> (#[trigger] nearest_of(distances, k)[i])
                < distances.len(),
{
    let all = upto(distances.len());
    let sorted = ranking::by_rank(all, distances);
    let best = nearest_of(distances, k);
    ranking::lemma_by_rank(all, distances);
    assert forall|i: int| 0 <= i < best.len() implies (#[trigger] best[i]) < distances.len() by {
        assert(best[i] == sorted[i]);
        assert(sorted.contains(sorted[i]));
        let j = choose|j: int| 0 <= j < all.len() && all[j] == sorted[i];
        assert(all[j] == j);
    }
}

/// What is picked is in order, and nothing that was left out is nearer.
pub proof fn law_nearest_come_first(distances: Seq<u32>, k: nat, i: int, p: usize)
    requires
        0 <= i < nearest_of(distances, k).len(),
        p < distances.len(),
        !nearest_of(distances, k).contains(p),
    ensures
        ranking::ascending(nearest_of(distances, k), distances),
        distances[nearest_of(distances, k)[i] as int] <= distances[p as int],
{
    let all = upto(distances.len());
    let sorted = ranking::by_rank(all, distances);
    let best = nearest_of(distances, k);
    ranking::lemma_by_rank(all, distances);
    assert forall|a: int, b: int| 0 <= a <= b < best.len() implies distances[
    #[trigger] best[a] as int] <= distances[#[trigger] best[b] as int] by {
        assert(best[a] == sorted[a] && best[b] == sorted[b]);
    }
    assert(all[p as int] == p);
    assert(all.contains(p));
    assert(sorted.contains(p));
    let j = choose|j: int| 0 <= j < sorted.len() && sorted[j] == p;
    if j < best.len() {
        assert(best[j] == p);
    }
    assert(best[i] == sorted[i]);
}

/// The nearest are as many as asked for or as there are, each once, the nearer
/// before the further, and of those at one distance the first in the list.
pub proof fn law_nearest_are_enough_and_each_once(distances: Seq<u32>, k: nat)
    requires
        distances.len() <= usize::MAX,
    ensures
        nearest_of(distances, k).len() == (if k < distances.len() {
            k
        } else {
            distances.len()
        }),
        nearest_of(distances, k).no_duplicates(),
        forall|i: int|
            0 <= i < nearest_of(distances, k).len() ==> (#[trigger] nearest_of(distances, k)[i])
                < distances.len(),
        forall|i: int, j: int|
            0 <= i < j < nearest_of(distances, k).len() ==> distances[#[trigger] nearest_of(
                distances,
                k,
            )[i] as int] <= distances[#[trigger] nearest_of(distances, k)[j] as int],
{
    let all = upto(distances.len());
    let sorted = ranking::by_rank(all, distances);
    ranking::lemma_by_rank(all, distances);
    assert(all.no_duplicates());
    assert forall|i: int| 0 <= i < sorted.len() implies (#[trigger] sorted[i])
        < distances.len() by {
        assert(sorted.contains(sorted[i]));
        assert(all.contains(sorted[i]));
    }
}

/// A planned batch covers every query and every base vector, keeps within the cap,
/// and is refused where it does not.
pub proof fn law_plan_covers_the_batch(
    queries: usize,
    base: usize,
    dim: usize,
    metric: Metric,
    cap: u64,
    r: Result<Option<Dispatch>, GpuError>,
)
    requires
        call_ensures(plan, (false, true, queries, base, dim, metric, cap), r),
    ensures
        dim == 0 ==> r is Err,
        r matches Ok(Some(d)) ==> {
            &&& dim > 0
            &&& queries > 0 && base > 0
            &&& queries % dim == 0 && base % dim == 0
            &&& d.pairs == (queries / dim) * (base / dim)
            &&& d.pairs <= cap
            &&& queries / dim <= u32::MAX ==> d.num_queries == queries / dim
            &&& base / dim <= u32::MAX ==> d.num_base == base / dim
            &&& d.metric == (match metric {
                Metric::L2 => 0u32,
                Metric::Cosine => 1u32,
            })
        },
        r matches Ok(None) ==> queries == 0 || base == 0,
        dim > 0 && queries > 0 && base > 0 && queries % dim == 0 && base % dim == 0 && (queries
            / dim) * (base / dim) > cap ==> r is Err,
{
    if dim > 0 && queries > 0 && base > 0 && queries % dim == 0 && base % dim == 0 {
        let nq = queries as int / dim as int;
        let nb = base as int / dim as int;
        assert(nq > 0 && nb > 0) by (nonlinear_arith)
            requires
                nq == queries as int / dim as int,
                nb == base as int / dim as int,
                dim > 0,
                queries > 0,
                base > 0,
                queries as int % dim as int == 0,
                base as int % dim as int == 0,
        ;
    }
}

} // verus!
