//! Cutting vectors into parts that are each replaced by a code.

use vstd::prelude::*;
use vstd::string::*;

use super::kmeans;
use super::kmeans::nearest_centroid;
use crate::text;
use crate::text::decimal_text;

verus! {

/// How many entries a codebook has at most, so that a code fits a byte.
pub const MAX_ENTRIES: usize = 256;

/// How many rounds a codebook is trained for at most.
pub const TRAIN_ROUNDS: usize = 25;

/// Why a quantizer cannot be trained.
#[derive(Debug, Clone, Copy, PartialEq, Eq, Structural)]
pub enum PqError {
    NoVectors,
    NotMultiple { dim: usize, m: usize },
}

impl PqError {
    pub open spec fn text(self) -> Seq<char> {
        match self {
            PqError::NoVectors => "product quantizer training set must be non-empty"@,
            PqError::NotMultiple { dim, m } => "vector dimension "@ + text::decimal(dim as nat)
                + " must be a non-zero multiple of pq_m "@ + text::decimal(m as nat),
        }
    }

    /// What is wrong, in words.
    pub fn message(self) -> (s: String)
        ensures
            s@ == self.text(),
    {
        match self {
            PqError::NoVectors => "product quantizer training set must be non-empty".to_owned(),
            PqError::NotMultiple { dim, m } => {
                let mut s = "vector dimension ".to_owned();
                s.append(decimal_text(dim as u64).as_str());
                s.append(" must be a non-zero multiple of pq_m ");
                s.append(decimal_text(m as u64).as_str());
                s
            },
        }
    }
}

/// How vectors are cut into parts. Each part has a codebook of its own.
#[derive(Debug, Clone, Copy, PartialEq, Eq, Structural)]
pub struct ProductQuantizer {
    pub dim: usize,
    pub m: usize,
    pub sub_dim: usize,
    /// How many entries each codebook has.
    pub entries: usize,
}

impl ProductQuantizer {
    pub open spec fn wf(&self) -> bool {
        &&& 0 < self.m
        &&& 0 < self.sub_dim
        &&& self.dim == self.m * self.sub_dim
        &&& 0 < self.entries <= MAX_ENTRIES
    }

    /// The layout for `count` vectors of `dim` numbers, cut into `m` parts.
    pub fn train(count: usize, dim: usize, m: usize) -> (r: Result<ProductQuantizer, PqError>)
        ensures
            if count == 0 {
                r == Err::<ProductQuantizer, PqError>(PqError::NoVectors)
            } else if dim == 0 || m == 0 || dim % m != 0 {
                r == Err::<ProductQuantizer, PqError>(PqError::NotMultiple { dim, m })
            } else {
                r matches Ok(q) && q.wf() && q == (ProductQuantizer {
                    dim,
                    m,
                    sub_dim: dim / m,
                    entries: if count < MAX_ENTRIES {
                        count
                    } else {
                        MAX_ENTRIES
                    },
                })
            },
    {
        if count == 0 {
            return Err(PqError::NoVectors);
        }
        if dim == 0 || m == 0 || dim % m != 0 {
            return Err(PqError::NotMultiple { dim, m });
        }
        let sub_dim: usize = dim / m;
        proof {
            vstd::arithmetic::div_mod::lemma_fundamental_div_mod(dim as int, m as int);
            assert(sub_dim > 0) by (nonlinear_arith)
                requires
                    dim == m * sub_dim,
                    dim > 0,
                    sub_dim >= 0,
            ;
        }
        let entries: usize = if count < MAX_ENTRIES {
            count
        } else {
            MAX_ENTRIES
        };
        Ok(ProductQuantizer { dim, m, sub_dim, entries })
    }

    /// Where part `i` begins and ends.
    pub fn part(&self, i: usize) -> (r: (usize, usize))
        requires
            self.wf(),
            i < self.m,
        ensures
            r.0 == i * self.sub_dim,
            r.1 == r.0 + self.sub_dim,
            r.1 <= self.dim,
    {
        proof {
            assert((i + 1) * self.sub_dim <= self.m * self.sub_dim) by (nonlinear_arith)
                requires
                    i + 1 <= self.m,
                    0 <= self.sub_dim,
            ;
            assert((i + 1) * self.sub_dim == i * self.sub_dim + self.sub_dim) by (nonlinear_arith);
        }
        let start: usize = i * self.sub_dim;
        (start, start + self.sub_dim)
    }

    /// The code of a vector: for each part the nearest entry of its codebook,
    /// by the distances to all of them.
    pub fn encode(&self, keys: &Vec<Vec<u32>>) -> (codes: Vec<u8>)
        requires
            self.wf(),
            keys@.len() == self.m,
            forall|i: int|
                0 <= i < keys@.len() ==> (#[trigger] keys@[i])@.len() == self.entries,
        ensures
            codes@.len() == self.m,
            forall|i: int|
                0 <= i < self.m ==> #[trigger] codes@[i] == kmeans::first_least(keys@[i]@)
                    && codes@[i] < self.entries,
    {
        let mut codes: Vec<u8> = Vec::new();
        let mut i: usize = 0;
        while i < keys.len()
            invariant
                self.wf(),
                keys@.len() == self.m,
                forall|x: int|
                    0 <= x < keys@.len() ==> (#[trigger] keys@[x])@.len() == self.entries,
                i <= keys@.len(),
                codes@.len() == i,
                forall|x: int|
                    0 <= x < i ==> #[trigger] codes@[x] == kmeans::first_least(keys@[x]@)
                        && codes@[x] < self.entries,
            decreases keys@.len() - i,
        {
            let best: usize = nearest_centroid(&keys[i]);
            codes.push(best as u8);
            i += 1;
        }
        codes
    }
}

/// Every number of a vector is in one part and in no other.
pub proof fn law_parts_tile_the_vector(q: ProductQuantizer, d: int, i: int)
    requires
        q.wf(),
        0 <= d < q.dim,
        0 <= i < q.m,
    ensures
        0 <= d / (q.sub_dim as int) < q.m,
        i * q.sub_dim <= d < (i + 1) * q.sub_dim <==> i == d / (q.sub_dim as int),
{
    let s = q.sub_dim as int;
    let m = q.m as int;
    vstd::arithmetic::div_mod::lemma_fundamental_div_mod(d, s);
    let k = d / s;
    assert(0 <= k < m) by (nonlinear_arith)
        requires
            d == s * k + d % s,
            0 <= d % s < s,
            0 <= d < m * s,
    ;
    if i < k {
        assert((i + 1) * s <= d) by (nonlinear_arith)
            requires
                i + 1 <= k,
                d == s * k + d % s,
                0 <= d % s,
                s > 0,
        ;
    } else if i > k {
        assert(d < i * s) by (nonlinear_arith)
            requires
                k + 1 <= i,
                d == s * k + d % s,
                d % s < s,
                s > 0,
        ;
    } else {
        assert(i * s <= d < (i + 1) * s) by (nonlinear_arith)
            requires
                i == k,
                d == s * k + d % s,
                0 <= d % s < s,
        ;
    }
}

/// A vector is coded, part by part, by the first of the entries nearest to the
/// part.
pub proof fn law_parts_are_coded_by_the_nearest_entries(
    q: ProductQuantizer,
    keys: Vec<Vec<u32>>,
    codes: Vec<u8>,
    i: int,
    e: int,
)
    requires
        q.wf(),
        call_ensures(ProductQuantizer::encode, (&q, &keys), codes),
        keys@.len() == q.m,
        0 <= i < q.m,
        keys@[i]@.len() == q.entries,
        0 <= e < q.entries,
    ensures
        codes@.len() == q.m,
        codes@[i] < q.entries,
        keys@[i]@[codes@[i] as int] <= keys@[i]@[e],
        e < codes@[i] ==> keys@[i]@[codes@[i] as int] < keys@[i]@[e],
{
    kmeans::law_first_least(keys@[i]@);
    assert(codes@[i] == kmeans::first_least(keys@[i]@));
}

} // verus!
