//! A Bloom filter over byte strings, kept by the `bloomfilter` crate.

use bloomfilter::Bloom;
use vstd::prelude::*;

verus! {

/// `bloomfilter::Bloom`, a filter.
#[verifier::external_type_specification]
#[verifier::external_body]
#[verifier::reject_recursive_types(T)]
pub struct ExBloom<T: ?Sized>(bloomfilter::Bloom<T>);

/// What a filter is made of: its bitmap in bytes, the number of bits that it
/// addresses, the number of its hash functions, its two SipHash key pairs and
/// the number of bits that the bitmap holds.
pub uninterp spec fn bloom_parts(b: Bloom<Vec<u8>>) -> (
    Seq<u8>,
    u64,
    u32,
    Seq<(u64, u64)>,
    nat,
);

/// The byte strings that a filter answers "perhaps" to.
pub uninterp spec fn bloom_admits(b: Bloom<Vec<u8>>) -> Set<Seq<u8>>;

/// Whether the filter can be asked: every bit that it addresses is there.
pub open spec fn usable(b: Bloom<Vec<u8>>) -> bool {
    bloom_parts(b).2 == 0 || (0 < bloom_parts(b).1 && bloom_parts(b).1 <= bloom_parts(b).4)
}

/// `Bloom::from_existing`: the filter with the given parts, whose bitmap holds
/// eight bits for every byte. Filters with the same parts answer alike. It
/// panics where the number of bits in the bitmap is no `usize`.
#[verifier::external_body]
pub(crate) fn bloom_from_existing(
    bits: &[u8],
    num_bits: u64,
    num_hashes: u32,
    keys: [(u64, u64); 2],
) -> (b: Bloom<Vec<u8>>)
    requires
        8 * bits@.len() <= usize::MAX,
    ensures
        bloom_parts(b) == (bits@, num_bits, num_hashes, keys@, 8 * bits@.len()),
        forall|other: Bloom<Vec<u8>>|
            bloom_parts(other) == bloom_parts(b) ==> #[trigger] bloom_admits(other)
                == bloom_admits(b),
{
    Bloom::from_existing(bits, num_bits, num_hashes, keys)
}

/// `Bloom::set`: only sets bits, so that everything admitted before still is,
/// and the item is admitted too. Nothing but the bitmap's bits changes.
#[verifier::external_body]
pub(crate) fn bloom_set(b: &mut Bloom<Vec<u8>>, item: &Vec<u8>)
    requires
        usable(*old(b)),
    ensures
        bloom_parts(*final(b)).0.len() == bloom_parts(*old(b)).0.len(),
        bloom_parts(*final(b)).1 == bloom_parts(*old(b)).1,
        bloom_parts(*final(b)).2 == bloom_parts(*old(b)).2,
        bloom_parts(*final(b)).3 == bloom_parts(*old(b)).3,
        bloom_parts(*final(b)).4 == bloom_parts(*old(b)).4,
        bloom_admits(*old(b)).insert(item@).subset_of(bloom_admits(*final(b))),
{
    b.set(item)
}

/// `Bloom::check`: whether the filter admits the item.
#[verifier::external_body]
pub(crate) fn bloom_check(b: &Bloom<Vec<u8>>, item: &Vec<u8>) -> (r: bool)
    requires
        usable(*b),
    ensures
        r == bloom_admits(*b).contains(item@),
{
    b.check(item)
}

/// `Bloom::bitmap`: the bitmap in bytes.
#[verifier::external_body]
pub(crate) fn bloom_bitmap(b: &Bloom<Vec<u8>>) -> (r: Vec<u8>)
    ensures
        r@ == bloom_parts(*b).0,
{
    b.bitmap()
}

/// `Bloom::number_of_bits`: the number of bits that the filter addresses.
#[verifier::external_body]
pub(crate) fn bloom_num_bits(b: &Bloom<Vec<u8>>) -> (r: u64)
    ensures
        r == bloom_parts(*b).1,
{
    b.number_of_bits()
}

/// `Bloom::number_of_hash_functions`.
#[verifier::external_body]
pub(crate) fn bloom_num_hashes(b: &Bloom<Vec<u8>>) -> (r: u32)
    ensures
        r == bloom_parts(*b).2,
{
    b.number_of_hash_functions()
}

/// `Bloom::sip_keys`: the two SipHash key pairs.
#[verifier::external_body]
pub(crate) fn bloom_sip_keys(b: &Bloom<Vec<u8>>) -> (r: [(u64, u64); 2])
    ensures
        r@ == bloom_parts(*b).3,
{
    b.sip_keys()
}

/// A filter over keys: it may admit a key that was never added, and admits
/// every key that was.
pub struct KeyFilter {
    bloom: Bloom<Vec<u8>>,
}

impl KeyFilter {
    /// The bitmap in bytes.
    pub closed spec fn bits(&self) -> Seq<u8> {
        bloom_parts(self.bloom).0
    }

    /// The number of bits addressed.
    pub closed spec fn num_bits(&self) -> u64 {
        bloom_parts(self.bloom).1
    }

    /// The number of hash functions.
    pub closed spec fn num_hashes(&self) -> u32 {
        bloom_parts(self.bloom).2
    }

    /// The two SipHash key pairs.
    pub closed spec fn keys(&self) -> Seq<(u64, u64)> {
        bloom_parts(self.bloom).3
    }

    /// The keys that the filter admits.
    pub closed spec fn admits(&self) -> Set<Seq<u8>> {
        bloom_admits(self.bloom)
    }

    /// Whether the bitmap holds eight bits for every byte.
    pub closed spec fn whole(&self) -> bool {
        bloom_parts(self.bloom).4 == 8 * bloom_parts(self.bloom).0.len()
    }

    /// Whether every bit that the filter addresses is in its bitmap.
    pub open spec fn usable(&self) -> bool {
        self.num_hashes() == 0 || (0 < self.num_bits() && self.num_bits() <= 8
            * self.bits().len())
    }

    /// The filter with the given parts.
    pub fn from_parts(bits: &[u8], num_bits: u64, num_hashes: u32, keys: [(u64, u64); 2]) -> (f:
        KeyFilter)
        requires
            8 * bits@.len() <= usize::MAX,
        ensures
            f.bits() == bits@,
            f.num_bits() == num_bits,
            f.num_hashes() == num_hashes,
            f.keys() == keys@,
            f.whole(),
            forall|other: KeyFilter|
                other.whole() && other.bits() == bits@ && other.num_bits() == num_bits
                    && other.num_hashes() == num_hashes && other.keys() == keys@
                    ==> #[trigger] other.admits() == f.admits(),
    {
        KeyFilter { bloom: bloom_from_existing(bits, num_bits, num_hashes, keys) }
    }

    /// Whether every bit that the filter addresses is in its bitmap.
    pub fn is_usable(&self) -> (r: bool)
        ensures
            r == self.usable(),
    {
        let num_bits: u64 = bloom_num_bits(&self.bloom);
        bloom_num_hashes(&self.bloom) == 0 || (0 < num_bits && num_bits as u128 <= 8
            * bloom_bitmap(&self.bloom).len() as u128)
    }

    /// Adds a key.
    pub fn set(&mut self, key: &Vec<u8>)
        requires
            old(self).usable(),
            old(self).whole(),
        ensures
            final(self).usable(),
            final(self).whole(),
            final(self).bits().len() == old(self).bits().len(),
            final(self).num_bits() == old(self).num_bits(),
            final(self).num_hashes() == old(self).num_hashes(),
            final(self).keys() == old(self).keys(),
            old(self).admits().insert(key@).subset_of(final(self).admits()),
    {
        bloom_set(&mut self.bloom, key)
    }

    /// Whether the filter admits the key.
    pub fn check(&self, key: &Vec<u8>) -> (r: bool)
        requires
            self.usable(),
            self.whole(),
        ensures
            r == self.admits().contains(key@),
    {
        bloom_check(&self.bloom, key)
    }

    /// The parts of the filter: bitmap, addressed bits, hash functions and key
    /// pairs.
    pub fn parts(&self) -> (r: (Vec<u8>, u64, u32, [(u64, u64); 2]))
        ensures
            r.0@ == self.bits(),
            r.1 == self.num_bits(),
            r.2 == self.num_hashes(),
            r.3@ == self.keys(),
    {
        (
            bloom_bitmap(&self.bloom),
            bloom_num_bits(&self.bloom),
            bloom_num_hashes(&self.bloom),
            bloom_sip_keys(&self.bloom),
        )
    }
}

} // verus!
