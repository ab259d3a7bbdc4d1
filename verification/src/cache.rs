//! Which objects are kept near at hand.

use vstd::prelude::*;
use vstd::string::*;

use crate::text;
use crate::text::{after_prefix, chars_of, same_text};

verus! {

/// An object that is kept.
pub struct CacheEntry {
    pub key: String,
    pub size: u64,
    pub etag: String,
}

/// An object that is kept, as mathematical values.
#[verifier::ext_equal]
pub struct EntryView {
    pub key: Seq<char>,
    pub size: u64,
    pub etag: Seq<char>,
}

impl View for CacheEntry {
    type V = EntryView;

    open spec fn view(&self) -> EntryView {
        EntryView { key: self.key@, size: self.size, etag: self.etag@ }
    }
}

pub open spec fn entry_views(list: Seq<CacheEntry>) -> Seq<EntryView> {
    list.map_values(|e: CacheEntry| e@)
}

/// The keys of entries.
pub open spec fn keys_of(entries: Seq<EntryView>) -> Seq<Seq<char>> {
    entries.map_values(|e: EntryView| e.key)
}

/// How much room entries take.
pub open spec fn total(entries: Seq<EntryView>) -> nat
    decreases entries.len(),
{
    if entries.len() == 0 {
        0
    } else {
        total(entries.drop_last()) + entries.last().size as nat
    }
}

/// The entries without that of a key.
pub open spec fn without(entries: Seq<EntryView>, key: Seq<char>) -> Seq<EntryView>
    decreases entries.len(),
{
    if entries.len() == 0 {
        entries
    } else if entries.last().key == key {
        without(entries.drop_last(), key)
    } else {
        without(entries.drop_last(), key).push(entries.last())
    }
}

/// The entry of a key.
pub open spec fn entry_of(entries: Seq<EntryView>, key: Seq<char>) -> Option<EntryView>
    decreases entries.len(),
{
    if entries.len() == 0 {
        None
    } else if entries.last().key == key {
        Some(entries.last())
    } else {
        entry_of(entries.drop_last(), key)
    }
}

/// How many entries have to go, from the front, until the rest takes at most
/// `max` bytes.
pub open spec fn excess(entries: Seq<EntryView>, max: nat) -> nat
    decreases entries.len(),
{
    if entries.len() == 0 || total(entries) <= max {
        0
    } else {
        1 + excess(entries.drop_first(), max)
    }
}

/// The front entry is part of the total.
proof fn lemma_total_front(entries: Seq<EntryView>)
    requires
        entries.len() > 0,
    ensures
        total(entries) == entries[0].size as nat + total(entries.drop_first()),
    decreases entries.len(),
{
    if entries.len() == 1 {
        assert(entries.drop_last() =~= Seq::empty());
        assert(entries.drop_first() =~= Seq::empty());
    } else {
        let head = entries.drop_last();
        lemma_total_front(head);
        assert(head.drop_first() =~= entries.drop_first().drop_last());
        assert(entries.drop_first().last() == entries.last());
    }
}

proof fn lemma_total_take(entries: Seq<EntryView>, n: int)
    requires
        0 <= n <= entries.len(),
    ensures
        total(entries.take(n)) <= total(entries),
    decreases entries.len(),
{
    if n < entries.len() {
        assert(entries.drop_last().take(n) =~= entries.take(n));
        lemma_total_take(entries.drop_last(), n);
    } else {
        assert(entries.take(n) =~= entries);
    }
}

proof fn lemma_excess_bound(entries: Seq<EntryView>, max: nat)
    ensures
        excess(entries, max) <= entries.len(),
    decreases entries.len(),
{
    if entries.len() > 0 && total(entries) > max {
        lemma_excess_bound(entries.drop_first(), max);
    }
}

/// The entries after those in excess went.
pub open spec fn trimmed(entries: Seq<EntryView>, max: nat) -> Seq<EntryView> {
    entries.skip(excess(entries, max) as int)
}

/// What is kept, and the keys of what went, once an entry is put in.
pub open spec fn after_put(entries: Seq<EntryView>, e: EntryView, max: nat) -> (
    Seq<EntryView>,
    Seq<Seq<char>>,
) {
    let all = without(entries, e.key).push(e);
    let n = excess(all, max) as int;
    (all.skip(n), keys_of(all.take(n)))
}

/// What is kept once a key was asked for: its entry, where there is one, is used
/// last.
pub open spec fn after_get(entries: Seq<EntryView>, key: Seq<char>) -> Seq<EntryView> {
    match entry_of(entries, key) {
        Some(e) => without(entries, key).push(e),
        None => entries,
    }
}

/// What is kept fits, and the entries that went are those not used for longest,
/// and no more than had to.
pub proof fn law_least_recently_used_go_first(entries: Seq<EntryView>, max: nat)
    ensures
        excess(entries, max) <= entries.len(),
        total(trimmed(entries, max)) <= max,
        excess(entries, max) > 0 ==> total(entries.skip(excess(entries, max) - 1)) > max,
    decreases entries.len(),
{
    if entries.len() == 0 {
        assert(trimmed(entries, max) =~= entries);
    } else if total(entries) <= max {
        assert(trimmed(entries, max) =~= entries);
    } else {
        let rest = entries.drop_first();
        law_least_recently_used_go_first(rest, max);
        assert(rest.skip(excess(rest, max) as int) =~= entries.skip(excess(entries, max) as int));
        if excess(rest, max) > 0 {
            assert(rest.skip(excess(rest, max) - 1) =~= entries.skip(
                excess(entries, max) - 1,
            ));
        } else {
            assert(entries.skip(0) =~= entries);
        }
    }
}

/// The objects that are kept, those not used for longest first.
pub struct NvmeCache {
    entries: Vec<CacheEntry>,
    max_bytes: u64,
}

impl NvmeCache {
    pub closed spec fn entries(&self) -> Seq<EntryView> {
        entry_views(self.entries@)
    }

    pub closed spec fn max(&self) -> u64 {
        self.max_bytes
    }

    /// Nothing is kept.
    pub fn open(max_bytes: u64) -> (c: NvmeCache)
        ensures
            c.entries().len() == 0,
            c.max() == max_bytes,
    {
        NvmeCache { entries: Vec::new(), max_bytes }
    }

    fn find(&self, key: &str) -> (r: Option<usize>)
        ensures
            match r {
                Some(i) => i < self.entries@.len() && entry_of(self.entries(), key@) == Some(
                    self.entries@[i as int]@,
                ),
                None => entry_of(self.entries(), key@) is None && without(self.entries(), key@)
                    == self.entries(),
            },
    {
        let ghost all = self.entries();
        let mut i: usize = self.entries.len();
        assert(all.take(all.len() as int) =~= all);
        while i > 0
            invariant
                all == self.entries(),
                all == entry_views(self.entries@),
                i <= self.entries@.len(),
                entry_of(all, key@) == entry_of(all.take(i as int), key@),
                forall|k: int| i <= k < all.len() ==> (#[trigger] all[k]).key != key@,
            decreases i,
        {
            assert(all.take(i as int).drop_last() =~= all.take(i - 1));
            if same_text(self.entries[i - 1].key.as_str(), key) {
                return Some(i - 1);
            }
            i -= 1;
        }
        proof {
            lemma_without_absent(all, key@);
        }
        None
    }

    fn drop_key(&mut self, key: &str)
        ensures
            final(self).entries() == without(old(self).entries(), key@),
            final(self).max() == old(self).max(),
    {
        let ghost all = self.entries();
        let mut old_entries: Vec<CacheEntry> = Vec::new();
        std::mem::swap(&mut old_entries, &mut self.entries);
        let mut kept: Vec<CacheEntry> = Vec::new();
        let mut i: usize = 0;
        assert(all.take(0) =~= Seq::<EntryView>::empty());
        assert(entry_views(kept@) =~= Seq::<EntryView>::empty());
        while i < old_entries.len()
            invariant
                all == entry_views(old_entries@),
                i <= old_entries@.len(),
                entry_views(kept@) == without(all.take(i as int), key@),
            decreases old_entries@.len() - i,
        {
            proof {
                assert(all.take(i + 1).drop_last() =~= all.take(i as int));
                assert(all.take(i + 1).last() == all[i as int]);
            }
            let e = &old_entries[i];
            let ghost before = kept@;
            if !same_text(e.key.as_str(), key) {
                kept.push(CacheEntry { key: e.key.clone(), size: e.size, etag: e.etag.clone() });
                assert(entry_views(kept@) =~= entry_views(before).push(all[i as int]));
            }
            i += 1;
        }
        assert(all.take(old_entries@.len() as int) =~= all);
        self.entries = kept;
    }

    /// Looks an object up; one that is there is now the one used last.
    pub fn get(&mut self, key: &str) -> (r: Option<CacheEntry>)
        ensures
            final(self).max() == old(self).max(),
            match r {
                Some(e) => entry_of(old(self).entries(), key@) == Some(e@),
                None => entry_of(old(self).entries(), key@) is None,
            },
            final(self).entries() == after_get(old(self).entries(), key@),
    {
        let i: usize = match self.find(key) {
            Some(i) => i,
            None => return None,
        };
        let e = &self.entries[i];
        let hit = CacheEntry { key: e.key.clone(), size: e.size, etag: e.etag.clone() };
        let back = CacheEntry { key: e.key.clone(), size: e.size, etag: e.etag.clone() };
        self.drop_key(key);
        let ghost before = self.entries@;
        self.entries.push(back);
        assert(self.entries() =~= entry_views(before).push(hit@));
        Some(hit)
    }

    /// Keeps an object as the one used last, and returns the keys of those that
    /// have to go for it.
    pub fn put(&mut self, key: &str, size: u64, etag: &str) -> (gone: Vec<String>)
        requires
            total(without(old(self).entries(), key@)) + size <= u64::MAX,
        ensures
            final(self).max() == old(self).max(),
            (final(self).entries(), text::texts(gone@)) == after_put(
                old(self).entries(),
                EntryView { key: key@, size, etag: etag@ },
                old(self).max() as nat,
            ),
    {
        self.drop_key(key);
        let ghost before = self.entries@;
        let entry = CacheEntry { key: key.to_owned(), size, etag: etag.to_owned() };
        self.entries.push(entry);
        let ghost all = self.entries();
        proof {
            assert(all =~= entry_views(before).push(EntryView { key: key@, size, etag: etag@ }));
            assert(all.drop_last() =~= entry_views(before));
        }
        let ghost max = self.max_bytes as nat;
        let mut left: u64 = self.total_bytes();
        let mut gone: Vec<String> = Vec::new();
        let ghost mut n: int = 0;
        proof {
            assert(all.skip(0) =~= all);
            assert(text::texts(gone@) =~= keys_of(all.take(0)));
            lemma_excess_bound(all, max);
        }
        while left > self.max_bytes && self.entries.len() > 0
            invariant
                self.max_bytes == max,
                old(self).max() == max,
                0 <= n <= all.len(),
                self.entries() == all.skip(n),
                self.entries() == entry_views(self.entries@),
                left == total(all.skip(n)),
                excess(all, max) == n + excess(all.skip(n), max),
                text::texts(gone@) == keys_of(all.take(n)),
            decreases self.entries@.len(),
        {
            let ghost rest = all.skip(n);
            proof {
                assert(rest[0] == self.entries@[0]@);
                lemma_total_front(rest);
                assert(rest.drop_first() =~= all.skip(n + 1));
            }
            let e = self.entries.remove(0);
            assert(self.entries() =~= rest.drop_first());
            left = left - e.size;
            let ghost names = gone@;
            gone.push(e.key);
            proof {
                assert(all.take(n + 1) =~= all.take(n).push(all[n]));
                assert(all[n] == rest[0]);
                assert(text::texts(gone@) =~= text::texts(names).push(all[n].key));
                assert(keys_of(all.take(n + 1)) =~= keys_of(all.take(n)).push(all[n].key));
                n = n + 1;
            }
        }
        gone
    }

    fn total_bytes(&self) -> (n: u64)
        requires
            total(self.entries()) <= u64::MAX,
        ensures
            n == total(self.entries()),
    {
        let ghost all = self.entries();
        let mut n: u64 = 0;
        let mut i: usize = 0;
        assert(all.take(0) =~= Seq::<EntryView>::empty());
        while i < self.entries.len()
            invariant
                all == entry_views(self.entries@),
                total(all) <= u64::MAX,
                i <= self.entries@.len(),
                n == total(all.take(i as int)),
            decreases self.entries@.len() - i,
        {
            proof {
                assert(all.take(i + 1).drop_last() =~= all.take(i as int));
                assert(all.take(i + 1).last() == all[i as int]);
                lemma_total_take(all, i + 1);
            }
            n = n + self.entries[i].size;
            i += 1;
        }
        assert(all.take(self.entries@.len() as int) =~= all);
        n
    }

    /// Forgets an object. Whether it was kept, so that its copy has to go.
    pub fn invalidate(&mut self, key: &str) -> (r: bool)
        ensures
            final(self).max() == old(self).max(),
            r == (entry_of(old(self).entries(), key@) is Some),
            final(self).entries() == without(old(self).entries(), key@),
    {
        if self.find(key).is_none() {
            return false;
        }
        self.drop_key(key);
        true
    }

    /// How many objects are kept, and how much room they take.
    pub fn stats(&self) -> (r: (usize, u64))
        requires
            total(self.entries()) <= u64::MAX,
        ensures
            r.0 == self.entries().len(),
            r.1 == total(self.entries()),
    {
        (self.entries.len(), self.total_bytes())
    }
}

proof fn lemma_without_absent(entries: Seq<EntryView>, key: Seq<char>)
    requires
        forall|k: int| 0 <= k < entries.len() ==> (#[trigger] entries[k]).key != key,
    ensures
        without(entries, key) == entries,
    decreases entries.len(),
{
    if entries.len() > 0 {
        let head = entries.drop_last();
        assert forall|k: int| 0 <= k < head.len() implies (#[trigger] head[k]).key != key by {
            assert(head[k] == entries[k]);
        }
        lemma_without_absent(head, key);
        assert(entries[entries.len() - 1].key != key);
        assert(head.push(entries.last()) =~= entries);
    }
}

/// Whether an object never changes once it is written, so that a copy of it
/// stays right.
pub open spec fn cacheable(key: Seq<char>) -> bool {
    text::starts_with(key, "sst/"@) || text::starts_with(key, "wal/"@)
}

/// Whether an object never changes once it is written.
pub fn is_cacheable(key: &str) -> (r: bool)
    ensures
        r == cacheable(key@),
{
    after_prefix(key, "sst/").is_some() || after_prefix(key, "wal/").is_some()
}

/// Where the copy of an object lies.
pub fn path_for(key: &str) -> (p: String)
    ensures
        p@ == key@.map_values(
            |c: char|
                if c == '\\' {
                    '/'
                } else {
                    c
                },
        ),
{
    let chars = chars_of(key);
    let ghost turned = key@.map_values(
        |c: char|
            if c == '\\' {
                '/'
            } else {
                c
            },
    );
    let mut p = String::new();
    let mut i: usize = 0;
    while i < chars.len()
        invariant
            chars@ == key@,
            turned == key@.map_values(
                |c: char|
                    if c == '\\' {
                        '/'
                    } else {
                        c
                    },
            ),
            i <= chars@.len(),
            p@ == turned.take(i as int),
        decreases chars@.len() - i,
    {
        if chars[i] == '\\' {
            p.push('/');
        } else {
            p.push(chars[i]);
        }
        i += 1;
        assert(turned.take(i as int) =~= turned.take(i - 1).push(turned[i - 1]));
    }
    assert(turned.take(turned.len() as int) =~= turned);
    p
}

/// Where an object is read from.
pub enum Lookup {
    /// Only from the store: it may change.
    Bypass,
    /// From the copy.
    Hit(CacheEntry),
    /// From the store, and then it is kept.
    Miss,
}

/// A store with copies near at hand.
pub struct CachedObjectStore {
    pub cache: NvmeCache,
}

impl CachedObjectStore {
    /// A store that keeps no object yet.
    pub fn new(cache_max_bytes: u64) -> (s: CachedObjectStore)
        ensures
            s.cache.entries().len() == 0,
            s.cache.max() == cache_max_bytes,
    {
        CachedObjectStore { cache: NvmeCache::open(cache_max_bytes) }
    }

    /// How many objects are kept, and how much room they take.
    pub fn cache_stats(&self) -> (r: (usize, u64))
        requires
            total(self.cache.entries()) <= u64::MAX,
        ensures
            r.0 == self.cache.entries().len(),
            r.1 == total(self.cache.entries()),
    {
        self.cache.stats()
    }

    /// Decides where an object is read from.
    pub fn get(&mut self, key: &str) -> (r: Lookup)
        ensures
            final(self).cache.max() == old(self).cache.max(),
            if !cacheable(key@) {
                r is Bypass && final(self).cache.entries() == old(self).cache.entries()
            } else {
                &&& final(self).cache.entries() == after_get(old(self).cache.entries(), key@)
                &&& match entry_of(old(self).cache.entries(), key@) {
                    Some(e) => r matches Lookup::Hit(h) && h@ == e,
                    None => r is Miss,
                }
            },
    {
        if !is_cacheable(key) {
            return Lookup::Bypass;
        }
        match self.cache.get(key) {
            Some(e) => Lookup::Hit(e),
            None => Lookup::Miss,
        }
    }

    /// Takes note of an object that the store now holds, or gave out. The keys
    /// of the copies that have to go are returned.
    pub fn put(&mut self, key: &str, size: u64, etag: &str) -> (gone: Vec<String>)
        requires
            total(without(old(self).cache.entries(), key@)) + size <= u64::MAX,
        ensures
            final(self).cache.max() == old(self).cache.max(),
            if cacheable(key@) {
                (final(self).cache.entries(), text::texts(gone@)) == after_put(
                    old(self).cache.entries(),
                    EntryView { key: key@, size, etag: etag@ },
                    old(self).cache.max() as nat,
                )
            } else {
                &&& final(self).cache.entries() == old(self).cache.entries()
                &&& gone@.len() == 0
            },
    {
        if !is_cacheable(key) {
            return Vec::new();
        }
        self.cache.put(key, size, etag)
    }

    /// Takes note that the store no longer holds an object. Whether its copy
    /// has to go.
    pub fn delete(&mut self, key: &str) -> (r: bool)
        ensures
            final(self).cache.max() == old(self).cache.max(),
            r == (entry_of(old(self).cache.entries(), key@) is Some),
            final(self).cache.entries() == without(old(self).cache.entries(), key@),
    {
        self.cache.invalidate(key)
    }
}

proof fn lemma_entry_of(entries: Seq<EntryView>, key: Seq<char>)
    ensures
        match entry_of(entries, key) {
            Some(e) => entries.contains(e) && e.key == key,
            None => forall|i: int| 0 <= i < entries.len() ==> (#[trigger] entries[i]).key != key,
        },
    decreases entries.len(),
{
    if entries.len() > 0 {
        let head = entries.drop_last();
        lemma_entry_of(head, key);
        assert(entries[entries.len() - 1] == entries.last());
        if entries.last().key != key {
            assert forall|i: int| 0 <= i < head.len() implies #[trigger] entries[i]
                == head[i] by {}
            if entry_of(head, key) is Some {
                let k = choose|k: int| 0 <= k < head.len() && head[k] == entry_of(head, key)->0;
                assert(entries[k] == head[k]);
            }
        }
    }
}

proof fn lemma_without_key(entries: Seq<EntryView>, key: Seq<char>, other: Seq<char>)
    ensures
        entry_of(without(entries, key), key) is None,
        other != key ==> entry_of(without(entries, key), other) == entry_of(entries, other),
        without(entries, key).len() <= entries.len(),
    decreases entries.len(),
{
    if entries.len() > 0 {
        let w = without(entries.drop_last(), key);
        lemma_without_key(entries.drop_last(), key, other);
        assert(w.push(entries.last()).drop_last() =~= w);
    }
}

/// What is asked for is an entry of that key, and is used last then; the others
/// are there as they were.
pub proof fn law_asked_entry_is_used_last(
    entries: Seq<EntryView>,
    key: Seq<char>,
    other: Seq<char>,
    e: EntryView,
)
    requires
        entry_of(entries, key) == Some(e),
    ensures
        e.key == key,
        entries.contains(e),
        ({
            let now = without(entries, key).push(e);
            &&& now.last() == e
            &&& entry_of(now, key) == Some(e)
            &&& other != key ==> entry_of(now, other) == entry_of(entries, other)
        }),
{
    lemma_entry_of(entries, key);
    lemma_without_key(entries, key, other);
    let w = without(entries, key);
    assert(w.push(e).drop_last() =~= w);
}

/// What is put in is found again, as it was put in, unless it alone is too large;
/// what is forgotten is not found, and the others are.
pub proof fn law_put_entry_is_found(
    entries: Seq<EntryView>,
    e: EntryView,
    other: Seq<char>,
    max: nat,
)
    ensures
        e.size <= max ==> entry_of(trimmed(without(entries, e.key).push(e), max), e.key) == Some(e),
        e.size > max ==> trimmed(without(entries, e.key).push(e), max).len() == 0,
        entry_of(without(entries, e.key), e.key) is None,
        other != e.key ==> entry_of(without(entries, e.key), other) == entry_of(entries, other),
{
    let w = without(entries, e.key);
    let all = w.push(e);
    lemma_without_key(entries, e.key, other);
    law_least_recently_used_go_first(all, max);
    let n = excess(all, max) as int;
    let left = all.skip(n);
    if e.size <= max {
        if n == all.len() {
            let one = all.skip(n - 1);
            assert(one =~= seq![e]);
            assert(one.drop_last() =~= Seq::<EntryView>::empty());
            assert(total(one.drop_last()) == 0);
            assert(total(one) == e.size);
        }
        assert(left.last() == e);
    } else if left.len() > 0 {
        assert(left.last() == e);
        assert(total(left) >= e.size);
    }
}

/// Only tables and logs are kept.
pub proof fn law_only_tables_and_logs_are_kept(key: Seq<char>)
    ensures
        cacheable(key) <==> key.len() >= 4 && (key.take(4) == seq!['s', 's', 't', '/'] || key.take(4)
            == seq!['w', 'a', 'l', '/']),
{
    reveal_strlit("sst/");
    reveal_strlit("wal/");
    assert("sst/"@ =~= seq!['s', 's', 't', '/']);
    assert("wal/"@ =~= seq!['w', 'a', 'l', '/']);
}

/// The size of entries is the sum of their sizes.
pub proof fn law_size_is_the_sum(a: Seq<EntryView>, b: Seq<EntryView>, e: EntryView)
    ensures
        total(a + b) == total(a) + total(b),
        total(seq![e]) == e.size,
    decreases b.len(),
{
    assert(seq![e].drop_last() =~= Seq::<EntryView>::empty());
    assert(total(seq![e].drop_last()) == 0);
    if b.len() > 0 {
        law_size_is_the_sum(a, b.drop_last(), e);
        assert((a + b).drop_last() =~= a + b.drop_last());
    } else {
        assert(a + b =~= a);
    }
}

/// An entry is put behind all others and goes last: what went and what is kept are,
/// one behind the other, the other entries in their order and the new one. What is
/// kept fits.
pub proof fn law_new_entry_goes_last(entries: Seq<EntryView>, e: EntryView, max: nat)
    ensures
        after_put(entries, e, max).1 + keys_of(after_put(entries, e, max).0) == keys_of(
            without(entries, e.key),
        ).push(e.key),
        total(after_put(entries, e, max).0) <= max || after_put(entries, e, max).0.len() == 0,
        e.size <= max ==> entry_of(after_put(entries, e, max).0, e.key) == Some(e),
        e.size <= max ==> after_put(entries, e, max).0.last() == e,
{
    let all = without(entries, e.key).push(e);
    let n = excess(all, max) as int;
    law_least_recently_used_go_first(all, max);
    law_put_entry_is_found(entries, e, e.key, max);
    assert(keys_of(all.take(n)) + keys_of(all.skip(n)) =~= keys_of(without(entries, e.key)).push(
        e.key,
    ));
    if e.size <= max {
        assert(all.skip(n).len() > 0);
    }
}

/// A key that is asked for is used last then, and found again as it was; every
/// other entry stays, and a key that is not there changes nothing.
pub proof fn law_asking_changes_only_the_order(
    entries: Seq<EntryView>,
    key: Seq<char>,
    other: Seq<char>,
)
    ensures
        entry_of(after_get(entries, key), other) == entry_of(entries, other),
        entry_of(entries, key) is Some ==> after_get(entries, key).last() == entry_of(
            entries,
            key,
        )->0,
        entry_of(entries, key) is None ==> after_get(entries, key) == entries,
{
    if entry_of(entries, key) is Some {
        law_asked_entry_is_used_last(entries, key, other, entry_of(entries, key)->0);
    }
}

/// The path of a key has its characters, with slashes for backslashes.
pub proof fn law_path_has_only_slashes(key: &str, p: String, i: int)
    requires
        call_ensures(path_for, (key,), p),
        0 <= i < key@.len(),
    ensures
        p@.len() == key@.len(),
        p@[i] != '\\',
        key@[i] != '\\' ==> p@[i] == key@[i],
        key@[i] == '\\' ==> p@[i] == '/',
{
}

} // verus!
