//! Indexes over documents: rows by the scalar at a path, and rows by the words
//! of their text.

use vstd::prelude::*;
use vstd::string::*;

use crate::be;
use crate::be::same_bytes;
use crate::bytemap::ByteMap;
use crate::json;
use crate::json::{extract_path, parse_json, scalar_key_text, Json};
use crate::ranking;
use crate::ranking::sort_best_first;
use crate::strmap::StrMap;
use crate::text;
use crate::text::{chars_of, same_text, text_of};

verus! {

// ---- path index ----

/// The key under which a document is indexed: the scalar at the path.
pub open spec fn key_in(doc: json::JsonView, path: Seq<char>) -> Option<Seq<char>> {
    match json::at_path(doc, path) {
        Some(found) => json::scalar_text(found),
        None => None,
    }
}

/// A bucket of rows once `row` is in it.
pub open spec fn with_row(rows: Seq<Seq<u8>>, row: Seq<u8>) -> Seq<Seq<u8>> {
    if rows.contains(row) {
        rows
    } else {
        rows.push(row)
    }
}

/// A bucket of rows without `row`.
pub open spec fn without_row(rows: Seq<Seq<u8>>, row: Seq<u8>) -> Seq<Seq<u8>>
    decreases rows.len(),
{
    if rows.len() == 0 {
        rows
    } else if rows.last() == row {
        without_row(rows.drop_last(), row)
    } else {
        without_row(rows.drop_last(), row).push(rows.last())
    }
}

/// The bucket of `k` once the document of `row` has `key` at the path: the row
/// is in the bucket of its key and in no other.
pub open spec fn rebucketed(
    rows: Seq<Seq<u8>>,
    row: Seq<u8>,
    key: Option<Seq<char>>,
    k: Seq<char>,
) -> Seq<Seq<u8>> {
    if key == Some(k) {
        with_row(rows, row)
    } else {
        without_row(rows, row)
    }
}

pub open spec fn opt_text(t: Option<String>) -> Option<Seq<char>> {
    match t {
        Some(s) => Some(s@),
        None => None,
    }
}

/// The key of a text: that of its document, if it is one.
pub open spec fn key_of_text(text: Seq<char>, path: Seq<char>) -> Option<Seq<char>> {
    match json::json_in(text) {
        Some(doc) => key_in(doc, path),
        None => None,
    }
}

/// An index from the scalar at a path to the rows whose document has it there.
pub struct JsonPathIndex {
    json_path: String,
    map: StrMap<Vec<Vec<u8>>>,
}

impl JsonPathIndex {
    pub closed spec fn wf(&self) -> bool {
        self.map.wf()
    }

    /// The indexed path.
    pub closed spec fn path(&self) -> Seq<char> {
        self.json_path@
    }

    /// The rows whose document has `key` at the path.
    pub closed spec fn rows(&self, key: Seq<char>) -> Seq<Seq<u8>> {
        if self.map@.contains_key(key) {
            be::contents(self.map@[key]@)
        } else {
            Seq::empty()
        }
    }

    /// An empty index on a path.
    pub fn create(json_path: &str) -> (index: JsonPathIndex)
        ensures
            index.wf(),
            index.path() == json_path@,
            forall|k: Seq<char>| #[trigger] index.rows(k) == Seq::<Seq<u8>>::empty(),
    {
        JsonPathIndex { json_path: json_path.to_owned(), map: StrMap::new() }
    }

    /// The indexed path.
    pub fn json_path(&self) -> (path: &str)
        ensures
            path@ == self.path(),
    {
        self.json_path.as_str()
    }

    /// Indexes the document of a row in place of the one that it had; a document
    /// without a scalar at the path is not indexed.
    pub fn insert_doc(&mut self, row_key: &[u8], doc: &Json)
        requires
            old(self).wf(),
        ensures
            final(self).wf(),
            final(self).path() == old(self).path(),
            forall|k: Seq<char>| #[trigger]
                final(self).rows(k) == rebucketed(
                    old(self).rows(k),
                    row_key@,
                    key_in(doc@, old(self).path()),
                    k,
                ),
    {
        let found = match extract_path(doc, self.json_path.as_str()) {
            Some(v) => scalar_key_text(v),
            None => None,
        };
        self.drop_row(row_key, &found);
        match found {
            Some(key) => {
                self.add(key, row_key);
            },
            None => {},
        }
    }

    /// Takes a row out of every bucket but that of `keep`.
    fn drop_row(&mut self, row_key: &[u8], keep: &Option<String>)
        requires
            old(self).wf(),
        ensures
            final(self).wf(),
            final(self).path() == old(self).path(),
            forall|k: Seq<char>| #[trigger]
                final(self).rows(k) == (if opt_text(*keep) == Some(k) {
                    old(self).rows(k)
                } else {
                    without_row(old(self).rows(k), row_key@)
                }),
    {
        let ghost first = self.map.entries@;
        let ghost kept = opt_text(*keep);
        let mut i: usize = 0;
        while i < self.map.entries.len()
            invariant
                first == old(self).map.entries@,
                kept == opt_text(*keep),
                i <= first.len(),
                self.json_path == old(self).json_path,
                self.map.entries@.len() == first.len(),
                forall|a: int|
                    0 <= a < first.len() ==> (#[trigger] self.map.entries@[a]).0 == first[a].0,
                forall|a: int|
                    0 <= a < i ==> be::contents((#[trigger] self.map.entries@[a]).1@) == (if kept
                        == Some(first[a].0@) {
                        be::contents(first[a].1@)
                    } else {
                        without_row(be::contents(first[a].1@), row_key@)
                    }),
                forall|a: int|
                    i <= a < first.len() ==> (#[trigger] self.map.entries@[a]) == first[a],
            decreases first.len() - i,
        {
            let stays = match keep {
                Some(k) => same_text(k.as_str(), self.map.entries[i].0.as_str()),
                None => false,
            };
            if !stays {
                let rest = rows_without(&self.map.entries[i].1, row_key);
                self.map.entries[i].1 = rest;
            }
            i += 1;
        }
        proof {
            assert(self.map.wf()) by {
                assert forall|a: int, b: int| 0 <= a < b < first.len() implies (
                #[trigger] self.map.entries@[a]).0@ != (#[trigger] self.map.entries@[b]).0@ by {
                    assert(first[a].0@ != first[b].0@);
                }
            }
            assert forall|k: Seq<char>| #[trigger] self.rows(k) == (if kept == Some(k) {
                old(self).rows(k)
            } else {
                without_row(old(self).rows(k), row_key@)
            }) by {
                if exists|a: int| 0 <= a < first.len() && first[a].0@ == k {
                    let a = choose|a: int| 0 <= a < first.len() && first[a].0@ == k;
                    self.map.lemma_entry(a);
                    old(self).map.lemma_entry(a);
                } else {
                    self.map.lemma_absent(k);
                    old(self).map.lemma_absent(k);
                }
            }
        }
    }

    /// Adds a row to the bucket of `key`.
    fn add(&mut self, key: String, row_key: &[u8])
        requires
            old(self).wf(),
        ensures
            final(self).wf(),
            final(self).path() == old(self).path(),
            forall|k: Seq<char>| #[trigger]
                final(self).rows(k) == (if key@ == k {
                    with_row(old(self).rows(k), row_key@)
                } else {
                    old(self).rows(k)
                }),
    {
        let ghost k = key@;
        let mut bucket = match self.map.remove(key.as_str()) {
            Some(b) => b,
            None => Vec::new(),
        };
        assert(be::contents(bucket@) =~= old(self).rows(k));
        let ghost rows = be::contents(bucket@);
        if !holds(&bucket, row_key) {
            bucket.push(be::copy_range(row_key, 0, row_key.len()));
            assert(row_key@.subrange(0, row_key@.len() as int) =~= row_key@);
            assert(be::contents(bucket@) =~= rows.push(row_key@));
        }
        self.map.insert(key, bucket);
        assert forall|j: Seq<char>| #[trigger] self.rows(j) == (if k == j {
            with_row(old(self).rows(j), row_key@)
        } else {
            old(self).rows(j)
        }) by {
            if j != k {
                assert(self.map@.contains_key(j) == old(self).map@.contains_key(j));
            }
        }
    }

    /// Indexes the JSON text of a row in place of the one that it had; a text that
    /// is not JSON is not indexed.
    pub fn insert(&mut self, row_key: &[u8], doc_text: &str)
        requires
            old(self).wf(),
        ensures
            final(self).wf(),
            final(self).path() == old(self).path(),
            forall|k: Seq<char>| #[trigger]
                final(self).rows(k) == rebucketed(
                    old(self).rows(k),
                    row_key@,
                    key_of_text(doc_text@, old(self).path()),
                    k,
                ),
    {
        match parse_json(doc_text) {
            Some(doc) => {
                self.insert_doc(row_key, &doc);
            },
            None => {
                self.drop_row(row_key, &None);
            },
        }
    }

    /// The rows whose document has `value_text` at the path.
    pub fn lookup(&self, value_text: &str) -> (rows: Vec<Vec<u8>>)
        requires
            self.wf(),
        ensures
            be::contents(rows@) == self.rows(value_text@),
    {
        match self.map.get(value_text) {
            Some(bucket) => copy_rows(bucket),
            None => {
                let rows: Vec<Vec<u8>> = Vec::new();
                assert(be::contents(rows@) =~= self.rows(value_text@));
                rows
            },
        }
    }

    /// The keys with a bucket, each with its rows.
    pub fn buckets(&self) -> (r: &Vec<(String, Vec<Vec<u8>>)>)
        requires
            self.wf(),
        ensures
            forall|i: int|
                0 <= i < r@.len() ==> self.rows((#[trigger] r@[i]).0@) == be::contents(r@[i].1@),
            forall|k: Seq<char>|
                self.rows(k).len() > 0 ==> exists|i: int| 0 <= i < r@.len() && r@[i].0@ == k,
    {
        proof {
            assert forall|i: int| 0 <= i < self.map.entries@.len() implies self.rows(
                (#[trigger] self.map.entries@[i]).0@,
            ) == be::contents(self.map.entries@[i].1@) by {
                self.map.lemma_entry(i);
            }
            assert forall|k: Seq<char>| self.rows(k).len() > 0 implies exists|i: int|
                0 <= i < self.map.entries@.len() && self.map.entries@[i].0@ == k by {
                if forall|i: int|
                    0 <= i < self.map.entries@.len() ==> (#[trigger] self.map.entries@[i]).0@
                        != k {
                    self.map.lemma_absent(k);
                }
            }
        }
        &self.map.entries
    }

    /// Puts an index together from its buckets.
    pub fn open(json_path: &str, buckets: Vec<(String, Vec<Vec<u8>>)>) -> (index: JsonPathIndex)
        ensures
            index.wf(),
            index.path() == json_path@,
            forall|i: int|
                #![trigger buckets@[i]]
                0 <= i < buckets@.len() && (forall|j: int|
                    i < j < buckets@.len() ==> (#[trigger] buckets@[j]).0@ != buckets@[i].0@)
                    ==> index.rows(buckets@[i].0@) == be::contents(buckets@[i].1@),
            forall|k: Seq<char>|
                (forall|i: int| 0 <= i < buckets@.len() ==> (#[trigger] buckets@[i]).0@ != k)
                    ==> #[trigger] index.rows(k) == Seq::<Seq<u8>>::empty(),
    {
        let mut index = JsonPathIndex::create(json_path);
        let ghost all = buckets@;
        let mut i: usize = 0;
        while i < buckets.len()
            invariant
                all == buckets@,
                i <= buckets@.len(),
                index.wf(),
                index.path() == json_path@,
                forall|a: int|
                    #![trigger all[a]]
                    0 <= a < i && (forall|j: int|
                        a < j < i ==> (#[trigger] all[j]).0@ != all[a].0@) ==> index.rows(
                        all[a].0@,
                    ) == be::contents(all[a].1@),
                forall|k: Seq<char>|
                    (forall|a: int| 0 <= a < i ==> (#[trigger] all[a]).0@ != k)
                        ==> #[trigger] index.rows(k) == Seq::<Seq<u8>>::empty(),
            decreases buckets@.len() - i,
        {
            let ghost before = index;
            let rows = copy_rows(&buckets[i].1);
            index.map.insert(buckets[i].0.clone(), rows);
            proof {
                let key = all[i as int].0@;
                assert forall|k: Seq<char>| k != key implies #[trigger] index.rows(k)
                    == before.rows(k) by {
                    assert(index.map@.contains_key(k) == before.map@.contains_key(k));
                }
                assert forall|a: int|
                    #![trigger all[a]]
                    0 <= a < i + 1 && (forall|j: int|
                        a < j < i + 1 ==> (#[trigger] all[j]).0@ != all[a].0@) implies index.rows(
                    all[a].0@,
                ) == be::contents(all[a].1@) by {
                    if a < i {
                        assert(all[i as int].0@ != all[a].0@);
                        assert(before.rows(all[a].0@) == be::contents(all[a].1@));
                    }
                }
            }
            i += 1;
        }
        index
    }
}

/// Whether `row` is among `rows`.
fn holds(rows: &Vec<Vec<u8>>, row: &[u8]) -> (r: bool)
    ensures
        r == be::contents(rows@).contains(row@),
{
    let ghost all = be::contents(rows@);
    let mut i: usize = 0;
    while i < rows.len()
        invariant
            all == be::contents(rows@),
            i <= rows@.len(),
            forall|k: int| 0 <= k < i ==> all[k] != row@,
        decreases rows@.len() - i,
    {
        if same_bytes(rows[i].as_slice(), row) {
            assert(all[i as int] == row@);
            return true;
        }
        i += 1;
    }
    false
}

fn rows_without(rows: &Vec<Vec<u8>>, row: &[u8]) -> (r: Vec<Vec<u8>>)
    ensures
        be::contents(r@) == without_row(be::contents(rows@), row@),
{
    let ghost all = be::contents(rows@);
    let mut r: Vec<Vec<u8>> = Vec::new();
    let mut i: usize = 0;
    assert(be::contents(r@) =~= without_row(all.take(0), row@));
    while i < rows.len()
        invariant
            all == be::contents(rows@),
            i <= rows@.len(),
            be::contents(r@) == without_row(all.take(i as int), row@),
        decreases rows@.len() - i,
    {
        assert(all.take(i + 1).drop_last() =~= all.take(i as int));
        assert(all.take(i + 1).last() == rows@[i as int]@);
        if !same_bytes(rows[i].as_slice(), row) {
            let one = be::copy_range(rows[i].as_slice(), 0, rows[i].len());
            assert(one@ =~= rows@[i as int]@);
            assert(be::contents(r@.push(one)) =~= be::contents(r@).push(one@));
            r.push(one);
        }
        i += 1;
    }
    assert(all.take(all.len() as int) =~= all);
    r
}

/// A copy of a list of rows.
pub fn copy_rows(rows: &Vec<Vec<u8>>) -> (r: Vec<Vec<u8>>)
    ensures
        be::contents(r@) == be::contents(rows@),
        r@.len() == rows@.len(),
{
    let mut r: Vec<Vec<u8>> = Vec::new();
    let mut i: usize = 0;
    while i < rows.len()
        invariant
            i <= rows@.len(),
            be::contents(r@) == be::contents(rows@).take(i as int),
            r@.len() == i,
        decreases rows@.len() - i,
    {
        let row = be::copy_range(rows[i].as_slice(), 0, rows[i].len());
        proof {
            assert(row@ =~= rows@[i as int]@);
            assert(be::contents(r@.push(row)) =~= be::contents(r@).push(row@));
            assert(be::contents(rows@).take(i + 1) =~= be::contents(rows@).take(i as int).push(
                rows@[i as int]@,
            ));
        }
        r.push(row);
        i += 1;
    }
    assert(be::contents(rows@).take(rows@.len() as int) =~= be::contents(rows@));
    r
}

/// Indexing a document a second time changes nothing.
pub proof fn law_row_is_indexed_once(rows: Seq<Seq<u8>>, row: Seq<u8>)
    ensures
        with_row(with_row(rows, row), row) == with_row(rows, row),
        with_row(rows, row).contains(row),
        rows.no_duplicates() ==> with_row(rows, row).no_duplicates(),
{
    assert(rows.push(row)[rows.len() as int] == row);
}

/// Once the document of a row has a key, the row is found under that key and
/// under no other; other rows are found where they were.
pub proof fn law_row_has_the_value_of_its_document(
    rows: Seq<Seq<u8>>,
    row: Seq<u8>,
    key: Option<Seq<char>>,
    k: Seq<char>,
    other: Seq<u8>,
)
    ensures
        rebucketed(rows, row, key, k).contains(row) <==> key == Some(k),
        other != row ==> (rebucketed(rows, row, key, k).contains(other) <==> rows.contains(other)),
{
    law_row_is_indexed_once(rows, row);
    lemma_without_row(rows, row, row);
    lemma_without_row(rows, row, other);
    if rows.push(row).contains(other) {
        let i = choose|i: int| 0 <= i < rows.push(row).len() && rows.push(row)[i] == other;
        if i < rows.len() {
            assert(rows[i] == other);
        }
    }
    if rows.contains(other) {
        let i = choose|i: int| 0 <= i < rows.len() && rows[i] == other;
        assert(rows.push(row)[i] == other);
    }
}

proof fn lemma_without_row(rows: Seq<Seq<u8>>, row: Seq<u8>, x: Seq<u8>)
    ensures
        without_row(rows, row).contains(x) <==> rows.contains(x) && x != row,
    decreases rows.len(),
{
    if rows.len() > 0 {
        let head = rows.drop_last();
        let w = without_row(head, row);
        lemma_without_row(head, row, x);
        assert(rows =~= head.push(rows.last()));
        if rows.contains(x) {
            let i = choose|i: int| 0 <= i < rows.len() && rows[i] == x;
            if i < head.len() {
                assert(head[i] == x);
            }
        }
        if head.contains(x) {
            let i = choose|i: int| 0 <= i < head.len() && head[i] == x;
            assert(rows[i] == x);
        }
        if rows.last() == x {
            assert(rows[rows.len() - 1] == x);
        }
        if rows.last() != row {
            let all = w.push(rows.last());
            assert(all[w.len() as int] == rows.last());
            if w.contains(x) {
                let i = choose|i: int| 0 <= i < w.len() && w[i] == x;
                assert(all[i] == x);
            }
            if all.contains(x) {
                let i = choose|i: int| 0 <= i < all.len() && all[i] == x;
                if i < w.len() {
                    assert(w[i] == x);
                }
            }
        }
    }
}

// ---- words ----

/// What `char::is_alphanumeric` says of a character outside ASCII.
pub uninterp spec fn alphanumeric_beyond_ascii(c: char) -> bool;

/// What `str::to_lowercase` makes of a text with characters outside ASCII.
pub uninterp spec fn lowercase_beyond_ascii(s: Seq<char>) -> Seq<char>;

pub open spec fn is_ascii_char(c: char) -> bool {
    (c as u32) < 128
}

pub open spec fn is_upper(c: char) -> bool {
    'A' <= c <= 'Z'
}

pub open spec fn is_ascii_alphanumeric(c: char) -> bool {
    ||| '0' <= c <= '9'
    ||| 'a' <= c <= 'z'
    ||| is_upper(c)
}

/// Whether a character is part of a word.
pub open spec fn in_word(c: char) -> bool {
    if is_ascii_char(c) {
        is_ascii_alphanumeric(c)
    } else {
        alphanumeric_beyond_ascii(c)
    }
}

/// A text in lower case.
pub open spec fn lowercase(s: Seq<char>) -> Seq<char> {
    if forall|i: int| 0 <= i < s.len() ==> is_ascii_char(#[trigger] s[i]) {
        s.map_values(|c: char| text::ascii_lower(c))
    } else {
        lowercase_beyond_ascii(s)
    }
}

/// Calls `char::is_alphanumeric`: letters and digits in ASCII, a fixed set of
/// characters outside it.
#[verifier::external_body]
fn is_alphanumeric(c: char) -> (r: bool)
    ensures
        r == (if is_ascii_char(c) {
            is_ascii_alphanumeric(c)
        } else {
            alphanumeric_beyond_ascii(c)
        }),
{
    c.is_alphanumeric()
}

/// Calls `str::to_lowercase`: in a text of ASCII characters each capital
/// letter becomes the small one; of any other text the result depends on the
/// text alone.
#[verifier::external_body]
pub(crate) fn to_lowercase(s: &str) -> (r: String)
    ensures
        r@ == (if forall|i: int| 0 <= i < s@.len() ==> is_ascii_char(#[trigger] s@[i]) {
            s@.map_values(|c: char| text::ascii_lower(c))
        } else {
            lowercase_beyond_ascii(s@)
        }),
{
    s.to_lowercase()
}

/// The word that ends here, if there is one.
pub open spec fn ended(word: Seq<char>) -> Seq<Seq<char>> {
    if word.len() == 0 {
        Seq::empty()
    } else {
        seq![lowercase(word)]
    }
}

/// The words of `s`, where `word` is the part of a word that stands before it.
pub open spec fn words_after(word: Seq<char>, s: Seq<char>) -> Seq<Seq<char>>
    decreases s.len(),
{
    if s.len() == 0 {
        ended(word)
    } else if in_word(s[0]) {
        words_after(word.push(s[0]), s.drop_first())
    } else {
        ended(word) + words_after(Seq::empty(), s.drop_first())
    }
}

/// The words of a text: its longest runs of letters and digits, in lower case.
pub open spec fn words(s: Seq<char>) -> Seq<Seq<char>> {
    words_after(Seq::empty(), s)
}

/// There are no more words than characters.
pub proof fn lemma_words_len(word: Seq<char>, s: Seq<char>)
    ensures
        words_after(word, s).len() <= s.len() + (if word.len() == 0 {
            0int
        } else {
            1
        }),
    decreases s.len(),
{
    if s.len() > 0 {
        lemma_words_len(word.push(s[0]), s.drop_first());
        lemma_words_len(Seq::empty(), s.drop_first());
    }
}

/// Splits a text into words.
pub fn tokenize(text: &str) -> (tokens: Vec<String>)
    ensures
        text::texts(tokens@) == words(text@),
{
    let chars = chars_of(text);
    let mut tokens: Vec<String> = Vec::new();
    let mut start: usize = 0;
    let mut i: usize = 0;
    assert(text@.subrange(0, 0) =~= Seq::<char>::empty());
    assert(text@.skip(0) =~= text@);
    while i < chars.len()
        invariant
            chars@ == text@,
            start <= i <= chars@.len(),
            words(text@) =~= text::texts(tokens@) + words_after(
                text@.subrange(start as int, i as int),
                text@.skip(i as int),
            ),
        decreases chars@.len() - i,
    {
        let ghost word = text@.subrange(start as int, i as int);
        let ghost rest = text@.skip(i as int);
        assert(rest.drop_first() =~= text@.skip(i + 1));
        if !is_alphanumeric(chars[i]) {
            assert(words_after(word, rest) == ended(word) + words_after(
                Seq::empty(),
                rest.drop_first(),
            ));
            if start < i {
                let run = text_of(chars.as_slice(), start, i);
                let token = to_lowercase(run.as_str());
                assert(text::texts(tokens@.push(token)) =~= text::texts(tokens@) + ended(word));
                tokens.push(token);
            }
            start = i + 1;
            assert(text@.subrange(start as int, i + 1) =~= Seq::<char>::empty());
        } else {
            assert(word.push(rest[0]) =~= text@.subrange(start as int, i + 1));
        }
        i += 1;
    }
    let ghost word = text@.subrange(start as int, text@.len() as int);
    if start < chars.len() {
        let run = text_of(chars.as_slice(), start, chars.len());
        let token = to_lowercase(run.as_str());
        assert(text::texts(tokens@.push(token)) =~= text::texts(tokens@) + ended(word));
        tokens.push(token);
    }
    tokens
}

// ---- full-text index ----

/// How often `token` occurs among `tokens`.
pub open spec fn occurrences(tokens: Seq<Seq<char>>, token: Seq<char>) -> nat
    decreases tokens.len(),
{
    if tokens.len() == 0 {
        0
    } else {
        occurrences(tokens.drop_last(), token) + (if tokens.last() == token {
            1nat
        } else {
            0
        })
    }
}

proof fn lemma_occurrences(tokens: Seq<Seq<char>>, token: Seq<char>)
    ensures
        occurrences(tokens, token) <= tokens.len(),
        occurrences(tokens, token) > 0 <==> tokens.contains(token),
    decreases tokens.len(),
{
    if tokens.len() > 0 {
        lemma_occurrences(tokens.drop_last(), token);
        if tokens.drop_last().contains(token) {
            let i = choose|i: int| 0 <= i < tokens.len() - 1 && tokens.drop_last()[i] == token;
            assert(tokens[i] == token);
        }
        if tokens.contains(token) && tokens.last() != token {
            let i = choose|i: int| 0 <= i < tokens.len() && tokens[i] == token;
            assert(tokens.drop_last()[i] == token);
        }
    }
}

/// An inverted index: for each word the rows that hold it, with how often each
/// does, and for each row the number of its words.
pub struct FtsIndex {
    postings: StrMap<ByteMap<u32>>,
    doc_lengths: ByteMap<u32>,
}

/// The lengths of rows; a later one takes the place of an earlier one.
pub open spec fn lengths_in(list: Seq<(Vec<u8>, u32)>) -> Map<Seq<u8>, u32>
    decreases list.len(),
{
    if list.len() == 0 {
        Map::empty()
    } else {
        lengths_in(list.drop_last()).insert(list.last().0@, list.last().1)
    }
}

/// How often a row that has a length holds a word, by the last count of it.
pub open spec fn count_in(
    counts: Seq<(String, Vec<u8>, u32)>,
    lengths: Map<Seq<u8>, u32>,
    token: Seq<char>,
    row: Seq<u8>,
) -> nat
    decreases counts.len(),
{
    if counts.len() == 0 {
        0
    } else if counts.last().0@ == token && counts.last().1@ == row && counts.last().2 > 0
        && lengths.contains_key(row) {
        counts.last().2 as nat
    } else {
        count_in(counts.drop_last(), lengths, token, row)
    }
}

/// Whether a count is that of an index.
pub open spec fn count_fits(index: FtsIndex, c: (String, Vec<u8>, u32)) -> bool {
    &&& c.2 > 0
    &&& index.frequency(c.0@, c.1@) == c.2
    &&& index.lengths().contains_key(c.1@)
}

pub open spec fn listed_at(
    counts: Seq<(String, Vec<u8>, u32)>,
    k: int,
    token: Seq<char>,
    row: Seq<u8>,
) -> bool {
    0 <= k < counts.len() && counts[k].0@ == token && counts[k].1@ == row
}

/// Whether a list has a count of a word in a row.
pub open spec fn listed(
    counts: Seq<(String, Vec<u8>, u32)>,
    token: Seq<char>,
    row: Seq<u8>,
) -> bool {
    exists|k: int| listed_at(counts, k, token, row)
}

/// Whether a list has all counts of an index and no others.
pub open spec fn counts_of(index: FtsIndex, counts: Seq<(String, Vec<u8>, u32)>) -> bool {
    &&& forall|k: int| 0 <= k < counts.len() ==> count_fits(index, #[trigger] counts[k])
    &&& forall|t: Seq<char>, r: Seq<u8>|
        index.frequency(t, r) > 0 ==> #[trigger] listed(counts, t, r)
}

/// The counts that are stored of an index give it back.
pub proof fn law_stored_counts_are_read_back(
    index: FtsIndex,
    counts: Seq<(String, Vec<u8>, u32)>,
    token: Seq<char>,
    row: Seq<u8>,
)
    requires
        counts_of(index, counts),
    ensures
        count_in(counts, index.lengths(), token, row) == index.frequency(token, row),
{
    lemma_count_in(index, counts, counts.len() as int, token, row);
    if index.frequency(token, row) > 0 {
        assert(listed(counts, token, row));
        let k = choose|k: int| listed_at(counts, k, token, row);
        assert(listed_at(counts, k, token, row));
    }
    assert(counts.take(counts.len() as int) =~= counts);
}

proof fn lemma_count_in(
    index: FtsIndex,
    counts: Seq<(String, Vec<u8>, u32)>,
    n: int,
    token: Seq<char>,
    row: Seq<u8>,
)
    requires
        0 <= n <= counts.len(),
        forall|k: int| 0 <= k < counts.len() ==> count_fits(index, #[trigger] counts[k]),
    ensures
        count_in(counts.take(n), index.lengths(), token, row) == (if exists|k: int|
            k < n && #[trigger] listed_at(counts, k, token, row) {
            index.frequency(token, row)
        } else {
            0
        }),
    decreases n,
{
    if n > 0 {
        lemma_count_in(index, counts, n - 1, token, row);
        assert(counts.take(n).drop_last() =~= counts.take(n - 1));
        assert(counts.take(n).last() == counts[n - 1]);
        assert(count_fits(index, counts[n - 1]));
        if counts[n - 1].0@ == token && counts[n - 1].1@ == row {
            assert(listed_at(counts, n - 1, token, row));
        } else if exists|k: int| k < n && #[trigger] listed_at(counts, k, token, row) {
            let k = choose|k: int| k < n && #[trigger] listed_at(counts, k, token, row);
            assert(k < n - 1);
        }
    }
}

/// The rows of a list with scores.
pub open spec fn scored_rows(list: Seq<(Vec<u8>, u64)>) -> Seq<Seq<u8>> {
    list.map_values(|e: (Vec<u8>, u64)| e.0@)
}

/// No more than `limit` items from the front of a list.
pub open spec fn first_of<T>(list: Seq<T>, limit: nat) -> Seq<T> {
    if limit < list.len() {
        list.take(limit as int)
    } else {
        list
    }
}

/// Whether one index becomes another once the text of a row takes the place of
/// what was indexed of it.
pub open spec fn text_indexed(
    before: FtsIndex,
    row: Seq<u8>,
    text: Seq<char>,
    after: FtsIndex,
) -> bool {
    &&& after.lengths() == before.lengths().insert(row, words(text).len() as u32)
    &&& forall|t: Seq<char>, r: Seq<u8>| #[trigger]
        after.frequency(t, r) == (if r == row {
            occurrences(words(text), t)
        } else {
            before.frequency(t, r)
        })
}

impl FtsIndex {
    pub closed spec fn wf(&self) -> bool {
        &&& self.postings.wf()
        &&& self.doc_lengths.wf()
        &&& forall|i: int|
            0 <= i < self.postings.entries@.len() ==> (#[trigger] self.postings.entries@[i]).1.wf()
        &&& forall|t: Seq<char>, r: Seq<u8>| #[trigger]
            self.posted(t, r) ==> self.postings@[t]@[r] > 0 && self.doc_lengths@.contains_key(r)
    }

    /// Whether a row has an entry under a word.
    closed spec fn posted(&self, token: Seq<char>, row: Seq<u8>) -> bool {
        self.postings@.contains_key(token) && self.postings@[token]@.contains_key(row)
    }

    /// How often a row holds a word.
    pub closed spec fn frequency(&self, token: Seq<char>, row: Seq<u8>) -> nat {
        if self.posted(token, row) {
            self.postings@[token]@[row] as nat
        } else {
            0
        }
    }

    /// The number of words of each indexed row.
    pub closed spec fn lengths(&self) -> Map<Seq<u8>, u32> {
        self.doc_lengths@
    }

    /// An empty index.
    pub fn create() -> (index: FtsIndex)
        ensures
            index.wf(),
            index.lengths() == Map::<Seq<u8>, u32>::empty(),
            forall|t: Seq<char>, r: Seq<u8>| #[trigger] index.frequency(t, r) == 0,
    {
        FtsIndex { postings: StrMap::new(), doc_lengths: ByteMap::new() }
    }

    /// The bucket of a word is in order.
    proof fn lemma_bucket(&self, token: Seq<char>)
        requires
            self.wf(),
            self.postings@.contains_key(token),
        ensures
            self.postings@[token].wf(),
    {
        if forall|i: int|
            0 <= i < self.postings.entries@.len() ==> (#[trigger] self.postings.entries@[i]).0@
                != token {
            self.postings.lemma_absent(token);
        } else {
            let i = choose|i: int|
                0 <= i < self.postings.entries@.len() && (#[trigger] self.postings.entries@[i]).0@
                    == token;
            self.postings.lemma_entry(i);
        }
    }

    /// Takes a row out of every bucket.
    fn clear_buckets(&mut self, row_key: &[u8])
        requires
            old(self).wf(),
        ensures
            final(self).wf(),
            final(self).lengths() == old(self).lengths(),
            forall|t: Seq<char>, r: Seq<u8>| #[trigger]
                final(self).frequency(t, r) == (if r == row_key@ {
                    0
                } else {
                    old(self).frequency(t, r)
                }),
    {
        let ghost before = self.postings;
        let mut i: usize = 0;
        while i < self.postings.entries.len()
            invariant
                old(self).wf(),
                before == old(self).postings,
                self.doc_lengths == old(self).doc_lengths,
                self.postings.entries@.len() == before.entries@.len(),
                i <= self.postings.entries@.len(),
                forall|k: int|
                    0 <= k < self.postings.entries@.len() ==> (
                    #[trigger] self.postings.entries@[k]).0@ == before.entries@[k].0@
                        && self.postings.entries@[k].1.wf(),
                forall|k: int|
                    0 <= k < i ==> (#[trigger] self.postings.entries@[k]).1@
                        == before.entries@[k].1@.remove(row_key@),
                forall|k: int|
                    i <= k < self.postings.entries@.len() ==> (#[trigger] self.postings.entries@[k])
                        == before.entries@[k],
            decreases self.postings.entries@.len() - i,
        {
            let ghost now = self.postings.entries@;
            let _gone = self.postings.entries[i].1.remove(row_key);
            proof {
                assert forall|k: int|
                    0 <= k < self.postings.entries@.len() && k != i implies (
                #[trigger] self.postings.entries@[k]) == now[k] by {}
            }
            i += 1;
        }
        proof {
            assert forall|a: int, b: int| 0 <= a < b < self.postings.entries@.len() implies (
            #[trigger] self.postings.entries@[a]).0@ != (#[trigger] self.postings.entries@[b]).0@ by {
                assert(before.entries@[a].0@ != before.entries@[b].0@);
            }
            assert forall|t: Seq<char>|
                #![trigger self.postings@.contains_key(t)]
                self.postings@.contains_key(t) == before@.contains_key(t) && (
                self.postings@.contains_key(t) ==> self.postings@[t]@ == before@[t]@.remove(
                    row_key@,
                )) by {
                self.postings.lemma_keys_kept(before, t);
                if self.postings@.contains_key(t) {
                    if forall|k: int|
                        0 <= k < self.postings.entries@.len() ==> (
                        #[trigger] self.postings.entries@[k]).0@ != t {
                        self.postings.lemma_absent(t);
                    }
                    let k = choose|k: int|
                        0 <= k < self.postings.entries@.len() && (
                        #[trigger] self.postings.entries@[k]).0@ == t;
                    self.postings.lemma_entry(k);
                    before.lemma_entry(k);
                }
            }
            assert forall|t: Seq<char>, r: Seq<u8>| #[trigger]
                self.posted(t, r) == (old(self).posted(t, r) && r != row_key@) by {
                let _ = self.postings@.contains_key(t);
            }
            assert forall|t: Seq<char>, r: Seq<u8>| #[trigger] self.posted(t, r) implies
                self.postings@[t]@[r] > 0 && self.doc_lengths@.contains_key(r) by {
                assert(old(self).posted(t, r));
                let _ = self.postings@.contains_key(t);
            }
        }
    }

    /// Counts one more occurrence of a word in a row.
    fn count(&mut self, token: String, row_key: &[u8])
        requires
            old(self).wf(),
            old(self).lengths().contains_key(row_key@),
            old(self).frequency(token@, row_key@) < u32::MAX,
        ensures
            final(self).wf(),
            final(self).lengths() == old(self).lengths(),
            forall|t: Seq<char>, r: Seq<u8>| #[trigger]
                final(self).frequency(t, r) == (if t == token@ && r == row_key@ {
                    old(self).frequency(t, r) + 1
                } else {
                    old(self).frequency(t, r)
                }),
    {
        proof {
            if self.postings@.contains_key(token@) {
                self.lemma_bucket(token@);
            }
        }
        let seen: u32 = match self.postings.get(token.as_str()) {
            Some(bucket) => match bucket.get(row_key) {
                Some(n) => *n,
                None => 0,
            },
            None => 0,
        };
        assert(seen == self.frequency(token@, row_key@)) by {
            let _ = self.posted(token@, row_key@);
        }
        self.set_count(token, row_key, seen + 1);
    }

    /// Notes how often a row holds a word.
    fn set_count(&mut self, token: String, row_key: &[u8], n: u32)
        requires
            old(self).wf(),
            old(self).lengths().contains_key(row_key@),
            n > 0,
        ensures
            final(self).wf(),
            final(self).lengths() == old(self).lengths(),
            forall|t: Seq<char>, r: Seq<u8>| #[trigger]
                final(self).frequency(t, r) == (if t == token@ && r == row_key@ {
                    n as nat
                } else {
                    old(self).frequency(t, r)
                }),
    {
        let ghost key = token@;
        proof {
            if self.postings@.contains_key(key) {
                self.lemma_bucket(key);
            }
        }
        let mut bucket = match self.postings.remove(token.as_str()) {
            Some(b) => b,
            None => ByteMap::new(),
        };
        let ghost cleared = self.postings;
        let row = be::copy_range(row_key, 0, row_key.len());
        assert(row@ =~= row_key@);
        bucket.insert(row, n);
        self.postings.insert(token, bucket);
        proof {
            let after = self.postings@;
            assert(after == cleared@.insert(key, bucket));
            assert forall|t: Seq<char>|
                #![trigger after.contains_key(t)]
                t != key implies after.contains_key(t) == old(self).postings@.contains_key(t) && (
            after.contains_key(t) ==> after[t] == old(self).postings@[t]) by {}
            assert forall|t: Seq<char>, r: Seq<u8>| #[trigger]
                self.posted(t, r) == (old(self).posted(t, r) || (t == key && r == row_key@)) by {
                let _ = after.contains_key(t);
            }
            assert forall|t: Seq<char>, r: Seq<u8>| #[trigger] self.posted(t, r) implies after[t]@[r]
                > 0 && self.doc_lengths@.contains_key(r) by {
                let _ = after.contains_key(t);
                if t != key || r != row_key@ {
                    assert(old(self).posted(t, r));
                }
            }
            assert forall|i: int| 0 <= i < self.postings.entries@.len() implies (
            #[trigger] self.postings.entries@[i]).1.wf() by {
                let t = self.postings.entries@[i].0@;
                self.postings.lemma_entry(i);
                if t != key {
                    let _ = after.contains_key(t);
                    old(self).lemma_bucket(t);
                }
            }
        }
    }

    /// Indexes the text of a row in place of what was indexed of it before.
    pub fn insert(&mut self, row_key: &[u8], text: &str)
        requires
            old(self).wf(),
            text@.len() <= u32::MAX,
        ensures
            final(self).wf(),
            text_indexed(*old(self), row_key@, text@, *final(self)),
    {
        self.clear_buckets(row_key);
        let ghost cleared = *self;
        let tokens = tokenize(text);
        let ghost all = text::texts(tokens@);
        proof {
            lemma_words_len(Seq::empty(), text@);
        }
        let row = be::copy_range(row_key, 0, row_key.len());
        assert(row@ =~= row_key@);
        self.doc_lengths.insert(row, tokens.len() as u32);
        proof {
            assert forall|t: Seq<char>, r: Seq<u8>| #[trigger]
                self.posted(t, r) == cleared.posted(t, r) by {}
            assert forall|t: Seq<char>, r: Seq<u8>| #[trigger]
                self.frequency(t, r) == cleared.frequency(t, r) by {
                assert(self.posted(t, r) == cleared.posted(t, r));
            }
            assert(all.take(0) =~= Seq::<Seq<char>>::empty());
        }
        let ghost lengths = self.lengths();
        let mut i: usize = 0;
        while i < tokens.len()
            invariant
                all == text::texts(tokens@),
                all.len() <= u32::MAX,
                i <= tokens@.len(),
                self.wf(),
                self.lengths() == lengths,
                lengths.contains_key(row_key@),
                forall|t: Seq<char>, r: Seq<u8>| #[trigger]
                    self.frequency(t, r) == (if r == row_key@ {
                        occurrences(all.take(i as int), t)
                    } else {
                        old(self).frequency(t, r)
                    }),
            decreases tokens@.len() - i,
        {
            let token = tokens[i].clone();
            proof {
                lemma_occurrences(all.take(i as int), token@);
                assert(all.take(i + 1).drop_last() =~= all.take(i as int));
            }
            self.count(token, row_key);
            i += 1;
        }
        assert(all.take(tokens@.len() as int) =~= all);
    }

    /// Puts an index together from the lengths of its rows and the counts of
    /// their words. A count of zero, or of a row without a length, says nothing.
    pub fn open(lengths: Vec<(Vec<u8>, u32)>, counts: Vec<(String, Vec<u8>, u32)>) -> (index:
        FtsIndex)
        ensures
            index.wf(),
            index.lengths() == lengths_in(lengths@),
            forall|t: Seq<char>, r: Seq<u8>| #[trigger]
                index.frequency(t, r) == count_in(counts@, index.lengths(), t, r),
    {
        let mut index = FtsIndex::create();
        let mut i: usize = 0;
        assert(lengths@.take(0) =~= Seq::<(Vec<u8>, u32)>::empty());
        while i < lengths.len()
            invariant
                i <= lengths@.len(),
                index.wf(),
                index.lengths() == lengths_in(lengths@.take(i as int)),
                forall|t: Seq<char>, r: Seq<u8>| #[trigger] index.frequency(t, r) == 0,
            decreases lengths@.len() - i,
        {
            let ghost before = index;
            let row = be::copy_range(lengths[i].0.as_slice(), 0, lengths[i].0.len());
            proof {
                assert(row@ =~= lengths@[i as int].0@);
                assert(lengths@.take(i + 1).drop_last() =~= lengths@.take(i as int));
                assert(lengths@.take(i + 1).last() == lengths@[i as int]);
            }
            index.doc_lengths.insert(row, lengths[i].1);
            proof {
                assert forall|t: Seq<char>, r: Seq<u8>| #[trigger] index.posted(t, r) == before.posted(
                    t,
                    r,
                ) by {}
                assert forall|t: Seq<char>, r: Seq<u8>| !#[trigger] index.posted(t, r) by {
                    assert(before.frequency(t, r) == 0);
                    assert(before.posted(t, r) ==> before.postings@[t]@[r] > 0);
                }
            }
            i += 1;
        }
        let ghost lens = index.lengths();
        proof {
            assert(lengths@.take(lengths@.len() as int) =~= lengths@);
            assert(counts@.take(0) =~= Seq::<(String, Vec<u8>, u32)>::empty());
        }
        let mut j: usize = 0;
        while j < counts.len()
            invariant
                j <= counts@.len(),
                index.wf(),
                index.lengths() == lens,
                forall|t: Seq<char>, r: Seq<u8>| #[trigger]
                    index.frequency(t, r) == count_in(counts@.take(j as int), lens, t, r),
            decreases counts@.len() - j,
        {
            proof {
                assert(counts@.take(j + 1).drop_last() =~= counts@.take(j as int));
                assert(counts@.take(j + 1).last() == counts@[j as int]);
            }
            let c = &counts[j];
            if c.2 > 0 && index.doc_lengths.contains_key(c.1.as_slice()) {
                index.set_count(c.0.clone(), c.1.as_slice(), c.2);
            }
            j += 1;
        }
        assert(counts@.take(counts@.len() as int) =~= counts@);
        index
    }

    /// How often each row holds each of its words.
    pub fn counts(&self) -> (r: Vec<(String, Vec<u8>, u32)>)
        requires
            self.wf(),
        ensures
            counts_of(*self, r@),
    {
        let mut r: Vec<(String, Vec<u8>, u32)> = Vec::new();
        let mut i: usize = 0;
        while i < self.postings.entries.len()
            invariant
                self.wf(),
                i <= self.postings.entries@.len(),
                forall|k: int| 0 <= k < r@.len() ==> count_fits(*self, #[trigger] r@[k]),
                forall|a: int, b: int|
                    0 <= a < i && 0 <= b < self.postings.entries@[a].1.entries@.len()
                        ==> listed(
                        r@,
                        self.postings.entries@[a].0@,
                        (#[trigger] self.postings.entries@[a].1.entries@[b]).0@,
                    ),
            decreases self.postings.entries@.len() - i,
        {
            let bucket = &self.postings.entries[i].1;
            let ghost token = self.postings.entries@[i as int].0@;
            proof {
                self.postings.lemma_entry(i as int);
            }
            let mut j: usize = 0;
            while j < bucket.entries.len()
                invariant
                    self.wf(),
                    i < self.postings.entries@.len(),
                    *bucket == self.postings.entries@[i as int].1,
                    bucket.wf(),
                    token == self.postings.entries@[i as int].0@,
                    self.postings@.contains_key(token),
                    self.postings@[token] == *bucket,
                    j <= bucket.entries@.len(),
                    forall|k: int| 0 <= k < r@.len() ==> count_fits(*self, #[trigger] r@[k]),
                    forall|a: int, b: int|
                        0 <= a < i && 0 <= b < self.postings.entries@[a].1.entries@.len()
                            ==> listed(
                            r@,
                            self.postings.entries@[a].0@,
                            (#[trigger] self.postings.entries@[a].1.entries@[b]).0@,
                        ),
                    forall|b: int|
                        0 <= b < j ==> listed(r@, token, (#[trigger] bucket.entries@[b]).0@),
                decreases bucket.entries@.len() - j,
            {
                let ghost before = r@;
                let entry = &bucket.entries[j];
                let row = be::copy_range(entry.0.as_slice(), 0, entry.0.len());
                proof {
                    assert(row@ =~= entry.0@);
                    bucket.lemma_entry(j as int);
                    assert(self.posted(token, row@));
                }
                r.push((self.postings.entries[i].0.clone(), row, entry.1));
                proof {
                    assert forall|k: int| 0 <= k < r@.len() implies count_fits(
                        *self,
                        #[trigger] r@[k],
                    ) by {
                        if k < before.len() {
                            assert(r@[k] == before[k]);
                        }
                    }
                    assert forall|t: Seq<char>, x: Seq<u8>| #[trigger] listed(before, t, x) implies
                        listed(r@, t, x) by {
                        let k = choose|k: int| listed_at(before, k, t, x);
                        assert(listed_at(before, k, t, x));
                        assert(listed_at(r@, k, t, x));
                    }
                    assert(listed_at(r@, before.len() as int, token, row@));
                }
                j += 1;
            }
            i += 1;
        }
        proof {
            assert forall|t: Seq<char>, x: Seq<u8>| self.frequency(t, x) > 0 implies #[trigger] listed(
                r@,
                t,
                x,
            ) by {
                assert(self.posted(t, x));
                if forall|a: int|
                    0 <= a < self.postings.entries@.len() ==> (
                    #[trigger] self.postings.entries@[a]).0@ != t {
                    self.postings.lemma_absent(t);
                }
                let a = choose|a: int|
                    0 <= a < self.postings.entries@.len() && (
                    #[trigger] self.postings.entries@[a]).0@ == t;
                self.postings.lemma_entry(a);
                let bucket = self.postings.entries@[a].1;
                if forall|b: int|
                    0 <= b < bucket.entries@.len() ==> (#[trigger] bucket.entries@[b]).0@ != x {
                    bucket.lemma_absent(x);
                }
                let b = choose|b: int|
                    0 <= b < bucket.entries@.len() && (#[trigger] bucket.entries@[b]).0@ == x;
                assert(listed(r@, t, self.postings.entries@[a].1.entries@[b].0@));
            }
        }
        r
    }

    /// The rows that hold a word, each with how often it does.
    pub fn frequencies(&self, token: &str) -> (r: Vec<(Vec<u8>, u32)>)
        requires
            self.wf(),
        ensures
            forall|i: int|
                0 <= i < r@.len() ==> self.frequency(token@, (#[trigger] r@[i]).0@) == r@[i].1,
            forall|i: int, j: int|
                0 <= i < j < r@.len() ==> (#[trigger] r@[i]).0@ != (#[trigger] r@[j]).0@,
            forall|row: Seq<u8>|
                self.frequency(token@, row) > 0 <==> exists|i: int|
                    0 <= i < r@.len() && (#[trigger] r@[i]).0@ == row,
    {
        let mut r: Vec<(Vec<u8>, u32)> = Vec::new();
        match self.postings.get(token) {
            Some(bucket) => {
                proof {
                    self.lemma_bucket(token@);
                }
                let mut i: usize = 0;
                while i < bucket.entries.len()
                    invariant
                        i <= bucket.entries@.len(),
                        r@.len() == i,
                        forall|k: int|
                            0 <= k < i ==> (#[trigger] r@[k]).0@ == bucket.entries@[k].0@
                                && r@[k].1 == bucket.entries@[k].1,
                    decreases bucket.entries@.len() - i,
                {
                    let row = be::copy_range(
                        bucket.entries[i].0.as_slice(),
                        0,
                        bucket.entries[i].0.len(),
                    );
                    assert(row@ =~= bucket.entries@[i as int].0@);
                    r.push((row, bucket.entries[i].1));
                    i += 1;
                }
                proof {
                    assert forall|k: int| 0 <= k < r@.len() implies self.frequency(
                        token@,
                        (#[trigger] r@[k]).0@,
                    ) == r@[k].1 && r@[k].1 > 0 by {
                        bucket.lemma_entry(k);
                        assert(self.posted(token@, r@[k].0@));
                    }
                    assert forall|a: int, b: int| 0 <= a < b < r@.len() implies (
                    #[trigger] r@[a]).0@ != (#[trigger] r@[b]).0@ by {
                        assert(bucket.entries@[a].0@ != bucket.entries@[b].0@);
                    }
                    assert forall|row: Seq<u8>| self.frequency(token@, row) > 0 implies exists|
                        i: int,
                    | 0 <= i < r@.len() && (#[trigger] r@[i]).0@ == row by {
                        if forall|k: int|
                            0 <= k < bucket.entries@.len() ==> (#[trigger] bucket.entries@[k]).0@
                                != row {
                            bucket.lemma_absent(row);
                        }
                        let k = choose|k: int|
                            0 <= k < bucket.entries@.len() && (#[trigger] bucket.entries@[k]).0@
                                == row;
                        assert(r@[k].0@ == row);
                    }
                }
            },
            None => {
                assert forall|row: Seq<u8>| self.frequency(token@, row) == 0 by {
                    assert(!self.posted(token@, row));
                }
            },
        }
        r
    }

    /// The number of words of a row; 0 of a row that is not indexed.
    pub fn doc_length(&self, row_key: &[u8]) -> (n: u32)
        requires
            self.wf(),
        ensures
            n == (if self.lengths().contains_key(row_key@) {
                self.lengths()[row_key@]
            } else {
                0
            }),
    {
        match self.doc_lengths.get(row_key) {
            Some(n) => *n,
            None => 0,
        }
    }

    /// The indexed rows, each with the number of its words.
    pub fn documents(&self) -> (r: &Vec<(Vec<u8>, u32)>)
        requires
            self.wf(),
        ensures
            forall|i: int|
                0 <= i < r@.len() ==> self.lengths().contains_key((#[trigger] r@[i]).0@)
                    && self.lengths()[r@[i].0@] == r@[i].1,
            forall|row: Seq<u8>|
                self.lengths().contains_key(row) ==> exists|i: int|
                    0 <= i < r@.len() && (#[trigger] r@[i]).0@ == row,
    {
        proof {
            let map = self.doc_lengths;
            assert forall|i: int| 0 <= i < map.entries@.len() implies self.lengths().contains_key(
                (#[trigger] map.entries@[i]).0@,
            ) && self.lengths()[map.entries@[i].0@] == map.entries@[i].1 by {
                map.lemma_entry(i);
            }
            assert forall|row: Seq<u8>| self.lengths().contains_key(row) implies exists|i: int|
                0 <= i < map.entries@.len() && (#[trigger] map.entries@[i]).0@ == row by {
                if forall|i: int|
                    0 <= i < map.entries@.len() ==> (#[trigger] map.entries@[i]).0@ != row {
                    map.lemma_absent(row);
                }
            }
        }
        &self.doc_lengths.entries
    }

    /// Whether a row holds every one of `tokens`.
    pub open spec fn holds_all(&self, tokens: Seq<Seq<char>>, row: Seq<u8>) -> bool {
        forall|i: int| 0 <= i < tokens.len() ==> self.frequency(#[trigger] tokens[i], row) > 0
    }

    /// Whether a row holds every one of `tokens[from..]`.
    fn has_rest(&self, tokens: &Vec<String>, from: usize, row: &[u8]) -> (r: bool)
        requires
            self.wf(),
            from <= tokens@.len(),
        ensures
            r == self.holds_all(text::texts(tokens@).skip(from as int), row@),
    {
        let ghost rest = text::texts(tokens@).skip(from as int);
        let mut i: usize = from;
        while i < tokens.len()
            invariant
                self.wf(),
                from <= i <= tokens@.len(),
                rest == text::texts(tokens@).skip(from as int),
                forall|k: int| 0 <= k < i - from ==> self.frequency(#[trigger] rest[k], row@) > 0,
            decreases tokens@.len() - i,
        {
            assert(rest[i - from] == tokens@[i as int]@);
            let present = match self.postings.get(tokens[i].as_str()) {
                Some(bucket) => {
                    proof {
                        self.lemma_bucket(tokens@[i as int]@);
                    }
                    bucket.contains_key(row)
                },
                None => false,
            };
            assert(present == self.posted(tokens@[i as int]@, row@));
            if !present {
                assert(self.frequency(rest[i - from], row@) == 0);
                return false;
            }
            i += 1;
        }
        true
    }

    /// Whether a row holds one of `tokens`.
    pub open spec fn holds_any(&self, tokens: Seq<Seq<char>>, row: Seq<u8>) -> bool {
        exists|i: int| 0 <= i < tokens.len() && self.frequency(#[trigger] tokens[i], row) > 0
    }

    /// The rows whose text holds at least one word of `query`: those that are
    /// worth a score.
    pub fn search_any(&self, query: &str) -> (rows: Vec<Vec<u8>>)
        requires
            self.wf(),
        ensures
            be::contents(rows@).no_duplicates(),
            forall|row: Seq<u8>|
                be::contents(rows@).contains(row) <==> #[trigger] self.holds_any(
                    words(query@),
                    row,
                ),
    {
        let tokens = tokenize(query);
        let ghost all = words(query@);
        let mut rows: Vec<Vec<u8>> = Vec::new();
        let mut i: usize = 0;
        assert(be::contents(rows@) =~= Seq::<Seq<u8>>::empty());
        while i < tokens.len()
            invariant
                self.wf(),
                all == words(query@),
                text::texts(tokens@) == all,
                i <= tokens@.len(),
                be::contents(rows@).no_duplicates(),
                forall|row: Seq<u8>|
                    be::contents(rows@).contains(row) <==> #[trigger] self.holds_any(
                        all.take(i as int),
                        row,
                    ),
            decreases tokens@.len() - i,
        {
            let ghost token = all[i as int];
            assert(tokens@[i as int]@ == token);
            let found = self.frequencies(tokens[i].as_str());
            let ghost before = be::contents(rows@);
            let mut j: usize = 0;
            while j < found.len()
                invariant
                    j <= found@.len(),
                    be::contents(rows@).no_duplicates(),
                    forall|row: Seq<u8>| #[trigger]
                        be::contents(rows@).contains(row) <==> before.contains(row) || exists|k: int|
                            0 <= k < j && (#[trigger] found@[k]).0@ == row,
                decreases found@.len() - j,
            {
                let ghost now = be::contents(rows@);
                let ghost row = found@[j as int].0@;
                if !holds(&rows, found[j].0.as_slice()) {
                    let copy = be::copy_range(found[j].0.as_slice(), 0, found[j].0.len());
                    assert(copy@ =~= row);
                    rows.push(copy);
                    assert(be::contents(rows@) =~= now.push(row));
                }
                proof {
                    let then = be::contents(rows@);
                    assert forall|x: Seq<u8>| #[trigger] then.contains(x) <==> before.contains(x)
                        || exists|k: int| 0 <= k < j + 1 && (#[trigger] found@[k]).0@ == x by {
                        if then.contains(x) {
                            let a = choose|a: int| 0 <= a < then.len() && then[a] == x;
                            if a < now.len() {
                                assert(now[a] == x);
                                assert(now.contains(x));
                            } else {
                                assert(found@[j as int].0@ == x);
                            }
                        }
                        if now.contains(x) {
                            let a = choose|a: int| 0 <= a < now.len() && now[a] == x;
                            assert(then[a] == x);
                        }
                        if x == row {
                            if then.len() > now.len() {
                                assert(then[now.len() as int] == x);
                            }
                        } else if exists|k: int| 0 <= k < j + 1 && (#[trigger] found@[k]).0@ == x {
                            let k = choose|k: int| 0 <= k < j + 1 && (#[trigger] found@[k]).0@ == x;
                            assert(k < j);
                        }
                    }
                }
                j += 1;
            }
            proof {
                let then = be::contents(rows@);
                let head = all.take(i as int);
                let more = all.take(i + 1);
                assert forall|row: Seq<u8>| then.contains(row) <==> #[trigger] self.holds_any(
                    more,
                    row,
                ) by {
                    assert(before.contains(row) <==> self.holds_any(head, row));
                    if self.holds_any(head, row) {
                        let k = choose|k: int|
                            0 <= k < head.len() && self.frequency(#[trigger] head[k], row) > 0;
                        assert(more[k] == head[k]);
                    }
                    if self.frequency(token, row) > 0 {
                        assert(more[i as int] == token);
                    }
                    if self.holds_any(more, row) {
                        let k = choose|k: int|
                            0 <= k < more.len() && self.frequency(#[trigger] more[k], row) > 0;
                        if k < head.len() {
                            assert(head[k] == more[k]);
                        }
                    }
                    if then.contains(row) && !before.contains(row) {
                        let k = choose|k: int|
                            0 <= k < found@.len() && (#[trigger] found@[k]).0@ == row;
                        assert(self.frequency(token, found@[k].0@) > 0);
                    }
                }
            }
            i += 1;
        }
        assert(all.take(tokens@.len() as int) =~= all);
        rows
    }

    /// Whether a list holds every row with a word of `query` once, each with a
    /// score that `score` gave it.
    pub open spec fn scored<F: Fn(&Vec<u8>) -> u64>(
        &self,
        query: Seq<char>,
        score: F,
        list: Seq<(Vec<u8>, u64)>,
    ) -> bool {
        &&& scored_rows(list).no_duplicates()
        &&& forall|row: Seq<u8>|
            scored_rows(list).contains(row) <==> #[trigger] self.holds_any(words(query), row)
        &&& forall|i: int|
            0 <= i < list.len() ==> call_ensures(
                score,
                (&(#[trigger] list[i]).0,),
                list[i].1,
            )
    }

    /// The rows whose text holds at least one word of `query` with their
    /// scores, the best first, and of those no more than `limit`. A score is an
    /// integer that orders as the relevance of the row does.
    pub fn search_bm25<F: Fn(&Vec<u8>) -> u64>(&self, query: &str, score: F, limit: usize) -> (r:
        Vec<(Vec<u8>, u64)>)
        requires
            self.wf(),
            forall|row: &Vec<u8>| call_requires(score, (row,)),
        ensures
            exists|list: Seq<(Vec<u8>, u64)>| #[trigger]
                self.scored(query@, score, list) && r@ == first_of(
                    ranking::best_first(list),
                    limit as nat,
                ),
    {
        let mut rest = self.search_any(query);
        let ghost rows = rest@;
        let mut list: Vec<(Vec<u8>, u64)> = Vec::new();
        while rest.len() > 0
            invariant
                forall|row: &Vec<u8>| call_requires(score, (row,)),
                rest@.len() <= rows.len(),
                rest@ == rows.skip(rows.len() - rest@.len()),
                list@.len() == rows.len() - rest@.len(),
                forall|i: int|
                    0 <= i < list@.len() ==> (#[trigger] list@[i]).0 == rows[i] && call_ensures(
                        score,
                        (&list@[i].0,),
                        list@[i].1,
                    ),
            decreases rest@.len(),
        {
            let ghost done: int = list@.len() as int;
            let row = rest.remove(0);
            assert(row == rows[done]);
            assert(rest@ =~= rows.skip(done + 1));
            let s: u64 = score(&row);
            list.push((row, s));
        }
        assert(scored_rows(list@) =~= be::contents(rows));
        assert(self.scored(query@, score, list@));
        let mut r = sort_best_first(list);
        r.truncate(limit);
        assert(r@ =~= first_of(ranking::best_first(list@), limit as nat));
        r
    }

    /// The rows whose text holds every word of `query`; none for a query
    /// without words.
    pub fn search_and(&self, query: &str) -> (rows: Vec<Vec<u8>>)
        requires
            self.wf(),
        ensures
            be::contents(rows@).no_duplicates(),
            forall|row: Seq<u8>|
                be::contents(rows@).contains(row) <==> words(query@).len() > 0 && self.holds_all(
                    words(query@),
                    row,
                ),
    {
        let tokens = tokenize(query);
        let ghost all = words(query@);
        let mut rows: Vec<Vec<u8>> = Vec::new();
        if tokens.len() == 0 {
            assert(all.len() == 0);
            return rows;
        }
        let found = self.frequencies(tokens[0].as_str());
        assert(all[0] == tokens@[0]@);
        let mut i: usize = 0;
        while i < found.len()
            invariant
                self.wf(),
                text::texts(tokens@) == all,
                all == words(query@),
                tokens@.len() > 0,
                all[0] == tokens@[0]@,
                i <= found@.len(),
                forall|k: int|
                    0 <= k < found@.len() ==> self.frequency(all[0], (#[trigger] found@[k]).0@)
                        > 0,
                forall|a: int, b: int|
                    0 <= a < b < found@.len() ==> (#[trigger] found@[a]).0@ != (
                    #[trigger] found@[b]).0@,
                forall|k: int|
                    0 <= k < rows@.len() ==> self.holds_all(all, (#[trigger] rows@[k])@) && exists|
                        j: int,
                    | 0 <= j < i && (#[trigger] found@[j]).0@ == rows@[k]@,
                forall|a: int, b: int|
                    0 <= a < b < rows@.len() ==> (#[trigger] rows@[a])@ != (#[trigger] rows@[b])@,
                forall|j: int|
                    0 <= j < i && self.holds_all(all, (#[trigger] found@[j]).0@) ==> be::contents(
                        rows@,
                    ).contains(found@[j].0@),
            decreases found@.len() - i,
        {
            let ghost row = found@[i as int].0@;
            let keep = self.has_rest(&tokens, 1, found[i].0.as_slice());
            proof {
                let rest = all.skip(1);
                if keep {
                    assert forall|k: int| 0 <= k < all.len() implies self.frequency(
                        #[trigger] all[k],
                        row,
                    ) > 0 by {
                        if k > 0 {
                            assert(rest[k - 1] == all[k]);
                        }
                    }
                } else {
                    assert(!self.holds_all(all, row)) by {
                        let k = choose|k: int|
                            0 <= k < rest.len() && !(self.frequency(#[trigger] rest[k], row) > 0);
                        assert(all[k + 1] == rest[k]);
                    }
                }
            }
            let ghost before = rows@;
            if keep {
                let copy = be::copy_range(found[i].0.as_slice(), 0, found[i].0.len());
                assert(copy@ =~= row);
                rows.push(copy);
                assert(be::contents(rows@)[before.len() as int] == row);
                assert forall|x: Seq<u8>| be::contents(before).contains(x) implies be::contents(
                    rows@,
                ).contains(x) by {
                    let k = choose|k: int|
                        0 <= k < before.len() && be::contents(before)[k] == x;
                    assert(be::contents(rows@)[k] == x);
                }
                assert forall|a: int, b: int| 0 <= a < b < rows@.len() implies (
                #[trigger] rows@[a])@ != (#[trigger] rows@[b])@ by {
                    assert(rows@[a] == before[a]);
                    if b < before.len() {
                        assert(rows@[b] == before[b]);
                    } else {
                        let j = choose|j: int| 0 <= j < i && (#[trigger] found@[j]).0@ == before[a]@;
                        assert(found@[j].0@ != found@[i as int].0@);
                    }
                }
                assert forall|k: int| 0 <= k < rows@.len() implies self.holds_all(
                    all,
                    (#[trigger] rows@[k])@,
                ) && exists|j: int| 0 <= j < i + 1 && (#[trigger] found@[j]).0@ == rows@[k]@ by {
                    if k < before.len() {
                        assert(rows@[k] == before[k]);
                        let j = choose|j: int| 0 <= j < i && (#[trigger] found@[j]).0@ == before[k]@;
                        assert(found@[j].0@ == rows@[k]@);
                    } else {
                        assert(found@[i as int].0@ == rows@[k]@);
                    }
                }
            }
            i += 1;
        }
        proof {
            let out = be::contents(rows@);
            assert forall|a: int, b: int| 0 <= a < out.len() && 0 <= b < out.len() && a != b implies
                out[a] != out[b] by {
                if a < b {
                    assert(rows@[a]@ != rows@[b]@);
                } else {
                    assert(rows@[b]@ != rows@[a]@);
                }
            }
            assert forall|row: Seq<u8>| out.contains(row) <==> all.len() > 0 && self.holds_all(
                all,
                row,
            ) by {
                if out.contains(row) {
                    let k = choose|k: int| 0 <= k < out.len() && out[k] == row;
                    assert(rows@[k]@ == row);
                }
                if self.holds_all(all, row) {
                    assert(self.frequency(all[0], row) > 0);
                    let j = choose|j: int| 0 <= j < found@.len() && (#[trigger] found@[j]).0@ == row;
                    assert(out.contains(found@[j].0@));
                }
            }
        }
        rows
    }
}

/// What is found by all words of a query is found by any of them.
pub proof fn law_all_words_are_some(index: FtsIndex, tokens: Seq<Seq<char>>, row: Seq<u8>)
    requires
        tokens.len() > 0,
        index.holds_all(tokens, row),
    ensures
        index.holds_any(tokens, row),
{
    assert(index.frequency(tokens[0], row) > 0);
}

/// A second text of a row replaces the first: the index counts and finds what it
/// would if the second alone had been indexed.
pub proof fn law_second_text_replaces_the_first<F: Fn(&Vec<u8>) -> u64>(
    start: FtsIndex,
    row: Seq<u8>,
    first: Seq<char>,
    second: Seq<char>,
    between: FtsIndex,
    both: FtsIndex,
    only: FtsIndex,
    query: Seq<char>,
    score: F,
    list: Seq<(Vec<u8>, u64)>,
    r: Seq<u8>,
)
    requires
        text_indexed(start, row, first, between),
        text_indexed(between, row, second, both),
        text_indexed(start, row, second, only),
    ensures
        both.lengths() == only.lengths(),
        forall|t: Seq<char>, x: Seq<u8>| #[trigger] both.frequency(t, x) == only.frequency(t, x),
        both.holds_all(words(query), r) == only.holds_all(words(query), r),
        both.holds_any(words(query), r) == only.holds_any(words(query), r),
        both.scored(query, score, list) == only.scored(query, score, list),
{
    assert(both.lengths() =~= only.lengths());
    assert forall|t: Seq<char>, x: Seq<u8>| #[trigger]
        both.frequency(t, x) == only.frequency(t, x) by {
        assert(between.frequency(t, x) == (if x == row {
            occurrences(words(first), t)
        } else {
            start.frequency(t, x)
        }));
    }
    let ws = words(query);
    assert forall|x: Seq<u8>| #[trigger] both.holds_any(ws, x) == only.holds_any(ws, x) by {
        if both.holds_any(ws, x) {
            let i = choose|i: int| 0 <= i < ws.len() && both.frequency(ws[i], x) > 0;
            assert(only.frequency(ws[i], x) > 0);
        }
        if only.holds_any(ws, x) {
            let i = choose|i: int| 0 <= i < ws.len() && only.frequency(ws[i], x) > 0;
            assert(both.frequency(ws[i], x) > 0);
        }
    }
    if both.scored(query, score, list) {
        assert forall|x: Seq<u8>|
            scored_rows(list).contains(x) <==> #[trigger] only.holds_any(ws, x) by {
            assert(both.holds_any(ws, x) == only.holds_any(ws, x));
        }
    }
    if only.scored(query, score, list) {
        assert forall|x: Seq<u8>|
            scored_rows(list).contains(x) <==> #[trigger] both.holds_any(ws, x) by {
            assert(both.holds_any(ws, x) == only.holds_any(ws, x));
        }
    }
    assert forall|i: int| 0 <= i < ws.len() implies both.frequency(ws[i], r)
        == only.frequency(ws[i], r) by {}
}

/// A row is found by every word of its text and by no other: in an index that
/// holds `text` for it, its frequency under a word is above zero exactly where
/// the word occurs in the text.
pub proof fn law_row_is_found_by_its_words(text: Seq<char>, token: Seq<char>)
    ensures
        occurrences(words(text), token) > 0 <==> words(text).contains(token),
        occurrences(words(text), token) <= words(text).len(),
{
    lemma_occurrences(words(text), token);
}

proof fn lemma_word_runs(word: Seq<char>, run: Seq<char>, rest: Seq<char>)
    requires
        forall|i: int| 0 <= i < run.len() ==> in_word(#[trigger] run[i]),
    ensures
        words_after(word, run + rest) == words_after(word + run, rest),
    decreases run.len(),
{
    let s = run + rest;
    if run.len() == 0 {
        assert(s =~= rest);
        assert(word + run =~= word);
    } else {
        let tail = run.drop_first();
        assert(in_word(run[0]));
        assert forall|i: int| 0 <= i < tail.len() implies in_word(#[trigger] tail[i]) by {
            assert(in_word(run[i + 1]));
        }
        assert(s.drop_first() =~= tail + rest);
        assert(s[0] == run[0]);
        lemma_word_runs(word.push(run[0]), tail, rest);
        assert(word.push(run[0]) + tail =~= word + run);
    }
}

/// The words of a text are its runs of letters and digits, in small letters and in
/// their order, whatever else stands between them.
pub proof fn law_words_are_runs_of_letters(runs: Seq<Seq<char>>, sep: char)
    requires
        !in_word(sep),
        forall|i: int| 0 <= i < runs.len() ==> (#[trigger] runs[i]).len() > 0,
        forall|i: int, k: int|
            0 <= i < runs.len() && 0 <= k < runs[i].len() ==> in_word(#[trigger] runs[i][k]),
    ensures
        words(text::joined(runs, sep)) == runs.map_values(|r: Seq<char>| lowercase(r)),
    decreases runs.len(),
{
    let none = Seq::<char>::empty();
    let low = runs.map_values(|r: Seq<char>| lowercase(r));
    if runs.len() == 0 {
        assert(words(none) =~= low);
    } else if runs.len() == 1 {
        assert forall|k: int| 0 <= k < runs[0].len() implies in_word(#[trigger] runs[0][k]) by {}
        lemma_word_runs(none, runs[0], none);
        assert(runs[0] + none =~= runs[0]);
        assert(none + runs[0] =~= runs[0]);
        assert(words(runs[0]) =~= low);
    } else {
        let rest = runs.drop_first();
        assert forall|i: int| 0 <= i < rest.len() implies (#[trigger] rest[i]).len() > 0 by {
            assert(rest[i] == runs[i + 1]);
        }
        assert forall|i: int, k: int| 0 <= i < rest.len() && 0 <= k < rest[i].len() implies in_word(
            #[trigger] rest[i][k],
        ) by {
            assert(rest[i][k] == runs[i + 1][k]);
        }
        law_words_are_runs_of_letters(rest, sep);
        let tail = seq![sep] + text::joined(rest, sep);
        assert forall|k: int| 0 <= k < runs[0].len() implies in_word(#[trigger] runs[0][k]) by {}
        lemma_word_runs(none, runs[0], tail);
        assert(text::joined(runs, sep) =~= runs[0] + tail);
        assert(none + runs[0] =~= runs[0]);
        assert(tail.drop_first() =~= text::joined(rest, sep));
        assert(words(text::joined(runs, sep)) =~= low);
    }
}

/// ASCII letters and digits make words, other ASCII characters part them, and
/// capitals become small letters.
pub proof fn law_ascii_letters_and_digits_make_words(c: char)
    requires
        (c as u32) < 128,
    ensures
        in_word(c) <==> '0' <= c <= '9' || 'A' <= c <= 'Z' || 'a' <= c <= 'z',
        'A' <= c <= 'Z' ==> lowercase(seq![c]).len() == 1 && lowercase(seq![c])[0] as u32 == c as u32
            + 32,
        !('A' <= c <= 'Z') ==> lowercase(seq![c]) == seq![c],
{
    let s = seq![c];
    assert forall|i: int| 0 <= i < s.len() implies is_ascii_char(#[trigger] s[i]) by {}
    assert(!('A' <= c <= 'Z') ==> lowercase(s) =~= s);
}

proof fn lemma_counted(tokens: Seq<Seq<char>>, token: Seq<char>)
    ensures
        occurrences(tokens, token) > 0 <==> tokens.contains(token),
    decreases tokens.len(),
{
    if tokens.len() > 0 {
        let head = tokens.drop_last();
        lemma_counted(head, token);
        if head.contains(token) {
            let k = choose|k: int| 0 <= k < head.len() && head[k] == token;
            assert(tokens[k] == token);
        }
        if tokens.contains(token) {
            let k = choose|k: int| 0 <= k < tokens.len() && tokens[k] == token;
            if k < head.len() {
                assert(head[k] == token);
            }
        }
        assert(tokens[tokens.len() - 1] == tokens.last());
    }
}

/// A row is found by all of several words where its text has them all, by any of
/// them where it has one; other rows are found as before.
pub proof fn law_indexed_text_is_found_by_its_words(
    before: FtsIndex,
    row: Seq<u8>,
    text: Seq<char>,
    after: FtsIndex,
    query: Seq<Seq<char>>,
    other: Seq<u8>,
)
    requires
        text_indexed(before, row, text, after),
    ensures
        after.holds_all(query, row) <==> forall|i: int|
            0 <= i < query.len() ==> words(text).contains(#[trigger] query[i]),
        after.holds_any(query, row) <==> exists|i: int|
            0 <= i < query.len() && words(text).contains(#[trigger] query[i]),
        other != row ==> after.holds_all(query, other) == before.holds_all(query, other),
        other != row ==> after.holds_any(query, other) == before.holds_any(query, other),
{
    assert forall|i: int| 0 <= i < query.len() implies (after.frequency(#[trigger] query[i], row)
        > 0 <==> words(text).contains(query[i])) by {
        lemma_counted(words(text), query[i]);
    }
    if after.holds_any(query, row) {
        let i = choose|i: int| 0 <= i < query.len() && after.frequency(#[trigger] query[i], row) > 0;
        assert(words(text).contains(query[i]));
    }
    if exists|i: int| 0 <= i < query.len() && words(text).contains(#[trigger] query[i]) {
        let i = choose|i: int| 0 <= i < query.len() && words(text).contains(#[trigger] query[i]);
        assert(after.frequency(query[i], row) > 0);
    }
    if after.holds_all(query, row) {
        assert forall|i: int| 0 <= i < query.len() implies words(text).contains(
            #[trigger] query[i],
        ) by {
            assert(after.frequency(query[i], row) > 0);
        }
    }
    if other != row {
        assert forall|i: int| 0 <= i < query.len() implies after.frequency(#[trigger] query[i], other)
            == before.frequency(query[i], other) by {}
        if after.holds_any(query, other) {
            let i = choose|i: int|
                0 <= i < query.len() && after.frequency(#[trigger] query[i], other) > 0;
            assert(before.frequency(query[i], other) > 0);
        }
        if before.holds_any(query, other) {
            let i = choose|i: int|
                0 <= i < query.len() && before.frequency(#[trigger] query[i], other) > 0;
            assert(after.frequency(query[i], other) > 0);
        }
    }
}

/// How often a word stands in two texts is the sum of how often it stands in each,
/// and it stands once in itself.
pub proof fn law_occurrences_are_counted(a: Seq<Seq<char>>, b: Seq<Seq<char>>, token: Seq<char>)
    ensures
        occurrences(a + b, token) == occurrences(a, token) + occurrences(b, token),
        occurrences(seq![token], token) == 1,
        forall|other: Seq<char>| other != token ==> #[trigger] occurrences(seq![other], token) == 0,
    decreases b.len(),
{
    reveal_with_fuel(occurrences, 2);
    assert forall|other: Seq<char>| #[trigger] occurrences(seq![other], token) == if other == token {
        1nat
    } else {
        0nat
    } by {
        assert(seq![other].drop_last() =~= Seq::<Seq<char>>::empty());
        assert(occurrences(seq![other].drop_last(), token) == 0);
    }
    if b.len() > 0 {
        law_occurrences_are_counted(a, b.drop_last(), token);
        assert((a + b).drop_last() =~= a + b.drop_last());
    } else {
        assert(a + b =~= a);
    }
}

/// A limit keeps the front of a list, as much of it as the limit lets through.
pub proof fn law_limit_keeps_the_front<T>(list: Seq<T>, limit: nat)
    ensures
        first_of(list, limit).len() == (if limit < list.len() {
            limit
        } else {
            list.len()
        }),
        forall|i: int|
            0 <= i < first_of(list, limit).len() ==> #[trigger] first_of(list, limit)[i] == list[i],
{
}

} // verus!
