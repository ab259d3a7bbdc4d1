//! A map from texts, in the order in which its keys were first added.

use vstd::prelude::*;
use vstd::string::*;

use crate::text;
use crate::text::same_text;

verus! {

/// A map from texts to values.
pub struct StrMap<V> {
    pub entries: Vec<(String, V)>,
}

/// Whether entry `i` is for `key`.
pub open spec fn entry_for<V>(entries: Seq<(String, V)>, i: int, key: Seq<char>) -> bool {
    0 <= i < entries.len() && entries[i].0@ == key
}

impl<V> View for StrMap<V> {
    type V = Map<Seq<char>, V>;

    open spec fn view(&self) -> Map<Seq<char>, V> {
        Map::new(
            |k: Seq<char>| exists|i: int| entry_for(self.entries@, i, k),
            |k: Seq<char>| self.entries@[choose|i: int| entry_for(self.entries@, i, k)].1,
        )
    }
}

impl<V> StrMap<V> {
    /// Whether no key occurs twice.
    pub open spec fn wf(&self) -> bool {
        forall|i: int, j: int|
            0 <= i < j < self.entries@.len() ==> (#[trigger] self.entries@[i]).0@ != (
            #[trigger] self.entries@[j]).0@
    }

    /// The value of an entry is the value of its key.
    pub proof fn lemma_entry(&self, i: int)
        requires
            self.wf(),
            0 <= i < self.entries@.len(),
        ensures
            self@.contains_key(self.entries@[i].0@),
            self@[self.entries@[i].0@] == self.entries@[i].1,
    {
        let k = self.entries@[i].0@;
        assert(entry_for(self.entries@, i, k));
        let j = choose|j: int| entry_for(self.entries@, j, k);
        assert(entry_for(self.entries@, j, k));
        if i < j {
            assert(self.entries@[i].0@ != self.entries@[j].0@);
        } else if j < i {
            assert(self.entries@[j].0@ != self.entries@[i].0@);
        }
    }

    /// A key without an entry has no value.
    pub proof fn lemma_absent(&self, k: Seq<char>)
        requires
            forall|i: int| 0 <= i < self.entries@.len() ==> (#[trigger] self.entries@[i]).0@ != k,
        ensures
            !self@.contains_key(k),
    {
        if self@.contains_key(k) {
            let j = choose|j: int| entry_for(self.entries@, j, k);
            assert(entry_for(self.entries@, j, k));
        }
    }

    /// An empty map.
    pub fn new() -> (m: StrMap<V>)
        ensures
            m.wf(),
            m@ == Map::<Seq<char>, V>::empty(),
            m.entries@.len() == 0,
    {
        let m = StrMap { entries: Vec::new() };
        proof {
            assert forall|k: Seq<char>| !m@.contains_key(k) by {
                m.lemma_absent(k);
            }
            assert(m@ =~= Map::<Seq<char>, V>::empty());
        }
        m
    }

    /// The position of the entry for `key`.
    pub fn find(&self, key: &str) -> (r: Option<usize>)
        requires
            self.wf(),
        ensures
            match r {
                Some(i) => i < self.entries@.len() && self.entries@[i as int].0@ == key@
                    && self@.contains_key(key@) && self@[key@] == self.entries@[i as int].1,
                None => !self@.contains_key(key@) && forall|i: int|
                    0 <= i < self.entries@.len() ==> (#[trigger] self.entries@[i]).0@ != key@,
            },
    {
        let mut i: usize = 0;
        while i < self.entries.len()
            invariant
                i <= self.entries@.len(),
                self.wf(),
                forall|k: int| 0 <= k < i ==> (#[trigger] self.entries@[k]).0@ != key@,
            decreases self.entries@.len() - i,
        {
            if same_text(self.entries[i].0.as_str(), key) {
                proof {
                    self.lemma_entry(i as int);
                }
                return Some(i);
            }
            i += 1;
        }
        proof {
            self.lemma_absent(key@);
        }
        None
    }

    /// The value of `key`.
    pub fn get(&self, key: &str) -> (r: Option<&V>)
        requires
            self.wf(),
        ensures
            match r {
                Some(v) => self@.contains_key(key@) && self@[key@] == *v,
                None => !self@.contains_key(key@),
            },
    {
        match self.find(key) {
            Some(i) => Some(&self.entries[i].1),
            None => None,
        }
    }

    /// Whether `key` has a value.
    pub fn contains_key(&self, key: &str) -> (r: bool)
        requires
            self.wf(),
        ensures
            r == self@.contains_key(key@),
    {
        self.find(key).is_some()
    }

    /// The keys, each once.
    pub fn keys(&self) -> (r: Vec<String>)
        requires
            self.wf(),
        ensures
            text::texts(r@).no_duplicates(),
            forall|k: Seq<char>| text::texts(r@).contains(k) <==> #[trigger] self@.contains_key(k),
    {
        let mut r: Vec<String> = Vec::new();
        let mut i: usize = 0;
        while i < self.entries.len()
            invariant
                i <= self.entries@.len(),
                r@.len() == i,
                forall|j: int| 0 <= j < i ==> (#[trigger] r@[j])@ == self.entries@[j].0@,
            decreases self.entries@.len() - i,
        {
            r.push(self.entries[i].0.clone());
            i += 1;
        }
        proof {
            assert forall|a: int, b: int| 0 <= a < b < r@.len() implies text::texts(r@)[a]
                != text::texts(r@)[b] by {
                assert(r@[a]@ == self.entries@[a].0@ && r@[b]@ == self.entries@[b].0@);
            }
            assert forall|k: Seq<char>| text::texts(r@).contains(k) <==> #[trigger] self@.contains_key(
                k,
            ) by {
                if text::texts(r@).contains(k) {
                    let j = choose|j: int|
                        0 <= j < r@.len() && #[trigger] text::texts(r@)[j] == k;
                    assert(r@[j]@ == k);
                    self.lemma_entry(j);
                }
                if self@.contains_key(k) {
                    let j = choose|j: int| entry_for(self.entries@, j, k);
                    assert(entry_for(self.entries@, j, k));
                    assert(r@[j]@ == k);
                    assert(text::texts(r@)[j] == k);
                }
            }
        }
        r
    }

    /// Gives `key` the value `value`.
    pub fn insert(&mut self, key: String, value: V)
        requires
            old(self).wf(),
        ensures
            final(self).wf(),
            final(self)@ == old(self)@.insert(key@, value),
    {
        match self.find(key.as_str()) {
            Some(i) => {
                self.entries[i] = (key, value);
                proof {
                    assert forall|a: int, b: int| 0 <= a < b < self.entries@.len() implies (
                    #[trigger] self.entries@[a]).0@ != (#[trigger] self.entries@[b]).0@ by {
                        assert(old(self).entries@[a].0@ != old(self).entries@[b].0@);
                    }
                    assert forall|k: Seq<char>|
                        self@.contains_key(k) <==> old(self)@.insert(key@, value).contains_key(
                            k,
                        ) by {
                        self.lemma_keys_kept(*old(self), k);
                    }
                    assert forall|k: Seq<char>| self@.contains_key(k) implies self@[k] == old(
                        self,
                    )@.insert(key@, value)[k] by {
                        let j = choose|j: int| entry_for(self.entries@, j, k);
                        assert(entry_for(self.entries@, j, k));
                        self.lemma_entry(j);
                        if j != i {
                            old(self).lemma_entry(j);
                            assert(old(self).entries@[j] == self.entries@[j]);
                            if i < j {
                                assert(self.entries@[i as int].0@ != self.entries@[j].0@);
                            } else {
                                assert(self.entries@[j].0@ != self.entries@[i as int].0@);
                            }
                        }
                    }
                    assert(self@ =~= old(self)@.insert(key@, value));
                }
            },
            None => {
                self.entries.push((key, value));
                proof {
                    let n = old(self).entries@.len() as int;
                    assert forall|a: int, b: int| 0 <= a < b < self.entries@.len() implies (
                    #[trigger] self.entries@[a]).0@ != (#[trigger] self.entries@[b]).0@ by {
                        assert(self.entries@[a] == old(self).entries@[a]);
                        if b < n {
                            assert(self.entries@[b] == old(self).entries@[b]);
                        }
                    }
                    assert forall|k: Seq<char>|
                        self@.contains_key(k) <==> old(self)@.insert(key@, value).contains_key(
                            k,
                        ) by {
                        if self@.contains_key(k) {
                            let j = choose|j: int| entry_for(self.entries@, j, k);
                            assert(entry_for(self.entries@, j, k));
                            if j < n {
                                assert(entry_for(old(self).entries@, j, k));
                            }
                        }
                        if old(self)@.contains_key(k) {
                            let j = choose|j: int| entry_for(old(self).entries@, j, k);
                            assert(entry_for(old(self).entries@, j, k));
                            assert(entry_for(self.entries@, j, k));
                        }
                        assert(entry_for(self.entries@, n, key@));
                    }
                    assert forall|k: Seq<char>| self@.contains_key(k) implies self@[k] == old(
                        self,
                    )@.insert(key@, value)[k] by {
                        let j = choose|j: int| entry_for(self.entries@, j, k);
                        assert(entry_for(self.entries@, j, k));
                        self.lemma_entry(j);
                        if j < n {
                            old(self).lemma_entry(j);
                            assert(self.entries@[j] == old(self).entries@[j]);
                        }
                    }
                    assert(self@ =~= old(self)@.insert(key@, value));
                }
            },
        }
    }

    /// Two maps whose entries have the same keys have the same keys.
    pub proof fn lemma_keys_kept(&self, before: StrMap<V>, k: Seq<char>)
        requires
            self.entries@.len() == before.entries@.len(),
            forall|i: int|
                0 <= i < self.entries@.len() ==> (#[trigger] self.entries@[i]).0@
                    == before.entries@[i].0@,
        ensures
            self@.contains_key(k) == before@.contains_key(k),
    {
        if self@.contains_key(k) {
            let j = choose|j: int| entry_for(self.entries@, j, k);
            assert(entry_for(self.entries@, j, k));
            assert(entry_for(before.entries@, j, k));
        }
        if before@.contains_key(k) {
            let j = choose|j: int| entry_for(before.entries@, j, k);
            assert(entry_for(before.entries@, j, k));
            assert(entry_for(self.entries@, j, k));
        }
    }

    /// Takes the value of `key` out.
    pub fn remove(&mut self, key: &str) -> (r: Option<V>)
        requires
            old(self).wf(),
        ensures
            final(self).wf(),
            final(self)@ == old(self)@.remove(key@),
            match r {
                Some(v) => old(self)@.contains_key(key@) && old(self)@[key@] == v,
                None => !old(self)@.contains_key(key@),
            },
    {
        match self.find(key) {
            Some(i) => {
                let (_, v) = self.entries.remove(i);
                proof {
                    let before = old(self).entries@;
                    assert(self.entries@ =~= before.remove(i as int));
                    assert forall|a: int, b: int| 0 <= a < b < self.entries@.len() implies (
                    #[trigger] self.entries@[a]).0@ != (#[trigger] self.entries@[b]).0@ by {
                        let x = if a < i {
                            a
                        } else {
                            a + 1
                        };
                        let y = if b < i {
                            b
                        } else {
                            b + 1
                        };
                        assert(before[x].0@ != before[y].0@);
                    }
                    assert forall|k: Seq<char>|
                        self@.contains_key(k) <==> old(self)@.remove(key@).contains_key(k) by {
                        if self@.contains_key(k) {
                            let j = choose|j: int| entry_for(self.entries@, j, k);
                            assert(entry_for(self.entries@, j, k));
                            let x = if j < i {
                                j
                            } else {
                                j + 1
                            };
                            assert(entry_for(before, x, k));
                            if x < i {
                                assert(before[x].0@ != before[i as int].0@);
                            } else {
                                assert(before[i as int].0@ != before[x].0@);
                            }
                        }
                        if old(self)@.remove(key@).contains_key(k) {
                            let j = choose|j: int| entry_for(before, j, k);
                            assert(entry_for(before, j, k));
                            let x = if j < i {
                                j
                            } else {
                                j - 1
                            };
                            assert(entry_for(self.entries@, x, k));
                        }
                    }
                    assert forall|k: Seq<char>| self@.contains_key(k) implies self@[k] == old(
                        self,
                    )@.remove(key@)[k] by {
                        let j = choose|j: int| entry_for(self.entries@, j, k);
                        assert(entry_for(self.entries@, j, k));
                        self.lemma_entry(j);
                        let x = if j < i {
                            j
                        } else {
                            j + 1
                        };
                        old(self).lemma_entry(x);
                    }
                    assert(self@ =~= old(self)@.remove(key@));
                }
                Some(v)
            },
            None => {
                proof {
                    assert(self@ =~= old(self)@.remove(key@));
                }
                None
            },
        }
    }
}

} // verus!
