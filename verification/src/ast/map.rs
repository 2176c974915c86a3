//! An ordered map keyed by strings: authored order, one entry per key.
//!
//! Attribute and hash order is authored order, because rendered output has to
//! be byte-reproducible across runs. Inserting a key that is already present
//! keeps its first position and takes the new value -- what JavaScript object
//! assignment does, and therefore what Markdoc's output order is.

use vstd::prelude::*;

verus! {

/// No key occurs twice.
pub open spec fn distinct_keys<T>(entries: Seq<(String, T)>) -> bool {
    forall|i: int, j: int|
        0 <= i < entries.len() && 0 <= j < entries.len() && i != j ==> #[trigger] entries[i].0@
            != #[trigger] entries[j].0@
}

/// The index of the entry whose key is `key`, or -1.
pub open spec fn key_index<T>(entries: Seq<(String, T)>, key: Seq<char>) -> int
    decreases entries.len(),
{
    if entries.len() == 0 {
        -1
    } else if entries.last().0@ == key {
        entries.len() - 1
    } else {
        key_index(entries.drop_last(), key)
    }
}

/// `key_index` finds the key when it is there and says so when it is not.
pub proof fn lemma_key_index<T>(entries: Seq<(String, T)>, key: Seq<char>)
    ensures
        -1 <= key_index(entries, key) < entries.len(),
        key_index(entries, key) >= 0 ==> entries[key_index(entries, key)].0@ == key,
        key_index(entries, key) == -1 <==> forall|i: int|
            0 <= i < entries.len() ==> #[trigger] entries[i].0@ != key,
    decreases entries.len(),
{
    if entries.len() > 0 {
        lemma_key_index(entries.drop_last(), key);
        if entries.last().0@ != key {
            assert forall|i: int| 0 <= i < entries.len() - 1 implies #[trigger] entries[i].0@
                == entries.drop_last()[i].0@ by {}
        }
    }
}

/// Strings compare by their characters.
#[verifier::external_body]
pub(crate) fn str_eq(a: &str, b: &str) -> (r: bool)
    ensures
        r == (a@ == b@),
{
    a == b
}

/// An ordered map from strings to `T`, in insertion order.
#[derive(Debug, PartialEq)]
pub struct IndexMap<T> {
    /// The entries, in order.
    pub entries: Vec<(String, T)>,
}

impl<T> View for IndexMap<T> {
    type V = Seq<(String, T)>;

    open spec fn view(&self) -> Seq<(String, T)> {
        self.entries@
    }
}

impl<T> IndexMap<T> {
    /// An empty map.
    pub fn new() -> (map: IndexMap<T>)
        ensures
            map@ == Seq::<(String, T)>::empty(),
    {
        IndexMap { entries: Vec::new() }
    }

    /// The number of entries.
    pub fn len(&self) -> (n: usize)
        ensures
            n == self@.len(),
    {
        self.entries.len()
    }

    /// Whether the map is empty.
    pub fn is_empty(&self) -> (b: bool)
        ensures
            b == (self@.len() == 0),
    {
        self.entries.len() == 0
    }

    /// The entries, in order.
    pub fn entries(&self) -> (r: &Vec<(String, T)>)
        ensures
            r@ == self@,
    {
        &self.entries
    }

    /// The index of `key`, if it is present.
    pub fn index_of(&self, key: &str) -> (r: Option<usize>)
        ensures
            r is None ==> key_index(self@, key@) == -1,
            r matches Some(i) ==> i == key_index(self@, key@),
    {
        proof {
            lemma_key_index(self@, key@);
        }
        let mut i = self.entries.len();
        assert(self.entries@.take(i as int) =~= self.entries@);
        while i > 0
            invariant
                i <= self.entries@.len(),
                key_index(self.entries@, key@) == key_index(self.entries@.take(i as int), key@),
            decreases i,
        {
            if str_eq(self.entries[i - 1].0.as_str(), key) {
                assert(self.entries@.take(i as int).last() == self.entries@[i - 1]);
                return Some(i - 1);
            }
            assert(self.entries@.take(i as int).drop_last() =~= self.entries@.take(i - 1));
            i = i - 1;
        }
        assert(self.entries@.take(0) =~= Seq::<(String, T)>::empty());
        None
    }

    /// Whether `key` is present.
    pub fn contains_key(&self, key: &str) -> (b: bool)
        ensures
            b == (key_index(self@, key@) >= 0),
    {
        self.index_of(key).is_some()
    }

    /// The value under `key`.
    pub fn get(&self, key: &str) -> (r: Option<&T>)
        ensures
            key_index(self@, key@) == -1 ==> r is None,
            key_index(self@, key@) >= 0 ==> r == Some(&self@[key_index(self@, key@)].1),
    {
        proof {
            lemma_key_index(self@, key@);
        }
        match self.index_of(key) {
            Some(i) => Some(&self.entries[i].1),
            None => None,
        }
    }

    /// The keys, in order.
    pub fn keys(&self) -> (r: Vec<String>)
        ensures
            r@.len() == self@.len(),
            forall|i: int| 0 <= i < r@.len() ==> #[trigger] r@[i]@ == self@[i].0@,
    {
        let mut out: Vec<String> = Vec::new();
        let mut i: usize = 0;
        while i < self.entries.len()
            invariant
                i <= self.entries@.len(),
                out@.len() == i,
                forall|j: int| 0 <= j < i ==> #[trigger] out@[j]@ == self.entries@[j].0@,
            decreases self.entries.len() - i,
        {
            out.push(self.entries[i].0.clone());
            i = i + 1;
        }
        out
    }

    /// Set `key` to `value`.
    ///
    /// A key already present keeps its position and takes the new value; a new
    /// key goes last.
    pub fn insert(&mut self, key: String, value: T)
        ensures
            key_index(old(self)@, key@) >= 0 ==> {
                let i = key_index(old(self)@, key@);
                &&& final(self)@.len() == old(self)@.len()
                &&& final(self)@[i].0@ == key@
                &&& final(self)@[i].1 == value
                &&& forall|j: int|
                    0 <= j < old(self)@.len() && j != i ==> #[trigger] final(self)@[j] == old(
                        self,
                    )@[j]
            },
            key_index(old(self)@, key@) == -1 ==> final(self)@ == old(self)@.push((key, value)),
            distinct_keys(old(self)@) ==> distinct_keys(final(self)@),
    {
        proof {
            lemma_key_index(self@, key@);
        }
        let found = self.index_of(key.as_str());
        let mut entries: Vec<(String, T)> = Vec::new();
        std::mem::swap(&mut entries, &mut self.entries);
        let ghost before = entries@;
        match found {
            Some(i) => {
                let (existing, _previous) = entries.remove(i);
                entries.insert(i, (existing, value));
                assert forall|a: int, b: int|
                    distinct_keys(before) && 0 <= a < entries@.len() && 0 <= b < entries@.len() && a != b implies #[trigger] entries@[a].0@
                        != #[trigger] entries@[b].0@ by {
                    assert(entries@[a].0@ == before[a].0@);
                    assert(entries@[b].0@ == before[b].0@);
                }
            },
            None => {
                entries.push((key, value));
                assert forall|a: int, b: int|
                    distinct_keys(before) && 0 <= a < entries@.len() && 0 <= b < entries@.len() && a != b implies #[trigger] entries@[a].0@
                        != #[trigger] entries@[b].0@ by {
                    if a < before.len() && b < before.len() {
                        assert(entries@[a] == before[a]);
                        assert(entries@[b] == before[b]);
                    } else if a < before.len() {
                        assert(entries@[a] == before[a]);
                    } else {
                        assert(entries@[b] == before[b]);
                    }
                }
            },
        }
        self.entries = entries;
    }
}

} // verus!
