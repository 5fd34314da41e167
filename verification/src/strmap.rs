//! String-keyed tables.
//!
//! `StrMap` is an association table keyed by string content, the shape
//! of every table the overlay tracks: route destination to interface,
//! peer subnet to underlay address, and (through `StrSet`) the set of
//! known peer subnets. Its view is a `Map` from key text to value.

use vstd::prelude::*;
use crate::text::str_eq;

verus! {

/// The map denoted by parallel key and value sequences.
pub open spec fn kv_map<V>(keys: Seq<String>, vals: Seq<V>) -> Map<Seq<char>, V>
    decreases keys.len(),
{
    if keys.len() == 0 || vals.len() == 0 {
        Map::empty()
    } else {
        kv_map(keys.drop_last(), vals.drop_last()).insert(keys.last()@, vals.last())
    }
}

/// An association table keyed by string content.
pub struct StrMap<V> {
    keys: Vec<String>,
    vals: Vec<V>,
}

impl<V> View for StrMap<V> {
    type V = Map<Seq<char>, V>;

    closed spec fn view(&self) -> Map<Seq<char>, V> {
        kv_map(self.keys@, self.vals@)
    }
}

proof fn lemma_kv_contains<V>(keys: Seq<String>, vals: Seq<V>, k: Seq<char>)
    requires
        keys.len() == vals.len(),
    ensures
        kv_map(keys, vals).contains_key(k) <==> exists|i: int|
            0 <= i < keys.len() && (#[trigger] keys[i])@ == k,
    decreases keys.len(),
{
    if keys.len() > 0 {
        lemma_kv_contains(keys.drop_last(), vals.drop_last(), k);
        if keys.last()@ == k {
            assert(keys[keys.len() - 1]@ == k);
        } else {
            if kv_map(keys, vals).contains_key(k) {
                let i = choose|i: int|
                    0 <= i < keys.len() - 1 && (#[trigger] keys.drop_last()[i])@ == k;
                assert(keys[i]@ == k);
            }
            if exists|i: int| 0 <= i < keys.len() && (#[trigger] keys[i])@ == k {
                let i = choose|i: int| 0 <= i < keys.len() && (#[trigger] keys[i])@ == k;
                assert(keys.drop_last()[i]@ == k);
            }
        }
    }
}

proof fn lemma_kv_index<V>(keys: Seq<String>, vals: Seq<V>, i: int)
    requires
        keys.len() == vals.len(),
        forall|p: int, q: int| 0 <= p < q < keys.len() ==> (#[trigger] keys[p])@ != (
        #[trigger] keys[q])@,
        0 <= i < keys.len(),
    ensures
        kv_map(keys, vals).contains_key(keys[i]@),
        kv_map(keys, vals)[keys[i]@] == vals[i],
    decreases keys.len(),
{
    if i == keys.len() - 1 {
    } else {
        lemma_kv_index(keys.drop_last(), vals.drop_last(), i);
        assert(keys[i]@ != keys.last()@);
    }
}

proof fn lemma_kv_remove<V>(keys: Seq<String>, vals: Seq<V>, i: int)
    requires
        keys.len() == vals.len(),
        forall|p: int, q: int| 0 <= p < q < keys.len() ==> (#[trigger] keys[p])@ != (
        #[trigger] keys[q])@,
        0 <= i < keys.len(),
    ensures
        kv_map(keys.remove(i), vals.remove(i)) == kv_map(keys, vals).remove(keys[i]@),
    decreases keys.len(),
{
    let n = keys.len() as int;
    if i == n - 1 {
        assert(keys.remove(i) =~= keys.drop_last());
        assert(vals.remove(i) =~= vals.drop_last());
        lemma_kv_contains(keys.drop_last(), vals.drop_last(), keys[i]@);
        assert(!kv_map(keys.drop_last(), vals.drop_last()).contains_key(keys[i]@)) by {
            if exists|p: int| 0 <= p < n - 1 && (#[trigger] keys.drop_last()[p])@ == keys[i]@ {
                let p = choose|p: int|
                    0 <= p < n - 1 && (#[trigger] keys.drop_last()[p])@ == keys[i]@;
                assert(keys[p]@ == keys[i]@);
            }
        }
        assert(kv_map(keys.drop_last(), vals.drop_last()) =~= kv_map(keys, vals).remove(
            keys[i]@,
        ));
    } else {
        lemma_kv_remove(keys.drop_last(), vals.drop_last(), i);
        assert(keys.remove(i).drop_last() =~= keys.drop_last().remove(i));
        assert(vals.remove(i).drop_last() =~= vals.drop_last().remove(i));
        assert(keys.remove(i).last() == keys.last());
        assert(vals.remove(i).last() == vals.last());
        assert(keys[i]@ != keys.last()@);
        assert(kv_map(keys.remove(i), vals.remove(i)) =~= kv_map(keys, vals).remove(keys[i]@));
    }
}

proof fn lemma_kv_dom_len<V>(keys: Seq<String>, vals: Seq<V>)
    requires
        keys.len() == vals.len(),
        forall|p: int, q: int| 0 <= p < q < keys.len() ==> (#[trigger] keys[p])@ != (
        #[trigger] keys[q])@,
    ensures
        kv_map(keys, vals).dom().finite(),
        kv_map(keys, vals).dom().len() == keys.len(),
    decreases keys.len(),
{
    if keys.len() > 0 {
        lemma_kv_dom_len(keys.drop_last(), vals.drop_last());
        lemma_kv_contains(keys.drop_last(), vals.drop_last(), keys.last()@);
        assert(!kv_map(keys.drop_last(), vals.drop_last()).contains_key(keys.last()@)) by {
            let n = keys.len() as int;
            if exists|p: int| 0 <= p < n - 1 && (#[trigger] keys.drop_last()[p])@ == keys.last()@ {
                let p = choose|p: int|
                    0 <= p < n - 1 && (#[trigger] keys.drop_last()[p])@ == keys.last()@;
                assert(keys[p]@ == keys[n - 1]@);
            }
        }
        assert(kv_map(keys, vals).dom() =~= kv_map(keys.drop_last(), vals.drop_last()).dom()
            + set![keys.last()@]);
        vstd::set_lib::lemma_set_disjoint_lens(
            kv_map(keys.drop_last(), vals.drop_last()).dom(),
            set![keys.last()@],
        );
    }
}

impl<V> StrMap<V> {
    /// The table holds one entry per key.
    pub closed spec fn wf(self) -> bool {
        &&& self.keys@.len() == self.vals@.len()
        &&& forall|p: int, q: int|
            0 <= p < q < self.keys@.len() ==> (#[trigger] self.keys@[p])@ != (
            #[trigger] self.keys@[q])@
    }

    pub fn new() -> (r: Self)
        ensures
            r.wf(),
            r@ == Map::<Seq<char>, V>::empty(),
    {
        let r = StrMap { keys: Vec::new(), vals: Vec::new() };
        proof {
            assert(r@ =~= Map::<Seq<char>, V>::empty());
        }
        r
    }

    /// Index of the entry whose key has the given content.
    fn index_of(&self, key: &str) -> (r: Option<usize>)
        ensures
            match r {
                Some(i) => i < self.keys@.len() && self.keys@[i as int]@ == key@,
                None => forall|i: int| 0 <= i < self.keys@.len() ==> (#[trigger] self.keys@[i])@
                    != key@,
            },
    {
        let mut i: usize = 0;
        while i < self.keys.len()
            invariant
                i <= self.keys@.len(),
                forall|p: int| 0 <= p < i ==> (#[trigger] self.keys@[p])@ != key@,
            decreases self.keys@.len() - i,
        {
            if str_eq(self.keys[i].as_str(), key) {
                return Some(i);
            }
            i = i + 1;
        }
        None
    }

    /// Whether the table holds an entry for this key.
    pub fn contains(&self, key: &str) -> (r: bool)
        requires
            self.wf(),
        ensures
            r == self@.contains_key(key@),
    {
        proof {
            lemma_kv_contains(self.keys@, self.vals@, key@);
        }
        match self.index_of(key) {
            Some(_) => true,
            None => false,
        }
    }

    /// The value stored under this key, if any.
    pub fn get(&self, key: &str) -> (r: Option<&V>)
        requires
            self.wf(),
        ensures
            match r {
                Some(v) => self@.contains_key(key@) && *v == self@[key@],
                None => !self@.contains_key(key@),
            },
    {
        proof {
            lemma_kv_contains(self.keys@, self.vals@, key@);
        }
        match self.index_of(key) {
            Some(i) => {
                proof {
                    lemma_kv_index(self.keys@, self.vals@, i as int);
                }
                Some(&self.vals[i])
            },
            None => None,
        }
    }

    /// Stores a value under a key, replacing any earlier entry.
    pub fn insert(&mut self, key: String, val: V)
        requires
            old(self).wf(),
        ensures
            final(self).wf(),
            final(self)@ == old(self)@.insert(key@, val),
    {
        let ghost old_keys = self.keys@;
        let ghost old_vals = self.vals@;
        match self.index_of(key.as_str()) {
            Some(i) => {
                self.keys.remove(i);
                self.vals.remove(i);
                proof {
                    lemma_kv_remove(old_keys, old_vals, i as int);
                }
            },
            None => {},
        }
        let ghost mid_keys = self.keys@;
        let ghost mid_vals = self.vals@;
        proof {
            lemma_kv_contains(mid_keys, mid_vals, key@);
        }
        self.keys.push(key);
        self.vals.push(val);
        proof {
            assert(self.keys@.drop_last() =~= mid_keys);
            assert(self.vals@.drop_last() =~= mid_vals);
            assert(self@ =~= old(self)@.insert(key@, val));
        }
    }

    /// Drops the entry for this key, handing back its value.
    pub fn remove(&mut self, key: &str) -> (r: Option<V>)
        requires
            old(self).wf(),
        ensures
            final(self).wf(),
            final(self)@ == old(self)@.remove(key@),
            match r {
                Some(v) => old(self)@.contains_key(key@) && v == old(self)@[key@],
                None => !old(self)@.contains_key(key@),
            },
    {
        let ghost old_keys = self.keys@;
        let ghost old_vals = self.vals@;
        proof {
            lemma_kv_contains(old_keys, old_vals, key@);
        }
        match self.index_of(key) {
            Some(i) => {
                proof {
                    lemma_kv_index(old_keys, old_vals, i as int);
                    lemma_kv_remove(old_keys, old_vals, i as int);
                }
                self.keys.remove(i);
                let v = self.vals.remove(i);
                Some(v)
            },
            None => {
                proof {
                    assert(final(self)@ =~= old(self)@.remove(key@));
                }
                None
            },
        }
    }

    /// Number of entries.
    pub fn len(&self) -> (r: usize)
        requires
            self.wf(),
        ensures
            self@.dom().finite(),
            r == self@.dom().len(),
    {
        proof {
            lemma_kv_dom_len(self.keys@, self.vals@);
        }
        self.keys.len()
    }

    /// Whether the table is empty.
    pub fn is_empty(&self) -> (r: bool)
        requires
            self.wf(),
        ensures
            r == (self@ == Map::<Seq<char>, V>::empty()),
    {
        proof {
            lemma_kv_dom_len(self.keys@, self.vals@);
            if self.keys@.len() == 0 {
                assert(self@ =~= Map::<Seq<char>, V>::empty());
            } else {
                lemma_kv_index(self.keys@, self.vals@, 0);
            }
        }
        self.keys.len() == 0
    }

    /// A copy of the keys: every key of the table, each exactly once.
    pub fn keys_snapshot(&self) -> (r: Vec<String>)
        requires
            self.wf(),
        ensures
            forall|i: int| 0 <= i < r@.len() ==> self@.contains_key((#[trigger] r@[i])@),
            forall|k: Seq<char>|
                self@.contains_key(k) ==> exists|i: int|
                    0 <= i < r@.len() && (#[trigger] r@[i])@ == k,
    {
        let mut out: Vec<String> = Vec::new();
        let mut i: usize = 0;
        while i < self.keys.len()
            invariant
                self.wf(),
                i <= self.keys@.len(),
                out@.len() == i,
                forall|p: int| 0 <= p < i ==> (#[trigger] out@[p])@ == self.keys@[p]@,
            decreases self.keys@.len() - i,
        {
            out.push(self.keys[i].clone());
            i = i + 1;
        }
        proof {
            assert forall|p: int|
                0 <= p < out@.len() implies self@.contains_key((#[trigger] out@[p])@) by {
                lemma_kv_index(self.keys@, self.vals@, p);
            }
            assert forall|k: Seq<char>| self@.contains_key(k) implies exists|p: int|
                0 <= p < out@.len() && (#[trigger] out@[p])@ == k by {
                lemma_kv_contains(self.keys@, self.vals@, k);
                let p = choose|p: int| 0 <= p < self.keys@.len() && (#[trigger] self.keys@[p])@ == k;
                assert(out@[p]@ == k);
            }
        }
        out
    }
}

impl StrMap<String> {
    /// A copy of the entries: every key of the table with its value,
    /// each key exactly once.
    pub fn entries_snapshot(&self) -> (r: Vec<(String, String)>)
        requires
            self.wf(),
        ensures
            forall|i: int|
                0 <= i < r@.len() ==> self@.contains_key((#[trigger] r@[i].0)@) && self@[r@[i].0@]@
                    == r@[i].1@,
            forall|k: Seq<char>|
                self@.contains_key(k) ==> exists|i: int|
                    0 <= i < r@.len() && (#[trigger] r@[i].0)@ == k,
    {
        let mut out: Vec<(String, String)> = Vec::new();
        let mut i: usize = 0;
        while i < self.keys.len()
            invariant
                self.wf(),
                i <= self.keys@.len(),
                out@.len() == i,
                forall|p: int|
                    0 <= p < i ==> (#[trigger] out@[p]).0@ == self.keys@[p]@ && out@[p].1@
                        == self.vals@[p]@,
            decreases self.keys@.len() - i,
        {
            out.push((self.keys[i].clone(), self.vals[i].clone()));
            i = i + 1;
        }
        proof {
            assert forall|p: int|
                0 <= p < out@.len() implies self@.contains_key((#[trigger] out@[p]).0@)
                && self@.index(out@[p].0@)@ == out@[p].1@ by {
                lemma_kv_index(self.keys@, self.vals@, p);
            }
            assert forall|k: Seq<char>| self@.contains_key(k) implies exists|p: int|
                0 <= p < out@.len() && (#[trigger] out@[p]).0@ == k by {
                lemma_kv_contains(self.keys@, self.vals@, k);
                let p = choose|p: int| 0 <= p < self.keys@.len() && (#[trigger] self.keys@[p])@ == k;
                assert(out@[p].0@ == k);
            }
        }
        out
    }
}

// ------------------------------------------------------------------
// String sets
// ------------------------------------------------------------------

/// A set of strings, by content.
pub struct StrSet {
    inner: StrMap<()>,
}

impl View for StrSet {
    type V = Set<Seq<char>>;

    closed spec fn view(&self) -> Set<Seq<char>> {
        self.inner@.dom()
    }
}

impl StrSet {
    pub closed spec fn wf(self) -> bool {
        self.inner.wf()
    }

    pub fn new() -> (r: Self)
        ensures
            r.wf(),
            r@ == Set::<Seq<char>>::empty(),
    {
        let r = StrSet { inner: StrMap::new() };
        proof {
            assert(r@ =~= Set::<Seq<char>>::empty());
        }
        r
    }

    pub fn contains(&self, key: &str) -> (r: bool)
        requires
            self.wf(),
        ensures
            r == self@.contains(key@),
    {
        self.inner.contains(key)
    }

    pub fn insert(&mut self, key: String)
        requires
            old(self).wf(),
        ensures
            final(self).wf(),
            final(self)@ == old(self)@.insert(key@),
    {
        self.inner.insert(key, ());
        proof {
            assert(final(self)@ =~= old(self)@.insert(key@));
        }
    }

    pub fn remove(&mut self, key: &str) -> (r: bool)
        requires
            old(self).wf(),
        ensures
            final(self).wf(),
            final(self)@ == old(self)@.remove(key@),
            r == old(self)@.contains(key@),
    {
        let v = self.inner.remove(key);
        proof {
            assert(final(self)@ =~= old(self)@.remove(key@));
        }
        match v {
            Some(_) => true,
            None => false,
        }
    }

    pub fn len(&self) -> (r: usize)
        requires
            self.wf(),
        ensures
            self@.finite(),
            r == self@.len(),
    {
        self.inner.len()
    }

    pub fn is_empty(&self) -> (r: bool)
        requires
            self.wf(),
        ensures
            r == (self@ == Set::<Seq<char>>::empty()),
    {
        let r = self.inner.is_empty();
        proof {
            if self.inner@ == Map::<Seq<char>, ()>::empty() {
                assert(self@ =~= Set::<Seq<char>>::empty());
            } else {
                if self@ == Set::<Seq<char>>::empty() {
                    assert(self.inner@ =~= Map::<Seq<char>, ()>::empty());
                }
            }
        }
        r
    }

    /// A copy of the members: every member of the set, each exactly once.
    pub fn snapshot(&self) -> (r: Vec<String>)
        requires
            self.wf(),
        ensures
            forall|i: int| 0 <= i < r@.len() ==> self@.contains((#[trigger] r@[i])@),
            forall|k: Seq<char>|
                self@.contains(k) ==> exists|i: int| 0 <= i < r@.len() && (#[trigger] r@[i])@ == k,
    {
        self.inner.keys_snapshot()
    }
}

} // verus!
