//! An LRU cache kept as one sequence of entries in recency order: the front
//! entry is the least recently used, the back entry the most recently used.

use vstd::prelude::*;
use vstd::laws_eq::obeys_concrete_eq;
use crate::cache_lru_trait::CacheLruTrait;
use crate::model::{LruState, keys_of};

verus! {

/// The associations held by a sequence of entries whose keys are distinct.
pub open spec fn entries_of<K, T>(items: Seq<(K, T)>) -> Map<K, T> {
    Map::new(
        |k: K| keys_of(items).contains(k),
        |k: K| items[keys_of(items).index_of(k)].1,
    )
}

/// In a sequence without duplicates, the index of an element is where it stands.
proof fn lemma_index_of_unique<K>(s: Seq<K>, j: int)
    requires
        s.no_duplicates(),
        0 <= j < s.len(),
    ensures
        s.index_of(s[j]) == j,
{
    assert(s.contains(s[j]));
}

/// The entry at index `j` is the association that `entries_of` gives its key.
proof fn lemma_entry_at<K, T>(items: Seq<(K, T)>, j: int)
    requires
        keys_of(items).no_duplicates(),
        0 <= j < items.len(),
    ensures
        entries_of(items).contains_key(items[j].0),
        entries_of(items)[items[j].0] == items[j].1,
{
    let ks = keys_of(items);
    assert(ks[j] == items[j].0);
    assert(ks.contains(items[j].0));
    lemma_index_of_unique(ks, j);
}

/// Taking out the entry at index `i` and appending `e`, whose key is not among
/// the others, drops the association of the removed key and adds that of `e`.
proof fn lemma_remove_push<K, T>(a: Seq<(K, T)>, i: int, e: (K, T))
    requires
        keys_of(a).no_duplicates(),
        0 <= i < a.len(),
        !keys_of(a.remove(i)).contains(e.0),
    ensures
        keys_of(a.remove(i).push(e)) == keys_of(a).remove(i).push(e.0),
        keys_of(a.remove(i).push(e)).no_duplicates(),
        entries_of(a.remove(i).push(e)) == entries_of(a).remove(a[i].0).insert(e.0, e.1),
{
    let b = a.remove(i).push(e);
    let ka = keys_of(a);
    let kb = keys_of(b);
    assert(keys_of(a.remove(i)) =~= ka.remove(i));
    assert(kb =~= ka.remove(i).push(e.0));
    assert forall|p: int, q: int| 0 <= p < kb.len() && 0 <= q < kb.len() && p != q implies kb[p]
        != kb[q] by {
        if p < kb.len() - 1 && q < kb.len() - 1 {
            let p0 = if p < i { p } else { p + 1 };
            let q0 = if q < i { q } else { q + 1 };
            assert(kb[p] == ka[p0] && kb[q] == ka[q0]);
        } else if p < kb.len() - 1 {
            assert(ka.remove(i).contains(kb[p]));
        } else {
            assert(ka.remove(i).contains(kb[q]));
        }
    }
    let target = entries_of(a).remove(a[i].0).insert(e.0, e.1);
    assert forall|k: K| #[trigger] entries_of(b).contains_key(k) <==> target.contains_key(k) by {
        if entries_of(b).contains_key(k) && k != e.0 {
            let j = kb.index_of(k);
            let j0 = if j < i { j } else { j + 1 };
            assert(ka[j0] == k);
            assert(ka.contains(k));
            if k == a[i].0 {
                assert(ka[i] == k);
            }
        }
        if target.contains_key(k) && k != e.0 {
            let j0 = ka.index_of(k);
            assert(j0 != i);
            let j = if j0 < i { j0 } else { j0 - 1 };
            assert(kb[j] == k);
        }
        if k == e.0 {
            assert(kb[kb.len() - 1] == k);
        }
    }
    assert forall|k: K| #[trigger] target.contains_key(k) implies entries_of(b)[k] == target[k] by {
        if k == e.0 {
            lemma_entry_at(b, b.len() - 1);
        } else {
            let j0 = ka.index_of(k);
            lemma_entry_at(a, j0);
            assert(j0 != i);
            let j = if j0 < i { j0 } else { j0 - 1 };
            assert(b[j] == a[j0]);
            lemma_entry_at(b, j);
        }
    }
    assert(entries_of(b) =~= target);
}

/// Appending an entry with a new key adds its association.
proof fn lemma_push<K, T>(a: Seq<(K, T)>, e: (K, T))
    requires
        keys_of(a).no_duplicates(),
        !keys_of(a).contains(e.0),
    ensures
        keys_of(a.push(e)) == keys_of(a).push(e.0),
        keys_of(a.push(e)).no_duplicates(),
        entries_of(a.push(e)) == entries_of(a).insert(e.0, e.1),
{
    let b = a.push(e);
    let ka = keys_of(a);
    let kb = keys_of(b);
    assert(kb =~= ka.push(e.0));
    assert forall|p: int, q: int| 0 <= p < kb.len() && 0 <= q < kb.len() && p != q implies kb[p]
        != kb[q] by {
        if p == kb.len() - 1 {
            assert(ka.contains(kb[q]));
        } else if q == kb.len() - 1 {
            assert(ka.contains(kb[p]));
        }
    }
    let target = entries_of(a).insert(e.0, e.1);
    assert forall|k: K| #[trigger] entries_of(b).contains_key(k) <==> target.contains_key(k) by {
        if entries_of(b).contains_key(k) && k != e.0 {
            let j = kb.index_of(k);
            assert(ka[j] == k);
        }
        if target.contains_key(k) && k != e.0 {
            let j = ka.index_of(k);
            assert(kb[j] == k);
        }
        if k == e.0 {
            assert(kb[kb.len() - 1] == k);
        }
    }
    assert forall|k: K| #[trigger] target.contains_key(k) implies entries_of(b)[k] == target[k] by {
        if k == e.0 {
            lemma_entry_at(b, b.len() - 1);
        } else {
            let j = ka.index_of(k);
            lemma_entry_at(a, j);
            assert(b[j] == a[j]);
            lemma_entry_at(b, j);
        }
    }
    assert(entries_of(b) =~= target);
}

/// A cache that holds at most `max_size` entries and evicts the least
/// recently used one to make room for a new key.
pub struct CacheLru<K, T> {
    max_size: usize,
    /// Resident entries, least recently used first.
    items: Vec<(K, T)>,
}

impl<K: Eq, T> CacheLru<K, T> {
    /// Creates an empty cache that holds at most `max_size` entries.
    ///
    /// With `max_size` zero the cache stores nothing: every `set` is a no-op.
    /// The key type's `==` must be the equality of its values.
    pub fn new(max_size: usize) -> (r: Self)
        requires
            obeys_concrete_eq::<K>(),
        ensures
            r.inv(),
            r.model() == LruState::<K, T>::empty(max_size as nat),
    {
        let r = CacheLru { max_size, items: Vec::new() };
        proof {
            assert(keys_of(r.items@) =~= Seq::<K>::empty());
            assert(entries_of(r.items@) =~= Map::<K, T>::empty());
        }
        r
    }

    /// Number of resident entries.
    pub fn len(&self) -> (r: usize)
        ensures
            r == self.model().occupancy(),
    {
        self.items.len()
    }

    /// Index of the entry whose key is `key`, if there is one.
    fn position(&self, key: &K) -> (r: Option<usize>)
        requires
            self.inv(),
        ensures
            match r {
                Some(i) => i < self.items@.len() && self.items@[i as int].0 == *key,
                None => !keys_of(self.items@).contains(*key),
            },
    {
        let mut i: usize = 0;
        while i < self.items.len()
            invariant
                i <= self.items@.len(),
                obeys_concrete_eq::<K>(),
                forall|j: int| 0 <= j < i ==> self.items@[j].0 != *key,
            decreases self.items@.len() - i,
        {
            proof {
                reveal(obeys_concrete_eq);
            }
            if self.items[i].0 == *key {
                return Some(i);
            }
            i = i + 1;
        }
        proof {
            if keys_of(self.items@).contains(*key) {
                let j = choose|j: int| 0 <= j < self.items@.len() && keys_of(self.items@)[j] == *key;
                assert(self.items@[j].0 == *key);
            }
        }
        None
    }

    /// The representation invariant makes the model well formed.
    proof fn lemma_inv_wf(&self)
        requires
            self.inv(),
        ensures
            self.model().wf(),
    {
        let m = self.model();
        assert(m.recency.len() == self.items@.len());
        assert forall|k: K| m.entries.contains_key(k) <==> #[trigger] m.recency.contains(k) by {}
        assert(m.entries.dom() =~= m.recency.to_set());
        vstd::seq_lib::seq_to_set_is_finite(m.recency);
    }
}

impl<K: Eq, T> CacheLruTrait<K, T> for CacheLru<K, T> {
    closed spec fn model(&self) -> LruState<K, T> {
        LruState {
            capacity: self.max_size as nat,
            recency: keys_of(self.items@),
            entries: entries_of(self.items@),
        }
    }

    closed spec fn inv(&self) -> bool {
        &&& obeys_concrete_eq::<K>()
        &&& keys_of(self.items@).no_duplicates()
        &&& self.items@.len() <= self.max_size
    }

    fn set(&mut self, key: K, value: T) {
        let ghost a = self.items@;
        match self.position(&key) {
            Some(i) => {
                proof {
                    lemma_index_of_unique(keys_of(a), i as int);
                    assert(keys_of(a)[i as int] == key);
                    assert(!keys_of(a.remove(i as int)).contains(key)) by {
                        if keys_of(a.remove(i as int)).contains(key) {
                            let j = choose|j: int|
                                0 <= j < a.len() - 1 && keys_of(a.remove(i as int))[j] == key;
                            let j0 = if j < i { j } else { j + 1 };
                            assert(keys_of(a)[j0] == key);
                        }
                    }
                    lemma_remove_push(a, i as int, (key, value));
                    assert(entries_of(a).remove(key).insert(key, value) =~= entries_of(a).insert(
                        key,
                        value,
                    ));
                }
                self.items.remove(i);
                self.items.push((key, value));
            },
            None => {
                if self.max_size == 0 {
                    proof {
                        self.lemma_inv_wf();
                    }
                    return ;
                }
                if self.items.len() >= self.max_size {
                    proof {
                        assert(!keys_of(a.remove(0)).contains(key)) by {
                            if keys_of(a.remove(0)).contains(key) {
                                let j = choose|j: int|
                                    0 <= j < a.len() - 1 && keys_of(a.remove(0))[j] == key;
                                assert(keys_of(a)[j + 1] == key);
                            }
                        }
                        lemma_remove_push(a, 0, (key, value));
                        assert(keys_of(a).remove(0) =~= keys_of(a).drop_first());
                    }
                    self.items.remove(0);
                } else {
                    proof {
                        lemma_push(a, (key, value));
                    }
                }
                self.items.push((key, value));
            },
        }
        proof {
            self.lemma_inv_wf();
        }
    }

    fn get(&mut self, key: K) -> (r: Option<&T>) {
        let ghost a = self.items@;
        match self.position(&key) {
            None => {
                proof {
                    self.lemma_inv_wf();
                }
                None
            },
            Some(i) => {
                proof {
                    let e = a[i as int];
                    lemma_index_of_unique(keys_of(a), i as int);
                    assert(keys_of(a)[i as int] == key);
                    assert(!keys_of(a.remove(i as int)).contains(key)) by {
                        if keys_of(a.remove(i as int)).contains(key) {
                            let j = choose|j: int|
                                0 <= j < a.len() - 1 && keys_of(a.remove(i as int))[j] == key;
                            let j0 = if j < i { j } else { j + 1 };
                            assert(keys_of(a)[j0] == key);
                        }
                    }
                    lemma_remove_push(a, i as int, e);
                    lemma_entry_at(a, i as int);
                    assert(entries_of(a).remove(key).insert(key, e.1) =~= entries_of(a));
                }
                let e = self.items.remove(i);
                self.items.push(e);
                proof {
                    self.lemma_inv_wf();
                }
                let last = self.items.len() - 1;
                Some(&self.items[last].1)
            },
        }
    }
}

} // verus!
