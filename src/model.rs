//! The mathematical model of an LRU cache: a capacity, the resident
//! associations, and the order in which the resident keys were last touched.

use vstd::prelude::*;

verus! {

/// The keys of a sequence of key-value pairs, in the same order.
pub open spec fn keys_of<K, T>(items: Seq<(K, T)>) -> Seq<K> {
    items.map_values(|e: (K, T)| e.0)
}

/// Abstract state of an LRU cache.
#[verifier::reject_recursive_types(K)]
pub ghost struct LruState<K, T> {
    /// Maximum number of resident entries.
    pub capacity: nat,
    /// Resident keys, least-recently touched first.
    pub recency: Seq<K>,
    /// Resident associations.
    pub entries: Map<K, T>,
}

impl<K, T> LruState<K, T> {
    /// The empty cache of a given capacity.
    pub open spec fn empty(capacity: nat) -> Self {
        LruState { capacity, recency: Seq::empty(), entries: Map::empty() }
    }

    /// The recency order and the associations hold the same keys, each key
    /// once, and no more of them than the capacity.
    pub open spec fn wf(self) -> bool {
        &&& self.recency.no_duplicates()
        &&& forall|k: K| self.entries.contains_key(k) <==> #[trigger] self.recency.contains(k)
        &&& self.recency.len() <= self.capacity
        &&& self.entries.dom().finite()
    }

    /// Number of resident entries.
    pub open spec fn occupancy(self) -> nat {
        self.recency.len()
    }

    /// What a lookup of `key` finds.
    pub open spec fn lookup(self, key: K) -> Option<T> {
        if self.entries.contains_key(key) {
            Some(self.entries[key])
        } else {
            None
        }
    }

    /// The recency order with `key` moved to the most-recently-used end.
    pub open spec fn touch(self, key: K) -> Seq<K> {
        self.recency.remove(self.recency.index_of(key)).push(key)
    }

    /// The key that an insertion of a new key would evict from a full cache.
    pub open spec fn eviction_candidate(self) -> K {
        self.recency[0]
    }

    /// State after `set(key, value)`.
    ///
    /// A resident key gets the new value and becomes most recently used. A
    /// new key is appended as most recently used, after the least-recently
    /// used entry has been evicted if the cache is full. With capacity zero
    /// nothing is stored.
    pub open spec fn after_set(self, key: K, value: T) -> Self {
        if self.entries.contains_key(key) {
            LruState {
                capacity: self.capacity,
                recency: self.touch(key),
                entries: self.entries.insert(key, value),
            }
        } else if self.capacity == 0 {
            self
        } else if self.recency.len() >= self.capacity {
            LruState {
                capacity: self.capacity,
                recency: self.recency.drop_first().push(key),
                entries: self.entries.remove(self.eviction_candidate()).insert(key, value),
            }
        } else {
            LruState {
                capacity: self.capacity,
                recency: self.recency.push(key),
                entries: self.entries.insert(key, value),
            }
        }
    }

    /// State after `set` of each pair of `ops`, in order.
    pub open spec fn after_sets(self, ops: Seq<(K, T)>) -> Self
        decreases ops.len(),
    {
        if ops.len() == 0 {
            self
        } else {
            self.after_sets(ops.drop_last()).after_set(ops.last().0, ops.last().1)
        }
    }

    /// State after `get(key)`: a resident key becomes most recently used;
    /// a miss changes nothing.
    pub open spec fn after_get(self, key: K) -> Self {
        if self.entries.contains_key(key) {
            LruState { recency: self.touch(key), ..self }
        } else {
            self
        }
    }
}

/// Moving a resident key to the most-recently-used end takes it out of the
/// one place where it stands and keeps the other keys, each once.
pub proof fn lemma_touch<K, T>(m: LruState<K, T>, key: K)
    requires
        m.wf(),
        m.entries.contains_key(key),
    ensures
        forall|i: int|
            0 <= i < m.recency.len() && #[trigger] m.recency[i] == key ==> m.touch(key)
                == m.recency.remove(i).push(key),
        m.touch(key).no_duplicates(),
        m.touch(key).len() == m.recency.len(),
        m.touch(key).last() == key,
        forall|k: K| #[trigger] m.touch(key).contains(k) <==> m.recency.contains(k),
{
    let r = m.recency;
    assert(r.contains(key));
    let i = r.index_of(key);
    let t = m.touch(key);
    assert(r[i] == key);
    assert forall|j: int| 0 <= j < r.len() && #[trigger] r[j] == key implies j == i by {}
    assert forall|p: int, q: int| 0 <= p < t.len() && 0 <= q < t.len() && p != q implies t[p]
        != t[q] by {
        let p0 = if p == t.len() - 1 { i } else if p < i { p } else { p + 1 };
        let q0 = if q == t.len() - 1 { i } else if q < i { q } else { q + 1 };
        assert(t[p] == r[p0] && t[q] == r[q0]);
    }
    assert forall|k: K| #[trigger] t.contains(k) <==> r.contains(k) by {
        if t.contains(k) {
            let p = choose|p: int| 0 <= p < t.len() && t[p] == k;
            let p0 = if p == t.len() - 1 { i } else if p < i { p } else { p + 1 };
            assert(r[p0] == k);
        }
        if r.contains(k) {
            let p0 = choose|p0: int| 0 <= p0 < r.len() && r[p0] == k;
            let p = if p0 == i { t.len() - 1 } else if p0 < i { p0 } else { p0 - 1 };
            assert(t[p] == k);
        }
    }
}

/// `set` keeps the cache well formed and its capacity fixed.
pub proof fn lemma_set_wf<K, T>(m: LruState<K, T>, key: K, value: T)
    requires
        m.wf(),
    ensures
        m.after_set(key, value).wf(),
        m.after_set(key, value).capacity == m.capacity,
{
    let n = m.after_set(key, value);
    if m.entries.contains_key(key) {
        lemma_touch(m, key);
    } else if m.capacity == 0 {
    } else if m.recency.len() >= m.capacity {
        let r = m.recency;
        let d = r.drop_first();
        assert(n.recency == d.push(key));
        assert(!r.contains(key));
        assert forall|k: K| #[trigger] n.recency.contains(k) <==> (k == key || (r.contains(k) && k
            != r[0])) by {
            if n.recency.contains(k) && k != key {
                let p = choose|p: int| 0 <= p < n.recency.len() && n.recency[p] == k;
                assert(r[p + 1] == k);
            }
            if r.contains(k) && k != r[0] {
                let p = choose|p: int| 0 <= p < r.len() && r[p] == k;
                assert(n.recency[p - 1] == k);
            }
            if k == key {
                assert(n.recency[n.recency.len() - 1] == k);
            }
        }
        assert forall|p: int, q: int|
            0 <= p < n.recency.len() && 0 <= q < n.recency.len() && p != q implies n.recency[p]
            != n.recency[q] by {
            if p < d.len() && q < d.len() {
                assert(n.recency[p] == r[p + 1] && n.recency[q] == r[q + 1]);
            } else if p < d.len() {
                assert(r.contains(n.recency[p]));
            } else {
                assert(r.contains(n.recency[q]));
            }
        }
    } else {
        let r = m.recency;
        assert(!r.contains(key));
        assert forall|k: K| #[trigger] n.recency.contains(k) <==> (k == key || r.contains(k)) by {
            if n.recency.contains(k) && k != key {
                let p = choose|p: int| 0 <= p < n.recency.len() && n.recency[p] == k;
                assert(r[p] == k);
            }
            if r.contains(k) {
                let p = choose|p: int| 0 <= p < r.len() && r[p] == k;
                assert(n.recency[p] == k);
            }
            if k == key {
                assert(n.recency[n.recency.len() - 1] == k);
            }
        }
        assert forall|p: int, q: int|
            0 <= p < n.recency.len() && 0 <= q < n.recency.len() && p != q implies n.recency[p]
            != n.recency[q] by {
            if p == r.len() {
                assert(r.contains(n.recency[q]));
            } else if q == r.len() {
                assert(r.contains(n.recency[p]));
            }
        }
    }
}

/// After any sequence of `set` calls the cache is well formed, so it never
/// holds more entries than its capacity.
pub proof fn lemma_capacity_bound<K, T>(m: LruState<K, T>, ops: Seq<(K, T)>)
    requires
        m.wf(),
    ensures
        m.after_sets(ops).wf(),
        m.after_sets(ops).capacity == m.capacity,
        m.after_sets(ops).occupancy() <= m.capacity,
    decreases ops.len(),
{
    if ops.len() > 0 {
        lemma_capacity_bound(m, ops.drop_last());
        lemma_set_wf(m.after_sets(ops.drop_last()), ops.last().0, ops.last().1);
    }
}

/// After `set(key, value)` a lookup of `key` finds `value`, and a later `set`
/// of another key that does not evict `key` leaves that value in place.
pub proof fn lemma_update_returns_latest<K, T>(
    m: LruState<K, T>,
    key: K,
    value: T,
    other: K,
    other_value: T,
)
    requires
        m.wf(),
        m.capacity > 0,
    ensures
        m.after_set(key, value).lookup(key) == Some(value),
        other != key && m.after_set(key, value).after_set(other, other_value).entries.contains_key(
            key,
        ) ==> m.after_set(key, value).after_set(other, other_value).lookup(key) == Some(value),
{
}

/// `set` on a resident key neither changes the occupancy nor evicts anything.
pub proof fn lemma_update_keeps_occupancy<K, T>(m: LruState<K, T>, key: K, value: T)
    requires
        m.wf(),
        m.entries.contains_key(key),
    ensures
        m.after_set(key, value).occupancy() == m.occupancy(),
        m.after_set(key, value).entries.dom() == m.entries.dom(),
{
    lemma_touch(m, key);
    assert(m.after_set(key, value).entries.dom() =~= m.entries.dom());
}

/// `get` of an absent key finds nothing and leaves the state unchanged.
pub proof fn lemma_miss_is_silent<K, T>(m: LruState<K, T>, key: K)
    requires
        !m.entries.contains_key(key),
    ensures
        m.lookup(key) is None,
        m.after_get(key) == m,
{
}

/// A key read by `get` becomes the most recently used, so a following `set`
/// does not evict it while any other key is resident.
pub proof fn lemma_access_protects<K, T>(m: LruState<K, T>, key: K, new_key: K, value: T)
    requires
        m.wf(),
        m.entries.contains_key(key),
    ensures
        m.after_get(key).recency.last() == key,
        m.after_get(key).occupancy() > 1 ==> m.after_get(key).after_set(
            new_key,
            value,
        ).entries.contains_key(key),
{
    lemma_touch(m, key);
    let g = m.after_get(key);
    if g.occupancy() > 1 && !g.entries.contains_key(new_key) && g.capacity > 0
        && g.recency.len() >= g.capacity {
        assert(g.recency[g.recency.len() - 1] == key);
        assert(g.recency[0] != key);
    }
}

/// Filling an empty cache with distinct keys, no more than its capacity,
/// keeps them all in insertion order.
proof fn lemma_fill<K, T>(capacity: nat, ops: Seq<(K, T)>)
    requires
        ops.len() <= capacity,
        keys_of(ops).no_duplicates(),
    ensures
        LruState::<K, T>::empty(capacity).after_sets(ops).wf(),
        LruState::<K, T>::empty(capacity).after_sets(ops).capacity == capacity,
        LruState::<K, T>::empty(capacity).after_sets(ops).recency == keys_of(ops),
        forall|i: int|
            0 <= i < ops.len() ==> #[trigger] LruState::<K, T>::empty(capacity).after_sets(
                ops,
            ).lookup(ops[i].0) == Some(ops[i].1),
    decreases ops.len(),
{
    let e = LruState::<K, T>::empty(capacity);
    if ops.len() > 0 {
        let init = ops.drop_last();
        assert(keys_of(init) =~= keys_of(ops).drop_last());
        lemma_fill(capacity, init);
        let m = e.after_sets(init);
        let last = ops.last();
        assert(keys_of(ops)[ops.len() - 1] == last.0);
        assert(!m.recency.contains(last.0)) by {
            if m.recency.contains(last.0) {
                let p = choose|p: int| 0 <= p < m.recency.len() && m.recency[p] == last.0;
                assert(keys_of(ops)[p] == last.0);
            }
        }
        lemma_set_wf(m, last.0, last.1);
        assert(!m.entries.contains_key(last.0));
        assert(e.after_sets(ops) == m.after_set(last.0, last.1));
        assert(keys_of(ops) =~= keys_of(init).push(last.0));
        assert forall|i: int| 0 <= i < ops.len() implies #[trigger] e.after_sets(ops).lookup(
            ops[i].0,
        ) == Some(ops[i].1) by {
            if i < ops.len() - 1 {
                assert(init[i] == ops[i]);
                assert(m.lookup(init[i].0) == Some(init[i].1));
                assert(keys_of(ops)[i] != keys_of(ops)[ops.len() - 1]);
                assert(keys_of(ops)[i] == ops[i].0);
            } else {
                assert(ops[i] == last);
            }
        }
    }
}

/// Setting `capacity + 1` distinct keys into an empty cache, with no reads,
/// evicts the first key and no other.
pub proof fn lemma_fifo_eviction<K, T>(capacity: nat, ops: Seq<(K, T)>)
    requires
        capacity > 0,
        ops.len() == capacity + 1,
        keys_of(ops).no_duplicates(),
    ensures
        !LruState::<K, T>::empty(capacity).after_sets(ops).entries.contains_key(ops[0].0),
        forall|i: int|
            1 <= i < ops.len() ==> #[trigger] LruState::<K, T>::empty(capacity).after_sets(
                ops,
            ).lookup(ops[i].0) == Some(ops[i].1),
        LruState::<K, T>::empty(capacity).after_sets(ops).recency == keys_of(ops).drop_first(),
{
    let e = LruState::<K, T>::empty(capacity);
    let init = ops.drop_last();
    assert(keys_of(init) =~= keys_of(ops).drop_last());
    lemma_fill(capacity, init);
    let m = e.after_sets(init);
    let last = ops.last();
    assert(keys_of(ops)[ops.len() - 1] == last.0);
    assert(!m.recency.contains(last.0)) by {
        if m.recency.contains(last.0) {
            let p = choose|p: int| 0 <= p < m.recency.len() && m.recency[p] == last.0;
            assert(keys_of(ops)[p] == last.0);
        }
    }
    lemma_set_wf(m, last.0, last.1);
    assert(!m.entries.contains_key(last.0));
    assert(e.after_sets(ops) == m.after_set(last.0, last.1));
    assert(init[0] == ops[0]);
    assert(m.recency[0] == ops[0].0);
    assert(keys_of(ops).drop_first() =~= m.recency.drop_first().push(last.0));
    assert(keys_of(ops)[0] != last.0);
    assert forall|i: int| 1 <= i < ops.len() implies #[trigger] e.after_sets(ops).lookup(ops[i].0)
        == Some(ops[i].1) by {
        if i < ops.len() - 1 {
            assert(init[i] == ops[i]);
            assert(m.lookup(init[i].0) == Some(init[i].1));
            assert(keys_of(ops)[i] != keys_of(ops)[ops.len() - 1]);
            assert(keys_of(ops)[i] != keys_of(ops)[0]);
            assert(keys_of(ops)[i] == ops[i].0);
        } else {
            assert(ops[i] == last);
        }
    }
}

} // verus!
