//! Keyed storage for topological elements.
//!
//! Every element of the graph lives in a centrally owned store and is
//! referred to by a small copyable key, so that the cyclic `next` /
//! `opposite` / `face` relationships never need owning pointers. A store is
//! an association list with pairwise-distinct keys; its abstract value is a
//! `Map` from keys to records.

use vstd::prelude::*;

verus! {

/// Key of a vertex record.
pub type VertexKey = u64;

/// Key of a face record.
pub type FaceKey = u64;

/// Key of a directed (half-) edge: exactly the ordered pair of its source
/// and destination vertex keys, so any directed edge can be looked up
/// deterministically without a separate index.
#[derive(Clone, Copy, PartialEq, Eq, Structural, Hash, Debug)]
pub struct EdgeKey {
    pub source: VertexKey,
    pub destination: VertexKey,
}

impl EdgeKey {
    /// Key of the edge directed from `source` to `destination`.
    pub fn new(source: VertexKey, destination: VertexKey) -> (r: EdgeKey)
        ensures
            r == (EdgeKey { source, destination }),
    {
        EdgeKey { source, destination }
    }

    /// Key of the antiparallel edge, with the endpoints swapped.
    pub open spec fn spec_reversed(self) -> EdgeKey {
        EdgeKey { source: self.destination, destination: self.source }
    }

    /// Key of the antiparallel edge, with the endpoints swapped.
    #[verifier::when_used_as_spec(spec_reversed)]
    pub fn reversed(self) -> (r: EdgeKey)
        ensures
            r == self.spec_reversed(),
    {
        EdgeKey { source: self.destination, destination: self.source }
    }
}

/// The map held by an association list: a later entry shadows an earlier
/// one with the same key, though stores never contain such a pair.
pub open spec fn assoc_map<K, V>(s: Seq<(K, V)>) -> Map<K, V>
    decreases s.len(),
{
    if s.len() == 0 {
        Map::empty()
    } else {
        assoc_map(s.drop_last()).insert(s.last().0, s.last().1)
    }
}

/// All keys of the association list are pairwise distinct.
pub open spec fn distinct_keys<K, V>(s: Seq<(K, V)>) -> bool {
    forall|i: int, j: int|
        #![trigger s[i].0, s[j].0]
        0 <= i < j < s.len() ==> s[i].0 != s[j].0
}

proof fn lemma_assoc_contains<K, V>(s: Seq<(K, V)>, k: K)
    ensures
        assoc_map(s).dom().contains(k) <==> exists|i: int|
            0 <= i < s.len() && s[i].0 == k,
    decreases s.len(),
{
    if s.len() > 0 {
        lemma_assoc_contains(s.drop_last(), k);
        if s.last().0 == k {
            assert(s[s.len() - 1].0 == k);
        } else if assoc_map(s).dom().contains(k) {
            let i = choose|i: int| 0 <= i < s.drop_last().len() && s.drop_last()[i].0 == k;
            assert(s[i].0 == k);
        } else if exists|i: int| 0 <= i < s.len() && s[i].0 == k {
            let i = choose|i: int| 0 <= i < s.len() && s[i].0 == k;
            assert(s.drop_last()[i].0 == k);
        }
    }
}

proof fn lemma_assoc_index<K, V>(s: Seq<(K, V)>, i: int)
    requires
        distinct_keys(s),
        0 <= i < s.len(),
    ensures
        assoc_map(s).dom().contains(s[i].0),
        assoc_map(s)[s[i].0] == s[i].1,
    decreases s.len(),
{
    if i < s.len() - 1 {
        lemma_assoc_index(s.drop_last(), i);
        assert(s.drop_last()[i] == s[i]);
        assert(s.last().0 != s[i].0);
    }
}

proof fn lemma_assoc_len<K, V>(s: Seq<(K, V)>)
    requires
        distinct_keys(s),
    ensures
        assoc_map(s).dom().finite(),
        assoc_map(s).dom().len() == s.len(),
    decreases s.len(),
{
    if s.len() > 0 {
        assert(distinct_keys(s.drop_last())) by {
            assert(forall|i: int, j: int|
                #![trigger s.drop_last()[i].0, s.drop_last()[j].0]
                0 <= i < j < s.drop_last().len() ==> s.drop_last()[i].0 == s[i].0
                    && s.drop_last()[j].0 == s[j].0);
        }
        lemma_assoc_len(s.drop_last());
        lemma_assoc_contains(s.drop_last(), s.last().0);
        assert(!assoc_map(s.drop_last()).dom().contains(s.last().0)) by {
            if exists|i: int| 0 <= i < s.drop_last().len() && s.drop_last()[i].0 == s.last().0 {
                let i = choose|i: int|
                    0 <= i < s.drop_last().len() && s.drop_last()[i].0 == s.last().0;
                assert(s[i].0 == s[s.len() - 1].0);
            }
        }
    }
}

proof fn lemma_assoc_distinct_prefix<K, V>(s: Seq<(K, V)>)
    requires
        distinct_keys(s),
        s.len() > 0,
    ensures
        distinct_keys(s.drop_last()),
{
    assert(forall|i: int| 0 <= i < s.len() - 1 ==> #[trigger] s.drop_last()[i] == s[i]);
}

proof fn lemma_assoc_update<K, V>(s: Seq<(K, V)>, i: int)
    requires
        distinct_keys(s),
        0 <= i < s.len(),
    ensures
        forall|v: V|
            #![trigger s.update(i, (s[i].0, v))]
            assoc_map(s.update(i, (s[i].0, v))) == assoc_map(s).insert(s[i].0, v),
    decreases s.len(),
{
    assert forall|v: V|
        #![trigger s.update(i, (s[i].0, v))]
        assoc_map(s.update(i, (s[i].0, v))) == assoc_map(s).insert(s[i].0, v) by {
        let t = s.update(i, (s[i].0, v));
        if i == s.len() - 1 {
            assert(t.drop_last() =~= s.drop_last());
            assert(t.last() == (s[i].0, v));
            assert(assoc_map(t) =~= assoc_map(s).insert(s[i].0, v));
        } else {
            lemma_assoc_distinct_prefix(s);
            lemma_assoc_update(s.drop_last(), i);
            assert(t.drop_last() =~= s.drop_last().update(i, (s[i].0, v)));
            assert(s.drop_last()[i] == s[i]);
            assert(t.last() == s.last());
            assert(s.last().0 != s[i].0);
            assert(assoc_map(t) =~= assoc_map(s).insert(s[i].0, v));
        }
    }
}

proof fn lemma_assoc_remove<K, V>(s: Seq<(K, V)>, i: int)
    requires
        distinct_keys(s),
        0 <= i < s.len(),
    ensures
        assoc_map(s.remove(i)) == assoc_map(s).remove(s[i].0),
        distinct_keys(s.remove(i)),
    decreases s.len(),
{
    let t = s.remove(i);
    assert(forall|j: int|
        0 <= j < t.len() ==> #[trigger] t[j] == (if j < i {
            s[j]
        } else {
            s[j + 1]
        }));
    assert(distinct_keys(t));
    if i == s.len() - 1 {
        assert(t =~= s.drop_last());
        lemma_assoc_contains(t, s[i].0);
        assert(!assoc_map(t).dom().contains(s[i].0)) by {
            if exists|j: int| 0 <= j < t.len() && t[j].0 == s[i].0 {
                let j = choose|j: int| 0 <= j < t.len() && t[j].0 == s[i].0;
                assert(s[j].0 == s[i].0);
            }
        }
        assert(assoc_map(t) =~= assoc_map(s).remove(s[i].0));
    } else {
        lemma_assoc_distinct_prefix(s);
        lemma_assoc_remove(s.drop_last(), i);
        assert(t.drop_last() =~= s.drop_last().remove(i));
        assert(s.drop_last()[i] == s[i]);
        assert(t.last() == s.last());
        assert(s.last().0 != s[i].0);
        assert(assoc_map(t) =~= assoc_map(s).remove(s[i].0));
    }
}

proof fn lemma_assoc_push<K, V>(s: Seq<(K, V)>, k: K, v: V)
    ensures
        assoc_map(s.push((k, v))) == assoc_map(s).insert(k, v),
{
    assert(s.push((k, v)).drop_last() =~= s);
    assert(s.push((k, v)).last() == (k, v));
}

/// Keyed storage whose keys are generated by an internal counter, used for
/// vertex and face records. Keys are never reused, even after removals.
pub struct Storage<V> {
    entries: Vec<(u64, V)>,
    next_key: u64,
}

impl<V> View for Storage<V> {
    type V = Map<u64, V>;

    closed spec fn view(&self) -> Map<u64, V> {
        assoc_map(self.entries@)
    }
}

impl<V> Storage<V> {
    /// Keys are pairwise distinct and lie below the generator's cursor.
    pub closed spec fn inv(self) -> bool {
        &&& distinct_keys(self.entries@)
        &&& forall|i: int|
            0 <= i < self.entries@.len() ==> #[trigger] self.entries@[i].0 < self.next_key
    }

    /// The key the generator hands out next.
    pub closed spec fn key_cursor(self) -> u64 {
        self.next_key
    }

    pub fn new() -> (r: Self)
        ensures
            r.inv(),
            r@ == Map::<u64, V>::empty(),
            r.key_cursor() == 0,
    {
        Storage { entries: Vec::new(), next_key: 0 }
    }

    /// The generator can still hand out a fresh key.
    pub fn has_key_capacity(&self) -> (r: bool)
        ensures
            r == (self.key_cursor() < u64::MAX),
    {
        self.next_key < u64::MAX
    }

    /// The store holds finitely many records.
    pub proof fn lemma_finite(self)
        requires
            self.inv(),
        ensures
            self@.dom().finite(),
    {
        lemma_assoc_len(self.entries@);
    }

    pub fn len(&self) -> (r: usize)
        requires
            self.inv(),
        ensures
            r == self@.dom().len(),
    {
        proof {
            lemma_assoc_len(self.entries@);
        }
        self.entries.len()
    }

    pub fn contains_key(&self, key: u64) -> (r: bool)
        ensures
            r == self@.dom().contains(key),
    {
        let n: usize = self.entries.len();
        let mut i: usize = 0;
        while i < n
            invariant
                n == self.entries@.len(),
                0 <= i <= n,
                forall|j: int| 0 <= j < i ==> #[trigger] self.entries@[j].0 != key,
            decreases n - i,
        {
            if self.entries[i].0 == key {
                proof {
                    lemma_assoc_contains(self.entries@, key);
                }
                return true;
            }
            i = i + 1;
        }
        proof {
            lemma_assoc_contains(self.entries@, key);
        }
        false
    }

    pub fn get(&self, key: u64) -> (r: Option<&V>)
        requires
            self.inv(),
        ensures
            match r {
                Some(v) => self@.dom().contains(key) && *v == self@[key],
                None => !self@.dom().contains(key),
            },
    {
        let n: usize = self.entries.len();
        let mut i: usize = 0;
        while i < n
            invariant
                self.inv(),
                n == self.entries@.len(),
                0 <= i <= n,
                forall|j: int| 0 <= j < i ==> #[trigger] self.entries@[j].0 != key,
            decreases n - i,
        {
            if self.entries[i].0 == key {
                proof {
                    lemma_assoc_index(self.entries@, i as int);
                }
                return Some(&self.entries[i].1);
            }
            i = i + 1;
        }
        proof {
            lemma_assoc_contains(self.entries@, key);
        }
        None
    }

    /// Inserts the record under a fresh generated key and returns that key.
    pub fn insert_with_generator(&mut self, value: V) -> (r: u64)
        requires
            old(self).inv(),
            old(self).key_cursor() < u64::MAX,
        ensures
            final(self).inv(),
            r == old(self).key_cursor(),
            !old(self)@.dom().contains(r),
            final(self)@ == old(self)@.insert(r, value),
            final(self).key_cursor() == old(self).key_cursor() + 1,
    {
        let key: u64 = self.next_key;
        proof {
            lemma_assoc_contains(self.entries@, key);
            lemma_assoc_push(self.entries@, key, value);
        }
        self.next_key = self.next_key + 1;
        self.entries.push((key, value));
        key
    }

    /// Removes the record stored under `key`, if any.
    pub fn remove(&mut self, key: u64) -> (r: Option<V>)
        requires
            old(self).inv(),
        ensures
            final(self).inv(),
            final(self)@ == old(self)@.remove(key),
            final(self).key_cursor() == old(self).key_cursor(),
            r == if old(self)@.dom().contains(key) {
                Some(old(self)@[key])
            } else {
                None::<V>
            },
    {
        let n: usize = self.entries.len();
        let mut i: usize = 0;
        while i < n
            invariant
                self == old(self),
                self.inv(),
                n == self.entries@.len(),
                0 <= i <= n,
                forall|j: int| 0 <= j < i ==> #[trigger] self.entries@[j].0 != key,
            decreases n - i,
        {
            if self.entries[i].0 == key {
                proof {
                    lemma_assoc_index(self.entries@, i as int);
                    lemma_assoc_remove(self.entries@, i as int);
                }
                let entry = self.entries.remove(i);
                proof {
                    assert(forall|j: int|
                        0 <= j < self.entries@.len() ==> #[trigger] self.entries@[j] == (if j
                            < i {
                            old(self).entries@[j]
                        } else {
                            old(self).entries@[j + 1]
                        }));
                }
                return Some(entry.1);
            }
            i = i + 1;
        }
        proof {
            lemma_assoc_contains(self.entries@, key);
            assert(self@.remove(key) =~= self@);
        }
        None
    }

    /// Grants mutable access to the record stored under `key`.
    pub fn value_mut(&mut self, key: u64) -> (r: &mut V)
        requires
            old(self).inv(),
            old(self)@.dom().contains(key),
        ensures
            *r == old(self)@[key],
            final(self)@ == old(self)@.insert(key, *final(r)),
            final(self).inv(),
            final(self).key_cursor() == old(self).key_cursor(),
    {
        let n: usize = self.entries.len();
        let mut i: usize = 0;
        proof {
            lemma_assoc_contains(self.entries@, key);
        }
        while i < n
            invariant
                old(self) == self,
                self.inv(),
                self@.dom().contains(key),
                n == self.entries@.len(),
                0 <= i <= n,
                exists|j: int| i <= j < n && #[trigger] self.entries@[j].0 == key,
            decreases n - i,
        {
            if self.entries[i].0 == key {
                proof {
                    lemma_assoc_index(self.entries@, i as int);
                    lemma_assoc_update(self.entries@, i as int);
                }
                let entry = &mut self.entries[i];
                return &mut entry.1;
            }
            i = i + 1;
        }
        proof {
            assert(false);
        }
        unreached()
    }

    /// Rebuilds the store with every record transformed by `f`, keeping
    /// every key (and the generator's cursor) unchanged.
    pub fn map_values<W, F: Fn(V) -> W>(self, f: F) -> (r: Storage<W>)
        requires
            self.inv(),
            forall|v: V| #[trigger] call_requires(f, (v,)),
        ensures
            r.inv(),
            r@.dom() == self@.dom(),
            forall|k: u64| #[trigger]
                self@.dom().contains(k) ==> call_ensures(f, (self@[k],), r@[k]),
            r.key_cursor() == self.key_cursor(),
    {
        let ghost orig = self.entries@;
        let ghost cursor = self.next_key;
        let Storage { mut entries, next_key } = self;
        let mut out: Vec<(u64, W)> = Vec::new();
        while entries.len() > 0
            invariant
                entries@ =~= orig.skip(out@.len() as int),
                out@.len() <= orig.len(),
                forall|j: int|
                    0 <= j < out@.len() ==> #[trigger] out@[j].0 == orig[j].0 && call_ensures(
                        f,
                        (orig[j].1,),
                        out@[j].1,
                    ),
                forall|v: V| #[trigger] call_requires(f, (v,)),
            decreases entries@.len(),
        {
            let ghost done = out@.len() as int;
            let entry = entries.remove(0);
            proof {
                assert(entry == orig[done]);
                assert(entries@ =~= orig.skip(done + 1));
            }
            let mapped = f(entry.1);
            out.push((entry.0, mapped));
        }
        proof {
            assert(out@.len() == orig.len());
            assert(distinct_keys(orig));
            assert(distinct_keys(out@)) by {
                assert(forall|i: int, j: int|
                    #![trigger out@[i].0, out@[j].0]
                    0 <= i < j < out@.len() ==> out@[i].0 == orig[i].0 && out@[j].0
                        == orig[j].0);
            }
            assert forall|k: u64|
                assoc_map(out@).dom().contains(k) == assoc_map(orig).dom().contains(k) by {
                lemma_assoc_contains(out@, k);
                lemma_assoc_contains(orig, k);
                if exists|j: int| 0 <= j < out@.len() && out@[j].0 == k {
                    let j = choose|j: int| 0 <= j < out@.len() && out@[j].0 == k;
                    assert(orig[j].0 == k);
                }
                if exists|j: int| 0 <= j < orig.len() && orig[j].0 == k {
                    let j = choose|j: int| 0 <= j < orig.len() && orig[j].0 == k;
                    assert(out@[j].0 == k);
                }
            }
            assert(assoc_map(out@).dom() =~= assoc_map(orig).dom());
            assert forall|k: u64| #[trigger] assoc_map(orig).dom().contains(k) implies call_ensures(
                f,
                (assoc_map(orig)[k],),
                assoc_map(out@)[k],
            ) by {
                lemma_assoc_contains(orig, k);
                let j = choose|j: int| 0 <= j < orig.len() && orig[j].0 == k;
                lemma_assoc_index(orig, j);
                lemma_assoc_index(out@, j);
            }
        }
        Storage { entries: out, next_key }
    }
}

/// Keyed storage whose keys are supplied by the caller, used for half-edge
/// records: an edge's key is determined by its endpoints, so no generator
/// is involved.
pub struct EdgeStorage<V> {
    entries: Vec<(EdgeKey, V)>,
}

impl<V> View for EdgeStorage<V> {
    type V = Map<EdgeKey, V>;

    closed spec fn view(&self) -> Map<EdgeKey, V> {
        assoc_map(self.entries@)
    }
}

impl<V> EdgeStorage<V> {
    /// Keys are pairwise distinct.
    pub closed spec fn inv(self) -> bool {
        distinct_keys(self.entries@)
    }

    pub fn new() -> (r: Self)
        ensures
            r.inv(),
            r@ == Map::<EdgeKey, V>::empty(),
    {
        EdgeStorage { entries: Vec::new() }
    }

    /// The store holds finitely many records.
    pub proof fn lemma_finite(self)
        requires
            self.inv(),
        ensures
            self@.dom().finite(),
    {
        lemma_assoc_len(self.entries@);
    }

    pub fn len(&self) -> (r: usize)
        requires
            self.inv(),
        ensures
            r == self@.dom().len(),
    {
        proof {
            lemma_assoc_len(self.entries@);
        }
        self.entries.len()
    }

    pub fn contains_key(&self, key: EdgeKey) -> (r: bool)
        ensures
            r == self@.dom().contains(key),
    {
        let n: usize = self.entries.len();
        let mut i: usize = 0;
        while i < n
            invariant
                n == self.entries@.len(),
                0 <= i <= n,
                forall|j: int| 0 <= j < i ==> #[trigger] self.entries@[j].0 != key,
            decreases n - i,
        {
            if self.entries[i].0 == key {
                proof {
                    lemma_assoc_contains(self.entries@, key);
                }
                return true;
            }
            i = i + 1;
        }
        proof {
            lemma_assoc_contains(self.entries@, key);
        }
        false
    }

    pub fn get(&self, key: EdgeKey) -> (r: Option<&V>)
        requires
            self.inv(),
        ensures
            match r {
                Some(v) => self@.dom().contains(key) && *v == self@[key],
                None => !self@.dom().contains(key),
            },
    {
        let n: usize = self.entries.len();
        let mut i: usize = 0;
        while i < n
            invariant
                self.inv(),
                n == self.entries@.len(),
                0 <= i <= n,
                forall|j: int| 0 <= j < i ==> #[trigger] self.entries@[j].0 != key,
            decreases n - i,
        {
            if self.entries[i].0 == key {
                proof {
                    lemma_assoc_index(self.entries@, i as int);
                }
                return Some(&self.entries[i].1);
            }
            i = i + 1;
        }
        proof {
            lemma_assoc_contains(self.entries@, key);
        }
        None
    }

    /// Inserts the record under the caller's key, which must not be in use.
    pub fn insert_with_key(&mut self, key: EdgeKey, value: V)
        requires
            old(self).inv(),
            !old(self)@.dom().contains(key),
        ensures
            final(self).inv(),
            final(self)@ == old(self)@.insert(key, value),
    {
        proof {
            lemma_assoc_contains(self.entries@, key);
            lemma_assoc_push(self.entries@, key, value);
        }
        self.entries.push((key, value));
    }

    /// Removes the record stored under `key`, if any.
    pub fn remove(&mut self, key: EdgeKey) -> (r: Option<V>)
        requires
            old(self).inv(),
        ensures
            final(self).inv(),
            final(self)@ == old(self)@.remove(key),
            r == if old(self)@.dom().contains(key) {
                Some(old(self)@[key])
            } else {
                None::<V>
            },
    {
        let n: usize = self.entries.len();
        let mut i: usize = 0;
        while i < n
            invariant
                self == old(self),
                self.inv(),
                n == self.entries@.len(),
                0 <= i <= n,
                forall|j: int| 0 <= j < i ==> #[trigger] self.entries@[j].0 != key,
            decreases n - i,
        {
            if self.entries[i].0 == key {
                proof {
                    lemma_assoc_index(self.entries@, i as int);
                    lemma_assoc_remove(self.entries@, i as int);
                }
                let entry = self.entries.remove(i);
                return Some(entry.1);
            }
            i = i + 1;
        }
        proof {
            lemma_assoc_contains(self.entries@, key);
            assert(self@.remove(key) =~= self@);
        }
        None
    }

    /// Grants mutable access to the record stored under `key`.
    pub fn value_mut(&mut self, key: EdgeKey) -> (r: &mut V)
        requires
            old(self).inv(),
            old(self)@.dom().contains(key),
        ensures
            *r == old(self)@[key],
            final(self)@ == old(self)@.insert(key, *final(r)),
            final(self).inv(),
    {
        let n: usize = self.entries.len();
        let mut i: usize = 0;
        proof {
            lemma_assoc_contains(self.entries@, key);
        }
        while i < n
            invariant
                old(self) == self,
                self.inv(),
                self@.dom().contains(key),
                n == self.entries@.len(),
                0 <= i <= n,
                exists|j: int| i <= j < n && #[trigger] self.entries@[j].0 == key,
            decreases n - i,
        {
            if self.entries[i].0 == key {
                proof {
                    lemma_assoc_index(self.entries@, i as int);
                    lemma_assoc_update(self.entries@, i as int);
                }
                let entry = &mut self.entries[i];
                return &mut entry.1;
            }
            i = i + 1;
        }
        proof {
            assert(false);
        }
        unreached()
    }

    /// Rebuilds the store with every record transformed by `f`, keeping
    /// every key unchanged.
    pub fn map_values<W, F: Fn(V) -> W>(self, f: F) -> (r: EdgeStorage<W>)
        requires
            self.inv(),
            forall|v: V| #[trigger] call_requires(f, (v,)),
        ensures
            r.inv(),
            r@.dom() == self@.dom(),
            forall|k: EdgeKey| #[trigger]
                self@.dom().contains(k) ==> call_ensures(f, (self@[k],), r@[k]),
    {
        let ghost orig = self.entries@;
        let EdgeStorage { mut entries } = self;
        let mut out: Vec<(EdgeKey, W)> = Vec::new();
        while entries.len() > 0
            invariant
                entries@ =~= orig.skip(out@.len() as int),
                out@.len() <= orig.len(),
                forall|j: int|
                    0 <= j < out@.len() ==> #[trigger] out@[j].0 == orig[j].0 && call_ensures(
                        f,
                        (orig[j].1,),
                        out@[j].1,
                    ),
                forall|v: V| #[trigger] call_requires(f, (v,)),
            decreases entries@.len(),
        {
            let ghost done = out@.len() as int;
            let entry = entries.remove(0);
            proof {
                assert(entry == orig[done]);
                assert(entries@ =~= orig.skip(done + 1));
            }
            let mapped = f(entry.1);
            out.push((entry.0, mapped));
        }
        proof {
            assert(out@.len() == orig.len());
            assert(distinct_keys(orig));
            assert(distinct_keys(out@)) by {
                assert(forall|i: int, j: int|
                    #![trigger out@[i].0, out@[j].0]
                    0 <= i < j < out@.len() ==> out@[i].0 == orig[i].0 && out@[j].0
                        == orig[j].0);
            }
            assert forall|k: EdgeKey|
                assoc_map(out@).dom().contains(k) == assoc_map(orig).dom().contains(k) by {
                lemma_assoc_contains(out@, k);
                lemma_assoc_contains(orig, k);
                if exists|j: int| 0 <= j < out@.len() && out@[j].0 == k {
                    let j = choose|j: int| 0 <= j < out@.len() && out@[j].0 == k;
                    assert(orig[j].0 == k);
                }
                if exists|j: int| 0 <= j < orig.len() && orig[j].0 == k {
                    let j = choose|j: int| 0 <= j < orig.len() && orig[j].0 == k;
                    assert(out@[j].0 == k);
                }
            }
            assert(assoc_map(out@).dom() =~= assoc_map(orig).dom());
            assert forall|k: EdgeKey| #[trigger] assoc_map(
                orig,
            ).dom().contains(k) implies call_ensures(
                f,
                (assoc_map(orig)[k],),
                assoc_map(out@)[k],
            ) by {
                lemma_assoc_contains(orig, k);
                let j = choose|j: int| 0 <= j < orig.len() && orig[j].0 == k;
                lemma_assoc_index(orig, j);
                lemma_assoc_index(out@, j);
            }
        }
        EdgeStorage { entries: out }
    }
}

} // verus!
