//! The capacity-bounded cache: bounded key-value storage with strict
//! least-recently-used eviction. It composes one recency list instance,
//! holding the keys in recency order, with an association vector mapping each
//! key to its value and to the handle of its list node, and keeps the two
//! mutually consistent.

use vstd::prelude::*;
use crate::list::LRUList;
use crate::list::lemma_index_of_unique;
use crate::list::seq_move_front;

verus! {

/// Keys are opaque byte sequences, compared and hashed by content.
pub type CacheKey = Vec<u8>;

/// One stored entry: the key, its value, and the handle of the node that
/// holds a copy of the key in the recency list.
struct CacheEntry<T> {
    key: CacheKey,
    value: T,
    handle: usize,
}

/// What a sequence of entries associates with a key's bytes: the value of the
/// entry holding that key, or nothing.
spec fn lookup<T>(es: Seq<CacheEntry<T>>, k: Seq<u8>) -> Option<T> {
    if exists|j: int| 0 <= j < es.len() && (#[trigger] es[j]).key@ == k {
        let j = choose|j: int| 0 <= j < es.len() && (#[trigger] es[j]).key@ == k;
        Some(es[j].value)
    } else {
        None
    }
}

/// No two entries hold the same key.
spec fn keys_distinct<T>(es: Seq<CacheEntry<T>>) -> bool {
    forall|j1: int, j2: int|
        0 <= j1 < j2 < es.len() ==> (#[trigger] es[j1]).key@ != (#[trigger] es[j2]).key@
}

/// No two entries hold the same list handle.
spec fn handles_distinct<T>(es: Seq<CacheEntry<T>>) -> bool {
    forall|j1: int, j2: int|
        0 <= j1 < j2 < es.len() ==> (#[trigger] es[j1]).handle != (#[trigger] es[j2]).handle
}

/// With distinct keys, an entry's own key looks up exactly its value.
proof fn lemma_lookup_found<T>(es: Seq<CacheEntry<T>>, j: int)
    requires
        keys_distinct(es),
        0 <= j < es.len(),
    ensures
        lookup(es, es[j].key@) == Some(es[j].value),
{
    let k = es[j].key@;
    assert(0 <= j < es.len() && es[j].key@ == k);
    let j2 = choose|j2: int| 0 <= j2 < es.len() && (#[trigger] es[j2]).key@ == k;
    assert(es[j2].key@ == k);
    if j2 != j {
        assert(es[j2].key@ != es[j].key@);
    }
}

/// A key no entry holds looks up nothing.
proof fn lemma_lookup_none<T>(es: Seq<CacheEntry<T>>, k: Seq<u8>)
    requires
        forall|j: int| 0 <= j < es.len() ==> (#[trigger] es[j]).key@ != k,
    ensures
        lookup(es, k) is None,
{
}

/// Removing one entry empties its key's lookup and leaves every other key's
/// lookup unchanged.
proof fn lemma_lookup_remove<T>(es: Seq<CacheEntry<T>>, j: int)
    requires
        keys_distinct(es),
        0 <= j < es.len(),
    ensures
        keys_distinct(es.remove(j)),
        handles_distinct(es) ==> handles_distinct(es.remove(j)),
        lookup(es.remove(j), es[j].key@) is None,
        forall|k: Seq<u8>|
            k != es[j].key@ ==> #[trigger] lookup(es.remove(j), k) == lookup(es, k),
{
    let es2 = es.remove(j);
    assert forall|q: int| 0 <= q < es2.len() implies es2[q] == es[if q < j {
        q
    } else {
        q + 1
    }] by {}
    assert forall|j1: int, j2: int| 0 <= j1 < j2 < es2.len() implies (#[trigger] es2[j1]).key@
        != (#[trigger] es2[j2]).key@ by {}
    if handles_distinct(es) {
        assert forall|j1: int, j2: int|
            0 <= j1 < j2 < es2.len() implies (#[trigger] es2[j1]).handle
            != (#[trigger] es2[j2]).handle by {}
    }
    assert forall|q: int| 0 <= q < es2.len() implies (#[trigger] es2[q]).key@ != es[j].key@ by {
        if q < j {
            assert(es2[q] == es[q]);
        } else {
            assert(es2[q] == es[q + 1]);
        }
    };
    lemma_lookup_none(es2, es[j].key@);
    assert forall|k: Seq<u8>| k != es[j].key@ implies #[trigger] lookup(es2, k) == lookup(
        es,
        k,
    ) by {
        if exists|w: int| 0 <= w < es.len() && (#[trigger] es[w]).key@ == k {
            let w = choose|w: int| 0 <= w < es.len() && (#[trigger] es[w]).key@ == k;
            assert(w != j);
            let w2 = if w < j {
                w
            } else {
                w - 1
            };
            assert(es2[w2] == es[w]);
            lemma_lookup_found(es, w);
            lemma_lookup_found(es2, w2);
        } else {
            assert forall|q: int| 0 <= q < es2.len() implies (#[trigger] es2[q]).key@ != k by {
                let s = if q < j {
                    q
                } else {
                    q + 1
                };
                assert(es2[q] == es[s]);
            };
            lemma_lookup_none(es2, k);
            lemma_lookup_none(es, k);
        }
    };
}

/// Appending an entry with a fresh key makes that key look up its value and
/// leaves every other key's lookup unchanged.
proof fn lemma_lookup_push<T>(es: Seq<CacheEntry<T>>, e: CacheEntry<T>)
    requires
        keys_distinct(es),
        forall|j: int| 0 <= j < es.len() ==> (#[trigger] es[j]).key@ != e.key@,
    ensures
        keys_distinct(es.push(e)),
        lookup(es.push(e), e.key@) == Some(e.value),
        forall|k: Seq<u8>| k != e.key@ ==> #[trigger] lookup(es.push(e), k) == lookup(es, k),
{
    let es2 = es.push(e);
    assert forall|j1: int, j2: int| 0 <= j1 < j2 < es2.len() implies (#[trigger] es2[j1]).key@
        != (#[trigger] es2[j2]).key@ by {
        if j2 == es.len() {
            assert(es2[j1] == es[j1]);
        } else {
            assert(es2[j1] == es[j1] && es2[j2] == es[j2]);
        }
    };
    lemma_lookup_found(es2, es.len() as int);
    assert forall|k: Seq<u8>| k != e.key@ implies #[trigger] lookup(es2, k) == lookup(es, k) by {
        if exists|w: int| 0 <= w < es.len() && (#[trigger] es[w]).key@ == k {
            let w = choose|w: int| 0 <= w < es.len() && (#[trigger] es[w]).key@ == k;
            assert(es2[w] == es[w]);
            lemma_lookup_found(es, w);
            lemma_lookup_found(es2, w);
        } else {
            assert forall|q: int| 0 <= q < es2.len() implies (#[trigger] es2[q]).key@ != k by {
                if q < es.len() {
                    assert(es2[q] == es[q]);
                }
            };
            lemma_lookup_none(es2, k);
            lemma_lookup_none(es, k);
        }
    };
}

/// How one insert changes the cached keys (most recently used first): a
/// present key moves to the front, a fresh key is pushed there, evicting the
/// least-recently-used key first when the cache is full.
pub open spec fn keys_after_insert(keys: Seq<Seq<u8>>, cap: int, k: Seq<u8>) -> Seq<Seq<u8>> {
    if keys.contains(k) {
        seq_move_front(keys, keys.index_of(k))
    } else if keys.len() < cap {
        keys.insert(0, k)
    } else {
        keys.drop_last().insert(0, k)
    }
}

/// The cached keys after a whole sequence of inserts, first insert first.
pub open spec fn keys_after_inserts(
    keys: Seq<Seq<u8>>,
    cap: int,
    ks: Seq<Seq<u8>>,
) -> Seq<Seq<u8>>
    decreases ks.len(),
{
    if ks.len() <= 0 {
        keys
    } else {
        keys_after_inserts(keys_after_insert(keys, cap, ks[0]), cap, ks.skip(1))
    }
}

/// Splitting a sequence of inserts into two runs changes nothing.
proof fn lemma_inserts_split(keys: Seq<Seq<u8>>, cap: int, a: Seq<Seq<u8>>, b: Seq<Seq<u8>>)
    ensures
        keys_after_inserts(keys, cap, a + b) == keys_after_inserts(
            keys_after_inserts(keys, cap, a),
            cap,
            b,
        ),
    decreases a.len(),
{
    if a.len() == 0 {
        assert(a + b =~= b);
        assert(keys_after_inserts(keys, cap, a) == keys);
    } else {
        assert((a + b)[0] == a[0]);
        assert((a + b).skip(1) =~= a.skip(1) + b);
        lemma_inserts_split(keys_after_insert(keys, cap, a[0]), cap, a.skip(1), b);
    }
}

/// Inserting distinct fresh keys into a cache with room for all of them
/// stacks them in reverse insertion order on top of what was there: the
/// first-inserted key ends up last, the eviction target.
pub proof fn lemma_inserts_fill(keys0: Seq<Seq<u8>>, cap: int, ks: Seq<Seq<u8>>)
    requires
        keys0.len() + ks.len() <= cap,
        ks.no_duplicates(),
        forall|i: int| 0 <= i < ks.len() ==> !keys0.contains(#[trigger] ks[i]),
    ensures
        keys_after_inserts(keys0, cap, ks) == ks.reverse() + keys0,
    decreases ks.len(),
{
    if ks.len() == 0 {
        assert(ks.reverse() + keys0 =~= keys0);
    } else {
        let k0 = ks[0];
        assert(!keys0.contains(k0));
        let keys1 = keys_after_insert(keys0, cap, k0);
        assert(keys1 == keys0.insert(0, k0));
        assert(keys1 =~= seq![k0] + keys0);
        let rest = ks.skip(1);
        assert forall|i1: int, i2: int| 0 <= i1 < i2 < rest.len() implies rest[i1]
            != rest[i2] by {
            assert(rest[i1] == ks[i1 + 1] && rest[i2] == ks[i2 + 1]);
        };
        assert forall|i: int| 0 <= i < rest.len() implies !keys1.contains(#[trigger] rest[i]) by {
            assert(rest[i] == ks[i + 1]);
            if keys1.contains(rest[i]) {
                let w = choose|w: int| 0 <= w < keys1.len() && keys1[w] == rest[i];
                if w == 0 {
                    assert(ks[0] == ks[i + 1]);
                } else {
                    assert(keys0[w - 1] == ks[i + 1]);
                    assert(keys0.contains(ks[i + 1]));
                }
            }
        };
        lemma_inserts_fill(keys1, cap, rest);
        assert(rest.reverse() + keys1 =~= ks.reverse() + keys0) by {
            assert forall|q: int| 0 <= q < ks.len() + keys0.len() implies (rest.reverse()
                + keys1)[q] == (ks.reverse() + keys0)[q] by {
                if q < rest.len() {
                    assert(rest.reverse()[q] == rest[rest.len() - 1 - q]);
                    assert(rest[rest.len() - 1 - q] == ks[ks.len() - 1 - q]);
                    assert(ks.reverse()[q] == ks[ks.len() - 1 - q]);
                } else if q == rest.len() {
                    assert((rest.reverse() + keys1)[q] == keys1[0]);
                    assert(ks.reverse()[q] == ks[0]);
                } else {
                    assert((rest.reverse() + keys1)[q] == keys1[q - rest.len()]);
                    assert(keys1[q - rest.len()] == keys0[q - rest.len() - 1]);
                    assert((ks.reverse() + keys0)[q] == keys0[q - ks.len()]);
                }
            };
        };
    }
}

/// Eviction order: starting from an empty cache of capacity `cap`, inserting
/// `cap + 1` distinct keys with nothing promoted in between evicts exactly
/// the first-inserted key and keeps every other one.
pub proof fn lemma_eviction_order(cap: int, ks: Seq<Seq<u8>>)
    requires
        1 <= cap,
        ks.no_duplicates(),
        ks.len() == cap + 1,
    ensures
        !keys_after_inserts(Seq::empty(), cap, ks).contains(ks[0]),
        forall|i: int|
            1 <= i < ks.len() ==> keys_after_inserts(Seq::empty(), cap, ks).contains(
                #[trigger] ks[i],
            ),
{
    let a = ks.take(cap);
    let b = ks.skip(cap);
    assert(ks =~= a + b);
    assert(b.len() == 1 && b[0] == ks[cap]);
    lemma_inserts_split(Seq::empty(), cap, a, b);
    assert forall|i1: int, i2: int| 0 <= i1 < i2 < a.len() implies a[i1] != a[i2] by {
        assert(a[i1] == ks[i1] && a[i2] == ks[i2]);
    };
    lemma_inserts_fill(Seq::empty(), cap, a);
    let kk = a.reverse();
    assert(kk + Seq::<Seq<u8>>::empty() =~= kk);
    assert(keys_after_inserts(Seq::empty(), cap, a) == kk);
    assert forall|q: int| 0 <= q < cap implies kk[q] == ks[cap - 1 - q] by {
        assert(kk[q] == a[a.len() - 1 - q]);
        assert(a[a.len() - 1 - q] == ks[cap - 1 - q]);
    };
    assert(keys_after_inserts(kk, cap, b) == keys_after_inserts(
        keys_after_insert(kk, cap, ks[cap]),
        cap,
        b.skip(1),
    ));
    assert(b.skip(1).len() == 0);
    assert(keys_after_inserts(kk, cap, b) == keys_after_insert(kk, cap, ks[cap]));
    assert(!kk.contains(ks[cap])) by {
        if kk.contains(ks[cap]) {
            let w = choose|w: int| 0 <= w < kk.len() && kk[w] == ks[cap];
            assert(ks[cap - 1 - w] == ks[cap]);
        }
    };
    let fin = kk.drop_last().insert(0, ks[cap]);
    assert(keys_after_insert(kk, cap, ks[cap]) == fin);
    assert(fin =~= seq![ks[cap]] + kk.take(cap - 1)) by {
        assert(kk.drop_last() =~= kk.take(cap - 1));
    };
    assert(!fin.contains(ks[0])) by {
        if fin.contains(ks[0]) {
            let w = choose|w: int| 0 <= w < fin.len() && fin[w] == ks[0];
            if w == 0 {
                assert(ks[cap] == ks[0]);
            } else {
                assert(fin[w] == kk[w - 1]);
                assert(kk[w - 1] == ks[cap - w]);
                assert(ks[cap - w] == ks[0]);
            }
        }
    };
    assert forall|i: int| 1 <= i < ks.len() implies fin.contains(#[trigger] ks[i]) by {
        if i == cap {
            assert(fin[0] == ks[cap]);
        } else {
            let w = cap - i;
            assert(fin[w] == kk[w - 1]);
            assert(kk[w - 1] == ks[i]);
        }
    };
}

/// A byte-for-byte copy of a key.
fn clone_key(k: &CacheKey) -> (r: CacheKey)
    ensures
        r@ == k@,
{
    let mut r: Vec<u8> = Vec::new();
    let mut i: usize = 0;
    while i < k.len()
        invariant
            i <= k@.len(),
            r@ == k@.subrange(0, i as int),
        decreases k@.len() - i,
    {
        r.push(k[i]);
        proof {
            assert(r@ =~= k@.subrange(0, i + 1));
        }
        i = i + 1;
    }
    proof {
        assert(r@ =~= k@);
    }
    r
}

/// Whether two keys hold the same bytes.
fn keys_eq(a: &CacheKey, b: &CacheKey) -> (r: bool)
    ensures
        r == (a@ == b@),
{
    if a.len() != b.len() {
        return false;
    }
    let mut i: usize = 0;
    while i < a.len()
        invariant
            a@.len() == b@.len(),
            i <= a@.len(),
            forall|j: int| 0 <= j < i ==> a@[j] == b@[j],
        decreases a@.len() - i,
    {
        if a[i] != b[i] {
            return false;
        }
        i = i + 1;
    }
    proof {
        assert(a@ =~= b@);
    }
    true
}

/// The cache: the recency list over keys, the entry vector, and the fixed
/// positive capacity.
pub struct Cache<T> {
    list: LRUList<CacheKey>,
    entries: Vec<CacheEntry<T>>,
    cap: usize,
}

impl<T> Cache<T> {
    /// The keys currently cached, most recently used first.
    pub closed spec fn keys(&self) -> Seq<Seq<u8>> {
        self.list@.map_values(|k: CacheKey| k@)
    }

    /// The immutable capacity.
    pub closed spec fn spec_cap(&self) -> usize {
        self.cap
    }

    /// The value stored under a key's bytes, or nothing.
    pub closed spec fn spec_get(&self, k: Seq<u8>) -> Option<T> {
        lookup(self.entries@, k)
    }

    /// Whether a key is currently cached.
    pub open spec fn contains_key(&self, k: Seq<u8>) -> bool {
        self.spec_get(k) is Some
    }

    /// Entry `j` and list position `p` describe the same element: same
    /// handle, same key content.
    spec fn entry_at(&self, j: int, p: int) -> bool {
        &&& 0 <= p < self.list@.len()
        &&& self.list.handles()[p] == self.entries@[j].handle
        &&& self.list@[p]@ == self.entries@[j].key@
    }

    spec fn entry_placed(&self, j: int) -> bool {
        exists|p: int| self.entry_at(j, p)
    }

    spec fn position_covered(&self, p: int) -> bool {
        exists|j: int| 0 <= j < self.entries@.len() && self.entry_at(j, p)
    }

    /// The map and the list are mutually consistent: equal sizes, every entry
    /// has its node, every node has its entry, and neither keys nor handles
    /// repeat.
    spec fn linked(&self) -> bool {
        &&& self.list.wf()
        &&& self.entries@.len() == self.list@.len()
        &&& forall|j: int| 0 <= j < self.entries@.len() ==> #[trigger] self.entry_placed(j)
        &&& forall|p: int| 0 <= p < self.list@.len() ==> #[trigger] self.position_covered(p)
        &&& keys_distinct(self.entries@)
        &&& handles_distinct(self.entries@)
    }

    /// Well-formedness: consistency plus the capacity bound.
    pub closed spec fn wf(&self) -> bool {
        &&& self.linked()
        &&& 0 < self.cap
        &&& self.list@.len() <= self.cap
    }

    /// The cached keys never repeat and never exceed the capacity, and a key
    /// looks up a value exactly when it is among the cached keys.
    pub proof fn lemma_invariant(&self)
        requires
            self.wf(),
        ensures
            self.keys().len() <= self.spec_cap(),
            self.keys().no_duplicates(),
            forall|k: Seq<u8>| self.contains_key(k) <==> self.keys().contains(k),
    {
        self.list.lemma_wf_properties();
        assert forall|p1: int, p2: int| 0 <= p1 < p2 < self.keys().len() implies self.keys()[p1]
            != self.keys()[p2] by {
            assert(self.position_covered(p1));
            assert(self.position_covered(p2));
            let j1 = choose|j: int| 0 <= j < self.entries@.len() && self.entry_at(j, p1);
            let j2 = choose|j: int| 0 <= j < self.entries@.len() && self.entry_at(j, p2);
            assert(self.list.handles()[p1] != self.list.handles()[p2]);
            assert(j1 != j2);
            assert(self.entries@[j1].key@ != self.entries@[j2].key@);
        };
        assert forall|k: Seq<u8>| self.contains_key(k) implies self.keys().contains(k) by {
            let j = choose|j: int|
                0 <= j < self.entries@.len() && (#[trigger] self.entries@[j]).key@ == k;
            assert(self.entry_placed(j));
            let p = choose|p: int| self.entry_at(j, p);
            assert(self.keys()[p] == k);
        };
        assert forall|k: Seq<u8>| self.keys().contains(k) implies self.contains_key(k) by {
            let p = choose|p: int| 0 <= p < self.keys().len() && self.keys()[p] == k;
            assert(self.position_covered(p));
            let j = choose|j: int| 0 <= j < self.entries@.len() && self.entry_at(j, p);
            assert(self.entries@[j].key@ == k);
        };
    }

    /// With at least two keys cached, the most-recently-used key is not the
    /// eviction target: promotion protects it from the next overflow.
    pub proof fn lemma_front_is_not_lru(&self)
        requires
            self.wf(),
            self.keys().len() >= 2,
        ensures
            self.keys().first() != self.keys().last(),
    {
        self.lemma_invariant();
    }

    /// Finds the entry holding the given key's bytes, if any.
    fn find_entry(&self, key: &CacheKey) -> (r: Option<usize>)
        ensures
            r matches Some(j) ==> j < self.entries@.len() && self.entries@[j as int].key@
                == key@,
            r is None ==> forall|j: int|
                0 <= j < self.entries@.len() ==> (#[trigger] self.entries@[j]).key@ != key@,
    {
        let mut i: usize = 0;
        while i < self.entries.len()
            invariant
                i <= self.entries@.len(),
                forall|j: int| 0 <= j < i ==> (#[trigger] self.entries@[j]).key@ != key@,
            decreases self.entries@.len() - i,
        {
            if keys_eq(&self.entries[i].key, key) {
                return Some(i);
            }
            i = i + 1;
        }
        None
    }

    /// Finds the entry holding the given list handle, if any.
    fn find_by_handle(&self, h: usize) -> (r: Option<usize>)
        ensures
            r matches Some(j) ==> j < self.entries@.len() && self.entries@[j as int].handle
                == h,
            r is None ==> forall|j: int|
                0 <= j < self.entries@.len() ==> (#[trigger] self.entries@[j]).handle != h,
    {
        let mut i: usize = 0;
        while i < self.entries.len()
            invariant
                i <= self.entries@.len(),
                forall|j: int| 0 <= j < i ==> (#[trigger] self.entries@[j]).handle != h,
            decreases self.entries@.len() - i,
        {
            if self.entries[i].handle == h {
                return Some(i);
            }
            i = i + 1;
        }
        None
    }

    /// Removes entry `j` together with its recency-list node.
    fn detach(&mut self, j: usize) -> (e: CacheEntry<T>)
        requires
            old(self).linked(),
            j < old(self).entries@.len(),
        ensures
            final(self).linked(),
            final(self).cap == old(self).cap,
            e == old(self).entries@[j as int],
            final(self).entries@ == old(self).entries@.remove(j as int),
            final(self).spec_get(e.key@) is None,
            old(self).spec_get(e.key@) == Some(e.value),
            forall|k: Seq<u8>|
                k != old(self).entries@[j as int].key@ ==> final(self).spec_get(k) == old(
                    self,
                ).spec_get(k),
            ({
                let p = choose|p: int| old(self).entry_at(j as int, p);
                &&& old(self).entry_at(j as int, p)
                &&& old(self).keys()[p] == old(self).entries@[j as int].key@
                &&& final(self).keys() == old(self).keys().remove(p)
                &&& final(self).list@.len() == old(self).list@.len() - 1
            }),
    {
        proof {
            assert(old(self).entry_placed(j as int));
        }
        let ghost p: int = choose|p: int| old(self).entry_at(j as int, p);
        let e = self.entries.remove(j);
        proof {
            self.list.lemma_wf_properties();
            assert(self.list.handles()[p] == e.handle);
            lemma_index_of_unique(self.list.handles(), e.handle, p);
            lemma_lookup_found(old(self).entries@, j as int);
            lemma_lookup_remove(old(self).entries@, j as int);
        }
        let _removed_key = self.list.remove(e.handle);
        proof {
            let old_hs = old(self).list.handles();
            let old_ls = old(self).list@;
            assert(self.list.handles() == old_hs.remove(p));
            assert(self.list@ == old_ls.remove(p));
            assert forall|j2: int|
                0 <= j2 < self.entries@.len() implies #[trigger] self.entry_placed(j2) by {
                let s = if j2 < j {
                    j2
                } else {
                    j2 + 1
                };
                assert(old(self).entry_placed(s));
                let q = choose|q: int| old(self).entry_at(s, q);
                assert(old(self).entries@[s].handle != old(self).entries@[j as int].handle);
                assert(q != p);
                let q2 = if q < p {
                    q
                } else {
                    q - 1
                };
                assert(self.list.handles()[q2] == old_hs[q]);
                assert(self.list@[q2] == old_ls[q]);
                assert(self.entries@[j2] == old(self).entries@[s]);
                assert(self.entry_at(j2, q2));
            };
            assert forall|q2: int|
                0 <= q2 < self.list@.len() implies #[trigger] self.position_covered(q2) by {
                let q = if q2 < p {
                    q2
                } else {
                    q2 + 1
                };
                assert(old(self).position_covered(q));
                let s = choose|s: int|
                    0 <= s < old(self).entries@.len() && old(self).entry_at(s, q);
                if s == j {
                    assert(old_hs[q] == old(self).entries@[j as int].handle);
                    assert(old_hs[p] == old(self).entries@[j as int].handle);
                    assert(q == p);
                    assert(false);
                }
                let j2 = if s < j {
                    s
                } else {
                    s - 1
                };
                assert(self.entries@[j2] == old(self).entries@[s]);
                assert(self.list.handles()[q2] == old_hs[q]);
                assert(self.list@[q2] == old_ls[q]);
                assert(self.entry_at(j2, q2));
            };
            assert(self.keys() =~= old(self).keys().remove(p)) by {
                assert forall|q2: int| 0 <= q2 < self.keys().len() implies self.keys()[q2] == old(
                    self,
                ).keys().remove(p)[q2] by {
                    let q = if q2 < p {
                        q2
                    } else {
                        q2 + 1
                    };
                    assert(self.list@[q2] == old_ls[q]);
                    assert(old(self).keys()[q] == old_ls[q]@);
                };
            };
        }
        e
    }

    /// Links a fresh node holding a copy of the key at the front of the list
    /// and stores the entry for it.
    fn attach_front(&mut self, key: &CacheKey, elem: T)
        requires
            old(self).linked(),
            old(self).list@.len() < usize::MAX,
            forall|j: int|
                0 <= j < old(self).entries@.len() ==> (#[trigger] old(self).entries@[j]).key@
                    != key@,
        ensures
            final(self).linked(),
            final(self).cap == old(self).cap,
            final(self).keys() == old(self).keys().insert(0, key@),
            final(self).keys().len() == old(self).keys().len() + 1,
            final(self).keys()[0] == key@,
            final(self).spec_get(key@) == Some(elem),
            forall|k: Seq<u8>|
                k != key@ ==> final(self).spec_get(k) == old(self).spec_get(k),
    {
        let ck = clone_key(key);
        let ck2 = clone_key(key);
        let h = self.list.insert(ck);
        let ghost mid_entries = self.entries@;
        self.entries.push(CacheEntry { key: ck2, value: elem, handle: h });
        proof {
            let old_hs = old(self).list.handles();
            let old_ls = old(self).list@;
            old(self).list.lemma_wf_properties();
            let e = self.entries@.last();
            assert(self.entries@ == mid_entries.push(e));
            assert(mid_entries == old(self).entries@);
            assert(self.list.handles() == old_hs.insert(0, h));
            assert(self.list@ == old_ls.insert(0, ck));
            assert(self.list.handles()[0] == h && self.list@[0] == ck) by {
                assert(old_hs.insert(0, h) =~= seq![h] + old_hs);
                assert(old_ls.insert(0, ck) =~= seq![ck] + old_ls);
            };
            assert forall|q: int| 1 <= q < self.list@.len() implies self.list.handles()[q]
                == old_hs[q - 1] && self.list@[q] == old_ls[q - 1] by {
                assert(self.list.handles() =~= seq![h] + old_hs);
                assert(self.list@ =~= seq![ck] + old_ls);
                assert(self.list.handles()[q] == (seq![h] + old_hs)[q]);
                assert(self.list@[q] == (seq![ck] + old_ls)[q]);
            };
            assert forall|j2: int|
                0 <= j2 < self.entries@.len() implies #[trigger] self.entry_placed(j2) by {
                if j2 == self.entries@.len() - 1 {
                    assert(self.entry_at(j2, 0));
                } else {
                    assert(old(self).entry_placed(j2));
                    let q = choose|q: int| old(self).entry_at(j2, q);
                    assert(self.entries@[j2] == old(self).entries@[j2]);
                    assert(self.entry_at(j2, q + 1));
                }
            };
            assert forall|q: int|
                0 <= q < self.list@.len() implies #[trigger] self.position_covered(q) by {
                if q == 0 {
                    let j2 = self.entries@.len() - 1;
                    assert(self.entry_at(j2, 0));
                } else {
                    assert(old(self).position_covered(q - 1));
                    let qm = q - 1;
                    let s = choose|s: int|
                        0 <= s < old(self).entries@.len() && old(self).entry_at(s, qm);
                    assert(self.entries@[s] == old(self).entries@[s]);
                    assert(self.entry_at(s, q));
                }
            };
            assert forall|j1: int, j2: int|
                0 <= j1 < j2 < self.entries@.len() implies (#[trigger] self.entries@[j1]).handle
                != (#[trigger] self.entries@[j2]).handle by {
                if j2 == self.entries@.len() - 1 {
                    assert(old(self).entry_placed(j1));
                    let q = choose|q: int| old(self).entry_at(j1, q);
                    old(self).list.lemma_wf_properties();
                    assert(old_hs.contains(old(self).entries@[j1].handle)) by {
                        assert(0 <= q < old_hs.len() && old_hs[q] == old(
                            self,
                        ).entries@[j1].handle);
                    };
                    assert(!old(self).list.valid_handle(h));
                } else {
                    assert(self.entries@[j1] == old(self).entries@[j1]);
                    assert(self.entries@[j2] == old(self).entries@[j2]);
                }
            };
            lemma_lookup_push(old(self).entries@, e);
            assert(self.keys() =~= old(self).keys().insert(0, key@)) by {
                assert(old(self).keys().insert(0, key@) =~= seq![key@] + old(self).keys());
                assert forall|q: int| 0 <= q < self.keys().len() implies self.keys()[q] == (
                seq![key@] + old(self).keys())[q] by {
                    if q > 0 {
                        assert(self.list@[q] == old_ls[q - 1]);
                    }
                };
            };
        }
    }

    /// An empty cache with the given capacity. The capacity must be strictly
    /// positive: a zero-capacity cache would have no eviction target.
    pub fn new(capacity: usize) -> (c: Cache<T>)
        requires
            capacity > 0,
        ensures
            c.wf(),
            c.spec_cap() == capacity,
            c.keys() == Seq::<Seq<u8>>::empty(),
            forall|k: Seq<u8>| !c.contains_key(k),
    {
        let c = Cache { list: LRUList::new(), entries: Vec::new(), cap: capacity };
        proof {
            assert(c.keys() =~= Seq::<Seq<u8>>::empty());
            assert forall|k: Seq<u8>| !c.contains_key(k) by {
                lemma_lookup_none(c.entries@, k);
            };
        }
        c
    }

    /// Inserts an element under the given key, making it the most recently
    /// used. A key already present is replaced: its old entry and node are
    /// dropped first, so keys never repeat. If a new key would exceed the
    /// capacity, the least-recently-used key is evicted first.
    pub fn insert(&mut self, key: &CacheKey, elem: T)
        requires
            old(self).wf(),
        ensures
            final(self).wf(),
            final(self).spec_cap() == old(self).spec_cap(),
            final(self).spec_get(key@) == Some(elem),
            final(self).keys().len() > 0 && final(self).keys()[0] == key@,
            final(self).keys() == keys_after_insert(
                old(self).keys(),
                old(self).spec_cap() as int,
                key@,
            ),
            old(self).contains_key(key@) ==> final(self).keys() == seq_move_front(
                old(self).keys(),
                old(self).keys().index_of(key@),
            ) && (forall|k: Seq<u8>|
                k != key@ ==> final(self).spec_get(k) == old(self).spec_get(k)),
            !old(self).contains_key(key@) && old(self).keys().len() < old(self).spec_cap()
                ==> final(self).keys() == old(self).keys().insert(0, key@) && (forall|k: Seq<u8>|
                k != key@ ==> final(self).spec_get(k) == old(self).spec_get(k)),
            !old(self).contains_key(key@) && old(self).keys().len() == old(self).spec_cap()
                ==> final(self).keys() == old(self).keys().drop_last().insert(0, key@)
                && final(self).spec_get(old(self).keys().last()) is None && (forall|k: Seq<u8>|
                k != key@ && k != old(self).keys().last() ==> final(self).spec_get(k) == old(
                    self,
                ).spec_get(k)),
    {
        proof {
            old(self).lemma_invariant();
        }
        match self.find_entry(key) {
            Some(j) => {
                proof {
                    lemma_lookup_found(self.entries@, j as int);
                    assert(old(self).entry_placed(j as int));
                }
                let ghost p: int = choose|p: int| old(self).entry_at(j as int, p);
                let _replaced = self.detach(j);
                proof {
                    assert(old(self).keys()[p] == key@);
                    lemma_index_of_unique(old(self).keys(), key@, p);
                    assert forall|j2: int|
                        0 <= j2 < self.entries@.len() implies (#[trigger] self.entries@[j2]).key@
                        != key@ by {
                        assert(self.entries@[j2] == old(self).entries@.remove(j as int)[j2]);
                    };
                }
                self.attach_front(key, elem);
                proof {
                    assert(self.keys() == old(self).keys().remove(p).insert(0, key@));
                    assert(self.keys() == seq_move_front(old(self).keys(), p));
                    assert(old(self).keys().contains(key@));
                    assert(self.keys() == keys_after_insert(
                        old(self).keys(),
                        old(self).spec_cap() as int,
                        key@,
                    ));
                }
            }
            None => {
                proof {
                    lemma_lookup_none(self.entries@, key@);
                }
                let n = self.list.count();
                if n >= self.cap {
                    let ghost old_keys = old(self).keys();
                    proof {
                        assert(old_keys.len() == old(self).spec_cap());
                    }
                    match self.list.back_handle() {
                        Some(hb) => {
                            match self.find_by_handle(hb) {
                                Some(jv) => {
                                    proof {
                                        assert(self.entry_placed(jv as int));
                                        self.list.lemma_wf_properties();
                                    }
                                    let ghost p: int = choose|p: int|
                                        old(self).entry_at(jv as int, p);
                                    proof {
                                        assert(self.list.handles()[p] == hb);
                                        assert(self.list.handles().last() == hb);
                                        assert(self.list.handles()[self.list.handles().len()
                                            - 1] == hb);
                                        assert(p == self.list.handles().len() - 1);
                                        assert(old(self).keys()[p] == self.entries@[jv as int].key@);
                                    }
                                    let victim = self.detach(jv);
                                    proof {
                                        assert(self.keys() == old_keys.remove(old_keys.len() - 1));
                                        assert(self.keys() =~= old_keys.drop_last());
                                        assert(victim.key@ == old_keys.last());
                                        assert(victim.key@ != key@);
                                        assert forall|j2: int|
                                            0 <= j2 < self.entries@.len() implies (
                                        #[trigger] self.entries@[j2]).key@ != key@ by {
                                            assert(self.entries@[j2] == old(
                                                self,
                                            ).entries@.remove(jv as int)[j2]);
                                        };
                                    }
                                }
                                None => {
                                    proof {
                                        assert(self.position_covered(self.list@.len() - 1));
                                        let pl = self.list@.len() - 1;
                                        let s = choose|s: int|
                                            0 <= s < self.entries@.len() && self.entry_at(s, pl);
                                        self.list.lemma_wf_properties();
                                        assert(self.entries@[s].handle == self.list.handles()[pl]);
                                        assert(false);
                                    }
                                }
                            }
                        }
                        None => {
                            proof {
                                assert(false);
                            }
                        }
                    }
                }
                self.attach_front(key, elem);
                proof {
                    assert(old(self).spec_get(key@) is None);
                    assert(!old(self).contains_key(key@));
                    assert(!old(self).keys().contains(key@));
                    if old(self).keys().len() == old(self).spec_cap() {
                        assert(self.keys() == old(self).keys().drop_last().insert(0, key@));
                    }
                    assert(self.keys() == keys_after_insert(
                        old(self).keys(),
                        old(self).spec_cap() as int,
                        key@,
                    ));
                }
            }
        }
    }

    /// Retrieves the element stored under the key, promoting the key to most
    /// recently used; nothing on a miss. The reference is valid until the
    /// next mutating call.
    pub fn get<'a>(&'a mut self, key: &CacheKey) -> (r: Option<&'a T>)
        requires
            old(self).wf(),
        ensures
            final(self).wf(),
            final(self).spec_cap() == old(self).spec_cap(),
            forall|k: Seq<u8>| final(self).spec_get(k) == old(self).spec_get(k),
            !old(self).contains_key(key@) ==> r is None && final(self).keys() == old(self).keys(),
            old(self).contains_key(key@) ==> (r matches Some(v) && *v == old(self).spec_get(
                key@,
            ).unwrap() && final(self).keys() == seq_move_front(
                old(self).keys(),
                old(self).keys().index_of(key@),
            ) && final(self).keys().len() == old(self).keys().len() && final(self).keys()[0]
                == key@),
    {
        match self.find_entry(key) {
            None => {
                proof {
                    lemma_lookup_none(self.entries@, key@);
                }
                None
            }
            Some(j) => {
                proof {
                    lemma_lookup_found(self.entries@, j as int);
                    assert(self.entry_placed(j as int));
                }
                let ghost p: int = choose|p: int| old(self).entry_at(j as int, p);
                let h = self.entries[j].handle;
                proof {
                    self.list.lemma_wf_properties();
                    assert(self.list.handles()[p] == h);
                    lemma_index_of_unique(self.list.handles(), h, p);
                    old(self).lemma_invariant();
                    assert(old(self).keys()[p] == key@);
                    lemma_index_of_unique(old(self).keys(), key@, p);
                }
                self.list.reinsert_front(h);
                proof {
                    let old_hs = old(self).list.handles();
                    let old_ls = old(self).list@;
                    assert(self.list.handles() == seq_move_front(old_hs, p));
                    assert(self.list@ == seq_move_front(old_ls, p));
                    assert forall|q: int|
                        0 <= q < old_ls.len() implies self.list.handles()[q] == (if q == 0 {
                        old_hs[p]
                    } else if q <= p {
                        old_hs[q - 1]
                    } else {
                        old_hs[q]
                    }) && self.list@[q] == (if q == 0 {
                        old_ls[p]
                    } else if q <= p {
                        old_ls[q - 1]
                    } else {
                        old_ls[q]
                    }) by {
                        crate::list::lemma_move_front_index(old_hs, p, q);
                        crate::list::lemma_move_front_index(old_ls, p, q);
                    };
                    assert forall|j2: int|
                        0 <= j2 < self.entries@.len() implies #[trigger] self.entry_placed(
                        j2,
                    ) by {
                        if j2 == j {
                            assert(self.entry_at(j2, 0));
                        } else {
                            assert(old(self).entry_placed(j2));
                            let q = choose|q: int| old(self).entry_at(j2, q);
                            assert(old(self).entries@[j2].handle != old(
                                self,
                            ).entries@[j as int].handle);
                            assert(q != p);
                            let q2 = if q < p {
                                q + 1
                            } else {
                                q
                            };
                            assert(self.entry_at(j2, q2));
                        }
                    };
                    assert forall|q2: int|
                        0 <= q2 < self.list@.len() implies #[trigger] self.position_covered(
                        q2,
                    ) by {
                        if q2 == 0 {
                            assert(self.entry_at(j as int, 0));
                        } else {
                            let q = if q2 <= p {
                                q2 - 1
                            } else {
                                q2
                            };
                            assert(old(self).position_covered(q));
                            let s = choose|s: int|
                                0 <= s < old(self).entries@.len() && old(self).entry_at(s, q);
                            if s == j {
                                assert(old_hs[q] == old_hs[p]);
                                assert(false);
                            }
                            assert(self.entry_at(s, q2));
                        }
                    };
                    assert(self.keys() =~= seq_move_front(old(self).keys(), p)) by {
                        assert forall|q2: int|
                            0 <= q2 < self.keys().len() implies self.keys()[q2] == seq_move_front(
                            old(self).keys(),
                            p,
                        )[q2] by {
                            crate::list::lemma_move_front_index(old(self).keys(), p, q2);
                        };
                    };
                }
                Some(&self.entries[j].value)
            }
        }
    }

    /// Removes the key's entry and unlinks its recency-list node, returning
    /// the owned value; nothing if the key is absent.
    pub fn remove(&mut self, key: &CacheKey) -> (r: Option<T>)
        requires
            old(self).wf(),
        ensures
            final(self).wf(),
            final(self).spec_cap() == old(self).spec_cap(),
            !old(self).contains_key(key@) ==> r is None && final(self).keys() == old(self).keys()
                && (forall|k: Seq<u8>| final(self).spec_get(k) == old(self).spec_get(k)),
            old(self).contains_key(key@) ==> r == Some(old(self).spec_get(key@).unwrap())
                && final(self).keys() == old(self).keys().remove(old(self).keys().index_of(key@))
                && final(self).spec_get(key@) is None && (forall|k: Seq<u8>|
                k != key@ ==> final(self).spec_get(k) == old(self).spec_get(k)),
    {
        match self.find_entry(key) {
            None => {
                proof {
                    lemma_lookup_none(self.entries@, key@);
                }
                None
            }
            Some(j) => {
                proof {
                    lemma_lookup_found(self.entries@, j as int);
                    old(self).lemma_invariant();
                }
                let ghost p: int = choose|p: int| old(self).entry_at(j as int, p);
                let e = self.detach(j);
                proof {
                    assert(old(self).keys()[p] == key@);
                    lemma_index_of_unique(old(self).keys(), key@, p);
                }
                Some(e.value)
            }
        }
    }

    /// How many entries the cache currently holds.
    pub fn count(&self) -> (n: usize)
        requires
            self.wf(),
        ensures
            n == self.keys().len(),
    {
        self.list.count()
    }

    /// The capacity of this cache.
    pub fn cap(&self) -> (n: usize)
        ensures
            n == self.spec_cap(),
    {
        self.cap
    }
}

} // verus!
