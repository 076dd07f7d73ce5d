//! A bounded cache of query results keyed by the literal query text, evicting the
//! least recently used entry when full.
//!
//! The recency order lives in an `lru::LruCache` that maps each query to the slot
//! holding its result; the results themselves live in a vector of slots.

use vstd::prelude::*;
use lru::LruCache;
use crate::text::{first_index, is_first_index, lemma_first_index};

verus! {

#[verifier::external_type_specification]
#[verifier::external_body]
#[verifier::reject_recursive_types(K)]
#[verifier::reject_recursive_types(V)]
#[verifier::reject_recursive_types(S)]
pub struct ExLruCache<K, V, S>(LruCache<K, V, S>);

#[verifier::external_type_specification]
#[verifier::external_body]
pub struct ExDefaultHasher(lru::DefaultHasher);

/// The keys an LRU cache holds, from least to most recently used.
pub uninterp spec fn lru_order(c: LruCache<String, usize>) -> Seq<Seq<char>>;

/// The slot an LRU cache holds for each key.
pub uninterp spec fn lru_slots(c: LruCache<String, usize>) -> Map<Seq<char>, usize>;

/// The number of entries an LRU cache was made to hold.
pub uninterp spec fn lru_capacity(c: LruCache<String, usize>) -> nat;

/// The order after `k` is used: moved to the most recent end if present.
pub open spec fn touch(order: Seq<Seq<char>>, k: Seq<char>) -> Seq<Seq<char>> {
    if order.contains(k) {
        order.remove(first_index(order, k)).push(k)
    } else {
        order
    }
}

/// The order after storing `k`: a present key is moved to the most recent end; a new
/// key is appended there, after the least recently used key is dropped if the cache is full.
pub open spec fn put_order(order: Seq<Seq<char>>, cap: nat, k: Seq<char>) -> Seq<Seq<char>> {
    if order.contains(k) {
        touch(order, k)
    } else if order.len() >= cap {
        order.drop_first().push(k)
    } else {
        order.push(k)
    }
}

/// The stored values after storing `v` under `k` (values of any type).
pub open spec fn put_entries<V>(
    entries: Map<Seq<char>, V>,
    order: Seq<Seq<char>>,
    cap: nat,
    k: Seq<char>,
    v: V,
) -> Map<Seq<char>, V> {
    if !order.contains(k) && order.len() >= cap && order.len() > 0 {
        entries.remove(order[0]).insert(k, v)
    } else {
        entries.insert(k, v)
    }
}

/// The order holds each key once, fits the bound, and matches the stored keys.
pub open spec fn lru_consistent<V>(order: Seq<Seq<char>>, entries: Map<Seq<char>, V>, cap: nat) -> bool {
    &&& cap > 0
    &&& order.no_duplicates()
    &&& order.len() <= cap
    &&& forall|k: Seq<char>| #[trigger] entries.contains_key(k) <==> order.contains(k)
}

/// Relies on `LruCache::new`: an empty cache bounded by `cap` entries.
#[verifier::external_body]
fn lru_new(cap: usize) -> (c: LruCache<String, usize>)
    requires
        cap > 0,
    ensures
        lru_order(c) == Seq::<Seq<char>>::empty(),
        lru_slots(c).is_empty(),
        lru_capacity(c) == cap,
{
    LruCache::new(std::num::NonZeroUsize::new(cap).unwrap())
}

/// Relies on `LruCache::put`: an existing key gets the new value and becomes most
/// recent; a new key is attached as most recent, replacing the least recent entry
/// when the cache already holds `cap` entries.
#[verifier::external_body]
fn lru_put(c: &mut LruCache<String, usize>, k: String, v: usize)
    requires
        lru_consistent(lru_order(*old(c)), lru_slots(*old(c)), lru_capacity(*old(c))),
    ensures
        lru_capacity(*final(c)) == lru_capacity(*old(c)),
        lru_order(*final(c)) == put_order(lru_order(*old(c)), lru_capacity(*old(c)), k@),
        lru_slots(*final(c)) == put_entries(
            lru_slots(*old(c)),
            lru_order(*old(c)),
            lru_capacity(*old(c)),
            k@,
            v,
        ),
{
    c.put(k, v);
}

/// Relies on `LruCache::get`: the value of a present key, which becomes most recent.
#[verifier::external_body]
fn lru_get(c: &mut LruCache<String, usize>, k: &str) -> (r: Option<usize>)
    requires
        lru_consistent(lru_order(*old(c)), lru_slots(*old(c)), lru_capacity(*old(c))),
    ensures
        lru_capacity(*final(c)) == lru_capacity(*old(c)),
        lru_slots(*final(c)) == lru_slots(*old(c)),
        lru_order(*final(c)) == touch(lru_order(*old(c)), k@),
        r == (if lru_slots(*old(c)).contains_key(k@) {
            Some(lru_slots(*old(c))[k@])
        } else {
            None
        }),
{
    c.get(k).copied()
}

/// Relies on `LruCache::peek_lru`: the value of the least recently used key, without
/// changing the order.
#[verifier::external_body]
fn lru_peek_lru(c: &LruCache<String, usize>) -> (r: Option<usize>)
    requires
        lru_consistent(lru_order(*c), lru_slots(*c), lru_capacity(*c)),
    ensures
        r == (if lru_order(*c).len() > 0 {
            Some(lru_slots(*c)[lru_order(*c)[0]])
        } else {
            None
        }),
{
    c.peek_lru().map(|(_, v)| *v)
}

/// Results by query text, bounded, least recently used out first.
pub struct QueryCache<V> {
    lru: LruCache<String, usize>,
    slots: Vec<V>,
    cap: usize,
}

impl<V> QueryCache<V> {
    /// Keys from least to most recently used.
    pub closed spec fn order(&self) -> Seq<Seq<char>> {
        lru_order(self.lru)
    }

    /// The stored result of each key.
    pub closed spec fn entries(&self) -> Map<Seq<char>, V> {
        Map::new(
            |k: Seq<char>| lru_slots(self.lru).contains_key(k),
            |k: Seq<char>| self.slots@[lru_slots(self.lru)[k] as int],
        )
    }

    /// The most entries held at once.
    pub closed spec fn capacity(&self) -> nat {
        lru_capacity(self.lru)
    }

    /// Each held key owns one slot of its own, and every slot is owned.
    pub closed spec fn wf(&self) -> bool {
        let slots = lru_slots(self.lru);
        &&& lru_consistent(lru_order(self.lru), slots, lru_capacity(self.lru))
        &&& self.cap == lru_capacity(self.lru)
        &&& self.slots@.len() == lru_order(self.lru).len()
        &&& forall|k: Seq<char>| #[trigger] slots.contains_key(k) ==> slots[k] < self.slots@.len()
        &&& forall|k1: Seq<char>, k2: Seq<char>|
            #[trigger] slots.contains_key(k1) && #[trigger] slots.contains_key(k2) && k1 != k2
                ==> slots[k1] != slots[k2]
    }

    /// A well-formed cache holds a result for exactly the keys of its order, each key once,
    /// never more keys than its positive capacity.
    pub proof fn lemma_wf_consistent(&self)
        requires
            self.wf(),
        ensures
            lru_consistent(self.order(), self.entries(), self.capacity()),
    {
        assert forall|k: Seq<char>| #[trigger] self.entries().contains_key(k) <==> self.order().contains(k) by {
            assert(self.entries().contains_key(k) == lru_slots(self.lru).contains_key(k));
        }
    }

    /// The stored result for exactly this query text, which becomes the most recently used.
    pub fn get(&mut self, key: &str) -> (r: Option<&V>)
        requires
            old(self).wf(),
        ensures
            final(self).wf(),
            final(self).capacity() == old(self).capacity(),
            final(self).entries() == old(self).entries(),
            final(self).order() == touch(old(self).order(), key@),
            match r {
                Some(v) => old(self).entries().contains_key(key@) && *v == old(self).entries()[key@],
                None => !old(self).entries().contains_key(key@),
            },
    {
        let found = lru_get(&mut self.lru, key);
        proof {
            lemma_touch_keeps_keys(old(self).order(), key@);
            assert(self.entries() =~= old(self).entries());
        }
        match found {
            None => None,
            Some(s) => Some(&self.slots[s]),
        }
    }

    /// Stores a result as the most recently used, evicting the least recently used entry
    /// first when the cache is full and the key is new.
    pub fn put(&mut self, key: String, value: V)
        requires
            old(self).wf(),
        ensures
            final(self).wf(),
            final(self).capacity() == old(self).capacity(),
            final(self).order() == put_order(old(self).order(), old(self).capacity(), key@),
            final(self).entries() == put_entries(
                old(self).entries(),
                old(self).order(),
                old(self).capacity(),
                key@,
                value,
            ),
    {
        let ghost k = key@;
        let ghost order0 = self.order();
        let ghost slots0 = lru_slots(self.lru);
        let ghost vals0 = self.slots@;
        let ghost entries0 = self.entries();
        match lru_get(&mut self.lru, key.as_str()) {
            Some(s) => {
                self.slots.set(s, value);
                proof {
                    lemma_touch_keeps_keys(order0, k);
                    assert(self.entries() =~= entries0.insert(k, value));
                }
            },
            None => {
                if self.slots.len() >= self.cap {
                    match lru_peek_lru(&self.lru) {
                        Some(s) => {
                            proof {
                                assert(self.order() == order0);
                                assert(order0.contains(order0[0]));
                                assert(slots0.contains_key(order0[0]));
                            }
                            self.slots.set(s, value);
                            lru_put(&mut self.lru, key, s);
                            proof {
                                let gone = order0[0];
                                let slots2 = lru_slots(self.lru);
                                assert(slots2 == slots0.remove(gone).insert(k, s));
                                lemma_evict_keeps_order(order0, k);
                                assert forall|x: Seq<char>| #[trigger] slots2.contains_key(x)
                                    implies slots2[x] < self.slots@.len() by {
                                    if x != k {
                                        assert(slots0.contains_key(x));
                                    }
                                }
                                assert forall|x1: Seq<char>, x2: Seq<char>|
                                    #[trigger] slots2.contains_key(x1) && #[trigger] slots2.contains_key(x2)
                                        && x1 != x2 implies slots2[x1] != slots2[x2] by {
                                    if x1 != k && x2 != k {
                                        assert(slots0.contains_key(x1) && slots0.contains_key(x2));
                                    } else if x1 == k {
                                        assert(slots0.contains_key(x2) && x2 != gone);
                                    } else {
                                        assert(slots0.contains_key(x1) && x1 != gone);
                                    }
                                }
                                assert forall|x: Seq<char>| slots2.contains_key(x) && x != k
                                    implies #[trigger] self.slots@[slots2[x] as int] == vals0[slots0[x] as int] by {
                                    assert(slots0.contains_key(x) && x != gone);
                                }
                                assert(self.entries() =~= entries0.remove(gone).insert(k, value));
                            }
                        },
                        None => {
                            lru_put(&mut self.lru, key, self.slots.len());
                            self.slots.push(value);
                        },
                    }
                } else {
                    let s = self.slots.len();
                    self.slots.push(value);
                    lru_put(&mut self.lru, key, s);
                    proof {
                        let slots2 = lru_slots(self.lru);
                        assert(slots2 == slots0.insert(k, s));
                        lemma_append_keeps_order(order0, k);
                        assert forall|x1: Seq<char>, x2: Seq<char>|
                            #[trigger] slots2.contains_key(x1) && #[trigger] slots2.contains_key(x2)
                                && x1 != x2 implies slots2[x1] != slots2[x2] by {
                            if x1 != k && x2 != k {
                                assert(slots0.contains_key(x1) && slots0.contains_key(x2));
                            }
                        }
                        assert forall|x: Seq<char>| slots2.contains_key(x) && x != k
                            implies #[trigger] self.slots@[slots2[x] as int] == vals0[slots0[x] as int] by {
                            assert(slots0.contains_key(x));
                        }
                        assert(self.entries() =~= entries0.insert(k, value));
                    }
                }
            },
        }
    }
}

/// A cache holding at most `size` results; a size of zero is a configuration error.
pub fn initialize_cache<V>(size: usize) -> (r: Result<QueryCache<V>, String>)
    ensures
        match r {
            Ok(c) => {
                &&& size > 0
                &&& c.wf()
                &&& c.capacity() == size
                &&& c.order().len() == 0
                &&& c.entries() == Map::<Seq<char>, V>::empty()
            },
            Err(e) => size == 0 && e@ == "Cache size must be a non-zero value"@,
        },
{
    if size == 0 {
        return Err(String::from_str("Cache size must be a non-zero value"));
    }
    let c = QueryCache { lru: lru_new(size), slots: Vec::new(), cap: size };
    proof {
        assert(c.order().no_duplicates());
        assert(c.entries() =~= Map::<Seq<char>, V>::empty());
    }
    Ok(c)
}

/// Looks a query up: its stored result, if any, refreshing its recency.
pub fn check_cache<'a, V>(cache: &'a mut QueryCache<V>, query: &str) -> (r: Option<&'a V>)
    requires
        old(cache).wf(),
    ensures
        final(cache).wf(),
        final(cache).capacity() == old(cache).capacity(),
        final(cache).entries() == old(cache).entries(),
        final(cache).order() == touch(old(cache).order(), query@),
        match r {
            Some(v) => old(cache).entries().contains_key(query@) && *v == old(cache).entries()[query@],
            None => !old(cache).entries().contains_key(query@),
        },
{
    cache.get(query)
}

/// Using a key keeps the same keys, once each.
proof fn lemma_touch_keeps_keys(order: Seq<Seq<char>>, k: Seq<char>)
    requires
        order.no_duplicates(),
    ensures
        touch(order, k).no_duplicates(),
        touch(order, k).len() == order.len(),
        forall|x: Seq<char>| #[trigger] touch(order, k).contains(x) <==> order.contains(x),
{
    if order.contains(k) {
        let i = choose|i: int| 0 <= i < order.len() && order[i] == k;
        lemma_first_is_only(order, k, i);
        let rem = order.remove(i);
        order.remove_ensures(i);
        let t = rem.push(k);
        assert forall|x: Seq<char>| #[trigger] t.contains(x) <==> order.contains(x) by {
            if order.contains(x) {
                let j = choose|j: int| 0 <= j < order.len() && order[j] == x;
                if j < i {
                    assert(t[j] == x);
                } else if j > i {
                    assert(t[j - 1] == x);
                } else {
                    assert(t[t.len() - 1] == x);
                }
            }
            if t.contains(x) {
                let j = choose|j: int| 0 <= j < t.len() && t[j] == x;
                if j < i {
                    assert(order[j] == x);
                } else if j < t.len() - 1 {
                    assert(order[j + 1] == x);
                } else {
                    assert(order[i] == x);
                }
            }
        }
        assert forall|a: int, b: int| 0 <= a < t.len() && 0 <= b < t.len() && a != b implies t[a]
            != t[b] by {
            let oa = if a < i { a } else if a < t.len() - 1 { a + 1 } else { i };
            let ob = if b < i { b } else if b < t.len() - 1 { b + 1 } else { i };
            assert(t[a] == order[oa]);
            assert(t[b] == order[ob]);
        }
    }
}

/// Dropping the least recent key and appending a new one keeps each key once.
proof fn lemma_evict_keeps_order(order: Seq<Seq<char>>, k: Seq<char>)
    requires
        order.no_duplicates(),
        order.len() > 0,
        !order.contains(k),
    ensures
        order.drop_first().push(k).no_duplicates(),
        forall|x: Seq<char>| #[trigger] order.drop_first().push(k).contains(x) <==> (x == k || (
        order.contains(x) && x != order[0])),
{
    let o2 = order.drop_first().push(k);
    assert forall|x: Seq<char>| #[trigger] o2.contains(x) <==> (x == k || (order.contains(x) && x
        != order[0])) by {
        if o2.contains(x) && x != k {
            let j = choose|j: int| 0 <= j < o2.len() && o2[j] == x;
            assert(order[j + 1] == x);
        }
        if order.contains(x) && x != order[0] && x != k {
            let j = choose|j: int| 0 <= j < order.len() && order[j] == x;
            assert(o2[j - 1] == x);
        }
        if x == k {
            assert(o2[o2.len() - 1] == k);
        }
    }
    assert forall|a: int, b: int| 0 <= a < o2.len() && 0 <= b < o2.len() && a != b implies o2[a]
        != o2[b] by {
        if a < o2.len() - 1 {
            assert(o2[a] == order[a + 1]);
        }
        if b < o2.len() - 1 {
            assert(o2[b] == order[b + 1]);
        }
    }
}

/// Appending a new key keeps each key once.
proof fn lemma_append_keeps_order(order: Seq<Seq<char>>, k: Seq<char>)
    requires
        order.no_duplicates(),
        !order.contains(k),
    ensures
        order.push(k).no_duplicates(),
        forall|x: Seq<char>| #[trigger] order.push(k).contains(x) <==> (x == k || order.contains(x)),
{
    let o2 = order.push(k);
    assert forall|x: Seq<char>| #[trigger] o2.contains(x) <==> (x == k || order.contains(x)) by {
        if o2.contains(x) && x != k {
            let j = choose|j: int| 0 <= j < o2.len() && o2[j] == x;
            assert(order[j] == x);
        }
        if order.contains(x) {
            let j = choose|j: int| 0 <= j < order.len() && order[j] == x;
            assert(o2[j] == x);
        }
        if x == k {
            assert(o2[o2.len() - 1] == k);
        }
    }
}

/// In a sequence without duplicates, the first position of a present key is its only one.
proof fn lemma_first_is_only(order: Seq<Seq<char>>, k: Seq<char>, i: int)
    requires
        order.no_duplicates(),
        0 <= i < order.len(),
        order[i] == k,
    ensures
        first_index(order, k) == i,
{
    assert(is_first_index(order, k, i));
    lemma_first_index(order, k, i);
}

/// The order after storing each of `keys` in turn into an empty cache bounded by `cap`.
pub open spec fn puts(cap: nat, keys: Seq<Seq<char>>) -> Seq<Seq<char>>
    decreases keys.len(),
{
    if keys.len() == 0 {
        Seq::empty()
    } else {
        put_order(puts(cap, keys.drop_last()), cap, keys.last())
    }
}

/// Storing a new key into a full cache evicts exactly its least recently used key and
/// keeps every other key.
pub proof fn lemma_put_evicts_least_recent(order: Seq<Seq<char>>, cap: nat, k: Seq<char>)
    requires
        order.no_duplicates(),
        order.len() == cap,
        cap > 0,
        !order.contains(k),
    ensures
        put_order(order, cap, k) == order.drop_first().push(k),
        !put_order(order, cap, k).contains(order[0]),
        forall|x: Seq<char>|
            order.contains(x) && x != order[0] ==> #[trigger] put_order(order, cap, k).contains(x),
{
    lemma_evict_keeps_order(order, k);
}

/// Storing a new key into a full cache drops exactly the result of its least recently used
/// key and keeps every other result.
pub proof fn lemma_put_evicts_least_recent_entry<V>(
    order: Seq<Seq<char>>,
    entries: Map<Seq<char>, V>,
    cap: nat,
    k: Seq<char>,
    v: V,
)
    requires
        lru_consistent(order, entries, cap),
        order.len() == cap,
        !entries.contains_key(k),
    ensures
        put_entries(entries, order, cap, k, v) == entries.remove(order[0]).insert(k, v),
        !put_entries(entries, order, cap, k, v).contains_key(order[0]),
        forall|x: Seq<char>|
            entries.contains_key(x) && x != order[0] ==> #[trigger] put_entries(
                entries,
                order,
                cap,
                k,
                v,
            ).contains_key(x) && put_entries(entries, order, cap, k, v)[x] == entries[x],
        lru_consistent(put_order(order, cap, k), put_entries(entries, order, cap, k, v), cap),
{
    assert(order.contains(order[0]));
    assert(order[0] != k);
    lemma_evict_keeps_order(order, k);
    let o2 = put_order(order, cap, k);
    let e2 = put_entries(entries, order, cap, k, v);
    assert forall|x: Seq<char>| #[trigger] e2.contains_key(x) <==> o2.contains(x) by {}
}

/// Storing `cap + 1` distinct keys into an empty cache bounded by `cap` leaves all of
/// them but the first, which is the least recently used.
pub proof fn lemma_overflow_evicts_first(cap: nat, keys: Seq<Seq<char>>)
    requires
        cap > 0,
        keys.len() == cap + 1,
        keys.no_duplicates(),
    ensures
        puts(cap, keys) == keys.drop_first(),
{
    lemma_puts_below_capacity(cap, keys, cap);
    assert(keys.drop_last() =~= keys.take(cap as int));
    assert(!keys.take(cap as int).contains(keys.last())) by {
        if keys.take(cap as int).contains(keys.last()) {
            let j = choose|j: int| 0 <= j < cap && #[trigger] keys.take(cap as int)[j] == keys.last();
            assert(keys[j] == keys[cap as int]);
        }
    }
    assert(keys.take(cap as int).drop_first().push(keys.last()) =~= keys.drop_first());
}

/// Until the bound is reached, storing distinct keys keeps them all, in order.
proof fn lemma_puts_below_capacity(cap: nat, keys: Seq<Seq<char>>, m: nat)
    requires
        m <= cap,
        m <= keys.len(),
        keys.no_duplicates(),
    ensures
        puts(cap, keys.take(m as int)) == keys.take(m as int),
    decreases m,
{
    if m > 0 {
        lemma_puts_below_capacity(cap, keys, (m - 1) as nat);
        let pre = keys.take(m as int);
        assert(pre.drop_last() =~= keys.take(m - 1));
        assert(!keys.take(m - 1).contains(keys[m - 1])) by {
            if keys.take(m - 1).contains(keys[m - 1]) {
                let j = choose|j: int| 0 <= j < m - 1 && #[trigger] keys.take(m - 1)[j] == keys[m - 1];
                assert(keys[j] == keys[m - 1]);
            }
        }
        assert(keys.take(m - 1).push(keys[m - 1]) =~= pre);
    }
}

/// Using a present key makes it the most recently used, keeping the same keys; a new
/// key stored into the then full cache evicts some other key, never the one just used.
pub proof fn lemma_get_refreshes(order: Seq<Seq<char>>, cap: nat, k: Seq<char>, k2: Seq<char>)
    requires
        order.no_duplicates(),
        order.contains(k),
        order.len() == cap,
        cap >= 2,
        !order.contains(k2),
    ensures
        touch(order, k).last() == k,
        forall|x: Seq<char>| #[trigger] touch(order, k).contains(x) <==> order.contains(x),
        put_order(touch(order, k), cap, k2).contains(k),
{
    lemma_touch_keeps_keys(order, k);
    let t = touch(order, k);
    assert(!t.contains(k2));
    lemma_evict_keeps_order(t, k2);
    assert(t[0] != k) by {
        assert(t[t.len() - 1] == k);
    }
    assert(t.contains(k)) by {
        assert(t[t.len() - 1] == k);
    }
}

} // verus!
