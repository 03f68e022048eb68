//! A bounded cache that gives up the entry that was used least recently: a
//! doubly linked list in a slab of slots, with a free list, and a hash table that
//! leads from a key to its slot. No operation walks through the entries, but those
//! that hand all of them out or drop them all.

use std::collections::HashMap;
use vstd::hash_map::StringHashMap;
use vstd::prelude::*;

verus! {

broadcast use vstd::std_specs::hash::group_hash_axioms;

/// Where the entries of keys stand, by a hash of the key.
pub trait KeyIndex<K: View>: Sized {
    /// The slot of each key.
    spec fn places(&self) -> Map<K::V, usize>;

    /// No keys.
    fn empty() -> (r: Self)
        ensures
            r.places() == Map::<K::V, usize>::empty(),
    ;

    /// The slot of a key.
    fn place(&self, key: &K) -> (r: Option<usize>)
        ensures
            match r {
                Some(at) => self.places().contains_key(key@) && self.places()[key@] == at,
                None => !self.places().contains_key(key@),
            },
    ;

    /// Keeps the slot of a key.
    fn note(&mut self, key: &K, at: usize)
        ensures
            final(self).places() == old(self).places().insert(key@, at),
    ;

    /// Forgets a key.
    fn forget(&mut self, key: &K)
        ensures
            final(self).places() == old(self).places().remove(key@),
    ;
}

/// A key of the cache, known by its view.
pub trait CacheKey: View + Sized {
    /// The hash table for such keys.
    type Index: KeyIndex<Self>;
}

/// The slots of texts.
pub struct TextIndex {
    slots: StringHashMap<usize>,
}

impl KeyIndex<String> for TextIndex {
    closed spec fn places(&self) -> Map<Seq<char>, usize> {
        self.slots@
    }

    fn empty() -> (r: Self) {
        TextIndex { slots: StringHashMap::new() }
    }

    fn place(&self, key: &String) -> (r: Option<usize>) {
        match self.slots.get(key.as_str()) {
            Some(at) => Some(*at),
            None => None,
        }
    }

    fn note(&mut self, key: &String, at: usize) {
        self.slots.insert(key.clone(), at);
    }

    fn forget(&mut self, key: &String) {
        self.slots.remove(key.as_str());
    }
}

impl CacheKey for String {
    type Index = TextIndex;
}

/// The slots of numbers.
pub struct NumberIndex {
    slots: HashMap<u64, usize>,
}

impl KeyIndex<u64> for NumberIndex {
    closed spec fn places(&self) -> Map<u64, usize> {
        self.slots@
    }

    fn empty() -> (r: Self) {
        NumberIndex { slots: HashMap::new() }
    }

    fn place(&self, key: &u64) -> (r: Option<usize>) {
        match self.slots.get(key) {
            Some(at) => Some(*at),
            None => None,
        }
    }

    fn note(&mut self, key: &u64, at: usize) {
        let _ = self.slots.insert(*key, at);
    }

    fn forget(&mut self, key: &u64) {
        let _ = self.slots.remove(key);
    }
}

impl CacheKey for u64 {
    type Index = NumberIndex;
}

// ---------------------------------------------------------------------------
// The cache as a sequence of entries, the most recently used one first
// ---------------------------------------------------------------------------

/// Where the entry with key `k` stands.
pub open spec fn at_key<A, V>(entries: Seq<(A, V)>, k: A, i: int) -> bool {
    0 <= i < entries.len() && entries[i].0 == k
}

/// Whether there is an entry with key `k`.
pub open spec fn has_key<A, V>(entries: Seq<(A, V)>, k: A) -> bool {
    exists|i: int| at_key(entries, k, i)
}

/// The place of the entry with key `k`.
pub open spec fn key_index<A, V>(entries: Seq<(A, V)>, k: A) -> int {
    choose|i: int| at_key(entries, k, i)
}

/// No two entries share a key.
pub open spec fn keys_distinct<A, V>(entries: Seq<(A, V)>) -> bool {
    forall|i: int, j: int|
        0 <= i < j < entries.len() ==> (#[trigger] entries[i]).0 != (#[trigger] entries[j]).0
}

/// The entry at `i` moves to the front.
pub open spec fn promote<A, V>(entries: Seq<(A, V)>, i: int) -> Seq<(A, V)> {
    seq![entries[i]] + entries.remove(i)
}

/// The entries behind a [`LruCache::get`].
pub open spec fn touch<A, V>(entries: Seq<(A, V)>, k: A) -> Seq<(A, V)> {
    if has_key(entries, k) {
        promote(entries, key_index(entries, k))
    } else {
        entries
    }
}

/// The entries behind a [`LruCache::put`], and the entry given up.
pub open spec fn store<A, V>(entries: Seq<(A, V)>, capacity: nat, k: A, v: V) -> (
    Seq<(A, V)>,
    Option<(A, V)>,
) {
    if has_key(entries, k) {
        let i = key_index(entries, k);
        (promote(entries.update(i, (k, v)), i), None)
    } else {
        let grown = seq![(k, v)] + entries;
        if grown.len() > capacity {
            (grown.drop_last(), Some(grown.last()))
        } else {
            (grown, None)
        }
    }
}

/// The entries behind a [`LruCache::remove`].
pub open spec fn drop_key<A, V>(entries: Seq<(A, V)>, k: A) -> Seq<(A, V)> {
    if has_key(entries, k) {
        entries.remove(key_index(entries, k))
    } else {
        entries
    }
}

/// The place of a key where no key is there twice.
pub proof fn lemma_key_index<A, V>(entries: Seq<(A, V)>, k: A, i: int)
    requires
        keys_distinct(entries),
        at_key(entries, k, i),
    ensures
        has_key(entries, k),
        key_index(entries, k) == i,
{
    let j = key_index(entries, k);
    assert(at_key(entries, k, j));
    if i < j {
        assert(entries[i].0 != entries[j].0);
    } else if j < i {
        assert(entries[j].0 != entries[i].0);
    }
}

/// A key that was just touched survives the next new entry, as long as the
/// cache holds two.
pub proof fn law_touched_key_survives<A, V>(
    entries: Seq<(A, V)>,
    capacity: nat,
    k: A,
    other: A,
    v: V,
)
    requires
        keys_distinct(entries),
        capacity >= 2,
        has_key(entries, k),
    ensures
        has_key(store(touch(entries, k), capacity, other, v).0, k),
{
    let i = key_index(entries, k);
    assert(at_key(entries, k, i));
    let t = touch(entries, k);
    assert(at_key(t, k, 0));
    let (s, _) = store(t, capacity, other, v);
    if has_key(t, other) {
        let j = key_index(t, other);
        assert(at_key(t, other, j));
        let u = t.update(j, (other, v));
        if j == 0 {
            assert(at_key(s, k, 0));
        } else {
            assert(s[1] == u.remove(j)[0]);
            assert(at_key(s, k, 1));
        }
    } else {
        assert(at_key(s, k, 1));
    }
}

/// What was stored is found, with the value that was stored last, unless the
/// cache holds nothing.
pub proof fn law_stored_value_is_found<A, V>(entries: Seq<(A, V)>, capacity: nat, k: A, v: V)
    requires
        keys_distinct(entries),
        entries.len() <= capacity,
        capacity >= 1,
    ensures
        ({
            let (s, _) = store(entries, capacity, k, v);
            &&& at_key(s, k, 0)
            &&& s[0].1 == v
        }),
{
    if has_key(entries, k) {
        assert(at_key(entries, k, key_index(entries, k)));
    }
}

/// The entry given up is the one at the far end, and only where the cache was
/// full; nothing else is lost.
pub proof fn law_eviction_takes_the_oldest<A, V>(entries: Seq<(A, V)>, capacity: nat, k: A, v: V)
    requires
        entries.len() <= capacity,
        !has_key(entries, k),
    ensures
        ({
            let (s, gone) = store(entries, capacity, k, v);
            &&& gone is Some <==> entries.len() == capacity
            &&& gone is Some && capacity > 0 ==> gone == Some(entries.last()) && s == seq![(k, v)]
                + entries.drop_last()
            &&& gone is None ==> s == seq![(k, v)] + entries
        }),
{
    let grown = seq![(k, v)] + entries;
    if entries.len() == capacity && capacity > 0 {
        assert(grown.drop_last() =~= seq![(k, v)] + entries.drop_last());
    }
}

// ---------------------------------------------------------------------------
// Sequences of calls
// ---------------------------------------------------------------------------

/// A call that can change the entries.
pub enum CacheOp<A, V> {
    /// [`LruCache::get`].
    Get(A),
    /// [`LruCache::get_mut`], and the value that was left behind.
    GetMut(A, V),
    /// [`LruCache::put`].
    Put(A, V),
    /// [`LruCache::remove`].
    Remove(A),
    /// [`LruCache::clear`].
    Clear,
}

/// The entries behind a call.
pub open spec fn entries_behind<A, V>(entries: Seq<(A, V)>, capacity: nat, op: CacheOp<A, V>) -> Seq<
    (A, V),
> {
    match op {
        CacheOp::Get(k) => touch(entries, k),
        CacheOp::GetMut(k, v) => if has_key(entries, k) {
            touch(entries, k).update(0, (k, v))
        } else {
            entries
        },
        CacheOp::Put(k, v) => store(entries, capacity, k, v).0,
        CacheOp::Remove(k) => drop_key(entries, k),
        CacheOp::Clear => Seq::empty(),
    }
}

/// The entries of a new cache behind these calls, in their order.
pub open spec fn entries_after<A, V>(capacity: nat, ops: Seq<CacheOp<A, V>>) -> Seq<(A, V)>
    decreases ops.len(),
{
    if ops.len() == 0 {
        Seq::empty()
    } else {
        entries_behind(entries_after(capacity, ops.drop_last()), capacity, ops.last())
    }
}

/// The call uses the key.
pub open spec fn uses<A, V>(op: CacheOp<A, V>, k: A) -> bool {
    match op {
        CacheOp::Get(x) => x == k,
        CacheOp::GetMut(x, _) => x == k,
        CacheOp::Put(x, _) => x == k,
        _ => false,
    }
}

/// Which call was the last to use the key, counted from one.
pub open spec fn last_use<A, V>(ops: Seq<CacheOp<A, V>>, k: A) -> nat
    decreases ops.len(),
{
    if ops.len() == 0 {
        0
    } else if uses(ops.last(), k) {
        ops.len()
    } else {
        last_use(ops.drop_last(), k)
    }
}

proof fn lemma_last_use_is_past<A, V>(ops: Seq<CacheOp<A, V>>, k: A)
    ensures
        last_use(ops, k) <= ops.len(),
    decreases ops.len(),
{
    if ops.len() > 0 {
        lemma_last_use_is_past(ops.drop_last(), k);
    }
}

/// Over any calls, the entries stand in the order of their last use, the most
/// recently used first. No key is there twice, and there are never more entries
/// than the cache may hold.
pub proof fn law_order_is_by_last_use<A, V>(capacity: nat, ops: Seq<CacheOp<A, V>>)
    ensures
        ({
            let entries = entries_after(capacity, ops);
            &&& keys_distinct(entries)
            &&& entries.len() <= capacity
            &&& forall|i: int, j: int|
                0 <= i < j < entries.len() ==> last_use(ops, (#[trigger] entries[i]).0) > last_use(
                    ops,
                    (#[trigger] entries[j]).0,
                )
        }),
    decreases ops.len(),
{
    if ops.len() > 0 {
        let past = ops.drop_last();
        let e = entries_after(capacity, past);
        let s = entries_after(capacity, ops);
        law_order_is_by_last_use(capacity, past);
        assert forall|k: A| last_use(past, k) < ops.len() by {
            lemma_last_use_is_past(past, k);
        }
        match ops.last() {
            CacheOp::Get(k) | CacheOp::GetMut(k, _) => {
                if has_key(e, k) {
                    let i = key_index(e, k);
                    assert(at_key(e, k, i));
                    assert(s.skip(1) =~= e.remove(i));
                    lemma_used_goes_first(e, s, i);
                } else {
                    assert forall|j: int| 0 <= j < e.len() implies (#[trigger] e[j]).0 != k by {
                        assert(!at_key(e, k, j));
                    }
                }
            },
            CacheOp::Put(k, v) => {
                if has_key(e, k) {
                    let i = key_index(e, k);
                    assert(at_key(e, k, i));
                    assert(s.skip(1) =~= e.remove(i));
                    lemma_used_goes_first(e, s, i);
                } else {
                    let grown = seq![(k, v)] + e;
                    assert forall|j: int| 0 <= j < s.len() implies s[j] == grown[j] by {}
                    assert forall|j: int| 0 < j < s.len() implies (#[trigger] s[j]) == e[j - 1]
                        && s[j].0 != k by {
                        if s[j].0 == k {
                            assert(at_key(e, k, j - 1));
                        }
                    }
                }
            },
            CacheOp::Remove(k) => {
                if has_key(e, k) {
                    let i = key_index(e, k);
                    assert(at_key(e, k, i));
                    assert forall|j: int| 0 <= j < s.len() implies (#[trigger] s[j]) == if j < i {
                        e[j]
                    } else {
                        e[j + 1]
                    } by {}
                }
            },
            CacheOp::Clear => {},
        }
        assert forall|i: int, j: int| 0 <= i < j < s.len() implies last_use(
            ops,
            (#[trigger] s[i]).0,
        ) > last_use(ops, (#[trigger] s[j]).0) by {
            assert(last_use(past, s[j].0) < ops.len());
        }
    }
}

/// The used entry goes to the front, and the others follow as they stood.
proof fn lemma_used_goes_first<A, V>(e: Seq<(A, V)>, s: Seq<(A, V)>, i: int)
    requires
        keys_distinct(e),
        0 <= i < e.len(),
        s.len() == e.len(),
        s[0].0 == e[i].0,
        s.skip(1) == e.remove(i),
    ensures
        forall|j: int|
            0 < j < s.len() ==> (#[trigger] s[j]) == if j <= i {
                e[j - 1]
            } else {
                e[j]
            } && s[j].0 != s[0].0,
{
    assert forall|j: int| 0 < j < s.len() implies (#[trigger] s[j]) == if j <= i {
        e[j - 1]
    } else {
        e[j]
    } && s[j].0 != s[0].0 by {
        assert(s[j] == s.skip(1)[j - 1]);
    }
}

/// Over any calls, the entry that a full cache gives up is the one whose last
/// use lies furthest back.
pub proof fn law_least_recently_used_goes<A, V>(
    capacity: nat,
    ops: Seq<CacheOp<A, V>>,
    k: A,
    v: V,
)
    requires
        capacity > 0,
    ensures
        ({
            let entries = entries_after(capacity, ops);
            store(entries, capacity, k, v).1 matches Some(gone) ==> entries.contains(gone)
                && forall|i: int|
                0 <= i < entries.len() && (#[trigger] entries[i]).0 != gone.0 ==> last_use(
                    ops,
                    entries[i].0,
                ) > last_use(ops, gone.0)
        }),
{
    let entries = entries_after(capacity, ops);
    law_order_is_by_last_use(capacity, ops);
    if !has_key(entries, k) {
        law_eviction_takes_the_oldest(entries, capacity, k, v);
    }
}

/// The value that the last call that stored one left for a key.
pub open spec fn last_stored<A, V>(ops: Seq<CacheOp<A, V>>, k: A) -> Option<V>
    decreases ops.len(),
{
    if ops.len() == 0 {
        None
    } else {
        match ops.last() {
            CacheOp::GetMut(x, v) => if x == k {
                Some(v)
            } else {
                last_stored(ops.drop_last(), k)
            },
            CacheOp::Put(x, v) => if x == k {
                Some(v)
            } else {
                last_stored(ops.drop_last(), k)
            },
            _ => last_stored(ops.drop_last(), k),
        }
    }
}

/// Over any calls, every entry has the value that was stored last for its key.
pub proof fn law_value_is_the_last_stored<A, V>(capacity: nat, ops: Seq<CacheOp<A, V>>)
    ensures
        ({
            let entries = entries_after(capacity, ops);
            forall|i: int|
                0 <= i < entries.len() ==> last_stored(ops, (#[trigger] entries[i]).0) == Some(
                    entries[i].1,
                )
        }),
    decreases ops.len(),
{
    if ops.len() > 0 {
        let past = ops.drop_last();
        let e = entries_after(capacity, past);
        let s = entries_after(capacity, ops);
        law_value_is_the_last_stored(capacity, past);
        law_order_is_by_last_use(capacity, past);
        match ops.last() {
            CacheOp::Get(k) | CacheOp::GetMut(k, _) => {
                if has_key(e, k) {
                    let i = key_index(e, k);
                    assert(at_key(e, k, i));
                    assert(s.skip(1) =~= e.remove(i));
                    lemma_used_goes_first(e, s, i);
                } else {
                    assert forall|j: int| 0 <= j < e.len() implies (#[trigger] e[j]).0 != k by {
                        assert(!at_key(e, k, j));
                    }
                }
            },
            CacheOp::Put(k, v) => {
                if has_key(e, k) {
                    let i = key_index(e, k);
                    assert(at_key(e, k, i));
                    assert(s.skip(1) =~= e.remove(i));
                    lemma_used_goes_first(e, s, i);
                } else {
                    let grown = seq![(k, v)] + e;
                    assert forall|j: int| 0 <= j < s.len() implies s[j] == grown[j] by {}
                    assert forall|j: int| 0 < j < s.len() implies (#[trigger] s[j]) == e[j - 1]
                        && s[j].0 != k by {
                        if s[j].0 == k {
                            assert(at_key(e, k, j - 1));
                        }
                    }
                }
            },
            CacheOp::Remove(k) => {
                if has_key(e, k) {
                    let i = key_index(e, k);
                    assert(at_key(e, k, i));
                    assert forall|j: int| 0 <= j < s.len() implies (#[trigger] s[j]) == if j < i {
                        e[j]
                    } else {
                        e[j + 1]
                    } by {}
                }
            },
            CacheOp::Clear => {},
        }
    }
}

/// A call leaves the entries alone that it is not about: each keeps its value and goes
/// back by one place at most, and only where the last place is taken does a new entry
/// push one out.
pub proof fn law_others_stay<A, V>(
    entries: Seq<(A, V)>,
    capacity: nat,
    op: CacheOp<A, V>,
    i: int,
)
    requires
        keys_distinct(entries),
        entries.len() <= capacity,
        0 <= i < entries.len(),
        !uses(op, entries[i].0),
        op != CacheOp::<A, V>::Remove(entries[i].0),
        !(op is Clear),
        i + 1 < capacity || !(op is Put) || has_key(entries, op->Put_0),
    ensures
        ({
            let s = entries_behind(entries, capacity, op);
            exists|j: int| i - 1 <= j <= i + 1 && 0 <= j < s.len() && #[trigger] s[j] == entries[i]
        }),
{
    let s = entries_behind(entries, capacity, op);
    match op {
        CacheOp::Get(k) | CacheOp::GetMut(k, _) => {
            if has_key(entries, k) {
                let p = key_index(entries, k);
                assert(at_key(entries, k, p));
                assert(s.skip(1) =~= entries.remove(p));
                lemma_used_goes_first(entries, s, p);
                let j = if i < p {
                    i + 1
                } else {
                    i
                };
                assert(s[j] == entries[i]);
            } else {
                assert(s[i] == entries[i]);
            }
        },
        CacheOp::Put(k, v) => {
            if has_key(entries, k) {
                let p = key_index(entries, k);
                assert(at_key(entries, k, p));
                assert(s.skip(1) =~= entries.remove(p));
                lemma_used_goes_first(entries, s, p);
                let j = if i < p {
                    i + 1
                } else {
                    i
                };
                assert(s[j] == entries[i]);
            } else {
                assert((seq![(k, v)] + entries)[i + 1] == entries[i]);
                assert(s[i + 1] == entries[i]);
            }
        },
        CacheOp::Remove(k) => {
            if has_key(entries, k) {
                let p = key_index(entries, k);
                assert(at_key(entries, k, p));
                let j = if i < p {
                    i
                } else {
                    i - 1
                };
                assert(s[j] == entries[i]);
            } else {
                assert(s[i] == entries[i]);
            }
        },
        CacheOp::Clear => {},
    }
}

/// A key that is removed is gone, and nothing is behind a clearing.
pub proof fn law_removed_is_gone<A, V>(entries: Seq<(A, V)>, capacity: nat, k: A)
    requires
        keys_distinct(entries),
    ensures
        !has_key(entries_behind(entries, capacity, CacheOp::Remove(k)), k),
        entries_behind(entries, capacity, CacheOp::<A, V>::Clear).len() == 0,
{
    let s = entries_behind(entries, capacity, CacheOp::Remove(k));
    if has_key(entries, k) {
        let p = key_index(entries, k);
        assert(at_key(entries, k, p));
        assert forall|j: int| !at_key(s, k, j) by {
            if 0 <= j < s.len() {
                if j < p {
                    assert(s[j] == entries[j]);
                    assert(entries[j].0 != entries[p].0);
                } else {
                    assert(s[j] == entries[j + 1]);
                    assert(entries[p].0 != entries[j + 1].0);
                }
            }
        }
    }
}

// ---------------------------------------------------------------------------
// The slab
// ---------------------------------------------------------------------------

struct Slot<K, V> {
    key: K,
    value: V,
    prev: Option<usize>,
    next: Option<usize>,
}

/// The slots of `order`, first to last, are linked in that order.
spec fn linked<K, V>(
    slots: Seq<Option<Slot<K, V>>>,
    order: Seq<usize>,
    head: Option<usize>,
    tail: Option<usize>,
) -> bool {
    &&& forall|i: int|
        0 <= i < order.len() ==> (#[trigger] order[i]) < slots.len() && slots[order[i] as int] is Some
    &&& forall|i: int, j: int|
        0 <= i < j < order.len() ==> (#[trigger] order[i]) != (#[trigger] order[j])
    &&& forall|i: int| 0 <= i < order.len() ==> #[trigger] link_ok(slots, order, i)
    &&& head == first_of(order)
    &&& tail == last_of(order)
}

/// The slot at place `i` of the order points to its neighbours.
spec fn link_ok<K, V>(slots: Seq<Option<Slot<K, V>>>, order: Seq<usize>, i: int) -> bool {
    &&& slots[order[i] as int]->Some_0.prev == before(order, i)
    &&& slots[order[i] as int]->Some_0.next == after(order, i)
}

spec fn before(order: Seq<usize>, i: int) -> Option<usize> {
    if i == 0 {
        None
    } else {
        Some(order[i - 1])
    }
}

spec fn after(order: Seq<usize>, i: int) -> Option<usize> {
    if i + 1 == order.len() {
        None
    } else {
        Some(order[i + 1])
    }
}

spec fn first_of(order: Seq<usize>) -> Option<usize> {
    if order.len() == 0 {
        None
    } else {
        Some(order[0])
    }
}

spec fn last_of(order: Seq<usize>) -> Option<usize> {
    if order.len() == 0 {
        None
    } else {
        Some(order.last())
    }
}

/// Two slabs with the same slots taken, keys and values; only links differ.
spec fn same_load<K, V>(a: Seq<Option<Slot<K, V>>>, b: Seq<Option<Slot<K, V>>>) -> bool {
    &&& a.len() == b.len()
    &&& forall|s: int|
        0 <= s < a.len() ==> ((#[trigger] a[s]) is Some <==> b[s] is Some) && (a[s] is Some
            ==> a[s]->Some_0.key == b[s]->Some_0.key && a[s]->Some_0.value == b[s]->Some_0.value)
}

fn set_prev<K, V>(slots: &mut Vec<Option<Slot<K, V>>>, at: usize, to: Option<usize>)
    requires
        at < old(slots)@.len(),
        old(slots)@[at as int] is Some,
    ensures
        final(slots)@ == old(slots)@.update(
            at as int,
            Some(Slot { prev: to, ..old(slots)@[at as int]->Some_0 }),
        ),
{
    match &mut slots[at] {
        Some(slot) => {
            slot.prev = to;
        },
        None => {},
    }
}

fn set_next<K, V>(slots: &mut Vec<Option<Slot<K, V>>>, at: usize, to: Option<usize>)
    requires
        at < old(slots)@.len(),
        old(slots)@[at as int] is Some,
    ensures
        final(slots)@ == old(slots)@.update(
            at as int,
            Some(Slot { next: to, ..old(slots)@[at as int]->Some_0 }),
        ),
{
    match &mut slots[at] {
        Some(slot) => {
            slot.next = to;
        },
        None => {},
    }
}

/// A cache of at most `capacity` entries.
pub struct LruCache<K: CacheKey, V> {
    index: K::Index,
    slots: Vec<Option<Slot<K, V>>>,
    free: Vec<usize>,
    head: Option<usize>,
    tail: Option<usize>,
    capacity: usize,
    order: Ghost<Seq<usize>>,
}

impl<K: CacheKey, V> View for LruCache<K, V> {
    type V = Seq<(K::V, V)>;

    /// The entries, the most recently used one first.
    closed spec fn view(&self) -> Seq<(K::V, V)> {
        entries_of(self.slots@, self.order@)
    }
}

spec fn entries_of<K: CacheKey, V>(slots: Seq<Option<Slot<K, V>>>, order: Seq<usize>) -> Seq<
    (K::V, V),
> {
    order.map_values(
        |s: usize| (slots[s as int]->Some_0.key@, slots[s as int]->Some_0.value),
    )
}

/// Every slot that is taken is in `order`, every other one in `free`.
spec fn accounted<K, V>(slots: Seq<Option<Slot<K, V>>>, order: Seq<usize>, free: Seq<usize>) -> bool {
    &&& forall|s: int|
        0 <= s < slots.len() && (#[trigger] slots[s]) is Some ==> order.contains(s as usize)
    &&& forall|j: int|
        0 <= j < free.len() ==> (#[trigger] free[j]) < slots.len() && slots[free[j] as int] is None
    &&& forall|i: int, j: int|
        0 <= i < j < free.len() ==> (#[trigger] free[i]) != (#[trigger] free[j])
    &&& slots.len() == order.len() + free.len()
}

/// The index leads from the key of each entry to its slot, and knows no other key.
spec fn noted<A, V>(places: Map<A, usize>, entries: Seq<(A, V)>, order: Seq<usize>) -> bool {
    &&& entries.len() == order.len()
    &&& forall|i: int|
        0 <= i < order.len() ==> places.contains_key((#[trigger] entries[i]).0)
            && places[entries[i].0] == order[i]
    &&& forall|k: A| #[trigger] places.contains_key(k) ==> has_key(entries, k)
}

/// The index stays right when an entry moves to the front.
proof fn lemma_noted_promoted<A, V>(
    places: Map<A, usize>,
    entries: Seq<(A, V)>,
    order: Seq<usize>,
    p: int,
)
    requires
        noted(places, entries, order),
        0 <= p < order.len(),
    ensures
        noted(places, promote(entries, p), seq![order[p]] + order.remove(p)),
{
    let m = promote(entries, p);
    let moved = seq![order[p]] + order.remove(p);
    assert forall|i: int| 0 <= i < moved.len() implies places.contains_key((#[trigger] m[i]).0)
        && places[m[i].0] == moved[i] by {
        let o = if i == 0 {
            p
        } else if i - 1 < p {
            i - 1
        } else {
            i
        };
        assert(m[i] == entries[o] && moved[i] == order[o]);
    }
    assert forall|k: A| #[trigger] places.contains_key(k) implies has_key(m, k) by {
        let o = key_index(entries, k);
        assert(at_key(entries, k, o));
        let i = if o == p {
            0
        } else if o < p {
            o + 1
        } else {
            o
        };
        assert(m[i] == entries[o]);
        assert(at_key(m, k, i));
    }
}

/// The index stays right when a value changes.
proof fn lemma_noted_set<A, V>(
    places: Map<A, usize>,
    entries: Seq<(A, V)>,
    order: Seq<usize>,
    p: int,
    v: V,
)
    requires
        noted(places, entries, order),
        0 <= p < order.len(),
    ensures
        noted(places, entries.update(p, (entries[p].0, v)), order),
{
    let set = entries.update(p, (entries[p].0, v));
    assert forall|i: int| 0 <= i < order.len() implies places.contains_key((#[trigger] set[i]).0)
        && places[set[i].0] == order[i] by {
        assert(set[i].0 == entries[i].0);
    }
    assert forall|k: A| #[trigger] places.contains_key(k) implies has_key(set, k) by {
        let o = key_index(entries, k);
        assert(at_key(entries, k, o));
        assert(at_key(set, k, o));
    }
}

/// The index stays right when an entry is taken out and its key forgotten.
proof fn lemma_noted_removed<A, V>(
    places: Map<A, usize>,
    entries: Seq<(A, V)>,
    order: Seq<usize>,
    p: int,
)
    requires
        noted(places, entries, order),
        keys_distinct(entries),
        0 <= p < order.len(),
    ensures
        noted(places.remove(entries[p].0), entries.remove(p), order.remove(p)),
{
    let rest = entries.remove(p);
    let left = order.remove(p);
    let fewer = places.remove(entries[p].0);
    assert forall|i: int| 0 <= i < left.len() implies fewer.contains_key((#[trigger] rest[i]).0)
        && fewer[rest[i].0] == left[i] by {
        let o = if i < p {
            i
        } else {
            i + 1
        };
        assert(rest[i] == entries[o] && left[i] == order[o]);
        if o < p {
            assert(entries[o].0 != entries[p].0);
        } else {
            assert(entries[p].0 != entries[o].0);
        }
    }
    assert forall|k: A| #[trigger] fewer.contains_key(k) implies has_key(rest, k) by {
        assert(places.contains_key(k));
        let o = key_index(entries, k);
        assert(at_key(entries, k, o));
        let i = if o < p {
            o
        } else {
            o - 1
        };
        assert(rest[i] == entries[o]);
        assert(at_key(rest, k, i));
    }
}

/// The index stays right when a new entry comes to the front.
proof fn lemma_noted_added<A, V>(
    places: Map<A, usize>,
    entries: Seq<(A, V)>,
    order: Seq<usize>,
    entry: (A, V),
    at: usize,
)
    requires
        noted(places, entries, order),
        !has_key(entries, entry.0),
    ensures
        noted(places.insert(entry.0, at), seq![entry] + entries, seq![at] + order),
{
    let more = seq![entry] + entries;
    let longer = seq![at] + order;
    let all = places.insert(entry.0, at);
    assert forall|i: int| 0 <= i < longer.len() implies all.contains_key((#[trigger] more[i]).0)
        && all[more[i].0] == longer[i] by {
        if i > 0 {
            assert(more[i] == entries[i - 1] && longer[i] == order[i - 1]);
            assert(!at_key(entries, entry.0, i - 1));
        }
    }
    assert forall|k: A| #[trigger] all.contains_key(k) implies has_key(more, k) by {
        if k == entry.0 {
            assert(at_key(more, k, 0));
        } else {
            assert(places.contains_key(k));
            let o = key_index(entries, k);
            assert(at_key(entries, k, o));
            assert(more[o + 1] == entries[o]);
            assert(at_key(more, k, o + 1));
        }
    }
}

impl<K: CacheKey, V> LruCache<K, V> {
    /// The parts of the cache fit together: distinct keys that the index knows, no
    /// more slots than the capacity, and every slot accounted for.
    pub closed spec fn wf(&self) -> bool {
        &&& noted(self.index.places(), self@, self.order@)
        &&& linked(self.slots@, self.order@, self.head, self.tail)
        &&& accounted(self.slots@, self.order@, self.free@)
        &&& keys_distinct(self@)
        &&& self.slots@.len() <= self.capacity
    }

    /// The largest number of entries.
    pub closed spec fn limit(&self) -> nat {
        self.capacity as nat
    }

    /// The number of slots that the slab has grown to.
    pub closed spec fn slab(&self) -> nat {
        self.slots@.len()
    }

    /// What holds between calls: distinct keys, and no more entries, nor slots for
    /// them, than the capacity.
    pub proof fn law_bounded(&self)
        requires
            self.wf(),
        ensures
            keys_distinct(self@),
            self@.len() <= self.slab() <= self.limit(),
    {
    }

    /// An empty cache.
    #[must_use]
    pub fn new(capacity: usize) -> (r: Self)
        ensures
            r.wf(),
            r@ == Seq::<(K::V, V)>::empty(),
            r.limit() == capacity,
    {
        let r = LruCache {
            index: K::Index::empty(),
            slots: Vec::new(),
            free: Vec::new(),
            head: None,
            tail: None,
            capacity,
            order: Ghost(Seq::empty()),
        };
        assert(r@ =~= Seq::<(K::V, V)>::empty());
        r
    }

    /// The number of entries.
    #[must_use]
    pub fn len(&self) -> (n: usize)
        requires
            self.wf(),
        ensures
            n == self@.len(),
    {
        self.slots.len() - self.free.len()
    }

    /// Whether there is no entry.
    #[must_use]
    pub fn is_empty(&self) -> (r: bool)
        requires
            self.wf(),
        ensures
            r == (self@.len() == 0),
    {
        self.len() == 0
    }

    /// The largest number of entries.
    #[must_use]
    pub fn capacity(&self) -> (n: usize)
        ensures
            n == self.limit(),
    {
        self.capacity
    }

    /// The number of slots that the slab has grown to.
    #[must_use]
    pub fn slab_len(&self) -> (n: usize)
        ensures
            n == self.slab(),
    {
        self.slots.len()
    }

    /// The slot of the entry with this key.
    fn find(&self, key: &K) -> (r: Option<usize>)
        requires
            self.wf(),
        ensures
            match r {
                Some(s) => {
                    &&& has_key(self@, key@)
                    &&& self.order@[key_index(self@, key@)] == s
                    &&& 0 <= key_index(self@, key@) < self.order@.len()
                    &&& s < self.slots@.len()
                    &&& self.slots@[s as int] is Some
                    &&& self.slots@[s as int]->Some_0.key@ == key@
                },
                None => !has_key(self@, key@),
            },
    {
        match self.index.place(key) {
            Some(s) => {
                proof {
                    let i = key_index(self@, key@);
                    assert(at_key(self@, key@, i));
                    assert(self@[i].0 == key@);
                    assert(self.order@[i] == s);
                    assert(self.slots@[self.order@[i] as int] is Some);
                }
                Some(s)
            },
            None => {
                proof {
                    if has_key(self@, key@) {
                        let i = key_index(self@, key@);
                        assert(at_key(self@, key@, i));
                        assert(self.index.places().contains_key(self@[i].0));
                    }
                }
                None
            },
        }
    }

    /// Takes the slot at place `p` of the order out of the list.
    fn unlink(&mut self, idx: usize, Ghost(p): Ghost<int>)
        requires
            linked(old(self).slots@, old(self).order@, old(self).head, old(self).tail),
            0 <= p < old(self).order@.len(),
            old(self).order@[p] == idx,
        ensures
            final(self).order@ == old(self).order@.remove(p),
            linked(final(self).slots@, final(self).order@, final(self).head, final(self).tail),
            same_load(old(self).slots@, final(self).slots@),
            final(self).free == old(self).free,
            final(self).capacity == old(self).capacity,
            final(self).index == old(self).index,
    {
        let ghost order = self.order@;
        let ghost rest = order.remove(p);
        let (prev, next) = match &self.slots[idx] {
            Some(slot) => (slot.prev, slot.next),
            None => (None, None),
        };
        assert(link_ok(self.slots@, order, p));
        let ghost slots = self.slots@;
        match prev {
            Some(q) => {
                assert(order[p - 1] == q);
                set_next(&mut self.slots, q, next);
            },
            None => {
                self.head = next;
            },
        }
        match next {
            Some(n) => {
                assert(order[p + 1] == n);
                set_prev(&mut self.slots, n, prev);
            },
            None => {
                self.tail = prev;
            },
        }
        set_prev(&mut self.slots, idx, None);
        set_next(&mut self.slots, idx, None);
        self.order = Ghost(rest);
        proof {
            assert forall|i: int| 0 <= i < rest.len() implies (#[trigger] rest[i])
                < self.slots@.len() && self.slots@[rest[i] as int] is Some by {
                let o = if i < p {
                    i
                } else {
                    i + 1
                };
                assert(rest[i] == order[o]);
            }
            assert forall|i: int, j: int| 0 <= i < j < rest.len() implies (#[trigger] rest[i]) != (
            #[trigger] rest[j]) by {
                let a = if i < p {
                    i
                } else {
                    i + 1
                };
                let b = if j < p {
                    j
                } else {
                    j + 1
                };
                assert(rest[i] == order[a] && rest[j] == order[b]);
            }
            assert forall|i: int| 0 <= i < rest.len() implies #[trigger] link_ok(
                self.slots@,
                rest,
                i,
            ) by {
                let o = if i < p {
                    i
                } else {
                    i + 1
                };
                assert(rest[i] == order[o]);
                assert(link_ok(slots, order, o));
                assert(order[o] != order[p]);
                if p > 0 && o != p - 1 {
                    assert(order[o] != order[p - 1]);
                }
                if p + 1 < order.len() && o != p + 1 {
                    assert(order[o] != order[p + 1]);
                }
                if i > 0 {
                    assert(rest[i - 1] == order[if i - 1 < p {
                        i - 1
                    } else {
                        i
                    }]);
                }
                if i + 1 < rest.len() {
                    assert(rest[i + 1] == order[if i + 1 < p {
                        i + 1
                    } else {
                        i + 2
                    }]);
                }
            }
        }
    }

    /// Puts a slot that is not in the list at its front.
    fn push_front(&mut self, idx: usize)
        requires
            linked(old(self).slots@, old(self).order@, old(self).head, old(self).tail),
            idx < old(self).slots@.len(),
            old(self).slots@[idx as int] is Some,
            !old(self).order@.contains(idx),
        ensures
            final(self).order@ == seq![idx] + old(self).order@,
            linked(final(self).slots@, final(self).order@, final(self).head, final(self).tail),
            same_load(old(self).slots@, final(self).slots@),
            final(self).free == old(self).free,
            final(self).capacity == old(self).capacity,
            final(self).index == old(self).index,
    {
        let ghost order = self.order@;
        let ghost more = seq![idx] + order;
        let ghost slots = self.slots@;
        set_prev(&mut self.slots, idx, None);
        set_next(&mut self.slots, idx, self.head);
        if let Some(h) = self.head {
            assert(order[0] == h);
            set_prev(&mut self.slots, h, Some(idx));
        }
        self.head = Some(idx);
        if self.tail.is_none() {
            self.tail = Some(idx);
        }
        self.order = Ghost(more);
        proof {
            assert forall|i: int| 0 <= i < more.len() implies (#[trigger] more[i])
                < self.slots@.len() && self.slots@[more[i] as int] is Some by {
                if i > 0 {
                    assert(more[i] == order[i - 1]);
                }
            }
            assert forall|i: int, j: int| 0 <= i < j < more.len() implies (#[trigger] more[i]) != (
            #[trigger] more[j]) by {
                assert(more[j] == order[j - 1]);
                assert(order.contains(order[j - 1]));
                if i > 0 {
                    assert(more[i] == order[i - 1]);
                }
            }
            assert forall|i: int| 0 <= i < more.len() implies #[trigger] link_ok(
                self.slots@,
                more,
                i,
            ) by {
                if i > 0 {
                    assert(more[i] == order[i - 1]);
                    assert(link_ok(slots, order, i - 1));
                    assert(order.contains(order[i - 1]));
                    if i > 1 {
                        assert(order[i - 1] != order[0]);
                        assert(more[i - 1] == order[i - 2]);
                    }
                    if i + 1 < more.len() {
                        assert(more[i + 1] == order[i]);
                    }
                } else if order.len() > 0 {
                    assert(order.contains(order[0]));
                    assert(more[1] == order[0]);
                }
            }
            if order.len() > 0 {
                assert(more.last() == order.last());
            }
        }
    }

    /// Moves the slot at place `p` of the order to the front.
    fn move_to_front(&mut self, idx: usize, Ghost(p): Ghost<int>)
        requires
            linked(old(self).slots@, old(self).order@, old(self).head, old(self).tail),
            0 <= p < old(self).order@.len(),
            old(self).order@[p] == idx,
        ensures
            final(self).order@ == seq![idx] + old(self).order@.remove(p),
            linked(final(self).slots@, final(self).order@, final(self).head, final(self).tail),
            same_load(old(self).slots@, final(self).slots@),
            final(self).free == old(self).free,
            final(self).capacity == old(self).capacity,
            final(self).index == old(self).index,
    {
        let ghost order = self.order@;
        if let Some(h) = self.head {
            if h == idx {
                proof {
                    if p > 0 {
                        assert(order[0] != order[p]);
                    }
                    assert(seq![idx] + order.remove(p) =~= order);
                }
                return ;
            }
        }
        self.unlink(idx, Ghost(p));
        proof {
            let rest = order.remove(p);
            if rest.contains(idx) {
                let i = choose|i: int| 0 <= i < rest.len() && rest[i] == idx;
                let o = if i < p {
                    i
                } else {
                    i + 1
                };
                assert(order[o] == order[p]);
            }
        }
        self.push_front(idx);
    }

    proof fn lemma_promoted(
        before: Seq<Option<Slot<K, V>>>,
        after: Seq<Option<Slot<K, V>>>,
        order: Seq<usize>,
        p: int,
        free: Seq<usize>,
        head: Option<usize>,
        tail: Option<usize>,
    )
        requires
            linked(before, order, head, tail),
            same_load(before, after),
            accounted(before, order, free),
            keys_distinct(entries_of(before, order)),
            0 <= p < order.len(),
        ensures
            ({
                let moved = seq![order[p]] + order.remove(p);
                &&& entries_of(after, moved) == promote(entries_of(before, order), p)
                &&& accounted(after, moved, free)
                &&& keys_distinct(entries_of(after, moved))
            }),
    {
        let moved = seq![order[p]] + order.remove(p);
        let e = entries_of(before, order);
        let m = promote(e, p);
        assert forall|i: int| 0 <= i < moved.len() implies entries_of(after, moved)[i] == m[i] by {
            let o = if i == 0 {
                p
            } else if i - 1 < p {
                i - 1
            } else {
                i
            };
            assert(moved[i] == order[o]);
            assert(before[order[o] as int] is Some);
            assert(m[i] == e[o]);
        }
        assert(entries_of(after, moved) =~= m);
        assert forall|s: int| 0 <= s < after.len() && (#[trigger] after[s]) is Some implies
            moved.contains(s as usize) by {
            assert(before[s] is Some);
            let o = choose|o: int| 0 <= o < order.len() && order[o] == s as usize;
            let i = if o == p {
                0
            } else if o < p {
                o + 1
            } else {
                o
            };
            assert(moved[i] == s as usize);
        }
        assert forall|j: int| 0 <= j < free.len() implies (#[trigger] free[j]) < after.len()
            && after[free[j] as int] is None by {
            assert(before[free[j] as int] is None);
        }
        assert forall|i: int, j: int| 0 <= i < j < m.len() implies (#[trigger] m[i]).0 != (
        #[trigger] m[j]).0 by {
            let a = if i == 0 {
                p
            } else if i - 1 < p {
                i - 1
            } else {
                i
            };
            let b = if j - 1 < p {
                j - 1
            } else {
                j
            };
            assert(m[i] == e[a] && m[j] == e[b]);
            if a < b {
                assert(e[a].0 != e[b].0);
            } else {
                assert(e[b].0 != e[a].0);
            }
        }
    }

    /// The value of a key, which becomes the most recently used one.
    pub fn get(&mut self, key: &K) -> (r: Option<&V>)
        requires
            old(self).wf(),
        ensures
            final(self).wf(),
            final(self).limit() == old(self).limit(),
            final(self).slab() == old(self).slab(),
            final(self)@ == touch(old(self)@, key@),
            match r {
                Some(v) => has_key(old(self)@, key@) && *v == old(self)@[key_index(
                    old(self)@,
                    key@,
                )].1,
                None => !has_key(old(self)@, key@),
            },
    {
        let idx: usize = match self.find(key) {
            Some(idx) => idx,
            None => {
                return None;
            },
        };
        let ghost p = key_index(self@, key@);
        self.move_to_front(idx, Ghost(p));
        proof {
            Self::lemma_promoted(
                old(self).slots@,
                self.slots@,
                old(self).order@,
                p,
                self.free@,
                old(self).head,
                old(self).tail,
            );
            lemma_noted_promoted(self.index.places(), old(self)@, old(self).order@, p);
        }
        match &self.slots[idx] {
            Some(slot) => Some(&slot.value),
            None => None,
        }
    }

    /// The value of a key, to be changed; the key becomes the most recently
    /// used one.
    pub fn get_mut(&mut self, key: &K) -> (r: Option<&mut V>)
        requires
            old(self).wf(),
        ensures
            final(self).wf(),
            final(self).limit() == old(self).limit(),
            final(self).slab() == old(self).slab(),
            match r {
                Some(v) => {
                    &&& has_key(old(self)@, key@)
                    &&& *v == old(self)@[key_index(old(self)@, key@)].1
                    &&& final(self)@ == touch(old(self)@, key@).update(
                        0,
                        (touch(old(self)@, key@)[0].0, *final(v)),
                    )
                },
                None => !has_key(old(self)@, key@) && final(self)@ == old(self)@,
            },
    {
        let idx: usize = match self.find(key) {
            Some(idx) => idx,
            None => {
                return None;
            },
        };
        let ghost p = key_index(self@, key@);
        self.move_to_front(idx, Ghost(p));
        proof {
            Self::lemma_promoted(
                old(self).slots@,
                self.slots@,
                old(self).order@,
                p,
                self.free@,
                old(self).head,
                old(self).tail,
            );
            lemma_noted_promoted(self.index.places(), old(self)@, old(self).order@, p);
        }
        let ghost places = self.index.places();
        let ghost e = self@;
        let ghost slots = self.slots@;
        let ghost order = self.order@;
        let ghost free = self.free@;
        let ghost head = self.head;
        let ghost tail = self.tail;
        let out = match &mut self.slots[idx] {
            Some(slot) => Some(&mut slot.value),
            None => None,
        };
        proof {
            if out is Some {
                Self::lemma_value_set(slots, order, free, head, tail, 0, *final(out->Some_0));
                lemma_noted_set(places, e, order, 0, *final(out->Some_0));
            }
        }
        out
    }

    /// Changing a value changes nothing but the value.
    proof fn lemma_value_set(
        slots: Seq<Option<Slot<K, V>>>,
        order: Seq<usize>,
        free: Seq<usize>,
        head: Option<usize>,
        tail: Option<usize>,
        p: int,
        v: V,
    )
        requires
            linked(slots, order, head, tail),
            accounted(slots, order, free),
            keys_distinct(entries_of(slots, order)),
            0 <= p < order.len(),
        ensures
            ({
                let s = order[p] as int;
                let set = slots.update(s, Some(Slot { value: v, ..slots[s]->Some_0 }));
                let e = entries_of(slots, order);
                &&& linked(set, order, head, tail)
                &&& accounted(set, order, free)
                &&& entries_of(set, order) == e.update(p, (e[p].0, v))
                &&& keys_distinct(entries_of(set, order))
            }),
    {
        let s = order[p] as int;
        let set = slots.update(s, Some(Slot { value: v, ..slots[s]->Some_0 }));
        let e = entries_of(slots, order);
        let f = e.update(p, (e[p].0, v));
        assert forall|i: int| 0 <= i < order.len() implies entries_of(set, order)[i] == f[i] by {
            if i < p {
                assert(order[i] != order[p]);
            } else if p < i {
                assert(order[p] != order[i]);
            }
        }
        assert(entries_of(set, order) =~= f);
        assert forall|i: int| 0 <= i < order.len() implies #[trigger] link_ok(set, order, i) by {
            assert(link_ok(slots, order, i));
        }
        assert forall|j: int| 0 <= j < free.len() implies (#[trigger] free[j]) < set.len()
            && set[free[j] as int] is None by {
            assert(slots[free[j] as int] is None);
            assert(slots[order[p] as int] is Some);
        }
        assert forall|t: int| 0 <= t < set.len() && (#[trigger] set[t]) is Some implies
            order.contains(t as usize) by {
            if t == s {
                assert(order[p] == t as usize);
            } else {
                assert(slots[t] is Some);
            }
        }
        assert forall|i: int, j: int| 0 <= i < j < f.len() implies (#[trigger] f[i]).0 != (
        #[trigger] f[j]).0 by {
            assert(e[i].0 != e[j].0);
        }
    }

    /// Takes the entry at place `p` of the order out and frees its slot.
    fn detach(&mut self, idx: usize, Ghost(p): Ghost<int>) -> (r: (K, V))
        requires
            linked(old(self).slots@, old(self).order@, old(self).head, old(self).tail),
            accounted(old(self).slots@, old(self).order@, old(self).free@),
            keys_distinct(old(self)@),
            noted(old(self).index.places(), old(self)@, old(self).order@),
            0 <= p < old(self).order@.len(),
            old(self).order@[p] == idx,
        ensures
            (r.0@, r.1) == old(self)@[p],
            noted(final(self).index.places(), final(self)@, final(self).order@),
            final(self)@ == old(self)@.remove(p),
            final(self).order@ == old(self).order@.remove(p),
            linked(final(self).slots@, final(self).order@, final(self).head, final(self).tail),
            accounted(final(self).slots@, final(self).order@, final(self).free@),
            keys_distinct(final(self)@),
            final(self).capacity == old(self).capacity,
            final(self).slots@.len() == old(self).slots@.len(),
    {
        let ghost slots = self.slots@;
        let ghost order = self.order@;
        let ghost free = self.free@;
        let ghost e = self@;
        self.unlink(idx, Ghost(p));
        let ghost mid = self.slots@;
        let ghost rest = self.order@;
        let mut taken: Option<Slot<K, V>> = None;
        core::mem::swap(&mut taken, &mut self.slots[idx]);
        self.free.push(idx);
        proof {
            let now = self.slots@;
            assert(now =~= mid.update(idx as int, None));
            assert forall|i: int| 0 <= i < rest.len() implies (#[trigger] rest[i]) != idx && rest[i]
                == order[if i < p {
                i
            } else {
                i + 1
            }] by {
                let o = if i < p {
                    i
                } else {
                    i + 1
                };
                assert(rest[i] == order[o]);
                if o < p {
                    assert(order[o] != order[p]);
                } else {
                    assert(order[p] != order[o]);
                }
            }
            assert forall|i: int| 0 <= i < rest.len() implies #[trigger] link_ok(now, rest, i) by {
                assert(link_ok(mid, rest, i));
            }
            assert forall|i: int| 0 <= i < rest.len() implies self@[i] == e.remove(p)[i] by {
                let o = if i < p {
                    i
                } else {
                    i + 1
                };
                assert(rest[i] == order[o]);
                assert(slots[order[o] as int] is Some);
                assert(e.remove(p)[i] == e[o]);
            }
            assert(self@ =~= e.remove(p));
            assert(slots[idx as int] is Some);
            assert(now.len() == self.slots.len());
            assert forall|t: int| 0 <= t < now.len() && (#[trigger] now[t]) is Some implies
                rest.contains(t as usize) by {
                assert(mid[t] is Some);
                assert(slots[t] is Some);
                assert(t as usize as int == t);
                let o = choose|o: int| 0 <= o < order.len() && order[o] == t as usize;
                let i = if o < p {
                    o
                } else {
                    o - 1
                };
                assert(rest[i] == t as usize);
            }
            assert forall|j: int| 0 <= j < self.free@.len() implies (#[trigger] self.free@[j])
                < now.len() && now[self.free@[j] as int] is None by {
                if j < free.len() {
                    assert(self.free@[j] == free[j]);
                    assert(slots[free[j] as int] is None);
                }
            }
            assert forall|i: int, j: int| 0 <= i < j < self.free@.len() implies (
            #[trigger] self.free@[i]) != (#[trigger] self.free@[j]) by {
                assert(self.free@[i] == free[i]);
                if j < free.len() {
                    assert(self.free@[j] == free[j]);
                } else {
                    assert(slots[free[i] as int] is None);
                }
            }
            assert forall|i: int, j: int| 0 <= i < j < self@.len() implies (#[trigger] self@[i]).0
                != (#[trigger] self@[j]).0 by {
                let a = if i < p {
                    i
                } else {
                    i + 1
                };
                let b = if j < p {
                    j
                } else {
                    j + 1
                };
                assert(self@[i] == e[a] && self@[j] == e[b]);
                assert(e[a].0 != e[b].0);
            }
        }
        match taken {
            Some(slot) => {
                self.index.forget(&slot.key);
                proof {
                    assert(slot.key@ == e[p].0);
                    lemma_noted_removed(old(self).index.places(), e, order, p);
                }
                (slot.key, slot.value)
            },
            None => {
                proof {
                    assert(slots[idx as int] is Some);
                    assert(false);
                }
                vstd::pervasive::unreached()
            },
        }
    }

    /// Stores a value under a key, which becomes the most recently used one.
    /// Where the cache outgrows its capacity, the entry that was used least
    /// recently is given up and returned.
    pub fn put(&mut self, key: K, value: V) -> (r: Option<(K, V)>)
        requires
            old(self).wf(),
        ensures
            final(self).wf(),
            final(self).limit() == old(self).limit(),
            final(self)@ == store(old(self)@, old(self).limit(), key@, value).0,
            match (r, store(old(self)@, old(self).limit(), key@, value).1) {
                (Some(gone), Some(e)) => (gone.0@, gone.1) == e,
                (None, None) => true,
                _ => false,
            },
            final(self).slab() <= old(self).slab() + 1,
            final(self).slab() > old(self).slab() ==> old(self).slab() == old(self)@.len(),
    {
        if let Some(idx) = self.find(&key) {
            let ghost p = key_index(self@, key@);
            let ghost e = self@;
            assert(at_key(e, key@, p));
            proof {
                Self::lemma_value_set(
                    self.slots@,
                    self.order@,
                    self.free@,
                    self.head,
                    self.tail,
                    p,
                    value,
                );
            }
            let ghost ghost_value = value;
            match &mut self.slots[idx] {
                Some(slot) => {
                    slot.value = value;
                },
                None => {},
            }
            let ghost mid = self.slots@;
            assert(mid =~= old(self).slots@.update(
                idx as int,
                Some(Slot { value: ghost_value, ..old(self).slots@[idx as int]->Some_0 }),
            ));
            assert(self@ =~= e.update(p, (key@, ghost_value)));
            self.move_to_front(idx, Ghost(p));
            proof {
                lemma_noted_set(self.index.places(), e, old(self).order@, p, ghost_value);
                lemma_noted_promoted(
                    self.index.places(),
                    e.update(p, (key@, ghost_value)),
                    old(self).order@,
                    p,
                );
                Self::lemma_promoted(
                    mid,
                    self.slots@,
                    old(self).order@,
                    p,
                    self.free@,
                    old(self).head,
                    old(self).tail,
                );
            }
            return None;
        }
        let ghost all = self@;
        let ghost entry = (key@, value);
        if self.capacity == 0 {
            assert((seq![entry] + all).drop_last() =~= all);
            return Some((key, value));
        }
        let evicted = if self.len_unchecked() >= self.capacity {
            self.evict_tail()
        } else {
            None
        };
        proof {
            assert(!has_key(self@, key@)) by {
                if has_key(self@, key@) {
                    let i = key_index(self@, key@);
                    assert(at_key(self@, key@, i));
                    assert(self@[i] == all[i]);
                    assert(at_key(all, key@, i));
                }
            }
        }
        self.insert_new(key, value);
        proof {
            if all.len() > 0 {
                assert((seq![entry] + all).drop_last() =~= seq![entry] + all.drop_last());
            }
        }
        evicted
    }

    fn insert_new(&mut self, key: K, value: V)
        requires
            linked(old(self).slots@, old(self).order@, old(self).head, old(self).tail),
            accounted(old(self).slots@, old(self).order@, old(self).free@),
            keys_distinct(old(self)@),
            noted(old(self).index.places(), old(self)@, old(self).order@),
            !has_key(old(self)@, key@),
            old(self).order@.len() < old(self).capacity,
            old(self).slots@.len() <= old(self).capacity,
        ensures
            final(self).wf(),
            final(self)@ == seq![(key@, value)] + old(self)@,
            final(self).capacity == old(self).capacity,
            final(self).slots@.len() == if old(self).free@.len() > 0 {
                old(self).slots@.len()
            } else {
                old(self).slots@.len() + 1
            },
    {
        let ghost entry = (key@, value);
        let ghost slots = self.slots@;
        let ghost order = self.order@;
        let ghost free = self.free@;
        let ghost e = self@;
        let idx: usize = match self.free.pop() {
            Some(idx) => {
                proof {
                    assert(free[free.len() - 1] == idx);
                    assert(slots[idx as int] is None);
                }
                self.index.note(&key, idx);
                self.slots.set(idx, Some(Slot { key, value, prev: None, next: None }));
                idx
            },
            None => {
                let idx: usize = self.slots.len();
                self.index.note(&key, idx);
                self.slots.push(Some(Slot { key, value, prev: None, next: None }));
                idx
            },
        };
        let ghost mid = self.slots@;
        proof {
            assert forall|i: int| 0 <= i < order.len() implies (#[trigger] order[i]) != idx
                && mid[order[i] as int] == slots[order[i] as int] by {
                assert(slots[order[i] as int] is Some);
            }
            if order.contains(idx) {
                let i = choose|i: int| 0 <= i < order.len() && order[i] == idx;
                assert(order[i] != idx);
            }
            assert forall|i: int| 0 <= i < order.len() implies #[trigger] link_ok(mid, order, i) by {
                assert(link_ok(slots, order, i));
            }
            assert(linked(mid, order, self.head, self.tail));
        }
        self.push_front(idx);
        proof {
            let more = self.order@;
            let now = self.slots@;
            let grown = seq![entry] + e;
            assert forall|i: int| 0 <= i < more.len() implies self@[i] == grown[i] by {
                assert(mid[more[i] as int] is Some);
                if i > 0 {
                    assert(more[i] == order[i - 1]);
                    assert(slots[order[i - 1] as int] is Some);
                    assert(grown[i] == e[i - 1]);
                }
            }
            assert(self@ =~= grown);
            lemma_noted_added(old(self).index.places(), e, order, entry, idx);
            assert forall|t: int| 0 <= t < now.len() && (#[trigger] now[t]) is Some implies
                more.contains(t as usize) by {
                assert(mid[t] is Some);
                if t == idx {
                    assert(more[0] == t as usize);
                } else {
                    assert(slots[t] is Some);
                    let o = choose|o: int| 0 <= o < order.len() && order[o] == t as usize;
                    assert(more[o + 1] == t as usize);
                }
            }
            assert forall|j: int| 0 <= j < self.free@.len() implies (#[trigger] self.free@[j])
                < now.len() && now[self.free@[j] as int] is None by {
                assert(self.free@[j] == free[j]);
                assert(slots[free[j] as int] is None);
                if free.len() > 0 {
                    assert(free[j] != free[free.len() - 1]);
                }
                assert(mid[free[j] as int] is None);
            }
            assert forall|i: int, j: int| 0 <= i < j < self.free@.len() implies (
            #[trigger] self.free@[i]) != (#[trigger] self.free@[j]) by {
                assert(self.free@[i] == free[i] && self.free@[j] == free[j]);
            }
            assert forall|i: int, j: int| 0 <= i < j < grown.len() implies (#[trigger] grown[i]).0
                != (#[trigger] grown[j]).0 by {
                assert(grown[j] == e[j - 1]);
                if i == 0 {
                    if e[j - 1].0 == entry.0 {
                        assert(at_key(e, entry.0, j - 1));
                    }
                } else {
                    assert(grown[i] == e[i - 1]);
                }
            }
        }
    }

    /// The number of entries while the cache may hold one too many.
    fn len_unchecked(&self) -> (n: usize)
        requires
            accounted(self.slots@, self.order@, self.free@),
        ensures
            n == self.order@.len(),
    {
        self.slots.len() - self.free.len()
    }

    /// Gives up the entry that was used least recently.
    fn evict_tail(&mut self) -> (r: Option<(K, V)>)
        requires
            linked(old(self).slots@, old(self).order@, old(self).head, old(self).tail),
            accounted(old(self).slots@, old(self).order@, old(self).free@),
            keys_distinct(old(self)@),
            noted(old(self).index.places(), old(self)@, old(self).order@),
            old(self).order@.len() > 0,
        ensures
            noted(final(self).index.places(), final(self)@, final(self).order@),
            r matches Some(gone) && (gone.0@, gone.1) == old(self)@.last(),
            final(self)@ == old(self)@.drop_last(),
            final(self).order@.len() == old(self).order@.len() - 1,
            linked(final(self).slots@, final(self).order@, final(self).head, final(self).tail),
            accounted(final(self).slots@, final(self).order@, final(self).free@),
            keys_distinct(final(self)@),
            final(self).capacity == old(self).capacity,
            final(self).slots@.len() == old(self).slots@.len(),
    {
        match self.tail {
            None => None,
            Some(tail) => {
                let ghost p = self.order@.len() - 1;
                let gone = self.detach(tail, Ghost(p));
                assert(old(self)@.remove(p) =~= old(self)@.drop_last());
                Some(gone)
            },
        }
    }

    /// Takes the entry of a key out and returns its value.
    pub fn remove(&mut self, key: &K) -> (r: Option<V>)
        requires
            old(self).wf(),
        ensures
            final(self).wf(),
            final(self).limit() == old(self).limit(),
            final(self).slab() == old(self).slab(),
            final(self)@ == drop_key(old(self)@, key@),
            match r {
                Some(v) => has_key(old(self)@, key@) && v == old(self)@[key_index(
                    old(self)@,
                    key@,
                )].1,
                None => !has_key(old(self)@, key@),
            },
    {
        match self.find(key) {
            None => None,
            Some(idx) => {
                let ghost p = key_index(self@, key@);
                let gone = self.detach(idx, Ghost(p));
                Some(gone.1)
            },
        }
    }

    /// The value of a key, without making it the most recently used one.
    #[must_use]
    pub fn peek(&self, key: &K) -> (r: Option<&V>)
        requires
            self.wf(),
        ensures
            match r {
                Some(v) => has_key(self@, key@) && *v == self@[key_index(self@, key@)].1,
                None => !has_key(self@, key@),
            },
    {
        match self.find(key) {
            Some(idx) => match &self.slots[idx] {
                Some(slot) => Some(&slot.value),
                None => None,
            },
            None => None,
        }
    }

    /// Whether the key has an entry.
    #[must_use]
    pub fn contains_key(&self, key: &K) -> (r: bool)
        requires
            self.wf(),
        ensures
            r == has_key(self@, key@),
    {
        self.find(key).is_some()
    }

    /// The keys, the most recently used one first.
    #[must_use]
    pub fn mru_order(&self) -> (r: Vec<&K>)
        requires
            self.wf(),
        ensures
            r@.len() == self@.len(),
            forall|i: int| 0 <= i < r@.len() ==> (#[trigger] r@[i])@ == self@[i].0,
    {
        let mut out: Vec<&K> = Vec::new();
        let mut cur: Option<usize> = self.head;
        while cur.is_some()
            invariant
                self.wf(),
                out@.len() <= self.order@.len(),
                forall|i: int| 0 <= i < out@.len() ==> (#[trigger] out@[i])@ == self@[i].0,
                cur == if out@.len() < self.order@.len() {
                    Some(self.order@[out@.len() as int])
                } else {
                    None
                },
            decreases self.order@.len() - out@.len(),
        {
            let idx: usize = match cur {
                Some(idx) => idx,
                None => 0,
            };
            assert(self.order@[out@.len() as int] == idx);
            assert(link_ok(self.slots@, self.order@, out@.len() as int));
            match &self.slots[idx] {
                Some(slot) => {
                    out.push(&slot.key);
                    cur = slot.next;
                },
                None => {},
            }
        }
        out
    }

    /// Empties the cache.
    pub fn clear(&mut self)
        requires
            old(self).wf(),
        ensures
            final(self).wf(),
            final(self).limit() == old(self).limit(),
            final(self).slab() == 0,
            final(self)@ == Seq::<(K::V, V)>::empty(),
    {
        self.index = K::Index::empty();
        self.slots.clear();
        self.free.clear();
        self.head = None;
        self.tail = None;
        self.order = Ghost(Seq::empty());
        assert(self@ =~= Seq::<(K::V, V)>::empty());
    }
}

} // verus!
