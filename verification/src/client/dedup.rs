//! A bounded window of the messages that have arrived.

use std::collections::{HashSet, VecDeque};
use vstd::prelude::*;

verus! {

broadcast use vstd::std_specs::hash::group_hash_axioms;

/// How many messages the window of a client holds.
pub const DEFAULT_CAPACITY: usize = 1024;

/// A window of keys: those that were seen last, the oldest of which leaves when
/// the window is full.
pub struct DedupWindow {
    seen: HashSet<u128>,
    order: VecDeque<(u64, u64)>,
    capacity: usize,
}

/// A pair as one number.
spec fn packed(key: (u64, u64)) -> u128 {
    (key.0 * 0x1_0000_0000_0000_0000 + key.1) as u128
}

proof fn lemma_packed(a: (u64, u64), b: (u64, u64))
    ensures
        packed(a) == packed(b) ==> a == b,
{
}

fn pack(key: (u64, u64)) -> (r: u128)
    ensures
        r == packed(key),
{
    key.0 as u128 * 0x1_0000_0000_0000_0000 + key.1 as u128
}

/// The window after a key was shown to it.
pub open spec fn accepted(window: Seq<(u64, u64)>, capacity: nat, key: (u64, u64)) -> Seq<
    (u64, u64),
> {
    if window.contains(key) {
        window
    } else if window.len() >= capacity {
        window.skip(1).push(key)
    } else {
        window.push(key)
    }
}

/// The window after keys were shown to it.
pub open spec fn accepted_all(
    window: Seq<(u64, u64)>,
    capacity: nat,
    keys: Seq<(u64, u64)>,
) -> Seq<(u64, u64)>
    decreases keys.len(),
{
    if keys.len() == 0 {
        window
    } else {
        accepted(accepted_all(window, capacity, keys.drop_last()), capacity, keys.last())
    }
}

/// A key in the window stays in it until as many others were shown as there are
/// places in front of it.
proof fn lemma_stays(
    window: Seq<(u64, u64)>,
    capacity: nat,
    at: int,
    keys: Seq<(u64, u64)>,
) -> (now: int)
    requires
        window.len() <= capacity,
        0 <= at < window.len(),
        keys.len() <= at + (capacity - window.len()),
    ensures
        ({
            let after = accepted_all(window, capacity, keys);
            &&& after.len() <= capacity
            &&& 0 <= now < after.len()
            &&& after[now] == window[at]
            &&& now + (capacity - after.len()) >= at + (capacity - window.len()) - keys.len()
        }),
    decreases keys.len(),
{
    if keys.len() == 0 {
        at
    } else {
        let before = accepted_all(window, capacity, keys.drop_last());
        let was = lemma_stays(window, capacity, at, keys.drop_last());
        if before.contains(keys.last()) {
            was
        } else if before.len() >= capacity {
            was - 1
        } else {
            was
        }
    }
}

/// A message that arrived is known for as long as fewer others arrive than the
/// window holds.
pub proof fn law_recent_is_known(
    window: Seq<(u64, u64)>,
    capacity: nat,
    key: (u64, u64),
    others: Seq<(u64, u64)>,
)
    requires
        window.len() <= capacity,
        !window.contains(key),
        others.len() < capacity,
    ensures
        accepted_all(accepted(window, capacity, key), capacity, others).contains(key),
{
    let w = accepted(window, capacity, key);
    let at = lemma_stays(w, capacity, w.len() - 1, others);
    assert(accepted_all(w, capacity, others)[at] == key);
}

/// What the window knows after a key was shown to it: that key, and what it knew
/// before, but for the oldest where it was full. It never holds more than it may, and
/// nothing twice.
pub proof fn law_only_the_oldest_is_forgotten(
    window: Seq<(u64, u64)>,
    capacity: nat,
    key: (u64, u64),
    other: (u64, u64),
)
    requires
        capacity >= 1,
        window.len() <= capacity,
        window.no_duplicates(),
    ensures
        ({
            let after = accepted(window, capacity, key);
            let full = window.len() == capacity && !window.contains(key);
            &&& after.contains(key)
            &&& other != key ==> (after.contains(other) <==> window.contains(other) && !(full
                && other == window[0]))
            &&& after.len() <= capacity
            &&& after.no_duplicates()
        }),
{
    let after = accepted(window, capacity, key);
    if !window.contains(key) {
        assert(after.last() == key);
        assert(after.contains(after[after.len() - 1]));
        let cut: int = if window.len() >= capacity {
            1
        } else {
            0
        };
        if window.contains(other) {
            let i = choose|i: int| 0 <= i < window.len() && window[i] == other;
            if i >= cut {
                assert(after[i - cut] == other);
            }
        }
        if after.contains(other) && other != key {
            let i = choose|i: int| 0 <= i < after.len() && after[i] == other;
            assert(window[i + cut] == other);
            if cut == 1 {
                assert(window[0] != window[i + 1]);
            }
        }
    }
}

impl DedupWindow {
    /// The keys in the window, the oldest first.
    pub closed spec fn window(&self) -> Seq<(u64, u64)> {
        self.order@
    }

    /// How many keys the window holds at most.
    pub closed spec fn limit(&self) -> nat {
        self.capacity as nat
    }

    /// The window holds no key twice and no more than it may.
    pub closed spec fn wf(&self) -> bool {
        &&& self.capacity >= 1
        &&& self.order@.len() <= self.capacity
        &&& self.order@.no_duplicates()
        &&& forall|k: (u64, u64)|
            self.order@.contains(k) <==> #[trigger] self.seen@.contains(packed(k))
    }

    /// An empty window for `capacity` keys, at least one.
    #[must_use]
    pub fn new(capacity: usize) -> (r: Self)
        ensures
            r.wf(),
            r.window() == Seq::<(u64, u64)>::empty(),
            r.limit() == if capacity == 0 {
                1
            } else {
                capacity as nat
            },
    {
        DedupWindow {
            seen: HashSet::new(),
            order: VecDeque::new(),
            capacity: if capacity == 0 {
                1
            } else {
                capacity
            },
        }
    }

    /// Shows a key to the window: whether it is new.
    pub fn accept(&mut self, key: (u64, u64)) -> (fresh: bool)
        requires
            old(self).wf(),
        ensures
            final(self).wf(),
            final(self).limit() == old(self).limit(),
            fresh == !old(self).window().contains(key),
            final(self).window() == accepted(old(self).window(), old(self).limit(), key),
    {
        let code: u128 = pack(key);
        if self.seen.contains(&code) {
            return false;
        }
        let ghost w0 = self.order@;
        if self.order.len() == self.capacity {
            if let Some(evicted) = self.order.pop_front() {
                let gone: u128 = pack(evicted);
                self.seen.remove(&gone);
                proof {
                    assert(self.order@ =~= w0.skip(1));
                    assert forall|k: (u64, u64)|
                        self.order@.contains(k) <==> #[trigger] self.seen@.contains(packed(k)) by {
                        lemma_packed(k, evicted);
                        assert(w0[0] == evicted);
                        if self.order@.contains(k) {
                            let i = choose|i: int| 0 <= i < self.order@.len() && self.order@[i] == k;
                            assert(w0[i + 1] == k);
                        }
                        if w0.contains(k) && k != evicted {
                            let i = choose|i: int| 0 <= i < w0.len() && w0[i] == k;
                            assert(self.order@[i - 1] == k);
                        }
                    }
                }
            }
        }
        let ghost w1 = self.order@;
        assert(!w1.contains(key)) by {
            if w1.contains(key) {
                let i = choose|i: int| 0 <= i < w1.len() && w1[i] == key;
                if w0.len() == self.capacity {
                    assert(w0[i + 1] == key);
                }
            }
        }
        let ghost seen1 = self.seen@;
        self.order.push_back(key);
        self.seen.insert(code);
        proof {
            assert(self.order@ =~= w1.push(key));
            assert forall|k: (u64, u64)|
                self.order@.contains(k) <==> #[trigger] self.seen@.contains(packed(k)) by {
                lemma_packed(k, key);
                assert(self.order@.last() == key);
                if w1.contains(k) {
                    let i = choose|i: int| 0 <= i < w1.len() && w1[i] == k;
                    assert(self.order@[i] == k);
                }
                if self.order@.contains(k) && k != key {
                    let i = choose|i: int| 0 <= i < self.order@.len() && self.order@[i] == k;
                    assert(w1[i] == k);
                }
            }
        }
        true
    }
}

} // verus!
