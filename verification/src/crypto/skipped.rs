//! The keys of messages that were passed over, until the messages arrive.

use vstd::prelude::*;
use crate::crypto::primitives::{PublicKey, SecretBytes};

verus! {

/// One key that was passed over.
struct SkippedKey {
    remote: PublicKey,
    n: u32,
    key: SecretBytes,
}

/// The keys of messages that were passed over, by the sender's ratchet key and
/// the number of the message.
pub struct SkippedKeys {
    entries: Vec<SkippedKey>,
}

/// The place at which the entry stands.
spec fn place_of(e: SkippedKey) -> (Seq<u8>, u32) {
    (e.remote@, e.n)
}

impl View for SkippedKeys {
    type V = Map<(Seq<u8>, u32), Seq<u8>>;

    closed spec fn view(&self) -> Map<(Seq<u8>, u32), Seq<u8>> {
        let s = self.entries@;
        Map::new(
            |k: (Seq<u8>, u32)| exists|i: int| 0 <= i < s.len() && #[trigger] place_of(s[i]) == k,
            |k: (Seq<u8>, u32)|
                s[choose|i: int| 0 <= i < s.len() && #[trigger] place_of(s[i]) == k].key@,
        )
    }
}

impl SkippedKeys {
    /// No two entries stand at one place.
    pub closed spec fn wf(&self) -> bool {
        let s = self.entries@;
        forall|i: int, j: int|
            0 <= i < j < s.len() ==> #[trigger] place_of(s[i]) != #[trigger] place_of(s[j])
    }

    proof fn lemma_entry(&self, i: int)
        requires
            self.wf(),
            0 <= i < self.entries@.len(),
        ensures
            self@.contains_key(place_of(self.entries@[i])),
            self@[place_of(self.entries@[i])] == self.entries@[i].key@,
    {
        let s = self.entries@;
        let k = place_of(s[i]);
        let j = choose|j: int| 0 <= j < s.len() && #[trigger] place_of(s[j]) == k;
        assert(i == j);
    }

    /// No keys.
    #[must_use]
    pub fn new() -> (r: Self)
        ensures
            r.wf(),
            r@ == Map::<(Seq<u8>, u32), Seq<u8>>::empty(),
    {
        let r = SkippedKeys { entries: Vec::new() };
        assert(r@ =~= Map::<(Seq<u8>, u32), Seq<u8>>::empty());
        r
    }

    /// Where the key of a message stands.
    fn find(&self, remote: &PublicKey, n: u32) -> (r: Option<usize>)
        requires
            self.wf(),
        ensures
            match r {
                Some(i) => i < self.entries@.len() && place_of(self.entries@[i as int]) == (
                    remote@,
                    n,
                ),
                None => !self@.contains_key((remote@, n)),
            },
    {
        let mut i: usize = 0;
        while i < self.entries.len()
            invariant
                i <= self.entries@.len(),
                forall|k: int| 0 <= k < i ==> #[trigger] place_of(self.entries@[k]) != (remote@, n),
            decreases self.entries@.len() - i,
        {
            if self.entries[i].n == n && self.entries[i].remote.same(remote) {
                return Some(i);
            }
            i = i + 1;
        }
        None
    }

    /// Whether the key of a message is kept.
    #[must_use]
    pub fn contains(&self, remote: &PublicKey, n: u32) -> (r: bool)
        requires
            self.wf(),
        ensures
            r == self@.contains_key((remote@, n)),
    {
        match self.find(remote, n) {
            Some(i) => {
                proof {
                    self.lemma_entry(i as int);
                }
                true
            },
            None => false,
        }
    }

    /// Keeps the key of a message.
    pub fn put(&mut self, remote: &PublicKey, n: u32, key: SecretBytes)
        requires
            old(self).wf(),
        ensures
            final(self).wf(),
            final(self)@ == old(self)@.insert((remote@, n), key@),
    {
        let ghost k = (remote@, n);
        match self.find(remote, n) {
            Some(i) => {
                let entry = SkippedKey { remote: *remote, n, key };
                self.entries.set(i, entry);
                proof {
                    assert forall|x: (Seq<u8>, u32)| #[trigger]
                        self@.contains_key(x) <==> old(self)@.insert(k, key@).contains_key(x) by {
                        if self@.contains_key(x) {
                            let j = choose|j: int|
                                0 <= j < self.entries@.len() && #[trigger] place_of(
                                    self.entries@[j],
                                ) == x;
                            assert(place_of(old(self).entries@[j]) == x);
                        }
                        if old(self)@.contains_key(x) {
                            let j = choose|j: int|
                                0 <= j < old(self).entries@.len() && #[trigger] place_of(
                                    old(self).entries@[j],
                                ) == x;
                            assert(place_of(self.entries@[j]) == x);
                        }
                        assert(place_of(self.entries@[i as int]) == k);
                    }
                    assert(self.wf()) by {
                        let s = self.entries@;
                        let t = old(self).entries@;
                        assert forall|a: int, b: int| 0 <= a < b < s.len() implies #[trigger]
                            place_of(s[a]) != #[trigger] place_of(s[b]) by {
                            assert(place_of(t[a]) == place_of(s[a]));
                            assert(place_of(t[b]) == place_of(s[b]));
                        }
                    }
                    assert forall|x: (Seq<u8>, u32)| #[trigger]
                        self@.contains_key(x) implies self@[x] == old(self)@.insert(k, key@)[x] by {
                        let j = choose|j: int|
                            0 <= j < self.entries@.len() && #[trigger] place_of(self.entries@[j])
                                == x;
                        self.lemma_entry(j);
                        assert(place_of(old(self).entries@[j]) == x);
                        old(self).lemma_entry(j);
                    }
                    assert(self@ =~= old(self)@.insert(k, key@));
                }
            },
            None => {
                let entry = SkippedKey { remote: *remote, n, key };
                self.entries.push(entry);
                proof {
                    let s = self.entries@;
                    let t = old(self).entries@;
                    assert forall|a: int| 0 <= a < t.len() implies #[trigger] place_of(s[a]) != k by {
                        assert(place_of(t[a]) == place_of(s[a]));
                        old(self).lemma_entry(a);
                    }
                    assert(place_of(s[t.len() as int]) == k);
                    assert forall|a: int, b: int| 0 <= a < b < s.len() implies #[trigger]
                        place_of(s[a]) != #[trigger] place_of(s[b]) by {
                        assert(place_of(t[a]) == place_of(s[a]));
                        if b < t.len() {
                            assert(place_of(t[b]) == place_of(s[b]));
                        }
                    }
                    assert(self.wf());
                    assert forall|x: (Seq<u8>, u32)| #[trigger]
                        self@.contains_key(x) <==> old(self)@.insert(k, key@).contains_key(x) by {
                        if self@.contains_key(x) {
                            let j = choose|j: int|
                                0 <= j < s.len() && #[trigger] place_of(s[j]) == x;
                            if j < t.len() {
                                assert(place_of(t[j]) == x);
                            }
                        }
                        if old(self)@.contains_key(x) {
                            let j = choose|j: int|
                                0 <= j < t.len() && #[trigger] place_of(t[j]) == x;
                            assert(place_of(s[j]) == x);
                        }
                    }
                    assert forall|x: (Seq<u8>, u32)| #[trigger]
                        self@.contains_key(x) implies self@[x] == old(self)@.insert(k, key@)[x] by {
                        let j = choose|j: int| 0 <= j < s.len() && #[trigger] place_of(s[j]) == x;
                        self.lemma_entry(j);
                        if j < t.len() {
                            assert(place_of(t[j]) == x);
                            old(self).lemma_entry(j);
                        }
                    }
                    assert(self@ =~= old(self)@.insert(k, key@));
                }
            },
        }
    }

    /// Takes the key of a message out, if it is there.
    pub fn take(&mut self, remote: &PublicKey, n: u32) -> (r: Option<SecretBytes>)
        requires
            old(self).wf(),
        ensures
            final(self).wf(),
            final(self)@ == old(self)@.remove((remote@, n)),
            match r {
                Some(key) => old(self)@.contains_key((remote@, n)) && key@ == old(self)@[(
                    remote@,
                    n,
                )],
                None => !old(self)@.contains_key((remote@, n)),
            },
    {
        let ghost k = (remote@, n);
        match self.find(remote, n) {
            None => {
                assert(self@.remove(k) =~= self@);
                None
            },
            Some(i) => {
                proof {
                    self.lemma_entry(i as int);
                }
                let entry = self.entries.remove(i);
                proof {
                    let s = self.entries@;
                    let t = old(self).entries@;
                    assert forall|a: int| 0 <= a < s.len() implies #[trigger] place_of(s[a])
                        == place_of(
                        t[if a < i {
                            a
                        } else {
                            a + 1
                        }],
                    ) by {}
                    assert(self.wf()) by {
                        assert forall|a: int, b: int| 0 <= a < b < s.len() implies #[trigger]
                            place_of(s[a]) != #[trigger] place_of(s[b]) by {}
                    }
                    assert forall|x: (Seq<u8>, u32)| #[trigger]
                        self@.contains_key(x) <==> old(self)@.remove(k).contains_key(x) by {
                        if self@.contains_key(x) {
                            let j = choose|j: int|
                                0 <= j < s.len() && #[trigger] place_of(s[j]) == x;
                            let j2 = if j < i {
                                j
                            } else {
                                j + 1
                            };
                            assert(place_of(t[j2]) == x);
                            assert(place_of(t[i as int]) == k);
                        }
                        if old(self)@.contains_key(x) && x != k {
                            let j = choose|j: int|
                                0 <= j < t.len() && #[trigger] place_of(t[j]) == x;
                            let j2 = if j < i {
                                j
                            } else {
                                j - 1
                            };
                            assert(place_of(s[j2]) == x);
                        }
                    }
                    assert forall|x: (Seq<u8>, u32)| #[trigger]
                        self@.contains_key(x) implies self@[x] == old(self)@.remove(k)[x] by {
                        let j = choose|j: int| 0 <= j < s.len() && #[trigger] place_of(s[j]) == x;
                        self.lemma_entry(j);
                        let j2 = if j < i {
                            j
                        } else {
                            j + 1
                        };
                        assert(place_of(t[j2]) == x);
                        old(self).lemma_entry(j2);
                    }
                    assert(self@ =~= old(self)@.remove(k));
                }
                Some(entry.key)
            },
        }
    }
}

} // verus!
