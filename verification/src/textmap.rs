//! A map keyed by strings that keeps its entries in the order of their keys.

use vstd::prelude::*;
use crate::text::{
    TextOrder, lemma_text_less_strict, lemma_text_less_transitive, text_less, text_order,
};

verus! {

/// A map from strings to values, in the order of the keys.
#[derive(Debug)]
pub struct TextMap<V> {
    entries: Vec<(String, V)>,
}

/// The keys rise from entry to entry.
pub open spec fn rising<V>(s: Seq<(Seq<char>, V)>) -> bool {
    forall|i: int, j: int|
        0 <= i < j < s.len() ==> text_less((#[trigger] s[i]).0, (#[trigger] s[j]).0)
}

/// The map that a sequence of entries stands for.
pub open spec fn map_of<V>(s: Seq<(Seq<char>, V)>) -> Map<Seq<char>, V> {
    Map::new(
        |k: Seq<char>| exists|i: int| 0 <= i < s.len() && (#[trigger] s[i]).0 == k,
        |k: Seq<char>| s[choose|i: int| 0 <= i < s.len() && (#[trigger] s[i]).0 == k].1,
    )
}

/// Every entry is in the map.
pub proof fn lemma_map_of_entry<V>(s: Seq<(Seq<char>, V)>, i: int)
    requires
        rising(s),
        0 <= i < s.len(),
    ensures
        map_of(s).contains_key(s[i].0),
        map_of(s)[s[i].0] == s[i].1,
{
    let k = s[i].0;
    let j = choose|j: int| 0 <= j < s.len() && (#[trigger] s[j]).0 == k;
    lemma_text_less_strict(s[i].0, s[j].0);
    lemma_text_less_strict(s[j].0, s[i].0);
}

/// The map has as many keys as there are entries.
pub proof fn lemma_map_of_len<V>(s: Seq<(Seq<char>, V)>)
    requires
        rising(s),
    ensures
        map_of(s).dom().finite(),
        map_of(s).dom().len() == s.len(),
    decreases s.len(),
{
    if s.len() == 0 {
        assert(map_of(s).dom() =~= Set::<Seq<char>>::empty());
    } else {
        let t = s.drop_last();
        let k = s.last().0;
        lemma_map_of_len(t);
        if map_of(t).contains_key(k) {
            let i = choose|i: int| 0 <= i < t.len() && (#[trigger] t[i]).0 == k;
            assert(t[i] == s[i]);
            lemma_text_less_strict(s[i].0, s[s.len() - 1].0);
        }
        assert forall|x: Seq<char>| map_of(s).contains_key(x) <==> map_of(t).dom().insert(
            k,
        ).contains(x) by {
            if map_of(s).contains_key(x) {
                let i = choose|i: int| 0 <= i < s.len() && (#[trigger] s[i]).0 == x;
                if i < t.len() {
                    assert(t[i] == s[i]);
                }
            }
            if map_of(t).contains_key(x) {
                let i = choose|i: int| 0 <= i < t.len() && (#[trigger] t[i]).0 == x;
                assert(s[i] == t[i]);
            }
            assert(s[s.len() - 1].0 == k);
        }
        assert(map_of(s).dom() =~= map_of(t).dom().insert(k));
    }
}

impl<V> View for TextMap<V> {
    type V = Map<Seq<char>, V>;

    open spec fn view(&self) -> Map<Seq<char>, V> {
        map_of(self.listing())
    }
}

impl<V> TextMap<V> {
    /// The entries in the order of their keys.
    pub closed spec fn listing(&self) -> Seq<(Seq<char>, V)> {
        self.entries@.map_values(|e: (String, V)| (e.0@, e.1))
    }

    /// The keys rise.
    pub open spec fn wf(&self) -> bool {
        rising(self.listing())
    }

    /// An empty map.
    pub fn new() -> (m: Self)
        ensures
            m.wf(),
            m.listing() == Seq::<(Seq<char>, V)>::empty(),
            m@ == Map::<Seq<char>, V>::empty(),
    {
        let m = TextMap { entries: Vec::new() };
        assert(m.listing() =~= Seq::<(Seq<char>, V)>::empty());
        assert(m@ =~= Map::<Seq<char>, V>::empty());
        m
    }

    /// The number of entries.
    pub fn len(&self) -> (n: usize)
        ensures
            n == self.listing().len(),
    {
        self.entries.len()
    }

    /// The key of the entry at `i`.
    pub fn key_at(&self, i: usize) -> (k: &String)
        requires
            i < self.listing().len(),
        ensures
            k@ == self.listing()[i as int].0,
    {
        &self.entries[i].0
    }

    /// The value of the entry at `i`.
    pub fn value_at(&self, i: usize) -> (v: &V)
        requires
            i < self.listing().len(),
        ensures
            *v == self.listing()[i as int].1,
    {
        &self.entries[i].1
    }

    /// The place of a key: that of its entry, or where it would go.
    pub fn place(&self, key: &str) -> (r: (usize, bool))
        requires
            self.wf(),
        ensures
            r.0 <= self.listing().len(),
            forall|i: int| 0 <= i < r.0 ==> text_less((#[trigger] self.listing()[i]).0, key@),
            r.1 ==> r.0 < self.listing().len() && self.listing()[r.0 as int].0 == key@,
            !r.1 ==> forall|i: int|
                r.0 <= i < self.listing().len() ==> text_less(key@, (#[trigger] self.listing()[i]).0),
            r.1 <==> self@.contains_key(key@),
            r.1 ==> self@[key@] == self.listing()[r.0 as int].1,
    {
        let mut at: usize = 0;
        while at < self.entries.len()
            invariant
                self.wf(),
                at <= self.listing().len(),
                self.listing().len() == self.entries@.len(),
                forall|i: int| 0 <= i < at ==> text_less((#[trigger] self.listing()[i]).0, key@),
            decreases self.entries@.len() - at,
        {
            assert(self.listing()[at as int].0 == self.entries@[at as int].0@);
            match text_order(self.entries[at].0.as_str(), key) {
                TextOrder::Less => {},
                TextOrder::Same => {
                    proof {
                        lemma_map_of_entry(self.listing(), at as int);
                    }
                    return (at, true);
                },
                TextOrder::More => {
                    proof {
                        let s = self.listing();
                        assert forall|i: int| at <= i < s.len() implies text_less(
                            key@,
                            (#[trigger] s[i]).0,
                        ) by {
                            if i > at {
                                lemma_text_less_transitive(key@, s[at as int].0, s[i].0);
                            }
                        }
                        self.lemma_absent(key@, at as int);
                    }
                    return (at, false);
                },
            }
            at = at + 1;
        }
        proof {
            self.lemma_absent(key@, at as int);
        }
        (at, false)
    }

    proof fn lemma_absent(&self, key: Seq<char>, at: int)
        requires
            self.wf(),
            0 <= at <= self.listing().len(),
            forall|i: int| 0 <= i < at ==> text_less((#[trigger] self.listing()[i]).0, key),
            forall|i: int|
                at <= i < self.listing().len() ==> text_less(key, (#[trigger] self.listing()[i]).0),
        ensures
            !self@.contains_key(key),
    {
        let s = self.listing();
        assert forall|i: int| 0 <= i < s.len() implies (#[trigger] s[i]).0 != key by {
            lemma_text_less_strict(s[i].0, key);
            lemma_text_less_strict(key, s[i].0);
        }
    }

    /// The value of a key.
    pub fn get(&self, key: &str) -> (r: Option<&V>)
        requires
            self.wf(),
        ensures
            match r {
                Some(v) => self@.contains_key(key@) && *v == self@[key@],
                None => !self@.contains_key(key@),
            },
    {
        let (at, found) = self.place(key);
        if found {
            Some(&self.entries[at].1)
        } else {
            None
        }
    }

    /// Enters a new key.
    pub fn insert(&mut self, key: String, value: V)
        requires
            old(self).wf(),
            !old(self)@.contains_key(key@),
        ensures
            final(self).wf(),
            final(self)@ == old(self)@.insert(key@, value),
            exists|at: int|
                0 <= at <= old(self).listing().len() && final(self).listing()
                    == #[trigger] old(self).listing().insert(at, (key@, value)),
    {
        let (at, _) = self.place(key.as_str());
        let ghost s = self.listing();
        let ghost e = (key@, value);
        self.entries.insert(at, (key, value));
        proof {
            let t = self.listing();
            assert(t =~= s.insert(at as int, e));
            assert forall|i: int, j: int| 0 <= i < j < t.len() implies text_less(
                (#[trigger] t[i]).0,
                (#[trigger] t[j]).0,
            ) by {
                let a = if i < at {
                    i
                } else {
                    i - 1
                };
                let b = if j < at {
                    j
                } else {
                    j - 1
                };
                if i != at {
                    assert(t[i] == s[a]);
                }
                if j != at {
                    assert(t[j] == s[b]);
                }
            }
            let m = map_of(s).insert(e.0, e.1);
            assert forall|k: Seq<char>| map_of(t).contains_key(k) <==> m.contains_key(k) by {
                if map_of(t).contains_key(k) {
                    let i = choose|i: int| 0 <= i < t.len() && (#[trigger] t[i]).0 == k;
                    if i != at {
                        let a = if i < at {
                            i
                        } else {
                            i - 1
                        };
                        assert(t[i] == s[a]);
                        lemma_map_of_entry(s, a);
                    }
                }
                if m.contains_key(k) {
                    if k == e.0 {
                        assert(t[at as int].0 == k);
                    } else {
                        let a = choose|a: int| 0 <= a < s.len() && (#[trigger] s[a]).0 == k;
                        let i = if a < at {
                            a
                        } else {
                            a + 1
                        };
                        assert(t[i] == s[a]);
                    }
                }
            }
            assert forall|k: Seq<char>| map_of(t).contains_key(k) implies map_of(t)[k] == m[k] by {
                let i = choose|i: int| 0 <= i < t.len() && (#[trigger] t[i]).0 == k;
                lemma_map_of_entry(t, i);
                if i != at {
                    let a = if i < at {
                        i
                    } else {
                        i - 1
                    };
                    assert(t[i] == s[a]);
                    lemma_map_of_entry(s, a);
                }
            }
            assert(self@ =~= m);
        }
    }

    /// Gives the key of the entry at `i` another value.
    pub fn set_at(&mut self, i: usize, value: V)
        requires
            old(self).wf(),
            i < old(self).listing().len(),
        ensures
            final(self).wf(),
            final(self).listing() == old(self).listing().update(
                i as int,
                (old(self).listing()[i as int].0, value),
            ),
            final(self)@ == old(self)@.insert(old(self).listing()[i as int].0, value),
    {
        let ghost s = self.listing();
        self.entries[i].1 = value;
        proof {
            let t = self.listing();
            assert(t =~= s.update(i as int, (s[i as int].0, value)));
            let m = map_of(s).insert(s[i as int].0, value);
            assert forall|k: Seq<char>| map_of(t).contains_key(k) <==> m.contains_key(k) by {
                if map_of(t).contains_key(k) {
                    let j = choose|j: int| 0 <= j < t.len() && (#[trigger] t[j]).0 == k;
                    lemma_map_of_entry(s, j);
                }
                if m.contains_key(k) && k != s[i as int].0 {
                    let j = choose|j: int| 0 <= j < s.len() && (#[trigger] s[j]).0 == k;
                    assert(t[j].0 == k);
                } else if m.contains_key(k) {
                    assert(t[i as int].0 == k);
                }
            }
            assert(rising(t)) by {
                assert forall|a: int, b: int| 0 <= a < b < t.len() implies text_less(
                    (#[trigger] t[a]).0,
                    (#[trigger] t[b]).0,
                ) by {
                    assert(t[a].0 == s[a].0 && t[b].0 == s[b].0);
                }
            }
            assert forall|k: Seq<char>| map_of(t).contains_key(k) implies map_of(t)[k] == m[k] by {
                let j = choose|j: int| 0 <= j < t.len() && (#[trigger] t[j]).0 == k;
                lemma_map_of_entry(t, j);
                lemma_map_of_entry(s, j);
                if k == s[i as int].0 {
                    lemma_map_of_entry(t, i as int);
                }
            }
            assert(self@ =~= m);
        }
    }

    /// Takes a key out.
    pub fn remove(&mut self, key: &str) -> (r: Option<V>)
        requires
            old(self).wf(),
        ensures
            final(self).wf(),
            final(self)@ == old(self)@.remove(key@),
            match r {
                Some(v) => {
                    &&& old(self)@.contains_key(key@)
                    &&& v == old(self)@[key@]
                    &&& final(self).listing().len() == old(self).listing().len() - 1
                },
                None => !old(self)@.contains_key(key@) && *final(self) == *old(self),
            },
    {
        let (at, found) = self.place(key);
        if !found {
            assert(self@.remove(key@) =~= self@);
            return None;
        }
        let ghost s = self.listing();
        let (_, value) = self.entries.remove(at);
        proof {
            let t = self.listing();
            assert(t =~= s.remove(at as int));
            assert forall|i: int, j: int| 0 <= i < j < t.len() implies text_less(
                (#[trigger] t[i]).0,
                (#[trigger] t[j]).0,
            ) by {
                let a = if i < at {
                    i
                } else {
                    i + 1
                };
                let b = if j < at {
                    j
                } else {
                    j + 1
                };
                assert(t[i] == s[a] && t[j] == s[b]);
            }
            let m = map_of(s).remove(key@);
            assert forall|k: Seq<char>| map_of(t).contains_key(k) <==> m.contains_key(k) by {
                if map_of(t).contains_key(k) {
                    let i = choose|i: int| 0 <= i < t.len() && (#[trigger] t[i]).0 == k;
                    let a = if i < at {
                        i
                    } else {
                        i + 1
                    };
                    assert(t[i] == s[a]);
                    lemma_map_of_entry(s, a);
                    if i < at {
                        lemma_text_less_strict(s[a].0, s[at as int].0);
                    } else {
                        lemma_text_less_strict(s[at as int].0, s[a].0);
                    }
                }
                if m.contains_key(k) {
                    let a = choose|a: int| 0 <= a < s.len() && (#[trigger] s[a]).0 == k;
                    let i = if a < at {
                        a
                    } else {
                        a - 1
                    };
                    assert(t[i] == s[a]);
                }
            }
            assert forall|k: Seq<char>| map_of(t).contains_key(k) implies map_of(t)[k] == m[k] by {
                let i = choose|i: int| 0 <= i < t.len() && (#[trigger] t[i]).0 == k;
                lemma_map_of_entry(t, i);
                let a = if i < at {
                    i
                } else {
                    i + 1
                };
                assert(t[i] == s[a]);
                lemma_map_of_entry(s, a);
            }
            assert(self@ =~= m);
        }
        Some(value)
    }
}

} // verus!
